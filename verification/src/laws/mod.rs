//! What the library promises, said in terms of the bytes of a disc and of what is handed
//! out, and proved.
//!
//! The contracts say what a function returns by way of specification functions. The laws
//! here do not go by those: they say how something is written on a disc, and that reading
//! it gives back what was written.

pub mod blocks;
pub mod contents;
pub mod directories;
pub mod failures;
pub mod faults;
pub mod files;
pub mod flat;
pub mod free_parts;
pub mod geometry;
pub mod maps;
pub mod numbers;
pub mod paths;
pub mod reading;
pub mod reasons;
pub mod records;
pub mod texts;
pub mod views;
pub mod ways;
pub mod words;
