//! Reads Acorn ADFS disc images: the map of a disc, its directories and its files.

pub mod agreement;
pub mod export;
pub mod flat_map;
pub mod free_space;
pub mod laws;
pub mod new_map;
pub mod text;

use vstd::prelude::*;
use vstd::string::*;

pub use new_map::util::take_ls_bit;
use new_map::util::BitPosition;
use text::{decimal_text, push_decimal};

verus! {

/// What can be wrong with the list of free fragments of a flat map.
#[derive(Debug, Clone, Copy, PartialEq, Eq, Structural)]
pub enum LoadErrors {
    /// The free link does not point at a fragment.
    InvalidFreeLink(u16),
    /// A free fragment points at a place where no fragment starts.
    BrokenFreeChain { origin: BitPosition, dest_bit_offset: BitPosition },
}

impl LoadErrors {
    /// The error in words.
    pub open spec fn text(self) -> Seq<char> {
        match self {
            LoadErrors::InvalidFreeLink(link) => "Free link value "@ + decimal_text(link as nat)
                + " did not point at valid fragment"@,
            LoadErrors::BrokenFreeChain { origin, dest_bit_offset } =>
                "Free fragment block at offset "@ + origin.debug_text()
                + " bits points to offset "@ + dest_bit_offset.debug_text()
                + " bits which does not contain a fragment"@,
        }
    }

    /// The error in words.
    pub fn to_string(&self) -> (s: String)
        ensures
            s@ == self.text(),
    {
        let mut s = String::new();
        match self {
            LoadErrors::InvalidFreeLink(link) => {
                s.append("Free link value ");
                push_decimal(&mut s, *link as u64);
                s.append(" did not point at valid fragment");
            },
            LoadErrors::BrokenFreeChain { origin, dest_bit_offset } => {
                s.append("Free fragment block at offset ");
                s.append(origin.debug_string().as_str());
                s.append(" bits points to offset ");
                s.append(dest_bit_offset.debug_string().as_str());
                s.append(" bits which does not contain a fragment");
            },
        }
        assert(s@ =~= self.text());
        s
    }
}

} // verus!
