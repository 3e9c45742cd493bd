//! Files of a disc, as files of another system: where they go, and what stands in
//! the file beside each of them that keeps its load address and the like.

use vstd::prelude::*;
use vstd::string::*;
use vstd::utf8::{decode_utf8, valid_utf8};

use crate::new_map::filesystem::DirEntry;
use crate::new_map::sys_structures::{fetched, FormatE};
use crate::new_map::util::name_text;
use crate::new_map::{Cause, CauseView, Defect, FaultValue, Path};
use crate::text::{decimal_text, from_utf8, push_decimal, push_radix, radix_text};

verus! {

/// The line that describes a file: its name in quotes, its load and execution
/// addresses in hexadecimal, its length, and its attributes as a number.
pub open spec fn inf_text(entry: DirEntry) -> Seq<char> {
    "\""@ + name_text(entry.obj_name@) + "\" "@ + radix_text(entry.load as nat, 16, true) + " "@
        + radix_text(entry.exec_address as nat, 16, true) + " "@ + decimal_text(entry.len as nat)
        + " "@ + decimal_text(entry.attrs.bits as nat)
}

/// The line that describes a file.
pub fn inf_data(dir: &DirEntry) -> (s: String)
    ensures
        s@ == inf_text(*dir),
{
    let mut s = String::new();
    s.append("\"");
    dir.obj_name.push_text(&mut s);
    s.append("\" ");
    push_radix(&mut s, dir.load as u64, 16, true);
    s.append(" ");
    push_radix(&mut s, dir.exec_address as u64, 16, true);
    s.append(" ");
    push_decimal(&mut s, dir.len as u64);
    s.append(" ");
    push_decimal(&mut s, dir.attrs.bits() as u64);
    assert(s@ =~= inf_text(*dir));
    s
}

/// A character of a name as it is written elsewhere: `/` and `!` have a meaning of
/// their own there.
pub open spec fn os_char(c: char) -> char {
    if c == '/' {
        '.'
    } else if c == '!' {
        '$'
    } else {
        c
    }
}

/// A name as it is written elsewhere.
pub open spec fn os_text(name: Seq<u8>) -> Seq<char> {
    decode_utf8(name).map_values(|c: char| os_char(c))
}

/// A name as it is written elsewhere. Gives nothing where the name is not valid
/// UTF-8.
fn os_segment(name: &[u8]) -> (r: Option<String>)
    ensures
        match r {
            Some(segment) => valid_utf8(name@) && segment@ == os_text(name@),
            None => !valid_utf8(name@),
        },
{
    let raw: &str = match from_utf8(name) {
        Some(raw) => raw,
        None => {
            return None;
        },
    };
    let mut segment = String::new();
    let total: usize = raw.unicode_len();
    let mut i: usize = 0;
    while i < total
        invariant
            i <= total == raw@.len(),
            segment@ =~= raw@.take(i as int).map_values(|c: char| os_char(c)),
        decreases total - i,
    {
        let c: char = raw.get_char(i);
        let shown: char = if c == '/' {
            '.'
        } else if c == '!' {
            '$'
        } else {
            c
        };
        segment.push(shown);
        assert(raw@.take(i + 1) =~= raw@.take(i as int).push(c));
        i = i + 1;
    }
    assert(raw@.take(total as int) =~= raw@);
    Some(segment)
}

/// The names of a path as they are written elsewhere. Gives nothing where one of
/// them is not valid UTF-8.
pub fn convert_path_to_os(p: &Path) -> (r: Option<Vec<String>>)
    ensures
        match r {
            Some(segments) => {
                &&& segments@.len() == p@.len()
                &&& forall|i: int| 0 <= i < p@.len() ==> valid_utf8(#[trigger] p@[i])
                &&& forall|i: int| 0 <= i < p@.len() ==> (#[trigger] segments@[i])@ == os_text(p@[i])
            },
            None => exists|i: int| 0 <= i < p@.len() && !valid_utf8(#[trigger] p@[i]),
        },
{
    let names: Vec<Vec<u8>> = p.to_byte_segments();
    let mut segments: Vec<String> = Vec::new();
    let mut i: usize = 0;
    while i < names.len()
        invariant
            i <= names@.len(),
            names@.len() == p@.len(),
            forall|j: int| 0 <= j < names@.len() ==> (#[trigger] names@[j])@ == p@[j],
            segments@.len() == i,
            forall|j: int| 0 <= j < i ==> valid_utf8(#[trigger] p@[j]),
            forall|j: int| 0 <= j < i ==> (#[trigger] segments@[j])@ == os_text(p@[j]),
        decreases names@.len() - i,
    {
        match os_segment(names[i].as_slice()) {
            Some(segment) => {
                assert(names@[i as int]@ == p@[i as int]);
                segments.push(segment);
            },
            None => {
                assert(!valid_utf8(p@[i as int]));
                return None;
            },
        }
        i = i + 1;
    }
    Some(segments)
}

/// What is to be written out for a path: the entry of a file and its contents, or
/// nothing where the path leads to no file that can be read. Fails where what the
/// disc says cannot be followed.
pub fn extract_file(disk: &mut FormatE, path: &Path) -> (r: Result<
    Option<(DirEntry, Vec<u8>)>,
    Defect,
>)
    requires
        old(disk).wf(),
    ensures
        final(disk).wf(),
        ({
            let (after, found) = fetched(old(disk)@, path@);
            &&& final(disk)@ == after
            &&& match r {
                Ok(Some((entry, contents))) => found matches Ok(Ok(file)) && file == (
                    entry,
                    contents@,
                ),
                Ok(None) => match found {
                    Ok(Ok(_)) => false,
                    Ok(Err(_)) => true,
                    Err(e) => !(e.cause is Defect),
                },
                Err(defect) => found matches Err(e) && e.cause == CauseView::Defect(defect),
            }
        }),
{
    match disk.try_get_file(path) {
        Ok(FaultValue(Ok(file), _)) => Ok(Some(file)),
        Ok(FaultValue(Err(_), _)) => Ok(None),
        Err(e) => match e.cause {
            Cause::Defect(defect) => Err(defect),
            _ => Ok(None),
        },
    }
}

} // verus!
