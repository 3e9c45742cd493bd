//! Faults and errors in words.

use vstd::arithmetic::power2::*;
use vstd::prelude::*;

use super::files::{object_named, sectors_behind};
use super::texts::{digit_value, is_number, law_numbers_are_shown, law_padding, number_of};
use crate::new_map::path::path_text;
use crate::new_map::util::{BitPosition, DiscPosition, FixedLenString};
use crate::new_map::{FaultView, IoErrorView};
use crate::text::{
    decimal_text, decoded, escape_debug_text, padded_text, quoted_text, radix_text,
};
use crate::LoadErrors;

verus! {

/// Whether a text shows a number in a base.
pub open spec fn shows(text: Seq<char>, n: int, base: int) -> bool {
    is_number(text, base) && number_of(text, base) == n
}

/// Whether a text shows a byte in base 16 in two places, the first of which may stay empty.
pub open spec fn shows_byte(text: Seq<char>, b: u8) -> bool {
    &&& text.len() == 2
    &&& b >= 16 ==> shows(text, b as int, 16)
    &&& b < 16 ==> text[0] == ' ' && shows(text.skip(1), b as int, 16)
}

proof fn lemma_byte(b: u8)
    ensures
        shows_byte(padded_text(radix_text(b as nat, 16, true), 2, ' '), b),
{
    let digits = radix_text(b as nat, 16, true);
    let text = padded_text(digits, 2, ' ');
    law_numbers_are_shown(b as nat, 16, true);
    law_padding(digits, 2, ' ');
    reveal_with_fuel(radix_text, 3);
    if b < 16 {
        assert(digits.len() == 1);
        assert(text.skip(1) =~= digits);
    } else {
        assert(b as nat / 16 < 16);
        assert(digits.len() == 2);
        assert(text =~= digits);
    }
}

/// Zeros in front do not change a number.
proof fn lemma_zeros_in_front(digits: Seq<char>, width: nat, base: int)
    requires
        1 <= base,
        is_number(digits, base),
    ensures
        shows(padded_text(digits, width, '0'), number_of(digits, base), base),
    decreases digits.len(),
{
    let text = padded_text(digits, width, '0');
    let more = text.len() - digits.len();
    assert forall|i: int| 0 <= i < text.len() implies (#[trigger] digit_value(text[i]) matches Some(
        d,
    ) && d < base) by {
        if i >= more {
            assert(text[i] == digits[i - more]);
            assert(digit_value(digits[i - more]) matches Some(d) && d < base);
        }
    }
    lemma_zeros_and(text, digits, more, base);
}

proof fn lemma_zeros_and(text: Seq<char>, digits: Seq<char>, more: int, base: int)
    requires
        0 <= more,
        text.len() == more + digits.len(),
        forall|i: int| 0 <= i < more ==> text[i] == '0',
        forall|i: int| 0 <= i < digits.len() ==> text[more + i] == digits[i],
    ensures
        number_of(text, base) == number_of(digits, base),
    decreases text.len(),
{
    if digits.len() > 0 {
        assert(text.last() == text[more + (digits.len() - 1)]);
        lemma_zeros_and(text.drop_last(), digits.drop_last(), more, base);
    } else if more > 0 {
        lemma_zeros_and(text.drop_last(), digits, more - 1, base);
        assert(text.last() == '0');
        assert(base * 0 == 0) by (nonlinear_arith);
    }
}

/// A place of the map is shown as a number of bits, and as bytes and the bits behind them.
pub proof fn law_bit_position(position: BitPosition) -> (parts: (Seq<char>, Seq<char>, Seq<char>))
    ensures
        ({
            let (all, bytes, bits) = parts;
            &&& position.debug_text() == "BitPosition { val: "@ + all + ", bytes: "@ + bytes
                + ", bits: "@ + bits + " }"@
            &&& shows(all, position.0 as int, 10)
            &&& is_number(bytes, 10)
            &&& is_number(bits, 10)
            &&& 8 * number_of(bytes, 10) + number_of(bits, 10) == position.0
            &&& 0 <= number_of(bits, 10) < 8
        }),
{
    law_numbers_are_shown(position.0 as nat, 10, false);
    law_numbers_are_shown((position.0 / 8) as nat, 10, false);
    law_numbers_are_shown((position.0 % 8) as nat, 10, false);
    (
        decimal_text(position.0 as nat),
        decimal_text((position.0 / 8) as nat),
        decimal_text((position.0 % 8) as nat),
    )
}

/// An address is shown as a number, and as the object that it names and the sectors behind
/// its beginning.
pub proof fn law_disc_position(address: u32) -> (parts: (Seq<char>, Seq<char>, Seq<char>))
    ensures
        ({
            let (all, object, sector) = parts;
            &&& DiscPosition(address).debug_text() == "DiscPosition { val: "@ + all
                + ", fragment: "@ + object + ", sector no: "@ + sector + " }"@
            &&& shows(all, address as int, 10)
            &&& shows(object, object_named(address), 10)
            &&& shows(sector, sectors_behind(address), 10)
        }),
{
    law_numbers_are_shown(address as nat, 10, false);
    law_numbers_are_shown(object_named(address) as nat, 10, false);
    law_numbers_are_shown(sectors_behind(address) as nat, 10, false);
    (
        decimal_text(address as nat),
        decimal_text(object_named(address) as nat),
        decimal_text(sectors_behind(address) as nat),
    )
}

/// A string of fixed length is shown with all of its bytes to someone who looks for what is
/// wrong with it.
pub proof fn law_whole_string(name: FixedLenString<10>)
    ensures
        name.debug_text() == "FixedLenString("@ + quoted_text(decoded(name.0@)) + ")"@,
{
}

/// A link that leads nowhere is shown in base 16, in four places.
pub proof fn law_bad_link_in_words(link: u16) -> (digits: Seq<char>)
    ensures
        FaultView::InvalidFreeLink(link).text() == "Free link value 0x"@ + digits
            + " did not point at valid fragment"@,
        shows(digits, link as int, 16),
        digits.len() == 4,
{
    let bare = radix_text(link as nat, 16, false);
    law_numbers_are_shown(link as nat, 16, false);
    law_padding(bare, 4, '0');
    lemma_zeros_in_front(bare, 4, 16);
    reveal_with_fuel(radix_text, 4);
    let n = link as nat;
    assert(n / 16 < 4096 && n / 16 / 16 < 256 && n / 16 / 16 / 16 < 16);
    assert(bare.len() <= 4);
    padded_text(bare, 4, '0')
}

/// A list of free fragments that breaks off is told with both places.
pub proof fn law_broken_list_in_words(origin: BitPosition, dest: BitPosition)
    ensures
        (FaultView::BrokenFreeChain { origin, dest_bit_offset: dest }).text()
            == "Free fragment block at offset "@ + origin.debug_text()
            + " bits points to offset "@ + dest.debug_text()
            + " bits which does not contain a fragment"@,
        (LoadErrors::BrokenFreeChain { origin, dest_bit_offset: dest }).text()
            == (FaultView::BrokenFreeChain { origin, dest_bit_offset: dest }).text(),
{
}

/// The list of fragments tells a link that leads nowhere in base 10.
pub proof fn law_bad_link_of_list_in_words(link: u16) -> (digits: Seq<char>)
    ensures
        LoadErrors::InvalidFreeLink(link).text() == "Free link value "@ + digits
            + " did not point at valid fragment"@,
        shows(digits, link as int, 10),
{
    law_numbers_are_shown(link as nat, 10, false);
    decimal_text(link as nat)
}

/// Attributes that have a bit that stands for nothing are told bit by bit, with the path.
pub proof fn law_bad_attributes_in_words(
    location: BitPosition,
    path: Seq<Seq<u8>>,
    value: u8,
) -> (digits: Seq<char>)
    ensures
        (FaultView::InvalidAttr { location, path, attr_value: value }).text() == "File "@
            + path_text(path) + " has invalid attribute byte: "@ + digits,
        shows(digits, value as int, 2),
{
    law_numbers_are_shown(value as nat, 2, false);
    radix_text(value as nat, 2, false)
}

/// What cannot be read is told by its path, and the root without one; four bytes that are
/// none of the two words are shown as text.
pub proof fn law_unreadable_in_words(
    path: Seq<Seq<u8>>,
    root_link: DiscPosition,
    sector_size: usize,
    bytes: Seq<u8>,
)
    ensures
        (FaultView::InvalidDir { path }).text() == "Could not retrieve directory "@ + path_text(path),
        (FaultView::InvalidRoot { root_link, sector_size }).text()
            == "Could not retrieve root directory"@,
        FaultView::MagicStringFailure(bytes).text() == "Expected 'Nick' or 'Hugo', found "@
            + escape_debug_text(decoded(bytes)),
{
}

/// Two numbers of a directory that differ are both told, the first one first.
pub proof fn law_mismatch_in_words(path: Seq<Seq<u8>>, start: u8, end: u8) -> (parts: (
    Seq<char>,
    Seq<char>,
))
    ensures
        (FaultView::SequenceNumberMismatch {
            path,
            start_seq_num: start,
            end_seq_num: end,
        }).text() == "Directory "@ + path_text(path) + " began with sequence number 0x"@ + parts.0
            + " but ended with 0x"@ + parts.1,
        shows(parts.0, start as int, 16),
        shows(parts.1, end as int, 16),
{
    law_numbers_are_shown(start as nat, 16, true);
    law_numbers_are_shown(end as nat, 16, true);
    (radix_text(start as nat, 16, true), radix_text(end as nat, 16, true))
}

/// Check bytes that are not what they should be are told with what the bytes give first, and
/// what stands there last.
pub proof fn law_check_bytes_in_words(path: Seq<Seq<u8>>, expected: u8, actual: u8) -> (parts: (
    Seq<char>,
    Seq<char>,
))
    ensures
        (FaultView::CheckByteFailure { path, expected, actual }).text() == "Directory "@ + path_text(
            path,
        ) + " gives a check byte of "@ + parts.0 + ", but holds "@ + parts.1,
        (FaultView::ZoneCheckFailure { expected, actual }).text()
            == "Calculated a zone check value of "@ + parts.0 + ", but expected "@ + parts.1,
        FaultView::CrossCheckFailure(actual).text() == "Map had a cross check failure of "@
            + parts.0,
        shows_byte(parts.0, actual),
        shows_byte(parts.1, expected),
{
    lemma_byte(actual);
    lemma_byte(expected);
    (
        padded_text(radix_text(actual as nat, 16, true), 2, ' '),
        padded_text(radix_text(expected as nat, 16, true), 2, ' '),
    )
}

/// There are words for every fault, but for a sector size that cannot be counted.
pub proof fn law_words(fault: FaultView)
    ensures
        !fault.has_text() ==> (fault matches FaultView::UnacceptableSectorSize(size) && pow2(
            size as nat,
        ) > usize::MAX),
{
}

/// A sector size that no disc has is told in bytes.
pub proof fn law_sector_size_in_words(size: u8) -> (digits: Seq<char>)
    ensures
        FaultView::UnacceptableSectorSize(size).text() == "Detected sector size ("@ + digits
            + ") was too big or small to be plausible"@,
        shows(digits, pow2(size as nat) as int, 10),
{
    law_numbers_are_shown(pow2(size as nat), 10, false);
    decimal_text(pow2(size as nat))
}

/// Why a path leads to nothing that can be read is told with the path, or with the address
/// that no fragment belongs to.
pub proof fn law_errors_in_words(address: u32, path: Seq<Seq<u8>>)
    ensures
        IoErrorView::MissingFragment(DiscPosition(address)).text()
            == "Could not find indirect disc position "@ + DiscPosition(address).debug_text(),
        IoErrorView::MissingTarget(path).text() == "No entity with path "@ + path_text(path),
        IoErrorView::InvalidTarget(path).text() == "Path "@ + path_text(path)
            + " did exist but did not have requested type"@,
{
}

} // verus!
