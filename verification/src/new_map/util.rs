//! Types and functions that stand for nothing on the disc by themselves but are
//! used by everything that does.

use std::cmp::Ordering;
use std::hash::{Hash, Hasher};
use std::ops::Add;

use vstd::prelude::*;
use vstd::std_specs::cmp::{PartialEqSpec, PartialOrdSpec};
use vstd::string::*;

use super::{bare, Cause, CauseView, ParseError};
use crate::text::{
    decimal_text, decoded, escaped_text, from_utf8_lossy, push_decimal, push_escaped, quoted,
    quoted_text,
};

verus! {

/// The bytes of an image together with the place that is read next.
///
/// Where a structure lies matters as much as what it holds, so positions always
/// count from the beginning of the image.
#[derive(Debug, Clone, Copy)]
pub struct InputStream<'a> {
    pub data: &'a [u8],
    pub pos: usize,
}

impl<'a> InputStream<'a> {
    /// The next byte to be read lies in the image or directly behind it.
    pub open spec fn wf(self) -> bool {
        self.pos <= self.data@.len()
    }

    /// What has not been read yet.
    pub open spec fn rest(self) -> Seq<u8> {
        self.data@.skip(self.pos as int)
    }

    /// Whether every bit of the image has a position.
    pub open spec fn bits_fit(self) -> bool {
        bits_fit(self.data@.len())
    }
}

/// Whether every bit of that many bytes has a position, and so has every place
/// that a fragment at such a bit can point at.
pub open spec fn bits_fit(len: nat) -> bool {
    8 * len + 0xFFFF <= usize::MAX
}

/// A stream that is read bit by bit: the next byte, and how many of its bits
/// have been read.
pub type BitInput<'a> = (InputStream<'a>, usize);

/// The place of the next bit, counted from the beginning of the image.
pub open spec fn bit_index(input: BitInput<'_>) -> int {
    8 * input.0.pos + input.1
}

/// A bit stream at some bit of a byte.
pub open spec fn bit_input_wf(input: BitInput<'_>) -> bool {
    &&& input.0.wf()
    &&& input.1 < 8
}

/// The number of a disc object. It has at most 15 bits on the disc.
pub type FragmentId = u16;

/// A stream over a byte slice, at its beginning.
pub fn make_input<'a>(input: &'a [u8]) -> (stream: InputStream<'a>)
    ensures
        stream.data == input,
        stream.pos == 0,
        stream.wf(),
{
    InputStream { data: input, pos: 0 }
}

/// Bit `i` of a byte string, least significant bits first.
pub open spec fn bit(s: Seq<u8>, i: int) -> bool {
    (s[i / 8] >> ((i % 8) as u8)) % 2 > 0
}

/// Reads one bit, the least significant one of a byte first.
pub fn take_ls_bit(input: &mut BitInput<'_>) -> (r: Result<bool, ParseError>)
    requires
        bit_input_wf(*old(input)),
    ensures
        bit_input_wf(*final(input)),
        final(input).0.data == old(input).0.data,
        match r {
            Ok(b) => {
                &&& bit_index(*old(input)) < 8 * old(input).0.data@.len()
                &&& b == bit(old(input).0.data@, bit_index(*old(input)))
                &&& bit_index(*final(input)) == bit_index(*old(input)) + 1
            },
            Err(e) => {
                &&& bit_index(*old(input)) >= 8 * old(input).0.data@.len()
                &&& e@ == bare(CauseView::Incomplete)
                &&& *final(input) == *old(input)
            },
        },
{
    let pos: usize = input.0.pos;
    let offset: usize = input.1;
    if pos >= input.0.data.len() {
        return Err(ParseError::new(Cause::Incomplete));
    }
    let byte: u8 = input.0.data[pos];
    let shaved_byte: u8 = byte >> (offset as u8);
    let o = (shaved_byte % 2) > 0;
    if offset + 1 == 8 {
        input.0.pos = pos + 1;
        input.1 = 0;
    } else {
        input.1 = offset + 1;
    }
    Ok(o)
}

/// The 16-bit number at `i`, least significant byte first.
pub open spec fn le_u16(s: Seq<u8>, i: int) -> u16 {
    (s[i] + 0x100 * s[i + 1]) as u16
}

/// The 24-bit number at `i`, least significant byte first.
pub open spec fn le_u24(s: Seq<u8>, i: int) -> u32 {
    (s[i] + 0x100 * s[i + 1] + 0x1_0000 * s[i + 2]) as u32
}

/// The 32-bit number at `i`, least significant byte first.
pub open spec fn le_u32(s: Seq<u8>, i: int) -> u32 {
    (s[i] + 0x100 * s[i + 1] + 0x1_0000 * s[i + 2] + 0x100_0000 * s[i + 3]) as u32
}

/// Reads the 16-bit number at `i`.
pub fn u16_at(data: &[u8], i: usize) -> (n: u16)
    requires
        i + 2 <= data@.len(),
    ensures
        n == le_u16(data@, i as int),
{
    data[i] as u16 + 0x100 * data[i + 1] as u16
}

/// Reads the 24-bit number at `i`.
pub fn u24_at(data: &[u8], i: usize) -> (n: u32)
    requires
        i + 3 <= data@.len(),
    ensures
        n == le_u24(data@, i as int),
        n < 0x100_0000,
{
    data[i] as u32 + 0x100 * data[i + 1] as u32 + 0x1_0000 * data[i + 2] as u32
}

/// Reads the 32-bit number at `i`.
pub fn u32_at(data: &[u8], i: usize) -> (n: u32)
    requires
        i + 4 <= data@.len(),
    ensures
        n == le_u32(data@, i as int),
{
    data[i] as u32 + 0x100 * data[i + 1] as u32 + 0x1_0000 * data[i + 2] as u32 + 0x100_0000
        * data[i + 3] as u32
}

/// Where a sector that is filled up to byte `p` ends: there, if it is full.
pub open spec fn sector_end(p: int, sector_size: int) -> int {
    p + (sector_size - p % sector_size) % sector_size
}

/// What is filled up to the end of a sector takes whole sectors, and no more of them
/// than it has to.
pub proof fn lemma_sector_end(p: int, sector_size: int)
    requires
        0 <= p,
        0 < sector_size,
    ensures
        p <= sector_end(p, sector_size) < p + sector_size,
        sector_end(p, sector_size) % sector_size == 0,
{
    let r = p % sector_size;
    let q = p / sector_size;
    vstd::arithmetic::div_mod::lemma_fundamental_div_mod(p, sector_size);
    if r == 0 {
        vstd::arithmetic::div_mod::lemma_mod_self_0(sector_size);
    } else {
        vstd::arithmetic::div_mod::lemma_small_mod(
            (sector_size - r) as nat,
            sector_size as nat,
        );
        assert(sector_end(p, sector_size) == (q + 1) * sector_size) by (nonlinear_arith)
            requires
                p == sector_size * q + r,
                sector_end(p, sector_size) == p + sector_size - r,
        ;
        vstd::arithmetic::div_mod::lemma_mod_multiples_basic(q + 1, sector_size);
    }
}

/// A structure that begins with a sector and needs no more than one takes exactly one
/// sector.
pub proof fn lemma_one_sector(start: int, p: int, sector_size: int)
    requires
        0 < sector_size,
        0 <= start < p <= start + sector_size,
        start % sector_size == 0,
    ensures
        sector_end(p, sector_size) == start + sector_size,
{
    let q = start / sector_size;
    vstd::arithmetic::div_mod::lemma_fundamental_div_mod(start, sector_size);
    let n = p - start;
    assert(p == q * sector_size + n) by (nonlinear_arith)
        requires
            start == sector_size * q,
            n == p - start,
    ;
    vstd::arithmetic::div_mod::lemma_mod_multiples_vanish(q, n, sector_size);
    assert(sector_size * q + n == p) by (nonlinear_arith)
        requires
            p == q * sector_size + n,
    ;
    if n == sector_size {
        vstd::arithmetic::div_mod::lemma_mod_self_0(sector_size);
    } else {
        vstd::arithmetic::div_mod::lemma_small_mod(n as nat, sector_size as nat);
        vstd::arithmetic::div_mod::lemma_small_mod(
            (sector_size - n) as nat,
            sector_size as nat,
        );
    }
}

/// Reads the rest of a sector. Gives nothing where the image ends before it does.
pub fn take_rest_of_sector(input: &mut InputStream<'_>, sector_size: usize) -> (r: Option<Vec<u8>>)
    requires
        old(input).wf(),
        sector_size > 0,
    ensures
        final(input).wf(),
        final(input).data == old(input).data,
        ({
            let s = old(input).data@;
            let p = old(input).pos as int;
            let end = sector_end(p, sector_size as int);
            match r {
                Some(rest) => {
                    &&& end <= s.len()
                    &&& rest@ == s.subrange(p, end)
                    &&& final(input).pos == end
                },
                None => end > s.len() && *final(input) == *old(input),
            }
        }),
{
    let p: usize = input.pos;
    let remainder: usize = (sector_size - p % sector_size) % sector_size;
    if input.data.len() - p < remainder {
        return None;
    }
    let rest: Vec<u8> = vstd::slice::slice_to_vec(
        vstd::slice::slice_subrange(input.data, p, p + remainder),
    );
    input.pos = p + remainder;
    Some(rest)
}

/// A place in the image, counted in bits.
#[derive(Clone, Copy, Debug, PartialEq, Eq, PartialOrd, Ord, Hash, Structural)]
pub struct BitPosition(pub usize);

impl BitPosition {
    /// The place where a byte begins.
    pub fn from_bytes(bytes: usize) -> (position: BitPosition)
        requires
            8 * bytes <= usize::MAX,
        ensures
            position.0 == 8 * bytes,
    {
        BitPosition(8 * bytes)
    }

    /// The byte, and the bit inside it.
    pub fn split(&self) -> (r: (usize, usize))
        ensures
            self.0 == 8 * r.0 + r.1,
            r.1 < 8,
    {
        (self.0 / 8, self.0 % 8)
    }

    /// The position with its byte and bit spelled out.
    pub open spec fn debug_text(self) -> Seq<char> {
        "BitPosition { val: "@ + decimal_text(self.0 as nat) + ", bytes: "@ + decimal_text(
            (self.0 / 8) as nat,
        ) + ", bits: "@ + decimal_text((self.0 % 8) as nat) + " }"@
    }

    /// The position with its byte and bit spelled out.
    pub fn debug_string(&self) -> (s: String)
        ensures
            s@ == self.debug_text(),
    {
        let (bytes, bits) = self.split();
        let mut s = String::new();
        s.append("BitPosition { val: ");
        push_decimal(&mut s, self.0 as u64);
        s.append(", bytes: ");
        push_decimal(&mut s, bytes as u64);
        s.append(", bits: ");
        push_decimal(&mut s, bits as u64);
        s.append(" }");
        assert(s@ =~= self.debug_text());
        s
    }
}

impl Add for BitPosition {
    type Output = Self;

    fn add(self, rhs: Self) -> (sum: Self) {
        BitPosition(self.0 + rhs.0)
    }
}

impl vstd::std_specs::ops::AddSpecImpl for BitPosition {
    open spec fn obeys_add_spec() -> bool {
        true
    }

    open spec fn add_req(self, rhs: Self) -> bool {
        self.0 + rhs.0 <= usize::MAX
    }

    open spec fn add_spec(self, rhs: Self) -> Self {
        BitPosition((self.0 + rhs.0) as usize)
    }
}

/// An "indirect disc address": the number of a disc object and a place inside
/// it, counted in sectors.
///
/// The bits are laid out as `ddd00000 0fffffff ffffffff ssssssss`, where the `f`
/// bits are the number of the disc object and the `s` bits the sector. Sectors
/// count from 1, except that 0 stands for the beginning of the object too.
#[derive(Clone, Copy, Debug, PartialEq, Eq, PartialOrd, Ord, Structural)]
pub struct DiscPosition(pub u32);

impl DiscPosition {
    /// The number of the disc object.
    pub open spec fn fragment_number(self) -> int {
        (self.0 as int / 0x100) % 0x8000
    }

    /// The sector inside the object, counted from 0.
    pub open spec fn sector(self) -> int {
        if self.0 as int % 0x100 == 0 {
            0
        } else {
            self.0 as int % 0x100 - 1
        }
    }

    /// Reads a position as directories hold it, in three bytes.
    pub fn parse_for_new_map(input: &mut InputStream<'_>) -> (r: Result<DiscPosition, ParseError>)
        requires
            old(input).wf(),
        ensures
            final(input).wf(),
            final(input).data == old(input).data,
            match r {
                Ok(position) => {
                    &&& old(input).pos + 3 <= old(input).data@.len()
                    &&& position.0 == le_u24(old(input).data@, old(input).pos as int)
                    &&& final(input).pos == old(input).pos + 3
                },
                Err(e) => {
                    &&& old(input).pos + 3 > old(input).data@.len()
                    &&& e@ == bare(CauseView::Truncated)
                    &&& *final(input) == *old(input)
                },
            },
    {
        if input.data.len() - input.pos < 3 {
            return Err(ParseError::new(Cause::Truncated));
        }
        let value: u32 = u24_at(input.data, input.pos);
        input.pos = input.pos + 3;
        Ok(DiscPosition(value))
    }

    /// The number of the disc object.
    pub fn fragment(&self) -> (id: FragmentId)
        ensures
            id == self.fragment_number(),
            id < 0x8000,
    {
        let n: u32 = self.0;
        assert((n & 0x7F_FF_00u32) >> 8u32 == (n / 0x100u32) % 0x8000u32) by (bit_vector);
        ((self.0 & 0x7F_FF_00) >> 8) as u16
    }

    /// The sector inside the object, counted from 0.
    pub fn sector_idx(&self) -> (sector: u8)
        ensures
            sector == self.sector(),
    {
        let n: u32 = self.0;
        assert(n & 0xFFu32 == n % 0x100u32) by (bit_vector);
        let low: u32 = self.0 & 0xFF;
        if low == 0 {
            0
        } else {
            (low - 1) as u8
        }
    }

    /// The position with its parts spelled out.
    pub open spec fn debug_text(self) -> Seq<char> {
        "DiscPosition { val: "@ + decimal_text(self.0 as nat) + ", fragment: "@ + decimal_text(
            self.fragment_number() as nat,
        ) + ", sector no: "@ + decimal_text(self.sector() as nat) + " }"@
    }

    /// The position with its parts spelled out.
    pub fn debug_string(&self) -> (s: String)
        ensures
            s@ == self.debug_text(),
    {
        let mut s = String::new();
        s.append("DiscPosition { val: ");
        push_decimal(&mut s, self.0 as u64);
        s.append(", fragment: ");
        push_decimal(&mut s, self.fragment() as u64);
        s.append(", sector no: ");
        push_decimal(&mut s, self.sector_idx() as u64);
        s.append(" }");
        assert(s@ =~= self.debug_text());
        s
    }
}

/// How one byte string or list of names stands to another in dictionary order.
#[derive(Clone, Copy, Debug, PartialEq, Eq, Structural)]
pub enum Relation {
    Before,
    Same,
    After,
}

/// Dictionary order of byte strings.
pub open spec fn byte_order(a: Seq<u8>, b: Seq<u8>) -> Relation
    decreases a.len(),
{
    if a.len() == 0 && b.len() == 0 {
        Relation::Same
    } else if a.len() == 0 {
        Relation::Before
    } else if b.len() == 0 {
        Relation::After
    } else if a[0] < b[0] {
        Relation::Before
    } else if a[0] > b[0] {
        Relation::After
    } else {
        byte_order(a.drop_first(), b.drop_first())
    }
}

/// Compares two byte strings.
pub fn compare_bytes(a: &[u8], b: &[u8]) -> (r: Relation)
    ensures
        r == byte_order(a@, b@),
{
    let mut i: usize = 0;
    assert(a@.skip(0) =~= a@ && b@.skip(0) =~= b@);
    while i < a.len() && i < b.len()
        invariant
            i <= a@.len(),
            i <= b@.len(),
            byte_order(a@, b@) == byte_order(a@.skip(i as int), b@.skip(i as int)),
        decreases a@.len() - i,
    {
        if a[i] < b[i] {
            return Relation::Before;
        }
        if a[i] > b[i] {
            return Relation::After;
        }
        assert(a@.skip(i as int).drop_first() =~= a@.skip(i + 1));
        assert(b@.skip(i as int).drop_first() =~= b@.skip(i + 1));
        i = i + 1;
    }
    if i < a.len() {
        Relation::After
    } else if i < b.len() {
        Relation::Before
    } else {
        Relation::Same
    }
}

/// Only a byte string itself is in the same place as it is.
pub proof fn lemma_byte_order_same(a: Seq<u8>, b: Seq<u8>)
    ensures
        byte_order(a, b) == Relation::Same <==> a == b,
    decreases a.len(),
{
    if a.len() > 0 && b.len() > 0 && a[0] == b[0] {
        lemma_byte_order_same(a.drop_first(), b.drop_first());
        if a.drop_first() == b.drop_first() {
            assert(a =~= seq![a[0]] + a.drop_first());
            assert(b =~= seq![b[0]] + b.drop_first());
        }
    } else if a.len() == 0 && b.len() == 0 {
        assert(a =~= b);
    }
}

/// What stands before another stands before everything behind that other.
pub proof fn lemma_byte_order_chain(a: Seq<u8>, b: Seq<u8>, c: Seq<u8>)
    ensures
        byte_order(a, b) == Relation::Before && byte_order(b, c) == Relation::Before ==> byte_order(
            a,
            c,
        ) == Relation::Before,
    decreases a.len(),
{
    if a.len() > 0 && b.len() > 0 && c.len() > 0 {
        lemma_byte_order_chain(a.drop_first(), b.drop_first(), c.drop_first());
    }
}

/// The order is the same seen from either side.
pub proof fn lemma_byte_order_flip(a: Seq<u8>, b: Seq<u8>)
    ensures
        byte_order(a, b) == Relation::Before <==> byte_order(b, a) == Relation::After,
    decreases a.len(),
{
    if a.len() > 0 && b.len() > 0 {
        lemma_byte_order_flip(a.drop_first(), b.drop_first());
    }
}

/// Control characters end a name: those of ASCII and the block behind it.
pub open spec fn is_control(b: u8) -> bool {
    b < 0x20 || 0x7F <= b < 0xA0
}

/// How many bytes stand before the first control character.
pub open spec fn name_len(s: Seq<u8>) -> nat
    decreases s.len(),
{
    if s.len() == 0 || is_control(s[0]) {
        0
    } else {
        1 + name_len(s.drop_first())
    }
}

/// The bytes before the first control character.
pub open spec fn name_of(s: Seq<u8>) -> Seq<u8> {
    s.take(name_len(s) as int)
}

/// What `name_len` counts.
pub proof fn lemma_name_len(s: Seq<u8>)
    ensures
        name_len(s) <= s.len(),
        forall|i: int| 0 <= i < name_len(s) ==> !is_control(#[trigger] s[i]),
        name_len(s) < s.len() ==> is_control(s[name_len(s) as int]),
    decreases s.len(),
{
    if s.len() > 0 && !is_control(s[0]) {
        let rest = s.drop_first();
        lemma_name_len(rest);
        assert forall|i: int| 0 <= i < name_len(s) implies !is_control(#[trigger] s[i]) by {
            if i > 0 {
                assert(s[i] == rest[i - 1]);
            }
        }
    }
}

/// The first control character is where nothing but other characters stands
/// before it.
pub proof fn lemma_name_len_is(s: Seq<u8>, n: int)
    requires
        0 <= n <= s.len(),
        forall|i: int| 0 <= i < n ==> !is_control(#[trigger] s[i]),
        n < s.len() ==> is_control(s[n]),
    ensures
        name_len(s) == n,
{
    lemma_name_len(s);
    if name_len(s) < n {
        assert(!is_control(s[name_len(s) as int]));
    } else if name_len(s) > n {
        assert(!is_control(s[n]));
    }
}

/// A byte string filled up to `len` bytes with zeros, or cut off there.
pub open spec fn padded(s: Seq<u8>, len: nat) -> Seq<u8> {
    Seq::new(len, |i: int| if i < s.len() { s[i] } else { 0 })
}

/// Characters that mean something to the system, and that no part of a path may hold.
pub open spec fn is_forbidden(b: u8) -> bool {
    ||| b == 0x22  // "
    ||| b == 0x23  // #
    ||| b == 0x24  // $
    ||| b == 0x25  // %
    ||| b == 0x26  // &
    ||| b == 0x2A  // *
    ||| b == 0x2E  // .
    ||| b == 0x3A  // :
    ||| b == 0x40  // @
    ||| b == 0x5E  // ^
    ||| b == 0x7C  // |

}

/// Where a part of a path ends: at a control character, which ends every name, or at
/// a character that means something to the system.
pub open spec fn ends_segment(b: u8) -> bool {
    is_control(b) || is_forbidden(b)
}

/// How many bytes stand before the first one that cannot be part of a segment.
pub open spec fn segment_run(s: Seq<u8>) -> nat
    decreases s.len(),
{
    if s.len() == 0 || ends_segment(s[0]) {
        0
    } else {
        1 + segment_run(s.drop_first())
    }
}

/// What `segment_run` counts.
pub proof fn lemma_segment_run(s: Seq<u8>)
    ensures
        segment_run(s) <= s.len(),
        forall|i: int| 0 <= i < segment_run(s) ==> !ends_segment(#[trigger] s[i]),
        segment_run(s) < s.len() ==> ends_segment(s[segment_run(s) as int]),
    decreases s.len(),
{
    if s.len() > 0 && !ends_segment(s[0]) {
        let rest = s.drop_first();
        lemma_segment_run(rest);
        assert forall|i: int| 0 <= i < segment_run(s) implies !ends_segment(#[trigger] s[i]) by {
            if i > 0 {
                assert(s[i] == rest[i - 1]);
            }
        }
    }
}

/// The run ends where nothing but bytes of a segment stands before it.
pub proof fn lemma_segment_run_is(s: Seq<u8>, n: int)
    requires
        0 <= n <= s.len(),
        forall|i: int| 0 <= i < n ==> !ends_segment(#[trigger] s[i]),
        n < s.len() ==> ends_segment(s[n]),
    ensures
        segment_run(s) == n,
{
    lemma_segment_run(s);
    if segment_run(s) < n {
        assert(!ends_segment(s[segment_run(s) as int]));
    } else if segment_run(s) > n {
        assert(!ends_segment(s[n]));
    }
}

/// A byte string of fixed length, as discs hold names.
///
/// On the disc it always has the same length; what it means ends at the first
/// control character. That part is its view.
#[derive(Clone, Copy, Debug, Eq)]
pub struct FixedLenString<const LEN: usize>(pub [u8; LEN]);

impl<const LEN: usize> View for FixedLenString<LEN> {
    type V = Seq<u8>;

    open spec fn view(&self) -> Seq<u8> {
        name_of(self.0@)
    }
}

/// The string whose bytes begin at `p`.
pub open spec fn string_at<const LEN: usize>(s: Seq<u8>, p: int) -> FixedLenString<LEN> {
    choose|name: FixedLenString<LEN>| name.0@ == s.subrange(p, p + LEN)
}

/// Strings with the same bytes are the same.
pub proof fn lemma_string_unique<const LEN: usize>(a: FixedLenString<LEN>, b: FixedLenString<LEN>)
    requires
        a.0@ == b.0@,
    ensures
        a == b,
{
    assert forall|i: int| 0 <= i < LEN implies a.0[i] == b.0[i] by {
        assert(a.0@[i] == b.0@[i]);
    }
    assert(a.0 =~= b.0);
}

/// An array can hold any bytes, as many as it has room for.
pub proof fn lemma_array_of<const LEN: usize>(bytes: Seq<u8>, n: int) -> (a: [u8; LEN])
    requires
        bytes.len() == LEN,
        0 <= n <= LEN,
    ensures
        forall|i: int| 0 <= i < n ==> a@[i] == bytes[i],
    decreases n,
{
    broadcast use vstd::array::group_array_axioms;

    if n == 0 {
        vstd::array::spec_array_fill_for_copy_type::<u8, LEN>(0)
    } else {
        let before = lemma_array_of::<LEN>(bytes, n - 1);
        vstd::array::spec_array_update::<u8, LEN>(before, n - 1, bytes[n - 1])
    }
}

/// The string at `p` has the bytes that stand there.
pub proof fn lemma_string_at<const LEN: usize>(s: Seq<u8>, p: int)
    requires
        0 <= p,
        p + LEN <= s.len(),
    ensures
        string_at::<LEN>(s, p).0@ == s.subrange(p, p + LEN),
{
    let bytes = s.subrange(p, p + LEN);
    let name = FixedLenString(lemma_array_of::<LEN>(bytes, LEN as int));
    assert(name.0@ =~= bytes);
}

/// Whether a byte is a control character.
fn byte_is_control(b: u8) -> (r: bool)
    ensures
        r == is_control(b),
{
    b < 0x20 || (0x7F <= b && b < 0xA0)
}

/// Whether a byte cannot be part of a segment.
fn byte_ends_segment(b: u8) -> (r: bool)
    ensures
        r == ends_segment(b),
{
    byte_is_control(b) || b == 0x22 || b == 0x23 || b == 0x24 || b == 0x25 || b == 0x26 || b
        == 0x2A || b == 0x2E || b == 0x3A || b == 0x40 || b == 0x5E || b == 0x7C
}

impl<const LEN: usize> FixedLenString<LEN> {
    /// A string that begins with the given bytes, as many as have room, and goes
    /// on with zeros. Control characters are taken as they are.
    pub fn from_bytes_dynamic(input: &[u8]) -> (r: FixedLenString<LEN>)
        ensures
            r.0@ == padded(input@, LEN as nat),
    {
        let mut output: [u8; LEN] = [0u8; LEN];
        let mut i: usize = 0;
        while i < LEN && i < input.len()
            invariant
                i <= LEN,
                i <= input@.len(),
                forall|j: int| 0 <= j < i ==> output@[j] == input@[j],
                forall|j: int| i <= j < LEN ==> output@[j] == 0,
            decreases LEN - i,
        {
            output[i] = input[i];
            i = i + 1;
        }
        assert(output@ =~= padded(input@, LEN as nat));
        FixedLenString(output)
    }

    /// Reads one part of a path from text. It ends before the first control character
    /// or character that no part of a path may hold, and after `LEN` bytes at the latest; an empty
    /// part is refused.
    pub fn parse_from_byte_str(input: &mut InputStream<'_>) -> (r: Result<
        FixedLenString<LEN>,
        ParseError,
    >)
        requires
            old(input).wf(),
        ensures
            final(input).wf(),
            final(input).data == old(input).data,
            ({
                let run = segment_run(old(input).rest());
                let n = if run < LEN {
                    run
                } else {
                    LEN as nat
                };
                match r {
                    Ok(name) => {
                        &&& n > 0
                        &&& name.0@ == padded(old(input).rest().take(n as int), LEN as nat)
                        &&& final(input).pos == old(input).pos + n
                    },
                    Err(e) => {
                        &&& n == 0
                        &&& e@ == bare(CauseView::Mismatch)
                        &&& *final(input) == *old(input)
                    },
                }
            }),
    {
        let ghost rest = input.rest();
        let start: usize = input.pos;
        let total: usize = input.data.len();
        let mut output: [u8; LEN] = [0u8; LEN];
        let mut n: usize = 0;
        while n < LEN && n < total - start && !byte_ends_segment(input.data[start + n])
            invariant
                *input == *old(input),
                rest == input.rest(),
                input.wf(),
                start == input.pos,
                total == input.data@.len(),
                n <= LEN,
                n <= rest.len(),
                forall|j: int| 0 <= j < n ==> output@[j] == rest[j],
                forall|j: int| 0 <= j < n ==> !ends_segment(#[trigger] rest[j]),
                forall|j: int| n <= j < LEN ==> output@[j] == 0,
            decreases LEN - n,
        {
            output[n] = input.data[start + n];
            n = n + 1;
        }
        proof {
            lemma_segment_run(rest);
            if n < LEN {
                lemma_segment_run_is(rest, n as int);
            } else if segment_run(rest) < n {
                assert(!ends_segment(rest[segment_run(rest) as int]));
            }
        }
        if n == 0 {
            return Err(ParseError::new(Cause::Mismatch));
        }
        assert(output@ =~= padded(rest.take(n as int), LEN as nat));
        input.pos = start + n;
        Ok(FixedLenString(output))
    }

    /// Reads a string from the disc, exactly `LEN` bytes. An empty one, which
    /// begins with a control character, is accepted.
    pub fn parse_from_disk(input: &mut InputStream<'_>) -> (r: Result<
        FixedLenString<LEN>,
        ParseError,
    >)
        requires
            old(input).wf(),
        ensures
            final(input).wf(),
            final(input).data == old(input).data,
            match r {
                Ok(name) => {
                    &&& old(input).pos + LEN <= old(input).data@.len()
                    &&& name.0@ == old(input).data@.subrange(
                        old(input).pos as int,
                        old(input).pos + LEN,
                    )
                    &&& name == string_at::<LEN>(old(input).data@, old(input).pos as int)
                    &&& final(input).pos == old(input).pos + LEN
                },
                Err(e) => {
                    &&& old(input).pos + LEN > old(input).data@.len()
                    &&& e@ == bare(CauseView::Truncated)
                    &&& *final(input) == *old(input)
                },
            },
    {
        if input.data.len() - input.pos < LEN {
            return Err(ParseError::new(Cause::Truncated));
        }
        let name = FixedLenString::<LEN>::read_at(input.data, input.pos);
        input.pos = input.pos + LEN;
        Ok(name)
    }

    /// The string whose bytes begin at `at`.
    pub fn read_at(data: &[u8], at: usize) -> (name: FixedLenString<LEN>)
        requires
            at + LEN <= data@.len(),
        ensures
            name.0@ == data@.subrange(at as int, at + LEN),
            name == string_at::<LEN>(data@, at as int),
    {
        let total: usize = data.len();
        let mut output: [u8; LEN] = [0u8; LEN];
        let mut i: usize = 0;
        while i < LEN
            invariant
                i <= LEN,
                at + LEN <= total,
                total == data@.len(),
                forall|j: int| 0 <= j < i ==> output@[j] == data@[at + j],
            decreases LEN - i,
        {
            output[i] = data[at + i];
            i = i + 1;
        }
        assert(output@ =~= data@.subrange(at as int, at + LEN));
        let name = FixedLenString(output);
        proof {
            assert(name.0@ == data@.subrange(at as int, at + LEN));
            let other = string_at::<LEN>(data@, at as int);
            assert(other.0@ == data@.subrange(at as int, at + LEN));
            lemma_string_unique(name, other);
        }
        name
    }

    /// Whether the name has no bytes.
    pub fn is_empty(&self) -> (r: bool)
        ensures
            r == (self@.len() == 0),
    {
        self.len() == 0
    }

    /// The length of the name.
    pub fn len(&self) -> (n: usize)
        ensures
            n == self@.len(),
            n == name_len(self.0@),
            n <= LEN,
    {
        let mut i: usize = 0;
        while i < LEN && !byte_is_control(self.0[i])
            invariant
                i <= LEN,
                forall|j: int| 0 <= j < i ==> !is_control(#[trigger] self.0@[j]),
            decreases LEN - i,
        {
            i = i + 1;
        }
        proof {
            lemma_name_len_is(self.0@, i as int);
        }
        i
    }

    /// The bytes of the name.
    pub fn valid_range(&self) -> (bytes: &[u8])
        ensures
            bytes@ == self@,
    {
        let idx: usize = self.len();
        let bytes = vstd::slice::slice_subrange(self.0.as_slice(), 0, idx);
        assert(bytes@ =~= self@);
        bytes
    }

    /// Whether this name is how the other one begins.
    pub fn is_prefix(&self, other: &Self) -> (r: bool)
        ensures
            r == self@.is_prefix_of(other@),
    {
        let a = self.valid_range();
        let b = other.valid_range();
        if a.len() > b.len() {
            return false;
        }
        let mut i: usize = 0;
        while i < a.len()
            invariant
                i <= a@.len() <= b@.len(),
                a@ == self@,
                b@ == other@,
                forall|j: int| 0 <= j < i ==> a@[j] == b@[j],
            decreases a@.len() - i,
        {
            if a[i] != b[i] {
                assert(a@[i as int] != b@.take(a@.len() as int)[i as int]);
                return false;
            }
            i = i + 1;
        }
        assert(a@ =~= b@.take(a@.len() as int));
        true
    }

    /// How this name stands to the other in dictionary order.
    pub fn compare(&self, other: &Self) -> (r: Relation)
        ensures
            r == byte_order(self@, other@),
    {
        compare_bytes(self.valid_range(), other.valid_range())
    }

    /// How this name stands to the other in dictionary order.
    pub fn cmp(&self, other: &Self) -> (r: Ordering)
        ensures
            r == ordering_of(byte_order(self@, other@)),
    {
        self.compare(other).to_ordering()
    }
}

/// The standard library's word for a relation.
pub open spec fn ordering_of(relation: Relation) -> Ordering {
    match relation {
        Relation::Before => Ordering::Less,
        Relation::Same => Ordering::Equal,
        Relation::After => Ordering::Greater,
    }
}

impl Relation {
    /// The standard library's word for this relation.
    pub fn to_ordering(self) -> (r: Ordering)
        ensures
            r == ordering_of(self),
    {
        match self {
            Relation::Before => Ordering::Less,
            Relation::Same => Ordering::Equal,
            Relation::After => Ordering::Greater,
        }
    }
}

impl<const LEN: usize> PartialEq for FixedLenString<LEN> {
    fn eq(&self, other: &Self) -> (r: bool) {
        proof {
            lemma_byte_order_same(self@, other@);
        }
        match self.compare(other) {
            Relation::Same => true,
            _ => false,
        }
    }
}

impl<const LEN: usize> vstd::std_specs::cmp::PartialEqSpecImpl for FixedLenString<LEN> {
    open spec fn obeys_eq_spec() -> bool {
        true
    }

    open spec fn eq_spec(&self, other: &Self) -> bool {
        self@ == other@
    }
}

impl<const LEN: usize> PartialOrd for FixedLenString<LEN> {
    fn partial_cmp(&self, other: &Self) -> (r: Option<Ordering>) {
        Some(self.compare(other).to_ordering())
    }
}

impl<const LEN: usize> vstd::std_specs::cmp::PartialOrdSpecImpl for FixedLenString<LEN> {
    open spec fn obeys_partial_cmp_spec() -> bool {
        true
    }

    open spec fn partial_cmp_spec(&self, other: &Self) -> Option<Ordering> {
        Some(ordering_of(byte_order(self@, other@)))
    }
}

/// Two names are equal exactly where the bytes before their terminators are, and exactly
/// where neither comes before the other; their order is the dictionary order of those
/// bytes.
pub proof fn lemma_names_alike<const LEN: usize>(a: FixedLenString<LEN>, b: FixedLenString<LEN>)
    ensures
        a.eq_spec(&b) <==> a@ == b@,
        a.partial_cmp_spec(&b) == Some(ordering_of(byte_order(a@, b@))),
        a.eq_spec(&b) <==> a.partial_cmp_spec(&b) == Some(Ordering::Equal),
{
    lemma_byte_order_same(a@, b@);
}

/// Neither the terminator of a name nor what follows it makes a difference.
pub proof fn lemma_terminators<const LEN: usize>(
    a: FixedLenString<LEN>,
    b: FixedLenString<LEN>,
    n: int,
)
    requires
        0 <= n < LEN,
        a.0@.take(n) == b.0@.take(n),
        is_control(a.0@[n]),
        is_control(b.0@[n]),
    ensures
        a.eq_spec(&b),
{
    let (x, y) = (a.0@, b.0@);
    lemma_name_len(x);
    let m = name_len(x) as int;
    assert(m <= n);
    assert forall|i: int| 0 <= i < n implies x[i] == y[i] by {
        assert(x.take(n)[i] == y.take(n)[i]);
    }
    lemma_name_len_is(y, m);
    assert(name_of(x) =~= name_of(y));
}

/// Calls `Hasher::write`, which hands the bytes to the hasher. What a hasher makes of them
/// is its own affair, and nothing is claimed of it.
#[verifier::external_body]
fn feed<H: Hasher>(state: &mut H, bytes: &[u8]) {
    state.write(bytes)
}

impl<const LEN: usize> Hash for FixedLenString<LEN> {
    fn hash<H: Hasher>(&self, state: &mut H) {
        feed(state, self.valid_range())
    }
}

/// How a name is shown.
pub open spec fn name_text(name: Seq<u8>) -> Seq<char> {
    escaped_text(decoded(name))
}

impl<const LEN: usize> FixedLenString<LEN> {
    /// Appends the name, as it is shown, to `out`.
    pub fn push_text(&self, out: &mut String)
        ensures
            final(out)@ == old(out)@ + name_text(self@),
    {
        let lossy = from_utf8_lossy(self.valid_range());
        push_escaped(out, lossy.as_str());
    }

    /// The whole string as it is shown to someone who looks for what is wrong with it.
    pub open spec fn debug_text(self) -> Seq<char> {
        "FixedLenString("@ + quoted_text(decoded(self.0@)) + ")"@
    }

    /// The whole string as it is shown to someone who looks for what is wrong with it.
    pub fn debug_string(&self) -> (s: String)
        ensures
            s@ == self.debug_text(),
    {
        let mut s = String::new();
        let text = from_utf8_lossy(self.0.as_slice());
        s.append("FixedLenString(");
        s.append(quoted(text.as_str()).as_str());
        s.append(")");
        assert(s@ =~= self.debug_text());
        s
    }

    /// The name as it is shown.
    pub fn to_string(&self) -> (s: String)
        ensures
            s@ == name_text(self@),
    {
        let mut s = String::new();
        self.push_text(&mut s);
        assert(s@ =~= name_text(self@));
        s
    }
}

} // verus!
