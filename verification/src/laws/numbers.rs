//! Numbers and names, as they are written on a disc.

use vstd::prelude::*;
use vstd::std_specs::ops::AddSpec;

use crate::new_map::util::{
    is_control, le_u16, le_u24, le_u32, lemma_name_len_is, lemma_string_at, name_of, string_at,
    BitPosition, DiscPosition, FixedLenString,
};

verus! {

/// Whether the `k` bytes at `p` spell `n`, the least significant one first.
pub open spec fn spells(s: Seq<u8>, p: int, k: nat, n: int) -> bool
    decreases k,
{
    if k == 0 {
        n == 0
    } else {
        s[p] == n % 256 && spells(s, p + 1, (k - 1) as nat, n / 256)
    }
}

/// Two bytes spell a number exactly where reading them gives that number.
pub proof fn law_two_bytes(s: Seq<u8>, p: int, n: int)
    requires
        0 <= n,
    ensures
        spells(s, p, 2, n) <==> le_u16(s, p) == n,
        le_u16(s, p) == s[p] + 256 * s[p + 1],
{
    reveal_with_fuel(spells, 3);
}

/// Three bytes spell a number exactly where reading them gives that number.
pub proof fn law_three_bytes(s: Seq<u8>, p: int, n: int)
    requires
        0 <= n,
    ensures
        spells(s, p, 3, n) <==> le_u24(s, p) == n,
        le_u24(s, p) == s[p] + 256 * s[p + 1] + 65536 * s[p + 2],
{
    reveal_with_fuel(spells, 4);
}

/// Four bytes spell a number exactly where reading them gives that number.
pub proof fn law_four_bytes(s: Seq<u8>, p: int, n: int)
    requires
        0 <= n,
    ensures
        spells(s, p, 4, n) <==> le_u32(s, p) == n,
        le_u32(s, p) == s[p] + 256 * s[p + 1] + 65536 * s[p + 2] + 16777216 * s[p + 3],
{
    reveal_with_fuel(spells, 5);
}

/// Places of the map are counted up as numbers are, as long as they can be counted.
pub proof fn law_bit_positions(a: BitPosition, b: BitPosition)
    ensures
        a.add_req(b) <==> a.0 + b.0 <= usize::MAX,
        a.add_req(b) ==> a.add_spec(b).0 == a.0 + b.0,
{
}

/// An address that was made of a disc object and a sector gives both of them back,
/// whatever drive it names: sectors count from 1, and 0 stands for the first one too.
pub proof fn law_addresses(drive: int, id: int, sector: int)
    requires
        0 <= drive < 512,
        0 <= id < 32768,
        0 <= sector < 256,
    ensures
        ({
            let address = DiscPosition((8388608 * drive + 256 * id + sector) as u32);
            &&& address.fragment_number() == id
            &&& sector > 0 ==> address.sector() == sector - 1
            &&& sector == 0 ==> address.sector() == 0
        }),
{
}

/// Whether a name ends at a byte: at one of the control characters of ASCII, or of the
/// block behind it.
pub open spec fn ends_name(b: u8) -> bool {
    b <= 31 || 127 <= b <= 159
}

/// Whether the bytes at `p`, of which there are `room`, hold a name: it fills the room, or
/// a terminator stands behind it.
pub open spec fn holds_name(s: Seq<u8>, p: int, room: int, name: Seq<u8>) -> bool {
    &&& name.len() <= room
    &&& forall|i: int| 0 <= i < name.len() ==> #[trigger] s[p + i] == name[i]
    &&& forall|i: int| 0 <= i < name.len() ==> !ends_name(#[trigger] name[i])
    &&& name.len() < room ==> ends_name(s[p + name.len()])
}

/// A name that was written is read back, whatever follows its terminator, and all bytes
/// are kept.
pub proof fn law_names<const LEN: usize>(s: Seq<u8>, p: int, name: Seq<u8>)
    requires
        0 <= p,
        p + LEN <= s.len(),
        holds_name(s, p, LEN as int, name),
    ensures
        string_at::<LEN>(s, p)@ == name,
        string_at::<LEN>(s, p).0@ == s.subrange(p, p + LEN),
{
    lemma_string_at::<LEN>(s, p);
    let bytes = s.subrange(p, p + LEN);
    let n = name.len() as int;
    assert forall|i: int| 0 <= i < n implies !is_control(#[trigger] bytes[i]) by {
        assert(bytes[i] == s[p + i]);
        assert(!ends_name(name[i]));
    }
    if n < LEN {
        assert(bytes[n] == s[p + n]);
    }
    lemma_name_len_is(bytes, n);
    assert forall|i: int| 0 <= i < n implies name_of(bytes)[i] == name[i] by {
        assert(s[p + i] == name[i]);
    }
    assert(name_of(bytes) =~= name);
}

/// Every string of bytes holds exactly one name.
pub proof fn law_one_name(s: Seq<u8>, p: int, room: int, a: Seq<u8>, b: Seq<u8>)
    requires
        holds_name(s, p, room, a),
        holds_name(s, p, room, b),
    ensures
        a == b,
{
    if a.len() < b.len() {
        assert(s[p + a.len()] == b[a.len() as int]);
        assert(!ends_name(b[a.len() as int]));
    }
    if b.len() < a.len() {
        assert(s[p + b.len()] == a[b.len() as int]);
        assert(!ends_name(a[b.len() as int]));
    }
    assert forall|i: int| 0 <= i < a.len() implies a[i] == b[i] by {
        assert(s[p + i] == a[i]);
        assert(s[p + i] == b[i]);
    }
    assert(a =~= b);
}

/// The name of a string is the name that its bytes hold.
pub proof fn law_name_of_string<const LEN: usize>(string: FixedLenString<LEN>)
    ensures
        holds_name(string.0@, 0, LEN as int, string@),
{
    crate::new_map::util::lemma_name_len(string.0@);
    let bytes = string.0@;
    let name = string@;
    assert forall|i: int| 0 <= i < name.len() implies #[trigger] bytes[0 + i] == name[i] by {}
    assert forall|i: int| 0 <= i < name.len() implies !ends_name(#[trigger] name[i]) by {
        assert(!is_control(bytes[i]));
    }
    if name.len() < LEN {
        assert(is_control(bytes[name.len() as int]));
    }
}

} // verus!
