//! The head of a map, as it is written on a disc.

use vstd::arithmetic::power2::*;
use vstd::prelude::*;

use super::numbers::{
    holds_name, law_four_bytes, law_names, law_three_bytes, law_two_bytes, spells,
};
use crate::flat_map;
use crate::new_map::record::{header_at, record_at, record_failure};
use crate::new_map::CauseView;
use crate::new_map::FaultView;

verus! {

/// The free link of a header is read with its top bit cleared, and with no other: a link
/// is given back however its top bit was written.
pub proof fn law_header(s: Seq<u8>, p: int, link: int)
    requires
        0 <= link < 32768,
        spells(s, p + 1, 2, link) || spells(s, p + 1, 2, 32768 + link),
    ensures
        header_at(s, p).free_link == link,
        header_at(s, p).zone_check == s[p],
        header_at(s, p).cross_check == s[p + 3],
{
    law_two_bytes(s, p + 1, link);
    law_two_bytes(s, p + 1, 32768 + link);
}

/// What a disc record says is what was written into it, each number in its place.
pub proof fn law_record(
    s: Seq<u8>,
    p: int,
    zone_spare: int,
    root: int,
    size: int,
    disc_id: int,
    name: Seq<u8>,
    disc_type: int,
)
    requires
        0 <= p,
        p + 60 <= s.len(),
        0 <= zone_spare,
        0 <= root,
        0 <= size,
        0 <= disc_id,
        0 <= disc_type,
        spells(s, p + 10, 2, zone_spare),
        spells(s, p + 12, 4, root),
        spells(s, p + 16, 4, size),
        spells(s, p + 20, 2, disc_id),
        holds_name(s, p + 22, 10, name),
        spells(s, p + 32, 4, disc_type),
    ensures
        ({
            let record = record_at(s, p);
            &&& record.log2_sec_size == s[p]
            &&& record.secs_per_track == s[p + 1]
            &&& record.heads == s[p + 2]
            &&& record.density == s[p + 3]
            &&& record.idlen == s[p + 4]
            &&& record.log2_bytes_per_mapbit == s[p + 5]
            &&& record.skew == s[p + 6]
            &&& record.boot_options == s[p + 7]
            &&& record.low_sector == s[p + 8]
            &&& record.num_zones == s[p + 9]
            &&& record.zone_spare == zone_spare
            &&& record.root_dir.0 == root
            &&& record.size == size
            &&& record.disc_id == disc_id
            &&& record.disc_name@ == name
            &&& record.disc_name.0@ == s.subrange(p + 22, p + 32)
            &&& record.disc_type == disc_type
        }),
{
    law_two_bytes(s, p + 10, zone_spare);
    law_four_bytes(s, p + 12, root);
    law_four_bytes(s, p + 16, size);
    law_two_bytes(s, p + 20, disc_id);
    law_names::<10>(s, p + 22, name);
    law_four_bytes(s, p + 32, disc_type);
}

/// A disc record can be read exactly where there are enough bytes for it and sectors have
/// 256, 512 or 1024 bytes.
pub proof fn law_record_is_read(s: Seq<u8>, p: int)
    requires
        0 <= p <= s.len(),
    ensures
        record_failure(s, p) is None <==> p + 60 <= s.len() && {
            ||| pow2(s[p] as nat) == 256
            ||| pow2(s[p] as nat) == 512
            ||| pow2(s[p] as nat) == 1024
        },
        record_failure(s, p) matches Some(cause) ==> {
            ||| cause == CauseView::Truncated && p + 60 > s.len()
            ||| cause == CauseView::Fault(FaultView::UnacceptableSectorSize(s[p])) && p < s.len()
        },
{
    lemma2_to64();
    if p < s.len() {
        let n = s[p] as nat;
        if n < 8 {
            lemma_pow2_strictly_increases(n, 8);
        }
        if n > 10 {
            lemma_pow2_strictly_increases(10, n);
        }
    }
}

/// The record of a flat map says the same as that of the map by places.
pub proof fn law_same_record(s: Seq<u8>, p: int)
    requires
        0 <= p,
        p + 60 <= s.len(),
    ensures
        ({
            let a = record_at(s, p);
            let b = flat_map::record_at(s, p);
            &&& a.log2_sec_size == b.log2_sec_size
            &&& a.secs_per_track == b.secs_per_track
            &&& a.heads == b.heads
            &&& a.density == b.density
            &&& a.idlen == b.idlen
            &&& a.log2_bytes_per_mapbit == b.log2_bytes_per_mapbit
            &&& a.skew == b.skew
            &&& a.boot_options == b.boot_options
            &&& a.low_sector == b.low_sector
            &&& a.num_zones == b.num_zones
            &&& a.zone_spare == b.zone_spare
            &&& a.root_dir.0 == b.root
            &&& a.size == b.size
            &&& a.disc_id == b.disc_id
            &&& a.disc_name.0@ == b.disc_name.0@
            &&& a.disc_type == b.disc_type
        }),
        flat_map::record_failure(s, p) is None <==> record_failure(s, p) is None,
{
    crate::new_map::util::lemma_string_at::<10>(s, p + 22);
    flat_map::lemma_fixed_string_at(s, p + 22);
}

/// The three bytes of an address in a directory are read as one number.
pub proof fn law_stored_address(s: Seq<u8>, p: int, address: int)
    requires
        0 <= address,
        spells(s, p, 3, address),
    ensures
        crate::new_map::util::le_u24(s, p) == address,
{
    law_three_bytes(s, p, address);
}

} // verus!
