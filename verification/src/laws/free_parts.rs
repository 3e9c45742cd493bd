//! The free space map of older discs, as it is written.

use vstd::prelude::*;

use super::numbers::{law_three_bytes, spells};
use crate::free_space::FreeSpaceMap;

verus! {

/// A free space map says what its bytes spell: 82 places of free parts, and their lengths in
/// the sector behind them, with the sizes, the halves of the name and the check bytes in
/// their places.
pub proof fn law_free_space(map: FreeSpaceMap, s: Seq<u8>)
    requires
        517 <= s.len(),
    ensures
        map.describes(s) <==> {
            &&& map.free_space_offsets@.len() == 82
            &&& map.free_space_lengths@.len() == 82
            &&& forall|i: int|
                0 <= i < 82 ==> spells(
                    s,
                    3 * i,
                    3,
                    (#[trigger] map.free_space_offsets@[i]).0 as int,
                )
            &&& forall|i: int|
                0 <= i < 82 ==> spells(
                    s,
                    258 + 3 * i,
                    3,
                    #[trigger] map.free_space_lengths@[i] as int,
                )
            &&& spells(s, 246, 3, map.partition1_offset.0 as int)
            &&& spells(s, 254, 3, map.number_of_sectors as int)
            &&& spells(s, 504, 3, map.partition2_offset.0 as int)
            &&& map.name_chars.0@ == seq![s[249], s[250], s[251], s[252], s[253]]
            &&& map.name_chars.1@ == seq![s[507], s[508], s[509], s[510], s[511]]
            &&& map.disk_id@ == seq![s[512], s[513]]
            &&& map.reported_sec0_checksum == s[257]
            &&& map.boot_options == s[514]
            &&& map.ptr_end_free_list == s[515]
            &&& map.reported_sec1_checksum == s[516]
        },
{
    law_three_bytes(s, 246, map.partition1_offset.0 as int);
    law_three_bytes(s, 254, map.number_of_sectors as int);
    law_three_bytes(s, 504, map.partition2_offset.0 as int);
    assert(s.subrange(249, 254) =~= seq![s[249], s[250], s[251], s[252], s[253]]);
    assert(s.subrange(507, 512) =~= seq![s[507], s[508], s[509], s[510], s[511]]);
    assert(s.subrange(512, 514) =~= seq![s[512], s[513]]);
    assert forall|i: int| true implies #[trigger] spells(
        s,
        3 * i,
        3,
        map.free_space_offsets@[i].0 as int,
    ) == (crate::new_map::util::le_u24(s, 3 * i) == map.free_space_offsets@[i].0) by {
        law_three_bytes(s, 3 * i, map.free_space_offsets@[i].0 as int);
    }
    assert forall|i: int| true implies #[trigger] spells(
        s,
        258 + 3 * i,
        3,
        map.free_space_lengths@[i] as int,
    ) == (crate::new_map::util::le_u24(s, 258 + 3 * i) == map.free_space_lengths@[i]) by {
        law_three_bytes(s, 258 + 3 * i, map.free_space_lengths@[i] as int);
    }
    if map.describes(s) {
        assert forall|i: int| 0 <= i < 82 implies spells(
            s,
            3 * i,
            3,
            (#[trigger] map.free_space_offsets@[i]).0 as int,
        ) by {
            law_three_bytes(s, 3 * i, map.free_space_offsets@[i].0 as int);
        }
        assert forall|i: int| 0 <= i < 82 implies spells(
            s,
            258 + 3 * i,
            3,
            #[trigger] map.free_space_lengths@[i] as int,
        ) by {
            law_three_bytes(s, 258 + 3 * i, map.free_space_lengths@[i] as int);
        }
    }
}

} // verus!
