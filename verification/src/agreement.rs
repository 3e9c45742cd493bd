//! The two readings of an allocation map, as a list and by places, hold the same
//! fragments.

use vstd::prelude::*;

use crate::flat_map;
use crate::new_map::allocation;
use crate::new_map::bits::lemma_raw_block;
use crate::new_map::chain::free_chain;
use crate::new_map::record;
use crate::new_map::util::bits_fit;

verus! {

/// Whether two fragments are the same, as far as both readings tell.
pub open spec fn same_fragment(a: allocation::FragmentBlock, b: flat_map::FragmentBlock) -> bool {
    &&& a.id == b.id
    &&& a.free_space == b.free_space
    &&& a.map_length == b.total_length
    &&& a.position == b.position
}

/// Whether two lists hold the same fragments.
pub open spec fn same_fragments(
    a: Seq<allocation::FragmentBlock>,
    b: Seq<flat_map::FragmentBlock>,
) -> bool {
    &&& a.len() == b.len()
    &&& forall|i: int| 0 <= i < a.len() ==> same_fragment(#[trigger] a[i], b[i])
}

/// Whether the fragments of a list are those that lie at their places.
pub open spec fn lists_places(
    list: Seq<flat_map::FragmentBlock>,
    places: Map<usize, allocation::FragmentBlock>,
) -> bool {
    &&& flat_map::in_disc_order(list)
    &&& forall|i: int|
        0 <= i < list.len() ==> {
            let k = (#[trigger] list[i]).position.0;
            places.contains_key(k) && same_fragment(places[k], list[i])
        }
    &&& forall|k: usize| #[trigger]
        places.contains_key(k) ==> exists|i: int| flat_map::begins_at(list, i, k)
}

/// Whether two sets of parameters ask for the same.
pub open spec fn same_params(
    a: record::AllocationParsingParams,
    b: flat_map::AllocationParsingParams,
) -> bool {
    &&& a.mapped_space_in_alloc_units == b.mapped_space_in_alloc_units
    &&& a.fragment_id_length == b.fragment_id_length
    &&& a.free_link == b.free_link
}

/// The blocks that are read are the same, one behind the other from `p` on.
proof fn lemma_same_blocks(
    s: Seq<u8>,
    p: int,
    remaining: nat,
    a: record::AllocationParsingParams,
    b: flat_map::AllocationParsingParams,
)
    requires
        same_params(a, b),
        p >= 0,
        bits_fit(s.len()),
    ensures
        allocation::blocks_at(s, p, remaining, a) matches Ok((blocks, end)) ==> {
            &&& flat_map::blocks_at(s, p, remaining, b) matches Ok((list, list_end))
            &&& list_end == end
            &&& same_fragments(blocks, list)
            &&& flat_map::in_disc_order(list)
            &&& forall|i: int| 0 <= i < list.len() ==> p <= (#[trigger] list[i]).position.0
        },
    decreases remaining,
{
    if remaining > 0 {
        if let Ok(block) = allocation::block_at(s, p, a) {
            lemma_raw_block(s, p, a.fragment_id_length as nat);
            let flat = flat_map::block_at(s, p, b)->Ok_0;
            assert(same_fragment(block, flat));
            let length = block.map_length as int;
            let left = if remaining > length {
                (remaining - length) as nat
            } else {
                0
            };
            lemma_same_blocks(s, p + length, left, a, b);
            if let Ok((more, _)) = allocation::blocks_at(s, p + length, left, a) {
                let (rest, _) = flat_map::blocks_at(s, p + length, left, b)->Ok_0;
                let blocks = seq![block] + more;
                let list = seq![flat] + rest;
                assert forall|i: int| 0 <= i < blocks.len() implies same_fragment(
                    #[trigger] blocks[i],
                    list[i],
                ) by {
                    if i > 0 {
                        assert(blocks[i] == more[i - 1] && list[i] == rest[i - 1]);
                    }
                }
                assert forall|i: int| 0 <= i < list.len() implies p <= (
                #[trigger] list[i]).position.0 && (i > 0 ==> p + length <= list[i].position.0) by {
                    if i > 0 {
                        assert(list[i] == rest[i - 1]);
                    }
                }
                assert forall|i: int, j: int| 0 <= i < j < list.len() implies (
                #[trigger] list[i]).position.0 < (#[trigger] list[j]).position.0 by {
                    assert(list[j] == rest[j - 1]);
                    if i > 0 {
                        assert(list[i] == rest[i - 1]);
                    }
                }
            }
        }
    }
}

/// Blocks in the order of the disc are all found at their places.
proof fn lemma_by_position(
    blocks: Seq<allocation::FragmentBlock>,
    list: Seq<flat_map::FragmentBlock>,
)
    requires
        same_fragments(blocks, list),
        flat_map::in_disc_order(list),
    ensures
        lists_places(list, allocation::by_position(blocks)),
    decreases blocks.len(),
{
    let places = allocation::by_position(blocks);
    if blocks.len() > 0 {
        let before = blocks.drop_last();
        let shorter = list.drop_last();
        assert forall|i: int| 0 <= i < before.len() implies same_fragment(
            #[trigger] before[i],
            shorter[i],
        ) by {
            assert(before[i] == blocks[i]);
        }
        lemma_by_position(before, shorter);
        let last = blocks.len() - 1;
        assert(same_fragment(blocks[last], list[last]));
        assert forall|i: int| 0 <= i < list.len() implies {
            let k = (#[trigger] list[i]).position.0;
            places.contains_key(k) && same_fragment(places[k], list[i])
        } by {
            if i < last {
                assert(list[i] == shorter[i]);
                assert(list[i].position.0 < list[last].position.0);
            }
        }
        assert forall|k: usize| #[trigger] places.contains_key(k) implies exists|i: int|
            flat_map::begins_at(list, i, k) by {
            if k == list[last].position.0 {
                assert(flat_map::begins_at(list, last, k));
            } else {
                let i = choose|i: int| flat_map::begins_at(shorter, i, k);
                assert(list[i] == shorter[i]);
                assert(flat_map::begins_at(list, i, k));
            }
        }
    }
}

/// The numbers at the places are the same.
proof fn lemma_same_ids(
    list: Seq<flat_map::FragmentBlock>,
    places: Map<usize, allocation::FragmentBlock>,
)
    requires
        lists_places(list, places),
    ensures
        flat_map::block_ids(list) == allocation::block_ids(places),
{
    let a = flat_map::block_ids(list);
    let b = allocation::block_ids(places);
    assert forall|k: usize| a.contains_key(k) == b.contains_key(k) by {
        if a.contains_key(k) {
            let i = choose|i: int| flat_map::begins_at(list, i, k);
            assert(list[i].position.0 == k);
        }
        if b.contains_key(k) {
            assert(places.contains_key(k));
        }
    }
    assert forall|k: usize| #[trigger] a.contains_key(k) implies a[k] == b[k] by {
        let i = choose|i: int| flat_map::begins_at(list, i, k);
        assert(same_fragment(places[k], list[i]));
    }
    assert(a =~= b);
}

/// Where a map can be read by places, it can be read as a list too, and both readings
/// hold the same fragments: the same numbers at the same places, of the same lengths,
/// and free alike.
pub proof fn lemma_readings_agree(
    s: Seq<u8>,
    p: int,
    zone_start: int,
    a: record::AllocationParsingParams,
    b: flat_map::AllocationParsingParams,
)
    requires
        same_params(a, b),
        p >= 0,
        bits_fit(s.len()),
    ensures
        allocation::map_at(s, p, zone_start, a) matches Ok((map, end)) ==> {
            &&& flat_map::map_at(s, p, zone_start, b) matches Ok((list, list_end))
            &&& list_end == end
            &&& lists_places(list, map.fragments)
        },
{
    let asked = a.mapped_space_in_alloc_units as nat;
    lemma_same_blocks(s, 8 * p, asked, a, b);
    if let Ok((blocks, _)) = allocation::blocks_at(s, 8 * p, asked, a) {
        let (read, _) = flat_map::blocks_at(s, 8 * p, asked, b)->Ok_0;
        let places = allocation::by_position(blocks);
        lemma_by_position(blocks, read);
        lemma_same_ids(read, places);
        let head = allocation::free_head(zone_start, a.free_link);
        if a.free_link != 0 && places.contains_key(head) {
            assert(flat_map::block_ids(read).contains_key(head)) by {
                assert(allocation::block_ids(places).contains_key(head));
            }
            let free = free_chain(allocation::block_ids(places), head).0;
            let marked = allocation::with_free(places, free);
            let list = flat_map::with_free(read, free);
            assert forall|i: int| 0 <= i < list.len() implies {
                let k = (#[trigger] list[i]).position.0;
                marked.contains_key(k) && same_fragment(marked[k], list[i])
            } by {
                assert(same_fragment(places[read[i].position.0], read[i]));
            }
            assert forall|i: int, j: int| 0 <= i < j < list.len() implies (
            #[trigger] list[i]).position.0 < (#[trigger] list[j]).position.0 by {
                assert(read[i].position.0 < read[j].position.0);
            }
            assert forall|k: usize| #[trigger] marked.contains_key(k) implies exists|i: int|
                flat_map::begins_at(list, i, k) by {
                assert(places.contains_key(k));
                let i = choose|i: int| flat_map::begins_at(read, i, k);
                assert(flat_map::begins_at(list, i, k));
            }
        }
    }
}

} // verus!
