//! The list of free fragments.
//!
//! The allocation map gives every bit of a zone to some fragment, so free space
//! is made of fragments too. They form a list: the map says where the first one
//! lies, each of them holds the distance to the next one where a used fragment
//! holds its number, and the last one holds 0.

use vstd::prelude::*;

verus! {

/// The places on the list that begins at `pos`, and the place that the last one
/// of them points at where no fragment lies there.
pub open spec fn free_chain(ids: Map<usize, u16>, pos: usize) -> (Seq<usize>, Option<usize>)
    decreases usize::MAX - pos,
{
    let id = ids[pos];
    let dest = (pos + id) as usize;
    if id == 0 {
        (seq![pos], None)
    } else if dest > pos && ids.contains_key(dest) {
        let (more, broken) = free_chain(ids, dest);
        (seq![pos] + more, broken)
    } else {
        (seq![pos], Some(dest))
    }
}

/// The list begins where it was begun, every place on it holds a fragment, and
/// each place but the last points at the next, which lies further on. The last
/// one holds 0 where the list is whole, and points at nothing where it is broken.
pub proof fn lemma_free_chain(ids: Map<usize, u16>, pos: usize)
    requires
        ids.contains_key(pos),
        forall|k: usize| #[trigger] ids.contains_key(k) ==> k + 0xFFFF <= usize::MAX,
    ensures
        ({
            let (places, broken) = free_chain(ids, pos);
            &&& places.len() > 0
            &&& places[0] == pos
            &&& forall|i: int| 0 <= i < places.len() ==> ids.contains_key(#[trigger] places[i])
            &&& forall|i: int|
                #![trigger places[i]]
                0 <= i < places.len() - 1 ==> {
                    &&& ids[places[i]] != 0
                    &&& places[i + 1] == places[i] + ids[places[i]]
                }
            &&& match broken {
                None => ids[places.last()] == 0,
                Some(dest) => {
                    &&& ids[places.last()] != 0
                    &&& dest == places.last() + ids[places.last()]
                    &&& !ids.contains_key(dest)
                },
            }
        }),
    decreases usize::MAX - pos,
{
    let id = ids[pos];
    let dest = (pos + id) as usize;
    let (places, broken) = free_chain(ids, pos);
    if id != 0 && ids.contains_key(dest) {
        lemma_free_chain(ids, dest);
        let (more, _) = free_chain(ids, dest);
        assert(places =~= seq![pos] + more);
        assert(places.last() == more.last());
        assert forall|i: int| 0 <= i < places.len() implies ids.contains_key(#[trigger] places[i]) by {
            if i > 0 {
                assert(places[i] == more[i - 1]);
            }
        }
        assert forall|i: int| #![trigger places[i]] 0 <= i < places.len() - 1 implies {
            &&& ids[places[i]] != 0
            &&& places[i + 1] == places[i] + ids[places[i]]
        } by {
            if i > 0 {
                assert(places[i] == more[i - 1]);
                assert(places[i + 1] == more[i]);
            } else {
                assert(places[1] == more[0]);
            }
        }
    }
}

/// The places on the list come one behind the other, so none comes twice.
pub proof fn lemma_free_chain_ascends(ids: Map<usize, u16>, pos: usize)
    requires
        ids.contains_key(pos),
        forall|k: usize| #[trigger] ids.contains_key(k) ==> k + 0xFFFF <= usize::MAX,
    ensures
        forall|i: int, j: int|
            0 <= i < j < free_chain(ids, pos).0.len() ==> free_chain(ids, pos).0[i] < free_chain(
                ids,
                pos,
            ).0[j],
    decreases usize::MAX - pos,
{
    let id = ids[pos];
    let dest = (pos + id) as usize;
    if id != 0 && ids.contains_key(dest) {
        lemma_free_chain_ascends(ids, dest);
        lemma_free_chain(ids, dest);
        let more = free_chain(ids, dest).0;
        let places = free_chain(ids, pos).0;
        assert forall|i: int, j: int| 0 <= i < j < places.len() implies places[i] < places[j] by {
            assert(places[j] == more[j - 1]);
            if i > 0 {
                assert(places[i] == more[i - 1]);
            } else if j > 1 {
                assert(more[0] < more[j - 1]);
            }
        }
    }
}

} // verus!
