//! The contents of files, as they lie on a disc.

use std::ops::Range;

use vstd::prelude::*;

use crate::new_map::disc_structures::object_bytes;

verus! {

/// Whether a part of the disc lies in an image.
pub open spec fn lies_in(image: Seq<u8>, part: Range<usize>) -> bool {
    part.start <= part.end <= image.len()
}

/// The bytes of some parts of an image, one part behind the other.
pub open spec fn joined_parts(image: Seq<u8>, parts: Seq<Range<usize>>) -> Seq<u8> {
    parts.map_values(|part: Range<usize>| image.subrange(part.start as int, part.end as int)).flatten()
}

/// What is read of an object is what lies in its parts, one behind the other, from the
/// given byte on: as much as was asked for, or up to the end of the object. Nothing is read
/// where the object ends before that byte.
pub proof fn law_object_bytes(image: Seq<u8>, parts: Seq<Range<usize>>, off: int, len: int)
    requires
        forall|i: int| 0 <= i < parts.len() ==> lies_in(image, #[trigger] parts[i]),
        0 <= off,
        0 <= len,
    ensures
        ({
            let object = joined_parts(image, parts);
            let end = if off + len <= object.len() {
                off + len
            } else {
                object.len() as int
            };
            object_bytes(image, parts, off, len) == if off <= object.len() {
                Some(object.subrange(off, end))
            } else {
                None
            }
        }),
    decreases parts.len(),
{
    let contents = parts.map_values(
        |part: Range<usize>| image.subrange(part.start as int, part.end as int),
    );
    let object = joined_parts(image, parts);
    if parts.len() == 0 {
        assert(contents =~= Seq::empty());
        assert(object =~= Seq::empty());
        if off == 0 {
            assert(object.subrange(0, 0) =~= Seq::empty());
        }
    } else {
        let first = parts[0];
        let rest = parts.drop_first();
        let size = first.end - first.start;
        assert(lies_in(image, parts[0]));
        let piece = image.subrange(first.start as int, first.end as int);
        assert(contents[0] == piece);
        assert(contents.drop_first() =~= rest.map_values(
            |part: Range<usize>| image.subrange(part.start as int, part.end as int),
        ));
        assert(object == piece + joined_parts(image, rest));
        assert forall|i: int| 0 <= i < rest.len() implies lies_in(image, #[trigger] rest[i]) by {
            assert(lies_in(image, parts[i + 1]));
        }
        let end = if off + len <= object.len() {
            off + len
        } else {
            object.len() as int
        };
        if off <= 0 && len <= 0 {
            assert(object.subrange(off, end) =~= Seq::empty());
        } else if off >= size {
            law_object_bytes(image, rest, off - size, len);
            if off <= object.len() {
                assert(object.subrange(off, end) =~= joined_parts(image, rest).subrange(
                    off - size,
                    end - size,
                ));
            }
        } else {
            let taken = if len < size - off {
                len
            } else {
                size - off
            };
            law_object_bytes(image, rest, 0, len - taken);
            let start = first.start + off;
            let more = joined_parts(image, rest);
            let more_end = if len - taken <= more.len() {
                len - taken
            } else {
                more.len() as int
            };
            assert(object.subrange(off, end) =~= image.subrange(start, start + taken)
                + more.subrange(0, more_end));
        }
    }
}

/// The places of the bytes of some parts of a disc, one part behind the other.
pub open spec fn places_of(parts: Seq<Range<usize>>) -> Seq<int> {
    parts.map_values(
        |part: Range<usize>| Seq::new((part.end - part.start) as nat, |i: int| part.start + i),
    ).flatten()
}

/// The places of the bytes that are asked for: `len` of them from byte `off` of an object on,
/// or up to the end of the object.
pub open spec fn wanted_of(parts: Seq<Range<usize>>, off: int, len: int) -> Seq<int> {
    let all = places_of(parts);
    if off + len <= all.len() {
        all.subrange(off, off + len)
    } else {
        all.subrange(off, all.len() as int)
    }
}

/// Whether all places lie in the image.
pub open spec fn lie_in(image: Seq<u8>, places: Seq<int>) -> bool {
    forall|j: int| 0 <= j < places.len() ==> 0 <= #[trigger] places[j] < image.len()
}

/// Whether bytes are those of the image at some places.
pub open spec fn are_bytes_at(bytes: Seq<u8>, image: Seq<u8>, places: Seq<int>) -> bool {
    &&& bytes.len() == places.len()
    &&& forall|j: int| 0 <= j < places.len() ==> bytes[j] == image[#[trigger] places[j]]
}

/// The places in the first part and those in the other parts.
proof fn lemma_places(parts: Seq<Range<usize>>)
    requires
        parts.len() > 0,
        parts[0].start <= parts[0].end,
    ensures
        places_of(parts).len() == parts[0].end - parts[0].start + places_of(
            parts.drop_first(),
        ).len(),
        forall|i: int|
            0 <= i < parts[0].end - parts[0].start ==> #[trigger] places_of(parts)[i]
                == parts[0].start + i,
        forall|i: int|
            0 <= i < places_of(parts.drop_first()).len() ==> places_of(parts)[parts[0].end
                - parts[0].start + i] == #[trigger] places_of(parts.drop_first())[i],
{
    let part = parts[0];
    let rest = parts.drop_first();
    let lists = parts.map_values(
        |part: Range<usize>| Seq::new((part.end - part.start) as nat, |i: int| part.start + i),
    );
    let here = Seq::new((part.end - part.start) as nat, |i: int| part.start + i);
    assert(lists[0] =~= here);
    assert(lists.drop_first() =~= rest.map_values(
        |part: Range<usize>| Seq::new((part.end - part.start) as nat, |i: int| part.start + i),
    ));
    assert(places_of(parts) == here + places_of(rest));
}

/// Only the places that are asked for have to lie in the image: what is read of an object are
/// the bytes at those places, and nothing is read where one of them lies behind the end of
/// the image. Where the rest of the object lies does not matter.
pub proof fn law_places_of_object(image: Seq<u8>, parts: Seq<Range<usize>>, off: int, len: int)
    requires
        forall|i: int| 0 <= i < parts.len() ==> (#[trigger] parts[i]).start <= parts[i].end,
        0 <= off,
        0 < len,
    ensures
        ({
            let wanted = wanted_of(parts, off, len);
            let found = object_bytes(image, parts, off, len);
            &&& off > places_of(parts).len() ==> found is None
            &&& off <= places_of(parts).len() && !lie_in(image, wanted) ==> found is None
            &&& off <= places_of(parts).len() && lie_in(image, wanted) ==> (
            found matches Some(bytes) && are_bytes_at(bytes, image, wanted))
        }),
    decreases parts.len(),
{
    let all = places_of(parts);
    let wanted = wanted_of(parts, off, len);
    let found = object_bytes(image, parts, off, len);
    if parts.len() == 0 {
        assert(parts.map_values(
            |part: Range<usize>| Seq::new((part.end - part.start) as nat, |i: int| part.start + i),
        ) =~= Seq::empty());
        assert(all =~= Seq::empty());
    } else {
        let part = parts[0];
        assert(part.start <= part.end);
        let size = part.end - part.start;
        let rest = parts.drop_first();
        let more = places_of(rest);
        lemma_places(parts);
        assert forall|i: int| 0 <= i < rest.len() implies (#[trigger] rest[i]).start
            <= rest[i].end by {
            assert(parts[i + 1].start <= parts[i + 1].end);
        }
        if off >= size {
            law_places_of_object(image, rest, off - size, len);
            if off <= all.len() {
                let others = wanted_of(rest, off - size, len);
                assert(wanted.len() == others.len());
                assert forall|j: int| 0 <= j < wanted.len() implies wanted[j] == others[j] by {
                    let i = off - size + j;
                    assert(all[size + i] == more[i]);
                }
                assert(wanted =~= others);
            }
        } else {
            let taken = if len < size - off {
                len
            } else {
                size - off
            };
            let start = part.start + off;
            assert forall|j: int| 0 <= j < taken implies #[trigger] wanted[j] == start + j by {
                assert(all[off + j] == part.start + (off + j));
            }
            assert(wanted[taken - 1] == start + (taken - 1));
            if taken < len {
                law_places_of_object(image, rest, 0, len - taken);
                let others = wanted_of(rest, 0, len - taken);
                assert(wanted.len() == taken + others.len());
                assert forall|j: int| 0 <= j < others.len() implies wanted[taken + j]
                    == #[trigger] others[j] by {
                    assert(all[size + j] == more[j]);
                }
                lemma_joined_places(image, wanted, others, start, taken);
                if lie_in(image, wanted) {
                    let tail = object_bytes(image, rest, 0, len - taken)->0;
                    let bytes = found->0;
                    assert(bytes == image.subrange(start, start + taken) + tail);
                    assert forall|j: int| 0 <= j < wanted.len() implies bytes[j]
                        == image[#[trigger] wanted[j]] by {
                        if j >= taken {
                            assert(wanted[taken + (j - taken)] == others[j - taken]);
                        }
                    }
                }
            } else {
                assert(object_bytes(image, rest, 0, 0) == Some(Seq::<u8>::empty()));
                assert(wanted.len() == taken);
                if start + taken <= image.len() {
                    assert(lie_in(image, wanted));
                    assert(found->0 == image.subrange(start, start + taken) + Seq::<u8>::empty());
                } else {
                    assert(!lie_in(image, wanted));
                }
            }
        }
    }
}

proof fn lemma_joined_places(
    image: Seq<u8>,
    wanted: Seq<int>,
    others: Seq<int>,
    start: int,
    taken: int,
)
    requires
        0 <= start,
        0 < taken,
        wanted.len() == taken + others.len(),
        forall|j: int| 0 <= j < taken ==> #[trigger] wanted[j] == start + j,
        forall|j: int| 0 <= j < others.len() ==> wanted[taken + j] == #[trigger] others[j],
    ensures
        lie_in(image, wanted) <==> start + taken <= image.len() && lie_in(image, others),
{
    if lie_in(image, wanted) {
        assert(wanted[taken - 1] == start + (taken - 1));
        assert forall|j: int| 0 <= j < others.len() implies 0 <= #[trigger] others[j]
            < image.len() by {
            assert(wanted[taken + j] == others[j]);
        }
    }
    if start + taken <= image.len() && lie_in(image, others) {
        assert forall|j: int| 0 <= j < wanted.len() implies 0 <= #[trigger] wanted[j]
            < image.len() by {
            if j >= taken {
                assert(wanted[taken + (j - taken)] == others[j - taken]);
            }
        }
    }
}

} // verus!
