//! Paths: how they are typed, and how they stand to each other.

use std::cmp::Ordering;

use vstd::prelude::*;
use vstd::std_specs::cmp::{PartialEqSpec, PartialOrdSpec};

use super::numbers::ends_name;
use crate::new_map::disc_structures::NewMapView;
use crate::new_map::listing::lists_disc;
use crate::new_map::path::{
    is_path_text, is_segment, joined, leads_to, lemma_path_order_flip, lemma_path_order_same,
    lemma_path_text_unique, path_order, path_segments, Path,
};
use crate::new_map::tree::{in_path_order, listed_by_prefix, skip_before, take_leading};
use crate::new_map::util::{
    byte_order, lemma_byte_order_flip, lemma_byte_order_same, ordering_of, padded,
    segment_run, FixedLenString, Relation,
};

verus! {

/// Whether one byte string comes before another in a dictionary: it is how the other begins,
/// or has the smaller byte where they first differ.
pub open spec fn precedes(a: Seq<u8>, b: Seq<u8>) -> bool {
    exists|n: int| #[trigger] differ_from(a, b, n) && (n == a.len() || a[n] < b[n])
}

/// Whether two byte strings agree up to byte `n`, and the second goes on there.
pub open spec fn differ_from(a: Seq<u8>, b: Seq<u8>, n: int) -> bool {
    &&& 0 <= n <= a.len()
    &&& n < b.len()
    &&& a.take(n) == b.take(n)
}

/// Byte strings are in the order of a dictionary.
pub proof fn law_byte_order(a: Seq<u8>, b: Seq<u8>)
    ensures
        byte_order(a, b) == Relation::Before <==> precedes(a, b),
        byte_order(a, b) == Relation::After <==> precedes(b, a),
        byte_order(a, b) == Relation::Same <==> a == b,
{
    lemma_precedes(a, b);
    lemma_precedes(b, a);
    lemma_byte_order_flip(a, b);
    lemma_byte_order_flip(b, a);
    lemma_byte_order_same(a, b);
}

proof fn lemma_precedes(a: Seq<u8>, b: Seq<u8>)
    ensures
        byte_order(a, b) == Relation::Before <==> precedes(a, b),
    decreases a.len(),
{
    if a.len() == 0 {
        if b.len() > 0 {
            assert(a.take(0) =~= b.take(0));
            assert(differ_from(a, b, 0));
        }
    } else if b.len() > 0 {
        let (x, y) = (a.drop_first(), b.drop_first());
        lemma_precedes(x, y);
        if precedes(a, b) {
            let n = choose|n: int| #[trigger] differ_from(a, b, n) && (n == a.len() || a[n] < b[n]);
            if n > 0 {
                assert(a.take(n)[0] == b.take(n)[0]);
                assert(x.take(n - 1) =~= a.take(n).drop_first());
                assert(y.take(n - 1) =~= b.take(n).drop_first());
                assert(differ_from(x, y, n - 1));
            }
        }
        if byte_order(a, b) == Relation::Before {
            if a[0] < b[0] {
                assert(a.take(0) =~= b.take(0));
                assert(differ_from(a, b, 0));
            } else {
                let n = choose|n: int| #[trigger]
                    differ_from(x, y, n) && (n == x.len() || x[n] < y[n]);
                assert(a.take(n + 1) =~= seq![a[0]] + x.take(n));
                assert(b.take(n + 1) =~= seq![b[0]] + y.take(n));
                assert(differ_from(a, b, n + 1));
            }
        }
    }
}

/// Whether one path comes before another: it is how the other begins, or has the name that
/// comes first where they first differ.
pub open spec fn path_precedes(a: Seq<Seq<u8>>, b: Seq<Seq<u8>>) -> bool {
    exists|n: int| #[trigger] part_at(a, b, n) && (n == a.len() || precedes(a[n], b[n]))
}

/// Whether two paths agree in their first `n` names, and the second goes on there.
pub open spec fn part_at(a: Seq<Seq<u8>>, b: Seq<Seq<u8>>, n: int) -> bool {
    &&& 0 <= n <= a.len()
    &&& n < b.len()
    &&& a.take(n) == b.take(n)
}

/// Paths are in order name by name.
pub proof fn law_path_order(a: Seq<Seq<u8>>, b: Seq<Seq<u8>>)
    ensures
        path_order(a, b) == Relation::Before <==> path_precedes(a, b),
        path_order(a, b) == Relation::After <==> path_precedes(b, a),
        path_order(a, b) == Relation::Same <==> a == b,
{
    lemma_path_precedes(a, b);
    lemma_path_precedes(b, a);
    lemma_path_order_flip(a, b);
    lemma_path_order_flip(b, a);
    lemma_path_order_same(a, b);
}

proof fn lemma_path_precedes(a: Seq<Seq<u8>>, b: Seq<Seq<u8>>)
    ensures
        path_order(a, b) == Relation::Before <==> path_precedes(a, b),
    decreases a.len(),
{
    if a.len() == 0 {
        if b.len() > 0 {
            assert(a.take(0) =~= b.take(0));
            assert(part_at(a, b, 0));
        }
    } else if b.len() > 0 {
        let (x, y) = (a.drop_first(), b.drop_first());
        lemma_path_precedes(x, y);
        law_byte_order(a[0], b[0]);
        if path_precedes(a, b) {
            let n = choose|n: int| #[trigger]
                part_at(a, b, n) && (n == a.len() || precedes(a[n], b[n]));
            if n > 0 {
                assert(a.take(n)[0] == b.take(n)[0]);
                assert(x.take(n - 1) =~= a.take(n).drop_first());
                assert(y.take(n - 1) =~= b.take(n).drop_first());
                assert(part_at(x, y, n - 1));
            }
        }
        if path_order(a, b) == Relation::Before {
            if precedes(a[0], b[0]) {
                assert(a.take(0) =~= b.take(0));
                assert(part_at(a, b, 0));
            } else {
                let n = choose|n: int| #[trigger]
                    part_at(x, y, n) && (n == x.len() || precedes(x[n], y[n]));
                assert(a.take(n + 1) =~= seq![a[0]] + x.take(n));
                assert(b.take(n + 1) =~= seq![b[0]] + y.take(n));
                assert(part_at(a, b, n + 1));
            }
        }
    }
}

/// Names and paths are compared by the bytes of their names, and stand to each other as the
/// bytes do.
pub proof fn law_comparisons(a: FixedLenString<10>, b: FixedLenString<10>, c: Path, d: Path)
    ensures
        a.partial_cmp_spec(&b) == Some(Ordering::Less) <==> precedes(a@, b@),
        a.partial_cmp_spec(&b) == Some(Ordering::Greater) <==> precedes(b@, a@),
        a.partial_cmp_spec(&b) == Some(Ordering::Equal) <==> a@ == b@,
        a.eq_spec(&b) <==> a@ == b@,
        c.partial_cmp_spec(&d) == Some(Ordering::Less) <==> path_precedes(c@, d@),
        c.partial_cmp_spec(&d) == Some(Ordering::Greater) <==> path_precedes(d@, c@),
        c.partial_cmp_spec(&d) == Some(Ordering::Equal) <==> c@ == d@,
        c.eq_spec(&d) <==> c@ == d@,
        ordering_of(byte_order(a@, b@)) == Ordering::Less <==> precedes(a@, b@),
        ordering_of(byte_order(a@, b@)) == Ordering::Greater <==> precedes(b@, a@),
        ordering_of(byte_order(a@, b@)) == Ordering::Equal <==> a@ == b@,
        ordering_of(path_order(c@, d@)) == Ordering::Less <==> path_precedes(c@, d@),
        ordering_of(path_order(c@, d@)) == Ordering::Greater <==> path_precedes(d@, c@),
        ordering_of(path_order(c@, d@)) == Ordering::Equal <==> c@ == d@,
{
    law_byte_order(a@, b@);
    law_path_order(c@, d@);
}

/// The list of a disc is in the order of its paths, and holds no path twice.
pub proof fn law_list_is_in_order(all: Seq<Seq<Seq<u8>>>, image: Seq<u8>, map: NewMapView)
    requires
        lists_disc(all, image, map),
    ensures
        forall|i: int, j: int|
            0 <= i < j < all.len() ==> path_precedes(#[trigger] all[i], #[trigger] all[j]),
        all.no_duplicates(),
{
    assert(in_path_order(all));
    assert forall|i: int, j: int| 0 <= i < j < all.len() implies path_precedes(
        #[trigger] all[i],
        #[trigger] all[j],
    ) && all[i] != all[j] by {
        law_path_order(all[i], all[j]);
    }
}

/// Whether one name is how another begins.
pub open spec fn is_beginning(a: Seq<u8>, b: Seq<u8>) -> bool {
    exists|rest: Seq<u8>| b == #[trigger] (a + rest)
}

/// A path leads towards another if their names agree, and the last name that both of them
/// have a counterpart for is how that begins. What one of them has beyond the other does not
/// matter.
pub proof fn law_leads_to(
    above: Seq<Seq<u8>>,
    other: Seq<Seq<u8>>,
    a: Seq<u8>,
    b: Seq<u8>,
    more: Seq<Seq<u8>>,
)
    requires
        above.len() == other.len(),
    ensures
        leads_to(above.push(a), other.push(b) + more) <==> above == other && is_beginning(a, b),
        leads_to(above.push(a) + more, other.push(b)) <==> above == other && is_beginning(a, b),
        leads_to(Seq::empty(), more),
        leads_to(more, Seq::empty()),
{
    let n = above.len() as int;
    assert(a.is_prefix_of(b) <==> is_beginning(a, b)) by {
        if a.is_prefix_of(b) {
            assert(b =~= a + b.skip(a.len() as int));
        }
        if is_beginning(a, b) {
            let rest = choose|rest: Seq<u8>| b == #[trigger] (a + rest);
            assert(a =~= b.subrange(0, a.len() as int));
        }
    }
    let (p, q) = (above.push(a), other.push(b) + more);
    assert(p[n] == a && q[n] == b);
    assert forall|i: int| 0 <= i < n implies above[i] == p[i] && other[i] == #[trigger] q[i] by {}
    let (r, s) = (above.push(a) + more, other.push(b));
    assert(r[n] == a && s[n] == b);
    assert forall|i: int| 0 <= i < n implies above[i] == r[i] && other[i] == #[trigger] s[i] by {}
    if leads_to(p, q) {
        assert forall|i: int| 0 <= i < n implies above[i] == other[i] by {
            assert(p[i] == q[i]);
        }
        assert(above =~= other);
    }
    if leads_to(r, s) {
        assert forall|i: int| 0 <= i < n implies above[i] == other[i] by {
            assert(r[i] == s[i]);
        }
        assert(above =~= other);
    }
}

/// What is listed for a prefix is one run of the list: it begins with the first path that
/// does not come before the prefix, and ends before the first one after that which the prefix
/// does not lead towards.
pub proof fn law_prefix(keys: Seq<Seq<Seq<u8>>>, prefix: Seq<Seq<u8>>, from: int, to: int)
    requires
        0 <= from <= to <= keys.len(),
        forall|i: int| 0 <= i < from ==> path_precedes(#[trigger] keys[i], prefix),
        from < keys.len() ==> !path_precedes(keys[from], prefix),
        forall|i: int| from <= i < to ==> leads_to(prefix, #[trigger] keys[i]),
        to < keys.len() ==> !leads_to(prefix, keys[to]),
    ensures
        listed_by_prefix(keys, prefix) == keys.subrange(from, to),
{
    lemma_skipped(keys, prefix, from);
    lemma_taken(keys.skip(from), prefix, to - from);
    assert(keys.skip(from).take(to - from) =~= keys.subrange(from, to));
}

proof fn lemma_skipped(keys: Seq<Seq<Seq<u8>>>, prefix: Seq<Seq<u8>>, from: int)
    requires
        0 <= from <= keys.len(),
        forall|i: int| 0 <= i < from ==> path_precedes(#[trigger] keys[i], prefix),
        from < keys.len() ==> !path_precedes(keys[from], prefix),
    ensures
        skip_before(keys, prefix) == keys.skip(from),
    decreases keys.len(),
{
    if keys.len() > 0 {
        law_path_order(keys[0], prefix);
        let rest = keys.drop_first();
        if from > 0 {
            assert forall|i: int| 0 <= i < from - 1 implies path_precedes(
                #[trigger] rest[i],
                prefix,
            ) by {
                assert(rest[i] == keys[i + 1]);
            }
            assert(path_precedes(keys[0], prefix));
            lemma_skipped(rest, prefix, from - 1);
            assert(rest.skip(from - 1) =~= keys.skip(from));
        } else {
            assert(keys.skip(0) =~= keys);
        }
    } else {
        assert(keys.skip(0) =~= keys);
    }
}

proof fn lemma_taken(keys: Seq<Seq<Seq<u8>>>, prefix: Seq<Seq<u8>>, n: int)
    requires
        0 <= n <= keys.len(),
        forall|i: int| 0 <= i < n ==> leads_to(prefix, #[trigger] keys[i]),
        n < keys.len() ==> !leads_to(prefix, keys[n]),
    ensures
        take_leading(keys, prefix) == keys.take(n),
    decreases keys.len(),
{
    if n > 0 {
        let rest = keys.drop_first();
        assert forall|i: int| 0 <= i < n - 1 implies leads_to(prefix, #[trigger] rest[i]) by {
            assert(rest[i] == keys[i + 1]);
        }
        assert(leads_to(prefix, keys[0]));
        lemma_taken(rest, prefix, n - 1);
        assert(keys.take(n) =~= seq![keys[0]] + rest.take(n - 1));
    } else {
        assert(keys.take(0) =~= Seq::empty());
    }
}

/// Whether a byte may stand in a name that is typed: it is neither a terminator nor one of
/// the characters `" # $ % & * . : @ ^ |`.
pub open spec fn may_be_typed(b: u8) -> bool {
    &&& !ends_name(b)
    &&& !seq![34u8, 35, 36, 37, 38, 42, 46, 58, 64, 94, 124].contains(b)
}

/// Whether a name can be typed: it has one to ten bytes, and each may be typed.
pub open spec fn can_be_typed(name: Seq<u8>) -> bool {
    &&& 0 < name.len() <= 10
    &&& forall|i: int| 0 <= i < name.len() ==> may_be_typed(#[trigger] name[i])
}

/// How a path is typed: a dollar sign, and each name behind a full stop.
pub open spec fn typed(names: Seq<Seq<u8>>) -> Seq<u8> {
    seq![36u8] + names.map_values(|name: Seq<u8>| seq![46u8] + name).flatten()
}

proof fn lemma_may_be_typed(b: u8)
    ensures
        may_be_typed(b) <==> !crate::new_map::util::ends_segment(b),
{
    let list = seq![34u8, 35, 36, 37, 38, 42, 46, 58, 64, 94, 124];
    assert(list[0] == 34 && list[1] == 35 && list[2] == 36 && list[3] == 37 && list[4] == 38
        && list[5] == 42 && list[6] == 46 && list[7] == 58 && list[8] == 64 && list[9] == 94
        && list[10] == 124);
    if list.contains(b) {
        let i = choose|i: int| 0 <= i < list.len() && list[i] == b;
        assert(crate::new_map::util::is_forbidden(b));
    }
}

proof fn lemma_can_be_typed(name: Seq<u8>)
    ensures
        can_be_typed(name) <==> is_segment(name),
{
    assert forall|i: int| 0 <= i < name.len() implies (may_be_typed(#[trigger] name[i])
        <==> !crate::new_map::util::ends_segment(name[i])) by {
        lemma_may_be_typed(name[i]);
    }
}

proof fn lemma_typed(names: Seq<Seq<u8>>)
    ensures
        joined(names) == names.map_values(|name: Seq<u8>| seq![46u8] + name).flatten(),
    decreases names.len(),
{
    let pieces = names.map_values(|name: Seq<u8>| seq![46u8] + name);
    if names.len() == 0 {
        assert(pieces =~= Seq::empty());
        assert(joined(names) =~= pieces.flatten());
    } else {
        let rest = names.drop_first();
        lemma_typed(rest);
        assert(pieces.drop_first() =~= rest.map_values(|name: Seq<u8>| seq![46u8] + name));
        assert(pieces[0] == seq![46u8] + names[0]);
        assert(pieces.flatten() == pieces[0] + pieces.drop_first().flatten());
        assert(joined(names) =~= pieces.flatten());
    }
}

/// A path that was typed gives its names back, with or without a full stop behind the last
/// of them. No other text is a path.
pub proof fn law_typed_paths(text: Seq<u8>, names: Seq<Seq<u8>>)
    ensures
        path_segments(text) == Some(names) <==> {
            &&& forall|i: int| 0 <= i < names.len() ==> can_be_typed(#[trigger] names[i])
            &&& text == typed(names) || text == typed(names).push(46)
        },
        path_segments(text) is Some ==> typed(path_segments(text)->0) == text || typed(
            path_segments(text)->0,
        ).push(46) == text,
{
    lemma_text_of(text, names);
    if path_segments(text) is Some {
        lemma_text_of(text, path_segments(text)->0);
    }
    if is_path_text(text, names) {
        lemma_path_text_unique(text, names, path_segments(text)->0);
    }
}

proof fn lemma_text_of(text: Seq<u8>, names: Seq<Seq<u8>>)
    ensures
        is_path_text(text, names) <==> {
            &&& forall|i: int| 0 <= i < names.len() ==> can_be_typed(#[trigger] names[i])
            &&& text == typed(names) || text == typed(names).push(46)
        },
{
    lemma_typed(names);
    assert forall|i: int| 0 <= i < names.len() implies (can_be_typed(#[trigger] names[i])
        <==> is_segment(names[i])) by {
        lemma_can_be_typed(names[i]);
    }
    assert(typed(names).push(46) =~= seq![36u8] + joined(names) + seq![46u8]);
    if forall|i: int| 0 <= i < names.len() ==> can_be_typed(#[trigger] names[i]) {
        assert forall|i: int| 0 <= i < names.len() implies is_segment(#[trigger] names[i]) by {
            assert(can_be_typed(names[i]));
        }
    }
    if forall|i: int| 0 <= i < names.len() ==> is_segment(#[trigger] names[i]) {
        assert forall|i: int| 0 <= i < names.len() implies can_be_typed(#[trigger] names[i]) by {
            assert(is_segment(names[i]));
        }
    }
}

/// A name that is typed ends before the first byte that may not stand in it.
pub proof fn law_end_of_name(name: Seq<u8>, rest: Seq<u8>)
    requires
        forall|i: int| 0 <= i < name.len() ==> may_be_typed(#[trigger] name[i]),
        rest.len() > 0 ==> !may_be_typed(rest[0]),
    ensures
        segment_run(name + rest) == name.len(),
    decreases name.len(),
{
    let all = name + rest;
    if name.len() == 0 {
        assert(all =~= rest);
        if rest.len() > 0 {
            lemma_may_be_typed(rest[0]);
        }
    } else {
        assert(may_be_typed(name[0]));
        lemma_may_be_typed(name[0]);
        assert(all[0] == name[0]);
        assert(all.drop_first() =~= name.drop_first() + rest);
        law_end_of_name(name.drop_first(), rest);
    }
}

/// A name that was typed is filled up with zeros.
pub proof fn law_filled_up(name: Seq<u8>, room: nat)
    requires
        name.len() <= room,
    ensures
        padded(name, room).len() == room,
        padded(name, room).take(name.len() as int) == name,
        forall|i: int| name.len() <= i < room ==> padded(name, room)[i] == 0,
{
    assert(padded(name, room).take(name.len() as int) =~= name);
}

} // verus!
