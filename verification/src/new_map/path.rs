//! Paths of the file system.

use std::cmp::Ordering;

use vstd::prelude::*;
use vstd::string::*;

use super::util::{
    byte_order, ends_segment, is_control, lemma_byte_order_chain, lemma_byte_order_flip,
    lemma_byte_order_same, lemma_name_len_is, lemma_segment_run, lemma_segment_run_is, make_input,
    name_of, name_text, ordering_of, padded, segment_run, FixedLenString, Relation,
};
use crate::text::{as_chars, lemma_decoded_ascii, lemma_escaped_plain};

verus! {

/// How many bytes one part of a path may have.
pub const MAX_SEGMENT_LENGTH: usize = 10;

/// A path of the file system: the names from the root directory down.
///
/// The names are byte strings, which need not be text. The path without any
/// names is the root directory, `$`.
#[derive(Debug, Eq, Hash)]
pub struct Path(pub Vec<FixedLenString<10>>);

/// The bytes of each part, with the padding.
pub open spec fn raw_segments(segments: Seq<FixedLenString<10>>) -> Seq<Seq<u8>> {
    segments.map_values(|s: FixedLenString<10>| s.0@)
}

/// The name of each part.
pub open spec fn segment_names(segments: Seq<FixedLenString<10>>) -> Seq<Seq<u8>> {
    segments.map_values(|s: FixedLenString<10>| s@)
}

impl View for Path {
    type V = Seq<Seq<u8>>;

    open spec fn view(&self) -> Seq<Seq<u8>> {
        segment_names(self.0@)
    }
}

/// A part of a path as text can give it.
pub open spec fn is_segment(s: Seq<u8>) -> bool {
    &&& 1 <= s.len() <= 10
    &&& forall|i: int| 0 <= i < s.len() ==> !ends_segment(#[trigger] s[i])
}

/// Each part behind a separator.
pub open spec fn joined(segments: Seq<Seq<u8>>) -> Seq<u8>
    decreases segments.len(),
{
    if segments.len() == 0 {
        Seq::empty()
    } else {
        seq![Path::DIR_SEPARATOR] + segments[0] + joined(segments.drop_first())
    }
}

/// Whether a text is the path with the given parts: the root symbol, each part
/// behind a separator, and perhaps one more separator at the end.
pub open spec fn is_path_text(text: Seq<u8>, segments: Seq<Seq<u8>>) -> bool {
    &&& forall|i: int| 0 <= i < segments.len() ==> is_segment(#[trigger] segments[i])
    &&& {
        ||| text == seq![Path::ROOT_SYMBOL] + joined(segments)
        ||| text == seq![Path::ROOT_SYMBOL] + joined(segments) + seq![Path::DIR_SEPARATOR]
    }
}

/// The parts of a path that is given as text, if it is a path at all.
pub open spec fn path_segments(text: Seq<u8>) -> Option<Seq<Seq<u8>>> {
    if exists|segments: Seq<Seq<u8>>| is_path_text(text, segments) {
        Some(choose|segments: Seq<Seq<u8>>| is_path_text(text, segments))
    } else {
        None
    }
}

/// Reads parts from the separator at `pos` on.
spec fn scan(text: Seq<u8>, pos: int) -> Option<Seq<Seq<u8>>>
    decreases text.len() - pos,
{
    if pos < 0 || pos >= text.len() {
        Some(Seq::empty())
    } else if text[pos] != Path::DIR_SEPARATOR {
        None
    } else if pos + 1 == text.len() {
        Some(Seq::empty())
    } else {
        let rest = text.skip(pos + 1);
        let run = segment_run(rest);
        let n = if run < 10 {
            run as int
        } else {
            10
        };
        if n == 0 {
            None
        } else {
            proof {
                lemma_segment_run(rest);
            }
            match scan(text, pos + 1 + n) {
                Some(more) => Some(seq![rest.take(n)] + more),
                None => None,
            }
        }
    }
}

/// What `scan` reads is there.
proof fn lemma_scan_sound(text: Seq<u8>, pos: int)
    requires
        0 <= pos <= text.len(),
        scan(text, pos) is Some,
    ensures
        forall|i: int|
            0 <= i < scan(text, pos)->0.len() ==> is_segment(#[trigger] scan(text, pos)->0[i]),
        text.skip(pos) == joined(scan(text, pos)->0) || text.skip(pos) == joined(
            scan(text, pos)->0,
        ) + seq![Path::DIR_SEPARATOR],
    decreases text.len() - pos,
{
    let parts = scan(text, pos)->0;
    if pos == text.len() {
        assert(text.skip(pos) =~= joined(parts));
    } else if pos + 1 == text.len() {
        assert(text.skip(pos) =~= joined(parts) + seq![Path::DIR_SEPARATOR]);
    } else {
        let rest = text.skip(pos + 1);
        let run = segment_run(rest);
        let n = if run < 10 {
            run as int
        } else {
            10
        };
        lemma_segment_run(rest);
        let more = scan(text, pos + 1 + n)->0;
        lemma_scan_sound(text, pos + 1 + n);
        assert(parts.drop_first() =~= more);
        assert(text.skip(pos) =~= seq![Path::DIR_SEPARATOR] + rest.take(n) + text.skip(
            pos + 1 + n,
        ));
        assert forall|i: int| 0 <= i < parts.len() implies is_segment(#[trigger] parts[i]) by {
            if i > 0 {
                assert(parts[i] == more[i - 1]);
            }
        }
        if text.skip(pos + 1 + n) == joined(more) {
            assert(text.skip(pos) =~= joined(parts));
        } else {
            assert(text.skip(pos) =~= joined(parts) + seq![Path::DIR_SEPARATOR]);
        }
    }
}

/// `scan` reads what is there.
proof fn lemma_scan_complete(text: Seq<u8>, pos: int, parts: Seq<Seq<u8>>)
    requires
        0 <= pos <= text.len(),
        forall|i: int| 0 <= i < parts.len() ==> is_segment(#[trigger] parts[i]),
        text.skip(pos) == joined(parts) || text.skip(pos) == joined(parts)
            + seq![Path::DIR_SEPARATOR],
    ensures
        scan(text, pos) == Some(parts),
    decreases parts.len(),
{
    let tail = text.skip(pos);
    if parts.len() == 0 {
        assert(parts =~= Seq::empty());
        if pos < text.len() {
            assert(tail[0] == text[pos]);
        }
    } else {
        let first = parts[0];
        let more = parts.drop_first();
        let n = first.len() as int;
        let rest = text.skip(pos + 1);
        let end = if tail == joined(parts) {
            joined(more)
        } else {
            joined(more) + seq![Path::DIR_SEPARATOR]
        };
        assert(is_segment(first));
        assert(tail =~= seq![Path::DIR_SEPARATOR] + first + end);
        assert(tail[0] == text[pos]);
        assert(rest =~= tail.skip(1));
        assert(rest =~= first + end);
        assert(text.skip(pos + 1 + n) =~= rest.skip(n));
        assert(rest.skip(n) =~= end);
        assert forall|i: int| 0 <= i < n implies !ends_segment(#[trigger] rest[i]) by {
            assert(rest[i] == first[i]);
        }
        if n < rest.len() {
            assert(rest[n] == end[0]);
            assert(end[0] == Path::DIR_SEPARATOR);
        }
        lemma_segment_run_is(rest, n);
        assert forall|i: int| 0 <= i < more.len() implies is_segment(#[trigger] more[i]) by {
            assert(more[i] == parts[i + 1]);
        }
        lemma_scan_complete(text, pos + 1 + n, more);
        assert(rest.take(n) =~= first);
        assert(seq![first] + more =~= parts);
    }
}

/// A text is a path in at most one way.
pub proof fn lemma_path_text_unique(text: Seq<u8>, a: Seq<Seq<u8>>, b: Seq<Seq<u8>>)
    requires
        is_path_text(text, a),
        is_path_text(text, b),
    ensures
        a == b,
{
    lemma_text_scan(text, a);
    lemma_text_scan(text, b);
}

proof fn lemma_text_scan(text: Seq<u8>, parts: Seq<Seq<u8>>)
    requires
        is_path_text(text, parts),
    ensures
        scan(text, 1) == Some(parts),
{
    if text == seq![Path::ROOT_SYMBOL] + joined(parts) {
        assert(text.skip(1) =~= joined(parts));
    } else {
        assert(text.skip(1) =~= joined(parts) + seq![Path::DIR_SEPARATOR]);
    }
    lemma_scan_complete(text, 1, parts);
}

/// The parts of a path text are those that `scan` reads.
proof fn lemma_path_segments(text: Seq<u8>)
    ensures
        path_segments(text) == if text.len() > 0 && text[0] == Path::ROOT_SYMBOL {
            scan(text, 1)
        } else {
            None
        },
{
    if path_segments(text) is Some {
        lemma_text_scan(text, path_segments(text)->0);
    }
    if text.len() > 0 && text[0] == Path::ROOT_SYMBOL && scan(text, 1) is Some {
        let parts = scan(text, 1)->0;
        lemma_scan_sound(text, 1);
        assert(text =~= seq![Path::ROOT_SYMBOL] + text.skip(1));
        if text.skip(1) != joined(parts) {
            assert(text =~= seq![Path::ROOT_SYMBOL] + joined(parts) + seq![Path::DIR_SEPARATOR]);
        }
        assert(is_path_text(text, parts));
    }
}

/// Dictionary order of paths, by their names.
pub open spec fn path_order(a: Seq<Seq<u8>>, b: Seq<Seq<u8>>) -> Relation
    decreases a.len(),
{
    if a.len() == 0 && b.len() == 0 {
        Relation::Same
    } else if a.len() == 0 {
        Relation::Before
    } else if b.len() == 0 {
        Relation::After
    } else if byte_order(a[0], b[0]) != Relation::Same {
        byte_order(a[0], b[0])
    } else {
        path_order(a.drop_first(), b.drop_first())
    }
}

/// Only paths with the same names are in the same place.
pub proof fn lemma_path_order_same(a: Seq<Seq<u8>>, b: Seq<Seq<u8>>)
    ensures
        path_order(a, b) == Relation::Same <==> a == b,
    decreases a.len(),
{
    if a.len() > 0 && b.len() > 0 {
        lemma_byte_order_same(a[0], b[0]);
        lemma_path_order_same(a.drop_first(), b.drop_first());
        if a[0] == b[0] && a.drop_first() == b.drop_first() {
            assert(a =~= seq![a[0]] + a.drop_first());
            assert(b =~= seq![b[0]] + b.drop_first());
        }
    } else if a.len() == 0 && b.len() == 0 {
        assert(a =~= b);
    }
}

/// What stands before another stands before everything behind that other.
pub proof fn lemma_path_order_chain(a: Seq<Seq<u8>>, b: Seq<Seq<u8>>, c: Seq<Seq<u8>>)
    ensures
        path_order(a, b) == Relation::Before && path_order(b, c) == Relation::Before ==> path_order(
            a,
            c,
        ) == Relation::Before,
    decreases a.len(),
{
    if a.len() > 0 && b.len() > 0 && c.len() > 0 {
        lemma_byte_order_chain(a[0], b[0], c[0]);
        lemma_byte_order_same(a[0], b[0]);
        lemma_byte_order_same(b[0], c[0]);
        lemma_byte_order_same(a[0], c[0]);
        lemma_path_order_chain(a.drop_first(), b.drop_first(), c.drop_first());
    }
}

/// The order is the same seen from either side.
pub proof fn lemma_path_order_flip(a: Seq<Seq<u8>>, b: Seq<Seq<u8>>)
    ensures
        path_order(a, b) == Relation::Before <==> path_order(b, a) == Relation::After,
    decreases a.len(),
{
    if a.len() > 0 && b.len() > 0 {
        lemma_byte_order_flip(a[0], b[0]);
        lemma_byte_order_flip(b[0], a[0]);
        lemma_byte_order_same(a[0], b[0]);
        lemma_byte_order_same(b[0], a[0]);
        lemma_path_order_flip(a.drop_first(), b.drop_first());
    }
}

/// Whether the first path leads towards the second, as far as both have names:
/// all names but the last one are the same, and the last one is how the other
/// begins.
pub open spec fn leads_to(a: Seq<Seq<u8>>, b: Seq<Seq<u8>>) -> bool {
    let m = if a.len() < b.len() {
        a.len() as int
    } else {
        b.len() as int
    };
    m == 0 || {
        &&& forall|i: int| 0 <= i < m - 1 ==> a[i] == #[trigger] b[i]
        &&& a[m - 1].is_prefix_of(b[m - 1])
    }
}

/// How a path is shown: the root symbol, and each name behind a separator.
pub open spec fn path_text(names: Seq<Seq<u8>>) -> Seq<char>
    decreases names.len(),
{
    if names.len() == 0 {
        seq!['$']
    } else {
        path_text(names.drop_last()) + seq!['.'] + name_text(names.last())
    }
}

/// Whether a byte is shown as it is: printable ASCII, but neither a quote nor a
/// backslash.
pub open spec fn is_plain(b: u8) -> bool {
    0x20 <= b <= 0x7E && b != 0x22 && b != 0x27 && b != 0x5C
}

/// Whether all parts are shown as they are.
pub open spec fn are_plain(segments: Seq<Seq<u8>>) -> bool {
    forall|i: int, j: int|
        0 <= i < segments.len() && 0 <= j < segments[i].len() ==> is_plain(
            #[trigger] segments[i][j],
        )
}

/// One more part at the end.
proof fn lemma_joined_last(segments: Seq<Seq<u8>>)
    requires
        segments.len() > 0,
    ensures
        joined(segments) == joined(segments.drop_last()) + seq![Path::DIR_SEPARATOR]
            + segments.last(),
    decreases segments.len(),
{
    let dot = seq![Path::DIR_SEPARATOR];
    if segments.len() == 1 {
        assert(segments.drop_first() =~= Seq::empty());
        assert(segments.drop_last() =~= Seq::empty());
        assert(joined(segments) =~= joined(segments.drop_last()) + dot + segments.last());
    } else {
        let rest = segments.drop_first();
        lemma_joined_last(rest);
        assert(segments.drop_last().drop_first() =~= rest.drop_last());
        assert(segments.drop_last()[0] == segments[0]);
        assert(rest.last() == segments.last());
        assert(joined(segments) =~= joined(segments.drop_last()) + dot + segments.last());
    }
}

/// Plain parts are shown as the text that they come from.
proof fn lemma_plain_text(segments: Seq<Seq<u8>>)
    requires
        are_plain(segments),
    ensures
        path_text(segments) == as_chars(seq![Path::ROOT_SYMBOL] + joined(segments)),
    decreases segments.len(),
{
    let root = seq![Path::ROOT_SYMBOL];
    let dot = seq![Path::DIR_SEPARATOR];
    if segments.len() == 0 {
        assert(as_chars(root + joined(segments)) =~= seq!['$']);
    } else {
        let before = segments.drop_last();
        let last = segments.last();
        assert forall|i: int, j: int|
            0 <= i < before.len() && 0 <= j < before[i].len() implies is_plain(
            #[trigger] before[i][j],
        ) by {
            assert(before[i] == segments[i]);
        }
        lemma_plain_text(before);
        lemma_joined_last(segments);
        assert forall|j: int| 0 <= j < last.len() implies is_plain(#[trigger] last[j]) by {
            assert(segments[segments.len() - 1][j] == last[j]);
        }
        lemma_decoded_ascii(last);
        lemma_escaped_plain(as_chars(last));
        assert(as_chars(root + (joined(before) + dot + last)) =~= as_chars(root + joined(before))
            + seq!['.'] + as_chars(last));
    }
}

/// A path that was typed has the names that were typed.
pub proof fn lemma_typed_names(text: Seq<u8>, path: Path)
    requires
        path_segments(text) matches Some(segments) && raw_segments(path.0@) == segments.map_values(
            |s: Seq<u8>| padded(s, 10),
        ),
    ensures
        path@ == path_segments(text)->0,
{
    let segments = path_segments(text)->0;
    let raw = raw_segments(path.0@);
    assert(is_path_text(text, segments));
    assert(raw.len() == path.0@.len());
    assert(raw.len() == segments.len());
    assert forall|i: int| 0 <= i < segments.len() implies path@[i] == segments[i] by {
        let segment = segments[i];
        let bytes = padded(segment, 10);
        assert(raw[i] == bytes);
        assert(raw[i] == path.0@[i].0@);
        assert(is_segment(segments[i]));
        assert forall|j: int| 0 <= j < segment.len() implies !is_control(#[trigger] bytes[j]) by {
            assert(!ends_segment(segment[j]));
        }
        lemma_name_len_is(bytes, segment.len() as int);
        assert(name_of(bytes) =~= segment);
    }
    assert(path@ =~= segments);
}

/// A path that was typed in plain characters is shown as it was typed, but for a
/// separator at the end.
pub proof fn lemma_path_round_trip(text: Seq<u8>, path: Path)
    requires
        path_segments(text) matches Some(segments) && are_plain(segments) && raw_segments(path.0@)
            == segments.map_values(|s: Seq<u8>| padded(s, 10)),
    ensures
        ({
            let segments = path_segments(text)->0;
            let shown = seq![Path::ROOT_SYMBOL] + joined(segments);
            &&& path@ == segments
            &&& path_text(path@) == as_chars(shown)
            &&& text == shown || text == shown.push(Path::DIR_SEPARATOR)
        }),
{
    let segments = path_segments(text)->0;
    assert(is_path_text(text, segments));
    lemma_typed_names(text, path);
    lemma_plain_text(segments);
    let shown = seq![Path::ROOT_SYMBOL] + joined(segments);
    assert(shown + seq![Path::DIR_SEPARATOR] =~= shown.push(Path::DIR_SEPARATOR));
}

/// Every path leads towards itself, and the root leads towards everything.
pub proof fn lemma_leads_to(path: Seq<Seq<u8>>)
    ensures
        leads_to(path, path),
        leads_to(Seq::empty(), path),
{
    if path.len() > 0 {
        let last = path[path.len() - 1];
        assert(last.is_prefix_of(last)) by {
            assert(last.subrange(0, last.len() as int) =~= last);
        }
    }
}

impl Path {
    /// Stands for the root directory.
    pub const ROOT_SYMBOL: u8 = 0x24;

    /// Stands before each name.
    pub const DIR_SEPARATOR: u8 = 0x2E;

    /// The path of the root directory.
    pub fn root_path() -> (path: Path)
        ensures
            path.0@ == Seq::<FixedLenString<10>>::empty(),
            path@ == Seq::<Seq<u8>>::empty(),
    {
        let path = Path(Vec::new());
        assert(path@ =~= Seq::<Seq<u8>>::empty());
        path
    }

    /// Reads a path from text that somebody typed. Directories hold no paths in
    /// this form.
    ///
    /// Gives nothing where the text is no path, or where a part of it is too long
    /// for the disc.
    pub fn from_bytes(input: &[u8]) -> (r: Option<Path>)
        ensures
            match r {
                Some(path) => {
                    &&& path_segments(input@) is Some
                    &&& raw_segments(path.0@) == path_segments(input@)->0.map_values(
                        |s: Seq<u8>| padded(s, 10),
                    )
                    &&& path@ == path_segments(input@)->0
                },
                None => path_segments(input@) is None,
            },
    {
        proof {
            lemma_path_segments(input@);
        }
        if input.len() == 0 || input[0] != Path::ROOT_SYMBOL {
            return None;
        }
        let total: usize = input.len();
        let mut stream = make_input(input);
        stream.pos = 1;
        let mut segments: Vec<FixedLenString<10>> = Vec::new();
        let ghost mut parts: Seq<Seq<u8>> = Seq::empty();
        proof {
            if scan(input@, 1) is Some {
                assert(parts + scan(input@, 1)->0 =~= scan(input@, 1)->0);
            }
        }
        while stream.pos < total
            invariant
                stream.data == input,
                stream.wf(),
                stream.pos >= 1,
                total == input@.len(),
                segments@.len() == parts.len(),
                forall|i: int|
                    0 <= i < parts.len() ==> (#[trigger] segments@[i]).0@ == padded(parts[i], 10),
                scan(input@, 1) is Some <==> scan(input@, stream.pos as int) is Some,
                scan(input@, 1) is Some ==> scan(input@, 1)->0 == parts + scan(
                    input@,
                    stream.pos as int,
                )->0,
                path_segments(input@) == scan(input@, 1),
            decreases total - stream.pos,
        {
            let at: usize = stream.pos;
            if input[at] != Path::DIR_SEPARATOR {
                return None;
            }
            if at + 1 == total {
                proof {
                    assert(parts + Seq::<Seq<u8>>::empty() =~= parts);
                    lemma_raw_segments(segments@, parts);
                    lemma_typed_names(input@, Path(segments));
                }
                return Some(Path(segments));
            }
            stream.pos = at + 1;
            match FixedLenString::<10>::parse_from_byte_str(&mut stream) {
                Err(_) => {
                    return None;
                },
                Ok(segment) => {
                    proof {
                        let rest = input@.skip(at + 1);
                        let part = rest.take(stream.pos - (at + 1));
                        if scan(input@, at as int) is Some {
                            let more = scan(input@, stream.pos as int)->0;
                            assert(parts + (seq![part] + more) =~= parts.push(part) + more);
                        }
                        parts = parts.push(part);
                    }
                    segments.push(segment);
                },
            }
        }
        proof {
            assert(parts + Seq::<Seq<u8>>::empty() =~= parts);
            lemma_raw_segments(segments@, parts);
            lemma_typed_names(input@, Path(segments));
        }
        Some(Path(segments))
    }

    /// Whether this path leads towards the other, as far as both have names. The
    /// last name that both have need only be how the other one begins.
    pub fn is_prefix(&self, other: &Path) -> (r: bool)
        ensures
            r == leads_to(self@, other@),
    {
        let m: usize = if self.0.len() < other.0.len() {
            self.0.len()
        } else {
            other.0.len()
        };
        if m == 0 {
            return true;
        }
        let mut i: usize = 0;
        while i < m - 1
            invariant
                i <= m - 1,
                m <= self.0@.len(),
                m <= other.0@.len(),
                m == self.0@.len() || m == other.0@.len(),
                forall|j: int| 0 <= j < i ==> self@[j] == #[trigger] other@[j],
            decreases m - i,
        {
            if self.0[i] != other.0[i] {
                assert(self@[i as int] != other@[i as int]);
                return false;
            }
            i = i + 1;
        }
        self.0[m - 1].is_prefix(&other.0[m - 1])
    }

    /// This path with one more name behind it.
    pub fn append(&self, segment: FixedLenString<10>) -> (path: Path)
        ensures
            path.0@ == self.0@.push(segment),
            path@ == self@.push(segment@),
    {
        let mut segments = Path::from_segments(self.0.as_slice());
        segments.0.push(segment);
        assert(segments@ =~= self@.push(segment@));
        segments
    }

    /// This path with one more name before it.
    pub fn prepend(&self, segment: FixedLenString<10>) -> (path: Path)
        ensures
            path.0@ == seq![segment] + self.0@,
            path@ == seq![segment@] + self@,
    {
        let mut segments: Vec<FixedLenString<10>> = Vec::new();
        segments.push(segment);
        let mut i: usize = 0;
        while i < self.0.len()
            invariant
                i <= self.0@.len(),
                segments@ =~= seq![segment] + self.0@.take(i as int),
            decreases self.0@.len() - i,
        {
            segments.push(self.0[i]);
            i = i + 1;
        }
        assert(segments@ =~= seq![segment] + self.0@);
        let path = Path(segments);
        assert(path@ =~= seq![segment@] + self@);
        path
    }

    /// The path with the given names.
    pub fn from_segments(segments: &[FixedLenString<10>]) -> (path: Path)
        ensures
            path.0@ == segments@,
            path@ == segment_names(segments@),
    {
        let mut copy: Vec<FixedLenString<10>> = Vec::new();
        let mut i: usize = 0;
        while i < segments.len()
            invariant
                i <= segments@.len(),
                copy@ =~= segments@.take(i as int),
            decreases segments@.len() - i,
        {
            copy.push(segments[i]);
            i = i + 1;
        }
        assert(copy@ =~= segments@);
        Path(copy)
    }

    /// The first `count` names.
    pub fn stem(&self, count: usize) -> (path: Path)
        requires
            count <= self@.len(),
        ensures
            path.0@ == self.0@.take(count as int),
            path@ == self@.take(count as int),
    {
        let path = Path::from_segments(vstd::slice::slice_subrange(self.0.as_slice(), 0, count));
        assert(path.0@ =~= self.0@.take(count as int));
        assert(path@ =~= self@.take(count as int));
        path
    }

    /// The names, with their padding.
    pub fn segments(&self) -> (segments: &[FixedLenString<10>])
        ensures
            segments@ == self.0@,
    {
        self.0.as_slice()
    }

    /// Whether this is the root directory.
    pub fn is_empty(&self) -> (r: bool)
        ensures
            r == (self@.len() == 0),
    {
        self.len() == 0
    }

    /// The number of names.
    pub fn len(&self) -> (n: usize)
        ensures
            n == self@.len(),
    {
        self.0.len()
    }

    /// Reads a path from text that a user typed. Nothing is done about characters
    /// that the disc would encode otherwise.
    pub fn try_from_str(path: &str) -> (r: Result<Path, String>)
        ensures
            match r {
                Ok(p) => {
                    &&& path_segments(path.spec_bytes()) is Some
                    &&& raw_segments(p.0@) == path_segments(path.spec_bytes())->0.map_values(
                        |s: Seq<u8>| padded(s, 10),
                    )
                    &&& p@ == path_segments(path.spec_bytes())->0
                },
                Err(message) => {
                    &&& path_segments(path.spec_bytes()) is None
                    &&& message@ == "Could not convert '"@ + path@ + "' to ADFS path"@
                },
            },
    {
        match Path::from_bytes(path.as_bytes()) {
            Some(p) => Ok(p),
            None => {
                let mut message = String::new();
                message.append("Could not convert '");
                message.append(path);
                message.append("' to ADFS path");
                assert(message@ =~= "Could not convert '"@ + path@ + "' to ADFS path"@);
                Err(message)
            },
        }
    }

    /// The names as byte strings, without the padding.
    pub fn to_byte_segments(&self) -> (output: Vec<Vec<u8>>)
        ensures
            output@.len() == self@.len(),
            forall|i: int| 0 <= i < output@.len() ==> (#[trigger] output@[i])@ == self@[i],
    {
        let mut output: Vec<Vec<u8>> = Vec::new();
        let mut i: usize = 0;
        while i < self.0.len()
            invariant
                i <= self.0@.len(),
                output@.len() == i,
                forall|j: int| 0 <= j < i ==> (#[trigger] output@[j])@ == self@[j],
            decreases self.0@.len() - i,
        {
            output.push(vstd::slice::slice_to_vec(self.0[i].valid_range()));
            i = i + 1;
        }
        output
    }

    /// How this path stands to the other in dictionary order.
    pub fn compare(&self, other: &Path) -> (r: Relation)
        ensures
            r == path_order(self@, other@),
    {
        let mut i: usize = 0;
        assert(self@.skip(0) =~= self@ && other@.skip(0) =~= other@);
        while i < self.0.len() && i < other.0.len()
            invariant
                i <= self.0@.len(),
                i <= other.0@.len(),
                path_order(self@, other@) == path_order(
                    self@.skip(i as int),
                    other@.skip(i as int),
                ),
            decreases self.0@.len() - i,
        {
            assert(self@.skip(i as int)[0] == self.0@[i as int]@);
            assert(other@.skip(i as int)[0] == other.0@[i as int]@);
            let relation = self.0[i].compare(&other.0[i]);
            if relation != Relation::Same {
                return relation;
            }
            assert(self@.skip(i as int).drop_first() =~= self@.skip(i + 1));
            assert(other@.skip(i as int).drop_first() =~= other@.skip(i + 1));
            i = i + 1;
        }
        if i < self.0.len() {
            Relation::After
        } else if i < other.0.len() {
            Relation::Before
        } else {
            Relation::Same
        }
    }

    /// How this path stands to the other in dictionary order.
    pub fn cmp(&self, other: &Path) -> (r: Ordering)
        ensures
            r == ordering_of(path_order(self@, other@)),
    {
        self.compare(other).to_ordering()
    }

    /// The path as it is shown.
    pub fn to_string(&self) -> (s: String)
        ensures
            s@ == path_text(self@),
    {
        let mut s = String::new();
        s.push('$');
        let mut i: usize = 0;
        assert(self@.take(0) =~= Seq::<Seq<u8>>::empty());
        assert(s@ =~= path_text(self@.take(0)));
        while i < self.0.len()
            invariant
                i <= self.0@.len(),
                s@ == path_text(self@.take(i as int)),
            decreases self.0@.len() - i,
        {
            s.push('.');
            self.0[i].push_text(&mut s);
            proof {
                let next = self@.take(i + 1);
                assert(next.drop_last() =~= self@.take(i as int));
                assert(next.last() == self.0@[i as int]@);
                assert(s@ =~= path_text(next));
            }
            i = i + 1;
        }
        assert(self@.take(self.0@.len() as int) =~= self@);
        s
    }

    /// Adds the names of each of the given paths, in order, to this one.
    pub fn extend(&mut self, paths: &[Path])
        ensures
            final(self)@ == old(self)@ + paths@.map_values(|p: Path| p@).flatten(),
            final(self).0@ == old(self).0@ + paths@.map_values(|p: Path| p.0@).flatten(),
    {
        let ghost before = self@;
        let ghost before_raw = self.0@;
        let ghost lists = paths@.map_values(|p: Path| p@);
        let ghost raw_lists = paths@.map_values(|p: Path| p.0@);
        let mut i: usize = 0;
        assert(lists.take(0) =~= Seq::empty());
        assert(self@ =~= before + lists.take(0).flatten());
        assert(raw_lists.take(0) =~= Seq::empty());
        assert(self.0@ =~= before_raw + raw_lists.take(0).flatten());
        while i < paths.len()
            invariant
                i <= paths@.len(),
                lists == paths@.map_values(|p: Path| p@),
                raw_lists == paths@.map_values(|p: Path| p.0@),
                self@ == before + lists.take(i as int).flatten(),
                self.0@ == before_raw + raw_lists.take(i as int).flatten(),
            decreases paths@.len() - i,
        {
            let ghost so_far = self@;
            let ghost raw_so_far = self.0@;
            let more = &paths[i];
            let mut j: usize = 0;
            while j < more.0.len()
                invariant
                    j <= more.0@.len(),
                    self@ =~= so_far + more@.take(j as int),
                    self.0@ =~= raw_so_far + more.0@.take(j as int),
                decreases more.0@.len() - j,
            {
                let ghost reached = self@;
                self.0.push(more.0[j]);
                assert(self@ =~= reached.push(more@[j as int]));
                assert(more@.take(j + 1) =~= more@.take(j as int).push(more@[j as int]));
                j = j + 1;
            }
            proof {
                assert(more@.take(j as int) =~= more@);
                let next = lists.take(i + 1);
                assert(next =~= lists.take(i as int).push(more@));
                lists.take(i as int).lemma_flatten_push(more@);
                assert(self@ =~= before + next.flatten());
                assert(more.0@.take(j as int) =~= more.0@);
                let raw_next = raw_lists.take(i + 1);
                assert(raw_next =~= raw_lists.take(i as int).push(more.0@));
                raw_lists.take(i as int).lemma_flatten_push(more.0@);
                assert(self.0@ =~= before_raw + raw_next.flatten());
            }
            i = i + 1;
        }
        assert(lists.take(paths@.len() as int) =~= lists);
        assert(raw_lists.take(paths@.len() as int) =~= raw_lists);
    }
}

proof fn lemma_raw_segments(segments: Seq<FixedLenString<10>>, parts: Seq<Seq<u8>>)
    requires
        segments.len() == parts.len(),
        forall|i: int|
            0 <= i < parts.len() ==> (#[trigger] segments[i]).0@ == padded(parts[i], 10),
    ensures
        raw_segments(segments) == parts.map_values(|s: Seq<u8>| padded(s, 10)),
{
    assert(raw_segments(segments) =~= parts.map_values(|s: Seq<u8>| padded(s, 10)));
}

impl Clone for Path {
    fn clone(&self) -> (path: Path)
        ensures
            path.0@ == self.0@,
            path@ == self@,
    {
        Path::from_segments(self.0.as_slice())
    }
}

impl Default for Path {
    fn default() -> (path: Path)
        ensures
            path@ == Seq::<Seq<u8>>::empty(),
    {
        Path::root_path()
    }
}

impl PartialEq for Path {
    fn eq(&self, other: &Path) -> (r: bool) {
        proof {
            lemma_path_order_same(self@, other@);
        }
        match self.compare(other) {
            Relation::Same => true,
            _ => false,
        }
    }
}

impl vstd::std_specs::cmp::PartialEqSpecImpl for Path {
    open spec fn obeys_eq_spec() -> bool {
        true
    }

    open spec fn eq_spec(&self, other: &Path) -> bool {
        self@ == other@
    }
}

impl PartialOrd for Path {
    fn partial_cmp(&self, other: &Path) -> (r: Option<Ordering>) {
        Some(self.compare(other).to_ordering())
    }
}

impl vstd::std_specs::cmp::PartialOrdSpecImpl for Path {
    open spec fn obeys_partial_cmp_spec() -> bool {
        true
    }

    open spec fn partial_cmp_spec(&self, other: &Path) -> Option<Ordering> {
        Some(ordering_of(path_order(self@, other@)))
    }
}

} // verus!
