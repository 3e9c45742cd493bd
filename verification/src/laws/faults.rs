//! What is reported of a directory that can be read, and its check byte.

use vstd::prelude::*;

use super::directories::{has_entries, law_directory};
use super::numbers::{law_four_bytes, spells};
use crate::new_map::checksum::{
    accumulate_bytes, accumulate_words, check_byte, folded, rotated,
};
use crate::new_map::filesystem::{
    computed_check_byte, directory_at, directory_faults, entry_at, entry_place, faults_of_entries,
};
use crate::new_map::util::BitPosition;
use crate::new_map::FaultView;

verus! {

/// Whether `bad` are those of the first `n` slots of the directory at `p` whose attributes
/// have a bit that stands for nothing, in order: a byte of 64 or more.
pub open spec fn are_bad(s: Seq<u8>, p: int, n: int, bad: Seq<int>) -> bool {
    &&& forall|i: int, j: int| 0 <= i < j < bad.len() ==> #[trigger] bad[i] < #[trigger] bad[j]
    &&& forall|i: int| #[trigger]
        bad.contains(i) <==> 0 <= i < n && s[p + 30 + 26 * i] >= 64
}

/// What is reported of slot `i` of the directory at `p`.
pub open spec fn bad_slot(s: Seq<u8>, p: int, i: int) -> FaultView {
    FaultView::InvalidAttr {
        location: BitPosition((8 * (p + 30 + 26 * i)) as usize),
        path: seq![entry_at(s, p + 5 + 26 * i).obj_name@],
        attr_value: s[p + 30 + 26 * i],
    }
}

proof fn lemma_bad_slots(s: Seq<u8>, p: int, n: int, bad: Seq<int>)
    requires
        0 <= n,
        are_bad(s, p, n, bad),
    ensures
        faults_of_entries(s, p + 5, n).len() == bad.len(),
        forall|j: int|
            0 <= j < bad.len() ==> #[trigger] faults_of_entries(s, p + 5, n)[j] == bad_slot(
                s,
                p,
                bad[j],
            ),
    decreases n,
{
    if n == 0 {
        if bad.len() > 0 {
            assert(bad.contains(bad[0]));
        }
    } else {
        let m = n - 1;
        assert(entry_place(p + 5, m) == p + 5 + 26 * m);
        if s[p + 30 + 26 * m] >= 64 {
            assert(bad.contains(m));
            let k = choose|k: int| 0 <= k < bad.len() && bad[k] == m;
            let last = bad.len() - 1;
            assert(bad.contains(bad[last]));
            if k < last {
                assert(bad[k] < bad[last]);
            }
            let before = bad.drop_last();
            assert forall|i: int| #[trigger]
                before.contains(i) <==> 0 <= i < m && s[p + 30 + 26 * i] >= 64 by {
                if before.contains(i) {
                    let j = choose|j: int| 0 <= j < before.len() && before[j] == i;
                    assert(bad[j] == i && bad[j] < bad[last]);
                    assert(bad.contains(i));
                }
                if 0 <= i < m && s[p + 30 + 26 * i] >= 64 {
                    assert(bad.contains(i));
                    let j = choose|j: int| 0 <= j < bad.len() && bad[j] == i;
                    assert(before[j] == i);
                }
            }
            lemma_bad_slots(s, p, m, before);
        } else {
            assert forall|i: int| #[trigger]
                bad.contains(i) <==> 0 <= i < m && s[p + 30 + 26 * i] >= 64 by {}
            lemma_bad_slots(s, p, m, bad);
        }
    }
}

/// What is reported of a directory: every entry whose attributes have a bit that stands for
/// nothing, in order, with the place of the byte and the name of the entry; that the first
/// byte of the directory and byte 2042 differ; and that its last byte is not the check byte
/// of what it holds. Nothing else is reported.
pub proof fn law_faults(s: Seq<u8>, p: int, n: int, bad: Seq<int>)
    requires
        0 <= p,
        p + 2048 <= s.len(),
        has_entries(s, p, n),
        are_bad(s, p, n, bad),
    ensures
        ({
            let faults = directory_faults(s, p);
            let renumbered = s[p] != s[p + 2042];
            let damaged = computed_check_byte(s, p) != s[p + 2047];
            let at = if renumbered {
                bad.len() as int + 1
            } else {
                bad.len() as int
            };
            &&& forall|j: int|
                0 <= j < bad.len() ==> #[trigger] faults[j] == bad_slot(s, p, bad[j])
            &&& renumbered ==> faults[bad.len() as int] == FaultView::SequenceNumberMismatch {
                path: Seq::empty(),
                start_seq_num: s[p],
                end_seq_num: s[p + 2042],
            }
            &&& damaged ==> faults[at] == FaultView::CheckByteFailure {
                path: seq![directory_at(s, p).tail.name@],
                expected: s[p + 2047],
                actual: computed_check_byte(s, p),
            }
            &&& faults.len() == if damaged {
                at + 1
            } else {
                at
            }
        }),
{
    law_directory(s, p, n);
    super::directories::lemma_entries_counted(s, p, n, 0);
    lemma_bad_slots(s, p, n, bad);
    let first = faults_of_entries(s, p + 5, n);
    let faults = directory_faults(s, p);
    assert forall|j: int| 0 <= j < bad.len() implies #[trigger] faults[j] == bad_slot(
        s,
        p,
        bad[j],
    ) by {
        assert(faults[j] == first[j]);
    }
}

/// A word is turned to the right by thirteen places: what falls off at the right comes in at
/// the left.
pub proof fn law_turned(a: u32)
    ensures
        rotated(a) == a as int / 8192 + (a as int % 8192) * 524288,
{
    assert((a >> 13u32) | (a << 19u32) == a / 8192 + (a % 8192) * 524288) by (bit_vector);
}

/// The check byte combines the four bytes of a word.
pub proof fn law_combined(a: u8, b: u8, c: u8, d: u8)
    ensures
        folded((a + 256 * b + 65536 * c + 16777216 * d) as u32) == a ^ b ^ c ^ d,
{
    let word = (a + 256 * b + 65536 * c + 16777216 * d) as u32;
    assert(word as int % 256 == a);
    assert(word as int / 256 % 256 == b);
    assert(word as int / 65536 % 256 == c);
    assert(word as int / 16777216 == d);
    let (w, x, y, z) = (a as u32, b as u32, c as u32, d as u32);
    assert((w ^ x ^ y ^ z) as u8 == a ^ b ^ c ^ d) by (bit_vector)
        requires
            w == a,
            x == b,
            y == c,
            z == d,
    ;
}

/// Bytes are taken into account one by one: what there is so far is turned, and combined with
/// the byte.
pub proof fn law_byte_by_byte(a: u32, byte: u8, more: Seq<u8>)
    ensures
        accumulate_bytes(a, seq![byte] + more) == accumulate_bytes(
            (a as int / 8192 + (a as int % 8192) * 524288) as u32 ^ byte as u32,
            more,
        ),
        accumulate_bytes(a, Seq::empty()) == a,
{
    law_turned(a);
    assert((seq![byte] + more).skip(1) =~= more);
}

/// Words are taken into account one by one: what there is so far is turned, and combined with
/// the number that four bytes spell.
pub proof fn law_word_by_word(a: u32, word: Seq<u8>, n: u32, more: Seq<u8>)
    requires
        word.len() == 4,
        spells(word, 0, 4, n as int),
    ensures
        accumulate_words(a, word + more) == accumulate_words(
            (a as int / 8192 + (a as int % 8192) * 524288) as u32 ^ n,
            more,
        ),
        accumulate_words(a, Seq::empty()) == a,
{
    law_turned(a);
    law_four_bytes(word, 0, n as int);
    let all = word + more;
    assert(all.skip(4) =~= more);
    law_four_bytes(all, 0, n as int);
    law_four_bytes(all, 0, 0);
    assert(all[0] == word[0] && all[1] == word[1] && all[2] == word[2] && all[3] == word[3]);
}

/// The check byte of a directory takes into account what is in use, its whole words and then
/// the bytes behind them, and then its end without the first byte and the last word: first
/// the bytes that fill no word, and then the words.
pub proof fn law_check_byte(
    words: Seq<u8>,
    bytes: Seq<u8>,
    first: u8,
    odd: Seq<u8>,
    even: Seq<u8>,
    last: Seq<u8>,
)
    requires
        words.len() % 4 == 0,
        bytes.len() < 4,
        odd.len() < 4,
        even.len() % 4 == 0,
        last.len() == 4,
    ensures
        check_byte(words + bytes, seq![first] + odd + even + last) == folded(
            accumulate_words(
                accumulate_bytes(accumulate_bytes(accumulate_words(0, words), bytes), odd),
                even,
            ),
        ),
{
    let used = words + bytes;
    let tail = seq![first] + odd + even + last;
    let rest = tail.subrange(1, tail.len() - 4);
    assert(rest =~= odd + even);
    assert(4 * (used.len() as int / 4) == words.len());
    assert(rest.len() as int % 4 == odd.len());
    assert(used.take(words.len() as int) =~= words);
    assert(used.skip(words.len() as int) =~= bytes);
    assert(rest.take(odd.len() as int) =~= odd);
    assert(rest.skip(odd.len() as int) =~= even);
}

/// The check byte of the directory at `p` is that of its bytes up to the last slot in use,
/// and of its last 41 bytes.
pub proof fn law_checked_bytes(s: Seq<u8>, p: int, n: int)
    requires
        0 <= p,
        p + 2048 <= s.len(),
        has_entries(s, p, n),
    ensures
        computed_check_byte(s, p) == check_byte(
            s.subrange(p, p + 5 + 26 * n),
            s.subrange(p + 2007, p + 2048),
        ),
{
    super::directories::lemma_entries_counted(s, p, n, 0);
}

} // verus!
