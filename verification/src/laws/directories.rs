//! Directories, as they are written on a disc.

use vstd::prelude::*;

use super::numbers::{
    ends_name, holds_name, law_four_bytes, law_name_of_string, law_names, law_three_bytes,
    spells,
};
use crate::new_map::filesystem::{
    directory_at, directory_failure, entry_at, entry_count, entry_place, is_magic, tail_at,
    zeros_failure, Attributes,
};

verus! {

/// Whether the 26 bytes at `p` are an entry with the given name, addresses, length and
/// attributes.
pub open spec fn holds_entry(
    s: Seq<u8>,
    p: int,
    name: Seq<u8>,
    load: int,
    exec: int,
    len: int,
    address: int,
    attributes: u8,
) -> bool {
    &&& 0 <= load && 0 <= exec && 0 <= len && 0 <= address
    &&& holds_name(s, p, 10, name)
    &&& spells(s, p + 10, 4, load)
    &&& spells(s, p + 14, 4, exec)
    &&& spells(s, p + 18, 4, len)
    &&& spells(s, p + 22, 3, address)
    &&& s[p + 25] == attributes
}

/// An entry that was written is read back: its name, and all bytes of its numbers. Each
/// length up to the greatest that four bytes can spell is given back as it is.
pub proof fn law_entry(
    s: Seq<u8>,
    p: int,
    name: Seq<u8>,
    load: int,
    exec: int,
    len: int,
    address: int,
    attributes: u8,
)
    requires
        0 <= p,
        p + 26 <= s.len(),
        holds_entry(s, p, name, load, exec, len, address, attributes),
    ensures
        ({
            let entry = entry_at(s, p);
            &&& entry.obj_name@ == name
            &&& entry.obj_name.0@ == s.subrange(p, p + 10)
            &&& entry.load == load
            &&& entry.exec_address == exec
            &&& entry.len == len
            &&& entry.address.0 == address
            &&& entry.attrs.bits == attributes
            &&& entry.attrs.has_dir() <==> (attributes as int / 8) % 2 == 1
        }),
{
    law_names::<10>(s, p, name);
    law_four_bytes(s, p + 10, load);
    law_four_bytes(s, p + 14, exec);
    law_four_bytes(s, p + 18, len);
    law_three_bytes(s, p + 22, address);
}

/// Each attribute has a bit of its own: 1 and 2 let the owner read and write, 4 locks, 8 is
/// that of a directory, and 16 and 32 let everyone read and write.
pub proof fn law_attributes(attributes: Attributes)
    ensures
        Attributes::READ == 1,
        Attributes::WRITE == 2,
        Attributes::LOCK == 4,
        Attributes::DIR == 8,
        Attributes::PUBLIC_READ == 16,
        Attributes::PUBLIC_WRITE == 32,
        attributes.has_dir() <==> attributes.bits & Attributes::DIR == Attributes::DIR,
{
    let bits = attributes.bits;
    assert((bits & 8u8 == 8u8) == ((bits / 8u8) % 2u8 == 1u8)) by (bit_vector);
}

/// Every entry that is read was written: its bytes spell what it says.
pub proof fn law_every_entry(s: Seq<u8>, p: int)
    requires
        0 <= p,
        p + 26 <= s.len(),
    ensures
        ({
            let entry = entry_at(s, p);
            holds_entry(
                s,
                p,
                entry.obj_name@,
                entry.load as int,
                entry.exec_address as int,
                entry.len as int,
                entry.address.0 as int,
                entry.attrs.bits,
            )
        }),
{
    let entry = entry_at(s, p);
    crate::new_map::util::lemma_string_at::<10>(s, p);
    law_name_of_string(entry.obj_name);
    let bytes = entry.obj_name.0@;
    let name = entry.obj_name@;
    assert forall|i: int| 0 <= i < name.len() implies #[trigger] s[p + i] == name[i] by {
        assert(bytes[0 + i] == name[i]);
    }
    if name.len() < 10 {
        assert(bytes[name.len() as int] == s[p + name.len()]);
    }
    law_four_bytes(s, p + 10, entry.load as int);
    law_four_bytes(s, p + 14, entry.exec_address as int);
    law_four_bytes(s, p + 18, entry.len as int);
    law_three_bytes(s, p + 22, entry.address.0 as int);
}

/// The end of a directory that was written is read back.
pub proof fn law_tail(s: Seq<u8>, p: int, parent: int, title: Seq<u8>, name: Seq<u8>)
    requires
        0 <= p,
        p + 41 <= s.len(),
        0 <= parent,
        spells(s, p + 3, 3, parent),
        holds_name(s, p + 6, 19, title),
        holds_name(s, p + 25, 10, name),
    ensures
        ({
            let tail = tail_at(s, p);
            &&& tail.parent.0 == parent
            &&& tail.title@ == title
            &&& tail.name@ == name
            &&& tail.end_seq_num == s[p + 35]
            &&& tail.check_byte == s[p + 40]
        }),
{
    law_three_bytes(s, p + 3, parent);
    law_names::<19>(s, p + 6, title);
    law_names::<10>(s, p + 25, name);
}

/// Whether the four bytes at `p` are one of the two words that a directory begins and
/// ends with.
pub open spec fn holds_magic(s: Seq<u8>, p: int) -> bool {
    let word = s.subrange(p, p + 4);
    word == seq![72u8, 117, 103, 111] || word == seq![78u8, 105, 99, 107]
}

/// Whether there is a directory at `p`: 2048 bytes, with one of the two words behind its
/// first byte and one of them in front of its last byte, and three zeros behind the room
/// for entries.
pub open spec fn holds_directory(s: Seq<u8>, p: int) -> bool {
    &&& p + 2048 <= s.len()
    &&& holds_magic(s, p + 1)
    &&& holds_magic(s, p + 2043)
    &&& s[p + 2007] == 0 && s[p + 2008] == 0 && s[p + 2009] == 0
}

/// Whether the list of entries of the directory at `p` has `n` entries: there is room for
/// 77, and the first slot that begins with a terminator ends the list.
pub open spec fn has_entries(s: Seq<u8>, p: int, n: int) -> bool {
    &&& 0 <= n <= 77
    &&& forall|i: int| 0 <= i < n ==> !#[trigger] ends_name(s[p + 5 + 26 * i])
    &&& n < 77 ==> ends_name(s[p + 5 + 26 * n])
}

/// A directory can be read exactly where there is one.
pub proof fn law_directory_is_read(s: Seq<u8>, p: int)
    requires
        0 <= p,
    ensures
        directory_failure(s, p) is None <==> holds_directory(s, p),
{
    if p + 2048 <= s.len() {
        lemma_magic(s, p + 1);
        lemma_magic(s, p + 2043);
    }
    reveal_with_fuel(zeros_failure, 4);
}

pub proof fn lemma_magic(s: Seq<u8>, p: int)
    requires
        0 <= p,
        p + 4 <= s.len(),
    ensures
        is_magic(s, p) <==> holds_magic(s, p),
{
    let word = s.subrange(p, p + 4);
    let hugo = seq![72u8, 117, 103, 111];
    let nick = seq![78u8, 105, 99, 107];
    if is_magic(s, p) {
        assert(word =~= hugo || word =~= nick);
    }
    if word == hugo || word == nick {
        assert(word[0] == s[p] && word[1] == s[p + 1] && word[2] == s[p + 2] && word[3] == s[p + 3]);
    }
}

/// The entries of a directory are those in its slots, in order, up to the first slot that
/// is not in use; its beginning is its first byte, and its end the last 41 bytes.
pub proof fn law_directory(s: Seq<u8>, p: int, n: int)
    requires
        0 <= p,
        p + 2048 <= s.len(),
        has_entries(s, p, n),
    ensures
        directory_at(s, p).entries.len() == n,
        forall|i: int|
            0 <= i < n ==> #[trigger] directory_at(s, p).entries[i] == entry_at(s, p + 5 + 26 * i),
        directory_at(s, p).header.start_seq_num == s[p],
        directory_at(s, p).tail == tail_at(s, p + 2007),
{
    lemma_entries_counted(s, p, n, 0);
    let entries = directory_at(s, p).entries;
    assert forall|i: int| 0 <= i < n implies #[trigger] entries[i] == entry_at(
        s,
        p + 5 + 26 * i,
    ) by {
        assert(entry_place(p + 5, i) == p + 5 + 26 * i);
    }
}

pub proof fn lemma_entries_counted(s: Seq<u8>, p: int, n: int, i: int)
    requires
        0 <= p,
        p + 2048 <= s.len(),
        has_entries(s, p, n),
        0 <= i <= n,
    ensures
        entry_count(s, p + 5, i) == n,
    decreases n - i,
{
    if i < 77 {
        let q = p + 5 + 26 * i;
        assert(entry_place(p + 5, i) == q);
        crate::new_map::util::lemma_string_at::<10>(s, q);
        crate::new_map::util::lemma_name_len(entry_at(s, q).obj_name.0@);
        assert(entry_at(s, q).obj_name.0@[0] == s[q]);
        if i < n {
            assert(!ends_name(s[p + 5 + 26 * i]));
            lemma_entries_counted(s, p, n, i + 1);
        }
    }
}

/// Every directory has a number of entries.
pub proof fn law_entries_counted(s: Seq<u8>, p: int)
    requires
        0 <= p,
        p + 2048 <= s.len(),
    ensures
        has_entries(s, p, directory_at(s, p).entries.len() as int),
{
    let n = lemma_some_count(s, p, 0);
    law_directory(s, p, n);
}

proof fn lemma_some_count(s: Seq<u8>, p: int, i: int) -> (n: int)
    requires
        0 <= i <= 77,
        forall|j: int| 0 <= j < i ==> !#[trigger] ends_name(s[p + 5 + 26 * j]),
    ensures
        has_entries(s, p, n),
    decreases 77 - i,
{
    if i == 77 || ends_name(s[p + 5 + 26 * i]) {
        i
    } else {
        lemma_some_count(s, p, i + 1)
    }
}

} // verus!
