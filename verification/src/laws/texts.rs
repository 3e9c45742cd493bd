//! Numbers and names as they are shown, and what becomes of names elsewhere.

use vstd::prelude::*;
use vstd::utf8::decode_utf8;

use crate::export::{inf_text, os_text};
use crate::new_map::filesystem::DirEntry;
use crate::new_map::path::path_text;
use crate::new_map::util::name_text;
use crate::text::{
    decimal_text, decoded, digit, escaped_char, escaped_text, padded_text, radix_text,
};

verus! {

/// What a character is worth as a digit, if it is one.
pub open spec fn digit_value(c: char) -> Option<int> {
    if '0' <= c && c <= '9' {
        Some(c as int - '0' as int)
    } else if 'a' <= c && c <= 'f' {
        Some(c as int - 'a' as int + 10)
    } else if 'A' <= c && c <= 'F' {
        Some(c as int - 'A' as int + 10)
    } else {
        None
    }
}

/// Whether a text is made of digits of a base.
pub open spec fn is_number(text: Seq<char>, base: int) -> bool {
    &&& text.len() > 0
    &&& forall|i: int|
        0 <= i < text.len() ==> (#[trigger] digit_value(text[i]) matches Some(d) && d < base)
}

/// The number that digits stand for, the most significant one first.
pub open spec fn number_of(text: Seq<char>, base: int) -> int
    decreases text.len(),
{
    if text.len() == 0 {
        0
    } else {
        base * number_of(text.drop_last(), base) + digit_value(text.last())->0
    }
}

/// A number that is shown can be read back: the text is made of digits, has no zero in
/// front of a greater number, and stands for the number.
pub proof fn law_numbers_are_shown(n: nat, base: nat, upper: bool)
    requires
        2 <= base <= 16,
    ensures
        ({
            let text = radix_text(n, base, upper);
            &&& is_number(text, base as int)
            &&& number_of(text, base as int) == n
            &&& text.len() > 1 ==> text[0] != '0'
            &&& n > 0 ==> text[0] != '0'
            &&& forall|i: int|
                0 <= i < text.len() ==> !(if upper {
                    'a' <= #[trigger] text[i] && text[i] <= 'f'
                } else {
                    'A' <= text[i] && text[i] <= 'F'
                })
        }),
    decreases n,
{
    let text = radix_text(n, base, upper);
    reveal_with_fuel(number_of, 2);
    if n < base {
        assert(text =~= seq![digit(n as int, upper)]);
        assert(text.drop_last() =~= Seq::empty());
        assert(digit_value(text[0]) == Some(n as int));
    } else {
        vstd::arithmetic::div_mod::lemma_div_decreases(n as int, base as int);
        vstd::arithmetic::div_mod::lemma_fundamental_div_mod(n as int, base as int);
        vstd::arithmetic::div_mod::lemma_mod_bound(n as int, base as int);
        vstd::arithmetic::div_mod::lemma_div_non_zero(n as int, base as int);
        let front = radix_text(n / base, base, upper);
        law_numbers_are_shown(n / base, base, upper);
        let last = digit((n % base) as int, upper);
        assert(text =~= front.push(last));
        assert(text.drop_last() =~= front);
        assert(digit_value(last) == Some((n % base) as int));
        assert forall|i: int| 0 <= i < text.len() implies (#[trigger] digit_value(
            text[i],
        ) matches Some(d) && d < base) by {
            if i < front.len() {
                assert(text[i] == front[i]);
                assert(digit_value(front[i]) matches Some(d) && d < base);
            }
        }
        assert(text[0] == front[0]);
    }
}

/// Different numbers are shown differently.
pub proof fn law_numbers_differ(a: nat, b: nat, base: nat, upper: bool)
    requires
        2 <= base <= 16,
        radix_text(a, base, upper) == radix_text(b, base, upper),
    ensures
        a == b,
{
    law_numbers_are_shown(a, base, upper);
    law_numbers_are_shown(b, base, upper);
}

/// A text that is filled up in front has at least the width that was asked for, ends with
/// the text, and has nothing but the filling in front of it; one that is wide enough stays
/// as it is.
pub proof fn law_padding(text: Seq<char>, width: nat, fill: char)
    ensures
        ({
            let wide = padded_text(text, width, fill);
            let more = wide.len() - text.len();
            &&& more >= 0
            &&& wide.len() == width || (text.len() > width && more == 0)
            &&& wide.skip(more) == text
            &&& forall|i: int| 0 <= i < more ==> wide[i] == fill
        }),
{
    let wide = padded_text(text, width, fill);
    assert(wide.skip(wide.len() - text.len()) =~= text);
}

/// Texts are escaped character by character.
pub proof fn law_escaping_goes_by_characters(a: Seq<char>, b: Seq<char>)
    ensures
        escaped_text(a + b) == escaped_text(a) + escaped_text(b),
        escaped_text(Seq::empty()) == Seq::<char>::empty(),
    decreases b.len(),
{
    if b.len() == 0 {
        assert(a + b =~= a);
        assert(escaped_text(a) + escaped_text(b) =~= escaped_text(a));
    } else {
        law_escaping_goes_by_characters(a, b.drop_last());
        assert((a + b).drop_last() =~= a + b.drop_last());
        assert((a + b).last() == b.last());
        assert(escaped_text(a) + (escaped_text(b.drop_last()) + escaped_char(b.last()))
            =~= (escaped_text(a) + escaped_text(b.drop_last())) + escaped_char(b.last()));
    }
}

/// What one character becomes: what can be printed stays, with a backslash in front where
/// it is a quote or a backslash; three control characters have letters; and of every other
/// character the number is shown. Whatever comes out can be printed.
pub proof fn law_escaped_character(c: char)
    ensures
        ({
            let text = escaped_text(seq![c]);
            &&& 32 <= c as int <= 126 && c != '\'' && c != '"' && c != '\\' ==> text == seq![c]
            &&& c == '\'' || c == '"' || c == '\\' ==> text == seq!['\\', c]
            &&& c as int == 9 ==> text == seq!['\\', 't']
            &&& c as int == 10 ==> text == seq!['\\', 'n']
            &&& c as int == 13 ==> text == seq!['\\', 'r']
            &&& !(32 <= c as int <= 126) && c as int != 9 && c as int != 10 && c as int != 13 ==> {
                let digits = text.subrange(3, text.len() - 1);
                &&& text.len() >= 5
                &&& text[0] == '\\' && text[1] == 'u' && text[2] == '{' && text.last() == '}'
                &&& is_number(digits, 16)
                &&& number_of(digits, 16) == c as int
            }
        }),
{
    let text = escaped_text(seq![c]);
    reveal_with_fuel(escaped_text, 2);
    assert(seq![c].drop_last() =~= Seq::empty());
    assert(text =~= escaped_char(c));
    if !(32 <= c as int <= 126) && c as int != 9 && c as int != 10 && c as int != 13 {
        law_numbers_are_shown(c as nat, 16, false);
        let digits = radix_text(c as nat, 16, false);
        assert(text =~= seq!['\\', 'u', '{'] + digits + seq!['}']);
        assert(text.subrange(3, text.len() - 1) =~= digits);
    }
}

/// A path is shown with its root in front, and each of its names behind a dot.
pub proof fn law_paths_are_shown(path: Seq<Seq<u8>>, name: Seq<u8>)
    ensures
        path_text(Seq::empty()) == seq!['$'],
        path_text(path.push(name)) == path_text(path) + seq!['.'] + escaped_text(decoded(name)),
{
    assert(path.push(name).drop_last() =~= path);
}

/// A name that goes elsewhere keeps its length and all of its characters, but that a dot
/// stands for every slash and a dollar sign for every exclamation mark; so there is neither
/// of the two left in it.
pub proof fn law_names_elsewhere(name: Seq<u8>)
    ensures
        ({
            let here = decode_utf8(name);
            let there = os_text(name);
            &&& there.len() == here.len()
            &&& !there.contains('/')
            &&& !there.contains('!')
            &&& forall|i: int|
                #![trigger there[i]]
                #![trigger here[i]]
                0 <= i < here.len() ==> {
                    &&& here[i] == '/' ==> there[i] == '.'
                    &&& here[i] == '!' ==> there[i] == '$'
                    &&& here[i] != '/' && here[i] != '!' ==> there[i] == here[i]
                }
        }),
{
}

/// The line that describes a file tells its name and four numbers, which can be read back:
/// the load and execution addresses in base 16, and the length and the attributes in base
/// 10.
pub proof fn law_description(entry: DirEntry) -> (parts: (Seq<char>, Seq<char>, Seq<char>, Seq<char>))
    ensures
        ({
            let (load, exec, len, attrs) = parts;
            &&& inf_text(entry) == seq!['"'] + escaped_text(decoded(entry.obj_name@)) + seq![
                '"',
                ' ',
            ] + load + seq![' '] + exec + seq![' '] + len + seq![' '] + attrs
            &&& is_number(load, 16) && number_of(load, 16) == entry.load
            &&& is_number(exec, 16) && number_of(exec, 16) == entry.exec_address
            &&& is_number(len, 10) && number_of(len, 10) == entry.len
            &&& is_number(attrs, 10) && number_of(attrs, 10) == entry.attrs.bits
            &&& forall|i: int|
                0 <= i < load.len() ==> !('a' <= #[trigger] load[i] && load[i] <= 'f')
            &&& forall|i: int|
                0 <= i < exec.len() ==> !('a' <= #[trigger] exec[i] && exec[i] <= 'f')
        }),
{
    reveal_strlit("\"");
    reveal_strlit("\" ");
    reveal_strlit(" ");
    let load = radix_text(entry.load as nat, 16, true);
    let exec = radix_text(entry.exec_address as nat, 16, true);
    let len = decimal_text(entry.len as nat);
    let attrs = decimal_text(entry.attrs.bits as nat);
    law_numbers_are_shown(entry.load as nat, 16, true);
    law_numbers_are_shown(entry.exec_address as nat, 16, true);
    law_numbers_are_shown(entry.len as nat, 10, false);
    law_numbers_are_shown(entry.attrs.bits as nat, 10, false);
    assert("\""@ =~= seq!['"']);
    assert("\" "@ =~= seq!['"', ' ']);
    assert(" "@ =~= seq![' ']);
    assert(name_text(entry.obj_name@) == escaped_text(decoded(entry.obj_name@)));
    (load, exec, len, attrs)
}

} // verus!
