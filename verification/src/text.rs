//! Small text helpers: numbers in a given base, and the escaping used when a
//! name is shown.

use vstd::prelude::*;
use vstd::string::*;
use vstd::utf8::{
    decode_utf8, encode_utf8, encode_utf8_decode_utf8, encode_utf8_valid_utf8, is_ascii_chars,
    is_ascii_chars_encode_utf8, valid_utf8,
};

verus! {

/// `String::push` appends one character to the end of a string.
pub assume_specification[ String::push ](s: &mut String, c: char)
    ensures
        final(s)@ == old(s)@.push(c),
;

/// The text that `String::from_utf8_lossy` makes of a byte string.
pub uninterp spec fn lossy_text(bytes: Seq<u8>) -> Seq<char>;

/// Calls `String::from_utf8_lossy`. The result depends on the bytes alone and is
/// called `lossy_text` here; bytes that are valid UTF-8 come back as the text
/// that they encode.
#[verifier::external_body]
pub(crate) fn from_utf8_lossy(bytes: &[u8]) -> (text: String)
    ensures
        text@ == lossy_text(bytes@),
        valid_utf8(bytes@) ==> text@ == decode_utf8(bytes@),
{
    String::from_utf8_lossy(bytes).into_owned()
}

/// The text that a byte string stands for: what it encodes where it is valid UTF-8,
/// and otherwise what `String::from_utf8_lossy` makes of it.
pub open spec fn decoded(bytes: Seq<u8>) -> Seq<char> {
    if valid_utf8(bytes) {
        decode_utf8(bytes)
    } else {
        lossy_text(bytes)
    }
}

/// Bytes as characters, one for one.
pub open spec fn as_chars(bytes: Seq<u8>) -> Seq<char> {
    bytes.map_values(|b: u8| b as char)
}

/// ASCII stands for itself.
pub proof fn lemma_decoded_ascii(bytes: Seq<u8>)
    requires
        forall|i: int| 0 <= i < bytes.len() ==> #[trigger] bytes[i] < 0x80,
    ensures
        decoded(bytes) == as_chars(bytes),
{
    let chars = as_chars(bytes);
    assert(is_ascii_chars(chars));
    is_ascii_chars_encode_utf8(chars);
    assert(encode_utf8(chars) =~= bytes);
    encode_utf8_valid_utf8(chars);
    encode_utf8_decode_utf8(chars);
}

/// Calls `core::str::from_utf8`: text for bytes that are valid UTF-8, and
/// nothing for any others.
#[verifier::external_body]
pub(crate) fn from_utf8(bytes: &[u8]) -> (text: Option<&str>)
    ensures
        text is Some <==> valid_utf8(bytes@),
        text is Some ==> text->0@ == decode_utf8(bytes@),
{
    core::str::from_utf8(bytes).ok()
}

/// The text that `str::escape_debug` makes of a text.
pub uninterp spec fn escape_debug_text(text: Seq<char>) -> Seq<char>;

/// Calls `str::escape_debug`. The result depends on the text alone and is called
/// `escape_debug_text` here. Which characters are escaped, and how, is not said.
#[verifier::external_body]
pub(crate) fn escape_debug(text: &str) -> (escaped: String)
    ensures
        escaped@ == escape_debug_text(text@),
{
    text.escape_debug().to_string()
}

/// The text that formatting a text with `{:?}` gives.
pub uninterp spec fn quoted_text(text: Seq<char>) -> Seq<char>;

/// Formats a text with `{:?}`, which is `Debug` of `str`. The result depends on the text
/// alone and is called `quoted_text` here. Which characters are escaped, and how, is not
/// said.
#[verifier::external_body]
pub(crate) fn quoted(text: &str) -> (shown: String)
    ensures
        shown@ == quoted_text(text@),
{
    format!("{:?}", text)
}

/// The character that stands for `d` as a digit.
pub open spec fn digit(d: int, upper: bool) -> char {
    if d < 10 {
        (48 + d) as char
    } else if upper {
        (55 + d) as char
    } else {
        (87 + d) as char
    }
}

/// `n` written in `base`, without leading zeros.
pub open spec fn radix_text(n: nat, base: nat, upper: bool) -> Seq<char>
    decreases n,
{
    if base < 2 || n < base {
        seq![digit(n as int, upper)]
    } else {
        proof {
            vstd::arithmetic::div_mod::lemma_div_decreases(n as int, base as int);
        }
        radix_text(n / base, base, upper).push(digit((n % base) as int, upper))
    }
}

/// `n` in decimal.
pub open spec fn decimal_text(n: nat) -> Seq<char> {
    radix_text(n, 10, false)
}

fn digit_char(d: u8, upper: bool) -> (c: char)
    requires
        d < 16,
    ensures
        c == digit(d as int, upper),
{
    if d < 10 {
        (48 + d) as char
    } else if upper {
        (55 + d) as char
    } else {
        (87 + d) as char
    }
}

/// Appends `n`, written in `base`, to `out`.
pub fn push_radix(out: &mut String, n: u64, base: u64, upper: bool)
    requires
        2 <= base <= 16,
    ensures
        final(out)@ == old(out)@ + radix_text(n as nat, base as nat, upper),
    decreases n,
{
    let ghost before = out@;
    if n >= base {
        proof {
            vstd::arithmetic::div_mod::lemma_div_decreases(n as int, base as int);
        }
        push_radix(out, n / base, base, upper);
    }
    let d: u64 = n % base;
    proof {
        vstd::arithmetic::div_mod::lemma_mod_bound(n as int, base as int);
        if n < base {
            vstd::arithmetic::div_mod::lemma_small_mod(n as nat, base as nat);
        }
    }
    out.push(digit_char(d as u8, upper));
    assert(out@ =~= before + radix_text(n as nat, base as nat, upper));
}

/// Appends `n` in decimal to `out`.
pub fn push_decimal(out: &mut String, n: u64)
    ensures
        final(out)@ == old(out)@ + decimal_text(n as nat),
{
    push_radix(out, n, 10, false);
}

/// A text, filled up in front to at least `width` characters.
pub open spec fn padded_text(text: Seq<char>, width: nat, fill: char) -> Seq<char> {
    if text.len() < width {
        Seq::new((width - text.len()) as nat, |i: int| fill) + text
    } else {
        text
    }
}

/// Appends `n`, written in `base` and filled up in front, to `out`.
pub fn push_padded(out: &mut String, n: u64, base: u64, upper: bool, width: usize, fill: char)
    requires
        2 <= base <= 16,
    ensures
        final(out)@ == old(out)@ + padded_text(
            radix_text(n as nat, base as nat, upper),
            width as nat,
            fill,
        ),
{
    let ghost before = out@;
    let ghost text = radix_text(n as nat, base as nat, upper);
    let mut digits = String::new();
    push_radix(&mut digits, n, base, upper);
    assert(digits@ =~= text);
    let len: usize = digits.as_str().unicode_len();
    let mut i: usize = len;
    while i < width
        invariant
            len <= i,
            i <= width || i == len,
            out@ =~= before + Seq::new((i - len) as nat, |j: int| fill),
        decreases width - i,
    {
        out.push(fill);
        i = i + 1;
    }
    out.append(digits.as_str());
    assert(out@ =~= before + padded_text(text, width as nat, fill));
}

/// How one character is shown inside a name: printable ASCII as it is, quotes
/// and the backslash behind a backslash, tab, carriage return and line feed by
/// their letters, and everything else by its number.
pub open spec fn escaped_char(c: char) -> Seq<char> {
    if c == '\t' {
        seq!['\\', 't']
    } else if c == '\r' {
        seq!['\\', 'r']
    } else if c == '\n' {
        seq!['\\', 'n']
    } else if c == '\'' || c == '"' || c == '\\' {
        seq!['\\', c]
    } else if ' ' <= c && c <= '~' {
        seq![c]
    } else {
        seq!['\\', 'u', '{'] + radix_text(c as nat, 16, false) + seq!['}']
    }
}

/// Every character of a text, escaped.
pub open spec fn escaped_text(s: Seq<char>) -> Seq<char>
    decreases s.len(),
{
    if s.len() == 0 {
        Seq::empty()
    } else {
        escaped_text(s.drop_last()) + escaped_char(s.last())
    }
}

/// Printable ASCII without quotes and backslashes is shown as it is.
pub proof fn lemma_escaped_plain(s: Seq<char>)
    requires
        forall|i: int|
            0 <= i < s.len() ==> ' ' <= (#[trigger] s[i]) && s[i] <= '~' && s[i] != '\'' && s[i]
                != '"' && s[i] != '\\',
    ensures
        escaped_text(s) == s,
    decreases s.len(),
{
    if s.len() > 0 {
        lemma_escaped_plain(s.drop_last());
        assert(s =~= s.drop_last() + seq![s.last()]);
    }
}

fn push_escaped_char(out: &mut String, c: char)
    ensures
        final(out)@ == old(out)@ + escaped_char(c),
{
    let ghost before = out@;
    if c == '\t' {
        out.push('\\');
        out.push('t');
    } else if c == '\r' {
        out.push('\\');
        out.push('r');
    } else if c == '\n' {
        out.push('\\');
        out.push('n');
    } else if c == '\'' || c == '"' || c == '\\' {
        out.push('\\');
        out.push(c);
    } else if ' ' <= c && c <= '~' {
        out.push(c);
    } else {
        out.push('\\');
        out.push('u');
        out.push('{');
        push_radix(out, c as u64, 16, false);
        out.push('}');
    }
    assert(out@ =~= before + escaped_char(c));
}

/// Appends `text`, escaped, to `out`.
pub fn push_escaped(out: &mut String, text: &str)
    ensures
        final(out)@ == old(out)@ + escaped_text(text@),
{
    let ghost before = out@;
    let len: usize = text.unicode_len();
    let mut i: usize = 0;
    assert(text@.take(0) =~= Seq::<char>::empty());
    assert(out@ =~= before + escaped_text(text@.take(0)));
    while i < len
        invariant
            len == text@.len(),
            i <= len,
            out@ == before + escaped_text(text@.take(i as int)),
        decreases len - i,
    {
        push_escaped_char(out, text.get_char(i));
        proof {
            let next = text@.take(i + 1);
            assert(next.drop_last() =~= text@.take(i as int));
            assert(next.last() == text@[i as int]);
            assert(out@ =~= before + escaped_text(next));
        }
        i = i + 1;
    }
    assert(text@.take(len as int) =~= text@);
}

} // verus!
