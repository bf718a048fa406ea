//! Characters of the persisted JSON text: decimal and hexadecimal digits,
//! the escaping of string characters, and the moves between `String` and
//! `Vec<char>` that the writer and the reader of that text use.

use vstd::prelude::*;
use vstd::string::StrSliceExecFns;

verus! {

/// The decimal digit character for `d < 10`.
pub open spec fn digit_char(d: nat) -> char {
    if d == 0 {
        '0'
    } else if d == 1 {
        '1'
    } else if d == 2 {
        '2'
    } else if d == 3 {
        '3'
    } else if d == 4 {
        '4'
    } else if d == 5 {
        '5'
    } else if d == 6 {
        '6'
    } else if d == 7 {
        '7'
    } else if d == 8 {
        '8'
    } else {
        '9'
    }
}

/// The lowercase hexadecimal digit character for `v < 16`.
pub open spec fn hex_char(v: nat) -> char {
    if v < 10 {
        digit_char(v)
    } else if v == 10 {
        'a'
    } else if v == 11 {
        'b'
    } else if v == 12 {
        'c'
    } else if v == 13 {
        'd'
    } else if v == 14 {
        'e'
    } else {
        'f'
    }
}

pub open spec fn is_digit(c: char) -> bool {
    '0' as u32 <= c as u32 && c as u32 <= '9' as u32
}

/// The value of a decimal digit character.
pub open spec fn digit_val(c: char) -> nat {
    (c as u32 - '0' as u32) as nat
}

pub open spec fn is_hex_digit(c: char) -> bool {
    is_digit(c) || ('a' as u32 <= c as u32 && c as u32 <= 'f' as u32) || ('A' as u32 <= c as u32
        && c as u32 <= 'F' as u32)
}

/// The value of a hexadecimal digit character, either case.
pub open spec fn hex_val(c: char) -> nat {
    if is_digit(c) {
        digit_val(c)
    } else if 'a' as u32 <= c as u32 && c as u32 <= 'f' as u32 {
        (c as u32 - 'a' as u32 + 10) as nat
    } else {
        (c as u32 - 'A' as u32 + 10) as nat
    }
}

/// The decimal numeral of `n`: most significant digit first, no sign,
/// no leading zero.
pub open spec fn dec_digits(n: nat) -> Seq<char>
    decreases n,
{
    if n < 10 {
        seq![digit_char(n)]
    } else {
        dec_digits(n / 10) + seq![digit_char(n % 10)]
    }
}

/// How one character stands inside a JSON string: itself, unless JSON
/// requires an escape. The quote, the backslash and the control characters
/// are escaped; the five control characters with short escapes get those,
/// the rest a `\u00..` escape with two lowercase hexadecimal digits.
pub open spec fn escape_char(c: char) -> Seq<char> {
    if c == '"' {
        seq!['\\', '"']
    } else if c == '\\' {
        seq!['\\', '\\']
    } else if c == '\u{8}' {
        seq!['\\', 'b']
    } else if c == '\t' {
        seq!['\\', 't']
    } else if c == '\n' {
        seq!['\\', 'n']
    } else if c == '\u{c}' {
        seq!['\\', 'f']
    } else if c == '\r' {
        seq!['\\', 'r']
    } else if (c as u32) < 0x20 {
        seq!['\\', 'u', '0', '0', hex_char((c as u32 / 16) as nat), hex_char((c as u32 % 16) as nat)]
    } else {
        seq![c]
    }
}

/// A whole string escaped, character by character.
pub open spec fn escape_string(s: Seq<char>) -> Seq<char>
    decreases s.len(),
{
    if s.len() == 0 {
        Seq::empty()
    } else {
        escape_char(s[0]) + escape_string(s.drop_first())
    }
}

/// Escaping works from the front; this gives the step at the back.
pub proof fn lemma_escape_push(s: Seq<char>, c: char)
    ensures
        escape_string(s.push(c)) =~= escape_string(s) + escape_char(c),
    decreases s.len(),
{
    let p = s.push(c);
    if s.len() == 0 {
        assert(p[0] == c);
        assert(p.drop_first() =~= s);
        assert(escape_string(p.drop_first()) == escape_string(s));
        assert(escape_string(s) =~= Seq::<char>::empty());
        assert(escape_string(p) =~= escape_char(c) + escape_string(p.drop_first()));
    } else {
        assert(p[0] == s[0]);
        assert(p.drop_first() =~= s.drop_first().push(c));
        lemma_escape_push(s.drop_first(), c);
        assert(escape_string(p) =~= escape_char(s[0]) + escape_string(s.drop_first().push(c)));
        assert(escape_string(s) =~= escape_char(s[0]) + escape_string(s.drop_first()));
    }
}

/// A string none of whose characters needs an escape is its own escaping.
pub proof fn lemma_escape_plain(s: Seq<char>)
    requires
        forall|i: int| 0 <= i < s.len() ==> escape_char(#[trigger] s[i]) == seq![s[i]],
    ensures
        escape_string(s) =~= s,
    decreases s.len(),
{
    if s.len() > 0 {
        let t = s.drop_first();
        assert(forall|i: int| 0 <= i < t.len() ==> t[i] == s[i + 1]);
        assert forall|i: int| 0 <= i < t.len() implies escape_char(#[trigger] t[i]) == seq![
            t[i],
        ] by {
            assert(t[i] == s[i + 1]);
        }
        lemma_escape_plain(t);
    }
}

/// The decimal digit character for `d`.
pub(crate) fn digit_char_exec(d: u64) -> (c: char)
    requires
        d < 10,
    ensures
        c == digit_char(d as nat),
{
    if d == 0 {
        '0'
    } else if d == 1 {
        '1'
    } else if d == 2 {
        '2'
    } else if d == 3 {
        '3'
    } else if d == 4 {
        '4'
    } else if d == 5 {
        '5'
    } else if d == 6 {
        '6'
    } else if d == 7 {
        '7'
    } else if d == 8 {
        '8'
    } else {
        '9'
    }
}

/// The lowercase hexadecimal digit character for `v`.
pub(crate) fn hex_char_exec(v: u32) -> (c: char)
    requires
        v < 16,
    ensures
        c == hex_char(v as nat),
{
    if v < 10 {
        digit_char_exec(v as u64)
    } else if v == 10 {
        'a'
    } else if v == 11 {
        'b'
    } else if v == 12 {
        'c'
    } else if v == 13 {
        'd'
    } else if v == 14 {
        'e'
    } else {
        'f'
    }
}

/// Relies on `String::push`: it appends exactly the one character.
#[verifier::external_body]
fn push_char(s: &mut String, c: char)
    ensures
        final(s)@ == old(s)@.push(c),
{
    s.push(c);
}

/// Relies on `char::from_u32`: it returns `Some` exactly on Unicode scalar
/// values (not above `0x10FFFF`, not a surrogate), holding the character
/// with that code.
#[verifier::external_body]
pub(crate) fn char_from_u32(v: u32) -> (r: Option<char>)
    ensures
        r matches Some(c) ==> c as u32 == v,
        r is Some <==> (v < 0xD800 || (0xE000 <= v && v <= 0x10FFFF)),
{
    char::from_u32(v)
}

/// The characters of `s`, one vector element each.
pub fn chars_of(s: &str) -> (r: Vec<char>)
    ensures
        r@ == s@,
{
    let n = s.unicode_len();
    let mut r: Vec<char> = Vec::new();
    let mut i: usize = 0;
    while i < n
        invariant
            i <= n,
            n == s@.len(),
            r@ == s@.take(i as int),
        decreases n - i,
    {
        r.push(s.get_char(i));
        assert(r@ =~= s@.take(i + 1 as int));
        i = i + 1;
    }
    assert(s@.take(n as int) =~= s@);
    r
}

/// The string holding exactly the characters of `v`.
pub fn string_of(v: &Vec<char>) -> (r: String)
    ensures
        r@ == v@,
{
    let mut r = String::new();
    let mut i: usize = 0;
    while i < v.len()
        invariant
            i <= v.len(),
            r@ == v@.take(i as int),
        decreases v.len() - i,
    {
        push_char(&mut r, v[i]);
        assert(r@ =~= v@.take(i + 1 as int));
        i = i + 1;
    }
    assert(v@.take(v.len() as int) =~= v@);
    r
}

} // verus!
