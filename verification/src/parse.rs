//! Reading a recent-files list back out of its persisted JSON text.
//!
//! The reader accepts the JSON shape the store is written in: an array of
//! objects whose members are the strings `path` and `name` and the unsigned
//! 64-bit number `timestamp`, in any member order, with whitespace between
//! tokens, and with the JSON string escapes (a `\u` escape must name a
//! Unicode scalar value; surrogate pairs are not taken). Anything else —
//! a missing, repeated or unknown member, a sign, a fraction or an exponent
//! on the number, a value out of range, an unescaped control character,
//! trailing text — is malformed.

use vstd::prelude::*;
use crate::jsontext::{is_digit, digit_val, is_hex_digit, hex_val};
use crate::recent::RecentEntry;
use crate::serialize::{key_path, key_name, key_timestamp};

verus! {

/// The JSON whitespace characters.
pub open spec fn is_ws(c: char) -> bool {
    c == ' ' || c == '\t' || c == '\n' || c == '\r'
}

/// `s` with its leading whitespace dropped.
pub open spec fn ws(s: Seq<char>) -> Seq<char>
    decreases s.len(),
{
    if s.len() > 0 && is_ws(s[0]) {
        ws(s.drop_first())
    } else {
        s
    }
}

/// On text that starts with no whitespace, `ws` drops nothing.
pub proof fn lemma_ws_clean(s: Seq<char>)
    requires
        s.len() == 0 || !is_ws(s[0]),
    ensures
        ws(s) == s,
{
}

/// The characters that may follow a backslash without `u`.
pub open spec fn is_simple_escape(c: char) -> bool {
    c == '"' || c == '\\' || c == '/' || c == 'b' || c == 'f' || c == 'n' || c == 'r' || c == 't'
}

/// The character a simple escape stands for.
pub open spec fn unescape_simple(c: char) -> char {
    if c == '"' {
        '"'
    } else if c == '\\' {
        '\\'
    } else if c == '/' {
        '/'
    } else if c == 'b' {
        '\u{8}'
    } else if c == 'f' {
        '\u{c}'
    } else if c == 'n' {
        '\n'
    } else if c == 'r' {
        '\r'
    } else {
        '\t'
    }
}

/// The value of four hexadecimal digit characters.
pub open spec fn hex4_val(a: char, b: char, c: char, d: char) -> nat {
    ((hex_val(a) * 16 + hex_val(b)) * 16 + hex_val(c)) * 16 + hex_val(d)
}

/// The body of a JSON string, after its opening quote: the characters it
/// stands for, and the text after its closing quote.
pub open spec fn parse_string_body(s: Seq<char>) -> Option<(Seq<char>, Seq<char>)>
    decreases s.len(),
{
    if s.len() == 0 {
        None
    } else if s[0] == '"' {
        Some((Seq::empty(), s.drop_first()))
    } else if s[0] == '\\' {
        if s.len() < 2 {
            None
        } else if is_simple_escape(s[1]) {
            match parse_string_body(s.skip(2)) {
                Some((t, r)) => Some((seq![unescape_simple(s[1])] + t, r)),
                None => None,
            }
        } else if s[1] == 'u' {
            if s.len() < 6 {
                None
            } else if is_hex_digit(s[2]) && is_hex_digit(s[3]) && is_hex_digit(s[4])
                && is_hex_digit(s[5]) {
                let v = hex4_val(s[2], s[3], s[4], s[5]);
                if 0xD800 <= v && v < 0xE000 {
                    None
                } else {
                    match parse_string_body(s.skip(6)) {
                        Some((t, r)) => Some((seq![(v as u32) as char] + t, r)),
                        None => None,
                    }
                }
            } else {
                None
            }
        } else {
            None
        }
    } else if (s[0] as u32) < 0x20 {
        None
    } else {
        match parse_string_body(s.drop_first()) {
            Some((t, r)) => Some((seq![s[0]] + t, r)),
            None => None,
        }
    }
}

/// How many decimal digit characters `s` starts with.
pub open spec fn digit_run(s: Seq<char>) -> nat
    decreases s.len(),
{
    if s.len() > 0 && is_digit(s[0]) {
        1 + digit_run(s.drop_first())
    } else {
        0
    }
}

/// The number a run of digit characters stands for, most significant first.
pub open spec fn digits_value(s: Seq<char>) -> nat
    decreases s.len(),
{
    if s.len() == 0 {
        0
    } else {
        digits_value(s.drop_last()) * 10 + digit_val(s.last())
    }
}

/// A prefix of a digit run stands for no more than the whole run.
pub proof fn lemma_digits_value_mono(s: Seq<char>, n: int)
    requires
        0 <= n <= s.len(),
    ensures
        digits_value(s.take(n)) <= digits_value(s),
    decreases s.len(),
{
    if n < s.len() {
        let t = s.drop_last();
        assert(t.take(n) =~= s.take(n));
        lemma_digits_value_mono(t, n);
    } else {
        assert(s.take(n) =~= s);
    }
}

/// A JSON number as the store holds one: a run of digits with no sign, no
/// leading zero, no fraction and no exponent, in the unsigned 64-bit range.
pub open spec fn parse_number(s: Seq<char>) -> Option<(u64, Seq<char>)> {
    let k = digit_run(s) as int;
    if k == 0 {
        None
    } else if s[0] == '0' && k > 1 {
        None
    } else if digits_value(s.take(k)) > u64::MAX {
        None
    } else {
        Some((digits_value(s.take(k)) as u64, s.skip(k)))
    }
}

/// The members of one entry's object, read after its opening brace (and
/// after any member already read, carried in the three accumulators). The
/// fuel bounds the members still to be read; three is enough, since a
/// fourth member must repeat a key or name an unknown one.
pub open spec fn parse_members(
    s: Seq<char>,
    path: Option<Seq<char>>,
    name: Option<Seq<char>>,
    ts: Option<u64>,
    fuel: nat,
) -> Option<(RecentEntry, Seq<char>)>
    decreases fuel, 0int,
{
    if fuel == 0 {
        None
    } else if s.len() == 0 || s[0] != '"' {
        None
    } else {
        match parse_string_body(s.drop_first()) {
            None => None,
            Some((k, r1)) => {
                let r2 = ws(r1);
                if r2.len() == 0 || r2[0] != ':' {
                    None
                } else {
                    let r3 = ws(r2.drop_first());
                    if k == key_path() {
                        if path is Some {
                            None
                        } else if r3.len() == 0 || r3[0] != '"' {
                            None
                        } else {
                            match parse_string_body(r3.drop_first()) {
                                None => None,
                                Some((v, r4)) => parse_members_end(
                                    r4,
                                    Some(v),
                                    name,
                                    ts,
                                    (fuel - 1) as nat,
                                ),
                            }
                        }
                    } else if k == key_name() {
                        if name is Some {
                            None
                        } else if r3.len() == 0 || r3[0] != '"' {
                            None
                        } else {
                            match parse_string_body(r3.drop_first()) {
                                None => None,
                                Some((v, r4)) => parse_members_end(
                                    r4,
                                    path,
                                    Some(v),
                                    ts,
                                    (fuel - 1) as nat,
                                ),
                            }
                        }
                    } else if k == key_timestamp() {
                        if ts is Some {
                            None
                        } else {
                            match parse_number(r3) {
                                None => None,
                                Some((v, r4)) => parse_members_end(
                                    r4,
                                    path,
                                    name,
                                    Some(v),
                                    (fuel - 1) as nat,
                                ),
                            }
                        }
                    } else {
                        None
                    }
                }
            },
        }
    }
}

/// After one member's value: a comma leads to the next member, a closing
/// brace ends the object, which must by then hold all three members.
pub open spec fn parse_members_end(
    s: Seq<char>,
    path: Option<Seq<char>>,
    name: Option<Seq<char>>,
    ts: Option<u64>,
    fuel: nat,
) -> Option<(RecentEntry, Seq<char>)>
    decreases fuel, 1int,
{
    let r = ws(s);
    if r.len() == 0 {
        None
    } else if r[0] == ',' {
        parse_members(ws(r.drop_first()), path, name, ts, fuel)
    } else if r[0] == '}' {
        match (path, name, ts) {
            (Some(p), Some(n), Some(t)) => Some(
                (RecentEntry { path: p, name: n, timestamp: t }, r.drop_first()),
            ),
            _ => None,
        }
    } else {
        None
    }
}

/// One entry's object, brace to brace.
pub open spec fn parse_entry(s: Seq<char>) -> Option<(RecentEntry, Seq<char>)> {
    if s.len() == 0 || s[0] != '{' {
        None
    } else {
        parse_members(ws(s.drop_first()), None, None, None, 3)
    }
}

/// The entries of the array, read at the first entry's opening brace; ends
/// at the array's closing bracket. The fuel bounds the entries still to be
/// read; the text's own length is enough, since each entry takes characters.
pub open spec fn parse_items(s: Seq<char>, fuel: nat) -> Option<(Seq<RecentEntry>, Seq<char>)>
    decreases fuel,
{
    if fuel == 0 {
        None
    } else {
        match parse_entry(s) {
            None => None,
            Some((e, r1)) => {
                let r2 = ws(r1);
                if r2.len() == 0 {
                    None
                } else if r2[0] == ',' {
                    match parse_items(ws(r2.drop_first()), (fuel - 1) as nat) {
                        None => None,
                        Some((es, r3)) => Some((seq![e] + es, r3)),
                    }
                } else if r2[0] == ']' {
                    Some((seq![e], r2.drop_first()))
                } else {
                    None
                }
            },
        }
    }
}

/// The whole persisted text: one array, nothing but whitespace around it.
pub open spec fn parse_list(s: Seq<char>) -> Option<Seq<RecentEntry>> {
    let r0 = ws(s);
    if r0.len() == 0 || r0[0] != '[' {
        None
    } else {
        let r1 = ws(r0.drop_first());
        if r1.len() == 0 {
            None
        } else if r1[0] == ']' {
            if ws(r1.drop_first()).len() == 0 {
                Some(Seq::empty())
            } else {
                None
            }
        } else {
            match parse_items(r1, r1.len()) {
                None => None,
                Some((es, r2)) => if ws(r2).len() == 0 {
                    Some(es)
                } else {
                    None
                },
            }
        }
    }
}

} // verus!
