//! The executable reader of the persisted JSON text. Each function returns
//! exactly what its counterpart in `parse` denotes, position for position.

use vstd::prelude::*;
use crate::jsontext::{is_digit, digit_val, is_hex_digit, hex_val, char_from_u32, string_of};
use crate::parse::{
    is_ws, ws, is_simple_escape, unescape_simple, hex4_val, parse_string_body, digit_run,
    digits_value, parse_number, parse_members, parse_members_end, parse_entry, parse_items,
    parse_list, lemma_digits_value_mono,
};
use crate::recent::{RecentFile, RecentEntry, entries};

verus! {

/// `Some` of the characters of an accumulated member value, or `None`.
pub open spec fn opt_chars(o: Option<Vec<char>>) -> Option<Seq<char>> {
    match o {
        Some(v) => Some(v@),
        None => None,
    }
}

fn is_ws_exec(c: char) -> (b: bool)
    ensures
        b == is_ws(c),
{
    c == ' ' || c == '\t' || c == '\n' || c == '\r'
}

fn is_digit_exec(c: char) -> (b: bool)
    ensures
        b == is_digit(c),
{
    let u = c as u32;
    48 <= u && u <= 57
}

fn is_hex_digit_exec(c: char) -> (b: bool)
    ensures
        b == is_hex_digit(c),
{
    let u = c as u32;
    (48 <= u && u <= 57) || (97 <= u && u <= 102) || (65 <= u && u <= 70)
}

fn hex_val_exec(c: char) -> (v: u32)
    requires
        is_hex_digit(c),
    ensures
        v == hex_val(c),
        v < 16,
{
    let u = c as u32;
    if 48 <= u && u <= 57 {
        u - 48
    } else if 97 <= u && u <= 102 {
        u - 97 + 10
    } else {
        u - 65 + 10
    }
}

fn is_simple_escape_exec(c: char) -> (b: bool)
    ensures
        b == is_simple_escape(c),
{
    c == '"' || c == '\\' || c == '/' || c == 'b' || c == 'f' || c == 'n' || c == 'r' || c == 't'
}

fn unescape_simple_exec(c: char) -> (r: char)
    ensures
        r == unescape_simple(c),
{
    if c == '"' {
        '"'
    } else if c == '\\' {
        '\\'
    } else if c == '/' {
        '/'
    } else if c == 'b' {
        '\u{8}'
    } else if c == 'f' {
        '\u{c}'
    } else if c == 'n' {
        '\n'
    } else if c == 'r' {
        '\r'
    } else {
        '\t'
    }
}

/// The position after the whitespace at `pos`.
fn skip_ws(v: &Vec<char>, pos: usize) -> (np: usize)
    requires
        pos <= v.len(),
    ensures
        pos <= np <= v.len(),
        v@.skip(np as int) == ws(v@.skip(pos as int)),
{
    let mut np = pos;
    while np < v.len() && is_ws_exec(v[np])
        invariant
            pos <= np <= v.len(),
            ws(v@.skip(pos as int)) == ws(v@.skip(np as int)),
        decreases v.len() - np,
    {
        proof {
            let s = v@.skip(np as int);
            assert(s[0] == v@[np as int]);
            assert(s.drop_first() =~= v@.skip(np + 1));
        }
        np = np + 1;
    }
    proof {
        let s = v@.skip(np as int);
        if np < v.len() {
            assert(s[0] == v@[np as int]);
        }
        assert(ws(s) == s);
    }
    np
}

/// The body of a JSON string, read at `pos`, just after its opening quote.
fn parse_string_body_exec(v: &Vec<char>, pos: usize) -> (r: Option<(Vec<char>, usize)>)
    requires
        pos <= v.len(),
    ensures
        (match r {
            Some((t, np)) => pos < np <= v.len() && parse_string_body(v@.skip(pos as int)) == Some(
                (t@, v@.skip(np as int)),
            ),
            None => parse_string_body(v@.skip(pos as int)) is None,
        }),
    decreases v.len() - pos,
{
    let ghost s = v@.skip(pos as int);
    if pos == v.len() {
        return None;
    }
    let c = v[pos];
    assert(s[0] == c);
    if c == '"' {
        assert(s.drop_first() =~= v@.skip(pos + 1));
        let t: Vec<char> = Vec::new();
        assert(t@ =~= Seq::<char>::empty());
        return Some((t, pos + 1));
    }
    if c == '\\' {
        if v.len() - pos < 2 {
            return None;
        }
        let e = v[pos + 1];
        assert(s[1] == e);
        if is_simple_escape_exec(e) {
            assert(s.skip(2) =~= v@.skip(pos + 2));
            match parse_string_body_exec(v, pos + 2) {
                None => None,
                Some((rest, np)) => {
                    let ghost r0 = rest@;
                    let mut out = rest;
                    out.insert(0, unescape_simple_exec(e));
                    assert(out@ =~= seq![unescape_simple(e)] + r0);
                    Some((out, np))
                },
            }
        } else if e == 'u' {
            if v.len() - pos < 6 {
                return None;
            }
            let h2 = v[pos + 2];
            let h3 = v[pos + 3];
            let h4 = v[pos + 4];
            let h5 = v[pos + 5];
            assert(s[2] == h2 && s[3] == h3 && s[4] == h4 && s[5] == h5);
            if is_hex_digit_exec(h2) && is_hex_digit_exec(h3) && is_hex_digit_exec(h4)
                && is_hex_digit_exec(h5) {
                let val: u32 = ((hex_val_exec(h2) * 16 + hex_val_exec(h3)) * 16 + hex_val_exec(h4))
                    * 16 + hex_val_exec(h5);
                assert(val as nat == hex4_val(s[2], s[3], s[4], s[5]));
                if 0xD800 <= val && val < 0xE000 {
                    return None;
                }
                match char_from_u32(val) {
                    None => {
                        proof {
                            assert(false);
                        }
                        None
                    },
                    Some(uc) => {
                        proof {
                            vstd::utf8::char_u32_cast(uc, val);
                        }
                        assert(s.skip(6) =~= v@.skip(pos + 6));
                        match parse_string_body_exec(v, pos + 6) {
                            None => None,
                            Some((rest, np)) => {
                                let ghost r0 = rest@;
                                let mut out = rest;
                                out.insert(0, uc);
                                assert(out@ =~= seq![(val as u32) as char] + r0);
                                Some((out, np))
                            },
                        }
                    },
                }
            } else {
                None
            }
        } else {
            None
        }
    } else {
        let cv = c as u32;
        if cv < 0x20 {
            return None;
        }
        assert(s.drop_first() =~= v@.skip(pos + 1));
        match parse_string_body_exec(v, pos + 1) {
            None => None,
            Some((rest, np)) => {
                let ghost r0 = rest@;
                let mut out = rest;
                out.insert(0, c);
                assert(out@ =~= seq![s[0]] + r0);
                Some((out, np))
            },
        }
    }
}

/// A JSON number of the store's shape, read at `pos`.
fn parse_number_exec(v: &Vec<char>, pos: usize) -> (r: Option<(u64, usize)>)
    requires
        pos <= v.len(),
    ensures
        (match r {
            Some((x, np)) => pos < np <= v.len() && parse_number(v@.skip(pos as int)) == Some(
                (x, v@.skip(np as int)),
            ),
            None => parse_number(v@.skip(pos as int)) is None,
        }),
{
    let ghost s = v@.skip(pos as int);
    let mut k: usize = pos;
    while k < v.len() && is_digit_exec(v[k])
        invariant
            pos <= k <= v.len(),
            digit_run(s) == k - pos + digit_run(v@.skip(k as int)),
            forall|j: int| pos <= j < k ==> is_digit(v@[j]),
            s == v@.skip(pos as int),
        decreases v.len() - k,
    {
        proof {
            let t = v@.skip(k as int);
            assert(t[0] == v@[k as int]);
            assert(t.drop_first() =~= v@.skip(k + 1));
        }
        k = k + 1;
    }
    proof {
        let t = v@.skip(k as int);
        if k < v.len() {
            assert(t[0] == v@[k as int]);
        }
        assert(digit_run(t) == 0);
    }
    assert(digit_run(s) == k - pos);
    if k == pos {
        return None;
    }
    if v[pos] == '0' && k - pos > 1 {
        assert(s[0] == '0');
        return None;
    }
    assert(s[0] == v@[pos as int] && is_digit(s[0]));
    let ghost run = s.take((k - pos) as int);
    assert(run =~= v@.subrange(pos as int, k as int));
    let mut acc: u64 = 0;
    let mut j: usize = pos;
    while j < k
        invariant
            pos <= j <= k <= v.len(),
            acc as nat == digits_value(v@.subrange(pos as int, j as int)),
            forall|i: int| pos <= i < k ==> is_digit(v@[i]),
            run == v@.subrange(pos as int, k as int),
            digit_run(s) == k - pos,
            s == v@.skip(pos as int),
            !(s[0] == '0' && k - pos > 1),
        decreases k - j,
    {
        let c = v[j];
        assert(is_digit(v@[j as int]));
        let d: u64 = (c as u32 - 48) as u64;
        assert(d as nat == digit_val(c) && d <= 9);
        let ghost sofar = v@.subrange(pos as int, j as int);
        let ghost next = v@.subrange(pos as int, j + 1);
        assert(next =~= sofar.push(v@[j as int]));
        assert(next.drop_last() =~= sofar && next.last() == v@[j as int]);
        assert(digits_value(next) == digits_value(sofar) * 10 + digit_val(c));
        let overflow = if acc > 1844674407370955161u64 {
            true
        } else if acc == 1844674407370955161u64 {
            d > 5
        } else {
            false
        };
        if overflow {
            proof {
                assert(digits_value(next) > u64::MAX);
                assert(next =~= run.take(j + 1 - pos));
                lemma_digits_value_mono(run, j + 1 - pos);
                assert(digits_value(run) > u64::MAX);
                assert(s.take(digit_run(s) as int) =~= run);
            }
            return None;
        }
        assert(acc as nat * 10 + d as nat <= u64::MAX);
        acc = acc * 10 + d;
        j = j + 1;
    }
    assert(v@.subrange(pos as int, j as int) =~= run);
    assert(s.skip((k - pos) as int) =~= v@.skip(k as int));
    Some((acc, k))
}

/// The members of one entry's object, read at `pos` with what was already
/// accumulated; mirrors `parse_members`.
fn parse_members_exec(
    v: &Vec<char>,
    pos: usize,
    path: Option<Vec<char>>,
    name: Option<Vec<char>>,
    ts: Option<u64>,
    fuel: usize,
) -> (r: Option<(RecentFile, usize)>)
    requires
        pos <= v.len(),
    ensures
        (match r {
            Some((f, np)) => pos <= np <= v.len() && parse_members(
                v@.skip(pos as int),
                opt_chars(path),
                opt_chars(name),
                ts,
                fuel as nat,
            ) == Some((f@, v@.skip(np as int))),
            None => parse_members(
                v@.skip(pos as int),
                opt_chars(path),
                opt_chars(name),
                ts,
                fuel as nat,
            ) is None,
        }),
    decreases fuel, 0int,
{
    let ghost s = v@.skip(pos as int);
    if fuel == 0 {
        return None;
    }
    if pos == v.len() {
        return None;
    }
    if v[pos] != '"' {
        assert(s[0] != '"');
        return None;
    }
    assert(s[0] == '"');
    assert(s.drop_first() =~= v@.skip(pos + 1));
    match parse_string_body_exec(v, pos + 1) {
        None => None,
        Some((kvec, p1)) => {
            let p2 = skip_ws(v, p1);
            if p2 == v.len() {
                return None;
            }
            if v[p2] != ':' {
                assert(v@.skip(p2 as int)[0] != ':');
                return None;
            }
            assert(v@.skip(p2 as int)[0] == ':');
            assert(v@.skip(p2 as int).drop_first() =~= v@.skip(p2 + 1));
            let p3 = skip_ws(v, p2 + 1);
            let ghost r3 = v@.skip(p3 as int);
            let is_path = kvec.len() == 4 && kvec[0] == 'p' && kvec[1] == 'a' && kvec[2] == 't'
                && kvec[3] == 'h';
            let is_name = kvec.len() == 4 && kvec[0] == 'n' && kvec[1] == 'a' && kvec[2] == 'm'
                && kvec[3] == 'e';
            let is_ts = kvec.len() == 9 && kvec[0] == 't' && kvec[1] == 'i' && kvec[2] == 'm'
                && kvec[3] == 'e' && kvec[4] == 's' && kvec[5] == 't' && kvec[6] == 'a' && kvec[7]
                == 'm' && kvec[8] == 'p';
            proof {
                assert(is_path <==> kvec@ =~= crate::serialize::key_path());
                assert(is_name <==> kvec@ =~= crate::serialize::key_name());
                assert(is_ts <==> kvec@ =~= crate::serialize::key_timestamp());
            }
            if is_path {
                if path.is_some() {
                    return None;
                }
                if p3 == v.len() {
                    return None;
                }
                if v[p3] != '"' {
                    assert(r3[0] != '"');
                    return None;
                }
                assert(r3[0] == '"');
                assert(r3.drop_first() =~= v@.skip(p3 + 1));
                match parse_string_body_exec(v, p3 + 1) {
                    None => None,
                    Some((pv, p4)) => parse_members_end_exec(v, p4, Some(pv), name, ts, fuel - 1),
                }
            } else if is_name {
                if name.is_some() {
                    return None;
                }
                if p3 == v.len() {
                    return None;
                }
                if v[p3] != '"' {
                    assert(r3[0] != '"');
                    return None;
                }
                assert(r3[0] == '"');
                assert(r3.drop_first() =~= v@.skip(p3 + 1));
                match parse_string_body_exec(v, p3 + 1) {
                    None => None,
                    Some((nv, p4)) => parse_members_end_exec(v, p4, path, Some(nv), ts, fuel - 1),
                }
            } else if is_ts {
                if ts.is_some() {
                    return None;
                }
                match parse_number_exec(v, p3) {
                    None => None,
                    Some((tv, p4)) => parse_members_end_exec(v, p4, path, name, Some(tv), fuel - 1),
                }
            } else {
                None
            }
        },
    }
}

/// After one member's value: a comma or the closing brace; mirrors
/// `parse_members_end`.
fn parse_members_end_exec(
    v: &Vec<char>,
    pos: usize,
    path: Option<Vec<char>>,
    name: Option<Vec<char>>,
    ts: Option<u64>,
    fuel: usize,
) -> (r: Option<(RecentFile, usize)>)
    requires
        pos <= v.len(),
    ensures
        (match r {
            Some((f, np)) => pos <= np <= v.len() && parse_members_end(
                v@.skip(pos as int),
                opt_chars(path),
                opt_chars(name),
                ts,
                fuel as nat,
            ) == Some((f@, v@.skip(np as int))),
            None => parse_members_end(
                v@.skip(pos as int),
                opt_chars(path),
                opt_chars(name),
                ts,
                fuel as nat,
            ) is None,
        }),
    decreases fuel, 1int,
{
    let p = skip_ws(v, pos);
    let ghost r0 = v@.skip(p as int);
    if p == v.len() {
        return None;
    }
    if v[p] == ',' {
        assert(r0[0] == ',');
        assert(r0.drop_first() =~= v@.skip(p + 1));
        let p2 = skip_ws(v, p + 1);
        parse_members_exec(v, p2, path, name, ts, fuel)
    } else if v[p] == '}' {
        assert(r0[0] == '}');
        assert(r0.drop_first() =~= v@.skip(p + 1));
        match (path, name, ts) {
            (Some(pv), Some(nv), Some(t)) => {
                let f = RecentFile { path: string_of(&pv), name: string_of(&nv), timestamp: t };
                Some((f, p + 1))
            },
            _ => None,
        }
    } else {
        assert(r0[0] != ',' && r0[0] != '}');
        None
    }
}

/// One entry's object, read at its opening brace.
fn parse_entry_exec(v: &Vec<char>, pos: usize) -> (r: Option<(RecentFile, usize)>)
    requires
        pos <= v.len(),
    ensures
        (match r {
            Some((f, np)) => pos <= np <= v.len() && parse_entry(v@.skip(pos as int)) == Some(
                (f@, v@.skip(np as int)),
            ),
            None => parse_entry(v@.skip(pos as int)) is None,
        }),
{
    let ghost s = v@.skip(pos as int);
    if pos == v.len() {
        return None;
    }
    if v[pos] != '{' {
        assert(s[0] != '{');
        return None;
    }
    assert(s[0] == '{');
    assert(s.drop_first() =~= v@.skip(pos + 1));
    let p1 = skip_ws(v, pos + 1);
    parse_members_exec(v, p1, None, None, None, 3)
}

/// The entries of the array, read at the first entry; mirrors `parse_items`.
fn parse_items_exec(v: &Vec<char>, pos: usize, fuel: usize) -> (r: Option<(Vec<RecentFile>, usize)>)
    requires
        pos <= v.len(),
    ensures
        (match r {
            Some((l, np)) => pos <= np <= v.len() && parse_items(v@.skip(pos as int), fuel as nat)
                == Some((entries(l@), v@.skip(np as int))),
            None => parse_items(v@.skip(pos as int), fuel as nat) is None,
        }),
    decreases fuel,
{
    if fuel == 0 {
        return None;
    }
    match parse_entry_exec(v, pos) {
        None => None,
        Some((f, p1)) => {
            let p2 = skip_ws(v, p1);
            let ghost r2 = v@.skip(p2 as int);
            if p2 == v.len() {
                return None;
            }
            if v[p2] == ',' {
                assert(r2[0] == ',');
                assert(r2.drop_first() =~= v@.skip(p2 + 1));
                let p3 = skip_ws(v, p2 + 1);
                match parse_items_exec(v, p3, fuel - 1) {
                    None => None,
                    Some((lr, np)) => {
                        let ghost l0 = lr@;
                        let mut l = lr;
                        l.insert(0, f);
                        assert(entries(l@) =~= seq![f@] + entries(l0));
                        Some((l, np))
                    },
                }
            } else if v[p2] == ']' {
                assert(r2[0] == ']');
                assert(r2.drop_first() =~= v@.skip(p2 + 1));
                let mut l: Vec<RecentFile> = Vec::new();
                l.push(f);
                assert(entries(l@) =~= seq![f@]);
                Some((l, p2 + 1))
            } else {
                assert(r2[0] != ',' && r2[0] != ']');
                None
            }
        },
    }
}

/// The whole text of the store, parsed; exactly what `parse_list` denotes.
pub fn parse_list_exec(v: &Vec<char>) -> (r: Option<Vec<RecentFile>>)
    ensures
        (match r {
            Some(l) => parse_list(v@) == Some(entries(l@)),
            None => parse_list(v@) is None,
        }),
{
    assert(v@.skip(0) =~= v@);
    let p0 = skip_ws(v, 0);
    let ghost r0 = v@.skip(p0 as int);
    if p0 == v.len() {
        return None;
    }
    if v[p0] != '[' {
        assert(r0[0] != '[');
        return None;
    }
    assert(r0[0] == '[');
    assert(r0.drop_first() =~= v@.skip(p0 + 1));
    let p1 = skip_ws(v, p0 + 1);
    let ghost r1 = v@.skip(p1 as int);
    if p1 == v.len() {
        return None;
    }
    if v[p1] == ']' {
        assert(r1[0] == ']');
        assert(r1.drop_first() =~= v@.skip(p1 + 1));
        let p2 = skip_ws(v, p1 + 1);
        if p2 == v.len() {
            let l: Vec<RecentFile> = Vec::new();
            assert(entries(l@) =~= Seq::<RecentEntry>::empty());
            return Some(l);
        }
        return None;
    }
    assert(r1[0] != ']');
    assert(r1.len() == v.len() - p1);
    match parse_items_exec(v, p1, v.len() - p1) {
        None => None,
        Some((l, np)) => {
            let p3 = skip_ws(v, np);
            if p3 == v.len() {
                Some(l)
            } else {
                None
            }
        },
    }
}

} // verus!
