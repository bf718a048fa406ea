//! What is written can be read back: the reader's denotation inverts the
//! writer's, so a store persisted by this library always parses, to exactly
//! the list that was persisted.

use vstd::prelude::*;
use crate::jsontext::{
    digit_char, dec_digits, hex_char, escape_char, escape_string, is_digit, digit_val,
    is_hex_digit, hex_val,
};
use crate::parse::{
    ws, lemma_ws_clean, is_simple_escape, unescape_simple, hex4_val, parse_string_body, digit_run,
    digits_value, parse_number, parse_members, parse_members_end, parse_entry, parse_items,
    parse_list,
};
use crate::recent::RecentEntry;
use crate::serialize::{
    key_path, key_name, key_timestamp, quoted, json_of_entry, json_entries, json_of_list,
};

verus! {

/// A decimal digit character reads back as its value.
pub proof fn lemma_digit_char_val(d: nat)
    requires
        d < 10,
    ensures
        is_digit(digit_char(d)),
        digit_val(digit_char(d)) == d,
{
}

/// A hexadecimal digit character reads back as its value.
pub proof fn lemma_hex_char_val(v: nat)
    requires
        v < 16,
    ensures
        is_hex_digit(hex_char(v)),
        hex_val(hex_char(v)) == v,
{
    if v < 10 {
        lemma_digit_char_val(v);
    }
}

/// An escaped string, followed by its closing quote, reads back as itself.
pub proof fn lemma_string_round_trip(t: Seq<char>, rest: Seq<char>)
    ensures
        parse_string_body(escape_string(t) + seq!['"'] + rest) == Some((t, rest)),
    decreases t.len(),
{
    let input = escape_string(t) + seq!['"'] + rest;
    if t.len() == 0 {
        assert(input =~= seq!['"'] + rest);
        assert(input[0] == '"');
        assert(input.drop_first() =~= rest);
    } else {
        let c = t[0];
        let t1 = t.drop_first();
        let tail = escape_string(t1) + seq!['"'] + rest;
        assert(escape_string(t) == escape_char(c) + escape_string(t1));
        assert(input =~= escape_char(c) + tail);
        lemma_string_round_trip(t1, rest);
        assert(seq![c] + t1 =~= t);
        if c == '"' || c == '\\' {
            assert(input[0] == '\\' && input[1] == c);
            assert(is_simple_escape(c) && unescape_simple(c) == c);
            assert(input.skip(2) =~= tail);
        } else if c == '\u{8}' {
            assert(input[0] == '\\' && input[1] == 'b');
            assert(input.skip(2) =~= tail);
        } else if c == '\t' {
            assert(input[0] == '\\' && input[1] == 't');
            assert(input.skip(2) =~= tail);
        } else if c == '\n' {
            assert(input[0] == '\\' && input[1] == 'n');
            assert(input.skip(2) =~= tail);
        } else if c == '\u{c}' {
            assert(input[0] == '\\' && input[1] == 'f');
            assert(input.skip(2) =~= tail);
        } else if c == '\r' {
            assert(input[0] == '\\' && input[1] == 'r');
            assert(input.skip(2) =~= tail);
        } else if (c as u32) < 0x20 {
            let cv = c as u32;
            let h1 = hex_char((cv / 16) as nat);
            let h2 = hex_char((cv % 16) as nat);
            assert(escape_char(c) == seq!['\\', 'u', '0', '0', h1, h2]);
            assert(input[0] == '\\' && input[1] == 'u');
            assert(input[2] == '0' && input[3] == '0' && input[4] == h1 && input[5] == h2);
            assert(input.len() >= 6);
            assert(!is_simple_escape('u'));
            lemma_hex_char_val((cv / 16) as nat);
            lemma_hex_char_val((cv % 16) as nat);
            assert(is_hex_digit('0') && hex_val('0') == 0);
            let v = hex4_val(input[2], input[3], input[4], input[5]);
            assert(v == hex_val(h1) * 16 + hex_val(h2));
            assert(v == (cv / 16) * 16 + (cv % 16));
            assert(v == cv);
            assert(!(0xD800 <= v && v < 0xE000));
            vstd::utf8::char_u32_cast(c, cv);
            assert((v as u32) as char == c);
            assert(input.skip(6) =~= tail);
        } else {
            assert(escape_char(c) == seq![c]);
            assert(input[0] == c);
            assert(c != '"' && c != '\\' && !((c as u32) < 0x20));
            assert(input.drop_first() =~= tail);
        }
    }
}

/// Every character of a decimal numeral is a digit, and a positive number's
/// numeral does not start with zero.
pub proof fn lemma_dec_digits_digits(n: nat)
    ensures
        dec_digits(n).len() >= 1,
        forall|i: int| 0 <= i < dec_digits(n).len() ==> is_digit(#[trigger] dec_digits(n)[i]),
        n > 0 ==> dec_digits(n)[0] != '0',
    decreases n,
{
    if n < 10 {
        lemma_digit_char_val(n);
        assert(dec_digits(n)[0] == digit_char(n));
        if n > 0 {
            assert(digit_char(n) != '0');
        }
    } else {
        lemma_dec_digits_digits(n / 10);
        lemma_digit_char_val(n % 10);
        let a = dec_digits(n / 10);
        let d = dec_digits(n);
        assert(d == a + seq![digit_char(n % 10)]);
        assert(d[0] == a[0]);
        assert forall|i: int| 0 <= i < d.len() implies is_digit(#[trigger] d[i]) by {
            if i < a.len() {
                assert(d[i] == a[i]);
            } else {
                assert(d[i] == digit_char(n % 10));
            }
        }
    }
}

/// A run of digits followed by a non-digit reads as exactly that run.
pub proof fn lemma_digit_run_concat(a: Seq<char>, b: Seq<char>)
    requires
        forall|i: int| 0 <= i < a.len() ==> is_digit(#[trigger] a[i]),
        b.len() == 0 || !is_digit(b[0]),
    ensures
        digit_run(a + b) == a.len(),
    decreases a.len(),
{
    if a.len() == 0 {
        assert(a + b =~= b);
    } else {
        let t = a.drop_first();
        assert(forall|i: int| 0 <= i < t.len() ==> t[i] == a[i + 1]);
        assert forall|i: int| 0 <= i < t.len() implies is_digit(#[trigger] t[i]) by {
            assert(t[i] == a[i + 1]);
        }
        lemma_digit_run_concat(t, b);
        assert((a + b)[0] == a[0]);
        assert((a + b).drop_first() =~= t + b);
    }
}

/// A decimal numeral stands for the number it was written from.
pub proof fn lemma_dec_digits_value(n: nat)
    ensures
        digits_value(dec_digits(n)) == n,
    decreases n,
{
    if n < 10 {
        lemma_digit_char_val(n);
        let d = dec_digits(n);
        assert(d.len() == 1);
        assert(d.drop_last() =~= Seq::<char>::empty());
        assert(digits_value(Seq::<char>::empty()) == 0);
        assert(d.last() == digit_char(n));
        assert(digits_value(d) == digits_value(d.drop_last()) * 10 + digit_val(d.last()));
    } else {
        lemma_dec_digits_value(n / 10);
        lemma_digit_char_val(n % 10);
        let a = dec_digits(n / 10);
        let d = dec_digits(n);
        assert(d == a + seq![digit_char(n % 10)]);
        assert(d.drop_last() =~= a);
        assert(d.last() == digit_char(n % 10));
    }
}

/// A written number, followed by anything but a digit, reads back as itself.
pub proof fn lemma_number_round_trip(n: u64, rest: Seq<char>)
    requires
        rest.len() == 0 || !is_digit(rest[0]),
    ensures
        parse_number(dec_digits(n as nat) + rest) == Some((n, rest)),
{
    let d = dec_digits(n as nat);
    let input = d + rest;
    lemma_dec_digits_digits(n as nat);
    lemma_digit_run_concat(d, rest);
    assert(digit_run(input) == d.len());
    let k = digit_run(input) as int;
    assert(k >= 1);
    assert(input[0] == d[0]);
    if input[0] == '0' && k > 1 {
        assert(n as nat == 0) by {
            if n as nat > 0 {
                assert(d[0] != '0');
            }
        }
        assert(d.len() == 1);
        assert(false);
    }
    assert(input.take(k) =~= d);
    lemma_dec_digits_value(n as nat);
    assert(digits_value(input.take(k)) == n as nat);
    assert(input.skip(k) =~= rest);
}

/// The three member keys differ.
proof fn lemma_keys_differ()
    ensures
        key_path() != key_name(),
        key_path() != key_timestamp(),
        key_name() != key_timestamp(),
{
    assert(key_path()[0] == 'p' && key_name()[0] == 'n' && key_timestamp()[0] == 't');
    assert(key_path().len() == 4 && key_timestamp().len() == 9);
}

/// A written entry, followed by anything, reads back as itself.
#[verifier::rlimit(100)]
pub proof fn lemma_entry_round_trip(e: RecentEntry, rest: Seq<char>)
    ensures
        parse_entry(json_of_entry(e) + rest) == Some((e, rest)),
{
    let input = json_of_entry(e) + rest;
    let dd = dec_digits(e.timestamp as nat);
    // the text after each token, innermost last
    let t6 = seq!['}'] + rest;
    let t5 = dd + t6;
    let t4 = seq![','] + quoted(key_timestamp()) + seq![':'] + t5;
    let q3 = quoted(e.name) + t4;
    let t3 = seq![':'] + q3;
    let t2 = seq![','] + quoted(key_name()) + t3;
    let q2 = quoted(e.path) + t2;
    let t1 = seq![':'] + q2;
    let m1 = quoted(key_path()) + t1;
    assert(input[0] == '{');
    assert(input.drop_first() =~= m1);
    // every token here begins with no whitespace
    assert(m1[0] == '"');
    lemma_ws_clean(m1);
    // member: "path"
    assert(m1.drop_first() =~= escape_string(key_path()) + seq!['"'] + t1);
    lemma_string_round_trip(key_path(), t1);
    assert(parse_string_body(m1.drop_first()) == Some((key_path(), t1)));
    lemma_ws_clean(t1);
    assert(t1[0] == ':');
    assert(t1.drop_first() =~= q2);
    assert(q2[0] == '"');
    lemma_ws_clean(q2);
    assert(q2.drop_first() =~= escape_string(e.path) + seq!['"'] + t2);
    lemma_string_round_trip(e.path, t2);
    assert(parse_string_body(q2.drop_first()) == Some((e.path, t2)));
    // member: "name"
    lemma_ws_clean(t2);
    assert(t2[0] == ',');
    let m2 = quoted(key_name()) + t3;
    assert(t2.drop_first() =~= m2);
    assert(m2[0] == '"');
    lemma_ws_clean(m2);
    assert(m2.drop_first() =~= escape_string(key_name()) + seq!['"'] + t3);
    lemma_string_round_trip(key_name(), t3);
    assert(parse_string_body(m2.drop_first()) == Some((key_name(), t3)));
    lemma_ws_clean(t3);
    assert(t3[0] == ':');
    assert(t3.drop_first() =~= q3);
    assert(q3[0] == '"');
    lemma_ws_clean(q3);
    assert(q3.drop_first() =~= escape_string(e.name) + seq!['"'] + t4);
    lemma_string_round_trip(e.name, t4);
    assert(parse_string_body(q3.drop_first()) == Some((e.name, t4)));
    // member: "timestamp"
    lemma_ws_clean(t4);
    assert(t4[0] == ',');
    let m3 = quoted(key_timestamp()) + seq![':'] + t5;
    assert(t4.drop_first() =~= m3);
    assert(m3[0] == '"');
    lemma_ws_clean(m3);
    let t5c = seq![':'] + t5;
    assert(m3.drop_first() =~= escape_string(key_timestamp()) + seq!['"'] + t5c);
    lemma_string_round_trip(key_timestamp(), t5c);
    assert(parse_string_body(m3.drop_first()) == Some((key_timestamp(), t5c)));
    lemma_ws_clean(t5c);
    assert(t5c[0] == ':');
    assert(t5c.drop_first() =~= t5);
    lemma_dec_digits_digits(e.timestamp as nat);
    assert(t5[0] == dd[0]);
    lemma_ws_clean(t5);
    assert(t6[0] == '}');
    assert(!is_digit('}'));
    lemma_number_round_trip(e.timestamp, t6);
    assert(parse_number(t5) == Some((e.timestamp, t6)));
    // now fold the members back up, last step first
    lemma_keys_differ();
    lemma_ws_clean(t6);
    assert(t6.drop_first() =~= rest);
    assert(RecentEntry { path: e.path, name: e.name, timestamp: e.timestamp } == e);
    assert(parse_members_end(t6, Some(e.path), Some(e.name), Some(e.timestamp), 0) == Some(
        (e, rest),
    ));
    assert(parse_members(m3, Some(e.path), Some(e.name), None, 1) == Some((e, rest)));
    assert(parse_members_end(t4, Some(e.path), Some(e.name), None, 1) == Some((e, rest)));
    assert(parse_members(m2, Some(e.path), None, None, 2) == Some((e, rest)));
    assert(parse_members_end(t2, Some(e.path), None, None, 2) == Some((e, rest)));
    assert(parse_members(m1, None, None, None, 3) == Some((e, rest)));
    assert(parse_entry(input) == Some((e, rest)));
}

/// Every written entry text begins with a brace, and the join of one or
/// more entries is never empty.
pub proof fn lemma_json_entries_shape(s: Seq<RecentEntry>)
    requires
        s.len() >= 1,
    ensures
        json_entries(s).len() >= 1,
        json_entries(s)[0] == '{',
    decreases s.len(),
{
    assert(json_of_entry(s[0])[0] == '{');
    if s.len() > 1 {
        assert(json_entries(s)[0] == json_of_entry(s[0])[0]);
    }
}

/// One or more written entries, followed by the closing bracket, read back
/// as themselves, with fuel at least their number.
#[verifier::rlimit(100)]
pub proof fn lemma_items_round_trip(s: Seq<RecentEntry>, rest: Seq<char>, fuel: nat)
    requires
        s.len() >= 1,
        fuel >= s.len(),
    ensures
        parse_items(json_entries(s) + seq![']'] + rest, fuel) == Some((s, rest)),
    decreases s.len(),
{
    let input = json_entries(s) + seq![']'] + rest;
    if s.len() == 1 {
        assert(json_entries(s) == json_of_entry(s[0]));
        let t = seq![']'] + rest;
        assert(input =~= json_of_entry(s[0]) + t);
        lemma_entry_round_trip(s[0], t);
        assert(t[0] == ']');
        lemma_ws_clean(t);
        assert(t.drop_first() =~= rest);
        assert(seq![s[0]] =~= s);
    } else {
        let s1 = s.drop_first();
        assert(json_entries(s) == json_of_entry(s[0]) + seq![','] + json_entries(s1));
        let t = seq![','] + json_entries(s1) + seq![']'] + rest;
        assert(input =~= json_of_entry(s[0]) + t);
        lemma_entry_round_trip(s[0], t);
        assert(t[0] == ',');
        lemma_ws_clean(t);
        let u = json_entries(s1) + seq![']'] + rest;
        assert(t.drop_first() =~= u);
        lemma_json_entries_shape(s1);
        assert(u[0] == '{');
        lemma_ws_clean(u);
        lemma_items_round_trip(s1, rest, (fuel - 1) as nat);
        assert(parse_items(u, (fuel - 1) as nat) == Some((s1, rest)));
        assert(seq![s[0]] + s1 =~= s);
    }
}

/// The join of the entries is at least as long as the list itself.
pub proof fn lemma_json_entries_len(s: Seq<RecentEntry>)
    ensures
        json_entries(s).len() >= s.len(),
    decreases s.len(),
{
    if s.len() > 0 {
        assert(json_of_entry(s[0]).len() >= 1);
        if s.len() > 1 {
            lemma_json_entries_len(s.drop_first());
        }
    }
}

/// The store's round trip: the text written for any list parses, to exactly
/// that list.
pub proof fn lemma_list_round_trip(s: Seq<RecentEntry>)
    ensures
        parse_list(json_of_list(s)) == Some(s),
{
    let input = json_of_list(s);
    assert(input[0] == '[');
    lemma_ws_clean(input);
    let r = json_entries(s) + seq![']'];
    assert(input.drop_first() =~= r);
    if s.len() == 0 {
        assert(json_entries(s) == Seq::<char>::empty());
        assert(r =~= seq![']']);
        assert(r[0] == ']');
        lemma_ws_clean(r);
        assert(r.drop_first() =~= Seq::<char>::empty());
        assert(ws(r.drop_first()).len() == 0);
        assert(parse_list(input) == Some(Seq::<RecentEntry>::empty()));
        assert(Seq::<RecentEntry>::empty() =~= s);
    } else {
        lemma_json_entries_shape(s);
        assert(r[0] == '{');
        lemma_ws_clean(r);
        assert(r[0] != ']');
        lemma_json_entries_len(s);
        assert(r.len() >= s.len());
        assert(r =~= json_entries(s) + seq![']'] + Seq::<char>::empty());
        lemma_items_round_trip(s, Seq::<char>::empty(), r.len() as nat);
        assert(parse_items(r, r.len() as nat) == Some((s, Seq::<char>::empty())));
        assert(ws(Seq::<char>::empty()).len() == 0);
    }
}

} // verus!
