//! The JSON text under which a recent-files list is persisted: a compact
//! array of objects, each with the string members `path` and `name` and the
//! numeric member `timestamp`, in that order, with no space between tokens.

use vstd::prelude::*;
use crate::jsontext::{
    digit_char, dec_digits, escape_char, escape_string, digit_char_exec, hex_char_exec, string_of,
    lemma_escape_push, lemma_escape_plain,
};
use crate::recent::{RecentFile, RecentEntry, entries};

verus! {

pub open spec fn key_path() -> Seq<char> {
    seq!['p', 'a', 't', 'h']
}

pub open spec fn key_name() -> Seq<char> {
    seq!['n', 'a', 'm', 'e']
}

pub open spec fn key_timestamp() -> Seq<char> {
    seq!['t', 'i', 'm', 'e', 's', 't', 'a', 'm', 'p']
}

/// A string as it stands in the JSON text: quoted and escaped.
pub open spec fn quoted(s: Seq<char>) -> Seq<char> {
    seq!['"'] + escape_string(s) + seq!['"']
}

/// The JSON object for one entry.
pub open spec fn json_of_entry(e: RecentEntry) -> Seq<char> {
    seq!['{'] + quoted(key_path()) + seq![':'] + quoted(e.path) + seq![','] + quoted(key_name())
        + seq![':'] + quoted(e.name) + seq![','] + quoted(key_timestamp()) + seq![':']
        + dec_digits(e.timestamp as nat) + seq!['}']
}

/// The entries' objects joined by commas.
pub open spec fn json_entries(s: Seq<RecentEntry>) -> Seq<char>
    decreases s.len(),
{
    if s.len() == 0 {
        Seq::empty()
    } else if s.len() == 1 {
        json_of_entry(s[0])
    } else {
        json_of_entry(s[0]) + seq![','] + json_entries(s.drop_first())
    }
}

/// The whole persisted text: the joined objects in brackets.
pub open spec fn json_of_list(s: Seq<RecentEntry>) -> Seq<char> {
    seq!['['] + json_entries(s) + seq![']']
}

/// The join grows from the front; this gives the step at the back.
pub proof fn lemma_json_entries_push(s: Seq<RecentEntry>, e: RecentEntry)
    ensures
        s.len() == 0 ==> json_entries(s.push(e)) =~= json_of_entry(e),
        s.len() > 0 ==> json_entries(s.push(e)) =~= json_entries(s) + seq![','] + json_of_entry(e),
    decreases s.len(),
{
    let p = s.push(e);
    if s.len() == 0 {
        assert(p.len() == 1 && p[0] == e);
    } else if s.len() == 1 {
        assert(p.len() == 2 && p[0] == s[0]);
        assert(p.drop_first() =~= seq![e]);
        assert(json_entries(p.drop_first()) == json_entries(seq![e]));
        assert(json_entries(seq![e]) == json_of_entry(e));
        assert(json_entries(s) == json_of_entry(s[0]));
    } else {
        assert(p[0] == s[0]);
        assert(p.drop_first() =~= s.drop_first().push(e));
        lemma_json_entries_push(s.drop_first(), e);
        assert(json_entries(p) == json_of_entry(p[0]) + seq![','] + json_entries(p.drop_first()));
        assert(json_entries(p.drop_first()) == json_entries(s.drop_first().push(e)));
    }
}

/// The three member keys need no escaping.
pub proof fn lemma_keys_plain()
    ensures
        escape_string(key_path()) =~= key_path(),
        escape_string(key_name()) =~= key_name(),
        escape_string(key_timestamp()) =~= key_timestamp(),
{
    lemma_escape_plain(key_path());
    lemma_escape_plain(key_name());
    lemma_escape_plain(key_timestamp());
}

/// Append `s` as a JSON string: escaped, between quotes.
fn write_quoted(out: &mut Vec<char>, s: &str)
    ensures
        final(out)@ == old(out)@ + quoted(s@),
{
    out.push('"');
    let ghost base = out@;
    let n = vstd::string::StrSliceExecFns::unicode_len(s);
    let mut i: usize = 0;
    while i < n
        invariant
            i <= n,
            n == s@.len(),
            out@ == base + escape_string(s@.take(i as int)),
        decreases n - i,
    {
        let c = vstd::string::StrSliceExecFns::get_char(s, i);
        let ghost before = out@;
        if c == '"' {
            out.push('\\');
            out.push('"');
            assert(out@ =~= before + escape_char(c));
        } else if c == '\\' {
            out.push('\\');
            out.push('\\');
            assert(out@ =~= before + escape_char(c));
        } else if c == '\u{8}' {
            out.push('\\');
            out.push('b');
            assert(out@ =~= before + escape_char(c));
        } else if c == '\t' {
            out.push('\\');
            out.push('t');
            assert(out@ =~= before + escape_char(c));
        } else if c == '\n' {
            out.push('\\');
            out.push('n');
            assert(out@ =~= before + escape_char(c));
        } else if c == '\u{c}' {
            out.push('\\');
            out.push('f');
            assert(out@ =~= before + escape_char(c));
        } else if c == '\r' {
            out.push('\\');
            out.push('r');
            assert(out@ =~= before + escape_char(c));
        } else {
            let v = c as u32;
            if v < 0x20 {
                out.push('\\');
                out.push('u');
                out.push('0');
                out.push('0');
                out.push(hex_char_exec(v / 16));
                out.push(hex_char_exec(v % 16));
                assert(out@ =~= before + escape_char(c));
            } else {
                out.push(c);
                assert(out@ =~= before + escape_char(c));
            }
        }
        proof {
            lemma_escape_push(s@.take(i as int), c);
            assert(s@.take(i as int).push(c) =~= s@.take(i + 1 as int));
            assert(out@ =~= base + escape_string(s@.take(i + 1 as int)));
        }
        i = i + 1;
    }
    assert(s@.take(n as int) =~= s@);
    out.push('"');
    assert(out@ =~= old(out)@ + quoted(s@));
}

/// Append the decimal numeral of `n`.
fn write_number(out: &mut Vec<char>, n: u64)
    ensures
        final(out)@ == old(out)@ + dec_digits(n as nat),
{
    let mut tmp: Vec<char> = Vec::new();
    let mut m: u64 = n;
    while m >= 10
        invariant
            dec_digits(n as nat) =~= dec_digits(m as nat) + tmp@.reverse(),
        decreases m,
    {
        let d = m % 10;
        let ghost t0 = tmp@;
        tmp.push(digit_char_exec(d));
        proof {
            assert(tmp@.reverse() =~= seq![digit_char(d as nat)] + t0.reverse());
            assert(dec_digits(m as nat) == dec_digits((m / 10) as nat) + seq![
                digit_char((m % 10) as nat),
            ]);
            assert(dec_digits(n as nat) =~= dec_digits((m / 10) as nat) + tmp@.reverse());
        }
        m = m / 10;
    }
    let ghost t0 = tmp@;
    tmp.push(digit_char_exec(m));
    proof {
        assert(tmp@.reverse() =~= seq![digit_char(m as nat)] + t0.reverse());
        assert(dec_digits(m as nat) == seq![digit_char(m as nat)]);
        assert(dec_digits(n as nat) =~= tmp@.reverse());
    }
    let total = tmp.len();
    let mut k: usize = 0;
    while k < total
        invariant
            k <= total,
            total == tmp@.len(),
            dec_digits(n as nat) == tmp@.reverse(),
            out@ == old(out)@ + dec_digits(n as nat).take(k as int),
        decreases total - k,
    {
        out.push(tmp[total - 1 - k]);
        proof {
            assert(tmp@.reverse()[k as int] == tmp@[total - 1 - k as int]);
            assert(out@ =~= old(out)@ + dec_digits(n as nat).take(k + 1 as int));
        }
        k = k + 1;
    }
    assert(dec_digits(n as nat).take(total as int) =~= dec_digits(n as nat));
}

/// Append the object for one record.
fn write_entry(out: &mut Vec<char>, f: &RecentFile)
    ensures
        final(out)@ == old(out)@ + json_of_entry(f@),
{
    proof {
        lemma_keys_plain();
    }
    out.push('{');
    write_quoted(out, "path");
    proof {
        reveal_strlit("path");
        assert("path"@ =~= key_path());
    }
    out.push(':');
    write_quoted(out, f.path.as_str());
    out.push(',');
    write_quoted(out, "name");
    proof {
        reveal_strlit("name");
        assert("name"@ =~= key_name());
    }
    out.push(':');
    write_quoted(out, f.name.as_str());
    out.push(',');
    write_quoted(out, "timestamp");
    proof {
        reveal_strlit("timestamp");
        assert("timestamp"@ =~= key_timestamp());
    }
    out.push(':');
    write_number(out, f.timestamp);
    out.push('}');
    assert(out@ =~= old(out)@ + json_of_entry(f@));
}

/// The JSON text for the whole list, exactly `json_of_list` of its entries.
pub fn serialize_recent_files(list: &Vec<RecentFile>) -> (r: String)
    ensures
        r@ == json_of_list(entries(list@)),
{
    let mut out: Vec<char> = Vec::new();
    out.push('[');
    let mut i: usize = 0;
    while i < list.len()
        invariant
            i <= list.len(),
            out@ == seq!['['] + json_entries(entries(list@.take(i as int))),
        decreases list.len() - i,
    {
        let ghost done = entries(list@.take(i as int));
        if i > 0 {
            out.push(',');
        }
        write_entry(&mut out, &list[i]);
        proof {
            lemma_json_entries_push(done, list@[i as int]@);
            assert(entries(list@.take(i + 1 as int)) =~= done.push(list@[i as int]@));
            if i == 0 {
                assert(out@ =~= seq!['['] + json_entries(entries(list@.take(i + 1 as int))));
            } else {
                assert(out@ =~= seq!['['] + (json_entries(done) + seq![','] + json_of_entry(
                    list@[i as int]@,
                )));
                assert(out@ =~= seq!['['] + json_entries(entries(list@.take(i + 1 as int))));
            }
        }
        i = i + 1;
    }
    assert(list@.take(list.len() as int) =~= list@);
    out.push(']');
    assert(out@ =~= json_of_list(entries(list@)));
    string_of(&out)
}

} // verus!
