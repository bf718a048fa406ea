//! The recent-files list: its entries, its well-formedness invariant, and
//! the rule by which a newly opened notebook is recorded at the front.

use vstd::prelude::*;

verus! {

/// One record of a previously opened notebook: where it lives, how the UI
/// labels it, and when it was opened (caller-supplied epoch milliseconds;
/// neither the label nor the timestamp is validated against the path).
#[derive(Debug)]
pub struct RecentFile {
    pub path: String,
    pub name: String,
    pub timestamp: u64,
}

/// The mathematical image of a `RecentFile`: both strings as character
/// sequences.
pub ghost struct RecentEntry {
    pub path: Seq<char>,
    pub name: Seq<char>,
    pub timestamp: u64,
}

impl View for RecentFile {
    type V = RecentEntry;

    open spec fn view(&self) -> RecentEntry {
        RecentEntry { path: self.path@, name: self.name@, timestamp: self.timestamp }
    }
}

impl RecentFile {
    /// A copy whose mathematical image is the same.
    pub fn duplicate(&self) -> (r: RecentFile)
        ensures
            r@ == self@,
    {
        RecentFile { path: self.path.clone(), name: self.name.clone(), timestamp: self.timestamp }
    }
}

/// The entries of a list of records, as mathematical values.
pub open spec fn entries(s: Seq<RecentFile>) -> Seq<RecentEntry> {
    s.map_values(|f: RecentFile| f@)
}

/// Does some entry of `s` record the path `p`?
pub open spec fn has_path(s: Seq<RecentEntry>, p: Seq<char>) -> bool {
    exists|i: int| 0 <= i < s.len() && s[i].path == p
}

/// No two entries record the same path.
pub open spec fn paths_distinct(s: Seq<RecentEntry>) -> bool {
    forall|i: int, j: int| 0 <= i < j < s.len() ==> s[i].path != s[j].path
}

/// What every persisted recent-files list satisfies: at most
/// `RECENT_FILES_CAPACITY` entries, and no path recorded twice.
pub open spec fn list_wf(s: Seq<RecentEntry>) -> bool {
    &&& s.len() <= crate::RECENT_FILES_CAPACITY
    &&& paths_distinct(s)
}

/// `s` without every entry that records the path `p`, order kept.
pub open spec fn drop_path(s: Seq<RecentEntry>, p: Seq<char>) -> Seq<RecentEntry>
    decreases s.len(),
{
    if s.len() == 0 {
        s
    } else {
        let rest = drop_path(s.drop_last(), p);
        if s.last().path == p {
            rest
        } else {
            rest.push(s.last())
        }
    }
}

/// The first `n` elements of `s`, or all of `s` if it is shorter.
pub open spec fn clip(s: Seq<RecentEntry>, n: nat) -> Seq<RecentEntry> {
    if s.len() <= n {
        s
    } else {
        s.take(n as int)
    }
}

/// How recording a file updates the list: any entry with the same path
/// leaves, the new entry goes to the front, and the result is cut to
/// `RECENT_FILES_CAPACITY` entries.
pub open spec fn add_entry_spec(s: Seq<RecentEntry>, e: RecentEntry) -> Seq<RecentEntry> {
    seq![e] + clip(drop_path(s, e.path), (crate::RECENT_FILES_CAPACITY - 1) as nat)
}

/// Removing a path removes it: nothing left in `drop_path(s, p)` records `p`,
/// and every path still recorded was recorded before.
pub proof fn lemma_drop_path_paths(s: Seq<RecentEntry>, p: Seq<char>)
    ensures
        forall|i: int| 0 <= i < drop_path(s, p).len() ==> (#[trigger] drop_path(s, p)[i]).path != p,
        forall|q: Seq<char>| #[trigger] has_path(drop_path(s, p), q) ==> has_path(s, q),
        drop_path(s, p).len() <= s.len(),
    decreases s.len(),
{
    if s.len() > 0 {
        let t = s.drop_last();
        lemma_drop_path_paths(t, p);
        let r = drop_path(s, p);
        assert forall|q: Seq<char>| #[trigger] has_path(r, q) implies has_path(s, q) by {
            let i = choose|i: int| 0 <= i < r.len() && r[i].path == q;
            if s.last().path != p && i == r.len() - 1 {
                assert(s[s.len() - 1].path == q);
            } else {
                let rt = drop_path(t, p);
                assert(r[i] == rt[i]);
                assert(has_path(rt, q)) by {
                    assert(0 <= i < rt.len() && rt[i].path == q);
                }
                assert(has_path(t, q));
                let j = choose|j: int| 0 <= j < t.len() && t[j].path == q;
                assert(s[j].path == q);
            }
        }
    }
}

/// Removing a path keeps the remaining paths pairwise distinct.
pub proof fn lemma_drop_path_distinct(s: Seq<RecentEntry>, p: Seq<char>)
    requires
        paths_distinct(s),
    ensures
        paths_distinct(drop_path(s, p)),
    decreases s.len(),
{
    if s.len() > 0 {
        let t = s.drop_last();
        assert(paths_distinct(t)) by {
            assert forall|i: int, j: int| 0 <= i < j < t.len() implies t[i].path != t[j].path by {
                assert(t[i] == s[i] && t[j] == s[j]);
            }
        }
        lemma_drop_path_distinct(t, p);
        lemma_drop_path_paths(t, p);
        if s.last().path != p {
            let r = drop_path(t, p);
            let r2 = r.push(s.last());
            assert(drop_path(s, p) == r2);
            assert forall|i: int, j: int| 0 <= i < j < r2.len() implies r2[i].path != r2[j].path by {
                if j == r.len() as int {
                    assert(r2[i] == r[i]);
                    assert(r2[j] == s.last());
                    assert(has_path(r, r[i].path)) by {
                        assert(0 <= i < r.len() && r[i].path == r[i].path);
                    }
                    assert(has_path(t, r[i].path));
                    let k = choose|k: int| 0 <= k < t.len() && t[k].path == r[i].path;
                    assert(s[k] == t[k]);
                    assert(s[k].path != s[s.len() - 1].path);
                } else {
                    assert(r2[i] == r[i] && r2[j] == r[j]);
                }
            }
        }
    }
}

/// On a list in which no entry records `p`, removing `p` changes nothing.
pub proof fn lemma_drop_path_absent(s: Seq<RecentEntry>, p: Seq<char>)
    requires
        forall|i: int| 0 <= i < s.len() ==> (#[trigger] s[i]).path != p,
    ensures
        drop_path(s, p) =~= s,
    decreases s.len(),
{
    if s.len() > 0 {
        let t = s.drop_last();
        assert(forall|i: int| 0 <= i < t.len() ==> (#[trigger] t[i]).path != p);
        lemma_drop_path_absent(t, p);
        assert(s[s.len() - 1].path != p);
    }
}

/// Recording a file preserves the list invariant: the result again holds at
/// most `RECENT_FILES_CAPACITY` entries and records no path twice, whatever
/// was recorded before; and the new entry stands first.
pub proof fn lemma_add_entry_wf(s: Seq<RecentEntry>, e: RecentEntry)
    requires
        paths_distinct(s),
    ensures
        list_wf(add_entry_spec(s, e)),
        add_entry_spec(s, e)[0] == e,
        add_entry_spec(s, e).len() >= 1,
{
    let kept = drop_path(s, e.path);
    lemma_drop_path_paths(s, e.path);
    lemma_drop_path_distinct(s, e.path);
    let c = clip(kept, (crate::RECENT_FILES_CAPACITY - 1) as nat);
    assert(forall|i: int| 0 <= i < c.len() ==> c[i] == kept[i]);
    let r = add_entry_spec(s, e);
    assert(r[0] == e);
    assert forall|i: int, j: int| 0 <= i < j < r.len() implies r[i].path != r[j].path by {
        if i == 0 {
            assert(r[j] == c[j - 1]);
        } else {
            assert(r[i] == c[i - 1] && r[j] == c[j - 1]);
        }
    }
}

/// Recording the same path twice in a row is as recording it once with the
/// later label and timestamp: the earlier of the two records leaves entirely.
pub proof fn lemma_add_entry_dedup(s: Seq<RecentEntry>, e1: RecentEntry, e2: RecentEntry)
    requires
        e1.path == e2.path,
    ensures
        add_entry_spec(add_entry_spec(s, e1), e2) == add_entry_spec(s, e2),
{
    let p = e1.path;
    let kept = drop_path(s, p);
    lemma_drop_path_paths(s, p);
    let c = clip(kept, (crate::RECENT_FILES_CAPACITY - 1) as nat);
    assert(forall|i: int| 0 <= i < c.len() ==> c[i] == kept[i]);
    let inner = add_entry_spec(s, e1);
    assert(forall|i: int| 0 <= i < c.len() ==> (#[trigger] c[i]).path != p);
    assert(drop_path(inner, p) =~= c) by {
        lemma_drop_path_concat(seq![e1], c, p);
        lemma_drop_path_absent(c, p);
        assert(drop_path(seq![e1], p) =~= Seq::<RecentEntry>::empty()) by {
            let s1 = seq![e1];
            assert(s1.last() == e1 && e1.path == p);
            let s0 = s1.drop_last();
            assert(s0.len() == 0);
            assert(drop_path(s0, p) == s0);
            assert(drop_path(s1, p) == drop_path(s0, p));
        }
    }
    assert(clip(c, (crate::RECENT_FILES_CAPACITY - 1) as nat) =~= c);
    assert(add_entry_spec(inner, e2) =~= add_entry_spec(s, e2));
}

/// `drop_path` distributes over concatenation.
pub proof fn lemma_drop_path_concat(a: Seq<RecentEntry>, b: Seq<RecentEntry>, p: Seq<char>)
    ensures
        drop_path(a + b, p) =~= drop_path(a, p) + drop_path(b, p),
    decreases b.len(),
{
    if b.len() == 0 {
        assert(a + b =~= a);
        assert(drop_path(b, p) =~= Seq::<RecentEntry>::empty());
    } else {
        lemma_drop_path_concat(a, b.drop_last(), p);
        assert((a + b).drop_last() =~= a + b.drop_last());
        assert((a + b).last() == b.last());
    }
}

/// The fold of the recording rule over a run of recordings, oldest first.
pub open spec fn add_all_spec(s: Seq<RecentEntry>, es: Seq<RecentEntry>) -> Seq<RecentEntry>
    decreases es.len(),
{
    if es.len() == 0 {
        s
    } else {
        add_all_spec(add_entry_spec(s, es[0]), es.drop_first())
    }
}

/// `clip` looks only at the first `n` elements, so clipping what stands
/// behind an added front changes nothing.
proof fn lemma_clip_concat(a: Seq<RecentEntry>, b: Seq<RecentEntry>, n: nat)
    ensures
        clip(a + clip(b, n), n) =~= clip(a + b, n),
{
    let l = clip(a + clip(b, n), n);
    let r = clip(a + b, n);
    assert(l.len() == r.len());
    assert forall|i: int| 0 <= i < l.len() implies l[i] == r[i] by {
        if i < a.len() {
            assert(l[i] == a[i] && r[i] == a[i]);
        } else {
            assert(l[i] == clip(b, n)[i - a.len()]);
            assert(clip(b, n)[i - a.len()] == b[i - a.len()]);
            assert(r[i] == b[i - a.len()]);
        }
    }
}

/// However the bridge is driven: recording a run of files whose paths are
/// new and pairwise distinct leaves the last `RECENT_FILES_CAPACITY` of
/// them, the newest first, atop what still fits of the old list.
pub proof fn lemma_add_all_recent_first(s: Seq<RecentEntry>, es: Seq<RecentEntry>)
    requires
        s.len() <= crate::RECENT_FILES_CAPACITY,
        forall|i: int, j: int| 0 <= i < j < es.len() ==> es[i].path != es[j].path,
        forall|i: int, k: int|
            0 <= i < es.len() && 0 <= k < s.len() ==> es[i].path != s[k].path,
    ensures
        add_all_spec(s, es) == clip(es.reverse() + s, crate::RECENT_FILES_CAPACITY as nat),
    decreases es.len(),
{
    let cap = crate::RECENT_FILES_CAPACITY as nat;
    if es.len() == 0 {
        assert(es.reverse() + s =~= s);
    } else {
        let e0 = es[0];
        let est = es.drop_first();
        assert forall|k: int| 0 <= k < s.len() implies (#[trigger] s[k]).path != e0.path by {
            assert(es[0].path != s[k].path);
        }
        lemma_drop_path_absent(s, e0.path);
        let s1 = add_entry_spec(s, e0);
        assert(s1 == seq![e0] + clip(s, (cap - 1) as nat));
        assert(s1 =~= clip(seq![e0] + s, cap)) by {
            let r = clip(seq![e0] + s, cap);
            assert(s1.len() == r.len());
            assert forall|i: int| 0 <= i < s1.len() implies s1[i] == r[i] by {
                if i > 0 {
                    assert(s1[i] == clip(s, (cap - 1) as nat)[i - 1]);
                    assert(clip(s, (cap - 1) as nat)[i - 1] == s[i - 1]);
                    assert(r[i] == (seq![e0] + s)[i]);
                }
            }
        }
        assert(s1.len() <= cap);
        assert(forall|i: int| 0 <= i < est.len() ==> est[i] == es[i + 1]);
        assert forall|i: int, j: int|
            0 <= i < j < est.len() implies est[i].path != est[j].path by {
            assert(est[i] == es[i + 1] && est[j] == es[j + 1]);
        }
        assert forall|i: int, k: int|
            0 <= i < est.len() && 0 <= k < s1.len() implies est[i].path != s1[k].path by {
            assert(est[i] == es[i + 1]);
            if k == 0 {
                assert(s1[0] == e0);
                assert(es[i + 1].path != es[0].path);
            } else {
                assert(s1[k] == clip(s, (cap - 1) as nat)[k - 1]);
                assert(clip(s, (cap - 1) as nat)[k - 1] == s[k - 1]);
                assert(es[i + 1].path != s[k - 1].path);
            }
        }
        lemma_add_all_recent_first(s1, est);
        assert(add_all_spec(s, es) == add_all_spec(s1, est));
        lemma_clip_concat(est.reverse(), seq![e0] + s, cap);
        assert(est.reverse() + s1 =~= est.reverse() + clip(seq![e0] + s, cap));
        assert(clip(est.reverse() + s1, cap) =~= clip(est.reverse() + (seq![e0] + s), cap));
        assert(est.reverse() + (seq![e0] + s) =~= es.reverse() + s) by {
            assert(es.reverse().len() == est.reverse().len() + 1);
            assert(forall|i: int|
                0 <= i < est.reverse().len() ==> est.reverse()[i] == est[est.len() - 1 - i]);
            assert(forall|i: int|
                0 <= i < es.reverse().len() ==> es.reverse()[i] == es[es.len() - 1 - i]);
        }
    }
}

/// Record the file at `path` in `list`: any entry with the same path leaves,
/// a fresh entry goes to the front, and the list is cut to
/// `RECENT_FILES_CAPACITY` entries.
pub fn add_entry(list: &Vec<RecentFile>, path: String, name: String, timestamp: u64) -> (r: Vec<
    RecentFile,
>)
    ensures
        entries(r@) == add_entry_spec(
            entries(list@),
            RecentEntry { path: path@, name: name@, timestamp },
        ),
{
    let ghost e = RecentEntry { path: path@, name: name@, timestamp };
    let mut out: Vec<RecentFile> = Vec::new();
    out.push(RecentFile { path: path.clone(), name, timestamp });
    assert(entries(out@) =~= seq![e] + drop_path(entries(list@.take(0)), e.path)) by {
        assert(entries(list@.take(0)) =~= Seq::<RecentEntry>::empty());
        assert(entries(out@) =~= seq![e]);
    }
    let mut i: usize = 0;
    while i < list.len()
        invariant
            i <= list.len(),
            entries(out@) == seq![e] + drop_path(entries(list@.take(i as int)), e.path),
            e.path == path@,
        decreases list.len() - i,
    {
        let ghost prev = entries(list@.take(i as int));
        let ghost cur = entries(list@.take(i + 1 as int));
        assert(cur =~= prev.push(list@[i as int]@)) by {
            assert(list@.take(i + 1 as int).drop_last() =~= list@.take(i as int));
        }
        assert(cur.drop_last() =~= prev);
        if list[i].path == path {
            assert(drop_path(cur, e.path) =~= drop_path(prev, e.path));
        } else {
            let kept = list[i].duplicate();
            out.push(kept);
            assert(entries(out@) =~= (seq![e] + drop_path(prev, e.path)).push(list@[i as int]@));
            assert(drop_path(cur, e.path) =~= drop_path(prev, e.path).push(list@[i as int]@));
            assert(entries(out@) =~= seq![e] + drop_path(cur, e.path));
        }
        i = i + 1;
    }
    assert(list@.take(list.len() as int) =~= list@);
    out.truncate(crate::RECENT_FILES_CAPACITY);
    proof {
        let kept = drop_path(entries(list@), e.path);
        let full = seq![e] + kept;
        let c = clip(kept, (crate::RECENT_FILES_CAPACITY - 1) as nat);
        if full.len() > crate::RECENT_FILES_CAPACITY {
            assert(entries(out@) =~= full.subrange(0, crate::RECENT_FILES_CAPACITY as int));
            assert(entries(out@) =~= seq![e] + c);
        } else {
            assert(entries(out@) =~= full);
            assert(c =~= kept);
        }
    }
    out
}

} // verus!
