//! The computing side of the bridge's store operations: reading the
//! persisted recent-files list out of its text, and producing the text that
//! records one more file. The filesystem itself — whether a store file
//! exists, and reading or writing it — is the caller's part; these
//! functions take the text found and hand back the text to write.

use vstd::prelude::*;
use crate::jsontext::chars_of;
use crate::parse::parse_list;
use crate::reader::parse_list_exec;
use crate::recent::{
    RecentFile, RecentEntry, entries, add_entry, add_entry_spec, list_wf, paths_distinct,
    lemma_add_entry_wf, lemma_add_entry_dedup,
};
use crate::roundtrip::lemma_list_round_trip;
use crate::serialize::{serialize_recent_files, json_of_list};
use vstd::string::StringExecFns;

verus! {

/// The persisted store exists but could not be read as a recent-files list.
#[derive(Debug)]
pub struct ParseError {}

impl ParseError {
    /// The description handed to the UI.
    pub fn message(&self) -> (m: String)
        ensures
            m@ == "Failed to parse recent files"@,
    {
        String::from_str("Failed to parse recent files")
    }
}

/// The store's text, where one exists.
pub open spec fn opt_text(stored: Option<&str>) -> Option<Seq<char>> {
    match stored {
        Some(s) => Some(s@),
        None => None,
    }
}

/// What a store text stands for when a reading failure is tolerated: the
/// parsed entries, or the empty list where no store exists or its text is
/// malformed.
pub open spec fn stored_entries_or_empty(stored: Option<Seq<char>>) -> Seq<RecentEntry> {
    match stored {
        None => Seq::empty(),
        Some(s) => match parse_list(s) {
            Some(es) => es,
            None => Seq::empty(),
        },
    }
}

/// What the UI is shown: the list the store's text stands for. A missing
/// store (`None`) is an empty list, not an error; a store that exists but
/// does not parse is an error, and is not tolerated here.
pub fn load_recent_files(stored: Option<&str>) -> (r: Result<Vec<RecentFile>, ParseError>)
    ensures
        (match opt_text(stored) {
            None => r matches Ok(l) && entries(l@) == Seq::<RecentEntry>::empty(),
            Some(s) => (match parse_list(s) {
                Some(es) => r matches Ok(l) && entries(l@) == es,
                None => r is Err,
            }),
        }),
{
    match stored {
        None => {
            let l: Vec<RecentFile> = Vec::new();
            assert(entries(l@) =~= Seq::<RecentEntry>::empty());
            Ok(l)
        },
        Some(s) => {
            let cs = chars_of(s);
            match parse_list_exec(&cs) {
                Some(l) => Ok(l),
                None => Err(ParseError {  }),
            }
        },
    }
}

/// The text that records the file at `path` on top of what the store held:
/// the old text's list — empty where the store is missing or malformed,
/// that failure being tolerated here — updated by the recording rule and
/// written back out. Always succeeds.
pub fn updated_recent_store(stored: Option<&str>, path: String, name: String, timestamp: u64) -> (r:
    String)
    ensures
        r@ == json_of_list(
            add_entry_spec(
                stored_entries_or_empty(opt_text(stored)),
                RecentEntry { path: path@, name: name@, timestamp },
            ),
        ),
{
    let current: Vec<RecentFile> = match stored {
        None => Vec::new(),
        Some(s) => {
            let cs = chars_of(s);
            match parse_list_exec(&cs) {
                Some(l) => l,
                None => Vec::new(),
            }
        },
    };
    proof {
        assert(entries(Seq::<RecentFile>::empty()) =~= Seq::<RecentEntry>::empty());
    }
    assert(entries(current@) == stored_entries_or_empty(opt_text(stored)));
    let updated = add_entry(&current, path, name, timestamp);
    serialize_recent_files(&updated)
}

/// The fixed file name of the persisted store inside the application data
/// directory.
pub fn recent_store_file_name() -> (r: String)
    ensures
        r@ == "recent_files.json"@,
{
    String::from_str("recent_files.json")
}

/// The fixed name of the default save folder under the user's documents
/// directory.
pub fn notebooks_dir_name() -> (r: String)
    ensures
        r@ == "Tangent Notebooks"@,
{
    String::from_str("Tangent Notebooks")
}

/// The text written after recording a file always reads back, as exactly
/// the updated list: listing the recent files right after recording one
/// shows the recording, never a parse failure.
pub proof fn lemma_update_reads_back(stored: Option<Seq<char>>, e: RecentEntry)
    ensures
        parse_list(json_of_list(add_entry_spec(stored_entries_or_empty(stored), e))) == Some(
            add_entry_spec(stored_entries_or_empty(stored), e),
        ),
{
    lemma_list_round_trip(add_entry_spec(stored_entries_or_empty(stored), e));
}

/// Recording the same path twice in a row — through the store's text, as
/// the bridge does it — leaves exactly the list of recording it once with
/// the second call's label and timestamp.
pub proof fn lemma_record_twice_dedup(stored: Option<Seq<char>>, e1: RecentEntry, e2: RecentEntry)
    requires
        e1.path == e2.path,
    ensures
        stored_entries_or_empty(
            Some(json_of_list(add_entry_spec(stored_entries_or_empty(stored), e1))),
        ) == add_entry_spec(stored_entries_or_empty(stored), e1),
        add_entry_spec(add_entry_spec(stored_entries_or_empty(stored), e1), e2) == add_entry_spec(
            stored_entries_or_empty(stored),
            e2,
        ),
{
    let s = stored_entries_or_empty(stored);
    lemma_list_round_trip(add_entry_spec(s, e1));
    lemma_add_entry_dedup(s, e1, e2);
}

/// A store the bridge wrote keeps its invariant, whatever was recorded and
/// in whatever order: never more entries than the capacity, no path twice,
/// the newest recording first — and it reads back as exactly that list.
pub proof fn lemma_store_capacity(s: Seq<RecentEntry>, e: RecentEntry)
    requires
        paths_distinct(s),
    ensures
        list_wf(add_entry_spec(s, e)),
        add_entry_spec(s, e)[0] == e,
        parse_list(json_of_list(add_entry_spec(s, e))) == Some(add_entry_spec(s, e)),
{
    lemma_add_entry_wf(s, e);
    lemma_list_round_trip(add_entry_spec(s, e));
}

} // verus!
