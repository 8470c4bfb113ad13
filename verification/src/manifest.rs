//! The manifest data model.
//!
//! A manifest is a set of records, one per file, keyed by the file's
//! relative path.  Executable code carries it as a `Vec<FileChecksum>`;
//! contracts speak of its model, a sequence of [`EntryModel`] values, and
//! of path lookups over that sequence.

use vstd::prelude::*;
use crate::text::{json_safe, path_wf};

verus! {

/// One manifest record: the leaf filename, the `/`-separated path relative
/// to the sync root, and the lowercase hex content digest.
pub struct FileChecksum {
    pub name: String,
    pub file_path: String,
    pub checksum: String,
}

/// The mathematical content of one manifest record.
pub ghost struct EntryModel {
    pub name: Seq<char>,
    pub path: Seq<char>,
    pub digest: Seq<char>,
}

impl View for FileChecksum {
    type V = EntryModel;

    open spec fn view(&self) -> EntryModel {
        EntryModel { name: self.name@, path: self.file_path@, digest: self.checksum@ }
    }
}

impl DeepView for FileChecksum {
    type V = EntryModel;

    open spec fn deep_view(&self) -> EntryModel {
        self@
    }
}

impl Clone for FileChecksum {
    fn clone(&self) -> (r: Self)
        ensures
            r@ == self@,
    {
        FileChecksum {
            name: self.name.clone(),
            file_path: self.file_path.clone(),
            checksum: self.checksum.clone(),
        }
    }
}

/// A record whose strings the file format can carry verbatim and whose
/// path satisfies the manifest path invariant.
pub open spec fn entry_wf(e: EntryModel) -> bool {
    &&& path_wf(e.path)
    &&& json_safe(e.name)
    &&& json_safe(e.digest)
}

/// A well-formed manifest: every record well-formed, and no two records
/// for the same relative path.
pub open spec fn manifest_wf(m: Seq<EntryModel>) -> bool {
    &&& (forall|i: int| 0 <= i < m.len() ==> entry_wf(#[trigger] m[i]))
    &&& (forall|i: int, j: int|
        0 <= i < j < m.len() ==> (#[trigger] m[i]).path != (#[trigger] m[j]).path)
}

/// The digest recorded for a path, from the first record that carries it.
pub open spec fn lookup(m: Seq<EntryModel>, path: Seq<char>) -> Option<Seq<char>>
    decreases m.len(),
{
    if m.len() == 0 {
        None
    } else if m[0].path == path {
        Some(m[0].digest)
    } else {
        lookup(m.drop_first(), path)
    }
}

/// A manifest records the path if and only if some entry carries it.
pub proof fn lemma_lookup_cases(m: Seq<EntryModel>, path: Seq<char>)
    ensures
        match lookup(m, path) {
            Some(d) => exists|i: int|
                0 <= i < m.len() && (#[trigger] m[i]).path == path && m[i].digest == d,
            None => forall|i: int| 0 <= i < m.len() ==> (#[trigger] m[i]).path != path,
        },
    decreases m.len(),
{
    if m.len() > 0 && m[0].path != path {
        lemma_lookup_cases(m.drop_first(), path);
        match lookup(m, path) {
            Some(d) => {
                let i = choose|i: int|
                    0 <= i < m.drop_first().len() && (#[trigger] m.drop_first()[i]).path == path
                        && m.drop_first()[i].digest == d;
                assert(m[i + 1].path == path && m[i + 1].digest == d);
            },
            None => {
                assert forall|i: int| 0 <= i < m.len() implies (#[trigger] m[i]).path != path by {
                    if i > 0 {
                        assert(m.drop_first()[i - 1].path != path);
                    }
                }
            },
        }
    }
}

/// Each entry of a well-formed manifest is what lookup on its path finds.
pub proof fn lemma_lookup_at(m: Seq<EntryModel>, i: int)
    requires
        forall|a: int, b: int|
            0 <= a < b < m.len() ==> (#[trigger] m[a]).path != (#[trigger] m[b]).path,
        0 <= i < m.len(),
    ensures
        lookup(m, m[i].path) == Some(m[i].digest),
    decreases m.len(),
{
    if i > 0 {
        assert(m[0].path != m[i].path);
        assert forall|a: int, b: int|
            0 <= a < b < m.drop_first().len() implies (#[trigger] m.drop_first()[a]).path != (
        #[trigger] m.drop_first()[b]).path by {
            assert(m[a + 1].path != m[b + 1].path);
        }
        lemma_lookup_at(m.drop_first(), i - 1);
    }
}

/// Finds the record for a path, scanning the manifest in order.
pub fn find_entry(entries: &Vec<FileChecksum>, path: &String) -> (r: Option<usize>)
    ensures
        match r {
            Some(i) => i < entries@.len() && entries@[i as int]@.path == path@
                && lookup(entries.deep_view(), path@) == Some(entries@[i as int]@.digest),
            None => lookup(entries.deep_view(), path@) is None,
        },
{
    let ghost model = entries.deep_view();
    let n = entries.len();
    let mut i: usize = 0;
    while i < n
        invariant
            n == entries@.len(),
            i <= n,
            model == entries.deep_view(),
            forall|j: int| 0 <= j < i ==> (#[trigger] model[j]).path != path@,
        decreases n - i,
    {
        if entries[i].file_path == *path {
            proof {
                lemma_lookup_prefix_miss(model, path@, i as int);
            }
            return Some(i);
        }
        i = i + 1;
    }
    proof {
        lemma_lookup_cases(model, path@);
        if lookup(model, path@) is Some {
            let w = choose|w: int| 0 <= w < model.len() && (#[trigger] model[w]).path == path@;
            assert(model[w].path != path@);
        }
    }
    None
}

/// If no record before position `i` carries the path and the record at `i`
/// does, lookup finds the record at `i`.
proof fn lemma_lookup_prefix_miss(m: Seq<EntryModel>, path: Seq<char>, i: int)
    requires
        0 <= i < m.len(),
        m[i].path == path,
        forall|j: int| 0 <= j < i ==> (#[trigger] m[j]).path != path,
    ensures
        lookup(m, path) == Some(m[i].digest),
    decreases i,
{
    if i > 0 {
        assert forall|j: int| 0 <= j < i - 1 implies (#[trigger] m.drop_first()[j]).path != path by {
            assert(m[j + 1].path != path);
        }
        lemma_lookup_prefix_miss(m.drop_first(), path, i - 1);
    }
}

/// Checks the whole-manifest invariant on records received from outside:
/// well-formed entries and pairwise-distinct paths.
pub fn manifest_is_wf(entries: &Vec<FileChecksum>) -> (r: bool)
    ensures
        r == manifest_wf(entries.deep_view()),
{
    let ghost model = entries.deep_view();
    let n = entries.len();
    let mut i: usize = 0;
    while i < n
        invariant
            n == entries@.len(),
            model == entries.deep_view(),
            i <= n,
            forall|j: int| 0 <= j < i ==> entry_wf(#[trigger] model[j]),
            forall|a: int, b: int|
                0 <= a < b < i ==> (#[trigger] model[a]).path != (#[trigger] model[b]).path,
        decreases n - i,
    {
        let e = &entries[i];
        if !crate::text::path_is_wf(e.file_path.as_str()) {
            assert(!entry_wf(model[i as int]));
            return false;
        }
        if !json_safe_string(e.name.as_str()) || !json_safe_string(e.checksum.as_str()) {
            assert(!entry_wf(model[i as int]));
            return false;
        }
        let mut j: usize = 0;
        while j < i
            invariant
                n == entries@.len(),
                model == entries.deep_view(),
                i < n,
                j <= i,
                forall|b: int| 0 <= b < j ==> (#[trigger] model[b]).path != model[i as int].path,
            decreases i - j,
        {
            if entries[j].file_path == entries[i].file_path {
                assert(model[j as int].path == model[i as int].path);
                return false;
            }
            j = j + 1;
        }
        i = i + 1;
    }
    true
}

/// Every character of the string may appear verbatim in the manifest file
/// format.
pub fn json_safe_string(s: &str) -> (r: bool)
    ensures
        r == json_safe(s@),
{
    let len = s.unicode_len();
    let mut i: usize = 0;
    while i < len
        invariant
            len == s@.len(),
            i <= len,
            forall|j: int| 0 <= j < i ==> crate::text::json_safe_char(#[trigger] s@[j]),
        decreases len - i,
    {
        let c = s.get_char(i);
        if c == '"' || c == '\\' || (c as u32) < 32 {
            assert(!crate::text::json_safe_char(s@[i as int]));
            return false;
        }
        i = i + 1;
    }
    true
}

} // verus!
