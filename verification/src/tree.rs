//! The local tree model and the manifest builder.
//!
//! The engine sees a directory tree as a flat set of files, each a
//! relative path with its byte content; the I/O layer around the library
//! enumerates the real tree into this shape.  Walking applies the
//! root-level exclusion rule: an entry whose first path segment matches an
//! excluded name is skipped together with its whole subtree, while the
//! same name one level deeper is kept.  Building hashes every included
//! file, in parallel, into a manifest.

use vstd::prelude::*;
use rayon::iter::{IntoParallelRefIterator, ParallelIterator};
use crate::digest::{digest_hex, hash_bytes, lemma_hex_of_json_safe};
use crate::manifest::{EntryModel, FileChecksum, lookup, manifest_wf};
use crate::text::{first_segment, first_segment_str, json_safe, json_safe_char, leaf_name,
    leaf_name_str, path_wf};

verus! {

/// One file of a local tree: its relative path and its content.
pub struct TreeFile {
    pub rel_path: String,
    pub content: Vec<u8>,
}

/// The mathematical content of one tree file.
pub ghost struct FileModel {
    pub path: Seq<char>,
    pub content: Seq<u8>,
}

impl View for TreeFile {
    type V = FileModel;

    open spec fn view(&self) -> FileModel {
        FileModel { path: self.rel_path@, content: self.content@ }
    }
}

impl DeepView for TreeFile {
    type V = FileModel;

    open spec fn deep_view(&self) -> FileModel {
        self@
    }
}

/// A well-formed tree: well-formed relative paths, no two files at the
/// same path.
pub open spec fn tree_wf(t: Seq<FileModel>) -> bool {
    &&& (forall|i: int| 0 <= i < t.len() ==> path_wf((#[trigger] t[i]).path))
    &&& (forall|i: int, j: int|
        0 <= i < j < t.len() ==> (#[trigger] t[i]).path != (#[trigger] t[j]).path)
}

/// The content of the file at a path, from the first file that carries it.
pub open spec fn tree_lookup(t: Seq<FileModel>, path: Seq<char>) -> Option<Seq<u8>>
    decreases t.len(),
{
    if t.len() == 0 {
        None
    } else if t[0].path == path {
        Some(t[0].content)
    } else {
        tree_lookup(t.drop_first(), path)
    }
}

/// The path is skipped by the root-level exclusion rule: its first
/// segment is one of the excluded names.
pub open spec fn root_excluded(p: Seq<char>, excl: Seq<Seq<char>>) -> bool {
    exists|i: int| 0 <= i < excl.len() && excl[i] == first_segment(p)
}

/// The files of the tree that survive the exclusion rule, in tree order.
pub open spec fn included_files(t: Seq<FileModel>, excl: Seq<Seq<char>>) -> Seq<FileModel>
    decreases t.len(),
{
    if t.len() == 0 {
        Seq::empty()
    } else if root_excluded(t[0].path, excl) {
        included_files(t.drop_first(), excl)
    } else {
        seq![t[0]] + included_files(t.drop_first(), excl)
    }
}

/// The relative paths the walker yields.
pub open spec fn included_paths(t: Seq<FileModel>, excl: Seq<Seq<char>>) -> Seq<Seq<char>> {
    included_files(t, excl).map_values(|f: FileModel| f.path)
}

/// The manifest record for one file.
pub open spec fn entry_of_file(f: FileModel) -> EntryModel {
    EntryModel { name: leaf_name(f.path), path: f.path, digest: digest_hex(f.content) }
}

/// The manifest a build of the tree yields: one record per included file.
pub open spec fn build_model(t: Seq<FileModel>, excl: Seq<Seq<char>>) -> Seq<EntryModel> {
    included_files(t, excl).map_values(|f: FileModel| entry_of_file(f))
}

/// Appending one file to a tree extends the included files by that file,
/// or not, according to the exclusion rule alone.
proof fn lemma_included_snoc(t: Seq<FileModel>, excl: Seq<Seq<char>>, f: FileModel)
    ensures
        root_excluded(f.path, excl) ==> included_files(t.push(f), excl) == included_files(t, excl),
        !root_excluded(f.path, excl) ==> included_files(t.push(f), excl) == included_files(
            t,
            excl,
        ).push(f),
    decreases t.len(),
{
    if t.len() == 0 {
        assert(t.push(f).len() == 1);
        assert(t.push(f)[0] == f);
        assert(t.push(f).drop_first() =~= Seq::<FileModel>::empty());
        assert(included_files(t, excl) =~= Seq::<FileModel>::empty());
        if root_excluded(f.path, excl) {
            assert(included_files(t.push(f), excl) =~= included_files(
                t.push(f).drop_first(),
                excl,
            ));
            assert(included_files(t.push(f), excl) =~= Seq::<FileModel>::empty());
        } else {
            assert(included_files(t.push(f), excl) =~= seq![f] + included_files(
                t.push(f).drop_first(),
                excl,
            ));
            assert(seq![f] + Seq::<FileModel>::empty() =~= Seq::<FileModel>::empty().push(f));
        }
    } else {
        assert(t.push(f).drop_first() =~= t.drop_first().push(f));
        assert(t.push(f)[0] == t[0]);
        lemma_included_snoc(t.drop_first(), excl, f);
        if !root_excluded(t[0].path, excl) && !root_excluded(f.path, excl) {
            assert(seq![t[0]] + included_files(t.drop_first(), excl).push(f) =~= (seq![t[0]]
                + included_files(t.drop_first(), excl)).push(f));
        }
    }
}

/// Checks the root-level exclusion rule for one relative path.
pub fn is_root_excluded(p: &str, exclusions: &Vec<String>) -> (r: bool)
    ensures
        r == root_excluded(p@, exclusions.deep_view()),
{
    let ghost excl = exclusions.deep_view();
    let seg = first_segment_str(p);
    let n = exclusions.len();
    let mut i: usize = 0;
    while i < n
        invariant
            n == excl.len(),
            excl == exclusions.deep_view(),
            i <= n,
            seg@ == first_segment(p@),
            forall|j: int| 0 <= j < i ==> excl[j] != first_segment(p@),
        decreases n - i,
    {
        if exclusions[i] == seg {
            proof {
                assert(root_excluded(p@, excl)) by {
                    assert(excl[i as int] == first_segment(p@));
                }
            }
            return true;
        }
        i = i + 1;
    }
    proof {
        if root_excluded(p@, excl) {
            let w = choose|w: int| 0 <= w < excl.len() && excl[w] == first_segment(p@);
            assert(excl[w] != first_segment(p@));
        }
    }
    false
}

/// Enumerates the relative paths of the tree that a build would hash:
/// every file except those skipped by the root-level exclusion rule, in
/// tree order.
pub fn walk(files: &Vec<TreeFile>, exclusions: &Vec<String>) -> (paths: Vec<String>)
    ensures
        paths.deep_view() == included_paths(files.deep_view(), exclusions.deep_view()),
{
    let ghost t = files.deep_view();
    let ghost excl = exclusions.deep_view();
    let n = files.len();
    let mut paths: Vec<String> = Vec::new();
    let mut i: usize = 0;
    while i < n
        invariant
            n == t.len(),
            t == files.deep_view(),
            excl == exclusions.deep_view(),
            i <= n,
            paths.deep_view() == included_paths(t.subrange(0, i as int), excl),
        decreases n - i,
    {
        let ghost prev = paths.deep_view();
        if !is_root_excluded(files[i].rel_path.as_str(), exclusions) {
            paths.push(files[i].rel_path.clone());
        }
        proof {
            assert(t.subrange(0, i + 1) =~= t.subrange(0, i as int).push(t[i as int]));
            lemma_included_snoc(t.subrange(0, i as int), excl, t[i as int]);
            if !root_excluded(t[i as int].path, excl) {
                assert(paths.deep_view() =~= prev.push(t[i as int].path));
                assert(included_paths(t.subrange(0, i + 1), excl) =~= included_paths(
                    t.subrange(0, i as int),
                    excl,
                ).push(t[i as int].path));
            }
        }
        i = i + 1;
    }
    proof {
        assert(t.subrange(0, n as int) =~= t);
    }
    paths
}

/// The manifest record for one file: leaf name, relative path, and the
/// digest of the content.
pub fn manifest_entry_of(f: &TreeFile) -> (r: FileChecksum)
    ensures
        r@ == entry_of_file(f@),
{
    FileChecksum {
        name: leaf_name_str(f.rel_path.as_str()),
        file_path: f.rel_path.clone(),
        checksum: hash_bytes(f.content.as_slice()),
    }
}

/// Relies on rayon's `par_iter`/`map`/`collect`: the records come back in
/// input order, one per file, each computed by [`manifest_entry_of`]; the
/// pool is bounded by the available parallelism.
#[verifier::external_body]
fn par_manifest_entries(files: &Vec<&TreeFile>) -> (r: Vec<FileChecksum>)
    ensures
        r@.len() == files@.len(),
        forall|i: int| 0 <= i < r@.len() ==> (#[trigger] r@[i])@ == entry_of_file(files@[i]@),
{
    files.par_iter().map(|f| manifest_entry_of(f)).collect()
}

/// Builds the manifest of a local tree: every file not excluded at the
/// root, hashed in parallel, one record per file in tree order.
pub fn build_manifest(files: &Vec<TreeFile>, exclusions: &Vec<String>) -> (entries: Vec<
    FileChecksum,
>)
    requires
        tree_wf(files.deep_view()),
    ensures
        entries.deep_view() == build_model(files.deep_view(), exclusions.deep_view()),
        manifest_wf(entries.deep_view()),
{
    let ghost t = files.deep_view();
    let ghost excl = exclusions.deep_view();
    let n = files.len();
    let mut selected: Vec<&TreeFile> = Vec::new();
    let mut i: usize = 0;
    while i < n
        invariant
            n == t.len(),
            t == files.deep_view(),
            excl == exclusions.deep_view(),
            i <= n,
            selected.deep_view() == included_files(t.subrange(0, i as int), excl),
        decreases n - i,
    {
        let ghost prev = selected.deep_view();
        if !is_root_excluded(files[i].rel_path.as_str(), exclusions) {
            selected.push(&files[i]);
        }
        proof {
            assert(t.subrange(0, i + 1) =~= t.subrange(0, i as int).push(t[i as int]));
            lemma_included_snoc(t.subrange(0, i as int), excl, t[i as int]);
            if !root_excluded(t[i as int].path, excl) {
                assert(selected.deep_view() =~= prev.push(t[i as int]));
            }
        }
        i = i + 1;
    }
    proof {
        assert(t.subrange(0, n as int) =~= t);
    }
    let entries = par_manifest_entries(&selected);
    proof {
        assert(entries.deep_view() =~= build_model(t, excl));
        lemma_build_model_wf(t, excl);
    }
    entries
}

/// A well-formed tree builds a well-formed manifest.
pub proof fn lemma_build_model_wf(t: Seq<FileModel>, excl: Seq<Seq<char>>)
    requires
        tree_wf(t),
    ensures
        manifest_wf(build_model(t, excl)),
    decreases t.len(),
{
    let bm = build_model(t, excl);
    lemma_included_sub(t, excl);
    assert forall|i: int| 0 <= i < bm.len() implies crate::manifest::entry_wf(#[trigger] bm[i]) by {
        let f = included_files(t, excl)[i];
        let w = choose|w: int| 0 <= w < t.len() && t[w] == f;
        assert(path_wf(f.path));
        lemma_leaf_name_safe(f.path);
        lemma_hex_of_json_safe(crate::digest::sha256_of(f.content));
    }
    assert forall|i: int, j: int| 0 <= i < j < bm.len() implies (#[trigger] bm[i]).path != (
    #[trigger] bm[j]).path by {
        lemma_included_distinct(t, excl, i, j);
    }
}

/// Every included file is a file of the tree.
proof fn lemma_included_sub(t: Seq<FileModel>, excl: Seq<Seq<char>>)
    ensures
        forall|i: int|
            0 <= i < included_files(t, excl).len() ==> exists|w: int|
                0 <= w < t.len() && t[w] == #[trigger] included_files(t, excl)[i],
    decreases t.len(),
{
    if t.len() > 0 {
        lemma_included_sub(t.drop_first(), excl);
        assert forall|i: int| 0 <= i < included_files(t, excl).len() implies exists|w: int|
            0 <= w < t.len() && t[w] == #[trigger] included_files(t, excl)[i] by {
            let inc = included_files(t, excl);
            let rest = included_files(t.drop_first(), excl);
            if root_excluded(t[0].path, excl) {
                let w0 = choose|w0: int| 0 <= w0 < t.drop_first().len() && t.drop_first()[w0] == inc[i];
                assert(t[w0 + 1] == inc[i]);
            } else if i == 0 {
                assert(t[0] == inc[0]);
            } else {
                assert(inc[i] == rest[i - 1]);
                let w0 = choose|w0: int|
                    0 <= w0 < t.drop_first().len() && t.drop_first()[w0] == rest[i - 1];
                assert(t[w0 + 1] == inc[i]);
            }
        }
    }
}

/// Included files at distinct positions have distinct paths when the tree
/// is well-formed.
proof fn lemma_included_distinct(t: Seq<FileModel>, excl: Seq<Seq<char>>, i: int, j: int)
    requires
        tree_wf(t),
        0 <= i < j < included_files(t, excl).len(),
    ensures
        included_files(t, excl)[i].path != included_files(t, excl)[j].path,
    decreases t.len(),
{
    let inc = included_files(t, excl);
    let rest = included_files(t.drop_first(), excl);
    assert(tree_wf(t.drop_first())) by {
        assert forall|a: int, b: int|
            0 <= a < b < t.drop_first().len() implies (#[trigger] t.drop_first()[a]).path != (
        #[trigger] t.drop_first()[b]).path by {
            assert(t[a + 1].path != t[b + 1].path);
        }
        assert forall|a: int| 0 <= a < t.drop_first().len() implies path_wf(
            (#[trigger] t.drop_first()[a]).path,
        ) by {
            assert(path_wf(t[a + 1].path));
        }
    }
    if root_excluded(t[0].path, excl) {
        lemma_included_distinct(t.drop_first(), excl, i, j);
    } else if i == 0 {
        lemma_included_sub(t.drop_first(), excl);
        let w = choose|w: int| 0 <= w < t.drop_first().len() && t.drop_first()[w] == rest[j - 1];
        assert(t[0].path != t[w + 1].path);
    } else {
        lemma_included_distinct(t.drop_first(), excl, i - 1, j - 1);
    }
}

/// The leaf name of a safe path is safe: it is a part of the path.
proof fn lemma_leaf_name_safe(p: Seq<char>)
    requires
        json_safe(p),
    ensures
        json_safe(leaf_name(p)),
{
    crate::text::lemma_last_slash(p);
    assert forall|i: int| 0 <= i < leaf_name(p).len() implies json_safe_char(
        #[trigger] leaf_name(p)[i],
    ) by {
        assert(leaf_name(p)[i] == p[crate::text::last_slash(p) + 1 + i]);
    }
}

/// Looking a path up in the built manifest: present exactly when the tree
/// holds the path and the exclusion rule keeps it, and then with the
/// digest of that file's content.
pub proof fn lemma_build_lookup(t: Seq<FileModel>, excl: Seq<Seq<char>>, p: Seq<char>)
    requires
        tree_wf(t),
    ensures
        match tree_lookup(t, p) {
            Some(c) => lookup(build_model(t, excl), p) == if root_excluded(p, excl) {
                Option::<Seq<char>>::None
            } else {
                Option::<Seq<char>>::Some(digest_hex(c))
            },
            None => lookup(build_model(t, excl), p) is None,
        },
    decreases t.len(),
{
    if t.len() > 0 {
        assert(tree_wf(t.drop_first())) by {
            assert forall|a: int, b: int|
                0 <= a < b < t.drop_first().len() implies (#[trigger] t.drop_first()[a]).path != (
            #[trigger] t.drop_first()[b]).path by {
                assert(t[a + 1].path != t[b + 1].path);
            }
            assert forall|a: int| 0 <= a < t.drop_first().len() implies path_wf(
                (#[trigger] t.drop_first()[a]).path,
            ) by {
                assert(path_wf(t[a + 1].path));
            }
        }
        lemma_build_lookup(t.drop_first(), excl, p);
        let bm = build_model(t, excl);
        let bm_rest = build_model(t.drop_first(), excl);
        if root_excluded(t[0].path, excl) {
            assert(bm =~= bm_rest);
            if t[0].path == p {
                // the path is excluded; it cannot reappear deeper in the tree
                assert(tree_lookup(t, p) == Some(t[0].content));
                assert forall|k: int| 0 <= k < t.drop_first().len() implies (
                #[trigger] t.drop_first()[k]).path != p by {
                    assert(t[k + 1].path != t[0].path);
                }
                lemma_tree_lookup_none(t.drop_first(), p);
            }
        } else {
            assert(bm =~= seq![entry_of_file(t[0])] + bm_rest);
            assert(bm[0] == entry_of_file(t[0]));
            assert(bm.drop_first() =~= bm_rest);
            if t[0].path == p {
                assert(lookup(bm, p) == Some(digest_hex(t[0].content)));
            }
        }
    }
}

/// A path that no file of the tree carries is absent from lookups.
proof fn lemma_tree_lookup_none(t: Seq<FileModel>, p: Seq<char>)
    requires
        forall|i: int| 0 <= i < t.len() ==> (#[trigger] t[i]).path != p,
    ensures
        tree_lookup(t, p) is None,
    decreases t.len(),
{
    if t.len() > 0 {
        assert forall|i: int| 0 <= i < t.drop_first().len() implies (
        #[trigger] t.drop_first()[i]).path != p by {
            assert(t[i + 1].path != p);
        }
        lemma_tree_lookup_none(t.drop_first(), p);
    }
}

/// Exclusion scoping: a path whose first segment is excluded is absent
/// from the built manifest, whatever the tree holds; every file the tree
/// holds at a path that is not excluded is present.
pub proof fn lemma_exclusion_scoping(t: Seq<FileModel>, excl: Seq<Seq<char>>)
    requires
        tree_wf(t),
    ensures
        forall|p: Seq<char>|
            #[trigger] root_excluded(p, excl) ==> lookup(build_model(t, excl), p) is None,
        forall|p: Seq<char>|
            #[trigger] tree_lookup(t, p) is Some && !root_excluded(p, excl) ==> lookup(
                build_model(t, excl),
                p,
            ) is Some,
{
    assert forall|p: Seq<char>| #[trigger] root_excluded(p, excl) implies lookup(
        build_model(t, excl),
        p,
    ) is None by {
        lemma_build_lookup(t, excl, p);
    }
    assert forall|p: Seq<char>|
        #[trigger] tree_lookup(t, p) is Some && !root_excluded(p, excl) implies lookup(
        build_model(t, excl),
        p,
    ) is Some by {
        lemma_build_lookup(t, excl, p);
    }
}


/// A tree holds a path if and only if some file carries it.
pub proof fn lemma_tree_lookup_cases(t: Seq<FileModel>, path: Seq<char>)
    ensures
        match tree_lookup(t, path) {
            Some(c) => exists|i: int|
                0 <= i < t.len() && (#[trigger] t[i]).path == path && t[i].content == c,
            None => forall|i: int| 0 <= i < t.len() ==> (#[trigger] t[i]).path != path,
        },
    decreases t.len(),
{
    if t.len() > 0 && t[0].path != path {
        lemma_tree_lookup_cases(t.drop_first(), path);
        match tree_lookup(t, path) {
            Some(c) => {
                let i = choose|i: int|
                    0 <= i < t.drop_first().len() && (#[trigger] t.drop_first()[i]).path == path
                        && t.drop_first()[i].content == c;
                assert(t[i + 1].path == path && t[i + 1].content == c);
            },
            None => {
                assert forall|i: int| 0 <= i < t.len() implies (#[trigger] t[i]).path != path by {
                    if i > 0 {
                        assert(t.drop_first()[i - 1].path != path);
                    }
                }
            },
        }
    }
}

/// Each file of a tree with distinct paths is what lookup on its path
/// finds.
pub proof fn lemma_tree_lookup_at(t: Seq<FileModel>, i: int)
    requires
        forall|a: int, b: int|
            0 <= a < b < t.len() ==> (#[trigger] t[a]).path != (#[trigger] t[b]).path,
        0 <= i < t.len(),
    ensures
        tree_lookup(t, t[i].path) == Some(t[i].content),
    decreases t.len(),
{
    if i > 0 {
        assert(t[0].path != t[i].path);
        assert forall|a: int, b: int|
            0 <= a < b < t.drop_first().len() implies (#[trigger] t.drop_first()[a]).path != (
        #[trigger] t.drop_first()[b]).path by {
            assert(t[a + 1].path != t[b + 1].path);
        }
        lemma_tree_lookup_at(t.drop_first(), i - 1);
    }
}

/// Finds the file at a path, scanning the tree in order.
pub fn tree_find(files: &Vec<TreeFile>, path: &String) -> (r: Option<usize>)
    ensures
        match r {
            Some(i) => i < files@.len() && files@[i as int]@.path == path@ && tree_lookup(
                files.deep_view(),
                path@,
            ) == Some(files@[i as int]@.content),
            None => tree_lookup(files.deep_view(), path@) is None,
        },
{
    let ghost t = files.deep_view();
    let n = files.len();
    let mut i: usize = 0;
    while i < n
        invariant
            n == t.len(),
            t == files.deep_view(),
            i <= n,
            forall|j: int| 0 <= j < i ==> (#[trigger] t[j]).path != path@,
        decreases n - i,
    {
        if files[i].rel_path == *path {
            proof {
                lemma_tree_find_prefix(t, path@, i as int);
            }
            return Some(i);
        }
        i = i + 1;
    }
    proof {
        lemma_tree_lookup_cases(t, path@);
        if tree_lookup(t, path@) is Some {
            let w = choose|w: int| 0 <= w < t.len() && (#[trigger] t[w]).path == path@;
            assert(t[w].path != path@);
        }
    }
    None
}

/// If no file before position `i` carries the path and the file at `i`
/// does, lookup finds the file at `i`.
proof fn lemma_tree_find_prefix(t: Seq<FileModel>, path: Seq<char>, i: int)
    requires
        0 <= i < t.len(),
        t[i].path == path,
        forall|j: int| 0 <= j < i ==> (#[trigger] t[j]).path != path,
    ensures
        tree_lookup(t, path) == Some(t[i].content),
    decreases i,
{
    if i > 0 {
        assert forall|j: int| 0 <= j < i - 1 implies (#[trigger] t.drop_first()[j]).path
            != path by {
            assert(t[j + 1].path != path);
        }
        lemma_tree_find_prefix(t.drop_first(), path, i - 1);
    }
}

} // verus!
