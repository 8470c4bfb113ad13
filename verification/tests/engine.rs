use manifest_sync::diff::{diff, SyncAction};
use manifest_sync::digest::hash_bytes;
use manifest_sync::manifest::{find_entry, manifest_is_wf, FileChecksum};
use manifest_sync::sync::{apply_plan, pending_deletes, pending_downloads, settle_action,
    start_action, summarize_outcomes, ActionState, SyncOutcome};
use manifest_sync::text::normalize_separators;
use manifest_sync::tree::{build_manifest, is_root_excluded, walk, TreeFile};

fn entry(name: &str, path: &str, digest: &str) -> FileChecksum {
    FileChecksum { name: name.to_string(), file_path: path.to_string(), checksum: digest.to_string() }
}

fn tree_file(path: &str, content: &str) -> TreeFile {
    TreeFile { rel_path: path.to_string(), content: content.as_bytes().to_vec() }
}

fn action_path(a: &SyncAction) -> &str {
    match a {
        SyncAction::Add { path, .. } => path,
        SyncAction::Update { path, .. } => path,
        SyncAction::Delete { path } => path,
        SyncAction::Unchanged { path } => path,
    }
}

#[test]
fn diff_of_manifest_with_itself_plans_nothing() {
    let m = vec![
        entry("a.txt", "a.txt", "d1"),
        entry("b.txt", "sub/b.txt", "d2"),
        entry("c.txt", "sub/deeper/c.txt", "d3"),
    ];
    let plan = diff(&m, &m);
    assert_eq!(plan.len(), 3);
    for a in &plan {
        assert!(matches!(a, SyncAction::Unchanged { .. }));
    }
}

#[test]
fn diff_covers_every_path_of_the_union_exactly_once() {
    let local = vec![entry("a", "a", "1"), entry("b", "b", "2"), entry("c", "c", "3")];
    let remote = vec![entry("b", "b", "2x"), entry("c", "c", "3"), entry("d", "d", "4")];
    let plan = diff(&local, &remote);
    let mut paths: Vec<&str> = plan.iter().map(action_path).collect();
    paths.sort();
    assert_eq!(paths, vec!["a", "b", "c", "d"]);
}

#[test]
fn diff_classifies_add_update_delete_unchanged() {
    let local = vec![entry("a", "a", "1"), entry("b", "b", "2"), entry("c", "c", "3")];
    let remote = vec![entry("b", "b", "2x"), entry("c", "c", "3"), entry("d", "d", "4")];
    let plan = diff(&local, &remote);
    for a in &plan {
        match a {
            SyncAction::Delete { path } => assert_eq!(path, "a"),
            SyncAction::Update { path, remote_digest } => {
                assert_eq!(path, "b");
                assert_eq!(remote_digest, "2x");
            }
            SyncAction::Unchanged { path } => assert_eq!(path, "c"),
            SyncAction::Add { path, remote_digest } => {
                assert_eq!(path, "d");
                assert_eq!(remote_digest, "4");
            }
        }
    }
}

#[test]
fn diff_compares_digests_case_insensitively() {
    let local = vec![entry("a", "a", "9f2a")];
    let remote = vec![entry("a", "a", "9F2A")];
    let plan = diff(&local, &remote);
    assert_eq!(plan.len(), 1);
    assert!(matches!(&plan[0], SyncAction::Unchanged { .. }));
}

#[test]
fn expected_plan_for_two_sided_scenario() {
    // local: a.txt (d1), b.txt (d2); remote: a.txt (d1), c.txt (d3)
    let local = vec![entry("a.txt", "a.txt", "d1"), entry("b.txt", "b.txt", "d2")];
    let remote = vec![entry("a.txt", "a.txt", "d1"), entry("c.txt", "c.txt", "d3")];
    let plan = diff(&local, &remote);
    assert_eq!(plan.len(), 3);
    let mut saw_unchanged_a = false;
    let mut saw_delete_b = false;
    let mut saw_add_c = false;
    for a in &plan {
        match a {
            SyncAction::Unchanged { path } => {
                assert_eq!(path, "a.txt");
                saw_unchanged_a = true;
            }
            SyncAction::Delete { path } => {
                assert_eq!(path, "b.txt");
                saw_delete_b = true;
            }
            SyncAction::Add { path, remote_digest } => {
                assert_eq!(path, "c.txt");
                assert_eq!(remote_digest, "d3");
                saw_add_c = true;
            }
            SyncAction::Update { .. } => panic!("no update expected"),
        }
    }
    assert!(saw_unchanged_a && saw_delete_b && saw_add_c);
}

#[test]
fn walk_skips_excluded_names_only_at_the_root() {
    let files = vec![
        tree_file("checksums.json", "root manifest"),
        tree_file("charts/checksums.json", "nested manifest"),
        tree_file("charts/song/track.mp3", "audio"),
    ];
    let excl = vec!["checksums.json".to_string()];
    let paths = walk(&files, &excl);
    assert_eq!(paths, vec!["charts/checksums.json".to_string(), "charts/song/track.mp3".to_string()]);
}

#[test]
fn excluding_a_directory_name_skips_its_subtree() {
    let files = vec![
        tree_file("cache/tmp.bin", "x"),
        tree_file("data/cache", "a file that only shares the name"),
    ];
    let excl = vec!["cache".to_string()];
    let paths = walk(&files, &excl);
    assert_eq!(paths, vec!["data/cache".to_string()]);
    assert!(is_root_excluded("cache/tmp.bin", &excl));
    assert!(!is_root_excluded("data/cache", &excl));
}

#[test]
fn built_manifest_honours_root_exclusions() {
    // exclusions ["checksums.json"]: the root-level file is skipped, the
    // nested one is hashed
    let files = vec![
        tree_file("checksums.json", "root manifest"),
        tree_file("charts/checksums.json", "nested manifest"),
    ];
    let excl = vec!["checksums.json".to_string()];
    let m = build_manifest(&files, &excl);
    assert_eq!(m.len(), 1);
    assert_eq!(m[0].file_path, "charts/checksums.json");
    assert_eq!(m[0].name, "checksums.json");
    assert_eq!(m[0].checksum, hash_bytes("nested manifest".as_bytes()));
}

#[test]
fn built_manifest_records_leaf_name_and_digest() {
    let files = vec![tree_file("a/b/c.txt", "hello")];
    let m = build_manifest(&files, &Vec::new());
    assert_eq!(m.len(), 1);
    assert_eq!(m[0].name, "c.txt");
    assert_eq!(m[0].file_path, "a/b/c.txt");
    assert_eq!(m[0].checksum, hash_bytes(b"hello"));
    assert!(manifest_is_wf(&m));
}

#[test]
fn find_entry_locates_paths() {
    let m = vec![entry("a", "a", "1"), entry("b", "x/b", "2")];
    assert_eq!(find_entry(&m, &"x/b".to_string()), Some(1));
    assert_eq!(find_entry(&m, &"missing".to_string()), None);
}

#[test]
fn apply_then_diff_leaves_nothing_to_do() {
    // local tree has a.txt and b.txt; remote keeps a.txt, drops b.txt and
    // adds c.txt
    let files = vec![tree_file("a.txt", "alpha"), tree_file("b.txt", "beta")];
    let excl: Vec<String> = Vec::new();
    let local = build_manifest(&files, &excl);
    let remote = vec![
        entry("a.txt", "a.txt", &hash_bytes(b"alpha")),
        entry("c.txt", "c.txt", &hash_bytes(b"gamma")),
    ];
    let plan = diff(&local, &remote);
    let fetched = vec![tree_file("c.txt", "gamma")];
    let new_tree = apply_plan(&files, &plan, fetched);
    let rebuilt = build_manifest(&new_tree, &excl);
    let second = diff(&rebuilt, &remote);
    assert_eq!(second.len(), 2);
    for a in &second {
        assert!(matches!(a, SyncAction::Unchanged { .. }));
    }
}

#[test]
fn apply_plan_deletes_and_replaces() {
    let files = vec![tree_file("keep", "old"), tree_file("gone", "bye"), tree_file("upd", "v1")];
    let local = build_manifest(&files, &Vec::new());
    let remote = vec![
        entry("keep", "keep", &hash_bytes(b"old")),
        entry("upd", "upd", &hash_bytes(b"v2")),
    ];
    let plan = diff(&local, &remote);
    let fetched = vec![tree_file("upd", "v2")];
    let new_tree = apply_plan(&files, &plan, fetched);
    let mut paths: Vec<String> = new_tree.iter().map(|f| f.rel_path.clone()).collect();
    paths.sort();
    assert_eq!(paths, vec!["keep".to_string(), "upd".to_string()]);
    for f in &new_tree {
        if f.rel_path == "upd" {
            assert_eq!(f.content, b"v2".to_vec());
        }
    }
}

#[test]
fn pending_work_splits_downloads_and_deletes() {
    let local = vec![entry("a", "a", "1"), entry("b", "b", "2")];
    let remote = vec![entry("b", "b", "2x"), entry("c", "c", "3")];
    let plan = diff(&local, &remote);
    let downloads = pending_downloads(&plan);
    let deletes = pending_deletes(&plan);
    let dl_paths: Vec<&str> = downloads.iter().map(action_path).collect();
    assert_eq!(dl_paths, vec!["b", "c"]);
    assert_eq!(deletes, vec!["a".to_string()]);
}

#[test]
fn report_separates_successes_from_failures() {
    let outcomes = vec![
        SyncOutcome { path: "a".to_string(), error: None },
        SyncOutcome { path: "b".to_string(), error: Some("timeout".to_string()) },
        SyncOutcome { path: "c".to_string(), error: None },
    ];
    let report = summarize_outcomes(&outcomes);
    assert_eq!(report.succeeded, vec!["a".to_string(), "c".to_string()]);
    assert_eq!(report.failed.len(), 1);
    assert_eq!(report.failed[0].path, "b");
    assert_eq!(report.failed[0].reason, "timeout");
}

#[test]
fn manifest_wf_rejects_duplicates_and_bad_paths() {
    let dup = vec![entry("a", "a", "1"), entry("a2", "a", "2")];
    assert!(!manifest_is_wf(&dup));
    let dotdot = vec![entry("a", "../a", "1")];
    assert!(!manifest_is_wf(&dotdot));
    let absolute = vec![entry("a", "/a", "1")];
    assert!(!manifest_is_wf(&absolute));
    let ok = vec![entry("a", "a", "1"), entry("a2", "b/a", "2")];
    assert!(manifest_is_wf(&ok));
}

#[test]
fn an_action_settles_once_and_stays_settled() {
    let s = start_action(ActionState::Pending);
    assert_eq!(s, ActionState::InFlight);
    assert_eq!(settle_action(s, true), ActionState::Applied);
    assert_eq!(settle_action(s, false), ActionState::Failed);
    assert_eq!(settle_action(ActionState::Applied, false), ActionState::Applied);
    assert_eq!(settle_action(ActionState::Failed, true), ActionState::Failed);
}

#[test]
fn separators_normalize_to_forward_slashes() {
    assert_eq!(normalize_separators("charts\\song\\a.mp3"), "charts/song/a.mp3");
    assert_eq!(normalize_separators("already/posix"), "already/posix");
    assert_eq!(normalize_separators(""), "");
}

#[test]
fn empty_manifests_diff_to_an_empty_plan() {
    let empty: Vec<FileChecksum> = Vec::new();
    assert!(diff(&empty, &empty).is_empty());
    let files: Vec<TreeFile> = Vec::new();
    assert!(build_manifest(&files, &Vec::new()).is_empty());
}
