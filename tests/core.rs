use my_svn::add::{forget_pathspec, keep_present, needs_staging, select_for_staging};
use my_svn::checkout::{plan_checkout, plan_switch, CheckoutOutcome, SwitchAction};
use my_svn::file_map::FileMap;
use my_svn::hash::hash_bytes;
use my_svn::index::{ignore_file, in_meta_dir};
use my_svn::merge::{plan_merge, MergeOutcome};
use my_svn::path::{components, format_path, is_path_within, FileInfo};
use my_svn::status::{compare_index_with_working_directory, compare_last_commit_with_index, UnstagedOutcome};

fn map_of(items: &[(&str, &str, u64)]) -> FileMap {
    let mut m = FileMap::new();
    for (p, h, t) in items {
        m.insert(p.to_string(), FileInfo::new(h.to_string(), *t));
    }
    m
}

fn sorted(v: &[String]) -> Vec<String> {
    let mut v = v.to_vec();
    v.sort();
    v
}

fn rules(r: &[&str]) -> Vec<String> {
    r.iter().map(|s| s.to_string()).collect()
}

#[test]
fn hash_of_hello_blob() {
    assert_eq!(hash_bytes(b"hello\n"), "f572d396fae9206628714fb2ce00f72e94f2258f");
}

#[test]
fn hash_of_empty_buffer() {
    assert_eq!(hash_bytes(b""), "da39a3ee5e6b4b0d3255bfef95601890afd80709");
}

#[test]
fn format_path_joins_with_separator() {
    assert_eq!(format_path(&vec!["a", "b"]), "a/b");
    assert_eq!(format_path(&vec![".my_svn", ""]), ".my_svn/");
    assert_eq!(format_path(&vec!["/root", ".my_svn", "objects", "ab"]), "/root/.my_svn/objects/ab");
    assert_eq!(format_path(&vec!["a/", "b"]), "a/b");
    assert_eq!(format_path(&vec!["a", "/abs"]), "/abs");
    assert_eq!(format_path(&vec!["", "x"]), "x");
}

#[test]
fn path_within_compares_components() {
    assert!(is_path_within("/r", "/r/a"));
    assert!(is_path_within("/r", "/r"));
    assert!(!is_path_within("/r", "/ra"));
    assert!(!is_path_within("/r/a", "/r"));
    assert!(is_path_within("/repo/", "/repo"));
    assert!(is_path_within("/repo", "/repo//a/./b"));
    assert!(!is_path_within("/repo", "/repository/a"));
    assert!(!is_path_within("repo", "/repo/a"));
    assert!(is_path_within("", "a"));
    assert_eq!(components("/a//b/./c/"), vec!["/", "a", "b", "c"]);
}

#[test]
fn ignore_rules_forms() {
    let r = rules(&["*.log", "tmp/", "exact.txt"]);
    assert!(ignore_file(&"a.log".to_string(), &r));
    assert!(ignore_file(&"tmp/x".to_string(), &r));
    assert!(ignore_file(&"exact.txt".to_string(), &r));
    assert!(ignore_file(&".my_svn/index".to_string(), &r));
    assert!(!ignore_file(&"src/m.txt".to_string(), &r));
    assert!(!ignore_file(&"tmpfile".to_string(), &r));
}

#[test]
fn add_dot_skips_ignored_files() {
    let work = map_of(&[("a.log", "", 1), ("tmp/x", "", 1), ("src/m.txt", "", 1)]);
    let index = FileMap::new();
    let r = select_for_staging(&work, &index, &rules(&["*.log", "tmp/"]), &String::new());
    assert_eq!(r.len(), 1);
    assert_eq!(r.path_at(0), "src/m.txt");
}

#[test]
fn add_skips_unchanged_timestamps() {
    let work = map_of(&[("a", "", 5), ("b", "", 7)]);
    let index = map_of(&[("a", "h", 5), ("b", "h", 6)]);
    let r = select_for_staging(&work, &index, &Vec::new(), &String::new());
    assert_eq!(r.len(), 1);
    assert_eq!(r.path_at(0), "b");
    assert!(needs_staging(&index, &"b".to_string(), 7));
    assert!(!needs_staging(&index, &"a".to_string(), 5));
    assert!(needs_staging(&index, &"c".to_string(), 5));
}

#[test]
fn add_drops_missing_files_from_index() {
    let index = map_of(&[("a", "h1", 1), ("gone", "h2", 1)]);
    let work = map_of(&[("a", "", 1)]);
    let kept = keep_present(&index, &work);
    assert_eq!(kept.len(), 1);
    assert!(kept.contains_key(&"a".to_string()));
}

#[test]
fn add_of_missing_path_matches_nothing() {
    let mut index = FileMap::new();
    assert!(!forget_pathspec(&mut index, &"nothing_here".to_string(), &String::new()));
}

#[test]
fn add_of_removed_directory_unstages_its_files() {
    let mut index = map_of(&[("d/a", "h1", 1), ("d/b", "h2", 1), ("e", "h3", 1)]);
    assert!(forget_pathspec(&mut index, &"d/".to_string(), &String::new()));
    assert_eq!(index.len(), 1);
    assert!(index.contains_key(&"e".to_string()));
    let mut index2 = map_of(&[("x", "h", 1)]);
    assert!(forget_pathspec(&mut index2, &"x".to_string(), &String::new()));
    assert!(index2.is_empty());
}

#[test]
fn file_map_insert_replace_remove() {
    let mut m = FileMap::new();
    m.insert("a".to_string(), FileInfo::new("h1".to_string(), 1));
    m.insert("a".to_string(), FileInfo::new("h2".to_string(), 2));
    assert_eq!(m.len(), 1);
    assert_eq!(m.get(&"a".to_string()).unwrap().hash, "h2");
    m.remove(&"a".to_string());
    assert!(m.get(&"a".to_string()).is_none());
}

#[test]
fn status_clean_on_empty_repository() {
    let empty = FileMap::new();
    let staged = compare_last_commit_with_index(&empty, &empty);
    assert!(staged.is_empty());
    match compare_index_with_working_directory(&empty, &empty, &Vec::new()) {
        UnstagedOutcome::Changes(c) => assert!(c.is_empty()),
        UnstagedOutcome::NeedHash(_) => panic!("nothing to hash"),
    }
}

#[test]
fn status_clean_after_commit() {
    let index = map_of(&[("a.txt", "f572d396fae9206628714fb2ce00f72e94f2258f", 10)]);
    let commit = map_of(&[("a.txt", "f572d396fae9206628714fb2ce00f72e94f2258f", 10)]);
    let work = map_of(&[("a.txt", "", 10)]);
    assert!(compare_last_commit_with_index(&index, &commit).is_empty());
    match compare_index_with_working_directory(&index, &work, &Vec::new()) {
        UnstagedOutcome::Changes(c) => assert!(c.is_empty()),
        UnstagedOutcome::NeedHash(_) => panic!("timestamps match"),
    }
}

#[test]
fn status_reports_each_category() {
    let commit = map_of(&[("kept", "h", 1), ("changed", "h1", 1), ("removed", "h", 1)]);
    let index = map_of(&[("kept", "h", 1), ("changed", "h2", 2), ("added", "h", 1), ("touched", "t", 1)]);
    let staged = compare_last_commit_with_index(&index, &commit);
    assert_eq!(sorted(&staged.new_files), vec!["added", "touched"]);
    assert_eq!(staged.modified, vec!["changed"]);
    assert_eq!(staged.deleted, vec!["removed"]);

    let work = map_of(&[("kept", "", 1), ("changed", "", 2), ("touched", "", 9), ("fresh", "", 1)]);
    match compare_index_with_working_directory(&index, &work, &Vec::new()) {
        UnstagedOutcome::NeedHash(p) => assert_eq!(p, "touched"),
        UnstagedOutcome::Changes(_) => panic!("touched needs hashing"),
    }
    let work = map_of(&[("kept", "", 1), ("changed", "", 2), ("touched", "other", 9), ("fresh", "", 1)]);
    match compare_index_with_working_directory(&index, &work, &Vec::new()) {
        UnstagedOutcome::Changes(c) => {
            assert_eq!(c.modified, vec!["touched"]);
            assert_eq!(c.deleted, vec!["added"]);
            assert_eq!(c.untracked, vec!["fresh"]);
        }
        UnstagedOutcome::NeedHash(_) => panic!("all hashed"),
    }
}

#[test]
fn merge_without_conflict_takes_both_sides() {
    let base = map_of(&[("a.txt", "h1", 1)]);
    let ours = map_of(&[("a.txt", "h1", 1), ("b.txt", "hb", 3)]);
    let theirs = map_of(&[("a.txt", "h2", 2)]);
    let work = map_of(&[("a.txt", "", 1), ("b.txt", "", 3)]);
    match plan_merge(&ours, &theirs, &base, &work) {
        MergeOutcome::Merged(plan) => {
            assert_eq!(plan.result.len(), 2);
            assert_eq!(plan.result.get(&"a.txt".to_string()).unwrap().hash, "h2");
            assert_eq!(plan.result.get(&"b.txt".to_string()).unwrap().hash, "hb");
            assert_eq!(plan.to_copy, vec!["a.txt"]);
            assert!(plan.to_delete.is_empty());
        }
        _ => panic!("expected a merge"),
    }
}

#[test]
fn merge_conflict_aborts() {
    let base = map_of(&[("a.txt", "h1", 1)]);
    let ours = map_of(&[("a.txt", "hx", 2)]);
    let theirs = map_of(&[("a.txt", "hy", 3)]);
    let work = map_of(&[("a.txt", "", 2)]);
    match plan_merge(&ours, &theirs, &base, &work) {
        MergeOutcome::Conflict(p) => assert_eq!(p, "a.txt"),
        _ => panic!("expected a conflict"),
    }
}

#[test]
fn merge_protects_uncommitted_edits() {
    let base = map_of(&[("a.txt", "h1", 1)]);
    let ours = map_of(&[("a.txt", "h1", 1)]);
    let theirs = map_of(&[("a.txt", "h2", 2)]);
    let work = map_of(&[("a.txt", "", 7)]);
    match plan_merge(&ours, &theirs, &base, &work) {
        MergeOutcome::NeedHash(p) => assert_eq!(p, "a.txt"),
        _ => panic!("expected a hash request"),
    }
    let work = map_of(&[("a.txt", "edited", 7)]);
    match plan_merge(&ours, &theirs, &base, &work) {
        MergeOutcome::Uncommitted(p) => assert_eq!(p, "a.txt"),
        _ => panic!("expected uncommitted changes"),
    }
}

#[test]
fn merge_deletes_file_removed_by_theirs() {
    let base = map_of(&[("a", "h1", 1), ("old", "ho", 1)]);
    let ours = map_of(&[("a", "h1", 1), ("old", "ho", 1)]);
    let theirs = map_of(&[("a", "h1", 1)]);
    let work = map_of(&[("a", "", 1), ("old", "", 1)]);
    match plan_merge(&ours, &theirs, &base, &work) {
        MergeOutcome::Merged(plan) => {
            assert_eq!(plan.result.len(), 1);
            assert_eq!(plan.to_delete, vec!["old"]);
            assert!(plan.to_copy.is_empty());
        }
        _ => panic!("expected a merge"),
    }
}

#[test]
fn checkout_protects_uncommitted_edits() {
    let current = map_of(&[("a.txt", "h1", 1)]);
    let target = map_of(&[("a.txt", "h2", 2)]);
    let work = map_of(&[("a.txt", "edited", 5)]);
    match plan_checkout(&current, &target, &work) {
        CheckoutOutcome::Uncommitted(p) => assert_eq!(p, "a.txt"),
        _ => panic!("expected uncommitted changes"),
    }
}

#[test]
fn checkout_refuses_edit_of_file_equal_on_both_branches() {
    let current = map_of(&[("a.txt", "h1", 1)]);
    let target = map_of(&[("a.txt", "h1", 1)]);
    let work = map_of(&[("a.txt", "", 5)]);
    match plan_checkout(&current, &target, &work) {
        CheckoutOutcome::NeedHash(p) => assert_eq!(p, "a.txt"),
        _ => panic!("the edited file must be hashed"),
    }
    let work = map_of(&[("a.txt", "edited", 5)]);
    match plan_checkout(&current, &target, &work) {
        CheckoutOutcome::Uncommitted(p) => assert_eq!(p, "a.txt"),
        _ => panic!("expected uncommitted changes"),
    }
    let work = map_of(&[("a.txt", "", 1)]);
    match plan_checkout(&current, &target, &work) {
        CheckoutOutcome::Ready(plan) => {
            assert!(plan.to_write.is_empty());
            assert!(plan.to_delete.is_empty());
        }
        _ => panic!("an unchanged file needs nothing"),
    }
}

#[test]
fn checkout_restores_missing_and_keeps_matching_untracked() {
    let current = map_of(&[("a", "h1", 1)]);
    let target = map_of(&[("a", "h2", 2), ("n", "hn", 2)]);
    let work = map_of(&[("n", "hn", 9)]);
    match plan_checkout(&current, &target, &work) {
        CheckoutOutcome::Ready(plan) => {
            assert_eq!(plan.to_write, vec!["a"]);
            assert!(plan.to_delete.is_empty());
        }
        _ => panic!("expected a plan"),
    }
}

#[test]
fn checkout_writes_and_deletes() {
    let current = map_of(&[("a", "h1", 1), ("b", "hb", 1)]);
    let target = map_of(&[("a", "h2", 2), ("c", "hc", 2)]);
    let work = map_of(&[("a", "", 1), ("b", "", 1)]);
    match plan_checkout(&current, &target, &work) {
        CheckoutOutcome::Ready(plan) => {
            assert_eq!(sorted(&plan.to_write), vec!["a", "c"]);
            assert_eq!(plan.to_delete, vec!["b"]);
        }
        _ => panic!("expected a plan"),
    }
    let work = map_of(&[("a", "", 1), ("b", "", 1), ("c", "other", 4)]);
    match plan_checkout(&current, &target, &work) {
        CheckoutOutcome::Uncommitted(p) => assert_eq!(p, "c"),
        _ => panic!("an untracked file would be overwritten"),
    }
}

#[test]
fn metadata_directory_paths() {
    assert!(in_meta_dir(&".my_svn".to_string()));
    assert!(in_meta_dir(&".my_svn/objects/ab".to_string()));
    assert!(!in_meta_dir(&".my_svnx".to_string()));
    assert!(!in_meta_dir(&"src/.my_svn".to_string()));
}

#[test]
fn status_keeps_ignored_indexed_file() {
    let index = map_of(&[("build.log", "h", 1)]);
    let work = map_of(&[("build.log", "", 1)]);
    match compare_index_with_working_directory(&index, &work, &rules(&["*.log"])) {
        UnstagedOutcome::Changes(c) => assert!(c.is_empty()),
        UnstagedOutcome::NeedHash(_) => panic!("timestamps match"),
    }
}

#[test]
fn switching_branches() {
    let main = "main".to_string();
    assert_eq!(plan_switch(&main, &"feature".to_string(), false), SwitchAction::NoSuchBranch);
    assert_eq!(plan_switch(&main, &main, true), SwitchAction::AlreadyOn);
    assert_eq!(plan_switch(&main, &"feature".to_string(), true), SwitchAction::Proceed);
}
