use my_svn::commit::{
    build_tree, encode_commit, encode_tree, make_commit, read_commit_from_hash, CommitObject, TreeData, TreeDataType,
};
use my_svn::diff::{myers_diff, plan_diff, DiffAction, DiffChange, FileView};
use my_svn::file_map::FileMap;
use my_svn::graph::{find_base_commit, CommitGraph};
use my_svn::log::LogState;
use my_svn::hash::hash_bytes;
use my_svn::parser::{parse_args, Command};
use my_svn::path::FileInfo;

fn strings(v: &[&str]) -> Vec<String> {
    v.iter().map(|s| s.to_string()).collect()
}

fn graph(edges: &[(&str, &[&str])]) -> CommitGraph {
    let mut g = CommitGraph::new();
    for (h, ps) in edges {
        g.add(h.to_string(), strings(ps));
    }
    g
}

#[test]
fn myers_diff_of_three_lines() {
    let old = FileView::new(b"a\nb\nc\n".to_vec());
    let new = FileView::new(b"a\nc\nd\n".to_vec());
    let script = myers_diff(&old, &new);
    assert_eq!(
        script,
        vec![
            DiffChange::Keep("a".to_string()),
            DiffChange::Delete("b".to_string()),
            DiffChange::Keep("c".to_string()),
            DiffChange::Insert("d".to_string()),
        ]
    );
}

#[test]
fn myers_diff_of_equal_and_empty_files() {
    let a = FileView::new(b"x\ny".to_vec());
    let b = FileView::new(b"x\ny\n".to_vec());
    let script = myers_diff(&a, &b);
    assert!(script.iter().all(|c| matches!(c, DiffChange::Keep(_))));
    let empty = FileView::new(Vec::new());
    let script = myers_diff(&empty, &a);
    assert_eq!(script, vec![DiffChange::Insert("x".to_string()), DiffChange::Insert("y".to_string())]);
    let script = myers_diff(&a, &empty);
    assert_eq!(script, vec![DiffChange::Delete("x".to_string()), DiffChange::Delete("y".to_string())]);
}

#[test]
fn file_view_splits_lines() {
    let v = FileView::new(b"one\n\nthree".to_vec());
    assert_eq!(v.len(), 3);
    assert_eq!(v.get_line(0), "one");
    assert_eq!(v.get_line(1), "");
    assert_eq!(v.get_line(2), "three");
    assert_eq!(FileView::new(b"\n".to_vec()).len(), 1);
}

#[test]
fn merge_base_of_branches() {
    let g = graph(&[("c1", &[]), ("c2", &["c1"]), ("c3", &["c1"]), ("m", &["c2", "c3"])]);
    let a = "c2".to_string();
    let b = "c3".to_string();
    assert_eq!(find_base_commit(&a, &b, &g), Ok(Some("c1".to_string())));
    assert_eq!(find_base_commit(&b, &a, &g), Ok(Some("c1".to_string())));
    assert_eq!(find_base_commit(&"m".to_string(), &a, &g), Ok(Some("c2".to_string())));
}

#[test]
fn merge_base_of_disjoint_histories() {
    let g = graph(&[("a1", &[""]), ("b1", &[])]);
    assert_eq!(find_base_commit(&"a1".to_string(), &"b1".to_string(), &g), Ok(None));
    assert_eq!(find_base_commit(&String::new(), &"b1".to_string(), &g), Ok(None));
    assert_eq!(find_base_commit(&"a1".to_string(), &"zz".to_string(), &g), Err("zz".to_string()));
}

#[test]
fn merge_base_survives_cycles() {
    let g = graph(&[("x", &["y"]), ("y", &["x"]), ("z", &[])]);
    assert_eq!(find_base_commit(&"x".to_string(), &"z".to_string(), &g), Ok(None));
}

#[test]
fn tree_and_commit_encoding() {
    let entries = vec![
        TreeData { data_type: TreeDataType::File, name: "a.txt".to_string(), hash: "h".to_string(), timestamp: Some(3) },
        TreeData { data_type: TreeDataType::Folder, name: "d".to_string(), hash: "t".to_string(), timestamp: None },
    ];
    assert_eq!(
        encode_tree(&entries),
        "[{\"data_type\":\"File\",\"name\":\"a.txt\",\"hash\":\"h\",\"timestamp\":3},{\"data_type\":\"Folder\",\"name\":\"d\",\"hash\":\"t\",\"timestamp\":null}]"
    );
    let c = CommitObject {
        tree: "t".to_string(),
        parent: Some(vec!["p1".to_string(), "p2".to_string()]),
        message: "say \"hi\"".to_string(),
        timestamp: 42,
    };
    assert_eq!(
        encode_commit(&c),
        "{\"tree\":\"t\",\"parent\":[\"p1\",\"p2\"],\"message\":\"say \\\"hi\\\"\",\"timestamp\":42}"
    );
}

#[test]
fn first_commit_has_no_parent() {
    let (c, obj) = make_commit("t".to_string(), &String::new(), &String::new(), "init".to_string(), 7);
    assert!(c.parent.is_none());
    assert_eq!(obj.content, "{\"tree\":\"t\",\"parent\":null,\"message\":\"init\",\"timestamp\":7}");
    assert_eq!(obj.hash, hash_bytes(obj.content.as_bytes()));
    let (m, _) = make_commit("t".to_string(), &"a".to_string(), &"b".to_string(), "Merge branch f".to_string(), 8);
    assert_eq!(m.parent, Some(vec!["a".to_string(), "b".to_string()]));
}

fn parse_tree(json: &str) -> Vec<TreeData> {
    let v: serde_json::Value = serde_json::from_str(json).unwrap();
    v.as_array()
        .unwrap()
        .iter()
        .map(|e| TreeData {
            data_type: if e["data_type"] == "File" { TreeDataType::File } else { TreeDataType::Folder },
            name: e["name"].as_str().unwrap().to_string(),
            hash: e["hash"].as_str().unwrap().to_string(),
            timestamp: e["timestamp"].as_u64(),
        })
        .collect()
}

#[test]
fn tree_round_trip() {
    let mut index = FileMap::new();
    index.insert("b.txt".to_string(), FileInfo::new("hb".to_string(), 2));
    index.insert("d/e/c.txt".to_string(), FileInfo::new("hc".to_string(), 3));
    index.insert("a.txt".to_string(), FileInfo::new("ha".to_string(), 1));
    index.insert("d/x".to_string(), FileInfo::new("hx".to_string(), 4));
    let (root, objects) = build_tree(&index);
    assert_eq!(objects.len(), 3);
    for o in &objects {
        assert_eq!(o.hash, hash_bytes(o.content.as_bytes()));
    }
    let store: Vec<(String, Vec<TreeData>)> =
        objects.iter().map(|o| (o.hash.clone(), parse_tree(&o.content))).collect();
    let back = read_commit_from_hash(&store, &root).unwrap();
    assert_eq!(back.len(), 4);
    for (p, h, t) in [("a.txt", "ha", 1), ("b.txt", "hb", 2), ("d/e/c.txt", "hc", 3), ("d/x", "hx", 4)] {
        let info = back.get(&p.to_string()).unwrap();
        assert_eq!(info.hash, h);
        assert_eq!(info.timestamp, t);
    }
    let root_entries = parse_tree(&objects.last().unwrap().content);
    let names: Vec<&str> = root_entries.iter().map(|e| e.name.as_str()).collect();
    assert_eq!(names, vec!["a.txt", "b.txt", "d"]);
}

#[test]
fn same_snapshot_gives_same_tree_hash() {
    let mut one = FileMap::new();
    one.insert("x".to_string(), FileInfo::new("1".to_string(), 1));
    one.insert("y".to_string(), FileInfo::new("2".to_string(), 1));
    let mut two = FileMap::new();
    two.insert("y".to_string(), FileInfo::new("2".to_string(), 1));
    two.insert("x".to_string(), FileInfo::new("1".to_string(), 1));
    assert_eq!(build_tree(&one).0, build_tree(&two).0);
}

#[test]
fn missing_tree_is_an_error() {
    let store: Vec<(String, Vec<TreeData>)> = Vec::new();
    assert_eq!(read_commit_from_hash(&store, &"nope".to_string()).err(), Some("nope".to_string()));
    assert!(read_commit_from_hash(&store, &String::new()).unwrap().is_empty());
}

#[test]
fn parse_commands() {
    assert_eq!(parse_args(&strings(&["svn"])), Ok(Command::Help));
    assert_eq!(parse_args(&strings(&["svn", "init"])), Ok(Command::Init));
    assert_eq!(parse_args(&strings(&["svn", "add", "a", "b"])), Ok(Command::Add(strings(&["a", "b"]))));
    assert_eq!(parse_args(&strings(&["svn", "commit", "-m", "msg"])), Ok(Command::Commit("msg".to_string())));
    assert_eq!(parse_args(&strings(&["svn", "diff"])), Ok(Command::Diff(None)));
    assert_eq!(parse_args(&strings(&["svn", "diff", "main"])), Ok(Command::Diff(Some("main".to_string()))));
    assert_eq!(parse_args(&strings(&["svn", "checkout", "f"])), Ok(Command::Checkout("f".to_string())));
    assert_eq!(parse_args(&strings(&["svn", "branch", "f"])), Ok(Command::Branch("f".to_string())));
    assert_eq!(parse_args(&strings(&["svn", "merge", "f"])), Ok(Command::Merge("f".to_string())));
    assert_eq!(parse_args(&strings(&["svn", "bogus"])), Err("Unknown command".to_string()));
    assert_eq!(
        parse_args(&strings(&["svn", "commit", "msg"])),
        Err("The commit command requires a message! (-m \"Message\")".to_string())
    );
    assert_eq!(
        parse_args(&strings(&["svn", "add"])),
        Err("The add command requires at least one file or directory as an argument".to_string())
    );
}

#[test]
fn log_lists_newest_first_once() {
    let mut walk = LogState::new(30, "m".to_string());
    assert_eq!(walk.next(), Some((30, "m".to_string())));
    walk.reach(10, "a".to_string());
    walk.reach(20, "b".to_string());
    walk.reach(20, "c".to_string());
    assert_eq!(walk.next(), Some((20, "c".to_string())));
    walk.reach(10, "a".to_string());
    assert_eq!(walk.next(), Some((20, "b".to_string())));
    assert_eq!(walk.next(), Some((10, "a".to_string())));
    assert_eq!(walk.next(), None);
}

#[test]
fn first_commit_writes_three_objects() {
    let blob = hash_bytes(b"hello\n");
    assert_eq!(blob, "f572d396fae9206628714fb2ce00f72e94f2258f");
    let mut index = FileMap::new();
    index.insert("a.txt".to_string(), FileInfo::new(blob.clone(), 100));
    let (tree, trees) = build_tree(&index);
    assert_eq!(trees.len(), 1);
    assert_eq!(
        trees[0].content,
        "[{\"data_type\":\"File\",\"name\":\"a.txt\",\"hash\":\"f572d396fae9206628714fb2ce00f72e94f2258f\",\"timestamp\":100}]"
    );
    let (c, obj) = make_commit(tree.clone(), &String::new(), &String::new(), "init".to_string(), 200);
    assert_eq!(c.tree, tree);
    let mut names = vec![blob, tree, obj.hash.clone()];
    names.sort();
    names.dedup();
    assert_eq!(names.len(), 3);
}

#[test]
fn diff_decisions() {
    let tip = "c2".to_string();
    assert_eq!(plan_diff(&String::new(), None, None), DiffAction::NoCommits);
    assert_eq!(plan_diff(&tip, Some(None), None), DiffAction::NoSuchBranch);
    assert_eq!(plan_diff(&tip, Some(Some("c2".to_string())), None), DiffAction::SameCommit);
    assert_eq!(
        plan_diff(&tip, Some(Some("c9".to_string())), None),
        DiffAction::Compare("c2".to_string(), "c9".to_string())
    );
    assert_eq!(plan_diff(&tip, None, None), DiffAction::NoParent);
    assert_eq!(plan_diff(&tip, None, Some("c1".to_string())), DiffAction::Compare("c2".to_string(), "c1".to_string()));
}

#[test]
fn log_keeps_unlisted_commits_pending() {
    let mut walk = LogState::new(5, "t".to_string());
    walk.reach(3, "p".to_string());
    walk.reach(4, "q".to_string());
    assert_eq!(walk.next(), Some((5, "t".to_string())));
    assert_eq!(walk.pending.len(), 2);
    assert_eq!(walk.next(), Some((4, "q".to_string())));
    assert_eq!(walk.next(), Some((3, "p".to_string())));
    assert_eq!(walk.next(), None);
}
