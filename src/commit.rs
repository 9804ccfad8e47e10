use vstd::prelude::*;
use crate::file_map::{strs, FileMap, InfoView};
use crate::path::{head_of, lemma_first_sep_bound, nested, split_first};
use crate::hash::{hash_bytes, object_hash};
use vstd::multiset::Multiset;

verus! {

/// Whether a tree entry names a file or a subdirectory.
#[derive(Debug, Clone, Copy, PartialEq, Eq, Structural)]
pub enum TreeDataType {
    File,
    Folder,
}

/// One entry of a stored tree object.
#[derive(Debug)]
pub struct TreeData {
    pub data_type: TreeDataType,
    pub name: String,
    pub hash: String,
    pub timestamp: Option<u64>,
}

/// A stored commit.
#[derive(Debug)]
pub struct CommitObject {
    pub tree: String,
    pub parent: Option<Vec<String>>,
    pub message: String,
    pub timestamp: u64,
}

/// A string written as a JSON string literal, quotes and escapes included.
pub uninterp spec fn json_string(s: Seq<char>) -> Seq<char>;

/// Relies on serde_json's `to_string` for a `str`: the JSON string literal
/// for it. Serialising a string into memory does not fail.
#[verifier::external_body]
fn json_quote(s: &str) -> (r: String)
    ensures
        r@ == json_string(s@),
{
    match serde_json::to_string(s) {
        Ok(v) => v,
        Err(_) => String::new(),
    }
}

/// The decimal digits of `n`.
pub open spec fn decimal(n: u64) -> Seq<char>
    decreases n,
{
    if n < 10 {
        seq![digit_char((n % 10) as u8)]
    } else {
        decimal(n / 10).push(digit_char((n % 10) as u8))
    }
}

pub open spec fn digit_char(d: u8) -> char {
    seq!['0', '1', '2', '3', '4', '5', '6', '7', '8', '9'][d as int]
}

/// Relies on `u64`'s `to_string`: its decimal digits.
#[verifier::external_body]
fn decimal_text(n: u64) -> (r: String)
    ensures
        r@ == decimal(n),
{
    n.to_string()
}

/// The JSON for one tree entry.
pub open spec fn entry_json(kind: TreeDataType, name: Seq<char>, hash: Seq<char>, ts: Option<u64>) -> Seq<char> {
    "{\"data_type\":\""@ + (if kind == TreeDataType::File { "File"@ } else { "Folder"@ }) + "\",\"name\":"@
        + json_string(name) + ",\"hash\":"@ + json_string(hash) + ",\"timestamp\":"@ + (match ts {
        Some(t) => decimal(t),
        None => "null"@,
    }) + "}"@
}

pub open spec fn entry_json_of(e: TreeData) -> Seq<char> {
    entry_json(e.data_type, e.name@, e.hash@, e.timestamp)
}

/// Items separated by commas.
pub open spec fn comma_list(items: Seq<Seq<char>>) -> Seq<char>
    decreases items.len(),
{
    if items.len() == 0 {
        Seq::empty()
    } else if items.len() == 1 {
        items[0]
    } else {
        comma_list(items.drop_last()) + ","@ + items.last()
    }
}

/// The JSON array that stores a tree.
pub open spec fn tree_json(entries: Seq<TreeData>) -> Seq<char> {
    "["@ + comma_list(entries.map_values(|e: TreeData| entry_json_of(e))) + "]"@
}

/// The JSON that stores a commit.
pub open spec fn commit_json(tree: Seq<char>, parent: Option<Seq<Seq<char>>>, message: Seq<char>, ts: u64) -> Seq<
    char,
> {
    "{\"tree\":"@ + json_string(tree) + ",\"parent\":"@ + (match parent {
        Some(ps) => "["@ + comma_list(ps.map_values(|p: Seq<char>| json_string(p))) + "]"@,
        None => "null"@,
    }) + ",\"message\":"@ + json_string(message) + ",\"timestamp\":"@ + decimal(ts) + "}"@
}

pub open spec fn parent_view(p: Option<Vec<String>>) -> Option<Seq<Seq<char>>> {
    match p {
        Some(v) => Some(strs(v@)),
        None => None,
    }
}

fn push_str(s: &mut String, t: &str)
    ensures
        final(s)@ == old(s)@ + t@,
{
    s.append(t);
}

fn encode_entry(e: &TreeData) -> (r: String)
    ensures
        r@ == entry_json_of(*e),
{
    let mut s = String::new();
    push_str(&mut s, "{\"data_type\":\"");
    match e.data_type {
        TreeDataType::File => push_str(&mut s, "File"),
        TreeDataType::Folder => push_str(&mut s, "Folder"),
    }
    push_str(&mut s, "\",\"name\":");
    let n = json_quote(e.name.as_str());
    push_str(&mut s, n.as_str());
    push_str(&mut s, ",\"hash\":");
    let h = json_quote(e.hash.as_str());
    push_str(&mut s, h.as_str());
    push_str(&mut s, ",\"timestamp\":");
    match e.timestamp {
        Some(t) => {
            let d = decimal_text(t);
            push_str(&mut s, d.as_str());
        },
        None => push_str(&mut s, "null"),
    }
    push_str(&mut s, "}");
    proof {
        reveal_strlit("");
    }
    assert(s@ =~= entry_json_of(*e));
    s
}

/// Serialises a tree's entries, in the given order, as a JSON array.
pub fn encode_tree(entries: &Vec<TreeData>) -> (r: String)
    ensures
        r@ == tree_json(entries@),
{
    let ghost items = entries@.map_values(|e: TreeData| entry_json_of(e));
    let mut s = String::new();
    push_str(&mut s, "[");
    let mut i: usize = 0;
    while i < entries.len()
        invariant
            i <= entries@.len(),
            items == entries@.map_values(|e: TreeData| entry_json_of(e)),
            s@ == "["@ + comma_list(items.subrange(0, i as int)),
        decreases entries@.len() - i,
    {
        if i > 0 {
            push_str(&mut s, ",");
        }
        let e = encode_entry(&entries[i]);
        push_str(&mut s, e.as_str());
        proof {
            let pre = items.subrange(0, i + 1);
            assert(pre.drop_last() =~= items.subrange(0, i as int));
            if i == 0 {
                assert(comma_list(items.subrange(0, 0)) =~= Seq::<char>::empty());
            }
        }
        i = i + 1;
    }
    push_str(&mut s, "]");
    assert(items.subrange(0, entries@.len() as int) =~= items);
    s
}

/// Serialises a commit as JSON.
pub fn encode_commit(c: &CommitObject) -> (r: String)
    ensures
        r@ == commit_json(c.tree@, parent_view(c.parent), c.message@, c.timestamp),
{
    let mut s = String::new();
    push_str(&mut s, "{\"tree\":");
    let t = json_quote(c.tree.as_str());
    push_str(&mut s, t.as_str());
    push_str(&mut s, ",\"parent\":");
    match &c.parent {
        Some(ps) => {
            let ghost items = strs(ps@).map_values(|p: Seq<char>| json_string(p));
            let ghost head = s@;
            push_str(&mut s, "[");
            let mut i: usize = 0;
            while i < ps.len()
                invariant
                    i <= ps@.len(),
                    items == strs(ps@).map_values(|p: Seq<char>| json_string(p)),
                    s@ == head + "["@ + comma_list(items.subrange(0, i as int)),
                decreases ps@.len() - i,
            {
                if i > 0 {
                    push_str(&mut s, ",");
                }
                let q = json_quote(ps[i].as_str());
                push_str(&mut s, q.as_str());
                proof {
                    let pre = items.subrange(0, i + 1);
                    assert(pre.drop_last() =~= items.subrange(0, i as int));
                    if i == 0 {
                        assert(comma_list(items.subrange(0, 0)) =~= Seq::<char>::empty());
                    }
                }
                i = i + 1;
            }
            push_str(&mut s, "]");
            assert(items.subrange(0, ps@.len() as int) =~= items);
        },
        None => push_str(&mut s, "null"),
    }
    push_str(&mut s, ",\"message\":");
    let m = json_quote(c.message.as_str());
    push_str(&mut s, m.as_str());
    push_str(&mut s, ",\"timestamp\":");
    let d = decimal_text(c.timestamp);
    push_str(&mut s, d.as_str());
    push_str(&mut s, "}");
    assert(s@ =~= commit_json(c.tree@, parent_view(c.parent), c.message@, c.timestamp));
    s
}

} // verus!

verus! {

/// An object to store under `objects/<hash>`.
#[derive(Debug)]
pub struct StoredObject {
    pub hash: String,
    pub content: String,
}

/// The object is named by the hash of its bytes.
pub open spec fn well_named(o: StoredObject) -> bool {
    o.hash@ == object_hash(vstd::utf8::encode_utf8(o.content@))
}

/// Names `content` by its hash.
pub fn store(content: String) -> (r: StoredObject)
    ensures
        well_named(r),
        r.content@ == content@,
{
    let hash = hash_bytes(content.as_str().as_bytes());
    StoredObject { hash, content }
}

/// Code-point order of strings, which is the byte order of their UTF-8.
pub open spec fn seq_less(a: Seq<char>, b: Seq<char>) -> bool
    decreases a.len(),
{
    if b.len() == 0 {
        false
    } else if a.len() == 0 {
        true
    } else if (a[0] as u32) != (b[0] as u32) {
        (a[0] as u32) < (b[0] as u32)
    } else {
        seq_less(a.drop_first(), b.drop_first())
    }
}

/// Whether `a` sorts before `b`.
pub fn str_less(a: &str, b: &str) -> (r: bool)
    ensures
        r == seq_less(a@, b@),
{
    let n = a.unicode_len();
    let m = b.unicode_len();
    let mut i: usize = 0;
    assert(a@.skip(0) =~= a@);
    assert(b@.skip(0) =~= b@);
    while i < n && i < m
        invariant
            n == a@.len(),
            m == b@.len(),
            i <= n,
            i <= m,
            seq_less(a@, b@) == seq_less(a@.skip(i as int), b@.skip(i as int)),
        decreases n - i,
    {
        let x = a.get_char(i);
        let y = b.get_char(i);
        assert(a@.skip(i as int)[0] == x);
        assert(b@.skip(i as int)[0] == y);
        if (x as u32) != (y as u32) {
            return (x as u32) < (y as u32);
        }
        assert(a@.skip(i as int).drop_first() =~= a@.skip(i + 1));
        assert(b@.skip(i as int).drop_first() =~= b@.skip(i + 1));
        i = i + 1;
    }
    i < m
}

pub open spec fn sorted_by_name(es: Seq<TreeData>) -> bool {
    forall|i: int, j: int| 0 <= i < j < es.len() ==> !seq_less(#[trigger] es[j].name@, #[trigger] es[i].name@)
}

pub proof fn lemma_less_trans(a: Seq<char>, b: Seq<char>, c: Seq<char>)
    requires
        !seq_less(b, a),
        !seq_less(c, b),
    ensures
        !seq_less(c, a),
    decreases a.len(),
{
    if a.len() > 0 && b.len() > 0 && c.len() > 0 && (a[0] as u32) == (b[0] as u32) && (b[0] as u32) == (c[0]
        as u32) {
        lemma_less_trans(a.drop_first(), b.drop_first(), c.drop_first());
    }
}

proof fn lemma_empty_multiset(s: Seq<TreeData>)
    requires
        s.len() == 0,
    ensures
        s.to_multiset() =~= Multiset::<TreeData>::empty(),
{
    assert forall|a: TreeData| s.to_multiset().count(a) == 0 by {
        vstd::seq_lib::to_multiset_contains(s, a);
    }
}

/// Orders tree entries by name.
pub fn sort_entries(entries: Vec<TreeData>) -> (r: Vec<TreeData>)
    ensures
        r@.to_multiset() == entries@.to_multiset(),
        sorted_by_name(r@),
{
    let ghost all = entries@.to_multiset();
    let mut out: Vec<TreeData> = Vec::new();
    let mut rest = entries;
    proof {
        lemma_empty_multiset(out@);
    }
    assert(out@.to_multiset().add(rest@.to_multiset()) =~= all);
    while rest.len() > 0
        invariant
            out@.to_multiset().add(rest@.to_multiset()) == all,
            sorted_by_name(out@),
        decreases rest@.len(),
    {
        let ghost rest_before = rest@;
        let e = rest.pop().unwrap();
        proof {
            assert(rest_before =~= rest@.push(e));
            vstd::seq_lib::to_multiset_build(rest@, e);
        }
        let mut pos: usize = out.len();
        while pos > 0 && str_less(e.name.as_str(), out[pos - 1].name.as_str())
            invariant
                pos <= out@.len(),
                sorted_by_name(out@),
                forall|j: int| pos <= j < out@.len() ==> seq_less(e.name@, #[trigger] out@[j].name@),
            decreases pos,
        {
            pos = pos - 1;
        }
        let ghost before = out@;
        let ghost en = e.name@;
        let ghost ev = e;
        out.insert(pos, e);
        proof {
            vstd::seq_lib::to_multiset_insert(before, pos as int, ev);
            assert(out@ == before.insert(pos as int, ev));
            assert(out@.to_multiset().add(rest@.to_multiset()) =~= all);
        }
        assert forall|i: int, j: int| 0 <= i < j < out@.len() implies !seq_less(
            #[trigger] out@[j].name@,
            #[trigger] out@[i].name@,
        ) by {
            if j < pos {
                assert(out@[i] == before[i] && out@[j] == before[j]);
            } else if j == pos {
                assert(out@[i] == before[i]);
                assert(!seq_less(en, before[pos - 1].name@));
                if i < pos - 1 {
                    lemma_less_trans(before[i].name@, before[pos - 1].name@, en);
                }
            } else if i > pos {
                assert(out@[i] == before[i - 1] && out@[j] == before[j - 1]);
            } else if i == pos {
                assert(out@[j] == before[j - 1]);
                assert(seq_less(en, before[j - 1].name@));
                lemma_no_less_both(en, before[j - 1].name@);
            } else {
                assert(out@[i] == before[i] && out@[j] == before[j - 1]);
            }
        }
    }
    proof {
        lemma_empty_multiset(rest@);
        assert(out@.to_multiset() =~= all);
    }
    out
}

pub proof fn lemma_no_less_both(a: Seq<char>, b: Seq<char>)
    requires
        seq_less(a, b),
    ensures
        !seq_less(b, a),
    decreases a.len(),
{
    if a.len() > 0 && b.len() > 0 && (a[0] as u32) == (b[0] as u32) {
        lemma_no_less_both(a.drop_first(), b.drop_first());
    }
}

} // verus!

verus! {

/// A tree entry that stands for one of the files in `paths`: the file
/// itself, or the subdirectory that holds it.
pub open spec fn entry_from(paths: Seq<Seq<char>>, infos: Seq<InfoView>, e: TreeData) -> bool {
    if e.data_type == TreeDataType::File {
        exists|i: int|
            0 <= i < paths.len() && !nested(#[trigger] paths[i]) && paths[i] == e.name@ && infos[i].0 == e.hash@
                && e.timestamp == Some(infos[i].1)
    } else {
        e.timestamp is None && exists|i: int| 0 <= i < paths.len() && nested(#[trigger] paths[i]) && head_of(paths[i]) == e.name@
    }
}

/// The file at `p` has its entry in `es`: a file entry with its hash and
/// timestamp, or the entry of the subdirectory that holds it.
pub open spec fn listed(es: Seq<TreeData>, p: Seq<char>, info: InfoView) -> bool {
    if nested(p) {
        exists|k: int| 0 <= k < es.len() && (#[trigger] es[k]).data_type == TreeDataType::Folder && es[k].name@ == head_of(p)
    } else {
        exists|k: int|
            0 <= k < es.len() && (#[trigger] es[k]).data_type == TreeDataType::File && es[k].name@ == p && es[k].hash@
                == info.0 && es[k].timestamp == Some(info.1)
    }
}

/// `es` are the entries of the directory that holds the files `paths`
/// (relative to it): every entry stands for some of the files, and every
/// file has its entry.
pub open spec fn lists_level(paths: Seq<Seq<char>>, infos: Seq<InfoView>, es: Seq<TreeData>) -> bool {
    &&& forall|k: int| 0 <= k < es.len() ==> entry_from(paths, infos, #[trigger] es[k])
    &&& forall|i: int| 0 <= i < paths.len() ==> listed(es, #[trigger] paths[i], infos[i])
}

proof fn lemma_listed_push(es: Seq<TreeData>, e: TreeData, p: Seq<char>, info: InfoView)
    requires
        listed(es, p, info),
    ensures
        listed(es.push(e), p, info),
{
    let k = if nested(p) {
        choose|k: int| 0 <= k < es.len() && (#[trigger] es[k]).data_type == TreeDataType::Folder && es[k].name@ == head_of(p)
    } else {
        choose|k: int|
            0 <= k < es.len() && (#[trigger] es[k]).data_type == TreeDataType::File && es[k].name@ == p && es[k].hash@
                == info.0 && es[k].timestamp == Some(info.1)
    };
    assert(es.push(e)[k] == es[k]);
}

proof fn lemma_same_entries(a: Seq<TreeData>, b: Seq<TreeData>, paths: Seq<Seq<char>>, infos: Seq<InfoView>)
    requires
        a.to_multiset() == b.to_multiset(),
        lists_level(paths, infos, a),
    ensures
        lists_level(paths, infos, b),
{
    assert forall|k: int| 0 <= k < b.len() implies entry_from(paths, infos, #[trigger] b[k]) by {
        vstd::seq_lib::to_multiset_contains(b, b[k]);
        vstd::seq_lib::to_multiset_contains(a, b[k]);
        assert(b.contains(b[k]));
        let j = choose|j: int| 0 <= j < a.len() && a[j] == b[k];
        assert(entry_from(paths, infos, a[j]));
    }
    assert forall|i: int| 0 <= i < paths.len() implies listed(b, #[trigger] paths[i], infos[i]) by {
        let p = paths[i];
        let info = infos[i];
        assert(listed(a, p, info));
        let k = if nested(p) {
            choose|k: int| 0 <= k < a.len() && (#[trigger] a[k]).data_type == TreeDataType::Folder && a[k].name@ == head_of(p)
        } else {
            choose|k: int|
                0 <= k < a.len() && (#[trigger] a[k]).data_type == TreeDataType::File && a[k].name@ == p && a[k].hash@
                    == info.0 && a[k].timestamp == Some(info.1)
        };
        vstd::seq_lib::to_multiset_contains(a, a[k]);
        vstd::seq_lib::to_multiset_contains(b, a[k]);
        assert(a.contains(a[k]));
        let j = choose|j: int| 0 <= j < b.len() && b[j] == a[k];
        assert(b[j] == a[k]);
    }
}

pub open spec fn item_paths(items: Seq<(String, crate::path::FileInfo)>) -> Seq<Seq<char>> {
    items.map_values(|x: (String, crate::path::FileInfo)| x.0@)
}

pub open spec fn item_infos(items: Seq<(String, crate::path::FileInfo)>) -> Seq<InfoView> {
    items.map_values(|x: (String, crate::path::FileInfo)| x.1@)
}

/// Builds the tree object for one directory from the files under it
/// (`items`, with paths relative to the directory), storing the trees of
/// its subdirectories first. Returns the directory's tree hash and its
/// entries.
fn build_dir(items: Vec<(String, crate::path::FileInfo)>, depth: usize, objects: &mut Vec<StoredObject>) -> (r: (
    String,
    Vec<TreeData>,
))
    requires
        forall|i: int| 0 <= i < items@.len() ==> (#[trigger] items@[i]).0@.len() <= depth,
        forall|i: int| 0 <= i < old(objects)@.len() ==> well_named(#[trigger] old(objects)@[i]),
    ensures
        forall|i: int| 0 <= i < final(objects)@.len() ==> well_named(#[trigger] final(objects)@[i]),
        final(objects)@.len() > old(objects)@.len(),
        (forall|i: int| 0 <= i < items@.len() ==> !nested(#[trigger] item_paths(items@)[i])) ==> final(objects)@.len()
            == old(objects)@.len() + 1,
        r.0@ == final(objects)@.last().hash@,
        final(objects)@.last().content@ == tree_json(r.1@),
        sorted_by_name(r.1@),
        lists_level(item_paths(items@), item_infos(items@), r.1@),
    decreases depth,
{
    let ghost paths = item_paths(items@);
    let ghost infos = item_infos(items@);
    let mut used: Vec<bool> = Vec::new();
    while used.len() < items.len()
        invariant
            used@.len() <= items@.len(),
            forall|j: int| 0 <= j < used@.len() ==> !used@[j],
        decreases items@.len() - used@.len(),
    {
        used.push(false);
    }
    let mut entries: Vec<TreeData> = Vec::new();
    let ghost mut grouped = false;
    let mut i: usize = 0;
    while i < items.len()
        invariant
            !grouped ==> objects@.len() == old(objects)@.len(),
            grouped ==> exists|q: int| 0 <= q < items@.len() && nested(#[trigger] paths[q]),
            used@.len() == items@.len(),
            paths == item_paths(items@),
            infos == item_infos(items@),
            i <= items@.len(),
            forall|q: int| 0 <= q < items@.len() ==> (#[trigger] items@[q]).0@.len() <= depth,
            forall|q: int| 0 <= q < objects@.len() ==> well_named(#[trigger] objects@[q]),
            objects@.len() >= old(objects)@.len(),
            forall|k: int| 0 <= k < entries@.len() ==> entry_from(paths, infos, #[trigger] entries@[k]),
            forall|q: int| 0 <= q < i ==> listed(entries@, #[trigger] paths[q], infos[q]),
            forall|q: int| 0 <= q < items@.len() && #[trigger] used@[q] ==> listed(entries@, paths[q], infos[q]),
        decreases items@.len() - i,
    {
        assert(paths[i as int] == items@[i as int].0@ && infos[i as int] == items@[i as int].1@);
        if !used[i] {
            let (head, rest) = split_first(items[i].0.as_str());
            match rest {
                None => {
                    let e = TreeData {
                        data_type: TreeDataType::File,
                        name: head,
                        hash: items[i].1.hash.clone(),
                        timestamp: Some(items[i].1.timestamp),
                    };
                    let ghost before = entries@;
                    proof {
                        assert forall|q: int| 0 <= q < i implies listed(before.push(e), #[trigger] paths[q], infos[q]) by {
                            lemma_listed_push(before, e, paths[q], infos[q]);
                        }
                        assert forall|q: int| 0 <= q < items@.len() && #[trigger] used@[q] implies listed(
                            before.push(e),
                            paths[q],
                            infos[q],
                        ) by {
                            lemma_listed_push(before, e, paths[q], infos[q]);
                        }
                        assert(before.push(e)[before.len() as int] == e);
                        lemma_first_sep_bound(paths[i as int]);
                        assert(paths[i as int].subrange(0, paths[i as int].len() as int) =~= paths[i as int]);
                        assert(e.name@ == paths[i as int]);
                        assert(e.hash@ == infos[i as int].0);
                        assert(entry_from(paths, infos, e));
                    }
                    entries.push(e);
                    assert(entries@ == before.push(e));
                    assert forall|k: int| 0 <= k < entries@.len() implies entry_from(paths, infos, #[trigger] entries@[k]) by {
                        if k < before.len() {
                            assert(entries@[k] == before[k]);
                        }
                    }
                    assert(listed(entries@, paths[i as int], infos[i as int]));
                },
                Some(first_rest) => {
                    let mut sub: Vec<(String, crate::path::FileInfo)> = Vec::new();
                    sub.push((first_rest, items[i].1.duplicate()));
                    let mut j: usize = i + 1;
                    while j < items.len()
                        invariant
                            used@.len() == items@.len(),
                            paths == item_paths(items@),
                            infos == item_infos(items@),
                            i < j <= items@.len(),
                            depth > 0,
                            nested(paths[i as int]),
                            head@ == head_of(paths[i as int]),
                            forall|q: int| 0 <= q < items@.len() ==> (#[trigger] items@[q]).0@.len() <= depth,
                            forall|q: int| 0 <= q < sub@.len() ==> (#[trigger] sub@[q]).0@.len() < depth,
                            forall|q: int|
                                0 <= q < items@.len() && #[trigger] used@[q] ==> listed(entries@, paths[q], infos[q])
                                    || (nested(paths[q]) && head_of(paths[q]) == head@),
                        decreases items@.len() - j,
                    {
                        if !used[j] {
                            let (h2, r2) = split_first(items[j].0.as_str());
                            if h2 == head {
                                if let Some(r2v) = r2 {
                                    sub.push((r2v, items[j].1.duplicate()));
                                    used.set(j, true);
                                    assert(paths[j as int] == items@[j as int].0@);
                                }
                            }
                        }
                        j = j + 1;
                    }
                    let (h, _) = build_dir(sub, depth - 1, objects);
                    let e = TreeData { data_type: TreeDataType::Folder, name: head, hash: h, timestamp: None };
                    let ghost before = entries@;
                    proof {
                        assert(nested(paths[i as int]));
                        grouped = true;
                        let ne = before.push(e);
                        assert(ne[before.len() as int] == e);
                        assert forall|q: int| 0 <= q < i + 1 implies listed(ne, #[trigger] paths[q], infos[q]) by {
                            if q < i {
                                lemma_listed_push(before, e, paths[q], infos[q]);
                            }
                        }
                        assert forall|q: int| 0 <= q < items@.len() && #[trigger] used@[q] implies listed(
                            ne,
                            paths[q],
                            infos[q],
                        ) by {
                            if listed(before, paths[q], infos[q]) {
                                lemma_listed_push(before, e, paths[q], infos[q]);
                            }
                        }
                        assert(entry_from(paths, infos, e));
                    }
                    entries.push(e);
                    assert(entries@ == before.push(e));
                    assert forall|k: int| 0 <= k < entries@.len() implies entry_from(paths, infos, #[trigger] entries@[k]) by {
                        if k < before.len() {
                            assert(entries@[k] == before[k]);
                        }
                    }
                },
            }
        } else {
            assert(used@[i as int]);
        }
        i = i + 1;
    }
    let ghost unsorted = entries@;
    let sorted = sort_entries(entries);
    proof {
        lemma_same_entries(unsorted, sorted@, paths, infos);
    }
    let content = encode_tree(&sorted);
    let obj = store(content);
    let hash = obj.hash.clone();
    objects.push(obj);
    (hash, sorted)
}

/// The tree objects for a snapshot of the index, subdirectories before the
/// directories that hold them; the root tree comes last. Entries of each
/// tree are ordered by name, so equal snapshots give equal hashes, and the
/// root's entries are the index's top-level files and the directories that
/// hold the others.
pub fn build_tree(index: &FileMap) -> (r: (String, Vec<StoredObject>))
    requires
        index.wf(),
    ensures
        r.1@.len() > 0,
        r.0@ == r.1@.last().hash@,
        forall|i: int| 0 <= i < r.1@.len() ==> well_named(#[trigger] r.1@[i]),
        exists|es: Seq<TreeData>|
            r.1@.last().content@ == tree_json(es) && sorted_by_name(es) && lists_level(index.keys(), index.vals(), es),
        (forall|i: int| 0 <= i < index.keys().len() ==> !nested(#[trigger] index.keys()[i])) ==> r.1@.len() == 1,
{
    let mut items: Vec<(String, crate::path::FileInfo)> = Vec::new();
    let mut depth: usize = 0;
    let mut i: usize = 0;
    while i < index.len()
        invariant
            index.wf(),
            i <= index.keys().len(),
            item_paths(items@) == index.keys().subrange(0, i as int),
            item_infos(items@) == index.vals().subrange(0, i as int),
            forall|q: int| 0 <= q < items@.len() ==> (#[trigger] items@[q]).0@.len() <= depth,
        decreases index.keys().len() - i,
    {
        let p = index.path_at(i);
        let n = p.as_str().unicode_len();
        if n > depth {
            depth = n;
        }
        let item = (p.clone(), index.info_at(i).duplicate());
        let ghost before = items@;
        assert(item.0@ == index.keys()[i as int] && item.1@ == index.vals()[i as int]);
        items.push(item);
        assert(items@ == before.push(item));
        assert(item_paths(items@) =~= item_paths(before).push(item.0@));
        assert(item_infos(items@) =~= item_infos(before).push(item.1@));
        assert(item_paths(items@) =~= index.keys().subrange(0, i + 1));
        assert(item_infos(items@) =~= index.vals().subrange(0, i + 1));
        i = i + 1;
    }
    assert(index.keys().subrange(0, index.keys().len() as int) =~= index.keys());
    assert(index.vals().subrange(0, index.vals().len() as int) =~= index.vals());
    let mut objects: Vec<StoredObject> = Vec::new();
    let (root, _root_entries) = build_dir(items, depth, &mut objects);
    (root, objects)
}

/// The parents of a new commit: the branch tip, then the merged tip, each
/// where present; no list at all for a first commit.
pub open spec fn new_parents(tip: Seq<char>, merged: Seq<char>) -> Option<Seq<Seq<char>>> {
    let ps = (if tip.len() > 0 { seq![tip] } else { Seq::empty() }) + (if merged.len() > 0 {
        seq![merged]
    } else {
        Seq::empty()
    });
    if ps.len() == 0 {
        None
    } else {
        Some(ps)
    }
}

/// A commit of `tree` on a branch whose tip is `tip` (empty for a branch
/// without commits), with `from_merge` the merged tip (empty for an
/// ordinary commit), ready to store.
pub fn make_commit(tree: String, tip: &String, from_merge: &String, message: String, timestamp: u64) -> (r: (
    CommitObject,
    StoredObject,
))
    ensures
        r.0.tree@ == tree@,
        parent_view(r.0.parent) == new_parents(tip@, from_merge@),
        r.0.message@ == message@,
        r.0.timestamp == timestamp,
        well_named(r.1),
        r.1.content@ == commit_json(tree@, new_parents(tip@, from_merge@), message@, timestamp),
{
    let mut ps: Vec<String> = Vec::new();
    if !tip.as_str().is_empty() {
        ps.push(tip.clone());
    }
    if !from_merge.as_str().is_empty() {
        ps.push(from_merge.clone());
    }
    let parent = if ps.len() == 0 {
        None
    } else {
        Some(ps)
    };
    proof {
        if parent is Some {
            assert(strs(parent.unwrap()@) =~= new_parents(tip@, from_merge@).unwrap());
        }
    }
    let c = CommitObject { tree, parent, message, timestamp };
    let json = encode_commit(&c);
    let obj = store(json);
    (c, obj)
}

} // verus!

verus! {

/// Parsed tree objects by hash.
pub type TreeList = Seq<(String, Vec<TreeData>)>;

/// The entries of the first tree stored under `h`.
pub open spec fn find_tree(store: TreeList, h: Seq<char>) -> Option<Seq<TreeData>>
    decreases store.len(),
{
    if store.len() == 0 {
        None
    } else if store[0].0@ == h {
        Some(store[0].1@)
    } else {
        find_tree(store.drop_first(), h)
    }
}

/// The path of an entry named `name` in the directory at `prefix`.
pub open spec fn child_path(prefix: Seq<char>, name: Seq<char>) -> Seq<char> {
    if prefix.len() == 0 {
        name
    } else {
        crate::path::joined(seq![prefix, name])
    }
}

/// `acc` extended with the files of tree `h` stored at `prefix`, nesting at
/// most `fuel` levels deep; `None` when a tree is missing or too deep.
pub open spec fn flat_tree(store: TreeList, h: Seq<char>, prefix: Seq<char>, fuel: nat, acc: crate::merge::Snapshot) -> Option<
    crate::merge::Snapshot,
>
    decreases fuel, 1int, 0int,
{
    match find_tree(store, h) {
        None => None,
        Some(es) => flat_entries(store, es, 0, prefix, fuel, acc),
    }
}

pub open spec fn flat_entries(
    store: TreeList,
    es: Seq<TreeData>,
    i: int,
    prefix: Seq<char>,
    fuel: nat,
    acc: crate::merge::Snapshot,
) -> Option<crate::merge::Snapshot>
    decreases fuel, 0int, es.len() - i,
{
    if i < 0 || i >= es.len() {
        Some(acc)
    } else {
        let e = es[i];
        let p = child_path(prefix, e.name@);
        if e.data_type == TreeDataType::Folder {
            if fuel == 0 {
                None
            } else {
                match flat_tree(store, e.hash@, p, (fuel - 1) as nat, acc) {
                    None => None,
                    Some(acc2) => flat_entries(store, es, i + 1, prefix, fuel, acc2),
                }
            }
        } else {
            let ts: u64 = match e.timestamp {
                Some(t) => t,
                None => 0,
            };
            flat_entries(store, es, i + 1, prefix, fuel, acc.insert(p, (e.hash@, ts)))
        }
    }
}

fn find_tree_exec<'a>(store: &'a Vec<(String, Vec<TreeData>)>, h: &String) -> (r: Option<&'a Vec<TreeData>>)
    ensures
        r matches Some(v) ==> find_tree(store@, h@) == Some(v@),
        r is None ==> find_tree(store@, h@) is None,
{
    let mut i: usize = 0;
    assert(store@.skip(0) =~= store@);
    while i < store.len()
        invariant
            i <= store@.len(),
            find_tree(store@, h@) == find_tree(store@.skip(i as int), h@),
        decreases store@.len() - i,
    {
        assert(store@.skip(i as int).drop_first() =~= store@.skip(i + 1));
        if store[i].0 == *h {
            return Some(&store[i].1);
        }
        i = i + 1;
    }
    None
}

/// Adds to `data` the files of tree `hash`, stored at `path`, reading
/// subtrees at most `fuel` levels deep. `Err` names a tree that is missing
/// or nested too deep.
pub fn read_commit_data_rec(
    store: &Vec<(String, Vec<TreeData>)>,
    hash: &String,
    path: &String,
    fuel: usize,
    data: &mut FileMap,
) -> (r: Result<(), String>)
    requires
        old(data).wf(),
    ensures
        final(data).wf(),
        r is Ok <==> flat_tree(store@, hash@, path@, fuel as nat, old(data).map()) is Some,
        r is Ok ==> final(data).map() == flat_tree(store@, hash@, path@, fuel as nat, old(data).map()).unwrap(),
    decreases fuel, 1int, 0int,
{
    let es = match find_tree_exec(store, hash) {
        Some(v) => v,
        None => {
            return Err(hash.clone());
        },
    };
    let mut i: usize = 0;
    while i < es.len()
        invariant
            data.wf(),
            i <= es@.len(),
            find_tree(store@, hash@) == Some(es@),
            flat_tree(store@, hash@, path@, fuel as nat, old(data).map()) == flat_entries(
                store@,
                es@,
                i as int,
                path@,
                fuel as nat,
                data.map(),
            ),
        decreases es@.len() - i,
    {
        let e = &es[i];
        let child = if path.as_str().is_empty() {
            e.name.clone()
        } else {
            let mut parts: Vec<&str> = Vec::new();
            parts.push(path.as_str());
            parts.push(e.name.as_str());
            assert(parts@.map_values(|p: &str| p@) =~= seq![path@, e.name@]);
            crate::path::format_path(&parts)
        };
        assert(child@ == child_path(path@, e.name@));
        if e.data_type == TreeDataType::Folder {
            if fuel == 0 {
                return Err(e.hash.clone());
            }
            read_commit_data_rec(store, &e.hash, &child, fuel - 1, data)?;
        } else {
            let ts: u64 = match e.timestamp {
                Some(t) => t,
                None => 0,
            };
            data.insert(child, crate::path::FileInfo::new(e.hash.clone(), ts));
        }
        i = i + 1;
    }
    Ok(())
}

/// The flat path-to-file map of the tree `tree_hash`; an empty hash stands
/// for a branch without commits. `Err` names a tree that is missing, or a
/// cycle among trees.
pub fn read_commit_from_hash(store: &Vec<(String, Vec<TreeData>)>, tree_hash: &String) -> (r: Result<FileMap, String>)
    ensures
        r matches Ok(m) ==> m.wf(),
        tree_hash@.len() == 0 ==> (r matches Ok(m) && m.map() == crate::merge::Snapshot::empty()),
        tree_hash@.len() > 0 ==> (r is Ok <==> flat_tree(store@, tree_hash@, Seq::empty(), store@.len() as nat, crate::merge::Snapshot::empty()) is Some),
        tree_hash@.len() > 0 && r is Ok ==> r.unwrap().map() == flat_tree(store@, tree_hash@, Seq::empty(), store@.len() as nat, crate::merge::Snapshot::empty()).unwrap(),
{
    let mut data = FileMap::new();
    if tree_hash.as_str().is_empty() {
        return Ok(data);
    }
    let root = String::new();
    match read_commit_data_rec(store, tree_hash, &root, store.len(), &mut data) {
        Ok(()) => Ok(data),
        Err(h) => Err(h),
    }
}

} // verus!

verus! {

/// The files that a list of file entries records, by name; a later entry
/// for a name takes precedence over an earlier one.
pub open spec fn file_entries_map(es: Seq<TreeData>) -> crate::merge::Snapshot
    decreases es.len(),
{
    if es.len() == 0 {
        Map::empty()
    } else {
        let e = es[0];
        let ts: u64 = match e.timestamp {
            Some(t) => t,
            None => 0,
        };
        let later = file_entries_map(es.drop_first());
        if later.contains_key(e.name@) {
            later
        } else {
            later.insert(e.name@, (e.hash@, ts))
        }
    }
}

proof fn lemma_flat_files(store: TreeList, es: Seq<TreeData>, i: int, fuel: nat, acc: crate::merge::Snapshot)
    requires
        0 <= i <= es.len(),
        forall|k: int| 0 <= k < es.len() ==> (#[trigger] es[k]).data_type == TreeDataType::File,
    ensures
        flat_entries(store, es, i, Seq::empty(), fuel, acc) == Some(acc.union_prefer_right(
            file_entries_map(es.subrange(i, es.len() as int)),
        )),
    decreases es.len() - i,
{
    let rest = es.subrange(i, es.len() as int);
    if i == es.len() {
        assert(rest =~= Seq::<TreeData>::empty());
        assert(acc.union_prefer_right(Map::empty()) =~= acc);
    } else {
        let e = es[i];
        let ts: u64 = match e.timestamp {
            Some(t) => t,
            None => 0,
        };
        let acc2 = acc.insert(e.name@, (e.hash@, ts));
        lemma_flat_files(store, es, i + 1, fuel, acc2);
        let tail = es.subrange(i + 1, es.len() as int);
        assert(rest.drop_first() =~= tail);
        assert(rest[0] == e);
        let later = file_entries_map(tail);
        if later.contains_key(e.name@) {
            assert(acc2.union_prefer_right(later) =~= acc.union_prefer_right(later));
        } else {
            assert(acc2.union_prefer_right(later) =~= acc.union_prefer_right(later.insert(e.name@, (e.hash@, ts))));
        }
    }
}

} // verus!

verus! {

pub open spec fn entry_info(e: TreeData) -> crate::file_map::InfoView {
    (
        e.hash@,
        match e.timestamp {
            Some(t) => t,
            None => 0,
        },
    )
}

proof fn lemma_file_entries_map(es: Seq<TreeData>)
    ensures
        forall|k: Seq<char>|
            #[trigger] file_entries_map(es).contains_key(k) ==> exists|j: int|
                0 <= j < es.len() && (#[trigger] es[j]).name@ == k && file_entries_map(es)[k] == entry_info(es[j]),
        forall|j: int| 0 <= j < es.len() ==> file_entries_map(es).contains_key(#[trigger] es[j].name@),
    decreases es.len(),
{
    if es.len() > 0 {
        let t = es.drop_first();
        lemma_file_entries_map(t);
        assert forall|k: Seq<char>| #[trigger] file_entries_map(es).contains_key(k) implies exists|j: int|
            0 <= j < es.len() && (#[trigger] es[j]).name@ == k && file_entries_map(es)[k] == entry_info(es[j]) by {
            if file_entries_map(t).contains_key(k) {
                let j = choose|j: int|
                    0 <= j < t.len() && (#[trigger] t[j]).name@ == k && file_entries_map(t)[k] == entry_info(t[j]);
                assert(es[j + 1] == t[j]);
            } else {
                assert(es[0].name@ == k);
            }
        }
        assert forall|j: int| 0 <= j < es.len() implies file_entries_map(es).contains_key(#[trigger] es[j].name@) by {
            if j > 0 {
                assert(t[j - 1] == es[j]);
            }
        }
    }
}

/// Reading back a snapshot without subdirectories: when the root tree's
/// entries are those that tree building gives for an index whose paths all
/// lie at the top level, reading that tree gives exactly the index.
pub proof fn lemma_flat_snapshot_round_trip(index: &FileMap, es: Seq<TreeData>, store: TreeList, root: Seq<char>, fuel: nat)
    requires
        index.wf(),
        forall|i: int| 0 <= i < index.keys().len() ==> !nested(#[trigger] index.keys()[i]),
        lists_level(index.keys(), index.vals(), es),
        find_tree(store, root) == Some(es),
    ensures
        flat_tree(store, root, Seq::empty(), fuel, Map::empty()) == Some(index.map()),
{
    let keys = index.keys();
    let vals = index.vals();
    index.lemma_map();
    assert forall|k: int| 0 <= k < es.len() implies (#[trigger] es[k]).data_type == TreeDataType::File by {
        assert(entry_from(keys, vals, es[k]));
        if es[k].data_type == TreeDataType::Folder {
            let i = choose|i: int| 0 <= i < keys.len() && nested(#[trigger] keys[i]) && head_of(keys[i]) == es[k].name@;
        }
    }
    lemma_flat_files(store, es, 0, fuel, Map::empty());
    assert(es.subrange(0, es.len() as int) =~= es);
    lemma_file_entries_map(es);
    let f = file_entries_map(es);
    assert forall|k: Seq<char>| #[trigger] f.contains_key(k) implies index.map().contains_key(k) && index.map()[k] == f[k] by {
        let j = choose|j: int| 0 <= j < es.len() && (#[trigger] es[j]).name@ == k && f[k] == entry_info(es[j]);
        assert(entry_from(keys, vals, es[j]));
        let i = choose|i: int|
            0 <= i < keys.len() && !nested(#[trigger] keys[i]) && keys[i] == es[j].name@ && vals[i].0 == es[j].hash@
                && es[j].timestamp == Some(vals[i].1);
        assert(index.map()[keys[i]] == vals[i]);
    }
    assert forall|k: Seq<char>| #[trigger] index.map().contains_key(k) implies f.contains_key(k) by {
        let i = keys.index_of(k);
        assert(keys[i] == k);
        assert(listed(es, keys[i], vals[i]));
        let j = choose|j: int|
            0 <= j < es.len() && (#[trigger] es[j]).data_type == TreeDataType::File && es[j].name@ == keys[i]
                && es[j].hash@ == vals[i].0 && es[j].timestamp == Some(vals[i].1);
    }
    assert(Map::<Seq<char>, crate::file_map::InfoView>::empty().union_prefer_right(f) =~= index.map());
}

} // verus!
