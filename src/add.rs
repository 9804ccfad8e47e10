use vstd::prelude::*;
use crate::file_map::{first_keys, lemma_first_keys_all, lemma_first_keys_step, strs, FileMap};
use crate::index::{ignore_file, ignored, starts_with};
use crate::merge::Snapshot;
use crate::path::{format_path, has_prefix, joined, sep};

verus! {

/// The index has no entry for `p`, or one with another timestamp.
pub open spec fn stale_in(index: Snapshot, p: Seq<char>, ts: u64) -> bool {
    !index.contains_key(p) || index[p].1 != ts
}

/// A scanned file that `add` stages: not ignored, under `prefix`, and new
/// or touched since it was staged.
pub open spec fn wants_staging(
    cand: Snapshot,
    index: Snapshot,
    rules: Seq<Seq<char>>,
    prefix: Seq<char>,
    p: Seq<char>,
) -> bool {
    &&& cand.contains_key(p)
    &&& !ignored(p, rules)
    &&& starts_with(p, prefix)
    &&& stale_in(index, p, cand[p].1)
}

/// Whether a file with timestamp `ts` at `path` must be (re)staged.
pub fn needs_staging(index: &FileMap, path: &String, ts: u64) -> (r: bool)
    requires
        index.wf(),
    ensures
        r == stale_in(index.map(), path@, ts),
{
    match index.get(path) {
        Some(info) => info.timestamp != ts,
        None => true,
    }
}

/// The scanned files that `add` must hash and stage.
pub fn select_for_staging(candidates: &FileMap, index: &FileMap, rules: &Vec<String>, prefix: &String) -> (r:
    FileMap)
    requires
        candidates.wf(),
        index.wf(),
    ensures
        r.wf(),
        r.map() == candidates.map().restrict(
            Set::new(|p: Seq<char>| wants_staging(candidates.map(), index.map(), strs(rules@), prefix@, p)),
        ),
{
    let ghost c = candidates.map();
    let ghost ck = candidates.keys();
    let ghost wanted = Set::new(|p: Seq<char>| wants_staging(c, index.map(), strs(rules@), prefix@, p));
    proof {
        candidates.lemma_map();
    }
    let mut r = FileMap::new();
    let mut i: usize = 0;
    while i < candidates.len()
        invariant
            candidates.wf(),
            index.wf(),
            c == candidates.map(),
            ck == candidates.keys(),
            wanted == Set::new(|p: Seq<char>| wants_staging(c, index.map(), strs(rules@), prefix@, p)),
            i <= ck.len(),
            r.wf(),
            r.map() == c.restrict(first_keys(ck, i as int).intersect(wanted)),
        decreases ck.len() - i,
    {
        let p = candidates.path_at(i);
        let info = candidates.info_at(i);
        proof {
            assert(c.contains_key(p@) && c[p@] == info@);
            lemma_first_keys_step(ck, i as int);
        }
        if !ignore_file(p, rules) && has_prefix(p.as_str(), prefix.as_str()) && needs_staging(
            index,
            p,
            info.timestamp,
        ) {
            r.insert(p.clone(), info.duplicate());
        }
        assert(r.map() =~= c.restrict(first_keys(ck, i + 1).intersect(wanted)));
        i = i + 1;
    }
    proof {
        lemma_first_keys_all(candidates);
        assert(r.map() =~= c.restrict(wanted));
    }
    r
}

/// The entries of `index` whose file is still in the working tree.
pub fn keep_present(index: &FileMap, work: &FileMap) -> (r: FileMap)
    requires
        index.wf(),
        work.wf(),
    ensures
        r.wf(),
        r.map() == index.map().restrict(work.map().dom()),
{
    let ghost m = index.map();
    let ghost ik = index.keys();
    proof {
        index.lemma_map();
    }
    let mut r = FileMap::new();
    let mut i: usize = 0;
    while i < index.len()
        invariant
            index.wf(),
            work.wf(),
            m == index.map(),
            ik == index.keys(),
            i <= ik.len(),
            r.wf(),
            r.map() == m.restrict(first_keys(ik, i as int).intersect(work.map().dom())),
        decreases ik.len() - i,
    {
        let p = index.path_at(i);
        let info = index.info_at(i);
        proof {
            assert(m.contains_key(p@) && m[p@] == info@);
            lemma_first_keys_step(ik, i as int);
        }
        if work.contains_key(p) {
            r.insert(p.clone(), info.duplicate());
        }
        assert(r.map() =~= m.restrict(first_keys(ik, i + 1).intersect(work.map().dom())));
        i = i + 1;
    }
    proof {
        lemma_first_keys_all(index);
        assert(r.map() =~= m.restrict(work.map().dom()));
    }
    r
}

/// A pathspec with one trailing separator (`/` or `\`) removed.
pub open spec fn trim_sep(s: Seq<char>) -> Seq<char> {
    if s.len() > 0 && (s.last() == sep() || s.last() == '\\') {
        s.drop_last()
    } else {
        s
    }
}

/// The directory prefix that a missing pathspec names, relative to the root.
pub open spec fn folder_prefix(spec: Seq<char>, start: Seq<char>) -> Seq<char> {
    joined(seq![start + trim_sep(spec), Seq::empty()])
}

/// The entries of `m` whose path does not begin with `prefix`.
pub open spec fn without_prefix(m: Snapshot, prefix: Seq<char>) -> Snapshot {
    m.restrict(Set::new(|k: Seq<char>| !starts_with(k, prefix)))
}

/// Removes from the index what a pathspec that no longer exists on disk
/// names: the file itself, or else every file under it as a directory.
/// Returns whether the pathspec matched anything.
pub fn forget_pathspec(index: &mut FileMap, spec: &String, start_path: &String) -> (r: bool)
    requires
        old(index).wf(),
    ensures
        final(index).wf(),
        old(index).map().contains_key(spec@) ==> r && final(index).map() == old(index).map().remove(spec@),
        !old(index).map().contains_key(spec@) ==> {
            &&& final(index).map() == without_prefix(old(index).map(), folder_prefix(spec@, start_path@))
            &&& r == exists|k: Seq<char>| old(index).map().contains_key(k) && starts_with(k, folder_prefix(spec@, start_path@))
        },
{
    if index.contains_key(spec) {
        index.remove(spec);
        return true;
    }
    let n = spec.as_str().unicode_len();
    let trimmed: &str = if n > 0 && (spec.as_str().get_char(n - 1) == '/' || spec.as_str().get_char(n - 1) == '\\') {
        spec.as_str().substring_char(0, n - 1)
    } else {
        spec.as_str()
    };
    proof {
        if n > 0 && (spec@.last() == sep() || spec@.last() == '\\') {
            assert(trimmed@ =~= spec@.drop_last());
        }
    }
    let joined_name = start_path.clone().concat(trimmed);
    let mut parts: Vec<&str> = Vec::new();
    parts.push(joined_name.as_str());
    parts.push("");
    let prefix = format_path(&parts);
    proof {
        reveal_strlit("");
        assert(""@ =~= Seq::<char>::empty());
        assert(parts@.map_values(|p: &str| p@) =~= seq![start_path@ + trim_sep(spec@), Seq::<char>::empty()]);
    }
    let ghost m = index.map();
    let ghost ik = index.keys();
    let ghost keep = Set::new(|k: Seq<char>| !starts_with(k, prefix@));
    proof {
        index.lemma_map();
    }
    let mut kept = FileMap::new();
    let mut found = false;
    let mut i: usize = 0;
    while i < index.len()
        invariant
            index.wf(),
            m == index.map(),
            ik == index.keys(),
            keep == Set::new(|k: Seq<char>| !starts_with(k, prefix@)),
            i <= ik.len(),
            kept.wf(),
            kept.map() == m.restrict(first_keys(ik, i as int).intersect(keep)),
            found == exists|j: int| 0 <= j < i && starts_with(#[trigger] ik[j], prefix@),
        decreases ik.len() - i,
    {
        let p = index.path_at(i);
        let info = index.info_at(i);
        proof {
            assert(m.contains_key(p@) && m[p@] == info@);
            lemma_first_keys_step(ik, i as int);
        }
        if has_prefix(p.as_str(), prefix.as_str()) {
            found = true;
        } else {
            kept.insert(p.clone(), info.duplicate());
        }
        assert(kept.map() =~= m.restrict(first_keys(ik, i + 1).intersect(keep)));
        i = i + 1;
    }
    proof {
        lemma_first_keys_all(index);
        assert(kept.map() =~= m.restrict(keep));
        if found {
            let j = choose|j: int| 0 <= j < ik.len() && starts_with(#[trigger] ik[j], prefix@);
            assert(m.contains_key(ik[j]));
        }
        if exists|k: Seq<char>| m.contains_key(k) && starts_with(k, prefix@) {
            let k = choose|k: Seq<char>| m.contains_key(k) && starts_with(k, prefix@);
            let j = ik.index_of(k);
            assert(ik[j] == k);
        }
    }
    *index = kept;
    found
}

} // verus!

verus! {

/// Every entry of `m` carries a content hash.
pub open spec fn all_hashed(m: Snapshot) -> bool {
    forall|p: Seq<char>| #[trigger] m.contains_key(p) ==> m[p].0.len() > 0
}

/// Staging keeps the index hashed: starting from an index whose entries all
/// carry a hash, recording a file under a non-empty content hash, and
/// dropping the entries whose files are gone, leave only hashed entries.
pub proof fn lemma_staging_keeps_hashes(index: Snapshot, p: Seq<char>, h: Seq<char>, ts: u64, present: Set<Seq<char>>)
    requires
        all_hashed(index),
        h.len() > 0,
    ensures
        all_hashed(index.insert(p, (h, ts))),
        all_hashed(index.restrict(present)),
{
    assert forall|q: Seq<char>| #[trigger] index.insert(p, (h, ts)).contains_key(q) implies index.insert(
        p,
        (h, ts),
    )[q].0.len() > 0 by {
        if q != p {
            assert(index.contains_key(q));
        }
    }
}

} // verus!
