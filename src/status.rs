use vstd::prelude::*;
use crate::file_map::{first_keys, lemma_contains_push, lemma_first_keys_all, lemma_first_keys_step, lemma_strs_push, strs, FileMap};
use crate::index::{ignore_file, ignored};
use crate::merge::Snapshot;

verus! {

/// Differences between the last commit and the index.
pub struct StagedChanges {
    pub new_files: Vec<String>,
    pub modified: Vec<String>,
    pub deleted: Vec<String>,
}

/// Differences between the index and the working tree.
pub struct UnstagedChanges {
    pub modified: Vec<String>,
    pub deleted: Vec<String>,
    pub untracked: Vec<String>,
}

pub enum UnstagedOutcome {
    /// The working file at this path must be hashed before comparing can go on.
    NeedHash(String),
    Changes(UnstagedChanges),
}

pub open spec fn staged_ok(c: Snapshot, i: Snapshot, r: StagedChanges) -> bool {
    &&& forall|p: Seq<char>| #[trigger] strs(r.new_files@).contains(p) <==> (i.contains_key(p) && !c.contains_key(p))
    &&& forall|p: Seq<char>| #[trigger] strs(r.modified@).contains(p) <==> (i.contains_key(p) && c.contains_key(p)
        && i[p].0 != c[p].0)
    &&& forall|p: Seq<char>| #[trigger] strs(r.deleted@).contains(p) <==> (c.contains_key(p) && !i.contains_key(p))
}

/// A working file that `status` looks at: present and not ignored.
pub open spec fn visible(w: Snapshot, rules: Seq<Seq<char>>, p: Seq<char>) -> bool {
    w.contains_key(p) && !ignored(p, rules)
}

/// The timestamps differ and the working file has not been hashed yet.
pub open spec fn status_needs_hash(i: Snapshot, w: Snapshot, rules: Seq<Seq<char>>, p: Seq<char>) -> bool {
    visible(w, rules, p) && i.contains_key(p) && i[p].1 != w[p].1 && w[p].0.len() == 0
}

/// The working file's content differs from the staged one.
pub open spec fn unstaged_modified(i: Snapshot, w: Snapshot, rules: Seq<Seq<char>>, p: Seq<char>) -> bool {
    visible(w, rules, p) && i.contains_key(p) && i[p].1 != w[p].1 && w[p].0 != i[p].0
}

pub open spec fn unstaged_ok(i: Snapshot, w: Snapshot, rules: Seq<Seq<char>>, r: UnstagedOutcome) -> bool {
    match r {
        UnstagedOutcome::NeedHash(p) => status_needs_hash(i, w, rules, p@),
        UnstagedOutcome::Changes(ch) => {
            &&& forall|p: Seq<char>| !status_needs_hash(i, w, rules, p)
            &&& forall|p: Seq<char>| #[trigger] strs(ch.modified@).contains(p) <==> unstaged_modified(i, w, rules, p)
            &&& forall|p: Seq<char>| #[trigger] strs(ch.deleted@).contains(p) <==> (i.contains_key(p) && !w.contains_key(p))
            &&& forall|p: Seq<char>| #[trigger] strs(ch.untracked@).contains(p) <==> (visible(w, rules, p) && !i.contains_key(p))
        },
    }
}

/// The paths of `m` that `c` lacks.
fn keys_missing_from(m: &FileMap, c: &FileMap) -> (r: Vec<String>)
    requires
        m.wf(),
        c.wf(),
    ensures
        forall|p: Seq<char>| #[trigger] strs(r@).contains(p) <==> (m.map().contains_key(p) && !c.map().contains_key(p)),
{
    let ghost mk = m.keys();
    proof {
        m.lemma_map();
    }
    let mut r: Vec<String> = Vec::new();
    let mut k: usize = 0;
    while k < m.len()
        invariant
            m.wf(),
            c.wf(),
            mk == m.keys(),
            k <= mk.len(),
            forall|p: Seq<char>| #[trigger] strs(r@).contains(p) <==> (first_keys(mk, k as int).contains(p)
                && !c.map().contains_key(p)),
        decreases mk.len() - k,
    {
        let p = m.path_at(k);
        proof {
            lemma_first_keys_step(mk, k as int);
        }
        if !c.contains_key(p) {
            let pc = p.clone();
            proof {
                lemma_strs_push(r@, pc);
                lemma_contains_push(strs(r@), pc@);
            }
            r.push(pc);
        }
        k = k + 1;
    }
    proof {
        lemma_first_keys_all(m);
    }
    r
}

/// What is staged: the index compared with the last commit.
pub fn compare_last_commit_with_index(index: &FileMap, commit: &FileMap) -> (r: StagedChanges)
    requires
        index.wf(),
        commit.wf(),
    ensures
        staged_ok(commit.map(), index.map(), r),
{
    let ghost ik = index.keys();
    proof {
        index.lemma_map();
    }
    let mut modified: Vec<String> = Vec::new();
    let mut k: usize = 0;
    while k < index.len()
        invariant
            index.wf(),
            commit.wf(),
            ik == index.keys(),
            k <= ik.len(),
            forall|p: Seq<char>| #[trigger] strs(modified@).contains(p) <==> (first_keys(ik, k as int).contains(p)
                && commit.map().contains_key(p) && index.map()[p].0 != commit.map()[p].0),
        decreases ik.len() - k,
    {
        let p = index.path_at(k);
        let info = index.info_at(k);
        proof {
            assert(index.map()[p@] == info@);
            lemma_first_keys_step(ik, k as int);
        }
        if let Some(ci) = commit.get(p) {
            if ci.hash != info.hash {
                let pc = p.clone();
                proof {
                    lemma_strs_push(modified@, pc);
                    lemma_contains_push(strs(modified@), pc@);
                }
                modified.push(pc);
            }
        }
        k = k + 1;
    }
    proof {
        lemma_first_keys_all(index);
    }
    let new_files = keys_missing_from(index, commit);
    let deleted = keys_missing_from(commit, index);
    StagedChanges { new_files, modified, deleted }
}

/// What is not staged: the working tree compared with the index. `work` is
/// the scanned working tree, with an empty hash where a file has not been
/// hashed.
pub fn compare_index_with_working_directory(index: &FileMap, work: &FileMap, rules: &Vec<String>) -> (r:
    UnstagedOutcome)
    requires
        index.wf(),
        work.wf(),
    ensures
        unstaged_ok(index.map(), work.map(), strs(rules@), r),
{
    let ghost i = index.map();
    let ghost w = work.map();
    let ghost rs = strs(rules@);
    let ghost wk = work.keys();
    proof {
        work.lemma_map();
        index.lemma_map();
    }
    let mut modified: Vec<String> = Vec::new();
    let mut untracked: Vec<String> = Vec::new();
    let mut k: usize = 0;
    while k < work.len()
        invariant
            index.wf(),
            work.wf(),
            i == index.map(),
            w == work.map(),
            rs == strs(rules@),
            wk == work.keys(),
            k <= wk.len(),
            forall|j: int| 0 <= j < k ==> !status_needs_hash(i, w, rs, #[trigger] wk[j]),
            forall|p: Seq<char>| #[trigger] strs(modified@).contains(p) <==> (first_keys(wk, k as int).contains(p)
                && unstaged_modified(i, w, rs, p)),
            forall|p: Seq<char>| #[trigger] strs(untracked@).contains(p) <==> (first_keys(wk, k as int).contains(p)
                && visible(w, rs, p) && !i.contains_key(p)),
        decreases wk.len() - k,
    {
        let p = work.path_at(k);
        let wi = work.info_at(k);
        proof {
            assert(w.contains_key(p@) && w[p@] == wi@);
            lemma_first_keys_step(wk, k as int);
        }
        let ign = ignore_file(p, rules);
        if !ign {
            match index.get(p) {
                Some(ii) => {
                    if ii.timestamp != wi.timestamp {
                        if wi.hash.as_str().is_empty() {
                            return UnstagedOutcome::NeedHash(p.clone());
                        }
                        if wi.hash != ii.hash {
                            let pc = p.clone();
                            proof {
                                lemma_strs_push(modified@, pc);
                                lemma_contains_push(strs(modified@), pc@);
                            }
                            modified.push(pc);
                        }
                    }
                },
                None => {
                    let pc = p.clone();
                    proof {
                        lemma_strs_push(untracked@, pc);
                        lemma_contains_push(strs(untracked@), pc@);
                    }
                    untracked.push(pc);
                },
            }
        }
        k = k + 1;
    }
    proof {
        lemma_first_keys_all(work);
        assert forall|p: Seq<char>| visible(w, rs, p) implies #[trigger] first_keys(wk, wk.len() as int).contains(p) by {
            assert(w.dom().contains(p));
        }
        assert forall|p: Seq<char>| #[trigger] strs(modified@).contains(p) <==> unstaged_modified(i, w, rs, p) by {
            if unstaged_modified(i, w, rs, p) {
                assert(first_keys(wk, wk.len() as int).contains(p));
            }
        }
        assert forall|p: Seq<char>| #[trigger] strs(untracked@).contains(p) <==> (visible(w, rs, p) && !i.contains_key(p)) by {
            if visible(w, rs, p) {
                assert(first_keys(wk, wk.len() as int).contains(p));
            }
        }
        assert forall|p: Seq<char>| !status_needs_hash(i, w, rs, p) by {
            if status_needs_hash(i, w, rs, p) {
                assert(first_keys(wk, wk.len() as int).contains(p));
                let j = choose|j: int| 0 <= j < wk.len() && wk[j] == p;
                assert(!status_needs_hash(i, w, rs, wk[j]));
            }
        }
    }
    let deleted = keys_missing_from(index, work);
    let ch = UnstagedChanges { modified, deleted, untracked };
    UnstagedOutcome::Changes(ch)
}

impl StagedChanges {
    pub fn is_empty(&self) -> (r: bool)
        ensures
            r == (self.new_files@.len() == 0 && self.modified@.len() == 0 && self.deleted@.len() == 0),
    {
        self.new_files.len() == 0 && self.modified.len() == 0 && self.deleted.len() == 0
    }
}

impl UnstagedChanges {
    pub fn is_empty(&self) -> (r: bool)
        ensures
            r == (self.modified@.len() == 0 && self.deleted@.len() == 0 && self.untracked@.len() == 0),
    {
        self.modified.len() == 0 && self.deleted.len() == 0 && self.untracked.len() == 0
    }
}

} // verus!

verus! {

proof fn lemma_empty_when_nothing_contained(v: Seq<String>)
    requires
        forall|p: Seq<char>| !strs(v).contains(p),
    ensures
        v.len() == 0,
{
    if v.len() > 0 {
        assert(strs(v)[0] == v[0]@);
        assert(strs(v).contains(v[0]@));
    }
}

/// Right after a commit of the index, with the working tree as it was
/// staged, status is clean: when the last commit and the index hold the
/// same snapshot, and the files that status looks at are exactly the
/// indexed ones with their staged timestamps, nothing is staged and
/// nothing is left unstaged.
pub proof fn lemma_clean_after_commit(
    c: Snapshot,
    i: Snapshot,
    w: Snapshot,
    rules: Seq<Seq<char>>,
    staged: StagedChanges,
    unstaged: UnstagedOutcome,
)
    requires
        c == i,
        forall|p: Seq<char>| visible(w, rules, p) <==> i.contains_key(p),
        forall|p: Seq<char>| #[trigger] i.contains_key(p) ==> i[p].1 == w[p].1,
        staged_ok(c, i, staged),
        unstaged_ok(i, w, rules, unstaged),
    ensures
        staged.new_files@.len() == 0,
        staged.modified@.len() == 0,
        staged.deleted@.len() == 0,
        unstaged matches UnstagedOutcome::Changes(u) && u.modified@.len() == 0 && u.deleted@.len() == 0
            && u.untracked@.len() == 0,
{
    assert forall|p: Seq<char>| !strs(staged.new_files@).contains(p) && !strs(staged.modified@).contains(p)
        && !strs(staged.deleted@).contains(p) by {
        if strs(staged.new_files@).contains(p) {
            assert(i.contains_key(p) && !c.contains_key(p));
        }
        if strs(staged.modified@).contains(p) {
            assert(i[p].0 != c[p].0);
        }
        if strs(staged.deleted@).contains(p) {
            assert(c.contains_key(p) && !i.contains_key(p));
        }
    }
    lemma_empty_when_nothing_contained(staged.new_files@);
    lemma_empty_when_nothing_contained(staged.modified@);
    lemma_empty_when_nothing_contained(staged.deleted@);
    match unstaged {
        UnstagedOutcome::NeedHash(p) => {
            assert(i.contains_key(p@));
        },
        UnstagedOutcome::Changes(u) => {
            assert forall|p: Seq<char>| !strs(u.modified@).contains(p) by {
                if i.contains_key(p) {
                    assert(i[p].1 == w[p].1);
                }
            }
            lemma_empty_when_nothing_contained(u.modified@);
            lemma_empty_when_nothing_contained(u.deleted@);
            lemma_empty_when_nothing_contained(u.untracked@);
        },
    }
}

} // verus!
