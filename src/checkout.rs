use vstd::prelude::*;
use crate::file_map::{entry, first_keys, lemma_contains_push, lemma_first_keys_all, lemma_first_keys_step, lemma_strs_push, strs, FileMap};
use crate::merge::Snapshot;
use crate::working::{known_hash, resolve_hash};

verus! {

/// The hash of the working copy of `p`, as far as timestamps tell it.
pub open spec fn checkout_work_hash(c: Snapshot, t: Snapshot, w: Snapshot, p: Seq<char>) -> Option<Seq<char>> {
    if t.contains_key(p) {
        known_hash(w[p], entry(t, p), entry(c, p))
    } else {
        known_hash(w[p], entry(c, p), None)
    }
}

/// Paths whose working copy checkout compares with the commits: every
/// working file that either commit tracks.
pub open spec fn checkout_inspects(c: Snapshot, t: Snapshot, w: Snapshot, p: Seq<char>) -> bool {
    w.contains_key(p) && (t.contains_key(p) || c.contains_key(p))
}

pub open spec fn checkout_needs_hash(c: Snapshot, t: Snapshot, w: Snapshot, p: Seq<char>) -> bool {
    checkout_inspects(c, t, w, p) && checkout_work_hash(c, t, w, p) is None
}

/// Switching would discard or overwrite uncommitted work at `p`: its
/// working copy is neither the target's version nor the current one.
pub open spec fn checkout_dirty(c: Snapshot, t: Snapshot, w: Snapshot, p: Seq<char>) -> bool {
    &&& checkout_inspects(c, t, w, p)
    &&& checkout_work_hash(c, t, w, p) is Some
    &&& {
        let h = checkout_work_hash(c, t, w, p).unwrap();
        &&& (!t.contains_key(p) || h != t[p].0)
        &&& (!c.contains_key(p) || h != c[p].0)
    }
}

pub open spec fn checkout_blocked(c: Snapshot, t: Snapshot, w: Snapshot, p: Seq<char>) -> bool {
    checkout_needs_hash(c, t, w, p) || checkout_dirty(c, t, w, p)
}

/// Checkout writes the target's version of `p` into the working tree: the
/// target tracks it and the working copy does not already hold it.
pub open spec fn checkout_writes(c: Snapshot, t: Snapshot, w: Snapshot, p: Seq<char>) -> bool {
    t.contains_key(p) && !(w.contains_key(p) && checkout_work_hash(c, t, w, p) == Some(t[p].0))
}

/// Checkout removes the working copy of `p`.
pub open spec fn checkout_deletes(c: Snapshot, t: Snapshot, w: Snapshot, p: Seq<char>) -> bool {
    c.contains_key(p) && !t.contains_key(p) && w.contains_key(p)
}

/// The working-tree changes of a checkout that is safe to carry out.
pub struct CheckoutPlan {
    pub to_write: Vec<String>,
    pub to_delete: Vec<String>,
}

pub enum CheckoutOutcome {
    /// The working file at this path must be hashed before planning can go on.
    NeedHash(String),
    /// The working file at this path has changes that checkout would lose.
    Uncommitted(String),
    Ready(CheckoutPlan),
}

pub open spec fn checkout_outcome_ok(c: Snapshot, t: Snapshot, w: Snapshot, r: CheckoutOutcome) -> bool {
    match r {
        CheckoutOutcome::NeedHash(p) => checkout_needs_hash(c, t, w, p@),
        CheckoutOutcome::Uncommitted(p) => checkout_dirty(c, t, w, p@) && !checkout_needs_hash(c, t, w, p@),
        CheckoutOutcome::Ready(plan) => {
            &&& forall|p: Seq<char>| !checkout_blocked(c, t, w, p)
            &&& forall|p: Seq<char>| #[trigger] strs(plan.to_write@).contains(p) <==> checkout_writes(c, t, w, p)
            &&& forall|p: Seq<char>| #[trigger] strs(plan.to_delete@).contains(p) <==> checkout_deletes(c, t, w, p)
        },
    }
}

/// Plans switching the working tree from the `current` commit's snapshot to
/// the `target` one, with `work` the scanned working tree (an empty hash
/// where the file has not been hashed).
pub fn plan_checkout(current: &FileMap, target: &FileMap, work: &FileMap) -> (r: CheckoutOutcome)
    requires
        current.wf(),
        target.wf(),
        work.wf(),
    ensures
        checkout_outcome_ok(current.map(), target.map(), work.map(), r),
{
    let ghost c = current.map();
    let ghost t = target.map();
    let ghost w = work.map();
    let ghost tk = target.keys();
    let ghost ck = current.keys();
    proof {
        current.lemma_map();
        target.lemma_map();
    }
    let mut to_write: Vec<String> = Vec::new();
    let mut to_delete: Vec<String> = Vec::new();
    let mut i: usize = 0;
    while i < target.len()
        invariant
            current.wf(),
            target.wf(),
            work.wf(),
            c == current.map(),
            t == target.map(),
            w == work.map(),
            tk == target.keys(),
            i <= tk.len(),
            forall|j: int| 0 <= j < i ==> !checkout_blocked(c, t, w, #[trigger] tk[j]),
            forall|p: Seq<char>| #[trigger] strs(to_write@).contains(p) <==> (first_keys(tk, i as int).contains(p)
                && checkout_writes(c, t, w, p)),
            to_delete@.len() == 0,
        decreases tk.len() - i,
    {
        let p = target.path_at(i);
        let ti = target.info_at(i);
        proof {
            assert(t.contains_key(p@) && t[p@] == ti@);
            lemma_first_keys_step(tk, i as int);
        }
        let ci = current.get(p);
        let write: bool;
        match work.get(p) {
            Some(wi) => {
                match resolve_hash(wi, Some(ti), ci) {
                    None => {
                        return CheckoutOutcome::NeedHash(p.clone());
                    },
                    Some(h) => {
                        if *h == ti.hash {
                            write = false;
                        } else {
                            let is_current = match ci {
                                Some(x) => *h == x.hash,
                                None => false,
                            };
                            if !is_current {
                                return CheckoutOutcome::Uncommitted(p.clone());
                            }
                            write = true;
                        }
                    },
                }
            },
            None => {
                write = true;
            },
        }
        if write {
            let pc = p.clone();
            proof {
                lemma_strs_push(to_write@, pc);
                lemma_contains_push(strs(to_write@), pc@);
            }
            to_write.push(pc);
        }
        assert(write == checkout_writes(c, t, w, p@));
        i = i + 1;
    }
    proof {
        lemma_first_keys_all(target);
    }
    let mut j: usize = 0;
    while j < current.len()
        invariant
            current.wf(),
            target.wf(),
            work.wf(),
            c == current.map(),
            t == target.map(),
            w == work.map(),
            ck == current.keys(),
            j <= ck.len(),
            t.dom() == first_keys(tk, tk.len() as int),
            forall|p: Seq<char>| t.contains_key(p) ==> !checkout_blocked(c, t, w, p),
            forall|k: int| 0 <= k < j ==> !checkout_blocked(c, t, w, #[trigger] ck[k]),
            forall|p: Seq<char>| #[trigger] strs(to_write@).contains(p) <==> (t.contains_key(p) && checkout_writes(c, t, w, p)),
            forall|p: Seq<char>| #[trigger] strs(to_delete@).contains(p) <==> (first_keys(ck, j as int).contains(p)
                && checkout_deletes(c, t, w, p)),
        decreases ck.len() - j,
    {
        let p = current.path_at(j);
        let ci = current.info_at(j);
        proof {
            assert(c.contains_key(p@) && c[p@] == ci@);
            lemma_first_keys_step(ck, j as int);
        }
        if !target.contains_key(p) {
            if let Some(wi) = work.get(p) {
                match resolve_hash(wi, Some(ci), None) {
                    None => {
                        return CheckoutOutcome::NeedHash(p.clone());
                    },
                    Some(h) => {
                        if *h != ci.hash {
                            return CheckoutOutcome::Uncommitted(p.clone());
                        }
                    },
                }
                let pc = p.clone();
                proof {
                    lemma_strs_push(to_delete@, pc);
                    lemma_contains_push(strs(to_delete@), pc@);
                }
                to_delete.push(pc);
            }
        }
        assert(t.contains_key(p@) || (w.contains_key(p@) == checkout_deletes(c, t, w, p@)));
        j = j + 1;
    }
    proof {
        lemma_first_keys_all(current);
    }
    CheckoutOutcome::Ready(CheckoutPlan { to_write, to_delete })
}

} // verus!

verus! {

/// The content hash at `p` after carrying out a checkout plan, given the
/// content hashes `now` of the working tree before it.
pub open spec fn content_after(
    c: Snapshot,
    t: Snapshot,
    w: Snapshot,
    now: Map<Seq<char>, Seq<char>>,
    p: Seq<char>,
) -> Option<Seq<char>> {
    if checkout_writes(c, t, w, p) {
        Some(t[p].0)
    } else if checkout_deletes(c, t, w, p) || !now.contains_key(p) {
        None
    } else {
        Some(now[p])
    }
}

/// A checkout that goes ahead leaves the target snapshot on disk and keeps
/// every untracked file: when a timestamp fingerprint that names a version
/// names the working file's real content, every file of the target ends up
/// with the target's content, every file that only the current commit
/// tracks is gone, and every other file is untouched.
pub proof fn lemma_checkout_reaches_target(
    c: Snapshot,
    t: Snapshot,
    w: Snapshot,
    now: Map<Seq<char>, Seq<char>>,
    plan: CheckoutPlan,
)
    requires
        checkout_outcome_ok(c, t, w, CheckoutOutcome::Ready(plan)),
        now.dom() == w.dom(),
        forall|p: Seq<char>| #[trigger] w.contains_key(p) && checkout_work_hash(c, t, w, p) is Some
            ==> checkout_work_hash(c, t, w, p).unwrap() == now[p],
    ensures
        forall|p: Seq<char>| #[trigger] content_after(c, t, w, now, p) == if t.contains_key(p) {
            Some(t[p].0)
        } else if c.contains_key(p) || !now.contains_key(p) {
            None::<Seq<char>>
        } else {
            Some(now[p])
        },
{
    assert forall|p: Seq<char>| #[trigger] content_after(c, t, w, now, p) == if t.contains_key(p) {
        Some(t[p].0)
    } else if c.contains_key(p) || !now.contains_key(p) {
        None::<Seq<char>>
    } else {
        Some(now[p])
    } by {
        assert(!checkout_blocked(c, t, w, p));
    }
}

} // verus!

verus! {

/// Whether a command that moves to another branch (checkout, merge) goes on.
#[derive(Debug, PartialEq)]
pub enum SwitchAction {
    /// The named branch does not exist.
    NoSuchBranch,
    /// The named branch is the current one.
    AlreadyOn,
    /// The named branch exists and is another one.
    Proceed,
}

/// Decides whether moving from branch `current` to branch `target` goes on;
/// `exists` tells whether `target` names a branch.
pub fn plan_switch(current: &String, target: &String, exists: bool) -> (r: SwitchAction)
    ensures
        !exists ==> r is NoSuchBranch,
        exists && current@ == target@ ==> r is AlreadyOn,
        exists && current@ != target@ ==> r is Proceed,
{
    if !exists {
        SwitchAction::NoSuchBranch
    } else if *current == *target {
        SwitchAction::AlreadyOn
    } else {
        SwitchAction::Proceed
    }
}

} // verus!
