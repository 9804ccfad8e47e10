use vstd::prelude::*;
use crate::file_map::{entry, lemma_contains_push, first_keys, lemma_first_keys_all, lemma_first_keys_step, lemma_strs_push, strs, FileMap, InfoView};
use crate::working::{known_hash, resolve_hash};

verus! {

pub type Snapshot = Map<Seq<char>, InfoView>;

/// A path that ours changed and that the base had, but theirs removed:
/// the merge deletes it.
pub open spec fn is_deletion(o: Snapshot, t: Snapshot, b: Snapshot, p: Seq<char>) -> bool {
    o.contains_key(p) && !t.contains_key(p) && b.contains_key(p)
}

/// Paths whose working-tree copy the merge may overwrite or remove.
pub open spec fn merge_touches(o: Snapshot, t: Snapshot, b: Snapshot, w: Snapshot, p: Seq<char>) -> bool {
    w.contains_key(p) && (t.contains_key(p) || is_deletion(o, t, b, p))
}

/// The hash of the working copy of `p`, as far as timestamps tell it.
pub open spec fn merge_work_hash(o: Snapshot, t: Snapshot, w: Snapshot, p: Seq<char>) -> Option<Seq<char>> {
    if t.contains_key(p) {
        known_hash(w[p], entry(t, p), entry(o, p))
    } else {
        known_hash(w[p], entry(o, p), None)
    }
}

pub open spec fn merge_needs_hash(o: Snapshot, t: Snapshot, b: Snapshot, w: Snapshot, p: Seq<char>) -> bool {
    merge_touches(o, t, b, w, p) && merge_work_hash(o, t, w, p) is None
}

/// The working copy of `p` differs from every committed version that the
/// merge would accept in its place.
pub open spec fn merge_dirty(o: Snapshot, t: Snapshot, b: Snapshot, w: Snapshot, p: Seq<char>) -> bool {
    &&& merge_touches(o, t, b, w, p)
    &&& merge_work_hash(o, t, w, p) is Some
    &&& {
        let h = merge_work_hash(o, t, w, p).unwrap();
        if t.contains_key(p) {
            h != t[p].0 && (!o.contains_key(p) || h != o[p].0)
        } else {
            h != o[p].0
        }
    }
}

/// Both sides changed `p` against the base, and differently.
pub open spec fn merge_clash(o: Snapshot, t: Snapshot, b: Snapshot, p: Seq<char>) -> bool {
    if t.contains_key(p) && o.contains_key(p) {
        if b.contains_key(p) {
            b[p].0 != o[p].0 && o[p].0 != t[p].0 && b[p].0 != t[p].0
        } else {
            o[p].0 != t[p].0
        }
    } else if t.contains_key(p) {
        b.contains_key(p) && b[p].0 != t[p].0
    } else if o.contains_key(p) {
        b.contains_key(p) && b[p].0 != o[p].0
    } else {
        false
    }
}

pub open spec fn merge_blocked(o: Snapshot, t: Snapshot, b: Snapshot, w: Snapshot, p: Seq<char>) -> bool {
    merge_needs_hash(o, t, b, w, p) || merge_dirty(o, t, b, w, p) || merge_clash(o, t, b, p)
}

/// The merge takes the version of `p` from theirs.
pub open spec fn takes_theirs(o: Snapshot, t: Snapshot, b: Snapshot, p: Seq<char>) -> bool {
    t.contains_key(p) && if o.contains_key(p) {
        b.contains_key(p) && b[p].0 == o[p].0 && o[p].0 != t[p].0
    } else {
        !b.contains_key(p)
    }
}

/// What the merged snapshot holds at `p`.
pub open spec fn merged_entry(o: Snapshot, t: Snapshot, b: Snapshot, p: Seq<char>) -> Option<InfoView> {
    if takes_theirs(o, t, b, p) {
        Some(t[p])
    } else if o.contains_key(p) && !is_deletion(o, t, b, p) {
        Some(o[p])
    } else {
        None
    }
}

pub open spec fn merged_map(o: Snapshot, t: Snapshot, b: Snapshot) -> Snapshot {
    Map::new(
        |p: Seq<char>| merged_entry(o, t, b, p) is Some,
        |p: Seq<char>| merged_entry(o, t, b, p).unwrap(),
    )
}

/// The changes a successful merge makes.
pub struct MergePlan {
    /// The merged snapshot: the new index and the tree of the merge commit.
    pub result: FileMap,
    /// Paths to write from the object store with their merged version.
    pub to_copy: Vec<String>,
    /// Paths to remove from the working tree.
    pub to_delete: Vec<String>,
}

pub enum MergeOutcome {
    /// The working file at this path must be hashed before planning can go on.
    NeedHash(String),
    /// The working file at this path has changes that the merge would lose.
    Uncommitted(String),
    /// Both sides changed this path.
    Conflict(String),
    Merged(MergePlan),
}

pub open spec fn merge_outcome_ok(o: Snapshot, t: Snapshot, b: Snapshot, w: Snapshot, r: MergeOutcome) -> bool {
    match r {
        MergeOutcome::NeedHash(p) => merge_needs_hash(o, t, b, w, p@),
        MergeOutcome::Uncommitted(p) => merge_dirty(o, t, b, w, p@) && !merge_needs_hash(o, t, b, w, p@),
        MergeOutcome::Conflict(p) => merge_clash(o, t, b, p@) && !merge_dirty(o, t, b, w, p@)
            && !merge_needs_hash(o, t, b, w, p@),
        MergeOutcome::Merged(plan) => {
            &&& forall|p: Seq<char>| !merge_blocked(o, t, b, w, p)
            &&& plan.result.wf()
            &&& plan.result.map() == merged_map(o, t, b)
            &&& forall|p: Seq<char>| #[trigger] strs(plan.to_copy@).contains(p) <==> takes_theirs(o, t, b, p)
            &&& forall|p: Seq<char>| #[trigger] strs(plan.to_delete@).contains(p) <==> is_deletion(o, t, b, p)
        },
    }
}

/// Plans a three-way merge of `theirs` into `ours` against their merge base,
/// with `work` the scanned working tree (an empty hash where the file has
/// not been hashed).
pub fn plan_merge(ours: &FileMap, theirs: &FileMap, base: &FileMap, work: &FileMap) -> (r: MergeOutcome)
    requires
        ours.wf(),
        theirs.wf(),
        base.wf(),
        work.wf(),
    ensures
        merge_outcome_ok(ours.map(), theirs.map(), base.map(), work.map(), r),
{
    let ghost o = ours.map();
    let ghost t = theirs.map();
    let ghost b = base.map();
    let ghost w = work.map();
    let ghost tk = theirs.keys();
    let ghost ok = ours.keys();
    proof {
        ours.lemma_map();
        theirs.lemma_map();
    }
    let mut result = FileMap::new();
    let mut to_copy: Vec<String> = Vec::new();
    let mut to_delete: Vec<String> = Vec::new();
    let mut i: usize = 0;
    while i < theirs.len()
        invariant
            ours.wf(),
            theirs.wf(),
            base.wf(),
            work.wf(),
            o == ours.map(),
            t == theirs.map(),
            b == base.map(),
            w == work.map(),
            tk == theirs.keys(),
            i <= tk.len(),
            forall|j: int| 0 <= j < i ==> !merge_blocked(o, t, b, w, #[trigger] tk[j]),
            result.wf(),
            result.map() == merged_map(o, t, b).restrict(first_keys(tk, i as int)),
            forall|p: Seq<char>| #[trigger] strs(to_copy@).contains(p) <==> (first_keys(tk, i as int).contains(p)
                && takes_theirs(o, t, b, p)),
            to_delete@.len() == 0,
        decreases tk.len() - i,
    {
        let p = theirs.path_at(i);
        let ti = theirs.info_at(i);
        let oi = ours.get(p);
        let bi = base.get(p);
        proof {
            assert(t.contains_key(p@) && t[p@] == ti@);
        }
        if let Some(wi) = work.get(p) {
            match resolve_hash(wi, Some(ti), oi) {
                None => {
                    return MergeOutcome::NeedHash(p.clone());
                },
                Some(h) => {
                    let differs_ours = match oi {
                        Some(x) => *h != x.hash,
                        None => true,
                    };
                    if *h != ti.hash && differs_ours {
                        return MergeOutcome::Uncommitted(p.clone());
                    }
                },
            }
        }
        let take: bool;
        match oi {
            Some(x) => {
                match bi {
                    Some(y) => {
                        if y.hash != x.hash && x.hash != ti.hash && y.hash != ti.hash {
                            return MergeOutcome::Conflict(p.clone());
                        }
                        take = y.hash == x.hash && x.hash != ti.hash;
                    },
                    None => {
                        if x.hash != ti.hash {
                            return MergeOutcome::Conflict(p.clone());
                        }
                        take = false;
                    },
                }
            },
            None => {
                match bi {
                    Some(y) => {
                        if y.hash != ti.hash {
                            return MergeOutcome::Conflict(p.clone());
                        }
                        take = false;
                    },
                    None => {
                        take = true;
                    },
                }
            },
        }
        proof {
            lemma_first_keys_step(tk, i as int);
        }
        if take {
            result.insert(p.clone(), ti.duplicate());
            let pc = p.clone();
            proof {
                lemma_strs_push(to_copy@, pc);
                lemma_contains_push(strs(to_copy@), pc@);
            }
            to_copy.push(pc);
        } else if let Some(x) = oi {
            result.insert(p.clone(), x.duplicate());
        }
        assert(result.map() =~= merged_map(o, t, b).restrict(first_keys(tk, i + 1)));
        assert(take == takes_theirs(o, t, b, p@));
        i = i + 1;
    }
    proof {
        lemma_first_keys_all(theirs);
    }
    let mut j: usize = 0;
    while j < ours.len()
        invariant
            ours.wf(),
            theirs.wf(),
            base.wf(),
            work.wf(),
            o == ours.map(),
            t == theirs.map(),
            b == base.map(),
            w == work.map(),
            ok == ours.keys(),
            j <= ok.len(),
            t.dom() == first_keys(tk, tk.len() as int),
            forall|p: Seq<char>| t.contains_key(p) ==> !merge_blocked(o, t, b, w, p),
            forall|k: int| 0 <= k < j ==> !merge_blocked(o, t, b, w, #[trigger] ok[k]),
            result.wf(),
            result.map() == merged_map(o, t, b).restrict(t.dom().union(first_keys(ok, j as int))),
            forall|p: Seq<char>| #[trigger] strs(to_copy@).contains(p) <==> (t.contains_key(p) && takes_theirs(o, t, b, p)),
            forall|p: Seq<char>| #[trigger] strs(to_delete@).contains(p) <==> (first_keys(ok, j as int).contains(p)
                && is_deletion(o, t, b, p)),
        decreases ok.len() - j,
    {
        let p = ours.path_at(j);
        let oi = ours.info_at(j);
        proof {
            assert(o.contains_key(p@) && o[p@] == oi@);
            lemma_first_keys_step(ok, j as int);
        }
        if !theirs.contains_key(p) {
            match base.get(p) {
                Some(y) => {
                    if let Some(wi) = work.get(p) {
                        match resolve_hash(wi, Some(oi), None) {
                            None => {
                                return MergeOutcome::NeedHash(p.clone());
                            },
                            Some(h) => {
                                if *h != oi.hash {
                                    return MergeOutcome::Uncommitted(p.clone());
                                }
                            },
                        }
                    }
                    if y.hash != oi.hash {
                        return MergeOutcome::Conflict(p.clone());
                    }
                    let pc = p.clone();
                    proof {
                        lemma_strs_push(to_delete@, pc);
                        lemma_contains_push(strs(to_delete@), pc@);
                    }
                    to_delete.push(pc);
                },
                None => {
                    result.insert(p.clone(), oi.duplicate());
                },
            }
        }
        assert(result.map() =~= merged_map(o, t, b).restrict(t.dom().union(first_keys(ok, j + 1))));
        assert(t.contains_key(p@) || (b.contains_key(p@) == is_deletion(o, t, b, p@)));
        j = j + 1;
    }
    proof {
        lemma_first_keys_all(ours);
        assert(merged_map(o, t, b).dom().subset_of(t.dom().union(o.dom())));
        assert(result.map() =~= merged_map(o, t, b));
    }
    MergeOutcome::Merged(MergePlan { result, to_copy, to_delete })
}

} // verus!
