use vstd::prelude::*;
use crate::file_map::{lemma_contains_push, lemma_strs_push, strs};

verus! {

/// The parent links of the commits in a repository: commit hash to the list
/// of its parents' hashes. An empty string among the parents stands for no
/// parent.
pub struct CommitGraph {
    entries: Vec<(String, Vec<String>)>,
}

pub type Links = Map<Seq<char>, Seq<Seq<char>>>;

impl CommitGraph {
    pub closed spec fn keys(&self) -> Seq<Seq<char>> {
        self.entries@.map_values(|e: (String, Vec<String>)| e.0@)
    }

    pub closed spec fn vals(&self) -> Seq<Seq<Seq<char>>> {
        self.entries@.map_values(|e: (String, Vec<String>)| strs(e.1@))
    }

    pub open spec fn wf(&self) -> bool {
        &&& self.keys().len() == self.vals().len()
        &&& self.keys().no_duplicates()
    }

    pub open spec fn links(&self) -> Links {
        Map::new(
            |k: Seq<char>| self.keys().contains(k),
            |k: Seq<char>| self.vals()[self.keys().index_of(k)],
        )
    }

    pub proof fn lemma_links(&self)
        requires
            self.wf(),
        ensures
            forall|i: int|
                #![trigger self.keys()[i]]
                0 <= i < self.keys().len() ==> self.links().contains_key(self.keys()[i])
                    && self.links()[self.keys()[i]] == self.vals()[i],
            forall|k: Seq<char>| #[trigger] self.links().contains_key(k) <==> self.keys().contains(k),
            self.links().dom().finite(),
    {
        assert forall|i: int| #![trigger self.keys()[i]] 0 <= i < self.keys().len() implies self.links().contains_key(
            self.keys()[i],
        ) && self.links()[self.keys()[i]] == self.vals()[i] by {
            assert(self.keys().contains(self.keys()[i]));
            let j = self.keys().index_of(self.keys()[i]);
            assert(self.keys()[j] == self.keys()[i]);
        }
        assert(self.links().dom() =~= self.keys().to_set());
    }

    pub fn new() -> (r: Self)
        ensures
            r.wf(),
            r.links() == Links::empty(),
    {
        let r = CommitGraph { entries: Vec::new() };
        assert(r.links() =~= Links::empty());
        r
    }

    /// Records the parents of commit `hash`; a commit already recorded keeps
    /// its first record.
    pub fn add(&mut self, hash: String, parents: Vec<String>)
        requires
            old(self).wf(),
        ensures
            final(self).wf(),
            !old(self).links().contains_key(hash@) ==> final(self).links() == old(self).links().insert(
                hash@,
                strs(parents@),
            ),
            old(self).links().contains_key(hash@) ==> final(self).links() == old(self).links(),
    {
        proof {
            self.lemma_links();
        }
        if self.parents_of(&hash).is_some() {
            return;
        }
        let ghost mid = *self;
        let ghost hv = hash@;
        let ghost pv = strs(parents@);
        self.entries.push((hash, parents));
        assert(self.keys() =~= mid.keys().push(hv));
        assert(self.vals() =~= mid.vals().push(pv));
        assert forall|a: int, b: int| 0 <= a < b < self.keys().len() implies self.keys()[a] != self.keys()[b] by {
            if b == mid.keys().len() {
                assert(mid.keys()[a] == self.keys()[a]);
                assert(mid.keys().contains(self.keys()[a]));
            }
        }
        proof {
            self.lemma_links();
            assert(self.keys()[mid.keys().len() as int] == hv);
        }
        assert forall|k: Seq<char>| #[trigger] mid.links().insert(hv, pv).contains_key(k) implies self.links().contains_key(
            k,
        ) && self.links()[k] == mid.links().insert(hv, pv)[k] by {
            if k != hv {
                let j = mid.keys().index_of(k);
                assert(mid.keys()[j] == k);
                assert(self.keys()[j] == k);
            }
        }
        assert forall|k: Seq<char>| #[trigger] self.links().contains_key(k) implies mid.links().insert(
            hv,
            pv,
        ).contains_key(k) by {
            let j = self.keys().index_of(k);
            assert(self.keys()[j] == k);
            if j < mid.keys().len() {
                assert(mid.keys()[j] == k);
            }
        }
        assert(self.links() =~= mid.links().insert(hv, pv));
    }

    /// The parents recorded for commit `hash`.
    pub fn parents_of(&self, hash: &String) -> (r: Option<&Vec<String>>)
        requires
            self.wf(),
        ensures
            r matches Some(v) ==> self.links().contains_key(hash@) && self.links()[hash@] == strs(v@),
            r is None <==> !self.links().contains_key(hash@),
    {
        proof {
            self.lemma_links();
        }
        let mut i: usize = 0;
        while i < self.entries.len()
            invariant
                self.wf(),
                i <= self.keys().len(),
                forall|j: int| 0 <= j < i ==> self.keys()[j] != hash@,
            decreases self.keys().len() - i,
        {
            if self.entries[i].0 == *hash {
                assert(self.keys()[i as int] == hash@);
                assert(self.vals()[i as int] == strs(self.entries@[i as int].1@));
                return Some(&self.entries[i].1);
            }
            i = i + 1;
        }
        None
    }
}

/// `b` is a recorded parent of commit `a`.
pub open spec fn edge(g: Links, a: Seq<char>, b: Seq<char>) -> bool {
    g.contains_key(a) && g[a].contains(b) && b.len() > 0
}

/// `b` is `a`, or can be reached from it by following at most `n` parent links.
pub open spec fn reaches(g: Links, a: Seq<char>, b: Seq<char>, n: nat) -> bool
    decreases n,
{
    a.len() > 0 && (a == b || (n > 0 && exists|c: Seq<char>| edge(g, a, c) && reaches(g, c, b, (n - 1) as nat)))
}

/// `b` is commit `a` itself or one of its ancestors.
pub open spec fn is_ancestor(g: Links, a: Seq<char>, b: Seq<char>) -> bool {
    exists|n: nat| reaches(g, a, b, n)
}

pub open spec fn common_ancestor(g: Links, a: Seq<char>, b: Seq<char>, x: Seq<char>) -> bool {
    is_ancestor(g, a, x) && is_ancestor(g, b, x)
}

pub proof fn lemma_reaches_step(g: Links, s: Seq<char>, x: Seq<char>, c: Seq<char>, n: nat)
    requires
        reaches(g, s, x, n),
        edge(g, x, c),
    ensures
        reaches(g, s, c, n + 1),
    decreases n,
{
    assert(reaches(g, c, c, n));
    if s != x {
        let d = choose|d: Seq<char>| edge(g, s, d) && reaches(g, d, x, (n - 1) as nat);
        lemma_reaches_step(g, d, x, c, (n - 1) as nat);
        assert(reaches(g, d, c, n));
    }
}

/// A set of commits closed under parent links holds every ancestor of its members.
pub proof fn lemma_closed_holds(g: Links, v: Seq<Seq<char>>, a: Seq<char>, b: Seq<char>, n: nat)
    requires
        v.contains(a),
        forall|x: Seq<char>, c: Seq<char>| v.contains(x) && #[trigger] edge(g, x, c) ==> v.contains(c),
        reaches(g, a, b, n),
    ensures
        v.contains(b),
    decreases n,
{
    if a != b {
        let d = choose|d: Seq<char>| edge(g, a, d) && reaches(g, d, b, (n - 1) as nat);
        lemma_closed_holds(g, v, d, b, (n - 1) as nat);
    }
}

/// Whether `s` is among the strings of `v`.
pub fn contains_str(v: &Vec<String>, s: &String) -> (r: bool)
    ensures
        r == strs(v@).contains(s@),
{
    let mut i: usize = 0;
    while i < v.len()
        invariant
            i <= v@.len(),
            forall|j: int| 0 <= j < i ==> strs(v@)[j] != s@,
        decreases v@.len() - i,
    {
        if v[i] == *s {
            assert(strs(v@)[i as int] == s@);
            return true;
        }
        i = i + 1;
    }
    false
}

proof fn lemma_bounded_by_graph(v: Seq<Seq<char>>, n: int, g: Links)
    requires
        g.dom().finite(),
        v.no_duplicates(),
        0 <= n <= v.len(),
        forall|j: int| 0 <= j < n ==> g.contains_key(#[trigger] v[j]),
    ensures
        n <= g.dom().len(),
{
    let s = v.subrange(0, n);
    assert(s.no_duplicates());
    s.unique_seq_to_set();
    assert(s.to_set().subset_of(g.dom())) by {
        assert forall|x: Seq<char>| s.to_set().contains(x) implies g.dom().contains(x) by {
            let j = choose|j: int| 0 <= j < s.len() && s[j] == x;
            assert(v[j] == x);
        }
    }
    vstd::set_lib::lemma_len_subset(s.to_set(), g.dom());
}

/// Walks the ancestors of `start` breadth-first and stops at the first one
/// found in `stop`. Without such a stop, returns every ancestor. `Err` names
/// a commit on the way that the graph does not record.
fn breadth_first(g: &CommitGraph, start: &String, stop: &Vec<String>) -> (r: Result<(Vec<String>, Option<String>), String>)
    requires
        g.wf(),
        start@.len() > 0,
    ensures
        r matches Ok((v, Some(x))) ==> is_ancestor(g.links(), start@, x@) && strs(stop@).contains(x@),
        r matches Ok((v, None)) ==> forall|x: Seq<char>| strs(v@).contains(x) <==> is_ancestor(g.links(), start@, x),
        r matches Ok((v, None)) ==> forall|x: Seq<char>| is_ancestor(g.links(), start@, x) ==> !strs(stop@).contains(x),
        r matches Err(h) ==> is_ancestor(g.links(), start@, h@) && !g.links().contains_key(h@),
{
    let ghost l = g.links();
    proof {
        g.lemma_links();
        assert(reaches(l, start@, start@, 0));
    }
    let mut visited: Vec<String> = Vec::new();
    visited.push(start.clone());
    let mut head: usize = 0;
    assert(strs(visited@) =~= seq![start@]);
    while head < visited.len()
        invariant
            g.wf(),
            l == g.links(),
            l.dom().finite(),
            strs(visited@).len() > 0,
            strs(visited@)[0] == start@,
            strs(visited@).no_duplicates(),
            head <= visited@.len(),
            forall|j: int| 0 <= j < visited@.len() ==> is_ancestor(l, start@, #[trigger] strs(visited@)[j]),
            forall|j: int| 0 <= j < head ==> l.contains_key(#[trigger] strs(visited@)[j]),
            forall|j: int| 0 <= j < head ==> !strs(stop@).contains(#[trigger] strs(visited@)[j]),
            forall|j: int, c: Seq<char>|
                0 <= j < head && #[trigger] edge(l, strs(visited@)[j], c) ==> strs(visited@).contains(c),
        decreases l.dom().len() - head,
    {
        let x = &visited[head];
        assert(strs(visited@)[head as int] == x@);
        if contains_str(stop, x) {
            return Ok((visited.clone(), Some(x.clone())));
        }
        let parents = match g.parents_of(x) {
            Some(p) => p,
            None => {
                return Err(x.clone());
            },
        };
        let ghost xv = x@;
        let ghost xn = choose|n: nat| reaches(l, start@, xv, n);
        let parents = parents.clone();
        let mut k: usize = 0;
        while k < parents.len()
            invariant
                g.wf(),
                l == g.links(),
                l.dom().finite(),
                l.contains_key(xv),
                l[xv] == strs(parents@),
                reaches(l, start@, xv, xn),
                strs(visited@).len() > 0,
                strs(visited@)[0] == start@,
                strs(visited@)[head as int] == xv,
                strs(visited@).no_duplicates(),
                head < visited@.len(),
                k <= parents@.len(),
                forall|j: int| 0 <= j < visited@.len() ==> is_ancestor(l, start@, #[trigger] strs(visited@)[j]),
                forall|j: int| 0 <= j < head ==> l.contains_key(#[trigger] strs(visited@)[j]),
                forall|j: int| 0 <= j <= head ==> !strs(stop@).contains(#[trigger] strs(visited@)[j]),
                forall|j: int, c: Seq<char>|
                    0 <= j < head && #[trigger] edge(l, strs(visited@)[j], c) ==> strs(visited@).contains(c),
                forall|q: int| 0 <= q < k && strs(parents@)[q].len() > 0 ==> strs(visited@).contains(
                    #[trigger] strs(parents@)[q],
                ),
            decreases parents@.len() - k,
        {
            let p = &parents[k];
            assert(strs(parents@)[k as int] == p@);
            let ghost before = visited@;
            if !p.as_str().is_empty() && !contains_str(&visited, p) {
                proof {
                    assert(l[xv].contains(p@));
                    lemma_reaches_step(l, start@, xv, p@, xn);
                }
                let pc = p.clone();
                proof {
                    lemma_strs_push(visited@, pc);
                    lemma_contains_push(strs(visited@), pc@);
                }
                visited.push(pc);
                assert forall|a: int, b: int| 0 <= a < b < strs(visited@).len() implies strs(visited@)[a] != strs(
                    visited@,
                )[b] by {
                    if b == before.len() {
                        assert(strs(before)[a] == strs(visited@)[a]);
                        assert(strs(before).contains(strs(visited@)[a]));
                    } else {
                        assert(strs(before)[a] == strs(visited@)[a]);
                        assert(strs(before)[b] == strs(visited@)[b]);
                    }
                }
                assert forall|j: int| 0 <= j < visited@.len() implies is_ancestor(l, start@, #[trigger] strs(visited@)[j]) by {
                    if j < before.len() {
                        assert(strs(before)[j] == strs(visited@)[j]);
                    } else {
                        assert(reaches(l, start@, p@, xn + 1));
                    }
                }
                assert forall|j: int, c: Seq<char>| 0 <= j < head && #[trigger] edge(l, strs(visited@)[j], c) implies strs(
                    visited@,
                ).contains(c) by {
                    assert(strs(before)[j] == strs(visited@)[j]);
                    assert(strs(before).contains(c));
                }
                assert forall|j: int| 0 <= j <= head implies !strs(stop@).contains(#[trigger] strs(visited@)[j]) by {
                    assert(strs(before)[j] == strs(visited@)[j]);
                }
            }
            k = k + 1;
        }
        proof {
            assert forall|c: Seq<char>| edge(l, xv, c) implies strs(visited@).contains(c) by {
                let q = strs(parents@).index_of(c);
                assert(strs(parents@)[q] == c);
            }
            lemma_bounded_by_graph(strs(visited@), head + 1, l);
        }
        head = head + 1;
    }
    proof {
        assert forall|x: Seq<char>, c: Seq<char>| strs(visited@).contains(x) && #[trigger] edge(l, x, c) implies strs(
            visited@,
        ).contains(c) by {
            let j = choose|j: int| 0 <= j < strs(visited@).len() && strs(visited@)[j] == x;
            assert(edge(l, strs(visited@)[j], c));
        }
        assert forall|x: Seq<char>| is_ancestor(l, start@, x) implies strs(visited@).contains(x) by {
            let n = choose|n: nat| reaches(l, start@, x, n);
            assert(strs(visited@).contains(start@)) by {
                assert(strs(visited@)[0] == start@);
            }
            lemma_closed_holds(l, strs(visited@), start@, x, n);
        }
        assert forall|x: Seq<char>| is_ancestor(l, start@, x) implies !strs(stop@).contains(x) by {
            let j = choose|j: int| 0 <= j < strs(visited@).len() && strs(visited@)[j] == x;
            assert(!strs(stop@).contains(strs(visited@)[j]));
        }
    }
    Ok((visited, None))
}

/// What a merge-base search of `a` and `b` may return.
pub open spec fn merge_base_ok(g: Links, a: Seq<char>, b: Seq<char>, r: Result<Option<String>, String>) -> bool {
    match r {
        Ok(Some(x)) => common_ancestor(g, a, b, x@),
        Ok(None) => forall|x: Seq<char>| !common_ancestor(g, a, b, x),
        Err(h) => !g.contains_key(h@) && (is_ancestor(g, a, h@) || is_ancestor(g, b, h@)),
    }
}

/// The merge base does not depend on the order of the two commits, up to
/// the choice among several lowest common ancestors: a base found in either
/// order is a common ancestor of the pair taken the other way round, and
/// when both searches succeed, one finds no base exactly when the other
/// finds none.
pub proof fn lemma_merge_base_symmetric(
    g: Links,
    a: Seq<char>,
    b: Seq<char>,
    r1: Result<Option<String>, String>,
    r2: Result<Option<String>, String>,
)
    requires
        merge_base_ok(g, a, b, r1),
        merge_base_ok(g, b, a, r2),
    ensures
        r1 matches Ok(Some(x)) ==> common_ancestor(g, b, a, x@),
        r2 matches Ok(Some(y)) ==> common_ancestor(g, a, b, y@),
        r1 is Ok && r2 is Ok ==> (r1 matches Ok(None) <==> r2 matches Ok(None)),
{
    if let Ok(Some(x)) = r1 {
        if let Ok(None) = r2 {
            assert(!common_ancestor(g, b, a, x@));
        }
    }
    if let Ok(Some(y)) = r2 {
        if let Ok(None) = r1 {
            assert(!common_ancestor(g, a, b, y@));
        }
    }
}

proof fn lemma_empty_has_no_ancestors(g: Links, a: Seq<char>)
    requires
        a.len() == 0,
    ensures
        forall|x: Seq<char>| !is_ancestor(g, a, x),
{
    assert forall|x: Seq<char>| !is_ancestor(g, a, x) by {
        assert forall|n: nat| !reaches(g, a, x, n) by {}
    }
}

/// The merge base of two commits: the first common ancestor met when
/// walking back from `target_commit` breadth-first. `Ok(None)` when the
/// histories share no commit (an empty hash has no history); `Err` names a
/// commit on the way that the graph does not record.
pub fn find_base_commit(current_commit: &String, target_commit: &String, graph: &CommitGraph) -> (r: Result<
    Option<String>,
    String,
>)
    requires
        graph.wf(),
    ensures
        merge_base_ok(graph.links(), current_commit@, target_commit@, r),
{
    if current_commit.as_str().is_empty() {
        proof {
            lemma_empty_has_no_ancestors(graph.links(), current_commit@);
        }
        return Ok(None);
    }
    if target_commit.as_str().is_empty() {
        proof {
            lemma_empty_has_no_ancestors(graph.links(), target_commit@);
        }
        return Ok(None);
    }
    let none: Vec<String> = Vec::new();
    let ours = match breadth_first(graph, current_commit, &none) {
        Ok((v, found)) => {
            if found.is_some() {
                assert(strs(none@) =~= Seq::<Seq<char>>::empty());
                return Ok(None);
            }
            v
        },
        Err(h) => {
            return Err(h);
        },
    };
    match breadth_first(graph, target_commit, &ours) {
        Ok((_, found)) => {
            proof {
                if found is None {
                    assert forall|x: Seq<char>| !common_ancestor(graph.links(), current_commit@, target_commit@, x) by {
                        if is_ancestor(graph.links(), target_commit@, x) {
                            assert(!strs(ours@).contains(x));
                        }
                    }
                }
            }
            Ok(found)
        },
        Err(h) => Err(h),
    }
}

} // verus!
