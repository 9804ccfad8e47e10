use vstd::prelude::*;
use crate::commit::{lemma_less_trans, lemma_no_less_both, seq_less, str_less};

verus! {

/// A commit as the history listing orders it: its timestamp, then its hash.
pub type Stamp = (u64, Seq<char>);

pub open spec fn stamp_of(e: (u64, String)) -> Stamp {
    (e.0, e.1@)
}

pub open spec fn stamps(v: Seq<(u64, String)>) -> Seq<Stamp> {
    v.map_values(|e: (u64, String)| stamp_of(e))
}

/// `a` is older than `b`: an earlier timestamp, or the same one and a hash
/// that sorts first.
pub open spec fn older(a: Stamp, b: Stamp) -> bool {
    a.0 < b.0 || (a.0 == b.0 && seq_less(a.1, b.1))
}

proof fn lemma_contains_stamp_push(s: Seq<Stamp>, x: Stamp)
    ensures
        forall|y: Stamp| #[trigger] s.push(x).contains(y) <==> (s.contains(y) || y == x),
{
    assert forall|y: Stamp| #[trigger] s.push(x).contains(y) implies (s.contains(y) || y == x) by {
        let k = choose|k: int| 0 <= k < s.push(x).len() && s.push(x)[k] == y;
        if k < s.len() {
            assert(s[k] == y);
        }
    }
    assert forall|y: Stamp| (s.contains(y) || y == x) implies #[trigger] s.push(x).contains(y) by {
        if y == x {
            assert(s.push(x)[s.len() as int] == x);
        } else {
            let k = choose|k: int| 0 <= k < s.len() && s[k] == y;
            assert(s.push(x)[k] == y);
        }
    }
}

proof fn lemma_older_asym(a: Stamp, b: Stamp)
    requires
        older(a, b),
    ensures
        !older(b, a),
{
    if a.0 == b.0 {
        lemma_no_less_both(a.1, b.1);
    }
}

proof fn lemma_older_irrefl(a: Stamp)
    ensures
        !older(a, a),
{
    if older(a, a) {
        lemma_older_asym(a, a);
    }
}

proof fn lemma_older_trans(a: Stamp, b: Stamp, c: Stamp)
    requires
        !older(b, a),
        !older(c, b),
    ensures
        !older(c, a),
{
    if a.0 == b.0 && b.0 == c.0 {
        lemma_less_trans(a.1, b.1, c.1);
    }
}

fn is_older(a: &(u64, String), b: &(u64, String)) -> (r: bool)
    ensures
        r == older(stamp_of(*a), stamp_of(*b)),
{
    a.0 < b.0 || (a.0 == b.0 && str_less(a.1.as_str(), b.1.as_str()))
}

/// The walk that lists a history newest first: the commits reached but not
/// listed yet, and those listed.
pub struct LogState {
    pub pending: Vec<(u64, String)>,
    pub shown: Vec<(u64, String)>,
}

impl LogState {
    /// A walk that starts at the branch tip.
    pub fn new(timestamp: u64, tip: String) -> (r: Self)
        ensures
            stamps(r.pending@) == seq![(timestamp, tip@)],
            r.shown@.len() == 0,
    {
        let mut pending: Vec<(u64, String)> = Vec::new();
        pending.push((timestamp, tip));
        let r = LogState { pending, shown: Vec::new() };
        assert(stamps(r.pending@) =~= seq![(timestamp, r.pending@[0].1@)]);
        r
    }

    /// Records a parent of a listed commit as reached.
    pub fn reach(&mut self, timestamp: u64, hash: String)
        ensures
            stamps(final(self).pending@) == stamps(old(self).pending@).push((timestamp, hash@)),
            final(self).shown == old(self).shown,
    {
        let ghost h = hash@;
        self.pending.push((timestamp, hash));
        assert(stamps(self.pending@) =~= stamps(old(self).pending@).push((timestamp, h)));
    }

    /// Takes the newest reached commit that is not listed yet, and lists it;
    /// `None` once every reached commit is listed.
    pub fn next(&mut self) -> (r: Option<(u64, String)>)
        ensures
            forall|y: Stamp|
                #![trigger stamps(final(self).pending@).contains(y)]
                stamps(old(self).pending@).contains(y) && !stamps(final(self).shown@).contains(y) ==> stamps(
                    final(self).pending@,
                ).contains(y),
            forall|y: Stamp|
                #![trigger stamps(final(self).pending@).contains(y)]
                stamps(final(self).pending@).contains(y) ==> stamps(old(self).pending@).contains(y),
            r is None ==> forall|y: Stamp| #[trigger] stamps(old(self).pending@).contains(y) ==> stamps(
                old(self).shown@,
            ).contains(y),
            r matches Some(x) ==> {
                &&& stamps(old(self).pending@).contains(stamp_of(x))
                &&& !stamps(old(self).shown@).contains(stamp_of(x))
                &&& forall|y: Stamp|
                    #![trigger stamps(old(self).pending@).contains(y)]
                    stamps(old(self).pending@).contains(y) && !stamps(old(self).shown@).contains(y) ==> !older(
                        stamp_of(x),
                        y,
                    )
                &&& stamps(final(self).shown@) == stamps(old(self).shown@).push(stamp_of(x))
            },
    {
        let ghost orig = stamps(self.pending@);
        let ghost seen = stamps(self.shown@);
        while self.pending.len() > 0
            invariant
                seen == stamps(self.shown@),
                orig == stamps(old(self).pending@),
                seen == stamps(old(self).shown@),
                forall|y: Stamp| orig.contains(y) ==> seen.contains(y) || #[trigger] stamps(self.pending@).contains(y),
                forall|y: Stamp| #[trigger] stamps(self.pending@).contains(y) ==> orig.contains(y),
            decreases self.pending@.len(),
        {
            let n = self.pending.len();
            let mut best: usize = 0;
            let mut k: usize = 1;
            proof {
                lemma_older_irrefl(stamp_of(self.pending@[0]));
            }
            while k < n
                invariant
                    n == self.pending@.len(),
                    best < n,
                    1 <= k <= n,
                    forall|j: int| 0 <= j < k ==> !older(
                        stamp_of(self.pending@[best as int]),
                        #[trigger] stamp_of(self.pending@[j]),
                    ),
                decreases n - k,
            {
                if is_older(&self.pending[best], &self.pending[k]) {
                    proof {
                        lemma_older_asym(stamp_of(self.pending@[best as int]), stamp_of(self.pending@[k as int]));
                        assert forall|j: int| 0 <= j < k + 1 implies !older(
                            stamp_of(self.pending@[k as int]),
                            #[trigger] stamp_of(self.pending@[j]),
                        ) by {
                            if j == k {
                                lemma_older_irrefl(stamp_of(self.pending@[k as int]));
                            } else {
                                lemma_older_trans(
                                    stamp_of(self.pending@[j]),
                                    stamp_of(self.pending@[best as int]),
                                    stamp_of(self.pending@[k as int]),
                                );
                            }
                        }
                    }
                    best = k;
                }
                k = k + 1;
            }
            let ghost before = self.pending@;
            let x = self.pending.remove(best);
            assert(stamps(before)[best as int] == stamp_of(x));
            let mut dup = false;
            let mut q: usize = 0;
            while q < self.shown.len()
                invariant
                    q <= self.shown@.len(),
                    dup ==> stamps(self.shown@).contains(stamp_of(x)),
                    !dup ==> forall|j: int| 0 <= j < q ==> stamps(self.shown@)[j] != stamp_of(x),
                decreases self.shown@.len() - q,
            {
                if !dup && self.shown[q].0 == x.0 && self.shown[q].1 == x.1 {
                    assert(stamps(self.shown@)[q as int] == stamp_of(x));
                    dup = true;
                }
                q = q + 1;
            }
            proof {
                assert forall|y: Stamp| orig.contains(y) && !seen.contains(y) implies (y == stamp_of(x)
                    || stamps(self.pending@).contains(y)) by {
                    assert(stamps(before).contains(y));
                    let j = choose|j: int| 0 <= j < stamps(before).len() && stamps(before)[j] == y;
                    if j != best {
                        let nj = if j < best { j } else { j - 1 };
                        assert(self.pending@[nj] == before[j]);
                        assert(stamps(self.pending@)[nj] == y);
                    }
                }
                assert forall|y: Stamp| #[trigger] stamps(self.pending@).contains(y) implies orig.contains(y) by {
                    let j = choose|j: int| 0 <= j < stamps(self.pending@).len() && stamps(self.pending@)[j] == y;
                    let oj = if j < best { j } else { j + 1 };
                    assert(self.pending@[j] == before[oj]);
                    assert(stamps(before)[oj] == y);
                    assert(stamps(before).contains(y));
                }
            }
            if !dup {
                proof {
                    assert(stamps(before).contains(stamp_of(x)));
                    assert(orig.contains(stamp_of(x)));
                    assert(!seen.contains(stamp_of(x))) by {
                        if seen.contains(stamp_of(x)) {
                            let j = choose|j: int| 0 <= j < seen.len() && seen[j] == stamp_of(x);
                            assert(stamps(self.shown@)[j] != stamp_of(x));
                        }
                    }
                    assert forall|y: Stamp|
                        #![trigger orig.contains(y)]
                        orig.contains(y) && !seen.contains(y) implies !older(stamp_of(x), y) by {
                        assert(stamps(before).contains(y));
                        let j = choose|j: int| 0 <= j < stamps(before).len() && stamps(before)[j] == y;
                        assert(!older(stamp_of(before[best as int]), stamp_of(before[j])));
                    }
                }
                let xs = (x.0, x.1.clone());
                let ghost sv = stamps(self.shown@);
                self.shown.push(xs);
                assert(stamps(self.shown@) =~= sv.push(stamp_of(x)));
                proof {
                    lemma_contains_stamp_push(sv, stamp_of(x));
                    assert forall|y: Stamp|
                        orig.contains(y) && !stamps(self.shown@).contains(y) implies #[trigger] stamps(self.pending@).contains(y) by {
                        assert(!seen.contains(y) && y != stamp_of(x));
                    }
                }
                return Some(x);
            }
        }
        assert(stamps(self.pending@) =~= Seq::<Stamp>::empty());
        assert forall|y: Stamp| #[trigger] orig.contains(y) implies seen.contains(y) by {
            assert(!stamps(self.pending@).contains(y));
        }
        None
    }
}

} // verus!
