use vstd::prelude::*;
use crate::path::FileInfo;

verus! {

/// What a file map holds for one path: the content hash and the timestamp.
pub type InfoView = (Seq<char>, u64);

/// A mapping from repository-relative path to `FileInfo`, kept as a list of
/// entries with pairwise distinct paths.
pub struct FileMap {
    entries: Vec<(String, FileInfo)>,
}

impl FileMap {
    /// The paths, in entry order.
    pub closed spec fn keys(&self) -> Seq<Seq<char>> {
        self.entries@.map_values(|e: (String, FileInfo)| e.0@)
    }

    /// The file information, in entry order.
    pub closed spec fn vals(&self) -> Seq<InfoView> {
        self.entries@.map_values(|e: (String, FileInfo)| e.1@)
    }

    pub open spec fn wf(&self) -> bool {
        &&& self.keys().len() == self.vals().len()
        &&& self.keys().no_duplicates()
    }

    /// The path-to-info map that the entries stand for.
    pub open spec fn map(&self) -> Map<Seq<char>, InfoView> {
        Map::new(
            |k: Seq<char>| self.keys().contains(k),
            |k: Seq<char>| self.vals()[self.keys().index_of(k)],
        )
    }

    pub proof fn lemma_map(&self)
        requires
            self.wf(),
        ensures
            forall|i: int|
                #![trigger self.keys()[i]]
                0 <= i < self.keys().len() ==> self.map().contains_key(self.keys()[i])
                    && self.map()[self.keys()[i]] == self.vals()[i],
            forall|k: Seq<char>| #[trigger]
                self.map().contains_key(k) <==> self.keys().contains(k),
            self.map().dom().finite(),
            self.map().dom().len() == self.keys().len(),
    {
        assert forall|i: int| #![trigger self.keys()[i]] 0 <= i < self.keys().len() implies self.map().contains_key(self.keys()[i])
            && self.map()[self.keys()[i]] == self.vals()[i] by {
            assert(self.keys().contains(self.keys()[i]));
            let j = self.keys().index_of(self.keys()[i]);
            assert(self.keys()[j] == self.keys()[i]);
        }
        self.keys().unique_seq_to_set();
        assert(self.map().dom() =~= self.keys().to_set());
    }

    pub fn new() -> (r: Self)
        ensures
            r.wf(),
            r.keys().len() == 0,
            r.map() == Map::<Seq<char>, InfoView>::empty(),
    {
        let r = FileMap { entries: Vec::new() };
        assert(r.map() =~= Map::<Seq<char>, InfoView>::empty());
        r
    }

    pub fn len(&self) -> (r: usize)
        ensures
            r == self.keys().len(),
    {
        self.entries.len()
    }

    pub fn is_empty(&self) -> (r: bool)
        requires
            self.wf(),
        ensures
            r == (self.map().dom().len() == 0),
            r == (self.keys().len() == 0),
    {
        proof {
            self.lemma_map();
        }
        self.entries.len() == 0
    }

    /// The path of the entry at position `i`.
    pub fn path_at(&self, i: usize) -> (r: &String)
        requires
            i < self.keys().len(),
        ensures
            r@ == self.keys()[i as int],
    {
        &self.entries[i].0
    }

    /// The file information of the entry at position `i`.
    pub fn info_at(&self, i: usize) -> (r: &FileInfo)
        requires
            i < self.keys().len(),
        ensures
            r@ == self.vals()[i as int],
    {
        &self.entries[i].1
    }

    /// The position of `key` among the entries, if it is there.
    pub fn find(&self, key: &String) -> (r: Option<usize>)
        requires
            self.wf(),
        ensures
            r matches Some(i) ==> i < self.keys().len() && self.keys()[i as int] == key@,
            r is None <==> !self.map().contains_key(key@),
    {
        proof {
            self.lemma_map();
        }
        let mut i: usize = 0;
        while i < self.entries.len()
            invariant
                self.wf(),
                i <= self.keys().len(),
                forall|j: int| 0 <= j < i ==> self.keys()[j] != key@,
            decreases self.keys().len() - i,
        {
            if self.entries[i].0 == *key {
                assert(self.keys()[i as int] == self.entries@[i as int].0@);
                return Some(i);
            }
            i = i + 1;
        }
        None
    }

    pub fn contains_key(&self, key: &String) -> (r: bool)
        requires
            self.wf(),
        ensures
            r == self.map().contains_key(key@),
    {
        self.find(key).is_some()
    }

    pub fn get(&self, key: &String) -> (r: Option<&FileInfo>)
        requires
            self.wf(),
        ensures
            r matches Some(v) ==> self.map().contains_key(key@) && self.map()[key@] == v@,
            r is None <==> !self.map().contains_key(key@),
    {
        proof {
            self.lemma_map();
        }
        match self.find(key) {
            Some(i) => Some(&self.entries[i].1),
            None => None,
        }
    }

    /// Removes the entry for `key`, if any.
    pub fn remove(&mut self, key: &String)
        requires
            old(self).wf(),
        ensures
            final(self).wf(),
            final(self).map() == old(self).map().remove(key@),
    {
        proof {
            old(self).lemma_map();
        }
        match self.find(key) {
            None => {
                assert(self.map() =~= old(self).map().remove(key@));
            },
            Some(i) => {
                let ghost ok = old(self).keys();
                let ghost ov = old(self).vals();
                self.entries.remove(i);
                assert(self.keys() =~= ok.remove(i as int));
                assert(self.vals() =~= ov.remove(i as int));
                assert(self.wf()) by {
                    assert forall|a: int, b: int|
                        0 <= a < b < self.keys().len() implies self.keys()[a] != self.keys()[b] by {
                        let oa = if a < i { a } else { a + 1 };
                        let ob = if b < i { b } else { b + 1 };
                        assert(self.keys()[a] == ok[oa]);
                        assert(self.keys()[b] == ok[ob]);
                    }
                }
                proof {
                    self.lemma_map();
                }
                assert forall|k: Seq<char>| #[trigger]
                    old(self).map().remove(key@).contains_key(k) implies self.map().contains_key(k)
                    && self.map()[k] == old(self).map()[k] by {
                    let j = ok.index_of(k);
                    assert(ok[j] == k);
                    assert(j != i);
                    let nj = if j < i { j } else { j - 1 };
                    assert(self.keys()[nj] == k);
                }
                assert(self.map() =~= old(self).map().remove(key@));
            },
        }
    }

    /// Sets the entry for `key` to `info`, replacing any earlier one.
    pub fn insert(&mut self, key: String, info: FileInfo)
        requires
            old(self).wf(),
        ensures
            final(self).wf(),
            final(self).map() == old(self).map().insert(key@, info@),
    {
        self.remove(&key);
        proof {
            self.lemma_map();
        }
        let ghost mid = *self;
        let ghost kv = key@;
        let ghost iv = info@;
        self.entries.push((key, info));
        assert(self.keys() =~= mid.keys().push(kv));
        assert(self.vals() =~= mid.vals().push(iv));
        assert(self.wf()) by {
            assert(!mid.keys().contains(kv));
            assert forall|a: int, b: int|
                0 <= a < b < self.keys().len() implies self.keys()[a] != self.keys()[b] by {
                if b == mid.keys().len() {
                    assert(mid.keys()[a] == self.keys()[a]);
                }
            }
        }
        proof {
            self.lemma_map();
            assert(self.keys()[mid.keys().len() as int] == kv);
            assert(self.vals()[mid.keys().len() as int] == iv);
            assert(self.map().contains_key(kv) && self.map()[kv] == iv);
            assert(mid.map() == old(self).map().remove(kv));
        }
        assert forall|k: Seq<char>| #[trigger] mid.map().contains_key(k) implies self.map().contains_key(k)
            && self.map()[k] == mid.map()[k] by {
            let j = mid.keys().index_of(k);
            assert(mid.keys()[j] == k);
            assert(self.keys()[j] == k);
            assert(self.vals()[j] == mid.vals()[j]);
        }
        assert forall|k: Seq<char>| #[trigger] self.map().contains_key(k) implies k == kv
            || mid.map().contains_key(k) by {
            let j = self.keys().index_of(k);
            assert(self.keys()[j] == k);
            if j < mid.keys().len() {
                assert(mid.keys()[j] == k);
            }
        }
        assert forall|k: Seq<char>| #[trigger] old(self).map().insert(kv, iv).contains_key(k)
            implies self.map().contains_key(k) && self.map()[k] == old(self).map().insert(kv, iv)[k] by {
            if k != kv {
                assert(mid.map().contains_key(k));
            }
        }
        assert(self.map() =~= old(self).map().insert(kv, iv));
    }
}

} // verus!

verus! {

/// The entry of `m` at `p`, if any.
pub open spec fn entry(m: Map<Seq<char>, InfoView>, p: Seq<char>) -> Option<InfoView> {
    if m.contains_key(p) {
        Some(m[p])
    } else {
        None
    }
}

/// The paths among the first `n` of `keys`.
pub open spec fn first_keys(keys: Seq<Seq<char>>, n: int) -> Set<Seq<char>> {
    Set::new(|p: Seq<char>| exists|j: int| 0 <= j < n && keys[j] == p)
}

/// The views of a list of strings.
pub open spec fn strs(v: Seq<String>) -> Seq<Seq<char>> {
    v.map_values(|s: String| s@)
}

pub proof fn lemma_first_keys_step(keys: Seq<Seq<char>>, n: int)
    requires
        0 <= n < keys.len(),
    ensures
        first_keys(keys, n + 1) == first_keys(keys, n).insert(keys[n]),
{
    assert forall|p: Seq<char>| #[trigger] first_keys(keys, n + 1).contains(p) implies first_keys(
        keys,
        n,
    ).insert(keys[n]).contains(p) by {
        let j = choose|j: int| 0 <= j < n + 1 && keys[j] == p;
        if j < n {
            assert(first_keys(keys, n).contains(p));
        }
    }
    assert forall|p: Seq<char>| #[trigger] first_keys(keys, n).insert(keys[n]).contains(p) implies first_keys(
        keys,
        n + 1,
    ).contains(p) by {
        if p != keys[n] {
            let j = choose|j: int| 0 <= j < n && keys[j] == p;
            assert(0 <= j < n + 1 && keys[j] == p);
        }
    }
    assert(first_keys(keys, n + 1) =~= first_keys(keys, n).insert(keys[n]));
}

pub proof fn lemma_first_keys_all(m: &FileMap)
    requires
        m.wf(),
    ensures
        first_keys(m.keys(), m.keys().len() as int) == m.map().dom(),
{
    m.lemma_map();
    assert forall|p: Seq<char>| #[trigger] m.map().dom().contains(p) implies first_keys(
        m.keys(),
        m.keys().len() as int,
    ).contains(p) by {
        let j = m.keys().index_of(p);
        assert(m.keys()[j] == p);
    }
    assert(first_keys(m.keys(), m.keys().len() as int) =~= m.map().dom());
}

pub proof fn lemma_strs_push(v: Seq<String>, s: String)
    ensures
        strs(v.push(s)) == strs(v).push(s@),
{
    assert(strs(v.push(s)) =~= strs(v).push(s@));
}

} // verus!

verus! {

pub proof fn lemma_contains_push(s: Seq<Seq<char>>, x: Seq<char>)
    ensures
        forall|y: Seq<char>| #[trigger] s.push(x).contains(y) <==> (s.contains(y) || y == x),
{
    assert forall|y: Seq<char>| #[trigger] s.push(x).contains(y) implies (s.contains(y) || y == x) by {
        let k = choose|k: int| 0 <= k < s.push(x).len() && s.push(x)[k] == y;
        if k < s.len() {
            assert(s[k] == y);
        }
    }
    assert forall|y: Seq<char>| (s.contains(y) || y == x) implies #[trigger] s.push(x).contains(y) by {
        if y == x {
            assert(s.push(x)[s.len() as int] == x);
        } else {
            let k = choose|k: int| 0 <= k < s.len() && s[k] == y;
            assert(s.push(x)[k] == y);
        }
    }
}

} // verus!
