use vstd::prelude::*;
use vstd::string::*;

verus! {

/// The separator used inside stored paths.
pub open spec fn sep() -> char {
    '/'
}

/// What `PathBuf::push` does on POSIX: an absolute part replaces the path,
/// otherwise a separator is added when the path is non-empty and does not
/// already end in one.
pub open spec fn join_step(acc: Seq<char>, part: Seq<char>) -> Seq<char> {
    if part.len() > 0 && part[0] == sep() {
        part
    } else if acc.len() > 0 && acc.last() != sep() {
        acc + seq![sep()] + part
    } else {
        acc + part
    }
}

/// The path obtained by pushing every part, in order, onto an empty path.
pub open spec fn joined(parts: Seq<Seq<char>>) -> Seq<char>
    decreases parts.len(),
{
    if parts.len() == 0 {
        Seq::empty()
    } else {
        join_step(joined(parts.drop_last()), parts.last())
    }
}


} // verus!

verus! {

/// The position of the first separator in `p`, or its length when it has none.
pub open spec fn first_sep(p: Seq<char>) -> int
    decreases p.len(),
{
    if p.len() == 0 || p[0] == '/' {
        0
    } else {
        1 + first_sep(p.drop_first())
    }
}

/// The path names something inside a subdirectory.
pub open spec fn nested(p: Seq<char>) -> bool {
    first_sep(p) < p.len()
}

/// The first component of a path.
pub open spec fn head_of(p: Seq<char>) -> Seq<char> {
    p.subrange(0, first_sep(p))
}

pub proof fn lemma_first_sep_bound(p: Seq<char>)
    ensures
        0 <= first_sep(p) <= p.len(),
    decreases p.len(),
{
    if p.len() > 0 && p[0] != '/' {
        lemma_first_sep_bound(p.drop_first());
    }
}

proof fn lemma_first_sep(p: Seq<char>, i: int)
    requires
        0 <= i <= p.len(),
        forall|j: int| 0 <= j < i ==> p[j] != '/',
        i == p.len() || p[i] == '/',
    ensures
        first_sep(p) == i,
    decreases i,
{
    if i > 0 {
        lemma_first_sep(p.drop_first(), i - 1);
    }
}

/// Splits a path at its first separator: the first component, and the rest
/// if there is a separator.
pub fn split_first(path: &str) -> (r: (String, Option<String>))
    ensures
        r.0@ == head_of(path@),
        r.1 is Some <==> nested(path@),
        r.1 matches Some(rest) ==> rest@.len() < path@.len() && rest@ == path@.subrange(
            first_sep(path@) + 1,
            path@.len() as int,
        ),
{
    let n = path.unicode_len();
    let mut i: usize = 0;
    while i < n
        invariant
            n == path@.len(),
            i <= n,
            forall|j: int| 0 <= j < i ==> path@[j] != '/',
        decreases n - i,
    {
        if path.get_char(i) == '/' {
            proof {
                lemma_first_sep(path@, i as int);
            }
            let head = path.substring_char(0, i);
            let rest = path.substring_char(i + 1, n);
            return (head.to_owned(), Some(rest.to_owned()));
        }
        i = i + 1;
    }
    proof {
        lemma_first_sep(path@, n as int);
        assert(path@.subrange(0, n as int) =~= path@);
    }
    (path.to_owned(), None)
}

/// Metadata of a tracked file: its content hash and modification time.
#[derive(Debug)]
pub struct FileInfo {
    pub hash: String,
    pub timestamp: u64,
}

impl View for FileInfo {
    type V = (Seq<char>, u64);

    open spec fn view(&self) -> (Seq<char>, u64) {
        (self.hash@, self.timestamp)
    }
}

impl FileInfo {
    pub fn new(hash: String, timestamp: u64) -> (r: Self)
        ensures
            r.hash@ == hash@,
            r.timestamp == timestamp,
    {
        FileInfo { hash, timestamp }
    }

    /// A copy with the same hash and timestamp.
    pub fn duplicate(&self) -> (r: Self)
        ensures
            r@ == self@,
    {
        FileInfo { hash: self.hash.clone(), timestamp: self.timestamp }
    }
}

/// The scanned working tree: repository-relative path to timestamp, with an
/// empty hash until the file is hashed.
pub struct WorkingDirectoryFiles {
    pub entries: crate::file_map::FileMap,
}

/// Where the repository root is, and where the caller stands inside it.
pub struct RepoLocation {
    pub root: String,
    pub relative: String,
}

/// Why the repository root could not be located.
pub enum RepoLocationError {
    ErrorData(crate::error::ErrorData),
    RepositoryNotFoundError,
}

/// The last character of a non-empty string.
fn last_char(s: &str) -> (c: char)
    requires
        s@.len() > 0,
    ensures
        c == s@.last(),
{
    let n = s.unicode_len();
    s.get_char(n - 1)
}

/// Joins path parts as `PathBuf::join` does on POSIX, with `/` as separator.
pub fn format_path(parts: &Vec<&str>) -> (r: String)
    ensures
        r@ == joined(parts@.map_values(|p: &str| p@)),
{
    let ghost views = parts@.map_values(|p: &str| p@);
    let mut acc = String::new();
    let mut i: usize = 0;
    while i < parts.len()
        invariant
            i <= parts@.len(),
            views == parts@.map_values(|p: &str| p@),
            acc@ == joined(views.subrange(0, i as int)),
        decreases parts@.len() - i,
    {
        let part: &str = parts[i];
        proof {
            assert(views.subrange(0, i + 1).drop_last() == views.subrange(0, i as int));
            reveal_strlit("/");
        }
        let n = part.unicode_len();
        if n > 0 && part.get_char(0) == '/' {
            acc = part.to_owned();
        } else {
            let m = acc.unicode_len();
            if m > 0 && last_char(acc.as_str()) != '/' {
                acc.append("/");
            }
            acc.append(part);
        }
        i = i + 1;
    }
    proof {
        assert(views.subrange(0, parts@.len() as int) == views);
    }
    acc
}

/// Whether the first `p@.len()` characters of `s` are `p`.
pub fn has_prefix(s: &str, p: &str) -> (r: bool)
    ensures
        r == (p@.len() <= s@.len() && s@.subrange(0, p@.len() as int) == p@),
{
    let n = s.unicode_len();
    let m = p.unicode_len();
    if m > n {
        return false;
    }
    let mut i: usize = 0;
    while i < m
        invariant
            m == p@.len(),
            n == s@.len(),
            m <= n,
            i <= m,
            forall|j: int| 0 <= j < i ==> s@[j] == p@[j],
        decreases m - i,
    {
        if s.get_char(i) != p.get_char(i) {
            assert(s@.subrange(0, m as int)[i as int] != p@[i as int]);
            return false;
        }
        i = i + 1;
    }
    assert(s@.subrange(0, m as int) =~= p@);
    true
}

/// Whether the last `p@.len()` characters of `s` are `p`.
pub fn has_suffix(s: &str, p: &str) -> (r: bool)
    ensures
        r == (p@.len() <= s@.len() && s@.subrange(s@.len() - p@.len(), s@.len() as int) == p@),
{
    let n = s.unicode_len();
    let m = p.unicode_len();
    if m > n {
        return false;
    }
    let off = n - m;
    let mut i: usize = 0;
    while i < m
        invariant
            m == p@.len(),
            n == s@.len(),
            m <= n,
            off == n - m,
            i <= m,
            forall|j: int| 0 <= j < i ==> s@[off + j] == p@[j],
        decreases m - i,
    {
        if s.get_char(off + i) != p.get_char(i) {
            assert(s@.subrange(off as int, n as int)[i as int] != p@[i as int]);
            return false;
        }
        i = i + 1;
    }
    assert(s@.subrange(off as int, n as int) =~= p@);
    true
}

/// A finished piece of a path: empty pieces and `.` pieces name no component.
pub open spec fn piece(cur: Seq<char>) -> Seq<Seq<char>> {
    if cur.len() == 0 || cur == seq!['.'] {
        Seq::empty()
    } else {
        seq![cur]
    }
}

/// The components of the rest `s` of a path, `cur` being the piece read so far.
pub open spec fn comps_from(s: Seq<char>, cur: Seq<char>) -> Seq<Seq<char>>
    decreases s.len(),
{
    if s.len() == 0 {
        piece(cur)
    } else if s[0] == sep() {
        piece(cur) + comps_from(s.drop_first(), Seq::empty())
    } else {
        comps_from(s.drop_first(), cur.push(s[0]))
    }
}

/// The components of a path, as `Path::components` gives them for a
/// normalised path: the root first for an absolute path, then the pieces
/// between separators, skipping empty and `.` pieces.
pub open spec fn path_components(s: Seq<char>) -> Seq<Seq<char>> {
    if s.len() > 0 && s[0] == sep() {
        seq![seq![sep()]] + comps_from(s, Seq::empty())
    } else {
        comps_from(s, Seq::empty())
    }
}

/// `target` lies at or below `base`: the components of `base` begin those of `target`.
pub open spec fn path_within(base: Seq<char>, target: Seq<char>) -> bool {
    let b = path_components(base);
    let t = path_components(target);
    b.len() <= t.len() && t.subrange(0, b.len() as int) == b
}

/// The components of a path.
pub fn components(s: &str) -> (r: Vec<String>)
    ensures
        crate::file_map::strs(r@) == path_components(s@),
{
    let n = s.unicode_len();
    let mut out: Vec<String> = Vec::new();
    if n > 0 && s.get_char(0) == '/' {
        let root = "/".to_owned();
        proof {
            reveal_strlit("/");
            assert("/"@ =~= seq![sep()]);
            crate::file_map::lemma_strs_push(out@, root);
        }
        out.push(root);
        assert(crate::file_map::strs(out@) =~= seq![seq![sep()]]);
    } else {
        assert(crate::file_map::strs(out@) =~= Seq::<Seq<char>>::empty());
    }
    let ghost lead = crate::file_map::strs(out@);
    let mut start: usize = 0;
    let mut i: usize = 0;
    assert(s@.skip(0) =~= s@);
    assert(s@.subrange(0, 0) =~= Seq::<char>::empty());
    while i < n
        invariant
            n == s@.len(),
            start <= i <= n,
            lead == (if n > 0 && s@[0] == sep() { seq![seq![sep()]] } else { Seq::<Seq<char>>::empty() }),
            crate::file_map::strs(out@) + comps_from(s@.skip(i as int), s@.subrange(start as int, i as int))
                == lead + comps_from(s@, Seq::empty()),
        decreases n - i,
    {
        let ghost before = crate::file_map::strs(out@);
        let ghost cur = s@.subrange(start as int, i as int);
        assert(s@.skip(i as int).drop_first() =~= s@.skip(i + 1));
        assert(s@.skip(i as int)[0] == s@[i as int]);
        if s.get_char(i) == '/' {
            let p = s.substring_char(start, i);
            proof {
                assert(s@.subrange(i + 1, i + 1) =~= Seq::<char>::empty());
            }
            let plen = p.unicode_len();
            let is_dot = plen == 1 && p.get_char(0) == '.';
            if plen > 0 && !is_dot {
                let ps = p.to_owned();
                proof {
                    crate::file_map::lemma_strs_push(out@, ps);
                    assert(piece(cur) =~= seq![cur]);
                }
                out.push(ps);
                assert(crate::file_map::strs(out@) == before + piece(cur));
            } else {
                proof {
                    if plen == 1 {
                        assert(cur =~= seq!['.']);
                    }
                }
                assert(piece(cur) =~= Seq::<Seq<char>>::empty());
                assert(before + piece(cur) =~= before);
            }
            assert(crate::file_map::strs(out@) + comps_from(s@.skip(i + 1), Seq::empty()) =~= before + (piece(cur)
                + comps_from(s@.skip(i + 1), Seq::empty())));
            start = i + 1;
        } else {
            assert(cur.push(s@[i as int]) =~= s@.subrange(start as int, i + 1));
        }
        i = i + 1;
    }
    let p = s.substring_char(start, n);
    let ghost cur = s@.subrange(start as int, n as int);
    let ghost before = crate::file_map::strs(out@);
    assert(s@.skip(n as int) =~= Seq::<char>::empty());
    let plen = p.unicode_len();
    let is_dot = plen == 1 && p.get_char(0) == '.';
    if plen > 0 && !is_dot {
        let ps = p.to_owned();
        proof {
            crate::file_map::lemma_strs_push(out@, ps);
            assert(piece(cur) =~= seq![cur]);
        }
        out.push(ps);
    } else {
        proof {
            if plen == 1 {
                assert(cur =~= seq!['.']);
            }
        }
        assert(piece(cur) =~= Seq::<Seq<char>>::empty());
    }
    assert(crate::file_map::strs(out@) =~= before + piece(cur));
    out
}

/// Whether `target` lies at or below `base`, compared component by component.
pub fn is_path_within(base: &str, target: &str) -> (r: bool)
    ensures
        r == path_within(base@, target@),
{
    let b = components(base);
    let t = components(target);
    if b.len() > t.len() {
        return false;
    }
    let ghost bv = crate::file_map::strs(b@);
    let ghost tv = crate::file_map::strs(t@);
    let mut i: usize = 0;
    while i < b.len()
        invariant
            b@.len() <= t@.len(),
            bv == crate::file_map::strs(b@),
            tv == crate::file_map::strs(t@),
            bv == path_components(base@),
            tv == path_components(target@),
            i <= b@.len(),
            forall|j: int| 0 <= j < i ==> tv[j] == bv[j],
        decreases b@.len() - i,
    {
        if b[i] != t[i] {
            assert(tv[i as int] == t@[i as int]@ && bv[i as int] == b@[i as int]@);
            assert(tv.subrange(0, bv.len() as int)[i as int] != bv[i as int]);
            return false;
        }
        i = i + 1;
    }
    assert(tv.subrange(0, bv.len() as int) =~= bv);
    true
}

} // verus!

verus! {

pub proof fn lemma_joined_two(a: Seq<char>, b: Seq<char>)
    ensures
        joined(seq![a, b]) == join_step(join_step(Seq::empty(), a), b),
{
    assert(seq![a, b].drop_last() =~= seq![a]);
    assert(seq![a].drop_last() =~= Seq::<Seq<char>>::empty());
    assert(joined(Seq::<Seq<char>>::empty()) == Seq::<char>::empty());
    assert(joined(seq![a]) == join_step(Seq::empty(), a));
    assert(seq![a, b].last() == b);
}

} // verus!
