use vstd::prelude::*;
use std::collections::hash_map::DefaultHasher;
use std::hash::Hasher;
use vstd::std_specs::hash::DefaultHasherAdditionalSpecFns;
use vstd::slice::slice_subrange;
use vstd::utf8::{decode_utf8, valid_utf8};

verus! {

pub const NEWLINE: u8 = 10;

/// Lines, each followed by a newline.
pub open spec fn joined_lines(ls: Seq<Seq<u8>>) -> Seq<u8>
    decreases ls.len(),
{
    if ls.len() == 0 {
        Seq::empty()
    } else {
        joined_lines(ls.drop_last()) + ls.last().push(NEWLINE)
    }
}

/// `ls` are the lines of `data`: newline-free pieces that give back `data`
/// when each is followed by a newline, the last one's newline being absent
/// where `data` does not end with one.
pub open spec fn splits_into(data: Seq<u8>, ls: Seq<Seq<u8>>) -> bool {
    &&& forall|i: int, j: int| 0 <= i < ls.len() && 0 <= j < ls[i].len() ==> #[trigger] ls[i][j] != NEWLINE
    &&& if data.len() == 0 || data.last() == NEWLINE {
        joined_lines(ls) == data
    } else {
        joined_lines(ls) == data.push(NEWLINE)
    }
}

/// The fingerprint of a line.
pub open spec fn fingerprint(line: Seq<u8>) -> u64 {
    DefaultHasher::spec_finish(seq![line])
}

/// The text of a line: its bytes decoded as UTF-8, or empty when they are
/// not valid UTF-8.
pub open spec fn text_of(line: Seq<u8>) -> Seq<char> {
    if valid_utf8(line) {
        decode_utf8(line)
    } else {
        Seq::empty()
    }
}

/// Relies on `std::str::from_utf8`, which succeeds exactly on valid UTF-8;
/// an invalid line reads as empty.
#[verifier::external_body]
fn line_text(b: &[u8]) -> (r: String)
    ensures
        r@ == text_of(b@),
{
    std::str::from_utf8(b).unwrap_or_default().to_string()
}

fn line_fingerprint(b: &[u8]) -> (r: u64)
    ensures
        r == fingerprint(b@),
{
    let mut hasher = DefaultHasher::new();
    hasher.write(b);
    hasher.finish()
}

/// A file's bytes split into lines, with a fingerprint for each line.
pub struct FileView {
    data: Vec<u8>,
    line_hashes: Vec<u64>,
    line_offsets: Vec<(usize, usize)>,
}

impl FileView {
    /// The lines of the file.
    pub closed spec fn lines(&self) -> Seq<Seq<u8>> {
        Seq::new(
            self.line_offsets@.len(),
            |i: int| self.data@.subrange(self.line_offsets@[i].0 as int, self.line_offsets@[i].1 as int),
        )
    }

    /// The file's bytes.
    pub closed spec fn bytes(&self) -> Seq<u8> {
        self.data@
    }

    pub closed spec fn wf(&self) -> bool {
        &&& self.line_hashes@.len() == self.line_offsets@.len()
        &&& forall|i: int|
            0 <= i < self.line_offsets@.len() ==> (#[trigger] self.line_offsets@[i]).0 <= self.line_offsets@[i].1
                <= self.data@.len()
        &&& forall|i: int|
            0 <= i < self.line_offsets@.len() ==> #[trigger] self.line_hashes@[i] == fingerprint(
                self.lines()[i],
            )
    }

    /// The texts of the lines.
    pub open spec fn texts(&self) -> Seq<Seq<char>> {
        self.lines().map_values(|l: Seq<u8>| text_of(l))
    }

    /// Splits `data` into lines at each newline.
    pub fn new(data: Vec<u8>) -> (r: Self)
        ensures
            r.wf(),
            r.bytes() == data@,
            splits_into(data@, r.lines()),
    {
        let mut hashes: Vec<u64> = Vec::new();
        let mut offsets: Vec<(usize, usize)> = Vec::new();
        let mut start: usize = 0;
        let mut i: usize = 0;
        let ghost mut ls: Seq<Seq<u8>> = Seq::empty();
        while i < data.len()
            invariant
                start <= i <= data@.len(),
                hashes@.len() == offsets@.len(),
                ls.len() == offsets@.len(),
                forall|q: int|
                    0 <= q < offsets@.len() ==> (#[trigger] offsets@[q]).0 <= offsets@[q].1 <= data@.len() && ls[q]
                        == data@.subrange(offsets@[q].0 as int, offsets@[q].1 as int) && hashes@[q]
                        == fingerprint(ls[q]),
                forall|q: int, j: int| 0 <= q < ls.len() && 0 <= j < ls[q].len() ==> #[trigger] ls[q][j] != NEWLINE,
                forall|j: int| start <= j < i ==> data@[j] != NEWLINE,
                joined_lines(ls) == data@.subrange(0, start as int),
            decreases data@.len() - i,
        {
            if data[i] == NEWLINE {
                let line = slice_subrange(data.as_slice(), start, i);
                hashes.push(line_fingerprint(line));
                offsets.push((start, i));
                proof {
                    let l = data@.subrange(start as int, i as int);
                    let old_ls = ls;
                    ls = ls.push(l);
                    assert(ls.drop_last() == old_ls);
                    assert(data@.subrange(0, i + 1) =~= data@.subrange(0, start as int) + l.push(NEWLINE));
                }
                start = i + 1;
            }
            i = i + 1;
        }
        if start < data.len() {
            let line = slice_subrange(data.as_slice(), start, data.len());
            hashes.push(line_fingerprint(line));
            offsets.push((start, data.len()));
            proof {
                let l = data@.subrange(start as int, data@.len() as int);
                let old_ls = ls;
                ls = ls.push(l);
                assert(ls.drop_last() == old_ls);
                assert(data@.push(NEWLINE) =~= data@.subrange(0, start as int) + l.push(NEWLINE));
                assert(data@.last() == l.last());
            }
        } else {
            proof {
                assert(data@.subrange(0, start as int) =~= data@);
                if data@.len() > 0 {
                    assert(data@[start - 1] == NEWLINE);
                }
            }
        }
        let r = FileView { data, line_hashes: hashes, line_offsets: offsets };
        assert(r.lines() =~= ls);
        r
    }

    /// The number of lines.
    pub fn len(&self) -> (r: usize)
        requires
            self.wf(),
        ensures
            r == self.lines().len(),
    {
        self.line_hashes.len()
    }

    /// The text of line `index`.
    pub fn get_line(&self, index: usize) -> (r: String)
        requires
            self.wf(),
            index < self.lines().len(),
        ensures
            r@ == self.texts()[index as int],
    {
        let (start, end) = self.line_offsets[index];
        let bytes = slice_subrange(self.data.as_slice(), start, end);
        line_text(bytes)
    }

    /// Whether line `i` of `self` and line `j` of `other` hold the same bytes.
    fn same_line(&self, i: usize, other: &FileView, j: usize) -> (r: bool)
        requires
            self.wf(),
            other.wf(),
            i < self.lines().len(),
            j < other.lines().len(),
        ensures
            r == (self.lines()[i as int] == other.lines()[j as int]),
    {
        if self.line_hashes[i] != other.line_hashes[j] {
            return false;
        }
        let (s1, e1) = self.line_offsets[i];
        let (s2, e2) = other.line_offsets[j];
        let a = slice_subrange(self.data.as_slice(), s1, e1);
        let b = slice_subrange(other.data.as_slice(), s2, e2);
        assert(a@ == self.lines()[i as int]);
        assert(b@ == other.lines()[j as int]);
        if a.len() != b.len() {
            return false;
        }
        let mut k: usize = 0;
        while k < a.len()
            invariant
                a@.len() == b@.len(),
                a@ == self.lines()[i as int],
                b@ == other.lines()[j as int],
                k <= a@.len(),
                forall|q: int| 0 <= q < k ==> a@[q] == b@[q],
            decreases a@.len() - k,
        {
            if a[k] != b[k] {
                return false;
            }
            k = k + 1;
        }
        assert(a@ =~= b@);
        true
    }
}

} // verus!

verus! {

/// One step of an edit script between two files.
#[derive(Debug, PartialEq)]
pub enum DiffChange {
    /// A line of the new file that the old one lacks.
    Insert(String),
    /// A line of the old file that the new one lacks.
    Delete(String),
    /// A line both files share.
    Keep(String),
}

/// The lines that a script reads from the old file.
pub open spec fn old_side(ops: Seq<DiffChange>) -> Seq<Seq<char>>
    decreases ops.len(),
{
    if ops.len() == 0 {
        Seq::empty()
    } else {
        let rest = old_side(ops.drop_first());
        match ops[0] {
            DiffChange::Insert(_) => rest,
            DiffChange::Delete(t) => seq![t@] + rest,
            DiffChange::Keep(t) => seq![t@] + rest,
        }
    }
}

/// The lines that a script writes to the new file.
pub open spec fn new_side(ops: Seq<DiffChange>) -> Seq<Seq<char>>
    decreases ops.len(),
{
    if ops.len() == 0 {
        Seq::empty()
    } else {
        let rest = new_side(ops.drop_first());
        match ops[0] {
            DiffChange::Insert(t) => seq![t@] + rest,
            DiffChange::Delete(_) => rest,
            DiffChange::Keep(t) => seq![t@] + rest,
        }
    }
}

/// The largest total number of lines that the diff handles.
pub const MAX_DIFF_LINES: usize = 0x0100_0000;

/// Puts `op` in front of `ops`, keeping the script's two sides in step.
fn prepend(ops: &mut Vec<DiffChange>, op: DiffChange)
    ensures
        final(ops)@ == seq![op] + old(ops)@,
        old_side(final(ops)@) == old_side(seq![op]) + old_side(old(ops)@),
        new_side(final(ops)@) == new_side(seq![op]) + new_side(old(ops)@),
{
    ops.insert(0, op);
    reveal_with_fuel(old_side, 2);
    reveal_with_fuel(new_side, 2);
    assert(ops@ =~= seq![op] + old(ops)@);
    assert(ops@.drop_first() =~= old(ops)@);
    assert(seq![op].drop_first() =~= Seq::<DiffChange>::empty());
}

/// The entry for diagonal `k` in a snapshot, or -1 where it has none.
fn diagonal(v: &Vec<isize>, k: isize, off: isize, lim: isize) -> (r: isize)
    requires
        0 <= off <= lim <= 0x1000_0000,
        -lim <= k <= lim,
    ensures
        -1 <= r <= lim,
{
    let idx = k + off;
    if idx < 0 || idx as usize >= v.len() {
        return -1;
    }
    let x = v[idx as usize];
    if x < -1 || x > lim {
        -1
    } else {
        x
    }
}

/// Recovers the edit script from the snapshots of the furthest-reaching
/// diagonals, walking back from the end of both files. Context lines are
/// kept in the script.
fn backtrack(trace: &Vec<Vec<isize>>, old_lines: &FileView, new_lines: &FileView) -> (r: Vec<DiffChange>)
    requires
        old_lines.wf(),
        new_lines.wf(),
        old_lines.lines().len() + new_lines.lines().len() <= MAX_DIFF_LINES,
        trace@.len() <= old_lines.lines().len() + new_lines.lines().len() + 1,
    ensures
        old_side(r@) == old_lines.texts(),
        new_side(r@) == new_lines.texts(),
{
    let n = old_lines.len() as isize;
    let m = new_lines.len() as isize;
    let max = n + m;
    let off = max + 1;
    let lim = 2 * max + 2;
    let ghost ot = old_lines.texts();
    let ghost nt = new_lines.texts();
    let mut result: Vec<DiffChange> = Vec::new();
    let mut x: isize = n;
    let mut y: isize = m;
    let mut d: usize = trace.len();
    let mut stuck = false;
    assert(ot.subrange(n as int, n as int) =~= Seq::<Seq<char>>::empty());
    assert(nt.subrange(m as int, m as int) =~= Seq::<Seq<char>>::empty());
    while d > 0 && !stuck
        invariant
            old_lines.wf(),
            new_lines.wf(),
            ot == old_lines.texts(),
            nt == new_lines.texts(),
            n == ot.len(),
            m == nt.len(),
            max == n + m,
            off == max + 1,
            lim == 2 * max + 2,
            0 <= n <= MAX_DIFF_LINES,
            0 <= m <= MAX_DIFF_LINES,
            max <= MAX_DIFF_LINES,
            d <= trace@.len() <= max + 1,
            0 <= x <= n,
            0 <= y <= m,
            old_side(result@) == ot.subrange(x as int, n as int),
            new_side(result@) == nt.subrange(y as int, m as int),
        decreases d,
    {
        d = d - 1;
        let v = &trace[d];
        let di = d as isize;
        let k = x - y;
        let prev_k = if k == -di || (k != di && diagonal(v, k - 1, off, lim) < diagonal(v, k + 1, off, lim)) {
            k + 1
        } else {
            k - 1
        };
        let prev_x = diagonal(v, prev_k, off, lim);
        let prev_y = prev_x - prev_k;
        while x > prev_x && y > prev_y && !stuck
            invariant
                old_lines.wf(),
                new_lines.wf(),
                ot == old_lines.texts(),
                nt == new_lines.texts(),
                n == ot.len(),
                m == nt.len(),
                0 <= x <= n,
                0 <= y <= m,
                old_side(result@) == ot.subrange(x as int, n as int),
                new_side(result@) == nt.subrange(y as int, m as int),
            decreases x + if stuck { 0int } else { 1int },
        {
            if x > 0 && y > 0 && old_lines.same_line((x - 1) as usize, new_lines, (y - 1) as usize) {
                let t = old_lines.get_line((x - 1) as usize);
                let ghost before = result@;
                prepend(&mut result, DiffChange::Keep(t));
                proof {
                    assert(nt[y - 1] == ot[x - 1]);
                    assert(ot.subrange(x - 1, n as int) =~= seq![ot[x - 1]] + ot.subrange(x as int, n as int));
                    assert(nt.subrange(y - 1, m as int) =~= seq![nt[y - 1]] + nt.subrange(y as int, m as int));
                    reveal_with_fuel(old_side, 2);
                    reveal_with_fuel(new_side, 2);
                }
                x = x - 1;
                y = y - 1;
            } else {
                stuck = true;
            }
        }
        if d > 0 && !stuck {
            if x == prev_x && y > 0 {
                let t = new_lines.get_line((y - 1) as usize);
                prepend(&mut result, DiffChange::Insert(t));
                proof {
                    assert(nt.subrange(y - 1, m as int) =~= seq![nt[y - 1]] + nt.subrange(y as int, m as int));
                    reveal_with_fuel(old_side, 2);
                    reveal_with_fuel(new_side, 2);
                    assert(old_side(seq![DiffChange::Insert(t)]) =~= Seq::<Seq<char>>::empty());
                }
                y = y - 1;
            } else if y == prev_y && x > 0 {
                let t = old_lines.get_line((x - 1) as usize);
                prepend(&mut result, DiffChange::Delete(t));
                proof {
                    assert(ot.subrange(x - 1, n as int) =~= seq![ot[x - 1]] + ot.subrange(x as int, n as int));
                    reveal_with_fuel(old_side, 2);
                    reveal_with_fuel(new_side, 2);
                    assert(new_side(seq![DiffChange::Delete(t)]) =~= Seq::<Seq<char>>::empty());
                }
                x = x - 1;
            }
        }
    }
    // Whatever the snapshots left unexplained is written out as plain
    // deletions and insertions.
    while y > 0
        invariant
            old_lines.wf(),
            new_lines.wf(),
            ot == old_lines.texts(),
            nt == new_lines.texts(),
            n == ot.len(),
            m == nt.len(),
            0 <= x <= n,
            0 <= y <= m,
            old_side(result@) == ot.subrange(x as int, n as int),
            new_side(result@) == nt.subrange(y as int, m as int),
        decreases y,
    {
        let t = new_lines.get_line((y - 1) as usize);
        prepend(&mut result, DiffChange::Insert(t));
        proof {
            assert(nt.subrange(y - 1, m as int) =~= seq![nt[y - 1]] + nt.subrange(y as int, m as int));
            reveal_with_fuel(old_side, 2);
            reveal_with_fuel(new_side, 2);
            assert(old_side(seq![DiffChange::Insert(t)]) =~= Seq::<Seq<char>>::empty());
        }
        y = y - 1;
    }
    while x > 0
        invariant
            old_lines.wf(),
            new_lines.wf(),
            ot == old_lines.texts(),
            nt == new_lines.texts(),
            n == ot.len(),
            m == nt.len(),
            0 <= x <= n,
            y == 0,
            old_side(result@) == ot.subrange(x as int, n as int),
            new_side(result@) == nt.subrange(y as int, m as int),
        decreases x,
    {
        let t = old_lines.get_line((x - 1) as usize);
        prepend(&mut result, DiffChange::Delete(t));
        proof {
            assert(ot.subrange(x - 1, n as int) =~= seq![ot[x - 1]] + ot.subrange(x as int, n as int));
            reveal_with_fuel(old_side, 2);
            reveal_with_fuel(new_side, 2);
            assert(new_side(seq![DiffChange::Delete(t)]) =~= Seq::<Seq<char>>::empty());
        }
        x = x - 1;
    }
    assert(ot.subrange(0, n as int) =~= ot);
    assert(nt.subrange(0, m as int) =~= nt);
    result
}

} // verus!

verus! {

/// A line-level edit script from `old_lines` to `new_lines` by Myers'
/// shortest-edit-script search, with the shared lines kept as context.
pub fn myers_diff(old_lines: &FileView, new_lines: &FileView) -> (r: Vec<DiffChange>)
    requires
        old_lines.wf(),
        new_lines.wf(),
        old_lines.lines().len() + new_lines.lines().len() <= MAX_DIFF_LINES,
    ensures
        old_side(r@) == old_lines.texts(),
        new_side(r@) == new_lines.texts(),
{
    let n = old_lines.len() as isize;
    let m = new_lines.len() as isize;
    let max = n + m;
    let off = max + 1;
    let lim = 2 * max + 2;
    let size = (2 * max + 3) as usize;
    let mut v: Vec<isize> = Vec::new();
    while v.len() < size
        invariant
            v@.len() <= size,
        decreases size - v@.len(),
    {
        v.push(-1);
    }
    v[(1 + off) as usize] = 0;
    let mut trace: Vec<Vec<isize>> = Vec::new();
    let mut d: isize = 0;
    while d <= max
        invariant
            old_lines.wf(),
            new_lines.wf(),
            n == old_lines.lines().len(),
            m == new_lines.lines().len(),
            0 <= n,
            0 <= m,
            max == n + m,
            max <= MAX_DIFF_LINES,
            off == max + 1,
            lim == 2 * max + 2,
            v@.len() == size,
            size == 2 * max + 3,
            0 <= d <= max + 1,
            trace@.len() == d,
        decreases max + 1 - d,
    {
        trace.push(v.clone());
        let mut k: isize = -d;
        while k <= d
            invariant
                old_lines.wf(),
                new_lines.wf(),
                n == old_lines.lines().len(),
                m == new_lines.lines().len(),
                0 <= n,
                0 <= m,
                max == n + m,
                max <= MAX_DIFF_LINES,
                off == max + 1,
                lim == 2 * max + 2,
                v@.len() == size,
                size == 2 * max + 3,
                0 <= d <= max,
                -d <= k <= d + 2,
                trace@.len() == d + 1,
            decreases d + 2 - k,
        {
            let x_down = diagonal(&v, k - 1, off, lim);
            let x_right = diagonal(&v, k + 1, off, lim);
            let x_start = if k == -d || (k != d && x_down < x_right) {
                x_right
            } else {
                x_down + 1
            };
            let mut x = x_start;
            let mut y = x - k;
            while x >= 0 && y >= 0 && x < n && y < m && old_lines.same_line(x as usize, new_lines, y as usize)
                invariant
                    old_lines.wf(),
                    new_lines.wf(),
                    n == old_lines.lines().len(),
                    m == new_lines.lines().len(),
                    -1 <= x <= lim + 1,
                    0 <= n,
                    0 <= m,
                    max == n + m,
                    x - y == k,
                    -d <= k <= d,
                    0 <= d <= max,
                    max <= MAX_DIFF_LINES,
                    lim == 2 * max + 2,
                decreases n - x,
            {
                x = x + 1;
                y = y + 1;
            }
            v[(k + off) as usize] = x;
            if x >= n && y >= m {
                return backtrack(&trace, old_lines, new_lines);
            }
            k = k + 2;
        }
        d = d + 1;
    }
    backtrack(&trace, old_lines, new_lines)
}

} // verus!

verus! {

/// What the `diff` command does.
#[derive(Debug, PartialEq)]
pub enum DiffAction {
    /// The current branch has no commit yet.
    NoCommits,
    /// The named branch does not exist.
    NoSuchBranch,
    /// The named branch points at the current commit.
    SameCommit,
    /// The current commit has no parent to compare with.
    NoParent,
    /// Compare the first commit with the second.
    Compare(String, String),
}

/// Decides what `diff` compares. `current_tip` is the current branch's
/// commit (empty when it has none); `target` is `None` when no branch was
/// named, else the named branch's tip if it exists; `first_parent` is the
/// current commit's first parent, if any.
pub fn plan_diff(current_tip: &String, target: Option<Option<String>>, first_parent: Option<String>) -> (r: DiffAction)
    ensures
        current_tip@.len() == 0 ==> r is NoCommits,
        current_tip@.len() > 0 && target == Some(None::<String>) ==> r is NoSuchBranch,
        current_tip@.len() > 0 ==> (target matches Some(Some(h)) ==> if h@ == current_tip@ {
            r is SameCommit
        } else {
            r matches DiffAction::Compare(a, b) && a@ == current_tip@ && b@ == h@
        }),
        current_tip@.len() > 0 && target is None ==> match first_parent {
            None => r is NoParent,
            Some(p) => r matches DiffAction::Compare(a, b) && a@ == current_tip@ && b@ == p@,
        },
{
    if current_tip.as_str().is_empty() {
        return DiffAction::NoCommits;
    }
    match target {
        Some(None) => DiffAction::NoSuchBranch,
        Some(Some(h)) => {
            if h == *current_tip {
                DiffAction::SameCommit
            } else {
                DiffAction::Compare(current_tip.clone(), h)
            }
        },
        None => match first_parent {
            None => DiffAction::NoParent,
            Some(p) => DiffAction::Compare(current_tip.clone(), p),
        },
    }
}

} // verus!
