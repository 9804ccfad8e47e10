use vstd::prelude::*;
use crate::file_map::{strs, FileMap};
use crate::path::{format_path, has_prefix, has_suffix, join_step, joined, lemma_joined_two, sep};

verus! {

/// The name of the repository metadata directory.
pub open spec fn meta_dir() -> Seq<char> {
    seq!['.', 'm', 'y', '_', 's', 'v', 'n']
}

/// Whether `s` begins with `p`.
pub open spec fn starts_with(s: Seq<char>, p: Seq<char>) -> bool {
    p.len() <= s.len() && s.subrange(0, p.len() as int) == p
}

/// Whether `s` ends with `p`.
pub open spec fn ends_with(s: Seq<char>, p: Seq<char>) -> bool {
    p.len() <= s.len() && s.subrange(s.len() - p.len(), s.len() as int) == p
}

/// One ignore rule applied to a repository-relative path: an exact path; a
/// directory prefix, written with a trailing `/`; or a suffix, written with
/// a leading `*`.
pub open spec fn rule_matches(path: Seq<char>, rule: Seq<char>) -> bool {
    ||| path == rule
    ||| (rule.len() > 0 && rule.last() == sep() && starts_with(path, joined(seq![rule.drop_last(), Seq::empty()])))
    ||| (rule.len() > 0 && rule[0] == '*' && ends_with(path, rule.drop_first()))
}

/// A path is ignored when it lies in the metadata directory or some rule
/// matches it.
pub open spec fn ignored(path: Seq<char>, rules: Seq<Seq<char>>) -> bool {
    ||| starts_with(path, meta_dir().push(sep()))
    ||| exists|i: int| 0 <= i < rules.len() && rule_matches(path, #[trigger] rules[i])
}

/// The staging index: the proposed next commit, and the file that holds it.
pub struct IndexData {
    pub absolute_path: String,
    pub entries: FileMap,
}

impl IndexData {
    pub fn new(absolute_path: String, entries: FileMap) -> (r: Self)
        ensures
            r.absolute_path@ == absolute_path@,
            r.entries == entries,
    {
        IndexData { absolute_path, entries }
    }
}

fn rule_applies(path: &String, rule: &String) -> (r: bool)
    ensures
        r == rule_matches(path@, rule@),
{
    if *path == *rule {
        return true;
    }
    let n = rule.as_str().unicode_len();
    if n == 0 {
        return false;
    }
    proof {
        reveal_strlit("/");
        reveal_strlit("");
    }
    if rule.as_str().get_char(n - 1) == '/' {
        let dir = rule.as_str().substring_char(0, n - 1);
        let mut parts: Vec<&str> = Vec::new();
        parts.push(dir);
        parts.push("");
        let prefix = format_path(&parts);
        proof {
            assert(rule@.drop_last() =~= dir@);
            assert(""@ =~= Seq::<char>::empty());
            assert(parts@[0]@ == dir@ && parts@[1]@ == ""@);
            assert(parts@.map_values(|p: &str| p@) =~= seq![rule@.drop_last(), Seq::<char>::empty()]);
        }
        if has_prefix(path.as_str(), prefix.as_str()) {
            return true;
        }
    }
    if rule.as_str().get_char(0) == '*' {
        let rest = rule.as_str().substring_char(1, n);
        assert(rest@ =~= rule@.drop_first());
        return has_suffix(path.as_str(), rest);
    }
    false
}

/// Whether `path` (repository-relative) is excluded from tracking by the
/// metadata directory or by one of `rules`.
pub fn ignore_file(path: &String, rules: &Vec<String>) -> (r: bool)
    ensures
        r == ignored(path@, strs(rules@)),
{
    let mut parts: Vec<&str> = Vec::new();
    parts.push(".my_svn");
    parts.push("");
    let meta = format_path(&parts);
    proof {
        reveal_strlit(".my_svn");
        reveal_strlit("");
        assert(".my_svn"@ =~= meta_dir());
        assert(""@ =~= Seq::<char>::empty());
        assert(parts@[0]@ == ".my_svn"@ && parts@[1]@ == ""@);
        assert(parts@.map_values(|p: &str| p@) =~= seq![meta_dir(), Seq::<char>::empty()]);
        lemma_joined_two(meta_dir(), Seq::empty());
        assert(join_step(Seq::empty(), meta_dir()) =~= meta_dir());
        assert(joined(seq![meta_dir(), Seq::<char>::empty()]) =~= meta_dir().push(sep()));
    }
    if has_prefix(path.as_str(), meta.as_str()) {
        return true;
    }
    let mut i: usize = 0;
    while i < rules.len()
        invariant
            i <= rules@.len(),
            !starts_with(path@, meta_dir().push(sep())),
            forall|j: int| 0 <= j < i ==> !rule_matches(path@, #[trigger] strs(rules@)[j]),
        decreases rules@.len() - i,
    {
        if rule_applies(path, &rules[i]) {
            assert(rule_matches(path@, strs(rules@)[i as int]));
            return true;
        }
        i = i + 1;
    }
    false
}

} // verus!

verus! {

/// Whether a repository-relative path lies in the metadata directory: its
/// first component is that directory's name.
pub fn in_meta_dir(path: &String) -> (r: bool)
    ensures
        r == (path@ == meta_dir() || starts_with(path@, meta_dir().push(sep()))),
{
    let name = ".my_svn";
    let mut with_sep: Vec<&str> = Vec::new();
    with_sep.push(name);
    with_sep.push("");
    let prefix = format_path(&with_sep);
    proof {
        reveal_strlit(".my_svn");
        reveal_strlit("");
        assert(name@ =~= meta_dir());
        assert(""@ =~= Seq::<char>::empty());
        assert(with_sep@[0]@ == name@ && with_sep@[1]@ == ""@);
        assert(with_sep@.map_values(|p: &str| p@) =~= seq![meta_dir(), Seq::<char>::empty()]);
        lemma_joined_two(meta_dir(), Seq::empty());
        assert(join_step(Seq::empty(), meta_dir()) =~= meta_dir());
        assert(joined(seq![meta_dir(), Seq::<char>::empty()]) =~= meta_dir().push(sep()));
    }
    let exact = crate::parser::str_eq(path.as_str(), name);
    exact || has_prefix(path.as_str(), prefix.as_str())
}

} // verus!
