use vstd::prelude::*;
use crate::file_map::InfoView;
use crate::path::FileInfo;

verus! {

/// A recorded version whose timestamp is `ts`.
pub open spec fn matches_time(v: Option<InfoView>, ts: u64) -> bool {
    match v {
        Some(x) => x.1 == ts,
        None => false,
    }
}

/// The content hash of a working-tree file, where it can be known without
/// reading the file: a timestamp equal to that of a recorded version means
/// the content is that version's (first `first`, then `second`); otherwise a
/// hash already computed for the file is used.
pub open spec fn known_hash(w: InfoView, first: Option<InfoView>, second: Option<InfoView>) -> Option<
    Seq<char>,
> {
    if matches_time(first, w.1) {
        Some(first.unwrap().0)
    } else if matches_time(second, w.1) {
        Some(second.unwrap().0)
    } else if w.0.len() > 0 {
        Some(w.0)
    } else {
        None
    }
}

pub open spec fn opt_view(o: Option<&FileInfo>) -> Option<InfoView> {
    match o {
        Some(f) => Some(f@),
        None => None,
    }
}

/// Resolves the hash of a working-tree file by the timestamp fingerprint.
/// `None` means the file's bytes must be hashed.
pub fn resolve_hash<'a>(w: &'a FileInfo, first: Option<&'a FileInfo>, second: Option<&'a FileInfo>) -> (r:
    Option<&'a String>)
    ensures
        r matches Some(h) ==> known_hash(w@, opt_view(first), opt_view(second)) == Some(h@),
        r is None ==> known_hash(w@, opt_view(first), opt_view(second)) is None,
{
    if let Some(f) = first {
        if f.timestamp == w.timestamp {
            return Some(&f.hash);
        }
    }
    if let Some(s) = second {
        if s.timestamp == w.timestamp {
            return Some(&s.hash);
        }
    }
    if !w.hash.as_str().is_empty() {
        Some(&w.hash)
    } else {
        None
    }
}

} // verus!
