use vstd::prelude::*;
use crate::file_map::{lemma_strs_push, strs};
use crate::path::has_prefix;

verus! {

/// A command line, parsed.
#[derive(Debug, PartialEq)]
pub enum Command {
    Init,
    Add(Vec<String>),
    Commit(String),
    Checkout(String),
    Branch(String),
    Merge(String),
    Diff(Option<String>),
    Status,
    Log,
    Help,
}

/// Whether two strings are equal.
pub fn str_eq(a: &str, b: &str) -> (r: bool)
    ensures
        r == (a@ == b@),
{
    assert(a@.subrange(0, a@.len() as int) =~= a@);
    let same_len = a.unicode_len() == b.unicode_len();
    if same_len && has_prefix(a, b) {
        assert(a@ =~= a@.subrange(0, b@.len() as int));
        true
    } else {
        false
    }
}

/// The result that `parse_args` gives for a command that needs one more
/// argument, taken from position `i`.
pub open spec fn one_arg(args: Seq<String>, i: int, r: Option<String>) -> bool {
    if args.len() > i {
        r is Some && r.unwrap()@ == args[i]@
    } else {
        r is None
    }
}

pub open spec fn parsed(args: Seq<String>, r: Result<Command, String>) -> bool {
    if args.len() < 2 {
        r matches Ok(Command::Help)
    } else {
        let w = args[1]@;
        if w == "init"@ {
            r matches Ok(Command::Init)
        } else if w == "log"@ {
            r matches Ok(Command::Log)
        } else if w == "status"@ {
            r matches Ok(Command::Status)
        } else if w == "help"@ {
            r matches Ok(Command::Help)
        } else if w == "add"@ {
            if args.len() >= 3 {
                r matches Ok(Command::Add(v)) && strs(v@) == strs(args.skip(2))
            } else {
                r matches Err(e) && e@ == "The add command requires at least one file or directory as an argument"@
            }
        } else if w == "commit"@ {
            if args.len() >= 4 && args[2]@ == "-m"@ {
                r matches Ok(Command::Commit(m)) && m@ == args[3]@
            } else {
                r matches Err(e) && e@ == "The commit command requires a message! (-m \"Message\")"@
            }
        } else if w == "checkout"@ {
            if args.len() >= 3 {
                r matches Ok(Command::Checkout(b)) && b@ == args[2]@
            } else {
                r matches Err(e) && e@ == "The checkout command requires a branch name as an argument"@
            }
        } else if w == "branch"@ {
            if args.len() >= 3 {
                r matches Ok(Command::Branch(b)) && b@ == args[2]@
            } else {
                r matches Err(e) && e@ == "The branch command requires a branch name as an argument"@
            }
        } else if w == "merge"@ {
            if args.len() >= 3 {
                r matches Ok(Command::Merge(b)) && b@ == args[2]@
            } else {
                r matches Err(e) && e@ == "The merge command requires a branch name as an argument"@
            }
        } else if w == "diff"@ {
            r matches Ok(Command::Diff(b)) && one_arg(args, 2, b)
        } else {
            r matches Err(e) && e@ == "Unknown command"@
        }
    }
}

fn message(s: &str) -> (r: String)
    ensures
        r@ == s@,
{
    s.to_owned()
}

/// Parses the program's arguments, the program name first.
pub fn parse_args(args: &Vec<String>) -> (r: Result<Command, String>)
    ensures
        parsed(args@, r),
{
    if args.len() < 2 {
        return Ok(Command::Help);
    }
    let w = args[1].as_str();
    if str_eq(w, "init") {
        Ok(Command::Init)
    } else if str_eq(w, "log") {
        Ok(Command::Log)
    } else if str_eq(w, "status") {
        Ok(Command::Status)
    } else if str_eq(w, "help") {
        Ok(Command::Help)
    } else if str_eq(w, "add") {
        if args.len() >= 3 {
            let mut v: Vec<String> = Vec::new();
            let mut i: usize = 2;
            while i < args.len()
                invariant
                    2 <= i <= args@.len(),
                    strs(v@) == strs(args@.subrange(2, i as int)),
                decreases args@.len() - i,
            {
                let c = args[i].clone();
                proof {
                    lemma_strs_push(v@, c);
                    assert(strs(args@.subrange(2, i + 1)) =~= strs(args@.subrange(2, i as int)).push(args@[i as int]@));
                }
                v.push(c);
                i = i + 1;
            }
            assert(args@.subrange(2, args@.len() as int) == args@.skip(2));
            Ok(Command::Add(v))
        } else {
            Err(message("The add command requires at least one file or directory as an argument"))
        }
    } else if str_eq(w, "commit") {
        if args.len() >= 4 && str_eq(args[2].as_str(), "-m") {
            Ok(Command::Commit(args[3].clone()))
        } else {
            Err(message("The commit command requires a message! (-m \"Message\")"))
        }
    } else if str_eq(w, "checkout") {
        if args.len() >= 3 {
            Ok(Command::Checkout(args[2].clone()))
        } else {
            Err(message("The checkout command requires a branch name as an argument"))
        }
    } else if str_eq(w, "branch") {
        if args.len() >= 3 {
            Ok(Command::Branch(args[2].clone()))
        } else {
            Err(message("The branch command requires a branch name as an argument"))
        }
    } else if str_eq(w, "merge") {
        if args.len() >= 3 {
            Ok(Command::Merge(args[2].clone()))
        } else {
            Err(message("The merge command requires a branch name as an argument"))
        }
    } else if str_eq(w, "diff") {
        if args.len() >= 3 {
            Ok(Command::Diff(Some(args[2].clone())))
        } else {
            Ok(Command::Diff(None))
        }
    } else {
        Err(message("Unknown command"))
    }
}

} // verus!
