use vstd::prelude::*;

verus! {

/// A structured error carried up to the command entry point.
#[derive(Debug)]
pub struct ErrorData {
    pub file: String,
    pub line: u32,
    pub func: String,
    pub source: String,
    pub message: String,
}

impl ErrorData {
    /// Builds an error record from its parts.
    pub fn new(file: String, line: u32, func: String, source: String, message: String) -> (r: Self)
        ensures
            r.file@ == file@,
            r.line == line,
            r.func@ == func@,
            r.source@ == source@,
            r.message@ == message@,
    {
        ErrorData { file, line, func, source, message }
    }
}

} // verus!
