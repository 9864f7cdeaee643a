//! A failure tied to one file.

use vstd::prelude::*;
use vstd::string::StringExecFns;

verus! {

/// Something went wrong with one file; the operation around it went on.
#[derive(Debug)]
pub struct FileError {
    pub file: String,
    pub error: String,
}

/// The files named by a list of errors.
pub open spec fn error_paths(v: Seq<FileError>) -> Seq<Seq<char>> {
    v.map_values(|e: FileError| e.file@)
}

impl FileError {
    pub fn new(file: &str, error: &str) -> (r: FileError)
        ensures
            r.file@ == file@,
            r.error@ == error@,
    {
        FileError { file: file.to_owned(), error: error.to_owned() }
    }

    /// A one-line message: the cause, then the file.
    pub fn describe(&self) -> (r: String)
        ensures
            r@ == "error: "@ + self.error@ + "\ton file "@ + self.file@,
    {
        String::from_str("error: ").concat(self.error.as_str()).concat("\ton file ").concat(
            self.file.as_str(),
        )
    }
}

} // verus!
