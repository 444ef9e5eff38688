//! Validation of command-line inputs.
//!
//! The filesystem probes these checks rest on (is the path a directory,
//! does it exist, is it a file) are passed in as plain values, so the
//! decisions themselves are fully specified.

use vstd::prelude::*;
use vstd::string::StrSliceExecFns;

use crate::walk::ErrorKind;

verus! {

/// Why a command-line input was rejected.
#[derive(Clone, Copy, Debug, PartialEq, Eq, Structural)]
pub enum ParseError {
    NotADirectory,
    NotAFile,
    MissingSeparator,
    Io(ErrorKind),
}

/// Accepts a path argument exactly when the probe found a directory.
pub fn parse_dir(s: &str, is_dir: bool) -> (r: Result<String, ParseError>)
    ensures
        is_dir ==> (r matches Ok(p) && p@ == s@),
        !is_dir ==> r == Err::<String, ParseError>(ParseError::NotADirectory),
{
    if is_dir {
        Ok(s.to_owned())
    } else {
        Err(ParseError::NotADirectory)
    }
}

/// Accepts a path argument exactly when the existence probe succeeded,
/// found the path present, and the path is a regular file.  A failed
/// probe is passed through as its own error.
pub fn parse_existing_file(path: &str, exists: Result<bool, ErrorKind>, is_file: bool) -> (r:
    Result<String, ParseError>)
    ensures
        exists matches Err(k) ==> r == Err::<String, ParseError>(ParseError::Io(k)),
        exists == Ok::<bool, ErrorKind>(true) && is_file ==> (r matches Ok(p) && p@ == path@),
        exists == Ok::<bool, ErrorKind>(true) && !is_file ==> r == Err::<String, ParseError>(
            ParseError::NotAFile,
        ),
        exists == Ok::<bool, ErrorKind>(false) ==> r == Err::<String, ParseError>(
            ParseError::NotAFile,
        ),
{
    match exists {
        Err(k) => Err(ParseError::Io(k)),
        Ok(true) => {
            if is_file {
                Ok(path.to_owned())
            } else {
                Err(ParseError::NotAFile)
            }
        },
        Ok(false) => Err(ParseError::NotAFile),
    }
}

/// Splits an argument of the form `<name>:<version>` at its first colon.
///
/// Returns the part before the first colon and everything after it, or
/// an error when the argument holds no colon at all.
pub fn parse_name_version(s: &str) -> (r: Result<(String, String), ParseError>)
    ensures
        r matches Ok(nv) ==> ({
            let i = nv.0@.len() as int;
            &&& 0 <= i < s@.len()
            &&& s@[i] == ':'
            &&& forall|j: int| 0 <= j < i ==> s@[j] != ':'
            &&& nv.0@ == s@.subrange(0, i)
            &&& nv.1@ == s@.subrange(i + 1, s@.len() as int)
        }),
        r is Err ==> r == Err::<(String, String), ParseError>(ParseError::MissingSeparator)
            && (forall|j: int| 0 <= j < s@.len() ==> s@[j] != ':'),
{
    let n = s.unicode_len();
    for i in 0..n
        invariant
            n == s@.len(),
            forall|j: int| 0 <= j < i ==> s@[j] != ':',
    {
        let c = s.get_char(i);
        if c == ':' {
            let name = s.substring_char(0, i);
            let version = s.substring_char(i + 1, n);
            return Ok((name.to_owned(), version.to_owned()));
        }
    }
    Err(ParseError::MissingSeparator)
}

} // verus!
