//! The error taxonomy of a listing operation. Every error carries the
//! offending path or id, enough for a one-line diagnostic; any error aborts
//! the whole scan or render, there is no partial output.
use vstd::prelude::*;
use vstd::string::*;
use crate::util::dec_rep;

verus! {

/// Why a scan or a render failed.
#[derive(Debug)]
pub enum Error {
    /// The target path does not exist.
    NotFound(String),
    /// Enumeration or stat was forbidden by filesystem permissions.
    PermissionDenied(String),
    /// Any other enumeration failure, with its description.
    IOError(String),
    /// A numeric user or group id could not be mapped to a name.
    IdentityResolutionFailed(u32),
    /// A path's final component is empty or not representable as text.
    InvalidName(String),
}

/// The one-line diagnostic for an error.
pub open spec fn message_view(e: Error) -> Seq<char> {
    match e {
        Error::NotFound(p) => "ls: cannot access '"@ + p@ + "': No such file or directory"@,
        Error::PermissionDenied(p) => "ls: cannot open directory '"@ + p@ + "': Permission denied"@,
        Error::IOError(m) => "ls: "@ + m@,
        Error::IdentityResolutionFailed(id) => "ls: cannot resolve numeric id "@ + dec_rep(
            id as nat,
        ),
        Error::InvalidName(p) => "ls: invalid file name in '"@ + p@ + "'"@,
    }
}

impl Error {
    /// Renders the error as a one-line diagnostic.
    pub fn message(&self) -> (r: String)
        ensures
            r@ =~= message_view(*self),
    {
        match self {
            Error::NotFound(p) => {
                let mut s = String::from_str("ls: cannot access '");
                s.append(p.as_str());
                s.append("': No such file or directory");
                s
            },
            Error::PermissionDenied(p) => {
                let mut s = String::from_str("ls: cannot open directory '");
                s.append(p.as_str());
                s.append("': Permission denied");
                s
            },
            Error::IOError(m) => {
                let mut s = String::from_str("ls: ");
                s.append(m.as_str());
                s
            },
            Error::IdentityResolutionFailed(id) => {
                let mut s = String::from_str("ls: cannot resolve numeric id ");
                let d = crate::util::fmt_u64(*id as u64);
                s.append(d.as_str());
                s
            },
            Error::InvalidName(p) => {
                let mut s = String::from_str("ls: invalid file name in '");
                s.append(p.as_str());
                s.append("'");
                s
            },
        }
    }
}

} // verus!
