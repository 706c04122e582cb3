//! Error kinds shared by the whole store.

use vstd::prelude::*;
use vstd::string::StringExecFns;

verus! {

/// Every failure the store can report.
///
/// `Sql` stands for a constraint violation of the metadata store (such as a
/// duplicate bucket name), `WriteLock` for a part that is already being
/// written, `InProgress` for a background task that is already running,
/// `NotFound` for an absent entity and `Internal` for everything else.
#[derive(Debug)]
pub enum Error {
    Sql(String),
    WriteLock,
    Internal(String),
    InProgress,
    NotFound(String),
}

impl Error {
    /// A human-readable description of the failure.
    pub fn message(&self) -> (r: String)
        ensures
            match self {
                Error::Sql(m) => r@ == m@,
                Error::Internal(m) => r@ == m@,
                Error::NotFound(m) => r@ == m@ + " not found"@,
                Error::WriteLock => r@
                    == "This object is being written to by another request"@,
                Error::InProgress => r@ == "task already in progress"@,
            },
    {
        match self {
            Error::Sql(m) => m.clone(),
            Error::Internal(m) => m.clone(),
            Error::NotFound(m) => m.clone().concat(" not found"),
            Error::WriteLock => {
                "This object is being written to by another request".to_owned()
            }
            Error::InProgress => "task already in progress".to_owned(),
        }
    }

    /// True for the `NotFound` variant.
    pub fn is_not_found(&self) -> (r: bool)
        ensures
            r == (self is NotFound),
    {
        match self {
            Error::NotFound(_) => true,
            _ => false,
        }
    }
}

/// How a failed request is classified at the HTTP boundary.
#[derive(Copy, Clone, Debug, PartialEq, Eq, Structural)]
pub enum ErrorKind {
    Client,
    NotFound,
    Server,
    Other,
}

/// Classifies an HTTP status code the way the client treats responses:
/// 404 is `NotFound`, any other 4xx is `Client`, 5xx is `Server`, and
/// everything else is `Other`.
pub fn error_kind_for_status(status: u16) -> (r: ErrorKind)
    ensures
        status == 404 ==> r == ErrorKind::NotFound,
        status != 404 && 400 <= status < 500 ==> r == ErrorKind::Client,
        500 <= status < 600 ==> r == ErrorKind::Server,
        !(400 <= status < 600) ==> r == ErrorKind::Other,
{
    if status == 404 {
        ErrorKind::NotFound
    } else if 400 <= status && status < 500 {
        ErrorKind::Client
    } else if 500 <= status && status < 600 {
        ErrorKind::Server
    } else {
        ErrorKind::Other
    }
}

/// Turns an absent optional value into a `NotFound` error for the named
/// entity.
pub trait OptionNotFound {
    type Value;

    fn ok_or_not_found(self, entity: &str) -> Result<Self::Value, Error>;
}

impl<T> OptionNotFound for Option<T> {
    type Value = T;

    fn ok_or_not_found(self, entity: &str) -> (r: Result<T, Error>)
        ensures
            self is Some <==> r is Ok,
            self is Some ==> r->Ok_0 == self->Some_0,
            self is None ==> (r->Err_0 matches Error::NotFound(m) && m@ == entity@),
    {
        match self {
            Some(value) => Ok(value),
            None => Err(Error::NotFound(entity.to_owned())),
        }
    }
}

} // verus!
