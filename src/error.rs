//! Reply statuses and the adapter's error type.
use vstd::prelude::*;

verus! {

/// Outcome of a request, as the server reported it or as the adapter decided.
#[derive(PartialEq, Eq, Structural, Clone, Copy, Debug)]
pub enum Status {
    Stored,
    NotStored,
    Exists,
    NotFound,
    Deleted,
    Touched,
    Okay,
    ClientError,
    ServerError,
    ProtocolError,
    Unsupported,
    Io,
    Poisoned,
    InvalidArgument,
    NeedMore,
}

/// The description of each status.
pub open spec fn status_desc(s: Status) -> Seq<char> {
    match s {
        Status::Stored => "stored"@,
        Status::NotStored => "not stored"@,
        Status::Exists => "exists"@,
        Status::NotFound => "not found"@,
        Status::Deleted => "deleted"@,
        Status::Touched => "touched"@,
        Status::Okay => "ok"@,
        Status::ClientError => "client error"@,
        Status::ServerError => "server error"@,
        Status::ProtocolError => "protocol error"@,
        Status::Unsupported => "not supported by the text protocol"@,
        Status::Io => "transport failure"@,
        Status::Poisoned => "connection poisoned by an earlier framing failure"@,
        Status::InvalidArgument => "invalid argument"@,
        Status::NeedMore => "reply not complete yet"@,
    }
}

impl Status {
    /// A short description of the status.
    pub fn desc(&self) -> (r: &'static str)
        ensures
            r@ == status_desc(*self),
    {
        match self {
            Status::Stored => "stored",
            Status::NotStored => "not stored",
            Status::Exists => "exists",
            Status::NotFound => "not found",
            Status::Deleted => "deleted",
            Status::Touched => "touched",
            Status::Okay => "ok",
            Status::ClientError => "client error",
            Status::ServerError => "server error",
            Status::ProtocolError => "protocol error",
            Status::Unsupported => "not supported by the text protocol",
            Status::Io => "transport failure",
            Status::Poisoned => "connection poisoned by an earlier framing failure",
            Status::InvalidArgument => "invalid argument",
            Status::NeedMore => "reply not complete yet",
        }
    }
}

/// Whether a failure with this status leaves the stream position untrustworthy.
pub open spec fn poisons(s: Status) -> bool {
    s == Status::ProtocolError || s == Status::Io
}

/// An error of an operation: its status and, for errors the server or the
/// adapter described, the description.
#[derive(Clone, Debug)]
pub struct Error {
    pub status: Status,
    pub detail: Option<Vec<u8>>,
}

/// The text of a byte string, decoded as UTF-8 with invalid sequences
/// replaced.
pub uninterp spec fn utf8_lossy(b: Seq<u8>) -> Seq<char>;

pub open spec fn ascii_chars(b: Seq<u8>) -> Seq<char> {
    b.map_values(|x: u8| x as char)
}

/// Relies on `String::from_utf8_lossy`: ASCII bytes decode to the same
/// characters, one for one.
#[verifier::external_body]
pub fn lossy_text(b: &[u8]) -> (r: String)
    ensures
        r@ == utf8_lossy(b@),
        (forall|i: int| 0 <= i < b@.len() ==> #[trigger] b@[i] < 128) ==> r@ == ascii_chars(b@),
{
    String::from_utf8_lossy(b).into_owned()
}

impl Error {
    pub open spec fn view(&self) -> (Status, Option<Seq<u8>>) {
        (
            self.status,
            match self.detail {
                Some(d) => Some(d@),
                None => None,
            },
        )
    }

    pub fn from_status(status: Status, detail: Option<Vec<u8>>) -> (r: Error)
        ensures
            r.status == status,
            r.detail == detail,
    {
        Error { status, detail }
    }

    /// Get error description
    pub fn detail(&self) -> (r: Option<String>)
        ensures
            r is Some == self.detail is Some,
            r is Some ==> r->0@ == utf8_lossy(self.detail->0@),
    {
        match &self.detail {
            Some(d) => Some(lossy_text(d.as_slice())),
            None => None,
        }
    }

    /// Get status code
    pub fn status(&self) -> (r: Status)
        ensures
            r == self.status,
    {
        self.status
    }
}

} // verus!
