//! Errors: protocol rejections of requests, and refusals to encode a response.

use vstd::prelude::*;
use vstd::string::StringExecFns;

verus! {

/// Stable protocol rejection suitable for an adapter error response.
#[derive(Clone, Copy, Debug, Eq, PartialEq)]
pub struct ParseError {
    pub status: u16,
    pub code: &'static str,
    pub message: &'static str,
}

/// What a [`ParseError`] says.
pub struct Rejection {
    pub status: u16,
    pub code: Seq<char>,
    pub message: Seq<char>,
}

impl View for ParseError {
    type V = Rejection;

    open spec fn view(&self) -> Rejection {
        Rejection { status: self.status, code: self.code@, message: self.message@ }
    }
}

impl Rejection {
    pub open spec fn bad_request() -> Rejection {
        Rejection { status: 400, code: "bad_request"@, message: "invalid HTTP/1 request"@ }
    }

    pub open spec fn headers_too_large() -> Rejection {
        Rejection {
            status: 431,
            code: "request_header_too_large"@,
            message: "request headers exceed the configured limit"@,
        }
    }

    pub open spec fn payload_too_large() -> Rejection {
        Rejection {
            status: 413,
            code: "payload_too_large"@,
            message: "request body exceeds the configured limit"@,
        }
    }

    pub open spec fn too_many_chunks() -> Rejection {
        Rejection {
            status: 413,
            code: "too_many_chunks"@,
            message: "chunk count exceeds the configured limit"@,
        }
    }

    pub open spec fn method_not_allowed() -> Rejection {
        Rejection {
            status: 405,
            code: "method_not_allowed"@,
            message: "HTTP method is not supported by this build"@,
        }
    }

    pub open spec fn unsupported_transfer_encoding() -> Rejection {
        Rejection {
            status: 501,
            code: "unsupported_transfer_encoding"@,
            message: "only chunked transfer encoding is supported"@,
        }
    }
}

impl ParseError {
    pub(crate) fn bad_request() -> (error: Self)
        ensures
            error@ == Rejection::bad_request(),
    {
        ParseError { status: 400, code: "bad_request", message: "invalid HTTP/1 request" }
    }

    pub(crate) fn headers_too_large() -> (error: Self)
        ensures
            error@ == Rejection::headers_too_large(),
    {
        ParseError {
            status: 431,
            code: "request_header_too_large",
            message: "request headers exceed the configured limit",
        }
    }

    pub(crate) fn payload_too_large() -> (error: Self)
        ensures
            error@ == Rejection::payload_too_large(),
    {
        ParseError {
            status: 413,
            code: "payload_too_large",
            message: "request body exceeds the configured limit",
        }
    }

    pub(crate) fn too_many_chunks() -> (error: Self)
        ensures
            error@ == Rejection::too_many_chunks(),
    {
        ParseError {
            status: 413,
            code: "too_many_chunks",
            message: "chunk count exceeds the configured limit",
        }
    }

    pub(crate) fn method_not_allowed() -> (error: Self)
        ensures
            error@ == Rejection::method_not_allowed(),
    {
        ParseError {
            status: 405,
            code: "method_not_allowed",
            message: "HTTP method is not supported by this build",
        }
    }

    pub(crate) fn unsupported_transfer_encoding() -> (error: Self)
        ensures
            error@ == Rejection::unsupported_transfer_encoding(),
    {
        ParseError {
            status: 501,
            code: "unsupported_transfer_encoding",
            message: "only chunked transfer encoding is supported",
        }
    }

    /// The code and the message in one line.
    pub fn to_string(&self) -> (line: String)
        ensures
            line@ == self.code@ + ": "@ + self.message@,
    {
        let mut line = String::from_str(self.code);
        line.append(": ");
        line.append(self.message);
        line
    }
}

/// A parsing result as contracts speak of it: values by their views.
pub open spec fn parsed<T: View>(result: Result<Option<T>, ParseError>) -> Result<
    Option<T::V>,
    Rejection,
> {
    match result {
        Ok(Some(value)) => Ok(Some(value@)),
        Ok(None) => Ok(None),
        Err(error) => Err(error@),
    }
}

/// Why a response head could not be encoded.
#[derive(Clone, Copy, Debug, Eq, PartialEq, Structural)]
pub enum EncodeError {
    /// A header of a response has an unsafe name or value.
    InvalidHeader,
    /// A header of an upgrade response has an unsafe name or value.
    InvalidUpgradeHeader,
    /// An upgrade response lacks `Connection: Upgrade` or `Upgrade`.
    MissingUpgrade,
    /// The date cannot stand in a header.
    InvalidDate,
}

impl EncodeError {
    pub open spec fn text(self) -> Seq<char> {
        match self {
            EncodeError::InvalidHeader => "response contains an invalid header"@,
            EncodeError::InvalidUpgradeHeader => "upgrade response contains an invalid header"@,
            EncodeError::MissingUpgrade => {
                "upgrade response is missing required protocol switch headers"@
            },
            EncodeError::InvalidDate => "response date is invalid"@,
        }
    }

    /// What is wrong with the input.
    pub fn message(self) -> (message: &'static str)
        ensures
            message@ == self.text(),
    {
        match self {
            EncodeError::InvalidHeader => "response contains an invalid header",
            EncodeError::InvalidUpgradeHeader => "upgrade response contains an invalid header",
            EncodeError::MissingUpgrade => {
                "upgrade response is missing required protocol switch headers"
            },
            EncodeError::InvalidDate => "response date is invalid",
        }
    }
}

} // verus!
