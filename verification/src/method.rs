//! HTTP methods.

use crate::error::{ParseError, Rejection};
use crate::text;
use vstd::prelude::*;

verus! {

/// Standard HTTP methods accepted by the current parser.
#[derive(Clone, Copy, Debug, Eq, Hash, PartialEq, Structural)]
pub enum Method {
    Get,
    Head,
    Post,
    Put,
    Patch,
    Delete,
    Options,
    Trace,
    Connect,
}

impl Method {
    /// The token that stands for a method.
    pub open spec fn token(self) -> Seq<char> {
        match self {
            Method::Get => "GET"@,
            Method::Head => "HEAD"@,
            Method::Post => "POST"@,
            Method::Put => "PUT"@,
            Method::Patch => "PATCH"@,
            Method::Delete => "DELETE"@,
            Method::Options => "OPTIONS"@,
            Method::Trace => "TRACE"@,
            Method::Connect => "CONNECT"@,
        }
    }

    /// The method that a token stands for.
    pub open spec fn named(token: Seq<char>) -> Option<Method> {
        if token == "GET"@ {
            Some(Method::Get)
        } else if token == "HEAD"@ {
            Some(Method::Head)
        } else if token == "POST"@ {
            Some(Method::Post)
        } else if token == "PUT"@ {
            Some(Method::Put)
        } else if token == "PATCH"@ {
            Some(Method::Patch)
        } else if token == "DELETE"@ {
            Some(Method::Delete)
        } else if token == "OPTIONS"@ {
            Some(Method::Options)
        } else if token == "TRACE"@ {
            Some(Method::Trace)
        } else if token == "CONNECT"@ {
            Some(Method::Connect)
        } else {
            None
        }
    }

    #[must_use]
    pub fn as_str(self) -> (token: &'static str)
        ensures
            token@ == self.token(),
    {
        match self {
            Method::Get => "GET",
            Method::Head => "HEAD",
            Method::Post => "POST",
            Method::Put => "PUT",
            Method::Patch => "PATCH",
            Method::Delete => "DELETE",
            Method::Options => "OPTIONS",
            Method::Trace => "TRACE",
            Method::Connect => "CONNECT",
        }
    }

    /// Parses one standard HTTP method token.
    ///
    /// # Errors
    ///
    /// Returns a method-not-allowed protocol rejection for unsupported tokens.
    pub fn parse(method: &str) -> (parsed: Result<Method, ParseError>)
        ensures
            match parsed {
                Ok(known) => Method::named(method@) == Some(known),
                Err(error) => {
                    &&& Method::named(method@) is None
                    &&& error@ == Rejection::method_not_allowed()
                },
            },
    {
        if text::same_text(method, "GET") {
            Ok(Method::Get)
        } else if text::same_text(method, "HEAD") {
            Ok(Method::Head)
        } else if text::same_text(method, "POST") {
            Ok(Method::Post)
        } else if text::same_text(method, "PUT") {
            Ok(Method::Put)
        } else if text::same_text(method, "PATCH") {
            Ok(Method::Patch)
        } else if text::same_text(method, "DELETE") {
            Ok(Method::Delete)
        } else if text::same_text(method, "OPTIONS") {
            Ok(Method::Options)
        } else if text::same_text(method, "TRACE") {
            Ok(Method::Trace)
        } else if text::same_text(method, "CONNECT") {
            Ok(Method::Connect)
        } else {
            Err(ParseError::method_not_allowed())
        }
    }
}

/// A token stands for the method that has it.
pub proof fn methods_have_the_tokens_that_name_them(token: Seq<char>)
    ensures
        Method::named(token) matches Some(method) ==> method.token() == token,
{
}

/// Parsing the token of a method gives the method back.
pub proof fn tokens_name_their_methods(method: Method)
    ensures
        Method::named(method.token()) == Some(method),
{
    reveal_strlit("GET");
    reveal_strlit("HEAD");
    reveal_strlit("POST");
    reveal_strlit("PUT");
    reveal_strlit("PATCH");
    reveal_strlit("DELETE");
    reveal_strlit("OPTIONS");
    reveal_strlit("TRACE");
    reveal_strlit("CONNECT");
    let token = method.token();
    if let Some(other) = Method::named(token) {
        assert(token[0] == other.token()[0] && token[1] == other.token()[1]);
    }
}

} // verus!
