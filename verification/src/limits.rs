//! Limits enforced while decoding one HTTP/1 request.

use vstd::prelude::*;

verus! {

pub const DEFAULT_MAX_BODY_BYTES: usize = 1024 * 1024;

pub const DEFAULT_MAX_HEADER_BYTES: usize = 32 * 1024;

pub const DEFAULT_MAX_HEADERS: usize = 64;

pub const DEFAULT_MAX_CHUNKS: usize = 8 * 1024;

pub const MAX_HEADER_CAPACITY: usize = 128;

/// Limits enforced while decoding one HTTP/1 request.
#[derive(Clone, Copy, Debug, Eq, PartialEq)]
pub struct Limits {
    header_bytes: usize,
    headers: usize,
    body_bytes: usize,
    chunks: usize,
}

/// The limits that a [`Limits`] sets.
pub struct Bounds {
    pub header_bytes: nat,
    pub headers: nat,
    pub body_bytes: nat,
    pub chunks: nat,
}

impl View for Limits {
    type V = Bounds;

    closed spec fn view(&self) -> Bounds {
        Bounds {
            header_bytes: self.header_bytes as nat,
            headers: self.headers as nat,
            body_bytes: self.body_bytes as nat,
            chunks: self.chunks as nat,
        }
    }
}

impl Bounds {
    /// The limits of a decoder that sets none of its own.
    pub open spec fn standard() -> Bounds {
        Bounds {
            header_bytes: DEFAULT_MAX_HEADER_BYTES as nat,
            headers: DEFAULT_MAX_HEADERS as nat,
            body_bytes: DEFAULT_MAX_BODY_BYTES as nat,
            chunks: DEFAULT_MAX_CHUNKS as nat,
        }
    }

    /// Heads, headers, and chunks are allowed, and no more headers than the
    /// parser has room for.
    pub open spec fn wf(self) -> bool {
        &&& 0 < self.header_bytes <= usize::MAX
        &&& 0 < self.headers <= MAX_HEADER_CAPACITY
        &&& self.body_bytes <= usize::MAX
        &&& 0 < self.chunks <= usize::MAX
    }
}

impl Limits {
    #[verifier::type_invariant]
    spec fn well_formed(self) -> bool {
        self@.wf()
    }

    #[must_use]
    pub fn new() -> (limits: Self)
        ensures
            limits@ == Bounds::standard(),
    {
        Limits {
            header_bytes: DEFAULT_MAX_HEADER_BYTES,
            headers: DEFAULT_MAX_HEADERS,
            body_bytes: DEFAULT_MAX_BODY_BYTES,
            chunks: DEFAULT_MAX_CHUNKS,
        }
    }

    #[must_use]
    pub fn with_max_header_bytes(self, bytes: usize) -> (limits: Self)
        requires
            bytes > 0,
        ensures
            limits@ == (Bounds { header_bytes: bytes as nat, ..self@ }),
    {
        proof {
            use_type_invariant(&self);
        }
        Limits { header_bytes: bytes, ..self }
    }

    #[must_use]
    pub fn with_max_headers(self, count: usize) -> (limits: Self)
        requires
            0 < count <= MAX_HEADER_CAPACITY,
        ensures
            limits@ == (Bounds { headers: count as nat, ..self@ }),
    {
        proof {
            use_type_invariant(&self);
        }
        Limits { headers: count, ..self }
    }

    #[must_use]
    pub fn with_max_body_bytes(self, bytes: usize) -> (limits: Self)
        ensures
            limits@ == (Bounds { body_bytes: bytes as nat, ..self@ }),
    {
        proof {
            use_type_invariant(&self);
        }
        Limits { body_bytes: bytes, ..self }
    }

    #[must_use]
    pub fn with_max_chunks(self, count: usize) -> (limits: Self)
        requires
            count > 0,
        ensures
            limits@ == (Bounds { chunks: count as nat, ..self@ }),
    {
        proof {
            use_type_invariant(&self);
        }
        Limits { chunks: count, ..self }
    }

    /// The longest head, and the longest trailer section, that is accepted.
    pub(crate) fn header_bytes(&self) -> (bytes: usize)
        ensures
            bytes == self@.header_bytes,
            self@.wf(),
    {
        proof {
            use_type_invariant(self);
        }
        self.header_bytes
    }

    /// The most headers that are accepted.
    pub(crate) fn headers(&self) -> (count: usize)
        ensures
            count == self@.headers,
            self@.wf(),
    {
        proof {
            use_type_invariant(self);
        }
        self.headers
    }

    /// The longest body that is accepted.
    pub(crate) fn body_bytes(&self) -> (bytes: usize)
        ensures
            bytes == self@.body_bytes,
            self@.wf(),
    {
        proof {
            use_type_invariant(self);
        }
        self.body_bytes
    }

    /// The most chunks that are accepted.
    pub(crate) fn chunks(&self) -> (count: usize)
        ensures
            count == self@.chunks,
            self@.wf(),
    {
        proof {
            use_type_invariant(self);
        }
        self.chunks
    }
}

impl Default for Limits {
    fn default() -> (limits: Self)
        ensures
            limits@ == Bounds::standard(),
    {
        Limits::new()
    }
}

} // verus!
