//! Compressed path segments.
use vstd::prelude::*;

use crate::error::IoErrorKind;
use crate::words::bytes_eq;

verus! {

/// A path behind its length byte.
pub open spec fn framed(path: Seq<u8>) -> Seq<u8> {
    seq![path.len() as u8] + path
}

/// A compressed trie path segment of at most 32 bytes, stored inline.
#[derive(Clone, Copy, Debug)]
pub struct NodePath {
    data: [u8; 32],
    len: u8,
}

impl PartialEq for NodePath {
    fn eq(&self, other: &Self) -> (same: bool) {
        bytes_eq(self.as_slice(), other.as_slice())
    }
}

impl vstd::std_specs::cmp::PartialEqSpecImpl for NodePath {
    open spec fn obeys_eq_spec() -> bool {
        true
    }

    open spec fn eq_spec(&self, other: &Self) -> bool {
        self@ == other@
    }
}

impl Eq for NodePath {

}

impl Default for NodePath {
    fn default() -> (path: Self)
        ensures
            path@ == Seq::<u8>::empty(),
    {
        let path = NodePath { data: [0u8; 32], len: 0 };
        assert(path@ =~= Seq::<u8>::empty());
        path
    }
}

impl NodePath {
    #[verifier::type_invariant]
    spec fn bounded(self) -> bool {
        self.len <= 32
    }

    /// The active prefix.
    pub closed spec fn view(&self) -> Seq<u8> {
        self.data@.subrange(0, self.len as int)
    }

    /// Create a `NodePath` from a byte slice. Returns `None` if `s.len() > 32`.
    pub fn from_slice(s: &[u8]) -> (path: Option<Self>)
        ensures
            path is Some <==> s@.len() <= 32,
            path is Some ==> path->0@ == s@,
    {
        let mut path = NodePath { data: [0u8; 32], len: 0 };
        match path.set_from_slice(s) {
            Some(_) => Some(path),
            None => None,
        }
    }

    /// The path bytes as a slice.
    pub fn as_slice(&self) -> (bytes: &[u8])
        ensures
            bytes@ == self@,
            bytes@.len() <= 32,
    {
        proof {
            use_type_invariant(self);
        }
        &self.data[0..self.len as usize]
    }

    /// The length of the path in bytes.
    pub fn len(&self) -> (n: usize)
        ensures
            n == self@.len(),
            n <= 32,
    {
        proof {
            use_type_invariant(self);
        }
        self.len as usize
    }

    /// Returns `true` if the path is empty.
    pub fn is_empty(&self) -> (empty: bool)
        ensures
            empty == (self@.len() == 0),
    {
        proof {
            use_type_invariant(self);
        }
        self.len == 0
    }

    /// Set the path to the first `len` bytes of a stream, which holds `bytes`.
    pub fn read_from(&mut self, len: u8, bytes: &[u8]) -> (done: Result<(), IoErrorKind>)
        requires
            len <= 32,
        ensures
            done == if bytes@.len() >= len {
                Ok::<(), IoErrorKind>(())
            } else {
                Err(IoErrorKind::UnexpectedEof)
            },
            done is Ok ==> final(self)@ == bytes@.subrange(0, len as int),
            done is Err ==> final(self)@ == old(self)@,
    {
        if bytes.len() < len as usize {
            return Err(IoErrorKind::UnexpectedEof);
        }
        let _ = self.set_from_slice(&bytes[0..len as usize]);
        Ok(())
    }

    /// Set the path from a byte slice. Returns `None` if `s.len() > 32`.
    pub fn set_from_slice(&mut self, s: &[u8]) -> (done: Option<()>)
        ensures
            done is Some <==> s@.len() <= 32,
            done is Some ==> final(self)@ == s@,
            done is None ==> final(self)@ == old(self)@,
    {
        let len = s.len();
        if len > 32 {
            return None;
        }
        let mut data: [u8; 32] = self.data;
        let mut at: usize = 0;
        while at < len
            invariant
                at <= len <= 32,
                len == s@.len(),
                forall|i: int| 0 <= i < at ==> data@[i] == s@[i],
            decreases len - at,
        {
            data[at] = s[at];
            at = at + 1;
        }
        *self = NodePath { data, len: len as u8 };
        assert(self@ =~= s@);
        Some(())
    }
}

} // verus!
