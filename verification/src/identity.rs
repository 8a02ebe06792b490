//! The identity gate.
//!
//! An `Identity` is the opaque, comparable token that the transport layer
//! hands over after authenticating a caller; the core only ever compares it
//! and uses it as a map key.  The reserved anonymous token (a single tag
//! byte) is rejected here, before any state is touched.

use vstd::prelude::*;

verus! {

/// The tag byte that makes up the reserved anonymous caller token.
pub const ANONYMOUS_TAG: u8 = 4;

/// The byte form of the reserved anonymous caller.
pub open spec fn anonymous_bytes() -> Seq<u8> {
    seq![ANONYMOUS_TAG]
}

/// An authenticated caller, as delivered by the transport layer.
pub struct Identity {
    pub bytes: Vec<u8>,
}

impl View for Identity {
    type V = Seq<u8>;

    open spec fn view(&self) -> Seq<u8> {
        self.bytes@
    }
}

impl DeepView for Identity {
    type V = Seq<u8>;

    open spec fn deep_view(&self) -> Seq<u8> {
        self.bytes@
    }
}

impl Clone for Identity {
    fn clone(&self) -> (r: Identity)
        ensures
            r@ == self@,
    {
        let mut bytes: Vec<u8> = Vec::new();
        let mut i: usize = 0;
        while i < self.bytes.len()
            invariant
                i <= self.bytes.len(),
                bytes@ == self.bytes@.subrange(0, i as int),
            decreases self.bytes.len() - i,
        {
            bytes.push(self.bytes[i]);
            i += 1;
            proof {
                assert(bytes@ =~= self.bytes@.subrange(0, i as int));
            }
        }
        proof {
            assert(bytes@ =~= self.bytes@);
        }
        Identity { bytes }
    }
}

/// Rejecting an anonymous caller is the sole authentication check of the core.
#[derive(Debug, PartialEq, Eq, Structural)]
pub enum IdentityError {
    AnonymousCaller,
}

impl Identity {
    /// Wraps the raw token bytes supplied by the transport layer.
    pub fn from_bytes(bytes: Vec<u8>) -> (r: Identity)
        ensures
            r@ == bytes@,
    {
        Identity { bytes }
    }

    /// The token is the reserved anonymous one.
    pub fn is_anonymous(&self) -> (r: bool)
        ensures
            r == (self@ == anonymous_bytes()),
    {
        if self.bytes.len() == 1 && self.bytes[0] == ANONYMOUS_TAG {
            proof {
                assert(self@ =~= anonymous_bytes());
            }
            true
        } else {
            proof {
                if self@ == anonymous_bytes() {
                    assert(self.bytes@.len() == 1);
                    assert(self.bytes@[0] == ANONYMOUS_TAG);
                }
            }
            false
        }
    }

    /// Token equality, the comparison every store keys on.
    pub fn same_as(&self, other: &Identity) -> (r: bool)
        ensures
            r == (self@ == other@),
    {
        if self.bytes.len() != other.bytes.len() {
            return false;
        }
        let mut i: usize = 0;
        while i < self.bytes.len()
            invariant
                i <= self.bytes.len(),
                self.bytes.len() == other.bytes.len(),
                forall|j: int| 0 <= j < i ==> self.bytes@[j] == other.bytes@[j],
            decreases self.bytes.len() - i,
        {
            if self.bytes[i] != other.bytes[i] {
                return false;
            }
            i += 1;
        }
        proof {
            assert(self.bytes@ =~= other.bytes@);
        }
        true
    }
}

/// The identity gate: accepts the transport-supplied caller token and rejects
/// the reserved anonymous one before it can reach any store.
pub fn resolve_caller(bytes: Vec<u8>) -> (r: Result<Identity, IdentityError>)
    ensures
        match r {
            Ok(id) => id@ == bytes@ && bytes@ != anonymous_bytes(),
            Err(e) => e == IdentityError::AnonymousCaller && bytes@ == anonymous_bytes(),
        },
{
    let id = Identity::from_bytes(bytes);
    if id.is_anonymous() {
        Err(IdentityError::AnonymousCaller)
    } else {
        Ok(id)
    }
}

/// An exact copy of a byte vector.
pub fn clone_bytes(v: &Vec<u8>) -> (r: Vec<u8>)
    ensures
        r@ == v@,
{
    let mut r: Vec<u8> = Vec::new();
    let mut i: usize = 0;
    while i < v.len()
        invariant
            i <= v@.len(),
            r@ == v@.take(i as int),
        decreases v@.len() - i,
    {
        r.push(v[i]);
        proof {
            assert(r@ =~= v@.take(i as int + 1));
        }
        i += 1;
    }
    proof {
        assert(v@.take(v@.len() as int) =~= v@);
    }
    r
}

} // verus!
