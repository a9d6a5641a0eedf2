//! Identities of peers and of the sessions that reach them.

use vstd::prelude::*;
use vstd::std_specs::cmp::PartialEqSpecImpl;

verus! {

/// Handle of one open transport connection, as the transport numbers it.
#[derive(Clone, Copy, Debug, PartialEq, Eq, Hash, Structural)]
pub struct SessionId(pub usize);

impl SessionId {
    /// The handle of the connection that the transport numbers `value`.
    pub fn new(value: usize) -> (id: SessionId)
        ensures
            id == SessionId(value),
    {
        SessionId(value)
    }

    /// The number that the transport gave the connection.
    pub fn value(self) -> (value: usize)
        ensures
            value == self.0,
    {
        self.0
    }
}

/// The base-58 text that the transport gives for a peer identity held in
/// `bytes`, or `None` where the transport refuses `bytes` as an identity.
pub uninterp spec fn peer_base58(bytes: Seq<u8>) -> Option<Seq<char>>;

/// `tentacle::secio::PeerId::from_bytes`, followed on success by
/// `PeerId::to_base58`.
///
/// The result depends on `bytes` alone: `None` where `from_bytes` returns an
/// error, else the text that `to_base58` gives for the identity it built.
#[verifier::external_body]
fn base58_of_bytes(bytes: &Vec<u8>) -> (text: Option<String>)
    ensures
        match text {
            Some(s) => peer_base58(bytes@) == Some(s@),
            None => peer_base58(bytes@) is None,
        },
{
    match tentacle::secio::PeerId::from_bytes(bytes.clone()) {
        Ok(id) => Some(id.to_base58()),
        Err(_) => None,
    }
}

/// Identity of a peer, independent of the sessions that reach it.
///
/// A value holds the raw bytes of an identity that the transport accepts.
#[derive(Debug, Hash)]
pub struct PeerId {
    bytes: Vec<u8>,
}

impl View for PeerId {
    type V = Seq<u8>;

    closed spec fn view(&self) -> Seq<u8> {
        self.bytes@
    }
}

impl PeerId {
    #[verifier::type_invariant]
    spec fn accepted(self) -> bool {
        peer_base58(self.bytes@) is Some
    }

    /// The canonical text of the identity.
    pub open spec fn base58(self) -> Seq<char> {
        peer_base58(self@).unwrap()
    }

    /// Builds an identity from its raw bytes, if the transport accepts them.
    pub fn from_bytes(bytes: Vec<u8>) -> (id: Option<PeerId>)
        ensures
            id is Some <==> peer_base58(bytes@) is Some,
            id is Some ==> id.unwrap()@ == bytes@,
    {
        match base58_of_bytes(&bytes) {
            Some(_) => Some(PeerId { bytes }),
            None => None,
        }
    }

    /// The raw bytes of the identity.
    pub fn as_bytes(&self) -> (bytes: &[u8])
        ensures
            bytes@ == self@,
    {
        self.bytes.as_slice()
    }

    /// The canonical text of the identity, by which peers are named on the
    /// wire.
    pub fn to_base58(&self) -> (text: String)
        ensures
            text@ == self.base58(),
    {
        proof {
            use_type_invariant(self);
        }
        match base58_of_bytes(&self.bytes) {
            Some(text) => text,
            None => String::new(),
        }
    }
}

impl Clone for PeerId {
    fn clone(&self) -> (copy: PeerId)
        ensures
            copy@ == self@,
    {
        proof {
            use_type_invariant(self);
        }
        let bytes = self.bytes.clone();
        assert(bytes@ =~= self.bytes@);
        PeerId { bytes }
    }
}

impl PartialEq for PeerId {
    fn eq(&self, other: &PeerId) -> (same: bool) {
        let n = self.bytes.len();
        if other.bytes.len() != n {
            return false;
        }
        let mut i: usize = 0;
        while i < n
            invariant
                n == self.bytes@.len(),
                n == other.bytes@.len(),
                i <= n,
                self.bytes@.take(i as int) == other.bytes@.take(i as int),
            decreases n - i,
        {
            if self.bytes[i] != other.bytes[i] {
                assert(self.bytes@[i as int] != other.bytes@[i as int]);
                return false;
            }
            assert(self.bytes@.take(i + 1) == self.bytes@.take(i as int).push(self.bytes@[i as int]));
            assert(other.bytes@.take(i + 1) == other.bytes@.take(i as int).push(
                other.bytes@[i as int],
            ));
            i = i + 1;
        }
        assert(self.bytes@ == self.bytes@.take(n as int));
        assert(other.bytes@ == other.bytes@.take(n as int));
        true
    }
}

impl PartialEqSpecImpl for PeerId {
    open spec fn obeys_eq_spec() -> bool {
        true
    }

    open spec fn eq_spec(&self, other: &PeerId) -> bool {
        self@ == other@
    }
}

impl Eq for PeerId {

}

} // verus!
