use vstd::prelude::*;

verus! {

/// Public-key hash identifying a user.
#[derive(Debug, Clone, Copy, PartialEq, Eq, Hash)]
pub struct UserId(pub [u8; 32]);

/// Identifier for a peer device (transport-specific).
#[derive(Debug, Clone, Copy, PartialEq, Eq, Hash)]
pub struct PeerId(pub [u8; 32]);

/// Unique identifier for a message: the sixteen bytes of a version 4 UUID.
#[derive(Debug, Clone, Copy, PartialEq, Eq, Hash)]
pub struct MessageId([u8; 16]);

/// Byte-wise comparison of two 32-byte identifiers.
fn bytes32_equal(a: &[u8; 32], b: &[u8; 32]) -> (r: bool)
    ensures
        r == (a@ == b@),
{
    let mut i: usize = 0;
    while i < 32
        invariant
            i <= 32,
            forall|j: int| 0 <= j < i ==> a@[j] == b@[j],
        decreases 32 - i,
    {
        if a[i] != b[i] {
            return false;
        }
        i += 1;
    }
    assert(a@ =~= b@);
    true
}

/// Draws 32 bytes from `rand::random`, the thread-local generator of the
/// `rand` crate. Nothing is claimed of the bytes that come back.
#[verifier::external_body]
fn random_bytes32() -> [u8; 32] {
    rand::random()
}

/// Calls `uuid::Uuid::new_v4` and hands out its sixteen bytes. The bytes are
/// random apart from the version nibble (4) in byte 6 and the variant bits
/// (binary 10) at the top of byte 8, which that function always sets.
#[verifier::external_body]
fn fresh_uuid_bytes() -> (b: [u8; 16])
    ensures
        b@[6] / 16 == 4,
        b@[8] / 64 == 2,
{
    *uuid::Uuid::new_v4().as_bytes()
}

impl View for UserId {
    type V = Seq<u8>;

    open spec fn view(&self) -> Seq<u8> {
        self.0@
    }
}

impl UserId {
    /// A user identifier drawn at random.
    pub fn random() -> Self {
        UserId(random_bytes32())
    }

    /// Whether two user identifiers hold the same bytes.
    pub fn same(&self, other: &UserId) -> (r: bool)
        ensures
            r == (self@ == other@),
            r == (*self == *other),
    {
        let r = bytes32_equal(&self.0, &other.0);
        proof {
            if r {
                assert(self.0 =~= other.0);
            }
        }
        r
    }
}

impl View for PeerId {
    type V = Seq<u8>;

    open spec fn view(&self) -> Seq<u8> {
        self.0@
    }
}

impl PeerId {
    /// Whether two peer identifiers hold the same bytes.
    pub fn same(&self, other: &PeerId) -> (r: bool)
        ensures
            r == (self@ == other@),
            r == (*self == *other),
    {
        let r = bytes32_equal(&self.0, &other.0);
        proof {
            if r {
                assert(self.0 =~= other.0);
            }
        }
        r
    }
}

impl View for MessageId {
    type V = Seq<u8>;

    closed spec fn view(&self) -> Seq<u8> {
        self.0@
    }
}

impl MessageId {
    /// Whether the bytes carry the marks of a version 4 UUID.
    pub open spec fn is_v4(bytes: Seq<u8>) -> bool {
        bytes.len() == 16 && bytes[6] / 16 == 4 && bytes[8] / 64 == 2
    }

    /// A fresh random identifier (UUID version 4).
    pub fn new() -> (id: Self)
        ensures
            Self::is_v4(id@),
    {
        MessageId(fresh_uuid_bytes())
    }

    /// The sixteen bytes of the identifier.
    pub fn to_bytes(self) -> (b: [u8; 16])
        ensures
            b@ == self@,
    {
        self.0
    }

    /// The identifier with the given bytes.
    pub fn from_bytes(bytes: &[u8; 16]) -> (id: Self)
        ensures
            id@ == bytes@,
    {
        MessageId(*bytes)
    }

    /// Every identifier is valid: no byte pattern is refused.
    pub fn is_valid(&self) -> (r: bool)
        ensures
            r,
    {
        true
    }

    /// Whether two message identifiers hold the same bytes.
    pub fn same(&self, other: &MessageId) -> (r: bool)
        ensures
            r == (self@ == other@),
            r == (*self == *other),
    {
        let mut i: usize = 0;
        while i < 16
            invariant
                i <= 16,
                forall|j: int| 0 <= j < i ==> self.0@[j] == other.0@[j],
            decreases 16 - i,
        {
            if self.0[i] != other.0[i] {
                return false;
            }
            i += 1;
        }
        assert(self.0@ =~= other.0@);
        assert(self.0 =~= other.0);
        true
    }

    /// Identifiers with the same bytes are the same identifier.
    pub proof fn lemma_view_injective(a: MessageId, b: MessageId)
        requires
            a@ == b@,
        ensures
            a == b,
    {
        assert(a.0 =~= b.0);
    }

    /// An identifier has sixteen bytes.
    pub proof fn lemma_view_len(id: MessageId)
        ensures
            id@.len() == 16,
    {
    }
}

impl Default for MessageId {
    fn default() -> (id: Self)
        ensures
            MessageId::is_v4(id@),
    {
        MessageId::new()
    }
}

} // verus!
