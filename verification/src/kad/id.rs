use vstd::prelude::*;
use crate::text::{hex_lower, to_hex_lower};

verus! {

/// A 128-bit Kademlia identifier, stored as big-endian bytes.
#[derive(Clone, Copy, Debug, Hash)]
pub struct KadId(pub [u8; 16]);

/// The eMule/iMule "crypt" byte order of a 128-bit value: four 32-bit words in
/// order, each written little-endian. On big-endian bytes this reverses every
/// 4-byte group.
pub open spec fn crypt_order(s: Seq<u8>) -> Seq<u8> {
    Seq::new(16, |i: int| s[4 * (i / 4) + 3 - i % 4])
}

impl PartialEq for KadId {
    fn eq(&self, other: &Self) -> (r: bool) {
        let mut i: usize = 0;
        while i < 16
            invariant
                i <= 16,
                forall|j: int| 0 <= j < i ==> self.0@[j] == other.0@[j],
            decreases 16 - i,
        {
            if self.0[i] != other.0[i] {
                return false;
            }
            i += 1;
        }
        assert(self.0@ =~= other.0@);
        true
    }
}

impl vstd::std_specs::cmp::PartialEqSpecImpl for KadId {
    open spec fn obeys_eq_spec() -> bool {
        true
    }

    open spec fn eq_spec(&self, other: &KadId) -> bool {
        self.0@ == other.0@
    }
}

impl Eq for KadId {
}

impl KadId {
    pub open spec fn bytes(self) -> Seq<u8> {
        self.0@
    }

    pub open spec fn spec_is_zero(self) -> bool {
        forall|i: int| 0 <= i < 16 ==> self.0@[i] == 0
    }

    /// The identifier in eMule/iMule wire byte order.
    pub fn to_crypt_bytes(&self) -> (out: [u8; 16])
        ensures
            out@ == crypt_order(self.0@),
    {
        let b = &self.0;
        let out: [u8; 16] = [
            b[3], b[2], b[1], b[0],
            b[7], b[6], b[5], b[4],
            b[11], b[10], b[9], b[8],
            b[15], b[14], b[13], b[12],
        ];
        assert(out@ =~= crypt_order(self.0@));
        out
    }

    /// Rebuild an identifier from 16 bytes in eMule/iMule wire byte order.
    pub fn from_crypt_bytes(b: &[u8]) -> (id: KadId)
        requires
            b@.len() == 16,
        ensures
            id.0@ == crypt_order(b@),
    {
        let out: [u8; 16] = [
            b[3], b[2], b[1], b[0],
            b[7], b[6], b[5], b[4],
            b[11], b[10], b[9], b[8],
            b[15], b[14], b[13], b[12],
        ];
        assert(out@ =~= crypt_order(b@));
        KadId(out)
    }

    pub fn is_zero(&self) -> (z: bool)
        ensures
            z == self.spec_is_zero(),
    {
        let mut i: usize = 0;
        while i < 16
            invariant
                i <= 16,
                forall|j: int| 0 <= j < i ==> self.0@[j] == 0,
            decreases 16 - i,
        {
            if self.0[i] != 0 {
                return false;
            }
            i += 1;
        }
        true
    }

    /// Lower-case hex of the big-endian bytes.
    pub fn to_hex_lower(&self) -> (s: String)
        ensures
            s@ == hex_lower(self.0@),
    {
        to_hex_lower(&self.0)
    }
}

/// Applying the crypt byte order twice gives back the original bytes.
pub proof fn lemma_crypt_order_involutive(s: Seq<u8>)
    requires
        s.len() == 16,
    ensures
        crypt_order(crypt_order(s)) == s,
{
    assert(crypt_order(crypt_order(s)) =~= s);
}

/// Byte-wise XOR distance of two identifiers.
pub open spec fn xor_distance_spec(a: KadId, b: KadId) -> Seq<u8> {
    Seq::new(16, |i: int| a.0@[i] ^ b.0@[i])
}

pub fn xor_distance(a: KadId, b: KadId) -> (out: [u8; 16])
    ensures
        out@ == xor_distance_spec(a, b),
{
    let mut out = [0u8; 16];
    let mut i: usize = 0;
    while i < 16
        invariant
            i <= 16,
            out@.len() == 16,
            forall|j: int| 0 <= j < i ==> out@[j] == a.0@[j] ^ b.0@[j],
        decreases 16 - i,
    {
        out[i] = a.0[i] ^ b.0[i];
        i += 1;
    }
    assert(out@ =~= xor_distance_spec(a, b));
    out
}

} // verus!
