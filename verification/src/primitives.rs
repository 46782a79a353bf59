//! Hashes, addresses, 256-bit integers and the encodings that the trie needs of them.

use vstd::prelude::*;

verus! {

/// A 32-byte hash or word.
pub type B256 = [u8; 32];

/// A 20-byte account address.
pub type Address = [u8; 20];

/// The Keccak-256 digest of the empty byte string.
pub const KECCAK_EMPTY: B256 = [
    0xc5, 0xd2, 0x46, 0x01, 0x86, 0xf7, 0x23, 0x3c, 0x92, 0x7e, 0x7d, 0xb2, 0xdc, 0xc7, 0x03, 0xc0,
    0xe5, 0x00, 0xb6, 0x53, 0xca, 0x82, 0x27, 0x3b, 0x7b, 0xfa, 0xd8, 0x04, 0x5d, 0x85, 0xa4, 0x70,
];

/// The word of 32 zero bytes.
pub const ZERO_WORD: B256 = [
    0, 0, 0, 0, 0, 0, 0, 0, 0, 0, 0, 0, 0, 0, 0, 0, 0, 0, 0, 0, 0, 0, 0, 0, 0, 0, 0, 0, 0, 0, 0, 0,
];

/// A 256-bit unsigned integer, held as its big-endian bytes.
#[derive(Debug, Clone, Copy, PartialEq, Eq)]
pub struct U256 {
    /// The bytes, most significant first.
    pub be_bytes: [u8; 32],
}

/// The number that `bytes`, most significant first, stand for.
pub open spec fn be_value(bytes: Seq<u8>) -> nat
    decreases bytes.len(),
{
    if bytes.len() == 0 {
        0
    } else {
        be_value(bytes.drop_last()) * 256 + bytes.last() as nat
    }
}

/// A big-endian number is zero exactly where all of its bytes are.
pub proof fn be_value_zero(bytes: Seq<u8>)
    ensures
        be_value(bytes) == 0 <==> forall|i: int| 0 <= i < bytes.len() ==> bytes[i] == 0,
    decreases bytes.len(),
{
    if bytes.len() > 0 {
        let init = bytes.drop_last();
        be_value_zero(init);
        if be_value(bytes) == 0 {
            assert forall|i: int| 0 <= i < bytes.len() implies bytes[i] == 0 by {
                if i < init.len() {
                    assert(init[i] == bytes[i]);
                }
            }
        } else if forall|i: int| 0 <= i < bytes.len() ==> bytes[i] == 0 {
            assert forall|i: int| 0 <= i < init.len() implies init[i] == 0 by {
                assert(bytes[i] == 0);
            }
            assert(bytes[bytes.len() - 1] == 0);
        }
    }
}

/// Whether two byte arrays are the same.
pub fn same_bytes<const N: usize>(a: &[u8; N], b: &[u8; N]) -> (same: bool)
    ensures
        same == (*a == *b),
{
    let mut i: usize = 0;
    while i < N
        invariant
            i <= N,
            forall|j: int| 0 <= j < i ==> a[j] == b[j],
        decreases N - i,
    {
        if a[i] != b[i] {
            return false;
        }
        i = i + 1;
    }
    assert(*a =~= *b);
    true
}

impl U256 {
    /// The number that this integer stands for.
    pub open spec fn value(self) -> nat {
        be_value(self.be_bytes@)
    }

    /// Zero.
    pub fn zero() -> (z: U256)
        ensures
            z.value() == 0,
            z == (U256 { be_bytes: ZERO_WORD }),
    {
        let z = U256 { be_bytes: ZERO_WORD };
        proof {
            be_value_zero(z.be_bytes@);
        }
        z
    }

    /// Returns true if the integer is zero.
    pub fn is_zero(&self) -> (zero: bool)
        ensures
            zero == (self.value() == 0),
    {
        let mut i: usize = 0;
        proof {
            be_value_zero(self.be_bytes@);
        }
        while i < 32
            invariant
                i <= 32,
                be_value(self.be_bytes@) == 0 <==> forall|j: int|
                    0 <= j < self.be_bytes@.len() ==> self.be_bytes@[j] == 0,
                forall|j: int| 0 <= j < i ==> self.be_bytes[j] == 0,
            decreases 32 - i,
        {
            if self.be_bytes[i] != 0 {
                assert(self.be_bytes@[i as int] != 0);
                return false;
            }
            i = i + 1;
        }
        true
    }
}

/// The Keccak-256 digest of a byte string, as `revm_primitives::keccak256` computes it.
pub uninterp spec fn keccak256_of(bytes: Seq<u8>) -> [u8; 32];

/// Calls `revm_primitives::keccak256`: the Keccak-256 digest of the bytes, which depends on
/// nothing but them. The hash function itself is not written out.
#[verifier::external_body]
pub(crate) fn keccak256(bytes: &[u8]) -> (digest: B256)
    ensures
        digest == keccak256_of(bytes@),
{
    revm_primitives::keccak256(bytes).0
}

/// `bytes` without the zero bytes that it starts with.
pub open spec fn trim_leading_zeros(bytes: Seq<u8>) -> Seq<u8>
    decreases bytes.len(),
{
    if bytes.len() > 0 && bytes[0] == 0 {
        trim_leading_zeros(bytes.skip(1))
    } else {
        bytes
    }
}

/// The RLP encoding of a 256-bit integer: a number below 0x80 other than zero is its own byte;
/// any other is 0x80 plus the count of its significant bytes, followed by those bytes.
pub open spec fn rlp_of_u256(value: U256) -> Seq<u8> {
    let trimmed = trim_leading_zeros(value.be_bytes@);
    if trimmed.len() == 1 && trimmed[0] < 0x80 {
        trimmed
    } else {
        seq![(0x80 + trimmed.len()) as u8] + trimmed
    }
}

/// Calls `alloy_rlp::encode_fixed_size` on the integer: its RLP encoding, with the leading zero
/// bytes left out.
#[verifier::external_body]
pub(crate) fn rlp_encode_u256(value: &U256) -> (encoded: Vec<u8>)
    ensures
        encoded@ == rlp_of_u256(*value),
{
    let number = alloy_primitives::U256::from_be_bytes(value.be_bytes);
    alloy_rlp::encode_fixed_size(&number).to_vec()
}

/// The half-bytes of a byte string: of each byte its high half, then its low half.
pub open spec fn nibbles_of(bytes: Seq<u8>) -> Seq<u8> {
    Seq::new(
        2 * bytes.len(),
        |i: int|
            if i % 2 == 0 {
                bytes[i / 2] / 16
            } else {
                bytes[i / 2] % 16
            },
    )
}

/// Splits a hash into its 64 nibbles, the path of a leaf in the trie.
pub fn unpack_nibbles(hash: &B256) -> (nibbles: Vec<u8>)
    ensures
        nibbles@ == nibbles_of(hash@),
{
    let mut nibbles: Vec<u8> = Vec::with_capacity(64);
    let mut i: usize = 0;
    while i < 32
        invariant
            i <= 32,
            nibbles@.len() == 2 * i,
            forall|j: int| 0 <= j < nibbles@.len() ==> nibbles@[j] == nibbles_of(hash@)[j],
        decreases 32 - i,
    {
        nibbles.push(hash[i] / 16);
        nibbles.push(hash[i] % 16);
        i = i + 1;
    }
    assert(nibbles@ =~= nibbles_of(hash@));
    nibbles
}

/// Every nibble of an unpacked hash is below 16, there are 64 of them, and two hashes with the
/// same nibbles are the same hash: distinct keys have distinct paths.
pub proof fn nibbles_identify_the_hash(a: B256, b: B256)
    ensures
        nibbles_of(a@).len() == 64,
        forall|i: int| 0 <= i < 64 ==> #[trigger] nibbles_of(a@)[i] < 16,
        nibbles_of(a@) == nibbles_of(b@) ==> a == b,
{
    if nibbles_of(a@) == nibbles_of(b@) {
        assert forall|i: int| 0 <= i < 32 implies a[i] == b[i] by {
            assert(nibbles_of(a@)[2 * i] == nibbles_of(b@)[2 * i]);
            assert(nibbles_of(a@)[2 * i + 1] == nibbles_of(b@)[2 * i + 1]);
            assert((2 * i) / 2 == i && (2 * i + 1) / 2 == i);
            assert((2 * i) % 2 == 0 && (2 * i + 1) % 2 == 1);
            assert(a[i] as int == 16 * (a[i] as int / 16) + a[i] as int % 16);
            assert(b[i] as int == 16 * (b[i] as int / 16) + b[i] as int % 16);
        }
        assert(a =~= b);
    }
}

/// The nibbles of a byte string, two by two, make up its bytes: the first of the two is the high
/// half.
pub proof fn nibbles_make_up_the_bytes(bytes: Seq<u8>)
    ensures
        nibbles_of(bytes).len() == 2 * bytes.len(),
        forall|i: int|
            0 <= i < bytes.len() ==> {
                &&& nibbles_of(bytes)[2 * i] < 16
                &&& nibbles_of(bytes)[2 * i + 1] < 16
                &&& nibbles_of(bytes)[2 * i] * 16 + nibbles_of(bytes)[2 * i + 1] == (
                #[trigger] bytes[i])
            },
{
    assert forall|i: int| 0 <= i < bytes.len() implies {
        &&& nibbles_of(bytes)[2 * i] < 16
        &&& nibbles_of(bytes)[2 * i + 1] < 16
        &&& nibbles_of(bytes)[2 * i] * 16 + nibbles_of(bytes)[2 * i + 1] == (#[trigger] bytes[i])
    } by {
        assert((2 * i) / 2 == i && (2 * i + 1) / 2 == i);
        assert((2 * i) % 2 == 0 && (2 * i + 1) % 2 == 1);
    }
}

/// Two integers that stand for one number are the same.
pub proof fn integers_are_their_values(a: U256, b: U256)
    ensures
        a.value() == b.value() <==> a == b,
{
    lemma_be_value_identifies(a.be_bytes@, b.be_bytes@);
    if a.be_bytes@ == b.be_bytes@ {
        assert(a.be_bytes =~= b.be_bytes);
    }
}

proof fn lemma_be_value_identifies(a: Seq<u8>, b: Seq<u8>)
    requires
        a.len() == b.len(),
    ensures
        be_value(a) == be_value(b) <==> a == b,
    decreases a.len(),
{
    if a.len() > 0 {
        lemma_be_value_identifies(a.drop_last(), b.drop_last());
        if be_value(a) == be_value(b) {
            assert(a =~= a.drop_last().push(a.last()));
            assert(b =~= b.drop_last().push(b.last()));
        }
    } else {
        assert(a =~= b);
    }
}

} // verus!
