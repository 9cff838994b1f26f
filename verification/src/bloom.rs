use vstd::prelude::*;

verus! {

/// Number of bytes in a bloom.
pub const BLOOM_SIZE: usize = 256;

/// The byte string of `len` zero bytes.
pub open spec fn zero_bytes(len: nat) -> Seq<u8> {
    Seq::new(len, |i: int| 0u8)
}

/// Byte-wise union of `a` with `b`; as long as `a`.
pub open spec fn union_bytes(a: Seq<u8>, b: Seq<u8>) -> Seq<u8> {
    Seq::new(a.len(), |i: int| a[i] | b[i])
}

/// Every bit set in `query` is set in `bloom`.
pub open spec fn covers(bloom: Seq<u8>, query: Seq<u8>) -> bool {
    forall|i: int| 0 <= i < query.len() ==> bloom[i] & #[trigger] query[i] == query[i]
}

/// `ethbloom::Bloom::accrue_bloom` on a bloom made of `target`: the result
/// holds, byte by byte, the bits of `target` or-ed with those of `other`.
#[verifier::external_body]
fn accrue_bytes(target: [u8; 256], other: &[u8; 256]) -> (merged: [u8; 256])
    ensures
        merged@ == union_bytes(target@, other@),
{
    let mut bloom = ethbloom::Bloom(target);
    bloom.accrue_bloom(other);
    bloom.0
}

/// `ethbloom::BloomRef::contains_bloom`: true exactly when no byte of `query`
/// has a bit that the same byte of `bloom` lacks.
#[verifier::external_body]
fn contains_bytes(bloom: &[u8; 256], query: &[u8; 256]) -> (found: bool)
    ensures
        found == covers(bloom@, query@),
{
    ethbloom::BloomRef::from(bloom).contains_bloom(query)
}

/// A bloom filter of 2048 bits.
#[derive(Clone, Copy, Debug, PartialEq, Eq)]
pub struct Bloom {
    pub bytes: [u8; 256],
}

impl View for Bloom {
    type V = Seq<u8>;

    open spec fn view(&self) -> Seq<u8> {
        self.bytes@
    }
}

impl Bloom {
    /// The bloom with no bit set.
    pub fn zero() -> (bloom: Bloom)
        ensures
            bloom@ == zero_bytes(256),
    {
        let bloom = Bloom { bytes: [0u8; 256] };
        assert(bloom@ =~= zero_bytes(256));
        bloom
    }

    /// The bloom with the given bytes.
    pub fn from_bytes(bytes: [u8; 256]) -> (bloom: Bloom)
        ensures
            bloom@ == bytes@,
    {
        Bloom { bytes }
    }

    /// The bytes of the bloom.
    pub fn data(&self) -> (bytes: &[u8; 256])
        ensures
            bytes@ == self@,
    {
        &self.bytes
    }

    /// Adds every bit of `other` to this bloom.
    pub fn accrue_bloom(&mut self, other: &Bloom)
        ensures
            final(self)@ == union_bytes(old(self)@, other@),
    {
        self.bytes = accrue_bytes(self.bytes, &other.bytes);
    }

    /// Whether this bloom has every bit of `query`.
    pub fn contains_bloom(&self, query: &Bloom) -> (found: bool)
        ensures
            found == covers(self@, query@),
    {
        contains_bytes(&self.bytes, &query.bytes)
    }
}

impl Default for Bloom {
    fn default() -> (bloom: Bloom)
        ensures
            bloom@ == zero_bytes(256),
    {
        Bloom::zero()
    }
}

/// A bloom covers whatever is accrued into it, and keeps what it covered.
pub proof fn lemma_union_covers(a: Seq<u8>, b: Seq<u8>, q: Seq<u8>)
    requires
        a.len() == b.len(),
        q.len() == a.len(),
    ensures
        covers(union_bytes(a, b), b),
        covers(a, q) ==> covers(union_bytes(a, b), q),
        union_bytes(a, b).len() == a.len(),
{
    assert forall|i: int| 0 <= i < b.len() implies union_bytes(a, b)[i] & #[trigger] b[i]
        == b[i] by {
        let x: u8 = a[i];
        let y: u8 = b[i];
        assert((x | y) & y == y) by (bit_vector);
    }
    if covers(a, q) {
        assert forall|i: int| 0 <= i < q.len() implies union_bytes(a, b)[i] & #[trigger] q[i]
            == q[i] by {
            let x: u8 = a[i];
            let y: u8 = b[i];
            let z: u8 = q[i];
            assert(x & z == z ==> (x | y) & z == z) by (bit_vector);
        }
    }
}

/// Every bloom covers itself.
pub proof fn lemma_covers_itself(a: Seq<u8>)
    ensures
        covers(a, a),
{
    assert forall|i: int| 0 <= i < a.len() implies a[i] & #[trigger] a[i] == a[i] by {
        let x: u8 = a[i];
        assert(x & x == x) by (bit_vector);
    }
}

/// Covering is transitive.
pub proof fn lemma_covers_transitive(a: Seq<u8>, b: Seq<u8>, q: Seq<u8>)
    requires
        a.len() == b.len(),
        q.len() == a.len(),
        covers(a, b),
        covers(b, q),
    ensures
        covers(a, q),
{
    assert forall|i: int| 0 <= i < q.len() implies a[i] & #[trigger] q[i] == q[i] by {
        let x: u8 = a[i];
        let y: u8 = b[i];
        let z: u8 = q[i];
        assert(x & y == y);
        assert(y & z == z);
        assert(x & y == y && y & z == z ==> x & z == z) by (bit_vector);
    }
}

/// Every bloom covers the bloom with no bit set.
pub proof fn lemma_covers_zero(a: Seq<u8>, len: nat)
    ensures
        covers(a, zero_bytes(len)),
{
    assert forall|i: int| 0 <= i < len implies a[i] & #[trigger] zero_bytes(len)[i] == zero_bytes(
        len,
    )[i] by {
        let x: u8 = a[i];
        assert(x & 0u8 == 0u8) by (bit_vector);
    }
}

} // verus!
