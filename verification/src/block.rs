//! Block hashes and block headers.
//!
//! A header is consumed by the chain through three observables: its own hash
//! (double SHA-256 of its 80-byte serialization), its `prev_blockhash` link
//! and its `bits` field.  The 80-byte wire layout is specified here exactly;
//! the hash primitive itself is supplied by an outside crate.

use vstd::prelude::*;

verus! {

broadcast use vstd::array::group_array_axioms;

/// A 32-byte block hash, in wire order (little-endian display order is a
/// concern of callers; the chain never interprets the bytes).
#[derive(Clone, Copy, Debug)]
pub struct BlockHash {
    pub bytes: [u8; 32],
}

impl View for BlockHash {
    type V = Seq<u8>;

    open spec fn view(&self) -> Seq<u8> {
        self.bytes@
    }
}

/// The all-zero hash: marks "no successor" in a `BlockIndex` and the null
/// `prev_blockhash` of a genesis header.
pub open spec fn zero_hash() -> Seq<u8> {
    Seq::new(32, |i: int| 0u8)
}

impl BlockHash {
    /// The all-zero hash value.
    pub fn zero() -> (r: BlockHash)
        ensures
            r@ == zero_hash(),
    {
        let r = BlockHash { bytes: [0u8; 32] };
        proof {
            assert(r@ =~= zero_hash());
        }
        r
    }

    /// Byte-wise equality of two hashes.
    pub fn same(&self, other: &BlockHash) -> (r: bool)
        ensures
            r == (self@ == other@),
    {
        let mut i: usize = 0;
        while i < 32
            invariant
                0 <= i <= 32,
                forall|j: int| 0 <= j < i ==> self.bytes@[j] == other.bytes@[j],
            decreases 32 - i,
        {
            if self.bytes[i] != other.bytes[i] {
                return false;
            }
            i += 1;
        }
        proof {
            assert(self@ =~= other@);
        }
        true
    }

    /// Whether this is the all-zero hash.
    pub fn is_zero(&self) -> (r: bool)
        ensures
            r == (self@ == zero_hash()),
    {
        let mut i: usize = 0;
        while i < 32
            invariant
                0 <= i <= 32,
                forall|j: int| 0 <= j < i ==> self.bytes@[j] == 0u8,
            decreases 32 - i,
        {
            if self.bytes[i] != 0 {
                return false;
            }
            i += 1;
        }
        proof {
            assert(self@ =~= zero_hash());
        }
        true
    }
}

/// An 80-byte block header, as the fields of its wire serialization.
#[derive(Clone, Copy, Debug)]
pub struct BlockHeader {
    /// Protocol version, as the value of its 4 little-endian wire bytes.
    pub version: u32,
    /// Hash of the predecessor header.
    pub prev_blockhash: BlockHash,
    /// Root of the transaction merkle tree.
    pub merkle_root: BlockHash,
    /// Claimed block time, seconds since the Unix epoch.
    pub time: u32,
    /// Compact encoding of the proof-of-work target.
    pub bits: u32,
    /// Proof-of-work counter.
    pub nonce: u32,
}

/// The 4 little-endian bytes of a 32-bit value.
pub open spec fn le32(x: u32) -> Seq<u8> {
    seq![
        (x & 0xff) as u8,
        ((x >> 8) & 0xff) as u8,
        ((x >> 16) & 0xff) as u8,
        ((x >> 24) & 0xff) as u8,
    ]
}

/// The 80-byte wire serialization of a header.
pub open spec fn header_bytes(h: BlockHeader) -> Seq<u8> {
    le32(h.version) + h.prev_blockhash@ + h.merkle_root@ + le32(h.time) + le32(h.bits) + le32(
        h.nonce,
    )
}

/// Double SHA-256 of a byte string, as computed by the hash primitive.
pub uninterp spec fn sha256d_of(data: Seq<u8>) -> Seq<u8>;

/// The hash of a header: double SHA-256 of its serialization.
pub open spec fn hash_of(h: BlockHeader) -> Seq<u8> {
    sha256d_of(header_bytes(h))
}

/// Relies on `bitcoin_hashes::sha256d::Hash::hash`: the 32-byte double
/// SHA-256 digest of the input, a function of the input bytes alone.
#[verifier::external_body]
fn sha256d(data: &[u8]) -> (r: [u8; 32])
    ensures
        r@ == sha256d_of(data@),
{
    bitcoin_hashes::sha256d::Hash::hash(data).to_byte_array()
}

pub(crate) fn push_le32(v: &mut Vec<u8>, x: u32)
    ensures
        final(v)@ == old(v)@ + le32(x),
{
    v.push((x & 0xff) as u8);
    v.push(((x >> 8) & 0xff) as u8);
    v.push(((x >> 16) & 0xff) as u8);
    v.push(((x >> 24) & 0xff) as u8);
    proof {
        assert(v@ =~= old(v)@ + le32(x));
    }
}

pub(crate) fn push_hash(v: &mut Vec<u8>, h: &BlockHash)
    ensures
        final(v)@ == old(v)@ + h@,
{
    let mut i: usize = 0;
    while i < 32
        invariant
            0 <= i <= 32,
            v@ == old(v)@ + h@.take(i as int),
        decreases 32 - i,
    {
        v.push(h.bytes[i]);
        proof {
            assert(v@ =~= old(v)@ + h@.take(i + 1));
        }
        i += 1;
    }
    proof {
        assert(h@.take(32) =~= h@);
    }
}

pub(crate) fn push_header(v: &mut Vec<u8>, h: &BlockHeader)
    ensures
        final(v)@ == old(v)@ + header_bytes(*h),
{
    push_le32(v, h.version);
    push_hash(v, &h.prev_blockhash);
    push_hash(v, &h.merkle_root);
    push_le32(v, h.time);
    push_le32(v, h.bits);
    push_le32(v, h.nonce);
    proof {
        assert(v@ =~= old(v)@ + header_bytes(*h));
    }
}

/// Serializes a header into its 80 wire bytes.
pub fn serialize_header(h: &BlockHeader) -> (r: Vec<u8>)
    ensures
        r@ == header_bytes(*h),
        r@.len() == 80,
{
    let mut v: Vec<u8> = Vec::new();
    push_le32(&mut v, h.version);
    push_hash(&mut v, &h.prev_blockhash);
    push_hash(&mut v, &h.merkle_root);
    push_le32(&mut v, h.time);
    push_le32(&mut v, h.bits);
    push_le32(&mut v, h.nonce);
    proof {
        assert(v@ =~= header_bytes(*h));
    }
    v
}

proof fn lemma_le32_pack(b0: u8, b1: u8, b2: u8, b3: u8)
    ensures
        ({
            let x = (b0 as u32) | ((b1 as u32) << 8) | ((b2 as u32) << 16) | ((b3 as u32) << 24);
            &&& (x & 0xff) as u8 == b0
            &&& ((x >> 8) & 0xff) as u8 == b1
            &&& ((x >> 16) & 0xff) as u8 == b2
            &&& ((x >> 24) & 0xff) as u8 == b3
        }),
{
    let x = (b0 as u32) | ((b1 as u32) << 8) | ((b2 as u32) << 16) | ((b3 as u32) << 24);
    assert((x & 0xff) as u8 == b0 && ((x >> 8) & 0xff) as u8 == b1 && ((x >> 16) & 0xff) as u8
        == b2 && ((x >> 24) & 0xff) as u8 == b3) by (bit_vector)
        requires
            x == (b0 as u32) | ((b1 as u32) << 8) | ((b2 as u32) << 16) | ((b3 as u32) << 24),
    ;
}

pub(crate) fn read_le32(bytes: &[u8], off: usize) -> (x: u32)
    requires
        off + 4 <= bytes@.len(),
    ensures
        le32(x) == bytes@.subrange(off as int, off + 4),
{
    let b0 = bytes[off];
    let b1 = bytes[off + 1];
    let b2 = bytes[off + 2];
    let b3 = bytes[off + 3];
    let x = (b0 as u32) | ((b1 as u32) << 8) | ((b2 as u32) << 16) | ((b3 as u32) << 24);
    proof {
        lemma_le32_pack(b0, b1, b2, b3);
        assert(le32(x) =~= bytes@.subrange(off as int, off + 4));
    }
    x
}

pub(crate) fn read_hash(bytes: &[u8], off: usize) -> (r: BlockHash)
    requires
        off + 32 <= bytes@.len(),
    ensures
        r@ == bytes@.subrange(off as int, off + 32),
{
    let n = bytes.len();
    let mut b: [u8; 32] = [0u8; 32];
    let mut i: usize = 0;
    while i < 32
        invariant
            0 <= i <= 32,
            off + 32 <= n,
            n == bytes@.len(),
            forall|j: int| 0 <= j < i ==> b@[j] == bytes@[off + j],
        decreases 32 - i,
    {
        b[i] = bytes[off + i];
        i += 1;
    }
    let r = BlockHash { bytes: b };
    proof {
        assert(r@ =~= bytes@.subrange(off as int, off + 32));
    }
    r
}

/// Reads an 80-byte header at an offset inside a larger buffer.
pub(crate) fn read_header(bytes: &[u8], off: usize) -> (r: BlockHeader)
    requires
        off + 80 <= bytes@.len(),
    ensures
        header_bytes(r) == bytes@.subrange(off as int, off + 80),
{
    let n = bytes.len();
    proof {
        assert(off + 80 <= n);
    }
    let h = BlockHeader {
        version: read_le32(bytes, off),
        prev_blockhash: read_hash(bytes, off + 4),
        merkle_root: read_hash(bytes, off + 36),
        time: read_le32(bytes, off + 68),
        bits: read_le32(bytes, off + 72),
        nonce: read_le32(bytes, off + 76),
    };
    proof {
        assert(header_bytes(h) =~= bytes@.subrange(off as int, off + 80));
    }
    h
}

/// Parses 80 wire bytes into a header; any other length is rejected.
pub fn decode_header(bytes: &[u8]) -> (r: Option<BlockHeader>)
    ensures
        match r {
            Some(h) => bytes@.len() == 80 && header_bytes(h) == bytes@,
            None => bytes@.len() != 80,
        },
{
    if bytes.len() != 80 {
        return None;
    }
    let h = read_header(bytes, 0);
    proof {
        assert(header_bytes(h) =~= bytes@);
    }
    Some(h)
}

/// Computes the hash of a header.
pub fn block_hash(h: &BlockHeader) -> (r: BlockHash)
    ensures
        r@ == hash_of(*h),
{
    let bytes = serialize_header(h);
    BlockHash { bytes: sha256d(bytes.as_slice()) }
}

/// Where each field sits inside the 80 serialized bytes.
proof fn lemma_header_bytes_index(h: BlockHeader)
    ensures
        header_bytes(h).len() == 80,
        forall|j: int| 0 <= j < 4 ==> header_bytes(h)[j] == le32(h.version)[j],
        forall|j: int| 0 <= j < 32 ==> header_bytes(h)[4 + j] == h.prev_blockhash@[j],
        forall|j: int| 0 <= j < 32 ==> header_bytes(h)[36 + j] == h.merkle_root@[j],
        forall|j: int| 0 <= j < 4 ==> header_bytes(h)[68 + j] == le32(h.time)[j],
        forall|j: int| 0 <= j < 4 ==> header_bytes(h)[72 + j] == le32(h.bits)[j],
        forall|j: int| 0 <= j < 4 ==> header_bytes(h)[76 + j] == le32(h.nonce)[j],
{
    let s = header_bytes(h);
    assert forall|j: int| 0 <= j < 32 implies s[4 + j] == h.prev_blockhash@[j] by {
        assert(s[4 + j] == h.prev_blockhash@[j]);
    }
    assert forall|j: int| 0 <= j < 32 implies s[36 + j] == h.merkle_root@[j] by {
        assert(s[36 + j] == h.merkle_root@[j]);
    }
}

pub(crate) proof fn lemma_le32_injective(x: u32, y: u32)
    requires
        forall|j: int| 0 <= j < 4 ==> le32(x)[j] == le32(y)[j],
    ensures
        x == y,
{
    assert(le32(x)[0] == le32(y)[0]);
    assert(le32(x)[1] == le32(y)[1]);
    assert(le32(x)[2] == le32(y)[2]);
    assert(le32(x)[3] == le32(y)[3]);
    assert((x & 0xff) as u8 == (y & 0xff) as u8 && ((x >> 8) & 0xff) as u8 == ((y >> 8)
        & 0xff) as u8 && ((x >> 16) & 0xff) as u8 == ((y >> 16) & 0xff) as u8 && ((x >> 24)
        & 0xff) as u8 == ((y >> 24) & 0xff) as u8 ==> x == y) by (bit_vector);
}

/// Serialization is injective: headers with equal wire bytes are equal.
pub proof fn lemma_header_bytes_injective(h1: BlockHeader, h2: BlockHeader)
    requires
        header_bytes(h1) == header_bytes(h2),
    ensures
        h1 == h2,
{
    lemma_header_bytes_index(h1);
    lemma_header_bytes_index(h2);
    let s1 = header_bytes(h1);
    let s2 = header_bytes(h2);
    assert forall|j: int| 0 <= j < 4 implies le32(h1.version)[j] == le32(h2.version)[j] by {
        assert(s1[0 + j] == s2[0 + j]);
    }
    lemma_le32_injective(h1.version, h2.version);
    assert forall|j: int| 0 <= j < 4 implies le32(h1.time)[j] == le32(h2.time)[j] by {
        assert(s1[68 + j] == s2[68 + j]);
    }
    lemma_le32_injective(h1.time, h2.time);
    assert forall|j: int| 0 <= j < 4 implies le32(h1.bits)[j] == le32(h2.bits)[j] by {
        assert(s1[72 + j] == s2[72 + j]);
    }
    lemma_le32_injective(h1.bits, h2.bits);
    assert forall|j: int| 0 <= j < 4 implies le32(h1.nonce)[j] == le32(h2.nonce)[j] by {
        assert(s1[76 + j] == s2[76 + j]);
    }
    lemma_le32_injective(h1.nonce, h2.nonce);
    assert forall|j: int| 0 <= j < 32 implies h1.prev_blockhash@[j] == h2.prev_blockhash@[j] by {
        assert(s1[4 + j] == s2[4 + j]);
    }
    assert(h1.prev_blockhash.bytes =~= h2.prev_blockhash.bytes);
    assert forall|j: int| 0 <= j < 32 implies h1.merkle_root@[j] == h2.merkle_root@[j] by {
        assert(s1[36 + j] == s2[36 + j]);
    }
    assert(h1.merkle_root.bytes =~= h2.merkle_root.bytes);
}

} // verus!
