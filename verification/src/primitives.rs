//! Chain primitives as plain integers: hashes, addresses, prices, header blooms.
use alloy::primitives::BloomInput;
use vstd::prelude::*;

use crate::order::Key;

verus! {

/// 256 bits, as the big-endian halves of 32 bytes.
#[derive(Clone, Copy, Debug, PartialEq, Eq, PartialOrd, Ord, Hash, Structural)]
pub struct B256 {
    pub hi: u128,
    pub lo: u128,
}

/// A block hash.
pub type BlockHash = B256;

impl B256 {
    /// Zero bytes followed by `byte`.
    pub fn with_last_byte(byte: u8) -> (r: B256)
        ensures
            r == (B256 { hi: 0, lo: byte as u128 }),
    {
        B256 { hi: 0, lo: byte as u128 }
    }
}

impl Key for B256 {
    open spec fn rank(self) -> int {
        self.hi * 0x1_0000_0000_0000_0000_0000_0000_0000_0000int + self.lo
    }

    proof fn rank_identifies(a: Self, b: Self) {
    }

    fn precedes(&self, other: &Self) -> (b: bool) {
        self.hi < other.hi || (self.hi == other.hi && self.lo < other.lo)
    }
}

/// A 20-byte account address, as its first 4 and its last 16 bytes, big-endian.
#[derive(Clone, Copy, Debug, PartialEq, Eq, PartialOrd, Ord, Hash, Structural)]
pub struct Address {
    pub hi: u32,
    pub lo: u128,
}

impl Address {
    /// The zero address.
    pub fn zero() -> (r: Address)
        ensures
            r == (Address { hi: 0, lo: 0 }),
    {
        Address { hi: 0, lo: 0 }
    }

    /// Zero bytes followed by `byte`.
    pub fn with_last_byte(byte: u8) -> (r: Address)
        ensures
            r == (Address { hi: 0, lo: byte as u128 }),
    {
        Address { hi: 0, lo: byte as u128 }
    }
}

impl Key for Address {
    open spec fn rank(self) -> int {
        self.hi * 0x1_0000_0000_0000_0000_0000_0000_0000_0000int + self.lo
    }

    proof fn rank_identifies(a: Self, b: Self) {
    }

    fn precedes(&self, other: &Self) -> (b: bool) {
        self.hi < other.hi || (self.hi == other.hi && self.lo < other.lo)
    }
}

/// A 160-bit unsigned number, as its top 32 and its low 128 bits.
#[derive(Clone, Copy, Debug, PartialEq, Eq, PartialOrd, Ord, Hash, Structural)]
pub struct U160 {
    pub hi: u32,
    pub lo: u128,
}

/// The chains the kernel follows.
#[derive(Clone, Copy, Debug, PartialEq, Eq, PartialOrd, Ord, Hash, Structural)]
pub enum ChainKey {
    Ethereum,
    Arbitrum,
    Polygon,
}

impl Key for ChainKey {
    open spec fn rank(self) -> int {
        match self {
            ChainKey::Ethereum => 0,
            ChainKey::Arbitrum => 1,
            ChainKey::Polygon => 2,
        }
    }

    proof fn rank_identifies(a: Self, b: Self) {
    }

    fn precedes(&self, other: &Self) -> (b: bool) {
        match (*self, *other) {
            (ChainKey::Ethereum, ChainKey::Ethereum) => false,
            (ChainKey::Ethereum, _) => true,
            (ChainKey::Arbitrum, ChainKey::Polygon) => true,
            _ => false,
        }
    }
}

/// The log bloom of a block header.
#[derive(Clone, Copy, Debug, PartialEq, Eq)]
pub struct Bloom {
    pub bytes: [u8; 256],
}

impl View for Bloom {
    type V = Seq<u8>;

    open spec fn view(&self) -> Seq<u8> {
        self.bytes@
    }
}

impl Bloom {
    /// A bloom made of one repeated byte.
    pub fn repeat_byte(byte: u8) -> (r: Bloom)
        ensures
            r@ == Seq::new(256, |i: int| byte),
    {
        let r = Bloom { bytes: [byte; 256] };
        assert(r@ =~= Seq::new(256, |i: int| byte));
        r
    }
}

/// Whether a 256-byte bloom may contain the 20 bytes of the address `(hi, lo)` as a raw input.
pub uninterp spec fn bloom_contains_address(bloom: Seq<u8>, hi: u32, lo: u128) -> bool;

/// Calls `alloy::primitives::Bloom::contains_input` on the raw bytes of an address.
///
/// The answer depends on the bloom's bytes and the address alone. It is `true` exactly when each of
/// three bits picked by the hash of the address is set, so a bloom without set bits never contains
/// an address and a bloom with all bits set contains every one. Which three bits the hash picks is
/// left unsaid.
#[verifier::external_body]
fn alloy_bloom_contains(bloom: &[u8; 256], hi: u32, lo: u128) -> (hit: bool)
    ensures
        hit == bloom_contains_address(bloom@, hi, lo),
        (forall|i: int| 0 <= i < 256 ==> bloom@[i] == 0u8) ==> !hit,
        (forall|i: int| 0 <= i < 256 ==> bloom@[i] == 255u8) ==> hit,
{
    let mut raw = [0u8; 20];
    raw[..4].copy_from_slice(&hi.to_be_bytes());
    raw[4..].copy_from_slice(&lo.to_be_bytes());
    alloy::primitives::Bloom::new(*bloom).contains_input(BloomInput::Raw(&raw))
}

impl Bloom {
    /// Whether the bloom may contain `address`: a `false` proves that no log of the block was
    /// emitted by it.
    pub fn may_contain(&self, address: Address) -> (hit: bool)
        ensures
            hit == bloom_contains_address(self@, address.hi, address.lo),
            self@ == Seq::new(256, |i: int| 0u8) ==> !hit,
            self@ == Seq::new(256, |i: int| 255u8) ==> hit,
    {
        alloy_bloom_contains(&self.bytes, address.hi, address.lo)
    }
}

/// Hashes and addresses are ordered as big-endian byte strings.
pub proof fn law_hashes_and_addresses_in_byte_order(a: B256, b: B256, c: Address, d: Address)
    ensures
        a.rank() < b.rank() <==> a.hi < b.hi || (a.hi == b.hi && a.lo < b.lo),
        c.rank() < d.rank() <==> c.hi < d.hi || (c.hi == d.hi && c.lo < d.lo),
{
}

} // verus!
