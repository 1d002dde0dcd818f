//! Which pools are trusted, and what is known of them.
use vstd::prelude::*;

use crate::ord_map::{OrdMap, OrdSet};
use crate::order::{ascending, lemma_take_next, lemma_walk, lists};
use crate::pool_state::{PoolRef, ProtocolPoolKey};
use crate::primitives::{Address, ChainKey};

verus! {

/// The immutable facts about a pool.
#[derive(Clone, Copy, Debug, PartialEq, Eq, Structural)]
pub struct PoolMetadata {
    pub token0: Address,
    pub token1: Address,
    pub fee: PoolFee,
}

/// A pool's fee and tick spacing: one of the v3 tiers, whose spacing follows from the tier, or a v4
/// pair of its own.
#[derive(Clone, Copy, Debug, PartialEq, Eq, Structural)]
pub enum PoolFee {
    Tiered(UniswapV3Fee),
    Static { pips: u32, tick_spacing: u16 },
}

impl PoolFee {
    pub open spec fn spec_pips(self) -> u32 {
        match self {
            PoolFee::Tiered(tier) => tier.spec_pips(),
            PoolFee::Static { pips, .. } => pips,
        }
    }

    pub open spec fn spec_tick_spacing(self) -> int {
        match self {
            PoolFee::Tiered(tier) => tier.spec_tick_spacing(),
            PoolFee::Static { tick_spacing, .. } => tick_spacing as int,
        }
    }

    /// The fee in hundredths of a basis point.
    pub fn pips(self) -> (r: u32)
        ensures
            r == self.spec_pips(),
    {
        match self {
            PoolFee::Tiered(tier) => tier.pips(),
            PoolFee::Static { pips, .. } => pips,
        }
    }

    pub fn tick_spacing(self) -> (r: u16)
        ensures
            r == self.spec_tick_spacing(),
    {
        match self {
            PoolFee::Tiered(tier) => tier.tick_spacing() as u16,
            PoolFee::Static { tick_spacing, .. } => tick_spacing,
        }
    }
}

/// The v3 fee tiers.
#[derive(Clone, Copy, Debug, PartialEq, Eq, Structural)]
pub enum UniswapV3Fee {
    Fee100,
    Fee500,
    Fee3000,
    Fee10000,
}

impl UniswapV3Fee {
    pub open spec fn spec_pips(self) -> u32 {
        match self {
            UniswapV3Fee::Fee100 => 100,
            UniswapV3Fee::Fee500 => 500,
            UniswapV3Fee::Fee3000 => 3000,
            UniswapV3Fee::Fee10000 => 10000,
        }
    }

    pub open spec fn spec_tick_spacing(self) -> int {
        match self {
            UniswapV3Fee::Fee100 => 1,
            UniswapV3Fee::Fee500 => 10,
            UniswapV3Fee::Fee3000 => 60,
            UniswapV3Fee::Fee10000 => 200,
        }
    }

    /// The tier with this fee, if there is one.
    pub fn try_from_pips(fee: u32) -> (r: Option<UniswapV3Fee>)
        ensures
            match r {
                Some(tier) => tier.spec_pips() == fee,
                None => forall|tier: UniswapV3Fee| (#[trigger] tier.spec_pips()) != fee,
            },
    {
        match fee {
            100 => Some(UniswapV3Fee::Fee100),
            500 => Some(UniswapV3Fee::Fee500),
            3000 => Some(UniswapV3Fee::Fee3000),
            10000 => Some(UniswapV3Fee::Fee10000),
            _ => None,
        }
    }

    pub fn pips(self) -> (r: u32)
        ensures
            r == self.spec_pips(),
    {
        match self {
            UniswapV3Fee::Fee100 => 100,
            UniswapV3Fee::Fee500 => 500,
            UniswapV3Fee::Fee3000 => 3000,
            UniswapV3Fee::Fee10000 => 10000,
        }
    }

    pub fn tick_spacing(self) -> (r: i32)
        ensures
            r == self.spec_tick_spacing(),
    {
        match self {
            UniswapV3Fee::Fee100 => 1,
            UniswapV3Fee::Fee500 => 10,
            UniswapV3Fee::Fee3000 => 60,
            UniswapV3Fee::Fee10000 => 200,
        }
    }
}

/// A tier is identified by its fee.
pub proof fn law_tier_of_fee(a: UniswapV3Fee, b: UniswapV3Fee)
    ensures
        a.spec_pips() == b.spec_pips() ==> a == b,
{
}

/// The reads that validate a v3 pool.
#[derive(Clone, Copy, Debug, PartialEq, Eq, Structural)]
pub enum PoolMetadataCall {
    Token0,
    Token1,
    Fee,
    FactoryGetPool,
}

/// Why a candidate is not a trusted pool.
#[derive(Clone, Copy, Debug, PartialEq, Eq, Structural)]
pub enum PoolMetadataFailure {
    CallFailed(PoolMetadataCall),
    DecodeFailed(PoolMetadataCall),
    MissingResponse(PoolMetadataCall),
    UnsupportedFee(u32),
    FactoryReturnedZero,
    FactoryMismatch { returned: Address },
    DynamicFee,
    HookedPool { hooks: Address },
    PoolIdMismatch,
    InvalidTickSpacing { tick_spacing: i32 },
    TokenNotWhitelisted { token: Address },
}

pub type PoolMetadataResult = Result<PoolMetadata, PoolMetadataFailure>;

/// The verified pools, and the candidates that failed validation.
#[verifier::ext_equal]
pub struct PoolsModel {
    pub verified: Map<PoolRef, PoolMetadata>,
    pub rejected: Set<ProtocolPoolKey>,
}

impl PoolsModel {
    pub open spec fn is_verified(self, chain: ChainKey, candidate: ProtocolPoolKey) -> bool {
        self.verified.contains_key(PoolRef { key: candidate, chain })
    }

    pub open spec fn known(self, chain: ChainKey, candidate: ProtocolPoolKey) -> bool {
        self.is_verified(chain, candidate) || self.rejected.contains(candidate)
    }

    /// The verified pools of a chain.
    pub open spec fn pools_on(self, chain: ChainKey) -> Set<PoolRef> {
        Set::new(|p: PoolRef| self.verified.contains_key(p) && p.chain == chain)
    }

    /// The contracts of the verified v3 pools of a chain.
    pub open spec fn addresses_on(self, chain: ChainKey) -> Set<Address> {
        Set::new(
            |a: Address|
                self.verified.contains_key(
                    PoolRef { key: ProtocolPoolKey::UniswapV3(a), chain },
                ),
        )
    }

    /// The registry after results for one chain came in: a success verifies the candidate and lifts
    /// its rejection, a failure rejects it unless it is verified.
    pub open spec fn with_results(
        self,
        chain: ChainKey,
        results: Map<ProtocolPoolKey, PoolMetadataResult>,
    ) -> PoolsModel {
        PoolsModel {
            verified: Map::new(
                |p: PoolRef|
                    self.verified.contains_key(p) || (p.chain == chain && results.contains_key(
                        p.key,
                    ) && results[p.key] is Ok),
                |p: PoolRef|
                    if p.chain == chain && results.contains_key(p.key) && results[p.key] is Ok {
                        results[p.key]->Ok_0
                    } else {
                        self.verified[p]
                    },
            ),
            rejected: Set::new(
                |k: ProtocolPoolKey|
                    if results.contains_key(k) {
                        results[k] is Err && (self.rejected.contains(k) || !self.is_verified(
                            chain,
                            k,
                        ))
                    } else {
                        self.rejected.contains(k)
                    },
            ),
        }
    }
}

/// The pool registry.
#[derive(Debug, PartialEq, Eq)]
pub struct TrustedPoolRegistry {
    verified: OrdMap<PoolRef, PoolMetadata>,
    rejected: OrdSet<ProtocolPoolKey>,
}

impl View for TrustedPoolRegistry {
    type V = PoolsModel;

    closed spec fn view(&self) -> PoolsModel {
        PoolsModel { verified: self.verified@, rejected: self.rejected@ }
    }
}

impl TrustedPoolRegistry {
    /// A registry without entries.
    pub fn new() -> (r: TrustedPoolRegistry)
        ensures
            r@ == (PoolsModel { verified: Map::empty(), rejected: Set::empty() }),
    {
        TrustedPoolRegistry { verified: OrdMap::new(), rejected: OrdSet::new() }
    }

    /// Records validation results for candidates of one chain.
    pub fn with_metadata_results(
        self,
        chain: ChainKey,
        results: OrdMap<ProtocolPoolKey, PoolMetadataResult>,
    ) -> (r: TrustedPoolRegistry)
        ensures
            r@ == self@.with_results(chain, results@),
    {
        let ghost start = self@;
        let mut verified = self.verified;
        let mut rejected = self.rejected;
        let n: usize = results.len();
        let ghost listed = ascending(results@.dom());
        proof {
            lemma_walk(results@.dom());
        }
        for i in 0..n
            invariant
                n == results@.len(),
                listed == ascending(results@.dom()),
                lists(listed, results@.dom()),
                listed.len() == n,
                listed.no_duplicates(),
                forall|p: PoolRef| #[trigger]
                    verified@.contains_key(p) <==> start.verified.contains_key(p) || (p.chain
                        == chain && listed.take(i as int).contains(p.key) && results@[p.key] is Ok),
                forall|p: PoolRef|
                    verified@.contains_key(p) ==> #[trigger] verified@[p] == (if p.chain == chain
                        && listed.take(i as int).contains(p.key) && results@[p.key] is Ok {
                        results@[p.key]->Ok_0
                    } else {
                        start.verified[p]
                    }),
                forall|k: ProtocolPoolKey| #[trigger]
                    rejected@.contains(k) <==> (if listed.take(i as int).contains(k) {
                        results@[k] is Err && (start.rejected.contains(k) || !start.is_verified(
                            chain,
                            k,
                        ))
                    } else {
                        start.rejected.contains(k)
                    }),
        {
            let candidate = results.key_at(i);
            let pool = PoolRef { key: candidate, chain };
            proof {
                lemma_take_next(listed, i as int);
            }
            match results.value_at(i) {
                Ok(metadata) => {
                    rejected = rejected.without(&candidate);
                    verified = verified.with(pool, *metadata);
                },
                Err(_) => {
                    if !verified.contains_key(&pool) {
                        rejected = rejected.with(candidate);
                    }
                },
            }
        }
        let r = TrustedPoolRegistry { verified, rejected };
        proof {
            assert(listed.take(n as int) =~= listed);
            let whole = start.with_results(chain, results@);
            assert forall|k: ProtocolPoolKey| listed.contains(k) <==> results@.contains_key(k) by {
                assert(listed.contains(k) <==> results@.dom().contains(k));
            }
            assert(r@.verified =~= whole.verified);
            assert(r@.rejected =~= whole.rejected);
        }
        r
    }

    pub fn verified_metadata(&self, pool: PoolRef) -> (r: Option<&PoolMetadata>)
        ensures
            match r {
                Some(metadata) => self@.verified.contains_key(pool) && self@.verified[pool]
                    == *metadata,
                None => !self@.verified.contains_key(pool),
            },
    {
        self.verified.get(&pool)
    }

    /// How many pools are verified.
    pub fn verified_size(&self) -> (n: usize)
        ensures
            n == self@.verified.len(),
    {
        self.verified.len()
    }

    /// Finitely many are verified.
    pub proof fn lemma_finite(self)
        ensures
            self@.verified.dom().finite(),
    {
        crate::ord_map::lemma_map_finite(self.verified);
    }

    /// The `i`-th verified pool in order, with its metadata.
    pub fn verified_at(&self, i: usize) -> (r: (PoolRef, PoolMetadata))
        requires
            i < self@.verified.len(),
        ensures
            r.0 == ascending(self@.verified.dom())[i as int],
            self@.verified.contains_key(r.0),
            r.1 == self@.verified[r.0],
    {
        (self.verified.key_at(i), *self.verified.value_at(i))
    }

    /// The verified pools of a chain.
    pub fn verified_pools(&self, chain: ChainKey) -> (r: OrdSet<PoolRef>)
        ensures
            r@ == self@.pools_on(chain),
    {
        let mut r: OrdSet<PoolRef> = OrdSet::new();
        let n: usize = self.verified.len();
        let ghost listed = ascending(self.verified@.dom());
        proof {
            lemma_walk(self.verified@.dom());
        }
        for i in 0..n
            invariant
                n == self.verified@.len(),
                listed == ascending(self.verified@.dom()),
                lists(listed, self.verified@.dom()),
                listed.len() == n,
                forall|p: PoolRef| #[trigger]
                    r@.contains(p) <==> listed.take(i as int).contains(p) && p.chain == chain,
        {
            let pool = self.verified.key_at(i);
            proof {
                lemma_take_next(listed, i as int);
            }
            if pool.chain == chain {
                r = r.with(pool);
            }
        }
        proof {
            assert(listed.take(n as int) =~= listed);
            assert forall|p: PoolRef| r@.contains(p) <==> self@.pools_on(chain).contains(p) by {
                assert(listed.contains(p) <==> self.verified@.dom().contains(p));
            }
            assert(r@ =~= self@.pools_on(chain));
        }
        r
    }

    /// The contracts of the verified v3 pools of a chain.
    pub fn verified_addresses(&self, chain: ChainKey) -> (r: OrdSet<Address>)
        ensures
            r@ == self@.addresses_on(chain),
    {
        let mut r: OrdSet<Address> = OrdSet::new();
        let n: usize = self.verified.len();
        let ghost listed = ascending(self.verified@.dom());
        proof {
            lemma_walk(self.verified@.dom());
        }
        for i in 0..n
            invariant
                n == self.verified@.len(),
                listed == ascending(self.verified@.dom()),
                lists(listed, self.verified@.dom()),
                listed.len() == n,
                forall|a: Address| #[trigger]
                    r@.contains(a) <==> listed.take(i as int).contains(
                        PoolRef { key: ProtocolPoolKey::UniswapV3(a), chain },
                    ),
        {
            let pool = self.verified.key_at(i);
            proof {
                lemma_take_next(listed, i as int);
            }
            if pool.chain == chain {
                if let Some(address) = pool.key.uniswap_v3_address() {
                    r = r.with(address);
                }
            }
        }
        proof {
            assert(listed.take(n as int) =~= listed);
            assert forall|a: Address| r@.contains(a) <==> self@.addresses_on(chain).contains(a) by {
                let p = PoolRef { key: ProtocolPoolKey::UniswapV3(a), chain };
                assert(listed.contains(p) <==> self.verified@.dom().contains(p));
            }
            assert(r@ =~= self@.addresses_on(chain));
        }
        r
    }

    /// The candidate as a pool of `chain`, when it is verified there.
    pub fn verified_pool(&self, chain: ChainKey, candidate: ProtocolPoolKey) -> (r: Option<PoolRef>)
        ensures
            r == (if self@.is_verified(chain, candidate) {
                Some(PoolRef { key: candidate, chain })
            } else {
                None
            }),
    {
        let pool = PoolRef { key: candidate, chain };
        if self.verified.contains_key(&pool) {
            Some(pool)
        } else {
            None
        }
    }

    pub fn is_rejected(&self, candidate: ProtocolPoolKey) -> (r: bool)
        ensures
            r == self@.rejected.contains(candidate),
    {
        self.rejected.contains(&candidate)
    }

    /// Whether nothing more needs to be asked about the candidate.
    pub fn is_known(&self, chain: ChainKey, candidate: ProtocolPoolKey) -> (r: bool)
        ensures
            r == self@.known(chain, candidate),
    {
        self.verified_pool(chain, candidate).is_some() || self.is_rejected(candidate)
    }
}

impl Clone for TrustedPoolRegistry {
    fn clone(&self) -> (r: TrustedPoolRegistry)
        ensures
            r@ == self@,
    {
        TrustedPoolRegistry { verified: self.verified.copied(), rejected: self.rejected.copied() }
    }
}

impl Default for TrustedPoolRegistry {
    fn default() -> (r: TrustedPoolRegistry)
        ensures
            r@ == (PoolsModel { verified: Map::empty(), rejected: Set::empty() }),
    {
        TrustedPoolRegistry::new()
    }
}

/// No candidate is both verified on the chain and rejected.
pub open spec fn disjoint_on(m: PoolsModel, chain: ChainKey) -> bool {
    forall|k: ProtocolPoolKey| #[trigger] m.is_verified(chain, k) ==> !m.rejected.contains(k)
}

/// Results of one chain keep verified and rejected apart on that chain.
pub proof fn law_verified_and_rejected_apart(
    m: PoolsModel,
    chain: ChainKey,
    results: Map<ProtocolPoolKey, PoolMetadataResult>,
)
    requires
        disjoint_on(m, chain),
    ensures
        disjoint_on(m.with_results(chain, results), chain),
{
    let w = m.with_results(chain, results);
    assert forall|k: ProtocolPoolKey| #[trigger] w.is_verified(chain, k) implies !w.rejected.contains(
        k,
    ) by {
        assert(m.is_verified(chain, k) ==> !m.rejected.contains(k));
    }
}

/// Verification is final: no result takes a verified pool away, on any chain, and what results name
/// is known afterwards.
pub proof fn law_known_stays_known(
    m: PoolsModel,
    chain: ChainKey,
    results: Map<ProtocolPoolKey, PoolMetadataResult>,
    pool: PoolRef,
    candidate: ProtocolPoolKey,
)
    ensures
        m.verified.contains_key(pool) ==> m.with_results(chain, results).verified.contains_key(
            pool,
        ),
        m.known(chain, candidate) ==> m.with_results(chain, results).known(chain, candidate),
        results.contains_key(candidate) ==> m.with_results(chain, results).known(chain, candidate),
{
    assert(m.is_verified(chain, candidate) ==> m.with_results(chain, results).is_verified(
        chain,
        candidate,
    ));
}

/// A result for a candidate of the chain: success verifies it there with its metadata and lifts its
/// rejection; failure rejects it unless it is verified there. Every other pool, on this chain and
/// on the others, and every other candidate is as it was.
pub proof fn law_results_settle_candidates(
    m: PoolsModel,
    chain: ChainKey,
    results: Map<ProtocolPoolKey, PoolMetadataResult>,
    k: ProtocolPoolKey,
    pool: PoolRef,
)
    ensures
        ({
            let w = m.with_results(chain, results);
            let here = PoolRef { key: k, chain };
            &&& results.contains_key(k) && results[k] is Ok ==> w.verified.contains_key(here)
                && w.verified[here] == results[k]->Ok_0 && !w.rejected.contains(k)
            &&& results.contains_key(k) && results[k] is Err && !m.verified.contains_key(here)
                ==> w.rejected.contains(k) && !w.verified.contains_key(here)
            &&& results.contains_key(k) && results[k] is Err && m.verified.contains_key(here)
                ==> w.verified.contains_key(here) && w.verified[here] == m.verified[here] && (
            w.rejected.contains(k) <==> m.rejected.contains(k))
            &&& !results.contains_key(k) ==> (w.rejected.contains(k) <==> m.rejected.contains(k))
            &&& pool.chain != chain || !results.contains_key(pool.key) ==> (
            w.verified.contains_key(pool) <==> m.verified.contains_key(pool)) && (
            m.verified.contains_key(pool) ==> w.verified[pool] == m.verified[pool])
        }),
{
}

/// Nothing more is asked about a candidate, of either protocol, exactly when it is verified on the
/// chain or rejected. The pools of a chain are its verified ones, of either protocol, and their
/// contracts those of the v3 pools among them.
pub proof fn law_registry_tells_what_is_known(
    m: PoolsModel,
    chain: ChainKey,
    k: ProtocolPoolKey,
    a: Address,
    pool: PoolRef,
)
    ensures
        m.known(chain, k) <==> m.verified.contains_key(PoolRef { key: k, chain })
            || m.rejected.contains(k),
        m.is_verified(chain, k) <==> m.verified.contains_key(PoolRef { key: k, chain }),
        m.pools_on(chain).contains(pool) <==> m.verified.contains_key(pool) && pool.chain == chain,
        m.addresses_on(chain).contains(a) <==> m.pools_on(chain).contains(
            PoolRef { key: ProtocolPoolKey::UniswapV3(a), chain },
        ),
{
}

/// Each tier's fee in pips is the number in its name, and the wider the fee the wider the spacing:
/// one tick up to a fee of 100, and a fiftieth of the fee above it.
pub proof fn law_fee_table(tier: UniswapV3Fee, pips: u32, tick_spacing: u16)
    ensures
        tier == UniswapV3Fee::Fee100 ==> tier.spec_pips() == 100,
        tier == UniswapV3Fee::Fee500 ==> tier.spec_pips() == 500,
        tier == UniswapV3Fee::Fee3000 ==> tier.spec_pips() == 3000,
        tier == UniswapV3Fee::Fee10000 ==> tier.spec_pips() == 10000,
        tier.spec_pips() == 100 ==> tier.spec_tick_spacing() == 1,
        tier.spec_pips() != 100 ==> tier.spec_tick_spacing() * 50 == tier.spec_pips(),
        PoolFee::Tiered(tier).spec_pips() == tier.spec_pips(),
        PoolFee::Tiered(tier).spec_tick_spacing() == tier.spec_tick_spacing(),
        (PoolFee::Static { pips, tick_spacing }).spec_pips() == pips,
        (PoolFee::Static { pips, tick_spacing }).spec_tick_spacing() == tick_spacing,
{
}

} // verus!
