//! What is known of tokens.
use vstd::prelude::*;

use crate::ord_map::{OrdMap, OrdSet};
use crate::order::{ascending, lemma_take_next, lemma_walk, lists, Key};
use crate::primitives::{Address, ChainKey};

verus! {

/// A token on a chain. The zero address stands for the chain's native currency.
#[derive(Clone, Copy, Debug, PartialEq, Eq, PartialOrd, Ord, Hash, Structural)]
pub struct TokenAddress(pub Address, pub ChainKey);

impl Key for TokenAddress {
    open spec fn rank(self) -> int {
        self.0.rank() * 4 + self.1.rank()
    }

    proof fn rank_identifies(a: Self, b: Self) {
        Address::rank_identifies(a.0, b.0);
        ChainKey::rank_identifies(a.1, b.1);
    }

    fn precedes(&self, other: &Self) -> (b: bool) {
        let earlier: bool = self.0.precedes(&other.0);
        let later: bool = other.0.precedes(&self.0);
        earlier || (!later && self.1.precedes(&other.1))
    }
}

/// How many decimal places a token's amounts have.
#[derive(Clone, Copy, Debug, PartialEq, Eq, Structural)]
pub struct TokenDecimals(pub u8);

/// The decimal places of every chain's native currency.
pub const NATIVE_DECIMALS: u8 = 18;

/// Verified facts about a token.
#[derive(Clone, Copy, Debug, PartialEq, Eq, Structural)]
pub struct TokenMetadata {
    pub decimals: TokenDecimals,
}

/// The read that a token-metadata request makes.
#[derive(Clone, Copy, Debug, PartialEq, Eq, Structural)]
pub enum TokenMetadataCall {
    Decimals,
}

/// Why a token's metadata could not be read.
#[derive(Clone, Copy, Debug, PartialEq, Eq, Structural)]
pub enum TokenMetadataFailure {
    CallFailed(TokenMetadataCall),
}

pub type TokenMetadataResult = Result<TokenMetadata, TokenMetadataFailure>;

/// The native currency is known without asking.
pub open spec fn is_native(token: TokenAddress) -> bool {
    token.0 == (Address { hi: 0, lo: 0 })
}

pub open spec fn native_metadata() -> TokenMetadata {
    TokenMetadata { decimals: TokenDecimals(NATIVE_DECIMALS) }
}

/// The verified tokens, and those whose metadata could not be read.
#[verifier::ext_equal]
pub struct TokensModel {
    pub verified: Map<TokenAddress, TokenMetadata>,
    pub unsupported: Set<TokenAddress>,
}

impl TokensModel {
    pub open spec fn metadata(self, token: TokenAddress) -> Option<TokenMetadata> {
        if is_native(token) {
            Some(native_metadata())
        } else if self.verified.contains_key(token) {
            Some(self.verified[token])
        } else {
            None
        }
    }

    pub open spec fn known(self, token: TokenAddress) -> bool {
        self.metadata(token) is Some || self.unsupported.contains(token)
    }

    /// The registry after results came in: a success verifies the token, a failure marks it
    /// unsupported unless it is verified.
    pub open spec fn with_results(self, results: Map<TokenAddress, TokenMetadataResult>) -> TokensModel {
        TokensModel {
            verified: Map::new(
                |t: TokenAddress|
                    self.verified.contains_key(t) || (results.contains_key(t) && results[t] is Ok),
                |t: TokenAddress|
                    if results.contains_key(t) && results[t] is Ok {
                        results[t]->Ok_0
                    } else {
                        self.verified[t]
                    },
            ),
            unsupported: Set::new(
                |t: TokenAddress|
                    if results.contains_key(t) {
                        results[t] is Err && (self.unsupported.contains(t)
                            || !self.verified.contains_key(t))
                    } else {
                        self.unsupported.contains(t)
                    },
            ),
        }
    }
}

/// The token registry.
#[derive(Debug, PartialEq, Eq)]
pub struct TokenRegistry {
    verified: OrdMap<TokenAddress, TokenMetadata>,
    unsupported: OrdSet<TokenAddress>,
    native: TokenMetadata,
}

impl View for TokenRegistry {
    type V = TokensModel;

    closed spec fn view(&self) -> TokensModel {
        TokensModel { verified: self.verified@, unsupported: self.unsupported@ }
    }
}

impl TokenRegistry {
    #[verifier::type_invariant]
    spec fn knows_native(self) -> bool {
        self.native == native_metadata()
    }

    /// A registry without entries.
    pub fn new() -> (r: TokenRegistry)
        ensures
            r@ == (TokensModel { verified: Map::empty(), unsupported: Set::empty() }),
    {
        TokenRegistry {
            verified: OrdMap::new(),
            unsupported: OrdSet::new(),
            native: TokenMetadata { decimals: TokenDecimals(NATIVE_DECIMALS) },
        }
    }

    /// Records the results of a metadata request.
    pub fn with_metadata_results(self, results: OrdMap<TokenAddress, TokenMetadataResult>) -> (r:
        TokenRegistry)
        ensures
            r@ == self@.with_results(results@),
    {
        proof {
            use_type_invariant(&self);
        }
        let ghost start = self@;
        let native = self.native;
        let mut verified = self.verified;
        let mut unsupported = self.unsupported;
        let n: usize = results.len();
        let ghost listed = ascending(results@.dom());
        proof {
            lemma_walk(results@.dom());
            let some = start.with_results(Map::empty());
            assert(start.verified =~= some.verified);
            assert(start.unsupported =~= some.unsupported);
        }
        for i in 0..n
            invariant
                n == results@.len(),
                listed == ascending(results@.dom()),
                lists(listed, results@.dom()),
                listed.len() == n,
                listed.no_duplicates(),
                forall|t: TokenAddress| #[trigger]
                    verified@.contains_key(t) <==> start.verified.contains_key(t) || (listed.take(
                        i as int,
                    ).contains(t) && results@[t] is Ok),
                forall|t: TokenAddress|
                    verified@.contains_key(t) ==> #[trigger] verified@[t] == (if listed.take(
                        i as int,
                    ).contains(t) && results@[t] is Ok {
                        results@[t]->Ok_0
                    } else {
                        start.verified[t]
                    }),
                forall|t: TokenAddress| #[trigger]
                    unsupported@.contains(t) <==> (if listed.take(i as int).contains(t) {
                        results@[t] is Err && (start.unsupported.contains(t)
                            || !start.verified.contains_key(t))
                    } else {
                        start.unsupported.contains(t)
                    }),
        {
            let token = results.key_at(i);
            proof {
                lemma_take_next(listed, i as int);
            }
            match results.value_at(i) {
                Ok(metadata) => {
                    unsupported = unsupported.without(&token);
                    verified = verified.with(token, *metadata);
                },
                Err(_) => {
                    if !verified.contains_key(&token) {
                        unsupported = unsupported.with(token);
                    }
                },
            }
        }
        let r = TokenRegistry { verified, unsupported, native };
        proof {
            assert(listed.take(n as int) =~= listed);
            let whole = start.with_results(results@);
            assert forall|t: TokenAddress| listed.contains(t) <==> results@.contains_key(t) by {
                assert(listed.contains(t) <==> results@.dom().contains(t));
            }
            assert(r@.verified =~= whole.verified);
            assert(r@.unsupported =~= whole.unsupported);
        }
        r
    }

    /// The metadata of a token: the native currency's is always known.
    pub fn verified_metadata(&self, token: TokenAddress) -> (r: Option<&TokenMetadata>)
        ensures
            match r {
                Some(metadata) => self@.metadata(token) == Some(*metadata),
                None => self@.metadata(token) is None,
            },
    {
        proof {
            use_type_invariant(self);
        }
        if token.0 == Address::zero() {
            Some(&self.native)
        } else {
            self.verified.get(&token)
        }
    }

    /// Whether nothing more needs to be asked about the token.
    pub fn is_known(&self, token: TokenAddress) -> (r: bool)
        ensures
            r == self@.known(token),
    {
        self.verified_metadata(token).is_some() || self.unsupported.contains(&token)
    }

    /// Whether the token's metadata could not be read.
    pub fn is_unsupported(&self, token: TokenAddress) -> (r: bool)
        ensures
            r == self@.unsupported.contains(token),
    {
        self.unsupported.contains(&token)
    }

    /// How many tokens are verified.
    pub fn verified_size(&self) -> (n: usize)
        ensures
            n == self@.verified.len(),
    {
        self.verified.len()
    }

    /// Finitely many are verified.
    pub proof fn lemma_finite(self)
        ensures
            self@.verified.dom().finite(),
    {
        crate::ord_map::lemma_map_finite(self.verified);
    }

    /// The `i`-th verified token in order, with its metadata.
    pub fn verified_at(&self, i: usize) -> (r: (TokenAddress, TokenMetadata))
        requires
            i < self@.verified.len(),
        ensures
            r.0 == ascending(self@.verified.dom())[i as int],
            self@.verified.contains_key(r.0),
            r.1 == self@.verified[r.0],
    {
        (self.verified.key_at(i), *self.verified.value_at(i))
    }
}

impl Clone for TokenRegistry {
    fn clone(&self) -> (r: TokenRegistry)
        ensures
            r@ == self@,
    {
        proof {
            use_type_invariant(self);
        }
        TokenRegistry {
            verified: self.verified.copied(),
            unsupported: self.unsupported.copied(),
            native: self.native,
        }
    }
}

/// A verified token stays verified, and what results name is known afterwards.
pub proof fn law_known_tokens_stay_known(
    m: TokensModel,
    results: Map<TokenAddress, TokenMetadataResult>,
    token: TokenAddress,
)
    ensures
        m.metadata(token) is Some ==> m.with_results(results).metadata(token) is Some,
        m.known(token) ==> m.with_results(results).known(token),
        results.contains_key(token) ==> m.with_results(results).known(token),
        is_native(token) ==> m.known(token) && m.metadata(token) == Some(native_metadata()),
{
}

/// A result for a token: success verifies it with its metadata and lifts the mark of an unsupported
/// one; failure marks it unless it is verified. Every other token is as it was.
pub proof fn law_results_settle_tokens(
    m: TokensModel,
    results: Map<TokenAddress, TokenMetadataResult>,
    t: TokenAddress,
)
    ensures
        ({
            let w = m.with_results(results);
            &&& results.contains_key(t) && results[t] is Ok ==> w.verified.contains_key(t)
                && w.verified[t] == results[t]->Ok_0 && !w.unsupported.contains(t)
            &&& results.contains_key(t) && results[t] is Err && !m.verified.contains_key(t)
                ==> w.unsupported.contains(t) && !w.verified.contains_key(t)
            &&& results.contains_key(t) && results[t] is Err && m.verified.contains_key(t)
                ==> w.verified.contains_key(t) && w.verified[t] == m.verified[t] && (
            w.unsupported.contains(t) <==> m.unsupported.contains(t))
            &&& !results.contains_key(t) ==> (w.verified.contains_key(t)
                <==> m.verified.contains_key(t)) && (m.verified.contains_key(t) ==> w.verified[t]
                == m.verified[t]) && (w.unsupported.contains(t) <==> m.unsupported.contains(t))
        }),
{
}

/// The native currency, the zero address of every chain, has eighteen decimals; any other token has
/// the metadata it was verified with. Nothing more is asked about a token exactly when it is native,
/// verified or unsupported.
pub proof fn law_token_metadata(m: TokensModel, t: TokenAddress)
    ensures
        t.0.hi == 0 && t.0.lo == 0 ==> m.metadata(t) is Some && m.metadata(t)->0.decimals.0 == 18,
        t.0.hi != 0 || t.0.lo != 0 ==> (m.metadata(t) is Some <==> m.verified.contains_key(t)) && (
        m.verified.contains_key(t) ==> m.metadata(t)->0 == m.verified[t]),
        m.known(t) <==> (t.0.hi == 0 && t.0.lo == 0) || m.verified.contains_key(t)
            || m.unsupported.contains(t),
{
}

} // verus!
