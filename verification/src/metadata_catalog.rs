//! A snapshot of the verified pool and token metadata that is cheap to clone: it holds persistent
//! maps, whose clones share their contents.
use vstd::prelude::*;

use crate::order::{ascending, lemma_take_next, lemma_walk, lists};
use crate::pool_registry::{PoolMetadata, TrustedPoolRegistry};
use crate::pool_state::{PoolId, PoolRef, ProtocolPoolKey};
use crate::primitives::{Address, ChainKey, B256};
use crate::token_registry::{TokenAddress, TokenMetadata, TokenRegistry};

verus! {

/// A pool as a map key: protocol, identifier, chain.
pub type PoolRow = (u8, u128, u128, u8);

/// A token as a map key: address, chain.
pub type TokenRow = (u32, u128, u8);

/// A persistent table of pools, held in a map of `imbl`.
#[verifier::external_body]
#[derive(Debug, PartialEq, Eq)]
pub struct PoolTable {
    map: imbl::HashMap<PoolRow, PoolMetadata>,
}

/// A persistent table of tokens, held in a map of `imbl`.
#[verifier::external_body]
#[derive(Debug, PartialEq, Eq)]
pub struct TokenTable {
    map: imbl::HashMap<TokenRow, TokenMetadata>,
}

/// What a table of pools holds.
pub uninterp spec fn pool_rows(table: PoolTable) -> Map<PoolRow, PoolMetadata>;

/// What a table of tokens holds.
pub uninterp spec fn token_rows(table: TokenTable) -> Map<TokenRow, TokenMetadata>;

/// Calls `imbl::HashMap::new`: the map holds nothing.
#[verifier::external_body]
fn imbl_pools_new() -> (r: PoolTable)
    ensures
        pool_rows(r).dom() == Set::<PoolRow>::empty(),
{
    PoolTable { map: imbl::HashMap::new() }
}

/// Calls `imbl::HashMap::insert`: the key has the value afterwards, whatever it had before, and
/// every other key is as it was. The value that it had before is dropped.
#[verifier::external_body]
fn imbl_pools_insert(table: &mut PoolTable, row: PoolRow, metadata: PoolMetadata)
    ensures
        pool_rows(*final(table)) == pool_rows(*old(table)).insert(row, metadata),
{
    table.map.insert(row, metadata);
}

/// Calls `imbl::HashMap::len`: the number of keys.
#[verifier::external_body]
fn imbl_pools_len(table: &PoolTable) -> (n: usize)
    ensures
        n == pool_rows(*table).dom().len(),
{
    table.map.len()
}

/// Calls `imbl::HashMap::iter` and copies the entries out: each entry comes once. In which order is
/// left unsaid.
#[verifier::external_body]
fn imbl_pools_iter(table: &PoolTable) -> (r: Vec<(PoolRow, PoolMetadata)>)
    ensures
        r@.len() == pool_rows(*table).dom().len(),
        forall|i: int|
            0 <= i < r@.len() ==> pool_rows(*table).contains_key((#[trigger] r@[i]).0)
                && pool_rows(*table)[r@[i].0] == r@[i].1,
        forall|i: int, j: int|
            0 <= i < j < r@.len() ==> (#[trigger] r@[i]).0 != (#[trigger] r@[j]).0,
        forall|row: PoolRow| #[trigger]
            pool_rows(*table).contains_key(row) ==> exists|i: int|
                0 <= i < r@.len() && (#[trigger] r@[i]).0 == row,
{
    table.map.iter().map(|(row, metadata)| (*row, *metadata)).collect()
}

/// Calls `imbl::HashMap::ptr_eq`: a table has the same root as itself and as its clones, and tables
/// with the same root hold the same entries. What it answers for tables made apart that hold the
/// same entries is left unsaid.
#[verifier::external_body]
fn imbl_pools_ptr_eq(a: &PoolTable, b: &PoolTable) -> (r: bool)
    ensures
        *a == *b ==> r,
        r ==> pool_rows(*a) == pool_rows(*b),
{
    a.map.ptr_eq(&b.map)
}

/// Calls `imbl::HashMap::new`: the map holds nothing.
#[verifier::external_body]
fn imbl_tokens_new() -> (r: TokenTable)
    ensures
        token_rows(r).dom() == Set::<TokenRow>::empty(),
{
    TokenTable { map: imbl::HashMap::new() }
}

/// Calls `imbl::HashMap::insert`: the key has the value afterwards, whatever it had before, and
/// every other key is as it was. The value that it had before is dropped.
#[verifier::external_body]
fn imbl_tokens_insert(table: &mut TokenTable, row: TokenRow, metadata: TokenMetadata)
    ensures
        token_rows(*final(table)) == token_rows(*old(table)).insert(row, metadata),
{
    table.map.insert(row, metadata);
}

/// Calls `imbl::HashMap::get`: the value of the key, if it is present.
#[verifier::external_body]
fn imbl_tokens_get(table: &TokenTable, row: TokenRow) -> (r: Option<&TokenMetadata>)
    ensures
        match r {
            Some(metadata) => token_rows(*table).contains_key(row) && token_rows(*table)[row]
                == *metadata,
            None => !token_rows(*table).contains_key(row),
        },
{
    table.map.get(&row)
}

/// Calls `imbl::HashMap::ptr_eq`: a table has the same root as itself and as its clones, and tables
/// with the same root hold the same entries. What it answers for tables made apart that hold the
/// same entries is left unsaid.
#[verifier::external_body]
fn imbl_tokens_ptr_eq(a: &TokenTable, b: &TokenTable) -> (r: bool)
    ensures
        *a == *b ==> r,
        r ==> token_rows(*a) == token_rows(*b),
{
    a.map.ptr_eq(&b.map)
}

impl Clone for PoolTable {
    /// Calls `clone` on an `imbl::HashMap`: the clone has the same root, size and hasher, so it is
    /// the same table.
    #[verifier::external_body]
    fn clone(&self) -> (r: PoolTable)
        ensures
            r == *self,
    {
        PoolTable { map: self.map.clone() }
    }
}

impl Clone for TokenTable {
    /// Calls `clone` on an `imbl::HashMap`: the clone has the same root, size and hasher, so it is
    /// the same table.
    #[verifier::external_body]
    fn clone(&self) -> (r: TokenTable)
        ensures
            r == *self,
    {
        TokenTable { map: self.map.clone() }
    }
}

pub open spec fn chain_tag(chain: ChainKey) -> u8 {
    match chain {
        ChainKey::Ethereum => 0,
        ChainKey::Arbitrum => 1,
        ChainKey::Polygon => 2,
    }
}

/// The row of a pool.
pub open spec fn pool_row(pool: PoolRef) -> PoolRow {
    match pool.key {
        ProtocolPoolKey::UniswapV3(address) => (
            0,
            address.hi as u128,
            address.lo,
            chain_tag(pool.chain),
        ),
        ProtocolPoolKey::UniswapV4(id) => (1, id.0.hi, id.0.lo, chain_tag(pool.chain)),
    }
}

/// The row of a token.
pub open spec fn token_row(token: TokenAddress) -> TokenRow {
    (token.0.hi, token.0.lo, chain_tag(token.1))
}

/// Pools, and tokens, have rows of their own.
pub proof fn lemma_rows_distinct(a: PoolRef, b: PoolRef, s: TokenAddress, t: TokenAddress)
    ensures
        pool_row(a) == pool_row(b) ==> a == b,
        token_row(s) == token_row(t) ==> s == t,
{
}

/// Every row of the table is a pool's.
pub open spec fn pools_only(table: PoolTable) -> bool {
    &&& pool_rows(table).dom().finite()
    &&& forall|row: PoolRow| #[trigger]
        pool_rows(table).contains_key(row) ==> exists|p: PoolRef| pool_row(p) == row
}

/// The pools of a table.
pub open spec fn pools_of(table: PoolTable) -> Map<PoolRef, PoolMetadata> {
    Map::new(
        |p: PoolRef| pool_rows(table).contains_key(pool_row(p)),
        |p: PoolRef| pool_rows(table)[pool_row(p)],
    )
}

/// The tokens of a table.
pub open spec fn tokens_of(table: TokenTable) -> Map<TokenAddress, TokenMetadata> {
    Map::new(
        |t: TokenAddress| token_rows(table).contains_key(token_row(t)),
        |t: TokenAddress| token_rows(table)[token_row(t)],
    )
}

fn chain_number(chain: ChainKey) -> (r: u8)
    ensures
        r == chain_tag(chain),
{
    match chain {
        ChainKey::Ethereum => 0,
        ChainKey::Arbitrum => 1,
        ChainKey::Polygon => 2,
    }
}

fn row_of_pool(pool: PoolRef) -> (r: PoolRow)
    ensures
        r == pool_row(pool),
{
    match pool.key {
        ProtocolPoolKey::UniswapV3(address) => (
            0,
            address.hi as u128,
            address.lo,
            chain_number(pool.chain),
        ),
        ProtocolPoolKey::UniswapV4(id) => (1, id.0.hi, id.0.lo, chain_number(pool.chain)),
    }
}

fn row_of_token(token: TokenAddress) -> (r: TokenRow)
    ensures
        r == token_row(token),
{
    (token.0.hi, token.0.lo, chain_number(token.1))
}

/// The pool that a row stands for.
fn pool_of_row(row: PoolRow) -> (r: PoolRef)
    requires
        exists|p: PoolRef| pool_row(p) == row,
    ensures
        pool_row(r) == row,
{
    let chain = if row.3 == 0 {
        ChainKey::Ethereum
    } else if row.3 == 1 {
        ChainKey::Arbitrum
    } else {
        ChainKey::Polygon
    };
    let key = if row.0 == 0 {
        ProtocolPoolKey::UniswapV3(Address { hi: row.1 as u32, lo: row.2 })
    } else {
        ProtocolPoolKey::UniswapV4(PoolId(B256 { hi: row.1, lo: row.2 }))
    };
    PoolRef { key, chain }
}

impl TrustedPoolRegistry {
    /// The verified pools as a persistent table.
    pub fn verified_view(&self) -> (r: PoolTable)
        ensures
            pools_only(r),
            pools_of(r) == self@.verified,
    {
        let mut table: PoolTable = imbl_pools_new();
        let n: usize = self.verified_size();
        let ghost listed = ascending(self@.verified.dom());
        proof {
            self.lemma_finite();
            lemma_walk(self@.verified.dom());
        }
        for i in 0..n
            invariant
                n == self@.verified.len(),
                listed == ascending(self@.verified.dom()),
                lists(listed, self@.verified.dom()),
                listed.len() == n,
                pools_only(table),
                forall|p: PoolRef| #[trigger]
                    pool_rows(table).contains_key(pool_row(p)) <==> listed.take(i as int).contains(
                        p,
                    ),
                forall|p: PoolRef|
                    listed.take(i as int).contains(p) ==> #[trigger] pool_rows(table)[pool_row(p)]
                        == self@.verified[p],
        {
            let (pool, metadata) = self.verified_at(i);
            let ghost before = table;
            proof {
                lemma_take_next(listed, i as int);
            }
            imbl_pools_insert(&mut table, row_of_pool(pool), metadata);
            proof {
                assert forall|row: PoolRow| #[trigger]
                    pool_rows(table).contains_key(row) implies exists|p: PoolRef|
                    pool_row(p) == row by {
                    if row == pool_row(pool) {
                        assert(pool_row(pool) == row);
                    } else {
                        assert(pool_rows(before).contains_key(row));
                    }
                }
                assert forall|p: PoolRef| #[trigger]
                    pool_rows(table).contains_key(pool_row(p)) <==> listed.take(i + 1).contains(
                        p,
                    ) by {
                    lemma_rows_distinct(
                        p,
                        pool,
                        TokenAddress(Address { hi: 0, lo: 0 }, ChainKey::Ethereum),
                        TokenAddress(Address { hi: 0, lo: 0 }, ChainKey::Ethereum),
                    );
                    assert(pool_rows(before).contains_key(pool_row(p)) <==> listed.take(
                        i as int,
                    ).contains(p));
                }
                assert forall|p: PoolRef| listed.take(i + 1).contains(p) implies #[trigger] pool_rows(
                    table,
                )[pool_row(p)] == self@.verified[p] by {
                    if p != pool {
                        assert(pool_rows(before)[pool_row(p)] == self@.verified[p]);
                    }
                }
            }
        }
        proof {
            assert(listed.take(n as int) =~= listed);
            assert forall|p: PoolRef| pools_of(table).contains_key(p)
                <==> self@.verified.contains_key(p) by {
                assert(listed.contains(p) <==> self@.verified.dom().contains(p));
                assert(pool_rows(table).contains_key(pool_row(p)) <==> listed.contains(p));
            }
            assert forall|p: PoolRef| self@.verified.contains_key(p) implies #[trigger] pools_of(
                table,
            )[p] == self@.verified[p] by {
                assert(listed.contains(p) <==> self@.verified.dom().contains(p));
            }
            assert(pools_of(table) =~= self@.verified);
        }
        table
    }
}

impl TokenRegistry {
    /// The verified tokens as a persistent table.
    pub fn verified_view(&self) -> (r: TokenTable)
        ensures
            tokens_of(r) == self@.verified,
    {
        let mut table: TokenTable = imbl_tokens_new();
        let n: usize = self.verified_size();
        let ghost listed = ascending(self@.verified.dom());
        proof {
            self.lemma_finite();
            lemma_walk(self@.verified.dom());
        }
        for i in 0..n
            invariant
                n == self@.verified.len(),
                listed == ascending(self@.verified.dom()),
                lists(listed, self@.verified.dom()),
                listed.len() == n,
                forall|t: TokenAddress| #[trigger]
                    token_rows(table).contains_key(token_row(t)) <==> listed.take(
                        i as int,
                    ).contains(t),
                forall|t: TokenAddress|
                    listed.take(i as int).contains(t) ==> #[trigger] token_rows(table)[token_row(
                        t,
                    )] == self@.verified[t],
        {
            let (token, metadata) = self.verified_at(i);
            let ghost before = table;
            proof {
                lemma_take_next(listed, i as int);
            }
            imbl_tokens_insert(&mut table, row_of_token(token), metadata);
            proof {
                assert forall|t: TokenAddress| #[trigger]
                    token_rows(table).contains_key(token_row(t)) <==> listed.take(i + 1).contains(
                        t,
                    ) by {
                    assert(token_rows(before).contains_key(token_row(t)) <==> listed.take(
                        i as int,
                    ).contains(t));
                }
                assert forall|t: TokenAddress|
                    listed.take(i + 1).contains(t) implies #[trigger] token_rows(table)[token_row(
                    t,
                )] == self@.verified[t] by {
                    if t != token {
                        assert(token_rows(before)[token_row(t)] == self@.verified[t]);
                    }
                }
            }
        }
        proof {
            assert(listed.take(n as int) =~= listed);
            assert forall|t: TokenAddress| tokens_of(table).contains_key(t)
                <==> self@.verified.contains_key(t) by {
                assert(listed.contains(t) <==> self@.verified.dom().contains(t));
                assert(token_rows(table).contains_key(token_row(t)) <==> listed.contains(t));
            }
            assert forall|t: TokenAddress|
                self@.verified.contains_key(t) implies #[trigger] tokens_of(table)[t]
                == self@.verified[t] by {
                assert(listed.contains(t) <==> self@.verified.dom().contains(t));
            }
            assert(tokens_of(table) =~= self@.verified);
        }
        table
    }
}

/// What a catalog holds.
#[verifier::ext_equal]
pub struct CatalogModel {
    pub pools: Map<PoolRef, PoolMetadata>,
    pub tokens: Map<TokenAddress, TokenMetadata>,
}

/// The verified pools and tokens, of every chain that the registries hold.
#[derive(Debug, PartialEq, Eq)]
pub struct MetadataCatalog {
    pools: PoolTable,
    tokens: TokenTable,
}

impl View for MetadataCatalog {
    type V = CatalogModel;

    closed spec fn view(&self) -> CatalogModel {
        CatalogModel { pools: pools_of(self.pools), tokens: tokens_of(self.tokens) }
    }
}

impl MetadataCatalog {
    /// The catalog over two tables.
    pub closed spec fn of_tables(pools: PoolTable, tokens: TokenTable) -> MetadataCatalog {
        MetadataCatalog { pools, tokens }
    }

    /// Every row of the pool table is a pool's.
    pub closed spec fn wf(self) -> bool {
        pools_only(self.pools)
    }

    /// A catalog of the registries' tables. The tables are shared, not copied.
    pub fn from_views(pools: PoolTable, tokens: TokenTable) -> (r: MetadataCatalog)
        requires
            pools_only(pools),
        ensures
            r.wf(),
            r == MetadataCatalog::of_tables(pools, tokens),
            r@ == (CatalogModel { pools: pools_of(pools), tokens: tokens_of(tokens) }),
    {
        MetadataCatalog { pools, tokens }
    }

    /// The verified pools, each once, in no particular order.
    pub fn iter_pools(&self) -> (r: Vec<(PoolRef, PoolMetadata)>)
        requires
            self.wf(),
        ensures
            r@.len() == self@.pools.len(),
            forall|i: int|
                0 <= i < r@.len() ==> self@.pools.contains_key((#[trigger] r@[i]).0)
                    && self@.pools[r@[i].0] == r@[i].1,
            forall|i: int, j: int|
                0 <= i < j < r@.len() ==> (#[trigger] r@[i]).0 != (#[trigger] r@[j]).0,
            forall|p: PoolRef| #[trigger]
                self@.pools.contains_key(p) ==> exists|i: int|
                    0 <= i < r@.len() && (#[trigger] r@[i]).0 == p,
    {
        let rows = imbl_pools_iter(&self.pools);
        let n: usize = rows.len();
        let mut r: Vec<(PoolRef, PoolMetadata)> = Vec::new();
        for i in 0..n
            invariant
                self.wf(),
                n == rows@.len(),
                r@.len() == i,
                forall|k: int|
                    0 <= k < rows@.len() ==> pool_rows(self.pools).contains_key(
                        (#[trigger] rows@[k]).0,
                    ) && pool_rows(self.pools)[rows@[k].0] == rows@[k].1,
                forall|k: int|
                    0 <= k < i ==> pool_row((#[trigger] r@[k]).0) == rows@[k].0 && r@[k].1
                        == rows@[k].1,
        {
            let (row, metadata) = rows[i];
            assert(pool_rows(self.pools).contains_key(rows@[i as int].0));
            r.push((pool_of_row(row), metadata));
        }
        proof {
            lemma_pool_count(self.pools);
            assert forall|i: int| 0 <= i < r@.len() implies self@.pools.contains_key(
                (#[trigger] r@[i]).0,
            ) && self@.pools[r@[i].0] == r@[i].1 by {
                assert(pool_rows(self.pools).contains_key(rows@[i].0));
            }
            assert forall|i: int, j: int| 0 <= i < j < r@.len() implies (#[trigger] r@[i]).0 != (
            #[trigger] r@[j]).0 by {
                assert(rows@[i].0 != rows@[j].0);
            }
            assert forall|p: PoolRef| #[trigger] self@.pools.contains_key(p) implies exists|i: int|
                0 <= i < r@.len() && (#[trigger] r@[i]).0 == p by {
                assert(pool_rows(self.pools).contains_key(pool_row(p)));
                let i = choose|i: int| 0 <= i < rows@.len() && (#[trigger] rows@[i]).0 == pool_row(p);
                assert(pool_row(r@[i].0) == pool_row(p));
                assert(r@[i].0 == p);
            }
        }
        r
    }

    /// The metadata of a token, if it was verified. The native currency gets no special treatment.
    pub fn token_metadata(&self, token: TokenAddress) -> (r: Option<&TokenMetadata>)
        ensures
            match r {
                Some(metadata) => self@.tokens.contains_key(token) && self@.tokens[token]
                    == *metadata,
                None => !self@.tokens.contains_key(token),
            },
    {
        imbl_tokens_get(&self.tokens, row_of_token(token))
    }

    /// Whether two catalogs share their tables: a catalog does with itself and with its clones, and
    /// catalogs that do hold the same. Catalogs made apart may hold the same and share nothing.
    pub fn shares_tables(&self, other: &MetadataCatalog) -> (r: bool)
        ensures
            *self == *other ==> r,
            r ==> self@ == other@,
    {
        imbl_pools_ptr_eq(&self.pools, &other.pools) && imbl_tokens_ptr_eq(
            &self.tokens,
            &other.tokens,
        )
    }

    /// How many pools the catalog holds.
    pub fn pool_count(&self) -> (n: usize)
        requires
            self.wf(),
        ensures
            n == self@.pools.len(),
    {
        proof {
            lemma_pool_count(self.pools);
        }
        imbl_pools_len(&self.pools)
    }
}

impl Clone for MetadataCatalog {
    /// A catalog over the same tables.
    fn clone(&self) -> (r: MetadataCatalog)
        ensures
            r == *self,
    {
        MetadataCatalog { pools: self.pools.clone(), tokens: self.tokens.clone() }
    }
}

impl Default for MetadataCatalog {
    fn default() -> (r: MetadataCatalog)
        ensures
            r.wf(),
            r@ == (CatalogModel { pools: Map::empty(), tokens: Map::empty() }),
    {
        let r = MetadataCatalog { pools: imbl_pools_new(), tokens: imbl_tokens_new() };
        proof {
            assert(r@.pools =~= Map::empty());
            assert(r@.tokens =~= Map::empty());
        }
        r
    }
}

/// A table of pools holds as many pools as rows.
pub proof fn lemma_pool_count(table: PoolTable)
    requires
        pools_only(table),
    ensures
        pools_of(table).len() == pool_rows(table).dom().len(),
{
    let pools = pools_of(table).dom();
    let rows = pool_rows(table).dom();
    assert(rows =~= pools.map(|p: PoolRef| pool_row(p))) by {
        assert forall|row: PoolRow| rows.contains(row) implies pools.map(
            |p: PoolRef| pool_row(p),
        ).contains(row) by {
            assert(pool_rows(table).contains_key(row));
            let p = choose|p: PoolRef| pool_row(p) == row;
            assert(pools.contains(p));
        }
    }
    assert(pools.finite()) by {
        let back = rows.map(|row: PoolRow| choose|p: PoolRef| pool_row(p) == row);
        rows.lemma_map_finite(|row: PoolRow| choose|p: PoolRef| pool_row(p) == row);
        assert forall|p: PoolRef| pools.contains(p) implies back.contains(p) by {
            let row = pool_row(p);
            assert(rows.contains(row));
            let q = choose|q: PoolRef| pool_row(q) == row;
            assert(pool_row(q) == row);
            assert(q == p);
        }
        vstd::set_lib::lemma_set_subset_finite(back, pools);
    }
    vstd::set_lib::lemma_map_size(pools, rows, |p: PoolRef| pool_row(p));
}

} // verus!
