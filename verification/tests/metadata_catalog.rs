use evm_kernel::kernel::State;
use evm_kernel::metadata_catalog::MetadataCatalog;
use evm_kernel::ord_map::OrdMap;
use evm_kernel::pool_registry::{
    PoolFee, PoolMetadata, PoolMetadataFailure, TrustedPoolRegistry, UniswapV3Fee,
};
use evm_kernel::pool_state::{PoolId, PoolRef, ProtocolPoolKey};
use evm_kernel::primitives::{Address, BlockHash, ChainKey, B256};
use evm_kernel::token_registry::{
    TokenAddress, TokenDecimals, TokenMetadata, TokenMetadataCall, TokenMetadataFailure,
    TokenRegistry,
};

const CHAIN: ChainKey = ChainKey::Ethereum;

fn token(last_byte: u8) -> Address {
    Address::with_last_byte(last_byte)
}

fn pool_metadata(token0: u8, token1: u8) -> PoolMetadata {
    PoolMetadata {
        token0: token(token0),
        token1: token(token1),
        fee: PoolFee::Tiered(UniswapV3Fee::Fee3000),
    }
}

fn decimals(value: u8) -> TokenMetadata {
    TokenMetadata { decimals: TokenDecimals(value) }
}

fn v3_key() -> ProtocolPoolKey {
    ProtocolPoolKey::UniswapV3(token(0x11))
}

fn v4_key() -> ProtocolPoolKey {
    ProtocolPoolKey::UniswapV4(PoolId(B256::with_last_byte(0x22)))
}

fn registries() -> (TrustedPoolRegistry, TokenRegistry) {
    let pool_registry = TrustedPoolRegistry::new().with_metadata_results(
        CHAIN,
        OrdMap::from_entries(vec![
            (v3_key(), Ok(pool_metadata(1, 2))),
            (v4_key(), Ok(pool_metadata(1, 2))),
        ]),
    );
    let token_registry = TokenRegistry::new().with_metadata_results(OrdMap::from_entries(vec![
        (TokenAddress(token(1), CHAIN), Ok(decimals(18))),
        (TokenAddress(token(2), CHAIN), Ok(decimals(6))),
    ]));
    (pool_registry, token_registry)
}

#[test]
fn catalog_surfaces_the_verified_pools_and_tokens() {
    let (pool_registry, token_registry) = registries();
    let catalog =
        MetadataCatalog::from_views(pool_registry.verified_view(), token_registry.verified_view());

    assert_eq!(catalog.pool_count(), 2);
    assert_eq!(catalog.iter_pools().len(), 2);
    assert_eq!(catalog.token_metadata(TokenAddress(token(1), CHAIN)), Some(&decimals(18)));
    assert_eq!(catalog.token_metadata(TokenAddress(token(2), CHAIN)), Some(&decimals(6)));
    // A token no pool referenced (and that was never validated) is simply absent.
    assert_eq!(catalog.token_metadata(TokenAddress(token(9), CHAIN)), None);
}

#[test]
fn from_views_shares_the_map_roots_instead_of_copying_entries() {
    let (pool_registry, token_registry) = registries();
    let pool_view = pool_registry.verified_view();
    let token_view = token_registry.verified_view();

    let catalog = MetadataCatalog::from_views(pool_view.clone(), token_view.clone());
    let of_same_views = MetadataCatalog::from_views(pool_view, token_view);

    // Building a catalog, and every clone of it, copies table roots and not the entries: tables are
    // shared only when both handles point at the same root.
    assert!(catalog.shares_tables(&of_same_views));

    let cloned = catalog.clone();
    assert!(cloned.shares_tables(&catalog));
}

#[test]
fn tables_built_apart_are_equal_but_not_shared() {
    let (pool_registry, token_registry) = registries();
    let one =
        MetadataCatalog::from_views(pool_registry.verified_view(), token_registry.verified_view());
    let other =
        MetadataCatalog::from_views(pool_registry.verified_view(), token_registry.verified_view());
    assert!(!one.shares_tables(&other));
    assert_eq!(one, other);
}

#[test]
fn state_metadata_catalog_reflects_the_seeded_registries() {
    let (pool_registry, token_registry) = registries();
    let (state, _) = State::activate_from_seed(
        BlockHash::with_last_byte(100),
        OrdMap::new(),
        pool_registry,
        token_registry,
        Vec::new(),
    );

    let catalog = state.metadata_catalog();

    assert_eq!(catalog.pool_count(), 2);
    assert_eq!(catalog.token_metadata(TokenAddress(token(1), CHAIN)), Some(&decimals(18)));
}

#[test]
fn default_catalog_is_empty() {
    let empty = MetadataCatalog::default();
    assert_eq!(empty.pool_count(), 0);
    assert_eq!(empty.iter_pools().len(), 0);
    assert_eq!(empty.token_metadata(TokenAddress(token(1), CHAIN)), None);
}

#[test]
fn iter_pools_lists_each_pool_once_with_its_metadata() {
    let v3_metadata = pool_metadata(1, 2);
    let v4_metadata = PoolMetadata {
        token0: Address::zero(),
        token1: token(4),
        fee: PoolFee::Static { pips: 450, tick_spacing: 7 },
    };
    let registry = TrustedPoolRegistry::new()
        .with_metadata_results(
            CHAIN,
            OrdMap::from_entries(vec![
                (v3_key(), Ok(v3_metadata)),
                (v4_key(), Ok(v4_metadata)),
                (
                    ProtocolPoolKey::UniswapV3(token(0x33)),
                    Err(PoolMetadataFailure::FactoryReturnedZero),
                ),
            ]),
        )
        .with_metadata_results(
            ChainKey::Polygon,
            OrdMap::from_entries(vec![(v3_key(), Ok(pool_metadata(5, 6)))]),
        );
    let catalog =
        MetadataCatalog::from_views(registry.verified_view(), TokenRegistry::new().verified_view());

    let mut pools = catalog.iter_pools();
    pools.sort_by_key(|(pool, _)| *pool);
    let mut expected = vec![
        (PoolRef { key: v3_key(), chain: CHAIN }, v3_metadata),
        (PoolRef { key: v4_key(), chain: CHAIN }, v4_metadata),
        (PoolRef { key: v3_key(), chain: ChainKey::Polygon }, pool_metadata(5, 6)),
    ];
    expected.sort_by_key(|(pool, _)| *pool);
    assert_eq!(pools, expected);
    assert_eq!(catalog.pool_count(), 3);
}

#[test]
fn catalog_leaves_out_what_was_not_verified() {
    let native = TokenAddress(Address::zero(), CHAIN);
    let failed = TokenAddress(token(8), CHAIN);
    let registry = TokenRegistry::new().with_metadata_results(OrdMap::from_entries(vec![(
        failed,
        Err(TokenMetadataFailure::CallFailed(TokenMetadataCall::Decimals)),
    )]));
    let catalog = MetadataCatalog::from_views(
        TrustedPoolRegistry::new().verified_view(),
        registry.verified_view(),
    );
    // The registry answers for the native currency by itself; no row stands for it.
    assert_eq!(registry.verified_metadata(native), Some(&decimals(18)));
    assert_eq!(catalog.token_metadata(native), None);
    assert_eq!(catalog.token_metadata(failed), None);
}
