use alloy::primitives::{Address as AlloyAddress, Bloom as AlloyBloom, BloomInput};
use evm_kernel::blocks_graph::{bloom_may_touch, watched_addresses};
use evm_kernel::ord_map::OrdSet;
use evm_kernel::pool_state::{PoolId, PoolRef, ProtocolPoolKey};
use evm_kernel::primitives::{Address, Bloom, ChainKey, B256};
use evm_kernel::tick::{Tick, REQUEST_TTL};
use evm_kernel::uniswap_v4::pool_manager_address;

/// A full-width address, to tell its bytes apart.
fn wide() -> Address {
    Address { hi: 0x0102_0304, lo: 0x0506_0708_090a_0b0c_0d0e_0f10_1112_1314 }
}

fn bloom_of(address: Address) -> Bloom {
    let mut bytes = [0u8; 20];
    bytes[..4].copy_from_slice(&address.hi.to_be_bytes());
    bytes[4..].copy_from_slice(&address.lo.to_be_bytes());
    let mut bloom = AlloyBloom::default();
    bloom.accrue(BloomInput::Raw(AlloyAddress::from(bytes).as_slice()));
    Bloom { bytes: bloom.data().to_owned() }
}

#[test]
fn bloom_contains_what_it_accrued() {
    assert!(bloom_of(wide()).may_contain(wide()));
    assert!(!bloom_of(wide()).may_contain(Address::with_last_byte(1)));
    assert!(!bloom_of(Address::with_last_byte(1)).may_contain(wide()));
    // The two halves of an address are not interchangeable.
    let swapped = Address { hi: 0x1112_1314, lo: wide().lo };
    assert!(!bloom_of(wide()).may_contain(swapped));
}

#[test]
fn empty_bloom_contains_nothing_and_full_bloom_everything() {
    for byte in 0..=255u8 {
        let address = Address::with_last_byte(byte);
        assert!(!Bloom::repeat_byte(0).may_contain(address));
        assert!(Bloom::repeat_byte(0xff).may_contain(address));
    }
}

#[test]
fn bloom_touches_when_any_watched_address_may_be_in_it() {
    let watched = OrdSet::from_items(vec![Address::with_last_byte(1), wide()]);
    assert!(bloom_may_touch(Some(bloom_of(wide())), &watched));
    assert!(!bloom_may_touch(Some(bloom_of(Address::with_last_byte(2))), &watched));
    // Without a header the block may touch anything, unless nothing is watched.
    assert!(bloom_may_touch(None, &watched));
    assert!(!bloom_may_touch(None, &OrdSet::new()));
    assert!(!bloom_may_touch(Some(Bloom::repeat_byte(0xff)), &OrdSet::new()));
}

#[test]
fn manager_is_watched_only_for_a_v4_pool() {
    let manager = pool_manager_address(ChainKey::Ethereum);
    let v3 = PoolRef::uniswap_v3(Address::with_last_byte(3), ChainKey::Ethereum);
    let v4 = PoolRef {
        key: ProtocolPoolKey::UniswapV4(PoolId(B256::with_last_byte(4))),
        chain: ChainKey::Ethereum,
    };
    let of_v3 = watched_addresses(&OrdSet::from_items(vec![v3]), manager);
    let of_v4 = watched_addresses(&OrdSet::from_items(vec![v4]), manager);
    assert_eq!(of_v3, OrdSet::from_items(vec![Address::with_last_byte(3)]));
    assert_eq!(of_v4, OrdSet::from_items(vec![manager.unwrap()]));
    assert!(watched_addresses(&OrdSet::from_items(vec![v4]), None).is_empty());
}

#[test]
fn manager_addresses_differ_by_chain() {
    let ethereum = pool_manager_address(ChainKey::Ethereum).unwrap();
    let arbitrum = pool_manager_address(ChainKey::Arbitrum).unwrap();
    let polygon = pool_manager_address(ChainKey::Polygon).unwrap();
    assert_eq!(format!("{:08x}{:032x}", ethereum.hi, ethereum.lo), "000000000004444c5dc75cb358380d2e3de08a90");
    assert_eq!(format!("{:08x}{:032x}", arbitrum.hi, arbitrum.lo), "360e68faccca8ca495c1b759fd9eee466db9fb32");
    assert_eq!(format!("{:08x}{:032x}", polygon.hi, polygon.lo), "67366782805870060151383f4bbff9dab53e5cd6");
}

#[test]
fn hashes_are_ordered_as_numbers() {
    assert!(B256::with_last_byte(2) < B256::with_last_byte(10));
    assert!(B256 { hi: 1, lo: 0 } > B256 { hi: 0, lo: u128::MAX });
    assert_eq!(B256::with_last_byte(7), B256 { hi: 0, lo: 7 });
}

#[test]
fn clock_wraps_around() {
    assert_eq!(Tick::initial(), Tick { raw: 0 });
    assert_eq!(Tick { raw: u64::MAX }.next(), Tick { raw: 0 });
    let sent = Tick { raw: u64::MAX - 2 };
    assert!(!Tick { raw: REQUEST_TTL - 4 }.is_expired_since(sent));
    assert!(Tick { raw: REQUEST_TTL - 3 }.is_expired_since(sent));
    assert!(!sent.is_expired_since(sent));
}
