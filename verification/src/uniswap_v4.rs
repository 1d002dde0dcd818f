//! Where the v4 singleton lives.
use vstd::prelude::*;

use crate::primitives::{Address, ChainKey};

verus! {

pub open spec fn spec_pool_manager_address(chain: ChainKey) -> Option<Address> {
    match chain {
        ChainKey::Ethereum => Some(
            Address { hi: 0x0000_0000, lo: 0x0004_444c_5dc7_5cb3_5838_0d2e_3de0_8a90 },
        ),
        ChainKey::Arbitrum => Some(
            Address { hi: 0x360e_68fa, lo: 0xccca_8ca4_95c1_b759_fd9e_ee46_6db9_fb32 },
        ),
        ChainKey::Polygon => Some(
            Address { hi: 0x6736_6782, lo: 0x8058_7006_0151_383f_4bbf_f9da_b53e_5cd6 },
        ),
    }
}

/// The PoolManager contract of a chain; `None` where none is deployed.
pub fn pool_manager_address(chain: ChainKey) -> (r: Option<Address>)
    ensures
        r == spec_pool_manager_address(chain),
{
    match chain {
        ChainKey::Ethereum => Some(
            Address { hi: 0x0000_0000, lo: 0x0004_444c_5dc7_5cb3_5838_0d2e_3de0_8a90 },
        ),
        ChainKey::Arbitrum => Some(
            Address { hi: 0x360e_68fa, lo: 0xccca_8ca4_95c1_b759_fd9e_ee46_6db9_fb32 },
        ),
        ChainKey::Polygon => Some(
            Address { hi: 0x6736_6782, lo: 0x8058_7006_0151_383f_4bbf_f9da_b53e_5cd6 },
        ),
    }
}

/// Every chain has a manager, and no two chains have the same one.
pub proof fn law_each_chain_has_its_manager(a: ChainKey, b: ChainKey)
    ensures
        spec_pool_manager_address(a) is Some,
        spec_pool_manager_address(a) == spec_pool_manager_address(b) ==> a == b,
        spec_pool_manager_address(a) != Some(Address { hi: 0, lo: 0 }),
{
}

} // verus!
