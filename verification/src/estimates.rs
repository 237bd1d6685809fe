//! Estimates that the settlement goes by: how long a transaction takes to be
//! confirmed, and what fee to pay.

use vstd::prelude::*;
use crate::address::Network;

verus! {

/// Nanoseconds in a second.
pub const SEC_NANOS: u64 = 1_000_000_000;

/// Nanoseconds in a minute.
pub const MIN_NANOS: u64 = 60 * SEC_NANOS;

/// Fewest pending requests for which a transaction is made without waiting.
pub const MIN_PENDING_REQUESTS: usize = 20;

/// The fee used on a regression test network, in millisatoshi per virtual
/// byte.
pub const DEFAULT_FEE: u64 = 5_000;

/// Fewest fee samples from which a fee is estimated.
pub const MIN_FEE_SAMPLES: usize = 100;

/// The time that a block takes on a network, in nanoseconds: ten minutes on
/// the main network, a minute on the test network, a second on a regression
/// test network.
pub open spec fn block_time(network: Network) -> int {
    match network {
        Network::Mainnet => 10 * MIN_NANOS,
        Network::Testnet => MIN_NANOS as int,
        Network::Regtest => SEC_NANOS as int,
    }
}

/// The time after which a transaction can be expected to have the given
/// number of confirmations, in nanoseconds.
pub fn finalization_time_estimate(min_confirmations: u32, network: Network) -> (nanos: u128)
    ensures
        nanos == min_confirmations * block_time(network),
        nanos <= 0xffff_ffff * 600_000_000_000,
{
    let unit: u128 = match network {
        Network::Mainnet => 10 * (MIN_NANOS as u128),
        Network::Testnet => MIN_NANOS as u128,
        Network::Regtest => SEC_NANOS as u128,
    };
    assert(min_confirmations * unit <= 0xffff_ffff * 600_000_000_000) by (nonlinear_arith)
        requires
            min_confirmations <= 0xffff_ffff,
            unit <= 600_000_000_000,
    ;
    (min_confirmations as u128) * unit
}

/// The fee to pay given recent fees in ascending order, in millisatoshi per
/// virtual byte: a fixed fee on a regression test network; else the
/// fiftieth of the samples where there are a hundred or more; else none.
pub open spec fn fee_estimate(network: Network, fees: Seq<u64>) -> Option<u64> {
    if network == Network::Regtest {
        Some(DEFAULT_FEE)
    } else if fees.len() >= MIN_FEE_SAMPLES {
        Some(fees[49])
    } else {
        None
    }
}

/// Estimates the fee per virtual byte from the recent fees that the Bitcoin
/// network reports. `None` means that there is too little to go by.
pub fn estimate_fee_per_vbyte(network: Network, fees: &Vec<u64>) -> (fee: Option<u64>)
    ensures
        fee == fee_estimate(network, fees@),
{
    match network {
        Network::Regtest => Some(DEFAULT_FEE),
        _ => {
            if fees.len() >= MIN_FEE_SAMPLES {
                Some(fees[49])
            } else {
                None
            }
        },
    }
}

} // verus!
