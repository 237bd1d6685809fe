use ckbtc_minter::address::Network;
use ckbtc_minter::estimates::{
    estimate_fee_per_vbyte, finalization_time_estimate, DEFAULT_FEE, MIN_PENDING_REQUESTS,
};

#[test]
fn finalization_takes_ten_minutes_a_block_on_mainnet() {
    assert_eq!(finalization_time_estimate(6, Network::Mainnet), 6 * 600_000_000_000);
    assert_eq!(finalization_time_estimate(1, Network::Testnet), 60_000_000_000);
    assert_eq!(finalization_time_estimate(12, Network::Regtest), 12_000_000_000);
    assert_eq!(finalization_time_estimate(0, Network::Mainnet), 0);
}

#[test]
fn finalization_estimate_does_not_overflow() {
    assert_eq!(
        finalization_time_estimate(u32::MAX, Network::Mainnet),
        4_294_967_295u128 * 600_000_000_000
    );
}

#[test]
fn fee_on_regtest_is_fixed() {
    assert_eq!(DEFAULT_FEE, 5_000);
    assert_eq!(estimate_fee_per_vbyte(Network::Regtest, &vec![]), Some(5_000));
    let fees: Vec<u64> = (1..=200).collect();
    assert_eq!(estimate_fee_per_vbyte(Network::Regtest, &fees), Some(5_000));
}

#[test]
fn fee_is_the_fiftieth_of_a_hundred_samples() {
    let fees: Vec<u64> = (1..=100).map(|i| i * 10).collect();
    assert_eq!(estimate_fee_per_vbyte(Network::Mainnet, &fees), Some(500));
    assert_eq!(estimate_fee_per_vbyte(Network::Testnet, &fees), Some(500));
}

#[test]
fn fee_is_unavailable_below_a_hundred_samples() {
    let fees: Vec<u64> = (1..=99).collect();
    assert_eq!(estimate_fee_per_vbyte(Network::Mainnet, &fees), None);
    assert_eq!(estimate_fee_per_vbyte(Network::Testnet, &vec![]), None);
}

#[test]
fn batch_threshold() {
    assert_eq!(MIN_PENDING_REQUESTS, 20);
}
