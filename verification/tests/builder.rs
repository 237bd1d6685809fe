use ckbtc_minter::address::BitcoinAddress;
use ckbtc_minter::builder::{
    build_unsigned_transaction, BuildTxError, ChangeOutput, MIN_CHANGE, P2WPKH_DUST_THRESHOLD,
    SEQUENCE_RBF_ENABLED,
};
use ckbtc_minter::signing::fake_sign;
use ckbtc_minter::tx::{TxOut, UnsignedInput};
use ckbtc_minter::utxo::{OutPoint, Utxo, UtxoSet};

fn utxo(tag: u8, value: u64) -> Utxo {
    Utxo { outpoint: OutPoint { txid: [tag; 32], vout: 0 }, value }
}

fn address(tag: u8) -> BitcoinAddress {
    BitcoinAddress::P2wpkhV0([tag; 20])
}

fn set_of(utxos: &[Utxo]) -> UtxoSet {
    let mut set = UtxoSet::new();
    for u in utxos {
        assert!(set.insert(*u));
    }
    set
}

#[test]
fn constants() {
    assert_eq!(P2WPKH_DUST_THRESHOLD, 294);
    assert_eq!(MIN_CHANGE, 295);
    assert_eq!(SEQUENCE_RBF_ENABLED, 0xfffffffd);
}

#[test]
fn batch_that_spends_an_output_exactly() {
    let mut available = set_of(&[utxo(1, 100_000), utxo(2, 50_000)]);
    let (tx, change, utxos) = build_unsigned_transaction(
        &mut available,
        vec![(address(0xa1), 60_000), (address(0xa2), 40_000)],
        address(0xff),
        1000,
    )
    .unwrap();
    assert_eq!(utxos, vec![utxo(1, 100_000)]);
    assert_eq!(available.to_vec(), vec![utxo(2, 50_000)]);
    assert_eq!(change, None);
    assert_eq!(
        tx.inputs,
        vec![UnsignedInput {
            previous_output: utxo(1, 0).outpoint,
            value: 100_000,
            sequence: 0xfffffffd,
        }]
    );
    // One input and two outputs make 141 virtual bytes, at one satoshi each.
    assert_eq!(fake_sign(&tx).vsize(), 141);
    assert_eq!(
        tx.outputs,
        vec![
            TxOut { address: address(0xa1), value: 60_000 - 71 },
            TxOut { address: address(0xa2), value: 40_000 - 70 },
        ]
    );
    assert_eq!(tx.lock_time, 0);
    let outputs: u64 = tx.outputs.iter().map(|o| o.value).sum();
    assert_eq!(100_000, 141 + outputs);
}

#[test]
fn batch_with_a_small_change() {
    let mut available = set_of(&[utxo(1, 100_000), utxo(2, 50_000)]);
    let (tx, change, utxos) = build_unsigned_transaction(
        &mut available,
        vec![(address(0xa1), 60_000), (address(0xa2), 39_900)],
        address(0xff),
        1000,
    )
    .unwrap();
    assert_eq!(utxos, vec![utxo(1, 100_000)]);
    // The change of 100 is raised to the least change value; the 195 that
    // this takes are charged to the recipients with the fee of 172.
    assert_eq!(change, Some(ChangeOutput { vout: 2, value: 295 }));
    assert_eq!(fake_sign(&tx).vsize(), 172);
    assert_eq!(
        tx.outputs,
        vec![
            TxOut { address: address(0xa1), value: 60_000 - 184 },
            TxOut { address: address(0xa2), value: 39_900 - 183 },
            TxOut { address: address(0xff), value: 295 },
        ]
    );
    let outputs: u64 = tx.outputs.iter().map(|o| o.value).sum();
    assert_eq!(100_000, 172 + outputs);
}

#[test]
fn batch_with_a_large_change() {
    let mut available = set_of(&[utxo(1, 100_000)]);
    let (tx, change, _) = build_unsigned_transaction(
        &mut available,
        vec![(address(0xa1), 60_000)],
        address(0xff),
        2500,
    )
    .unwrap();
    assert!(available.is_empty());
    assert_eq!(change, Some(ChangeOutput { vout: 1, value: 40_000 }));
    // 141 virtual bytes at 2.5 satoshi each, rounded down.
    assert_eq!(
        tx.outputs,
        vec![
            TxOut { address: address(0xa1), value: 60_000 - 352 },
            TxOut { address: address(0xff), value: 40_000 },
        ]
    );
}

#[test]
fn amount_too_low_returns_the_outputs() {
    let mut available = set_of(&[utxo(1, 1_000)]);
    let before = available.clone();
    let result = build_unsigned_transaction(
        &mut available,
        vec![(address(0xa1), 500)],
        address(0xff),
        50_000,
    );
    assert_eq!(result, Err(BuildTxError::AmountTooLow));
    assert_eq!(available, before);
}

#[test]
fn not_enough_funds_leaves_the_outputs() {
    let mut available = set_of(&[utxo(1, 10_000)]);
    let before = available.clone();
    let result = build_unsigned_transaction(
        &mut available,
        vec![(address(0xa1), 20_000)],
        address(0xff),
        1000,
    );
    assert_eq!(result, Err(BuildTxError::NotEnoughFunds));
    assert_eq!(available, before);
}

#[test]
fn nothing_requested_counts_as_not_enough_funds() {
    let mut available = set_of(&[utxo(1, 10_000)]);
    let result =
        build_unsigned_transaction(&mut available, vec![(address(0xa1), 0)], address(0xff), 1000);
    assert_eq!(result, Err(BuildTxError::NotEnoughFunds));
    assert_eq!(available.len(), 1);
}

#[test]
fn a_recipient_that_cannot_pay_its_share_gets_nothing() {
    let mut available = set_of(&[utxo(1, 1_000)]);
    let (tx, change, _) = build_unsigned_transaction(
        &mut available,
        vec![(address(0xa1), 990), (address(0xa2), 5)],
        address(0xff),
        1000,
    )
    .unwrap();
    // Change of 5 is raised to 295; fee 172 and overdraft 290 make 231 each.
    assert_eq!(change, Some(ChangeOutput { vout: 2, value: 295 }));
    assert_eq!(
        tx.outputs,
        vec![
            TxOut { address: address(0xa1), value: 990 - 231 },
            TxOut { address: address(0xa2), value: 0 },
            TxOut { address: address(0xff), value: 295 },
        ]
    );
}

#[test]
fn a_fee_equal_to_the_amount_is_accepted() {
    let mut available = set_of(&[utxo(1, 110)]);
    let result =
        build_unsigned_transaction(&mut available, vec![(address(0xa1), 110)], address(0xff), 1000);
    // One input and one output make 110 virtual bytes.
    let (tx, change, _) = result.unwrap();
    assert_eq!(change, None);
    assert_eq!(tx.outputs, vec![TxOut { address: address(0xa1), value: 0 }]);
}
