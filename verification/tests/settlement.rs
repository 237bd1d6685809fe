use ckbtc_minter::address::{Account, BitcoinAddress, ECDSAPublicKey, Network, Principal};
use ckbtc_minter::builder::ChangeOutput;
use ckbtc_minter::events::{block_indices, received_utxos, sent_transaction, Event};
use ckbtc_minter::settlement::{
    account_to_check, amounts_fit, filter_output_accounts, is_confirmed, mark_sending,
    prepare_sign_request, record_sent, requests_to_finalize, undo_sign_request,
};
use ckbtc_minter::state::{
    CkBtcMinterState, FinalizedBtcRetrieval, FinalizedStatus, InFlightStatus, RetrieveBtcRequest,
};
use ckbtc_minter::tx::TxOut;
use ckbtc_minter::utxo::{OutPoint, Utxo};

const MINUTE: u64 = 60_000_000_000;

fn utxo(tag: u8, value: u64) -> Utxo {
    Utxo { outpoint: OutPoint { txid: [tag; 32], vout: 0 }, value }
}

fn account(tag: u8) -> Account {
    Account { owner: Principal::from_slice(&[tag]).unwrap(), subaccount: None }
}

fn address(tag: u8) -> BitcoinAddress {
    BitcoinAddress::P2wpkhV0([tag; 20])
}

fn request(block_index: u64, amount: u64) -> RetrieveBtcRequest {
    RetrieveBtcRequest { block_index, address: address(block_index as u8), amount, received_at: 0 }
}

fn key() -> ECDSAPublicKey {
    ECDSAPublicKey { public_key: vec![2; 33], chain_code: vec![0; 32] }
}

fn state_with(utxos: Vec<Utxo>, requests: Vec<RetrieveBtcRequest>) -> CkBtcMinterState {
    let mut state = CkBtcMinterState::new(Network::Testnet, "key".to_string(), 6, 100);
    state.add_utxos(account(1), utxos);
    for r in requests {
        assert!(state.enqueue(r));
    }
    state
}

#[test]
fn settling_is_due_with_many_or_old_requests() {
    let mut state = state_with(vec![], vec![]);
    assert!(!state.should_submit(u64::MAX));
    state.enqueue(request(1, 10));
    assert!(!state.should_submit(6 * MINUTE));
    assert!(state.should_submit(6 * MINUTE + 1));
    for i in 2..=20 {
        state.enqueue(request(i, 10));
    }
    assert!(state.should_submit(0));
}

#[test]
fn a_batch_is_reserved_signed_and_sent() {
    let mut state = state_with(
        vec![utxo(1, 100_000), utxo(2, 50_000)],
        vec![request(1, 60_000), request(2, 40_000)],
    );
    assert!(amounts_fit(&state));
    let req = prepare_sign_request(&mut state, address(0xff), key(), 1000).unwrap();
    assert_eq!(req.utxos, vec![utxo(1, 100_000)]);
    assert_eq!(req.requests, vec![request(1, 60_000), request(2, 40_000)]);
    assert_eq!(req.change_output, None);
    assert_eq!(req.key_name, "key");
    assert_eq!(req.network, Network::Testnet);
    assert_eq!(req.ecdsa_public_key, key());
    assert_eq!(req.outpoint_account, vec![(utxo(1, 0).outpoint, account(1))]);
    assert_eq!(
        req.unsigned_tx.outputs,
        vec![
            TxOut { address: address(1), value: 60_000 - 71 },
            TxOut { address: address(2), value: 40_000 - 70 },
        ]
    );
    assert!(state.pending_retrieve_btc_requests.is_empty());
    assert_eq!(state.requests_in_flight.get(&1), Some(&InFlightStatus::Signing));
    assert_eq!(state.requests_in_flight.get(&2), Some(&InFlightStatus::Signing));
    assert_eq!(state.available_utxos.to_vec(), vec![utxo(2, 50_000)]);

    let txid = req.unsigned_tx.txid();
    mark_sending(&mut state, &req, txid);
    assert_eq!(state.requests_in_flight.get(&1), Some(&InFlightStatus::Sending { txid }));
    assert_eq!(state.requests_in_flight.get(&2), Some(&InFlightStatus::Sending { txid }));

    let event = sent_transaction(&req, txid, 77);
    assert_eq!(
        event,
        Event::SentBtcTransaction {
            request_block_indices: vec![1, 2],
            txid,
            utxos: vec![utxo(1, 100_000)],
            change_output: None,
            submitted_at: 77,
        }
    );
    record_sent(&mut state, req, txid, 77);
    assert!(state.requests_in_flight.is_empty());
    assert_eq!(state.submitted_transactions.len(), 1);
    assert_eq!(state.submitted_transactions[0].txid, txid);
    assert_eq!(state.submitted_transactions[0].used_utxos, vec![utxo(1, 100_000)]);
    assert_eq!(state.submitted_transactions[0].submitted_at, 77);
    assert_eq!(state.available_utxos.to_vec(), vec![utxo(2, 50_000)]);
}

#[test]
fn a_batch_with_change_pays_the_main_address() {
    let mut state = state_with(vec![utxo(1, 100_000)], vec![request(1, 60_000)]);
    let req = prepare_sign_request(&mut state, address(0xff), key(), 1000).unwrap();
    assert_eq!(req.change_output, Some(ChangeOutput { vout: 1, value: 40_000 }));
    assert_eq!(
        req.unsigned_tx.outputs,
        vec![
            TxOut { address: address(1), value: 60_000 - 141 },
            TxOut { address: address(0xff), value: 40_000 },
        ]
    );
}

#[test]
fn an_amount_too_low_is_finalized_and_not_retried() {
    let mut state = state_with(vec![utxo(1, 1_000)], vec![request(1, 500)]);
    let result = prepare_sign_request(&mut state, address(0xff), key(), 50_000);
    assert_eq!(result, None);
    assert!(state.pending_retrieve_btc_requests.is_empty());
    assert!(state.requests_in_flight.is_empty());
    assert_eq!(
        state.finalized_requests,
        vec![FinalizedBtcRetrieval { request: request(1, 500), state: FinalizedStatus::AmountTooLow }]
    );
    assert_eq!(state.available_utxos.to_vec(), vec![utxo(1, 1_000)]);
}

#[test]
fn not_enough_funds_changes_nothing() {
    let mut state =
        state_with(vec![utxo(1, 10_000)], vec![request(1, 20_000), request(2, 5)]);
    let before = state.clone();
    let result = prepare_sign_request(&mut state, address(0xff), key(), 1000);
    assert_eq!(result, None);
    assert_eq!(state, before);
}

#[test]
fn nothing_pending_changes_nothing() {
    let mut state = state_with(vec![utxo(1, 10_000)], vec![]);
    let before = state.clone();
    assert_eq!(prepare_sign_request(&mut state, address(0xff), key(), 1000), None);
    assert_eq!(state, before);
}

#[test]
fn undoing_after_a_failed_signature_restores_the_state() {
    let mut state = state_with(
        vec![utxo(1, 100_000), utxo(2, 50_000), utxo(3, 30_000)],
        vec![request(1, 60_000), request(2, 60_000), request(3, 1)],
    );
    state.max_requests_per_batch = 2;
    let before = state.clone();
    let req = prepare_sign_request(&mut state, address(0xff), key(), 1000).unwrap();
    assert_eq!(req.utxos, vec![utxo(1, 100_000), utxo(3, 30_000)]);
    assert_ne!(state, before);
    undo_sign_request(&mut state, req.requests, req.utxos);
    assert_eq!(state, before);
}

#[test]
fn undoing_after_a_failed_broadcast_restores_the_state() {
    let mut state = state_with(
        vec![utxo(1, 100_000), utxo(2, 50_000)],
        vec![request(1, 60_000), request(2, 40_000)],
    );
    let before = state.clone();
    let req = prepare_sign_request(&mut state, address(0xff), key(), 1000).unwrap();
    mark_sending(&mut state, &req, [5; 32]);
    undo_sign_request(&mut state, req.requests, req.utxos);
    assert_eq!(state, before);
    assert!(state.submitted_transactions.is_empty());
}

#[test]
fn requests_that_arrive_while_signing_stay_behind_the_batch() {
    let mut state = state_with(vec![utxo(1, 100_000)], vec![request(1, 60_000)]);
    let req = prepare_sign_request(&mut state, address(0xff), key(), 1000).unwrap();
    assert!(!state.enqueue(request(1, 5)));
    assert!(state.enqueue(request(2, 5)));
    undo_sign_request(&mut state, req.requests, req.utxos);
    assert_eq!(state.pending_retrieve_btc_requests, vec![request(1, 60_000), request(2, 5)]);
}

#[test]
fn sums_that_do_not_fit_are_detected() {
    let mut state =
        state_with(vec![utxo(1, u64::MAX), utxo(2, 1)], vec![request(1, 60_000)]);
    assert!(!amounts_fit(&state));
    state = state_with(vec![utxo(1, u64::MAX)], vec![request(1, u64::MAX - 294)]);
    assert!(!amounts_fit(&state));
    state = state_with(vec![utxo(1, u64::MAX)], vec![request(1, u64::MAX - 295)]);
    assert!(amounts_fit(&state));
}

#[test]
fn a_transaction_is_checked_once_it_is_old_enough() {
    let mut state = state_with(vec![utxo(1, 100_000)], vec![request(1, 60_000)]);
    let req = prepare_sign_request(&mut state, address(0xff), key(), 1000).unwrap();
    record_sent(&mut state, req, [9; 32], 1_000);
    assert!(requests_to_finalize(&state, 1_000 + 6 * MINUTE - 1).is_empty());
    let due = requests_to_finalize(&state, 1_000 + 6 * MINUTE);
    assert_eq!(due, state.submitted_transactions);
}

#[test]
fn a_transaction_is_confirmed_once_its_input_is_spent() {
    let mut state = state_with(vec![utxo(1, 100_000)], vec![request(1, 60_000)]);
    let req = prepare_sign_request(&mut state, address(0xff), key(), 1000).unwrap();
    record_sent(&mut state, req, [9; 32], 1_000);
    let due = requests_to_finalize(&state, u64::MAX);
    let tx = &due[0];
    assert_eq!(account_to_check(&state, tx), Some(account(1)));
    assert!(!is_confirmed(&vec![utxo(2, 5), utxo(1, 100_000)], tx));
    assert!(is_confirmed(&vec![utxo(2, 5)], tx));
    assert!(is_confirmed(&vec![], tx));

    assert!(state.finalize_transaction(&tx.txid));
    assert!(state.submitted_transactions.is_empty());
    assert_eq!(
        state.finalized_requests,
        vec![FinalizedBtcRetrieval {
            request: request(1, 60_000),
            state: FinalizedStatus::Confirmed { txid: [9; 32] },
        }]
    );
    assert_eq!(account_to_check(&state, tx), None);
}

#[test]
fn accounts_of_the_inputs_are_looked_up() {
    let mut state = state_with(vec![utxo(1, 100_000)], vec![request(1, 120_000)]);
    state.add_utxos(account(2), vec![utxo(2, 50_000)]);
    let req = prepare_sign_request(&mut state, address(0xff), key(), 1000).unwrap();
    assert_eq!(
        filter_output_accounts(&state, &req.unsigned_tx),
        vec![(utxo(1, 0).outpoint, account(1)), (utxo(2, 0).outpoint, account(2))]
    );
}

#[test]
fn events_record_what_happened() {
    assert_eq!(block_indices(&vec![request(3, 1), request(1, 1)]), vec![3, 1]);
    assert_eq!(
        received_utxos(account(1), &vec![utxo(1, 5)]),
        Event::ReceivedUtxos { to_account: account(1), utxos: vec![utxo(1, 5)] }
    );
}

fn assert_invariants(state: &CkBtcMinterState) {
    // No output that a submitted transaction spends is available.
    for tx in &state.submitted_transactions {
        assert!(!tx.used_utxos.is_empty());
        for used in &tx.used_utxos {
            assert_eq!(state.available_utxos.position(&used.outpoint), None);
        }
    }
    // No block index occurs twice.
    let mut indices: Vec<u64> =
        state.pending_retrieve_btc_requests.iter().map(|r| r.block_index).collect();
    indices.extend(state.requests_in_flight.keys());
    for tx in &state.submitted_transactions {
        indices.extend(tx.requests.iter().map(|r| r.block_index));
    }
    indices.extend(state.finalized_requests.iter().map(|f| f.request.block_index));
    let count = indices.len();
    indices.sort();
    indices.dedup();
    assert_eq!(indices.len(), count);
}

#[test]
fn invariants_hold_after_every_step() {
    let mut state = state_with(
        vec![utxo(1, 100_000), utxo(2, 50_000), utxo(3, 700)],
        vec![request(1, 60_000), request(2, 40_000), request(3, 500), request(4, 900_000)],
    );
    state.max_requests_per_batch = 2;
    assert_invariants(&state);

    // The first batch is signed and sent.
    let req = prepare_sign_request(&mut state, address(0xff), key(), 1000).unwrap();
    assert_invariants(&state);
    assert!(!state.enqueue(request(2, 1)));
    assert!(state.enqueue(request(5, 1)));
    assert_invariants(&state);
    mark_sending(&mut state, &req, [7; 32]);
    assert_invariants(&state);
    record_sent(&mut state, req, [7; 32], 10);
    assert_invariants(&state);

    // The second batch cannot be paid for and returns to the queue.
    assert_eq!(prepare_sign_request(&mut state, address(0xff), key(), 1000), None);
    assert_invariants(&state);
    assert_eq!(state.pending_retrieve_btc_requests.len(), 3);

    // The change of the first transaction arrives; it is known under a new outpoint.
    state.add_utxos(account(1), vec![utxo(9, 1_000_000), utxo(1, 100_000)]);
    assert_invariants(&state);

    // Signing the second batch fails and the batch is undone.
    let req = prepare_sign_request(&mut state, address(0xff), key(), 1000).unwrap();
    assert_invariants(&state);
    undo_sign_request(&mut state, req.requests, req.utxos);
    assert_invariants(&state);

    // The first transaction is confirmed.
    assert!(state.finalize_transaction(&[7; 32]));
    assert_invariants(&state);
    assert_eq!(state.finalized_requests.len(), 2);
}
