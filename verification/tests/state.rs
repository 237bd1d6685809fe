use ckbtc_minter::address::{Account, BitcoinAddress, ECDSAPublicKey, Network, Principal};
use ckbtc_minter::builder::ChangeOutput;
use ckbtc_minter::state::{
    CkBtcMinterState, FinalizedBtcRetrieval, FinalizedStatus, InFlightStatus, RetrieveBtcRequest,
    SubmittedBtcTransaction, MAX_FINALIZED_REQUESTS,
};
use ckbtc_minter::utxo::{OutPoint, Utxo};

const MINUTE: u64 = 60_000_000_000;

fn utxo(tag: u8, value: u64) -> Utxo {
    Utxo { outpoint: OutPoint { txid: [tag; 32], vout: 0 }, value }
}

fn account(tag: u8) -> Account {
    Account { owner: Principal::from_slice(&[tag]).unwrap(), subaccount: None }
}

fn request(block_index: u64, amount: u64) -> RetrieveBtcRequest {
    RetrieveBtcRequest {
        block_index,
        address: BitcoinAddress::P2wpkhV0([block_index as u8; 20]),
        amount,
        received_at: 1_000,
    }
}

fn new_state() -> CkBtcMinterState {
    CkBtcMinterState::new(Network::Testnet, "key".to_string(), 6, 100)
}

#[test]
fn a_new_state_is_empty() {
    let state = new_state();
    assert_eq!(state.btc_network, Network::Testnet);
    assert_eq!(state.ecdsa_key_name, "key");
    assert_eq!(state.ecdsa_public_key, None);
    assert_eq!(state.min_confirmations, 6);
    assert!(state.pending_retrieve_btc_requests.is_empty());
    assert!(state.requests_in_flight.is_empty());
    assert!(state.submitted_transactions.is_empty());
    assert!(state.finalized_requests.is_empty());
    assert!(state.available_utxos.is_empty());
    assert!(state.utxo_owners.is_empty());
    assert!(!state.is_heartbeat_running);
}

#[test]
fn enqueue_keeps_the_order_of_arrival() {
    let mut state = new_state();
    assert!(state.enqueue(request(3, 30)));
    assert!(state.enqueue(request(1, 10)));
    assert!(state.enqueue(request(2, 20)));
    assert_eq!(
        state.pending_retrieve_btc_requests,
        vec![request(3, 30), request(1, 10), request(2, 20)]
    );
}

#[test]
fn enqueue_rejects_a_block_index_that_is_pending() {
    let mut state = new_state();
    assert!(state.enqueue(request(1, 10)));
    assert!(!state.enqueue(request(1, 99)));
    assert_eq!(state.pending_retrieve_btc_requests, vec![request(1, 10)]);
}

#[test]
fn enqueue_rejects_a_block_index_that_is_in_flight_sent_or_finished() {
    let mut state = new_state();
    state.push_in_flight_request(1, InFlightStatus::Signing);
    state.add_utxos(account(1), vec![utxo(1, 100)]);
    let spent = state.available_utxos.remove_at(0);
    state.push_in_flight_request(2, InFlightStatus::Signing);
    state.push_submitted_transaction(SubmittedBtcTransaction {
        txid: [9; 32],
        requests: vec![request(2, 20)],
        used_utxos: vec![spent],
        change_output: None,
        submitted_at: 5,
    });
    state.push_finalized_request(FinalizedBtcRetrieval {
        request: request(3, 30),
        state: FinalizedStatus::AmountTooLow,
    });
    assert!(!state.enqueue(request(1, 1)));
    assert!(!state.enqueue(request(2, 1)));
    assert!(!state.enqueue(request(3, 1)));
    assert!(state.enqueue(request(4, 1)));
    assert!(state.has_request(1) && state.has_request(2) && state.has_request(3));
    assert!(state.has_request(4));
    assert!(!state.has_request(5));
}

#[test]
fn a_batch_forms_with_enough_requests() {
    let mut state = new_state();
    assert!(!state.can_form_a_batch(2, 0));
    assert!(state.can_form_a_batch(0, 0));
    state.enqueue(request(1, 10));
    assert!(!state.can_form_a_batch(2, 1_000));
    state.enqueue(request(2, 10));
    assert!(state.can_form_a_batch(2, 1_000));
}

#[test]
fn a_batch_forms_once_the_oldest_request_has_waited_long_enough() {
    let mut state = new_state();
    state.enqueue(request(1, 10));
    // Six confirmations on the test network take six minutes.
    assert!(!state.can_form_a_batch(20, 1_000 + 6 * MINUTE));
    assert!(state.can_form_a_batch(20, 1_000 + 6 * MINUTE + 1));
    assert!(!state.can_form_a_batch(20, 0));
}

#[test]
fn build_batch_drains_the_queue_from_the_front() {
    let mut state = CkBtcMinterState::new(Network::Testnet, "key".to_string(), 6, 2);
    for i in 1..=5 {
        state.enqueue(request(i, 10 * i));
    }
    assert_eq!(state.build_batch(), vec![request(1, 10), request(2, 20)]);
    assert_eq!(state.build_batch(), vec![request(3, 30), request(4, 40)]);
    assert_eq!(state.build_batch(), vec![request(5, 50)]);
    assert_eq!(state.build_batch(), vec![]);
    assert!(state.pending_retrieve_btc_requests.is_empty());
}

#[test]
fn in_flight_status_is_inserted_and_updated() {
    let mut state = new_state();
    state.push_in_flight_request(7, InFlightStatus::Signing);
    assert_eq!(state.requests_in_flight.get(&7), Some(&InFlightStatus::Signing));
    state.push_in_flight_request(7, InFlightStatus::Sending { txid: [1; 32] });
    assert_eq!(
        state.requests_in_flight.get(&7),
        Some(&InFlightStatus::Sending { txid: [1; 32] })
    );
    assert_eq!(state.requests_in_flight.len(), 1);
}

#[test]
fn requests_return_to_the_front_of_the_queue_in_order() {
    let mut state = new_state();
    state.enqueue(request(3, 30));
    state.push_in_flight_request(1, InFlightStatus::Signing);
    state.push_in_flight_request(2, InFlightStatus::Signing);
    state.push_from_in_flight_to_pending_requests(vec![request(1, 10), request(2, 20)]);
    assert_eq!(
        state.pending_retrieve_btc_requests,
        vec![request(1, 10), request(2, 20), request(3, 30)]
    );
    assert!(state.requests_in_flight.is_empty());
}

#[test]
fn the_history_is_bounded() {
    let mut state = new_state();
    assert_eq!(MAX_FINALIZED_REQUESTS, 100);
    for i in 0..105u64 {
        state.push_finalized_request(FinalizedBtcRetrieval {
            request: request(i, 1),
            state: FinalizedStatus::AmountTooLow,
        });
    }
    assert_eq!(state.finalized_requests.len(), 100);
    assert_eq!(state.finalized_requests[0].request.block_index, 5);
    assert_eq!(state.finalized_requests[99].request.block_index, 104);
}

#[test]
fn add_utxos_passes_over_known_outpoints() {
    let mut state = new_state();
    state.add_utxos(account(1), vec![utxo(2, 20), utxo(1, 10), utxo(2, 99)]);
    assert_eq!(state.available_utxos.to_vec(), vec![utxo(1, 10), utxo(2, 20)]);
    assert_eq!(state.new_utxos(&vec![utxo(1, 10), utxo(3, 30), utxo(3, 31)]), vec![utxo(3, 30)]);
    state.add_utxos(account(2), vec![utxo(1, 10), utxo(3, 30)]);
    assert_eq!(state.available_utxos.to_vec(), vec![utxo(1, 10), utxo(2, 20), utxo(3, 30)]);
    assert_eq!(state.account_of(&utxo(1, 0).outpoint), Some(account(1)));
    assert_eq!(state.account_of(&utxo(3, 0).outpoint), Some(account(2)));
    assert_eq!(state.account_of(&utxo(4, 0).outpoint), None);
}

#[test]
fn finalize_transaction_moves_the_requests_to_the_history() {
    let mut state = new_state();
    state.add_utxos(account(1), vec![utxo(1, 100), utxo(2, 200)]);
    let spent = state.available_utxos.remove_at(0);
    state.push_in_flight_request(1, InFlightStatus::Signing);
    state.push_in_flight_request(2, InFlightStatus::Signing);
    state.push_submitted_transaction(SubmittedBtcTransaction {
        txid: [9; 32],
        requests: vec![request(1, 10), request(2, 20)],
        used_utxos: vec![spent],
        change_output: Some(ChangeOutput { vout: 2, value: 300 }),
        submitted_at: 5,
    });
    assert!(state.requests_in_flight.is_empty());
    assert_eq!(state.submitted_transactions.len(), 1);

    assert!(!state.finalize_transaction(&[8; 32]));
    assert_eq!(state.submitted_transactions.len(), 1);

    assert!(state.finalize_transaction(&[9; 32]));
    assert!(state.submitted_transactions.is_empty());
    assert_eq!(
        state.finalized_requests,
        vec![
            FinalizedBtcRetrieval {
                request: request(1, 10),
                state: FinalizedStatus::Confirmed { txid: [9; 32] },
            },
            FinalizedBtcRetrieval {
                request: request(2, 20),
                state: FinalizedStatus::Confirmed { txid: [9; 32] },
            },
        ]
    );
    assert_eq!(state.account_of(&utxo(1, 0).outpoint), None);
    assert_eq!(state.account_of(&utxo(2, 0).outpoint), Some(account(1)));
    assert_eq!(state.available_utxos.to_vec(), vec![utxo(2, 200)]);
    assert!(!state.finalize_transaction(&[9; 32]));
}

#[test]
fn only_one_heartbeat_runs_at_a_time() {
    let mut state = new_state();
    assert!(state.try_start_heartbeat());
    assert!(!state.try_start_heartbeat());
    assert!(state.is_heartbeat_running);
    state.end_heartbeat();
    assert!(!state.is_heartbeat_running);
    assert!(state.try_start_heartbeat());
}

#[test]
fn the_master_key_is_set_once() {
    let mut state = new_state();
    let first = ECDSAPublicKey { public_key: vec![2; 33], chain_code: vec![1; 32] };
    let second = ECDSAPublicKey { public_key: vec![3; 33], chain_code: vec![2; 32] };
    assert!(state.init_ecdsa_public_key(first.clone()));
    assert!(!state.init_ecdsa_public_key(second));
    assert_eq!(state.ecdsa_public_key, Some(first));
}
