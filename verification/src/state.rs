//! The state of the minter: the queue of requests, the requests in flight,
//! the transactions sent and not yet confirmed, the history of finished
//! requests, and the outputs that the minter owns.

use std::collections::BTreeMap;
use vstd::prelude::*;
use crate::address::{Account, BitcoinAddress, ECDSAPublicKey, Network};
use crate::builder::ChangeOutput;
use crate::utxo::{
    OutPoint, Utxo, UtxoSet, distinct_outpoints, holds_outpoint, merged, strictly_ordered,
    union_of,
};

verus! {

/// Number of finished requests that the history keeps.
pub const MAX_FINALIZED_REQUESTS: usize = 100;

/// A request to send an amount to a Bitcoin address.
#[derive(Clone, Copy, Debug, PartialEq, Eq)]
pub struct RetrieveBtcRequest {
    /// The ledger block that burned the tokens; it identifies the request.
    pub block_index: u64,
    /// Where to send the amount.
    pub address: BitcoinAddress,
    /// The amount, fee included.
    pub amount: u64,
    /// When the request came in, in nanoseconds.
    pub received_at: u64,
}

/// How far a request in flight has come.
#[derive(Clone, Copy, Debug, PartialEq, Eq)]
pub enum InFlightStatus {
    /// Its transaction is being signed.
    Signing,
    /// Its transaction is signed and being sent.
    Sending { txid: [u8; 32] },
}

/// A transaction that was sent and is not yet known to be confirmed.
#[derive(Clone, Debug, PartialEq, Eq)]
pub struct SubmittedBtcTransaction {
    pub txid: [u8; 32],
    /// The requests that the transaction pays.
    pub requests: Vec<RetrieveBtcRequest>,
    /// The outputs that the transaction spends.
    pub used_utxos: Vec<Utxo>,
    /// The output that returns the change, if any.
    pub change_output: Option<ChangeOutput>,
    /// When the transaction was sent, in nanoseconds.
    pub submitted_at: u64,
}

/// How a request ended.
#[derive(Clone, Copy, Debug, PartialEq, Eq)]
pub enum FinalizedStatus {
    /// The amount did not cover the fee.
    AmountTooLow,
    /// The transaction that pays the request is confirmed.
    Confirmed { txid: [u8; 32] },
}

/// A finished request.
#[derive(Clone, Copy, Debug, PartialEq, Eq)]
pub struct FinalizedBtcRetrieval {
    pub request: RetrieveBtcRequest,
    pub state: FinalizedStatus,
}

/// An output that the minter has seen, and the account whose address it
/// was sent to.
#[derive(Clone, Copy, Debug, PartialEq, Eq)]
pub struct OwnedUtxo {
    pub utxo: Utxo,
    pub account: Account,
}

/// What a submitted transaction holds.
pub struct SubmittedView {
    pub txid: [u8; 32],
    pub requests: Seq<RetrieveBtcRequest>,
    pub used_utxos: Seq<Utxo>,
    pub change_output: Option<ChangeOutput>,
    pub submitted_at: u64,
}

impl View for SubmittedBtcTransaction {
    type V = SubmittedView;

    open spec fn view(&self) -> SubmittedView {
        SubmittedView {
            txid: self.txid,
            requests: self.requests@,
            used_utxos: self.used_utxos@,
            change_output: self.change_output,
            submitted_at: self.submitted_at,
        }
    }
}

/// What the state of the minter holds.
pub struct StateView {
    pub btc_network: Network,
    pub ecdsa_key_name: Seq<char>,
    pub ecdsa_public_key: Option<(Seq<u8>, Seq<u8>)>,
    pub min_confirmations: u32,
    pub max_requests_per_batch: usize,
    pub pending: Seq<RetrieveBtcRequest>,
    pub in_flight: Map<u64, InFlightStatus>,
    pub submitted: Seq<SubmittedView>,
    pub finalized: Seq<FinalizedBtcRetrieval>,
    pub available: Seq<Utxo>,
    pub owners: Seq<OwnedUtxo>,
    pub is_heartbeat_running: bool,
}

/// Whether a request of the sequence has the given block index.
pub open spec fn has_index(requests: Seq<RetrieveBtcRequest>, b: u64) -> bool {
    exists|i: int| 0 <= i < requests.len() && (#[trigger] requests[i]).block_index == b
}

/// Requests with pairwise different block indices.
pub open spec fn distinct_indices(requests: Seq<RetrieveBtcRequest>) -> bool {
    forall|i: int, j: int|
        0 <= i < j < requests.len() ==> (#[trigger] requests[i]).block_index != (
        #[trigger] requests[j]).block_index
}

/// Whether one of the transactions pays a request with the given block index.
pub open spec fn submitted_has_index(submitted: Seq<SubmittedView>, b: u64) -> bool {
    exists|t: int| 0 <= t < submitted.len() && has_index((#[trigger] submitted[t]).requests, b)
}

/// Whether the history holds a request with the given block index.
pub open spec fn finalized_has_index(finalized: Seq<FinalizedBtcRetrieval>, b: u64) -> bool {
    exists|i: int| 0 <= i < finalized.len() && (#[trigger] finalized[i]).request.block_index == b
}

/// Whether one of the transactions spends the given outpoint.
pub open spec fn submitted_spends(submitted: Seq<SubmittedView>, o: OutPoint) -> bool {
    exists|t: int| 0 <= t < submitted.len() && holds_outpoint((#[trigger] submitted[t]).used_utxos, o)
}

/// Whether the minter has seen an output at the given outpoint.
pub open spec fn knows_outpoint(owners: Seq<OwnedUtxo>, o: OutPoint) -> bool {
    exists|i: int| 0 <= i < owners.len() && (#[trigger] owners[i]).utxo.outpoint == o
}

/// Whether the minter knows an output at the given outpoint as one of the
/// given account.
pub open spec fn owned_at(owners: Seq<OwnedUtxo>, o: OutPoint, account: Account) -> bool {
    exists|i: int|
        0 <= i < owners.len() && (#[trigger] owners[i]).utxo.outpoint == o && owners[i].account
            == account
}

impl StateView {
    /// Whether a request with the given block index is anywhere in the
    /// state: waiting, in flight, sent, or finished.
    pub open spec fn has_request(self, b: u64) -> bool {
        ||| has_index(self.pending, b)
        ||| self.in_flight.contains_key(b)
        ||| submitted_has_index(self.submitted, b)
        ||| finalized_has_index(self.finalized, b)
    }

    /// No block index occurs twice: not within the queue, not within the
    /// transactions sent, not within the history, and not in two of the four
    /// places.
    pub open spec fn indices_unique(self) -> bool {
        &&& distinct_indices(self.pending)
        &&& forall|t: int|
            0 <= t < self.submitted.len() ==> distinct_indices((#[trigger] self.submitted[t]).requests)
        &&& forall|t: int, u: int, b: u64|
            0 <= t < u < self.submitted.len() && #[trigger] has_index(self.submitted[t].requests, b)
                ==> !#[trigger] has_index(self.submitted[u].requests, b)
        &&& forall|i: int, j: int|
            0 <= i < j < self.finalized.len() ==> (#[trigger] self.finalized[i]).request.block_index
                != (#[trigger] self.finalized[j]).request.block_index
        &&& forall|b: u64| #[trigger]
            has_index(self.pending, b) ==> !self.in_flight.contains_key(b) && !submitted_has_index(
                self.submitted,
                b,
            ) && !finalized_has_index(self.finalized, b)
        &&& forall|b: u64| #[trigger]
            self.in_flight.contains_key(b) ==> !submitted_has_index(self.submitted, b)
                && !finalized_has_index(self.finalized, b)
        &&& forall|b: u64| #[trigger]
            submitted_has_index(self.submitted, b) ==> !finalized_has_index(self.finalized, b)
    }

    /// No output that a submitted transaction spends is available, every
    /// submitted transaction spends at least one output, and no two of them
    /// spend the same.
    pub open spec fn spent_not_available(self) -> bool {
        &&& forall|i: int|
            0 <= i < self.available.len() ==> !submitted_spends(
                self.submitted,
                (#[trigger] self.available[i]).outpoint,
            )
        &&& forall|t: int|
            0 <= t < self.submitted.len() ==> (#[trigger] self.submitted[t]).used_utxos.len() > 0
        &&& forall|t: int, u: int, o: OutPoint|
            0 <= t < u < self.submitted.len() && #[trigger] holds_outpoint(
                self.submitted[t].used_utxos,
                o,
            ) ==> !#[trigger] holds_outpoint(self.submitted[u].used_utxos, o)
    }

    /// The minter knows the account of every output it may spend or has
    /// spent in a submitted transaction, and knows one output at most for
    /// each outpoint.
    pub open spec fn owners_known(self) -> bool {
        &&& forall|i: int, j: int|
            0 <= i < j < self.owners.len() ==> (#[trigger] self.owners[i]).utxo.outpoint != (
            #[trigger] self.owners[j]).utxo.outpoint
        &&& forall|i: int|
            0 <= i < self.available.len() ==> knows_outpoint(
                self.owners,
                (#[trigger] self.available[i]).outpoint,
            )
        &&& forall|o: OutPoint| #[trigger]
            submitted_spends(self.submitted, o) ==> knows_outpoint(self.owners, o)
    }

    /// The invariants of the state.
    pub open spec fn wf(self) -> bool {
        &&& strictly_ordered(self.available)
        &&& self.indices_unique()
        &&& self.spent_not_available()
        &&& self.owners_known()
        &&& self.finalized.len() <= MAX_FINALIZED_REQUESTS
    }
}

/// The state of the minter.
#[derive(Clone, Debug, PartialEq, Eq)]
pub struct CkBtcMinterState {
    /// The network that the minter settles on.
    pub btc_network: Network,
    /// Name of the key that signs the transactions.
    pub ecdsa_key_name: String,
    /// The master public key, once it has been fetched.
    pub ecdsa_public_key: Option<ECDSAPublicKey>,
    /// Confirmations after which an output counts.
    pub min_confirmations: u32,
    /// Most requests that one transaction pays.
    pub max_requests_per_batch: usize,
    /// The requests that wait for a transaction, oldest first.
    pub pending_retrieve_btc_requests: Vec<RetrieveBtcRequest>,
    /// The requests whose transaction is being signed or sent.
    pub requests_in_flight: BTreeMap<u64, InFlightStatus>,
    /// The transactions sent and not yet confirmed.
    pub submitted_transactions: Vec<SubmittedBtcTransaction>,
    /// The most recent finished requests, oldest first.
    pub finalized_requests: Vec<FinalizedBtcRetrieval>,
    /// The outputs that the minter may spend.
    pub available_utxos: UtxoSet,
    /// Every output that the minter has seen and not forgotten, with the
    /// account it belongs to.
    pub utxo_owners: Vec<OwnedUtxo>,
    /// Whether a heartbeat is under way.
    pub is_heartbeat_running: bool,
}

impl View for CkBtcMinterState {
    type V = StateView;

    open spec fn view(&self) -> StateView {
        StateView {
            btc_network: self.btc_network,
            ecdsa_key_name: self.ecdsa_key_name@,
            ecdsa_public_key: match self.ecdsa_public_key {
                Some(key) => Some((key.public_key@, key.chain_code@)),
                None => None,
            },
            min_confirmations: self.min_confirmations,
            max_requests_per_batch: self.max_requests_per_batch,
            pending: self.pending_retrieve_btc_requests@,
            in_flight: self.requests_in_flight@,
            submitted: self.submitted_transactions@.map_values(|t: SubmittedBtcTransaction| t@),
            finalized: self.finalized_requests@,
            available: self.available_utxos@,
            owners: self.utxo_owners@,
            is_heartbeat_running: self.is_heartbeat_running,
        }
    }
}

impl CkBtcMinterState {
    /// The invariants of the state hold.
    pub open spec fn wf(&self) -> bool {
        self@.wf()
    }

    /// A state without requests, transactions or outputs.
    pub fn new(
        btc_network: Network,
        ecdsa_key_name: String,
        min_confirmations: u32,
        max_requests_per_batch: usize,
    ) -> (state: CkBtcMinterState)
        ensures
            state.wf(),
            state@ == (StateView {
                btc_network,
                ecdsa_key_name: ecdsa_key_name@,
                ecdsa_public_key: None,
                min_confirmations,
                max_requests_per_batch,
                pending: Seq::empty(),
                in_flight: Map::empty(),
                submitted: Seq::empty(),
                finalized: Seq::empty(),
                available: Seq::empty(),
                owners: Seq::empty(),
                is_heartbeat_running: false,
            }),
    {
        let state = CkBtcMinterState {
            btc_network,
            ecdsa_key_name,
            ecdsa_public_key: None,
            min_confirmations,
            max_requests_per_batch,
            pending_retrieve_btc_requests: Vec::new(),
            requests_in_flight: BTreeMap::new(),
            submitted_transactions: Vec::new(),
            finalized_requests: Vec::new(),
            available_utxos: UtxoSet::new(),
            utxo_owners: Vec::new(),
            is_heartbeat_running: false,
        };
        assert(state@.submitted =~= Seq::empty());
        state
    }
}

/// Whether a request of the list has the given block index.
pub fn contains_index(requests: &Vec<RetrieveBtcRequest>, b: u64) -> (r: bool)
    ensures
        r == has_index(requests@, b),
{
    let mut i: usize = 0;
    while i < requests.len()
        invariant
            i <= requests@.len(),
            forall|k: int| 0 <= k < i ==> (#[trigger] requests@[k]).block_index != b,
        decreases requests@.len() - i,
    {
        if requests[i].block_index == b {
            return true;
        }
        i = i + 1;
    }
    false
}

/// The in-flight map without the block indices of the given requests.
pub open spec fn without_indices(
    in_flight: Map<u64, InFlightStatus>,
    requests: Seq<RetrieveBtcRequest>,
) -> Map<u64, InFlightStatus> {
    in_flight.remove_keys(Set::new(|b: u64| has_index(requests, b)))
}

/// The age that decides whether the oldest request has waited long enough.
pub open spec fn waited(now: u64, received_at: u64) -> int {
    if now >= received_at {
        now - received_at
    } else {
        0
    }
}

/// Appends copies of the requests to a list.
pub fn append_requests(list: &mut Vec<RetrieveBtcRequest>, requests: &Vec<RetrieveBtcRequest>)
    ensures
        final(list)@ == old(list)@ + requests@,
{
    let ghost before = list@;
    let mut i: usize = 0;
    assert(list@ =~= before + requests@.take(0));
    while i < requests.len()
        invariant
            i <= requests@.len(),
            list@ == before + requests@.take(i as int),
        decreases requests@.len() - i,
    {
        list.push(requests[i]);
        assert(list@ =~= before + requests@.take(i + 1));
        i = i + 1;
    }
    assert(requests@.take(i as int) =~= requests@);
}

impl CkBtcMinterState {
    /// Strikes the given requests from the requests in flight.
    fn strike_in_flight(&mut self, requests: &Vec<RetrieveBtcRequest>)
        ensures
            final(self)@ == (StateView {
                in_flight: without_indices(old(self)@.in_flight, requests@),
                ..old(self)@
            }),
    {
        broadcast use vstd::std_specs::btree::group_btree_axioms;

        let ghost before = self@;
        let mut i: usize = 0;
        assert(without_indices(before.in_flight, requests@.take(0)) =~= before.in_flight);
        while i < requests.len()
            invariant
                i <= requests@.len(),
                self@ == (StateView {
                    in_flight: without_indices(before.in_flight, requests@.take(i as int)),
                    ..before
                }),
            decreases requests@.len() - i,
        {
            let request: RetrieveBtcRequest = requests[i];
            self.requests_in_flight.remove(&request.block_index);
            proof {
                let done = requests@.take(i as int);
                let next = requests@.take(i + 1);
                assert forall|b: u64| has_index(next, b) <==> (has_index(done, b) || b
                    == request.block_index) by {
                    if has_index(next, b) {
                        let k = choose|k: int|
                            0 <= k < next.len() && (#[trigger] next[k]).block_index == b;
                        if k < i {
                            assert(done[k].block_index == b);
                        }
                    }
                    if has_index(done, b) {
                        let k = choose|k: int|
                            0 <= k < done.len() && (#[trigger] done[k]).block_index == b;
                        assert(next[k].block_index == b);
                    }
                    assert(next[i as int].block_index == request.block_index);
                }
                assert(self.requests_in_flight@ =~= without_indices(before.in_flight, next));
            }
            i = i + 1;
        }
        assert(requests@.take(i as int) =~= requests@);
    }

    /// Whether a request with the given block index is anywhere in the state.
    pub fn has_request(&self, b: u64) -> (r: bool)
        ensures
            r == self@.has_request(b),
    {
        broadcast use vstd::std_specs::btree::group_btree_axioms;

        if contains_index(&self.pending_retrieve_btc_requests, b) {
            return true;
        }
        if self.requests_in_flight.contains_key(&b) {
            return true;
        }
        let mut t: usize = 0;
        while t < self.submitted_transactions.len()
            invariant
                t <= self.submitted_transactions@.len(),
                forall|k: int| 0 <= k < t ==> !has_index((#[trigger] self@.submitted[k]).requests, b),
            decreases self.submitted_transactions@.len() - t,
        {
            if contains_index(&self.submitted_transactions[t].requests, b) {
                assert(has_index(self@.submitted[t as int].requests, b));
                return true;
            }
            t = t + 1;
        }
        let mut i: usize = 0;
        while i < self.finalized_requests.len()
            invariant
                i <= self.finalized_requests@.len(),
                forall|k: int|
                    0 <= k < i ==> (#[trigger] self.finalized_requests@[k]).request.block_index != b,
            decreases self.finalized_requests@.len() - i,
        {
            if self.finalized_requests[i].request.block_index == b {
                return true;
            }
            i = i + 1;
        }
        false
    }

    /// Puts a request at the end of the queue, unless a request with its
    /// block index is in the state already. Says whether the request was
    /// accepted.
    pub fn enqueue(&mut self, request: RetrieveBtcRequest) -> (accepted: bool)
        requires
            old(self).wf(),
        ensures
            final(self).wf(),
            accepted == !old(self)@.has_request(request.block_index),
            accepted ==> final(self)@ == (StateView {
                pending: old(self)@.pending.push(request),
                ..old(self)@
            }),
            !accepted ==> final(self)@ == old(self)@,
    {
        if self.has_request(request.block_index) {
            return false;
        }
        let ghost before = self@;
        self.pending_retrieve_btc_requests.push(request);
        proof {
            let after = self@;
            assert forall|b: u64| #[trigger] has_index(after.pending, b) implies has_index(
                before.pending,
                b,
            ) || b == request.block_index by {
                let i = choose|i: int|
                    0 <= i < after.pending.len() && (#[trigger] after.pending[i]).block_index == b;
                if i < before.pending.len() {
                    assert(before.pending[i].block_index == b);
                }
            }
            assert forall|i: int, j: int| 0 <= i < j < after.pending.len() implies (
            #[trigger] after.pending[i]).block_index != (#[trigger] after.pending[j]).block_index by {
                if j == before.pending.len() {
                    assert(before.pending[i].block_index != request.block_index);
                } else {
                    assert(before.pending[i].block_index != before.pending[j].block_index);
                }
            }
        }
        true
    }

    /// Whether it is time to make a transaction: there are `min_pending`
    /// requests or more, or the oldest request has waited longer than a
    /// transaction takes to be confirmed, so that waiting on would gain
    /// nothing.
    pub fn can_form_a_batch(&self, min_pending: usize, now: u64) -> (r: bool)
        ensures
            r == (self@.pending.len() >= min_pending || (self@.pending.len() > 0 && waited(
                now,
                self@.pending[0].received_at,
            ) > self.min_confirmations * crate::estimates::block_time(self.btc_network))),
    {
        if self.pending_retrieve_btc_requests.len() >= min_pending {
            return true;
        }
        if self.pending_retrieve_btc_requests.len() == 0 {
            return false;
        }
        let deadline: u128 = crate::estimates::finalization_time_estimate(
            self.min_confirmations,
            self.btc_network,
        );
        let age: u64 = now.saturating_sub(self.pending_retrieve_btc_requests[0].received_at);
        (age as u128) > deadline
    }

    /// Takes the requests for the next transaction from the front of the
    /// queue, in their order: all of them, or as many as one transaction
    /// pays.
    pub fn build_batch(&mut self) -> (batch: Vec<RetrieveBtcRequest>)
        ensures
            batch@ == old(self)@.pending.take(batch@.len() as int),
            batch@.len() == if old(self)@.pending.len() <= old(self).max_requests_per_batch {
                old(self)@.pending.len()
            } else {
                old(self).max_requests_per_batch as nat
            },
            final(self)@ == (StateView {
                pending: old(self)@.pending.skip(batch@.len() as int),
                ..old(self)@
            }),
            old(self).wf() ==> final(self).wf(),
    {
        let ghost before = self@;
        let n: usize = if self.pending_retrieve_btc_requests.len() <= self.max_requests_per_batch {
            self.pending_retrieve_btc_requests.len()
        } else {
            self.max_requests_per_batch
        };
        let mut batch: Vec<RetrieveBtcRequest> = Vec::new();
        let mut rest: Vec<RetrieveBtcRequest> = Vec::new();
        let mut i: usize = 0;
        while i < self.pending_retrieve_btc_requests.len()
            invariant
                i <= self.pending_retrieve_btc_requests@.len(),
                n <= self.pending_retrieve_btc_requests@.len(),
                self@ == before,
                batch@ == before.pending.take(if i <= n { i as int } else { n as int }),
                rest@ == before.pending.subrange(n as int, if i <= n { n as int } else { i as int }),
            decreases self.pending_retrieve_btc_requests@.len() - i,
        {
            let request: RetrieveBtcRequest = self.pending_retrieve_btc_requests[i];
            if i < n {
                batch.push(request);
                assert(batch@ =~= before.pending.take(i + 1));
            } else {
                rest.push(request);
                assert(rest@ =~= before.pending.subrange(n as int, i + 1));
            }
            i = i + 1;
        }
        assert(rest@ =~= before.pending.skip(n as int));
        self.pending_retrieve_btc_requests = rest;
        proof {
            let after = self@;
            if before.wf() {
                assert forall|b: u64| #[trigger] has_index(after.pending, b) implies has_index(
                    before.pending,
                    b,
                ) by {
                    let k = choose|k: int|
                        0 <= k < after.pending.len() && (#[trigger] after.pending[k]).block_index
                            == b;
                    assert(before.pending[k + n].block_index == b);
                }
                assert forall|a: int, c: int| 0 <= a < c < after.pending.len() implies (
                #[trigger] after.pending[a]).block_index != (#[trigger] after.pending[c]).block_index by {
                    assert(before.pending[a + n].block_index != before.pending[c + n].block_index);
                }
            }
        }
        batch
    }

    /// Records how far a request in flight has come.
    pub fn push_in_flight_request(&mut self, block_index: u64, status: InFlightStatus)
        ensures
            final(self)@ == (StateView {
                in_flight: old(self)@.in_flight.insert(block_index, status),
                ..old(self)@
            }),
            old(self).wf() && !has_index(old(self)@.pending, block_index) && !submitted_has_index(
                old(self)@.submitted,
                block_index,
            ) && !finalized_has_index(old(self)@.finalized, block_index) ==> final(self).wf(),
    {
        broadcast use vstd::std_specs::btree::group_btree_axioms;

        self.requests_in_flight.insert(block_index, status);
    }

    /// Puts requests that were in flight back at the front of the queue, in
    /// their order, and strikes them from the requests in flight.
    pub fn push_from_in_flight_to_pending_requests(&mut self, requests: Vec<RetrieveBtcRequest>)
        ensures
            final(self)@ == (StateView {
                pending: requests@ + old(self)@.pending,
                in_flight: without_indices(old(self)@.in_flight, requests@),
                ..old(self)@
            }),
            old(self).wf() && distinct_indices(requests@) && (forall|i: int|
                0 <= i < requests@.len() ==> old(self)@.in_flight.contains_key(
                    (#[trigger] requests@[i]).block_index,
                )) ==> final(self).wf(),
    {
        broadcast use vstd::std_specs::btree::group_btree_axioms;

        let ghost before = self@;
        self.strike_in_flight(&requests);
        let mut pending: Vec<RetrieveBtcRequest> = Vec::new();
        crate::state::append_requests(&mut pending, &requests);
        let mut k: usize = 0;
        assert(pending@ =~= requests@ + before.pending.take(0));
        while k < self.pending_retrieve_btc_requests.len()
            invariant
                k <= self.pending_retrieve_btc_requests@.len(),
                self@ == (StateView {
                    in_flight: without_indices(before.in_flight, requests@),
                    ..before
                }),
                pending@ == requests@ + before.pending.take(k as int),
            decreases self.pending_retrieve_btc_requests@.len() - k,
        {
            pending.push(self.pending_retrieve_btc_requests[k]);
            assert(pending@ =~= requests@ + before.pending.take(k + 1));
            k = k + 1;
        }
        assert(before.pending.take(k as int) =~= before.pending);
        self.pending_retrieve_btc_requests = pending;
        proof {
            let after = self@;
            if before.wf() && distinct_indices(requests@) && (forall|i: int|
                0 <= i < requests@.len() ==> before.in_flight.contains_key(
                    (#[trigger] requests@[i]).block_index,
                )) {
                let m = requests@.len() as int;
                assert forall|b: u64| #[trigger] has_index(after.pending, b) implies (has_index(
                    requests@,
                    b,
                ) || has_index(before.pending, b)) by {
                    let q = choose|q: int|
                        0 <= q < after.pending.len() && (#[trigger] after.pending[q]).block_index
                            == b;
                    if q < m {
                        assert(requests@[q].block_index == b);
                    } else {
                        assert(before.pending[q - m].block_index == b);
                    }
                }
                assert forall|b: u64| has_index(requests@, b) implies before.in_flight.contains_key(
                    b,
                ) by {
                    let q = choose|q: int|
                        0 <= q < requests@.len() && (#[trigger] requests@[q]).block_index == b;
                }
                assert forall|a: int, c: int| 0 <= a < c < after.pending.len() implies (
                #[trigger] after.pending[a]).block_index != (#[trigger] after.pending[c]).block_index by {
                    if c < m {
                        assert(requests@[a].block_index != requests@[c].block_index);
                    } else if a >= m {
                        assert(before.pending[a - m].block_index != before.pending[c
                            - m].block_index);
                    } else {
                        assert(has_index(requests@, requests@[a].block_index));
                        assert(has_index(before.pending, before.pending[c - m].block_index));
                    }
                }
            }
        }
    }
}

/// The history after one more request has finished: the request comes last,
/// and the oldest entries go where the history would grow beyond its bound.
pub open spec fn recorded(
    finalized: Seq<FinalizedBtcRetrieval>,
    entry: FinalizedBtcRetrieval,
) -> Seq<FinalizedBtcRetrieval> {
    if finalized.len() >= MAX_FINALIZED_REQUESTS {
        finalized.skip(finalized.len() - MAX_FINALIZED_REQUESTS + 1).push(entry)
    } else {
        finalized.push(entry)
    }
}

/// The history after all the given requests have finished in the same way,
/// one after the other.
pub open spec fn recorded_all(
    finalized: Seq<FinalizedBtcRetrieval>,
    requests: Seq<RetrieveBtcRequest>,
    state: FinalizedStatus,
) -> Seq<FinalizedBtcRetrieval>
    decreases requests.len(),
{
    if requests.len() == 0 {
        finalized
    } else {
        recorded(
            recorded_all(finalized, requests.drop_last(), state),
            FinalizedBtcRetrieval { request: requests.last(), state },
        )
    }
}

/// Every request of the history came from the earlier history or from the
/// requests recorded, and the history keeps its bound.
pub proof fn lemma_recorded_all(
    finalized: Seq<FinalizedBtcRetrieval>,
    requests: Seq<RetrieveBtcRequest>,
    state: FinalizedStatus,
)
    requires
        finalized.len() <= MAX_FINALIZED_REQUESTS,
    ensures
        recorded_all(finalized, requests, state).len() <= MAX_FINALIZED_REQUESTS,
        forall|b: u64| #[trigger]
            finalized_has_index(recorded_all(finalized, requests, state), b) ==> finalized_has_index(
                finalized,
                b,
            ) || has_index(requests, b),
        distinct_indices(requests) && (forall|i: int, j: int|
            0 <= i < j < finalized.len() ==> (#[trigger] finalized[i]).request.block_index != (
            #[trigger] finalized[j]).request.block_index) && (forall|b: u64| #[trigger]
            has_index(requests, b) ==> !finalized_has_index(finalized, b)) ==> (forall|
            i: int,
            j: int,
        |
            0 <= i < j < recorded_all(finalized, requests, state).len() ==> (#[trigger] recorded_all(
                finalized,
                requests,
                state,
            )[i]).request.block_index != (#[trigger] recorded_all(
                finalized,
                requests,
                state,
            )[j]).request.block_index),
    decreases requests.len(),
{
    if requests.len() > 0 {
        let d = requests.drop_last();
        let last = requests.last();
        lemma_recorded_all(finalized, d, state);
        let mid = recorded_all(finalized, d, state);
        let entry = FinalizedBtcRetrieval { request: last, state };
        let out = recorded(mid, entry);
        let cut = if mid.len() >= MAX_FINALIZED_REQUESTS {
            mid.len() - MAX_FINALIZED_REQUESTS + 1
        } else {
            0
        };
        assert(out =~= mid.skip(cut).push(entry));
        assert forall|b: u64| #[trigger] finalized_has_index(out, b) implies finalized_has_index(
            finalized,
            b,
        ) || has_index(requests, b) by {
            let i = choose|i: int|
                0 <= i < out.len() && (#[trigger] out[i]).request.block_index == b;
            if i < out.len() - 1 {
                assert(mid[i + cut].request.block_index == b);
                assert(finalized_has_index(mid, b));
                if has_index(d, b) {
                    let k = choose|k: int| 0 <= k < d.len() && (#[trigger] d[k]).block_index == b;
                    assert(requests[k].block_index == b);
                }
            } else {
                assert(requests[requests.len() - 1].block_index == b);
            }
        }
        if distinct_indices(requests) && (forall|i: int, j: int|
            0 <= i < j < finalized.len() ==> (#[trigger] finalized[i]).request.block_index != (
            #[trigger] finalized[j]).request.block_index) && (forall|b: u64| #[trigger]
            has_index(requests, b) ==> !finalized_has_index(finalized, b)) {
            assert(distinct_indices(d)) by {
                assert forall|i: int, j: int| 0 <= i < j < d.len() implies (#[trigger] d[i]).block_index
                    != (#[trigger] d[j]).block_index by {
                    assert(requests[i].block_index != requests[j].block_index);
                }
            }
            assert forall|b: u64| #[trigger] has_index(d, b) implies !finalized_has_index(
                finalized,
                b,
            ) by {
                let k = choose|k: int| 0 <= k < d.len() && (#[trigger] d[k]).block_index == b;
                assert(requests[k].block_index == b);
                assert(has_index(requests, b));
            }
            assert forall|i: int, j: int| 0 <= i < j < out.len() implies (#[trigger] out[i]).request.block_index
                != (#[trigger] out[j]).request.block_index by {
                if j < out.len() - 1 {
                    assert(mid[i + cut].request.block_index != mid[j + cut].request.block_index);
                } else {
                    let b = out[i].request.block_index;
                    assert(mid[i + cut].request.block_index == b);
                    assert(finalized_has_index(mid, b));
                    if b == last.block_index {
                        assert(requests[requests.len() - 1].block_index == b);
                        assert(has_index(requests, b));
                        if has_index(d, b) {
                            let k = choose|k: int|
                                0 <= k < d.len() && (#[trigger] d[k]).block_index == b;
                            assert(requests[k].block_index != requests[requests.len()
                                - 1].block_index);
                        }
                    }
                }
            }
        }
    }
}

/// The outputs that the minter still knows once it has forgotten those that
/// sit at the outpoints of `used`.
pub open spec fn forgetting(owners: Seq<OwnedUtxo>, used: Seq<Utxo>) -> Seq<OwnedUtxo>
    decreases owners.len(),
{
    if owners.len() == 0 {
        owners
    } else if holds_outpoint(used, owners.last().utxo.outpoint) {
        forgetting(owners.drop_last(), used)
    } else {
        forgetting(owners.drop_last(), used).push(owners.last())
    }
}

/// What is known after forgetting: the outputs known before that do not sit
/// at a forgotten outpoint, still at pairwise different outpoints.
pub proof fn lemma_forgetting(owners: Seq<OwnedUtxo>, used: Seq<Utxo>)
    ensures
        forgetting(owners, used).len() <= owners.len(),
        forall|o: OutPoint| #[trigger]
            knows_outpoint(forgetting(owners, used), o) <==> (knows_outpoint(owners, o)
                && !holds_outpoint(used, o)),
        forall|x: OwnedUtxo| #[trigger]
            forgetting(owners, used).contains(x) <==> (owners.contains(x) && !holds_outpoint(
                used,
                x.utxo.outpoint,
            )),
        (forall|i: int, j: int|
            0 <= i < j < owners.len() ==> (#[trigger] owners[i]).utxo.outpoint != (
            #[trigger] owners[j]).utxo.outpoint) ==> (forall|i: int, j: int|
            0 <= i < j < forgetting(owners, used).len() ==> (#[trigger] forgetting(
                owners,
                used,
            )[i]).utxo.outpoint != (#[trigger] forgetting(owners, used)[j]).utxo.outpoint),
    decreases owners.len(),
{
    let out = forgetting(owners, used);
    if owners.len() > 0 {
        let d = owners.drop_last();
        let last = owners.last();
        lemma_forgetting(d, used);
        let fd = forgetting(d, used);
        assert forall|o: OutPoint| #[trigger] knows_outpoint(out, o) <==> (knows_outpoint(owners, o)
            && !holds_outpoint(used, o)) by {
            if knows_outpoint(out, o) {
                let i = choose|i: int| 0 <= i < out.len() && (#[trigger] out[i]).utxo.outpoint == o;
                if i < fd.len() {
                    assert(fd[i].utxo.outpoint == o);
                    assert(knows_outpoint(fd, o));
                    let k = choose|k: int| 0 <= k < d.len() && (#[trigger] d[k]).utxo.outpoint == o;
                    assert(owners[k].utxo.outpoint == o);
                } else {
                    assert(owners[owners.len() - 1].utxo.outpoint == o);
                }
            }
            if knows_outpoint(owners, o) && !holds_outpoint(used, o) {
                let k = choose|k: int| 0 <= k < owners.len() && (#[trigger] owners[k]).utxo.outpoint == o;
                if k < d.len() {
                    assert(d[k].utxo.outpoint == o);
                    assert(knows_outpoint(fd, o));
                    let i = choose|i: int| 0 <= i < fd.len() && (#[trigger] fd[i]).utxo.outpoint == o;
                    assert(out[i].utxo.outpoint == o);
                } else {
                    assert(out[out.len() - 1].utxo.outpoint == o);
                }
            }
        }
        assert forall|x: OwnedUtxo| #[trigger] out.contains(x) <==> (owners.contains(x)
            && !holds_outpoint(used, x.utxo.outpoint)) by {
            if out.contains(x) {
                let i = choose|i: int| 0 <= i < out.len() && out[i] == x;
                if i < fd.len() {
                    assert(fd[i] == x);
                    assert(fd.contains(x));
                    let k = choose|k: int| 0 <= k < d.len() && d[k] == x;
                    assert(owners[k] == x);
                } else {
                    assert(owners[owners.len() - 1] == x);
                }
            }
            if owners.contains(x) && !holds_outpoint(used, x.utxo.outpoint) {
                let k = choose|k: int| 0 <= k < owners.len() && owners[k] == x;
                if k < d.len() {
                    assert(d[k] == x);
                    assert(d.contains(x));
                    assert(fd.contains(x));
                    let i = choose|i: int| 0 <= i < fd.len() && fd[i] == x;
                    assert(out[i] == x);
                } else {
                    assert(out[out.len() - 1] == x);
                }
            }
        }
        if (forall|i: int, j: int|
            0 <= i < j < owners.len() ==> (#[trigger] owners[i]).utxo.outpoint != (
            #[trigger] owners[j]).utxo.outpoint) {
            assert forall|i: int, j: int| 0 <= i < j < d.len() implies (#[trigger] d[i]).utxo.outpoint
                != (#[trigger] d[j]).utxo.outpoint by {
                assert(owners[i].utxo.outpoint != owners[j].utxo.outpoint);
            }
            assert forall|i: int, j: int| 0 <= i < j < out.len() implies (#[trigger] out[i]).utxo.outpoint
                != (#[trigger] out[j]).utxo.outpoint by {
                if j < fd.len() {
                    assert(fd[i].utxo.outpoint != fd[j].utxo.outpoint);
                } else {
                    let o = out[i].utxo.outpoint;
                    assert(fd[i].utxo.outpoint == o);
                    assert(knows_outpoint(fd, o));
                    let k = choose|k: int| 0 <= k < d.len() && (#[trigger] d[k]).utxo.outpoint == o;
                    assert(owners[k].utxo.outpoint != owners[owners.len() - 1].utxo.outpoint);
                }
            }
        }
    }
}

impl CkBtcMinterState {
    /// Records a transaction that was sent, and strikes the requests it pays
    /// from the requests in flight.
    pub fn push_submitted_transaction(&mut self, tx: SubmittedBtcTransaction)
        ensures
            final(self)@ == (StateView {
                submitted: old(self)@.submitted.push(tx@),
                in_flight: without_indices(old(self)@.in_flight, tx.requests@),
                ..old(self)@
            }),
            old(self).wf() && old(self)@.can_submit(tx.requests@, tx.used_utxos@) ==> final(self).wf(),
    {
        let ghost before = self@;
        self.strike_in_flight(&tx.requests);
        self.submitted_transactions.push(tx);
        proof {
            let after = self@;
            assert(after.submitted =~= before.submitted.push(tx@));
            if before.wf() && before.can_submit(tx.requests@, tx.used_utxos@) {
                lemma_submit_keeps_invariants(before, tx@, after);
            }
        }
    }

    /// Puts a finished request into the history. Where the history is full,
    /// its oldest entry goes.
    pub fn push_finalized_request(&mut self, entry: FinalizedBtcRetrieval)
        ensures
            final(self)@ == (StateView {
                finalized: recorded(old(self)@.finalized, entry),
                ..old(self)@
            }),
            old(self).wf() && !old(self)@.has_request(entry.request.block_index) ==> final(self).wf(),
    {
        let ghost before = self@;
        let len: usize = self.finalized_requests.len();
        if len >= MAX_FINALIZED_REQUESTS {
            let cut: usize = len - MAX_FINALIZED_REQUESTS + 1;
            let mut kept: Vec<FinalizedBtcRetrieval> = Vec::new();
            let mut i: usize = cut;
            while i < len
                invariant
                    cut <= i <= len,
                    len == self.finalized_requests@.len(),
                    self@ == before,
                    kept@ == before.finalized.subrange(cut as int, i as int),
                decreases len - i,
            {
                kept.push(self.finalized_requests[i]);
                assert(kept@ =~= before.finalized.subrange(cut as int, i + 1));
                i = i + 1;
            }
            assert(kept@ =~= before.finalized.skip(cut as int));
            self.finalized_requests = kept;
        }
        self.finalized_requests.push(entry);
        proof {
            let after = self@;
            assert(after.finalized =~= recorded(before.finalized, entry));
            if before.wf() && !before.has_request(entry.request.block_index) {
                let one = seq![entry.request];
                assert(one.drop_last() =~= Seq::<RetrieveBtcRequest>::empty());
                assert(recorded_all(before.finalized, one.drop_last(), entry.state)
                    == before.finalized);
                assert(one.last() == entry.request);
                assert(recorded_all(before.finalized, one, entry.state) == after.finalized);
                assert forall|b: u64| has_index(one, b) implies b == entry.request.block_index by {}
                assert(distinct_indices(one));
                lemma_recorded_all(before.finalized, one, entry.state);
            }
        }
    }

    /// The account whose address the output at the given outpoint was sent
    /// to, if the minter knows the output.
    pub fn account_of(&self, outpoint: &OutPoint) -> (r: Option<Account>)
        ensures
            r is Some <==> knows_outpoint(self@.owners, *outpoint),
            r is Some ==> owned_at(self@.owners, *outpoint, r->0),
    {
        let mut i: usize = 0;
        while i < self.utxo_owners.len()
            invariant
                i <= self.utxo_owners@.len(),
                forall|k: int| 0 <= k < i ==> (#[trigger] self.utxo_owners@[k]).utxo.outpoint != *outpoint,
            decreases self.utxo_owners@.len() - i,
        {
            if self.utxo_owners[i].utxo.outpoint.same(outpoint) {
                return Some(self.utxo_owners[i].account);
            }
            i = i + 1;
        }
        None
    }

    /// Sets the master public key unless it is set already. Says whether
    /// it was set now.
    pub fn init_ecdsa_public_key(&mut self, key: ECDSAPublicKey) -> (set: bool)
        ensures
            set == (old(self)@.ecdsa_public_key is None),
            set ==> final(self)@ == (StateView {
                ecdsa_public_key: Some((key.public_key@, key.chain_code@)),
                ..old(self)@
            }),
            !set ==> final(self)@ == old(self)@,
            old(self).wf() ==> final(self).wf(),
    {
        if self.ecdsa_public_key.is_some() {
            return false;
        }
        self.ecdsa_public_key = Some(key);
        true
    }

    /// Starts a heartbeat unless one is under way. Says whether it started.
    pub fn try_start_heartbeat(&mut self) -> (started: bool)
        ensures
            started == !old(self).is_heartbeat_running,
            final(self)@ == (StateView { is_heartbeat_running: true, ..old(self)@ }),
    {
        if self.is_heartbeat_running {
            return false;
        }
        self.is_heartbeat_running = true;
        true
    }

    /// Ends the heartbeat that is under way.
    pub fn end_heartbeat(&mut self)
        ensures
            final(self)@ == (StateView { is_heartbeat_running: false, ..old(self)@ }),
    {
        self.is_heartbeat_running = false;
    }
}

impl StateView {
    /// Whether a transaction can be recorded as sent: the requests it pays
    /// are in flight and differ from one another; the outputs it spends are
    /// some, known, not available, and not spent by a transaction recorded
    /// before.
    pub open spec fn can_submit(self, requests: Seq<RetrieveBtcRequest>, used_utxos: Seq<Utxo>) -> bool {
        &&& distinct_indices(requests)
        &&& forall|i: int|
            0 <= i < requests.len() ==> self.in_flight.contains_key(
                (#[trigger] requests[i]).block_index,
            )
        &&& used_utxos.len() > 0
        &&& forall|k: int|
            0 <= k < used_utxos.len() ==> {
                &&& !holds_outpoint(self.available, (#[trigger] used_utxos[k]).outpoint)
                &&& knows_outpoint(self.owners, used_utxos[k].outpoint)
                &&& !submitted_spends(self.submitted, used_utxos[k].outpoint)
            }
    }
}

proof fn lemma_submit_keeps_invariants(before: StateView, tx: SubmittedView, after: StateView)
    requires
        before.wf(),
        before.can_submit(tx.requests, tx.used_utxos),
        after == (StateView {
            submitted: before.submitted.push(tx),
            in_flight: without_indices(before.in_flight, tx.requests),
            ..before
        }),
    ensures
        after.wf(),
{
    let n = before.submitted.len() as int;
    assert forall|b: u64| has_index(tx.requests, b) implies before.in_flight.contains_key(b) by {
        let q = choose|q: int| 0 <= q < tx.requests.len() && (#[trigger] tx.requests[q]).block_index == b;
    }
    assert forall|b: u64| #[trigger] submitted_has_index(after.submitted, b) implies (
    submitted_has_index(before.submitted, b) || has_index(tx.requests, b)) by {
        let t = choose|t: int|
            0 <= t < after.submitted.len() && has_index((#[trigger] after.submitted[t]).requests, b);
        if t < n {
            assert(has_index(before.submitted[t].requests, b));
        }
    }
    assert forall|t: int, u: int, b: u64|
        0 <= t < u < after.submitted.len() && #[trigger] has_index(
            after.submitted[t].requests,
            b,
        ) implies !#[trigger] has_index(after.submitted[u].requests, b) by {
        if u == n {
            assert(has_index(before.submitted[t].requests, b));
            assert(submitted_has_index(before.submitted, b));
        } else {
            assert(has_index(before.submitted[t].requests, b));
        }
    }
    assert forall|t: int| 0 <= t < after.submitted.len() implies distinct_indices(
        (#[trigger] after.submitted[t]).requests,
    ) by {
        if t < n {
            assert(distinct_indices(before.submitted[t].requests));
        }
    }
    assert(after.indices_unique());
    assert forall|o: OutPoint| #[trigger] submitted_spends(after.submitted, o) implies (
    submitted_spends(before.submitted, o) || holds_outpoint(tx.used_utxos, o)) by {
        let t = choose|t: int|
            0 <= t < after.submitted.len() && holds_outpoint(
                (#[trigger] after.submitted[t]).used_utxos,
                o,
            );
        if t < n {
            assert(holds_outpoint(before.submitted[t].used_utxos, o));
        }
    }
    assert forall|o: OutPoint| holds_outpoint(tx.used_utxos, o) implies !holds_outpoint(
        before.available,
        o,
    ) && knows_outpoint(before.owners, o) && !submitted_spends(before.submitted, o) by {
        let k = choose|k: int| 0 <= k < tx.used_utxos.len() && (#[trigger] tx.used_utxos[k]).outpoint == o;
    }
    assert forall|i: int| 0 <= i < after.available.len() implies !submitted_spends(
        after.submitted,
        (#[trigger] after.available[i]).outpoint,
    ) by {
        let o = after.available[i].outpoint;
        assert(!submitted_spends(before.submitted, before.available[i].outpoint));
        assert(holds_outpoint(before.available, o));
    }
    assert forall|t: int| 0 <= t < after.submitted.len() implies (#[trigger] after.submitted[t]).used_utxos.len()
        > 0 by {
        if t < n {
            assert(before.submitted[t].used_utxos.len() > 0);
        }
    }
    assert forall|t: int, u: int, o: OutPoint|
        0 <= t < u < after.submitted.len() && #[trigger] holds_outpoint(
            after.submitted[t].used_utxos,
            o,
        ) implies !#[trigger] holds_outpoint(after.submitted[u].used_utxos, o) by {
        assert(holds_outpoint(before.submitted[t].used_utxos, o));
        if u == n {
            assert(submitted_spends(before.submitted, o));
        }
    }
    assert(after.spent_not_available());
    assert(after.owners_known());
}

/// Position of the first transaction with the given identifier; negative
/// where there is none.
pub open spec fn first_with_txid(submitted: Seq<SubmittedView>, txid: [u8; 32]) -> int
    decreases submitted.len(),
{
    if submitted.len() == 0 {
        -1
    } else {
        let p = first_with_txid(submitted.drop_last(), txid);
        if p >= 0 {
            p
        } else if submitted.last().txid == txid {
            submitted.len() - 1
        } else {
            -1
        }
    }
}

pub proof fn lemma_first_with_txid(submitted: Seq<SubmittedView>, txid: [u8; 32])
    ensures
        -1 <= first_with_txid(submitted, txid) < submitted.len(),
        first_with_txid(submitted, txid) >= 0 ==> submitted[first_with_txid(submitted, txid)].txid
            == txid,
        forall|t: int|
            0 <= t < submitted.len() && (first_with_txid(submitted, txid) < 0 || t
                < first_with_txid(submitted, txid)) ==> (#[trigger] submitted[t]).txid != txid,
    decreases submitted.len(),
{
    if submitted.len() > 0 {
        let d = submitted.drop_last();
        lemma_first_with_txid(d, txid);
        assert forall|t: int|
            0 <= t < submitted.len() && (first_with_txid(submitted, txid) < 0 || t
                < first_with_txid(submitted, txid)) implies (#[trigger] submitted[t]).txid
            != txid by {
            if t < d.len() {
                assert(d[t].txid != txid);
            }
        }
    }
}

/// Of the given outputs, those that the minter does not know yet: the
/// first at each outpoint that is neither known nor among those before it.
pub open spec fn fresh_utxos(owners: Seq<OwnedUtxo>, utxos: Seq<Utxo>) -> Seq<Utxo>
    decreases utxos.len(),
{
    if utxos.len() == 0 {
        utxos
    } else {
        let rest = fresh_utxos(owners, utxos.drop_last());
        if knows_outpoint(owners, utxos.last().outpoint) || holds_outpoint(
            rest,
            utxos.last().outpoint,
        ) {
            rest
        } else {
            rest.push(utxos.last())
        }
    }
}

/// The given outputs as outputs of one account.
pub open spec fn owned_by(utxos: Seq<Utxo>, account: Account) -> Seq<OwnedUtxo> {
    Seq::new(utxos.len(), |i: int| OwnedUtxo { utxo: utxos[i], account })
}

/// Fresh outputs sit at outpoints of their own, none of them known.
pub proof fn lemma_fresh_utxos(owners: Seq<OwnedUtxo>, utxos: Seq<Utxo>)
    ensures
        distinct_outpoints(fresh_utxos(owners, utxos)),
        forall|i: int|
            0 <= i < fresh_utxos(owners, utxos).len() ==> !knows_outpoint(
                owners,
                (#[trigger] fresh_utxos(owners, utxos)[i]).outpoint,
            ),
        fresh_utxos(owners, utxos).len() <= utxos.len(),
    decreases utxos.len(),
{
    if utxos.len() > 0 {
        lemma_fresh_utxos(owners, utxos.drop_last());
        let rest = fresh_utxos(owners, utxos.drop_last());
        let out = fresh_utxos(owners, utxos);
        assert forall|i: int, j: int| 0 <= i < j < out.len() implies (#[trigger] out[i]).outpoint != (
        #[trigger] out[j]).outpoint by {
            if j < rest.len() {
                assert(rest[i].outpoint != rest[j].outpoint);
            } else {
                assert(rest[i].outpoint == out[i].outpoint);
            }
        }
        assert forall|i: int| 0 <= i < out.len() implies !knows_outpoint(
            owners,
            (#[trigger] out[i]).outpoint,
        ) by {
            if i < rest.len() {
                assert(!knows_outpoint(owners, rest[i].outpoint));
            }
        }
    }
}

fn holds(utxos: &Vec<Utxo>, outpoint: &OutPoint) -> (r: bool)
    ensures
        r == holds_outpoint(utxos@, *outpoint),
{
    let mut i: usize = 0;
    while i < utxos.len()
        invariant
            i <= utxos@.len(),
            forall|k: int| 0 <= k < i ==> (#[trigger] utxos@[k]).outpoint != *outpoint,
        decreases utxos@.len() - i,
    {
        if utxos[i].outpoint.same(outpoint) {
            return true;
        }
        i = i + 1;
    }
    false
}

fn record(history: &mut Vec<FinalizedBtcRetrieval>, entry: FinalizedBtcRetrieval)
    ensures
        final(history)@ == recorded(old(history)@, entry),
{
    let ghost before = history@;
    let len: usize = history.len();
    if len >= MAX_FINALIZED_REQUESTS {
        let cut: usize = len - MAX_FINALIZED_REQUESTS + 1;
        let mut kept: Vec<FinalizedBtcRetrieval> = Vec::new();
        let mut i: usize = cut;
        while i < len
            invariant
                cut <= i <= len,
                len == history@.len(),
                history@ == before,
                kept@ == before.subrange(cut as int, i as int),
            decreases len - i,
        {
            kept.push(history[i]);
            assert(kept@ =~= before.subrange(cut as int, i + 1));
            i = i + 1;
        }
        assert(kept@ =~= before.skip(cut as int));
        *history = kept;
    }
    history.push(entry);
    assert(history@ =~= recorded(before, entry));
}

impl CkBtcMinterState {
    /// Of the given outputs, those that the minter does not know yet.
    pub fn new_utxos(&self, utxos: &Vec<Utxo>) -> (fresh: Vec<Utxo>)
        ensures
            fresh@ == fresh_utxos(self@.owners, utxos@),
    {
        let mut fresh: Vec<Utxo> = Vec::new();
        let mut i: usize = 0;
        assert(utxos@.take(0) =~= Seq::<Utxo>::empty());
        while i < utxos.len()
            invariant
                i <= utxos@.len(),
                fresh@ == fresh_utxos(self@.owners, utxos@.take(i as int)),
            decreases utxos@.len() - i,
        {
            let u: Utxo = utxos[i];
            assert(utxos@.take(i + 1).drop_last() =~= utxos@.take(i as int));
            let known: bool = self.account_of(&u.outpoint).is_some();
            if !known && !holds(&fresh, &u.outpoint) {
                fresh.push(u);
            }
            i = i + 1;
        }
        assert(utxos@.take(i as int) =~= utxos@);
        fresh
    }

    /// Takes note of outputs that were sent to the address of an account,
    /// and makes them available. Outputs at outpoints that the minter knows
    /// already are passed over.
    pub fn add_utxos(&mut self, account: Account, utxos: Vec<Utxo>)
        requires
            old(self).wf(),
        ensures
            final(self).wf(),
            final(self)@ == (StateView {
                owners: old(self)@.owners + owned_by(
                    fresh_utxos(old(self)@.owners, utxos@),
                    account,
                ),
                available: merged(old(self)@.available, fresh_utxos(old(self)@.owners, utxos@)),
                ..old(self)@
            }),
            union_of(
                final(self)@.available,
                old(self)@.available,
                fresh_utxos(old(self)@.owners, utxos@),
            ),
    {
        let ghost before = self@;
        let fresh: Vec<Utxo> = self.new_utxos(&utxos);
        proof {
            lemma_fresh_utxos(before.owners, utxos@);
            assert forall|i: int| 0 <= i < fresh@.len() implies !holds_outpoint(
                before.available,
                (#[trigger] fresh@[i]).outpoint,
            ) by {
                let o = fresh@[i].outpoint;
                if holds_outpoint(before.available, o) {
                    let k = choose|k: int|
                        0 <= k < before.available.len() && (#[trigger] before.available[k]).outpoint
                            == o;
                    assert(knows_outpoint(before.owners, before.available[k].outpoint));
                }
            }
        }
        self.available_utxos.insert_all(&fresh);
        let mut i: usize = 0;
        assert(before.owners + owned_by(fresh@, account).take(0) =~= before.owners);
        while i < fresh.len()
            invariant
                i <= fresh@.len(),
                self@ == (StateView {
                    owners: before.owners + owned_by(fresh@, account).take(i as int),
                    available: merged(before.available, fresh@),
                    ..before
                }),
            decreases fresh@.len() - i,
        {
            self.utxo_owners.push(OwnedUtxo { utxo: fresh[i], account });
            assert(self@.owners =~= before.owners + owned_by(fresh@, account).take(i + 1));
            i = i + 1;
        }
        assert(owned_by(fresh@, account).take(i as int) =~= owned_by(fresh@, account));
        proof {
            lemma_add_keeps_invariants(before, fresh@, account, self@);
        }
    }

    /// Records that the transaction with the given identifier is confirmed:
    /// the transaction leaves the submitted ones, the outputs it spent are
    /// forgotten, and the requests it paid enter the history as confirmed.
    /// Says whether there was such a transaction; without one nothing
    /// changes.
    pub fn finalize_transaction(&mut self, txid: &[u8; 32]) -> (found: bool)
        requires
            old(self).wf(),
        ensures
            final(self).wf(),
            found == (first_with_txid(old(self)@.submitted, *txid) >= 0),
            !found ==> final(self)@ == old(self)@,
            found ==> final(self)@ == (StateView {
                submitted: old(self)@.submitted.remove(first_with_txid(old(self)@.submitted, *txid)),
                owners: forgetting(
                    old(self)@.owners,
                    old(self)@.submitted[first_with_txid(old(self)@.submitted, *txid)].used_utxos,
                ),
                finalized: recorded_all(
                    old(self)@.finalized,
                    old(self)@.submitted[first_with_txid(old(self)@.submitted, *txid)].requests,
                    FinalizedStatus::Confirmed { txid: *txid },
                ),
                ..old(self)@
            }),
    {
        let ghost before = self@;
        proof {
            lemma_first_with_txid(before.submitted, *txid);
        }
        let mut p: usize = 0;
        let mut found: bool = false;
        while p < self.submitted_transactions.len()
            invariant_except_break
                !found,
            invariant
                p <= self.submitted_transactions@.len(),
                self@ == before,
                forall|t: int| 0 <= t < p ==> (#[trigger] before.submitted[t]).txid != *txid,
            ensures
                self@ == before,
                p <= self.submitted_transactions@.len(),
                forall|t: int| 0 <= t < p ==> (#[trigger] before.submitted[t]).txid != *txid,
                found ==> p < self.submitted_transactions@.len() && before.submitted[p as int].txid
                    == *txid,
                !found ==> p == self.submitted_transactions@.len(),
            decreases self.submitted_transactions@.len() - p,
        {
            if same_txid(&self.submitted_transactions[p].txid, txid) {
                found = true;
                break;
            }
            p = p + 1;
        }
        if !found {
            return false;
        }
        assert(p == first_with_txid(before.submitted, *txid)) by {
            let q = first_with_txid(before.submitted, *txid);
            if q < 0 || p < q {
                assert(before.submitted[p as int].txid != *txid);
            }
            if q < p as int && q >= 0 {
                assert(before.submitted[q].txid != *txid);
            }
        }
        let tx: SubmittedBtcTransaction = self.submitted_transactions.remove(p);
        assert(tx@ == before.submitted[p as int]);
        assert(self@.submitted =~= before.submitted.remove(p as int));
        let mut kept: Vec<OwnedUtxo> = Vec::new();
        let mut i: usize = 0;
        assert(before.owners.take(0) =~= Seq::<OwnedUtxo>::empty());
        while i < self.utxo_owners.len()
            invariant
                i <= self.utxo_owners@.len(),
                self.utxo_owners@ == before.owners,
                kept@ == forgetting(before.owners.take(i as int), tx.used_utxos@),
            decreases self.utxo_owners@.len() - i,
        {
            let entry: OwnedUtxo = self.utxo_owners[i];
            assert(before.owners.take(i + 1).drop_last() =~= before.owners.take(i as int));
            if !holds(&tx.used_utxos, &entry.utxo.outpoint) {
                kept.push(entry);
            }
            i = i + 1;
        }
        assert(before.owners.take(i as int) =~= before.owners);
        self.utxo_owners = kept;
        let state = FinalizedStatus::Confirmed { txid: *txid };
        let mut k: usize = 0;
        assert(tx.requests@.take(0) =~= Seq::<RetrieveBtcRequest>::empty());
        while k < tx.requests.len()
            invariant
                k <= tx.requests@.len(),
                p < before.submitted.len(),
                self@ == (StateView {
                    submitted: before.submitted.remove(p as int),
                    owners: forgetting(before.owners, tx.used_utxos@),
                    finalized: recorded_all(before.finalized, tx.requests@.take(k as int), state),
                    ..before
                }),
                    p < before.submitted.len(),
            decreases tx.requests@.len() - k,
        {
            assert(tx.requests@.take(k + 1).drop_last() =~= tx.requests@.take(k as int));
            record(
                &mut self.finalized_requests,
                FinalizedBtcRetrieval { request: tx.requests[k], state },
            );
            k = k + 1;
        }
        assert(tx.requests@.take(k as int) =~= tx.requests@);
        proof {
            lemma_finalize_keeps_invariants(before, p as int, state, self@);
        }
        true
    }
}

/// Whether two transaction identifiers are the same.
pub fn same_txid(a: &[u8; 32], b: &[u8; 32]) -> (r: bool)
    ensures
        r == (*a == *b),
{
    let mut i: usize = 0;
    while i < 32
        invariant
            i <= 32,
            forall|j: int| 0 <= j < i ==> a@[j] == b@[j],
        decreases 32 - i,
    {
        if a[i] != b[i] {
            return false;
        }
        i = i + 1;
    }
    assert(a@ =~= b@);
    assert(*a =~= *b);
    true
}

proof fn lemma_add_keeps_invariants(
    before: StateView,
    fresh: Seq<Utxo>,
    account: Account,
    after: StateView,
)
    requires
        before.wf(),
        distinct_outpoints(fresh),
        forall|i: int| 0 <= i < fresh.len() ==> !knows_outpoint(before.owners, (#[trigger] fresh[i]).outpoint),
        strictly_ordered(after.available),
        union_of(after.available, before.available, fresh),
        after == (StateView {
            owners: before.owners + owned_by(fresh, account),
            available: after.available,
            ..before
        }),
    ensures
        after.wf(),
{
    let n = before.owners.len() as int;
    assert forall|o: OutPoint| knows_outpoint(before.owners, o) implies knows_outpoint(
        after.owners,
        o,
    ) by {
        let i = choose|i: int| 0 <= i < before.owners.len() && (#[trigger] before.owners[i]).utxo.outpoint == o;
        assert(after.owners[i].utxo.outpoint == o);
    }
    assert forall|i: int, j: int| 0 <= i < j < after.owners.len() implies (#[trigger] after.owners[i]).utxo.outpoint
        != (#[trigger] after.owners[j]).utxo.outpoint by {
        if j < n {
            assert(before.owners[i].utxo.outpoint != before.owners[j].utxo.outpoint);
        } else if i >= n {
            assert(fresh[i - n].outpoint != fresh[j - n].outpoint);
        } else {
            assert(!knows_outpoint(before.owners, fresh[j - n].outpoint));
            assert(before.owners[i].utxo.outpoint != fresh[j - n].outpoint);
        }
    }
    assert forall|i: int| 0 <= i < after.available.len() implies knows_outpoint(
        after.owners,
        (#[trigger] after.available[i]).outpoint,
    ) && !submitted_spends(after.submitted, after.available[i].outpoint) by {
        let x = after.available[i];
        assert(after.available.contains(x));
        if before.available.contains(x) {
            let k = choose|k: int| 0 <= k < before.available.len() && before.available[k] == x;
            assert(knows_outpoint(before.owners, before.available[k].outpoint));
            assert(!submitted_spends(before.submitted, before.available[k].outpoint));
        } else {
            assert(fresh.contains(x));
            let k = choose|k: int| 0 <= k < fresh.len() && fresh[k] == x;
            assert(after.owners[n + k].utxo.outpoint == x.outpoint);
            assert(!knows_outpoint(before.owners, fresh[k].outpoint));
        }
    }
}

proof fn lemma_finalize_keeps_invariants(
    before: StateView,
    p: int,
    state: FinalizedStatus,
    after: StateView,
)
    requires
        before.wf(),
        0 <= p < before.submitted.len(),
        after == (StateView {
            submitted: before.submitted.remove(p),
            owners: forgetting(before.owners, before.submitted[p].used_utxos),
            finalized: recorded_all(before.finalized, before.submitted[p].requests, state),
            ..before
        }),
    ensures
        after.wf(),
{
    let tx = before.submitted[p];
    lemma_recorded_all(before.finalized, tx.requests, state);
    lemma_forgetting(before.owners, tx.used_utxos);
    assert(distinct_indices(tx.requests));
    assert forall|b: u64| #[trigger] has_index(tx.requests, b) implies submitted_has_index(
        before.submitted,
        b,
    ) by {}
    assert forall|b: u64| #[trigger] submitted_has_index(after.submitted, b) implies (
    submitted_has_index(before.submitted, b) && !has_index(tx.requests, b)) by {
        let t = choose|t: int|
            0 <= t < after.submitted.len() && has_index((#[trigger] after.submitted[t]).requests, b);
        let t0 = if t < p { t } else { t + 1 };
        assert(has_index(before.submitted[t0].requests, b));
    }
    assert forall|t: int| 0 <= t < after.submitted.len() implies distinct_indices(
        (#[trigger] after.submitted[t]).requests,
    ) && after.submitted[t].used_utxos.len() > 0 by {
        let t0 = if t < p { t } else { t + 1 };
        assert(distinct_indices(before.submitted[t0].requests));
        assert(before.submitted[t0].used_utxos.len() > 0);
    }
    assert forall|t: int, u: int, b: u64|
        0 <= t < u < after.submitted.len() && #[trigger] has_index(
            after.submitted[t].requests,
            b,
        ) implies !#[trigger] has_index(after.submitted[u].requests, b) by {
        let t0 = if t < p { t } else { t + 1 };
        let u0 = if u < p { u } else { u + 1 };
        assert(has_index(before.submitted[t0].requests, b));
    }
    assert(after.indices_unique());
    assert forall|o: OutPoint| #[trigger] submitted_spends(after.submitted, o) implies (
    submitted_spends(before.submitted, o) && !holds_outpoint(tx.used_utxos, o)) by {
        let t = choose|t: int|
            0 <= t < after.submitted.len() && holds_outpoint(
                (#[trigger] after.submitted[t]).used_utxos,
                o,
            );
        let t0 = if t < p { t } else { t + 1 };
        assert(holds_outpoint(before.submitted[t0].used_utxos, o));
    }
    assert forall|t: int, u: int, o: OutPoint|
        0 <= t < u < after.submitted.len() && #[trigger] holds_outpoint(
            after.submitted[t].used_utxos,
            o,
        ) implies !#[trigger] holds_outpoint(after.submitted[u].used_utxos, o) by {
        let t0 = if t < p { t } else { t + 1 };
        let u0 = if u < p { u } else { u + 1 };
        assert(holds_outpoint(before.submitted[t0].used_utxos, o));
    }
    assert forall|i: int| 0 <= i < after.available.len() implies !submitted_spends(
        after.submitted,
        (#[trigger] after.available[i]).outpoint,
    ) && knows_outpoint(after.owners, after.available[i].outpoint) by {
        let o = before.available[i].outpoint;
        assert(!submitted_spends(before.submitted, o));
        assert(knows_outpoint(before.owners, o));
        if holds_outpoint(tx.used_utxos, o) {
            assert(submitted_spends(before.submitted, o));
        }
    }
    assert(after.spent_not_available());
    assert(after.owners_known());
}

} // verus!
