//! The steps by which pending requests are settled: a batch is formed and
//! its transaction built, the requests are marked as the transaction is
//! signed and sent, and everything is put back where signing or sending
//! fails. Between the steps the caller talks to the signer and to the
//! Bitcoin network.

use vstd::prelude::*;
use crate::address::{Account, BitcoinAddress, ECDSAPublicKey, Network};
use crate::builder::{
    BuildTxError, ChangeOutput, MIN_CHANGE, build_unsigned_transaction, inputs_spending,
    plan_change_output, plan_error, plan_outputs, plan_utxos, total_amount,
};
use crate::coins::{lemma_selection_partition, lemma_selection_undone, remaining};
use crate::state::{
    CkBtcMinterState, FinalizedBtcRetrieval, FinalizedStatus, InFlightStatus, RetrieveBtcRequest,
    StateView, SubmittedBtcTransaction, SubmittedView, append_requests, distinct_indices,
    finalized_has_index, has_index, knows_outpoint, lemma_recorded_all, owned_at, recorded_all,
    submitted_has_index, submitted_spends, without_indices,
};
use crate::tx::UnsignedTransaction;
use crate::utxo::{
    OutPoint, Utxo, distinct_outpoints, holds_outpoint, merged, strictly_ordered, total_value,
    union_of,
};

verus! {

/// What is needed to sign the transaction of a batch, and to undo the batch
/// where signing or sending fails.
#[derive(Clone, Debug, PartialEq, Eq)]
pub struct SignTxRequest {
    pub key_name: String,
    pub network: Network,
    pub ecdsa_public_key: ECDSAPublicKey,
    pub unsigned_tx: UnsignedTransaction,
    pub change_output: Option<ChangeOutput>,
    /// For each input, in order, the outpoint it spends and the account
    /// whose key signs for it.
    pub outpoint_account: Vec<(OutPoint, Account)>,
    /// The requests of the batch, to be put back into the queue where the
    /// transaction is not sent.
    pub requests: Vec<RetrieveBtcRequest>,
    /// The outputs that the transaction spends.
    pub utxos: Vec<Utxo>,
}

/// The addresses and amounts of a batch of requests.
pub open spec fn outputs_of(batch: Seq<RetrieveBtcRequest>) -> Seq<(BitcoinAddress, u64)> {
    Seq::new(batch.len(), |i: int| (batch[i].address, batch[i].amount))
}

/// The in-flight map with the given requests at the given status.
pub open spec fn with_status(
    in_flight: Map<u64, InFlightStatus>,
    requests: Seq<RetrieveBtcRequest>,
    status: InFlightStatus,
) -> Map<u64, InFlightStatus> {
    Map::new(
        |b: u64| in_flight.contains_key(b) || has_index(requests, b),
        |b: u64|
            if has_index(requests, b) {
                status
            } else {
                in_flight[b]
            },
    )
}

impl StateView {
    /// Number of requests in the next batch.
    pub open spec fn batch_len(self) -> int {
        if self.pending.len() <= self.max_requests_per_batch {
            self.pending.len() as int
        } else {
            self.max_requests_per_batch as int
        }
    }

    /// The requests of the next batch.
    pub open spec fn batch(self) -> Seq<RetrieveBtcRequest> {
        self.pending.take(self.batch_len())
    }

    /// Whether the sums that settling the next batch computes fit into 64
    /// bits.
    pub open spec fn amounts_fit(self) -> bool {
        &&& total_value(self.available) <= u64::MAX
        &&& total_amount(outputs_of(self.batch())) + MIN_CHANGE <= u64::MAX
    }

    /// Whether the given requests and outputs are set aside for a
    /// transaction: the requests are in flight and differ from one another;
    /// the outputs are some, at outpoints of their own, known, not
    /// available, and not spent by a submitted transaction.
    pub open spec fn holds_reserved(self, requests: Seq<RetrieveBtcRequest>, utxos: Seq<Utxo>) -> bool {
        &&& distinct_outpoints(utxos)
        &&& self.can_submit(requests, utxos)
    }

    /// The state once the next batch is taken and the outputs for it are
    /// set aside.
    pub open spec fn after_reserving(self) -> StateView {
        StateView {
            pending: self.pending.skip(self.batch_len()),
            in_flight: with_status(self.in_flight, self.batch(), InFlightStatus::Signing),
            available: remaining(
                total_amount(outputs_of(self.batch())) as u64,
                self.available,
            ),
            ..self
        }
    }

    /// The state once the next batch is dropped because its amounts do not
    /// cover the fee.
    pub open spec fn after_dropping(self) -> StateView {
        StateView {
            pending: self.pending.skip(self.batch_len()),
            finalized: recorded_all(self.finalized, self.batch(), FinalizedStatus::AmountTooLow),
            ..self
        }
    }

    /// The state once requests in flight are marked as being sent.
    pub open spec fn after_marking(self, requests: Seq<RetrieveBtcRequest>, txid: [u8; 32]) -> StateView {
        StateView {
            in_flight: with_status(self.in_flight, requests, InFlightStatus::Sending { txid }),
            ..self
        }
    }

    /// The state once a batch is undone: its outputs are available again,
    /// its requests are back at the front of the queue and no longer in
    /// flight.
    pub open spec fn after_undoing(self, requests: Seq<RetrieveBtcRequest>, utxos: Seq<Utxo>) -> StateView {
        StateView {
            available: merged(self.available, utxos),
            pending: requests + self.pending,
            in_flight: without_indices(self.in_flight, requests),
            ..self
        }
    }
}

impl CkBtcMinterState {
    /// Whether it is time to settle: there are requests, and enough of them
    /// or old enough ones.
    pub fn should_submit(&self, now: u64) -> (r: bool)
        ensures
            r == (self@.pending.len() > 0 && (self@.pending.len()
                >= crate::estimates::MIN_PENDING_REQUESTS || crate::state::waited(
                now,
                self@.pending[0].received_at,
            ) > self.min_confirmations * crate::estimates::block_time(self.btc_network))),
    {
        if self.pending_retrieve_btc_requests.len() == 0 {
            return false;
        }
        self.can_form_a_batch(crate::estimates::MIN_PENDING_REQUESTS, now)
    }

    /// Marks the given requests as in flight at the given status.
    fn mark_in_flight(&mut self, requests: &Vec<RetrieveBtcRequest>, status: InFlightStatus)
        ensures
            final(self)@ == (StateView {
                in_flight: with_status(old(self)@.in_flight, requests@, status),
                ..old(self)@
            }),
    {
        let ghost before = self@;
        let mut i: usize = 0;
        assert(with_status(before.in_flight, requests@.take(0), status) =~= before.in_flight);
        while i < requests.len()
            invariant
                i <= requests@.len(),
                self@ == (StateView {
                    in_flight: with_status(before.in_flight, requests@.take(i as int), status),
                    ..before
                }),
            decreases requests@.len() - i,
        {
            let b: u64 = requests[i].block_index;
            self.push_in_flight_request(b, status);
            proof {
                let done = requests@.take(i as int);
                let next = requests@.take(i + 1);
                assert forall|c: u64| has_index(next, c) <==> (has_index(done, c) || c == b) by {
                    if has_index(next, c) {
                        let k = choose|k: int|
                            0 <= k < next.len() && (#[trigger] next[k]).block_index == c;
                        if k < i {
                            assert(done[k].block_index == c);
                        }
                    }
                    if has_index(done, c) {
                        let k = choose|k: int|
                            0 <= k < done.len() && (#[trigger] done[k]).block_index == c;
                        assert(next[k].block_index == c);
                    }
                    assert(next[i as int].block_index == b);
                }
                assert(self@.in_flight =~= with_status(before.in_flight, next, status));
            }
            i = i + 1;
        }
        assert(requests@.take(i as int) =~= requests@);
    }
}

/// Taking the next batch and setting outputs aside for it keeps the
/// invariants of the state, and the batch and its outputs are then reserved.
pub proof fn lemma_reserving_keeps_invariants(before: StateView)
    requires
        before.wf(),
        crate::coins::selection(
            total_amount(outputs_of(before.batch())) as u64,
            before.available,
        ) is Some,
        plan_utxos(before.available, outputs_of(before.batch())).len() > 0,
    ensures
        before.after_reserving().wf(),
        before.after_reserving().holds_reserved(
            before.batch(),
            plan_utxos(before.available, outputs_of(before.batch())),
        ),
{
    let k = before.batch_len();
    let batch = before.batch();
    let amount = total_amount(outputs_of(batch)) as u64;
    let sel = plan_utxos(before.available, outputs_of(batch));
    let after = before.after_reserving();
    lemma_selection_partition(amount, before.available);
    assert forall|b: u64| has_index(batch, b) implies has_index(before.pending, b) by {
        let i = choose|i: int| 0 <= i < batch.len() && (#[trigger] batch[i]).block_index == b;
        assert(before.pending[i].block_index == b);
    }
    assert forall|b: u64| #[trigger] has_index(after.pending, b) implies has_index(
        before.pending,
        b,
    ) && !has_index(batch, b) by {
        let i = choose|i: int|
            0 <= i < after.pending.len() && (#[trigger] after.pending[i]).block_index == b;
        assert(before.pending[i + k].block_index == b);
        if has_index(batch, b) {
            let j = choose|j: int| 0 <= j < batch.len() && (#[trigger] batch[j]).block_index == b;
            assert(before.pending[j].block_index != before.pending[i + k].block_index);
        }
    }
    assert forall|i: int, j: int| 0 <= i < j < after.pending.len() implies (#[trigger] after.pending[i]).block_index
        != (#[trigger] after.pending[j]).block_index by {
        assert(before.pending[i + k].block_index != before.pending[j + k].block_index);
    }
    assert forall|i: int, j: int| 0 <= i < j < batch.len() implies (#[trigger] batch[i]).block_index
        != (#[trigger] batch[j]).block_index by {
        assert(before.pending[i].block_index != before.pending[j].block_index);
    }
    assert(after.indices_unique());
    assert forall|i: int| 0 <= i < after.available.len() implies !submitted_spends(
        after.submitted,
        (#[trigger] after.available[i]).outpoint,
    ) && knows_outpoint(after.owners, after.available[i].outpoint) by {
        let x = after.available[i];
        assert(after.available.contains(x));
        assert(before.available.contains(x));
        let q = choose|q: int| 0 <= q < before.available.len() && before.available[q] == x;
        assert(!submitted_spends(before.submitted, before.available[q].outpoint));
    }
    assert forall|j: int| 0 <= j < sel.len() implies !holds_outpoint(
        after.available,
        (#[trigger] sel[j]).outpoint,
    ) && knows_outpoint(after.owners, sel[j].outpoint) && !submitted_spends(
        after.submitted,
        sel[j].outpoint,
    ) by {
        let x = sel[j];
        assert(sel.contains(x));
        assert(before.available.contains(x));
        let q = choose|q: int| 0 <= q < before.available.len() && before.available[q] == x;
        assert(!submitted_spends(before.submitted, before.available[q].outpoint));
    }
    assert forall|i: int| 0 <= i < batch.len() implies after.in_flight.contains_key(
        (#[trigger] batch[i]).block_index,
    ) by {
        assert(has_index(batch, batch[i].block_index));
    }
}

/// Dropping the next batch into the history keeps the invariants of the
/// state.
pub proof fn lemma_dropping_keeps_invariants(before: StateView)
    requires
        before.wf(),
    ensures
        before.after_dropping().wf(),
{
    let k = before.batch_len();
    let batch = before.batch();
    let after = before.after_dropping();
    lemma_recorded_all(before.finalized, batch, FinalizedStatus::AmountTooLow);
    assert forall|b: u64| #[trigger] has_index(batch, b) implies has_index(before.pending, b) by {
        let i = choose|i: int| 0 <= i < batch.len() && (#[trigger] batch[i]).block_index == b;
        assert(before.pending[i].block_index == b);
    }
    assert forall|b: u64| #[trigger] has_index(after.pending, b) implies has_index(
        before.pending,
        b,
    ) && !has_index(batch, b) by {
        let i = choose|i: int|
            0 <= i < after.pending.len() && (#[trigger] after.pending[i]).block_index == b;
        assert(before.pending[i + k].block_index == b);
        if has_index(batch, b) {
            let j = choose|j: int| 0 <= j < batch.len() && (#[trigger] batch[j]).block_index == b;
            assert(before.pending[j].block_index != before.pending[i + k].block_index);
        }
    }
    assert forall|i: int, j: int| 0 <= i < j < after.pending.len() implies (#[trigger] after.pending[i]).block_index
        != (#[trigger] after.pending[j]).block_index by {
        assert(before.pending[i + k].block_index != before.pending[j + k].block_index);
    }
    assert forall|i: int, j: int| 0 <= i < j < batch.len() implies (#[trigger] batch[i]).block_index
        != (#[trigger] batch[j]).block_index by {
        assert(before.pending[i].block_index != before.pending[j].block_index);
    }
    assert(after.indices_unique());
}

/// Marking reserved requests as being sent keeps the invariants of the
/// state and the reservation.
pub proof fn lemma_marking_keeps_invariants(
    before: StateView,
    requests: Seq<RetrieveBtcRequest>,
    utxos: Seq<Utxo>,
    txid: [u8; 32],
)
    requires
        before.wf(),
        before.holds_reserved(requests, utxos),
    ensures
        before.after_marking(requests, txid).wf(),
        before.after_marking(requests, txid).holds_reserved(requests, utxos),
{
    let after = before.after_marking(requests, txid);
    assert forall|b: u64| has_index(requests, b) implies before.in_flight.contains_key(b) by {
        let i = choose|i: int| 0 <= i < requests.len() && (#[trigger] requests[i]).block_index == b;
    }
    assert(after.in_flight.dom() =~= before.in_flight.dom());
    assert(after.indices_unique());
}

/// Undoing a reserved batch keeps the invariants of the state.
pub proof fn lemma_undoing_keeps_invariants(
    before: StateView,
    requests: Seq<RetrieveBtcRequest>,
    utxos: Seq<Utxo>,
)
    requires
        before.wf(),
        before.holds_reserved(requests, utxos),
    ensures
        before.after_undoing(requests, utxos).wf(),
{
    let after = before.after_undoing(requests, utxos);
    let m = requests.len() as int;
    assert(crate::utxo::disjoint_outpoints(utxos, before.available));
    crate::utxo::lemma_merged(before.available, utxos);
    assert forall|b: u64| has_index(requests, b) implies before.in_flight.contains_key(b) by {
        let i = choose|i: int| 0 <= i < requests.len() && (#[trigger] requests[i]).block_index == b;
    }
    assert forall|b: u64| #[trigger] has_index(after.pending, b) implies (has_index(requests, b)
        || has_index(before.pending, b)) by {
        let q = choose|q: int|
            0 <= q < after.pending.len() && (#[trigger] after.pending[q]).block_index == b;
        if q < m {
            assert(requests[q].block_index == b);
        } else {
            assert(before.pending[q - m].block_index == b);
        }
    }
    assert forall|a: int, c: int| 0 <= a < c < after.pending.len() implies (#[trigger] after.pending[a]).block_index
        != (#[trigger] after.pending[c]).block_index by {
        if c < m {
            assert(requests[a].block_index != requests[c].block_index);
        } else if a >= m {
            assert(before.pending[a - m].block_index != before.pending[c - m].block_index);
        } else {
            assert(has_index(requests, requests[a].block_index));
            assert(has_index(before.pending, before.pending[c - m].block_index));
        }
    }
    assert(after.indices_unique());
    assert forall|i: int| 0 <= i < after.available.len() implies !submitted_spends(
        after.submitted,
        (#[trigger] after.available[i]).outpoint,
    ) && knows_outpoint(after.owners, after.available[i].outpoint) by {
        let x = after.available[i];
        assert(after.available.contains(x));
        if before.available.contains(x) {
            let q = choose|q: int| 0 <= q < before.available.len() && before.available[q] == x;
            assert(!submitted_spends(before.submitted, before.available[q].outpoint));
        } else {
            assert(utxos.contains(x));
            let q = choose|q: int| 0 <= q < utxos.len() && utxos[q] == x;
            assert(knows_outpoint(before.owners, utxos[q].outpoint));
        }
    }
}

/// Undoing a batch leaves no trace. Where the next batch was taken and
/// outputs were set aside for it, undoing the batch gives the state as it
/// was before, whether or not the requests had been marked as being sent
/// in between.
pub proof fn lemma_undo_restores(before: StateView, txid: [u8; 32])
    requires
        before.wf(),
        crate::coins::selection(
            total_amount(outputs_of(before.batch())) as u64,
            before.available,
        ) is Some,
    ensures
        before.after_reserving().after_undoing(
            before.batch(),
            plan_utxos(before.available, outputs_of(before.batch())),
        ) == before,
        before.after_reserving().after_marking(before.batch(), txid).after_undoing(
            before.batch(),
            plan_utxos(before.available, outputs_of(before.batch())),
        ) == before,
{
    let k = before.batch_len();
    let batch = before.batch();
    let amount = total_amount(outputs_of(batch)) as u64;
    let sel = plan_utxos(before.available, outputs_of(batch));
    let reserved = before.after_reserving();
    let marked = reserved.after_marking(batch, txid);
    lemma_selection_partition(amount, before.available);
    crate::utxo::lemma_merged(reserved.available, sel);
    lemma_selection_undone(amount, before.available, merged(reserved.available, sel));
    assert(batch + before.pending.skip(k) =~= before.pending);
    assert forall|b: u64| has_index(batch, b) implies !before.in_flight.contains_key(b) by {
        let i = choose|i: int| 0 <= i < batch.len() && (#[trigger] batch[i]).block_index == b;
        assert(before.pending[i].block_index == b);
        assert(has_index(before.pending, b));
    }
    assert(without_indices(reserved.in_flight, batch) =~= before.in_flight);
    assert(without_indices(marked.in_flight, batch) =~= before.in_flight);
}

/// For each input of the transaction, in order, the outpoint it spends and
/// the account whose key signs for it. Every input must spend an output
/// that the minter knows.
pub fn filter_output_accounts(
    state: &CkBtcMinterState,
    unsigned_tx: &UnsignedTransaction,
) -> (accounts: Vec<(OutPoint, Account)>)
    requires
        forall|i: int|
            0 <= i < unsigned_tx.inputs@.len() ==> knows_outpoint(
                state@.owners,
                (#[trigger] unsigned_tx.inputs@[i]).previous_output,
            ),
    ensures
        accounts@.len() == unsigned_tx.inputs@.len(),
        forall|i: int|
            0 <= i < accounts@.len() ==> {
                &&& (#[trigger] accounts@[i]).0 == unsigned_tx.inputs@[i].previous_output
                &&& owned_at(state@.owners, accounts@[i].0, accounts@[i].1)
            },
{
    let mut accounts: Vec<(OutPoint, Account)> = Vec::new();
    let mut i: usize = 0;
    while i < unsigned_tx.inputs.len()
        invariant
            i <= unsigned_tx.inputs@.len(),
            forall|k: int|
                0 <= k < unsigned_tx.inputs@.len() ==> knows_outpoint(
                    state@.owners,
                    (#[trigger] unsigned_tx.inputs@[k]).previous_output,
                ),
            accounts@.len() == i,
            forall|k: int|
                0 <= k < i ==> {
                    &&& (#[trigger] accounts@[k]).0 == unsigned_tx.inputs@[k].previous_output
                    &&& owned_at(state@.owners, accounts@[k].0, accounts@[k].1)
                },
        decreases unsigned_tx.inputs@.len() - i,
    {
        let outpoint: OutPoint = unsigned_tx.inputs[i].previous_output;
        assert(knows_outpoint(state@.owners, unsigned_tx.inputs@[i as int].previous_output));
        match state.account_of(&outpoint) {
            Some(account) => {
                accounts.push((outpoint, account));
            },
            None => {
                assert(false);
            },
        }
        i = i + 1;
    }
    accounts
}

fn outputs_for(batch: &Vec<RetrieveBtcRequest>) -> (outputs: Vec<(BitcoinAddress, u64)>)
    ensures
        outputs@ == outputs_of(batch@),
{
    let mut outputs: Vec<(BitcoinAddress, u64)> = Vec::new();
    let mut i: usize = 0;
    while i < batch.len()
        invariant
            i <= batch@.len(),
            outputs@.len() == i,
            forall|k: int| 0 <= k < i ==> #[trigger] outputs@[k] == outputs_of(batch@)[k],
        decreases batch@.len() - i,
    {
        outputs.push((batch[i].address, batch[i].amount));
        i = i + 1;
    }
    assert(outputs@ =~= outputs_of(batch@));
    outputs
}

/// Whether the sums that settling the next batch computes fit into 64 bits.
pub fn amounts_fit(state: &CkBtcMinterState) -> (r: bool)
    ensures
        r == state@.amounts_fit(),
{
    let mut value: u128 = 0;
    let mut i: usize = 0;
    let ghost avail = state@.available;
    assert(avail.take(0) =~= Seq::<Utxo>::empty());
    while i < state.available_utxos.len()
        invariant
            i <= avail.len(),
            avail == state@.available,
            value == total_value(avail.take(i as int)),
            value <= i * 0xffff_ffff_ffff_ffff,
        decreases avail.len() - i,
    {
        assert(avail.take(i + 1).drop_last() =~= avail.take(i as int));
        assert(i * 0xffff_ffff_ffff_ffff + 0xffff_ffff_ffff_ffff <= 0xffff_ffff_ffff_ffff
            * 0x1_0000_0000_0000_0000) by (nonlinear_arith)
            requires
                i < 0xffff_ffff_ffff_ffff,
        ;
        value = value + state.available_utxos.get(i).value as u128;
        i = i + 1;
    }
    assert(avail.take(i as int) =~= avail);
    let n: usize = if state.pending_retrieve_btc_requests.len() <= state.max_requests_per_batch {
        state.pending_retrieve_btc_requests.len()
    } else {
        state.max_requests_per_batch
    };
    let ghost outputs = outputs_of(state@.batch());
    let mut amount: u128 = 0;
    let mut k: usize = 0;
    assert(outputs.take(0) =~= Seq::<(BitcoinAddress, u64)>::empty());
    while k < n
        invariant
            k <= n,
            n == state@.batch_len(),
            outputs == outputs_of(state@.batch()),
            amount == total_amount(outputs.take(k as int)),
            amount <= k * 0xffff_ffff_ffff_ffff,
        decreases n - k,
    {
        assert(outputs.take(k + 1).drop_last() =~= outputs.take(k as int));
        assert(outputs.take(k + 1).last() == outputs[k as int]);
        assert(k * 0xffff_ffff_ffff_ffff + 0xffff_ffff_ffff_ffff <= 0xffff_ffff_ffff_ffff
            * 0x1_0000_0000_0000_0000) by (nonlinear_arith)
            requires
                k < 0xffff_ffff_ffff_ffff,
        ;
        amount = amount + state.pending_retrieve_btc_requests[k].amount as u128;
        k = k + 1;
    }
    assert(outputs.take(k as int) =~= outputs);
    value <= u64::MAX as u128 && amount + MIN_CHANGE as u128 <= u64::MAX as u128
}

/// Forms the next batch and builds its transaction.
///
/// Where the transaction is built, the requests of the batch are marked as
/// in flight, the outputs that the transaction spends are no longer
/// available, and the result says what to sign. Where the amounts do not
/// cover the fee, the requests enter the history with that outcome. Where
/// the available outputs do not cover the amounts, or there is nothing to
/// settle, the state is as it was.
pub fn prepare_sign_request(
    state: &mut CkBtcMinterState,
    main_address: BitcoinAddress,
    ecdsa_public_key: ECDSAPublicKey,
    fee_per_vbyte: u64,
) -> (result: Option<SignTxRequest>)
    requires
        old(state).wf(),
        old(state)@.amounts_fit(),
    ensures
        final(state).wf(),
        old(state)@.batch_len() == 0 ==> result is None && final(state)@ == old(state)@,
        old(state)@.batch_len() > 0 ==> match plan_error(
            old(state)@.available,
            outputs_of(old(state)@.batch()),
            fee_per_vbyte,
        ) {
            Some(BuildTxError::NotEnoughFunds) => result is None && final(state)@ == old(state)@,
            Some(BuildTxError::AmountTooLow) => result is None && final(state)@ == old(
                state,
            )@.after_dropping(),
            None => {
                &&& result is Some
                &&& final(state)@ == old(state)@.after_reserving()
                &&& final(state)@.holds_reserved(result->0.requests@, result->0.utxos@)
                &&& result->0.requests@ == old(state)@.batch()
                &&& result->0.utxos@ == plan_utxos(
                    old(state)@.available,
                    outputs_of(old(state)@.batch()),
                )
                &&& result->0.unsigned_tx.inputs@ == inputs_spending(result->0.utxos@)
                &&& result->0.unsigned_tx.outputs@ == plan_outputs(
                    old(state)@.available,
                    outputs_of(old(state)@.batch()),
                    main_address,
                    fee_per_vbyte,
                )
                &&& result->0.unsigned_tx.lock_time == 0
                &&& result->0.change_output == plan_change_output(
                    old(state)@.available,
                    outputs_of(old(state)@.batch()),
                )
                &&& result->0.network == old(state).btc_network
                &&& result->0.key_name@ == old(state)@.ecdsa_key_name
                &&& result->0.ecdsa_public_key == ecdsa_public_key
                &&& result->0.outpoint_account@.len() == result->0.unsigned_tx.inputs@.len()
                &&& forall|i: int|
                    0 <= i < result->0.outpoint_account@.len() ==> {
                        &&& (#[trigger] result->0.outpoint_account@[i]).0
                            == result->0.utxos@[i].outpoint
                        &&& owned_at(
                            old(state)@.owners,
                            result->0.outpoint_account@[i].0,
                            result->0.outpoint_account@[i].1,
                        )
                    }
            },
        },
{
    let ghost before = state@;
    let batch: Vec<RetrieveBtcRequest> = state.build_batch();
    if batch.len() == 0 {
        assert(state@.pending =~= before.pending);
        return None;
    }
    assert(batch@ == before.batch());
    let outputs: Vec<(BitcoinAddress, u64)> = outputs_for(&batch);
    let ghost amount = total_amount(outputs@) as u64;
    let built = build_unsigned_transaction(
        &mut state.available_utxos,
        outputs,
        main_address,
        fee_per_vbyte,
    );
    match built {
        Ok((unsigned_tx, change_output, utxos)) => {
            state.mark_in_flight(&batch, InFlightStatus::Signing);
            proof {
                assert(state@ == before.after_reserving());
                if crate::coins::selection(amount, before.available) is None {
                    assert(plan_utxos(before.available, outputs_of(before.batch())).len() == 0);
                }
                lemma_reserving_keeps_invariants(before);
                assert forall|i: int| 0 <= i < unsigned_tx.inputs@.len() implies knows_outpoint(
                    state@.owners,
                    (#[trigger] unsigned_tx.inputs@[i]).previous_output,
                ) by {
                    assert(unsigned_tx.inputs@[i].previous_output == utxos@[i].outpoint);
                }
            }
            let outpoint_account = filter_output_accounts(state, &unsigned_tx);
            Some(
                SignTxRequest {
                    key_name: state.ecdsa_key_name.clone(),
                    network: state.btc_network,
                    ecdsa_public_key,
                    unsigned_tx,
                    change_output,
                    outpoint_account,
                    requests: batch,
                    utxos,
                },
            )
        },
        Err(BuildTxError::AmountTooLow) => {
            // The amounts are too low to ever pay the fee: the requests are
            // not tried again.
            let mut i: usize = 0;
            assert(batch@.take(0) =~= Seq::<RetrieveBtcRequest>::empty());
            while i < batch.len()
                invariant
                    i <= batch@.len(),
                    batch@ == before.batch(),
                    state@ == (StateView {
                        pending: before.pending.skip(before.batch_len()),
                        finalized: recorded_all(
                            before.finalized,
                            batch@.take(i as int),
                            FinalizedStatus::AmountTooLow,
                        ),
                        ..before
                    }),
                decreases batch@.len() - i,
            {
                assert(batch@.take(i + 1).drop_last() =~= batch@.take(i as int));
                state.push_finalized_request(
                    FinalizedBtcRetrieval {
                        request: batch[i],
                        state: FinalizedStatus::AmountTooLow,
                    },
                );
                i = i + 1;
            }
            assert(batch@.take(i as int) =~= batch@);
            proof {
                lemma_dropping_keeps_invariants(before);
            }
            None
        },
        Err(BuildTxError::NotEnoughFunds) => {
            state.push_from_in_flight_to_pending_requests(batch);
            proof {
                assert(before.batch() + before.pending.skip(before.batch_len()) =~= before.pending);
                assert forall|b: u64| has_index(before.batch(), b) implies !before.in_flight.contains_key(
                    b,
                ) by {
                    let i = choose|i: int|
                        0 <= i < before.batch().len() && (#[trigger] before.batch()[i]).block_index
                            == b;
                    assert(before.pending[i].block_index == b);
                    assert(has_index(before.pending, b));
                }
                assert(without_indices(before.in_flight, before.batch()) =~= before.in_flight);
                assert(state@ == before);
            }
            None
        },
    }
}

/// Marks the requests of a signed transaction as being sent.
pub fn mark_sending(state: &mut CkBtcMinterState, request: &SignTxRequest, txid: [u8; 32])
    requires
        old(state).wf(),
        old(state)@.holds_reserved(request.requests@, request.utxos@),
    ensures
        final(state).wf(),
        final(state)@ == old(state)@.after_marking(request.requests@, txid),
        final(state)@.holds_reserved(request.requests@, request.utxos@),
{
    proof {
        lemma_marking_keeps_invariants(state@, request.requests@, request.utxos@, txid);
    }
    state.mark_in_flight(&request.requests, InFlightStatus::Sending { txid });
}

/// Records that the transaction of a batch was sent: the requests are no
/// longer in flight, and the transaction waits to be confirmed.
pub fn record_sent(
    state: &mut CkBtcMinterState,
    request: SignTxRequest,
    txid: [u8; 32],
    submitted_at: u64,
)
    requires
        old(state).wf(),
        old(state)@.holds_reserved(request.requests@, request.utxos@),
    ensures
        final(state).wf(),
        final(state)@ == (StateView {
            submitted: old(state)@.submitted.push(
                SubmittedView {
                    txid,
                    requests: request.requests@,
                    used_utxos: request.utxos@,
                    change_output: request.change_output,
                    submitted_at,
                },
            ),
            in_flight: without_indices(old(state)@.in_flight, request.requests@),
            ..old(state)@
        }),
{
    state.push_submitted_transaction(
        SubmittedBtcTransaction {
            txid,
            requests: request.requests,
            used_utxos: request.utxos,
            change_output: request.change_output,
            submitted_at,
        },
    );
}

/// Undoes what was done to the state when a transaction was prepared, where
/// the transaction could not be signed or sent: its outputs are available
/// again, and its requests are back at the front of the queue.
pub fn undo_sign_request(
    state: &mut CkBtcMinterState,
    requests: Vec<RetrieveBtcRequest>,
    utxos: Vec<Utxo>,
)
    requires
        old(state).wf(),
        old(state)@.holds_reserved(requests@, utxos@),
    ensures
        final(state).wf(),
        final(state)@ == old(state)@.after_undoing(requests@, utxos@),
{
    proof {
        lemma_undoing_keeps_invariants(state@, requests@, utxos@);
        assert(crate::utxo::disjoint_outpoints(utxos@, state@.available));
    }
    state.available_utxos.insert_all(&utxos);
    state.push_from_in_flight_to_pending_requests(requests);
}

/// Whether a transaction sent at `submitted_at` is old enough at `now` to
/// be looked for among the confirmed ones: its age is the time that
/// confirmation takes, or more.
pub open spec fn is_aged(submitted_at: u64, now: u64, wait: int) -> bool {
    now >= submitted_at + wait
}

/// The submitted transactions that are old enough to be checked, in order.
pub open spec fn aged(submitted: Seq<SubmittedView>, now: u64, wait: int) -> Seq<SubmittedView>
    decreases submitted.len(),
{
    if submitted.len() == 0 {
        submitted
    } else if is_aged(submitted.last().submitted_at, now, wait) {
        aged(submitted.drop_last(), now, wait).push(submitted.last())
    } else {
        aged(submitted.drop_last(), now, wait)
    }
}

fn copy_utxos(utxos: &Vec<Utxo>) -> (copy: Vec<Utxo>)
    ensures
        copy@ == utxos@,
{
    let mut copy: Vec<Utxo> = Vec::new();
    let mut i: usize = 0;
    while i < utxos.len()
        invariant
            i <= utxos@.len(),
            copy@ == utxos@.take(i as int),
        decreases utxos@.len() - i,
    {
        copy.push(utxos[i]);
        assert(copy@ =~= utxos@.take(i + 1));
        i = i + 1;
    }
    assert(utxos@.take(i as int) =~= utxos@);
    copy
}

/// The submitted transactions that are old enough to be checked for
/// confirmation.
pub fn requests_to_finalize(state: &CkBtcMinterState, now: u64) -> (due: Vec<SubmittedBtcTransaction>)
    ensures
        due@.map_values(|t: SubmittedBtcTransaction| t@) == aged(
            state@.submitted,
            now,
            state.min_confirmations * crate::estimates::block_time(state.btc_network),
        ),
{
    let wait: u128 = crate::estimates::finalization_time_estimate(
        state.min_confirmations,
        state.btc_network,
    );
    let ghost all = state@.submitted;
    let mut due: Vec<SubmittedBtcTransaction> = Vec::new();
    let mut i: usize = 0;
    assert(all.take(0) =~= Seq::<SubmittedView>::empty());
    assert(due@.map_values(|t: SubmittedBtcTransaction| t@) =~= aged(all.take(0), now, wait as int));
    while i < state.submitted_transactions.len()
        invariant
            i <= state.submitted_transactions@.len(),
            all == state@.submitted,
            wait == state.min_confirmations * crate::estimates::block_time(state.btc_network),
            wait <= 0xffff_ffff * 600_000_000_000,
            due@.map_values(|t: SubmittedBtcTransaction| t@) == aged(
                all.take(i as int),
                now,
                wait as int,
            ),
        decreases state.submitted_transactions@.len() - i,
    {
        let tx = &state.submitted_transactions[i];
        assert(all.take(i + 1).drop_last() =~= all.take(i as int));
        assert(all.take(i + 1).last() == tx@);
        let ghost views = due@.map_values(|t: SubmittedBtcTransaction| t@);
        if now as u128 >= tx.submitted_at as u128 + wait {
            let mut requests: Vec<RetrieveBtcRequest> = Vec::new();
            append_requests(&mut requests, &tx.requests);
            assert(requests@ =~= tx.requests@);
            let copy = SubmittedBtcTransaction {
                txid: tx.txid,
                requests,
                used_utxos: copy_utxos(&tx.used_utxos),
                change_output: tx.change_output,
                submitted_at: tx.submitted_at,
            };
            due.push(copy);
            assert(due@.map_values(|t: SubmittedBtcTransaction| t@) =~= views.push(tx@));
        }
        i = i + 1;
    }
    assert(all.take(i as int) =~= all);
    due
}

/// The account whose address is looked at to see whether a submitted
/// transaction is confirmed: the owner of the first output that the
/// transaction spends, if the minter still knows it.
pub fn account_to_check(state: &CkBtcMinterState, tx: &SubmittedBtcTransaction) -> (r: Option<Account>)
    requires
        tx.used_utxos@.len() > 0,
    ensures
        r is Some <==> knows_outpoint(state@.owners, tx.used_utxos@[0].outpoint),
        r is Some ==> owned_at(state@.owners, tx.used_utxos@[0].outpoint, r->0),
{
    state.account_of(&tx.used_utxos[0].outpoint)
}

/// Whether a submitted transaction is confirmed, given the unspent outputs
/// at the address of the first output it spends: it is, once that output is
/// no longer among them.
pub fn is_confirmed(unspent: &Vec<Utxo>, tx: &SubmittedBtcTransaction) -> (r: bool)
    requires
        tx.used_utxos@.len() > 0,
    ensures
        r == !unspent@.contains(tx.used_utxos@[0]),
{
    let used: Utxo = tx.used_utxos[0];
    let mut i: usize = 0;
    while i < unspent.len()
        invariant
            i <= unspent@.len(),
            tx.used_utxos@.len() > 0,
            used == tx.used_utxos@[0],
            forall|k: int| 0 <= k < i ==> unspent@[k] != used,
        decreases unspent@.len() - i,
    {
        if unspent[i].same(&used) {
            return false;
        }
        i = i + 1;
    }
    true
}

} // verus!
