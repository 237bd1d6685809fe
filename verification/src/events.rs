//! The records of what the settlement did to the state, in the form in which
//! they are kept for replay.

use vstd::prelude::*;
use crate::address::Account;
use crate::builder::ChangeOutput;
use crate::settlement::SignTxRequest;
use crate::state::RetrieveBtcRequest;
use crate::utxo::Utxo;

verus! {

/// Something that changed the state of the minter.
#[derive(Clone, Debug, PartialEq, Eq)]
pub enum Event {
    /// The minter took note of new outputs at the address of an account.
    ReceivedUtxos { to_account: Account, utxos: Vec<Utxo> },
    /// The minter sent a transaction.
    SentBtcTransaction {
        /// Block indices of the requests that the transaction pays.
        request_block_indices: Vec<u64>,
        txid: [u8; 32],
        /// The outputs that the transaction spends.
        utxos: Vec<Utxo>,
        change_output: Option<ChangeOutput>,
        /// When the transaction was sent, in nanoseconds.
        submitted_at: u64,
    },
    /// A transaction that the minter sent is confirmed.
    ConfirmedBtcTransaction { txid: [u8; 32] },
}

/// The block indices of the requests, in order.
pub open spec fn indices_of(requests: Seq<RetrieveBtcRequest>) -> Seq<u64> {
    Seq::new(requests.len(), |i: int| requests[i].block_index)
}

/// The block indices of the requests, in order.
pub fn block_indices(requests: &Vec<RetrieveBtcRequest>) -> (indices: Vec<u64>)
    ensures
        indices@ == indices_of(requests@),
{
    let mut indices: Vec<u64> = Vec::new();
    let mut i: usize = 0;
    while i < requests.len()
        invariant
            i <= requests@.len(),
            indices@.len() == i,
            forall|k: int| 0 <= k < i ==> indices@[k] == (#[trigger] requests@[k]).block_index,
        decreases requests@.len() - i,
    {
        indices.push(requests[i].block_index);
        i = i + 1;
    }
    assert(indices@ =~= indices_of(requests@));
    indices
}

/// The record of new outputs at the address of an account.
pub fn received_utxos(to_account: Account, utxos: &Vec<Utxo>) -> (event: Event)
    ensures
        match event {
            Event::ReceivedUtxos { to_account: account, utxos: recorded } => account == to_account
                && recorded@ == utxos@,
            _ => false,
        },
{
    let mut copy: Vec<Utxo> = Vec::new();
    let mut i: usize = 0;
    while i < utxos.len()
        invariant
            i <= utxos@.len(),
            copy@ == utxos@.take(i as int),
        decreases utxos@.len() - i,
    {
        copy.push(utxos[i]);
        assert(copy@ =~= utxos@.take(i + 1));
        i = i + 1;
    }
    assert(utxos@.take(i as int) =~= utxos@);
    Event::ReceivedUtxos { to_account, utxos: copy }
}

/// The record of a transaction that was sent for the given batch.
pub fn sent_transaction(request: &SignTxRequest, txid: [u8; 32], submitted_at: u64) -> (event: Event)
    ensures
        match event {
            Event::SentBtcTransaction {
                request_block_indices,
                txid: id,
                utxos,
                change_output,
                submitted_at: at,
            } => {
                &&& request_block_indices@ == indices_of(request.requests@)
                &&& id == txid
                &&& utxos@ == request.utxos@
                &&& change_output == request.change_output
                &&& at == submitted_at
            },
            _ => false,
        },
{
    let mut utxos: Vec<Utxo> = Vec::new();
    let mut i: usize = 0;
    while i < request.utxos.len()
        invariant
            i <= request.utxos@.len(),
            utxos@ == request.utxos@.take(i as int),
        decreases request.utxos@.len() - i,
    {
        utxos.push(request.utxos[i]);
        assert(utxos@ =~= request.utxos@.take(i + 1));
        i = i + 1;
    }
    assert(request.utxos@.take(i as int) =~= request.utxos@);
    Event::SentBtcTransaction {
        request_block_indices: block_indices(&request.requests),
        txid,
        utxos,
        change_output: request.change_output,
        submitted_at,
    }
}

} // verus!
