//! Construction of the unsigned transaction that pays a batch of requests:
//! inputs by greedy selection, the fee from the measured size, the fee and
//! the rounding of a small change charged to the recipients.

use vstd::prelude::*;
use crate::address::BitcoinAddress;
use crate::coins::{greedy, lemma_selection_undone, remaining, selected};
use crate::shares::{distribute, lemma_share_bounds, share};
use crate::signing::{fake_sign, fake_vsize, lemma_fake_signed_vsize};
use crate::tx::{TxOut, UnsignedInput, UnsignedTransaction};
use crate::utxo::{
    Utxo, UtxoSet, lemma_total_value_nonnegative, total_value,
};

verus! {

/// Below this value a pay-to-witness-key output is dust.
pub const P2WPKH_DUST_THRESHOLD: u64 = 294;

/// The least value of a change output.
pub const MIN_CHANGE: u64 = P2WPKH_DUST_THRESHOLD + 1;

/// A sequence number below `0xfffffffe` signals that the transaction may be
/// replaced by one that pays a higher fee.
pub const SEQUENCE_RBF_ENABLED: u32 = 0xfffffffd;

/// Why no transaction could be built.
#[derive(Clone, Copy, Debug, PartialEq, Eq, Structural)]
pub enum BuildTxError {
    /// The available outputs are not worth the requested amount. Later,
    /// when pending transactions have settled, they may be.
    NotEnoughFunds,
    /// The requested amount does not cover the fee.
    AmountTooLow,
}

/// The output that returns the change to the minter.
#[derive(Clone, Copy, Debug, PartialEq, Eq, Structural)]
pub struct ChangeOutput {
    /// Position of the output in the transaction.
    pub vout: u64,
    /// Value of the output.
    pub value: u64,
}

/// Sum of the requested amounts.
pub open spec fn total_amount(outputs: Seq<(BitcoinAddress, u64)>) -> int
    decreases outputs.len(),
{
    if outputs.len() == 0 {
        0
    } else {
        total_amount(outputs.drop_last()) + outputs.last().1
    }
}

/// Sum of the values of a sequence of transaction outputs.
pub open spec fn total_out(outputs: Seq<TxOut>) -> int
    decreases outputs.len(),
{
    if outputs.len() == 0 {
        0
    } else {
        total_out(outputs.drop_last()) + outputs.last().value
    }
}

/// Value of the change output for a positive change: the change, raised to
/// the least value a change output may have.
pub open spec fn change_value(change: int) -> int {
    if change < MIN_CHANGE {
        MIN_CHANGE as int
    } else {
        change
    }
}

/// What the recipients lend to a change output that had to be raised.
pub open spec fn overdraft_of(change: int) -> int {
    if 0 < change < MIN_CHANGE {
        MIN_CHANGE - change
    } else {
        0
    }
}

/// The fee for a virtual size at a rate in millisatoshi per virtual byte,
/// rounded down to whole satoshi.
pub open spec fn fee_of(vsize: nat, fee_per_vbyte: u64) -> int {
    vsize * fee_per_vbyte / 1000
}

/// What is left of a requested amount once its share of the charges is
/// taken; nothing where the share exceeds it.
pub open spec fn charged(amount: u64, share: int) -> int {
    if amount >= share {
        amount - share
    } else {
        0
    }
}

/// The inputs that spend the given outputs, in their order.
pub open spec fn inputs_spending(utxos: Seq<Utxo>) -> Seq<UnsignedInput> {
    Seq::new(
        utxos.len(),
        |i: int|
            UnsignedInput {
                previous_output: utxos[i].outpoint,
                value: utxos[i].value,
                sequence: SEQUENCE_RBF_ENABLED,
            },
    )
}

/// The outputs selected to pay the requested amounts.
pub open spec fn plan_utxos(avail: Seq<Utxo>, outputs: Seq<(BitcoinAddress, u64)>) -> Seq<Utxo> {
    selected(total_amount(outputs) as u64, avail)
}

/// What the selected outputs are worth beyond the requested amounts.
pub open spec fn plan_change(avail: Seq<Utxo>, outputs: Seq<(BitcoinAddress, u64)>) -> int {
    total_value(plan_utxos(avail, outputs)) - total_amount(outputs)
}

/// Number of outputs of the transaction: one for each request, and one for
/// the change where there is any.
pub open spec fn plan_output_count(avail: Seq<Utxo>, outputs: Seq<(BitcoinAddress, u64)>) -> nat {
    if plan_change(avail, outputs) > 0 {
        outputs.len() + 1
    } else {
        outputs.len()
    }
}

/// The fee of the transaction, from its size with placeholder witnesses.
pub open spec fn plan_fee(
    avail: Seq<Utxo>,
    outputs: Seq<(BitcoinAddress, u64)>,
    fee_per_vbyte: u64,
) -> int {
    fee_of(
        fake_vsize(plan_utxos(avail, outputs).len(), plan_output_count(avail, outputs)),
        fee_per_vbyte,
    )
}

/// What the recipients are charged in all: the fee and the overdraft.
pub open spec fn plan_charges(
    avail: Seq<Utxo>,
    outputs: Seq<(BitcoinAddress, u64)>,
    fee_per_vbyte: u64,
) -> int {
    plan_fee(avail, outputs, fee_per_vbyte) + overdraft_of(plan_change(avail, outputs))
}

/// The outputs of the transaction: each request in its place, less its
/// share of the charges, and the change to the main address behind them.
pub open spec fn plan_outputs(
    avail: Seq<Utxo>,
    outputs: Seq<(BitcoinAddress, u64)>,
    main_address: BitcoinAddress,
    fee_per_vbyte: u64,
) -> Seq<TxOut> {
    Seq::new(
        plan_output_count(avail, outputs),
        |i: int|
            if i < outputs.len() {
                TxOut {
                    address: outputs[i].0,
                    value: charged(
                        outputs[i].1,
                        share(
                            plan_charges(avail, outputs, fee_per_vbyte) as u64,
                            outputs.len() as u64,
                            i,
                        ),
                    ) as u64,
                }
            } else {
                TxOut {
                    address: main_address,
                    value: change_value(plan_change(avail, outputs)) as u64,
                }
            },
    )
}

/// The change output of the transaction, if there is any change.
pub open spec fn plan_change_output(
    avail: Seq<Utxo>,
    outputs: Seq<(BitcoinAddress, u64)>,
) -> Option<ChangeOutput> {
    if plan_change(avail, outputs) > 0 {
        Some(
            ChangeOutput {
                vout: outputs.len() as u64,
                value: change_value(plan_change(avail, outputs)) as u64,
            },
        )
    } else {
        None
    }
}

/// Why no transaction can be built, if none can: no outputs were selected,
/// or the fee exceeds the requested amounts.
pub open spec fn plan_error(
    avail: Seq<Utxo>,
    outputs: Seq<(BitcoinAddress, u64)>,
    fee_per_vbyte: u64,
) -> Option<BuildTxError> {
    if plan_utxos(avail, outputs).len() == 0 {
        Some(BuildTxError::NotEnoughFunds)
    } else if plan_fee(avail, outputs, fee_per_vbyte) > total_amount(outputs) {
        Some(BuildTxError::AmountTooLow)
    } else {
        None
    }
}

pub proof fn lemma_total_amount_prefix(outputs: Seq<(BitcoinAddress, u64)>, k: int)
    requires
        0 <= k <= outputs.len(),
    ensures
        0 <= total_amount(outputs.take(k)) <= total_amount(outputs),
    decreases outputs.len() - k,
{
    if k == outputs.len() {
        assert(outputs.take(k) =~= outputs);
        lemma_total_amount_nonnegative(outputs);
    } else {
        lemma_total_amount_prefix(outputs, k + 1);
        assert(outputs.take(k + 1).drop_last() =~= outputs.take(k));
        lemma_total_amount_nonnegative(outputs.take(k));
    }
}

pub proof fn lemma_total_amount_nonnegative(outputs: Seq<(BitcoinAddress, u64)>)
    ensures
        total_amount(outputs) >= 0,
    decreases outputs.len(),
{
    if outputs.len() > 0 {
        lemma_total_amount_nonnegative(outputs.drop_last());
    }
}

pub proof fn lemma_total_value_prefix(s: Seq<Utxo>, k: int)
    requires
        0 <= k <= s.len(),
    ensures
        0 <= total_value(s.take(k)) <= total_value(s),
    decreases s.len() - k,
{
    if k == s.len() {
        assert(s.take(k) =~= s);
        lemma_total_value_nonnegative(s);
    } else {
        lemma_total_value_prefix(s, k + 1);
        assert(s.take(k + 1).drop_last() =~= s.take(k));
        lemma_total_value_nonnegative(s.take(k));
    }
}

fn amount_of(outputs: &Vec<(BitcoinAddress, u64)>) -> (amount: u64)
    requires
        total_amount(outputs@) <= u64::MAX,
    ensures
        amount == total_amount(outputs@),
{
    let mut amount: u64 = 0;
    let mut i: usize = 0;
    assert(outputs@.take(0) =~= Seq::<(BitcoinAddress, u64)>::empty());
    while i < outputs.len()
        invariant
            i <= outputs@.len(),
            total_amount(outputs@) <= u64::MAX,
            amount == total_amount(outputs@.take(i as int)),
        decreases outputs@.len() - i,
    {
        proof {
            lemma_total_amount_prefix(outputs@, i + 1);
            assert(outputs@.take(i + 1).drop_last() =~= outputs@.take(i as int));
        }
        amount = amount + outputs[i].1;
        i = i + 1;
    }
    assert(outputs@.take(i as int) =~= outputs@);
    amount
}

fn value_of(utxos: &Vec<Utxo>) -> (value: u64)
    requires
        total_value(utxos@) <= u64::MAX,
    ensures
        value == total_value(utxos@),
{
    let mut value: u64 = 0;
    let mut i: usize = 0;
    assert(utxos@.take(0) =~= Seq::<Utxo>::empty());
    while i < utxos.len()
        invariant
            i <= utxos@.len(),
            total_value(utxos@) <= u64::MAX,
            value == total_value(utxos@.take(i as int)),
        decreases utxos@.len() - i,
    {
        proof {
            lemma_total_value_prefix(utxos@, i + 1);
            assert(utxos@.take(i + 1).drop_last() =~= utxos@.take(i as int));
        }
        value = value + utxos[i].value;
        i = i + 1;
    }
    assert(utxos@.take(i as int) =~= utxos@);
    value
}

/// Builds the transaction that pays the requested amounts from outputs that
/// the minter owns, and takes those outputs out of the available set. The
/// recipients pay the fee; the change goes to the main address.
///
/// Where the available outputs do not cover the amounts, or the amounts do
/// not cover the fee, no transaction is built and the available set is as
/// it was.
pub fn build_unsigned_transaction(
    minter_utxos: &mut UtxoSet,
    outputs: Vec<(BitcoinAddress, u64)>,
    main_address: BitcoinAddress,
    fee_per_vbyte: u64,
) -> (result: Result<(UnsignedTransaction, Option<ChangeOutput>, Vec<Utxo>), BuildTxError>)
    requires
        old(minter_utxos).wf(),
        outputs@.len() > 0,
        total_amount(outputs@) + MIN_CHANGE <= u64::MAX,
        total_value(old(minter_utxos)@) <= u64::MAX,
    ensures
        final(minter_utxos).wf(),
        match result {
            Ok((tx, change_output, utxos)) => {
                &&& plan_error(old(minter_utxos)@, outputs@, fee_per_vbyte) is None
                &&& utxos@ == plan_utxos(old(minter_utxos)@, outputs@)
                &&& final(minter_utxos)@ == remaining(
                    total_amount(outputs@) as u64,
                    old(minter_utxos)@,
                )
                &&& tx.inputs@ == inputs_spending(utxos@)
                &&& tx.outputs@ == plan_outputs(
                    old(minter_utxos)@,
                    outputs@,
                    main_address,
                    fee_per_vbyte,
                )
                &&& tx.lock_time == 0
                &&& change_output == plan_change_output(old(minter_utxos)@, outputs@)
            },
            Err(e) => {
                &&& plan_error(old(minter_utxos)@, outputs@, fee_per_vbyte) == Some(e)
                &&& final(minter_utxos)@ == old(minter_utxos)@
            },
        },
{
    let ghost avail = minter_utxos@;
    let n: usize = outputs.len();
    proof {
        lemma_total_amount_nonnegative(outputs@);
        lemma_total_value_nonnegative(avail);
    }
    let amount: u64 = amount_of(&outputs);
    let input_utxos: Vec<Utxo> = greedy(amount, minter_utxos);
    if input_utxos.len() == 0 {
        return Err(BuildTxError::NotEnoughFunds);
    }
    proof {
        lemma_total_value_nonnegative(minter_utxos@);
    }
    let inputs_value: u64 = value_of(&input_utxos);
    let change: u64 = inputs_value - amount;
    let change_output: Option<ChangeOutput> = if change > 0 {
        Some(
            ChangeOutput {
                vout: n as u64,
                value: if change < MIN_CHANGE {
                    MIN_CHANGE
                } else {
                    change
                },
            },
        )
    } else {
        None
    };
    // A change below the least value is raised to it. What is added is
    // charged to the recipients together with the fee.
    let overdraft: u64 = if change > 0 {
        MIN_CHANGE.saturating_sub(change)
    } else {
        0
    };
    assert(overdraft == overdraft_of(change as int));

    let mut tx_outputs: Vec<TxOut> = Vec::new();
    let mut i: usize = 0;
    while i < n
        invariant
            i <= n,
            n == outputs@.len(),
            tx_outputs@.len() == i,
            forall|k: int|
                0 <= k < i ==> #[trigger] tx_outputs@[k] == (TxOut {
                    address: outputs@[k].0,
                    value: outputs@[k].1,
                }),
        decreases n - i,
    {
        tx_outputs.push(TxOut { address: outputs[i].0, value: outputs[i].1 });
        i = i + 1;
    }
    match change_output {
        Some(out) => {
            tx_outputs.push(TxOut { address: main_address, value: out.value });
        },
        None => {},
    }
    let mut inputs: Vec<UnsignedInput> = Vec::new();
    let mut j: usize = 0;
    while j < input_utxos.len()
        invariant
            j <= input_utxos@.len(),
            inputs@.len() == j,
            forall|k: int| 0 <= k < j ==> #[trigger] inputs@[k] == inputs_spending(input_utxos@)[k],
        decreases input_utxos@.len() - j,
    {
        inputs.push(
            UnsignedInput {
                previous_output: input_utxos[j].outpoint,
                value: input_utxos[j].value,
                sequence: SEQUENCE_RBF_ENABLED,
            },
        );
        j = j + 1;
    }
    assert(inputs@ =~= inputs_spending(input_utxos@));
    let mut unsigned_tx = UnsignedTransaction { inputs, outputs: tx_outputs, lock_time: 0 };
    assert(unsigned_tx.outputs@.len() == plan_output_count(avail, outputs@));

    let signed = fake_sign(&unsigned_tx);
    proof {
        lemma_fake_signed_vsize(unsigned_tx, signed);
    }
    let tx_vsize: u64 = signed.vsize();
    assert(tx_vsize as u128 * fee_per_vbyte as u128 <= 0xffff_ffff_ffff_ffff * 0xffff_ffff_ffff_ffff)
        by (nonlinear_arith)
        requires
            tx_vsize <= 0xffff_ffff_ffff_ffff,
            fee_per_vbyte <= 0xffff_ffff_ffff_ffff,
    ;
    let fee: u128 = (tx_vsize as u128 * fee_per_vbyte as u128) / 1000;
    assert(fee == plan_fee(avail, outputs@, fee_per_vbyte));

    if fee > amount as u128 {
        proof {
            crate::coins::lemma_selection_partition(amount, avail);
        }
        let ghost left = minter_utxos@;
        minter_utxos.insert_all(&input_utxos);
        proof {
            let restored = minter_utxos@;
            assert(left == remaining(amount, avail));
            assert(input_utxos@ == selected(amount, avail));
            lemma_selection_undone(amount, avail, restored);
        }
        return Err(BuildTxError::AmountTooLow);
    }
    let charges: u64 = fee as u64 + overdraft;
    let fee_shares: Vec<u64> = distribute(charges, n as u64);

    let mut charged_outputs: Vec<TxOut> = Vec::new();
    let mut k: usize = 0;
    while k < unsigned_tx.outputs.len()
        invariant
            k <= unsigned_tx.outputs@.len(),
            n == outputs@.len(),
            n > 0,
            n <= unsigned_tx.outputs@.len() <= n + 1,
            fee_shares@ == crate::shares::shares_of(charges, n as u64),
            charged_outputs@.len() == k,
            forall|m: int|
                0 <= m < k ==> #[trigger] charged_outputs@[m] == (if m < n {
                    TxOut {
                        address: unsigned_tx.outputs@[m].address,
                        value: charged(unsigned_tx.outputs@[m].value, share(charges, n as u64, m)) as u64,
                    }
                } else {
                    unsigned_tx.outputs@[m]
                }),
        decreases unsigned_tx.outputs@.len() - k,
    {
        let output: TxOut = unsigned_tx.outputs[k];
        if k < n {
            proof {
                lemma_share_bounds(charges, n as u64, k as int);
            }
            // The requested amounts are meant to exceed their shares of
            // the charges. Where one does not, its output is left empty.
            charged_outputs.push(
                TxOut { address: output.address, value: output.value.saturating_sub(fee_shares[k]) },
            );
        } else {
            charged_outputs.push(output);
        }
        k = k + 1;
    }
    proof {
        let planned = plan_outputs(avail, outputs@, main_address, fee_per_vbyte);
        assert(charges == plan_charges(avail, outputs@, fee_per_vbyte));
        assert forall|m: int| 0 <= m < planned.len() implies charged_outputs@[m] == planned[m] by {
            if m < n {
                assert(unsigned_tx.outputs@[m] == (TxOut {
                    address: outputs@[m].0,
                    value: outputs@[m].1,
                }));
            }
        }
        assert(charged_outputs@ =~= planned);
    }
    unsigned_tx.outputs = charged_outputs;
    Ok((unsigned_tx, change_output, input_utxos))
}

proof fn lemma_prefix_balance(
    planned: Seq<TxOut>,
    outputs: Seq<(BitcoinAddress, u64)>,
    charges: u64,
    k: int,
)
    requires
        0 <= k <= outputs.len() <= planned.len(),
        outputs.len() > 0,
        outputs.len() <= u64::MAX,
        forall|i: int|
            0 <= i < outputs.len() ==> (#[trigger] planned[i]).value == outputs[i].1 - share(
                charges,
                outputs.len() as u64,
                i,
            ),
    ensures
        total_out(planned.take(k)) == total_amount(outputs.take(k)) - crate::shares::total(
            crate::shares::shares_of(charges, outputs.len() as u64).take(k),
        ),
    decreases k,
{
    let shares = crate::shares::shares_of(charges, outputs.len() as u64);
    if k == 0 {
        assert(planned.take(0).len() == 0);
        assert(outputs.take(0).len() == 0);
        assert(shares.take(0).len() == 0);
    } else {
        lemma_prefix_balance(planned, outputs, charges, k - 1);
        lemma_share_bounds(charges, outputs.len() as u64, k - 1);
        assert(planned.take(k).drop_last() =~= planned.take(k - 1));
        assert(outputs.take(k).drop_last() =~= outputs.take(k - 1));
        assert(shares.take(k).drop_last() =~= shares.take(k - 1));
        assert(planned.take(k).last() == planned[k - 1]);
        assert(outputs.take(k).last() == outputs[k - 1]);
        assert(shares.take(k).last() == share(charges, outputs.len() as u64, k - 1));
    }
}

/// What holds of every transaction that is built. No recipient gets more
/// than was requested for it. The change output, where there is one, holds
/// the least change value or more. And where every requested amount covers
/// its share of the charges, the books balance: the inputs are worth the
/// fee and the outputs together.
pub proof fn lemma_built_transaction_balances(
    avail: Seq<Utxo>,
    outputs: Seq<(BitcoinAddress, u64)>,
    main_address: BitcoinAddress,
    fee_per_vbyte: u64,
)
    requires
        crate::utxo::strictly_ordered(avail),
        total_value(avail) <= u64::MAX,
        outputs.len() > 0,
        outputs.len() <= usize::MAX,
        total_amount(outputs) + MIN_CHANGE <= u64::MAX,
        plan_error(avail, outputs, fee_per_vbyte) is None,
    ensures
        plan_outputs(avail, outputs, main_address, fee_per_vbyte).len() >= outputs.len(),
        forall|i: int|
            0 <= i < outputs.len() ==> (#[trigger] plan_outputs(
                avail,
                outputs,
                main_address,
                fee_per_vbyte,
            )[i]).value <= outputs[i].1,
        plan_change(avail, outputs) >= 0,
        match plan_change_output(avail, outputs) {
            Some(change) => {
                &&& change.value >= MIN_CHANGE
                &&& change.vout == outputs.len()
                &&& plan_outputs(avail, outputs, main_address, fee_per_vbyte)[change.vout as int]
                    == (TxOut { address: main_address, value: change.value })
            },
            None => plan_outputs(avail, outputs, main_address, fee_per_vbyte).len()
                == outputs.len(),
        },
        (forall|i: int|
            0 <= i < outputs.len() ==> (#[trigger] outputs[i]).1 >= share(
                plan_charges(avail, outputs, fee_per_vbyte) as u64,
                outputs.len() as u64,
                i,
            )) ==> total_value(plan_utxos(avail, outputs)) == plan_fee(
            avail,
            outputs,
            fee_per_vbyte,
        ) + total_out(plan_outputs(avail, outputs, main_address, fee_per_vbyte)),
{
    let n = outputs.len();
    let amount = total_amount(outputs) as u64;
    let planned = plan_outputs(avail, outputs, main_address, fee_per_vbyte);
    let fee = plan_fee(avail, outputs, fee_per_vbyte);
    let change = plan_change(avail, outputs);
    let charges = plan_charges(avail, outputs, fee_per_vbyte);
    lemma_total_amount_nonnegative(outputs);
    if crate::coins::selection(amount, avail) is None {
        assert(plan_utxos(avail, outputs).len() == 0);
    }
    crate::coins::lemma_selection_covers(amount, avail);
    crate::coins::lemma_selection_partition(amount, avail);
    lemma_total_value_nonnegative(crate::coins::leftover(amount, avail));
    assert(fee >= 0) by (nonlinear_arith)
        requires
            fee == fake_vsize(
                plan_utxos(avail, outputs).len(),
                plan_output_count(avail, outputs),
            ) * fee_per_vbyte / 1000,
    ;
    assert forall|i: int| 0 <= i < n implies (#[trigger] planned[i]).value <= outputs[i].1 by {
        lemma_share_bounds(charges as u64, n as u64, i);
    }
    if (forall|i: int|
        0 <= i < n ==> (#[trigger] outputs[i]).1 >= share(charges as u64, n as u64, i)) {
        assert forall|i: int| 0 <= i < n implies (#[trigger] planned[i]).value == outputs[i].1
            - share(charges as u64, n as u64, i) by {
            lemma_share_bounds(charges as u64, n as u64, i);
            assert(outputs[i].1 >= share(charges as u64, n as u64, i));
        }
        lemma_prefix_balance(planned, outputs, charges as u64, n as int);
        crate::shares::lemma_distribute_is_fair(charges as u64, n as u64);
        let shares = crate::shares::shares_of(charges as u64, n as u64);
        assert(shares.take(n as int) =~= shares);
        assert(outputs.take(n as int) =~= outputs);
        if change > 0 {
            assert(planned.drop_last() =~= planned.take(n as int));
        } else {
            assert(planned.take(n as int) =~= planned);
        }
    }
}

} // verus!
