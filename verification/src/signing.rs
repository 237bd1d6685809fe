//! From an unsigned transaction to a signed one: the placeholder witness
//! that a transaction is measured with, the hashes to sign, and the assembly
//! of the signatures.

use vstd::prelude::*;
use crate::hashes::{hash160, hash160_of};
use crate::signature::{EncodedSignature, encoded_signature, fake_signature};
use crate::tx::{
    SignedInput, SignedTransaction, TxOut, TxSigHasher, UnsignedInput, UnsignedTransaction,
    concat_map, input_bytes, lemma_concat_map_len, output_bytes, sighash_of, vsize_of,
    witness_bytes, PUBKEY_LEN,
};
use crate::wire::var_int_len;

verus! {

/// The public key that stands in a placeholder witness: 33 zero bytes.
pub open spec fn zero_pubkey() -> Seq<u8> {
    Seq::new(33, |i: int| 0u8)
}

/// Whether `signed` is `unsigned` with a witness for every input, outputs
/// and lock time unchanged.
pub open spec fn signs(unsigned: UnsignedTransaction, signed: SignedTransaction) -> bool {
    &&& signed.inputs@.len() == unsigned.inputs@.len()
    &&& forall|i: int|
        0 <= i < signed.inputs@.len() ==> {
            &&& (#[trigger] signed.inputs@[i]).previous_output
                == unsigned.inputs@[i].previous_output
            &&& signed.inputs@[i].sequence == unsigned.inputs@[i].sequence
        }
    &&& signed.outputs@ == unsigned.outputs@
    &&& signed.lock_time == unsigned.lock_time
}

/// Whether `signed` is `unsigned` with the placeholder witness on every
/// input.
pub open spec fn fake_signed(unsigned: UnsignedTransaction, signed: SignedTransaction) -> bool {
    &&& signs(unsigned, signed)
    &&& forall|i: int|
        0 <= i < signed.inputs@.len() ==> {
            &&& (#[trigger] signed.inputs@[i]).signature@ == fake_signature()
            &&& signed.inputs@[i].pubkey@ == zero_pubkey()
        }
}

/// Size without witnesses of a transaction with the given numbers of inputs
/// and outputs: 41 bytes an input, 31 an output, the two counts, version and
/// lock time.
pub open spec fn base_len(n_in: nat, n_out: nat) -> nat {
    4 + var_int_len(n_in as u64) + 41 * n_in + var_int_len(n_out as u64) + 31 * n_out + 4
}

/// Virtual size of a transaction whose inputs all carry the placeholder
/// witness of 108 bytes.
pub open spec fn fake_vsize(n_in: nat, n_out: nat) -> nat {
    if n_in == 0 {
        vsize_of(base_len(n_in, n_out), base_len(n_in, n_out))
    } else {
        vsize_of(base_len(n_in, n_out), base_len(n_in, n_out) + 2 + 108 * n_in)
    }
}

/// Sizes of a signed transaction in terms of its counts and its witnesses.
pub proof fn lemma_signed_lengths(tx: SignedTransaction)
    ensures
        tx.base_serialization().len() == base_len(tx.inputs@.len(), tx.outputs@.len()),
        tx.inputs@.len() == 0 ==> tx.serialization().len() == tx.base_serialization().len(),
        tx.inputs@.len() > 0 ==> tx.serialization().len() == tx.base_serialization().len() + 2
            + crate::tx::witnesses_bytes(tx.inputs@).len(),
{
    let fi = |i: SignedInput| input_bytes(i.previous_output, i.sequence);
    let fo = |o: TxOut| output_bytes(o);
    assert forall|i: int| 0 <= i < tx.inputs@.len() implies (#[trigger] fi(tx.inputs@[i])).len()
        == 41 by {}
    assert forall|i: int| 0 <= i < tx.outputs@.len() implies (#[trigger] fo(tx.outputs@[i])).len()
        == 31 by {}
    lemma_concat_map_len(tx.inputs@, fi, 41);
    lemma_concat_map_len(tx.outputs@, fo, 31);
    crate::wire::lemma_var_int_len(tx.inputs@.len() as u64);
    crate::wire::lemma_var_int_len(tx.outputs@.len() as u64);
}

/// A transaction with placeholder witnesses has the virtual size that its
/// counts of inputs and outputs give.
pub proof fn lemma_fake_signed_vsize(unsigned: UnsignedTransaction, signed: SignedTransaction)
    requires
        fake_signed(unsigned, signed),
    ensures
        signed.spec_vsize() == fake_vsize(unsigned.inputs@.len(), unsigned.outputs@.len()),
{
    lemma_signed_lengths(signed);
    let fw = |i: SignedInput| witness_bytes(i);
    assert forall|i: int| 0 <= i < signed.inputs@.len() implies (#[trigger] fw(
        signed.inputs@[i],
    )).len() == 108 by {
        assert(signed.inputs@[i].signature@.len() == 72);
        assert(signed.inputs@[i].pubkey@.len() == 33);
    }
    lemma_concat_map_len(signed.inputs@, fw, 108);
}

fn copy_outputs(outputs: &Vec<TxOut>) -> (copy: Vec<TxOut>)
    ensures
        copy@ == outputs@,
{
    let mut copy: Vec<TxOut> = Vec::new();
    let mut i: usize = 0;
    while i < outputs.len()
        invariant
            i <= outputs@.len(),
            copy@ == outputs@.take(i as int),
        decreases outputs@.len() - i,
    {
        copy.push(outputs[i]);
        assert(copy@ =~= outputs@.take(i + 1));
        i = i + 1;
    }
    assert(outputs@.take(i as int) =~= outputs@);
    copy
}

/// Gives every input the placeholder witness: a signature of the greatest
/// length and a public key of zero bytes. The result is as large as the
/// signed transaction will be at most.
pub fn fake_sign(unsigned_tx: &UnsignedTransaction) -> (signed: SignedTransaction)
    ensures
        fake_signed(*unsigned_tx, signed),
{
    let mut inputs: Vec<SignedInput> = Vec::new();
    let mut i: usize = 0;
    while i < unsigned_tx.inputs.len()
        invariant
            i <= unsigned_tx.inputs@.len(),
            inputs@.len() == i,
            forall|k: int|
                0 <= k < i ==> {
                    &&& (#[trigger] inputs@[k]).previous_output
                        == unsigned_tx.inputs@[k].previous_output
                    &&& inputs@[k].sequence == unsigned_tx.inputs@[k].sequence
                    &&& inputs@[k].signature@ == fake_signature()
                    &&& inputs@[k].pubkey@ == zero_pubkey()
                },
        decreases unsigned_tx.inputs@.len() - i,
    {
        let mut pubkey: Vec<u8> = Vec::new();
        let mut k: usize = 0;
        while k < PUBKEY_LEN
            invariant
                k <= PUBKEY_LEN,
                pubkey@ == Seq::new(k as nat, |j: int| 0u8),
            decreases PUBKEY_LEN - k,
        {
            pubkey.push(0);
            assert(pubkey@ =~= Seq::new((k + 1) as nat, |j: int| 0u8));
            k = k + 1;
        }
        inputs.push(
            SignedInput {
                previous_output: unsigned_tx.inputs[i].previous_output,
                sequence: unsigned_tx.inputs[i].sequence,
                signature: EncodedSignature::fake(),
                pubkey,
            },
        );
        i = i + 1;
    }
    SignedTransaction {
        inputs,
        outputs: copy_outputs(&unsigned_tx.outputs),
        lock_time: unsigned_tx.lock_time,
    }
}

/// The hashes to sign, one for each input: input `i` is hashed for the key
/// `pubkeys[i]`.
pub fn sighashes(unsigned_tx: &UnsignedTransaction, pubkeys: &Vec<Vec<u8>>) -> (hashes: Vec<[u8; 32]>)
    requires
        pubkeys@.len() == unsigned_tx.inputs@.len(),
    ensures
        hashes@.len() == unsigned_tx.inputs@.len(),
        forall|i: int|
            0 <= i < hashes@.len() ==> (#[trigger] hashes@[i])@ == sighash_of(
                *unsigned_tx,
                i,
                hash160_of(pubkeys@[i]@),
            ),
{
    let hasher = TxSigHasher::new(unsigned_tx);
    let mut hashes: Vec<[u8; 32]> = Vec::new();
    let mut i: usize = 0;
    while i < unsigned_tx.inputs.len()
        invariant
            i <= unsigned_tx.inputs@.len(),
            pubkeys@.len() == unsigned_tx.inputs@.len(),
            hasher.wf(),
            hasher.transaction() == *unsigned_tx,
            hashes@.len() == i,
            forall|k: int|
                0 <= k < i ==> (#[trigger] hashes@[k])@ == sighash_of(
                    *unsigned_tx,
                    k,
                    hash160_of(pubkeys@[k]@),
                ),
        decreases unsigned_tx.inputs@.len() - i,
    {
        let pkhash: [u8; 20] = hash160(pubkeys[i].as_slice());
        hashes.push(hasher.sighash(i, &pkhash));
        i = i + 1;
    }
    hashes
}

/// Whether `signed` carries, on every input, the given public key and the
/// witness form of the given signature.
pub open spec fn carries(
    signed: SignedTransaction,
    pubkeys: Seq<Vec<u8>>,
    signatures: Seq<Vec<u8>>,
) -> bool {
    forall|i: int|
        0 <= i < signed.inputs@.len() ==> {
            &&& (#[trigger] signed.inputs@[i]).signature@ == encoded_signature(signatures[i]@)
            &&& signed.inputs@[i].pubkey@ == pubkeys[i]@
        }
}

/// Assembles the signed transaction from the signatures gathered for the
/// inputs: input `i` gets the public key `pubkeys[i]` and the signature
/// `signatures[i]`, given as `r` and `s` of 32 bytes each.
pub fn sign_transaction(
    unsigned_tx: UnsignedTransaction,
    pubkeys: Vec<Vec<u8>>,
    signatures: Vec<Vec<u8>>,
) -> (signed: SignedTransaction)
    requires
        pubkeys@.len() == unsigned_tx.inputs@.len(),
        signatures@.len() == unsigned_tx.inputs@.len(),
        forall|i: int| 0 <= i < signatures@.len() ==> (#[trigger] signatures@[i])@.len() == 64,
    ensures
        signs(unsigned_tx, signed),
        carries(signed, pubkeys@, signatures@),
{
    let mut inputs: Vec<SignedInput> = Vec::new();
    let mut i: usize = 0;
    while i < unsigned_tx.inputs.len()
        invariant
            i <= unsigned_tx.inputs@.len(),
            pubkeys@.len() == unsigned_tx.inputs@.len(),
            signatures@.len() == unsigned_tx.inputs@.len(),
            forall|k: int| 0 <= k < signatures@.len() ==> (#[trigger] signatures@[k])@.len() == 64,
            inputs@.len() == i,
            forall|k: int|
                0 <= k < i ==> {
                    &&& (#[trigger] inputs@[k]).previous_output
                        == unsigned_tx.inputs@[k].previous_output
                    &&& inputs@[k].sequence == unsigned_tx.inputs@[k].sequence
                    &&& inputs@[k].signature@ == encoded_signature(signatures@[k]@)
                    &&& inputs@[k].pubkey@ == pubkeys@[k]@
                },
        decreases unsigned_tx.inputs@.len() - i,
    {
        let mut pubkey: Vec<u8> = Vec::new();
        crate::wire::put_bytes(&mut pubkey, pubkeys[i].as_slice());
        assert(pubkey@ =~= pubkeys@[i as int]@);
        inputs.push(
            SignedInput {
                previous_output: unsigned_tx.inputs[i].previous_output,
                sequence: unsigned_tx.inputs[i].sequence,
                signature: EncodedSignature::from_sec1(signatures[i].as_slice()),
                pubkey,
            },
        );
        i = i + 1;
    }
    SignedTransaction { inputs, outputs: unsigned_tx.outputs, lock_time: unsigned_tx.lock_time }
}

/// By how many bytes the signatures of the inputs fall short of the
/// placeholder, all inputs together.
pub open spec fn shortfall(inputs: Seq<SignedInput>) -> int
    decreases inputs.len(),
{
    if inputs.len() == 0 {
        0
    } else {
        shortfall(inputs.drop_last()) + (72 - inputs.last().signature@.len())
    }
}

/// Whether every input carries a signature no longer than the placeholder
/// and a compressed public key.
pub open spec fn witnesses_fit(inputs: Seq<SignedInput>) -> bool {
    forall|i: int|
        0 <= i < inputs.len() ==> (#[trigger] inputs[i]).signature@.len() <= 72
            && inputs[i].pubkey@.len() == PUBKEY_LEN
}

proof fn lemma_witnesses_len(inputs: Seq<SignedInput>)
    requires
        witnesses_fit(inputs),
    ensures
        crate::tx::witnesses_bytes(inputs).len() == 108 * inputs.len() - shortfall(inputs),
        0 <= shortfall(inputs) <= 72 * inputs.len(),
    decreases inputs.len(),
{
    if inputs.len() > 0 {
        let d = inputs.drop_last();
        assert forall|i: int| 0 <= i < d.len() implies (#[trigger] d[i]).signature@.len() <= 72
            && d[i].pubkey@.len() == PUBKEY_LEN by {
            assert(d[i] == inputs[i]);
        }
        lemma_witnesses_len(d);
        let last = inputs.last();
        assert(last == inputs[inputs.len() - 1]);
        assert(witness_bytes(last).len() == 36 + last.signature@.len());
    }
}

/// A signed transaction is never larger than it was measured with
/// placeholder witnesses, and smaller by at most a quarter of the bytes by
/// which its signatures fall short of the placeholder, rounded up. So where
/// the signatures are at most four bytes short in all, the two sizes differ
/// by one at most.
pub proof fn lemma_signed_vsize_close(
    unsigned: UnsignedTransaction,
    signed: SignedTransaction,
    fake: SignedTransaction,
)
    requires
        signs(unsigned, signed),
        fake_signed(unsigned, fake),
        witnesses_fit(signed.inputs@),
    ensures
        signed.spec_vsize() <= fake.spec_vsize(),
        fake.spec_vsize() - signed.spec_vsize() <= (shortfall(signed.inputs@) + 3) / 4,
        shortfall(signed.inputs@) <= 4 ==> fake.spec_vsize() - signed.spec_vsize() <= 1,
{
    lemma_signed_lengths(signed);
    lemma_signed_lengths(fake);
    lemma_fake_signed_vsize(unsigned, fake);
    lemma_witnesses_len(signed.inputs@);
    if signed.inputs@.len() == 0 {
        assert(shortfall(signed.inputs@) == 0);
    }
}

/// A transaction assembled from signatures whose `s` is below the order of
/// the group, and from compressed public keys, carries witnesses that fit.
pub proof fn lemma_signed_witnesses_fit(
    signed: SignedTransaction,
    pubkeys: Seq<Vec<u8>>,
    signatures: Seq<Vec<u8>>,
)
    requires
        carries(signed, pubkeys, signatures),
        pubkeys.len() == signed.inputs@.len(),
        signatures.len() == signed.inputs@.len(),
        forall|i: int| 0 <= i < pubkeys.len() ==> (#[trigger] pubkeys[i])@.len() == PUBKEY_LEN,
        forall|i: int|
            0 <= i < signatures.len() ==> (#[trigger] signatures[i])@.len() == 64
                && crate::bigint::be_value(signatures[i]@.skip(32)) < crate::bigint::curve_order(),
    ensures
        witnesses_fit(signed.inputs@),
{
    assert forall|i: int| 0 <= i < signed.inputs@.len() implies (#[trigger] signed.inputs@[i]).signature@.len()
        <= 72 && signed.inputs@[i].pubkey@.len() == PUBKEY_LEN by {
        assert(pubkeys[i]@.len() == PUBKEY_LEN);
        assert(signatures[i]@.len() == 64);
        crate::signature::lemma_encoded_signature_len(signatures[i]@);
    }
}

} // verus!
