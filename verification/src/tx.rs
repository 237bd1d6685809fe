//! Transactions that spend pay-to-witness-key outputs: their wire format,
//! size, identifier and signature hashes.

use vstd::prelude::*;
use crate::address::BitcoinAddress;
use crate::hashes::{double_sha256, double_sha256_of};
use crate::signature::EncodedSignature;
use crate::utxo::OutPoint;
use crate::wire::{put_bytes, put_u32, put_u64, put_var_int, u32_le, u64_le, var_int};

verus! {

/// The transaction version that the minter writes.
pub const TX_VERSION: u32 = 2;

/// Length of a compressed public key.
pub const PUBKEY_LEN: usize = 33;

/// An input before it is signed: the output it spends, what that output is
/// worth, and the sequence number.
#[derive(Clone, Copy, Debug, PartialEq, Eq)]
pub struct UnsignedInput {
    pub previous_output: OutPoint,
    pub value: u64,
    pub sequence: u32,
}

/// An output: a value and the address it pays to.
#[derive(Clone, Copy, Debug, PartialEq, Eq)]
pub struct TxOut {
    pub value: u64,
    pub address: BitcoinAddress,
}

/// A transaction without signatures.
#[derive(Clone, Debug, PartialEq, Eq)]
pub struct UnsignedTransaction {
    pub inputs: Vec<UnsignedInput>,
    pub outputs: Vec<TxOut>,
    pub lock_time: u32,
}

/// An input with its witness: the signature and the public key it verifies
/// under.
#[derive(Clone, Debug, PartialEq, Eq)]
pub struct SignedInput {
    pub previous_output: OutPoint,
    pub sequence: u32,
    pub signature: EncodedSignature,
    pub pubkey: Vec<u8>,
}

/// A transaction ready to be broadcast.
#[derive(Clone, Debug, PartialEq, Eq)]
pub struct SignedTransaction {
    pub inputs: Vec<SignedInput>,
    pub outputs: Vec<TxOut>,
    pub lock_time: u32,
}

/// The encodings of the items of a sequence, one after the other.
pub open spec fn concat_map<T>(s: Seq<T>, f: spec_fn(T) -> Seq<u8>) -> Seq<u8>
    decreases s.len(),
{
    if s.len() == 0 {
        Seq::empty()
    } else {
        concat_map(s.drop_last(), f) + f(s.last())
    }
}

/// Where every item takes the same number of bytes, the whole takes that
/// number times the count.
pub proof fn lemma_concat_map_len<T>(s: Seq<T>, f: spec_fn(T) -> Seq<u8>, each: nat)
    requires
        forall|i: int| 0 <= i < s.len() ==> (#[trigger] f(s[i])).len() == each,
    ensures
        concat_map(s, f).len() == s.len() * each,
    decreases s.len(),
{
    if s.len() > 0 {
        let d = s.drop_last();
        assert forall|i: int| 0 <= i < d.len() implies (#[trigger] f(d[i])).len() == each by {
            assert(d[i] == s[i]);
        }
        lemma_concat_map_len(d, f, each);
        assert(f(s.last()) == f(s[s.len() - 1]));
        assert(s.len() * each == d.len() * each + each) by (nonlinear_arith)
            requires
                s.len() == d.len() + 1,
        ;
    } else {
        assert(s.len() * each == 0) by (nonlinear_arith)
            requires
                s.len() == 0,
        ;
    }
}

/// An outpoint on the wire: the transaction identifier, then the index.
pub open spec fn outpoint_bytes(o: OutPoint) -> Seq<u8> {
    o.txid@ + u32_le(o.vout)
}

/// An input on the wire, outside the witness: the outpoint, an empty script,
/// the sequence number.
pub open spec fn input_bytes(previous_output: OutPoint, sequence: u32) -> Seq<u8> {
    outpoint_bytes(previous_output) + seq![0u8] + u32_le(sequence)
}

/// An output on the wire: the value, then the locking script behind its
/// length.
pub open spec fn output_bytes(o: TxOut) -> Seq<u8> {
    u64_le(o.value) + var_int(o.address.script_pubkey().len() as u64) + o.address.script_pubkey()
}

/// The witness of an input: two items, the signature and the public key,
/// each behind its length.
pub open spec fn witness_bytes(i: SignedInput) -> Seq<u8> {
    seq![2u8] + var_int(i.signature@.len() as u64) + i.signature@ + var_int(
        i.pubkey@.len() as u64,
    ) + i.pubkey@
}

/// The inputs of an unsigned transaction on the wire, one after the other.
pub open spec fn unsigned_inputs_bytes(s: Seq<UnsignedInput>) -> Seq<u8> {
    concat_map(s, |i: UnsignedInput| input_bytes(i.previous_output, i.sequence))
}

/// The inputs of a signed transaction on the wire, without their
/// witnesses.
pub open spec fn signed_inputs_bytes(s: Seq<SignedInput>) -> Seq<u8> {
    concat_map(s, |i: SignedInput| input_bytes(i.previous_output, i.sequence))
}

/// The outputs of a transaction on the wire, one after the other.
pub open spec fn outputs_bytes(s: Seq<TxOut>) -> Seq<u8> {
    concat_map(s, |o: TxOut| output_bytes(o))
}

/// The witnesses of all inputs, one after the other.
pub open spec fn witnesses_bytes(s: Seq<SignedInput>) -> Seq<u8> {
    concat_map(s, |i: SignedInput| witness_bytes(i))
}

/// A transaction on the wire without any witness: version, inputs, outputs,
/// lock time.
pub open spec fn legacy_bytes(inputs: Seq<u8>, n_inputs: nat, outputs: Seq<TxOut>, lock_time: u32) -> Seq<u8> {
    u32_le(TX_VERSION) + var_int(n_inputs as u64) + inputs + var_int(outputs.len() as u64)
        + outputs_bytes(outputs) + u32_le(lock_time)
}

fn put_outpoint(buf: &mut Vec<u8>, o: &OutPoint)
    ensures
        final(buf)@ == old(buf)@ + outpoint_bytes(*o),
{
    let ghost before = buf@;
    put_bytes(buf, o.txid.as_slice());
    put_u32(buf, o.vout);
    assert(buf@ =~= before + outpoint_bytes(*o));
}

fn put_input(buf: &mut Vec<u8>, previous_output: &OutPoint, sequence: u32)
    ensures
        final(buf)@ == old(buf)@ + input_bytes(*previous_output, sequence),
{
    let ghost before = buf@;
    put_outpoint(buf, previous_output);
    buf.push(0);
    put_u32(buf, sequence);
    assert(buf@ =~= before + input_bytes(*previous_output, sequence));
}

fn put_output(buf: &mut Vec<u8>, o: &TxOut)
    ensures
        final(buf)@ == old(buf)@ + output_bytes(*o),
{
    let ghost before = buf@;
    put_u64(buf, o.value);
    match &o.address {
        BitcoinAddress::P2wpkhV0(hash) => {
            put_var_int(buf, 22);
            buf.push(0x00);
            buf.push(0x14);
            put_bytes(buf, hash.as_slice());
        },
    }
    assert(buf@ =~= before + output_bytes(*o));
}

fn put_outputs(buf: &mut Vec<u8>, outputs: &Vec<TxOut>)
    ensures
        final(buf)@ == old(buf)@ + var_int(outputs@.len() as u64) + outputs_bytes(outputs@),
{
    let ghost before = buf@;
    put_var_int(buf, outputs.len() as u64);
    let ghost head = buf@;
    let mut i: usize = 0;
    assert(outputs@.take(0) =~= Seq::<TxOut>::empty());
    assert(buf@ =~= head + outputs_bytes(outputs@.take(0)));
    while i < outputs.len()
        invariant
            i <= outputs@.len(),
            buf@ == head + outputs_bytes(outputs@.take(i as int)),
        decreases outputs@.len() - i,
    {
        put_output(buf, &outputs[i]);
        proof {
            let s = outputs@.take(i + 1);
            assert(s.drop_last() =~= outputs@.take(i as int));
            assert(buf@ =~= head + outputs_bytes(s));
        }
        i = i + 1;
    }
    assert(outputs@.take(i as int) =~= outputs@);
}

fn put_unsigned_inputs(buf: &mut Vec<u8>, inputs: &Vec<UnsignedInput>)
    ensures
        final(buf)@ == old(buf)@ + var_int(inputs@.len() as u64) + unsigned_inputs_bytes(inputs@),
{
    put_var_int(buf, inputs.len() as u64);
    let ghost head = buf@;
    let mut i: usize = 0;
    assert(inputs@.take(0) =~= Seq::<UnsignedInput>::empty());
    assert(buf@ =~= head + unsigned_inputs_bytes(inputs@.take(0)));
    while i < inputs.len()
        invariant
            i <= inputs@.len(),
            buf@ == head + unsigned_inputs_bytes(inputs@.take(i as int)),
        decreases inputs@.len() - i,
    {
        put_input(buf, &inputs[i].previous_output, inputs[i].sequence);
        proof {
            let s = inputs@.take(i + 1);
            assert(s.drop_last() =~= inputs@.take(i as int));
            assert(buf@ =~= head + unsigned_inputs_bytes(s));
        }
        i = i + 1;
    }
    assert(inputs@.take(i as int) =~= inputs@);
}

fn put_signed_inputs(buf: &mut Vec<u8>, inputs: &Vec<SignedInput>)
    ensures
        final(buf)@ == old(buf)@ + var_int(inputs@.len() as u64) + signed_inputs_bytes(inputs@),
{
    put_var_int(buf, inputs.len() as u64);
    let ghost head = buf@;
    let mut i: usize = 0;
    assert(inputs@.take(0) =~= Seq::<SignedInput>::empty());
    assert(buf@ =~= head + signed_inputs_bytes(inputs@.take(0)));
    while i < inputs.len()
        invariant
            i <= inputs@.len(),
            buf@ == head + signed_inputs_bytes(inputs@.take(i as int)),
        decreases inputs@.len() - i,
    {
        put_input(buf, &inputs[i].previous_output, inputs[i].sequence);
        proof {
            let s = inputs@.take(i + 1);
            assert(s.drop_last() =~= inputs@.take(i as int));
            assert(buf@ =~= head + signed_inputs_bytes(s));
        }
        i = i + 1;
    }
    assert(inputs@.take(i as int) =~= inputs@);
}

fn put_witnesses(buf: &mut Vec<u8>, inputs: &Vec<SignedInput>)
    ensures
        final(buf)@ == old(buf)@ + witnesses_bytes(inputs@),
{
    let ghost head = buf@;
    let mut i: usize = 0;
    assert(inputs@.take(0) =~= Seq::<SignedInput>::empty());
    assert(buf@ =~= head + witnesses_bytes(inputs@.take(0)));
    while i < inputs.len()
        invariant
            i <= inputs@.len(),
            buf@ == head + witnesses_bytes(inputs@.take(i as int)),
        decreases inputs@.len() - i,
    {
        let ghost before = buf@;
        let input = &inputs[i];
        buf.push(2);
        put_var_int(buf, input.signature.len() as u64);
        put_bytes(buf, input.signature.as_slice());
        put_var_int(buf, input.pubkey.len() as u64);
        put_bytes(buf, input.pubkey.as_slice());
        proof {
            assert(buf@ =~= before + witness_bytes(*input));
            let s = inputs@.take(i + 1);
            assert(s.drop_last() =~= inputs@.take(i as int));
            assert(buf@ =~= head + witnesses_bytes(s));
        }
        i = i + 1;
    }
    assert(inputs@.take(i as int) =~= inputs@);
}

impl UnsignedTransaction {
    /// The transaction on the wire.
    pub open spec fn serialization(&self) -> Seq<u8> {
        legacy_bytes(
            unsigned_inputs_bytes(self.inputs@),
            self.inputs@.len(),
            self.outputs@,
            self.lock_time,
        )
    }

    /// Writes the transaction as it stands on the wire.
    pub fn encode(&self) -> (bytes: Vec<u8>)
        ensures
            bytes@ == self.serialization(),
    {
        let mut buf: Vec<u8> = Vec::new();
        put_u32(&mut buf, TX_VERSION);
        put_unsigned_inputs(&mut buf, &self.inputs);
        put_outputs(&mut buf, &self.outputs);
        put_u32(&mut buf, self.lock_time);
        assert(buf@ =~= self.serialization());
        buf
    }

    /// The identifier of the transaction: the double hash of its wire form.
    pub fn txid(&self) -> (id: [u8; 32])
        ensures
            id@ == double_sha256_of(self.serialization()),
    {
        let bytes: Vec<u8> = self.encode();
        double_sha256(bytes.as_slice())
    }
}

/// Virtual size for a given size without and with witness: a quarter of the
/// weight, rounded up, where a byte outside the witness weighs four.
pub open spec fn vsize_of(base_len: nat, total_len: nat) -> nat {
    ((base_len * 3 + total_len + 3) / 4) as nat
}

impl SignedTransaction {
    /// The transaction on the wire without its witnesses.
    pub open spec fn base_serialization(&self) -> Seq<u8> {
        legacy_bytes(
            signed_inputs_bytes(self.inputs@),
            self.inputs@.len(),
            self.outputs@,
            self.lock_time,
        )
    }

    /// The transaction on the wire. Where it has inputs, the marker and the
    /// flag follow the version and the witnesses precede the lock time.
    pub open spec fn serialization(&self) -> Seq<u8> {
        if self.inputs@.len() == 0 {
            self.base_serialization()
        } else {
            u32_le(TX_VERSION) + seq![0u8, 1u8] + var_int(self.inputs@.len() as u64)
                + signed_inputs_bytes(self.inputs@) + var_int(self.outputs@.len() as u64)
                + outputs_bytes(self.outputs@) + witnesses_bytes(self.inputs@) + u32_le(
                self.lock_time,
            )
        }
    }

    /// The virtual size of the transaction.
    pub open spec fn spec_vsize(&self) -> nat {
        vsize_of(self.base_serialization().len(), self.serialization().len())
    }

    /// Writes the transaction without its witnesses.
    pub fn encode_base(&self) -> (bytes: Vec<u8>)
        ensures
            bytes@ == self.base_serialization(),
    {
        let mut buf: Vec<u8> = Vec::new();
        put_u32(&mut buf, TX_VERSION);
        put_signed_inputs(&mut buf, &self.inputs);
        put_outputs(&mut buf, &self.outputs);
        put_u32(&mut buf, self.lock_time);
        assert(buf@ =~= self.base_serialization());
        buf
    }

    /// Writes the transaction as it is broadcast.
    pub fn encode(&self) -> (bytes: Vec<u8>)
        ensures
            bytes@ == self.serialization(),
    {
        if self.inputs.len() == 0 {
            return self.encode_base();
        }
        let mut buf: Vec<u8> = Vec::new();
        put_u32(&mut buf, TX_VERSION);
        buf.push(0);
        buf.push(1);
        put_signed_inputs(&mut buf, &self.inputs);
        put_outputs(&mut buf, &self.outputs);
        put_witnesses(&mut buf, &self.inputs);
        put_u32(&mut buf, self.lock_time);
        assert(buf@ =~= self.serialization());
        buf
    }

    /// The virtual size that fees are charged on.
    pub fn vsize(&self) -> (size: u64)
        ensures
            size == self.spec_vsize(),
    {
        let base: u128 = self.encode_base().len() as u128;
        let total: u128 = self.encode().len() as u128;
        ((base * 3 + total + 3) / 4) as u64
    }

    /// The identifier of the transaction: the double hash of its wire form
    /// without the witnesses.
    pub fn txid(&self) -> (id: [u8; 32])
        ensures
            id@ == double_sha256_of(self.base_serialization()),
    {
        let bytes: Vec<u8> = self.encode_base();
        double_sha256(bytes.as_slice())
    }
}

/// The script that a signature for a pay-to-witness-key input commits to,
/// behind its length: duplicate, hash, push the 20-byte hash, compare, check
/// the signature.
pub open spec fn script_code(pkhash: Seq<u8>) -> Seq<u8> {
    seq![0x19u8, 0x76u8, 0xa9u8, 0x14u8] + pkhash + seq![0x88u8, 0xacu8]
}

/// The outpoints of all inputs, one after the other.
pub open spec fn prevouts_bytes(s: Seq<UnsignedInput>) -> Seq<u8> {
    concat_map(s, |i: UnsignedInput| outpoint_bytes(i.previous_output))
}

/// The sequence numbers of all inputs, one after the other.
pub open spec fn sequences_bytes(s: Seq<UnsignedInput>) -> Seq<u8> {
    concat_map(s, |i: UnsignedInput| u32_le(i.sequence))
}

/// The message that is hashed for the signature of input `index`: version,
/// hash of all outpoints, hash of all sequence numbers, the input's own
/// outpoint, script, value and sequence number, hash of all outputs, lock
/// time, and the kind of signature.
pub open spec fn sighash_preimage(tx: UnsignedTransaction, index: int, pkhash: Seq<u8>) -> Seq<u8> {
    u32_le(TX_VERSION) + double_sha256_of(prevouts_bytes(tx.inputs@)) + double_sha256_of(
        sequences_bytes(tx.inputs@),
    ) + outpoint_bytes(tx.inputs@[index].previous_output) + script_code(pkhash) + u64_le(
        tx.inputs@[index].value,
    ) + u32_le(tx.inputs@[index].sequence) + double_sha256_of(outputs_bytes(tx.outputs@)) + u32_le(
        tx.lock_time,
    ) + u32_le(crate::signature::SIGHASH_ALL as u32)
}

/// The hash that the signature of input `index` signs.
pub open spec fn sighash_of(tx: UnsignedTransaction, index: int, pkhash: Seq<u8>) -> Seq<u8> {
    double_sha256_of(sighash_preimage(tx, index, pkhash))
}

/// Computes the signature hashes of one transaction. The three hashes that
/// all inputs share are computed once.
pub struct TxSigHasher<'a> {
    tx: &'a UnsignedTransaction,
    hash_prevouts: [u8; 32],
    hash_sequence: [u8; 32],
    hash_outputs: [u8; 32],
}

impl<'a> TxSigHasher<'a> {
    /// The transaction whose inputs are hashed.
    pub closed spec fn transaction(&self) -> UnsignedTransaction {
        *self.tx
    }

    /// The shared hashes are those of the transaction.
    pub closed spec fn wf(&self) -> bool {
        &&& self.hash_prevouts@ == double_sha256_of(prevouts_bytes(self.tx.inputs@))
        &&& self.hash_sequence@ == double_sha256_of(sequences_bytes(self.tx.inputs@))
        &&& self.hash_outputs@ == double_sha256_of(outputs_bytes(self.tx.outputs@))
    }

    /// Computes the hashes that the inputs of the transaction share.
    pub fn new(tx: &'a UnsignedTransaction) -> (hasher: TxSigHasher<'a>)
        ensures
            hasher.wf(),
            hasher.transaction() == *tx,
    {
        let mut prevouts: Vec<u8> = Vec::new();
        let mut sequences: Vec<u8> = Vec::new();
        let mut i: usize = 0;
        assert(tx.inputs@.take(0) =~= Seq::<UnsignedInput>::empty());
        assert(prevouts@ =~= prevouts_bytes(tx.inputs@.take(0)));
        assert(sequences@ =~= sequences_bytes(tx.inputs@.take(0)));
        while i < tx.inputs.len()
            invariant
                i <= tx.inputs@.len(),
                prevouts@ == prevouts_bytes(tx.inputs@.take(i as int)),
                sequences@ == sequences_bytes(tx.inputs@.take(i as int)),
            decreases tx.inputs@.len() - i,
        {
            put_outpoint(&mut prevouts, &tx.inputs[i].previous_output);
            put_u32(&mut sequences, tx.inputs[i].sequence);
            proof {
                let s = tx.inputs@.take(i + 1);
                assert(s.drop_last() =~= tx.inputs@.take(i as int));
            }
            i = i + 1;
        }
        assert(tx.inputs@.take(i as int) =~= tx.inputs@);
        let mut outputs: Vec<u8> = Vec::new();
        let mut k: usize = 0;
        assert(tx.outputs@.take(0) =~= Seq::<TxOut>::empty());
        assert(outputs@ =~= outputs_bytes(tx.outputs@.take(0)));
        while k < tx.outputs.len()
            invariant
                k <= tx.outputs@.len(),
                outputs@ == outputs_bytes(tx.outputs@.take(k as int)),
            decreases tx.outputs@.len() - k,
        {
            put_output(&mut outputs, &tx.outputs[k]);
            proof {
                let s = tx.outputs@.take(k + 1);
                assert(s.drop_last() =~= tx.outputs@.take(k as int));
            }
            k = k + 1;
        }
        assert(tx.outputs@.take(k as int) =~= tx.outputs@);
        TxSigHasher {
            tx,
            hash_prevouts: double_sha256(prevouts.as_slice()),
            hash_sequence: double_sha256(sequences.as_slice()),
            hash_outputs: double_sha256(outputs.as_slice()),
        }
    }

    /// The hash to sign for input `index`, which spends an output locked to
    /// the key with hash `pkhash`.
    pub fn sighash(&self, index: usize, pkhash: &[u8; 20]) -> (hash: [u8; 32])
        requires
            self.wf(),
            index < self.transaction().inputs@.len(),
        ensures
            hash@ == sighash_of(self.transaction(), index as int, pkhash@),
    {
        let input = &self.tx.inputs[index];
        let mut buf: Vec<u8> = Vec::new();
        put_u32(&mut buf, TX_VERSION);
        put_bytes(&mut buf, self.hash_prevouts.as_slice());
        put_bytes(&mut buf, self.hash_sequence.as_slice());
        put_outpoint(&mut buf, &input.previous_output);
        let ghost head = buf@;
        buf.push(0x19);
        buf.push(0x76);
        buf.push(0xa9);
        buf.push(0x14);
        put_bytes(&mut buf, pkhash.as_slice());
        buf.push(0x88);
        buf.push(0xac);
        assert(buf@ =~= head + script_code(pkhash@));
        put_u64(&mut buf, input.value);
        put_u32(&mut buf, input.sequence);
        put_bytes(&mut buf, self.hash_outputs.as_slice());
        put_u32(&mut buf, self.tx.lock_time);
        put_u32(&mut buf, 1);
        assert(buf@ =~= sighash_preimage(*self.tx, index as int, pkhash@));
        double_sha256(buf.as_slice())
    }
}

} // verus!
