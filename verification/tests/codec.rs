use ckbtc_minter::address::BitcoinAddress;
use ckbtc_minter::bigint::normalize_s;
use ckbtc_minter::hashes::{double_sha256, hash160};
use ckbtc_minter::signature::{EncodedSignature, MAX_ENCODED_SIGNATURE_LEN, SIGHASH_ALL};
use ckbtc_minter::signing::{fake_sign, sighashes, sign_transaction};
use ckbtc_minter::tx::{
    SignedInput, SignedTransaction, TxOut, TxSigHasher, UnsignedInput, UnsignedTransaction,
    PUBKEY_LEN, TX_VERSION,
};
use ckbtc_minter::utxo::OutPoint;
use ckbtc_minter::wire::{put_u32, put_u64, put_var_int};
use sha2::{Digest, Sha256};

const ORDER: &str = "fffffffffffffffffffffffffffffffebaaedce6af48a03bbfd25e8cd0364141";
const HALF_ORDER: &str = "7fffffffffffffffffffffffffffffff5d576e7357a4501ddfe92f46681b20a0";

fn number(last: u8) -> Vec<u8> {
    let mut bytes = vec![0u8; 32];
    bytes[31] = last;
    bytes
}

fn sec1(r: &[u8], s: &[u8]) -> Vec<u8> {
    let mut both = r.to_vec();
    both.extend_from_slice(s);
    both
}

fn sample_tx() -> UnsignedTransaction {
    UnsignedTransaction {
        inputs: vec![UnsignedInput {
            previous_output: OutPoint { txid: [0x11; 32], vout: 3 },
            value: 100_000,
            sequence: 0xfffffffd,
        }],
        outputs: vec![TxOut { value: 0x0102030405, address: BitcoinAddress::P2wpkhV0([0x22; 20]) }],
        lock_time: 7,
    }
}

fn sample_tx_bytes() -> Vec<u8> {
    let mut expected = vec![2, 0, 0, 0, 1];
    expected.extend_from_slice(&[0x11; 32]);
    expected.extend_from_slice(&[3, 0, 0, 0, 0, 0xfd, 0xff, 0xff, 0xff, 1]);
    expected.extend_from_slice(&[5, 4, 3, 2, 1, 0, 0, 0, 22, 0, 20]);
    expected.extend_from_slice(&[0x22; 20]);
    expected.extend_from_slice(&[7, 0, 0, 0]);
    expected
}

#[test]
fn integers_on_the_wire() {
    let mut buf = Vec::new();
    put_u32(&mut buf, 0x0a0b0c0d);
    assert_eq!(buf, vec![0x0d, 0x0c, 0x0b, 0x0a]);
    let mut buf = Vec::new();
    put_u64(&mut buf, 0x0102030405060708);
    assert_eq!(buf, vec![8, 7, 6, 5, 4, 3, 2, 1]);
}

#[test]
fn counts_on_the_wire() {
    let cases: Vec<(u64, Vec<u8>)> = vec![
        (0, vec![0]),
        (0xfc, vec![0xfc]),
        (0xfd, vec![0xfd, 0xfd, 0]),
        (0xffff, vec![0xfd, 0xff, 0xff]),
        (0x10000, vec![0xfe, 0, 0, 1, 0]),
        (0xffff_ffff, vec![0xfe, 0xff, 0xff, 0xff, 0xff]),
        (0x1_0000_0000, vec![0xff, 0, 0, 0, 0, 1, 0, 0, 0]),
    ];
    for (n, expected) in cases {
        let mut buf = Vec::new();
        put_var_int(&mut buf, n);
        assert_eq!(buf, expected);
    }
}

#[test]
fn sha256_twice_of_nothing() {
    assert_eq!(
        hex::encode(double_sha256(&[])),
        "5df6e0e2761359d30a8275058e299fcc0381534545f55cf43e41983f5d4c9456"
    );
}

#[test]
fn hash160_of_nothing() {
    assert_eq!(hex::encode(hash160(&[])), "b472a266d0bd89c13706a4132ccfb16f7c3b9fcb");
}

#[test]
fn hash160_of_a_public_key() {
    let pubkey =
        hex::decode("0279be667ef9dcbbac55a06295ce870b07029bfcdb2dce28d959f2815b16f81798").unwrap();
    assert_eq!(hex::encode(hash160(&pubkey)), "751e76e8199196d454941c45d1b3a323f1433bd6");
}

#[test]
fn unsigned_transaction_on_the_wire() {
    assert_eq!(TX_VERSION, 2);
    assert_eq!(sample_tx().encode(), sample_tx_bytes());
}

#[test]
fn txid_is_the_double_hash_of_the_wire_form() {
    let once = Sha256::digest(sample_tx_bytes());
    let twice = Sha256::digest(once);
    assert_eq!(sample_tx().txid().to_vec(), twice.to_vec());
    assert_eq!(fake_sign(&sample_tx()).txid(), sample_tx().txid());
}

#[test]
fn empty_transaction_on_the_wire() {
    let tx = UnsignedTransaction { inputs: vec![], outputs: vec![], lock_time: 0 };
    assert_eq!(tx.encode(), vec![2, 0, 0, 0, 0, 0, 0, 0, 0, 0]);
    let signed = fake_sign(&tx);
    assert_eq!(signed.encode(), vec![2, 0, 0, 0, 0, 0, 0, 0, 0, 0]);
    assert_eq!(signed.vsize(), 10);
}

#[test]
fn signed_transaction_on_the_wire() {
    let signature = EncodedSignature::from_sec1(&sec1(&number(1), &number(2)));
    let tx = SignedTransaction {
        inputs: vec![SignedInput {
            previous_output: OutPoint { txid: [0x11; 32], vout: 3 },
            sequence: 0xfffffffd,
            signature,
            pubkey: vec![0x33; 33],
        }],
        outputs: vec![TxOut { value: 0x0102030405, address: BitcoinAddress::P2wpkhV0([0x22; 20]) }],
        lock_time: 7,
    };
    let mut expected = vec![2, 0, 0, 0, 0, 1, 1];
    expected.extend_from_slice(&[0x11; 32]);
    expected.extend_from_slice(&[3, 0, 0, 0, 0, 0xfd, 0xff, 0xff, 0xff, 1]);
    expected.extend_from_slice(&[5, 4, 3, 2, 1, 0, 0, 0, 22, 0, 20]);
    expected.extend_from_slice(&[0x22; 20]);
    expected.extend_from_slice(&[2, 9, 0x30, 6, 2, 1, 1, 2, 1, 2, 1, 33]);
    expected.extend_from_slice(&[0x33; 33]);
    expected.extend_from_slice(&[7, 0, 0, 0]);
    assert_eq!(tx.encode(), expected);
    assert_eq!(tx.encode_base(), sample_tx_bytes());
    // 82 bytes without the witness, 129 with it.
    assert_eq!(tx.vsize(), (82 * 3 + 129 + 3) / 4);
}

#[test]
fn fake_signature_has_the_greatest_length() {
    let fake = EncodedSignature::fake();
    assert_eq!(MAX_ENCODED_SIGNATURE_LEN, 72);
    assert_eq!(fake.len(), 72);
    assert_eq!(fake.as_slice()[71], SIGHASH_ALL);
    assert_eq!(PUBKEY_LEN, 33);
}

#[test]
fn fake_sign_keeps_inputs_and_outputs() {
    let tx = sample_tx();
    let signed = fake_sign(&tx);
    assert_eq!(signed.inputs.len(), 1);
    assert_eq!(signed.inputs[0].previous_output, tx.inputs[0].previous_output);
    assert_eq!(signed.inputs[0].sequence, tx.inputs[0].sequence);
    assert_eq!(signed.inputs[0].signature, EncodedSignature::fake());
    assert_eq!(signed.inputs[0].pubkey, vec![0u8; 33]);
    assert_eq!(signed.outputs, tx.outputs);
    assert_eq!(signed.lock_time, 7);
    // 82 bytes without the witness, 82 + 2 + 108 with it.
    assert_eq!(signed.vsize(), (82 * 3 + 192 + 3) / 4);
}

#[test]
fn signature_of_small_numbers() {
    let sig = EncodedSignature::from_sec1(&sec1(&number(1), &number(2)));
    assert_eq!(sig.as_slice(), &[0x30, 6, 2, 1, 1, 2, 1, 2, 1]);
}

#[test]
fn signature_of_zeros() {
    let sig = EncodedSignature::from_sec1(&sec1(&number(0), &number(0)));
    assert_eq!(sig.as_slice(), &[0x30, 6, 2, 1, 0, 2, 1, 0, 1]);
}

#[test]
fn signature_with_the_top_bit_set_in_r() {
    let mut r = vec![0u8; 32];
    r[0] = 0x80;
    let sig = EncodedSignature::from_sec1(&sec1(&r, &number(1)));
    let mut expected = vec![0x30, 38, 2, 33, 0, 0x80];
    expected.extend_from_slice(&[0; 31]);
    expected.extend_from_slice(&[2, 1, 1, 1]);
    assert_eq!(sig.as_slice(), expected.as_slice());
}

#[test]
fn signature_takes_the_low_value_of_s() {
    let mut s = hex::decode(ORDER).unwrap();
    s[31] -= 1;
    let sig = EncodedSignature::from_sec1(&sec1(&number(1), &s));
    assert_eq!(sig.as_slice(), &[0x30, 6, 2, 1, 1, 2, 1, 1, 1]);
}

#[test]
fn longest_signature_is_as_long_as_the_fake_one() {
    let r = vec![0xff; 32];
    let s = hex::decode(HALF_ORDER).unwrap();
    let sig = EncodedSignature::from_sec1(&sec1(&r, &s));
    assert_eq!(sig.len(), 72);
    let mut above = s.clone();
    above[31] += 1;
    let sig = EncodedSignature::from_sec1(&sec1(&r, &above));
    assert_eq!(sig.len(), 72);
    assert_eq!(&sig.as_slice()[39..71], s.as_slice());
}

#[test]
fn low_value_of_s() {
    let order = hex::decode(ORDER).unwrap();
    let half = hex::decode(HALF_ORDER).unwrap();
    assert_eq!(normalize_s(&half), half);
    assert_eq!(normalize_s(&number(1)), number(1));
    assert_eq!(normalize_s(&number(0)), number(0));
    let mut above = half.clone();
    above[31] += 1;
    assert_eq!(normalize_s(&above), half);
    let mut top = order.clone();
    top[31] -= 1;
    assert_eq!(normalize_s(&top), number(1));
    assert_eq!(normalize_s(&order), order);
    assert_eq!(normalize_s(&[0xff; 32]), vec![0xff; 32]);
    // A subtraction that borrows from one 64-bit part into the next.
    let s = hex::decode("8000000000000000000000000000000000000000000000000000000000000000")
        .unwrap();
    assert_eq!(
        hex::encode(normalize_s(&s)),
        "7ffffffffffffffffffffffffffffffebaaedce6af48a03bbfd25e8cd0364141"
    );
    let s = hex::decode("80000000000000000000000000000000ffffffffffffffffffffffffffffffff")
        .unwrap();
    assert_eq!(
        hex::encode(normalize_s(&s)),
        "7ffffffffffffffffffffffffffffffdbaaedce6af48a03bbfd25e8cd0364142"
    );
}

#[test]
fn sighash_is_the_double_hash_of_the_message() {
    let tx = sample_tx();
    let pkhash = [0x44u8; 20];
    let hasher = TxSigHasher::new(&tx);
    let prevouts: Vec<u8> = {
        let mut b = vec![0x11; 32];
        b.extend_from_slice(&[3, 0, 0, 0]);
        b
    };
    let outputs: Vec<u8> = {
        let mut b = vec![5, 4, 3, 2, 1, 0, 0, 0, 22, 0, 20];
        b.extend_from_slice(&[0x22; 20]);
        b
    };
    let mut message = vec![2, 0, 0, 0];
    message.extend_from_slice(&double_sha256(&prevouts));
    message.extend_from_slice(&double_sha256(&[0xfd, 0xff, 0xff, 0xff]));
    message.extend_from_slice(&prevouts);
    message.extend_from_slice(&[0x19, 0x76, 0xa9, 0x14]);
    message.extend_from_slice(&pkhash);
    message.extend_from_slice(&[0x88, 0xac]);
    message.extend_from_slice(&100_000u64.to_le_bytes());
    message.extend_from_slice(&[0xfd, 0xff, 0xff, 0xff]);
    message.extend_from_slice(&double_sha256(&outputs));
    message.extend_from_slice(&[7, 0, 0, 0, 1, 0, 0, 0]);
    assert_eq!(hasher.sighash(0, &pkhash), double_sha256(&message));
}

#[test]
fn sighashes_hash_each_input_for_its_key() {
    let mut tx = sample_tx();
    tx.inputs.push(UnsignedInput {
        previous_output: OutPoint { txid: [0x12; 32], vout: 0 },
        value: 5,
        sequence: 0xfffffffd,
    });
    let pubkeys = vec![vec![2u8; 33], vec![3u8; 33]];
    let hashes = sighashes(&tx, &pubkeys);
    let hasher = TxSigHasher::new(&tx);
    assert_eq!(hashes.len(), 2);
    assert_eq!(hashes[0], hasher.sighash(0, &hash160(&pubkeys[0])));
    assert_eq!(hashes[1], hasher.sighash(1, &hash160(&pubkeys[1])));
    assert_ne!(hashes[0], hashes[1]);
}

#[test]
fn sign_transaction_assembles_the_witnesses() {
    let tx = sample_tx();
    let signed = sign_transaction(
        tx.clone(),
        vec![vec![2u8; 33]],
        vec![sec1(&number(1), &number(2))],
    );
    assert_eq!(signed.inputs.len(), 1);
    assert_eq!(signed.inputs[0].previous_output, tx.inputs[0].previous_output);
    assert_eq!(signed.inputs[0].sequence, 0xfffffffd);
    assert_eq!(signed.inputs[0].pubkey, vec![2u8; 33]);
    assert_eq!(signed.inputs[0].signature.as_slice(), &[0x30, 6, 2, 1, 1, 2, 1, 2, 1]);
    assert_eq!(signed.outputs, tx.outputs);
    assert_eq!(signed.lock_time, 7);
}

#[test]
fn signed_size_is_close_to_the_measured_size() {
    let tx = sample_tx();
    let fake = fake_sign(&tx).vsize();
    let r = vec![0xff; 32];
    let s = hex::decode(HALF_ORDER).unwrap();
    let longest = sign_transaction(tx.clone(), vec![vec![2u8; 33]], vec![sec1(&r, &s)]);
    assert_eq!(longest.vsize(), fake);
    let mut shorter_r = r.clone();
    shorter_r[0] = 0x7f;
    let one_short = sign_transaction(tx.clone(), vec![vec![2u8; 33]], vec![sec1(&shorter_r, &s)]);
    assert!(fake - one_short.vsize() <= 1);
    assert!(one_short.vsize() <= fake);
}
