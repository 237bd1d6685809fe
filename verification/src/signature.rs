//! Signatures as they stand in a witness: DER, followed by the byte that
//! says what was signed.

use vstd::prelude::*;
use crate::bigint::{
    be_bytes, be_value, curve_order, half_order, lemma_be_bytes, lemma_be_value_bound,
    lemma_be_value_concat, lemma_pow256_values, low_s, normalize_s, pow256,
};

verus! {

/// The byte that marks a signature over all inputs and outputs.
pub const SIGHASH_ALL: u8 = 1;

/// Length of the longest signature a witness can hold: 71 bytes of DER and
/// the marker byte.
pub const MAX_ENCODED_SIGNATURE_LEN: usize = 72;

/// A big-endian number without its leading zero bytes.
pub open spec fn strip_zeros(s: Seq<u8>) -> Seq<u8>
    decreases s.len(),
{
    if s.len() > 0 && s[0] == 0 {
        strip_zeros(s.skip(1))
    } else {
        s
    }
}

/// The content bytes of a DER integer for a big-endian number: the shortest
/// form, a single zero byte for zero, and a zero byte in front where the top
/// bit would else read as a sign.
pub open spec fn der_integer_body(s: Seq<u8>) -> Seq<u8> {
    let t = strip_zeros(s);
    if t.len() == 0 || t[0] >= 0x80 {
        seq![0u8] + t
    } else {
        t
    }
}

/// A DER integer: tag, length, content.
pub open spec fn der_integer(s: Seq<u8>) -> Seq<u8> {
    seq![0x02u8, der_integer_body(s).len() as u8] + der_integer_body(s)
}

/// A DER signature: the sequence of the two integers `r` and `s`.
pub open spec fn der_signature(r: Seq<u8>, s: Seq<u8>) -> Seq<u8> {
    seq![0x30u8, (der_integer(r).len() + der_integer(s).len()) as u8] + der_integer(r)
        + der_integer(s)
}

pub proof fn lemma_strip_zeros(s: Seq<u8>)
    ensures
        strip_zeros(s).len() <= s.len(),
        strip_zeros(s) == s.skip(s.len() - strip_zeros(s).len()),
        strip_zeros(s).len() > 0 ==> strip_zeros(s)[0] != 0,
        forall|i: int| 0 <= i < s.len() - strip_zeros(s).len() ==> s[i] == 0,
    decreases s.len(),
{
    if s.len() > 0 && s[0] == 0 {
        let t = s.skip(1);
        lemma_strip_zeros(t);
        let k = t.len() - strip_zeros(t).len();
        assert(t.skip(k) =~= s.skip(k + 1));
        assert forall|i: int| 0 <= i < s.len() - strip_zeros(s).len() implies s[i] == 0 by {
            if i > 0 {
                assert(t[i - 1] == 0);
            }
        }
    } else {
        assert(s.skip(0) =~= s);
    }
}

/// Length of a DER integer made from a number of at most 32 bytes: between
/// three and 35 bytes.
pub proof fn lemma_der_integer_len(s: Seq<u8>)
    requires
        s.len() <= 32,
    ensures
        3 <= der_integer(s).len() <= 35,
        der_integer(s).len() == 2 + der_integer_body(s).len(),
        s.len() > 0 && 0 < s[0] < 0x80 ==> der_integer(s).len() == 2 + s.len(),
        s.len() > 0 && s[0] >= 0x80 ==> der_integer(s).len() == 3 + s.len(),
        s.len() > 0 && s[0] < 0x80 ==> der_integer(s).len() <= 2 + s.len(),
{
    lemma_strip_zeros(s);
}

fn put_der_integer(buf: &mut Vec<u8>, bytes: &[u8])
    requires
        bytes@.len() <= 32,
    ensures
        final(buf)@ == old(buf)@ + der_integer(bytes@),
{
    let ghost before = buf@;
    let mut start: usize = 0;
    assert(bytes@.skip(0) =~= bytes@);
    while start < bytes.len() && bytes[start] == 0
        invariant
            start <= bytes@.len(),
            strip_zeros(bytes@) == strip_zeros(bytes@.skip(start as int)),
        decreases bytes@.len() - start,
    {
        assert(bytes@.skip(start as int).skip(1) =~= bytes@.skip(start + 1));
        start = start + 1;
    }
    let ghost t = bytes@.skip(start as int);
    assert(strip_zeros(bytes@) == t);
    let rest: usize = bytes.len() - start;
    let pad: bool = rest == 0 || bytes[start] >= 0x80;
    let n: usize = if pad {
        rest + 1
    } else {
        rest
    };
    buf.push(0x02);
    buf.push(n as u8);
    if pad {
        buf.push(0);
    }
    let mut i: usize = start;
    let ghost head = buf@;
    while i < bytes.len()
        invariant
            start <= i <= bytes@.len(),
            buf@ == head + bytes@.subrange(start as int, i as int),
        decreases bytes@.len() - i,
    {
        buf.push(bytes[i]);
        assert(bytes@.subrange(start as int, i + 1) =~= bytes@.subrange(start as int, i as int).push(
            bytes@[i as int],
        ));
        assert(buf@ =~= head + bytes@.subrange(start as int, i + 1));
        i = i + 1;
    }
    assert(bytes@.subrange(start as int, i as int) =~= t);
    assert(buf@ =~= before + der_integer(bytes@));
}

/// A signature in the form a witness holds it.
#[derive(Clone, Debug, PartialEq, Eq)]
pub struct EncodedSignature {
    bytes: Vec<u8>,
}

impl View for EncodedSignature {
    type V = Seq<u8>;

    closed spec fn view(&self) -> Seq<u8> {
        self.bytes@
    }
}

/// The bytes that stand in for a signature while a transaction is measured:
/// 71 times the byte `0xff` where the DER would be, and the marker byte.
pub open spec fn fake_signature() -> Seq<u8> {
    Seq::new(71, |i: int| 0xffu8).push(SIGHASH_ALL)
}

/// The witness form of a signature given as `r` and `s`, 32 bytes each:
/// the DER signature of `r` and the lower of the two values of `s`, and the
/// marker byte.
pub open spec fn encoded_signature(sec1: Seq<u8>) -> Seq<u8> {
    der_signature(sec1.take(32), be_bytes(low_s(be_value(sec1.skip(32))), 32)).push(SIGHASH_ALL)
}

/// A signature whose `s` is below the order of the group takes between nine
/// and 72 bytes in a witness: never more than the placeholder.
pub proof fn lemma_encoded_signature_len(sec1: Seq<u8>)
    requires
        sec1.len() == 64,
        be_value(sec1.skip(32)) < curve_order(),
    ensures
        9 <= encoded_signature(sec1).len() <= MAX_ENCODED_SIGNATURE_LEN,
{
    let r = sec1.take(32);
    let v = low_s(be_value(sec1.skip(32)));
    let low = be_bytes(v, 32);
    lemma_be_value_bound(sec1.skip(32));
    lemma_pow256_values();
    crate::bigint::lemma_pow256_add(31, 1);
    reveal_with_fuel(pow256, 2);
    assert(pow256(32) == pow256(31) * 256);
    assert(0 <= v <= half_order());
    lemma_be_bytes(v, 32);
    lemma_be_value_concat(low.take(1), low.skip(1));
    assert(low.take(1) + low.skip(1) =~= low);
    lemma_be_value_bound(low.skip(1));
    assert(low.take(1).drop_last() =~= Seq::<u8>::empty());
    assert(be_value(low.take(1)) == low[0]) by {
        reveal_with_fuel(be_value, 2);
    }
    assert(low[0] < 0x80) by {
        let p = pow256(31);
        assert(low[0] * p <= v);
        if low[0] >= 0x80 {
            assert(low[0] * p >= 0x80 * p) by (nonlinear_arith)
                requires
                    low[0] >= 0x80,
                    p > 0,
            ;
        }
    }
    lemma_der_integer_len(r);
    lemma_der_integer_len(low);
}

impl EncodedSignature {
    /// The bytes of the signature.
    pub fn as_slice(&self) -> (bytes: &[u8])
        ensures
            bytes@ == self@,
    {
        self.bytes.as_slice()
    }

    /// Number of bytes of the signature.
    pub fn len(&self) -> (n: usize)
        ensures
            n == self@.len(),
    {
        self.bytes.len()
    }

    /// A placeholder as long as the longest signature.
    pub fn fake() -> (sig: EncodedSignature)
        ensures
            sig@ == fake_signature(),
            sig@.len() == MAX_ENCODED_SIGNATURE_LEN,
    {
        let mut bytes: Vec<u8> = Vec::new();
        let mut i: usize = 0;
        while i < 71
            invariant
                i <= 71,
                bytes@ == Seq::new(i as nat, |k: int| 0xffu8),
            decreases 71 - i,
        {
            bytes.push(0xff);
            assert(bytes@ =~= Seq::new((i + 1) as nat, |k: int| 0xffu8));
            i = i + 1;
        }
        bytes.push(SIGHASH_ALL);
        EncodedSignature { bytes }
    }

    /// Encodes a signature given as `r` followed by `s`, 32 bytes each.
    pub fn from_sec1(sec1: &[u8]) -> (sig: EncodedSignature)
        requires
            sec1@.len() == 64,
        ensures
            sig@ == encoded_signature(sec1@),
    {
        let mut r: Vec<u8> = Vec::new();
        let mut high: Vec<u8> = Vec::new();
        let mut i: usize = 0;
        while i < 32
            invariant
                i <= 32,
                sec1@.len() == 64,
                r@ == sec1@.subrange(0, i as int),
                high@ == sec1@.subrange(32, 32 + i),
            decreases 32 - i,
        {
            r.push(sec1[i]);
            high.push(sec1[i + 32]);
            assert(r@ =~= sec1@.subrange(0, i + 1));
            assert(high@ =~= sec1@.subrange(32, 32 + i + 1));
            i = i + 1;
        }
        assert(r@ =~= sec1@.take(32));
        assert(high@ =~= sec1@.skip(32));
        let s: Vec<u8> = normalize_s(high.as_slice());
        proof {
            lemma_be_value_bound(high@);
            let v = low_s(be_value(high@));
            reveal_with_fuel(pow256, 2);
            lemma_pow256_values();
            crate::bigint::lemma_pow256_add(31, 1);
            assert(0 <= v < pow256(32));
            lemma_be_bytes(v, 32);
            lemma_der_integer_len(r@);
            lemma_der_integer_len(s@);
        }
        let mut body: Vec<u8> = Vec::new();
        put_der_integer(&mut body, r.as_slice());
        put_der_integer(&mut body, s.as_slice());
        assert(body@ =~= der_integer(r@) + der_integer(s@));
        let mut bytes: Vec<u8> = Vec::new();
        bytes.push(0x30);
        bytes.push(body.len() as u8);
        crate::wire::put_bytes(&mut bytes, body.as_slice());
        bytes.push(SIGHASH_ALL);
        assert(bytes@ =~= encoded_signature(sec1@));
        EncodedSignature { bytes }
    }
}

} // verus!
