//! Byte strings read as big-endian numbers, and the arithmetic on 256-bit
//! numbers that signatures need.

use vstd::prelude::*;

verus! {

/// The number that a byte string spells when read big-endian.
pub open spec fn be_value(s: Seq<u8>) -> int
    decreases s.len(),
{
    if s.len() == 0 {
        0
    } else {
        be_value(s.drop_last()) * 256 + s.last()
    }
}

pub proof fn lemma_be_value_nonnegative(s: Seq<u8>)
    ensures
        be_value(s) >= 0,
    decreases s.len(),
{
    if s.len() > 0 {
        lemma_be_value_nonnegative(s.drop_last());
    }
}

/// Two byte strings of one length that spell the same number are equal.
pub proof fn lemma_be_value_injective(a: Seq<u8>, b: Seq<u8>)
    requires
        a.len() == b.len(),
        be_value(a) == be_value(b),
    ensures
        a == b,
    decreases a.len(),
{
    if a.len() > 0 {
        lemma_be_value_injective(a.drop_last(), b.drop_last());
        assert(a =~= a.drop_last().push(a.last()));
        assert(b =~= b.drop_last().push(b.last()));
    } else {
        assert(a =~= b);
    }
}

/// The first byte in which two strings differ decides which spells the
/// smaller number, however long the prefix compared.
pub proof fn lemma_be_value_order(a: Seq<u8>, b: Seq<u8>, k: int, m: int)
    requires
        a.len() == b.len(),
        0 <= k < m <= a.len(),
        forall|j: int| 0 <= j < k ==> a[j] == b[j],
        a[k] < b[k],
    ensures
        be_value(a.take(m)) < be_value(b.take(m)),
    decreases m,
{
    let x = a.take(m);
    let y = b.take(m);
    assert(x.drop_last() =~= a.take(m - 1));
    assert(y.drop_last() =~= b.take(m - 1));
    if m == k + 1 {
        assert(a.take(k) =~= b.take(k));
    } else {
        lemma_be_value_order(a, b, k, m - 1);
    }
}

/// 256 to the power of `n`.
pub open spec fn pow256(n: nat) -> int
    decreases n,
{
    if n == 0 {
        1
    } else {
        256 * pow256((n - 1) as nat)
    }
}

pub proof fn lemma_pow256_positive(n: nat)
    ensures
        pow256(n) > 0,
    decreases n,
{
    if n > 0 {
        lemma_pow256_positive((n - 1) as nat);
    }
}

/// Eight bytes spell a number below two to the power of 64.
pub proof fn lemma_pow256_values()
    ensures
        pow256(8) == 0x1_0000_0000_0000_0000,
        pow256(16) == 0x1_0000_0000_0000_0000_0000_0000_0000_0000,
        pow256(24) == 0x1_0000_0000_0000_0000_0000_0000_0000_0000_0000_0000_0000_0000,
        pow256(31) == 0x1_0000_0000_0000_0000_0000_0000_0000_0000_0000_0000_0000_0000_0000_0000_0000_00,
{
    reveal_with_fuel(pow256, 9);
    assert(pow256(8) == 0x1_0000_0000_0000_0000);
    assert(pow256(16) == pow256(8) * pow256(8)) by {
        lemma_pow256_add(8, 8);
    }
    assert(pow256(24) == pow256(16) * pow256(8)) by {
        lemma_pow256_add(16, 8);
    }
    assert(pow256(7) == 0x1_0000_0000_0000_00);
    assert(pow256(31) == pow256(24) * pow256(7)) by {
        lemma_pow256_add(24, 7);
    }
}

pub proof fn lemma_pow256_add(a: nat, b: nat)
    ensures
        pow256(a + b) == pow256(a) * pow256(b),
    decreases b,
{
    if b == 0 {
        assert(pow256(a) * 1 == pow256(a));
    } else {
        lemma_pow256_add(a, (b - 1) as nat);
        assert(pow256(a + b) == 256 * pow256((a + b - 1) as nat));
        assert(256 * (pow256(a) * pow256((b - 1) as nat)) == pow256(a) * (256 * pow256(
            (b - 1) as nat,
        ))) by (nonlinear_arith);
    }
}

/// A byte string spells a number below 256 to the power of its length.
pub proof fn lemma_be_value_bound(s: Seq<u8>)
    ensures
        0 <= be_value(s) < pow256(s.len()),
    decreases s.len(),
{
    if s.len() > 0 {
        lemma_be_value_bound(s.drop_last());
    }
}

/// The number that two byte strings spell one after the other.
pub proof fn lemma_be_value_concat(a: Seq<u8>, b: Seq<u8>)
    ensures
        be_value(a + b) == be_value(a) * pow256(b.len()) + be_value(b),
    decreases b.len(),
{
    if b.len() == 0 {
        assert(a + b =~= a);
    } else {
        lemma_be_value_concat(a, b.drop_last());
        assert((a + b).drop_last() =~= a + b.drop_last());
        let x = be_value(a);
        let p = pow256((b.len() - 1) as nat);
        let y = be_value(b.drop_last());
        assert((x * p + y) * 256 + b.last() == x * (256 * p) + (y * 256 + b.last()))
            by (nonlinear_arith);
    }
}

/// The `len` bytes that spell a number big-endian.
pub open spec fn be_bytes(v: int, len: nat) -> Seq<u8>
    decreases len,
{
    if len == 0 {
        Seq::empty()
    } else {
        be_bytes(v / 256, (len - 1) as nat).push((v % 256) as u8)
    }
}

/// The bytes of a number that fits spell that number.
pub proof fn lemma_be_bytes(v: int, len: nat)
    requires
        0 <= v < pow256(len),
    ensures
        be_bytes(v, len).len() == len,
        be_value(be_bytes(v, len)) == v,
    decreases len,
{
    if len > 0 {
        lemma_be_bytes(v / 256, (len - 1) as nat);
        assert(be_bytes(v, len).drop_last() =~= be_bytes(v / 256, (len - 1) as nat));
    }
}

/// A byte string is the bytes of the number it spells.
pub proof fn lemma_be_bytes_of_value(s: Seq<u8>)
    ensures
        be_bytes(be_value(s), s.len()) == s,
{
    lemma_be_value_bound(s);
    lemma_be_bytes(be_value(s), s.len());
    lemma_be_value_injective(be_bytes(be_value(s), s.len()), s);
}

/// The order of the group that signatures are made in.
pub open spec fn curve_order() -> int {
    0xFFFFFFFF_FFFFFFFF_FFFFFFFF_FFFFFFFE_BAAEDCE6_AF48A03B_BFD25E8C_D0364141int
}

/// Half the order, rounded down.
pub open spec fn half_order() -> int {
    0x7FFFFFFF_FFFFFFFF_FFFFFFFF_FFFFFFFF_5D576E73_57A4501D_DFE92F46_681B20A0int
}

/// The lower of the two values of `s` that make the same signature: where
/// `s` lies in the upper half of the group, the order less `s`.
pub open spec fn low_s(s: int) -> int {
    if half_order() < s < curve_order() {
        curve_order() - s
    } else {
        s
    }
}

/// A 256-bit number from its four 64-bit parts, highest first.
pub open spec fn from_limbs(l0: u64, l1: u64, l2: u64, l3: u64) -> int {
    l0 * 0x1_0000_0000_0000_0000_0000_0000_0000_0000_0000_0000_0000_0000int + l1
        * 0x1_0000_0000_0000_0000_0000_0000_0000_0000int + l2 * 0x1_0000_0000_0000_0000int + l3
}

/// The number that 32 bytes spell, from the numbers that its four runs of
/// eight bytes spell.
pub proof fn lemma_limbs(s: Seq<u8>)
    requires
        s.len() == 32,
    ensures
        be_value(s) == be_value(s.subrange(0, 8))
            * 0x1_0000_0000_0000_0000_0000_0000_0000_0000_0000_0000_0000_0000int + be_value(
            s.subrange(8, 16),
        ) * 0x1_0000_0000_0000_0000_0000_0000_0000_0000int + be_value(s.subrange(16, 24))
            * 0x1_0000_0000_0000_0000int + be_value(s.subrange(24, 32)),
{
    let a = s.subrange(0, 8);
    let b = s.subrange(8, 16);
    let c = s.subrange(16, 24);
    let d = s.subrange(24, 32);
    lemma_pow256_values();
    lemma_be_value_concat(a, b);
    lemma_be_value_concat(a + b, c);
    lemma_be_value_concat(a + b + c, d);
    assert(a + b + c + d =~= s);
    let va = be_value(a);
    let vb = be_value(b);
    let vc = be_value(c);
    let p = 0x1_0000_0000_0000_0000int;
    assert(((va * p + vb) * p + vc) * p == va * (p * p * p) + vb * (p * p) + vc * p)
        by (nonlinear_arith);
}

fn limb(bytes: &[u8], start: usize) -> (l: u64)
    requires
        start + 8 <= bytes@.len(),
    ensures
        l == be_value(bytes@.subrange(start as int, start + 8)),
{
    let len: usize = bytes.len();
    let mut l: u64 = 0;
    let mut k: usize = 0;
    assert(bytes@.subrange(start as int, start as int).len() == 0);
    while k < 8
        invariant
            k <= 8,
            start + 8 <= bytes@.len(),
            bytes@.len() == len,
            l == be_value(bytes@.subrange(start as int, start + k)),
        decreases 8 - k,
    {
        proof {
            let done = bytes@.subrange(start as int, start + k);
            let next = bytes@.subrange(start as int, start + k + 1);
            assert(next.drop_last() =~= done);
            lemma_be_value_bound(done);
            reveal_with_fuel(pow256, 9);
            assert(pow256(k as nat) <= 0x1_0000_0000_0000_00int);
        }
        l = l * 256 + bytes[start + k] as u64;
        k = k + 1;
    }
    l
}

fn put_limb(buf: &mut Vec<u8>, l: u64)
    ensures
        final(buf)@ == old(buf)@ + be_bytes(l as int, 8),
{
    let ghost before = buf@;
    let q1: u64 = l / 256;
    let q2: u64 = q1 / 256;
    let q3: u64 = q2 / 256;
    let q4: u64 = q3 / 256;
    let q5: u64 = q4 / 256;
    let q6: u64 = q5 / 256;
    let q7: u64 = q6 / 256;
    buf.push((q7 % 256) as u8);
    buf.push((q6 % 256) as u8);
    buf.push((q5 % 256) as u8);
    buf.push((q4 % 256) as u8);
    buf.push((q3 % 256) as u8);
    buf.push((q2 % 256) as u8);
    buf.push((q1 % 256) as u8);
    buf.push((l % 256) as u8);
    proof {
        reveal_with_fuel(be_bytes, 9);
        assert(buf@ =~= before + be_bytes(l as int, 8));
    }
}

/// The bytes of the lower of the two values of `s`.
pub fn normalize_s(s: &[u8]) -> (low: Vec<u8>)
    requires
        s@.len() == 32,
    ensures
        low@ == be_bytes(low_s(be_value(s@)), 32),
{
    let x0: u64 = limb(s, 0);
    let x1: u64 = limb(s, 8);
    let x2: u64 = limb(s, 16);
    let x3: u64 = limb(s, 24);
    proof {
        lemma_limbs(s@);
        assert(be_value(s@) == from_limbs(x0, x1, x2, x3));
    }
    let n0: u64 = 0xFFFF_FFFF_FFFF_FFFF;
    let n1: u64 = 0xFFFF_FFFF_FFFF_FFFE;
    let n2: u64 = 0xBAAE_DCE6_AF48_A03B;
    let n3: u64 = 0xBFD2_5E8C_D036_4141;
    let h0: u64 = 0x7FFF_FFFF_FFFF_FFFF;
    let h1: u64 = 0xFFFF_FFFF_FFFF_FFFF;
    let h2: u64 = 0x5D57_6E73_57A4_501D;
    let h3: u64 = 0xDFE9_2F46_681B_20A0;
    assert(from_limbs(n0, n1, n2, n3) == curve_order());
    assert(from_limbs(h0, h1, h2, h3) == half_order());
    let above_half: bool = x0 > h0 || (x0 == h0 && (x1 > h1 || (x1 == h1 && (x2 > h2 || (x2 == h2
        && x3 > h3)))));
    let below_order: bool = x0 < n0 || (x0 == n0 && (x1 < n1 || (x1 == n1 && (x2 < n2 || (x2 == n2
        && x3 < n3)))));
    assert(above_half == (half_order() < be_value(s@)));
    assert(below_order == (be_value(s@) < curve_order()));
    let mut low: Vec<u8> = Vec::new();
    if above_half && below_order {
        let base: u128 = 0x1_0000_0000_0000_0000;
        let t3: u128 = base + n3 as u128 - x3 as u128;
        let r3: u64 = (t3 % base) as u64;
        let c3: u128 = 1 - t3 / base;
        let t2: u128 = base + n2 as u128 - x2 as u128 - c3;
        let r2: u64 = (t2 % base) as u64;
        let c2: u128 = 1 - t2 / base;
        let t1: u128 = base + n1 as u128 - x1 as u128 - c2;
        let r1: u64 = (t1 % base) as u64;
        let c1: u128 = 1 - t1 / base;
        let t0: u128 = base + n0 as u128 - x0 as u128 - c1;
        let r0: u64 = (t0 % base) as u64;
        assert(from_limbs(r0, r1, r2, r3) == curve_order() - be_value(s@));
        put_limb(&mut low, r0);
        put_limb(&mut low, r1);
        put_limb(&mut low, r2);
        put_limb(&mut low, r3);
        proof {
            let v = low_s(be_value(s@));
            lemma_pow256_values();
            lemma_be_bytes(r0 as int, 8);
            lemma_be_bytes(r1 as int, 8);
            lemma_be_bytes(r2 as int, 8);
            lemma_be_bytes(r3 as int, 8);
            assert(low@.len() == 32);
            assert(low@.subrange(0, 8) =~= be_bytes(r0 as int, 8));
            assert(low@.subrange(8, 16) =~= be_bytes(r1 as int, 8));
            assert(low@.subrange(16, 24) =~= be_bytes(r2 as int, 8));
            assert(low@.subrange(24, 32) =~= be_bytes(r3 as int, 8));
            lemma_limbs(low@);
            assert(be_value(low@) == v);
            lemma_be_bytes_of_value(low@);
        }
    } else {
        crate::wire::put_bytes(&mut low, s);
        proof {
            lemma_be_bytes_of_value(s@);
        }
    }
    low
}

} // verus!
