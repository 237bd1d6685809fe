//! Integers as they stand on the wire: little-endian fields and the
//! variable-length count.

use vstd::prelude::*;

verus! {

/// The four bytes of a 32-bit field, lowest first.
pub open spec fn u32_le(v: u32) -> Seq<u8> {
    seq![
        (v % 256) as u8,
        (v / 0x100 % 256) as u8,
        (v / 0x1_0000 % 256) as u8,
        (v / 0x100_0000 % 256) as u8,
    ]
}

/// The eight bytes of a 64-bit field, lowest first.
pub open spec fn u64_le(v: u64) -> Seq<u8> {
    u32_le((v % 0x1_0000_0000) as u32) + u32_le((v / 0x1_0000_0000) as u32)
}

/// A count in its shortest variable-length form: one byte below 0xfd, else a
/// marker byte and two, four or eight bytes, lowest first.
pub open spec fn var_int(n: u64) -> Seq<u8> {
    if n < 0xfd {
        seq![n as u8]
    } else if n <= 0xffff {
        seq![0xfdu8, (n % 256) as u8, (n / 256) as u8]
    } else if n <= 0xffff_ffff {
        seq![0xfeu8] + u32_le(n as u32)
    } else {
        seq![0xffu8] + u64_le(n)
    }
}

/// Number of bytes that a count takes on the wire.
pub open spec fn var_int_len(n: u64) -> nat {
    if n < 0xfd {
        1
    } else if n <= 0xffff {
        3
    } else if n <= 0xffff_ffff {
        5
    } else {
        9
    }
}

pub proof fn lemma_var_int_len(n: u64)
    ensures
        var_int(n).len() == var_int_len(n),
{
}

/// Appends a 32-bit field.
pub fn put_u32(buf: &mut Vec<u8>, v: u32)
    ensures
        final(buf)@ == old(buf)@ + u32_le(v),
{
    let ghost before = buf@;
    buf.push((v % 256) as u8);
    buf.push((v / 0x100 % 256) as u8);
    buf.push((v / 0x1_0000 % 256) as u8);
    buf.push((v / 0x100_0000 % 256) as u8);
    assert(buf@ =~= before + u32_le(v));
}

/// Appends a 64-bit field.
pub fn put_u64(buf: &mut Vec<u8>, v: u64)
    ensures
        final(buf)@ == old(buf)@ + u64_le(v),
{
    let ghost before = buf@;
    let low: u32 = (v % 0x1_0000_0000) as u32;
    let high: u32 = (v / 0x1_0000_0000) as u32;
    put_u32(buf, low);
    put_u32(buf, high);
    assert(buf@ =~= before + u64_le(v));
}

/// Appends a count in its variable-length form.
pub fn put_var_int(buf: &mut Vec<u8>, n: u64)
    ensures
        final(buf)@ == old(buf)@ + var_int(n),
{
    let ghost before = buf@;
    if n < 0xfd {
        buf.push(n as u8);
    } else if n <= 0xffff {
        buf.push(0xfd);
        buf.push((n % 256) as u8);
        buf.push((n / 256) as u8);
    } else if n <= 0xffff_ffff {
        buf.push(0xfe);
        put_u32(buf, n as u32);
    } else {
        buf.push(0xff);
        put_u64(buf, n);
    }
    assert(buf@ =~= before + var_int(n));
}

/// Appends a run of bytes.
pub fn put_bytes(buf: &mut Vec<u8>, bytes: &[u8])
    ensures
        final(buf)@ == old(buf)@ + bytes@,
{
    let ghost before = buf@;
    let mut i: usize = 0;
    while i < bytes.len()
        invariant
            i <= bytes@.len(),
            buf@ == before + bytes@.take(i as int),
        decreases bytes@.len() - i,
    {
        buf.push(bytes[i]);
        assert(bytes@.take(i + 1) =~= bytes@.take(i as int).push(bytes@[i as int]));
        assert(buf@ =~= before + bytes@.take(i + 1));
        i = i + 1;
    }
    assert(bytes@.take(i as int) =~= bytes@);
}

} // verus!
