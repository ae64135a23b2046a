//! Unsigned integers as little-endian byte sequences.
use vstd::prelude::*;

verus! {

/// The number that `bytes` spell, least significant byte first.
pub open spec fn le_value(bytes: Seq<u8>) -> nat
    decreases bytes.len(),
{
    if bytes.len() == 0 {
        0
    } else {
        bytes[0] as nat + 256 * le_value(bytes.skip(1))
    }
}

/// The `width` lowest bytes of `value`, least significant byte first.
pub open spec fn le_bytes(value: nat, width: nat) -> Seq<u8>
    decreases width,
{
    if width == 0 {
        Seq::empty()
    } else {
        seq![(value % 256) as u8] + le_bytes(value / 256, (width - 1) as nat)
    }
}

/// The number of values that `width` bytes can spell.
pub open spec fn radix_pow(width: nat) -> nat
    decreases width,
{
    if width == 0 {
        1
    } else {
        256 * radix_pow((width - 1) as nat)
    }
}

pub proof fn lemma_radix_pow_values()
    ensures
        radix_pow(4) == 0x1_0000_0000,
        radix_pow(8) == 0x1_0000_0000_0000_0000,
{
    reveal_with_fuel(radix_pow, 9);
}

pub proof fn lemma_le_bytes_len(value: nat, width: nat)
    ensures
        le_bytes(value, width).len() == width,
    decreases width,
{
    if width > 0 {
        lemma_le_bytes_len(value / 256, (width - 1) as nat);
    }
}

/// Bytes spell a number below the count of values of their width.
pub proof fn lemma_le_value_bound(bytes: Seq<u8>)
    ensures
        le_value(bytes) < radix_pow(bytes.len()),
    decreases bytes.len(),
{
    if bytes.len() > 0 {
        lemma_le_value_bound(bytes.skip(1));
    }
}

/// A number that fits in `width` bytes is read back from its bytes.
pub proof fn lemma_le_value_of_bytes(value: nat, width: nat)
    requires
        value < radix_pow(width),
    ensures
        le_value(le_bytes(value, width)) == value,
    decreases width,
{
    if width > 0 {
        let rest = le_bytes(value / 256, (width - 1) as nat);
        let all = le_bytes(value, width);
        lemma_le_value_of_bytes(value / 256, (width - 1) as nat);
        assert(all.skip(1) =~= rest);
        assert(all[0] == (value % 256) as u8);
    }
}

/// Bytes are the bytes of the number they spell.
pub proof fn lemma_le_bytes_of_value(bytes: Seq<u8>)
    ensures
        le_bytes(le_value(bytes), bytes.len()) == bytes,
    decreases bytes.len(),
{
    if bytes.len() > 0 {
        let tail = bytes.skip(1);
        lemma_le_bytes_of_value(tail);
        let value = le_value(bytes);
        assert(value % 256 == bytes[0] as nat);
        assert(value / 256 == le_value(tail));
        assert(le_bytes(value, bytes.len()) =~= bytes);
    }
}

/// Appends the four bytes of `value` to `out`.
pub(crate) fn put_u32(out: &mut Vec<u8>, value: u32)
    ensures
        final(out)@ == old(out)@ + le_bytes(value as nat, 4),
{
    let b0: u8 = (value % 256) as u8;
    let r1: u32 = value / 256;
    let b1: u8 = (r1 % 256) as u8;
    let r2: u32 = r1 / 256;
    let b2: u8 = (r2 % 256) as u8;
    let r3: u32 = r2 / 256;
    let b3: u8 = (r3 % 256) as u8;
    out.push(b0);
    out.push(b1);
    out.push(b2);
    out.push(b3);
    proof {
        reveal_with_fuel(le_bytes, 5);
        assert(le_bytes(value as nat, 4) =~= seq![b0, b1, b2, b3]);
        assert(out@ =~= old(out)@ + seq![b0, b1, b2, b3]);
    }
}

/// Appends the eight bytes of `value` to `out`.
pub(crate) fn put_u64(out: &mut Vec<u8>, value: u64)
    ensures
        final(out)@ == old(out)@ + le_bytes(value as nat, 8),
{
    let b0: u8 = (value % 256) as u8;
    let r1: u64 = value / 256;
    let b1: u8 = (r1 % 256) as u8;
    let r2: u64 = r1 / 256;
    let b2: u8 = (r2 % 256) as u8;
    let r3: u64 = r2 / 256;
    let b3: u8 = (r3 % 256) as u8;
    let r4: u64 = r3 / 256;
    let b4: u8 = (r4 % 256) as u8;
    let r5: u64 = r4 / 256;
    let b5: u8 = (r5 % 256) as u8;
    let r6: u64 = r5 / 256;
    let b6: u8 = (r6 % 256) as u8;
    let r7: u64 = r6 / 256;
    let b7: u8 = (r7 % 256) as u8;
    out.push(b0);
    out.push(b1);
    out.push(b2);
    out.push(b3);
    out.push(b4);
    out.push(b5);
    out.push(b6);
    out.push(b7);
    proof {
        reveal_with_fuel(le_bytes, 9);
        assert(le_bytes(value as nat, 8) =~= seq![b0, b1, b2, b3, b4, b5, b6, b7]);
        assert(out@ =~= old(out)@ + seq![b0, b1, b2, b3, b4, b5, b6, b7]);
    }
}

/// Reads the four bytes of `bytes` that start at `at`.
pub(crate) fn get_u32(bytes: &[u8], at: usize) -> (value: u32)
    requires
        at + 4 <= bytes@.len(),
    ensures
        value == le_value(bytes@.subrange(at as int, at + 4)),
{
    let b0: u32 = bytes[at] as u32;
    let b1: u32 = bytes[at + 1] as u32;
    let b2: u32 = bytes[at + 2] as u32;
    let b3: u32 = bytes[at + 3] as u32;
    proof {
        let s = bytes@.subrange(at as int, at + 4);
        reveal_with_fuel(le_value, 5);
        assert(s.skip(1).skip(1).skip(1).skip(1).len() == 0);
        assert(le_value(s) == b0 + 256 * (b1 + 256 * (b2 + 256 * (b3 + 0))));
    }
    b0 + 256 * b1 + 65536 * b2 + 16777216 * b3
}

/// Reads the eight bytes of `bytes` that start at `at`.
pub(crate) fn get_u64(bytes: &[u8], at: usize) -> (value: u64)
    requires
        at + 8 <= bytes@.len(),
    ensures
        value == le_value(bytes@.subrange(at as int, at + 8)),
{
    let total: usize = bytes.len();
    let low: u32 = get_u32(bytes, at);
    let high: u32 = get_u32(bytes, at + 4);
    proof {
        let s = bytes@.subrange(at as int, at + 8);
        lemma_le_value_split(s, 4);
        assert(s.take(4) =~= bytes@.subrange(at as int, at + 4));
        assert(s.skip(4) =~= bytes@.subrange(at + 4, at + 8));
        lemma_radix_pow_values();
    }
    low as u64 + 0x1_0000_0000 * (high as u64)
}

/// The number that bytes spell is the number of a prefix plus the shifted number of the rest.
pub proof fn lemma_le_value_split(bytes: Seq<u8>, at: int)
    requires
        0 <= at <= bytes.len(),
    ensures
        le_value(bytes) == le_value(bytes.take(at)) + radix_pow(at as nat) * le_value(
            bytes.skip(at),
        ),
    decreases at,
{
    if at == 0 {
        assert(bytes.skip(0) =~= bytes);
        assert(bytes.take(0).len() == 0);
        assert(le_value(bytes.take(0)) == 0);
        assert(radix_pow(0) == 1);
    } else {
        let tail = bytes.skip(1);
        lemma_le_value_split(tail, at - 1);
        assert(tail.take(at - 1) =~= bytes.take(at).skip(1));
        assert(tail.skip(at - 1) =~= bytes.skip(at));
        assert(bytes.take(at)[0] == bytes[0]);
        let hi = le_value(bytes.skip(at));
        let lo = le_value(tail.take(at - 1));
        let p = radix_pow((at - 1) as nat);
        assert(le_value(tail) == lo + p * hi);
        assert(le_value(bytes.take(at)) == bytes[0] as nat + 256 * lo);
        assert(radix_pow(at as nat) == 256 * p);
        assert(256 * (lo + p * hi) == 256 * lo + (256 * p) * hi) by (nonlinear_arith);
        assert(le_value(bytes) == bytes[0] as nat + 256 * le_value(tail));
        assert(radix_pow(at as nat) * hi == (256 * p) * hi);
    }
}

} // verus!
