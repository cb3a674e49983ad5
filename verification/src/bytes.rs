//! Little-endian numbers in byte sequences.

use vstd::prelude::*;

verus! {

/// The number whose little-endian bytes are `s`.
pub open spec fn le_value(s: Seq<u8>) -> nat
    decreases s.len(),
{
    if s.len() == 0 {
        0
    } else {
        s[0] as nat + 256 * le_value(s.drop_first())
    }
}

/// The `n` least significant bytes of `v`, least significant first.
pub open spec fn le_bytes(v: nat, n: nat) -> Seq<u8>
    decreases n,
{
    if n == 0 {
        Seq::empty()
    } else {
        seq![(v % 256) as u8] + le_bytes(v / 256, (n - 1) as nat)
    }
}

/// `n` bytes of `s` from `off` on, as a number.
pub open spec fn le_at(s: Seq<u8>, off: int, n: int) -> nat {
    le_value(s.subrange(off, off + n))
}

/// `s` with the bytes from `off` on replaced by `b`.
pub open spec fn overwrite(s: Seq<u8>, off: int, b: Seq<u8>) -> Seq<u8> {
    Seq::new(s.len(), |k: int| if off <= k < off + b.len() { b[k - off] } else { s[k] })
}

pub proof fn lemma_le_value_unfold(s: Seq<u8>)
    ensures
        s.len() == 2 ==> le_value(s) == s[0] + 256 * s[1],
        s.len() == 4 ==> le_value(s) == s[0] + 256 * s[1] + 65536 * s[2] + 16777216 * s[3],
        s.len() == 8 ==> le_value(s) == s[0] + 256 * s[1] + 65536 * s[2] + 16777216 * s[3]
            + 4294967296 * s[4] + 1099511627776 * s[5] + 281474976710656 * s[6]
            + 72057594037927936 * s[7],
{
    reveal_with_fuel(le_value, 9);
}

/// The number at `off`, read as two bytes.
pub fn u16_le(b: &[u8], off: usize) -> (res: u16)
    requires
        off + 2 <= b@.len(),
    ensures
        res == le_at(b@, off as int, 2),
{
    proof {
        lemma_le_value_unfold(b@.subrange(off as int, off + 2));
    }
    b[off] as u16 + 256 * b[off + 1] as u16
}

/// The number at `off`, read as four bytes.
pub fn u32_le(b: &[u8], off: usize) -> (res: u32)
    requires
        off + 4 <= b@.len(),
    ensures
        res == le_at(b@, off as int, 4),
{
    proof {
        lemma_le_value_unfold(b@.subrange(off as int, off + 4));
    }
    b[off] as u32 + 256 * b[off + 1] as u32 + 65536 * b[off + 2] as u32 + 16777216 * b[off
        + 3] as u32
}

/// The number at `off`, read as eight bytes.
pub fn u64_le(b: &[u8], off: usize) -> (res: u64)
    requires
        off + 8 <= b@.len(),
    ensures
        res == le_at(b@, off as int, 8),
{
    proof {
        lemma_le_value_unfold(b@.subrange(off as int, off + 8));
    }
    b[off] as u64 + 256 * b[off + 1] as u64 + 65536 * b[off + 2] as u64 + 16777216 * b[off
        + 3] as u64 + 4294967296 * b[off + 4] as u64 + 1099511627776 * b[off + 5] as u64
        + 281474976710656 * b[off + 6] as u64 + 72057594037927936 * b[off + 7] as u64
}

/// The `n` least significant bytes of `v`, least significant first.
pub fn to_le(v: u64, n: usize) -> (res: Vec<u8>)
    ensures
        res@ == le_bytes(v as nat, n as nat),
        res@.len() == n,
{
    let mut out: Vec<u8> = Vec::new();
    let mut rest: u64 = v;
    let mut i: usize = 0;
    while i < n
        invariant
            i <= n,
            out@.len() == i,
            out@ + le_bytes(rest as nat, (n - i) as nat) == le_bytes(v as nat, n as nat),
        decreases n - i,
    {
        let ghost before = out@;
        out.push((rest % 256) as u8);
        proof {
            assert(out@ + le_bytes((rest / 256) as nat, (n - i - 1) as nat) =~= before + le_bytes(
                rest as nat,
                (n - i) as nat,
            ));
        }
        rest = rest / 256;
        i = i + 1;
    }
    proof {
        assert(out@ + le_bytes(rest as nat, 0) =~= out@);
    }
    out
}

/// Replaces the bytes from `off` on.
pub fn put(s: &mut Vec<u8>, off: usize, b: &[u8])
    requires
        off + b@.len() <= old(s)@.len(),
    ensures
        final(s)@ == overwrite(old(s)@, off as int, b@),
{
    let ghost start = s@;
    let mut i: usize = 0;
    let size: usize = b.len();
    let total: usize = s.len();
    while i < size
        invariant
            size == b@.len(),
            total == s@.len(),
            i <= size,
            off + size <= s@.len(),
            s@ == overwrite(start, off as int, b@.take(i as int)),
        decreases size - i,
    {
        s.set(off + i, b[i]);
        i = i + 1;
        proof {
            assert(s@ =~= overwrite(start, off as int, b@.take(i as int)));
        }
    }
    proof {
        assert(b@.take(i as int) =~= b@);
    }
}

pub proof fn lemma_le_bytes_len(v: nat, n: nat)
    ensures
        le_bytes(v, n).len() == n,
    decreases n,
{
    if n > 0 {
        lemma_le_bytes_len(v / 256, (n - 1) as nat);
    }
}

/// The value range of `n` bytes: 256 to the power of `n`.
pub open spec fn byte_range(n: nat) -> nat
    decreases n,
{
    if n == 0 {
        1
    } else {
        256 * byte_range((n - 1) as nat)
    }
}

/// The number that `n` bytes stand for is within their range.
pub proof fn lemma_le_value_bound(s: Seq<u8>)
    ensures
        le_value(s) < byte_range(s.len()),
    decreases s.len(),
{
    if s.len() > 0 {
        lemma_le_value_bound(s.drop_first());
    }
}

/// A number is read back from its own bytes, where they can hold it.
pub proof fn law_le_round_trip(v: nat, n: nat)
    requires
        v < byte_range(n),
    ensures
        le_value(le_bytes(v, n)) == v,
    decreases n,
{
    if n > 0 {
        lemma_le_bytes_len(v, n);
        let s = le_bytes(v, n);
        assert(s.drop_first() =~= le_bytes(v / 256, (n - 1) as nat));
        law_le_round_trip(v / 256, (n - 1) as nat);
    }
}

/// What is written at `off` is read back from there.
pub proof fn law_put_is_read_back(s: Seq<u8>, off: int, v: nat, n: nat)
    requires
        0 <= off,
        off + n <= s.len(),
        v < byte_range(n),
    ensures
        le_at(overwrite(s, off, le_bytes(v, n)), off, n as int) == v,
{
    lemma_le_bytes_len(v, n);
    assert(overwrite(s, off, le_bytes(v, n)).subrange(off, off + n) =~= le_bytes(v, n));
    law_le_round_trip(v, n);
}

} // verus!
