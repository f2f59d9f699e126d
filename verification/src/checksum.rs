//! The stream integrity marker: a 64-bit wrapping sum of the checksummed
//! byte region. Any change to a single byte of the region changes the sum,
//! which is what lets the decoder detect truncation or tampering.

use vstd::prelude::*;
use vstd::arithmetic::div_mod::lemma_small_mod;
use vstd::arithmetic::div_mod::lemma_mod_sub_multiples_vanish;
use vstd::arithmetic::div_mod::lemma_add_mod_noop;
use vstd::arithmetic::div_mod::lemma_mod_division_less_than_divisor;

verus! {

/// The unbounded sum of the bytes of a stream.
pub open spec fn byte_sum(b: Seq<u8>) -> int
    decreases b.len(),
{
    if b.len() == 0 {
        0
    } else {
        byte_sum(b.drop_last()) + b.last()
    }
}

/// The checksum stored in an archive trailer: the byte sum reduced to 64
/// bits.
pub open spec fn stream_sum(b: Seq<u8>) -> u64 {
    (byte_sum(b) % 0x1_0000_0000_0000_0000) as u64
}

/// Adds modulo 2^64.
pub fn wrap_add64(a: u64, b: u64) -> (r: u64)
    ensures
        r as int == (a + b) % 0x1_0000_0000_0000_0000,
{
    if a <= u64::MAX - b {
        let r = a + b;
        proof {
            lemma_small_mod((a + b) as nat, 0x1_0000_0000_0000_0000 as nat);
        }
        r
    } else {
        let r = a - (u64::MAX - b) - 1;
        proof {
            assert(r as int == a + b - 0x1_0000_0000_0000_0000);
            lemma_mod_sub_multiples_vanish(a + b, 0x1_0000_0000_0000_0000);
            lemma_small_mod(r as nat, 0x1_0000_0000_0000_0000 as nat);
        }
        r
    }
}

/// Computes the checksum of the byte region `[from, to)` of `b`.
pub fn checksum_range(b: &Vec<u8>, from: usize, to: usize) -> (r: u64)
    requires
        from <= to <= b@.len(),
    ensures
        r == stream_sum(b@.subrange(from as int, to as int)),
{
    let mut sum: u64 = 0;
    let mut j: usize = from;
    proof {
        assert(b@.subrange(from as int, from as int) =~= Seq::<u8>::empty());
    }
    while j < to
        invariant
            from <= j <= to <= b@.len(),
            sum == stream_sum(b@.subrange(from as int, j as int)),
        decreases to - j,
    {
        let v = b[j];
        let ghost pre = b@.subrange(from as int, j as int);
        let ghost post = b@.subrange(from as int, j + 1);
        sum = wrap_add64(sum, v as u64);
        proof {
            assert(post.drop_last() =~= pre);
            assert(post.last() == b@[j as int]);
            assert(byte_sum(post) == byte_sum(pre) + v);
            lemma_add_mod_noop(byte_sum(pre), v as int, 0x1_0000_0000_0000_0000);
            lemma_small_mod(v as nat, 0x1_0000_0000_0000_0000 as nat);
        }
        j = j + 1;
    }
    sum
}

/// Changing exactly one byte shifts the byte sum by exactly the change in
/// that byte.
pub proof fn lemma_byte_sum_one_diff(b1: Seq<u8>, b2: Seq<u8>, k: int)
    requires
        b1.len() == b2.len(),
        0 <= k < b1.len(),
        forall|j: int| 0 <= j < b1.len() && j != k ==> b1[j] == b2[j],
    ensures
        byte_sum(b1) - byte_sum(b2) == b1[k] - b2[k],
    decreases b1.len(),
{
    if k == b1.len() - 1 {
        assert(b1.drop_last() =~= b2.drop_last());
    } else {
        assert(forall|j: int|
            0 <= j < b1.drop_last().len() && j != k ==> b1.drop_last()[j] == b2.drop_last()[j]);
        lemma_byte_sum_one_diff(b1.drop_last(), b2.drop_last(), k);
        assert(b1.last() == b2.last());
    }
}

/// Shifting an integer by a small positive amount changes its 64-bit
/// residue.
proof fn lemma_mod_shift_ne(x: int, d: int)
    requires
        0 < d < 0x1_0000_0000_0000_0000,
    ensures
        (x + d) % 0x1_0000_0000_0000_0000 != x % 0x1_0000_0000_0000_0000,
{
    let m = 0x1_0000_0000_0000_0000;
    lemma_mod_division_less_than_divisor(x, m);
    lemma_add_mod_noop(x, d, m);
    lemma_small_mod(d as nat, m as nat);
    let r = x % m;
    if r + d < m {
        lemma_small_mod((r + d) as nat, m as nat);
    } else {
        lemma_mod_sub_multiples_vanish(r + d, m);
        lemma_small_mod((r + d - m) as nat, m as nat);
    }
}

/// Two equal-length streams that differ in exactly one byte have
/// different checksums: a single flipped byte is always detected.
pub proof fn lemma_stream_sum_one_diff(b1: Seq<u8>, b2: Seq<u8>, k: int)
    requires
        b1.len() == b2.len(),
        0 <= k < b1.len(),
        b1[k] != b2[k],
        forall|j: int| 0 <= j < b1.len() && j != k ==> b1[j] == b2[j],
    ensures
        stream_sum(b1) != stream_sum(b2),
{
    lemma_byte_sum_one_diff(b1, b2, k);
    if b1[k] > b2[k] {
        lemma_mod_shift_ne(byte_sum(b2), b1[k] - b2[k]);
    } else {
        lemma_mod_shift_ne(byte_sum(b1), b2[k] - b1[k]);
    }
}

} // verus!
