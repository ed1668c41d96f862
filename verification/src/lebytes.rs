//! Little-endian integer fields of byte buffers.
//!
//! Every multi-byte field of an NTFS structure is stored little-endian.
//! `le` gives the mathematical value of such a field; `read_le` is its
//! executable counterpart on a `Vec<u8>`.

use vstd::prelude::*;

verus! {

/// Value of the `n`-byte little-endian integer stored in `s` at offset `i`.
pub open spec fn le(s: Seq<u8>, i: int, n: int) -> int
    decreases n,
{
    if n <= 0 {
        0
    } else {
        s[i] + 256 * le(s, i + 1, n - 1)
    }
}

/// `256^n` for `n >= 0`, `1` otherwise.
pub open spec fn pow256(n: int) -> int
    decreases n,
{
    if n <= 0 {
        1
    } else {
        256 * pow256(n - 1)
    }
}

pub proof fn lemma_le_bound(s: Seq<u8>, i: int, n: int)
    requires
        0 <= i,
        i + n <= s.len(),
    ensures
        0 <= le(s, i, n) < pow256(n),
    decreases n,
{
    if n > 0 {
        lemma_le_bound(s, i + 1, n - 1);
    }
}

/// `le` reads only the bytes of its window: two buffers that agree there
/// give the same value.
pub proof fn lemma_le_agree(s: Seq<u8>, t: Seq<u8>, i: int, j: int, n: int)
    requires
        forall|k: int| 0 <= k < n ==> #[trigger] s[i + k] == t[j + k],
    ensures
        le(s, i, n) == le(t, j, n),
    decreases n,
{
    if n > 0 {
        assert(s[i + 0] == t[j + 0]);
        assert forall|k: int| 0 <= k < n - 1 implies #[trigger] s[i + 1 + k] == t[j + 1 + k] by {
            assert(s[i + (1 + k)] == t[j + (1 + k)]);
        }
        lemma_le_agree(s, t, i + 1, j + 1, n - 1);
    }
}

/// Reads the `n`-byte little-endian field of `buf` at offset `i`.
pub fn read_le(buf: &Vec<u8>, i: usize, n: usize) -> (r: u64)
    requires
        n <= 8,
        i + n <= buf.len(),
    ensures
        r == le(buf@, i as int, n as int),
{
    proof {
        assert(pow256(8) == 0x1_0000_0000_0000_0000) by {
            reveal_with_fuel(pow256, 9);
        }
        lemma_le_bound(buf@, i as int, n as int);
    }
    let mut r: u64 = 0;
    let mut k: usize = n;
    while k > 0
        invariant
            k <= n,
            n <= 8,
            i + n <= buf.len(),
            r == le(buf@, i + k, n - k),
            pow256(8) == 0x1_0000_0000_0000_0000,
        decreases k,
    {
        proof {
            lemma_le_bound(buf@, i + k, n - k);
            assert(pow256(n - k) <= pow256(7)) by {
                reveal_with_fuel(pow256, 9);
                lemma_pow256_increases(n - k, 7);
            }
        }
        k = k - 1;
        r = r * 256 + (buf[i + k] as u64);
    }
    r
}

pub proof fn lemma_pow256_increases(a: int, b: int)
    requires
        a <= b,
    ensures
        pow256(a) <= pow256(b),
    decreases b - a,
{
    if a < b && b > 0 {
        lemma_pow256_increases(a, b - 1);
        assert(pow256(b) == 256 * pow256(b - 1));
        assert(pow256(b - 1) >= 1) by {
            lemma_pow256_positive(b - 1);
        }
    }
}

pub proof fn lemma_pow256_positive(n: int)
    ensures
        pow256(n) >= 1,
    decreases n,
{
    if n > 0 {
        lemma_pow256_positive(n - 1);
    }
}

/// The canonical `n`-byte little-endian encoding of `v`.
pub open spec fn le_bytes(v: int, n: int) -> Seq<u8>
    decreases n,
{
    if n <= 0 {
        Seq::empty()
    } else {
        seq![(v % 256) as u8] + le_bytes(v / 256, n - 1)
    }
}

pub proof fn lemma_le_bytes_len(v: int, n: int)
    ensures
        le_bytes(v, n).len() == if n <= 0 { 0int } else { n },
    decreases n,
{
    if n > 0 {
        lemma_le_bytes_len(v / 256, n - 1);
    }
}

/// Decoding the canonical encoding gives the value back.
pub proof fn lemma_le_of_le_bytes(v: int, n: int)
    requires
        0 <= v < pow256(n),
    ensures
        le(le_bytes(v, n), 0, n) == v,
    decreases n,
{
    if n > 0 {
        let s = le_bytes(v, n);
        let tail = le_bytes(v / 256, n - 1);
        lemma_le_bytes_len(v / 256, n - 1);
        assert(s[0] == (v % 256) as u8);
        lemma_le_of_le_bytes(v / 256, n - 1);
        lemma_le_agree(s, tail, 1, 0, n - 1);
        assert(v == v % 256 + 256 * (v / 256));
    }
}

} // verus!
