//! Non-resident attribute run lists.
//!
//! A run list is a compact byte encoding of an attribute's extents. Each
//! entry starts with a header byte whose low nibble gives the byte length
//! of the cluster count and whose high nibble gives the byte length of the
//! signed delta from the previous extent's logical cluster number; a zero
//! header byte terminates the list. A zero-length delta marks a sparse
//! hole, represented here by `lcn == 0`.

use vstd::prelude::*;

use crate::err::DecodeError;
use crate::lebytes::{le, le_bytes, lemma_le_agree, lemma_le_bound, lemma_le_bytes_len,
    lemma_le_of_le_bytes, pow256, read_le};

verus! {

/// The largest logical cluster number this decoder accepts; it keeps the
/// delta arithmetic inside a machine word.
pub const LCN_MAX: u64 = 0x7FFF_FFFF_FFFF_FFFF;

/// One contiguous extent: `cluster_count` clusters starting at absolute
/// cluster `lcn`. `lcn == 0` is the sparse sentinel: a hole of
/// `cluster_count` zero-filled clusters.
#[derive(Clone, Copy, Debug, PartialEq, Eq, Structural)]
pub struct RunEntry {
    pub lcn: u64,
    pub cluster_count: u64,
}

/// The value of an `n`-byte little-endian two's-complement field.
pub open spec fn le_signed(s: Seq<u8>, i: int, n: int) -> int {
    if le(s, i, n) >= pow256(n) / 2 {
        le(s, i, n) - pow256(n)
    } else {
        le(s, i, n)
    }
}

/// Decodes the run list stored in `b[pos..end]`, with `prev` the logical
/// cluster number the next delta is relative to. `None` means the bytes
/// are malformed: a missing terminator, a nibble out of range, a zero
/// cluster count, or a delta that takes the cluster number out of
/// `1..=LCN_MAX`.
pub open spec fn spec_decode_runs(b: Seq<u8>, pos: int, end: int, prev: int) -> Option<
    Seq<RunEntry>,
>
    decreases end - pos,
{
    if pos < 0 || pos >= end || end > b.len() {
        None
    } else {
        let h = b[pos] as int;
        if h == 0 {
            Some(Seq::empty())
        } else {
            let ls = h % 16;
            let os = h / 16;
            if ls < 1 || ls > 8 || os > 8 || end - pos < 1 + ls + os {
                None
            } else {
                let count = le(b, pos + 1, ls);
                if count < 1 {
                    None
                } else if os == 0 {
                    match spec_decode_runs(b, pos + 1 + ls, end, prev) {
                        None => None,
                        Some(rest) => Some(
                            seq![RunEntry { lcn: 0, cluster_count: count as u64 }] + rest,
                        ),
                    }
                } else {
                    let lcn = prev + le_signed(b, pos + 1 + ls, os);
                    if lcn < 1 || lcn > LCN_MAX {
                        None
                    } else {
                        match spec_decode_runs(b, pos + 1 + ls + os, end, lcn) {
                            None => None,
                            Some(rest) => Some(
                                seq![RunEntry { lcn: lcn as u64, cluster_count: count as u64 }]
                                    + rest,
                            ),
                        }
                    }
                }
            }
        }
    }
}

/// Decodes the run list in `buf[pos..end]`; the first extent's delta is
/// relative to `prev`. The top-level caller passes `prev == 0`.
pub fn decode_runs_from(buf: &Vec<u8>, pos: usize, end: usize, prev: u64) -> (r: Result<
    Vec<RunEntry>,
    DecodeError,
>)
    requires
        end <= buf.len(),
        prev <= LCN_MAX,
    ensures
        r matches Ok(v) ==> spec_decode_runs(buf@, pos as int, end as int, prev as int) == Some(
            v@,
        ),
        r matches Err(e) ==> spec_decode_runs(buf@, pos as int, end as int, prev as int) is None
            && e == DecodeError::Attribute,
    decreases end - pos,
{
    if pos >= end {
        return Err(DecodeError::Attribute);
    }
    let h = buf[pos];
    if h == 0 {
        let v: Vec<RunEntry> = Vec::new();
        assert(Some(v@) == spec_decode_runs(buf@, pos as int, end as int, prev as int));
        return Ok(v);
    }
    let ls = (h % 16) as usize;
    let os = (h / 16) as usize;
    if ls < 1 || ls > 8 || os > 8 || end - pos < 1 + ls + os {
        return Err(DecodeError::Attribute);
    }
    proof {
        lemma_le_bound(buf@, pos + 1, ls as int);
        lemma_le_bound(buf@, pos + 1 + ls, os as int);
        crate::lebytes::lemma_pow256_increases(ls as int, 8);
        crate::lebytes::lemma_pow256_increases(os as int, 8);
        assert(pow256(8) == 0x1_0000_0000_0000_0000) by {
            reveal_with_fuel(pow256, 9);
        }
    }
    let count = read_le(buf, pos + 1, ls);
    if count < 1 {
        return Err(DecodeError::Attribute);
    }
    if os == 0 {
        let rest = decode_runs_from(buf, pos + 1 + ls, end, prev)?;
        let ghost r0 = rest@;
        let mut v = rest;
        v.insert(0, RunEntry { lcn: 0, cluster_count: count });
        proof {
            assert(v@ =~= seq![RunEntry { lcn: 0, cluster_count: count }] + r0);
        }
        return Ok(v);
    }
    // Signed delta: the top bit of the high byte decides the sign.
    let raw = read_le(buf, pos + 1 + ls, os);
    let ghost delta = le_signed(buf@, pos + 1 + ls, os as int);
    let lcn: u64;
    if os < 8 && raw >= half_pow256(os) || os == 8 && raw >= 0x8000_0000_0000_0000 {
        // Negative delta of magnitude pow256(os) - raw.
        let mag = pow256_minus(raw, os);
        if prev < mag || prev - mag < 1 {
            return Err(DecodeError::Attribute);
        }
        lcn = prev - mag;
    } else {
        if raw > LCN_MAX - prev {
            return Err(DecodeError::Attribute);
        }
        lcn = prev + raw;
        if lcn < 1 {
            return Err(DecodeError::Attribute);
        }
    }
    assert(lcn == prev + delta && 1 <= lcn <= LCN_MAX);
    let rest = decode_runs_from(buf, pos + 1 + ls + os, end, lcn)?;
    let ghost r0 = rest@;
    let mut v = rest;
    v.insert(0, RunEntry { lcn, cluster_count: count });
    proof {
        assert(v@ =~= seq![RunEntry { lcn, cluster_count: count }] + r0);
    }
    Ok(v)
}

/// `pow256(n) / 2` for `1 <= n <= 7`.
fn half_pow256(n: usize) -> (r: u64)
    requires
        1 <= n <= 7,
    ensures
        r == pow256(n as int) / 2,
{
    proof {
        reveal_with_fuel(pow256, 9);
    }
    if n == 1 {
        0x80
    } else if n == 2 {
        0x8000
    } else if n == 3 {
        0x80_0000
    } else if n == 4 {
        0x8000_0000
    } else if n == 5 {
        0x80_0000_0000
    } else if n == 6 {
        0x8000_0000_0000
    } else {
        0x80_0000_0000_0000
    }
}

/// `pow256(n) - raw` for `raw < pow256(n)`, `n <= 8`.
fn pow256_minus(raw: u64, n: usize) -> (r: u64)
    requires
        n <= 8,
        raw < pow256(n as int),
        raw >= pow256(n as int) / 2,
    ensures
        r == pow256(n as int) - raw,
{
    proof {
        reveal_with_fuel(pow256, 9);
    }
    if n == 8 {
        // pow256(8) - raw == (u64::MAX - raw) + 1; raw >= 2^63 keeps it in range.
        (0xFFFF_FFFF_FFFF_FFFF - raw) + 1
    } else {
        let p: u64 = if n == 0 {
            1
        } else if n == 1 {
            0x100
        } else if n == 2 {
            0x1_0000
        } else if n == 3 {
            0x100_0000
        } else if n == 4 {
            0x1_0000_0000
        } else if n == 5 {
            0x100_0000_0000
        } else if n == 6 {
            0x1_0000_0000_0000
        } else {
            0x100_0000_0000_0000
        };
        p - raw
    }
}

/// Total clusters named by a run list, sparse holes included.
pub open spec fn spec_total_clusters(runs: Seq<RunEntry>) -> int
    decreases runs.len(),
{
    if runs.len() == 0 {
        0
    } else {
        runs[0].cluster_count + spec_total_clusters(runs.drop_first())
    }
}

/// Sums the cluster counts of `runs`; `None` when the sum exceeds `u64`.
pub fn total_clusters(runs: &Vec<RunEntry>) -> (r: Option<u64>)
    ensures
        r matches Some(t) ==> t == spec_total_clusters(runs@),
        r is None ==> spec_total_clusters(runs@) > u64::MAX,
{
    let mut acc: u64 = 0;
    let mut i: usize = 0;
    proof {
        assert(runs@.take(0) =~= Seq::<RunEntry>::empty());
        assert(runs@.skip(0) =~= runs@);
    }
    while i < runs.len()
        invariant
            i <= runs.len(),
            acc == spec_total_clusters(runs@.take(i as int)),
            spec_total_clusters(runs@) == acc + spec_total_clusters(runs@.skip(i as int)),
        decreases runs.len() - i,
    {
        proof {
            lemma_total_clusters_step(runs@, i as int);
            lemma_total_clusters_nonneg(runs@.skip(i + 1));
        }
        let c = runs[i].cluster_count;
        if c > u64::MAX - acc {
            return None;
        }
        acc = acc + c;
        i = i + 1;
    }
    proof {
        assert(runs@.take(runs@.len() as int) =~= runs@);
    }
    Some(acc)
}

pub proof fn lemma_total_clusters_nonneg(runs: Seq<RunEntry>)
    ensures
        spec_total_clusters(runs) >= 0,
    decreases runs.len(),
{
    if runs.len() > 0 {
        lemma_total_clusters_nonneg(runs.drop_first());
    }
}

/// Splitting the sum at position `i`.
pub proof fn lemma_total_clusters_step(runs: Seq<RunEntry>, i: int)
    requires
        0 <= i < runs.len(),
    ensures
        spec_total_clusters(runs.take(i + 1)) == spec_total_clusters(runs.take(i))
            + runs[i].cluster_count,
        spec_total_clusters(runs.skip(i)) == runs[i].cluster_count + spec_total_clusters(
            runs.skip(i + 1),
        ),
    decreases i,
{
    assert(runs.skip(i).drop_first() =~= runs.skip(i + 1));
    assert(runs.skip(i)[0] == runs[i]);
    if i == 0 {
        assert(runs.take(1).drop_first() =~= Seq::<RunEntry>::empty());
        assert(runs.take(0) =~= Seq::<RunEntry>::empty());
    } else {
        lemma_total_clusters_step(runs.drop_first(), i - 1);
        assert(runs.take(i + 1).drop_first() =~= runs.drop_first().take(i));
        assert(runs.take(i).drop_first() =~= runs.drop_first().take(i - 1));
    }
}

/// Whether a run list accounts for exactly `allocated` bytes: the cluster
/// total times the cluster size equals the non-resident header's
/// allocated size.
pub fn run_list_matches_allocated(
    runs: &Vec<RunEntry>,
    bytes_per_cluster: u64,
    allocated: u64,
) -> (r: bool)
    ensures
        r == (spec_total_clusters(runs@) * bytes_per_cluster == allocated),
{
    proof {
        lemma_total_clusters_nonneg(runs@);
    }
    let total = match total_clusters(runs) {
        Some(t) => t,
        None => {
            // The mathematical total exceeds u64::MAX, so the product can
            // only equal `allocated` when the cluster size is zero.
            proof {
                if bytes_per_cluster >= 1 {
                    assert(spec_total_clusters(runs@) * bytes_per_cluster >= spec_total_clusters(
                        runs@,
                    ) * 1) by (nonlinear_arith)
                        requires
                            bytes_per_cluster >= 1,
                            spec_total_clusters(runs@) >= 0,
                    ;
                }
            }
            return bytes_per_cluster == 0 && allocated == 0;
        },
    };
    if bytes_per_cluster == 0 {
        return allocated == 0;
    }
    proof {
        vstd::arithmetic::div_mod::lemma_fundamental_div_mod(
            u64::MAX as int,
            bytes_per_cluster as int,
        );
        vstd::arithmetic::div_mod::lemma_mod_bound(u64::MAX as int, bytes_per_cluster as int);
    }
    let ghost q = u64::MAX as int / bytes_per_cluster as int;
    let ghost m = u64::MAX as int % bytes_per_cluster as int;
    if total > u64::MAX / bytes_per_cluster {
        proof {
            assert((total as int) * (bytes_per_cluster as int) > u64::MAX) by (nonlinear_arith)
                requires
                    total as int >= q + 1,
                    u64::MAX as int == (bytes_per_cluster as int) * q + m,
                    0 <= m < bytes_per_cluster as int,
            ;
        }
        return false;
    }
    proof {
        assert(0 <= (total as int) * (bytes_per_cluster as int) <= u64::MAX) by (nonlinear_arith)
            requires
                0 <= total as int <= q,
                u64::MAX as int == (bytes_per_cluster as int) * q + m,
                0 <= m < bytes_per_cluster as int,
        ;
    }
    total * bytes_per_cluster == allocated
}


/// Physical byte address of virtual byte `v` of a non-resident stream:
/// walk the extents, each `cluster_count * bpc` bytes wide, until one
/// covers `v`. `None` for a byte inside a sparse hole (it reads as zero)
/// and for a byte past the last extent.
pub open spec fn spec_vbyte(runs: Seq<RunEntry>, bpc: int, v: int) -> Option<int>
    decreases runs.len(),
{
    if runs.len() == 0 || v < 0 {
        None
    } else {
        let ext = runs[0].cluster_count * bpc;
        if v < ext {
            if runs[0].lcn == 0 {
                None
            } else {
                Some(runs[0].lcn * bpc + v)
            }
        } else {
            spec_vbyte(runs.drop_first(), bpc, v - ext)
        }
    }
}

/// Translates virtual byte `v` of the stream described by `runs` to its
/// physical byte address on the volume. `None` when the byte lies in a
/// sparse hole, past the last extent, or beyond what a device address
/// can hold.
pub fn vbyte_to_phys(runs: &Vec<RunEntry>, bytes_per_cluster: u64, v: u64) -> (r: Option<u64>)
    ensures
        r == match spec_vbyte(runs@, bytes_per_cluster as int, v as int) {
            Some(p) => if p <= u64::MAX {
                Some(p as u64)
            } else {
                None
            },
            None => None,
        },
{
    proof {
        assert(runs@.skip(0) =~= runs@);
    }
    vbyte_rec(runs, 0, bytes_per_cluster, v as u128)
}

fn vbyte_rec(runs: &Vec<RunEntry>, i: usize, bytes_per_cluster: u64, v: u128) -> (r: Option<u64>)
    requires
        i <= runs@.len(),
    ensures
        r == match spec_vbyte(runs@.skip(i as int), bytes_per_cluster as int, v as int) {
            Some(p) => if p <= u64::MAX {
                Some(p as u64)
            } else {
                None
            },
            None => None,
        },
    decreases runs@.len() - i,
{
    proof {
        if i < runs@.len() {
            assert(runs@.skip(i as int)[0] == runs@[i as int]);
            assert(runs@.skip(i as int).drop_first() =~= runs@.skip(i + 1));
        }
    }
    if i >= runs.len() {
        return None;
    }
    let run = runs[i];
    proof {
        assert((run.cluster_count as int) * (bytes_per_cluster as int) <= 0xFFFF_FFFF_FFFF_FFFF
            * 0xFFFF_FFFF_FFFF_FFFF) by (nonlinear_arith)
            requires
                run.cluster_count <= 0xFFFF_FFFF_FFFF_FFFFu64,
                bytes_per_cluster <= 0xFFFF_FFFF_FFFF_FFFFu64,
        ;
        assert((run.lcn as int) * (bytes_per_cluster as int) <= 0xFFFF_FFFF_FFFF_FFFF
            * 0xFFFF_FFFF_FFFF_FFFF) by (nonlinear_arith)
            requires
                run.lcn <= 0xFFFF_FFFF_FFFF_FFFFu64,
                bytes_per_cluster <= 0xFFFF_FFFF_FFFF_FFFFu64,
        ;
    }
    let ext: u128 = (run.cluster_count as u128) * (bytes_per_cluster as u128);
    if v < ext {
        if run.lcn == 0 {
            return None;
        }
        let base: u128 = (run.lcn as u128) * (bytes_per_cluster as u128);
        if base > u64::MAX as u128 || v > u64::MAX as u128 {
            return None;
        }
        let p: u128 = base + v;
        if p > u64::MAX as u128 {
            return None;
        }
        Some(p as u64)
    } else {
        vbyte_rec(runs, i + 1, bytes_per_cluster, v - ext)
    }
}


/// A run list the encoder accepts: every extent counts at least one
/// cluster and starts at a representable cluster number.
pub open spec fn runs_wf(runs: Seq<RunEntry>) -> bool {
    forall|i: int|
        0 <= i < runs.len() ==> (#[trigger] runs[i]).cluster_count >= 1 && runs[i].lcn <= LCN_MAX
}

/// Canonical encoding of one extent, relative to `prev`: full-width
/// nibbles, so the count takes eight bytes and a real extent's delta
/// eight more, two's-complement.
pub open spec fn spec_encode_run(r: RunEntry, prev: int) -> Seq<u8> {
    if r.lcn == 0 {
        seq![0x08u8] + le_bytes(r.cluster_count as int, 8)
    } else {
        let delta = r.lcn - prev;
        let raw = if delta >= 0 {
            delta
        } else {
            delta + pow256(8)
        };
        seq![0x88u8] + le_bytes(r.cluster_count as int, 8) + le_bytes(raw, 8)
    }
}

/// The `prev` the next extent's delta is relative to, after `r`.
pub open spec fn next_prev(r: RunEntry, prev: int) -> int {
    if r.lcn == 0 {
        prev
    } else {
        r.lcn as int
    }
}

/// Canonical encoding of a run list, terminated by a zero header byte.
pub open spec fn spec_encode_runs(runs: Seq<RunEntry>, prev: int) -> Seq<u8>
    decreases runs.len(),
{
    if runs.len() == 0 {
        seq![0u8]
    } else {
        spec_encode_run(runs[0], prev) + spec_encode_runs(runs.drop_first(), next_prev(runs[0], prev))
    }
}

/// Decoding looks only at `b[pos..end]`, so it may as well start at zero.
pub proof fn lemma_decode_shift(b: Seq<u8>, pos: int, end: int, prev: int)
    requires
        0 <= pos <= end <= b.len(),
    ensures
        spec_decode_runs(b, pos, end, prev) == spec_decode_runs(
            b.skip(pos),
            0,
            end - pos,
            prev,
        ),
    decreases end - pos,
{
    let t = b.skip(pos);
    if pos < end {
        assert(t[0] == b[pos]);
        let h = b[pos] as int;
        if h != 0 {
            let ls = h % 16;
            let os = h / 16;
            if 1 <= ls <= 8 && os <= 8 && end - pos >= 1 + ls + os {
                lemma_le_agree(b, t, pos + 1, 1, ls);
                lemma_le_agree(b, t, pos + 1 + ls, 1 + ls, os);
                let count = le(b, pos + 1, ls);
                if count >= 1 {
                    if os == 0 {
                        lemma_decode_shift(b, pos + 1 + ls, end, prev);
                        assert(b.skip(pos + 1 + ls) =~= t.skip(1 + ls));
                        lemma_decode_shift(t, 1 + ls, end - pos, prev);
                    } else {
                        let lcn = prev + le_signed(b, pos + 1 + ls, os);
                        if 1 <= lcn <= LCN_MAX {
                            lemma_decode_shift(b, pos + 1 + ls + os, end, lcn);
                            assert(b.skip(pos + 1 + ls + os) =~= t.skip(1 + ls + os));
                            lemma_decode_shift(t, 1 + ls + os, end - pos, lcn);
                        }
                    }
                }
            }
        }
    }
}

/// Decoding the canonical encoding of a run list gives the list back.
pub proof fn lemma_runs_round_trip(runs: Seq<RunEntry>, prev: int)
    requires
        runs_wf(runs),
        0 <= prev <= LCN_MAX,
    ensures
        spec_decode_runs(
            spec_encode_runs(runs, prev),
            0,
            spec_encode_runs(runs, prev).len() as int,
            prev,
        ) == Some(runs),
    decreases runs.len(),
{
    let b = spec_encode_runs(runs, prev);
    assert(pow256(8) == 0x1_0000_0000_0000_0000 && pow256(8) / 2 == 0x8000_0000_0000_0000) by {
        reveal_with_fuel(pow256, 9);
    }
    if runs.len() == 0 {
        assert(b =~= seq![0u8]);
        assert(spec_decode_runs(b, 0, 1, prev) == Some(Seq::<RunEntry>::empty()));
    } else {
        let r0 = runs[0];
        let e0 = spec_encode_run(r0, prev);
        let rest = spec_encode_runs(runs.drop_first(), next_prev(r0, prev));
        assert(b == e0 + rest);
        lemma_le_bytes_len(r0.cluster_count as int, 8);
        let cb = le_bytes(r0.cluster_count as int, 8);
        lemma_le_of_le_bytes(r0.cluster_count as int, 8);
        if r0.lcn == 0 {
            assert(e0.len() == 9);
            assert(b[0] == 0x08u8);
            assert(b.len() >= 10) by {
                lemma_encode_len(runs.drop_first(), next_prev(r0, prev));
            }
            lemma_le_agree(b, cb, 1, 0, 8);
            assert(le(b, 1, 8) == r0.cluster_count);
            lemma_decode_shift(b, 9, b.len() as int, prev);
            assert(b.skip(9) =~= rest);
            lemma_runs_round_trip(runs.drop_first(), prev);
            assert(spec_decode_runs(b, 9, b.len() as int, prev) == Some(runs.drop_first()));
            assert(spec_decode_runs(b, 0, b.len() as int, prev) == Some(
                seq![RunEntry { lcn: 0, cluster_count: r0.cluster_count }] + runs.drop_first(),
            ));
            assert(seq![RunEntry { lcn: 0, cluster_count: r0.cluster_count }] + runs.drop_first()
                =~= runs);
        } else {
            let delta = r0.lcn - prev;
            let raw = if delta >= 0 {
                delta
            } else {
                delta + pow256(8)
            };
            let db = le_bytes(raw, 8);
            lemma_le_bytes_len(raw, 8);
            lemma_le_of_le_bytes(raw, 8);
            assert(e0.len() == 17);
            assert(b[0] == 0x88u8);
            assert(b.len() >= 18) by {
                lemma_encode_len(runs.drop_first(), next_prev(r0, prev));
            }
            assert(forall|k: int| 0 <= k < 8 ==> #[trigger] b[1 + k] == cb[k]);
            lemma_le_agree(b, cb, 1, 0, 8);
            assert(le(b, 1, 8) == r0.cluster_count);
            assert(forall|k: int| 0 <= k < 8 ==> #[trigger] b[9 + k] == db[k]);
            lemma_le_agree(b, db, 9, 0, 8);
            assert(le(b, 9, 8) == raw);
            // The canonical delta decodes back to itself.
            assert(le_signed(b, 9, 8) == delta);
            assert(prev + le_signed(b, 9, 8) == r0.lcn);
            lemma_decode_shift(b, 17, b.len() as int, r0.lcn as int);
            assert(b.skip(17) =~= rest);
            lemma_runs_round_trip(runs.drop_first(), r0.lcn as int);
            assert(spec_decode_runs(b, 17, b.len() as int, r0.lcn as int) == Some(
                runs.drop_first(),
            ));
            assert(spec_decode_runs(b, 0, b.len() as int, prev) == Some(
                seq![RunEntry { lcn: r0.lcn, cluster_count: r0.cluster_count }]
                    + runs.drop_first(),
            ));
            assert(seq![RunEntry { lcn: r0.lcn, cluster_count: r0.cluster_count }]
                + runs.drop_first() =~= runs);
        }
    }
}

pub proof fn lemma_encode_len(runs: Seq<RunEntry>, prev: int)
    ensures
        spec_encode_runs(runs, prev).len() >= 1,
    decreases runs.len(),
{
    if runs.len() > 0 {
        lemma_encode_len(runs.drop_first(), next_prev(runs[0], prev));
        lemma_le_bytes_len(runs[0].cluster_count as int, 8);
        if runs[0].lcn != 0 {
            let delta = runs[0].lcn - prev;
            let raw = if delta >= 0 {
                delta
            } else {
                delta + pow256(8)
            };
            lemma_le_bytes_len(raw, 8);
        }
    }
}

/// Canonically encodes a run list; `None` when an extent has a zero
/// cluster count or an unrepresentable cluster number.
pub fn encode_runs(runs: &Vec<RunEntry>) -> (r: Option<Vec<u8>>)
    ensures
        r is Some <==> runs_wf(runs@),
        r matches Some(v) ==> v@ == spec_encode_runs(runs@, 0),
{
    let mut out: Vec<u8> = Vec::new();
    let mut i: usize = 0;
    let ghost whole = runs@;
    let mut prev: u64 = 0;
    proof {
        assert(pow256(8) == 0x1_0000_0000_0000_0000) by {
            reveal_with_fuel(pow256, 9);
        }
    }
    while i < runs.len()
        invariant
            i <= runs@.len(),
            whole == runs@,
            prev <= LCN_MAX,
            forall|k: int|
                0 <= k < i ==> (#[trigger] runs@[k]).cluster_count >= 1 && runs@[k].lcn
                    <= LCN_MAX,
            prev as int == spec_prev_after(runs@.take(i as int), 0),
            out@ == spec_encode_prefix(runs@.take(i as int), 0),
            pow256(8) == 0x1_0000_0000_0000_0000,
        decreases runs@.len() - i,
    {
        let run = runs[i];
        if run.cluster_count < 1 || run.lcn > LCN_MAX {
            return None;
        }
        let ghost out0 = out@;
        if run.lcn == 0 {
            out.push(0x08);
            push_le8(&mut out, run.cluster_count);
            proof {
                assert(out@ =~= out0 + spec_encode_run(run, prev as int));
            }
        } else {
            let delta_raw: u64 = run.lcn.wrapping_sub(prev);
            out.push(0x88);
            push_le8(&mut out, run.cluster_count);
            push_le8(&mut out, delta_raw);
            proof {
                let delta = run.lcn - prev;
                let raw = if delta >= 0 {
                    delta
                } else {
                    delta + pow256(8)
                };
                assert(delta_raw == raw);
                assert(out@ =~= out0 + spec_encode_run(run, prev as int));
            }
            prev = run.lcn;
        }
        proof {
            lemma_encode_prefix_step(runs@, 0, i as int);
            assert(runs@.take(i + 1).drop_last() =~= runs@.take(i as int));
        }
        i = i + 1;
    }
    out.push(0);
    proof {
        assert(runs@.take(runs@.len() as int) =~= runs@);
        lemma_encode_prefix_whole(runs@, 0);
        assert(out@ =~= spec_encode_prefix(runs@, 0) + seq![0u8]);
    }
    Some(out)
}

/// The encoding of a list without its terminator.
pub open spec fn spec_encode_prefix(runs: Seq<RunEntry>, prev: int) -> Seq<u8>
    decreases runs.len(),
{
    if runs.len() == 0 {
        Seq::empty()
    } else {
        spec_encode_prefix(runs.drop_last(), prev) + spec_encode_run(
            runs.last(),
            spec_prev_after(runs.drop_last(), prev),
        )
    }
}

/// The `prev` in force after encoding a whole list.
pub open spec fn spec_prev_after(runs: Seq<RunEntry>, prev: int) -> int
    decreases runs.len(),
{
    if runs.len() == 0 {
        prev
    } else {
        next_prev(runs.last(), spec_prev_after(runs.drop_last(), prev))
    }
}

pub proof fn lemma_encode_prefix_step(runs: Seq<RunEntry>, prev: int, i: int)
    requires
        0 <= i < runs.len(),
    ensures
        spec_encode_prefix(runs.take(i + 1), prev) == spec_encode_prefix(runs.take(i), prev)
            + spec_encode_run(runs[i], spec_prev_after(runs.take(i), prev)),
        spec_prev_after(runs.take(i + 1), prev) == next_prev(
            runs[i],
            spec_prev_after(runs.take(i), prev),
        ),
{
    assert(runs.take(i + 1).drop_last() =~= runs.take(i));
    assert(runs.take(i + 1).last() == runs[i]);
}

/// The terminator-free encoding of the whole list, followed by the
/// terminator, is the canonical encoding.
pub proof fn lemma_encode_prefix_whole(runs: Seq<RunEntry>, prev: int)
    ensures
        spec_encode_prefix(runs, prev) + seq![0u8] == spec_encode_runs(runs, prev),
    decreases runs.len(),
{
    if runs.len() == 0 {
        assert(spec_encode_prefix(runs, prev) + seq![0u8] =~= seq![0u8]);
    } else {
        lemma_encode_prefix_front(runs, prev);
    }
}

/// Front and back decompositions of the terminator-free encoding agree.
pub proof fn lemma_encode_prefix_front(runs: Seq<RunEntry>, prev: int)
    requires
        runs.len() > 0,
    ensures
        spec_encode_prefix(runs, prev) + seq![0u8] == spec_encode_runs(runs, prev),
    decreases runs.len(),
{
    if runs.len() == 1 {
        assert(runs.drop_last() =~= Seq::<RunEntry>::empty());
        assert(runs.drop_first() =~= Seq::<RunEntry>::empty());
        assert(runs.last() == runs[0]);
        assert(spec_encode_prefix(Seq::<RunEntry>::empty(), prev) =~= Seq::<u8>::empty());
        assert(spec_prev_after(Seq::<RunEntry>::empty(), prev) == prev);
        assert(spec_encode_runs(Seq::<RunEntry>::empty(), next_prev(runs[0], prev)) =~= seq![
            0u8,
        ]);
        assert(spec_encode_prefix(runs, prev) + seq![0u8] =~= spec_encode_run(runs[0], prev)
            + seq![0u8]);
        assert(spec_encode_runs(runs, prev) =~= spec_encode_run(runs[0], prev) + seq![0u8]);
    } else {
        let t = runs.drop_first();
        lemma_encode_prefix_front(t, next_prev(runs[0], prev));
        // prefix(runs, prev) == enc(runs[0], prev) + prefix(t, next_prev)
        lemma_prefix_cons(runs, prev);
        assert(spec_encode_prefix(runs, prev) + seq![0u8] =~= spec_encode_run(runs[0], prev) + (
        spec_encode_prefix(t, next_prev(runs[0], prev)) + seq![0u8]));
    }
}

/// Peeling the first extent off the terminator-free encoding.
pub proof fn lemma_prefix_cons(runs: Seq<RunEntry>, prev: int)
    requires
        runs.len() > 0,
    ensures
        spec_encode_prefix(runs, prev) == spec_encode_run(runs[0], prev) + spec_encode_prefix(
            runs.drop_first(),
            next_prev(runs[0], prev),
        ),
        spec_prev_after(runs, prev) == spec_prev_after(
            runs.drop_first(),
            next_prev(runs[0], prev),
        ),
    decreases runs.len(),
{
    if runs.len() == 1 {
        assert(runs.drop_last() =~= Seq::<RunEntry>::empty());
        assert(runs.drop_first() =~= Seq::<RunEntry>::empty());
        assert(spec_encode_prefix(Seq::<RunEntry>::empty(), prev) =~= Seq::<u8>::empty());
        assert(spec_prev_after(Seq::<RunEntry>::empty(), prev) == prev);
        assert(spec_encode_prefix(Seq::<RunEntry>::empty(), next_prev(runs[0], prev))
            =~= Seq::<u8>::empty());
        assert(spec_prev_after(Seq::<RunEntry>::empty(), next_prev(runs[0], prev)) == next_prev(
            runs[0],
            prev,
        ));
        assert(spec_encode_prefix(runs, prev) =~= spec_encode_run(runs[0], prev)
            + Seq::<u8>::empty());
        assert(spec_encode_run(runs[0], prev) + Seq::<u8>::empty() =~= spec_encode_run(
            runs[0],
            prev,
        ));
    } else {
        lemma_prefix_cons(runs.drop_last(), prev);
        assert(runs.drop_last().drop_first() =~= runs.drop_first().drop_last());
        assert(runs.drop_last()[0] == runs[0]);
        assert(runs.drop_first().last() == runs.last());
        assert(spec_encode_prefix(runs, prev) =~= spec_encode_run(runs[0], prev)
            + spec_encode_prefix(runs.drop_first(), next_prev(runs[0], prev)));
    }
}

/// Appends the eight little-endian bytes of `v`.
fn push_le8(dst: &mut Vec<u8>, v: u64)
    ensures
        final(dst)@ == old(dst)@ + le_bytes(v as int, 8),
{
    let mut v = v;
    let mut k: usize = 0;
    let ghost v0 = v as int;
    while k < 8
        invariant
            k <= 8,
            dst@ == old(dst)@ + le_bytes(v0, k as int),
            v as int == shift_down(v0, k as int),
        decreases 8 - k,
    {
        proof {
            lemma_le_bytes_snoc(v0, k as int);
        }
        dst.push((v % 256) as u8);
        v = v / 256;
        k = k + 1;
    }
}

/// `v` with `k` low bytes shifted out.
pub open spec fn shift_down(v: int, k: int) -> int
    decreases k,
{
    if k <= 0 {
        v
    } else {
        shift_down(v, k - 1) / 256
    }
}

/// One more byte of the canonical encoding.
pub proof fn lemma_le_bytes_snoc(v: int, k: int)
    requires
        k >= 0,
    ensures
        le_bytes(v, k + 1) == le_bytes(v, k).push((shift_down(v, k) % 256) as u8),
    decreases k,
{
    if k == 0 {
        assert(le_bytes(v / 256, 0) =~= Seq::<u8>::empty());
        assert(le_bytes(v, 1) == seq![(v % 256) as u8] + le_bytes(v / 256, 0));
        assert(le_bytes(v, 1) =~= seq![(v % 256) as u8]);
        assert(le_bytes(v, 0) =~= Seq::<u8>::empty());
        assert(le_bytes(v, 0).push((v % 256) as u8) =~= seq![(v % 256) as u8]);
    } else {
        lemma_le_bytes_snoc(v / 256, k - 1);
        assert(le_bytes(v, k + 1) =~= seq![(v % 256) as u8] + le_bytes(v / 256, k));
        assert(le_bytes(v, k) =~= seq![(v % 256) as u8] + le_bytes(v / 256, k - 1));
        lemma_shift_down_div(v, k);
        assert(le_bytes(v, k).push((shift_down(v, k) % 256) as u8) =~= seq![(v % 256) as u8]
            + le_bytes(v / 256, k - 1).push((shift_down(v / 256, k - 1) % 256) as u8));
    }
}

pub proof fn lemma_shift_down_div(v: int, k: int)
    requires
        k >= 1,
    ensures
        shift_down(v, k) == shift_down(v / 256, k - 1),
    decreases k,
{
    if k == 1 {
        assert(shift_down(v, 1) == shift_down(v, 0) / 256);
        assert(shift_down(v, 0) == v);
        assert(shift_down(v / 256, 0) == v / 256);
    } else {
        lemma_shift_down_div(v, k - 1);
        assert(shift_down(v, k) == shift_down(v, k - 1) / 256);
        assert(shift_down(v / 256, k - 1) == shift_down(v / 256, k - 2) / 256);
    }
}

} // verus!
