//! NTFS boot-sector decoding.
//!
//! The volume's first sector carries the geometry the rest of the pipeline
//! needs: bytes per sector, sectors per cluster, the logical cluster number
//! of the MFT, and the size of one MFT record.

use vstd::prelude::*;

use crate::err::DecodeError;
use crate::lebytes::{le, lemma_le_bound, pow256};

verus! {

/// `2^n` for `n >= 0`, `1` otherwise.
pub open spec fn pow2(n: int) -> int
    decreases n,
{
    if n <= 0 {
        1
    } else {
        2 * pow2(n - 1)
    }
}

/// Decoded boot-sector geometry.
#[derive(Debug)]
pub struct BootInfo {
    pub bytes_per_sector: u16,
    pub sectors_per_cluster: u8,
    pub mft_lcn: u64,
    pub bytes_per_cluster: u64,
    pub record_size: u64,
    pub mft_byte_offset: u64,
}

/// The raw `bytes_per_sector` field (u16 at 0x0B).
pub open spec fn spec_bytes_per_sector(b: Seq<u8>) -> int {
    le(b, 0x0B, 2)
}

/// The raw `sectors_per_cluster` field (u8 at 0x0D).
pub open spec fn spec_sectors_per_cluster(b: Seq<u8>) -> int {
    b[0x0D] as int
}

/// The raw `mft_lcn` field (u64 at 0x30).
pub open spec fn spec_mft_lcn(b: Seq<u8>) -> int {
    le(b, 0x30, 8)
}

pub open spec fn spec_bytes_per_cluster(b: Seq<u8>) -> int {
    spec_bytes_per_sector(b) * spec_sectors_per_cluster(b)
}

/// The raw `clusters_per_mft_record` field (i8 at 0x40): a non-negative
/// value counts clusters, a negative value `n` means the record is
/// `2^(-n)` bytes.
pub open spec fn spec_clusters_per_record_raw(b: Seq<u8>) -> int {
    b[0x40] as int
}

pub open spec fn spec_record_size(b: Seq<u8>) -> int {
    if spec_clusters_per_record_raw(b) < 128 {
        spec_clusters_per_record_raw(b) * spec_bytes_per_cluster(b)
    } else {
        pow2(256 - spec_clusters_per_record_raw(b))
    }
}

/// A boot sector this decoder accepts: positive geometry and values whose
/// products fit the machine words the reader computes with.
pub open spec fn boot_wf(b: Seq<u8>) -> bool {
    &&& b.len() >= 512
    &&& spec_bytes_per_sector(b) >= 1
    &&& spec_sectors_per_cluster(b) >= 1
    &&& (spec_clusters_per_record_raw(b) < 128 ==> spec_clusters_per_record_raw(b) >= 1)
    &&& (spec_clusters_per_record_raw(b) >= 128 ==> 256 - spec_clusters_per_record_raw(b) <= 63)
    &&& spec_mft_lcn(b) * spec_bytes_per_cluster(b) <= u64::MAX
}

/// Decodes the boot sector.
///
/// Returns the geometry when `boot_wf` holds of the buffer and
/// `Err(DecodeError::Signature)` exactly otherwise. No OEM magic is
/// checked: the on-disk format this decoder consumes is defined by the
/// fields alone, and a sector whose geometry fields are sound is
/// accepted; nonsense geometry (a zero sector or cluster size, a record
/// size beyond a machine word) is what `Signature` rejects here.
pub fn parse_boot_sector(buf: &Vec<u8>) -> (r: Result<BootInfo, DecodeError>)
    requires
        buf.len() >= 512,
    ensures
        r.is_ok() == boot_wf(buf@),
        r matches Ok(info) ==> {
            &&& info.bytes_per_sector == spec_bytes_per_sector(buf@)
            &&& info.sectors_per_cluster == spec_sectors_per_cluster(buf@)
            &&& info.mft_lcn == spec_mft_lcn(buf@)
            &&& info.bytes_per_cluster == spec_bytes_per_cluster(buf@)
            &&& info.record_size == spec_record_size(buf@)
            &&& info.mft_byte_offset == spec_mft_lcn(buf@) * spec_bytes_per_cluster(buf@)
        },
        r matches Err(e) ==> e == DecodeError::Signature,
{
    proof {
        lemma_le_bound(buf@, 0x0B, 2);
        lemma_le_bound(buf@, 0x30, 8);
        assert(pow256(2) == 0x10000) by {
            reveal_with_fuel(pow256, 3);
        }
        assert(pow256(8) == 0x1_0000_0000_0000_0000) by {
            reveal_with_fuel(pow256, 9);
        }
    }
    let bytes_per_sector = crate::lebytes::read_le(buf, 0x0B, 2) as u16;
    let sectors_per_cluster = buf[0x0D];
    let mft_lcn = crate::lebytes::read_le(buf, 0x30, 8);
    let raw = buf[0x40];

    if bytes_per_sector == 0 || sectors_per_cluster == 0 {
        return Err(DecodeError::Signature);
    }
    proof {
        assert((bytes_per_sector as int) * (sectors_per_cluster as int) <= 0xFFFF * 0xFF)
            by (nonlinear_arith)
            requires
                bytes_per_sector <= 0xFFFF,
                sectors_per_cluster <= 0xFF,
        ;
    }
    let bytes_per_cluster = (bytes_per_sector as u64) * (sectors_per_cluster as u64);

    let record_size: u64;
    if raw < 128 {
        if raw == 0 {
            return Err(DecodeError::Signature);
        }
        proof {
            assert((raw as int) * (bytes_per_cluster as int) <= 128 * (0xFFFF * 0xFF))
                by (nonlinear_arith)
                requires
                    raw <= 128,
                    bytes_per_cluster <= 0xFFFF * 0xFF,
            ;
        }
        record_size = (raw as u64) * bytes_per_cluster;
    } else {
        let shift: u8 = ((256 - raw as u16)) as u8;
        if shift > 63 {
            return Err(DecodeError::Signature);
        }
        record_size = pow2_u64(shift);
    }

    proof {
        assert((bytes_per_sector as int) * (sectors_per_cluster as int) >= 1) by (nonlinear_arith)
            requires
                bytes_per_sector >= 1,
                sectors_per_cluster >= 1,
        ;
        vstd::arithmetic::div_mod::lemma_fundamental_div_mod(
            u64::MAX as int,
            bytes_per_cluster as int,
        );
        vstd::arithmetic::div_mod::lemma_mod_bound(u64::MAX as int, bytes_per_cluster as int);
    }
    let ghost q = u64::MAX as int / bytes_per_cluster as int;
    let ghost m = u64::MAX as int % bytes_per_cluster as int;
    if mft_lcn > u64::MAX / bytes_per_cluster {
        proof {
            assert((mft_lcn as int) * (bytes_per_cluster as int) > u64::MAX) by (nonlinear_arith)
                requires
                    mft_lcn as int >= q + 1,
                    u64::MAX as int == (bytes_per_cluster as int) * q + m,
                    0 <= m < bytes_per_cluster as int,
            ;
        }
        return Err(DecodeError::Signature);
    }
    proof {
        assert(0 <= (mft_lcn as int) * (bytes_per_cluster as int) <= u64::MAX) by (nonlinear_arith)
            requires
                0 <= mft_lcn as int <= q,
                u64::MAX as int == (bytes_per_cluster as int) * q + m,
                0 <= m < bytes_per_cluster as int,
        ;
    }
    let mft_byte_offset = mft_lcn * bytes_per_cluster;

    Ok(BootInfo {
        bytes_per_sector,
        sectors_per_cluster,
        mft_lcn,
        bytes_per_cluster,
        record_size,
        mft_byte_offset,
    })
}

/// Computes `2^n` for `n <= 63`.
pub fn pow2_u64(n: u8) -> (r: u64)
    requires
        n <= 63,
    ensures
        r == pow2(n as int),
{
    let mut r: u64 = 1;
    let mut k: u8 = 0;
    proof {
        lemma_pow2_bound(63);
    }
    while k < n
        invariant
            k <= n,
            n <= 63,
            r == pow2(k as int),
            pow2(63) == 0x8000_0000_0000_0000,
        decreases n - k,
    {
        proof {
            lemma_pow2_increases(k as int, 62);
        }
        r = r * 2;
        k = k + 1;
    }
    r
}

pub proof fn lemma_pow2_bound(n: int)
    ensures
        pow2(63) == 0x8000_0000_0000_0000,
{
    reveal_with_fuel(pow2, 64);
}

pub proof fn lemma_pow2_increases(a: int, b: int)
    requires
        a <= b,
    ensures
        pow2(a) <= pow2(b),
    decreases b - a,
{
    if a < b && b > 0 {
        lemma_pow2_increases(a, b - 1);
        lemma_pow2_positive(b - 1);
    }
}

pub proof fn lemma_pow2_positive(n: int)
    ensures
        pow2(n) >= 1,
    decreases n,
{
    if n > 0 {
        lemma_pow2_positive(n - 1);
    }
}

} // verus!
