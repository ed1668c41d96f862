//! The NTFS multi-sector fixup (update sequence array).
//!
//! Before a record is written to disk, the last two bytes of each 512-byte
//! sub-sector are saved into the update sequence array and replaced by the
//! update sequence number. Reading a record back reverses that: every
//! sub-sector tail must still equal the number (else the write was torn),
//! and the saved bytes are restored.

use vstd::prelude::*;

use crate::err::DecodeError;
use crate::lebytes::le;

verus! {

/// The `usa_offset` field (u16 at 4) of a record header.
pub open spec fn spec_usa_offset(b: Seq<u8>) -> int {
    le(b, 4, 2)
}

/// The `usa_count` field (u16 at 6): one USN slot plus one slot per
/// 512-byte sub-sector.
pub open spec fn spec_usa_count(b: Seq<u8>) -> int {
    le(b, 6, 2)
}

/// A buffer whose update sequence array is structurally sound: the buffer
/// is exactly the sub-sectors the count announces, and the whole array
/// lies before the first sub-sector tail.
pub open spec fn fixup_wf(b: Seq<u8>) -> bool {
    &&& b.len() >= 512
    &&& b.len() == 512 * (spec_usa_count(b) - 1)
    &&& 8 <= spec_usa_offset(b)
    &&& spec_usa_offset(b) + 2 * spec_usa_count(b) <= 510
}

/// Every sub-sector tail equals the update sequence number.
pub open spec fn usn_matches(b: Seq<u8>) -> bool {
    forall|k: int|
        0 <= k < spec_usa_count(b) - 1 ==> {
            &&& #[trigger] b[512 * k + 510] == b[spec_usa_offset(b)]
            &&& b[512 * k + 511] == b[spec_usa_offset(b) + 1]
        }
}

/// The buffer with every sub-sector tail replaced by its saved array
/// slot; all other bytes are unchanged.
pub open spec fn spec_fixed(b: Seq<u8>) -> Seq<u8> {
    Seq::new(
        b.len(),
        |i: int|
            if i % 512 >= 510 {
                b[spec_usa_offset(b) + 2 * (i / 512 + 1) + (i % 512 - 510)]
            } else {
                b[i]
            },
    )
}

/// Applies the fixup in place.
///
/// On success the buffer holds `spec_fixed` of its old value: each
/// sub-sector tail now carries the two bytes the update sequence array had
/// saved for it. A structurally unsound array yields
/// `Err(DecodeError::Attribute)`, a tail that does not match the update
/// sequence number `Err(DecodeError::Fixup)`; either way the buffer is
/// left as it was.
pub fn apply_fixup(buf: &mut Vec<u8>) -> (r: Result<(), DecodeError>)
    requires
        old(buf).len() >= 512,
    ensures
        r.is_ok() == (fixup_wf(old(buf)@) && usn_matches(old(buf)@)),
        r.is_ok() ==> final(buf)@ == spec_fixed(old(buf)@),
        !r.is_ok() ==> final(buf)@ == old(buf)@,
        r == Err::<(), DecodeError>(DecodeError::Attribute) <==> !fixup_wf(old(buf)@),
        r == Err::<(), DecodeError>(DecodeError::Fixup) <==> (fixup_wf(old(buf)@)
            && !usn_matches(old(buf)@)),
{
    let ghost b0 = buf@;
    proof {
        crate::lebytes::lemma_le_bound(buf@, 4, 2);
        crate::lebytes::lemma_le_bound(buf@, 6, 2);
        assert(crate::lebytes::pow256(2) == 0x10000) by {
            reveal_with_fuel(crate::lebytes::pow256, 3);
        }
    }
    let uo = crate::lebytes::read_le(buf, 4, 2) as usize;
    let uc = crate::lebytes::read_le(buf, 6, 2) as usize;
    if uc < 2 || buf.len() != 512 * (uc - 1) || uo < 8 || uo + 2 * uc > 510 {
        return Err(DecodeError::Attribute);
    }

    // First pass: check every sub-sector tail against the USN without
    // touching the buffer.
    let usn_lo = buf[uo];
    let usn_hi = buf[uo + 1];
    let mut k: usize = 0;
    while k < uc - 1
        invariant
            buf@ == b0,
            fixup_wf(b0),
            uo == spec_usa_offset(b0),
            uc == spec_usa_count(b0),
            2 <= uc,
            buf.len() == 512 * (uc - 1),
            usn_lo == b0[uo as int],
            usn_hi == b0[uo + 1],
            k <= uc - 1,
            forall|j: int|
                0 <= j < k ==> {
                    &&& #[trigger] b0[512 * j + 510] == b0[uo as int]
                    &&& b0[512 * j + 511] == b0[uo + 1]
                },
        decreases uc - 1 - k,
    {
        proof {
            assert(512 * (k + 1) <= 512 * (uc - 1)) by {
                vstd::arithmetic::mul::lemma_mul_inequality(k + 1, uc - 1, 512);
            }
            assert(512 * k + 510 == 512 * (k as int) + 510);
        }
        if buf[512 * k + 510] != usn_lo || buf[512 * k + 511] != usn_hi {
            return Err(DecodeError::Fixup);
        }
        k = k + 1;
    }
    assert(usn_matches(b0));

    // Second pass: restore each tail from its array slot.
    let mut k: usize = 0;
    while k < uc - 1
        invariant
            fixup_wf(b0),
            uo == spec_usa_offset(b0),
            uc == spec_usa_count(b0),
            2 <= uc,
            k <= uc - 1,
            buf.len() == b0.len(),
            b0.len() == 512 * (uc - 1),
            forall|i: int|
                0 <= i < b0.len() && (i % 512 < 510 || i / 512 >= k) ==> #[trigger] buf@[i] == b0[i],
            forall|i: int|
                0 <= i < b0.len() && i % 512 >= 510 && i / 512 < k ==> #[trigger] buf@[i] == b0[uo
                    + 2 * (i / 512 + 1) + (i % 512 - 510)],
        decreases uc - 1 - k,
    {
        proof {
            assert(512 * (k + 1) <= 512 * (uc - 1)) by {
                vstd::arithmetic::mul::lemma_mul_inequality(k + 1, uc - 1, 512);
            }
        }
        let lo = buf[uo + 2 * (k + 1)];
        let hi = buf[uo + 2 * (k + 1) + 1];
        let ti: usize = 512 * k + 510;
        proof {
            assert((512 * k + 510) % 512 == 510 && (512 * k + 510) / 512 == k) by {
                vstd::arithmetic::div_mod::lemma_fundamental_div_mod_converse(
                    512 * k + 510,
                    512,
                    k as int,
                    510,
                );
            }
            assert((512 * k + 511) % 512 == 511 && (512 * k + 511) / 512 == k) by {
                vstd::arithmetic::div_mod::lemma_fundamental_div_mod_converse(
                    512 * k + 511,
                    512,
                    k as int,
                    511,
                );
            }
            // The slots lie below 510, so they are still original bytes.
            assert(buf@[uo + 2 * (k + 1)] == b0[uo + 2 * (k + 1)]) by {
                vstd::arithmetic::div_mod::lemma_mod_bound(uo + 2 * (k + 1), 512);
                vstd::arithmetic::div_mod::lemma_small_mod((uo + 2 * (k + 1)) as nat, 512);
            }
            assert(buf@[uo + 2 * (k + 1) + 1] == b0[uo + 2 * (k + 1) + 1]) by {
                vstd::arithmetic::div_mod::lemma_small_mod((uo + 2 * (k + 1) + 1) as nat, 512);
            }
        }
        buf[ti] = lo;
        buf[ti + 1] = hi;
        k = k + 1;
    }
    proof {
        assert(buf@ =~= spec_fixed(b0));
    }
    Ok(())
}

} // verus!
