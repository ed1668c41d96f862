//! MFT file-record decoding.
//!
//! A raw record buffer is checked for its `FILE` signature, run through the
//! multi-sector fixup, and its attribute stream walked. The decoder keeps
//! what the inventory needs: the record's identity and flags, one parent
//! reference and one `(namespace, name)` pair per `$FILE_NAME` attribute,
//! and the size pair (plus run list) of each `$DATA` attribute. All other
//! attribute types are skipped by length. Names stay as the UTF-16LE code
//! units NTFS stores.

use vstd::prelude::*;

use crate::err::DecodeError;
use crate::fixup::{apply_fixup, fixup_wf, spec_fixed, usn_matches};
use crate::lebytes::{le, lemma_le_bound, pow256, read_le};
use crate::runs::{spec_decode_runs, RunEntry};

verus! {

/// One `$FILE_NAME` attribute: the parent record reference, the namespace
/// byte (0 = POSIX, 1 = WIN32, 2 = DOS, 3 = WIN32+DOS) and the name.
#[derive(Debug)]
pub struct FileNameAttr {
    pub parent: u64,
    pub parent_seq: u16,
    pub namespace: u8,
    pub name: Vec<u16>,
}

/// Mathematical image of a `FileNameAttr`.
#[verifier::ext_equal]
pub struct FileNameAttrS {
    pub parent: u64,
    pub parent_seq: u16,
    pub namespace: u8,
    pub name: Seq<u16>,
}

impl View for FileNameAttr {
    type V = FileNameAttrS;

    open spec fn view(&self) -> FileNameAttrS {
        FileNameAttrS {
            parent: self.parent,
            parent_seq: self.parent_seq,
            namespace: self.namespace,
            name: self.name@,
        }
    }
}

/// One `$DATA` attribute: its (possibly empty) name, its sizes, and — when
/// non-resident — its decoded run list.
#[derive(Debug)]
pub struct DataAttr {
    pub name: Vec<u16>,
    pub non_resident: bool,
    pub logical_size: u64,
    pub allocated_size: u64,
    pub runs: Vec<RunEntry>,
}

/// Mathematical image of a `DataAttr`.
#[verifier::ext_equal]
pub struct DataAttrS {
    pub name: Seq<u16>,
    pub non_resident: bool,
    pub logical_size: u64,
    pub allocated_size: u64,
    pub runs: Seq<RunEntry>,
}

impl View for DataAttr {
    type V = DataAttrS;

    open spec fn view(&self) -> DataAttrS {
        DataAttrS {
            name: self.name@,
            non_resident: self.non_resident,
            logical_size: self.logical_size,
            allocated_size: self.allocated_size,
            runs: self.runs@,
        }
    }
}

/// One decoded MFT record.
#[derive(Debug)]
pub struct MftEntry {
    pub base_record_segment_idx: u64,
    pub sequence_number: u16,
    pub flags: u16,
    pub filenames: Vec<FileNameAttr>,
    pub data: Vec<DataAttr>,
}

/// Mathematical image of an `MftEntry`.
#[verifier::ext_equal]
pub struct MftEntryS {
    pub base_record_segment_idx: u64,
    pub sequence_number: u16,
    pub flags: u16,
    pub filenames: Seq<FileNameAttrS>,
    pub data: Seq<DataAttrS>,
}

impl View for MftEntry {
    type V = MftEntryS;

    open spec fn view(&self) -> MftEntryS {
        MftEntryS {
            base_record_segment_idx: self.base_record_segment_idx,
            sequence_number: self.sequence_number,
            flags: self.flags,
            filenames: self.filenames@.map_values(|f: FileNameAttr| f@),
            data: self.data@.map_values(|d: DataAttr| d@),
        }
    }
}

/// The UTF-16LE code units of `n` two-byte slots starting at `off`.
pub open spec fn utf16_units(b: Seq<u8>, off: int, n: int) -> Seq<u16> {
    Seq::new(n as nat, |k: int| le(b, off + 2 * k, 2) as u16)
}

/// `v` rounded up to the next multiple of `m`.
pub open spec fn round_up_to(v: int, m: int) -> int {
    if m <= 0 {
        v
    } else {
        ((v + m - 1) / m) * m
    }
}

/// The `$FILE_NAME` attribute value at `b[vstart..vstart+vlen]`: parent
/// reference at 0, name length and namespace bytes at 0x40 and 0x41, the
/// name's code units from 0x42.
pub open spec fn parse_filename_value(b: Seq<u8>, vstart: int, vlen: int) -> Option<FileNameAttrS> {
    if vlen < 0x42 {
        None
    } else {
        let nl = b[vstart + 0x40] as int;
        if 0x42 + 2 * nl > vlen {
            None
        } else {
            Some(
                FileNameAttrS {
                    parent: le(b, vstart, 6) as u64,
                    parent_seq: le(b, vstart + 6, 2) as u16,
                    namespace: b[vstart + 0x41],
                    name: utf16_units(b, vstart + 0x42, nl),
                },
            )
        }
    }
}

/// Walks the attribute stream of `b[pos..end]` and collects the
/// `$FILE_NAME` (0x30) and `$DATA` (0x80) attributes in stream order.
/// The walk stops at the 0xFFFFFFFF terminator or at `end`; `None` means
/// a malformed attribute.
pub open spec fn parse_attrs(b: Seq<u8>, pos: int, end: int, bpc: int) -> Option<
    (Seq<FileNameAttrS>, Seq<DataAttrS>),
>
    decreases end - pos,
{
    if pos < 0 || end > b.len() {
        None
    } else if pos >= end {
        Some((Seq::empty(), Seq::empty()))
    } else if pos + 4 > end {
        None
    } else if le(b, pos, 4) == 0xFFFF_FFFF {
        Some((Seq::empty(), Seq::empty()))
    } else if pos + 8 > end {
        None
    } else {
        let ty = le(b, pos, 4);
        let len = le(b, pos + 4, 4);
        if len < 8 || pos + len > end {
            None
        } else {
            match parse_attrs(b, pos + len, end, bpc) {
                None => None,
                Some((fns, das)) => {
                    if ty == 0x30 {
                        if len < 24 || b[pos + 8] != 0 {
                            None
                        } else {
                            let vl = le(b, pos + 16, 4);
                            let vo = le(b, pos + 20, 2);
                            if vo + vl > len {
                                None
                            } else {
                                match parse_filename_value(b, pos + vo, vl) {
                                    None => None,
                                    Some(f) => Some((seq![f] + fns, das)),
                                }
                            }
                        }
                    } else if ty == 0x80 {
                        if len < 24 {
                            None
                        } else {
                            let nl = b[pos + 9] as int;
                            let no = le(b, pos + 10, 2);
                            if no + 2 * nl > len {
                                None
                            } else {
                                let name = utf16_units(b, pos + no, nl);
                                if b[pos + 8] == 0 {
                                    let vl = le(b, pos + 16, 4);
                                    Some(
                                        (
                                            fns,
                                            seq![
                                                DataAttrS {
                                                    name,
                                                    non_resident: false,
                                                    logical_size: vl as u64,
                                                    allocated_size: round_up_to(vl, bpc) as u64,
                                                    runs: Seq::empty(),
                                                },
                                            ] + das,
                                        ),
                                    )
                                } else if len < 64 {
                                    None
                                } else {
                                    let ro = le(b, pos + 32, 2);
                                    if ro > len {
                                        None
                                    } else {
                                        match spec_decode_runs(b, pos + ro, pos + len, 0) {
                                            None => None,
                                            Some(rs) => Some(
                                                (
                                                    fns,
                                                    seq![
                                                        DataAttrS {
                                                            name,
                                                            non_resident: true,
                                                            logical_size: le(b, pos + 48, 8) as u64,
                                                            allocated_size: le(b, pos + 40, 8) as u64,
                                                            runs: rs,
                                                        },
                                                    ] + das,
                                                ),
                                            ),
                                        }
                                    }
                                }
                            }
                        }
                    } else {
                        Some((fns, das))
                    }
                },
            }
        }
    }
}

/// Full decode of one raw record buffer.
///
/// `fallback` stands in for the base record number when the header's
/// record-reference field is zero; `bpc` is the volume's cluster size.
pub open spec fn record_spec(b: Seq<u8>, fallback: u64, bpc: int) -> Result<
    MftEntryS,
    DecodeError,
> {
    if b.len() < 48 {
        Err(DecodeError::Signature)
    } else if !(b[0] == 0x46 && b[1] == 0x49 && b[2] == 0x4C && b[3] == 0x45) {
        Err(DecodeError::Signature)
    } else if !fixup_wf(b) {
        Err(DecodeError::Attribute)
    } else if !usn_matches(b) {
        Err(DecodeError::Fixup)
    } else {
        let f = spec_fixed(b);
        let flags = le(f, 0x16, 2);
        if flags % 2 == 0 {
            Err(DecodeError::NotInUse)
        } else {
            let used = le(f, 0x18, 4);
            let fa = le(f, 0x14, 2);
            if used > b.len() || fa > used {
                Err(DecodeError::Attribute)
            } else {
                let base = le(f, 0x20, 6);
                match parse_attrs(f, fa, used, bpc) {
                    None => Err(DecodeError::Attribute),
                    Some((fns, das)) => Ok(
                        MftEntryS {
                            base_record_segment_idx: if base == 0 {
                                fallback
                            } else {
                                base as u64
                            },
                            sequence_number: le(f, 0x10, 2) as u16,
                            flags: flags as u16,
                            filenames: fns,
                            data: das,
                        },
                    ),
                }
            }
        }
    }
}

/// Copies a byte vector.
fn copy_bytes(src: &Vec<u8>) -> (r: Vec<u8>)
    ensures
        r@ == src@,
{
    let mut r: Vec<u8> = Vec::new();
    let mut i: usize = 0;
    while i < src.len()
        invariant
            i <= src.len(),
            r@ == src@.take(i as int),
        decreases src.len() - i,
    {
        r.push(src[i]);
        proof {
            assert(r@ =~= src@.take(i + 1));
        }
        i = i + 1;
    }
    proof {
        assert(src@.take(src@.len() as int) =~= src@);
    }
    r
}

/// Reads the `n` UTF-16LE code units at `buf[off..off+2n]`.
fn read_utf16_units(buf: &Vec<u8>, off: usize, n: usize) -> (r: Vec<u16>)
    requires
        off + 2 * n <= buf.len(),
    ensures
        r@ == utf16_units(buf@, off as int, n as int),
{
    let mut r: Vec<u16> = Vec::new();
    let mut k: usize = 0;
    while k < n
        invariant
            k <= n,
            off + 2 * n <= buf.len(),
            r@ == utf16_units(buf@, off as int, k as int),
        decreases n - k,
    {
        proof {
            lemma_le_bound(buf@, off + 2 * (k as int), 2);
            assert(pow256(2) == 0x10000) by {
                reveal_with_fuel(pow256, 3);
            }
        }
        let u = read_le(buf, off + 2 * k, 2) as u16;
        r.push(u);
        proof {
            assert(r@ =~= utf16_units(buf@, off as int, k + 1));
        }
        k = k + 1;
    }
    r
}

/// Executable attribute walk; mirrors `parse_attrs`.
fn parse_attrs_from(buf: &Vec<u8>, pos: usize, end: usize, bpc: u64) -> (r: Result<
    (Vec<FileNameAttr>, Vec<DataAttr>),
    DecodeError,
>)
    requires
        end <= buf.len(),
        1 <= bpc <= 0x1_0000_0000,
    ensures
        r matches Ok((fv, dv)) ==> parse_attrs(buf@, pos as int, end as int, bpc as int) == Some(
            (
                fv@.map_values(|f: FileNameAttr| f@),
                dv@.map_values(|d: DataAttr| d@),
            ),
        ),
        r matches Err(e) ==> parse_attrs(buf@, pos as int, end as int, bpc as int) is None && e
            == DecodeError::Attribute,
    decreases end - pos,
{
    proof {
        assert(pow256(2) == 0x10000 && pow256(4) == 0x1_0000_0000) by {
            reveal_with_fuel(pow256, 5);
        }
        assert(pow256(6) == 0x1_0000_0000_0000 && pow256(8) == 0x1_0000_0000_0000_0000) by {
            reveal_with_fuel(pow256, 9);
        }
    }
    if pos >= end {
        let r: (Vec<FileNameAttr>, Vec<DataAttr>) = (Vec::new(), Vec::new());
        proof {
            assert(r.0@.map_values(|f: FileNameAttr| f@) =~= Seq::<FileNameAttrS>::empty());
            assert(r.1@.map_values(|d: DataAttr| d@) =~= Seq::<DataAttrS>::empty());
        }
        return Ok(r);
    }
    if end - pos < 4 {
        return Err(DecodeError::Attribute);
    }
    proof {
        lemma_le_bound(buf@, pos as int, 4);
    }
    let ty = read_le(buf, pos, 4);
    if ty == 0xFFFF_FFFF {
        let r: (Vec<FileNameAttr>, Vec<DataAttr>) = (Vec::new(), Vec::new());
        proof {
            assert(r.0@.map_values(|f: FileNameAttr| f@) =~= Seq::<FileNameAttrS>::empty());
            assert(r.1@.map_values(|d: DataAttr| d@) =~= Seq::<DataAttrS>::empty());
        }
        return Ok(r);
    }
    if end - pos < 8 {
        return Err(DecodeError::Attribute);
    }
    proof {
        lemma_le_bound(buf@, pos + 4, 4);
    }
    let len = read_le(buf, pos + 4, 4) as usize;
    if len < 8 || len > end - pos {
        return Err(DecodeError::Attribute);
    }
    let (rest_f, rest_d) = parse_attrs_from(buf, pos + len, end, bpc)?;
    let ghost f0 = rest_f@.map_values(|f: FileNameAttr| f@);
    let ghost d0 = rest_d@.map_values(|d: DataAttr| d@);

    if ty == 0x30 {
        if len < 24 || buf[pos + 8] != 0 {
            return Err(DecodeError::Attribute);
        }
        proof {
            lemma_le_bound(buf@, pos + 16, 4);
            lemma_le_bound(buf@, pos + 20, 2);
        }
        let vl64 = read_le(buf, pos + 16, 4);
        let vo64 = read_le(buf, pos + 20, 2);
        if vo64 + vl64 > len as u64 {
            return Err(DecodeError::Attribute);
        }
        let vl = vl64 as usize;
        let vo = vo64 as usize;
        let vstart = pos + vo;
        if vl < 0x42 {
            return Err(DecodeError::Attribute);
        }
        let nl = buf[vstart + 0x40] as usize;
        if 0x42 + 2 * nl > vl {
            return Err(DecodeError::Attribute);
        }
        proof {
            lemma_le_bound(buf@, vstart as int, 6);
            lemma_le_bound(buf@, vstart + 6, 2);
        }
        let f = FileNameAttr {
            parent: read_le(buf, vstart, 6),
            parent_seq: read_le(buf, vstart + 6, 2) as u16,
            namespace: buf[vstart + 0x41],
            name: read_utf16_units(buf, vstart + 0x42, nl),
        };
        let ghost fs = f@;
        let mut fv = rest_f;
        fv.insert(0, f);
        proof {
            assert(fv@.map_values(|f: FileNameAttr| f@) =~= seq![fs] + f0);
        }
        return Ok((fv, rest_d));
    }
    if ty == 0x80 {
        if len < 24 {
            return Err(DecodeError::Attribute);
        }
        proof {
            lemma_le_bound(buf@, pos + 10, 2);
        }
        let nl = buf[pos + 9] as usize;
        let no = read_le(buf, pos + 10, 2) as usize;
        if no + 2 * nl > len {
            return Err(DecodeError::Attribute);
        }
        let name = read_utf16_units(buf, pos + no, nl);
        let d: DataAttr;
        if buf[pos + 8] == 0 {
            proof {
                lemma_le_bound(buf@, pos + 16, 4);
            }
            let vl = read_le(buf, pos + 16, 4);
            let rounded = round_up_exec(vl, bpc);
            d = DataAttr {
                name,
                non_resident: false,
                logical_size: vl,
                allocated_size: rounded,
                runs: Vec::new(),
            };
        } else {
            if len < 64 {
                return Err(DecodeError::Attribute);
            }
            proof {
                lemma_le_bound(buf@, pos + 32, 2);
            }
            let ro = read_le(buf, pos + 32, 2) as usize;
            if ro > len {
                return Err(DecodeError::Attribute);
            }
            let rs = match crate::runs::decode_runs_from(buf, pos + ro, pos + len, 0) {
                Ok(rs) => rs,
                Err(_) => {
                    return Err(DecodeError::Attribute);
                },
            };
            d = DataAttr {
                name,
                non_resident: true,
                logical_size: read_le(buf, pos + 48, 8),
                allocated_size: read_le(buf, pos + 40, 8),
                runs: rs,
            };
        }
        let ghost ds = d@;
        let mut dv = rest_d;
        dv.insert(0, d);
        proof {
            assert(dv@.map_values(|d: DataAttr| d@) =~= seq![ds] + d0);
        }
        return Ok((rest_f, dv));
    }
    Ok((rest_f, rest_d))
}

/// Rounds `v` up to the next multiple of `m`.
fn round_up_exec(v: u64, m: u64) -> (r: u64)
    requires
        1 <= m,
        v + m <= u64::MAX,
    ensures
        r == round_up_to(v as int, m as int),
{
    let t = v + m - 1;
    let q = t / m;
    proof {
        vstd::arithmetic::div_mod::lemma_fundamental_div_mod(t as int, m as int);
        vstd::arithmetic::div_mod::lemma_mod_bound(t as int, m as int);
        assert((m as int) * (q as int) == t - (t as int % m as int));
        assert((q as int) * (m as int) <= t) by (nonlinear_arith)
            requires
                (m as int) * (q as int) <= t,
        ;
    }
    q * m
}

/// Decodes one raw MFT record buffer.
///
/// The buffer is checked for the `FILE` signature, the fixup is applied to
/// a private copy, and the attribute stream is walked; the result is
/// exactly `record_spec` of the buffer. `fallback` is the caller's record
/// number, used only when the header's own record-reference field is zero.
pub fn parse_record(buf: &Vec<u8>, fallback: u64, bytes_per_cluster: u64) -> (r: Result<
    MftEntry,
    DecodeError,
>)
    requires
        1 <= bytes_per_cluster <= 0x1_0000_0000,
    ensures
        r matches Ok(e) ==> record_spec(buf@, fallback, bytes_per_cluster as int) == Ok::<
            MftEntryS,
            DecodeError,
        >(e@),
        r matches Err(k) ==> record_spec(buf@, fallback, bytes_per_cluster as int) == Err::<
            MftEntryS,
            DecodeError,
        >(k),
{
    if buf.len() < 48 {
        return Err(DecodeError::Signature);
    }
    if !(buf[0] == 0x46 && buf[1] == 0x49 && buf[2] == 0x4C && buf[3] == 0x45) {
        return Err(DecodeError::Signature);
    }
    if buf.len() < 512 {
        return Err(DecodeError::Attribute);
    }
    let mut f = copy_bytes(buf);
    match apply_fixup(&mut f) {
        Ok(()) => (),
        Err(e) => {
            return Err(e);
        },
    }
    proof {
        assert(f@ == spec_fixed(buf@));
        assert(f@.len() == buf@.len());
        assert(pow256(2) == 0x10000 && pow256(4) == 0x1_0000_0000) by {
            reveal_with_fuel(pow256, 5);
        }
        assert(pow256(6) == 0x1_0000_0000_0000) by {
            reveal_with_fuel(pow256, 7);
        }
        lemma_le_bound(f@, 0x16, 2);
        lemma_le_bound(f@, 0x18, 4);
        lemma_le_bound(f@, 0x14, 2);
        lemma_le_bound(f@, 0x10, 2);
        lemma_le_bound(f@, 0x20, 6);
    }
    let flags = read_le(&f, 0x16, 2) as u16;
    if flags % 2 == 0 {
        return Err(DecodeError::NotInUse);
    }
    let used = read_le(&f, 0x18, 4) as usize;
    let fa = read_le(&f, 0x14, 2) as usize;
    if used > f.len() || fa > used {
        return Err(DecodeError::Attribute);
    }
    let base = read_le(&f, 0x20, 6);
    let (fns, das) = match parse_attrs_from(&f, fa, used, bytes_per_cluster) {
        Ok(p) => p,
        Err(e) => {
            return Err(e);
        },
    };
    let e = MftEntry {
        base_record_segment_idx: if base == 0 {
            fallback
        } else {
            base
        },
        sequence_number: read_le(&f, 0x10, 2) as u16,
        flags,
        filenames: fns,
        data: das,
    };
    proof {
        let s = record_spec(buf@, fallback, bytes_per_cluster as int);
        assert(s is Ok);
        assert(e@ =~= s->Ok_0);
    }
    Ok(e)
}


/// Copies a vector of UTF-16 code units.
pub fn copy_u16s(src: &Vec<u16>) -> (r: Vec<u16>)
    ensures
        r@ == src@,
{
    let mut r: Vec<u16> = Vec::new();
    let mut i: usize = 0;
    while i < src.len()
        invariant
            i <= src.len(),
            r@ == src@.take(i as int),
        decreases src.len() - i,
    {
        r.push(src[i]);
        proof {
            assert(r@ =~= src@.take(i + 1));
        }
        i = i + 1;
    }
    proof {
        assert(src@.take(src@.len() as int) =~= src@);
    }
    r
}

/// Saturating addition on `u64`.
pub fn sat_add(a: u64, b: u64) -> (r: u64)
    ensures
        r == if a + b <= u64::MAX {
            a + b
        } else {
            u64::MAX as int
        },
{
    if a > u64::MAX - b {
        u64::MAX
    } else {
        a + b
    }
}

/// The parent record ids of a record, one per `$FILE_NAME` attribute.
pub open spec fn spec_parents(e: MftEntryS) -> Seq<u64> {
    e.filenames.map_values(|f: FileNameAttrS| f.parent)
}

/// Display priority of a `$FILE_NAME` namespace byte:
/// WIN32+DOS over WIN32 over POSIX over DOS (and anything unknown).
pub open spec fn ns_rank(ns: u8) -> int {
    if ns == 3 {
        3
    } else if ns == 1 {
        2
    } else if ns == 0 {
        1
    } else {
        0
    }
}

/// Index of the highest-priority filename; the earliest wins ties.
pub open spec fn best_idx(fns: Seq<FileNameAttrS>) -> int
    decreases fns.len(),
{
    if fns.len() <= 1 {
        0
    } else {
        let b = best_idx(fns.drop_last());
        if ns_rank(fns.last().namespace) > ns_rank(fns[b].namespace) {
            fns.len() - 1
        } else {
            b
        }
    }
}

pub proof fn lemma_best_idx_bounds(fns: Seq<FileNameAttrS>)
    requires
        fns.len() > 0,
    ensures
        0 <= best_idx(fns) < fns.len(),
    decreases fns.len(),
{
    if fns.len() > 1 {
        lemma_best_idx_bounds(fns.drop_last());
    }
}

/// Index of the first filename whose namespace is not DOS.
pub open spec fn first_non_dos_idx(fns: Seq<FileNameAttrS>) -> int
    decreases fns.len(),
{
    if fns.len() == 0 {
        0
    } else if fns[0].namespace != 2 {
        0
    } else {
        1 + first_non_dos_idx(fns.drop_first())
    }
}

pub proof fn lemma_first_non_dos(fns: Seq<FileNameAttrS>, j: int)
    requires
        0 <= j < fns.len(),
        fns[j].namespace != 2,
        forall|k: int| 0 <= k < j ==> #[trigger] fns[k].namespace == 2,
    ensures
        first_non_dos_idx(fns) == j,
    decreases j,
{
    if j > 0 {
        assert(fns[0].namespace == 2);
        assert(fns.drop_first()[j - 1] == fns[j]);
        assert(forall|k: int|
            0 <= k < j - 1 ==> #[trigger] fns.drop_first()[k].namespace == fns[k + 1].namespace);
        lemma_first_non_dos(fns.drop_first(), j - 1);
    }
}

/// The index whose name is displayed: the priority winner, except that a
/// DOS short name never wins while a non-DOS name exists.
pub open spec fn best_display_idx(fns: Seq<FileNameAttrS>) -> int {
    let b = best_idx(fns);
    if fns[b].namespace == 2 && (exists|i: int| 0 <= i < fns.len() && #[trigger] fns[i].namespace != 2) {
        first_non_dos_idx(fns)
    } else {
        b
    }
}

/// The record's display name, when it has any filename at all.
pub open spec fn spec_best_filename(e: MftEntryS) -> Option<Seq<u16>> {
    if e.filenames.len() == 0 {
        None
    } else {
        Some(e.filenames[best_display_idx(e.filenames)].name)
    }
}

/// What one `$DATA` attribute adds to a record's allocated size: its own
/// cluster footprint when non-resident, its value length rounded up to a
/// whole cluster when resident.
pub open spec fn alloc_contrib(d: DataAttrS, bpc: int) -> int {
    if d.non_resident {
        d.allocated_size as int
    } else {
        round_up_to(d.logical_size as int, bpc)
    }
}

/// The record's allocated size: the sum of its data attributes' cluster
/// footprints.
pub open spec fn spec_alloc_size(data: Seq<DataAttrS>, bpc: int) -> int
    decreases data.len(),
{
    if data.len() == 0 {
        0
    } else {
        alloc_contrib(data[0], bpc) + spec_alloc_size(data.drop_first(), bpc)
    }
}

/// The record's real (logical) size: the sum of its data attributes'
/// value lengths.
pub open spec fn spec_real_size(data: Seq<DataAttrS>) -> int
    decreases data.len(),
{
    if data.len() == 0 {
        0
    } else {
        data[0].logical_size + spec_real_size(data.drop_first())
    }
}

pub proof fn lemma_alloc_size_step(data: Seq<DataAttrS>, bpc: int, i: int)
    requires
        0 <= i < data.len(),
    ensures
        spec_alloc_size(data.take(i + 1), bpc) == spec_alloc_size(data.take(i), bpc)
            + alloc_contrib(data[i], bpc),
        spec_real_size(data.take(i + 1)) == spec_real_size(data.take(i)) + data[i].logical_size,
    decreases i,
{
    if i == 0 {
        assert(data.take(1).drop_first() =~= Seq::<DataAttrS>::empty());
        assert(data.take(0) =~= Seq::<DataAttrS>::empty());
        assert(data.take(1)[0] == data[0]);
    } else {
        lemma_alloc_size_step(data.drop_first(), bpc, i - 1);
        assert(data.take(i + 1).drop_first() =~= data.drop_first().take(i));
        assert(data.take(i).drop_first() =~= data.drop_first().take(i - 1));
        assert(data.take(i + 1)[0] == data[0]);
        assert(data.take(i)[0] == data[0]);
        assert(data.drop_first()[i - 1] == data[i]);
    }
}

pub proof fn lemma_sizes_nonneg(data: Seq<DataAttrS>, bpc: int)
    ensures
        spec_alloc_size(data, bpc) >= 0,
        spec_real_size(data) >= 0,
    decreases data.len(),
{
    if data.len() > 0 {
        lemma_sizes_nonneg(data.drop_first(), bpc);
        let d = data[0];
        if !d.non_resident && bpc >= 1 {
            vstd::arithmetic::div_mod::lemma_fundamental_div_mod(
                d.logical_size + bpc - 1,
                bpc,
            );
            vstd::arithmetic::div_mod::lemma_mod_bound(d.logical_size + bpc - 1, bpc);
            assert(alloc_contrib(d, bpc) * 1 >= 0) by (nonlinear_arith)
                requires
                    alloc_contrib(d, bpc) == ((d.logical_size + bpc - 1) / bpc) * bpc,
                    (d.logical_size + bpc - 1) / bpc >= 0,
                    bpc >= 1,
            ;
        }
    }
}

/// Rounds `v` up to the next multiple of `m`, saturating at `u64::MAX`.
fn round_up_sat(v: u64, m: u64) -> (r: u64)
    requires
        1 <= m,
    ensures
        r == if round_up_to(v as int, m as int) <= u64::MAX {
            round_up_to(v as int, m as int)
        } else {
            u64::MAX as int
        },
{
    proof {
        vstd::arithmetic::div_mod::lemma_fundamental_div_mod(v as int, m as int);
        vstd::arithmetic::div_mod::lemma_mod_bound(v as int, m as int);
        vstd::arithmetic::div_mod::lemma_fundamental_div_mod((v + m - 1) as int, m as int);
        vstd::arithmetic::div_mod::lemma_mod_bound((v + m - 1) as int, m as int);
    }
    let rem = v % m;
    if rem == 0 {
        proof {
            lemma_round_up_exact(v as int, m as int);
        }
        v
    } else {
        let d = m - rem;
        proof {
            lemma_round_up_exact(v as int, m as int);
        }
        if v > u64::MAX - d {
            u64::MAX
        } else {
            v + d
        }
    }
}

/// `round_up_to` in closed form: `v` itself on a multiple, else `v` plus
/// the distance to the next one.
pub proof fn lemma_round_up_exact(v: int, m: int)
    requires
        0 <= v,
        1 <= m,
    ensures
        v % m == 0 ==> round_up_to(v, m) == v,
        v % m != 0 ==> round_up_to(v, m) == v + (m - v % m),
{
    let q = v / m;
    let rem = v % m;
    vstd::arithmetic::div_mod::lemma_fundamental_div_mod(v, m);
    vstd::arithmetic::div_mod::lemma_mod_bound(v, m);
    if rem == 0 {
        assert((v + m - 1) / m == q) by (nonlinear_arith)
            requires
                v == m * q + rem,
                rem == 0,
                1 <= m,
                0 <= q,
        ;
        assert(round_up_to(v, m) == q * m);
        assert(q * m == v) by (nonlinear_arith)
            requires
                v == m * q,
        ;
    } else {
        assert((v + m - 1) / m == q + 1) by (nonlinear_arith)
            requires
                v == m * q + rem,
                0 < rem < m,
                1 <= m,
                0 <= q,
        ;
        assert(round_up_to(v, m) == (q + 1) * m);
        assert((q + 1) * m == v + (m - rem)) by (nonlinear_arith)
            requires
                v == m * q + rem,
        ;
    }
}

impl MftEntry {
    /// True when the record's in-use flag (bit 0) is set.
    pub fn is_in_use(&self) -> (r: bool)
        ensures
            r == (self@.flags % 2 == 1),
    {
        self.flags % 2 == 1
    }

    /// True when the record describes a directory (flag bit 1).
    pub fn is_directory(&self) -> (r: bool)
        ensures
            r == ((self@.flags / 2) % 2 == 1),
    {
        (self.flags / 2) % 2 == 1
    }

    /// The parent record ids, one per `$FILE_NAME` attribute, in order.
    pub fn parents(&self) -> (r: Vec<u64>)
        ensures
            r@ == spec_parents(self@),
    {
        let mut r: Vec<u64> = Vec::new();
        let mut i: usize = 0;
        while i < self.filenames.len()
            invariant
                i <= self.filenames.len(),
                r@ == spec_parents(self@).take(i as int),
            decreases self.filenames.len() - i,
        {
            r.push(self.filenames[i].parent);
            proof {
                assert(r@ =~= spec_parents(self@).take(i + 1));
            }
            i = i + 1;
        }
        proof {
            assert(spec_parents(self@).take(self.filenames@.len() as int) =~= spec_parents(self@));
        }
        r
    }

    /// The display name of the record: the highest-priority `$FILE_NAME`,
    /// with a DOS short name displaced by the first non-DOS name when one
    /// exists. `None` only for a record without filenames.
    pub fn get_best_filename(&self) -> (r: Option<Vec<u16>>)
        ensures
            r is Some <==> self@.filenames.len() > 0,
            r matches Some(v) ==> Some(v@) == spec_best_filename(self@),
    {
        let n = self.filenames.len();
        if n == 0 {
            return None;
        }
        let ghost fv = self@.filenames;
        let mut bi: usize = 0;
        let mut i: usize = 1;
        proof {
            assert(fv.take(1).drop_last() =~= Seq::<FileNameAttrS>::empty());
        }
        while i < n
            invariant
                1 <= i <= n,
                n == self.filenames.len(),
                fv == self@.filenames,
                bi < i,
                bi == best_idx(fv.take(i as int)),
            decreases n - i,
        {
            proof {
                assert(fv.take(i + 1).drop_last() =~= fv.take(i as int));
                assert(fv.take(i + 1).last() == fv[i as int]);
                lemma_best_idx_bounds(fv.take(i as int));
            }
            if rank_of(self.filenames[i].namespace) > rank_of(self.filenames[bi].namespace) {
                bi = i;
            }
            i = i + 1;
        }
        proof {
            assert(fv.take(n as int) =~= fv);
            lemma_best_idx_bounds(fv);
        }
        let mut best = bi;
        if self.filenames[bi].namespace == 2 {
            // A DOS short name is displayed only when no other form exists.
            let mut j: usize = 0;
            let mut found = false;
            while j < n && !found
                invariant
                    j <= n,
                    n == self.filenames.len(),
                    fv == self@.filenames,
                    bi < n,
                    !found ==> best == bi,
                    !found ==> forall|k: int| 0 <= k < j ==> #[trigger] fv[k].namespace == 2,
                    found ==> best < n && fv[best as int].namespace != 2 && best
                        == first_non_dos_idx(fv),
                decreases n - j,
            {
                if self.filenames[j].namespace != 2 {
                    proof {
                        lemma_first_non_dos(fv, j as int);
                    }
                    best = j;
                    found = true;
                }
                if !found {
                    j = j + 1;
                } else {
                    j = n;
                }
            }
            proof {
                if found {
                    assert(fv[best as int].namespace != 2);
                    assert(exists|ii: int|
                        0 <= ii < fv.len() && #[trigger] fv[ii].namespace != 2);
                } else {
                    assert(forall|ii: int|
                        0 <= ii < fv.len() ==> #[trigger] fv[ii].namespace == 2);
                    assert(!(exists|ii: int|
                        0 <= ii < fv.len() && #[trigger] fv[ii].namespace != 2));
                }
                assert(best == best_display_idx(fv));
            }
        } else {
            proof {
                assert(best == best_display_idx(fv));
            }
        }
        proof {
            lemma_best_idx_bounds(fv);
            assert(0 <= best < n);
        }
        Some(copy_u16s(&self.filenames[best].name))
    }

    /// The record's allocated size: each non-resident data attribute
    /// contributes its allocated size, each resident one its value length
    /// rounded up to a whole cluster. Saturates at `u64::MAX`.
    pub fn get_allocated_size(&self, bytes_per_cluster: u64) -> (r: u64)
        ensures
            r == if spec_alloc_size(self@.data, bytes_per_cluster as int) <= u64::MAX {
                spec_alloc_size(self@.data, bytes_per_cluster as int)
            } else {
                u64::MAX as int
            },
    {
        let ghost dv = self@.data;
        let ghost bpc = bytes_per_cluster as int;
        let mut acc: u64 = 0;
        let mut i: usize = 0;
        proof {
            assert(dv.take(0) =~= Seq::<DataAttrS>::empty());
        }
        while i < self.data.len()
            invariant
                i <= self.data.len(),
                dv == self@.data,
                bpc == bytes_per_cluster as int,
                acc == if spec_alloc_size(dv.take(i as int), bpc) <= u64::MAX {
                    spec_alloc_size(dv.take(i as int), bpc)
                } else {
                    u64::MAX as int
                },
            decreases self.data.len() - i,
        {
            proof {
                lemma_alloc_size_step(dv, bpc, i as int);
                lemma_sizes_nonneg(dv.take(i as int), bpc);
                lemma_sizes_nonneg(dv.take(i + 1), bpc);
                lemma_sizes_nonneg(seq![dv[i as int]], bpc);
                assert(seq![dv[i as int]].drop_first() =~= Seq::<DataAttrS>::empty());
                assert(alloc_contrib(dv[i as int], bpc) >= 0);
            }
            let d = &self.data[i];
            let c: u64;
            if d.non_resident {
                c = d.allocated_size;
            } else if bytes_per_cluster == 0 {
                c = d.logical_size;
            } else {
                c = round_up_sat(d.logical_size, bytes_per_cluster);
            }
            acc = sat_add(acc, c);
            i = i + 1;
        }
        proof {
            assert(dv.take(self.data@.len() as int) =~= dv);
        }
        acc
    }

    /// The record's real size: the sum of its data attributes' value
    /// lengths. Saturates at `u64::MAX`.
    pub fn real_size(&self) -> (r: u64)
        ensures
            r == if spec_real_size(self@.data) <= u64::MAX {
                spec_real_size(self@.data)
            } else {
                u64::MAX as int
            },
    {
        let ghost dv = self@.data;
        let mut acc: u64 = 0;
        let mut i: usize = 0;
        proof {
            assert(dv.take(0) =~= Seq::<DataAttrS>::empty());
        }
        while i < self.data.len()
            invariant
                i <= self.data.len(),
                dv == self@.data,
                acc == if spec_real_size(dv.take(i as int)) <= u64::MAX {
                    spec_real_size(dv.take(i as int))
                } else {
                    u64::MAX as int
                },
            decreases self.data.len() - i,
        {
            proof {
                lemma_alloc_size_step(dv, 1, i as int);
                lemma_sizes_nonneg(dv.take(i as int), 1);
                lemma_sizes_nonneg(dv.take(i + 1), 1);
            }
            acc = sat_add(acc, self.data[i].logical_size);
            i = i + 1;
        }
        proof {
            assert(dv.take(self.data@.len() as int) =~= dv);
        }
        acc
    }
}

/// Executable namespace priority; agrees with `ns_rank`.
fn rank_of(ns: u8) -> (r: u8)
    ensures
        r == ns_rank(ns),
{
    if ns == 3 {
        3
    } else if ns == 1 {
        2
    } else if ns == 0 {
        1
    } else {
        0
    }
}

} // verus!
