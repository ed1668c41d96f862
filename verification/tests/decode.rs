use mft_scan::boot::parse_boot_sector;
use mft_scan::err::DecodeError;
use mft_scan::fixup::apply_fixup;
use mft_scan::record::parse_record;
use mft_scan::runs::{decode_runs_from, encode_runs, run_list_matches_allocated, total_clusters,
    vbyte_to_phys, RunEntry};

fn put(buf: &mut [u8], off: usize, bytes: &[u8]) {
    buf[off..off + bytes.len()].copy_from_slice(bytes);
}

fn le(v: u64, n: usize) -> Vec<u8> {
    (0..n).map(|i| (v >> (8 * i)) as u8).collect()
}

fn utf16(s: &str) -> Vec<u8> {
    s.encode_utf16().flat_map(|u| u.to_le_bytes()).collect()
}

// A minimal boot sector: 512 bytes/sector, 8 sectors/cluster, MFT at
// cluster 4, 2^10-byte records.
fn boot_buf() -> Vec<u8> {
    let mut b = vec![0u8; 512];
    put(&mut b, 0x0B, &[0x00, 0x02]);
    b[0x0D] = 0x08;
    put(&mut b, 0x30, &le(4, 8));
    b[0x40] = 0xF6;
    b
}

#[test]
fn boot_sector_geometry() {
    let info = parse_boot_sector(&boot_buf()).unwrap();
    assert_eq!(info.bytes_per_sector, 512);
    assert_eq!(info.sectors_per_cluster, 8);
    assert_eq!(info.bytes_per_cluster, 4096);
    assert_eq!(info.record_size, 1024);
    assert_eq!(info.mft_lcn, 4);
    assert_eq!(info.mft_byte_offset, 4 * 4096);
}

#[test]
fn boot_sector_positive_cluster_count() {
    let mut b = boot_buf();
    b[0x40] = 2;
    let info = parse_boot_sector(&b).unwrap();
    assert_eq!(info.record_size, 2 * 4096);
}

#[test]
fn boot_sector_rejects_zero_geometry() {
    let mut b = boot_buf();
    put(&mut b, 0x0B, &[0x00, 0x00]);
    assert_eq!(parse_boot_sector(&b).unwrap_err(), DecodeError::Signature);
    let mut b = boot_buf();
    b[0x0D] = 0;
    assert_eq!(parse_boot_sector(&b).unwrap_err(), DecodeError::Signature);
    let mut b = boot_buf();
    b[0x40] = 0xB0; // 2^80 bytes per record does not fit
    assert_eq!(parse_boot_sector(&b).unwrap_err(), DecodeError::Signature);
}

// A 1024-byte buffer with USN 0xAA55, original tail bytes 0x1234 and
// 0x5678 saved in the update sequence array.
fn fixup_buf() -> Vec<u8> {
    let mut b = vec![0u8; 1024];
    put(&mut b, 4, &[0x30, 0x00]); // usa_offset
    put(&mut b, 6, &[0x03, 0x00]); // usa_count
    put(&mut b, 0x30, &[0x55, 0xAA]); // USN
    put(&mut b, 0x32, &[0x34, 0x12]); // slot for sub-sector 0
    put(&mut b, 0x34, &[0x78, 0x56]); // slot for sub-sector 1
    put(&mut b, 510, &[0x55, 0xAA]);
    put(&mut b, 1022, &[0x55, 0xAA]);
    b
}

#[test]
fn fixup_restores_tails() {
    let mut b = fixup_buf();
    apply_fixup(&mut b).unwrap();
    assert_eq!(&b[510..512], &[0x34, 0x12]);
    assert_eq!(&b[1022..1024], &[0x78, 0x56]);
}

#[test]
fn fixup_detects_torn_write() {
    let mut b = fixup_buf();
    put(&mut b, 1022, &[0x55, 0xAB]);
    let orig = b.clone();
    assert_eq!(apply_fixup(&mut b).unwrap_err(), DecodeError::Fixup);
    assert_eq!(b, orig);
}

#[test]
fn fixup_rejects_bad_array() {
    let mut b = fixup_buf();
    put(&mut b, 6, &[0x09, 0x00]); // count does not match the length
    assert_eq!(apply_fixup(&mut b).unwrap_err(), DecodeError::Attribute);
}

#[test]
fn run_list_single_run() {
    let buf = vec![0x21, 0x18, 0x34, 0x56, 0x00];
    let runs = decode_runs_from(&buf, 0, 5, 0).unwrap();
    assert_eq!(runs.len(), 1);
    assert_eq!(runs[0].cluster_count, 0x18);
    assert_eq!(runs[0].lcn, 0x5634);
}

#[test]
fn run_list_delta_and_sparse() {
    // 16 clusters at 0x100, a 4-cluster hole, then 8 clusters at 0xE0
    // (delta -0x20 from 0x100).
    let mut buf = vec![0x21, 0x10, 0x00, 0x01];
    buf.extend([0x01, 0x04]); // sparse: length nibble only
    buf.extend([0x21, 0x08, 0xE0, 0xFF]); // negative delta
    buf.push(0x00);
    let runs = decode_runs_from(&buf, 0, 11, 0).unwrap();
    assert_eq!(
        runs,
        vec![
            RunEntry { lcn: 0x100, cluster_count: 0x10 },
            RunEntry { lcn: 0, cluster_count: 4 },
            RunEntry { lcn: 0xE0, cluster_count: 8 },
        ]
    );
}

#[test]
fn run_list_missing_terminator_rejected() {
    let buf = vec![0x21, 0x18, 0x34, 0x56];
    assert_eq!(decode_runs_from(&buf, 0, 4, 0).unwrap_err(), DecodeError::Attribute);
}

#[test]
fn run_totals_match_allocated() {
    let runs = vec![
        RunEntry { lcn: 0x100, cluster_count: 16 },
        RunEntry { lcn: 0, cluster_count: 4 },
        RunEntry { lcn: 0xE0, cluster_count: 8 },
    ];
    assert_eq!(total_clusters(&runs), Some(28));
    assert!(run_list_matches_allocated(&runs, 4096, 28 * 4096));
    assert!(!run_list_matches_allocated(&runs, 4096, 28 * 4096 + 1));
}

// Builds one MFT record buffer: header, update sequence array, the given
// attribute bytes, terminator, then the fixup protection is applied the
// way the volume would store it.
fn build_record(idx: u64, flags: u16, attrs: &[Vec<u8>]) -> Vec<u8> {
    let mut b = vec![0u8; 1024];
    put(&mut b, 0, b"FILE");
    put(&mut b, 4, &[0x30, 0x00]); // usa_offset
    put(&mut b, 6, &[0x03, 0x00]); // usa_count
    put(&mut b, 0x10, &le(7, 2)); // sequence number
    put(&mut b, 0x16, &le(flags as u64, 2));
    put(&mut b, 0x20, &le(idx, 6));
    let first_attr = 0x38usize;
    put(&mut b, 0x14, &le(first_attr as u64, 2));
    let mut pos = first_attr;
    for a in attrs {
        put(&mut b, pos, a);
        pos += a.len();
    }
    put(&mut b, pos, &[0xFF, 0xFF, 0xFF, 0xFF]);
    pos += 4;
    put(&mut b, 0x18, &le(pos as u64, 4)); // used size
    // Protect: save each sub-sector tail into its slot, stamp the USN.
    put(&mut b, 0x30, &[0x55, 0xAA]);
    for k in 0..2usize {
        let tail = 512 * (k + 1) - 2;
        let (lo, hi) = (b[tail], b[tail + 1]);
        put(&mut b, 0x32 + 2 * k, &[lo, hi]);
        put(&mut b, tail, &[0x55, 0xAA]);
    }
    b
}

fn filename_attr(parent: u64, namespace: u8, name: &str) -> Vec<u8> {
    let nameb = utf16(name);
    let vlen = 0x42 + nameb.len();
    let alen = (0x18 + vlen + 7) / 8 * 8;
    let mut a = vec![0u8; alen];
    put(&mut a, 0, &le(0x30, 4));
    put(&mut a, 4, &le(alen as u64, 4));
    a[8] = 0; // resident
    put(&mut a, 16, &le(vlen as u64, 4));
    put(&mut a, 20, &le(0x18, 2));
    let v = 0x18;
    put(&mut a, v, &le(parent, 6));
    put(&mut a, v + 6, &le(3, 2)); // parent sequence number
    a[v + 0x40] = (nameb.len() / 2) as u8;
    a[v + 0x41] = namespace;
    put(&mut a, v + 0x42, &nameb);
    a
}

fn resident_data_attr(value_len: u64) -> Vec<u8> {
    let alen = 0x18 + ((value_len as usize + 7) / 8 * 8);
    let mut a = vec![0u8; alen];
    put(&mut a, 0, &le(0x80, 4));
    put(&mut a, 4, &le(alen as u64, 4));
    a[8] = 0;
    put(&mut a, 16, &le(value_len, 4));
    put(&mut a, 20, &le(0x18, 2));
    a
}

fn nonresident_data_attr(allocated: u64, real: u64, runs: &[u8]) -> Vec<u8> {
    let alen = (0x40 + runs.len() + 7) / 8 * 8;
    let mut a = vec![0u8; alen];
    put(&mut a, 0, &le(0x80, 4));
    put(&mut a, 4, &le(alen as u64, 4));
    a[8] = 1;
    put(&mut a, 32, &le(0x40, 2)); // run offset
    put(&mut a, 40, &le(allocated, 8));
    put(&mut a, 48, &le(real, 8));
    put(&mut a, 0x40, runs);
    a
}

#[test]
fn record_decode_full() {
    let b = build_record(
        42,
        1,
        &[
            filename_attr(5, 1, "notes.txt"),
            resident_data_attr(100),
            nonresident_data_attr(24 * 4096, 98000, &[0x21, 0x18, 0x34, 0x56, 0x00]),
        ],
    );
    let e = parse_record(&b, 999, 4096).unwrap();
    assert_eq!(e.base_record_segment_idx, 42);
    assert_eq!(e.sequence_number, 7);
    assert_eq!(e.flags, 1);
    assert_eq!(e.filenames.len(), 1);
    assert_eq!(e.filenames[0].parent, 5);
    assert_eq!(e.filenames[0].parent_seq, 3);
    assert_eq!(e.filenames[0].namespace, 1);
    assert_eq!(e.filenames[0].name, "notes.txt".encode_utf16().collect::<Vec<u16>>());
    assert_eq!(e.data.len(), 2);
    assert!(!e.data[0].non_resident);
    assert_eq!(e.data[0].logical_size, 100);
    assert_eq!(e.data[0].allocated_size, 4096);
    assert!(e.data[1].non_resident);
    assert_eq!(e.data[1].logical_size, 98000);
    assert_eq!(e.data[1].allocated_size, 24 * 4096);
    assert_eq!(e.data[1].runs, vec![RunEntry { lcn: 0x5634, cluster_count: 0x18 }]);
}

#[test]
fn record_decode_every_namespace() {
    for ns in 0u8..4 {
        let b = build_record(10, 1, &[filename_attr(5, ns, "x")]);
        let e = parse_record(&b, 10, 4096).unwrap();
        assert_eq!(e.filenames[0].namespace, ns);
        assert_eq!(e.filenames[0].name, vec![b'x' as u16]);
    }
}

#[test]
fn record_decode_no_and_many_filenames() {
    let b = build_record(10, 1, &[]);
    let e = parse_record(&b, 10, 4096).unwrap();
    assert!(e.filenames.is_empty());
    assert!(e.data.is_empty());
    let b = build_record(10, 1, &[filename_attr(5, 2, "A~1"), filename_attr(5, 1, "Alpha")]);
    let e = parse_record(&b, 10, 4096).unwrap();
    assert_eq!(e.filenames.len(), 2);
    assert_eq!(e.parents(), vec![5, 5]);
}

#[test]
fn record_fallback_index() {
    let b = build_record(0, 1, &[]);
    let e = parse_record(&b, 1234, 4096).unwrap();
    assert_eq!(e.base_record_segment_idx, 1234);
}

#[test]
fn record_errors() {
    let mut b = build_record(1, 1, &[]);
    b[0] = b'G';
    assert_eq!(parse_record(&b, 1, 4096).unwrap_err(), DecodeError::Signature);

    let b = build_record(1, 0, &[]);
    assert_eq!(parse_record(&b, 1, 4096).unwrap_err(), DecodeError::NotInUse);

    let mut bad_attr = filename_attr(5, 1, "x");
    bad_attr[4] = 3; // attribute length below the minimum
    let b = build_record(1, 1, &[bad_attr]);
    assert_eq!(parse_record(&b, 1, 4096).unwrap_err(), DecodeError::Attribute);

    let zero = vec![0u8; 1024];
    assert_eq!(parse_record(&zero, 1, 4096).unwrap_err(), DecodeError::Signature);
}

#[test]
fn best_filename_prefers_long_form() {
    let b = build_record(9, 1, &[filename_attr(5, 2, "README~1"), filename_attr(5, 1, "README.md")]);
    let e = parse_record(&b, 9, 4096).unwrap();
    let best = e.get_best_filename().unwrap();
    assert_eq!(best, "README.md".encode_utf16().collect::<Vec<u16>>());
}

#[test]
fn best_filename_priorities() {
    // WIN32+DOS outranks WIN32; a lone DOS name is still usable.
    let b = build_record(9, 1, &[filename_attr(5, 1, "w32"), filename_attr(5, 3, "both")]);
    let e = parse_record(&b, 9, 4096).unwrap();
    assert_eq!(e.get_best_filename().unwrap(), "both".encode_utf16().collect::<Vec<u16>>());
    let b = build_record(9, 1, &[filename_attr(5, 2, "DOSONLY")]);
    let e = parse_record(&b, 9, 4096).unwrap();
    assert_eq!(e.get_best_filename().unwrap(), "DOSONLY".encode_utf16().collect::<Vec<u16>>());
}

#[test]
fn allocated_size_sums_attributes() {
    let b = build_record(
        3,
        1,
        &[resident_data_attr(100), nonresident_data_attr(8192, 5000, &[0x11, 0x02, 0x05, 0x00])],
    );
    let e = parse_record(&b, 3, 4096).unwrap();
    // 100 rounded up to one cluster, plus the non-resident footprint.
    assert_eq!(e.get_allocated_size(4096), 4096 + 8192);
    assert_eq!(e.real_size(), 100 + 5000);
}

#[test]
fn run_list_round_trip() {
    let cases: Vec<Vec<RunEntry>> = vec![
        vec![],
        vec![RunEntry { lcn: 0x5634, cluster_count: 0x18 }],
        vec![
            RunEntry { lcn: 0x100, cluster_count: 16 },
            RunEntry { lcn: 0, cluster_count: 4 },
            RunEntry { lcn: 0xE0, cluster_count: 8 },
            RunEntry { lcn: 0x7FFF_FFFF_FFFF_FFFF, cluster_count: 1 },
            RunEntry { lcn: 1, cluster_count: 2 },
        ],
    ];
    for runs in cases {
        let bytes = encode_runs(&runs).unwrap();
        let back = decode_runs_from(&bytes, 0, bytes.len(), 0).unwrap();
        assert_eq!(back, runs);
    }
    // A zero-length extent is not encodable.
    assert!(encode_runs(&vec![RunEntry { lcn: 5, cluster_count: 0 }]).is_none());
}

#[test]
fn virtual_to_physical_translation() {
    let runs = vec![
        RunEntry { lcn: 0x100, cluster_count: 2 },
        RunEntry { lcn: 0, cluster_count: 1 },
        RunEntry { lcn: 0x50, cluster_count: 1 },
    ];
    let bpc = 4096u64;
    assert_eq!(vbyte_to_phys(&runs, bpc, 0), Some(0x100 * 4096));
    assert_eq!(vbyte_to_phys(&runs, bpc, 8191), Some(0x100 * 4096 + 8191));
    assert_eq!(vbyte_to_phys(&runs, bpc, 8192), None); // sparse hole
    assert_eq!(vbyte_to_phys(&runs, bpc, 3 * 4096), Some(0x50 * 4096));
    assert_eq!(vbyte_to_phys(&runs, bpc, 4 * 4096), None); // past the end
}
