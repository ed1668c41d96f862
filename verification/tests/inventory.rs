use mft_scan::inventory::{volume_selected, Contructor, Entry, Filesystem};
use mft_scan::record::{DataAttr, FileNameAttr, MftEntry};

fn u(s: &str) -> Vec<u16> {
    s.encode_utf16().collect()
}

fn entry(idx: u64, dir: bool, parent: u64, name: &str, sizes: &[u64]) -> MftEntry {
    MftEntry {
        base_record_segment_idx: idx,
        sequence_number: 1,
        flags: if dir { 3 } else { 1 },
        filenames: vec![FileNameAttr { parent, parent_seq: 1, namespace: 1, name: u(name) }],
        data: sizes
            .iter()
            .map(|&s| DataAttr {
                name: Vec::new(),
                non_resident: false,
                logical_size: s,
                allocated_size: s,
                runs: Vec::new(),
            })
            .collect(),
    }
}

fn root() -> MftEntry {
    entry(5, true, 5, ".", &[])
}

fn sample_constructor() -> Contructor {
    let mut c = Contructor::new(u("C:\\"), 4096, 16);
    c.add_entry(root());
    c.add_entry(entry(30, true, 5, "Users", &[]));
    c.add_entry(entry(42, false, 30, "notes.txt", &[100]));
    c
}

#[test]
fn drive_letter_trailing_separator_stripped() {
    let c = Contructor::new(u("C:\\"), 4096, 0);
    assert_eq!(c.drive_letter, u("C:"));
    let c = Contructor::new(u("C:"), 4096, 0);
    assert_eq!(c.drive_letter, u("C:"));
}

#[test]
fn path_resolution_walks_parent_chain() {
    let c = sample_constructor();
    assert_eq!(c.get_full_path(42).unwrap(), u("C:\\Users\\notes.txt"));
    assert_eq!(c.get_full_path(30).unwrap(), u("C:\\Users"));
    assert_eq!(c.get_full_path(5).unwrap(), u("C:"));
}

#[test]
fn path_resolution_missing_parent() {
    let mut c = Contructor::new(u("C:\\"), 4096, 0);
    c.add_entry(entry(42, false, 30, "orphan", &[1]));
    assert_eq!(c.get_full_path(42), None);
    assert_eq!(c.get_full_path(7), None);
}

#[test]
fn path_resolution_cycle_bounded() {
    let mut c = Contructor::new(u("C:\\"), 4096, 0);
    c.add_entry(entry(10, true, 11, "a", &[]));
    c.add_entry(entry(11, true, 10, "b", &[]));
    assert_eq!(c.get_full_path(10), None);
}

#[test]
fn later_record_shadows_earlier() {
    let mut c = sample_constructor();
    c.add_entry(entry(42, false, 30, "renamed.txt", &[100]));
    assert_eq!(c.get_full_path(42).unwrap(), u("C:\\Users\\renamed.txt"));
}

fn find<'a>(fs: &'a Filesystem, path: &str) -> &'a Entry {
    let p = u(path);
    fs.files.iter().find(|e| e.path == p).unwrap()
}

#[test]
fn aggregation_totals() {
    let mut c = Contructor::new(u("C:\\"), 4096, 0);
    c.add_entry(root());
    c.add_entry(entry(10, true, 5, "A", &[]));
    c.add_entry(entry(11, true, 10, "B", &[]));
    c.add_entry(entry(20, false, 10, "x", &[100]));
    c.add_entry(entry(21, false, 10, "y", &[200]));
    c.add_entry(entry(22, false, 11, "z", &[50]));
    let mut fs = Filesystem::new();
    let n = fs.ingest_records(&c);
    assert_eq!(n, 6);
    let a = find(&fs, "C:\\A");
    assert_eq!(a.real_size, 350);
    assert!(a.is_dir);
    let b = find(&fs, "C:\\A\\B");
    assert_eq!(b.real_size, 50);
    assert!(b.is_dir);
    let x = find(&fs, "C:\\A\\x");
    assert_eq!(x.real_size, 100);
    assert!(!x.is_dir);
}

#[test]
fn aggregation_order_independent_sizes() {
    // Children processed before their directories give the same totals.
    let mut c = Contructor::new(u("C:\\"), 4096, 0);
    c.add_entry(entry(22, false, 11, "z", &[50]));
    c.add_entry(entry(20, false, 10, "x", &[100]));
    c.add_entry(entry(21, false, 10, "y", &[200]));
    c.add_entry(entry(11, true, 10, "B", &[]));
    c.add_entry(entry(10, true, 5, "A", &[]));
    c.add_entry(root());
    let mut fs = Filesystem::new();
    fs.ingest_records(&c);
    assert_eq!(find(&fs, "C:\\A").real_size, 350);
    assert_eq!(find(&fs, "C:\\A\\B").real_size, 50);
    assert!(find(&fs, "C:\\A").is_dir);
}

#[test]
fn path_keys_unique() {
    let mut c = sample_constructor();
    c.add_entry(entry(30, true, 5, "Users", &[]));
    let mut fs = Filesystem::new();
    fs.ingest_records(&c);
    for i in 0..fs.files.len() {
        for j in 0..fs.files.len() {
            if i != j {
                assert_ne!(fs.files[i].path, fs.files[j].path);
            }
        }
    }
}

#[test]
fn unresolvable_record_skipped() {
    let mut c = sample_constructor();
    c.add_entry(entry(50, false, 99, "lost", &[7]));
    let mut fs = Filesystem::new();
    let n = fs.ingest_records(&c);
    assert_eq!(n, 3);
    assert!(fs.files.iter().all(|e| e.path != u("C:\\lost")));
}

#[test]
fn add_fs_entry_reports_outcome() {
    let c = sample_constructor();
    let mut fs = Filesystem::new();
    assert!(fs.add_fs_entry(42, &c));
    assert!(!fs.add_fs_entry(1000, &c));
}

#[test]
fn directory_index_rows() {
    let mut fs = Filesystem::new();
    let e = Entry {
        name: u("x"),
        path: u("C:\\A\\x"),
        real_size: 100,
        alloc_size: 4096,
        is_dir: false,
    };
    fs.add_dir_entry(u("C:\\A\\x"), e);
    assert_eq!(fs.dirs.len(), 1);
    assert_eq!(fs.dirs[0].path, u("C:\\A"));
    assert_eq!(fs.dirs[0].real_size, 100);
    let cs = fs.dirs[0].children.as_ref().unwrap();
    assert_eq!(cs.len(), 1);
    assert_eq!(cs[0].name, u("x"));

    let e2 = Entry {
        name: u("y"),
        path: u("C:\\A\\y"),
        real_size: 50,
        alloc_size: 4096,
        is_dir: false,
    };
    fs.add_dir_entry(u("C:\\A\\y"), e2);
    assert_eq!(fs.dirs.len(), 1);
    assert_eq!(fs.dirs[0].real_size, 150);
    assert_eq!(fs.dirs[0].children.as_ref().unwrap().len(), 2);

    let e3 = Entry { name: u("C:"), path: u("C:"), real_size: 1, alloc_size: 0, is_dir: true };
    fs.add_dir_entry(u("C:"), e3);
    assert_eq!(fs.dirs.len(), 1); // a path without a separator has no parent

    // An empty parent prefix (the root sentinel) gets no row either.
    let e4 = Entry { name: u("x"), path: u("\\x"), real_size: 1, alloc_size: 0, is_dir: false };
    fs.add_dir_entry(u("\\x"), e4);
    assert_eq!(fs.dirs.len(), 1);
}

#[test]
fn volume_filter() {
    let paths = vec![u("C:\\"), u("D:\\mount")];
    assert!(volume_selected(&paths, &None));
    assert!(volume_selected(&paths, &Some(u("CD"))));
    assert!(volume_selected(&paths, &Some(u("D"))));
    assert!(!volume_selected(&paths, &Some(u("E"))));
    assert!(!volume_selected(&Vec::new(), &None));
}
