//! The record map and the path-keyed inventory.
//!
//! A `Contructor` collects decoded records for one volume and resolves a
//! record's absolute path by walking its parent chain. A `Filesystem`
//! aggregates resolved records into one entry per path, propagating each
//! record's real size to every ancestor directory.

use vstd::prelude::*;

use crate::paths::{
    find_last_sep, last_sep, path_wf, push_all, skip_prefix, strict_ancestor, take_prefix,
    units_eq, SEP,
};
use crate::record::{copy_u16s, sat_add, spec_best_filename, spec_parents, MftEntry, MftEntryS};

verus! {

/// Holds one volume's decoded records while paths are resolved.
///
/// Records live in insertion order; a lookup by record id finds the most
/// recently added record with that id, so adding a record with an id seen
/// before shadows the earlier one.
pub struct Contructor {
    pub drive_letter: Vec<u16>,
    pub entries: Vec<MftEntry>,
    pub bytes_per_cluster: u64,
}

/// The record with id `id`, preferring the latest added.
pub open spec fn find_entry(s: Seq<MftEntryS>, id: u64) -> Option<MftEntryS>
    decreases s.len(),
{
    if s.len() == 0 {
        None
    } else if s.last().base_record_segment_idx == id {
        Some(s.last())
    } else {
        find_entry(s.drop_last(), id)
    }
}

/// The absolute path of record `id`: the drive prefix for a root or
/// parentless record, else the parent's path, a separator, and the
/// record's display name. `None` when the chain runs into a missing
/// record, a nameless record, or does not reach a root within `fuel`
/// steps (a cycle).
pub open spec fn resolve_path(
    entries: Seq<MftEntryS>,
    drive: Seq<u16>,
    id: u64,
    fuel: nat,
) -> Option<Seq<u16>>
    decreases fuel,
{
    if fuel == 0 {
        None
    } else {
        match find_entry(entries, id) {
            None => None,
            Some(e) => {
                let ps = spec_parents(e);
                if ps.len() == 0 {
                    Some(drive)
                } else if ps[0] == e.base_record_segment_idx {
                    Some(drive)
                } else {
                    match spec_best_filename(e) {
                        None => None,
                        Some(name) => match resolve_path(
                            entries,
                            drive,
                            ps[0],
                            (fuel - 1) as nat,
                        ) {
                            None => None,
                            Some(pp) => Some(pp + seq![SEP] + name),
                        },
                    }
                }
            },
        }
    }
}

impl Contructor {
    /// The records as mathematical values, in insertion order.
    pub open spec fn entries_view(&self) -> Seq<MftEntryS> {
        self.entries@.map_values(|e: MftEntry| e@)
    }

    /// A fresh record map for one volume. A single trailing separator of
    /// the drive prefix is stripped, as mount paths usually carry one.
    pub fn new(drive_letter: Vec<u16>, bytes_per_cluster: u64, entry_count: usize) -> (r:
        Contructor)
        ensures
            r.drive_letter@ == if drive_letter@.len() > 0 && drive_letter@.last() == SEP {
                drive_letter@.drop_last()
            } else {
                drive_letter@
            },
            r.entries@.len() == 0,
            r.bytes_per_cluster == bytes_per_cluster,
    {
        let mut d = drive_letter;
        if d.len() > 0 && d[d.len() - 1] == SEP {
            let _ = d.pop();
        }
        Contructor { drive_letter: d, entries: Vec::with_capacity(entry_count), bytes_per_cluster }
    }

    /// Adds one decoded record to the map.
    pub fn add_entry(&mut self, entry: MftEntry)
        ensures
            final(self).entries@ == old(self).entries@.push(entry),
            final(self).entries_view() == old(self).entries_view().push(entry@),
            final(self).drive_letter == old(self).drive_letter,
            final(self).bytes_per_cluster == old(self).bytes_per_cluster,
    {
        let ghost before = self.entries@;
        self.entries.push(entry);
        proof {
            assert(self.entries_view() =~= before.map_values(|e: MftEntry| e@).push(entry@));
        }
    }

    /// Looks `id` up, preferring the latest added record.
    fn find(&self, id: u64) -> (r: Option<&MftEntry>)
        ensures
            r matches Some(e) ==> find_entry(self.entries_view(), id) == Some(e@),
            r is None ==> find_entry(self.entries_view(), id) is None,
    {
        let ghost ev = self.entries_view();
        let mut k: usize = self.entries.len();
        proof {
            assert(ev.take(k as int) =~= ev);
        }
        while k > 0
            invariant
                k <= self.entries.len(),
                ev == self.entries_view(),
                find_entry(ev, id) == find_entry(ev.take(k as int), id),
            decreases k,
        {
            k = k - 1;
            proof {
                assert(ev.take(k + 1).last() == ev[k as int]);
                assert(ev.take(k + 1).drop_last() =~= ev.take(k as int));
            }
            if self.entries[k].base_record_segment_idx == id {
                return Some(&self.entries[k]);
            }
        }
        proof {
            assert(ev.take(0) =~= Seq::<MftEntryS>::empty());
        }
        None
    }

    /// The absolute path of record `id`, or `None` when its parent chain
    /// cannot be resolved. The chain is bounded by the number of records,
    /// so a corrupt volume with a parent cycle yields `None` instead of
    /// non-termination.
    pub fn get_full_path(&self, entry: u64) -> (r: Option<Vec<u16>>)
        ensures
            r matches Some(v) ==> resolve_path(
                self.entries_view(),
                self.drive_letter@,
                entry,
                (self.entries@.len() + 1) as nat,
            ) == Some(v@),
            r is None ==> resolve_path(
                self.entries_view(),
                self.drive_letter@,
                entry,
                (self.entries@.len() + 1) as nat,
            ) is None,
    {
        let fuel = self.entries.len() as u128 + 1;
        self.resolve_rec(entry, fuel)
    }

    fn resolve_rec(&self, id: u64, fuel: u128) -> (r: Option<Vec<u16>>)
        ensures
            r matches Some(v) ==> resolve_path(
                self.entries_view(),
                self.drive_letter@,
                id,
                fuel as nat,
            ) == Some(v@),
            r is None ==> resolve_path(
                self.entries_view(),
                self.drive_letter@,
                id,
                fuel as nat,
            ) is None,
        decreases fuel,
    {
        if fuel == 0 {
            return None;
        }
        let e = match self.find(id) {
            None => {
                return None;
            },
            Some(e) => e,
        };
        proof {
            assert(spec_parents(e@).len() == e.filenames@.len());
        }
        if e.filenames.len() == 0 {
            return Some(copy_u16s(&self.drive_letter));
        }
        let p0 = e.filenames[0].parent;
        proof {
            assert(spec_parents(e@)[0] == e.filenames@[0]@.parent);
        }
        if p0 == e.base_record_segment_idx {
            return Some(copy_u16s(&self.drive_letter));
        }
        let name = match e.get_best_filename() {
            None => {
                return None;
            },
            Some(n) => n,
        };
        let mut pp = match self.resolve_rec(p0, fuel - 1) {
            None => {
                return None;
            },
            Some(pp) => pp,
        };
        let ghost pre = pp@;
        pp.push(SEP);
        push_all(&mut pp, &name);
        proof {
            assert(pp@ =~= pre + seq![SEP] + name@);
        }
        Some(pp)
    }
}

/// For a record below the root, its path is its parent's path, a
/// separator, and its display name — when the parent's path resolves
/// at all.
pub proof fn lemma_resolve_parent_step(
    entries: Seq<MftEntryS>,
    drive: Seq<u16>,
    id: u64,
    fuel: nat,
)
    requires
        fuel >= 1,
        find_entry(entries, id) is Some,
        spec_parents(find_entry(entries, id)->Some_0).len() > 0,
        spec_parents(find_entry(entries, id)->Some_0)[0] != find_entry(
            entries,
            id,
        )->Some_0.base_record_segment_idx,
    ensures
        resolve_path(entries, drive, id, fuel) matches Some(p) ==> {
            &&& spec_best_filename(find_entry(entries, id)->Some_0) is Some
            &&& resolve_path(
                entries,
                drive,
                spec_parents(find_entry(entries, id)->Some_0)[0],
                (fuel - 1) as nat,
            ) matches Some(pp)
            &&& p == pp + seq![SEP] + spec_best_filename(find_entry(entries, id)->Some_0)->Some_0
        },
{
}


/// One inventory row: a file or directory at an absolute path.
#[derive(Debug)]
pub struct Entry {
    pub name: Vec<u16>,
    pub path: Vec<u16>,
    pub real_size: u64,
    pub alloc_size: u64,
    pub is_dir: bool,
}

/// Mathematical image of an `Entry`.
#[verifier::ext_equal]
pub struct EntryS {
    pub name: Seq<u16>,
    pub path: Seq<u16>,
    pub real_size: u64,
    pub alloc_size: u64,
    pub is_dir: bool,
}

impl View for Entry {
    type V = EntryS;

    open spec fn view(&self) -> EntryS {
        EntryS {
            name: self.name@,
            path: self.path@,
            real_size: self.real_size,
            alloc_size: self.alloc_size,
            is_dir: self.is_dir,
        }
    }
}

/// A directory row of the auxiliary per-directory index, with its direct
/// children listed.
#[derive(Debug)]
pub struct TestEntry {
    pub name: Vec<u16>,
    pub path: Vec<u16>,
    pub is_dir: bool,
    pub real_size: u64,
    pub alloc_size: u64,
    pub children: Option<Vec<TestEntry>>,
}

/// One aggregated record: the path it resolved to and the real size it
/// contributed. The inventory's ghost history is a sequence of these.
pub struct LogItem {
    pub path: Seq<u16>,
    pub size: u64,
}

/// `v` capped at the largest machine-word value, as the saturating
/// arithmetic of the aggregator computes it.
pub open spec fn clamp_u64(v: int) -> int {
    if v <= u64::MAX {
        v
    } else {
        u64::MAX as int
    }
}

/// The display name a record contributes to its inventory row: its best
/// filename, or empty for a record without filenames.
pub open spec fn spec_row_name(e: MftEntryS) -> Seq<u16> {
    if e.filenames.len() == 0 {
        Seq::empty()
    } else {
        spec_best_filename(e)->Some_0
    }
}

/// Sum of the sizes of all aggregated records.
pub open spec fn total_size(log: Seq<LogItem>) -> int
    decreases log.len(),
{
    if log.len() == 0 {
        0
    } else {
        log[0].size + total_size(log.drop_first())
    }
}

/// Sum of the sizes of the aggregated records lying strictly below `a`.
pub open spec fn desc_sum(log: Seq<LogItem>, a: Seq<u16>) -> int
    decreases log.len(),
{
    if log.len() == 0 {
        0
    } else {
        (if strict_ancestor(a, log[0].path) {
            log[0].size as int
        } else {
            0
        }) + desc_sum(log.drop_first(), a)
    }
}

/// Whether aggregating `log` has created an inventory row at `p`: some
/// record resolved to `p` itself or to a path strictly below it.
pub open spec fn appeared(log: Seq<LogItem>, p: Seq<u16>) -> bool
    decreases log.len(),
{
    if log.len() == 0 {
        false
    } else {
        log[0].path == p || strict_ancestor(p, log[0].path) || appeared(log.drop_first(), p)
    }
}

/// What the row at `p` keeps as its own size: the size of the first
/// record that resolved to `p` exactly — unless a record below `p` came
/// first, in which case the row was synthesised as a directory and owns
/// nothing.
pub open spec fn own_size(log: Seq<LogItem>, p: Seq<u16>) -> int
    decreases log.len(),
{
    if log.len() == 0 {
        0
    } else if log[0].path == p {
        log[0].size as int
    } else if strict_ancestor(p, log[0].path) {
        0
    } else {
        own_size(log.drop_first(), p)
    }
}

pub proof fn lemma_total_snoc(log: Seq<LogItem>, it: LogItem)
    ensures
        total_size(log.push(it)) == total_size(log) + it.size,
    decreases log.len(),
{
    if log.len() == 0 {
        assert(log.push(it)[0] == it);
        assert(log.push(it).drop_first() =~= log);
    } else {
        assert(log.push(it)[0] == log[0]);
        assert(log.push(it).drop_first() =~= log.drop_first().push(it));
        lemma_total_snoc(log.drop_first(), it);
    }
}

pub proof fn lemma_desc_snoc(log: Seq<LogItem>, it: LogItem, a: Seq<u16>)
    ensures
        desc_sum(log.push(it), a) == desc_sum(log, a) + if strict_ancestor(a, it.path) {
            it.size as int
        } else {
            0
        },
    decreases log.len(),
{
    if log.len() == 0 {
        assert(log.push(it)[0] == it);
        assert(log.push(it).drop_first() =~= log);
    } else {
        assert(log.push(it)[0] == log[0]);
        assert(log.push(it).drop_first() =~= log.drop_first().push(it));
        lemma_desc_snoc(log.drop_first(), it, a);
    }
}

pub proof fn lemma_appeared_snoc(log: Seq<LogItem>, it: LogItem, p: Seq<u16>)
    ensures
        appeared(log.push(it), p) == (appeared(log, p) || it.path == p || strict_ancestor(
            p,
            it.path,
        )),
    decreases log.len(),
{
    if log.len() == 0 {
        assert(log.push(it)[0] == it);
        assert(log.push(it).drop_first() =~= log);
    } else {
        assert(log.push(it)[0] == log[0]);
        assert(log.push(it).drop_first() =~= log.drop_first().push(it));
        lemma_appeared_snoc(log.drop_first(), it, p);
    }
}

pub proof fn lemma_own_snoc(log: Seq<LogItem>, it: LogItem, p: Seq<u16>)
    ensures
        own_size(log.push(it), p) == if appeared(log, p) {
            own_size(log, p)
        } else if it.path == p {
            it.size as int
        } else {
            0
        },
    decreases log.len(),
{
    let x = log.push(it);
    if log.len() == 0 {
        assert(x[0] == it);
        assert(x.drop_first() =~= log);
        if it.path == p {
            assert(own_size(x, p) == it.size);
        } else if strict_ancestor(p, it.path) {
            assert(own_size(x, p) == 0);
        } else {
            assert(own_size(x, p) == own_size(x.drop_first(), p));
            assert(own_size(log, p) == 0);
        }
    } else {
        assert(x[0] == log[0]);
        assert(x.drop_first() =~= log.drop_first().push(it));
        lemma_own_snoc(log.drop_first(), it, p);
        if log[0].path == p {
            assert(own_size(x, p) == log[0].size);
            assert(appeared(log, p));
        } else if strict_ancestor(p, log[0].path) {
            assert(own_size(x, p) == 0);
            assert(appeared(log, p));
            assert(own_size(log, p) == 0);
        } else {
            assert(own_size(x, p) == own_size(log.drop_first().push(it), p));
            assert(own_size(log, p) == own_size(log.drop_first(), p));
            assert(appeared(log, p) == appeared(log.drop_first(), p));
        }
    }
}

pub proof fn lemma_desc_nonneg(log: Seq<LogItem>, a: Seq<u16>)
    ensures
        desc_sum(log, a) >= 0,
        own_size(log, a) >= 0,
    decreases log.len(),
{
    if log.len() > 0 {
        lemma_desc_nonneg(log.drop_first(), a);
    }
}

/// A row's own size plus what lies below it never exceeds the total of
/// all aggregated records.
pub proof fn lemma_own_desc_le_total(log: Seq<LogItem>, p: Seq<u16>)
    ensures
        own_size(log, p) + desc_sum(log, p) <= total_size(log),
        desc_sum(log, p) <= total_size(log),
    decreases log.len(),
{
    if log.len() > 0 {
        lemma_own_desc_le_total(log.drop_first(), p);
        lemma_desc_nonneg(log.drop_first(), p);
    }
}

/// Nothing has resolved to or below `p`: nothing lies below it.
pub proof fn lemma_desc_zero_unseen(log: Seq<LogItem>, p: Seq<u16>)
    requires
        !appeared(log, p),
    ensures
        desc_sum(log, p) == 0,
    decreases log.len(),
{
    if log.len() > 0 {
        lemma_desc_zero_unseen(log.drop_first(), p);
    }
}

/// `appeared` unfolded to a witness.
pub proof fn lemma_appeared_exists(log: Seq<LogItem>, p: Seq<u16>)
    ensures
        appeared(log, p) <==> exists|j: int|
            0 <= j < log.len() && (#[trigger] log[j].path == p || strict_ancestor(p, log[j].path)),
    decreases log.len(),
{
    if log.len() > 0 {
        lemma_appeared_exists(log.drop_first(), p);
        if appeared(log, p) {
            if log[0].path == p || strict_ancestor(p, log[0].path) {
                assert(log[0].path == p || strict_ancestor(p, log[0].path));
            } else {
                let j = choose|j: int|
                    0 <= j < log.drop_first().len() && (#[trigger] log.drop_first()[j].path == p
                        || strict_ancestor(p, log.drop_first()[j].path));
                assert(log[j + 1].path == log.drop_first()[j].path);
            }
        } else {
            assert forall|j: int|
                0 <= j < log.len() && (#[trigger] log[j].path == p || strict_ancestor(
                    p,
                    log[j].path,
                )) implies false by {
                if j > 0 {
                    assert(log.drop_first()[j - 1].path == log[j].path);
                }
            }
        }
    }
}

/// No aggregated record resolved to `p` itself: the row at `p` owns
/// nothing.
pub proof fn lemma_own_zero_not_recorded(log: Seq<LogItem>, p: Seq<u16>)
    requires
        forall|j: int| 0 <= j < log.len() ==> #[trigger] log[j].path != p,
    ensures
        own_size(log, p) == 0,
    decreases log.len(),
{
    if log.len() > 0 {
        assert(log[0].path != p);
        assert(forall|j: int|
            0 <= j < log.drop_first().len() ==> #[trigger] log.drop_first()[j].path == log[j
                + 1].path);
        lemma_own_zero_not_recorded(log.drop_first(), p);
    }
}

/// With pairwise distinct record paths, none an ancestor of another, the
/// row at a record's path owns exactly that record's size.
pub proof fn lemma_own_at_record(log: Seq<LogItem>, j: int)
    requires
        0 <= j < log.len(),
        forall|a: int, b: int|
            0 <= a < log.len() && 0 <= b < log.len() && a != b ==> #[trigger] log[a].path
                != #[trigger] log[b].path,
        forall|a: int, b: int|
            0 <= a < log.len() && 0 <= b < log.len() ==> !strict_ancestor(
                #[trigger] log[a].path,
                #[trigger] log[b].path,
            ),
    ensures
        own_size(log, log[j].path) == log[j].size,
    decreases log.len(),
{
    if j == 0 {
    } else {
        assert(log[0].path != log[j].path);
        assert(!strict_ancestor(log[j].path, log[0].path));
        assert(forall|a: int|
            0 <= a < log.drop_first().len() ==> #[trigger] log.drop_first()[a].path == log[a
                + 1].path);
        lemma_own_at_record(log.drop_first(), j - 1);
    }
}

/// The path-keyed inventory of one volume, with an auxiliary directory
/// index. `log` is the ghost history of the records aggregated so far.
pub struct Filesystem {
    pub files: Vec<Entry>,
    pub dirs: Vec<TestEntry>,
    pub log: Ghost<Seq<LogItem>>,
}

/// No two inventory rows share a path.
pub open spec fn paths_unique(files: Seq<Entry>) -> bool {
    forall|i: int, j: int|
        0 <= i < files.len() && 0 <= j < files.len() && i != j ==> (#[trigger] files[i]@.path)
            != (#[trigger] files[j]@.path)
}

/// Some row has path `p`.
pub open spec fn has_path(files: Seq<Entry>, p: Seq<u16>) -> bool {
    exists|i: int| 0 <= i < files.len() && (#[trigger] files[i]@.path) == p
}

/// A history whose size equations are meaningful: every recorded path is
/// well formed and the sizes fit a machine word in total.
pub open spec fn log_ok(log: Seq<LogItem>) -> bool {
    &&& forall|j: int| 0 <= j < log.len() ==> path_wf(#[trigger] log[j].path)
    &&& total_size(log) <= u64::MAX
}

impl Filesystem {
    /// The inventory's invariant.
    ///
    /// Paths are always unique keys. As long as the aggregated history is
    /// well formed, every row's real size is its own record's size plus
    /// the sizes of all records strictly below it, every recorded path
    /// and every ancestor of one has a row, and every row traces back to
    /// some record.
    pub open spec fn inv(self) -> bool {
        &&& paths_unique(self.files@)
        &&& (log_ok(self.log@) ==> {
            &&& forall|i: int|
                0 <= i < self.files@.len() ==> (#[trigger] self.files@[i]@.real_size) == own_size(
                    self.log@,
                    self.files@[i]@.path,
                ) + desc_sum(self.log@, self.files@[i]@.path)
            &&& forall|i: int|
                0 <= i < self.files@.len() ==> appeared(self.log@, #[trigger] self.files@[i]@.path)
            &&& forall|j: int|
                0 <= j < self.log@.len() ==> has_path(self.files@, #[trigger] self.log@[j].path)
            &&& forall|j: int, k: int|
                0 <= j < self.log@.len() && 0 <= k < self.log@[j].path.len()
                    && (#[trigger] self.log@[j].path[k]) == SEP ==> has_path(
                    self.files@,
                    #[trigger] self.log@[j].path.take(k),
                )
        })
    }

    /// An empty inventory.
    pub fn new() -> (r: Filesystem)
        ensures
            r.files@.len() == 0,
            r.dirs@.len() == 0,
            r.log@ == Seq::<LogItem>::empty(),
            r.inv(),
    {
        Filesystem { files: Vec::new(), dirs: Vec::new(), log: Ghost(Seq::empty()) }
    }

    /// Index of the row keyed by `p`.
    fn find_path(&self, p: &Vec<u16>) -> (r: Option<usize>)
        ensures
            r matches Some(i) ==> i < self.files@.len() && self.files@[i as int]@.path == p@,
            r is None ==> !has_path(self.files@, p@),
    {
        let mut i: usize = 0;
        while i < self.files.len()
            invariant
                i <= self.files@.len(),
                forall|k: int| 0 <= k < i ==> (#[trigger] self.files@[k]@.path) != p@,
            decreases self.files@.len() - i,
        {
            if units_eq(&self.files[i].path, p) {
                return Some(i);
            }
            i = i + 1;
        }
        None
    }
}


/// Re-establishes the inventory invariant after one record has been
/// aggregated: `files0` is the inventory before, `files1` after its file
/// row was placed, `files2` after the ancestor walk, and the history has
/// grown by `item`.
#[verifier::rlimit(100)]
pub proof fn lemma_aggregate_step(
    files0: Seq<Entry>,
    files1: Seq<Entry>,
    files2: Seq<Entry>,
    log0: Seq<LogItem>,
    p_spec: Seq<u16>,
    rsize: u64,
    cut: int,
)
    requires
        log_ok(log0.push(LogItem { path: p_spec, size: rsize })),
        log_ok(log0) ==> {
            &&& forall|i: int|
                0 <= i < files0.len() ==> (#[trigger] files0[i]@.real_size) == own_size(
                    log0,
                    files0[i]@.path,
                ) + desc_sum(log0, files0[i]@.path)
            &&& forall|i: int|
                0 <= i < files0.len() ==> appeared(log0, #[trigger] files0[i]@.path)
            &&& forall|j: int| 0 <= j < log0.len() ==> has_path(files0, #[trigger] log0[j].path)
            &&& forall|j: int, k: int|
                0 <= j < log0.len() && 0 <= k < log0[j].path.len() && (
                #[trigger] log0[j].path[k]) == SEP ==> has_path(
                    files0,
                    #[trigger] log0[j].path.take(k),
                )
        },
        // The file row: either an existing row at the path was marked as a
        // directory, or a fresh file row was appended.
        files1.len() >= files0.len(),
        forall|w: int|
            0 <= w < files0.len() ==> {
                &&& (#[trigger] files1[w]@.path) == files0[w]@.path
                &&& files1[w]@.real_size == files0[w]@.real_size
            },
        (files1.len() == files0.len() && has_path(files0, p_spec)) || (files1.len() == files0.len()
            + 1 && !has_path(files0, p_spec) && files1[files0.len() as int]@.path == p_spec
            && files1[files0.len() as int]@.real_size == rsize),
        // The walk's outcome.
        0 <= cut <= p_spec.len(),
        forall|k: int| 0 <= k < cut ==> (#[trigger] p_spec[k]) != SEP,
        files2.len() >= files1.len(),
        forall|i: int|
            0 <= i < files1.len() ==> (#[trigger] files2[i]@.path) == files1[i]@.path,
        forall|i: int|
            0 <= i < files1.len() && strict_ancestor(files1[i]@.path, p_spec)
                && files1[i]@.path.len() >= cut ==> (#[trigger] files2[i]@.real_size) == files1[
                i
            ]@.real_size + rsize,
        forall|i: int|
            0 <= i < files1.len() && !(strict_ancestor(files1[i]@.path, p_spec)
                && files1[i]@.path.len() >= cut) ==> (#[trigger] files2[i]@.real_size) == files1[
                i
            ]@.real_size,
        forall|i: int|
            files1.len() <= i < files2.len() ==> {
                &&& strict_ancestor(#[trigger] files2[i]@.path, p_spec)
                &&& !has_path(files1, files2[i]@.path)
                &&& files2[i]@.real_size == rsize
            },
        forall|k: int|
            cut <= k < p_spec.len() && (#[trigger] p_spec[k]) == SEP ==> has_path(
                files2,
                p_spec.take(k),
            ),
    ensures
        forall|i: int|
            0 <= i < files2.len() ==> (#[trigger] files2[i]@.real_size) == own_size(
                log0.push(LogItem { path: p_spec, size: rsize }),
                files2[i]@.path,
            ) + desc_sum(log0.push(LogItem { path: p_spec, size: rsize }), files2[i]@.path),
        forall|i: int|
            0 <= i < files2.len() ==> appeared(
                log0.push(LogItem { path: p_spec, size: rsize }),
                #[trigger] files2[i]@.path,
            ),
        forall|j: int|
            0 <= j < log0.push(LogItem { path: p_spec, size: rsize }).len() ==> has_path(
                files2,
                #[trigger] log0.push(LogItem { path: p_spec, size: rsize })[j].path,
            ),
        forall|j: int, k: int|
            0 <= j < log0.push(LogItem { path: p_spec, size: rsize }).len() && 0 <= k < log0.push(
                LogItem { path: p_spec, size: rsize },
            )[j].path.len() && (#[trigger] log0.push(LogItem { path: p_spec, size: rsize })[
                j
            ].path[k]) == SEP ==> has_path(
                files2,
                #[trigger] log0.push(LogItem { path: p_spec, size: rsize })[j].path.take(k),
            ),
{
    let item = LogItem { path: p_spec, size: rsize };
    let log1 = log0.push(item);
    lemma_total_snoc(log0, item);
    assert(forall|j: int| 0 <= j < log0.len() ==> #[trigger] log1[j] == log0[j]);
    assert(log1[log0.len() as int] == item);
    assert forall|j: int| 0 <= j < log0.len() implies path_wf(#[trigger] log0[j].path) by {
        assert(log1[j].path == log0[j].path);
    }
    assert(log_ok(log0));
    // Sizes and presence for every row of the final inventory.
    assert forall|i: int| 0 <= i < files2.len() implies appeared(
        log1,
        #[trigger] files2[i]@.path,
    ) && (files2[i]@.real_size) == own_size(log1, files2[i]@.path) + desc_sum(
        log1,
        files2[i]@.path,
    ) by {
        let p = files2[i]@.path;
        lemma_own_snoc(log0, item, p);
        lemma_desc_snoc(log0, item, p);
        lemma_appeared_snoc(log0, item, p);
        if i < files1.len() {
            if i < files0.len() && files0[i]@.path == p_spec && p == p_spec {
                assert(appeared(log0, p));
                assert(files2[i]@.real_size == files0[i]@.real_size);
            } else if p == p_spec {
                assert(i == files0.len());
                assert(!has_path(files0, p_spec));
                lemma_unseen_path(files0, log0, p_spec);
                lemma_desc_zero_unseen(log0, p_spec);
                assert(files2[i]@.real_size == rsize);
            } else if strict_ancestor(p, p_spec) {
                assert(i < files0.len());
                assert(files1[i]@.real_size == files0[i]@.real_size);
                assert(p.len() >= cut);
                assert(files2[i]@.real_size == files0[i]@.real_size + rsize);
                assert(appeared(log0, p));
            } else {
                assert(i < files0.len());
                assert(files2[i]@.real_size == files0[i]@.real_size);
                assert(appeared(log0, p));
            }
        } else {
            assert(strict_ancestor(p, p_spec));
            assert(!has_path(files1, p));
            assert(!has_path(files0, p)) by {
                if has_path(files0, p) {
                    let j = choose|j: int|
                        0 <= j < files0.len() && (#[trigger] files0[j]@.path) == p;
                    assert(files1[j]@.path == p);
                }
            }
            lemma_unseen_path(files0, log0, p);
            lemma_desc_zero_unseen(log0, p);
            assert(files2[i]@.real_size == rsize);
        }
    }
    // Every recorded path, and every ancestor of one, has a row.
    assert forall|j: int| 0 <= j < log1.len() implies has_path(
        files2,
        #[trigger] log1[j].path,
    ) by {
        if j < log0.len() {
            assert(has_path(files0, log0[j].path));
            let w = choose|w: int|
                0 <= w < files0.len() && (#[trigger] files0[w]@.path) == log0[j].path;
            assert(files2[w]@.path == log0[j].path);
        } else {
            assert(log1[j].path == p_spec);
            if has_path(files0, p_spec) {
                let w = choose|w: int|
                    0 <= w < files0.len() && (#[trigger] files0[w]@.path) == p_spec;
                assert(files2[w]@.path == p_spec);
            } else {
                assert(files2[files0.len() as int]@.path == p_spec);
            }
        }
    }
    assert forall|j: int, k: int|
        0 <= j < log1.len() && 0 <= k < log1[j].path.len() && (#[trigger] log1[j].path[k]) == SEP
            implies has_path(files2, #[trigger] log1[j].path.take(k)) by {
        if j < log0.len() {
            assert(log1[j].path == log0[j].path);
            assert(has_path(files0, log0[j].path.take(k)));
            let w = choose|w: int|
                0 <= w < files0.len() && (#[trigger] files0[w]@.path) == log0[j].path.take(k);
            assert(files2[w]@.path == log0[j].path.take(k));
        } else {
            assert(log1[j].path == p_spec);
            assert(k >= cut);
        }
    }
}

/// The inventory's path keys are unique.
pub proof fn lemma_paths_unique(fs: Filesystem)
    requires
        fs.inv(),
    ensures
        forall|i: int, j: int|
            0 <= i < fs.files@.len() && 0 <= j < fs.files@.len() && i != j
                ==> (#[trigger] fs.files@[i]@.path) != (#[trigger] fs.files@[j]@.path),
{
}


/// A path with no inventory row has no recorded history at or below it.
pub proof fn lemma_unseen_path(files: Seq<Entry>, log: Seq<LogItem>, p: Seq<u16>)
    requires
        !has_path(files, p),
        forall|j: int| 0 <= j < log.len() ==> has_path(files, #[trigger] log[j].path),
        forall|j: int, k: int|
            0 <= j < log.len() && 0 <= k < log[j].path.len() && (#[trigger] log[j].path[k]) == SEP
                ==> has_path(files, #[trigger] log[j].path.take(k)),
    ensures
        !appeared(log, p),
{
    lemma_appeared_exists(log, p);
    if appeared(log, p) {
        let j = choose|j: int|
            0 <= j < log.len() && (#[trigger] log[j].path == p || strict_ancestor(p, log[j].path));
        if log[j].path == p {
            assert(has_path(files, p));
        } else {
            assert(strict_ancestor(p, log[j].path));
            let k = p.len() as int;
            assert(log[j].path[k] == SEP);
            assert(log[j].path.take(k) == p);
            assert(has_path(files, p));
        }
    }
}

impl Filesystem {
    /// Marks row `i` as a directory and adds `add` to its real size,
    /// saturating; every other field and row is untouched.
    fn credit_row(&mut self, i: usize, add: u64)
        requires
            i < old(self).files@.len(),
        ensures
            final(self).files@.len() == old(self).files@.len(),
            forall|w: int|
                0 <= w < old(self).files@.len() && w != i ==> (#[trigger] final(self).files@[w])
                    == old(self).files@[w],
            final(self).files@[i as int]@.path == old(self).files@[i as int]@.path,
            final(self).files@[i as int]@.name == old(self).files@[i as int]@.name,
            final(self).files@[i as int]@.alloc_size == old(self).files@[i as int]@.alloc_size,
            final(self).files@[i as int]@.is_dir,
            final(self).files@[i as int]@.real_size == if old(self).files@[i as int]@.real_size
                + add <= u64::MAX {
                old(self).files@[i as int]@.real_size + add
            } else {
                u64::MAX as int
            },
            final(self).dirs == old(self).dirs,
            final(self).log@ == old(self).log@,
    {
        let nm = copy_u16s(&self.files[i].name);
        let pt = copy_u16s(&self.files[i].path);
        let rs = sat_add(self.files[i].real_size, add);
        let al = self.files[i].alloc_size;
        self.files[i] = Entry { name: nm, path: pt, real_size: rs, alloc_size: al, is_dir: true };
    }

    /// One step of the ancestor walk: credits the ancestor `cur` of the
    /// record's path with `rsize`, inserting a synthetic directory row
    /// named `comp` when no row exists yet.
    #[verifier::rlimit(100)]
    fn credit_or_insert(
        &mut self,
        cur: &Vec<u16>,
        comp: Vec<u16>,
        rsize: u64,
        Ghost(p_spec): Ghost<Seq<u16>>,
        Ghost(files1): Ghost<Seq<Entry>>,
        Ghost(log0): Ghost<Seq<LogItem>>,
        Ghost(gg): Ghost<bool>,
        Ghost(cut): Ghost<int>,
        Ghost(oldcut): Ghost<int>,
    )
        requires
            cur@ == p_spec.take(cut),
            0 <= cut < oldcut <= p_spec.len(),
            p_spec[cut] == SEP,
            forall|k: int| cut < k < oldcut ==> (#[trigger] p_spec[k]) != SEP,
            paths_unique(old(self).files@),
            old(self).files@.len() >= files1.len(),
            forall|i: int|
                0 <= i < files1.len() ==> {
                    &&& (#[trigger] old(self).files@[i]@.path) == files1[i]@.path
                    &&& old(self).files@[i]@.name == files1[i]@.name
                    &&& old(self).files@[i]@.alloc_size == files1[i]@.alloc_size
                },
            gg ==> forall|i: int|
                0 <= i < files1.len() && files1[i]@.path != p_spec
                    ==> (#[trigger] files1[i]@.real_size) <= total_size(log0),
            gg ==> total_size(log0) + rsize <= u64::MAX,
            gg ==> forall|i: int|
                0 <= i < files1.len() && strict_ancestor(files1[i]@.path, p_spec)
                    && files1[i]@.path.len() >= oldcut
                    ==> (#[trigger] old(self).files@[i]@.real_size) == files1[i]@.real_size
                    + rsize,
            forall|i: int|
                0 <= i < files1.len() && strict_ancestor(files1[i]@.path, p_spec)
                    && files1[i]@.path.len() >= oldcut ==> (
                #[trigger] old(self).files@[i]@.is_dir),
            forall|i: int|
                0 <= i < files1.len() && !(strict_ancestor(files1[i]@.path, p_spec)
                    && files1[i]@.path.len() >= oldcut) ==> (
                #[trigger] old(self).files@[i]@.real_size) == files1[i]@.real_size,
            forall|i: int|
                0 <= i < files1.len() && !(strict_ancestor(files1[i]@.path, p_spec)
                    && files1[i]@.path.len() >= oldcut) ==> (
                #[trigger] old(self).files@[i]@.is_dir) == files1[i]@.is_dir,
            comp@ == p_spec.subrange(cut + 1, crate::paths::next_cut(p_spec, cut)),
            forall|i: int|
                files1.len() <= i < old(self).files@.len() ==> {
                    &&& strict_ancestor(#[trigger] old(self).files@[i]@.path, p_spec)
                    &&& old(self).files@[i]@.path.len() >= oldcut
                    &&& !has_path(files1, old(self).files@[i]@.path)
                    &&& old(self).files@[i]@.real_size == rsize
                    &&& old(self).files@[i]@.is_dir
                    &&& old(self).files@[i]@.alloc_size == 0
                    &&& old(self).files@[i]@.name == p_spec.subrange(
                        old(self).files@[i]@.path.len() as int + 1,
                        crate::paths::next_cut(p_spec, old(self).files@[i]@.path.len() as int),
                    )
                },
            forall|k: int|
                oldcut <= k < p_spec.len() && (#[trigger] p_spec[k]) == SEP ==> has_path(
                    old(self).files@,
                    p_spec.take(k),
                ),
        ensures
            final(self).dirs == old(self).dirs,
            final(self).log@ == old(self).log@,
            paths_unique(final(self).files@),
            final(self).files@.len() >= files1.len(),
            forall|i: int|
                0 <= i < files1.len() ==> (#[trigger] final(self).files@[i]@.path) == files1[
                    i
                ]@.path,
            forall|i: int|
                0 <= i < files1.len() ==> (#[trigger] final(self).files@[i]@.name) == files1[
                    i
                ]@.name,
            forall|i: int|
                0 <= i < files1.len() ==> (#[trigger] final(self).files@[i]@.alloc_size)
                    == files1[i]@.alloc_size,
            gg ==> forall|i: int|
                0 <= i < files1.len() && strict_ancestor(files1[i]@.path, p_spec)
                    && files1[i]@.path.len() >= cut
                    ==> (#[trigger] final(self).files@[i]@.real_size) == files1[i]@.real_size
                    + rsize,
            forall|i: int|
                0 <= i < files1.len() && strict_ancestor(files1[i]@.path, p_spec)
                    && files1[i]@.path.len() >= cut ==> (#[trigger] final(self).files@[i]@.is_dir),
            forall|i: int|
                0 <= i < files1.len() && !(strict_ancestor(files1[i]@.path, p_spec)
                    && files1[i]@.path.len() >= cut) ==> (
                #[trigger] final(self).files@[i]@.real_size) == files1[i]@.real_size,
            forall|i: int|
                0 <= i < files1.len() && !(strict_ancestor(files1[i]@.path, p_spec)
                    && files1[i]@.path.len() >= cut) ==> (#[trigger] final(self).files@[i]@.is_dir)
                    == files1[i]@.is_dir,
            forall|i: int|
                files1.len() <= i < final(self).files@.len() ==> {
                    &&& strict_ancestor(#[trigger] final(self).files@[i]@.path, p_spec)
                    &&& final(self).files@[i]@.path.len() >= cut
                    &&& !has_path(files1, final(self).files@[i]@.path)
                    &&& final(self).files@[i]@.real_size == rsize
                    &&& final(self).files@[i]@.is_dir
                    &&& final(self).files@[i]@.alloc_size == 0
                    &&& final(self).files@[i]@.name == p_spec.subrange(
                        final(self).files@[i]@.path.len() as int + 1,
                        crate::paths::next_cut(p_spec, final(self).files@[i]@.path.len() as int),
                    )
                },
            forall|k: int|
                cut <= k < p_spec.len() && (#[trigger] p_spec[k]) == SEP ==> has_path(
                    final(self).files@,
                    p_spec.take(k),
                ),
    {
        let ghost a = p_spec.take(cut);
        let ghost fpre = self.files@;
        proof {
            assert(strict_ancestor(a, p_spec));
        }
        match self.find_path(cur) {
            Some(i) => {
                let ghost qi = self.files@[i as int]@.path;
                proof {
                    assert(qi == a);
                    if i >= files1.len() {
                        assert(qi.len() >= oldcut);
                        assert(false);
                    }
                    assert(files1[i as int]@.path == a);
                    assert(a.len() == cut && cut < oldcut);
                    assert(!(files1[i as int]@.path.len() >= oldcut));
                    assert(self.files@[i as int]@.real_size == files1[i as int]@.real_size);
                    if gg {
                        assert(files1[i as int]@.path != p_spec);
                        assert(files1[i as int]@.real_size <= total_size(log0));
                    }
                }
                self.credit_row(i, rsize);
                proof {
                    // No other row sits at a separator cut between the new
                    // and the previous position: that would duplicate `a`.
                    assert forall|w: int|
                        0 <= w < files1.len() && w != i && strict_ancestor(
                            files1[w]@.path,
                            p_spec,
                        ) && files1[w]@.path.len() >= cut implies files1[w]@.path.len()
                        >= oldcut by {
                        let q = files1[w]@.path;
                        assert(fpre[w]@.path == files1[w]@.path);
                        if q.len() < oldcut {
                            assert(q == p_spec.take(q.len() as int));
                            assert(q.len() == cut);
                            assert(q =~= a);
                            assert(fpre[w]@.path == a);
                            assert(fpre[i as int]@.path == a);
                        }
                    }
                    assert forall|w: int|
                        0 <= w < files1.len() implies (#[trigger] self.files@[w]@.path) == files1[
                        w
                    ]@.path by {
                        if w != i {
                            assert(self.files@[w] == fpre[w]);
                        }
                        assert(self.files@[w]@.path == fpre[w]@.path);
                        assert(self.files@[w]@.name == fpre[w]@.name);
                        assert(self.files@[w]@.alloc_size == fpre[w]@.alloc_size);
                        assert(fpre[w]@.path == files1[w]@.path);
                        assert(fpre[w]@.name == files1[w]@.name);
                        assert(fpre[w]@.alloc_size == files1[w]@.alloc_size);
                    }
                    assert forall|w: int|
                        0 <= w < files1.len() implies (#[trigger] self.files@[w]@.name) == files1[
                        w
                    ]@.name by {
                        if w != i {
                            assert(self.files@[w] == fpre[w]);
                        }
                        assert(self.files@[w]@.path == fpre[w]@.path);
                        assert(self.files@[w]@.name == fpre[w]@.name);
                        assert(self.files@[w]@.alloc_size == fpre[w]@.alloc_size);
                        assert(fpre[w]@.path == files1[w]@.path);
                        assert(fpre[w]@.name == files1[w]@.name);
                        assert(fpre[w]@.alloc_size == files1[w]@.alloc_size);
                    }
                    assert forall|w: int|
                        0 <= w < files1.len() implies (#[trigger] self.files@[w]@.alloc_size) == files1[
                        w
                    ]@.alloc_size by {
                        if w != i {
                            assert(self.files@[w] == fpre[w]);
                        }
                        assert(self.files@[w]@.path == fpre[w]@.path);
                        assert(self.files@[w]@.name == fpre[w]@.name);
                        assert(self.files@[w]@.alloc_size == fpre[w]@.alloc_size);
                        assert(fpre[w]@.path == files1[w]@.path);
                        assert(fpre[w]@.name == files1[w]@.name);
                        assert(fpre[w]@.alloc_size == files1[w]@.alloc_size);
                    }
                    if gg {
                        assert forall|w: int|
                            0 <= w < files1.len() && strict_ancestor(
                                files1[w]@.path,
                                p_spec,
                            ) && files1[w]@.path.len() >= cut implies (
                        #[trigger] self.files@[w]@.real_size) == files1[w]@.real_size + rsize by {
                            if w != i {
                                assert(files1[w]@.path.len() >= oldcut);
                                assert(self.files@[w] == fpre[w]);
                                assert(fpre[w]@.real_size == files1[w]@.real_size + rsize);
                            }
                        }
                    }
                    assert forall|w: int|
                        0 <= w < files1.len() && strict_ancestor(
                            files1[w]@.path,
                            p_spec,
                        ) && files1[w]@.path.len() >= cut implies (#[trigger] self.files@[
                        w
                    ]@.is_dir) by {
                        if w != i {
                            assert(files1[w]@.path.len() >= oldcut);
                            assert(self.files@[w] == fpre[w]);
                            assert(fpre[w]@.is_dir);
                        }
                    }
                    assert forall|w: int|
                        0 <= w < files1.len() && !(strict_ancestor(
                            files1[w]@.path,
                            p_spec,
                        ) && files1[w]@.path.len() >= cut) implies (#[trigger] self.files@[
                        w
                    ]@.real_size) == files1[w]@.real_size by {
                        assert(fpre[w]@.path == files1[w]@.path);
                        assert(w != i);
                        assert(self.files@[w] == fpre[w]);
                        assert(fpre[w]@.real_size == files1[w]@.real_size);
                        assert(fpre[w]@.is_dir == files1[w]@.is_dir);
                    }
                    assert forall|w: int|
                        0 <= w < files1.len() && !(strict_ancestor(
                            files1[w]@.path,
                            p_spec,
                        ) && files1[w]@.path.len() >= cut) implies (#[trigger] self.files@[
                        w
                    ]@.is_dir) == files1[w]@.is_dir by {
                        assert(fpre[w]@.path == files1[w]@.path);
                        assert(w != i);
                        assert(self.files@[w] == fpre[w]);
                        assert(fpre[w]@.real_size == files1[w]@.real_size);
                        assert(fpre[w]@.is_dir == files1[w]@.is_dir);
                    }
                    assert forall|w: int|
                        files1.len() <= w < self.files@.len() implies {
                        &&& strict_ancestor(#[trigger] self.files@[w]@.path, p_spec)
                        &&& self.files@[w]@.path.len() >= cut
                        &&& !has_path(files1, self.files@[w]@.path)
                        &&& self.files@[w]@.real_size == rsize
                        &&& self.files@[w]@.is_dir
                        &&& self.files@[w]@.alloc_size == 0
                        &&& self.files@[w]@.name == p_spec.subrange(
                            self.files@[w]@.path.len() as int + 1,
                            crate::paths::next_cut(p_spec, self.files@[w]@.path.len() as int),
                        )
                    } by {
                        assert(self.files@[w] == fpre[w]);
                    }
                    assert forall|k: int|
                        cut <= k < p_spec.len() && (#[trigger] p_spec[k]) == SEP implies has_path(
                        self.files@,
                        p_spec.take(k),
                    ) by {
                        if k == cut {
                            assert(self.files@[i as int]@.path == a);
                            assert(has_path(self.files@, a));
                        } else {
                            assert(k >= oldcut);
                            let w = choose|w: int|
                                0 <= w < fpre.len() && (#[trigger] fpre[w]@.path) == p_spec.take(
                                    k,
                                );
                            assert(self.files@[w]@.path == p_spec.take(k));
                        }
                    }
                    assert(paths_unique(self.files@)) by {
                        assert forall|x: int, y: int|
                            0 <= x < self.files@.len() && 0 <= y < self.files@.len() && x != y
                                implies (#[trigger] self.files@[x]@.path) != (
                            #[trigger] self.files@[y]@.path) by {
                            assert(self.files@[x]@.path == fpre[x]@.path);
                            assert(self.files@[y]@.path == fpre[y]@.path);
                        }
                    }
                }
            },
            None => {
                self.files.push(
                    Entry {
                        name: comp,
                        path: copy_u16s(cur),
                        real_size: rsize,
                        alloc_size: 0,
                        is_dir: true,
                    },
                );
                proof {
                    assert(forall|w: int|
                        0 <= w < fpre.len() ==> #[trigger] self.files@[w] == fpre[w]);
                    assert(self.files@[fpre.len() as int]@.path == a);
                    assert(self.files@[fpre.len() as int]@.name == p_spec.subrange(
                        cut + 1,
                        crate::paths::next_cut(p_spec, cut),
                    ));
                    assert(!has_path(files1, a)) by {
                        if has_path(files1, a) {
                            let j = choose|j: int|
                                0 <= j < files1.len() && (#[trigger] files1[j]@.path) == a;
                            assert(fpre[j]@.path == a);
                            assert(!has_path(fpre, a));
                        }
                    }
                    assert forall|w: int|
                        0 <= w < files1.len() implies (#[trigger] self.files@[w]@.path) == files1[
                        w
                    ]@.path by {
                        assert(self.files@[w] == fpre[w]);
                        assert(fpre[w]@.path == files1[w]@.path);
                        assert(fpre[w]@.name == files1[w]@.name);
                        assert(fpre[w]@.alloc_size == files1[w]@.alloc_size);
                    }
                    assert forall|w: int|
                        0 <= w < files1.len() implies (#[trigger] self.files@[w]@.name) == files1[
                        w
                    ]@.name by {
                        assert(self.files@[w] == fpre[w]);
                        assert(fpre[w]@.path == files1[w]@.path);
                        assert(fpre[w]@.name == files1[w]@.name);
                        assert(fpre[w]@.alloc_size == files1[w]@.alloc_size);
                    }
                    assert forall|w: int|
                        0 <= w < files1.len() implies (#[trigger] self.files@[w]@.alloc_size) == files1[
                        w
                    ]@.alloc_size by {
                        assert(self.files@[w] == fpre[w]);
                        assert(fpre[w]@.path == files1[w]@.path);
                        assert(fpre[w]@.name == files1[w]@.name);
                        assert(fpre[w]@.alloc_size == files1[w]@.alloc_size);
                    }
                    if gg {
                        assert forall|w: int|
                            0 <= w < files1.len() && strict_ancestor(
                                files1[w]@.path,
                                p_spec,
                            ) && files1[w]@.path.len() >= cut implies (
                        #[trigger] self.files@[w]@.real_size) == files1[w]@.real_size + rsize by {
                            let q = files1[w]@.path;
                            assert(fpre[w]@.path == files1[w]@.path);
                            if q.len() < oldcut {
                                assert(q == p_spec.take(q.len() as int));
                                assert(q.len() == cut);
                                assert(q =~= a);
                                assert(fpre[w]@.path == a);
                                assert(has_path(files1, a));
                                assert(false);
                            }
                            assert(self.files@[w] == fpre[w]);
                            assert(fpre[w]@.real_size == files1[w]@.real_size + rsize);
                        }
                    }
                    assert forall|w: int|
                        0 <= w < files1.len() && strict_ancestor(
                            files1[w]@.path,
                            p_spec,
                        ) && files1[w]@.path.len() >= cut implies (#[trigger] self.files@[
                        w
                    ]@.is_dir) by {
                        let q = files1[w]@.path;
                        assert(fpre[w]@.path == files1[w]@.path);
                        if q.len() < oldcut {
                            assert(q == p_spec.take(q.len() as int));
                            assert(q.len() == cut);
                            assert(q =~= a);
                            assert(fpre[w]@.path == a);
                            assert(has_path(files1, a));
                            assert(false);
                        }
                        assert(self.files@[w] == fpre[w]);
                        assert(fpre[w]@.is_dir);
                    }
                    assert forall|w: int|
                        0 <= w < files1.len() && !(strict_ancestor(
                            files1[w]@.path,
                            p_spec,
                        ) && files1[w]@.path.len() >= cut) implies (#[trigger] self.files@[
                        w
                    ]@.real_size) == files1[w]@.real_size by {
                        assert(fpre[w]@.path == files1[w]@.path);
                        assert(self.files@[w] == fpre[w]);
                        assert(fpre[w]@.real_size == files1[w]@.real_size);
                        assert(fpre[w]@.is_dir == files1[w]@.is_dir);
                    }
                    assert forall|w: int|
                        0 <= w < files1.len() && !(strict_ancestor(
                            files1[w]@.path,
                            p_spec,
                        ) && files1[w]@.path.len() >= cut) implies (#[trigger] self.files@[
                        w
                    ]@.is_dir) == files1[w]@.is_dir by {
                        assert(fpre[w]@.path == files1[w]@.path);
                        assert(self.files@[w] == fpre[w]);
                        assert(fpre[w]@.real_size == files1[w]@.real_size);
                        assert(fpre[w]@.is_dir == files1[w]@.is_dir);
                    }
                    assert forall|w: int|
                        files1.len() <= w < self.files@.len() implies {
                        &&& strict_ancestor(#[trigger] self.files@[w]@.path, p_spec)
                        &&& self.files@[w]@.path.len() >= cut
                        &&& !has_path(files1, self.files@[w]@.path)
                        &&& self.files@[w]@.real_size == rsize
                        &&& self.files@[w]@.is_dir
                        &&& self.files@[w]@.alloc_size == 0
                        &&& self.files@[w]@.name == p_spec.subrange(
                            self.files@[w]@.path.len() as int + 1,
                            crate::paths::next_cut(p_spec, self.files@[w]@.path.len() as int),
                        )
                    } by {
                        if w < fpre.len() {
                            assert(self.files@[w] == fpre[w]);
                        } else {
                            assert(self.files@[w]@.path == a);
                        }
                    }
                    assert forall|k: int|
                        cut <= k < p_spec.len() && (#[trigger] p_spec[k]) == SEP implies has_path(
                        self.files@,
                        p_spec.take(k),
                    ) by {
                        if k == cut {
                            assert(has_path(self.files@, a));
                        } else {
                            assert(k >= oldcut);
                            let w = choose|w: int|
                                0 <= w < fpre.len() && (#[trigger] fpre[w]@.path) == p_spec.take(
                                    k,
                                );
                            assert(self.files@[w]@.path == p_spec.take(k));
                        }
                    }
                    assert(paths_unique(self.files@)) by {
                        assert forall|x: int, y: int|
                            0 <= x < self.files@.len() && 0 <= y < self.files@.len() && x != y
                                implies (#[trigger] self.files@[x]@.path) != (
                            #[trigger] self.files@[y]@.path) by {
                            if x < fpre.len() && y < fpre.len() {
                                assert(self.files@[x] == fpre[x]);
                                assert(self.files@[y] == fpre[y]);
                            } else if x < fpre.len() {
                                assert(self.files@[x] == fpre[x]);
                                assert(self.files@[y]@.path == a);
                                assert(!has_path(fpre, a));
                            } else if y < fpre.len() {
                                assert(self.files@[y] == fpre[y]);
                                assert(self.files@[x]@.path == a);
                                assert(!has_path(fpre, a));
                            }
                        }
                    }
                }
            },
        }
    }

    /// Aggregates one record into the inventory.
    ///
    /// The record's path and real size are computed; a row for the path
    /// is created (as a file) or, when present, marked as a directory and
    /// left with its prior size; and the record's real size is added to a
    /// row of every ancestor of the path, rows being synthesised as
    /// directories where missing. Returns `false`, leaving the inventory
    /// unchanged, when the id is not in the record map or its parent
    /// chain does not resolve; such a record is skipped.
    #[verifier::rlimit(100)]
    pub fn add_fs_entry(&mut self, entry: u64, constructor: &Contructor) -> (r: bool)
        requires
            old(self).inv(),
        ensures
            final(self).inv(),
            final(self).dirs == old(self).dirs,
            r == (find_entry(constructor.entries_view(), entry) is Some && resolve_path(
                constructor.entries_view(),
                constructor.drive_letter@,
                entry,
                (constructor.entries@.len() + 1) as nat,
            ) is Some),
            !r ==> final(self).files == old(self).files && final(self).log@ == old(self).log@,
            r ==> final(self).log@ == old(self).log@.push(
                LogItem {
                    path: resolve_path(
                        constructor.entries_view(),
                        constructor.drive_letter@,
                        entry,
                        (constructor.entries@.len() + 1) as nat,
                    )->Some_0,
                    size: (if crate::record::spec_real_size(
                        find_entry(constructor.entries_view(), entry)->Some_0.data,
                    ) <= u64::MAX {
                        crate::record::spec_real_size(
                            find_entry(constructor.entries_view(), entry)->Some_0.data,
                        )
                    } else {
                        u64::MAX as int
                    }) as u64,
                },
            ),
            // The row shapes the aggregation step leaves behind (spec rules of
            // the aggregator): `p` is the record's resolved path, `e` the
            // record, `rs` its real size, `base` the prior row count, and
            // `fresh` whether a new file row was appended at index `base`.
            r ==> ({
                let p = resolve_path(
                    constructor.entries_view(),
                    constructor.drive_letter@,
                    entry,
                    (constructor.entries@.len() + 1) as nat,
                )->Some_0;
                let e = find_entry(constructor.entries_view(), entry)->Some_0;
                let rs = clamp_u64(crate::record::spec_real_size(e.data));
                let base = old(self).files@.len() as int;
                let fresh: int = if has_path(old(self).files@, p) {
                    0
                } else {
                    1
                };
                final(self).files@.len() >= base + fresh
            }),
            r ==> ({
                let p = resolve_path(
                    constructor.entries_view(),
                    constructor.drive_letter@,
                    entry,
                    (constructor.entries@.len() + 1) as nat,
                )->Some_0;
                let e = find_entry(constructor.entries_view(), entry)->Some_0;
                let rs = clamp_u64(crate::record::spec_real_size(e.data));
                let base = old(self).files@.len() as int;
                let fresh: int = if has_path(old(self).files@, p) {
                    0
                } else {
                    1
                };
                forall|i: int|
                    0 <= i < base ==> (#[trigger] final(self).files@[i]@.path) == old(self).files@[i]@.path
            }),
            r ==> ({
                let p = resolve_path(
                    constructor.entries_view(),
                    constructor.drive_letter@,
                    entry,
                    (constructor.entries@.len() + 1) as nat,
                )->Some_0;
                let e = find_entry(constructor.entries_view(), entry)->Some_0;
                let rs = clamp_u64(crate::record::spec_real_size(e.data));
                let base = old(self).files@.len() as int;
                let fresh: int = if has_path(old(self).files@, p) {
                    0
                } else {
                    1
                };
                forall|i: int|
                    0 <= i < base ==> (#[trigger] final(self).files@[i]@.name) == old(self).files@[i]@.name
            }),
            r ==> ({
                let p = resolve_path(
                    constructor.entries_view(),
                    constructor.drive_letter@,
                    entry,
                    (constructor.entries@.len() + 1) as nat,
                )->Some_0;
                let e = find_entry(constructor.entries_view(), entry)->Some_0;
                let rs = clamp_u64(crate::record::spec_real_size(e.data));
                let base = old(self).files@.len() as int;
                let fresh: int = if has_path(old(self).files@, p) {
                    0
                } else {
                    1
                };
                forall|i: int|
                    0 <= i < base ==> (#[trigger] final(self).files@[i]@.alloc_size) == old(self).files@[i]@.alloc_size
            }),
            r ==> ({
                let p = resolve_path(
                    constructor.entries_view(),
                    constructor.drive_letter@,
                    entry,
                    (constructor.entries@.len() + 1) as nat,
                )->Some_0;
                let e = find_entry(constructor.entries_view(), entry)->Some_0;
                let rs = clamp_u64(crate::record::spec_real_size(e.data));
                let base = old(self).files@.len() as int;
                let fresh: int = if has_path(old(self).files@, p) {
                    0
                } else {
                    1
                };
                forall|i: int|
                    0 <= i < base && old(self).files@[i]@.path != p && !strict_ancestor(
                        old(self).files@[i]@.path,
                        p,
                    ) ==> (#[trigger] final(self).files@[i]@.real_size) == old(self).files@[i]@.real_size
            }),
            r ==> ({
                let p = resolve_path(
                    constructor.entries_view(),
                    constructor.drive_letter@,
                    entry,
                    (constructor.entries@.len() + 1) as nat,
                )->Some_0;
                let e = find_entry(constructor.entries_view(), entry)->Some_0;
                let rs = clamp_u64(crate::record::spec_real_size(e.data));
                let base = old(self).files@.len() as int;
                let fresh: int = if has_path(old(self).files@, p) {
                    0
                } else {
                    1
                };
                forall|i: int|
                    0 <= i < base && old(self).files@[i]@.path != p && !strict_ancestor(
                        old(self).files@[i]@.path,
                        p,
                    ) ==> (#[trigger] final(self).files@[i]@.is_dir) == old(self).files@[i]@.is_dir
            }),
            r ==> ({
                let p = resolve_path(
                    constructor.entries_view(),
                    constructor.drive_letter@,
                    entry,
                    (constructor.entries@.len() + 1) as nat,
                )->Some_0;
                let e = find_entry(constructor.entries_view(), entry)->Some_0;
                let rs = clamp_u64(crate::record::spec_real_size(e.data));
                let base = old(self).files@.len() as int;
                let fresh: int = if has_path(old(self).files@, p) {
                    0
                } else {
                    1
                };
                forall|i: int|
                    0 <= i < base && (#[trigger] old(self).files@[i]@.path) == p ==> final(self).files@[i]@.is_dir
                        && final(self).files@[i]@.real_size == old(self).files@[i]@.real_size
            }),
            r ==> ({
                let p = resolve_path(
                    constructor.entries_view(),
                    constructor.drive_letter@,
                    entry,
                    (constructor.entries@.len() + 1) as nat,
                )->Some_0;
                let e = find_entry(constructor.entries_view(), entry)->Some_0;
                let rs = clamp_u64(crate::record::spec_real_size(e.data));
                let base = old(self).files@.len() as int;
                let fresh: int = if has_path(old(self).files@, p) {
                    0
                } else {
                    1
                };
                fresh == 1 ==> final(self).files@[base]@.path == p && final(self).files@[base]@.name
                    == spec_row_name(e) && final(self).files@[base]@.real_size == rs && final(self).files@[base]@.alloc_size == clamp_u64(
                    crate::record::spec_alloc_size(e.data, constructor.bytes_per_cluster as int),
                ) && !final(self).files@[base]@.is_dir
            }),
            r ==> ({
                let p = resolve_path(
                    constructor.entries_view(),
                    constructor.drive_letter@,
                    entry,
                    (constructor.entries@.len() + 1) as nat,
                )->Some_0;
                let e = find_entry(constructor.entries_view(), entry)->Some_0;
                let rs = clamp_u64(crate::record::spec_real_size(e.data));
                let base = old(self).files@.len() as int;
                let fresh: int = if has_path(old(self).files@, p) {
                    0
                } else {
                    1
                };
                path_wf(p) ==> forall|i: int|
                    0 <= i < base && strict_ancestor(#[trigger] old(self).files@[i]@.path, p)
                        ==> final(self).files@[i]@.is_dir
            }),
            r ==> ({
                let p = resolve_path(
                    constructor.entries_view(),
                    constructor.drive_letter@,
                    entry,
                    (constructor.entries@.len() + 1) as nat,
                )->Some_0;
                let e = find_entry(constructor.entries_view(), entry)->Some_0;
                let rs = clamp_u64(crate::record::spec_real_size(e.data));
                let base = old(self).files@.len() as int;
                let fresh: int = if has_path(old(self).files@, p) {
                    0
                } else {
                    1
                };
                path_wf(p) ==> forall|k: int|
                    0 <= k < p.len() && (#[trigger] p[k]) == SEP ==> has_path(
                        final(self).files@,
                        p.take(k),
                    )
            }),
            r ==> ({
                let p = resolve_path(
                    constructor.entries_view(),
                    constructor.drive_letter@,
                    entry,
                    (constructor.entries@.len() + 1) as nat,
                )->Some_0;
                let e = find_entry(constructor.entries_view(), entry)->Some_0;
                let rs = clamp_u64(crate::record::spec_real_size(e.data));
                let base = old(self).files@.len() as int;
                let fresh: int = if has_path(old(self).files@, p) {
                    0
                } else {
                    1
                };
                forall|i: int|
                    base + fresh <= i < final(self).files@.len() ==> strict_ancestor(#[trigger] final(self).files@[i]@.path, p) && !has_path(
                        old(self).files@,
                        final(self).files@[i]@.path,
                    )
            }),
            r ==> ({
                let p = resolve_path(
                    constructor.entries_view(),
                    constructor.drive_letter@,
                    entry,
                    (constructor.entries@.len() + 1) as nat,
                )->Some_0;
                let e = find_entry(constructor.entries_view(), entry)->Some_0;
                let rs = clamp_u64(crate::record::spec_real_size(e.data));
                let base = old(self).files@.len() as int;
                let fresh: int = if has_path(old(self).files@, p) {
                    0
                } else {
                    1
                };
                forall|i: int|
                    base + fresh <= i < final(self).files@.len() ==> (#[trigger] final(self).files@[i]@.real_size) == rs
            }),
            r ==> ({
                let p = resolve_path(
                    constructor.entries_view(),
                    constructor.drive_letter@,
                    entry,
                    (constructor.entries@.len() + 1) as nat,
                )->Some_0;
                let e = find_entry(constructor.entries_view(), entry)->Some_0;
                let rs = clamp_u64(crate::record::spec_real_size(e.data));
                let base = old(self).files@.len() as int;
                let fresh: int = if has_path(old(self).files@, p) {
                    0
                } else {
                    1
                };
                forall|i: int|
                    base + fresh <= i < final(self).files@.len() ==> (#[trigger] final(self).files@[i]@.is_dir)
            }),
            r ==> ({
                let p = resolve_path(
                    constructor.entries_view(),
                    constructor.drive_letter@,
                    entry,
                    (constructor.entries@.len() + 1) as nat,
                )->Some_0;
                let e = find_entry(constructor.entries_view(), entry)->Some_0;
                let rs = clamp_u64(crate::record::spec_real_size(e.data));
                let base = old(self).files@.len() as int;
                let fresh: int = if has_path(old(self).files@, p) {
                    0
                } else {
                    1
                };
                forall|i: int|
                    base + fresh <= i < final(self).files@.len() ==> (#[trigger] final(self).files@[i]@.alloc_size) == 0
            }),
            r ==> ({
                let p = resolve_path(
                    constructor.entries_view(),
                    constructor.drive_letter@,
                    entry,
                    (constructor.entries@.len() + 1) as nat,
                )->Some_0;
                let e = find_entry(constructor.entries_view(), entry)->Some_0;
                let rs = clamp_u64(crate::record::spec_real_size(e.data));
                let base = old(self).files@.len() as int;
                let fresh: int = if has_path(old(self).files@, p) {
                    0
                } else {
                    1
                };
                forall|i: int|
                    base + fresh <= i < final(self).files@.len() ==> (#[trigger] final(self).files@[i]@.name) == p.subrange(
                        final(self).files@[i]@.path.len() as int + 1,
                        crate::paths::next_cut(p, final(self).files@[i]@.path.len() as int),
                    )
            }),
    {
        let e = match constructor.find(entry) {
            None => {
                return false;
            },
            Some(e) => e,
        };
        let rsize = e.real_size();
        let asize = e.get_allocated_size(constructor.bytes_per_cluster);
        let name = match e.get_best_filename() {
            None => Vec::new(),
            Some(n) => n,
        };
        let ghost name0 = name@;
        proof {
            assert(name0 == spec_row_name(e@));
        }
        let path = match constructor.get_full_path(entry) {
            None => {
                return false;
            },
            Some(p) => p,
        };
        let ghost p_spec = path@;
        let ghost item = LogItem { path: p_spec, size: rsize };
        let ghost log0 = self.log@;
        let ghost log1 = log0.push(item);
        let ghost gg = log_ok(log1);
        proof {
            lemma_total_snoc(log0, item);
            assert(forall|j: int| 0 <= j < log0.len() ==> #[trigger] log1[j] == log0[j]);
            assert(log1[log0.len() as int] == item);
            if log_ok(log1) {
                assert(log1[log0.len() as int].path == p_spec);
                assert(path_wf(p_spec));
                assert forall|j: int|
                    0 <= j < log0.len() implies path_wf(#[trigger] log0[j].path) by {
                    assert(log1[j].path == log0[j].path);
                }
                assert(log_ok(log0));
            }
        }

        // The file row at the record's own path.
        let ghost files0 = self.files@;
        let ghost had = has_path(files0, p_spec);
        let ghost mut fi: int = -1;
        match self.find_path(&path) {
            Some(i) => {
                proof {
                    fi = i as int;
                }
                let nm = copy_u16s(&self.files[i].name);
                let pt = copy_u16s(&self.files[i].path);
                let rs = self.files[i].real_size;
                let al = self.files[i].alloc_size;
                self.files[i] = Entry { name: nm, path: pt, real_size: rs, alloc_size: al, is_dir: true };
            },
            None => {
                self.files.push(
                    Entry {
                        name,
                        path: copy_u16s(&path),
                        real_size: rsize,
                        alloc_size: asize,
                        is_dir: false,
                    },
                );
            },
        }
        let ghost files1 = self.files@;
        proof {
            if had {
                assert(0 <= fi < files0.len());
                assert(files0[fi]@.path == p_spec);
                assert(files1.len() == files0.len());
                assert(forall|w: int|
                    0 <= w < files0.len() && w != fi ==> (#[trigger] files1[w]) == files0[w]);
                assert(files1[fi]@.path == files0[fi]@.path);
                assert(files1[fi]@.name == files0[fi]@.name);
                assert(files1[fi]@.alloc_size == files0[fi]@.alloc_size);
                assert(files1[fi]@.real_size == files0[fi]@.real_size);
                assert(files1[fi]@.is_dir);
            } else {
                assert(files1.len() == files0.len() + 1);
                assert(forall|w: int|
                    0 <= w < files0.len() ==> (#[trigger] files1[w]) == files0[w]);
                assert(files1[files0.len() as int]@.path == p_spec);
                assert(files1[files0.len() as int]@.name == name0);
                assert(files1[files0.len() as int]@.real_size == rsize);
                assert(files1[files0.len() as int]@.alloc_size == asize);
                assert(!files1[files0.len() as int]@.is_dir);
            }
            if gg {
                assert forall|i: int|
                    0 <= i < files1.len() && files1[i]@.path != p_spec implies (
                #[trigger] files1[i]@.real_size) <= total_size(log0) by {
                    assert(files1[i]@.real_size == files0[i]@.real_size);
                    lemma_own_desc_le_total(log0, files0[i]@.path);
                    lemma_desc_nonneg(log0, files0[i]@.path);
                }
            }
        }

        // The ancestor walk: strip the last component and credit the
        // record's size to each ancestor row in turn.
        let mut cur = copy_u16s(&path);
        let ghost mut cut: int = p_spec.len() as int;
        let mut done = false;
        proof {
            assert(cur@ =~= p_spec.take(cut));
        }
        while !done
            invariant
                old(self).inv(),
                self.dirs == old(self).dirs,
                self.log@ == log0,
                log0 == old(self).log@,
                log1 == log0.push(item),
                item == (LogItem { path: p_spec, size: rsize }),
                gg == log_ok(log1),
                gg ==> log_ok(log0) && path_wf(p_spec) && total_size(log0) + rsize <= u64::MAX,
                files0 == old(self).files@,
                cur@ == p_spec.take(cut),
                0 <= cut <= p_spec.len(),
                cut == p_spec.len() || p_spec[cut] == SEP,
                paths_unique(self.files@),
                self.files@.len() >= files1.len(),
                forall|i: int|
                    0 <= i < files1.len() ==> (#[trigger] self.files@[i]@.path) == files1[
                        i
                    ]@.path,
                forall|i: int|
                    0 <= i < files1.len() ==> (#[trigger] self.files@[i]@.name) == files1[
                        i
                    ]@.name,
                forall|i: int|
                    0 <= i < files1.len() ==> (#[trigger] self.files@[i]@.alloc_size) == files1[
                        i
                    ]@.alloc_size,
                gg ==> forall|i: int|
                    0 <= i < files1.len() && files1[i]@.path != p_spec
                        ==> (#[trigger] files1[i]@.real_size) <= total_size(log0),
                gg ==> forall|i: int|
                    0 <= i < files1.len() && strict_ancestor(files1[i]@.path, p_spec)
                        && files1[i]@.path.len() >= cut ==> (#[trigger] self.files@[i]@.real_size)
                        == files1[i]@.real_size + rsize,
                forall|i: int|
                    0 <= i < files1.len() && strict_ancestor(files1[i]@.path, p_spec)
                        && files1[i]@.path.len() >= cut ==> (#[trigger] self.files@[i]@.is_dir),
                forall|i: int|
                    0 <= i < files1.len() && !(strict_ancestor(files1[i]@.path, p_spec)
                        && files1[i]@.path.len() >= cut) ==> (
                    #[trigger] self.files@[i]@.real_size) == files1[i]@.real_size,
                forall|i: int|
                    0 <= i < files1.len() && !(strict_ancestor(files1[i]@.path, p_spec)
                        && files1[i]@.path.len() >= cut) ==> (#[trigger] self.files@[i]@.is_dir)
                        == files1[i]@.is_dir,
                forall|i: int|
                    files1.len() <= i < self.files@.len() ==> {
                        &&& strict_ancestor(#[trigger] self.files@[i]@.path, p_spec)
                        &&& self.files@[i]@.path.len() >= cut
                        &&& !has_path(files1, self.files@[i]@.path)
                        &&& self.files@[i]@.real_size == rsize
                        &&& self.files@[i]@.is_dir
                        &&& self.files@[i]@.alloc_size == 0
                        &&& self.files@[i]@.name == p_spec.subrange(
                            self.files@[i]@.path.len() as int + 1,
                            crate::paths::next_cut(p_spec, self.files@[i]@.path.len() as int),
                        )
                    },
                forall|k: int|
                    cut <= k < p_spec.len() && (#[trigger] p_spec[k]) == SEP ==> has_path(
                        self.files@,
                        p_spec.take(k),
                    ),
                done ==> (path_wf(p_spec) ==> forall|k: int|
                    0 <= k < cut ==> (#[trigger] p_spec[k]) != SEP),
            decreases cur@.len(), (if done { 0int } else { 1int }),
        {
            match find_last_sep(&cur) {
                None => {
                    proof {
                        crate::paths::lemma_last_sep_bounds(cur@);
                        assert forall|k: int| 0 <= k < cut implies (#[trigger] p_spec[k]) != SEP by {
                            assert(cur@[k] == p_spec[k]);
                            assert(cur@[k] != SEP);
                        }
                    }
                    done = true;
                },
                Some(si) => {
                    let cl = cur.len();
                    proof {
                        assert(si < cl);
                    }
                    let comp = skip_prefix(&cur, si + 1);
                    let newcur = take_prefix(&cur, si);
                    let ghost oldcut = cut;
                    if newcur.len() == 1 && newcur[0] == SEP {
                        proof {
                            if path_wf(p_spec) {
                                assert(newcur@[0] == p_spec[0]);
                                assert(p_spec[0] == SEP);
                                assert(!path_wf(p_spec));
                            }
                        }
                        done = true;
                    } else {
                        proof {
                            crate::paths::lemma_last_sep_bounds(cur@);
                            cut = si as int;
                            assert(p_spec[cut] == cur@[cut]);
                            assert(newcur@ =~= p_spec.take(cut));
                            // The only separator position in [cut, oldcut) is cut.
                            assert forall|k: int|
                                cut < k < oldcut implies (#[trigger] p_spec[k]) != SEP by {
                                assert(cur@[k] == p_spec[k]);
                                assert(cur@[k] != SEP);
                            }
                        }
                        cur = newcur;
                        proof {
                            assert(comp@ =~= p_spec.subrange(cut + 1, oldcut));
                            crate::paths::lemma_next_cut_char(p_spec, cut, oldcut);
                        }
                        self.credit_or_insert(
                            &cur,
                            comp,
                            rsize,
                            Ghost(p_spec),
                            Ghost(files1),
                            Ghost(log0),
                            Ghost(gg),
                            Ghost(cut),
                            Ghost(oldcut),
                        );
                    }
                },
            }
        }

        proof {
            self.log@ = log1;
        }
        let ghost files2 = self.files@;
        proof {
            if log_ok(log1) {
                assert(gg);
                assert forall|k: int|
                    0 <= k < cut implies (#[trigger] p_spec[k]) != SEP by {}
                lemma_aggregate_step(files0, files1, files2, log0, p_spec, rsize, cut);
            }
        }
        proof {
            let base = files0.len() as int;
            let fresh: int = if had {
                0
            } else {
                1
            };
            assert(files1.len() == base + fresh);
            assert(rsize == clamp_u64(crate::record::spec_real_size(e@.data)));
            assert(asize == clamp_u64(
                crate::record::spec_alloc_size(e@.data, constructor.bytes_per_cluster as int),
            ));
            assert forall|i: int|
                0 <= i < base implies (#[trigger] files2[i]@.path) == files0[i]@.path by {
                if !(had && i == fi) {
                    assert(files1[i] == files0[i]);
                }
                assert(files2[i]@.path == files1[i]@.path);
            }
            assert forall|i: int|
                0 <= i < base implies (#[trigger] files2[i]@.name) == files0[i]@.name by {
                if !(had && i == fi) {
                    assert(files1[i] == files0[i]);
                }
                assert(files2[i]@.name == files1[i]@.name);
            }
            assert forall|i: int|
                0 <= i < base implies (#[trigger] files2[i]@.alloc_size) == files0[
                i
            ]@.alloc_size by {
                if !(had && i == fi) {
                    assert(files1[i] == files0[i]);
                }
                assert(files2[i]@.alloc_size == files1[i]@.alloc_size);
            }
            assert forall|i: int|
                0 <= i < base && files0[i]@.path != p_spec && !strict_ancestor(
                    files0[i]@.path,
                    p_spec,
                ) implies (#[trigger] files2[i]@.real_size) == files0[i]@.real_size && (
            files2[i]@.is_dir) == files0[i]@.is_dir by {
                assert(files1[i]@.path == files0[i]@.path);
                assert(!(strict_ancestor(files1[i]@.path, p_spec) && files1[i]@.path.len()
                    >= cut));
                assert(files2[i]@.real_size == files1[i]@.real_size);
                assert(files2[i]@.is_dir == files1[i]@.is_dir);
                if had && i == fi {
                    assert(files0[i]@.path == p_spec);
                    assert(false);
                }
                assert(files1[i] == files0[i]);
            }
            assert forall|i: int|
                0 <= i < base && files0[i]@.path != p_spec && !strict_ancestor(
                    files0[i]@.path,
                    p_spec,
                ) implies (#[trigger] files2[i]@.is_dir) == files0[i]@.is_dir by {
                assert(files2[i]@.real_size == files0[i]@.real_size);
            }
            assert forall|i: int|
                0 <= i < base && (#[trigger] files0[i]@.path) == p_spec implies (
            files2[i]@.is_dir) && files2[i]@.real_size == files0[i]@.real_size by {
                if !had {
                    assert(has_path(files0, p_spec));
                    assert(false);
                }
                if i != fi {
                    assert(files0[i]@.path == files0[fi]@.path);
                    assert(false);
                }
                assert(files1[fi]@.is_dir);
                assert(files1[fi]@.real_size == files0[fi]@.real_size);
                assert(files1[fi]@.path == p_spec);
                assert(!strict_ancestor(files1[fi]@.path, p_spec));
                assert(files2[fi]@.is_dir == files1[fi]@.is_dir);
                assert(files2[fi]@.real_size == files1[fi]@.real_size);
            }
            if !had {
                assert(files1[base]@.path == p_spec);
                assert(files2[base]@.path == files1[base]@.path);
                assert(files2[base]@.name == files1[base]@.name);
                assert(files2[base]@.alloc_size == files1[base]@.alloc_size);
                assert(!strict_ancestor(files1[base]@.path, p_spec));
                assert(files2[base]@.real_size == files1[base]@.real_size);
                assert(files2[base]@.is_dir == files1[base]@.is_dir);
            }
            if path_wf(p_spec) {
                assert forall|i: int|
                    0 <= i < base && strict_ancestor(
                        #[trigger] files0[i]@.path,
                        p_spec,
                    ) implies files2[i]@.is_dir by {
                    let a = files0[i]@.path;
                    assert(p_spec[a.len() as int] == SEP);
                    assert(a.len() >= cut);
                    assert(files1[i]@.path == a);
                    assert(strict_ancestor(files1[i]@.path, p_spec) && files1[i]@.path.len()
                        >= cut);
                }
                assert forall|k: int|
                    0 <= k < p_spec.len() && (#[trigger] p_spec[k]) == SEP implies has_path(
                    files2,
                    p_spec.take(k),
                ) by {
                    assert(k >= cut);
                }
            }
            assert forall|i: int|
                base + fresh <= i < files2.len() implies strict_ancestor(#[trigger] files2[i]@.path, p_spec) && !has_path(
                files0,
                files2[i]@.path,
            ) by {
                assert(files1.len() <= i);
                assert(!has_path(files1, files2[i]@.path));
                assert(strict_ancestor(files2[i]@.path, p_spec));
                assert(files2[i]@.real_size == rsize);
                assert(files2[i]@.is_dir);
                assert(files2[i]@.alloc_size == 0);
                if has_path(files0, files2[i]@.path) {
                    let w = choose|w: int|
                        0 <= w < files0.len() && (#[trigger] files0[w]@.path) == files2[i]@.path;
                    assert(files1[w]@.path == files0[w]@.path);
                    assert(has_path(files1, files2[i]@.path));
                }
            }
            assert forall|i: int|
                base + fresh <= i < files2.len() implies (#[trigger] files2[i]@.real_size) == rsize by {
                assert(files1.len() <= i);
                assert(!has_path(files1, files2[i]@.path));
                assert(strict_ancestor(files2[i]@.path, p_spec));
                assert(files2[i]@.real_size == rsize);
                assert(files2[i]@.is_dir);
                assert(files2[i]@.alloc_size == 0);
                if has_path(files0, files2[i]@.path) {
                    let w = choose|w: int|
                        0 <= w < files0.len() && (#[trigger] files0[w]@.path) == files2[i]@.path;
                    assert(files1[w]@.path == files0[w]@.path);
                    assert(has_path(files1, files2[i]@.path));
                }
            }
            assert forall|i: int|
                base + fresh <= i < files2.len() implies (#[trigger] files2[i]@.is_dir) by {
                assert(files1.len() <= i);
                assert(!has_path(files1, files2[i]@.path));
                assert(strict_ancestor(files2[i]@.path, p_spec));
                assert(files2[i]@.real_size == rsize);
                assert(files2[i]@.is_dir);
                assert(files2[i]@.alloc_size == 0);
                if has_path(files0, files2[i]@.path) {
                    let w = choose|w: int|
                        0 <= w < files0.len() && (#[trigger] files0[w]@.path) == files2[i]@.path;
                    assert(files1[w]@.path == files0[w]@.path);
                    assert(has_path(files1, files2[i]@.path));
                }
            }
            assert forall|i: int|
                base + fresh <= i < files2.len() implies (#[trigger] files2[i]@.alloc_size) == 0 by {
                assert(files1.len() <= i);
                assert(!has_path(files1, files2[i]@.path));
                assert(strict_ancestor(files2[i]@.path, p_spec));
                assert(files2[i]@.real_size == rsize);
                assert(files2[i]@.is_dir);
                assert(files2[i]@.alloc_size == 0);
                if has_path(files0, files2[i]@.path) {
                    let w = choose|w: int|
                        0 <= w < files0.len() && (#[trigger] files0[w]@.path) == files2[i]@.path;
                    assert(files1[w]@.path == files0[w]@.path);
                    assert(has_path(files1, files2[i]@.path));
                }
            }
            assert forall|i: int|
                base + fresh <= i < files2.len() implies (#[trigger] files2[i]@.name) == p_spec.subrange(
                files2[i]@.path.len() as int + 1,
                crate::paths::next_cut(p_spec, files2[i]@.path.len() as int),
            ) by {
                assert(files1.len() <= i);
                assert(!has_path(files1, files2[i]@.path));
                assert(strict_ancestor(files2[i]@.path, p_spec));
                assert(files2[i]@.real_size == rsize);
                assert(files2[i]@.is_dir);
                assert(files2[i]@.alloc_size == 0);
                if has_path(files0, files2[i]@.path) {
                    let w = choose|w: int|
                        0 <= w < files0.len() && (#[trigger] files0[w]@.path) == files2[i]@.path;
                    assert(files1[w]@.path == files0[w]@.path);
                    assert(has_path(files1, files2[i]@.path));
                }
            }
        }
        true
    }
}


/// Index of the first directory row keyed by `p`, `-1` when none is.
pub open spec fn find_dir_idx(dirs: Seq<TestEntry>, p: Seq<u16>) -> int
    decreases dirs.len(),
{
    if dirs.len() == 0 {
        -1
    } else if dirs[0].path@ == p {
        0
    } else {
        let r = find_dir_idx(dirs.drop_first(), p);
        if r < 0 {
            -1
        } else {
            r + 1
        }
    }
}

pub proof fn lemma_find_dir_at(dirs: Seq<TestEntry>, p: Seq<u16>, i: int)
    requires
        0 <= i < dirs.len(),
        dirs[i].path@ == p,
        forall|k: int| 0 <= k < i ==> (#[trigger] dirs[k].path@) != p,
    ensures
        find_dir_idx(dirs, p) == i,
    decreases i,
{
    if i > 0 {
        assert(dirs[0].path@ != p);
        assert(dirs.drop_first()[i - 1] == dirs[i]);
        assert(forall|k: int|
            0 <= k < i - 1 ==> (#[trigger] dirs.drop_first()[k]) == dirs[k + 1]);
        lemma_find_dir_at(dirs.drop_first(), p, i - 1);
    }
}

pub proof fn lemma_find_dir_none(dirs: Seq<TestEntry>, p: Seq<u16>)
    requires
        forall|k: int| 0 <= k < dirs.len() ==> (#[trigger] dirs[k].path@) != p,
    ensures
        find_dir_idx(dirs, p) == -1,
    decreases dirs.len(),
{
    if dirs.len() > 0 {
        assert(forall|k: int|
            0 <= k < dirs.len() - 1 ==> (#[trigger] dirs.drop_first()[k]) == dirs[k + 1]);
        lemma_find_dir_none(dirs.drop_first(), p);
    }
}

/// Whether `mount_paths` selects this volume for processing: the volume
/// has a mount path at all, and — when a whitelist of drive initials is
/// given — some mount path starts with a whitelisted unit.
pub open spec fn spec_volume_selected(paths: Seq<Vec<u16>>, whitelist: Option<Vec<u16>>) -> bool {
    paths.len() > 0 && match whitelist {
        None => true,
        Some(w) => exists|i: int|
            0 <= i < paths.len() && (#[trigger] paths[i]@).len() > 0 && w@.contains(paths[i]@[0]),
    }
}

/// Whether the whitelist admits a volume with these mount paths.
pub fn volume_selected(mount_paths: &Vec<Vec<u16>>, whitelist: &Option<Vec<u16>>) -> (r: bool)
    ensures
        r == spec_volume_selected(mount_paths@, *whitelist),
{
    if mount_paths.len() == 0 {
        return false;
    }
    let w = match whitelist {
        None => {
            return true;
        },
        Some(w) => w,
    };
    let mut i: usize = 0;
    while i < mount_paths.len()
        invariant
            i <= mount_paths@.len(),
            mount_paths@.len() > 0,
            *whitelist matches Some(ww) && ww == w,
            forall|k: int|
                0 <= k < i ==> !((#[trigger] mount_paths@[k]@).len() > 0 && w@.contains(
                    mount_paths@[k]@[0],
                )),
        decreases mount_paths@.len() - i,
    {
        let p = &mount_paths[i];
        if p.len() > 0 && contains_unit(w, p[0]) {
            return true;
        }
        i = i + 1;
    }
    false
}

/// Whether `v` holds the unit `u`.
fn contains_unit(v: &Vec<u16>, u: u16) -> (r: bool)
    ensures
        r == v@.contains(u),
{
    let mut i: usize = 0;
    while i < v.len()
        invariant
            i <= v@.len(),
            forall|k: int| 0 <= k < i ==> v@[k] != u,
        decreases v@.len() - i,
    {
        if v[i] == u {
            return true;
        }
        i = i + 1;
    }
    proof {
        if v@.contains(u) {
            let k = choose|k: int| 0 <= k < v@.len() && v@[k] == u;
            assert(v@[k] != u);
        }
    }
    false
}

impl Filesystem {
    /// Index of the directory row keyed by `p`.
    fn find_dir(&self, p: &Vec<u16>) -> (r: Option<usize>)
        ensures
            r matches Some(i) ==> i < self.dirs@.len() && find_dir_idx(self.dirs@, p@) == i
                && self.dirs@[i as int].path@ == p@,
            r is None ==> find_dir_idx(self.dirs@, p@) == -1,
    {
        let mut i: usize = 0;
        while i < self.dirs.len()
            invariant
                i <= self.dirs@.len(),
                forall|k: int| 0 <= k < i ==> (#[trigger] self.dirs@[k].path@) != p@,
            decreases self.dirs@.len() - i,
        {
            if units_eq(&self.dirs[i].path, p) {
                proof {
                    lemma_find_dir_at(self.dirs@, p@, i as int);
                }
                return Some(i);
            }
            i = i + 1;
        }
        proof {
            lemma_find_dir_none(self.dirs@, p@);
        }
        None
    }

    /// Files the entry under its parent directory in the per-directory
    /// index: an existing parent row gains the entry's real size and the
    /// entry as one more child; a missing one is created, carrying the
    /// entry's sizes and the entry as its only child. An entry whose path
    /// has no separator has no parent; the index is then unchanged.
    pub fn add_dir_entry(&mut self, original_path: Vec<u16>, entry: Entry)
        ensures
            final(self).files == old(self).files,
            final(self).log@ == old(self).log@,
            last_sep(original_path@) <= 0 ==> final(self).dirs == old(self).dirs,
            last_sep(original_path@) >= 1 ==> {
                let parent = original_path@.take(last_sep(original_path@));
                let child_name = original_path@.skip(last_sep(original_path@) + 1);
                let j = find_dir_idx(old(self).dirs@, parent);
                if j >= 0 {
                    &&& final(self).dirs@.len() == old(self).dirs@.len()
                    &&& (forall|w: int|
                        0 <= w < old(self).dirs@.len() && w != j
                            ==> (#[trigger] final(self).dirs@[w]) == old(self).dirs@[w])
                    &&& final(self).dirs@[j].path@ == parent
                    &&& final(self).dirs@[j].name@ == old(self).dirs@[j].name@
                    &&& final(self).dirs@[j].alloc_size == old(self).dirs@[j].alloc_size
                    &&& final(self).dirs@[j].is_dir == old(self).dirs@[j].is_dir
                    &&& final(self).dirs@[j].real_size == (if old(self).dirs@[j].real_size
                        + entry.real_size <= u64::MAX {
                        old(self).dirs@[j].real_size + entry.real_size
                    } else {
                        u64::MAX as int
                    })
                    &&& (final(self).dirs@[j].children matches Some(cs) && cs@.len() >= 1
                        && cs@.last().path@ == original_path@ && cs@.last().name@ == child_name
                        && cs@.last().real_size == entry.real_size && cs@.last().alloc_size
                        == entry.alloc_size && cs@.last().is_dir == entry.is_dir)
                    // The prior children stay, in order, ahead of the new one.
                    &&& (old(self).dirs@[j].children matches Some(ocs) ==> (
                    final(self).dirs@[j].children matches Some(cs) && cs@.drop_last() == ocs@))
                    &&& (old(self).dirs@[j].children is None ==> (
                    final(self).dirs@[j].children matches Some(cs) && cs@.len() == 1))
                } else {
                    &&& final(self).dirs@.len() == old(self).dirs@.len() + 1
                    &&& (forall|w: int|
                        0 <= w < old(self).dirs@.len() ==> (#[trigger] final(self).dirs@[w]) == old(self).dirs@[w])
                    &&& final(self).dirs@.last().path@ == parent
                    &&& final(self).dirs@.last().name@ == (if last_sep(parent) == -1 {
                        parent
                    } else {
                        parent.skip(last_sep(parent) + 1)
                    })
                    &&& final(self).dirs@.last().is_dir
                    &&& final(self).dirs@.last().real_size == entry.real_size
                    &&& final(self).dirs@.last().alloc_size == entry.alloc_size
                    &&& (final(self).dirs@.last().children matches Some(cs) && cs@.len() == 1
                        && cs@[0].path@ == original_path@ && cs@[0].name@ == child_name
                        && cs@[0].real_size == entry.real_size && cs@[0].is_dir == entry.is_dir)
                }
            },
    {
        let si = match find_last_sep(&original_path) {
            None => {
                return ;
            },
            Some(si) => si,
        };
        if si == 0 {
            // A separator in front means an empty parent prefix — the
            // root sentinel. Such an entry has no parent row.
            return ;
        }
        let opl = original_path.len();
        proof {
            assert(si < opl);
        }
        let parent = take_prefix(&original_path, si);
        let child_name = skip_prefix(&original_path, si + 1);
        let child = TestEntry {
            name: child_name,
            path: original_path,
            is_dir: entry.is_dir,
            real_size: entry.real_size,
            alloc_size: entry.alloc_size,
            children: None,
        };
        match self.find_dir(&parent) {
            Some(j) => {
                let ghost dirs0 = self.dirs@;
                // Take row `j` out while keeping the order: a placeholder
                // is pushed, swapped into place `j`, and overwritten.
                self.dirs.push(
                    TestEntry {
                        name: Vec::new(),
                        path: Vec::new(),
                        is_dir: false,
                        real_size: 0,
                        alloc_size: 0,
                        children: None,
                    },
                );
                let row = self.dirs.swap_remove(j);
                proof {
                    assert(self.dirs@.len() == dirs0.len());
                    assert(forall|w: int|
                        0 <= w < dirs0.len() && w != j ==> (#[trigger] self.dirs@[w]) == dirs0[w]);
                }
                let nm = row.name;
                let pt = row.path;
                let rs = sat_add(row.real_size, entry.real_size);
                let al = row.alloc_size;
                let dir_flag = row.is_dir;
                let mut cs = match row.children {
                    None => Vec::new(),
                    Some(cs) => cs,
                };
                cs.push(child);
                self.dirs[j] = TestEntry {
                    name: nm,
                    path: pt,
                    is_dir: dir_flag,
                    real_size: rs,
                    alloc_size: al,
                    children: Some(cs),
                };
                proof {
                    assert forall|w: int|
                        0 <= w < dirs0.len() && w != j implies (#[trigger] self.dirs@[w])
                        == dirs0[w] by {}
                }
            },
            None => {
                // The parent's own display name is its last component.
                let pname = match find_last_sep(&parent) {
                    None => copy_u16s(&parent),
                    Some(pi) => skip_prefix(&parent, pi + 1),
                };
                let mut cs: Vec<TestEntry> = Vec::new();
                cs.push(child);
                self.dirs.push(
                    TestEntry {
                        name: pname,
                        path: parent,
                        is_dir: true,
                        real_size: entry.real_size,
                        alloc_size: entry.alloc_size,
                        children: Some(cs),
                    },
                );
            },
        }
    }

    /// Aggregates every record of the map into the inventory, in map
    /// order; of several records with one id only the latest added is
    /// taken, as it shadows the others. Returns how many records were
    /// aggregated; the rest had no resolvable path.
    pub fn ingest_records(&mut self, constructor: &Contructor) -> (n: usize)
        requires
            old(self).inv(),
        ensures
            final(self).inv(),
            final(self).dirs == old(self).dirs,
            final(self).log@ == old(self).log@ + spec_ingest(
                constructor.entries_view(),
                constructor.drive_letter@,
                0,
            ),
            n == spec_ingest(constructor.entries_view(), constructor.drive_letter@, 0).len(),
            n <= constructor.entries@.len(),
    {
        let ghost cv = constructor.entries_view();
        let ghost drive = constructor.drive_letter@;
        let mut n: usize = 0;
        let mut i: usize = 0;
        while i < constructor.entries.len()
            invariant
                self.inv(),
                self.dirs == old(self).dirs,
                cv == constructor.entries_view(),
                drive == constructor.drive_letter@,
                i <= cv.len(),
                n <= i,
                self.log@.len() == old(self).log@.len() + n,
                self.log@ + spec_ingest(cv, drive, i as int) == old(self).log@ + spec_ingest(
                    cv,
                    drive,
                    0,
                ),
            decreases cv.len() - i,
        {
            let id = constructor.entries[i].base_record_segment_idx;
            let mut is_last = true;
            let mut j = i + 1;
            while j < constructor.entries.len()
                invariant
                    cv == constructor.entries_view(),
                    i < j,
                    j <= cv.len(),
                    i < cv.len(),
                    id == cv[i as int].base_record_segment_idx,
                    is_last == forall|k: int|
                        i < k < j ==> (#[trigger] cv[k]).base_record_segment_idx != id,
                decreases cv.len() - j,
            {
                proof {
                    assert(cv[j as int] == constructor.entries@[j as int]@);
                }
                let ghost was = is_last;
                let same = constructor.entries[j].base_record_segment_idx == id;
                if same {
                    is_last = false;
                }
                proof {
                    if was && !same {
                        assert forall|k: int|
                            i < k < j + 1 implies (#[trigger] cv[k]).base_record_segment_idx
                            != id by {
                            if k < j {
                                assert(cv[k].base_record_segment_idx != id);
                            }
                        }
                    }
                    if same {
                        assert(cv[j as int].base_record_segment_idx == id);
                    }
                }
                j = j + 1;
            }
            let ghost log_pre = self.log@;
            if is_last {
                if self.add_fs_entry(id, constructor) {
                    n = n + 1;
                }
            }
            proof {
                let rest = spec_ingest(cv, drive, i + 1);
                if is_last {
                    // A resolved path means the lookup succeeded too.
                    assert(resolve_path(cv, drive, id, (cv.len() + 1) as nat) is Some
                        ==> find_entry(cv, id) is Some);
                    match resolve_path(cv, drive, id, (cv.len() + 1) as nat) {
                        Some(p) => {
                            assert(spec_ingest(cv, drive, i as int) == seq![
                                LogItem {
                                    path: p,
                                    size: clamp_u64(
                                        crate::record::spec_real_size(
                                            find_entry(cv, id)->Some_0.data,
                                        ),
                                    ) as u64,
                                },
                            ] + rest);
                            assert(self.log@ =~= log_pre.push(
                                LogItem {
                                    path: p,
                                    size: clamp_u64(
                                        crate::record::spec_real_size(
                                            find_entry(cv, id)->Some_0.data,
                                        ),
                                    ) as u64,
                                },
                            ));
                            assert(self.log@ + rest =~= log_pre + spec_ingest(cv, drive, i as int));
                        },
                        None => {
                            assert(spec_ingest(cv, drive, i as int) == rest);
                            assert(self.log@ == log_pre);
                        },
                    }
                } else {
                    assert(spec_ingest(cv, drive, i as int) == rest);
                    assert(self.log@ == log_pre);
                }
                assert(self.log@ + spec_ingest(cv, drive, i + 1) =~= log_pre + spec_ingest(
                    cv,
                    drive,
                    i as int,
                ));
            }
            i = i + 1;
        }
        proof {
            assert(spec_ingest(cv, drive, cv.len() as int) =~= Seq::<LogItem>::empty());
            assert(self.log@ + Seq::<LogItem>::empty() =~= self.log@);
            assert(self.log@ =~= old(self).log@ + spec_ingest(cv, drive, 0));
        }
        n
    }
}

/// The aggregation history one pass over a record map produces, from
/// index `i` on: of several records sharing an id only the latest added
/// is taken (it shadows the others in the map); each taken record whose
/// parent chain resolves contributes its path and clamped real size, in
/// map order.
pub open spec fn spec_ingest(entries: Seq<MftEntryS>, drive: Seq<u16>, i: int) -> Seq<LogItem>
    decreases entries.len() - i,
{
    if i < 0 || i >= entries.len() {
        Seq::empty()
    } else {
        let id = entries[i].base_record_segment_idx;
        let rest = spec_ingest(entries, drive, i + 1);
        if forall|j: int|
            i < j < entries.len() ==> (#[trigger] entries[j]).base_record_segment_idx != id {
            match resolve_path(entries, drive, id, (entries.len() + 1) as nat) {
                Some(p) => seq![
                    LogItem {
                        path: p,
                        size: clamp_u64(
                            crate::record::spec_real_size(find_entry(entries, id)->Some_0.data),
                        ) as u64,
                    },
                ] + rest,
                None => rest,
            }
        } else {
            rest
        }
    }
}

/// What a directory row of the inventory holds, once every record is in:
/// a row at a path no record resolved to — a synthesised directory — has
/// as its real size exactly the sum of the real sizes of the records
/// whose paths lie strictly below it; a row at a record's path carries
/// that record's size on top of the same sum. This needs the records'
/// paths to be pairwise distinct and none an ancestor of another, as a
/// duplicate would be double-counted.
///
/// The sums here range over all aggregated records, not only file rows:
/// the ancestor walk runs for every record, so a directory record that
/// itself carries a nonzero data size is propagated upward like any
/// other. The two readings agree whenever directory records carry no
/// data of their own — the common shape — or when only file records are
/// aggregated, which the ancestor-free hypothesis above describes.
pub proof fn lemma_dir_real_size(fs: Filesystem, i: int)
    requires
        fs.inv(),
        log_ok(fs.log@),
        0 <= i < fs.files@.len(),
        forall|a: int, b: int|
            0 <= a < fs.log@.len() && 0 <= b < fs.log@.len() && a != b ==> (
            #[trigger] fs.log@[a].path) != (#[trigger] fs.log@[b].path),
        forall|a: int, b: int|
            0 <= a < fs.log@.len() && 0 <= b < fs.log@.len() ==> !strict_ancestor(
                #[trigger] fs.log@[a].path,
                #[trigger] fs.log@[b].path,
            ),
    ensures
        (forall|j: int|
            0 <= j < fs.log@.len() ==> (#[trigger] fs.log@[j].path) != fs.files@[i]@.path)
            ==> fs.files@[i]@.real_size == desc_sum(fs.log@, fs.files@[i]@.path),
        forall|j: int|
            0 <= j < fs.log@.len() && (#[trigger] fs.log@[j].path) == fs.files@[i]@.path
                ==> fs.files@[i]@.real_size == fs.log@[j].size + desc_sum(
                fs.log@,
                fs.files@[i]@.path,
            ),
{
    let p = fs.files@[i]@.path;
    if forall|j: int| 0 <= j < fs.log@.len() ==> (#[trigger] fs.log@[j].path) != p {
        lemma_own_zero_not_recorded(fs.log@, p);
    }
    assert forall|j: int|
        0 <= j < fs.log@.len() && (#[trigger] fs.log@[j].path) == p implies fs.files@[
        i
    ]@.real_size == fs.log@[j].size + desc_sum(fs.log@, p) by {
        lemma_own_at_record(fs.log@, j);
    }
}

} // verus!
