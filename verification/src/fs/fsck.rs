//! The consistency checker: what it concludes from the inode table, the free
//! list, the superblock and the snapshot table of an image. Reading the
//! records, printing and writing repairs belong to the caller, which hands
//! each record to the report in table order.
use vstd::prelude::*;
use vstd::string::*;
use crate::text::{decimal, decimal_with_suffix};
use crate::fs::disk::{displayed_name, InodeRaw, SnapshotRaw, SuperblockRaw};
use crate::fs::free_list::used_ends_fit;
use crate::fs::layout::{DATA_OFFSET, MAGIC};

verus! {

/// Something the checker found, with what its message names.
#[derive(Debug, Clone)]
pub enum Finding {
    /// An inode slot could not be read back.
    InodeUnreadable { slot: usize },
    /// A slot is marked used but holds no displayable name.
    Orphaned { slot: usize },
    /// A live inode carries the name of an earlier live inode.
    DuplicateName { name: String, first: usize, second: usize },
    /// A live inode carries the name of an earlier live inode in the same
    /// directory.
    DuplicateNameIn { name: String, parent: u64, first: usize, second: usize },
    /// A live inode carries the inode number of an earlier live inode.
    DuplicateIno { ino: u64, first: usize, second: usize },
    /// A file's data starts before the data region.
    DataBeforeRegion { ino: u64, name: String, offset: u64 },
    /// A file's data runs past the end of the disk.
    DataBeyondDisk { ino: u64, name: String, end: u64, disk_size: u64 },
    /// A live inode uses a reserved inode number.
    ReservedIno { ino: u64, name: String },
    /// Zeroing an orphaned slot failed.
    RepairFailed { slot: usize },
    /// The free list disagrees with the space the inodes leave free.
    FreeListStale { current: u64, expected: u64 },
    /// The rebuilt free list could not be written.
    FreeListNotPersisted,
    /// The superblock does not carry the file system's magic number.
    BadMagic { found: u64 },
    /// The superblock names a block size other than 4096.
    UnusualBlockSize { block_size: u32 },
    /// The superblock's data cursor points before the data region.
    NextOffsetBeforeData { offset: u64 },
    /// The repaired superblock could not be written.
    SuperblockNotRepaired,
    /// A used snapshot slot holds no displayable name.
    SnapshotNameMissing { slot: usize },
    /// A snapshot slot could not be read back.
    SnapshotUnreadable { slot: usize },
}

/// A finding with its names taken as text.
pub enum FindingView {
    InodeUnreadable { slot: usize },
    Orphaned { slot: usize },
    DuplicateName { name: Seq<char>, first: usize, second: usize },
    DuplicateNameIn { name: Seq<char>, parent: u64, first: usize, second: usize },
    DuplicateIno { ino: u64, first: usize, second: usize },
    DataBeforeRegion { ino: u64, name: Seq<char>, offset: u64 },
    DataBeyondDisk { ino: u64, name: Seq<char>, end: u64, disk_size: u64 },
    ReservedIno { ino: u64, name: Seq<char> },
    RepairFailed { slot: usize },
    FreeListStale { current: u64, expected: u64 },
    FreeListNotPersisted,
    BadMagic { found: u64 },
    UnusualBlockSize { block_size: u32 },
    NextOffsetBeforeData { offset: u64 },
    SuperblockNotRepaired,
    SnapshotNameMissing { slot: usize },
    SnapshotUnreadable { slot: usize },
}

impl View for Finding {
    type V = FindingView;

    open spec fn view(&self) -> FindingView {
        match self {
            Finding::InodeUnreadable { slot } => FindingView::InodeUnreadable { slot: *slot },
            Finding::Orphaned { slot } => FindingView::Orphaned { slot: *slot },
            Finding::DuplicateName { name, first, second } => FindingView::DuplicateName {
                name: name@,
                first: *first,
                second: *second,
            },
            Finding::DuplicateNameIn { name, parent, first, second } => FindingView::DuplicateNameIn {
                name: name@,
                parent: *parent,
                first: *first,
                second: *second,
            },
            Finding::DuplicateIno { ino, first, second } => FindingView::DuplicateIno {
                ino: *ino,
                first: *first,
                second: *second,
            },
            Finding::DataBeforeRegion { ino, name, offset } => FindingView::DataBeforeRegion {
                ino: *ino,
                name: name@,
                offset: *offset,
            },
            Finding::DataBeyondDisk { ino, name, end, disk_size } => FindingView::DataBeyondDisk {
                ino: *ino,
                name: name@,
                end: *end,
                disk_size: *disk_size,
            },
            Finding::ReservedIno { ino, name } => FindingView::ReservedIno { ino: *ino, name: name@ },
            Finding::RepairFailed { slot } => FindingView::RepairFailed { slot: *slot },
            Finding::FreeListStale { current, expected } => FindingView::FreeListStale {
                current: *current,
                expected: *expected,
            },
            Finding::FreeListNotPersisted => FindingView::FreeListNotPersisted,
            Finding::BadMagic { found } => FindingView::BadMagic { found: *found },
            Finding::UnusualBlockSize { block_size } => FindingView::UnusualBlockSize {
                block_size: *block_size,
            },
            Finding::NextOffsetBeforeData { offset } => FindingView::NextOffsetBeforeData {
                offset: *offset,
            },
            Finding::SuperblockNotRepaired => FindingView::SuperblockNotRepaired,
            Finding::SnapshotNameMissing { slot } => FindingView::SnapshotNameMissing { slot: *slot },
            Finding::SnapshotUnreadable { slot } => FindingView::SnapshotUnreadable { slot: *slot },
        }
    }
}

/// What a check has gathered so far.
pub struct FsckState {
    pub disk_size: u64,
    pub total_inodes: nat,
    pub valid_inodes: nat,
    pub corrupt_inodes: nat,
    pub orphaned_inodes: nat,
    pub duplicate_names: nat,
    pub duplicate_inos: nat,
    pub bad_data_offsets: nat,
    pub free_list_stale: bool,
    pub valid_snapshots: nat,
    pub corrupt_snapshots: nat,
    pub errors: Seq<FindingView>,
    pub warnings: Seq<FindingView>,
    /// `(offset, length)` of the data of each live inode that lies on the disk.
    pub used_extents: Seq<(u64, u64)>,
    /// Name and slot of each live inode, in table order.
    pub names: Seq<(Seq<char>, usize)>,
    /// Inode number and slot of each live inode, in table order.
    pub inos: Seq<(u64, usize)>,
}

/// The state of a check that has seen nothing yet.
pub open spec fn fresh_state(disk_size: u64) -> FsckState {
    FsckState {
        disk_size,
        total_inodes: 0,
        valid_inodes: 0,
        corrupt_inodes: 0,
        orphaned_inodes: 0,
        duplicate_names: 0,
        duplicate_inos: 0,
        bad_data_offsets: 0,
        free_list_stale: false,
        valid_snapshots: 0,
        corrupt_snapshots: 0,
        errors: Seq::empty(),
        warnings: Seq::empty(),
        used_extents: Seq::empty(),
        names: Seq::empty(),
        inos: Seq::empty(),
    }
}

/// The slot of the last entry of `seen` keyed `key`, if any.
pub open spec fn last_slot<K>(seen: Seq<(K, usize)>, key: K) -> Option<usize>
    decreases seen.len(),
{
    if seen.len() == 0 {
        None
    } else if seen.last().0 == key {
        Some(seen.last().1)
    } else {
        last_slot(seen.drop_last(), key)
    }
}

/// Record a live inode's name, flagging it when an earlier live inode had it.
pub open spec fn note_name(m: FsckState, slot: usize, name: Seq<char>) -> FsckState {
    let m2 = match last_slot(m.names, name) {
        Some(first) => FsckState {
            duplicate_names: m.duplicate_names + 1,
            errors: m.errors.push(FindingView::DuplicateName { name, first, second: slot }),
            ..m
        },
        None => m,
    };
    FsckState { names: m2.names.push((name, slot)), ..m2 }
}

/// Record a live inode's number, flagging it when an earlier live inode had it.
pub open spec fn note_ino(m: FsckState, slot: usize, ino: u64) -> FsckState {
    let m2 = match last_slot(m.inos, ino) {
        Some(first) => FsckState {
            duplicate_inos: m.duplicate_inos + 1,
            errors: m.errors.push(FindingView::DuplicateIno { ino, first, second: slot }),
            ..m
        },
        None => m,
    };
    FsckState { inos: m2.inos.push((ino, slot)), ..m2 }
}

/// Check where a live inode's data lies.
pub open spec fn note_data(m: FsckState, i: InodeRaw, name: Seq<char>) -> FsckState {
    if i.size == 0 {
        m
    } else if i.data_offset < DATA_OFFSET {
        FsckState {
            bad_data_offsets: m.bad_data_offsets + 1,
            errors: m.errors.push(
                FindingView::DataBeforeRegion { ino: i.ino, name, offset: i.data_offset },
            ),
            ..m
        }
    } else if i.data_offset + i.size > m.disk_size {
        FsckState {
            bad_data_offsets: m.bad_data_offsets + 1,
            errors: m.errors.push(
                FindingView::DataBeyondDisk {
                    ino: i.ino,
                    name,
                    end: (i.data_offset + i.size) as u64,
                    disk_size: m.disk_size,
                },
            ),
            ..m
        }
    } else {
        FsckState { used_extents: m.used_extents.push((i.data_offset, i.size)), ..m }
    }
}

/// Warn about a live inode with a reserved number.
pub open spec fn note_reserved(m: FsckState, i: InodeRaw, name: Seq<char>) -> FsckState {
    if i.ino < 2 {
        FsckState { warnings: m.warnings.push(FindingView::ReservedIno { ino: i.ino, name }), ..m }
    } else {
        m
    }
}

/// What a live inode (used, with a displayable name) adds to a check.
pub open spec fn live_inode_step(m: FsckState, slot: usize, i: InodeRaw, name: Seq<char>) -> FsckState {
    let counted = FsckState { valid_inodes: m.valid_inodes + 1, ..m };
    note_reserved(note_data(note_ino(note_name(counted, slot, name), slot, i.ino), i, name), i, name)
}

/// What inode slot `slot` adds to a check; `None` when it could not be read.
pub open spec fn inode_step(m: FsckState, slot: usize, read: Option<InodeRaw>) -> FsckState {
    let m = FsckState { total_inodes: m.total_inodes + 1, ..m };
    match read {
        None => FsckState {
            corrupt_inodes: m.corrupt_inodes + 1,
            errors: m.errors.push(FindingView::InodeUnreadable { slot }),
            ..m
        },
        Some(i) => if i.is_used == 0 {
            m
        } else if displayed_name(i.name@).len() == 0 {
            FsckState {
                orphaned_inodes: m.orphaned_inodes + 1,
                warnings: m.warnings.push(FindingView::Orphaned { slot }),
                ..m
            }
        } else {
            live_inode_step(m, slot, i, displayed_name(i.name@))
        },
    }
}

/// The key a name is checked under when duplicates count per directory:
/// the parent directory's number in decimal, `:`, then the name.
pub open spec fn scoped_key(parent: u64, name: Seq<char>) -> Seq<char> {
    decimal(parent as nat) + seq![':'] + name
}

/// Record a live inode's name within its parent directory, flagging it when
/// an earlier live inode had it in the same directory.
pub open spec fn note_name_in(m: FsckState, slot: usize, name: Seq<char>, parent: u64) -> FsckState {
    let key = scoped_key(parent, name);
    let m2 = match last_slot(m.names, key) {
        Some(first) => FsckState {
            duplicate_names: m.duplicate_names + 1,
            errors: m.errors.push(FindingView::DuplicateNameIn { name, parent, first, second: slot }),
            ..m
        },
        None => m,
    };
    FsckState { names: m2.names.push((key, slot)), ..m2 }
}

/// What a live inode in directory `parent` adds to a check whose duplicate
/// names count per directory.
pub open spec fn live_inode_step_in(m: FsckState, slot: usize, i: InodeRaw, name: Seq<char>, parent: u64) -> FsckState {
    let counted = FsckState { valid_inodes: m.valid_inodes + 1, ..m };
    note_reserved(note_data(note_ino(note_name_in(counted, slot, name, parent), slot, i.ino), i, name), i, name)
}

/// What inode slot `slot`, in directory `parent`, adds to a check whose
/// duplicate names count per directory.
pub open spec fn inode_step_in(m: FsckState, slot: usize, read: Option<InodeRaw>, parent: u64) -> FsckState {
    let m = FsckState { total_inodes: m.total_inodes + 1, ..m };
    match read {
        None => FsckState {
            corrupt_inodes: m.corrupt_inodes + 1,
            errors: m.errors.push(FindingView::InodeUnreadable { slot }),
            ..m
        },
        Some(i) => if i.is_used == 0 {
            m
        } else if displayed_name(i.name@).len() == 0 {
            FsckState {
                orphaned_inodes: m.orphaned_inodes + 1,
                warnings: m.warnings.push(FindingView::Orphaned { slot }),
                ..m
            }
        } else {
            live_inode_step_in(m, slot, i, displayed_name(i.name@), parent)
        },
    }
}

/// The slot holds a used inode whose name is not displayable.
pub open spec fn is_orphaned(read: Option<InodeRaw>) -> bool {
    match read {
        Some(i) => i.is_used != 0 && displayed_name(i.name@).len() == 0,
        None => false,
    }
}

/// `x` read as a two's-complement 64-bit integer.
pub open spec fn as_signed(x: u64) -> int {
    if x < 0x8000_0000_0000_0000 {
        x as int
    } else {
        x - 0x1_0000_0000_0000_0000
    }
}

/// How far the free list's count is from the count the inodes leave, both
/// read as signed 64-bit integers.
pub open spec fn free_drift(current: u64, expected: u64) -> int {
    as_signed(current) - as_signed(expected)
}

/// The drift and its magnitude are signed 64-bit integers.
pub open spec fn drift_in_range(current: u64, expected: u64) -> bool {
    i64::MIN < free_drift(current, expected) <= i64::MAX
}

/// The free list counts more than a block away from what the inodes leave.
pub open spec fn free_list_off(current: u64, expected: u64) -> bool {
    let d = free_drift(current, expected);
    d > 4096 || d < -4096
}

/// What comparing the free list's count with the expected count adds.
pub open spec fn free_list_step(m: FsckState, current: u64, expected: u64) -> FsckState {
    if free_list_off(current, expected) {
        FsckState {
            free_list_stale: true,
            warnings: m.warnings.push(FindingView::FreeListStale { current, expected }),
            ..m
        }
    } else {
        m
    }
}

/// What the superblock adds to a check.
pub open spec fn superblock_step(m: FsckState, sb: SuperblockRaw) -> FsckState {
    let errors1 = if sb.magic != MAGIC {
        m.errors.push(FindingView::BadMagic { found: sb.magic })
    } else {
        m.errors
    };
    let warnings = if sb.block_size != 4096 {
        m.warnings.push(FindingView::UnusualBlockSize { block_size: sb.block_size })
    } else {
        m.warnings
    };
    let errors = if sb.next_data_offset < DATA_OFFSET {
        errors1.push(FindingView::NextOffsetBeforeData { offset: sb.next_data_offset })
    } else {
        errors1
    };
    FsckState { errors, warnings, ..m }
}

/// What snapshot slot `slot` adds to a check; `None` when it could not be read.
pub open spec fn snapshot_step(m: FsckState, slot: usize, read: Option<SnapshotRaw>) -> FsckState {
    match read {
        None => FsckState {
            corrupt_snapshots: m.corrupt_snapshots + 1,
            warnings: m.warnings.push(FindingView::SnapshotUnreadable { slot }),
            ..m
        },
        Some(s) => if s.is_used != 1 {
            m
        } else if displayed_name(s.name@).len() == 0 {
            FsckState {
                corrupt_snapshots: m.corrupt_snapshots + 1,
                warnings: m.warnings.push(FindingView::SnapshotNameMissing { slot }),
                ..m
            }
        } else {
            FsckState { valid_snapshots: m.valid_snapshots + 1, ..m }
        },
    }
}

/// The exit status of a check: 0 when it found no error, 1 when it found
/// errors and tried repairs, 2 when it found errors and repaired nothing.
pub open spec fn exit_status(m: FsckState, repair: bool) -> u8 {
    if m.errors.len() == 0 {
        0
    } else if repair {
        1
    } else {
        2
    }
}

/// The end of a live inode's data is a u64.
pub open spec fn data_end_fits(read: Option<InodeRaw>) -> bool {
    match read {
        Some(i) => (i.is_used != 0 && displayed_name(i.name@).len() > 0 && i.size > 0) ==> i.data_offset
            + i.size <= u64::MAX,
        None => true,
    }
}

/// The names of `seen` taken as text.
pub open spec fn names_view(seen: Seq<(String, usize)>) -> Seq<(Seq<char>, usize)> {
    Seq::new(seen.len(), |k: int| (seen[k].0@, seen[k].1))
}

/// The findings of `fs` taken as text.
pub open spec fn findings_view(fs: Seq<Finding>) -> Seq<FindingView> {
    Seq::new(fs.len(), |k: int| fs[k]@)
}

/// The checker's report, filled in as the caller hands it the image's records.
pub struct FsckReport {
    disk_size: u64,
    total_inodes: usize,
    valid_inodes: usize,
    corrupt_inodes: usize,
    orphaned_inodes: usize,
    duplicate_names: usize,
    duplicate_inos: usize,
    bad_data_offsets: usize,
    free_list_stale: bool,
    valid_snapshots: usize,
    corrupt_snapshots: usize,
    errors: Vec<Finding>,
    warnings: Vec<Finding>,
    used_extents: Vec<(u64, u64)>,
    names: Vec<(String, usize)>,
    inos: Vec<(u64, usize)>,
}

impl View for FsckReport {
    type V = FsckState;

    closed spec fn view(&self) -> FsckState {
        FsckState {
            disk_size: self.disk_size,
            total_inodes: self.total_inodes as nat,
            valid_inodes: self.valid_inodes as nat,
            corrupt_inodes: self.corrupt_inodes as nat,
            orphaned_inodes: self.orphaned_inodes as nat,
            duplicate_names: self.duplicate_names as nat,
            duplicate_inos: self.duplicate_inos as nat,
            bad_data_offsets: self.bad_data_offsets as nat,
            free_list_stale: self.free_list_stale,
            valid_snapshots: self.valid_snapshots as nat,
            corrupt_snapshots: self.corrupt_snapshots as nat,
            errors: findings_view(self.errors@),
            warnings: findings_view(self.warnings@),
            used_extents: self.used_extents@,
            names: names_view(self.names@),
            inos: self.inos@,
        }
    }
}

/// The counts a check keeps stay within what it has seen, and every extent it
/// keeps lies within the data region of the disk.
pub open spec fn state_wf(m: FsckState) -> bool {
    &&& m.valid_inodes + m.corrupt_inodes + m.orphaned_inodes <= m.total_inodes
    &&& m.duplicate_names <= m.valid_inodes
    &&& m.duplicate_inos <= m.valid_inodes
    &&& m.bad_data_offsets <= m.valid_inodes
    &&& forall|k: int| 0 <= k < m.used_extents.len() ==> {
        &&& DATA_OFFSET <= (#[trigger] m.used_extents[k]).0
        &&& m.used_extents[k].0 + m.used_extents[k].1 <= m.disk_size
    }
}

fn last_name_slot(seen: &Vec<(String, usize)>, name: &String) -> (r: Option<usize>)
    ensures
        r == last_slot(names_view(seen@), name@),
{
    let mut k: usize = seen.len();
    proof {
        assert(names_view(seen@).subrange(0, k as int) =~= names_view(seen@));
    }
    while k > 0
        invariant
            k <= seen@.len(),
            last_slot(names_view(seen@), name@) == last_slot(names_view(seen@).subrange(0, k as int), name@),
        decreases k,
    {
        let ghost prefix = names_view(seen@).subrange(0, k as int);
        if seen[k - 1].0 == *name {
            assert(prefix.last() == (seen@[k - 1].0@, seen@[k - 1].1));
            return Some(seen[k - 1].1);
        }
        assert(prefix.drop_last() =~= names_view(seen@).subrange(0, k - 1));
        k = k - 1;
    }
    None
}

fn last_ino_slot(seen: &Vec<(u64, usize)>, ino: u64) -> (r: Option<usize>)
    ensures
        r == last_slot(seen@, ino),
{
    let mut k: usize = seen.len();
    proof {
        assert(seen@.subrange(0, k as int) =~= seen@);
    }
    while k > 0
        invariant
            k <= seen@.len(),
            last_slot(seen@, ino) == last_slot(seen@.subrange(0, k as int), ino),
        decreases k,
    {
        let ghost prefix = seen@.subrange(0, k as int);
        if seen[k - 1].0 == ino {
            return Some(seen[k - 1].1);
        }
        assert(prefix.drop_last() =~= seen@.subrange(0, k - 1));
        k = k - 1;
    }
    None
}

proof fn lemma_findings_push(fs: Seq<Finding>, f: Finding)
    ensures
        findings_view(fs.push(f)) == findings_view(fs).push(f@),
{
    assert(findings_view(fs.push(f)) =~= findings_view(fs).push(f@));
}

proof fn lemma_names_push(seen: Seq<(String, usize)>, name: String, slot: usize)
    ensures
        names_view(seen.push((name, slot))) == names_view(seen).push((name@, slot)),
{
    assert(names_view(seen.push((name, slot))) =~= names_view(seen).push((name@, slot)));
}

impl FsckReport {
    /// The report's invariant.
    pub closed spec fn wf(&self) -> bool {
        &&& state_wf(self@)
        &&& self.valid_snapshots + self.corrupt_snapshots <= usize::MAX
    }

    /// An empty report for a disk of `disk_size` bytes.
    pub fn new(disk_size: u64) -> (r: Self)
        ensures
            r.wf(),
            r@ == fresh_state(disk_size),
    {
        let r = FsckReport {
            disk_size,
            total_inodes: 0,
            valid_inodes: 0,
            corrupt_inodes: 0,
            orphaned_inodes: 0,
            duplicate_names: 0,
            duplicate_inos: 0,
            bad_data_offsets: 0,
            free_list_stale: false,
            valid_snapshots: 0,
            corrupt_snapshots: 0,
            errors: Vec::new(),
            warnings: Vec::new(),
            used_extents: Vec::new(),
            names: Vec::new(),
            inos: Vec::new(),
        };
        assert(findings_view(r.errors@) =~= Seq::<FindingView>::empty());
        assert(findings_view(r.warnings@) =~= Seq::<FindingView>::empty());
        assert(names_view(r.names@) =~= Seq::<(Seq<char>, usize)>::empty());
        r
    }

    fn push_error(&mut self, f: Finding)
        ensures
            final(self)@ == (FsckState { errors: old(self)@.errors.push(f@), ..old(self)@ }),
            final(self).valid_snapshots == old(self).valid_snapshots,
            final(self).corrupt_snapshots == old(self).corrupt_snapshots,
    {
        proof {
            lemma_findings_push(self.errors@, f);
        }
        self.errors.push(f);
    }

    fn push_warning(&mut self, f: Finding)
        ensures
            final(self)@ == (FsckState { warnings: old(self)@.warnings.push(f@), ..old(self)@ }),
            final(self).valid_snapshots == old(self).valid_snapshots,
            final(self).corrupt_snapshots == old(self).corrupt_snapshots,
    {
        proof {
            lemma_findings_push(self.warnings@, f);
        }
        self.warnings.push(f);
    }

    fn note_name_exec(&mut self, slot: usize, name: String)
        requires
            old(self).duplicate_names < old(self).valid_inodes,
        ensures
            final(self)@ == note_name(old(self)@, slot, name@),
            final(self).valid_snapshots == old(self).valid_snapshots,
            final(self).corrupt_snapshots == old(self).corrupt_snapshots,
            final(self).duplicate_names <= old(self).duplicate_names + 1,
    {
        match last_name_slot(&self.names, &name) {
            Some(first) => {
                self.duplicate_names = self.duplicate_names + 1;
                self.push_error(Finding::DuplicateName { name: name.clone(), first, second: slot });
            },
            None => {},
        }
        proof {
            lemma_names_push(self.names@, name, slot);
        }
        self.names.push((name, slot));
    }

    fn note_name_in_exec(&mut self, slot: usize, name: String, parent: u64)
        requires
            old(self).duplicate_names < old(self).valid_inodes,
        ensures
            final(self)@ == note_name_in(old(self)@, slot, name@, parent),
            final(self).valid_snapshots == old(self).valid_snapshots,
            final(self).corrupt_snapshots == old(self).corrupt_snapshots,
            final(self).duplicate_names <= old(self).duplicate_names + 1,
    {
        let mut key = decimal_with_suffix(parent, ":");
        key.append(name.as_str());
        proof {
            reveal_strlit(":");
            assert(key@ =~= scoped_key(parent, name@));
        }
        match last_name_slot(&self.names, &key) {
            Some(first) => {
                self.duplicate_names = self.duplicate_names + 1;
                self.push_error(Finding::DuplicateNameIn { name, parent, first, second: slot });
            },
            None => {},
        }
        proof {
            lemma_names_push(self.names@, key, slot);
        }
        self.names.push((key, slot));
    }

    fn note_ino_exec(&mut self, slot: usize, ino: u64)
        requires
            old(self).duplicate_inos < old(self).valid_inodes,
        ensures
            final(self)@ == note_ino(old(self)@, slot, ino),
            final(self).valid_snapshots == old(self).valid_snapshots,
            final(self).corrupt_snapshots == old(self).corrupt_snapshots,
            final(self).duplicate_inos <= old(self).duplicate_inos + 1,
    {
        match last_ino_slot(&self.inos, ino) {
            Some(first) => {
                self.duplicate_inos = self.duplicate_inos + 1;
                self.push_error(Finding::DuplicateIno { ino, first, second: slot });
            },
            None => {},
        }
        self.inos.push((ino, slot));
    }

    fn note_data_exec(&mut self, inode: &InodeRaw, name: &String)
        requires
            old(self).bad_data_offsets < old(self).valid_inodes,
            inode.size > 0 ==> inode.data_offset + inode.size <= u64::MAX,
        ensures
            final(self)@ == note_data(old(self)@, *inode, name@),
            final(self).valid_snapshots == old(self).valid_snapshots,
            final(self).corrupt_snapshots == old(self).corrupt_snapshots,
    {
        if inode.size == 0 {
            return;
        }
        let end = inode.data_offset + inode.size;
        if inode.data_offset < DATA_OFFSET {
            self.bad_data_offsets = self.bad_data_offsets + 1;
            self.push_error(
                Finding::DataBeforeRegion { ino: inode.ino, name: name.clone(), offset: inode.data_offset },
            );
        } else if end > self.disk_size {
            self.bad_data_offsets = self.bad_data_offsets + 1;
            let disk_size = self.disk_size;
            self.push_error(
                Finding::DataBeyondDisk { ino: inode.ino, name: name.clone(), end, disk_size },
            );
        } else {
            self.used_extents.push((inode.data_offset, inode.size));
        }
    }

    fn note_reserved_exec(&mut self, inode: &InodeRaw, name: String)
        ensures
            final(self)@ == note_reserved(old(self)@, *inode, name@),
            final(self).valid_snapshots == old(self).valid_snapshots,
            final(self).corrupt_snapshots == old(self).corrupt_snapshots,
    {
        if inode.ino < 2 {
            self.push_warning(Finding::ReservedIno { ino: inode.ino, name });
        }
    }

    /// Take in inode slot `slot`, or `None` when it could not be read back.
    /// Returns whether the slot is an orphan, which a repair zeroes.
    pub fn visit_inode(&mut self, slot: usize, read: Option<InodeRaw>) -> (orphan: bool)
        requires
            old(self).wf(),
            old(self)@.total_inodes < usize::MAX,
            data_end_fits(read),
        ensures
            final(self).wf(),
            final(self)@ == inode_step(old(self)@, slot, read),
            orphan == is_orphaned(read),
    {
        self.total_inodes = self.total_inodes + 1;
        match read {
            None => {
                self.corrupt_inodes = self.corrupt_inodes + 1;
                self.push_error(Finding::InodeUnreadable { slot });
                false
            },
            Some(inode) => {
                if inode.is_used == 0 {
                    return false;
                }
                let name = inode.get_name();
                if name.as_str().is_empty() {
                    self.orphaned_inodes = self.orphaned_inodes + 1;
                    self.push_warning(Finding::Orphaned { slot });
                    return true;
                }
                self.valid_inodes = self.valid_inodes + 1;
                let ghost counted = self@;
                self.note_name_exec(slot, name.clone());
                self.note_ino_exec(slot, inode.ino);
                self.note_data_exec(&inode, &name);
                self.note_reserved_exec(&inode, name);
                proof {
                    let start = FsckState { total_inodes: old(self)@.total_inodes + 1, ..old(self)@ };
                    assert(counted == FsckState { valid_inodes: start.valid_inodes + 1, ..start });
                    assert(self@ == live_inode_step(start, slot, inode, displayed_name(inode.name@)));
                }
                false
            },
        }
    }
    /// Take in inode slot `slot` of directory `parent`, or `None` when it
    /// could not be read back, with duplicate names counted per directory.
    /// Returns whether the slot is an orphan, which a repair zeroes.
    pub fn visit_inode_in(&mut self, slot: usize, read: Option<InodeRaw>, parent: u64) -> (orphan: bool)
        requires
            old(self).wf(),
            old(self)@.total_inodes < usize::MAX,
            data_end_fits(read),
        ensures
            final(self).wf(),
            final(self)@ == inode_step_in(old(self)@, slot, read, parent),
            orphan == is_orphaned(read),
    {
        self.total_inodes = self.total_inodes + 1;
        match read {
            None => {
                self.corrupt_inodes = self.corrupt_inodes + 1;
                self.push_error(Finding::InodeUnreadable { slot });
                false
            },
            Some(inode) => {
                if inode.is_used == 0 {
                    return false;
                }
                let name = inode.get_name();
                if name.as_str().is_empty() {
                    self.orphaned_inodes = self.orphaned_inodes + 1;
                    self.push_warning(Finding::Orphaned { slot });
                    return true;
                }
                self.valid_inodes = self.valid_inodes + 1;
                let ghost counted = self@;
                self.note_name_in_exec(slot, name.clone(), parent);
                self.note_ino_exec(slot, inode.ino);
                self.note_data_exec(&inode, &name);
                self.note_reserved_exec(&inode, name);
                proof {
                    let start = FsckState { total_inodes: old(self)@.total_inodes + 1, ..old(self)@ };
                    assert(counted == FsckState { valid_inodes: start.valid_inodes + 1, ..start });
                    assert(self@ == live_inode_step_in(start, slot, inode, displayed_name(inode.name@), parent));
                }
                false
            },
        }
    }
    /// Compare the free list's free byte count with the count a list rebuilt
    /// from the live inodes gives. Returns whether the list is stale.
    pub fn check_free_list(&mut self, current_free: u64, expected_free: u64) -> (stale: bool)
        requires
            old(self).wf(),
            drift_in_range(current_free, expected_free),
        ensures
            final(self).wf(),
            final(self)@ == free_list_step(old(self)@, current_free, expected_free),
            stale == free_list_off(current_free, expected_free),
    {
        let c: i128 = if current_free < 0x8000_0000_0000_0000 {
            current_free as i128
        } else {
            current_free as i128 - 0x1_0000_0000_0000_0000
        };
        let e: i128 = if expected_free < 0x8000_0000_0000_0000 {
            expected_free as i128
        } else {
            expected_free as i128 - 0x1_0000_0000_0000_0000
        };
        let d = c - e;
        let stale = d > 4096 || d < -4096;
        if stale {
            self.free_list_stale = true;
            self.push_warning(Finding::FreeListStale { current: current_free, expected: expected_free });
        }
        assert(self@.used_extents == old(self)@.used_extents);
        stale
    }

    /// Check the superblock. Returns whether its data cursor needs the repair
    /// that moves it to the start of the data region.
    pub fn check_superblock(&mut self, sb: &SuperblockRaw) -> (fix_cursor: bool)
        requires
            old(self).wf(),
        ensures
            final(self).wf(),
            final(self)@ == superblock_step(old(self)@, *sb),
            fix_cursor == (sb.next_data_offset < DATA_OFFSET),
    {
        let ghost start = self@;
        if sb.magic != MAGIC {
            self.push_error(Finding::BadMagic { found: sb.magic });
        }
        if sb.block_size != 4096 {
            self.push_warning(Finding::UnusualBlockSize { block_size: sb.block_size });
        }
        let fix_cursor = sb.next_data_offset < DATA_OFFSET;
        if fix_cursor {
            self.push_error(Finding::NextOffsetBeforeData { offset: sb.next_data_offset });
        }
        assert(self@ == superblock_step(start, *sb));
        fix_cursor
    }

    /// Take in snapshot slot `slot`, or `None` when it could not be read back.
    pub fn visit_snapshot(&mut self, slot: usize, read: Option<SnapshotRaw>)
        requires
            old(self).wf(),
            old(self)@.valid_snapshots + old(self)@.corrupt_snapshots < usize::MAX,
        ensures
            final(self).wf(),
            final(self)@ == snapshot_step(old(self)@, slot, read),
    {
        match read {
            None => {
                self.corrupt_snapshots = self.corrupt_snapshots + 1;
                self.push_warning(Finding::SnapshotUnreadable { slot });
            },
            Some(snap) => {
                if snap.is_used == 1 {
                    let name = snap.get_name();
                    if name.as_str().is_empty() {
                        self.corrupt_snapshots = self.corrupt_snapshots + 1;
                        self.push_warning(Finding::SnapshotNameMissing { slot });
                    } else {
                        self.valid_snapshots = self.valid_snapshots + 1;
                    }
                }
            },
        }
        assert(self@.used_extents == old(self)@.used_extents);
    }

    /// Note that zeroing orphaned slot `slot` failed.
    pub fn zeroing_failed(&mut self, slot: usize)
        requires
            old(self).wf(),
        ensures
            final(self).wf(),
            final(self)@ == (FsckState {
                errors: old(self)@.errors.push(FindingView::RepairFailed { slot }),
                ..old(self)@
            }),
    {
        self.push_error(Finding::RepairFailed { slot });
    }

    /// Note that writing the rebuilt free list failed.
    pub fn free_list_not_persisted(&mut self)
        requires
            old(self).wf(),
        ensures
            final(self).wf(),
            final(self)@ == (FsckState {
                errors: old(self)@.errors.push(FindingView::FreeListNotPersisted),
                ..old(self)@
            }),
    {
        self.push_error(Finding::FreeListNotPersisted);
    }

    /// Note that writing the repaired superblock failed.
    pub fn superblock_not_repaired(&mut self)
        requires
            old(self).wf(),
        ensures
            final(self).wf(),
            final(self)@ == (FsckState {
                errors: old(self)@.errors.push(FindingView::SuperblockNotRepaired),
                ..old(self)@
            }),
    {
        self.push_error(Finding::SuperblockNotRepaired);
    }

    /// No error was found.
    pub fn is_clean(&self) -> (r: bool)
        ensures
            r == (self@.errors.len() == 0),
    {
        self.errors.len() == 0
    }

    /// The exit status for the check, `repair` telling whether repairs were on.
    pub fn exit_code(&self, repair: bool) -> (r: u8)
        ensures
            r == exit_status(self@, repair),
    {
        if self.errors.len() == 0 {
            0
        } else if repair {
            1
        } else {
            2
        }
    }

    /// The extents of live data found on the disk, which a rebuilt free list
    /// leaves out.
    pub fn used_extents(&self) -> (r: &[(u64, u64)])
        requires
            self.wf(),
        ensures
            r@ == self@.used_extents,
            used_ends_fit(r@),
    {
        proof {
            assert forall|i: int| 0 <= i < self.used_extents@.len() implies (#[trigger] self.used_extents@[i]).0
                + self.used_extents@[i].1 <= u64::MAX by {
                assert(self@.used_extents[i] == self.used_extents@[i]);
            }
        }
        self.used_extents.as_slice()
    }

    pub fn errors(&self) -> (r: &[Finding])
        ensures
            findings_view(r@) == self@.errors,
    {
        self.errors.as_slice()
    }

    pub fn warnings(&self) -> (r: &[Finding])
        ensures
            findings_view(r@) == self@.warnings,
    {
        self.warnings.as_slice()
    }

    pub fn disk_size(&self) -> (r: u64)
        ensures
            r == self@.disk_size,
    {
        self.disk_size
    }

    pub fn total_inodes(&self) -> (r: usize)
        ensures
            r == self@.total_inodes,
    {
        self.total_inodes
    }

    pub fn valid_inodes(&self) -> (r: usize)
        ensures
            r == self@.valid_inodes,
    {
        self.valid_inodes
    }

    pub fn corrupt_inodes(&self) -> (r: usize)
        ensures
            r == self@.corrupt_inodes,
    {
        self.corrupt_inodes
    }

    pub fn orphaned_inodes(&self) -> (r: usize)
        ensures
            r == self@.orphaned_inodes,
    {
        self.orphaned_inodes
    }

    pub fn duplicate_names(&self) -> (r: usize)
        ensures
            r == self@.duplicate_names,
    {
        self.duplicate_names
    }

    pub fn duplicate_inos(&self) -> (r: usize)
        ensures
            r == self@.duplicate_inos,
    {
        self.duplicate_inos
    }

    pub fn bad_data_offsets(&self) -> (r: usize)
        ensures
            r == self@.bad_data_offsets,
    {
        self.bad_data_offsets
    }

    pub fn free_list_stale(&self) -> (r: bool)
        ensures
            r == self@.free_list_stale,
    {
        self.free_list_stale
    }

    pub fn valid_snapshots(&self) -> (r: usize)
        ensures
            r == self@.valid_snapshots,
    {
        self.valid_snapshots
    }

    pub fn corrupt_snapshots(&self) -> (r: usize)
        ensures
            r == self@.corrupt_snapshots,
    {
        self.corrupt_snapshots
    }
}

} // verus!
verus! {

// ── What a whole scan of the inode table concludes ──────────────────────────

/// The state of a check of a disk of `disk_size` bytes after it was handed
/// the inode slots `reads`, slot `k` being `reads[k]`.
pub open spec fn scan_inodes(disk_size: u64, reads: Seq<Option<InodeRaw>>) -> FsckState
    decreases reads.len(),
{
    if reads.len() == 0 {
        fresh_state(disk_size)
    } else {
        inode_step(scan_inodes(disk_size, reads.drop_last()), (reads.len() - 1) as usize, reads.last())
    }
}

/// The name of a live inode: used, with a displayable name.
pub open spec fn live_name(read: Option<InodeRaw>) -> Option<Seq<char>> {
    match read {
        Some(i) => if i.is_used != 0 && displayed_name(i.name@).len() > 0 {
            Some(displayed_name(i.name@))
        } else {
            None
        },
        None => None,
    }
}

/// The inode number of a live inode.
pub open spec fn live_ino(read: Option<InodeRaw>) -> Option<u64> {
    match read {
        Some(i) => if live_name(read) is Some {
            Some(i.ino)
        } else {
            None
        },
        None => None,
    }
}

/// How many entries of `seen` repeat the key of an earlier entry.
pub open spec fn count_repeats<K>(seen: Seq<(K, usize)>) -> nat
    decreases seen.len(),
{
    if seen.len() == 0 {
        0
    } else {
        count_repeats(seen.drop_last()) + if last_slot(seen.drop_last(), seen.last().0) is Some {
            1nat
        } else {
            0nat
        }
    }
}

proof fn lemma_last_slot<K>(seen: Seq<(K, usize)>, key: K)
    ensures
        last_slot(seen, key) is Some <==> exists|j: int| 0 <= j < seen.len() && (#[trigger] seen[j]).0 == key,
    decreases seen.len(),
{
    if seen.len() > 0 {
        let t = seen.drop_last();
        lemma_last_slot(t, key);
        if exists|j: int| 0 <= j < t.len() && (#[trigger] t[j]).0 == key {
            let j = choose|j: int| 0 <= j < t.len() && (#[trigger] t[j]).0 == key;
            assert(seen[j] == t[j]);
        }
        if exists|j: int| 0 <= j < seen.len() && (#[trigger] seen[j]).0 == key {
            let j = choose|j: int| 0 <= j < seen.len() && (#[trigger] seen[j]).0 == key;
            if j < seen.len() - 1 {
                assert(t[j] == seen[j]);
            }
        }
    }
}

proof fn lemma_count_repeats<K>(seen: Seq<(K, usize)>)
    ensures
        count_repeats(seen) == 0 <==> forall|i: int, j: int| 0 <= i < j < seen.len() ==> (#[trigger] seen[i]).0
            != (#[trigger] seen[j]).0,
    decreases seen.len(),
{
    if seen.len() > 0 {
        let t = seen.drop_last();
        lemma_count_repeats(t);
        lemma_last_slot(t, seen.last().0);
        if count_repeats(seen) == 0 {
            assert forall|i: int, j: int| 0 <= i < j < seen.len() implies (#[trigger] seen[i]).0 != (
            #[trigger] seen[j]).0 by {
                if j < seen.len() - 1 {
                    assert(seen[i] == t[i] && seen[j] == t[j]);
                } else {
                    assert(seen[i] == t[i]);
                }
            }
        } else {
            if count_repeats(t) == 0 {
                let j = choose|j: int| 0 <= j < t.len() && (#[trigger] t[j]).0 == seen.last().0;
                assert(seen[j] == t[j]);
                assert(seen[j].0 == seen[seen.len() - 1].0);
            } else {
                let (i, j) = choose|i: int, j: int| 0 <= i < j < t.len() && (#[trigger] t[i]).0 == (#[trigger] t[j]).0;
                assert(seen[i] == t[i] && seen[j] == t[j]);
            }
        }
    }
}

/// The names and numbers a scan records are those of the live slots, in
/// slot order, and its duplicate counts count the repeats among them.
proof fn lemma_scan_records(disk_size: u64, reads: Seq<Option<InodeRaw>>)
    requires
        reads.len() <= usize::MAX + 1,
    ensures
        ({
            let m = scan_inodes(disk_size, reads);
            &&& m.names.len() == m.valid_inodes
            &&& m.inos.len() == m.valid_inodes
            &&& forall|k: int| 0 <= k < m.names.len() ==> {
                &&& (#[trigger] m.names[k]).1 < reads.len()
                &&& live_name(reads[m.names[k].1 as int]) == Some(m.names[k].0)
                &&& m.inos[k].1 == m.names[k].1
                &&& live_ino(reads[m.names[k].1 as int]) == Some(m.inos[k].0)
            }
            &&& forall|k1: int, k2: int| 0 <= k1 < k2 < m.names.len() ==> (#[trigger] m.names[k1]).1 < (
            #[trigger] m.names[k2]).1
            &&& forall|a: int| 0 <= a < reads.len() && (#[trigger] live_name(reads[a])) is Some ==> exists|k: int|
                0 <= k < m.names.len() && (#[trigger] m.names[k]).1 == a
            &&& m.duplicate_names == count_repeats(m.names)
            &&& m.duplicate_inos == count_repeats(m.inos)
        }),
    decreases reads.len(),
{
    if reads.len() > 0 {
        let t = reads.drop_last();
        lemma_scan_records(disk_size, t);
        let p = scan_inodes(disk_size, t);
        let slot = (reads.len() - 1) as usize;
        let m = scan_inodes(disk_size, reads);
        assert(m == inode_step(p, slot, reads.last()));
        assert forall|a: int| 0 <= a < t.len() implies reads[a] == #[trigger] t[a] by {}
        if live_name(reads.last()) is Some {
            let i = reads.last().unwrap();
            let name = displayed_name(i.name@);
            let q = FsckState { valid_inodes: p.valid_inodes + 1, total_inodes: p.total_inodes + 1, ..p };
            let n1 = note_name(q, slot, name);
            let n2 = note_ino(n1, slot, i.ino);
            assert(m == note_reserved(note_data(n2, i, name), i, name));
            assert(m.names == p.names.push((name, slot)));
            assert(m.inos == p.inos.push((i.ino, slot)));
            assert(m.names.drop_last() == p.names);
            assert(m.inos.drop_last() == p.inos);
            assert(m.duplicate_names == count_repeats(m.names));
            assert(m.duplicate_inos == count_repeats(m.inos));
            assert forall|k: int| 0 <= k < m.names.len() implies {
                &&& (#[trigger] m.names[k]).1 < reads.len()
                &&& live_name(reads[m.names[k].1 as int]) == Some(m.names[k].0)
                &&& m.inos[k].1 == m.names[k].1
                &&& live_ino(reads[m.names[k].1 as int]) == Some(m.inos[k].0)
            } by {
                if k < p.names.len() {
                    assert(m.names[k] == p.names[k]);
                    assert(m.inos[k] == p.inos[k]);
                }
            }
            assert forall|a: int| 0 <= a < reads.len() && (#[trigger] live_name(reads[a])) is Some implies exists|
                k: int,
            | 0 <= k < m.names.len() && (#[trigger] m.names[k]).1 == a by {
                if a < t.len() {
                    assert(live_name(t[a]) is Some);
                    let k = choose|k: int| 0 <= k < p.names.len() && (#[trigger] p.names[k]).1 == a;
                    assert(m.names[k] == p.names[k]);
                } else {
                    assert(m.names[m.names.len() - 1].1 == a);
                }
            }
        } else {
            assert(m.names == p.names);
            assert(m.inos == p.inos);
            assert forall|a: int| 0 <= a < reads.len() && (#[trigger] live_name(reads[a])) is Some implies exists|
                k: int,
            | 0 <= k < m.names.len() && (#[trigger] m.names[k]).1 == a by {
                if a < t.len() {
                    assert(live_name(t[a]) is Some);
                }
            }
        }
    }
}

/// A scan of the inode table counts no duplicate name exactly when no two
/// live inodes share a name.
pub proof fn lemma_no_duplicate_names_iff_distinct(disk_size: u64, reads: Seq<Option<InodeRaw>>)
    requires
        reads.len() <= usize::MAX + 1,
    ensures
        scan_inodes(disk_size, reads).duplicate_names == 0 <==> forall|a: int, b: int|
            0 <= a < b < reads.len() && (#[trigger] live_name(reads[a])) is Some && (#[trigger] live_name(
                reads[b],
            )) is Some ==> live_name(reads[a]) != live_name(reads[b]),
{
    lemma_scan_records(disk_size, reads);
    let m = scan_inodes(disk_size, reads);
    lemma_count_repeats(m.names);
    if m.duplicate_names == 0 {
        assert forall|a: int, b: int|
            0 <= a < b < reads.len() && (#[trigger] live_name(reads[a])) is Some && (#[trigger] live_name(
                reads[b],
            )) is Some implies live_name(reads[a]) != live_name(reads[b]) by {
            let ka = choose|k: int| 0 <= k < m.names.len() && (#[trigger] m.names[k]).1 == a;
            let kb = choose|k: int| 0 <= k < m.names.len() && (#[trigger] m.names[k]).1 == b;
            if ka > kb {
                assert(m.names[kb].1 < m.names[ka].1);
            }
            assert(ka != kb);
            if ka < kb {
                assert(m.names[ka].0 != m.names[kb].0);
            } else {
                assert(m.names[kb].0 != m.names[ka].0);
            }
        }
    } else {
        let (i, j) = choose|i: int, j: int| 0 <= i < j < m.names.len() && (#[trigger] m.names[i]).0 == (
        #[trigger] m.names[j]).0;
        let a = m.names[i].1 as int;
        let b = m.names[j].1 as int;
        assert(a < b);
        assert(live_name(reads[a]) == live_name(reads[b]));
    }
}

/// A scan of the inode table counts no duplicate inode number exactly when
/// no two live inodes share a number.
pub proof fn lemma_no_duplicate_inos_iff_distinct(disk_size: u64, reads: Seq<Option<InodeRaw>>)
    requires
        reads.len() <= usize::MAX + 1,
    ensures
        scan_inodes(disk_size, reads).duplicate_inos == 0 <==> forall|a: int, b: int|
            0 <= a < b < reads.len() && (#[trigger] live_ino(reads[a])) is Some && (#[trigger] live_ino(
                reads[b],
            )) is Some ==> live_ino(reads[a]) != live_ino(reads[b]),
{
    lemma_scan_records(disk_size, reads);
    let m = scan_inodes(disk_size, reads);
    lemma_count_repeats(m.inos);
    if m.duplicate_inos == 0 {
        assert forall|a: int, b: int|
            0 <= a < b < reads.len() && (#[trigger] live_ino(reads[a])) is Some && (#[trigger] live_ino(
                reads[b],
            )) is Some implies live_ino(reads[a]) != live_ino(reads[b]) by {
            assert(live_name(reads[a]) is Some && live_name(reads[b]) is Some);
            let ka = choose|k: int| 0 <= k < m.names.len() && (#[trigger] m.names[k]).1 == a;
            let kb = choose|k: int| 0 <= k < m.names.len() && (#[trigger] m.names[k]).1 == b;
            if ka > kb {
                assert(m.names[kb].1 < m.names[ka].1);
            }
            assert(ka != kb);
            if ka < kb {
                assert(m.inos[ka].0 != m.inos[kb].0);
            } else {
                assert(m.inos[kb].0 != m.inos[ka].0);
            }
        }
    } else {
        let (i, j) = choose|i: int, j: int| 0 <= i < j < m.inos.len() && (#[trigger] m.inos[i]).0 == (
        #[trigger] m.inos[j]).0;
        assert(m.names[i].1 < m.names[j].1);
        let a = m.names[i].1 as int;
        let b = m.names[j].1 as int;
        assert(live_ino(reads[a]) == live_ino(reads[b]));
    }
}

} // verus!
