//! Snapshots: point-in-time copies of file contents, a bounded history per
//! inode.
use vstd::prelude::*;
use std::collections::HashMap;
use vstd::string::*;
use crate::clock::unix_now_secs;
use crate::codec::copy_range;
use crate::text::{decimal, decimal_with_suffix};
use crate::walk::{keys_in_walk_order, lemma_prefix_set_step, walk_order};
use crate::fs::disk::{displayed_name, SnapshotRaw};
use crate::fs::snapshot_disk::SNAPSHOT_MAGIC;

verus! {

broadcast use {vstd::std_specs::hash::group_hash_axioms, vstd::string::group_string_axioms};

#[derive(Debug, Clone)]
pub struct Snapshot {
    pub id: u32,
    pub ino: u64,
    pub name: String,
    pub size: u64,
    pub data_offset: u64,
    pub timestamp: u64,
    pub data: Vec<u8>,
}

/// `s` records `data` of file `ino` named `name` under `id`.
pub open spec fn snapshot_of(s: Snapshot, id: u32, ino: u64, name: Seq<char>, data: Seq<u8>, data_offset: u64) -> bool {
    &&& s.id == id
    &&& s.ino == ino
    &&& s.name@ == name
    &&& s.size == data.len()
    &&& s.data_offset == data_offset
    &&& s.data@ == data
}

/// `a - b`, or zero when `b > a`.
pub open spec fn sat_sub(a: u64, b: u64) -> u64 {
    if a >= b {
        (a - b) as u64
    } else {
        0
    }
}

/// How an age in seconds is shown: whole seconds, minutes, hours or days.
pub open spec fn age_text(age: u64) -> Seq<char> {
    if age < 60 {
        decimal(age as nat) + "s ago"@
    } else if age < 3600 {
        decimal((age / 60) as nat) + "m ago"@
    } else if age < 86400 {
        decimal((age / 3600) as nat) + "h ago"@
    } else {
        decimal((age / 86400) as nat) + "d ago"@
    }
}

impl Snapshot {
    /// A snapshot of `data` taken at `timestamp`.
    pub fn new_at(id: u32, ino: u64, name: &str, data: &[u8], data_offset: u64, timestamp: u64) -> (r: Self)
        ensures
            snapshot_of(r, id, ino, name@, data@, data_offset),
            r.timestamp == timestamp,
    {
        let n = data.len();
        let copy = copy_range(data, 0, n);
        assert(copy@ =~= data@);
        let owned = name.to_string();
        assert(owned@ == name@);
        Self { id, ino, name: owned, size: n as u64, data_offset, timestamp, data: copy }
    }

    /// A snapshot of `data` taken now.
    pub fn new(id: u32, ino: u64, name: &str, data: &[u8], data_offset: u64) -> (r: Self)
        ensures
            snapshot_of(r, id, ino, name@, data@, data_offset),
    {
        let now = unix_now_secs();
        Self::new_at(id, ino, name, data, data_offset, now)
    }

    /// How long before `now` the snapshot was taken, as text.
    pub fn age_str_at(&self, now: u64) -> (r: String)
        ensures
            r@ == age_text(sat_sub(now, self.timestamp)),
    {
        let age = now.saturating_sub(self.timestamp);
        if age < 60 {
            decimal_with_suffix(age, "s ago")
        } else if age < 3600 {
            decimal_with_suffix(age / 60, "m ago")
        } else if age < 86400 {
            decimal_with_suffix(age / 3600, "h ago")
        } else {
            decimal_with_suffix(age / 86400, "d ago")
        }
    }

    /// How long ago the snapshot was taken, as text.
    pub fn age_str(&self) -> (r: String)
        ensures
            exists|now: u64| r@ == #[trigger] age_text(sat_sub(now, self.timestamp)),
    {
        let now = unix_now_secs();
        self.age_str_at(now)
    }
}

/// A history after adding one snapshot: the oldest one leaves when the
/// history would grow past `max`.
pub open spec fn trimmed(h: Seq<Snapshot>, max: usize) -> Seq<Snapshot> {
    if h.len() > max {
        h.drop_first()
    } else {
        h
    }
}

/// The histories of `keys`, one after another.
pub open spec fn histories(m: Map<u64, Vec<Snapshot>>, keys: Seq<u64>) -> Seq<Snapshot>
    decreases keys.len(),
{
    if keys.len() == 0 {
        Seq::empty()
    } else {
        histories(m, keys.drop_last()) + m[keys.last()]@
    }
}

/// Total number of snapshots held for `keys`.
pub open spec fn history_count(m: Map<u64, Vec<Snapshot>>, keys: Seq<u64>) -> nat
    decreases keys.len(),
{
    if keys.len() == 0 {
        0
    } else {
        history_count(m, keys.drop_last()) + m[keys.last()]@.len()
    }
}

/// Newer first: later timestamp, then higher id.
pub open spec fn newer_or_same(a: Snapshot, b: Snapshot) -> bool {
    a.timestamp > b.timestamp || (a.timestamp == b.timestamp && a.id >= b.id)
}

/// Sorted newest first.
pub open spec fn newest_first(s: Seq<Snapshot>) -> bool {
    forall|i: int, j: int| 0 <= i < j < s.len() ==> newer_or_same(#[trigger] s[i], #[trigger] s[j])
}

pub struct SnapshotManager {
    pub snapshots: HashMap<u64, Vec<Snapshot>>,
    pub next_id: u32,
    max_per_file: usize,
}

impl SnapshotManager {
    pub closed spec fn spec_max_per_file(&self) -> usize {
        self.max_per_file
    }

    /// Histories by inode.
    pub closed spec fn history_map(&self) -> Map<u64, Vec<Snapshot>> {
        self.snapshots@
    }

    pub closed spec fn spec_next_id(&self) -> u32 {
        self.next_id
    }

    /// Inodes in the order the manager walks them.
    pub closed spec fn walk(&self) -> Seq<u64> {
        walk_order(&self.snapshots)
    }

    /// The snapshots of every file, in walk order.
    pub open spec fn all(&self) -> Seq<Snapshot> {
        histories(self.history_map(), self.walk())
    }

    /// No history is longer than the per-file limit.
    pub open spec fn bounded(&self) -> bool {
        forall|k: u64| #[trigger] self.history_map().contains_key(k) ==> self.history_map()[k]@.len() <= self.spec_max_per_file()
    }

    pub fn new(max_per_file: usize) -> (r: Self)
        ensures
            r.history_map() == Map::<u64, Vec<Snapshot>>::empty(),
            r.spec_next_id() == 1,
            r.spec_max_per_file() == max_per_file,
            r.bounded(),
    {
        Self { snapshots: HashMap::new(), next_id: 1, max_per_file }
    }

    /// Keep a copy of `data` for file `ino` under the next id; the oldest
    /// copy of that file leaves once it has more than the per-file limit.
    /// Empty data is not kept.
    pub fn snapshot(&mut self, ino: u64, name: &str, data: &[u8], data_offset: u64)
        requires
            data@.len() > 0 ==> old(self).spec_next_id() < u32::MAX,
        ensures
            final(self).spec_max_per_file() == old(self).spec_max_per_file(),
            data@.len() == 0 ==> final(self).history_map() == old(self).history_map() && final(self).spec_next_id() == old(self).spec_next_id(),
            data@.len() > 0 ==> {
                let pre = if old(self).history_map().contains_key(ino) { old(self).history_map()[ino]@ } else { Seq::empty() };
                &&& final(self).spec_next_id() == old(self).spec_next_id() + 1
                &&& final(self).history_map().dom() == old(self).history_map().dom().insert(ino)
                &&& forall|k: u64| k != ino && #[trigger] old(self).history_map().contains_key(k)
                    ==> final(self).history_map()[k] == old(self).history_map()[k]
                &&& exists|s: Snapshot| #[trigger] snapshot_of(s, old(self).spec_next_id(), ino, name@, data@, data_offset)
                    && final(self).history_map()[ino]@ == trimmed(pre.push(s), old(self).spec_max_per_file())
            },
            old(self).bounded() ==> final(self).bounded(),
    {
        if data.len() == 0 {
            return;
        }
        let id = self.next_id;
        self.next_id = self.next_id + 1;
        let snap = Snapshot::new(id, ino, name, data, data_offset);
        let ghost s = snap;
        let mut list: Vec<Snapshot> = match self.snapshots.remove(&ino) {
            Some(l) => l,
            None => Vec::new(),
        };
        let ghost pre = list@;
        list.push(snap);
        if list.len() > self.max_per_file {
            list.remove(0);
        }
        assert(list@ =~= trimmed(pre.push(s), self.max_per_file));
        let ghost before = self.snapshots@;
        self.snapshots.insert(ino, list);
        assert(snapshot_of(s, id, ino, name@, data@, data_offset));
        proof {
            if old(self).bounded() {
                if old(self).history_map().contains_key(ino) {
                    assert(pre == old(self).history_map()[ino]@);
                    assert(old(self).history_map()[ino]@.len() <= old(self).spec_max_per_file());
                } else {
                    assert(pre.len() == 0);
                }
                assert(pre.len() <= self.max_per_file);
                assert forall|k: u64| #[trigger] self.history_map().contains_key(k) implies self.history_map()[k]@.len()
                    <= self.spec_max_per_file() by {
                    if k != ino {
                        assert(old(self).history_map().contains_key(k));
                    }
                }
            }
        }
    }

    /// The snapshots of `ino`, oldest first.
    pub fn list(&self, ino: u64) -> (r: Vec<&Snapshot>)
        ensures
            r@.len() == (if self.history_map().contains_key(ino) { self.history_map()[ino]@.len() } else { 0 }),
            forall|i: int| 0 <= i < r@.len() ==> *r@[i] == self.history_map()[ino]@[i],
    {
        let mut out: Vec<&Snapshot> = Vec::new();
        match self.snapshots.get(&ino) {
            None => {},
            Some(v) => {
                let mut i: usize = 0;
                while i < v.len()
                    invariant
                        i <= v@.len(),
                        *v == self.history_map()[ino],
                        out@.len() == i,
                        forall|j: int| 0 <= j < i ==> *out@[j] == v@[j],
                    decreases v@.len() - i,
                {
                    out.push(&v[i]);
                    i = i + 1;
                }
            },
        }
        out
    }

    /// The snapshots of every file with this name.
    pub fn list_by_name(&self, name: &str) -> (r: Vec<&Snapshot>)
        ensures
            r@.len() == self.all().filter(|s: Snapshot| s.name@ == name@).len(),
            forall|i: int| 0 <= i < r@.len() ==> *r@[i] == self.all().filter(|s: Snapshot| s.name@ == name@)[i],
    {
        let target = name.to_string();
        let keys = keys_in_walk_order(&self.snapshots);
        let ghost pred = |s: Snapshot| s.name@ == name@;
        let ghost m = self.history_map();
        let mut out: Vec<&Snapshot> = Vec::new();
        let mut i: usize = 0;
        proof {
            assert(histories(m, keys@.subrange(0, 0)) =~= Seq::<Snapshot>::empty());
            vstd::seq_lib::lemma_seq_skip_nothing(Seq::<Snapshot>::empty(), 0);
        }
        reveal(Seq::filter);
        while i < keys.len()
            invariant
                i <= keys@.len(),
                keys@ == self.walk(),
                keys@.to_set() == m.dom(),
                m == self.history_map(),
                target@ == name@,
                pred == (|s: Snapshot| s.name@ == name@),
                out@.len() == histories(m, keys@.subrange(0, i as int)).filter(pred).len(),
                forall|j: int| 0 <= j < out@.len() ==> *out@[j] == histories(m, keys@.subrange(0, i as int)).filter(pred)[j],
            decreases keys@.len() - i,
        {
            let k = keys[i];
            proof {
                assert(keys@.to_set().contains(k));
                assert(keys@.subrange(0, i + 1).drop_last() =~= keys@.subrange(0, i as int));
            }
            let v = self.snapshots.get(&k).unwrap();
            let ghost before = histories(m, keys@.subrange(0, i as int));
            let ghost before_out = out@;
            let mut j: usize = 0;
            while j < v.len()
                invariant
                    j <= v@.len(),
                    *v == m[k],
                    target@ == name@,
                    pred == (|s: Snapshot| s.name@ == name@),
                    out@.len() == (before + v@.subrange(0, j as int)).filter(pred).len(),
                    forall|t: int| 0 <= t < out@.len() ==> *out@[t] == (before + v@.subrange(0, j as int)).filter(pred)[t],
                decreases v@.len() - j,
            {
                proof {
                    reveal(Seq::filter);
                    let cur = before + v@.subrange(0, j + 1);
                    assert(cur.drop_last() =~= before + v@.subrange(0, j as int));
                    assert(cur.last() == v@[j as int]);
                    assert(cur.len() > 0);
                }
                if v[j].name == target {
                    out.push(&v[j]);
                }
                j = j + 1;
            }
            proof {
                assert(v@.subrange(0, v@.len() as int) =~= v@);
            }
            i = i + 1;
        }
        proof {
            assert(keys@.subrange(0, keys@.len() as int) =~= keys@);
        }
        out
    }

    /// The snapshot of `ino` with id `version`, the first one if several.
    pub fn get(&self, ino: u64, version: u32) -> (r: Option<&Snapshot>)
        ensures
            r is None <==> !(self.history_map().contains_key(ino) && exists|i: int|
                0 <= i < self.history_map()[ino]@.len() && (#[trigger] self.history_map()[ino]@[i]).id == version),
            r matches Some(s) ==> exists|i: int| 0 <= i < self.history_map()[ino]@.len()
                && *s == #[trigger] self.history_map()[ino]@[i]
                && s.id == version
                && forall|j: int| 0 <= j < i ==> (#[trigger] self.history_map()[ino]@[j]).id != version,
    {
        match self.snapshots.get(&ino) {
            None => None,
            Some(v) => {
                let mut i: usize = 0;
                while i < v.len()
                    invariant
                        i <= v@.len(),
                        *v == self.history_map()[ino],
                        self.history_map().contains_key(ino),
                        forall|j: int| 0 <= j < i ==> (#[trigger] v@[j]).id != version,
                    decreases v@.len() - i,
                {
                    if v[i].id == version {
                        return Some(&v[i]);
                    }
                    i = i + 1;
                }
                None
            },
        }
    }

    /// The contents kept under `version` for `ino`.
    pub fn restore(&self, ino: u64, version: u32) -> (r: Option<Vec<u8>>)
        ensures
            r is None <==> !(self.history_map().contains_key(ino) && exists|i: int|
                0 <= i < self.history_map()[ino]@.len() && (#[trigger] self.history_map()[ino]@[i]).id == version),
            r matches Some(d) ==> exists|i: int| 0 <= i < self.history_map()[ino]@.len()
                && d@ == (#[trigger] self.history_map()[ino]@[i]).data@
                && self.history_map()[ino]@[i].id == version
                && forall|j: int| 0 <= j < i ==> (#[trigger] self.history_map()[ino]@[j]).id != version,
    {
        match self.get(ino, version) {
            None => None,
            Some(s) => {
                let n = s.data.len();
                let d = copy_range(s.data.as_slice(), 0, n);
                assert(d@ =~= s.data@);
                Some(d)
            },
        }
    }

    /// Number of snapshots kept over all files.
    pub fn total_snapshots(&self) -> (r: usize)
        requires
            history_count(self.history_map(), self.walk()) <= usize::MAX,
        ensures
            r == history_count(self.history_map(), self.walk()),
    {
        let keys = keys_in_walk_order(&self.snapshots);
        let ghost m = self.history_map();
        let mut total: usize = 0;
        let mut i: usize = 0;
        while i < keys.len()
            invariant
                i <= keys@.len(),
                keys@ == self.walk(),
                keys@.to_set() == m.dom(),
                m == self.history_map(),
                history_count(m, keys@) <= usize::MAX,
                total == history_count(m, keys@.subrange(0, i as int)),
            decreases keys@.len() - i,
        {
            let k = keys[i];
            proof {
                assert(keys@.to_set().contains(k));
                assert(keys@.subrange(0, i + 1).drop_last() =~= keys@.subrange(0, i as int));
                lemma_history_count_prefix(m, keys@, i + 1);
            }
            let v = self.snapshots.get(&k).unwrap();
            total = total + v.len();
            i = i + 1;
        }
        assert(keys@.subrange(0, keys@.len() as int) =~= keys@);
        total
    }

    /// Number of files that have snapshots.
    pub fn files_with_snapshots(&self) -> (r: usize)
        ensures
            r == self.history_map().dom().len(),
    {
        self.snapshots.len()
    }

    /// Drop every snapshot of `ino`.
    pub fn remove_file(&mut self, ino: u64)
        ensures
            final(self).history_map() == old(self).history_map().remove(ino),
            final(self).spec_next_id() == old(self).spec_next_id(),
            final(self).spec_max_per_file() == old(self).spec_max_per_file(),
            old(self).bounded() ==> final(self).bounded(),
    {
        self.snapshots.remove(&ino);
    }
}

proof fn lemma_history_count_prefix(m: Map<u64, Vec<Snapshot>>, keys: Seq<u64>, n: int)
    requires
        0 <= n <= keys.len(),
    ensures
        history_count(m, keys.subrange(0, n)) <= history_count(m, keys),
    decreases keys.len(),
{
    if n < keys.len() {
        assert(keys.drop_last().subrange(0, n) =~= keys.subrange(0, n));
        lemma_history_count_prefix(m, keys.drop_last(), n);
    } else {
        assert(keys.subrange(0, n) =~= keys);
    }
}


/// The snapshots a vector of references points at.
pub open spec fn derefs(v: Seq<&Snapshot>) -> Seq<Snapshot> {
    Seq::new(v.len(), |i: int| *v[i])
}

/// Stable insertion sort, newest first.
fn sort_newest_first<'a>(v: Vec<&'a Snapshot>) -> (r: Vec<&'a Snapshot>)
    ensures
        newest_first(derefs(r@)),
        derefs(r@).to_multiset() == derefs(v@).to_multiset(),
{
    broadcast use vstd::seq_lib::group_to_multiset_ensures;
    let mut r: Vec<&Snapshot> = Vec::new();
    let mut i: usize = 0;
    while i < v.len()
        invariant
            i <= v@.len(),
            newest_first(derefs(r@)),
            derefs(r@).to_multiset() == derefs(v@.subrange(0, i as int)).to_multiset(),
        decreases v@.len() - i,
    {
        let e = v[i];
        let mut pos: usize = r.len();
        while pos > 0 && !(r[pos - 1].timestamp > e.timestamp || (r[pos - 1].timestamp == e.timestamp && r[pos - 1].id >= e.id))
            invariant
                pos <= r@.len(),
                newest_first(derefs(r@)),
                derefs(r@).to_multiset() == derefs(v@.subrange(0, i as int)).to_multiset(),
                forall|k: int| pos <= k < r@.len() ==> !newer_or_same(*(#[trigger] r@[k]), *e),
            decreases pos,
        {
            pos = pos - 1;
        }
        let ghost old_r = derefs(r@);
        r.insert(pos, e);
        proof {
            let d = derefs(r@);
            assert(d =~= old_r.insert(pos as int, *e));
            assert forall|a: int, b: int| 0 <= a < b < d.len() implies newer_or_same(#[trigger] d[a], #[trigger] d[b]) by {
                if a < pos && b > pos {
                    assert(d[a] == old_r[a] && d[b] == old_r[b - 1]);
                } else if a < pos && b == pos {
                    assert(d[a] == old_r[a]);
                    if a < pos - 1 {
                        assert(newer_or_same(old_r[a], old_r[pos - 1]));
                    }
                    assert(newer_or_same(old_r[pos - 1], *e));
                } else if a == pos {
                    assert(d[b] == old_r[b - 1]);
                    assert(!newer_or_same(*r@[b], *e));
                } else if a > pos {
                    assert(d[a] == old_r[a - 1] && d[b] == old_r[b - 1]);
                } else {
                    assert(d[a] == old_r[a] && d[b] == old_r[b]);
                }
            }
            assert(d.remove(pos as int) =~= old_r);
            vstd::seq_lib::to_multiset_remove(d, pos as int);
            vstd::seq_lib::to_multiset_contains(d, *e);
            assert(d[pos as int] == *e);
            assert(d.contains(*e));
            assert(d.to_multiset() =~= old_r.to_multiset().insert(*e));
            assert(derefs(v@.subrange(0, i + 1)) =~= derefs(v@.subrange(0, i as int)).push(*e));
            vstd::seq_lib::to_multiset_build(derefs(v@.subrange(0, i as int)), *e);
        }
        i = i + 1;
    }
    assert(v@.subrange(0, v@.len() as int) =~= v@);
    r
}

impl SnapshotManager {
    /// Up to `limit` snapshots over all files, newest first (later
    /// timestamp, then higher id).
    pub fn all_recent(&self, limit: usize) -> (r: Vec<&Snapshot>)
        ensures
            exists|p: Seq<Snapshot>| #[trigger] newest_first(p)
                && p.to_multiset() == self.all().to_multiset()
                && derefs(r@) == (if limit < p.len() { p.take(limit as int) } else { p }),
    {
        let keys = keys_in_walk_order(&self.snapshots);
        let ghost m = self.snapshots@;
        let mut all: Vec<&Snapshot> = Vec::new();
        let mut i: usize = 0;
        assert(derefs(all@) =~= histories(m, keys@.subrange(0, 0)));
        while i < keys.len()
            invariant
                i <= keys@.len(),
                keys@ == self.walk(),
                keys@.to_set() == m.dom(),
                m == self.snapshots@,
                derefs(all@) == histories(m, keys@.subrange(0, i as int)),
            decreases keys@.len() - i,
        {
            let k = keys[i];
            proof {
                assert(keys@.to_set().contains(k));
                assert(keys@.subrange(0, i + 1).drop_last() =~= keys@.subrange(0, i as int));
            }
            let v = self.snapshots.get(&k).unwrap();
            let ghost before = derefs(all@);
            let mut j: usize = 0;
            while j < v.len()
                invariant
                    j <= v@.len(),
                    *v == m[k],
                    derefs(all@) == before + v@.subrange(0, j as int),
                decreases v@.len() - j,
            {
                let ghost prev = all@;
                let item = &v[j];
                all.push(item);
                proof {
                    assert(all@ == prev.push(item));
                    assert(*item == v@[j as int]);
                    let d = derefs(all@);
                    assert(d.len() == prev.len() + 1);
                    assert(derefs(prev).len() == prev.len());
                    assert(derefs(prev) == before + v@.subrange(0, j as int));
                    assert((before + v@.subrange(0, j as int)).len() == before.len() + j);
                    assert(prev.len() == before.len() + j);
                    assert forall|q: int| 0 <= q < d.len() implies d[q] == (before + v@.subrange(0, j + 1))[q] by {
                        if q < prev.len() {
                            assert(d[q] == *prev[q]);
                            assert(derefs(prev)[q] == *prev[q]);
                        } else {
                            assert(d[q] == *item);
                        }
                    }
                    assert(d =~= before + v@.subrange(0, j + 1));
                }
                j = j + 1;
            }
            assert(v@.subrange(0, v@.len() as int) =~= v@);
            i = i + 1;
        }
        assert(keys@.subrange(0, keys@.len() as int) =~= keys@);
        assert(derefs(all@) == self.all());
        let sorted = sort_newest_first(all);
        let ghost p = derefs(sorted@);
        let mut out: Vec<&Snapshot> = Vec::new();
        let mut t: usize = 0;
        while t < sorted.len() && t < limit
            invariant
                t <= sorted@.len(),
                t <= limit,
                derefs(out@) == derefs(sorted@).take(t as int),
            decreases sorted@.len() - t,
        {
            let ghost prev = out@;
            let item = sorted[t];
            out.push(item);
            proof {
                let d = derefs(out@);
                assert(derefs(prev).len() == prev.len());
                assert(derefs(sorted@).take(t as int).len() == t);
                assert(prev.len() == t);
                assert(d.len() == t + 1);
                assert(derefs(sorted@).take(t + 1).len() == t + 1);
                assert forall|q: int| 0 <= q < d.len() implies d[q] == derefs(sorted@).take(t + 1)[q] by {
                    if q < prev.len() {
                        assert(d[q] == *prev[q]);
                        assert(derefs(prev)[q] == *prev[q]);
                    } else {
                        assert(d[q] == *item);
                    }
                }
                assert(d =~= derefs(sorted@).take(t + 1));
            }
            t = t + 1;
        }
        proof {
            assert(p.len() == sorted@.len());
            if limit >= p.len() {
                assert(t == p.len());
                assert(p.take(p.len() as int) =~= p);
            } else {
                assert(t == limit);
            }
            assert(newest_first(p));
            assert(p.to_multiset() == self.all().to_multiset());
        }
        out
    }
}

} // verus!

verus! {

/// The largest id among `s`, zero when there is none.
pub open spec fn max_id(s: Seq<Snapshot>) -> u32
    decreases s.len(),
{
    if s.len() == 0 {
        0
    } else {
        let m = max_id(s.drop_last());
        if s.last().id > m {
            s.last().id
        } else {
            m
        }
    }
}

/// No snapshot of `s` carries an id above `max_id(s)`, and a non-empty `s`
/// holds a snapshot carrying exactly that id.
pub proof fn lemma_max_id_bounds(s: Seq<Snapshot>)
    ensures
        forall|i: int| 0 <= i < s.len() ==> (#[trigger] s[i]).id <= max_id(s),
        s.len() > 0 ==> exists|i: int| 0 <= i < s.len() && (#[trigger] s[i]).id == max_id(s),
    decreases s.len(),
{
    if s.len() > 0 {
        let p = s.drop_last();
        lemma_max_id_bounds(p);
        assert forall|i: int| 0 <= i < s.len() implies (#[trigger] s[i]).id <= max_id(s) by {
            if i < s.len() - 1 {
                assert(s[i] == p[i]);
            }
        }
        if p.len() > 0 && max_id(p) >= s.last().id {
            let k = choose|k: int| 0 <= k < p.len() && (#[trigger] p[k]).id == max_id(p);
            assert(s[k] == p[k]);
        } else {
            assert(s[s.len() - 1] == s.last());
        }
    }
}

/// `s` is the snapshot that record `rec` holds, with data `data`.
pub open spec fn restored_from(s: Snapshot, rec: SnapshotRaw, data: Seq<u8>) -> bool {
    &&& s.id == rec.id
    &&& s.ino == rec.ino
    &&& s.name@ == displayed_name(rec.name@)
    &&& s.size == rec.size
    &&& s.data_offset == rec.data_offset
    &&& s.timestamp == rec.timestamp
    &&& s.data@ == data
}

impl SnapshotManager {
    /// Take in a snapshot record read back at mount time, with the data
    /// read from where it points: a used record of the snapshot table with
    /// a displayable name joins the end of its file's history, whatever the
    /// per-file limit. Returns whether it was taken in.
    pub fn restore_record(&mut self, rec: &SnapshotRaw, data: Vec<u8>) -> (loaded: bool)
        ensures
            final(self).spec_max_per_file() == old(self).spec_max_per_file(),
            final(self).spec_next_id() == old(self).spec_next_id(),
            loaded == (rec.magic == SNAPSHOT_MAGIC && rec.is_used == 1 && displayed_name(rec.name@).len() > 0),
            !loaded ==> final(self).history_map() == old(self).history_map(),
            loaded ==> {
                let pre = if old(self).history_map().contains_key(rec.ino) {
                    old(self).history_map()[rec.ino]@
                } else {
                    Seq::empty()
                };
                &&& final(self).history_map().dom() == old(self).history_map().dom().insert(rec.ino)
                &&& forall|k: u64| k != rec.ino && #[trigger] old(self).history_map().contains_key(k)
                    ==> final(self).history_map()[k] == old(self).history_map()[k]
                &&& final(self).history_map()[rec.ino]@.len() == pre.len() + 1
                &&& final(self).history_map()[rec.ino]@.drop_last() == pre
                &&& restored_from(final(self).history_map()[rec.ino]@.last(), *rec, data@)
            },
    {
        if !rec.is_valid(SNAPSHOT_MAGIC) {
            return false;
        }
        let name = rec.get_name();
        if name.as_str().is_empty() {
            return false;
        }
        let size = rec.size;
        let snap = Snapshot {
            id: rec.id,
            ino: rec.ino,
            name,
            size,
            data_offset: rec.data_offset,
            timestamp: rec.timestamp,
            data,
        };
        let mut list: Vec<Snapshot> = match self.snapshots.remove(&rec.ino) {
            Some(l) => l,
            None => Vec::new(),
        };
        let ghost pre = list@;
        list.push(snap);
        assert(list@.drop_last() =~= pre);
        self.snapshots.insert(rec.ino, list);
        true
    }

    /// Continue numbering after the largest id held, when any snapshot is
    /// held; otherwise leave the numbering as it is.
    pub fn resume_numbering(&mut self)
        requires
            max_id(old(self).all()) < u32::MAX,
        ensures
            final(self).history_map() == old(self).history_map(),
            final(self).walk() == old(self).walk(),
            final(self).spec_max_per_file() == old(self).spec_max_per_file(),
            final(self).spec_next_id() == (if old(self).all().len() > 0 {
                (max_id(old(self).all()) + 1) as u32
            } else {
                old(self).spec_next_id()
            }),
            forall|i: int| 0 <= i < final(self).all().len() ==> (#[trigger] final(self).all()[i]).id < final(self).spec_next_id(),
            final(self).all().len() > 0 ==> exists|i: int| 0 <= i < final(self).all().len() && (#[trigger] final(self).all()[i]).id + 1
                == final(self).spec_next_id(),
    {
        let keys = keys_in_walk_order(&self.snapshots);
        let ghost m = self.history_map();
        let ghost all = self.all();
        let mut best: u32 = 0;
        let mut any = false;
        let mut i: usize = 0;
        while i < keys.len()
            invariant
                i <= keys@.len(),
                keys@ == self.walk(),
                keys@.to_set() == m.dom(),
                m == self.history_map(),
                all == histories(m, keys@),
                max_id(all) < u32::MAX,
                best == max_id(histories(m, keys@.subrange(0, i as int))),
                any == (histories(m, keys@.subrange(0, i as int)).len() > 0),
            decreases keys@.len() - i,
        {
            let k = keys[i];
            proof {
                assert(keys@.to_set().contains(k));
                assert(keys@.subrange(0, i + 1).drop_last() =~= keys@.subrange(0, i as int));
            }
            let v = self.snapshots.get(&k).unwrap();
            let ghost before = histories(m, keys@.subrange(0, i as int));
            let mut j: usize = 0;
            proof {
                assert(before + v@.subrange(0, 0) =~= before);
            }
            while j < v.len()
                invariant
                    j <= v@.len(),
                    best == max_id(before + v@.subrange(0, j as int)),
                    any == ((before + v@.subrange(0, j as int)).len() > 0),
                decreases v@.len() - j,
            {
                proof {
                    assert((before + v@.subrange(0, j + 1)).drop_last() =~= before + v@.subrange(0, j as int));
                    assert((before + v@.subrange(0, j + 1)).last() == v@[j as int]);
                }
                if v[j].id > best {
                    best = v[j].id;
                }
                any = true;
                j = j + 1;
            }
            proof {
                assert(v@.subrange(0, v@.len() as int) =~= v@);
                assert(histories(m, keys@.subrange(0, i + 1)) == before + m[k]@);
            }
            i = i + 1;
        }
        proof {
            assert(keys@.subrange(0, keys@.len() as int) =~= keys@);
        }
        if any {
            self.next_id = best + 1;
        }
        proof {
            lemma_max_id_bounds(all);
        }
    }
}

} // verus!
