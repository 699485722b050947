//! Write buffer: batches writes per inode and says which are due for
//! flushing, because the buffer is full or an entry has waited too long.
use vstd::prelude::*;
use std::collections::HashMap;
use crate::walk::{keys_in_walk_order, lemma_filter_empty, lemma_filter_step, lemma_prefix_set_step, walk_order};
use crate::clock::unix_now_secs;

verus! {

broadcast use {vstd::std_specs::hash::group_hash_axioms, vstd::string::group_string_axioms};

/// A pending write: data, disk index, file name and when it became dirty.
pub type Pending = (Vec<u8>, usize, String, u64);

/// What `due_for_flush_at` returns: every pending inode when the buffer is
/// full, else those whose entry has waited at least the flush interval.
pub open spec fn due_at(walk: Seq<u64>, m: Map<u64, Pending>, max_pending: usize, now: u64, interval: u64) -> Seq<u64> {
    if m.dom().len() >= max_pending {
        walk
    } else {
        walk.filter(|k: u64| sat_sub(now, m[k].3) >= interval)
    }
}

/// `a - b`, or zero when `b > a`.
pub open spec fn sat_sub(a: u64, b: u64) -> u64 {
    if a >= b {
        (a - b) as u64
    } else {
        0
    }
}

pub struct WriteBuffer {
    pending: HashMap<u64, Pending>,
    max_pending: usize,
    flush_interval_secs: u64,
}

impl WriteBuffer {
    /// Pending writes by inode.
    pub closed spec fn entries(&self) -> Map<u64, Pending> {
        self.pending@
    }

    /// Pending inodes in the order the buffer walks them.
    pub closed spec fn walk(&self) -> Seq<u64> {
        walk_order(&self.pending)
    }

    pub closed spec fn spec_max_pending(&self) -> usize {
        self.max_pending
    }

    pub closed spec fn spec_flush_interval(&self) -> u64 {
        self.flush_interval_secs
    }

    pub fn new(max_pending: usize, flush_interval_secs: u64) -> (r: Self)
        ensures
            r.entries() == Map::<u64, Pending>::empty(),
            r.spec_max_pending() == max_pending,
            r.spec_flush_interval() == flush_interval_secs,
    {
        Self { pending: HashMap::new(), max_pending, flush_interval_secs }
    }

    /// Buffer `data` for `ino`, dirty since `now`, replacing what was there.
    pub fn write_at(&mut self, ino: u64, name: &str, data: Vec<u8>, disk_index: usize, now: u64)
        ensures
            final(self).entries().dom() == old(self).entries().dom().insert(ino),
            forall|k: u64| k != ino && #[trigger] old(self).entries().contains_key(k)
                ==> final(self).entries()[k] == old(self).entries()[k],
            final(self).entries()[ino].0 == data,
            final(self).entries()[ino].1 == disk_index,
            final(self).entries()[ino].2@ == name@,
            final(self).entries()[ino].3 == now,
            final(self).spec_max_pending() == old(self).spec_max_pending(),
            final(self).spec_flush_interval() == old(self).spec_flush_interval(),
    {
        let name_owned = name.to_string();
        self.pending.insert(ino, (data, disk_index, name_owned, now));
    }

    /// Buffer `data` for `ino`, dirty from now on, replacing what was there.
    pub fn write(&mut self, ino: u64, name: &str, data: Vec<u8>, disk_index: usize)
        ensures
            final(self).entries().dom() == old(self).entries().dom().insert(ino),
            forall|k: u64| k != ino && #[trigger] old(self).entries().contains_key(k)
                ==> final(self).entries()[k] == old(self).entries()[k],
            final(self).entries()[ino].0 == data,
            final(self).entries()[ino].1 == disk_index,
            final(self).entries()[ino].2@ == name@,
            final(self).spec_max_pending() == old(self).spec_max_pending(),
            final(self).spec_flush_interval() == old(self).spec_flush_interval(),
    {
        let now = unix_now_secs();
        self.write_at(ino, name, data, disk_index, now);
    }

    pub fn get(&self, ino: u64) -> (r: Option<&Vec<u8>>)
        ensures
            r == (if self.entries().contains_key(ino) { Some(&self.entries()[ino].0) } else { None }),
    {
        match self.pending.get(&ino) {
            Some(p) => Some(&p.0),
            None => None,
        }
    }

    /// Inodes that need flushing at time `now`: all of them when the buffer
    /// is full, else those dirty for at least the flush interval.
    pub fn due_for_flush_at(&self, now: u64) -> (r: Vec<u64>)
        ensures
            r@ == due_at(self.walk(), self.entries(), self.spec_max_pending(), now, self.spec_flush_interval()),
    {
        let keys = keys_in_walk_order(&self.pending);
        if self.pending.len() >= self.max_pending {
            proof {
                keys@.unique_seq_to_set();
            }
            return keys;
        }
        proof {
            keys@.unique_seq_to_set();
        }
        let ghost pred = |k: u64| sat_sub(now, self.entries()[k].3) >= self.flush_interval_secs;
        let mut due: Vec<u64> = Vec::new();
        let mut i: usize = 0;
        proof {
            lemma_filter_empty(keys@, pred);
        }
        while i < keys.len()
            invariant
                i <= keys@.len(),
                keys@.to_set() == self.entries().dom(),
                pred == (|k: u64| sat_sub(now, self.entries()[k].3) >= self.flush_interval_secs),
                due@ == keys@.subrange(0, i as int).filter(pred),
            decreases keys@.len() - i,
        {
            let k = keys[i];
            proof {
                lemma_filter_step(keys@, i as int, pred);
                assert(keys@.to_set().contains(k));
            }
            let dirty_since = self.pending.get(&k).unwrap().3;
            if now.saturating_sub(dirty_since) >= self.flush_interval_secs {
                due.push(k);
            }
            i = i + 1;
        }
        assert(keys@.subrange(0, keys@.len() as int) =~= keys@);
        due
    }

    /// Inodes that need flushing now.
    pub fn due_for_flush(&self) -> (r: Vec<u64>)
        ensures
            exists|now: u64| r@ == #[trigger] due_at(self.walk(), self.entries(), self.spec_max_pending(), now, self.spec_flush_interval()),
    {
        let now = unix_now_secs();
        self.due_for_flush_at(now)
    }

    /// Remove and return the pending write for `ino`.
    pub fn take(&mut self, ino: u64) -> (r: Option<(Vec<u8>, usize, String)>)
        ensures
            final(self).entries() == old(self).entries().remove(ino),
            r is Some <==> old(self).entries().contains_key(ino),
            r matches Some(t) ==> {
                let p = old(self).entries()[ino];
                t.0 == p.0 && t.1 == p.1 && t.2 == p.2
            },
            final(self).spec_max_pending() == old(self).spec_max_pending(),
            final(self).spec_flush_interval() == old(self).spec_flush_interval(),
            final(self).entries().dom().len() == old(self).entries().dom().len() - (if old(self).entries().contains_key(
                ino,
            ) {
                1int
            } else {
                0int
            }),
    {
        proof {
            vstd::std_specs::hash::axiom_hashmap_view_finite_dom(self.pending);
            if !self.pending@.contains_key(ino) {
                assert(self.pending@.remove(ino) =~= self.pending@);
            }
        }
        match self.pending.remove(&ino) {
            Some(p) => {
                let (data, idx, name, _) = p;
                Some((data, idx, name))
            },
            None => None,
        }
    }

    /// Remove and return every pending write, in walk order.
    pub fn take_all(&mut self) -> (r: Vec<(u64, Vec<u8>, usize, String)>)
        ensures
            final(self).entries() == Map::<u64, Pending>::empty(),
            r@.len() == old(self).walk().len(),
            forall|i: int| 0 <= i < r@.len() ==> {
                let k = old(self).walk()[i];
                let p = old(self).entries()[k];
                &&& (#[trigger] r@[i]).0 == k
                &&& r@[i].1 == p.0
                &&& r@[i].2 == p.1
                &&& r@[i].3 == p.2
            },
            old(self).walk().to_set() == old(self).entries().dom(),
            final(self).spec_max_pending() == old(self).spec_max_pending(),
            final(self).spec_flush_interval() == old(self).spec_flush_interval(),
    {
        let keys = keys_in_walk_order(&self.pending);
        let ghost start = self.pending@;
        let ghost max0 = self.max_pending;
        let ghost interval0 = self.flush_interval_secs;
        let mut out: Vec<(u64, Vec<u8>, usize, String)> = Vec::new();
        let mut i: usize = 0;
        while i < keys.len()
            invariant
                i <= keys@.len(),
                keys@.no_duplicates(),
                keys@.to_set() == start.dom(),
                self.pending@ == start.remove_keys(keys@.subrange(0, i as int).to_set()),
                self.max_pending == max0,
                self.flush_interval_secs == interval0,
                out@.len() == i,
                forall|j: int| 0 <= j < i ==> {
                    let k = keys@[j];
                    let p = start[k];
                    &&& (#[trigger] out@[j]).0 == k
                    &&& out@[j].1 == p.0
                    &&& out@[j].2 == p.1
                    &&& out@[j].3 == p.2
                },
            decreases keys@.len() - i,
        {
            let k = keys[i];
            proof {
                assert(keys@.to_set().contains(k));
                assert(!keys@.subrange(0, i as int).contains(k)) by {
                    if keys@.subrange(0, i as int).contains(k) {
                        let j = choose|j: int| 0 <= j < i && keys@.subrange(0, i as int)[j] == k;
                        assert(keys@[j] == keys@[i as int]);
                    }
                }
                lemma_prefix_set_step(keys@, i as int);
            }
            let removed = self.pending.remove(&k);
            let (data, idx, name, _) = removed.unwrap();
            out.push((k, data, idx, name));
            proof {
                assert(self.pending@ =~= start.remove_keys(keys@.subrange(0, i + 1).to_set()));
            }
            i = i + 1;
        }
        proof {
            assert(keys@.subrange(0, keys@.len() as int) =~= keys@);
            assert(self.pending@ =~= Map::<u64, Pending>::empty());
        }
        out
    }

    pub fn len(&self) -> (r: usize)
        ensures
            r == self.entries().dom().len(),
            self.entries().dom().finite(),
    {
        proof {
            vstd::std_specs::hash::axiom_hashmap_view_finite_dom(self.pending);
        }
        self.pending.len()
    }

    /// A buffer holds finitely many pending writes.
    pub proof fn lemma_finite(&self)
        ensures
            self.entries().dom().finite(),
    {
        vstd::std_specs::hash::axiom_hashmap_view_finite_dom(self.pending);
    }

    pub fn is_empty(&self) -> (r: bool)
        ensures
            r == (self.entries().dom().len() == 0),
    {
        self.pending.len() == 0
    }
}

} // verus!
