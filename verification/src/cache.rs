//! ARC Cache — Adaptive Replacement Cache.
//!
//! Balances recency (T1) and frequency (T2) with ghost lists (B1, B2) that
//! steer the adaptive target `p`. The cache keeps a running byte count of
//! everything it holds and evicts before inserting a new block, so a block
//! no larger than the ceiling always leaves the cache within it.
use vstd::prelude::*;
use std::collections::{HashMap, HashSet, VecDeque};

verus! {

broadcast use vstd::std_specs::hash::group_hash_axioms;

// ── Ordered set ──────────────────────────────────────────────────────────────

/// Index of the first element of `order` that is still in `set`
/// (`order.len()` when there is none).
pub open spec fn first_live(order: Seq<u64>, set: Set<u64>) -> nat
    decreases order.len(),
{
    if order.len() == 0 {
        0
    } else if set.contains(order[0]) {
        0
    } else {
        1 + first_live(order.drop_first(), set)
    }
}

proof fn lemma_first_live(order: Seq<u64>, set: Set<u64>)
    ensures
        first_live(order, set) <= order.len(),
        forall|j: int| 0 <= j < first_live(order, set) ==> !set.contains(#[trigger] order[j]),
        first_live(order, set) < order.len() ==> set.contains(order[first_live(order, set) as int]),
    decreases order.len(),
{
    if order.len() > 0 && !set.contains(order[0]) {
        lemma_first_live(order.drop_first(), set);
        assert forall|j: int| 0 <= j < first_live(order, set) implies !set.contains(#[trigger] order[j]) by {
            if j > 0 {
                assert(order[j] == order.drop_first()[j - 1]);
            }
        }
    }
}

/// VecDeque for eviction order, HashSet for membership; removed keys stay
/// in the queue as tombstones until they reach its front.
struct OrderedSet {
    order: VecDeque<u64>,
    set: HashSet<u64>,
}

impl OrderedSet {
    /// Every member appears somewhere in the queue.
    spec fn wf(&self) -> bool {
        &&& self.set@.finite()
        &&& forall|k: u64| self.set@.contains(k) ==> #[trigger] self.order@.contains(k)
    }

    fn new() -> (r: Self)
        ensures
            r.wf(),
            r.order@ == Seq::<u64>::empty(),
            r.set@ == Set::<u64>::empty(),
    {
        Self { order: VecDeque::new(), set: HashSet::new() }
    }

    fn contains(&self, key: u64) -> (r: bool)
        ensures
            r == self.set@.contains(key),
    {
        self.set.contains(&key)
    }

    /// Push to the back (most recently used end).
    fn push_back(&mut self, key: u64)
        requires
            old(self).wf(),
        ensures
            final(self).wf(),
            final(self).set@ == old(self).set@.insert(key),
            final(self).order@ == (if old(self).set@.contains(key) {
                old(self).order@
            } else {
                old(self).order@.push(key)
            }),
    {
        if self.set.insert(key) {
            self.order.push_back(key);
            proof {
                assert forall|k: u64| self.set@.contains(k) implies #[trigger] self.order@.contains(k) by {
                    if k == key {
                        assert(self.order@[self.order@.len() - 1] == key);
                    } else {
                        assert(old(self).order@.contains(k));
                        let j = choose|j: int| 0 <= j < old(self).order@.len() && old(self).order@[j] == k;
                        assert(self.order@[j] == k);
                    }
                }
            }
        }
    }

    /// Pop from the front (least recently used end), skipping tombstones.
    fn pop_front(&mut self) -> (r: Option<u64>)
        requires
            old(self).wf(),
        ensures
            final(self).wf(),
            ({
                let i = first_live(old(self).order@, old(self).set@) as int;
                if i < old(self).order@.len() {
                    &&& r == Some(old(self).order@[i])
                    &&& final(self).order@ == old(self).order@.subrange(i + 1int, old(self).order@.len() as int)
                    &&& final(self).set@ == old(self).set@.remove(old(self).order@[i])
                } else {
                    &&& r is None
                    &&& final(self).order@ == Seq::<u64>::empty()
                    &&& final(self).set@ == old(self).set@
                    &&& old(self).set@ == Set::<u64>::empty()
                }
            }),
    {
        let ghost o = self.order@;
        let ghost s = self.set@;
        let ghost i0 = first_live(o, s);
        proof {
            lemma_first_live(o, s);
            assert(o.subrange(0, o.len() as int) =~= o);
        }
        let ghost mut j: int = 0;
        loop
            invariant
                o == old(self).order@,
                s == old(self).set@,
                i0 == first_live(o, s),
                0 <= j <= i0,
                i0 <= o.len(),
                self.order@ == o.subrange(j, o.len() as int),
                self.set@ == s,
                first_live(o, s) == j + first_live(self.order@, s),
                forall|x: int| 0 <= x < i0 ==> !s.contains(#[trigger] o[x]),
                i0 < o.len() ==> s.contains(o[i0 as int]),
                forall|k: u64| s.contains(k) ==> #[trigger] o.contains(k),
                s.finite(),
            decreases self.order@.len(),
        {
            match self.order.pop_front() {
                Some(key) => {
                    proof {
                        assert(key == o[j]);
                        assert(self.order@ =~= o.subrange(j + 1, o.len() as int));
                    }
                    if self.set.remove(&key) {
                        proof {
                            assert(first_live(o.subrange(j, o.len() as int), s) == 0);
                            assert(j == i0);
                            assert(i0 < o.len());
                            assert(self.set@ == s.remove(key));
                            assert forall|k: u64| self.set@.contains(k) implies #[trigger] self.order@.contains(k) by {
                                assert(o.contains(k));
                                let x = choose|x: int| 0 <= x < o.len() && o[x] == k;
                                if x < i0 {
                                    assert(!s.contains(o[x]));
                                }
                                assert(x != i0);
                                assert(self.order@[x - i0 - 1] == k);
                            }
                        }
                        return Some(key);
                    }
                    proof {
                        assert(o.subrange(j, o.len() as int).drop_first() =~= o.subrange(j + 1, o.len() as int));
                        j = j + 1;
                    }
                },
                None => {
                    proof {
                        assert(j == o.len());
                        assert(i0 == o.len());
                        assert forall|k: u64| !s.contains(k) by {
                            if s.contains(k) {
                                assert(o.contains(k));
                                let x = choose|x: int| 0 <= x < o.len() && o[x] == k;
                                assert(!s.contains(o[x]));
                            }
                        }
                        assert(s =~= Set::<u64>::empty());
                        assert(self.order@ =~= Seq::<u64>::empty());
                    }
                    return None;
                },
            }
        }
    }

    /// Remove a specific key; its queue entry becomes a tombstone.
    fn remove(&mut self, key: u64) -> (r: bool)
        requires
            old(self).wf(),
        ensures
            final(self).wf(),
            final(self).set@ == old(self).set@.remove(key),
            final(self).order@ == old(self).order@,
            r == old(self).set@.contains(key),
    {
        self.set.remove(&key)
    }

    fn len(&self) -> (r: usize)
        requires
            self.wf(),
        ensures
            r == self.set@.len(),
    {
        self.set.len()
    }

    fn is_empty(&self) -> (r: bool)
        ensures
            r == (self.set@.len() == 0),
    {
        self.set.len() == 0
    }

    /// Cap the set to `max` members, dropping the oldest first.
    fn truncate_to(&mut self, max: usize)
        requires
            old(self).wf(),
        ensures
            final(self).wf(),
            final(self).set@.subset_of(old(self).set@),
            final(self).set@.len() <= max,
            old(self).set@.len() <= max ==> final(self).set@ == old(self).set@,
    {
        loop
            invariant
                self.wf(),
                self.set@.subset_of(old(self).set@),
                old(self).set@.len() <= max ==> self.set@ == old(self).set@,
            ensures
                self.wf(),
                self.set@.subset_of(old(self).set@),
                old(self).set@.len() <= max ==> self.set@ == old(self).set@,
                self.set@.len() <= max,
            decreases self.set@.len(),
        {
            if self.set.len() <= max {
                break;
            }
            let ghost before = self.set@;
            let ghost before_order = self.order@;
            proof {
                lemma_first_live(before_order, before);
            }
            match self.pop_front() {
                Some(k) => {
                    proof {
                        assert(before.contains(k));
                        assert(self.set@.len() < before.len());
                    }
                },
                None => {
                    break;
                },
            }
        }
    }
}

// ── Byte accounting ──────────────────────────────────────────────────────────

/// Total length of all blocks in a finite map.
pub open spec fn total_bytes(m: Map<u64, Seq<u8>>) -> nat
    decreases m.dom().len(),
    when m.dom().finite()
{
    if m.dom().len() == 0 {
        0
    } else {
        let k = m.dom().choose();
        m[k].len() + total_bytes(m.remove(k))
    }
}

proof fn lemma_total_remove(m: Map<u64, Seq<u8>>, k: u64)
    requires
        m.dom().finite(),
        m.contains_key(k),
    ensures
        total_bytes(m) == m[k].len() + total_bytes(m.remove(k)),
    decreases m.dom().len(),
{
    let c = m.dom().choose();
    assert(m.dom().contains(c));
    if c != k {
        lemma_total_remove(m.remove(c), k);
        lemma_total_remove(m.remove(k), c);
        assert(m.remove(c).remove(k) =~= m.remove(k).remove(c));
    }
}

proof fn lemma_total_insert(m: Map<u64, Seq<u8>>, k: u64, v: Seq<u8>)
    requires
        m.dom().finite(),
    ensures
        total_bytes(m.insert(k, v)) == v.len() + total_bytes(m.remove(k)),
        m.contains_key(k) ==> total_bytes(m) == m[k].len() + total_bytes(m.remove(k)),
{
    lemma_total_remove(m.insert(k, v), k);
    assert(m.insert(k, v).remove(k) =~= m.remove(k));
    if m.contains_key(k) {
        lemma_total_remove(m, k);
    } else {
        assert(m.remove(k) =~= m);
    }
}

proof fn lemma_total_empty(m: Map<u64, Seq<u8>>)
    requires
        m.dom().finite(),
        total_bytes(m) == 0 || m.dom().len() == 0,
    ensures
        m.dom().len() == 0 ==> total_bytes(m) == 0,
{
}

} // verus!

verus! {

// ── ARC cache ────────────────────────────────────────────────────────────────

/// A cache entry
struct Entry {
    data: Vec<u8>,
    size: usize,
}

pub struct ArcCache {
    // T1: recently accessed once
    t1: OrderedSet,
    // T2: accessed more than once
    t2: OrderedSet,
    // B1: ghost entries evicted from T1 (keys only, no data)
    b1: OrderedSet,
    // B2: ghost entries evicted from T2 (keys only, no data)
    b2: OrderedSet,
    // actual data store
    data: HashMap<u64, Entry>,
    // target size for T1 (ARC adapts this automatically)
    p: usize,
    // hard memory ceiling in bytes
    max_bytes: usize,
    // current bytes used
    used_bytes: usize,
    // evicted keys since last drain
    evicted: Vec<u64>,
}

/// Capacity of each ghost list.
const GHOST_CAPACITY: usize = 1000;

/// The first still-present key of an ordered set, if any.
pub open spec fn first_live_key(order: Seq<u64>, set: Set<u64>) -> Option<u64> {
    let i = first_live(order, set);
    if i < order.len() {
        Some(order[i as int])
    } else {
        None
    }
}

impl View for ArcCache {
    type V = Map<u64, Seq<u8>>;

    /// The blocks the cache holds, by key.
    closed spec fn view(&self) -> Map<u64, Seq<u8>> {
        self.data@.map_values(|e: Entry| e.data@)
    }
}

impl ArcCache {
    /// Bytes counted as held.
    pub closed spec fn used(&self) -> nat {
        self.used_bytes as nat
    }

    /// The hard ceiling in bytes.
    pub closed spec fn ceiling(&self) -> nat {
        self.max_bytes as nat
    }

    /// The adaptive target size of the recency list.
    pub closed spec fn target(&self) -> nat {
        self.p as nat
    }

    /// Keys seen once since they entered the cache (T1).
    pub closed spec fn recent(&self) -> Set<u64> {
        self.t1.set@
    }

    /// Keys seen more than once (T2).
    pub closed spec fn frequent(&self) -> Set<u64> {
        self.t2.set@
    }

    /// Keys recently evicted from T1 (B1).
    pub closed spec fn ghost_recent(&self) -> Set<u64> {
        self.b1.set@
    }

    /// Keys recently evicted from T2 (B2).
    pub closed spec fn ghost_frequent(&self) -> Set<u64> {
        self.b2.set@
    }

    /// Keys evicted since the last drain, in eviction order.
    pub closed spec fn evicted_log(&self) -> Seq<u64> {
        self.evicted@
    }

    /// The key the next eviction would take.
    pub closed spec fn next_victim(&self) -> Option<u64> {
        if self.t1.set@.len() > self.p || self.t2.set@.len() == 0 {
            first_live_key(self.t1.order@, self.t1.set@)
        } else {
            first_live_key(self.t2.order@, self.t2.set@)
        }
    }

    /// `after` is `before` with one eviction by the ARC replace rule, which
    /// took `k`: the key `next_victim` names (the least recent of T1 when T1
    /// holds more keys than the target or T2 is empty, else the least recent
    /// of T2) leaves the blocks and its list, is logged, and may be
    /// remembered in the matching ghost list; the other lists, the target
    /// and the ceiling stay.
    pub open spec fn evicted_by_rule(before: ArcCache, after: ArcCache, k: u64) -> bool {
        &&& before.next_victim() == Some(k)
        &&& after@ == before@.remove(k)
        &&& after.evicted_log() == before.evicted_log().push(k)
        &&& after.target() == before.target()
        &&& after.ceiling() == before.ceiling()
        &&& if before.recent().contains(k) {
            &&& after.recent() == before.recent().remove(k)
            &&& after.frequent() == before.frequent()
            &&& after.ghost_recent().subset_of(before.ghost_recent().insert(k))
            &&& after.ghost_frequent() == before.ghost_frequent()
        } else {
            &&& before.frequent().contains(k)
            &&& after.frequent() == before.frequent().remove(k)
            &&& after.recent() == before.recent()
            &&& after.ghost_frequent().subset_of(before.ghost_frequent().insert(k))
            &&& after.ghost_recent() == before.ghost_recent()
        }
    }

    /// An eviction by the ARC rule from `before` to `after` that took `k`,
    /// made while a block of `size` bytes did not fit under the ceiling.
    pub open spec fn eviction_step(before: ArcCache, after: ArcCache, k: u64, size: nat) -> bool {
        &&& before.used() + size > before.ceiling()
        &&& Self::evicted_by_rule(before, after, k)
    }

    /// The states `steps` are a run of evictions by the ARC rule that took
    /// the keys `gone` in order, each made while a block of `size` bytes did
    /// not fit under the ceiling, ending once it fits or nothing is held.
    pub open spec fn evictions_until_fit(steps: Seq<ArcCache>, gone: Seq<u64>, size: nat) -> bool {
        &&& steps.len() == gone.len() + 1
        &&& forall|i: int|
            0 <= i < gone.len() ==> #[trigger] Self::eviction_step(steps[i], steps[i + 1], gone[i], size)
        &&& !(steps.last().used() + size > steps.last().ceiling() && steps.last()@.dom().len() > 0)
    }

    /// `after` is `before` after evicting by the ARC rule through `steps`,
    /// from `before` on, until `value` fits, then taking `value` under the
    /// new key `key` at the recent end of T1.
    pub open spec fn inserted_after_evictions(
        before: ArcCache,
        after: ArcCache,
        key: u64,
        value: Seq<u8>,
        steps: Seq<ArcCache>,
        gone: Seq<u64>,
    ) -> bool {
        &&& steps[0] == before
        &&& Self::evictions_until_fit(steps, gone, value.len())
        &&& after@ == steps.last()@.insert(key, value)
        &&& after.recent() == steps.last().recent().insert(key)
        &&& after.frequent() == steps.last().frequent()
        &&& after.ghost_recent() == steps.last().ghost_recent()
        &&& after.ghost_frequent() == steps.last().ghost_frequent()
        &&& after.evicted_log() == steps.last().evicted_log()
        &&& after.target() == before.target()
        &&& after.ceiling() == before.ceiling()
        &&& !steps.last().recent().contains(key)
        &&& !steps.last().frequent().contains(key)
    }

    /// `after` is `before` without the key `key`: its block, and its place
    /// in T1 or T2, are gone; the ghost lists, the log, the target and the
    /// ceiling stay.
    pub open spec fn without_key(before: ArcCache, after: ArcCache, key: u64) -> bool {
        &&& after@ == before@.remove(key)
        &&& after.recent() == before.recent().remove(key)
        &&& after.frequent() == before.frequent().remove(key)
        &&& after.ghost_recent() == before.ghost_recent()
        &&& after.ghost_frequent() == before.ghost_frequent()
        &&& after.evicted_log() == before.evicted_log()
        &&& after.target() == before.target()
        &&& after.ceiling() == before.ceiling()
    }

    /// The key the next eviction would take is one the cache holds, in T1
    /// or T2.
    pub proof fn lemma_next_victim_held(&self)
        requires
            self.wf(),
        ensures
            self.next_victim() matches Some(k) ==> self@.contains_key(k) && (self.recent().contains(k)
                || self.frequent().contains(k)),
    {
        lemma_first_live(self.t1.order@, self.t1.set@);
        lemma_first_live(self.t2.order@, self.t2.set@);
        assert(self@.dom() =~= self.data@.dom());
    }

    /// The cache's invariant: lists consistent with the stored blocks, and
    /// the byte count equal to the total size of the stored blocks.
    pub closed spec fn wf(&self) -> bool {
        &&& self.t1.wf() && self.t2.wf() && self.b1.wf() && self.b2.wf()
        &&& self.data@.dom().finite()
        &&& forall|k: u64| #[trigger] self.data@.contains_key(k) ==> self.data@[k].size == self.data@[k].data@.len()
        &&& self.used_bytes == total_bytes(self@)
        &&& self.t1.set@.disjoint(self.t2.set@)
        &&& self.t1.set@ + self.t2.set@ == self.data@.dom()
        &&& self.p <= self.max_bytes
    }

    /// Every key of a well-formed cache sits in exactly one of T1 and T2,
    /// and the byte count is the total size of the blocks.
    pub proof fn lemma_wf(&self)
        requires
            self.wf(),
        ensures
            self@.dom().finite(),
            self.used() == total_bytes(self@),
            self.recent().disjoint(self.frequent()),
            self.recent() + self.frequent() == self@.dom(),
            self.target() <= self.ceiling(),
    {
        assert(self@.dom() =~= self.data@.dom());
    }

    pub fn new(max_bytes: usize) -> (r: Self)
        ensures
            r.wf(),
            r@ == Map::<u64, Seq<u8>>::empty(),
            r.used() == 0,
            r.ceiling() == max_bytes,
            r.target() == 0,
            r.recent() == Set::<u64>::empty() && r.frequent() == Set::<u64>::empty(),
            r.ghost_recent() == Set::<u64>::empty() && r.ghost_frequent() == Set::<u64>::empty(),
            r.evicted_log() == Seq::<u64>::empty(),
    {
        let r = Self {
            t1: OrderedSet::new(),
            t2: OrderedSet::new(),
            b1: OrderedSet::new(),
            b2: OrderedSet::new(),
            data: HashMap::new(),
            p: 0,
            max_bytes,
            used_bytes: 0,
            evicted: Vec::new(),
        };
        proof {
            assert(r@ =~= Map::<u64, Seq<u8>>::empty());
            assert(r.data@.dom() =~= Set::<u64>::empty());
            assert(r.t1.set@ + r.t2.set@ =~= Set::<u64>::empty());
        }
        r
    }

    pub fn used_bytes(&self) -> (r: usize)
        requires
            self.wf(),
        ensures
            r == self.used(),
            r == total_bytes(self@),
    {
        self.used_bytes
    }

    pub fn max_bytes(&self) -> (r: usize)
        ensures
            r == self.ceiling(),
    {
        self.max_bytes
    }

    /// Adaptive target size of the recency list.
    pub fn p(&self) -> (r: usize)
        ensures
            r == self.target(),
    {
        self.p
    }

    /// Whether `key` is in the recency list (T1).
    pub fn in_recent(&self, key: u64) -> (r: bool)
        ensures
            r == self.recent().contains(key),
    {
        self.t1.contains(key)
    }

    /// Whether `key` is in the frequency list (T2).
    pub fn in_frequent(&self, key: u64) -> (r: bool)
        ensures
            r == self.frequent().contains(key),
    {
        self.t2.contains(key)
    }

    /// Returns keys that were evicted since the last call to `drain_evicted`.
    pub fn drain_evicted(&mut self) -> (r: Vec<u64>)
        requires
            old(self).wf(),
        ensures
            final(self).wf(),
            r@ == old(self).evicted_log(),
            final(self).evicted_log() == Seq::<u64>::empty(),
            final(self)@ == old(self)@,
            final(self).used() == old(self).used(),
            final(self).ceiling() == old(self).ceiling(),
            final(self).target() == old(self).target(),
            final(self).recent() == old(self).recent(),
            final(self).frequent() == old(self).frequent(),
    {
        let mut out: Vec<u64> = Vec::new();
        std::mem::swap(&mut out, &mut self.evicted);
        out
    }

    /// Check if a key is present (without promoting).
    pub fn contains(&self, key: u64) -> (r: bool)
        requires
            self.wf(),
        ensures
            r == self@.contains_key(key),
    {
        self.data.contains_key(&key)
    }
}

} // verus!

verus! {

impl ArcCache {
    /// Promote a key from T1 to T2 (seen more than once).
    fn promote(&mut self, key: u64)
        requires
            old(self).wf(),
            old(self)@.contains_key(key),
        ensures
            final(self).wf(),
            final(self)@ == old(self)@,
            final(self).data@ == old(self).data@,
            final(self).used_bytes == old(self).used_bytes,
            final(self).recent() == old(self).recent().remove(key),
            final(self).frequent() == old(self).frequent().insert(key),
            final(self).b1 == old(self).b1 && final(self).b2 == old(self).b2,
            final(self).evicted == old(self).evicted,
            final(self).p == old(self).p && final(self).max_bytes == old(self).max_bytes,
    {
        proof {
            assert(self.data@.dom().contains(key));
        }
        if self.t1.remove(key) {
            self.t2.push_back(key);
            proof {
                assert(self.t1.set@ + self.t2.set@ =~= self.data@.dom());
                assert(self.t1.set@.disjoint(self.t2.set@));
                assert(self@ == old(self)@);
            }
        } else {
            proof {
                assert(self.t2.set@.contains(key));
                assert(self.t2.set@.insert(key) =~= self.t2.set@);
                assert(self.t1.set@.remove(key) =~= self.t1.set@);
                assert(self.t1.set@ + self.t2.set@ =~= self.data@.dom());
            }
        }
    }

    /// Evict one entry and record it in the evicted list.
    fn evict_one(&mut self) -> (k: Ghost<u64>)
        requires
            old(self).wf(),
            old(self)@.dom().len() > 0,
        ensures
            final(self).wf(),
            Some(k@) == old(self).next_victim(),
            old(self)@.contains_key(k@),
            final(self)@ == old(self)@.remove(k@),
            final(self).evicted@ == old(self).evicted@.push(k@),
            final(self).used_bytes == old(self).used_bytes - old(self)@[k@].len(),
            final(self).p == old(self).p && final(self).max_bytes == old(self).max_bytes,
            Self::evicted_by_rule(*old(self), *final(self), k@),
    {
        proof {
            self.lemma_wf();
            lemma_first_live(self.t1.order@, self.t1.set@);
            lemma_first_live(self.t2.order@, self.t2.set@);
        }
        let evict_from_t1 = self.t1.len() > self.p || self.t2.is_empty();
        let ghost d0 = self.data@;
        let ghost m0 = self@;
        if evict_from_t1 && !self.t1.is_empty() {
            proof {
                assert(first_live(self.t1.order@, self.t1.set@) < self.t1.order@.len()) by {
                    if first_live(self.t1.order@, self.t1.set@) >= self.t1.order@.len() {
                        let x = self.t1.set@.choose();
                        assert(self.t1.set@.contains(x));
                        assert(self.t1.order@.contains(x));
                        let j = choose|j: int| 0 <= j < self.t1.order@.len() && self.t1.order@[j] == x;
                        assert(!self.t1.set@.contains(self.t1.order@[j]));
                    }
                }
            }
            let popped = self.t1.pop_front();
            let key = popped.unwrap();
            proof {
                assert(d0.dom().contains(key));
                lemma_total_remove(m0, key);
            }
            let removed = self.data.remove(&key);
            match removed {
                Some(entry) => {
                    self.used_bytes -= entry.size;
                },
                None => {},
            }
            self.evicted.push(key);
            self.b1.push_back(key);
            self.b1.truncate_to(GHOST_CAPACITY);
            proof {
                assert(self@ =~= m0.remove(key));
                assert(self.t1.set@ + self.t2.set@ =~= self.data@.dom());
            }
            Ghost(key)
        } else {
            proof {
                assert(self.t2.set@.len() > 0) by {
                    if self.t2.set@.len() == 0 {
                        assert(self.t1.set@.len() == 0);
                        assert(self.t1.set@ + self.t2.set@ =~= Set::<u64>::empty());
                    }
                }
                assert(first_live(self.t2.order@, self.t2.set@) < self.t2.order@.len()) by {
                    if first_live(self.t2.order@, self.t2.set@) >= self.t2.order@.len() {
                        let x = self.t2.set@.choose();
                        assert(self.t2.set@.contains(x));
                        assert(self.t2.order@.contains(x));
                        let j = choose|j: int| 0 <= j < self.t2.order@.len() && self.t2.order@[j] == x;
                        assert(!self.t2.set@.contains(self.t2.order@[j]));
                    }
                }
                if evict_from_t1 {
                    assert(self.t1.set@.len() == 0);
                    assert(self.t1.set@.len() > self.p || self.t2.set@.len() == 0);
                }
            }
            let popped = self.t2.pop_front();
            let key = popped.unwrap();
            proof {
                assert(d0.dom().contains(key));
                lemma_total_remove(m0, key);
            }
            let removed = self.data.remove(&key);
            match removed {
                Some(entry) => {
                    self.used_bytes -= entry.size;
                },
                None => {},
            }
            self.evicted.push(key);
            self.b2.push_back(key);
            self.b2.truncate_to(GHOST_CAPACITY);
            proof {
                assert(self@ =~= m0.remove(key));
                assert(self.t1.set@ + self.t2.set@ =~= self.data@.dom());
            }
            Ghost(key)
        }
    }
}

} // verus!

verus! {

impl ArcCache {
    /// Insert a block into the cache. A key already present leaves first,
    /// then the block goes in as for a new key and the key counts as seen
    /// again (frequent). A new block first evicts blocks by the ARC rule,
    /// each once and each the key `next_victim` names at that point (so the
    /// first is the key `peek_eviction_candidate` names),
    /// until it fits under the ceiling or nothing is left; so a block no
    /// larger than the ceiling never takes the cache over it.
    pub fn insert(&mut self, key: u64, value: Vec<u8>)
        requires
            old(self).wf(),
            old(self).used() + value@.len() <= usize::MAX,
        ensures
            final(self).wf(),
            final(self).ceiling() == old(self).ceiling(),
            final(self).target() == old(self).target(),
            final(self).frequent().contains(key) || final(self).recent().contains(key),
            old(self)@.contains_key(key) ==> final(self).frequent().contains(key),
            exists|gone: Seq<u64>|
                {
                    &&& final(self).evicted_log() == old(self).evicted_log() + gone
                    &&& gone.no_duplicates()
                    &&& forall|i: int| 0 <= i < gone.len() ==> old(self)@.contains_key(#[trigger] gone[i]) && gone[i] != key
                    &&& final(self)@ == old(self)@.remove_keys(gone.to_set()).insert(key, value@)
                    &&& (total_bytes(old(self)@.remove(key)) + value@.len() <= old(self).ceiling() ==> gone.len() == 0)
                    &&& (!old(self)@.contains_key(key) && gone.len() > 0 ==> old(self).next_victim() == Some(gone[0]))
                },
            value@.len() <= old(self).ceiling() ==> final(self).used() <= final(self).ceiling(),
            final(self).used() == total_bytes(final(self)@),
            exists|steps: Seq<ArcCache>, gone: Seq<u64>|
                {
                    &&& (if old(self)@.contains_key(key) {
                        Self::without_key(*old(self), steps[0], key)
                    } else {
                        steps[0] == *old(self)
                    })
                    &&& Self::evictions_until_fit(steps, gone, value@.len())
                    &&& final(self)@ == steps.last()@.insert(key, value@)
                    &&& final(self).recent() == (if old(self)@.contains_key(key) {
                        steps.last().recent()
                    } else {
                        steps.last().recent().insert(key)
                    })
                    &&& final(self).frequent() == (if old(self)@.contains_key(key) {
                        steps.last().frequent().insert(key)
                    } else {
                        steps.last().frequent()
                    })
                    &&& final(self).ghost_recent() == steps.last().ghost_recent()
                    &&& final(self).ghost_frequent() == steps.last().ghost_frequent()
                    &&& final(self).evicted_log() == steps.last().evicted_log()
                },
    {
        proof {
            self.lemma_wf();
        }
        if self.data.contains_key(&key) {
            let ghost m0 = self@;
            self.remove(key);
            let ghost r0 = *self;
            proof {
                self.lemma_wf();
                lemma_total_remove(m0, key);
                assert(Self::without_key(*old(self), r0, key));
            }
            self.insert_absent(key, value);
            let ghost mid = self@;
            let ghost mid_state = *self;
            self.promote(key);
            proof {
                let (gone1, steps1) = choose|gone: Seq<u64>, steps: Seq<ArcCache>|
                    {
                        &&& mid_state.evicted_log() == r0.evicted_log() + gone
                        &&& gone.no_duplicates()
                        &&& forall|i: int| 0 <= i < gone.len() ==> r0@.contains_key(#[trigger] gone[i])
                        &&& mid_state@ == r0@.remove_keys(gone.to_set()).insert(key, value@)
                        &&& (total_bytes(r0@) + value@.len() <= r0.ceiling() ==> gone.len() == 0)
                        &&& (gone.len() > 0 ==> r0.next_victim() == Some(gone[0]))
                        &&& Self::inserted_after_evictions(r0, mid_state, key, value@, steps, gone)
                    };
                let last = steps1.last();
                assert(self.recent() =~= last.recent());
                assert(self.frequent() =~= last.frequent().insert(key));
                assert(Self::without_key(*old(self), steps1[0], key));
                let gone = gone1;
                assert(r0@ == m0.remove(key));
                assert(m0.remove(key).remove_keys(gone.to_set()).insert(key, value@) =~= m0.remove_keys(
                    gone.to_set(),
                ).insert(key, value@));
                assert forall|i: int| 0 <= i < gone.len() implies old(self)@.contains_key(#[trigger] gone[i])
                    && gone[i] != key by {
                    assert(m0.remove(key).contains_key(gone[i]));
                }
                assert(self.evicted_log() == old(self).evicted_log() + gone);
                assert(self@ == old(self)@.remove_keys(gone.to_set()).insert(key, value@));
                assert(total_bytes(old(self)@.remove(key)) + value@.len() <= old(self).ceiling() ==> gone.len() == 0);
                assert(!old(self)@.contains_key(key) && gone.len() > 0 ==> old(self).next_victim() == Some(gone[0]));
                assert(Self::evictions_until_fit(steps1, gone1, value@.len()));
            }
            return;
        }
        proof {
            assert(old(self)@.remove(key) =~= old(self)@);
        }
        let ghost vv = value@;
        self.insert_absent(key, value);
        proof {
            let (gone1, steps1) = choose|gone: Seq<u64>, steps: Seq<ArcCache>|
                {
                    &&& self.evicted_log() == old(self).evicted_log() + gone
                    &&& gone.no_duplicates()
                    &&& forall|i: int| 0 <= i < gone.len() ==> old(self)@.contains_key(#[trigger] gone[i])
                    &&& self@ == old(self)@.remove_keys(gone.to_set()).insert(key, vv)
                    &&& (total_bytes(old(self)@) + vv.len() <= old(self).ceiling() ==> gone.len() == 0)
                    &&& (gone.len() > 0 ==> old(self).next_victim() == Some(gone[0]))
                    &&& Self::inserted_after_evictions(*old(self), *self, key, vv, steps, gone)
                };
            assert(Self::evictions_until_fit(steps1, gone1, vv.len()));
            assert(forall|i: int| 0 <= i < gone1.len() ==> old(self)@.contains_key(#[trigger] gone1[i]) && gone1[i] != key);
        }
    }

    /// Insert a block under a key the cache does not hold.
    fn insert_absent(&mut self, key: u64, value: Vec<u8>)
        requires
            old(self).wf(),
            !old(self)@.contains_key(key),
            old(self).used() + value@.len() <= usize::MAX,
        ensures
            final(self).wf(),
            final(self).ceiling() == old(self).ceiling(),
            final(self).target() == old(self).target(),
            final(self).recent().contains(key) || final(self).frequent().contains(key),
            exists|gone: Seq<u64>, steps: Seq<ArcCache>|
                {
                    &&& final(self).evicted_log() == old(self).evicted_log() + gone
                    &&& gone.no_duplicates()
                    &&& forall|i: int| 0 <= i < gone.len() ==> old(self)@.contains_key(#[trigger] gone[i])
                    &&& final(self)@ == old(self)@.remove_keys(gone.to_set()).insert(key, value@)
                    &&& (total_bytes(old(self)@) + value@.len() <= old(self).ceiling() ==> gone.len() == 0)
                    &&& (gone.len() > 0 ==> old(self).next_victim() == Some(gone[0]))
                    &&& Self::inserted_after_evictions(*old(self), *final(self), key, value@, steps, gone)
                },
            value@.len() <= old(self).ceiling() ==> final(self).used() <= final(self).ceiling(),
            final(self).used() == total_bytes(final(self)@),
    {
        proof {
            self.lemma_wf();
        }
        let ghost vv = value@;
        let size = value.len();
        let ghost m0 = self@;
        let ghost mut gone: Seq<u64> = Seq::empty();
        let ghost mut steps: Seq<ArcCache> = seq![*self];
        proof {
            assert(m0.remove_keys(gone.to_set()) =~= m0);
            assert(self.evicted@ =~= old(self).evicted@ + gone);
        }
        while self.data.len() > 0 && self.used_bytes + size > self.max_bytes
            invariant
                self.wf(),
                !self@.contains_key(key),
                self@ == m0.remove_keys(gone.to_set()),
                self.evicted@ == old(self).evicted@ + gone,
                forall|i: int| 0 <= i < gone.len() ==> m0.contains_key(#[trigger] gone[i]),
                self.used_bytes <= old(self).used_bytes,
                old(self).used() + size <= usize::MAX,
                size == value@.len(),
                self.max_bytes == old(self).max_bytes,
                self.p == old(self).p,
                m0 == old(self)@,
                old(self).used() + size <= old(self).ceiling() ==> gone.len() == 0,
                gone.no_duplicates(),
                gone.len() == 0 ==> self.next_victim() == old(self).next_victim(),
                gone.len() > 0 ==> old(self).next_victim() == Some(gone[0]),
                steps.len() == gone.len() + 1,
                steps[0] == *old(self),
                steps.last() == *self,
                forall|i: int|
                    0 <= i < gone.len() ==> #[trigger] Self::eviction_step(steps[i], steps[i + 1], gone[i], size as nat),
            decreases self.data@.dom().len(),
        {
            let ghost pre = *self;
            assert(pre.used() + size > pre.ceiling());
            proof {
                self.lemma_wf();
                assert(self@.dom() =~= self.data@.dom());
                if self.data@.dom().len() > 0 && gone.len() == 0 {
                    assert(self@ =~= m0);
                }
            }
            let k = self.evict_one();
            proof {
                let g2 = gone.push(k@);
                assert(self@ =~= m0.remove_keys(g2.to_set())) by {
                    assert forall|x: u64| #[trigger] g2.to_set().contains(x) <==> (gone.to_set().contains(x) || x == k@) by {
                        if g2.to_set().contains(x) {
                            let j = choose|j: int| 0 <= j < g2.len() && g2[j] == x;
                            if j < gone.len() {
                                assert(gone[j] == x);
                                assert(gone.contains(x));
                            }
                        }
                        if gone.to_set().contains(x) {
                            let j = choose|j: int| 0 <= j < gone.len() && gone[j] == x;
                            assert(g2[j] == x);
                            assert(g2.contains(x));
                        }
                        if x == k@ {
                            assert(g2[gone.len() as int] == x);
                            assert(g2.contains(x));
                        }
                    }
                }
                assert(self.evicted@ =~= old(self).evicted@ + g2);
                assert(!gone.contains(k@)) by {
                    if gone.contains(k@) {
                        assert(gone.to_set().contains(k@));
                    }
                }
                assert(g2.no_duplicates()) by {
                    assert forall|a: int, b: int| 0 <= a < g2.len() && 0 <= b < g2.len() && a != b implies g2[a]
                        != g2[b] by {
                        if a < gone.len() && b < gone.len() {
                            assert(g2[a] == gone[a] && g2[b] == gone[b]);
                        } else if a < gone.len() {
                            assert(g2[a] == gone[a]);
                        } else if b < gone.len() {
                            assert(g2[b] == gone[b]);
                        }
                    }
                }
                assert(g2[0] == (if gone.len() == 0 { k@ } else { gone[0] }));
                assert(m0.contains_key(k@)) by {
                    assert(!gone.to_set().contains(k@) ==> m0.remove_keys(gone.to_set()).contains_key(k@) ==> m0.contains_key(k@));
                }
                let s2 = steps.push(*self);
                assert(s2[gone.len() as int] == pre);
                assert(s2[gone.len() + 1int] == *self);
                assert forall|i: int| 0 <= i < g2.len() implies #[trigger] Self::eviction_step(s2[i], s2[i + 1], g2[i], size as nat) by {
                    if i < gone.len() {
                        assert(g2[i] == gone[i]);
                        assert(s2[i] == steps[i]);
                        assert(s2[i + 1] == steps[i + 1]);
                        assert(Self::eviction_step(steps[i], steps[i + 1], gone[i], size as nat));
                    } else {
                        assert(s2[i] == pre);
                        assert(s2[i + 1] == *self);
                        assert(g2[i] == k@);
                    }
                }
                steps = s2;
                gone = g2;
                self.lemma_wf();
                assert(self@.dom() =~= self.data@.dom());
            }
        }
        proof {
            self.lemma_wf();
            assert(self@.dom() =~= self.data@.dom());
            if self.data@.dom().len() == 0 {
                assert(self@ =~= Map::<u64, Seq<u8>>::empty());
                assert(total_bytes(self@) == 0);
            }
            lemma_total_insert(self@, key, value@);
            assert(self@.remove(key) =~= self@);
        }
        self.used_bytes = self.used_bytes + size;
        self.data.insert(key, Entry { data: value, size });
        let ghost v2 = self.data@[key].data@;
        if !self.t1.contains(key) && !self.t2.contains(key) {
            self.t1.push_back(key);
        }
        proof {
            assert(v2 == vv);
            assert(self.t1.set@ + self.t2.set@ =~= self.data@.dom());
            assert(self@ =~= m0.remove_keys(gone.to_set()).insert(key, vv));
            assert(self.evicted_log() == old(self).evicted_log() + gone);
            assert(forall|i: int| 0 <= i < gone.len() ==> old(self)@.contains_key(#[trigger] gone[i]));
            assert(Self::evictions_until_fit(steps, gone, vv.len()));
            assert(self.t1.set@ =~= steps.last().recent().insert(key));
            assert(Self::inserted_after_evictions(*old(self), *self, key, vv, steps, gone));
        }
    }
}

} // verus!

verus! {

impl ArcCache {
    /// Get a block from the cache. A hit promotes the key to T2; a miss on a
    /// key remembered in B1 grows the target by one (up to the ceiling), a
    /// miss remembered in B2 shrinks it by one.
    pub fn get(&mut self, key: u64) -> (r: Option<&Vec<u8>>)
        requires
            old(self).wf(),
        ensures
            final(self).wf(),
            final(self)@ == old(self)@,
            final(self).used() == old(self).used(),
            final(self).ceiling() == old(self).ceiling(),
            final(self).evicted_log() == old(self).evicted_log(),
            match r {
                Some(v) => {
                    &&& old(self)@.contains_key(key)
                    &&& v@ == old(self)@[key]
                    &&& final(self).frequent().contains(key)
                    &&& !final(self).recent().contains(key)
                    &&& final(self).target() == old(self).target()
                },
                None => {
                    &&& !old(self)@.contains_key(key)
                    &&& final(self).target() == (if old(self).ghost_recent().contains(key) {
                        if old(self).target() + 1 <= old(self).ceiling() {
                            old(self).target() + 1
                        } else {
                            old(self).ceiling()
                        }
                    } else if old(self).ghost_frequent().contains(key) {
                        if old(self).target() > 0 {
                            (old(self).target() - 1) as nat
                        } else {
                            0
                        }
                    } else {
                        old(self).target()
                    })
                },
            },
    {
        if self.data.contains_key(&key) {
            proof {
                assert(old(self)@.contains_key(key));
            }
            self.promote(key);
            proof {
                self.lemma_wf();
            }
            return match self.data.get(&key) {
                Some(e) => Some(&e.data),
                None => None,
            };
        }
        if self.b1.contains(key) {
            self.p = if self.p < self.max_bytes {
                self.p + 1
            } else {
                self.max_bytes
            };
        } else if self.b2.contains(key) {
            self.p = if self.p > 0 {
                self.p - 1
            } else {
                0
            };
        }
        None
    }

    /// Remove a specific key (e.g. on file delete).
    pub fn remove(&mut self, key: u64) -> (r: Option<Vec<u8>>)
        requires
            old(self).wf(),
        ensures
            final(self).wf(),
            final(self)@ == old(self)@.remove(key),
            match r {
                Some(v) => old(self)@.contains_key(key) && v@ == old(self)@[key],
                None => !old(self)@.contains_key(key),
            },
            final(self).used() == total_bytes(final(self)@),
            final(self).ceiling() == old(self).ceiling(),
            final(self).target() == old(self).target(),
            final(self).evicted_log() == old(self).evicted_log(),
            !final(self).recent().contains(key) && !final(self).frequent().contains(key),
            final(self).recent() == old(self).recent().remove(key),
            final(self).frequent() == old(self).frequent().remove(key),
            final(self).ghost_recent() == old(self).ghost_recent(),
            final(self).ghost_frequent() == old(self).ghost_frequent(),
    {
        proof {
            self.lemma_wf();
        }
        let ghost m0 = self@;
        match self.data.remove(&key) {
            Some(entry) => {
                proof {
                    lemma_total_remove(m0, key);
                }
                self.used_bytes = self.used_bytes - entry.size;
                self.t1.remove(key);
                self.t2.remove(key);
                proof {
                    assert(self@ =~= m0.remove(key));
                    assert(self.t1.set@ + self.t2.set@ =~= self.data@.dom());
                }
                Some(entry.data)
            },
            None => {
                proof {
                    assert(self@ =~= m0.remove(key));
                    assert(self@ =~= m0);
                    assert(self.data@.dom() =~= old(self).data@.dom());
                    assert(!self.t1.set@.contains(key) && !self.t2.set@.contains(key));
                    assert(self.t1.set@.remove(key) =~= self.t1.set@);
                    assert(self.t2.set@.remove(key) =~= self.t2.set@);
                }
                None
            },
        }
    }

    /// Peek at which key would be evicted next, without evicting it: none
    /// while the cache is below its ceiling.
    pub fn peek_eviction_candidate(&self) -> (r: Option<u64>)
        requires
            self.wf(),
        ensures
            r == (if self.used() < self.ceiling() {
                None
            } else {
                self.next_victim()
            }),
            r matches Some(k) ==> self@.contains_key(k),
    {
        proof {
            self.lemma_next_victim_held();
        }
        if self.used_bytes < self.max_bytes {
            return None;
        }
        let evict_from_t1 = self.t1.len() > self.p || self.t2.is_empty();
        if evict_from_t1 {
            first_live_in(&self.t1)
        } else {
            first_live_in(&self.t2)
        }
    }
}

/// The front of an ordered set's queue, skipping tombstones.
fn first_live_in(s: &OrderedSet) -> (r: Option<u64>)
    ensures
        r == first_live_key(s.order@, s.set@),
{
    let n = s.order.len();
    let mut i: usize = 0;
    proof {
        lemma_first_live(s.order@, s.set@);
    }
    while i < n
        invariant
            n == s.order@.len(),
            i <= first_live(s.order@, s.set@),
            first_live(s.order@, s.set@) <= n,
            first_live(s.order@, s.set@) < n ==> s.set@.contains(s.order@[first_live(s.order@, s.set@) as int]),
            forall|j: int| 0 <= j < first_live(s.order@, s.set@) ==> !s.set@.contains(#[trigger] s.order@[j]),
        decreases n - i,
    {
        let k = s.order[i];
        if s.set.contains(&k) {
            return Some(k);
        }
        i += 1;
    }
    None
}

} // verus!
