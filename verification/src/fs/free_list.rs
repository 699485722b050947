//! Persistent free list — tracks reclaimed data extents across mounts.
//!
//! On disk (at offset 512 of block 0): a 32-byte header holding the magic,
//! the extent count and a CRC-32 over the first 12 header bytes and all
//! extent records, followed by 16-byte (offset, length) records.
use vstd::prelude::*;
use vstd::bytes::*;
use vstd::slice::*;
use vstd::multiset::Multiset;
use crate::codec::{append_bytes, append_u32, append_u64, copy_range, le32_at, le64_at, read_le32, read_le64, to_array, zeros};
use crate::fs::disk::{crc32, crc32_checksum, le_to_u64, u64_to_le};

verus! {

pub const FREE_LIST_MAGIC: u64 = 0x4652454C49535400;
pub const FREE_LIST_OFFSET: u64 = 512;
pub const FREE_LIST_HEADER: usize = 32;
pub const FREE_EXTENT_SIZE: usize = 16;
pub const MAX_PERSISTED_EXTENTS: usize = 200;

/// Smallest remainder of a claimed extent that is put back on the list.
pub const MIN_REMAINDER: u64 = 512;

/// A single free extent: a contiguous range of bytes on disk that can be reused.
#[derive(Debug, Clone, Copy, PartialEq, Eq, Structural)]
pub struct FreeExtent {
    pub offset: u64,
    pub length: u64,
}

/// One past the last byte of an extent.
pub open spec fn ext_end(e: FreeExtent) -> int {
    e.offset + e.length
}

/// Byte `x` lies in extent `e`.
pub open spec fn in_ext(e: FreeExtent, x: int) -> bool {
    e.offset <= x < ext_end(e)
}

/// Byte `x` lies in some extent of `s`.
pub open spec fn covered(s: Seq<FreeExtent>, x: int) -> bool {
    exists|i: int| 0 <= i < s.len() && in_ext(#[trigger] s[i], x)
}

/// Extents in increasing offset order, each ending strictly before the next
/// begins: no two overlap or touch.
pub open spec fn canonical(s: Seq<FreeExtent>) -> bool {
    forall|i: int, j: int| 0 <= i < j < s.len() ==> ext_end(#[trigger] s[i]) < (#[trigger] s[j]).offset
}

/// Extents in non-decreasing offset order.
pub open spec fn offset_sorted(s: Seq<FreeExtent>) -> bool {
    forall|i: int, j: int| 0 <= i <= j < s.len() ==> (#[trigger] s[i]).offset <= (#[trigger] s[j]).offset
}

/// Every extent's end fits in a u64.
pub open spec fn ends_fit(s: Seq<FreeExtent>) -> bool {
    forall|i: int| 0 <= i < s.len() ==> ext_end(#[trigger] s[i]) <= u64::MAX
}

/// Folding a sorted run of extents left to right, merging each into the
/// previous one when it starts at or before that one's end.
pub open spec fn merge_runs(s: Seq<FreeExtent>) -> Seq<FreeExtent>
    decreases s.len(),
{
    if s.len() == 0 {
        s
    } else {
        let m = merge_runs(s.drop_last());
        let e = s.last();
        if m.len() > 0 && e.offset <= ext_end(m.last()) {
            let last = m.last();
            let new_end = if ext_end(e) > ext_end(last) { ext_end(e) } else { ext_end(last) };
            m.update(m.len() - 1, FreeExtent { offset: last.offset, length: (new_end - last.offset) as u64 })
        } else {
            m.push(e)
        }
    }
}

/// Sum of the extent lengths.
pub open spec fn total_length(s: Seq<FreeExtent>) -> int
    decreases s.len(),
{
    if s.len() == 0 {
        0
    } else {
        total_length(s.drop_last()) + s.last().length
    }
}

/// The 16-byte record of an extent.
pub open spec fn extent_image(e: FreeExtent) -> Seq<u8> {
    spec_u64_to_le_bytes(e.offset) + spec_u64_to_le_bytes(e.length)
}

impl FreeExtent {
    pub fn new(offset: u64, length: u64) -> (r: Self)
        ensures
            r == (FreeExtent { offset, length }),
    {
        Self { offset, length }
    }

    pub fn to_bytes(&self) -> (r: [u8; FREE_EXTENT_SIZE])
        ensures
            r@ == extent_image(*self),
    {
        let mut v: Vec<u8> = Vec::new();
        append_u64(&mut v, self.offset);
        append_u64(&mut v, self.length);
        proof {
            lemma_auto_spec_u64_to_from_le_bytes();
        }
        to_array::<FREE_EXTENT_SIZE>(v.as_slice())
    }

    pub fn from_bytes(b: &[u8; FREE_EXTENT_SIZE]) -> (r: Self)
        ensures
            r.offset == le64_at(b@, 0),
            r.length == le64_at(b@, 8),
    {
        let s = b.as_slice();
        Self { offset: read_le64(s, 0), length: read_le64(s, 8) }
    }
}

/// Decoding an extent record gives the extent back.
pub proof fn lemma_extent_roundtrip(e: FreeExtent)
    ensures
        le64_at(extent_image(e), 0) == e.offset,
        le64_at(extent_image(e), 8) == e.length,
{
    lemma_auto_spec_u64_to_from_le_bytes();
    assert(extent_image(e).subrange(0, 8) =~= spec_u64_to_le_bytes(e.offset));
    assert(extent_image(e).subrange(8, 16) =~= spec_u64_to_le_bytes(e.length));
}

// ── Laws of merging ──────────────────────────────────────────────────────────

proof fn lemma_merge_runs_offsets(s: Seq<FreeExtent>)
    requires
        offset_sorted(s),
    ensures
        merge_runs(s).len() <= s.len(),
        s.len() > 0 ==> merge_runs(s).len() > 0,
        forall|i: int| 0 <= i < merge_runs(s).len() ==> (#[trigger] merge_runs(s)[i]).offset <= s.last().offset,
        forall|i: int| 0 <= i < merge_runs(s).len() ==> s[0].offset <= (#[trigger] merge_runs(s)[i]).offset,
    decreases s.len(),
{
    if s.len() > 0 {
        let t = s.drop_last();
        assert(offset_sorted(t)) by {
            assert forall|i: int, j: int| 0 <= i <= j < t.len() implies (#[trigger] t[i]).offset <= (#[trigger] t[j]).offset by {
                assert(t[i] == s[i] && t[j] == s[j]);
            }
        }
        lemma_merge_runs_offsets(t);
        let m = merge_runs(t);
        assert forall|i: int| 0 <= i < merge_runs(s).len() implies (#[trigger] merge_runs(s)[i]).offset <= s.last().offset by {
            if i < m.len() {
                assert(merge_runs(s)[i].offset == m[i].offset);
                if t.len() > 0 {
                    assert(t.last() == s[s.len() - 2]);
                }
            }
        }
        assert forall|i: int| 0 <= i < merge_runs(s).len() implies s[0].offset <= (#[trigger] merge_runs(s)[i]).offset by {
            if i < m.len() {
                assert(merge_runs(s)[i].offset == m[i].offset);
                assert(t[0] == s[0]);
            }
        }
    }
}

/// Merging a sorted run yields canonical extents covering exactly the same bytes.
pub proof fn lemma_merge_runs(s: Seq<FreeExtent>)
    requires
        offset_sorted(s),
        ends_fit(s),
    ensures
        canonical(merge_runs(s)),
        ends_fit(merge_runs(s)),
        forall|x: int| covered(merge_runs(s), x) <==> covered(s, x),
    decreases s.len(),
{
    if s.len() > 0 {
        let t = s.drop_last();
        assert(offset_sorted(t)) by {
            assert forall|i: int, j: int| 0 <= i <= j < t.len() implies (#[trigger] t[i]).offset <= (#[trigger] t[j]).offset by {
                assert(t[i] == s[i] && t[j] == s[j]);
            }
        }
        assert(ends_fit(t)) by {
            assert forall|i: int| 0 <= i < t.len() implies ext_end(#[trigger] t[i]) <= u64::MAX by {
                assert(t[i] == s[i]);
            }
        }
        lemma_merge_runs(t);
        lemma_merge_runs_offsets(t);
        let m = merge_runs(t);
        let e = s.last();
        let r = merge_runs(s);
        assert(ext_end(e) <= u64::MAX) by {
            assert(e == s[s.len() - 1]);
        }
        if m.len() > 0 && e.offset <= ext_end(m.last()) {
            let last = m.last();
            assert(last.offset <= e.offset) by {
                assert(m[m.len() - 1].offset <= t.last().offset);
                assert(t.last() == s[s.len() - 2]);
            }
            assert forall|i: int, j: int| 0 <= i < j < r.len() implies ext_end(#[trigger] r[i]) < (#[trigger] r[j]).offset by {
                assert(r[i] == m[i]);
                assert(r[j].offset == m[j].offset);
            }
            assert forall|x: int| covered(r, x) <==> covered(s, x) by {
                if covered(r, x) {
                    let i = choose|i: int| 0 <= i < r.len() && in_ext(#[trigger] r[i], x);
                    if i < r.len() - 1 {
                        assert(r[i] == m[i]);
                        assert(covered(m, x));
                        assert(covered(t, x));
                        let j = choose|j: int| 0 <= j < t.len() && in_ext(#[trigger] t[j], x);
                        assert(s[j] == t[j]);
                    } else {
                        if x < ext_end(last) {
                            assert(in_ext(m[m.len() - 1], x));
                            assert(covered(m, x));
                            assert(covered(t, x));
                            let j = choose|j: int| 0 <= j < t.len() && in_ext(#[trigger] t[j], x);
                            assert(s[j] == t[j]);
                        } else {
                            assert(in_ext(s[s.len() - 1], x));
                        }
                    }
                }
                if covered(s, x) {
                    let j = choose|j: int| 0 <= j < s.len() && in_ext(#[trigger] s[j], x);
                    if j < s.len() - 1 {
                        assert(t[j] == s[j]);
                        assert(covered(t, x));
                        assert(covered(m, x));
                        let i = choose|i: int| 0 <= i < m.len() && in_ext(#[trigger] m[i], x);
                        if i < m.len() - 1 {
                            assert(r[i] == m[i]);
                        } else {
                            assert(in_ext(r[r.len() - 1], x));
                        }
                    } else {
                        assert(in_ext(r[r.len() - 1], x));
                    }
                }
            }
        } else {
            assert forall|i: int, j: int| 0 <= i < j < r.len() implies ext_end(#[trigger] r[i]) < (#[trigger] r[j]).offset by {
                if j == r.len() - 1 {
                    assert(r[j] == e);
                    assert(r[i] == m[i]);
                    if i < m.len() - 1 {
                        assert(ext_end(m[i]) < m[m.len() - 1].offset);
                    }
                } else {
                    assert(r[i] == m[i] && r[j] == m[j]);
                }
            }
            assert forall|x: int| covered(r, x) <==> covered(s, x) by {
                if covered(r, x) {
                    let i = choose|i: int| 0 <= i < r.len() && in_ext(#[trigger] r[i], x);
                    if i < m.len() {
                        assert(r[i] == m[i]);
                        assert(covered(m, x));
                        assert(covered(t, x));
                        let j = choose|j: int| 0 <= j < t.len() && in_ext(#[trigger] t[j], x);
                        assert(s[j] == t[j]);
                    } else {
                        assert(r[i] == s[s.len() - 1]);
                    }
                }
                if covered(s, x) {
                    let j = choose|j: int| 0 <= j < s.len() && in_ext(#[trigger] s[j], x);
                    if j < s.len() - 1 {
                        assert(t[j] == s[j]);
                        assert(covered(t, x));
                        let i = choose|i: int| 0 <= i < m.len() && in_ext(#[trigger] m[i], x);
                        assert(r[i] == m[i]);
                    } else {
                        assert(r[r.len() - 1] == e);
                    }
                }
            }
        }
        assert(ends_fit(r)) by {
            assert forall|i: int| 0 <= i < r.len() implies ext_end(#[trigger] r[i]) <= u64::MAX by {
                if i < m.len() && !(i == m.len() - 1 && m.len() > 0 && e.offset <= ext_end(m.last())) {
                    assert(r[i] == m[i]);
                }
            }
        }
    }
}


// ── Sorting and merging ──────────────────────────────────────────────────────

/// Stable insertion sort by offset.
fn sort_by_offset(v: &Vec<FreeExtent>) -> (r: Vec<FreeExtent>)
    ensures
        offset_sorted(r@),
        r@.to_multiset() == v@.to_multiset(),
{
    broadcast use vstd::seq_lib::group_to_multiset_ensures;
    let mut r: Vec<FreeExtent> = Vec::new();
    let mut i: usize = 0;
    while i < v.len()
        invariant
            i <= v.len(),
            offset_sorted(r@),
            r@.to_multiset() == v@.subrange(0, i as int).to_multiset(),
        decreases v.len() - i,
    {
        let e = v[i];
        let mut pos: usize = r.len();
        while pos > 0 && r[pos - 1].offset > e.offset
            invariant
                pos <= r.len(),
                offset_sorted(r@),
                r@.to_multiset() == v@.subrange(0, i as int).to_multiset(),
                forall|k: int| pos <= k < r.len() ==> (#[trigger] r@[k]).offset > e.offset,
            decreases pos,
        {
            pos = pos - 1;
        }
        let ghost old_r = r@;
        r.insert(pos, e);
        proof {
            assert forall|a: int, b: int| 0 <= a <= b < r@.len() implies (#[trigger] r@[a]).offset <= (#[trigger] r@[b]).offset by {
                if a < pos && b > pos {
                    assert(r@[a] == old_r[a] && r@[b] == old_r[b - 1]);
                } else if a < pos && b == pos {
                    assert(r@[a] == old_r[a]);
                    if pos > 0 {
                        assert(old_r[pos - 1].offset <= e.offset);
                    }
                } else if a == pos && b > pos {
                    assert(r@[b] == old_r[b - 1]);
                } else if a > pos {
                    assert(r@[a] == old_r[a - 1] && r@[b] == old_r[b - 1]);
                } else if b < pos {
                    assert(r@[a] == old_r[a] && r@[b] == old_r[b]);
                }
            }
            assert(r@.remove(pos as int) =~= old_r);
            assert(r@[pos as int] == e);
            assert(r@.to_multiset() =~= old_r.to_multiset().insert(e)) by {
                vstd::seq_lib::to_multiset_remove(r@, pos as int);
                vstd::seq_lib::to_multiset_contains(r@, e);
                assert(r@.contains(e)) by {
                    assert(r@[pos as int] == e);
                }
            }
            assert(v@.subrange(0, i + 1) =~= v@.subrange(0, i as int).push(e));
            vstd::seq_lib::to_multiset_build(v@.subrange(0, i as int), e);
        }
        i = i + 1;
    }
    assert(v@.subrange(0, v.len() as int) =~= v@);
    r
}

/// Folds a sorted run into merged extents, exactly as `merge_runs` describes.
fn merge_sorted(s: &Vec<FreeExtent>) -> (r: Vec<FreeExtent>)
    requires
        offset_sorted(s@),
        ends_fit(s@),
    ensures
        r@ == merge_runs(s@),
{
    let mut merged: Vec<FreeExtent> = Vec::new();
    let mut i: usize = 0;
    while i < s.len()
        invariant
            i <= s.len(),
            offset_sorted(s@),
            ends_fit(s@),
            merged@ == merge_runs(s@.subrange(0, i as int)),
        decreases s.len() - i,
    {
        let ghost pre = s@.subrange(0, i as int);
        let ghost cur = s@.subrange(0, i + 1);
        proof {
            assert(cur.drop_last() =~= pre);
            assert(cur.last() == s@[i as int]);
            assert(offset_sorted(pre));
            assert(ends_fit(pre));
            lemma_merge_runs(pre);
        }
        let e = s[i];
        let n = merged.len();
        if n > 0 {
            let last = merged[n - 1];
            assert(ext_end(last) <= u64::MAX);
            let last_end = last.offset + last.length;
            if e.offset <= last_end {
                let e_end = e.offset + e.length;
                let new_end = if e_end > last_end { e_end } else { last_end };
                merged.set(n - 1, FreeExtent { offset: last.offset, length: new_end - last.offset });
            } else {
                merged.push(e);
            }
        } else {
            merged.push(e);
        }
        i = i + 1;
    }
    assert(s@.subrange(0, s.len() as int) =~= s@);
    merged
}

/// Sorting then merging: the result covers exactly what the input covers,
/// in canonical form.
proof fn lemma_sorted_merge(v: Seq<FreeExtent>, p: Seq<FreeExtent>)
    requires
        offset_sorted(p),
        p.to_multiset() == v.to_multiset(),
        ends_fit(v),
    ensures
        ends_fit(p),
        canonical(merge_runs(p)),
        ends_fit(merge_runs(p)),
        forall|x: int| covered(merge_runs(p), x) <==> covered(v, x),
{
    broadcast use vstd::seq_lib::group_to_multiset_ensures;
    assert forall|i: int| 0 <= i < p.len() implies ext_end(#[trigger] p[i]) <= u64::MAX by {
        assert(p.contains(p[i]));
        assert(v.to_multiset().count(p[i]) > 0);
        assert(v.contains(p[i]));
    }
    lemma_merge_runs(p);
    assert forall|x: int| covered(p, x) <==> covered(v, x) by {
        if covered(p, x) {
            let i = choose|i: int| 0 <= i < p.len() && in_ext(#[trigger] p[i], x);
            assert(p.contains(p[i]));
            assert(v.to_multiset().count(p[i]) > 0);
            assert(v.contains(p[i]));
            let j = choose|j: int| 0 <= j < v.len() && v[j] == p[i];
            assert(in_ext(v[j], x));
        }
        if covered(v, x) {
            let j = choose|j: int| 0 <= j < v.len() && in_ext(#[trigger] v[j], x);
            assert(v.contains(v[j]));
            assert(p.to_multiset().count(v[j]) > 0);
            assert(p.contains(v[j]));
            let i = choose|i: int| 0 <= i < p.len() && p[i] == v[j];
            assert(in_ext(p[i], x));
        }
    }
}


// ── The free list ────────────────────────────────────────────────────────────

/// Index `i` is the best fit for a request of `n` bytes: the first extent of
/// the smallest length among those at least `n` long.
pub open spec fn best_fit(s: Seq<FreeExtent>, n: int, i: int) -> bool {
    &&& 0 <= i < s.len()
    &&& s[i].length >= n
    &&& forall|j: int| 0 <= j < s.len() && (#[trigger] s[j]).length >= n ==> s[i].length <= s[j].length
    &&& forall|j: int| 0 <= j < i && (#[trigger] s[j]).length >= n ==> s[i].length < s[j].length
}

/// Some extent is at least `n` bytes long.
pub open spec fn fits_somewhere(s: Seq<FreeExtent>, n: int) -> bool {
    exists|j: int| 0 <= j < s.len() && (#[trigger] s[j]).length >= n
}

/// The list after claiming `n` bytes from the front of extent `i`: the extent
/// leaves, and what is left of it comes back at the end when it is at least
/// `MIN_REMAINDER` bytes.
pub open spec fn after_claim(s: Seq<FreeExtent>, i: int, n: int) -> Seq<FreeExtent> {
    let e = s[i];
    if e.length - n >= MIN_REMAINDER {
        s.remove(i).push(FreeExtent { offset: (e.offset + n) as u64, length: (e.length - n) as u64 })
    } else {
        s.remove(i)
    }
}

/// In-memory free list of reclaimed data extents.
pub struct FreeList {
    extents: Vec<FreeExtent>,
}

impl View for FreeList {
    type V = Seq<FreeExtent>;

    closed spec fn view(&self) -> Seq<FreeExtent> {
        self.extents@
    }
}

impl FreeList {
    pub fn new() -> (r: Self)
        ensures
            r@ == Seq::<FreeExtent>::empty(),
    {
        Self { extents: Vec::new() }
    }

    /// The extents in list order.
    pub fn extents(&self) -> (r: &[FreeExtent])
        ensures
            r@ == self@,
    {
        self.extents.as_slice()
    }

    /// Add a freed extent, merging it with any extent it overlaps or touches.
    /// Zero offsets and lengths are ignored, and so is everything once the
    /// list holds `MAX_PERSISTED_EXTENTS` extents.
    pub fn free(&mut self, offset: u64, length: u64)
        requires
            ends_fit(old(self)@),
            offset + length <= u64::MAX,
        ensures
            ends_fit(final(self)@),
            (offset == 0 || length == 0 || old(self)@.len() >= MAX_PERSISTED_EXTENTS) ==> final(self)@ == old(self)@,
            !(offset == 0 || length == 0 || old(self)@.len() >= MAX_PERSISTED_EXTENTS) ==> {
                &&& exists|p: Seq<FreeExtent>| #[trigger] offset_sorted(p)
                    && p.to_multiset() == old(self)@.push(FreeExtent { offset, length }).to_multiset()
                    && final(self)@ == merge_runs(p)
                &&& canonical(final(self)@)
                &&& forall|x: int| #[trigger] covered(final(self)@, x) <==> (covered(old(self)@, x) || offset <= x < offset + length)
                &&& (pairwise_apart(old(self)@) && forall|i: int|
                    0 <= i < old(self)@.len() ==> apart(#[trigger] old(self)@[i], (FreeExtent { offset, length })))
                    ==> total_length(final(self)@) == total_length(old(self)@) + length
            },
    {
        if offset == 0 || length == 0 {
            return;
        }
        if self.extents.len() >= MAX_PERSISTED_EXTENTS {
            return;
        }
        let ghost before = self.extents@;
        let e = FreeExtent::new(offset, length);
        self.extents.push(e);
        proof {
            assert forall|i: int| 0 <= i < self.extents@.len() implies ext_end(#[trigger] self.extents@[i]) <= u64::MAX by {
                if i < before.len() {
                    assert(self.extents@[i] == before[i]);
                }
            }
            assert forall|x: int| #[trigger] covered(self.extents@, x) <==> (covered(before, x) || offset <= x < offset + length) by {
                if covered(self.extents@, x) {
                    let i = choose|i: int| 0 <= i < self.extents@.len() && in_ext(#[trigger] self.extents@[i], x);
                    if i < before.len() {
                        assert(self.extents@[i] == before[i]);
                    }
                }
                if covered(before, x) {
                    let i = choose|i: int| 0 <= i < before.len() && in_ext(#[trigger] before[i], x);
                    assert(self.extents@[i] == before[i]);
                }
                if offset <= x < offset + length {
                    assert(in_ext(self.extents@[before.len() as int], x));
                }
            }
        }
        let ghost pushed = self.extents@;
        self.merge_adjacent();
        proof {
            let p = choose|p: Seq<FreeExtent>| #[trigger] offset_sorted(p)
                && p.to_multiset() == pushed.to_multiset()
                && self.extents@ == merge_runs(p);
            assert(pushed == before.push(e));
            if pairwise_apart(before) && forall|i: int|
                0 <= i < before.len() ==> apart(#[trigger] before[i], (FreeExtent { offset, length })) {
                lemma_free_total(before, e, p);
            }
        }
    }

    /// Claim `min_size` bytes from the best-fitting extent and return its
    /// offset; `None` when no extent is large enough.
    pub fn allocate(&mut self, min_size: usize) -> (r: Option<u64>)
        requires
            ends_fit(old(self)@),
        ensures
            ends_fit(final(self)@),
            r is None <==> !fits_somewhere(old(self)@, min_size as int),
            r is None ==> final(self)@ == old(self)@,
            r matches Some(off) ==> exists|i: int| #[trigger] best_fit(old(self)@, min_size as int, i)
                && off == old(self)@[i].offset
                && final(self)@ == after_claim(old(self)@, i, min_size as int),
    {
        let need = min_size as u64;
        let mut best: Option<usize> = None;
        let mut j: usize = 0;
        while j < self.extents.len()
            invariant
                j <= self.extents@.len(),
                need == min_size,
                best is None ==> forall|k: int| 0 <= k < j ==> (#[trigger] self.extents@[k]).length < need,
                best matches Some(b) ==> {
                    &&& b < j
                    &&& self.extents@[b as int].length >= need
                    &&& forall|k: int| 0 <= k < j && (#[trigger] self.extents@[k]).length >= need
                        ==> self.extents@[b as int].length <= self.extents@[k].length
                    &&& forall|k: int| 0 <= k < b && (#[trigger] self.extents@[k]).length >= need
                        ==> self.extents@[b as int].length < self.extents@[k].length
                },
            decreases self.extents@.len() - j,
        {
            let len_j = self.extents[j].length;
            if len_j >= need {
                match best {
                    None => {
                        best = Some(j);
                    },
                    Some(b) => {
                        if len_j < self.extents[b].length {
                            best = Some(j);
                        }
                    },
                }
            }
            j = j + 1;
        }
        match best {
            None => {
                proof {
                    if fits_somewhere(self.extents@, min_size as int) {
                        let k = choose|k: int| 0 <= k < self.extents@.len() && (#[trigger] self.extents@[k]).length >= min_size;
                    }
                }
                None
            },
            Some(idx) => {
                let ghost before = self.extents@;
                assert(best_fit(before, min_size as int, idx as int));
                let extent = self.extents.remove(idx);
                assert(ext_end(before[idx as int]) <= u64::MAX);
                let remainder = extent.length - need;
                if remainder >= MIN_REMAINDER {
                    self.extents.push(FreeExtent::new(extent.offset + need, remainder));
                }
                proof {
                    assert(self.extents@ == after_claim(before, idx as int, min_size as int));
                    assert forall|i: int| 0 <= i < self.extents@.len() implies ext_end(#[trigger] self.extents@[i]) <= u64::MAX by {
                        if i < before.len() - 1 {
                            assert(self.extents@[i] == before.remove(idx as int)[i]);
                            if i < idx {
                                assert(before.remove(idx as int)[i] == before[i]);
                            } else {
                                assert(before.remove(idx as int)[i] == before[i + 1]);
                            }
                        }
                    }
                }
                Some(extent.offset)
            },
        }
    }

    pub fn len(&self) -> (r: usize)
        ensures
            r == self@.len(),
    {
        self.extents.len()
    }

    pub fn is_empty(&self) -> (r: bool)
        ensures
            r == (self@.len() == 0),
    {
        self.extents.len() == 0
    }

    /// Sort by offset and merge extents that overlap or touch.
    fn merge_adjacent(&mut self)
        requires
            ends_fit(old(self)@),
        ensures
            exists|p: Seq<FreeExtent>| #[trigger] offset_sorted(p)
                && p.to_multiset() == old(self)@.to_multiset()
                && final(self)@ == merge_runs(p),
            canonical(final(self)@),
            ends_fit(final(self)@),
            forall|x: int| #[trigger] covered(final(self)@, x) <==> covered(old(self)@, x),
    {
        let ghost before = self.extents@;
        if self.extents.len() < 2 {
            proof {
                if before.len() == 1 {
                    assert(before.drop_last() =~= Seq::<FreeExtent>::empty());
                    assert(merge_runs(before.drop_last()) =~= Seq::<FreeExtent>::empty());
                    assert(merge_runs(before) =~= before);
                } else {
                    assert(merge_runs(before) =~= before);
                }
                assert(offset_sorted(before));
            }
            return;
        }
        let sorted = sort_by_offset(&self.extents);
        proof {
            lemma_sorted_merge(before, sorted@);
        }
        self.extents = merge_sorted(&sorted);
        assert(offset_sorted(sorted@));
    }

    /// Total free bytes tracked.
    pub fn total_free_bytes(&self) -> (r: u64)
        requires
            total_length(self@) <= u64::MAX,
        ensures
            r == total_length(self@),
    {
        let mut sum: u64 = 0;
        let mut i: usize = 0;
        while i < self.extents.len()
            invariant
                i <= self.extents@.len(),
                total_length(self.extents@) <= u64::MAX,
                sum == total_length(self.extents@.subrange(0, i as int)),
            decreases self.extents@.len() - i,
        {
            proof {
                let t = self.extents@.subrange(0, i + 1);
                assert(t.drop_last() =~= self.extents@.subrange(0, i as int));
                lemma_total_prefix(self.extents@, i + 1);
            }
            sum = sum + self.extents[i].length;
            i = i + 1;
        }
        assert(self.extents@.subrange(0, i as int) =~= self.extents@);
        sum
    }
}

/// A prefix never holds more bytes than the whole list.
proof fn lemma_total_prefix(s: Seq<FreeExtent>, n: int)
    requires
        0 <= n <= s.len(),
    ensures
        total_length(s.subrange(0, n)) <= total_length(s),
        total_length(s.subrange(0, n)) >= 0,
    decreases s.len(),
{
    if n < s.len() {
        assert(s.drop_last().subrange(0, n) =~= s.subrange(0, n));
        lemma_total_prefix(s.drop_last(), n);
    } else {
        assert(s.subrange(0, n) =~= s);
    }
    lemma_total_nonneg(s);
    lemma_total_nonneg(s.subrange(0, n));
}

proof fn lemma_total_nonneg(s: Seq<FreeExtent>)
    ensures
        total_length(s) >= 0,
    decreases s.len(),
{
    if s.len() > 0 {
        lemma_total_nonneg(s.drop_last());
    }
}


/// Disjoint extents that each end within a u64 hold at most a u64 of bytes:
/// no more than the span from the first one's start to the last one's end.
pub proof fn lemma_canonical_total(s: Seq<FreeExtent>)
    requires
        canonical(s),
        ends_fit(s),
    ensures
        total_length(s) <= u64::MAX,
        s.len() > 0 ==> total_length(s) <= ext_end(s.last()) - s[0].offset,
    decreases s.len(),
{
    if s.len() > 1 {
        let t = s.drop_last();
        assert forall|i: int, j: int| 0 <= i < j < t.len() implies ext_end(#[trigger] t[i]) < (#[trigger] t[j]).offset by {
            assert(t[i] == s[i] && t[j] == s[j]);
        }
        assert forall|i: int| 0 <= i < t.len() implies ext_end(#[trigger] t[i]) <= u64::MAX by {
            assert(t[i] == s[i]);
        }
        lemma_canonical_total(t);
        assert(t.last() == s[s.len() - 2]);
        assert(ext_end(s[s.len() - 2]) < s[s.len() - 1].offset);
        assert(ext_end(s.last()) <= u64::MAX);
        assert(t[0] == s[0]);
        assert(total_length(s) == total_length(t) + s.last().length);
    } else if s.len() == 1 {
        assert(s.drop_last() =~= Seq::<FreeExtent>::empty());
        assert(total_length(s) == total_length(s.drop_last()) + s.last().length);
        assert(ext_end(s[0]) <= u64::MAX);
    }
}

// ── On-disk image ────────────────────────────────────────────────────────────

/// The extent records, one after another.
pub open spec fn records_image(s: Seq<FreeExtent>) -> Seq<u8>
    decreases s.len(),
{
    if s.len() == 0 {
        Seq::empty()
    } else {
        records_image(s.drop_last()) + extent_image(s.last())
    }
}

/// The first 12 header bytes: magic and extent count.
pub open spec fn header_prefix(count: u32) -> Seq<u8> {
    spec_u64_to_le_bytes(FREE_LIST_MAGIC) + spec_u32_to_le_bytes(count)
}

/// Header followed by records; the checksum covers the first 12 header
/// bytes and every record.
pub open spec fn free_list_image(s: Seq<FreeExtent>) -> Seq<u8> {
    let head = header_prefix(s.len() as u32);
    let recs = records_image(s);
    head + spec_u32_to_le_bytes(crc32_checksum(head + recs)) + zeros(16) + recs
}

/// The extents that are written out: at most `MAX_PERSISTED_EXTENTS`.
pub open spec fn persisted(s: Seq<FreeExtent>) -> Seq<FreeExtent> {
    if s.len() > MAX_PERSISTED_EXTENTS {
        s.take(MAX_PERSISTED_EXTENTS as int)
    } else {
        s
    }
}

/// `count` records read back from `recs`.
pub open spec fn parse_records(recs: Seq<u8>, count: nat) -> Seq<FreeExtent> {
    Seq::new(count, |i: int| FreeExtent { offset: le64_at(recs, 16 * i), length: le64_at(recs, 16 * i + 8) })
}

/// A header with the right magic and a count within bounds.
pub open spec fn header_usable(hdr: Seq<u8>) -> bool {
    le64_at(hdr, 0) == FREE_LIST_MAGIC && le32_at(hdr, 8) <= MAX_PERSISTED_EXTENTS
}

/// Header and records that are read back as a list: usable header, the
/// record bytes the count calls for, and a matching checksum.
pub open spec fn image_valid(hdr: Seq<u8>, recs: Seq<u8>) -> bool {
    &&& header_usable(hdr)
    &&& recs.len() == le32_at(hdr, 8) * FREE_EXTENT_SIZE
    &&& crc32_checksum(hdr.subrange(0, 12) + recs) == le32_at(hdr, 12)
}

/// What loading gives: the stored extents, or an empty list for anything
/// missing, out of bounds or corrupt.
pub open spec fn stored_extents(hdr: Seq<u8>, recs: Seq<u8>) -> Seq<FreeExtent> {
    if image_valid(hdr, recs) {
        parse_records(recs, le32_at(hdr, 8) as nat)
    } else {
        Seq::empty()
    }
}

proof fn lemma_records_image(s: Seq<FreeExtent>)
    ensures
        records_image(s).len() == 16 * s.len(),
        forall|i: int| 0 <= i < s.len() ==> records_image(s).subrange(16 * i, 16 * i + 16) == extent_image(#[trigger] s[i]),
    decreases s.len(),
{
    lemma_auto_spec_u64_to_from_le_bytes();
    if s.len() > 0 {
        let t = s.drop_last();
        lemma_records_image(t);
        let r = records_image(s);
        assert forall|i: int| 0 <= i < s.len() implies r.subrange(16 * i, 16 * i + 16) == extent_image(#[trigger] s[i]) by {
            if i < t.len() {
                assert(r.subrange(16 * i, 16 * i + 16) =~= records_image(t).subrange(16 * i, 16 * i + 16));
                assert(t[i] == s[i]);
            } else {
                assert(r.subrange(16 * i, 16 * i + 16) =~= extent_image(s.last()));
            }
        }
    }
}

/// Reading back a written image gives the written extents.
pub proof fn lemma_image_roundtrip(s: Seq<FreeExtent>)
    requires
        s.len() <= MAX_PERSISTED_EXTENTS,
    ensures
        free_list_image(s).len() >= FREE_LIST_HEADER,
        stored_extents(
            free_list_image(s).subrange(0, FREE_LIST_HEADER as int),
            free_list_image(s).subrange(FREE_LIST_HEADER as int, free_list_image(s).len() as int),
        ) == s,
{
    lemma_auto_spec_u64_to_from_le_bytes();
    lemma_auto_spec_u32_to_from_le_bytes();
    lemma_records_image(s);
    let img = free_list_image(s);
    let head = header_prefix(s.len() as u32);
    let recs = records_image(s);
    let hdr = img.subrange(0, 32);
    let body = img.subrange(32, img.len() as int);
    assert(hdr.subrange(0, 8) =~= spec_u64_to_le_bytes(FREE_LIST_MAGIC));
    assert(hdr.subrange(8, 12) =~= spec_u32_to_le_bytes(s.len() as u32));
    assert(hdr.subrange(12, 16) =~= spec_u32_to_le_bytes(crc32_checksum(head + recs)));
    assert(hdr.subrange(0, 12) =~= head);
    assert(body =~= recs);
    assert(le32_at(hdr, 8) == s.len());
    assert(image_valid(hdr, body));
    let p = parse_records(body, s.len());
    assert forall|i: int| 0 <= i < s.len() implies p[i] == s[i] by {
        assert(recs.subrange(16 * i, 16 * i + 16) == extent_image(s[i]));
        assert(recs.subrange(16 * i, 16 * i + 8) =~= spec_u64_to_le_bytes(s[i].offset)) by {
            assert(recs.subrange(16 * i, 16 * i + 8) =~= recs.subrange(16 * i, 16 * i + 16).subrange(0, 8));
        }
        assert(recs.subrange(16 * i + 8, 16 * i + 16) =~= spec_u64_to_le_bytes(s[i].length)) by {
            assert(recs.subrange(16 * i + 8, 16 * i + 16) =~= recs.subrange(16 * i, 16 * i + 16).subrange(8, 16));
        }
    }
    assert(p =~= s);
}

impl FreeList {
    /// The bytes written at `FREE_LIST_OFFSET` to persist the list: header
    /// and the first `MAX_PERSISTED_EXTENTS` extents.
    pub fn to_disk_image(&self) -> (r: Vec<u8>)
        ensures
            r@ == free_list_image(persisted(self@)),
    {
        let n = self.extents.len();
        let count: usize = if n > MAX_PERSISTED_EXTENTS { MAX_PERSISTED_EXTENTS } else { n };
        let ghost kept = persisted(self@);
        assert(kept =~= self.extents@.take(count as int));
        let mut recs: Vec<u8> = Vec::new();
        let mut i: usize = 0;
        while i < count
            invariant
                i <= count <= self.extents@.len(),
                recs@ == records_image(self.extents@.take(i as int)),
            decreases count - i,
        {
            let e = self.extents[i];
            append_u64(&mut recs, e.offset);
            append_u64(&mut recs, e.length);
            proof {
                let t = self.extents@.take(i + 1);
                assert(t.drop_last() =~= self.extents@.take(i as int));
                assert(t.last() == e);
            }
            i = i + 1;
        }
        let mut head: Vec<u8> = Vec::new();
        append_u64(&mut head, FREE_LIST_MAGIC);
        append_u32(&mut head, count as u32);
        let mut covered_bytes: Vec<u8> = Vec::new();
        append_bytes(&mut covered_bytes, head.as_slice());
        append_bytes(&mut covered_bytes, recs.as_slice());
        let cksum = crc32(covered_bytes.as_slice());
        let mut out = head;
        append_u32(&mut out, cksum);
        let mut z: usize = 0;
        let ghost with_crc = out@;
        while z < 16
            invariant
                z <= 16,
                out@ == with_crc + zeros(z as nat),
            decreases 16 - z,
        {
            out.push(0u8);
            z = z + 1;
            assert(out@ =~= with_crc + zeros(z as nat));
        }
        append_bytes(&mut out, recs.as_slice());
        out
    }

    /// Reads the extent count from a stored header: `None` when the magic is
    /// wrong or the count is out of bounds, in which case the list starts empty.
    pub fn stored_count(hdr: &[u8; FREE_LIST_HEADER]) -> (r: Option<usize>)
        ensures
            r is Some <==> header_usable(hdr@),
            r matches Some(n) ==> n == le32_at(hdr@, 8),
    {
        let s = hdr.as_slice();
        let magic = read_le64(s, 0);
        let count = read_le32(s, 8);
        if magic != FREE_LIST_MAGIC || count > MAX_PERSISTED_EXTENTS as u32 {
            None
        } else {
            Some(count as usize)
        }
    }

    /// Rebuilds the list from a stored header and the record bytes after it.
    /// A missing magic, an out-of-bounds count, a record run of the wrong size
    /// or a checksum mismatch gives an empty list.
    pub fn from_disk_parts(hdr: &[u8; FREE_LIST_HEADER], recs: &[u8]) -> (r: FreeList)
        ensures
            r@ == stored_extents(hdr@, recs@),
    {
        let s = hdr.as_slice();
        let magic = read_le64(s, 0);
        let count = read_le32(s, 8);
        if magic != FREE_LIST_MAGIC || count > MAX_PERSISTED_EXTENTS as u32 {
            return FreeList::new();
        }
        let n = count as usize;
        if recs.len() != n * FREE_EXTENT_SIZE {
            return FreeList::new();
        }
        let stored = read_le32(s, 12);
        let mut data: Vec<u8> = copy_range(s, 0, 12);
        append_bytes(&mut data, recs);
        if crc32(data.as_slice()) != stored {
            return FreeList::new();
        }
        let mut extents: Vec<FreeExtent> = Vec::new();
        let mut i: usize = 0;
        while i < n
            invariant
                i <= n,
                n <= MAX_PERSISTED_EXTENTS,
                n == le32_at(hdr@, 8),
                recs@.len() == n * 16,
                extents@ =~= parse_records(recs@, i as nat),
            decreases n - i,
        {
            let off = read_le64(recs, 16 * i);
            let len = read_le64(recs, 16 * i + 8);
            extents.push(FreeExtent { offset: off, length: len });
            i = i + 1;
            assert(extents@ =~= parse_records(recs@, i as nat));
        }
        FreeList { extents }
    }
}


// ── Rebuilding from live data ────────────────────────────────────────────────

/// Byte `x` lies in one of the used `(offset, length)` extents.
pub open spec fn in_used(used: Seq<(u64, u64)>, x: int) -> bool {
    exists|i: int| 0 <= i < used.len() && (#[trigger] used[i]).0 <= x < used[i].0 + used[i].1
}

/// Byte `x` lies before the start of some used extent.
pub open spec fn before_some_used(used: Seq<(u64, u64)>, x: int) -> bool {
    exists|i: int| 0 <= i < used.len() && x < (#[trigger] used[i]).0
}

/// A byte that a rebuild reports free: at or after `data_start`, in no used
/// extent, and below the disk size or below the start of a used extent.
pub open spec fn rebuild_free(used: Seq<(u64, u64)>, disk_size: u64, data_start: u64, x: int) -> bool {
    &&& data_start <= x
    &&& !in_used(used, x)
    &&& (x < disk_size || before_some_used(used, x))
}

/// Every used extent ends within a u64.
pub open spec fn used_ends_fit(used: Seq<(u64, u64)>) -> bool {
    forall|i: int| 0 <= i < used.len() ==> (#[trigger] used[i]).0 + used[i].1 <= u64::MAX
}

proof fn lemma_ms_member<T>(a: Seq<T>, b: Seq<T>, i: int) -> (j: int)
    requires
        a.to_multiset() == b.to_multiset(),
        0 <= i < a.len(),
    ensures
        0 <= j < b.len(),
        b[j] == a[i],
{
    broadcast use vstd::seq_lib::group_to_multiset_ensures;
    assert(a.contains(a[i]));
    assert(b.to_multiset().count(a[i]) > 0);
    assert(b.contains(a[i]));
    choose|j: int| 0 <= j < b.len() && b[j] == a[i]
}

impl FreeList {
    /// Rebuild the list from scratch from the extents of live data: every gap
    /// between `data_start`, the used extents and `disk_size` is freed.
    pub fn rebuild_from_inodes(used_extents: &[(u64, u64)], disk_size: u64, data_start: u64) -> (r: Self)
        requires
            used_ends_fit(used_extents@),
        ensures
            used_extents@.len() == 0 ==> r@ == seq![FreeExtent { offset: data_start, length: disk_size.saturating_sub(data_start) }],
            used_extents@.len() > 0 ==> {
                &&& canonical(r@)
                &&& ends_fit(r@)
                &&& forall|x: int| #[trigger] covered(r@, x) ==> rebuild_free(used_extents@, disk_size, data_start, x)
                &&& (r@.len() < MAX_PERSISTED_EXTENTS && data_start > 0) ==> forall|x: int|
                    #[trigger] rebuild_free(used_extents@, disk_size, data_start, x) ==> covered(r@, x)
            },
            total_length(r@) <= u64::MAX,
    {
        if used_extents.len() == 0 {
            let mut fl = Self::new();
            fl.extents.push(FreeExtent::new(data_start, disk_size.saturating_sub(data_start)));
            assert(fl@.drop_last() =~= Seq::<FreeExtent>::empty());
            assert(total_length(fl@) == total_length(fl@.drop_last()) + fl@.last().length);
            return fl;
        }
        let used = used_extents;
        let mut as_ext: Vec<FreeExtent> = Vec::new();
        let mut i: usize = 0;
        while i < used.len()
            invariant
                i <= used@.len(),
                as_ext@.len() == i,
                forall|k: int| 0 <= k < i ==> #[trigger] as_ext@[k] == (FreeExtent { offset: used@[k].0, length: used@[k].1 }),
            decreases used@.len() - i,
        {
            let (o, l) = used[i];
            as_ext.push(FreeExtent::new(o, l));
            i = i + 1;
        }
        let sorted = sort_by_offset(&as_ext);
        let ghost ss = sorted@;
        let ghost n = ss.len();
        proof {
            assert forall|j: int| 0 <= j < n implies ext_end(#[trigger] ss[j]) <= u64::MAX by {
                let k = lemma_ms_member(ss, as_ext@, j);
                assert(used@[k].0 + used@[k].1 <= u64::MAX);
            }
        }
        let mut fl = Self::new();
        let mut cursor = data_start;
        let mut k: usize = 0;
        while k < sorted.len()
            invariant
                sorted@ == ss,
                n == ss.len(),
                k <= n,
                offset_sorted(ss),
                ends_fit(ss),
                ends_fit(fl@),
                canonical(fl@),
                data_start <= cursor,
                forall|j: int| 0 <= j < k ==> ext_end(#[trigger] ss[j]) <= cursor,
                forall|x: int| #[trigger] covered(fl@, x) ==> {
                    &&& data_start <= x < cursor
                    &&& forall|j: int| 0 <= j < n ==> !in_ext(#[trigger] ss[j], x)
                    &&& exists|j: int| 0 <= j < n && x < (#[trigger] ss[j]).offset
                },
                (fl@.len() < MAX_PERSISTED_EXTENTS && data_start > 0) ==> forall|x: int| data_start <= x < cursor
                    ==> #[trigger] covered(fl@, x) || exists|j: int| 0 <= j < k && in_ext(#[trigger] ss[j], x),
            decreases n - k,
        {
            let e = sorted[k];
            let ghost before = fl@;
            let ghost old_cursor = cursor;
            if e.offset > cursor {
                fl.free(cursor, e.offset - cursor);
            }
            assert(ext_end(ss[k as int]) <= u64::MAX);
            let e_end = e.offset + e.length;
            cursor = if e_end > cursor { e_end } else { cursor };
            proof {
                assert forall|x: int| #[trigger] covered(before, x) implies covered(fl@, x) by {}
                assert forall|x: int| #[trigger] covered(fl@, x) implies {
                    &&& data_start <= x < cursor
                    &&& forall|j: int| 0 <= j < n ==> !in_ext(#[trigger] ss[j], x)
                    &&& exists|j: int| 0 <= j < n && x < (#[trigger] ss[j]).offset
                } by {
                    if !covered(before, x) {
                        assert(old_cursor <= x < e.offset);
                        assert forall|j: int| 0 <= j < n implies !in_ext(#[trigger] ss[j], x) by {
                            if j >= k {
                                assert(ss[k as int].offset <= ss[j].offset);
                            }
                        }
                        assert(x < ss[k as int].offset);
                    }
                }
                if fl@.len() < MAX_PERSISTED_EXTENTS && data_start > 0 {
                    assert(before.len() < MAX_PERSISTED_EXTENTS) by {
                        if before.len() >= MAX_PERSISTED_EXTENTS {
                            assert(fl@ == before);
                        }
                    }
                    assert forall|x: int| data_start <= x < cursor implies #[trigger] covered(fl@, x)
                        || exists|j: int| 0 <= j < k + 1 && in_ext(#[trigger] ss[j], x) by {
                        if x < old_cursor {
                            if covered(before, x) {
                            } else {
                                let j = choose|j: int| 0 <= j < k && in_ext(#[trigger] ss[j], x);
                            }
                        } else if x < e.offset {
                            assert(old_cursor > 0);
                            assert(covered(fl@, x));
                        } else {
                            assert(in_ext(ss[k as int], x));
                        }
                    }
                }
            }
            k = k + 1;
        }
        let ghost before_tail = fl@;
        let ghost final_cursor = cursor;
        if cursor < disk_size {
            fl.free(cursor, disk_size - cursor);
        }
        proof {
            assert forall|x: int| #[trigger] covered(fl@, x) implies rebuild_free(used@, disk_size, data_start, x) by {
                let in_sorted_gap = covered(before_tail, x);
                if !in_sorted_gap {
                    assert(final_cursor <= x < disk_size);
                }
                assert(data_start <= x);
                if in_used(used@, x) {
                    let i = choose|i: int| 0 <= i < used@.len() && (#[trigger] used@[i]).0 <= x < used@[i].0 + used@[i].1;
                    assert(in_ext(as_ext@[i], x));
                    let j = lemma_ms_member(as_ext@, ss, i);
                    assert(in_ext(ss[j], x));
                    if !in_sorted_gap {
                        assert(ext_end(ss[j]) <= final_cursor);
                    }
                }
                if in_sorted_gap && x >= disk_size {
                    let j = choose|j: int| 0 <= j < n && x < (#[trigger] ss[j]).offset;
                    let i = lemma_ms_member(ss, as_ext@, j);
                    assert(x < used@[i].0);
                }
            }
            if fl@.len() < MAX_PERSISTED_EXTENTS && data_start > 0 {
                assert(before_tail.len() < MAX_PERSISTED_EXTENTS) by {
                    if before_tail.len() >= MAX_PERSISTED_EXTENTS {
                        assert(fl@ == before_tail);
                    }
                }
                assert forall|x: int| #[trigger] rebuild_free(used@, disk_size, data_start, x) implies covered(fl@, x) by {
                    if x < final_cursor {
                        if !covered(before_tail, x) {
                            let j = choose|j: int| 0 <= j < n && in_ext(#[trigger] ss[j], x);
                            let i = lemma_ms_member(ss, as_ext@, j);
                            assert(as_ext@[i] == (FreeExtent { offset: used@[i].0, length: used@[i].1 }));
                            assert(in_used(used@, x));
                        }
                    } else if x < disk_size {
                        assert(covered(fl@, x));
                    } else {
                        let i = choose|i: int| 0 <= i < used@.len() && x < (#[trigger] used@[i]).0;
                        assert(as_ext@[i] == (FreeExtent { offset: used@[i].0, length: used@[i].1 }));
                        let j = lemma_ms_member(as_ext@, ss, i);
                        assert(ext_end(ss[j]) <= final_cursor);
                    }
                }
            }
            lemma_canonical_total(fl@);
        }
        fl
    }
}

} // verus!

verus! {

// ── Free byte accounting ─────────────────────────────────────────────────────

/// Two extents share no byte.
pub open spec fn apart(a: FreeExtent, b: FreeExtent) -> bool {
    ext_end(a) <= b.offset || ext_end(b) <= a.offset
}

/// No two extents of the list share a byte.
pub open spec fn pairwise_apart(s: Seq<FreeExtent>) -> bool {
    forall|i: int, j: int| 0 <= i < s.len() && 0 <= j < s.len() && i != j ==> apart(#[trigger] s[i], #[trigger] s[j])
}

/// The furthest end among the extents.
pub open spec fn max_end(s: Seq<FreeExtent>) -> int
    decreases s.len(),
{
    if s.len() == 0 {
        0
    } else if max_end(s.drop_last()) >= ext_end(s.last()) {
        max_end(s.drop_last())
    } else {
        ext_end(s.last())
    }
}

proof fn lemma_max_end(s: Seq<FreeExtent>)
    requires
        s.len() > 0,
    ensures
        forall|i: int| 0 <= i < s.len() ==> ext_end(#[trigger] s[i]) <= max_end(s),
        exists|i: int| 0 <= i < s.len() && ext_end(#[trigger] s[i]) == max_end(s),
    decreases s.len(),
{
    if s.len() > 1 {
        lemma_max_end(s.drop_last());
        let p = s.drop_last();
        assert forall|i: int| 0 <= i < s.len() implies ext_end(#[trigger] s[i]) <= max_end(s) by {
            if i < s.len() - 1 {
                assert(s[i] == p[i]);
            }
        }
        if max_end(p) >= ext_end(s.last()) {
            let k = choose|k: int| 0 <= k < p.len() && ext_end(#[trigger] p[k]) == max_end(p);
            assert(s[k] == p[k]);
        } else {
            assert(ext_end(s[s.len() - 1]) == max_end(s));
        }
    } else {
        assert(s.drop_last().len() == 0);
        assert(max_end(s.drop_last()) == 0);
        assert(s.last() == s[0]);
        assert(ext_end(s[0]) >= 0);
        assert(ext_end(s[0]) == max_end(s));
    }
}

/// The total of a list is the total without one extent plus its length.
proof fn lemma_total_remove_at(s: Seq<FreeExtent>, j: int)
    requires
        0 <= j < s.len(),
    ensures
        total_length(s) == total_length(s.remove(j)) + s[j].length,
    decreases s.len(),
{
    if j == s.len() - 1 {
        assert(s.remove(j) =~= s.drop_last());
    } else {
        lemma_total_remove_at(s.drop_last(), j);
        assert(s.remove(j).drop_last() =~= s.drop_last().remove(j));
        assert(s.remove(j).last() == s.last());
    }
}

/// Lists with the same extents have the same total.
proof fn lemma_total_perm(p: Seq<FreeExtent>, q: Seq<FreeExtent>)
    requires
        p.to_multiset() == q.to_multiset(),
    ensures
        total_length(p) == total_length(q),
    decreases q.len(),
{
    broadcast use vstd::seq_lib::group_to_multiset_ensures;

    if q.len() == 0 {
        assert(q.to_multiset().len() == 0);
        assert(p.to_multiset().len() == p.len());
        assert(p.len() == 0);
    } else {
        let n = q.len() - 1;
        let j = lemma_ms_member(q, p, n);
        assert(p.remove(j).to_multiset() =~= q.drop_last().to_multiset()) by {
            assert(p.remove(j).to_multiset() == p.to_multiset().remove(p[j]));
            assert(q.drop_last().to_multiset() == q.to_multiset().remove(q[n])) by {
                assert(q =~= q.drop_last().push(q[n]));
            }
        }
        lemma_total_perm(p.remove(j), q.drop_last());
        lemma_total_remove_at(p, j);
        assert(q.drop_last().push(q[n]) =~= q);
    }
}

/// `x` is one of the extents of `q`.
pub open spec fn holds_extent(q: Seq<FreeExtent>, x: FreeExtent) -> bool {
    exists|k: int| 0 <= k < q.len() && q[k] == x
}

/// Every extent of `p` is one of `q`'s when they hold the same extents.
proof fn lemma_ms_in(p: Seq<FreeExtent>, q: Seq<FreeExtent>)
    requires
        p.to_multiset() == q.to_multiset(),
    ensures
        forall|i: int| 0 <= i < p.len() ==> holds_extent(q, #[trigger] p[i]),
{
    assert forall|i: int| 0 <= i < p.len() implies holds_extent(q, #[trigger] p[i]) by {
        let k = lemma_ms_member(p, q, i);
        assert(q[k] == p[i]);
    }
}

/// Being apart carries over to a reordering of the same extents.
proof fn lemma_apart_perm(p: Seq<FreeExtent>, q: Seq<FreeExtent>)
    requires
        p.to_multiset() == q.to_multiset(),
        pairwise_apart(q),
    ensures
        pairwise_apart(p),
    decreases q.len(),
{
    broadcast use vstd::seq_lib::group_to_multiset_ensures;

    if q.len() > 0 {
        let n = q.len() - 1;
        let v = q[n];
        let j = lemma_ms_member(q, p, n);
        let r = p.remove(j);
        let qd = q.drop_last();
        assert(r.to_multiset() =~= qd.to_multiset()) by {
            assert(r.to_multiset() == p.to_multiset().remove(p[j]));
            assert(qd.to_multiset() == q.to_multiset().remove(q[n])) by {
                assert(q =~= qd.push(q[n]));
            }
        }
        assert(pairwise_apart(qd)) by {
            assert forall|a: int, b: int| 0 <= a < qd.len() && 0 <= b < qd.len() && a != b implies apart(
                #[trigger] qd[a],
                #[trigger] qd[b],
            ) by {
                assert(qd[a] == q[a] && qd[b] == q[b]);
            }
        }
        lemma_apart_perm(r, qd);
        lemma_ms_in(r, qd);
        assert forall|a: int, b: int| 0 <= a < p.len() && 0 <= b < p.len() && a != b implies apart(
            #[trigger] p[a],
            #[trigger] p[b],
        ) by {
            if a != j && b != j {
                let ra = if a < j { a } else { a - 1 };
                let rb = if b < j { b } else { b - 1 };
                assert(r[ra] == p[a] && r[rb] == p[b]);
            } else {
                let o = if a == j { b } else { a };
                let ro = if o < j { o } else { o - 1 };
                assert(r[ro] == p[o]);
                assert(holds_extent(qd, r[ro]));
                let k = choose|k: int| 0 <= k < qd.len() && qd[k] == r[ro];
                assert(qd[k] == q[k]);
                assert(apart(q[k], q[n]) && apart(q[n], q[k]));
            }
        }
    } else {
        assert(q.to_multiset().len() == 0);
        assert(p.to_multiset().len() == p.len());
        assert(p.len() == 0);
    }
}

/// Merging a sorted list of extents no two of which share a byte keeps
/// the total, and the merged list ends where the list reaches furthest.
proof fn lemma_merge_keeps_total(s: Seq<FreeExtent>)
    requires
        offset_sorted(s),
        pairwise_apart(s),
        ends_fit(s),
    ensures
        total_length(merge_runs(s)) == total_length(s),
        s.len() > 0 ==> merge_runs(s).len() > 0 && ext_end(merge_runs(s).last()) == max_end(s),
    decreases s.len(),
{
    if s.len() > 0 {
        let p = s.drop_last();
        let e = s.last();
        assert(offset_sorted(p) && pairwise_apart(p) && ends_fit(p)) by {
            assert forall|i: int, j: int| 0 <= i <= j < p.len() implies (#[trigger] p[i]).offset <= (#[trigger] p[j]).offset by {
                assert(p[i] == s[i] && p[j] == s[j]);
            }
            assert forall|i: int, j: int| 0 <= i < p.len() && 0 <= j < p.len() && i != j implies apart(
                #[trigger] p[i],
                #[trigger] p[j],
            ) by {
                assert(p[i] == s[i] && p[j] == s[j]);
            }
            assert forall|i: int| 0 <= i < p.len() implies ext_end(#[trigger] p[i]) <= u64::MAX by {
                assert(p[i] == s[i]);
            }
        }
        lemma_merge_keeps_total(p);
        let m = merge_runs(p);
        assert(e == s[s.len() - 1]);
        assert(ext_end(e) <= u64::MAX);
        if m.len() > 0 && e.offset <= ext_end(m.last()) {
            let last = m.last();
            lemma_max_end(p);
            let k = choose|k: int| 0 <= k < p.len() && ext_end(#[trigger] p[k]) == max_end(p);
            assert(p[k] == s[k]);
            assert(s[k].offset <= e.offset);
            assert(apart(s[k], e));
            let new_end = if ext_end(e) > ext_end(last) { ext_end(e) } else { ext_end(last) };
            assert(new_end - ext_end(last) == e.length);
            let upd = FreeExtent { offset: last.offset, length: (new_end - last.offset) as u64 };
            let m2 = m.update(m.len() - 1, upd);
            assert(merge_runs(s) == m2);
            lemma_total_remove_at(m, m.len() - 1);
            lemma_total_remove_at(m2, m.len() - 1);
            assert(m.remove(m.len() - 1) =~= m2.remove(m.len() - 1));
            assert(total_length(m2) == total_length(m) + e.length);
            assert(total_length(s) == total_length(p) + e.length);
        } else {
            assert(merge_runs(s) == m.push(e));
            assert(m.push(e).drop_last() =~= m);
            if p.len() > 0 {
                lemma_max_end(p);
            } else {
                assert(max_end(s) == ext_end(e)) by {
                    assert(s.drop_last().len() == 0);
                }
            }
        }
    }
}

/// Adding an extent that shares no byte with a list whose extents share
/// none, and merging, adds exactly its length to the total.
pub proof fn lemma_free_total(before: Seq<FreeExtent>, e: FreeExtent, p: Seq<FreeExtent>)
    requires
        pairwise_apart(before),
        ends_fit(before),
        ext_end(e) <= u64::MAX,
        forall|i: int| 0 <= i < before.len() ==> apart(#[trigger] before[i], e),
        offset_sorted(p),
        p.to_multiset() == before.push(e).to_multiset(),
    ensures
        total_length(merge_runs(p)) == total_length(before) + e.length,
{
    let q = before.push(e);
    assert(pairwise_apart(q)) by {
        assert forall|i: int, j: int| 0 <= i < q.len() && 0 <= j < q.len() && i != j implies apart(
            #[trigger] q[i],
            #[trigger] q[j],
        ) by {
            if i < before.len() && j < before.len() {
                assert(q[i] == before[i] && q[j] == before[j]);
            } else if i < before.len() {
                assert(q[i] == before[i]);
                assert(apart(before[i], e));
            } else {
                assert(q[j] == before[j]);
                assert(apart(before[j], e));
            }
        }
    }
    assert(ends_fit(q)) by {
        assert forall|i: int| 0 <= i < q.len() implies ext_end(#[trigger] q[i]) <= u64::MAX by {
            if i < before.len() {
                assert(q[i] == before[i]);
            }
        }
    }
    lemma_apart_perm(p, q);
    lemma_ms_in(p, q);
    assert(ends_fit(p)) by {
        assert forall|i: int| 0 <= i < p.len() implies ext_end(#[trigger] p[i]) <= u64::MAX by {
            assert(holds_extent(q, p[i]));
            let k = choose|k: int| 0 <= k < q.len() && q[k] == p[i];
        }
    }
    lemma_merge_keeps_total(p);
    lemma_total_perm(p, q);
    assert(q.drop_last() =~= before);
}

} // verus!
