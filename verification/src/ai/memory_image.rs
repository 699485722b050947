//! The memory's image for persistence and reading it back.
//!
//! Layout, integers little-endian: "VEXMEM01"; sessions ever archived (u64);
//! past sessions (count, then id, start, end, writes, reads, up to 100
//! touched files as inode and name, focus name); temporal patterns (count,
//! then inode, 24 hourly and 7 daily counts, total); streaks (count, then
//! inode, current, longest, last day); co-access pairs (count, then both
//! inodes and the count); the trend window's last day (u64) and windows
//! (count, then inode and 14 daily counts); names (count, then inode and
//! name). Names are a length byte and at most 255 bytes of UTF-8. At most
//! 500 sessions, 50 000 pairs and 10 000 entries of each other kind are
//! written, the first ones in walk order.
use vstd::prelude::*;
use vstd::bytes::*;
use vstd::slice::*;
use vstd::string::*;
use std::collections::HashMap;
use crate::ai::memory::{
    fresh_session, key_pair, pair_key, pair_key_of, pair_keys, pair_walk, split_pair_key, CoAccessMap, MemoryEngine,
    Session, Streak, TemporalPattern, TrendTracker,
};
use crate::ai::persist::{append_name, name_at, name_field, read_name, NAME_LIMIT};
use crate::codec::{append_u32, append_u64, le32_at, le64_at, lossy_text, read_le32, read_le64};
use crate::clock::unix_now_secs;
use crate::walk::{keys_in_walk_order, walk_order};

verus! {

broadcast use {vstd::std_specs::hash::group_hash_axioms, vstd::string::group_string_axioms};

pub const IMAGE_SESSIONS: usize = 500;

pub const IMAGE_FILES: usize = 100;

pub const IMAGE_ENTRIES: usize = 10_000;

pub const IMAGE_PAIRS: usize = 50_000;

/// Bytes of one temporal pattern record.
pub const PATTERN_LEN: usize = 136;

/// Bytes of one streak record.
pub const STREAK_LEN: usize = 24;

/// Bytes of one co-access record.
pub const PAIR_LEN: usize = 20;

/// Bytes of one trend window record.
pub const WINDOW_LEN: usize = 64;

/// `n`, at most `cap`.
pub open spec fn capped(n: nat, cap: nat) -> nat {
    if n < cap {
        n
    } else {
        cap
    }
}

/// "VEXMEM01".
pub open spec fn memory_magic() -> Seq<u8> {
    seq![0x56u8, 0x45, 0x58, 0x4d, 0x45, 0x4d, 0x30, 0x31]
}

/// A stored text: length byte and at most 255 bytes of UTF-8.
pub open spec fn text_field(s: Seq<char>) -> Seq<u8> {
    name_field(vstd::utf8::encode_utf8(s), NAME_LIMIT as int)
}

pub open spec fn u32s_bytes(s: Seq<u32>) -> Seq<u8>
    decreases s.len(),
{
    if s.len() == 0 {
        Seq::empty()
    } else {
        u32s_bytes(s.drop_last()) + spec_u32_to_le_bytes(s.last())
    }
}

/// Inode and name of each file, in order.
pub open spec fn files_bytes(fs: Seq<(u64, String)>) -> Seq<u8>
    decreases fs.len(),
{
    if fs.len() == 0 {
        Seq::empty()
    } else {
        files_bytes(fs.drop_last()) + spec_u64_to_le_bytes(fs.last().0) + text_field(fs.last().1@)
    }
}

/// The focus name, empty when there is none.
pub open spec fn focus_text(f: Option<String>) -> Seq<char> {
    match f {
        Some(s) => s@,
        None => Seq::empty(),
    }
}

pub open spec fn session_bytes(s: Session) -> Seq<u8> {
    let n = capped(s.files_touched@.len(), IMAGE_FILES as nat);
    spec_u64_to_le_bytes(s.id) + spec_u64_to_le_bytes(s.start_ts) + spec_u64_to_le_bytes(s.end_ts)
        + spec_u64_to_le_bytes(s.total_writes) + spec_u64_to_le_bytes(s.total_reads) + spec_u32_to_le_bytes(n as u32)
        + files_bytes(s.files_touched@.take(n as int)) + text_field(focus_text(s.focus_file))
}

pub open spec fn sessions_bytes(ss: Seq<Session>) -> Seq<u8>
    decreases ss.len(),
{
    if ss.len() == 0 {
        Seq::empty()
    } else {
        sessions_bytes(ss.drop_last()) + session_bytes(ss.last())
    }
}

pub open spec fn patterns_bytes(m: Map<u64, TemporalPattern>, keys: Seq<u64>) -> Seq<u8>
    decreases keys.len(),
{
    if keys.len() == 0 {
        Seq::empty()
    } else {
        let k = keys.last();
        patterns_bytes(m, keys.drop_last()) + spec_u64_to_le_bytes(k) + u32s_bytes(m[k].by_hour@) + u32s_bytes(
            m[k].by_day@,
        ) + spec_u32_to_le_bytes(m[k].total)
    }
}

pub open spec fn streaks_bytes(m: Map<u64, Streak>, keys: Seq<u64>) -> Seq<u8>
    decreases keys.len(),
{
    if keys.len() == 0 {
        Seq::empty()
    } else {
        let k = keys.last();
        streaks_bytes(m, keys.drop_last()) + spec_u64_to_le_bytes(k) + spec_u32_to_le_bytes(m[k].current_days)
            + spec_u32_to_le_bytes(m[k].longest_days) + spec_u64_to_le_bytes(m[k].last_touched_day)
    }
}

pub open spec fn pairs_bytes(m: Map<u128, u32>, keys: Seq<u128>) -> Seq<u8>
    decreases keys.len(),
{
    if keys.len() == 0 {
        Seq::empty()
    } else {
        let k = keys.last();
        pairs_bytes(m, keys.drop_last()) + spec_u64_to_le_bytes(key_pair(k).0) + spec_u64_to_le_bytes(key_pair(k).1)
            + spec_u32_to_le_bytes(m[k])
    }
}

pub open spec fn windows_bytes(m: Map<u64, [u32; 14]>, keys: Seq<u64>) -> Seq<u8>
    decreases keys.len(),
{
    if keys.len() == 0 {
        Seq::empty()
    } else {
        let k = keys.last();
        windows_bytes(m, keys.drop_last()) + spec_u64_to_le_bytes(k) + u32s_bytes(m[k]@)
    }
}

pub open spec fn names_bytes(m: Map<u64, String>, keys: Seq<u64>) -> Seq<u8>
    decreases keys.len(),
{
    if keys.len() == 0 {
        Seq::empty()
    } else {
        let k = keys.last();
        names_bytes(m, keys.drop_last()) + spec_u64_to_le_bytes(k) + text_field(m[k]@)
    }
}

/// The names, after everything else.
pub open spec fn names_tail(e: MemoryEngine, nk: Seq<u64>) -> Seq<u8> {
    let nn = capped(nk.len(), IMAGE_ENTRIES as nat);
    spec_u32_to_le_bytes(nn as u32) + names_bytes(e.names@, nk.take(nn as int))
}

/// The trend windows and what follows them.
pub open spec fn windows_tail(e: MemoryEngine, dk: Seq<u64>, nk: Seq<u64>) -> Seq<u8> {
    let dn = capped(dk.len(), IMAGE_ENTRIES as nat);
    spec_u64_to_le_bytes(e.trends.last()) + (spec_u32_to_le_bytes(dn as u32) + (windows_bytes(
        e.trends.windows(),
        dk.take(dn as int),
    ) + names_tail(e, nk)))
}

/// The co-access pairs and what follows them.
pub open spec fn pairs_tail(e: MemoryEngine, pk: Seq<u128>, dk: Seq<u64>, nk: Seq<u64>) -> Seq<u8> {
    let pn = capped(pk.len(), IMAGE_PAIRS as nat);
    spec_u32_to_le_bytes(pn as u32) + (pairs_bytes(e.co_access.pairs@, pk.take(pn as int)) + windows_tail(e, dk, nk))
}

/// The streaks and what follows them.
pub open spec fn streaks_tail(e: MemoryEngine, kk: Seq<u64>, pk: Seq<u128>, dk: Seq<u64>, nk: Seq<u64>) -> Seq<u8> {
    let kn = capped(kk.len(), IMAGE_ENTRIES as nat);
    spec_u32_to_le_bytes(kn as u32) + (streaks_bytes(e.streaks@, kk.take(kn as int)) + pairs_tail(e, pk, dk, nk))
}

/// The temporal patterns and what follows them.
pub open spec fn patterns_tail(
    e: MemoryEngine,
    tk: Seq<u64>,
    kk: Seq<u64>,
    pk: Seq<u128>,
    dk: Seq<u64>,
    nk: Seq<u64>,
) -> Seq<u8> {
    let tn = capped(tk.len(), IMAGE_ENTRIES as nat);
    spec_u32_to_le_bytes(tn as u32) + (patterns_bytes(e.temporal@, tk.take(tn as int)) + streaks_tail(e, kk, pk, dk, nk))
}

/// The image of a memory whose maps are walked in the given orders.
pub open spec fn image_in(
    e: MemoryEngine,
    tk: Seq<u64>,
    kk: Seq<u64>,
    pk: Seq<u128>,
    dk: Seq<u64>,
    nk: Seq<u64>,
) -> Seq<u8> {
    let sn = capped(e.sessions@.len(), IMAGE_SESSIONS as nat);
    memory_magic() + (spec_u64_to_le_bytes(e.total_sessions) + (spec_u32_to_le_bytes(sn as u32) + (sessions_bytes(
        e.sessions@.take(sn as int),
    ) + patterns_tail(e, tk, kk, pk, dk, nk))))
}

/// The same image, its parts one after the other.
spec fn image_flat(
    e: MemoryEngine,
    tk: Seq<u64>,
    kk: Seq<u64>,
    pk: Seq<u128>,
    dk: Seq<u64>,
    nk: Seq<u64>,
) -> Seq<u8> {
    let sn = capped(e.sessions@.len(), IMAGE_SESSIONS as nat);
    let tn = capped(tk.len(), IMAGE_ENTRIES as nat);
    let kn = capped(kk.len(), IMAGE_ENTRIES as nat);
    let pn = capped(pk.len(), IMAGE_PAIRS as nat);
    let dn = capped(dk.len(), IMAGE_ENTRIES as nat);
    let nn = capped(nk.len(), IMAGE_ENTRIES as nat);
    memory_magic() + spec_u64_to_le_bytes(e.total_sessions) + spec_u32_to_le_bytes(sn as u32) + sessions_bytes(
        e.sessions@.take(sn as int),
    ) + spec_u32_to_le_bytes(tn as u32) + patterns_bytes(e.temporal@, tk.take(tn as int)) + spec_u32_to_le_bytes(
        kn as u32,
    ) + streaks_bytes(e.streaks@, kk.take(kn as int)) + spec_u32_to_le_bytes(pn as u32) + pairs_bytes(
        e.co_access.pairs@,
        pk.take(pn as int),
    ) + spec_u64_to_le_bytes(e.trends.last()) + spec_u32_to_le_bytes(dn as u32) + windows_bytes(
        e.trends.windows(),
        dk.take(dn as int),
    ) + spec_u32_to_le_bytes(nn as u32) + names_bytes(e.names@, nk.take(nn as int))
}

proof fn lemma_assoc(a: Seq<u8>, b: Seq<u8>, c: Seq<u8>)
    ensures
        a + (b + c) == a + b + c,
{
    assert(a + (b + c) =~= a + b + c);
}

proof fn lemma_image_flat(e: MemoryEngine, tk: Seq<u64>, kk: Seq<u64>, pk: Seq<u128>, dk: Seq<u64>, nk: Seq<u64>)
    ensures
        image_in(e, tk, kk, pk, dk, nk) == image_flat(e, tk, kk, pk, dk, nk),
{
    let sn = capped(e.sessions@.len(), IMAGE_SESSIONS as nat);
    let tn = capped(tk.len(), IMAGE_ENTRIES as nat);
    let kn = capped(kk.len(), IMAGE_ENTRIES as nat);
    let pn = capped(pk.len(), IMAGE_PAIRS as nat);
    let dn = capped(dk.len(), IMAGE_ENTRIES as nat);
    let nn = capped(nk.len(), IMAGE_ENTRIES as nat);
    let n5 = names_tail(e, nk);
    let l8 = spec_u64_to_le_bytes(e.trends.last());
    let d4 = spec_u32_to_le_bytes(dn as u32);
    let wb = windows_bytes(e.trends.windows(), dk.take(dn as int));
    lemma_assoc(l8, d4, wb + n5);
    lemma_assoc(l8 + d4, wb, n5);
    let w = l8 + d4 + wb;
    assert(windows_tail(e, dk, nk) == w + n5);
    let p4 = spec_u32_to_le_bytes(pn as u32);
    let qb = pairs_bytes(e.co_access.pairs@, pk.take(pn as int));
    lemma_assoc(p4, qb, w + n5);
    let q = p4 + qb;
    assert(pairs_tail(e, pk, dk, nk) == q + (w + n5));
    let k4 = spec_u32_to_le_bytes(kn as u32);
    let kb = streaks_bytes(e.streaks@, kk.take(kn as int));
    lemma_assoc(k4, kb, q + (w + n5));
    let k = k4 + kb;
    assert(streaks_tail(e, kk, pk, dk, nk) == k + (q + (w + n5)));
    let t4 = spec_u32_to_le_bytes(tn as u32);
    let pb = patterns_bytes(e.temporal@, tk.take(tn as int));
    lemma_assoc(t4, pb, k + (q + (w + n5)));
    let t = t4 + pb;
    let pt = t + (k + (q + (w + n5)));
    assert(patterns_tail(e, tk, kk, pk, dk, nk) == pt);
    let m8 = memory_magic();
    let u8b = spec_u64_to_le_bytes(e.total_sessions);
    let s4 = spec_u32_to_le_bytes(sn as u32);
    let sb = sessions_bytes(e.sessions@.take(sn as int));
    lemma_assoc(m8, u8b, s4 + (sb + pt));
    lemma_assoc(m8 + u8b, s4, sb + pt);
    lemma_assoc(m8 + u8b + s4, sb, pt);
    let h = m8 + u8b + s4 + sb;
    assert(image_in(e, tk, kk, pk, dk, nk) == h + pt);
    lemma_assoc(h, t, k + (q + (w + n5)));
    lemma_assoc(h + t, k, q + (w + n5));
    lemma_assoc(h + t + k, q, w + n5);
    lemma_assoc(h + t + k + q, w, n5);
    lemma_assoc(h, t4, pb);
    lemma_assoc(h + t, k4, kb);
    lemma_assoc(h + t + k, p4, qb);
    lemma_assoc(h + t + k + q, l8 + d4, wb);
    lemma_assoc(h + t + k + q, l8, d4);
    lemma_assoc(h + t + k + q + w, spec_u32_to_le_bytes(nn as u32), names_bytes(e.names@, nk.take(nn as int)));
}

/// The image of a memory, its maps walked in their iteration order.
pub open spec fn memory_image(e: MemoryEngine) -> Seq<u8> {
    image_in(
        e,
        walk_order(&e.temporal),
        walk_order(&e.streaks),
        pair_walk(&e.co_access.pairs),
        e.trends.walk(),
        walk_order(&e.names),
    )
}

fn append_u32s(out: &mut Vec<u8>, s: &[u32])
    ensures
        final(out)@ == old(out)@ + u32s_bytes(s@),
{
    let mut i: usize = 0;
    while i < s.len()
        invariant
            i <= s@.len(),
            out@ == old(out)@ + u32s_bytes(s@.subrange(0, i as int)),
        decreases s@.len() - i,
    {
        proof {
            assert(s@.subrange(0, i + 1).drop_last() =~= s@.subrange(0, i as int));
        }
        append_u32(out, s[i]);
        i = i + 1;
        assert(out@ =~= old(out)@ + u32s_bytes(s@.subrange(0, i as int)));
    }
    assert(s@.subrange(0, s@.len() as int) =~= s@);
}

fn append_text(out: &mut Vec<u8>, s: &String)
    ensures
        final(out)@ == old(out)@ + text_field(s@),
{
    append_name(out, s, NAME_LIMIT);
}

fn append_session(out: &mut Vec<u8>, s: &Session)
    ensures
        final(out)@ == old(out)@ + session_bytes(*s),
{
    let ghost start = out@;
    append_u64(out, s.id);
    append_u64(out, s.start_ts);
    append_u64(out, s.end_ts);
    append_u64(out, s.total_writes);
    append_u64(out, s.total_reads);
    let n: usize = if s.files_touched.len() < IMAGE_FILES { s.files_touched.len() } else { IMAGE_FILES };
    append_u32(out, n as u32);
    let ghost head = out@;
    let ghost fs = s.files_touched@;
    let mut i: usize = 0;
    while i < n
        invariant
            n <= fs.len(),
            fs == s.files_touched@,
            i <= n,
            out@ == head + files_bytes(fs.subrange(0, i as int)),
        decreases n - i,
    {
        proof {
            assert(fs.subrange(0, i + 1).drop_last() =~= fs.subrange(0, i as int));
        }
        let f = &s.files_touched[i];
        append_u64(out, f.0);
        append_text(out, &f.1);
        i = i + 1;
        assert(out@ =~= head + files_bytes(fs.subrange(0, i as int)));
    }
    assert(fs.subrange(0, n as int) =~= fs.take(n as int));
    match &s.focus_file {
        Some(f) => append_text(out, f),
        None => {
            let empty = String::new();
            append_text(out, &empty);
        },
    }
    assert(out@ =~= start + session_bytes(*s));
}

fn append_sessions(out: &mut Vec<u8>, ss: &Vec<Session>)
    ensures
        final(out)@ == old(out)@ + spec_u32_to_le_bytes(capped(ss@.len(), IMAGE_SESSIONS as nat) as u32)
            + sessions_bytes(ss@.take(capped(ss@.len(), IMAGE_SESSIONS as nat) as int)),
{
    let ghost start = out@;
    let n: usize = if ss.len() < IMAGE_SESSIONS { ss.len() } else { IMAGE_SESSIONS };
    append_u32(out, n as u32);
    let ghost head = out@;
    let mut i: usize = 0;
    while i < n
        invariant
            n <= ss@.len(),
            i <= n,
            out@ == head + sessions_bytes(ss@.subrange(0, i as int)),
        decreases n - i,
    {
        proof {
            assert(ss@.subrange(0, i + 1).drop_last() =~= ss@.subrange(0, i as int));
        }
        append_session(out, &ss[i]);
        i = i + 1;
        assert(out@ =~= head + sessions_bytes(ss@.subrange(0, i as int)));
    }
    assert(ss@.subrange(0, n as int) =~= ss@.take(n as int));
}

fn append_patterns(out: &mut Vec<u8>, m: &HashMap<u64, TemporalPattern>)
    ensures
        final(out)@ == old(out)@ + spec_u32_to_le_bytes(capped(walk_order(m).len(), IMAGE_ENTRIES as nat) as u32)
            + patterns_bytes(m@, walk_order(m).take(capped(walk_order(m).len(), IMAGE_ENTRIES as nat) as int)),
{
    let keys = keys_in_walk_order(m);
    let n: usize = if keys.len() < IMAGE_ENTRIES { keys.len() } else { IMAGE_ENTRIES };
    append_u32(out, n as u32);
    let ghost head = out@;
    let mut i: usize = 0;
    while i < n
        invariant
            n <= keys@.len(),
            keys@.to_set() == m@.dom(),
            i <= n,
            out@ == head + patterns_bytes(m@, keys@.subrange(0, i as int)),
        decreases n - i,
    {
        let k = keys[i];
        proof {
            assert(keys@.subrange(0, i + 1).drop_last() =~= keys@.subrange(0, i as int));
            assert(keys@.to_set().contains(k));
        }
        let p = m.get(&k).unwrap();
        append_u64(out, k);
        append_u32s(out, p.by_hour.as_slice());
        append_u32s(out, p.by_day.as_slice());
        append_u32(out, p.total);
        i = i + 1;
        assert(out@ =~= head + patterns_bytes(m@, keys@.subrange(0, i as int)));
    }
    assert(keys@.subrange(0, n as int) =~= keys@.take(n as int));
}

fn append_streaks(out: &mut Vec<u8>, m: &HashMap<u64, Streak>)
    ensures
        final(out)@ == old(out)@ + spec_u32_to_le_bytes(capped(walk_order(m).len(), IMAGE_ENTRIES as nat) as u32)
            + streaks_bytes(m@, walk_order(m).take(capped(walk_order(m).len(), IMAGE_ENTRIES as nat) as int)),
{
    let keys = keys_in_walk_order(m);
    let n: usize = if keys.len() < IMAGE_ENTRIES { keys.len() } else { IMAGE_ENTRIES };
    append_u32(out, n as u32);
    let ghost head = out@;
    let mut i: usize = 0;
    while i < n
        invariant
            n <= keys@.len(),
            keys@.to_set() == m@.dom(),
            i <= n,
            out@ == head + streaks_bytes(m@, keys@.subrange(0, i as int)),
        decreases n - i,
    {
        let k = keys[i];
        proof {
            assert(keys@.subrange(0, i + 1).drop_last() =~= keys@.subrange(0, i as int));
            assert(keys@.to_set().contains(k));
        }
        let s = m.get(&k).unwrap();
        append_u64(out, k);
        append_u32(out, s.current_days);
        append_u32(out, s.longest_days);
        append_u64(out, s.last_touched_day);
        i = i + 1;
        assert(out@ =~= head + streaks_bytes(m@, keys@.subrange(0, i as int)));
    }
    assert(keys@.subrange(0, n as int) =~= keys@.take(n as int));
}

fn append_pairs(out: &mut Vec<u8>, m: &HashMap<u128, u32>)
    ensures
        final(out)@ == old(out)@ + spec_u32_to_le_bytes(capped(pair_walk(m).len(), IMAGE_PAIRS as nat) as u32)
            + pairs_bytes(m@, pair_walk(m).take(capped(pair_walk(m).len(), IMAGE_PAIRS as nat) as int)),
{
    let keys = pair_keys(m);
    let n: usize = if keys.len() < IMAGE_PAIRS { keys.len() } else { IMAGE_PAIRS };
    append_u32(out, n as u32);
    let ghost head = out@;
    let mut i: usize = 0;
    while i < n
        invariant
            n <= keys@.len(),
            keys@.to_set() == m@.dom(),
            i <= n,
            out@ == head + pairs_bytes(m@, keys@.subrange(0, i as int)),
        decreases n - i,
    {
        let k = keys[i];
        proof {
            assert(keys@.subrange(0, i + 1).drop_last() =~= keys@.subrange(0, i as int));
            assert(keys@.to_set().contains(k));
        }
        let c = *m.get(&k).unwrap();
        let (a, b) = split_pair_key(k);
        append_u64(out, a);
        append_u64(out, b);
        append_u32(out, c);
        i = i + 1;
        assert(out@ =~= head + pairs_bytes(m@, keys@.subrange(0, i as int)));
    }
    assert(keys@.subrange(0, n as int) =~= keys@.take(n as int));
}

fn append_windows(out: &mut Vec<u8>, m: &HashMap<u64, [u32; 14]>)
    ensures
        final(out)@ == old(out)@ + spec_u32_to_le_bytes(capped(walk_order(m).len(), IMAGE_ENTRIES as nat) as u32)
            + windows_bytes(m@, walk_order(m).take(capped(walk_order(m).len(), IMAGE_ENTRIES as nat) as int)),
{
    let keys = keys_in_walk_order(m);
    let n: usize = if keys.len() < IMAGE_ENTRIES { keys.len() } else { IMAGE_ENTRIES };
    append_u32(out, n as u32);
    let ghost head = out@;
    let mut i: usize = 0;
    while i < n
        invariant
            n <= keys@.len(),
            keys@.to_set() == m@.dom(),
            i <= n,
            out@ == head + windows_bytes(m@, keys@.subrange(0, i as int)),
        decreases n - i,
    {
        let k = keys[i];
        proof {
            assert(keys@.subrange(0, i + 1).drop_last() =~= keys@.subrange(0, i as int));
            assert(keys@.to_set().contains(k));
        }
        let c = m.get(&k).unwrap();
        append_u64(out, k);
        append_u32s(out, c.as_slice());
        i = i + 1;
        assert(out@ =~= head + windows_bytes(m@, keys@.subrange(0, i as int)));
    }
    assert(keys@.subrange(0, n as int) =~= keys@.take(n as int));
}

fn append_names(out: &mut Vec<u8>, m: &HashMap<u64, String>)
    ensures
        final(out)@ == old(out)@ + spec_u32_to_le_bytes(capped(walk_order(m).len(), IMAGE_ENTRIES as nat) as u32)
            + names_bytes(m@, walk_order(m).take(capped(walk_order(m).len(), IMAGE_ENTRIES as nat) as int)),
{
    let keys = keys_in_walk_order(m);
    let n: usize = if keys.len() < IMAGE_ENTRIES { keys.len() } else { IMAGE_ENTRIES };
    append_u32(out, n as u32);
    let ghost head = out@;
    let mut i: usize = 0;
    while i < n
        invariant
            n <= keys@.len(),
            keys@.to_set() == m@.dom(),
            i <= n,
            out@ == head + names_bytes(m@, keys@.subrange(0, i as int)),
        decreases n - i,
    {
        let k = keys[i];
        proof {
            assert(keys@.subrange(0, i + 1).drop_last() =~= keys@.subrange(0, i as int));
            assert(keys@.to_set().contains(k));
        }
        let s = m.get(&k).unwrap();
        append_u64(out, k);
        append_text(out, s);
        i = i + 1;
        assert(out@ =~= head + names_bytes(m@, keys@.subrange(0, i as int)));
    }
    assert(keys@.subrange(0, n as int) =~= keys@.take(n as int));
}

impl MemoryEngine {
    /// The image of this memory (the current session is not part of it).
    pub fn to_bytes(&self) -> (r: Vec<u8>)
        ensures
            r@ == memory_image(*self),
    {
        let mut out: Vec<u8> = Vec::new();
        out.push(0x56u8);
        out.push(0x45u8);
        out.push(0x58u8);
        out.push(0x4du8);
        out.push(0x45u8);
        out.push(0x4du8);
        out.push(0x30u8);
        out.push(0x31u8);
        append_u64(&mut out, self.total_sessions);
        append_sessions(&mut out, &self.sessions);
        append_patterns(&mut out, &self.temporal);
        append_streaks(&mut out, &self.streaks);
        append_pairs(&mut out, &self.co_access.pairs);
        append_u64(&mut out, self.trends.last_day());
        append_windows(&mut out, self.trends.daily_map());
        append_names(&mut out, &self.names);
        proof {
            lemma_image_flat(
                *self,
                walk_order(&self.temporal),
                walk_order(&self.streaks),
                pair_walk(&self.co_access.pairs),
                self.trends.walk(),
                walk_order(&self.names),
            );
        }
        assert(out@ =~= image_flat(
            *self,
            walk_order(&self.temporal),
            walk_order(&self.streaks),
            pair_walk(&self.co_access.pairs),
            self.trends.walk(),
            walk_order(&self.names),
        ));
        out
    }
}

// ── Reading an image back ────────────────────────────────────────────────────

/// A stored inode and name bytes.
pub type EntryRecord = (u64, Seq<u8>);

/// A stored session: id, start, end, writes, reads, files, focus bytes.
pub type SessionRecord = (u64, u64, u64, u64, u64, Seq<EntryRecord>, Seq<u8>);

/// A session as text: id, start, end, writes, reads, files, focus, peak.
pub type SessionView = (u64, u64, u64, u64, u64, Seq<(u64, Seq<char>)>, Option<Seq<char>>, usize);

/// A temporal pattern as counts: by hour, by day, total.
pub type PatternView = (Seq<u32>, Seq<u32>, u32);

/// The contents of a memory, its current session aside.
pub struct MemoryContents {
    pub total_sessions: u64,
    pub sessions: Seq<SessionView>,
    pub temporal: Map<u64, PatternView>,
    pub streaks: Map<u64, Streak>,
    pub pairs: Map<u128, u32>,
    pub last_day: u64,
    pub daily: Map<u64, Seq<u32>>,
    pub names: Map<u64, Seq<char>>,
}

pub open spec fn session_view(s: Session) -> SessionView {
    (
        s.id,
        s.start_ts,
        s.end_ts,
        s.total_writes,
        s.total_reads,
        s.files_touched@.map_values(|f: (u64, String)| (f.0, f.1@)),
        match s.focus_file {
            Some(f) => Some(f@),
            None => None,
        },
        s.peak_files,
    )
}

/// What a memory holds, its current session aside.
pub open spec fn memory_contents(e: MemoryEngine) -> MemoryContents {
    MemoryContents {
        total_sessions: e.total_sessions,
        sessions: e.sessions@.map_values(|s: Session| session_view(s)),
        temporal: e.temporal@.map_values(|p: TemporalPattern| (p.by_hour@, p.by_day@, p.total)),
        streaks: e.streaks@,
        pairs: e.co_access.pairs@,
        last_day: e.trends.last(),
        daily: e.trends.windows().map_values(|a: [u32; 14]| a@),
        names: e.names@.map_values(|s: String| s@),
    }
}

/// `n` entries (inode, name) from `p` and the position after them.
pub open spec fn entries_at(b: Seq<u8>, p: int, n: nat) -> Option<(Seq<EntryRecord>, int)>
    decreases n,
{
    if n == 0 {
        Some((Seq::empty(), p))
    } else {
        match entries_at(b, p, (n - 1) as nat) {
            Some((es, q)) => if 0 <= q && q + 8 <= b.len() {
                match name_at(b, q + 8) {
                    Some((nm, q2)) => Some((es.push((le64_at(b, q), nm)), q2)),
                    None => None,
                }
            } else {
                None
            },
            None => None,
        }
    }
}

/// A session record at `p` and the position after it.
pub open spec fn session_at(b: Seq<u8>, p: int) -> Option<(SessionRecord, int)> {
    if 0 <= p && p + 44 <= b.len() {
        match entries_at(b, p + 44, capped(le32_at(b, p + 40) as nat, IMAGE_FILES as nat)) {
            Some((fs, q)) => match name_at(b, q) {
                Some((f, q2)) => Some(
                    (
                        (le64_at(b, p), le64_at(b, p + 8), le64_at(b, p + 16), le64_at(b, p + 24), le64_at(b, p + 32), fs, f),
                        q2,
                    ),
                ),
                None => None,
            },
            None => None,
        }
    } else {
        None
    }
}

/// `n` session records from `p` and the position after them.
pub open spec fn sessions_at(b: Seq<u8>, p: int, n: nat) -> Option<(Seq<SessionRecord>, int)>
    decreases n,
{
    if n == 0 {
        Some((Seq::empty(), p))
    } else {
        match sessions_at(b, p, (n - 1) as nat) {
            Some((ss, q)) => match session_at(b, q) {
                Some((s, q2)) => Some((ss.push(s), q2)),
                None => None,
            },
            None => None,
        }
    }
}

/// A session read back: no peak recorded, no focus for an empty name.
pub open spec fn session_of(r: SessionRecord) -> SessionView {
    (
        r.0,
        r.1,
        r.2,
        r.3,
        r.4,
        r.5.map_values(|e: EntryRecord| (e.0, lossy_text(e.1))),
        if r.6.len() == 0 {
            None
        } else {
            Some(lossy_text(r.6))
        },
        0usize,
    )
}

/// `n` little-endian u32 from `p`.
pub open spec fn u32s_at(b: Seq<u8>, p: int, n: nat) -> Seq<u32> {
    Seq::new(n, |i: int| le32_at(b, p + 4 * i))
}

/// The patterns of `n` records from `p`; a later record of an inode
/// replaces an earlier one.
pub open spec fn patterns_from(b: Seq<u8>, p: int, n: nat) -> Map<u64, PatternView>
    decreases n,
{
    if n == 0 {
        Map::empty()
    } else {
        let q = p + PATTERN_LEN * (n - 1);
        patterns_from(b, p, (n - 1) as nat).insert(
            le64_at(b, q),
            (u32s_at(b, q + 8, 24), u32s_at(b, q + 104, 7), le32_at(b, q + 132)),
        )
    }
}

pub open spec fn streaks_from(b: Seq<u8>, p: int, n: nat) -> Map<u64, Streak>
    decreases n,
{
    if n == 0 {
        Map::empty()
    } else {
        let q = p + STREAK_LEN * (n - 1);
        streaks_from(b, p, (n - 1) as nat).insert(
            le64_at(b, q),
            Streak { current_days: le32_at(b, q + 8), longest_days: le32_at(b, q + 12), last_touched_day: le64_at(b, q + 16) },
        )
    }
}

pub open spec fn pairs_from(b: Seq<u8>, p: int, n: nat) -> Map<u128, u32>
    decreases n,
{
    if n == 0 {
        Map::empty()
    } else {
        let q = p + PAIR_LEN * (n - 1);
        pairs_from(b, p, (n - 1) as nat).insert(pair_key(le64_at(b, q), le64_at(b, q + 8)), le32_at(b, q + 16))
    }
}

pub open spec fn windows_from(b: Seq<u8>, p: int, n: nat) -> Map<u64, Seq<u32>>
    decreases n,
{
    if n == 0 {
        Map::empty()
    } else {
        let q = p + WINDOW_LEN * (n - 1);
        windows_from(b, p, (n - 1) as nat).insert(le64_at(b, q), u32s_at(b, q + 8, 14))
    }
}

/// Names by inode; a later entry replaces an earlier one.
pub open spec fn names_of(es: Seq<EntryRecord>) -> Map<u64, Seq<char>>
    decreases es.len(),
{
    if es.len() == 0 {
        Map::empty()
    } else {
        names_of(es.drop_last()).insert(es.last().0, lossy_text(es.last().1))
    }
}

/// What an image is read back as; `None` when it is too short, has another
/// magic, or ends before a section does.
pub open spec fn memory_parsed(b: Seq<u8>) -> Option<MemoryContents> {
    if b.len() < 20 || b.subrange(0, 8) != memory_magic() {
        None
    } else {
        match sessions_at(b, 20, capped(le32_at(b, 16) as nat, IMAGE_SESSIONS as nat)) {
            None => None,
            Some((ss, p1)) => {
                let tn = capped(le32_at(b, p1) as nat, IMAGE_ENTRIES as nat);
                let p2 = p1 + 4 + PATTERN_LEN * tn;
                let kn = capped(le32_at(b, p2) as nat, IMAGE_ENTRIES as nat);
                let p3 = p2 + 4 + STREAK_LEN * kn;
                let pn = capped(le32_at(b, p3) as nat, IMAGE_PAIRS as nat);
                let p4 = p3 + 4 + PAIR_LEN * pn;
                let dn = capped(le32_at(b, p4 + 8) as nat, IMAGE_ENTRIES as nat);
                let p5 = p4 + 12 + WINDOW_LEN * dn;
                let nn = capped(le32_at(b, p5) as nat, IMAGE_ENTRIES as nat);
                if p1 + 4 > b.len() || p2 + 4 > b.len() || p3 + 4 > b.len() || p4 + 12 > b.len() || p5 + 4 > b.len() {
                    None
                } else {
                    match entries_at(b, p5 + 4, nn) {
                        None => None,
                        Some((ns, _)) => Some(
                            MemoryContents {
                                total_sessions: le64_at(b, 8),
                                sessions: ss.map_values(|r: SessionRecord| session_of(r)),
                                temporal: patterns_from(b, p1 + 4, tn),
                                streaks: streaks_from(b, p2 + 4, kn),
                                pairs: pairs_from(b, p3 + 4, pn),
                                last_day: le64_at(b, p4),
                                daily: windows_from(b, p4 + 12, dn),
                                names: names_of(ns),
                            },
                        ),
                    }
                }
            },
        }
    }
}

fn read_u32s<const N: usize>(b: &[u8], p: usize) -> (r: [u32; N])
    requires
        p + 4 * N <= b@.len(),
    ensures
        r@ == u32s_at(b@, p as int, N as nat),
{
    let blen = b.len();
    let mut a: [u32; N] = [0u32; N];
    let mut i: usize = 0;
    while i < N
        invariant
            blen == b@.len(),
            p + 4 * N <= b@.len(),
            a@.len() == N,
            i <= N,
            forall|j: int| 0 <= j < i ==> a@[j] == le32_at(b@, p + 4 * j),
        decreases N - i,
    {
        assert(4 * i + 4 <= 4 * N) by (nonlinear_arith)
            requires
                i < N,
        ;
        a[i] = read_le32(b, p + 4 * i);
        i = i + 1;
    }
    assert(a@ =~= u32s_at(b@, p as int, N as nat));
    a
}

/// Read `n` entries (inode, name) from `p`.
fn read_entries(b: &[u8], p: usize, n: usize) -> (r: Option<(Vec<(u64, String)>, usize)>)
    requires
        p <= b@.len(),
    ensures
        r is Some <==> entries_at(b@, p as int, n as nat) is Some,
        r matches Some((v, q)) ==> entries_at(b@, p as int, n as nat) matches Some((es, q2)) && q2 == q
            && v@.map_values(|f: (u64, String)| (f.0, f.1@)) == es.map_values(|e: EntryRecord| (e.0, lossy_text(e.1))),
{
    let mut v: Vec<(u64, String)> = Vec::new();
    let mut q: usize = p;
    let mut i: usize = 0;
    let ghost mut es: Seq<EntryRecord> = Seq::empty();
    proof {
        assert(v@.map_values(|f: (u64, String)| (f.0, f.1@)) =~= es.map_values(|e: EntryRecord| (e.0, lossy_text(e.1))));
    }
    while i < n
        invariant
            i <= n,
            q <= b@.len(),
            entries_at(b@, p as int, i as nat) == Some((es, q as int)),
            v@.map_values(|f: (u64, String)| (f.0, f.1@)) == es.map_values(|e: EntryRecord| (e.0, lossy_text(e.1))),
        decreases n - i,
    {
        if b.len() - q < 8 {
            proof {
                lemma_entries_stop(b@, p as int, i as nat, n as nat, es, q as int);
            }
            return None;
        }
        let ino = read_le64(b, q);
        let (name, q2) = match read_name(b, q + 8) {
            None => {
                proof {
                    lemma_entries_stop(b@, p as int, i as nat, n as nat, es, q as int);
                }
                return None;
            },
            Some(x) => x,
        };
        let ghost rec: EntryRecord = (ino, name_bytes_of(b@, q + 8));
        let ghost old_v = v@;
        v.push((ino, name));
        proof {
            let old_es = es;
            es = es.push(rec);
            assert(v@.map_values(|f: (u64, String)| (f.0, f.1@)) =~= es.map_values(|e: EntryRecord| (e.0, lossy_text(e.1)))) by {
                assert(v@ == old_v.push((ino, name)));
                assert(old_es.map_values(|e: EntryRecord| (e.0, lossy_text(e.1))).len() == old_v.len());
                assert forall|j: int| 0 <= j < old_v.len() implies #[trigger] v@[j] == old_v[j] by {}
                assert forall|j: int| 0 <= j < old_v.len() implies (#[trigger] old_v[j]).1@ == lossy_text(old_es[j].1) && old_v[j].0 == old_es[j].0 by {
                    assert(old_v.map_values(|f: (u64, String)| (f.0, f.1@))[j] == old_es.map_values(|e: EntryRecord| (e.0, lossy_text(e.1)))[j]);
                }
            }
        }
        q = q2;
        i = i + 1;
    }
    Some((v, q))
}

/// What a successful read found.
spec fn found<A>(o: Option<(A, int)>) -> A {
    match o {
        Some((a, _)) => a,
        None => arbitrary(),
    }
}

/// The name bytes at `p`, empty where there is no name.
spec fn name_bytes_of(b: Seq<u8>, p: int) -> Seq<u8> {
    match name_at(b, p) {
        Some((n, _)) => n,
        None => Seq::empty(),
    }
}

proof fn lemma_entries_stop(b: Seq<u8>, p: int, i: nat, n: nat, es: Seq<EntryRecord>, q: int)
    requires
        i < n,
        entries_at(b, p, i) == Some((es, q)),
        !(0 <= q && q + 8 <= b.len() && name_at(b, q + 8) is Some),
    ensures
        entries_at(b, p, n) is None,
    decreases n - i,
{
    if n > i + 1 {
        lemma_entries_stop(b, p, i, (n - 1) as nat, es, q);
    }
}

/// Read a session record at `p`.
fn read_session(b: &[u8], p: usize) -> (r: Option<(Session, usize)>)
    ensures
        r is Some <==> session_at(b@, p as int) is Some,
        r matches Some((s, q)) ==> session_at(b@, p as int) matches Some((rec, q2)) && q2 == q && session_view(s)
            == session_of(rec),
{
    if p > b.len() || b.len() - p < 44 {
        return None;
    }
    let id = read_le64(b, p);
    let start_ts = read_le64(b, p + 8);
    let end_ts = read_le64(b, p + 16);
    let total_writes = read_le64(b, p + 24);
    let total_reads = read_le64(b, p + 32);
    let count = read_le32(b, p + 40);
    let n: usize = if (count as usize) < IMAGE_FILES { count as usize } else { IMAGE_FILES };
    let (files_touched, q) = match read_entries(b, p + 44, n) {
        None => {
            return None;
        },
        Some(x) => x,
    };
    if q >= b.len() {
        return None;
    }
    let flen = b[q];
    let (focus, q2) = match read_name(b, q) {
        None => {
            return None;
        },
        Some(x) => x,
    };
    let focus_file = if flen == 0 { None } else { Some(focus) };
    let s = Session { id, start_ts, end_ts, files_touched, peak_files: 0, total_writes, total_reads, focus_file };
    proof {
        let rec = found(session_at(b@, p as int));
        assert(name_at(b@, q as int) matches Some((f, _)) && f.len() == flen);
        assert(session_view(s) =~= session_of(rec));
    }
    Some((s, q2))
}

/// Read `n` session records from `p`.
fn read_sessions(b: &[u8], p: usize, n: usize) -> (r: Option<(Vec<Session>, usize)>)
    requires
        p <= b@.len(),
    ensures
        r is Some <==> sessions_at(b@, p as int, n as nat) is Some,
        r matches Some((v, q)) ==> sessions_at(b@, p as int, n as nat) matches Some((ss, q2)) && q2 == q
            && v@.map_values(|s: Session| session_view(s)) == ss.map_values(|x: SessionRecord| session_of(x)),
{
    let mut v: Vec<Session> = Vec::new();
    let mut q: usize = p;
    let mut i: usize = 0;
    let ghost mut ss: Seq<SessionRecord> = Seq::empty();
    proof {
        assert(v@.map_values(|s: Session| session_view(s)) =~= ss.map_values(|x: SessionRecord| session_of(x)));
    }
    while i < n
        invariant
            i <= n,
            q <= b@.len(),
            sessions_at(b@, p as int, i as nat) == Some((ss, q as int)),
            v@.map_values(|s: Session| session_view(s)) == ss.map_values(|x: SessionRecord| session_of(x)),
        decreases n - i,
    {
        let (s, q2) = match read_session(b, q) {
            None => {
                proof {
                    lemma_sessions_stop(b@, p as int, i as nat, n as nat, ss, q as int);
                }
                return None;
            },
            Some(x) => x,
        };
        let ghost old_v = v@;
        let ghost old_ss = ss;
        proof {
            ss = ss.push(found(session_at(b@, q as int)));
        }
        v.push(s);
        proof {
            let a = old_v.map_values(|s: Session| session_view(s));
            let c = old_ss.map_values(|x: SessionRecord| session_of(x));
            assert(a.len() == old_v.len());
            assert(c.len() == old_ss.len());
            assert(a == c);
            assert forall|j: int| 0 <= j < old_v.len() implies session_view(#[trigger] old_v[j]) == session_of(old_ss[j]) by {
                assert(old_v.map_values(|s: Session| session_view(s))[j] == old_ss.map_values(|x: SessionRecord| session_of(x))[j]);
            }
            assert(v@.map_values(|s: Session| session_view(s)) =~= ss.map_values(|x: SessionRecord| session_of(x)));
        }
        q = q2;
        i = i + 1;
    }
    Some((v, q))
}

proof fn lemma_sessions_stop(b: Seq<u8>, p: int, i: nat, n: nat, ss: Seq<SessionRecord>, q: int)
    requires
        i < n,
        sessions_at(b, p, i) == Some((ss, q)),
        session_at(b, q) is None,
    ensures
        sessions_at(b, p, n) is None,
    decreases n - i,
{
    if n > i + 1 {
        lemma_sessions_stop(b, p, i, (n - 1) as nat, ss, q);
    }
}

/// Read `n` temporal pattern records from `p`.
fn read_patterns(b: &[u8], p: usize, n: usize) -> (r: HashMap<u64, TemporalPattern>)
    requires
        p + PATTERN_LEN * n <= b@.len(),
    ensures
        r@.map_values(|t: TemporalPattern| (t.by_hour@, t.by_day@, t.total)) == patterns_from(b@, p as int, n as nat),
{
    let blen = b.len();
    let mut m: HashMap<u64, TemporalPattern> = HashMap::new();
    let mut i: usize = 0;
    proof {
        assert(m@.map_values(|t: TemporalPattern| (t.by_hour@, t.by_day@, t.total)) =~= patterns_from(b@, p as int, 0));
    }
    while i < n
        invariant
            blen == b@.len(),
            p + PATTERN_LEN * n <= b@.len(),
            i <= n,
            m@.map_values(|t: TemporalPattern| (t.by_hour@, t.by_day@, t.total)) == patterns_from(b@, p as int, i as nat),
        decreases n - i,
    {
        let q = p + PATTERN_LEN * i;
        let ino = read_le64(b, q);
        let by_hour: [u32; 24] = read_u32s(b, q + 8);
        let by_day: [u32; 7] = read_u32s(b, q + 104);
        let total = read_le32(b, q + 132);
        let ghost old_m = m@;
        m.insert(ino, TemporalPattern { by_hour, by_day, total });
        proof {
            assert(m@.map_values(|t: TemporalPattern| (t.by_hour@, t.by_day@, t.total)) =~= old_m.map_values(
                |t: TemporalPattern| (t.by_hour@, t.by_day@, t.total),
            ).insert(ino, (by_hour@, by_day@, total)));
        }
        i = i + 1;
    }
    m
}

/// Read `n` streak records from `p`.
fn read_streaks(b: &[u8], p: usize, n: usize) -> (r: HashMap<u64, Streak>)
    requires
        p + STREAK_LEN * n <= b@.len(),
    ensures
        r@ == streaks_from(b@, p as int, n as nat),
{
    let blen = b.len();
    let mut m: HashMap<u64, Streak> = HashMap::new();
    let mut i: usize = 0;
    proof {
        assert(m@ =~= streaks_from(b@, p as int, 0));
    }
    while i < n
        invariant
            blen == b@.len(),
            p + STREAK_LEN * n <= b@.len(),
            i <= n,
            m@ == streaks_from(b@, p as int, i as nat),
        decreases n - i,
    {
        let q = p + STREAK_LEN * i;
        let ino = read_le64(b, q);
        let current_days = read_le32(b, q + 8);
        let longest_days = read_le32(b, q + 12);
        let last_touched_day = read_le64(b, q + 16);
        m.insert(ino, Streak { current_days, longest_days, last_touched_day });
        i = i + 1;
    }
    m
}

/// Read `n` co-access records from `p`.
fn read_pairs(b: &[u8], p: usize, n: usize) -> (r: HashMap<u128, u32>)
    requires
        p + PAIR_LEN * n <= b@.len(),
    ensures
        r@ == pairs_from(b@, p as int, n as nat),
{
    let blen = b.len();
    let mut m: HashMap<u128, u32> = HashMap::new();
    let mut i: usize = 0;
    proof {
        assert(m@ =~= pairs_from(b@, p as int, 0));
    }
    while i < n
        invariant
            blen == b@.len(),
            p + PAIR_LEN * n <= b@.len(),
            i <= n,
            m@ == pairs_from(b@, p as int, i as nat),
        decreases n - i,
    {
        let q = p + PAIR_LEN * i;
        let a = read_le64(b, q);
        let c = read_le64(b, q + 8);
        let count = read_le32(b, q + 16);
        m.insert(pair_key_of(a, c), count);
        i = i + 1;
    }
    m
}

/// Read `n` trend window records from `p`.
fn read_windows(b: &[u8], p: usize, n: usize) -> (r: HashMap<u64, [u32; 14]>)
    requires
        p + WINDOW_LEN * n <= b@.len(),
    ensures
        r@.map_values(|a: [u32; 14]| a@) == windows_from(b@, p as int, n as nat),
{
    let blen = b.len();
    let mut m: HashMap<u64, [u32; 14]> = HashMap::new();
    let mut i: usize = 0;
    proof {
        assert(m@.map_values(|a: [u32; 14]| a@) =~= windows_from(b@, p as int, 0));
    }
    while i < n
        invariant
            blen == b@.len(),
            p + WINDOW_LEN * n <= b@.len(),
            i <= n,
            m@.map_values(|a: [u32; 14]| a@) == windows_from(b@, p as int, i as nat),
        decreases n - i,
    {
        let q = p + WINDOW_LEN * i;
        let ino = read_le64(b, q);
        let counts: [u32; 14] = read_u32s(b, q + 8);
        let ghost old_m = m@;
        m.insert(ino, counts);
        proof {
            assert(m@.map_values(|a: [u32; 14]| a@) =~= old_m.map_values(|a: [u32; 14]| a@).insert(ino, counts@));
        }
        i = i + 1;
    }
    m
}

/// The names of entries read back, a later entry replacing an earlier one.
fn names_map(v: Vec<(u64, String)>, Ghost(es): Ghost<Seq<EntryRecord>>) -> (r: HashMap<u64, String>)
    requires
        v@.map_values(|f: (u64, String)| (f.0, f.1@)) == es.map_values(|e: EntryRecord| (e.0, lossy_text(e.1))),
    ensures
        r@.map_values(|s: String| s@) == names_of(es),
{
    let mut m: HashMap<u64, String> = HashMap::new();
    let mut i: usize = 0;
    let n = v.len();
    proof {
        assert(m@.map_values(|s: String| s@) =~= names_of(es.take(0)));
        let a = v@.map_values(|f: (u64, String)| (f.0, f.1@));
        let c = es.map_values(|e: EntryRecord| (e.0, lossy_text(e.1)));
        assert(a.len() == v@.len());
        assert(c.len() == es.len());
        assert(a == c);
    }
    while i < n
        invariant
            n == v@.len(),
            es.len() == n,
            i <= n,
            v@.map_values(|f: (u64, String)| (f.0, f.1@)) == es.map_values(|e: EntryRecord| (e.0, lossy_text(e.1))),
            m@.map_values(|s: String| s@) == names_of(es.take(i as int)),
        decreases n - i,
    {
        let ino = v[i].0;
        let name = v[i].1.clone();
        let ghost old_m = m@;
        m.insert(ino, name);
        proof {
            assert(v@.map_values(|f: (u64, String)| (f.0, f.1@))[i as int] == es.map_values(|e: EntryRecord| (e.0, lossy_text(e.1)))[i as int]);
            assert(es.take(i + 1).drop_last() =~= es.take(i as int));
            assert(m@.map_values(|s: String| s@) =~= old_m.map_values(|s: String| s@).insert(ino, name@));
        }
        i = i + 1;
    }
    assert(es.take(n as int) =~= es);
    m
}

impl MemoryEngine {
    /// Read a memory back from its image; the current session is a fresh
    /// one started at `now`, its id `now`.
    pub fn from_bytes_at(data: &[u8], now: u64) -> (r: Option<Self>)
        ensures
            r is Some <==> memory_parsed(data@) is Some,
            r matches Some(e) ==> memory_parsed(data@) == Some(memory_contents(e)) && fresh_session(
                e.current_session,
                now,
                now,
            ),
    {
        let b = data;
        let blen = b.len();
        if blen < 20 {
            return None;
        }
        if !(b[0] == 0x56 && b[1] == 0x45 && b[2] == 0x58 && b[3] == 0x4d && b[4] == 0x45 && b[5] == 0x4d && b[6]
            == 0x30 && b[7] == 0x31) {
            proof {
                if b@.subrange(0, 8) == memory_magic() {
                    assert(b@.subrange(0, 8)[0] == b@[0]);
                    assert(b@[0] == 0x56 && b@[1] == 0x45 && b@[2] == 0x58 && b@[3] == 0x4d);
                    assert(b@.subrange(0, 8)[4] == b@[4]);
                    assert(b@[4] == 0x45 && b@[5] == 0x4d && b@[6] == 0x30 && b@[7] == 0x31);
                }
            }
            return None;
        }
        assert(b@.subrange(0, 8) =~= memory_magic());
        let total_sessions = read_le64(b, 8);
        let sc = read_le32(b, 16);
        let sn: usize = if (sc as usize) < IMAGE_SESSIONS { sc as usize } else { IMAGE_SESSIONS };
        let (sessions, p1) = match read_sessions(b, 20, sn) {
            None => {
                return None;
            },
            Some(x) => x,
        };
        if blen - p1 < 4 {
            return None;
        }
        let tc = read_le32(b, p1);
        let tn: usize = if (tc as usize) < IMAGE_ENTRIES { tc as usize } else { IMAGE_ENTRIES };
        if blen - (p1 + 4) < PATTERN_LEN * tn || blen - (p1 + 4) - PATTERN_LEN * tn < 4 {
            return None;
        }
        let temporal = read_patterns(b, p1 + 4, tn);
        let p2 = p1 + 4 + PATTERN_LEN * tn;
        let kc = read_le32(b, p2);
        let kn: usize = if (kc as usize) < IMAGE_ENTRIES { kc as usize } else { IMAGE_ENTRIES };
        if blen - (p2 + 4) < STREAK_LEN * kn || blen - (p2 + 4) - STREAK_LEN * kn < 4 {
            return None;
        }
        let streaks = read_streaks(b, p2 + 4, kn);
        let p3 = p2 + 4 + STREAK_LEN * kn;
        let pc = read_le32(b, p3);
        let pn: usize = if (pc as usize) < IMAGE_PAIRS { pc as usize } else { IMAGE_PAIRS };
        if blen - (p3 + 4) < PAIR_LEN * pn || blen - (p3 + 4) - PAIR_LEN * pn < 12 {
            return None;
        }
        let pairs = read_pairs(b, p3 + 4, pn);
        let p4 = p3 + 4 + PAIR_LEN * pn;
        let last_day = read_le64(b, p4);
        let dc = read_le32(b, p4 + 8);
        let dn: usize = if (dc as usize) < IMAGE_ENTRIES { dc as usize } else { IMAGE_ENTRIES };
        if blen - (p4 + 12) < WINDOW_LEN * dn || blen - (p4 + 12) - WINDOW_LEN * dn < 4 {
            return None;
        }
        let daily = read_windows(b, p4 + 12, dn);
        let p5 = p4 + 12 + WINDOW_LEN * dn;
        let nc = read_le32(b, p5);
        let nn: usize = if (nc as usize) < IMAGE_ENTRIES { nc as usize } else { IMAGE_ENTRIES };
        let (entries, _q) = match read_entries(b, p5 + 4, nn) {
            None => {
                return None;
            },
            Some(x) => x,
        };
        let ghost es = found(entries_at(b@, p5 + 4, nn as nat));
        let names = names_map(entries, Ghost(es));
        let trends = TrendTracker::from_parts(daily, last_day);
        let e = MemoryEngine {
            sessions,
            current_session: Session::new_at(now, now),
            temporal,
            streaks,
            co_access: CoAccessMap { pairs },
            trends,
            names,
            total_sessions,
            session_hits: HashMap::new(),
        };
        proof {
            assert(memory_contents(e) =~= memory_parsed(b@)->0);
        }
        Some(e)
    }
}

impl MemoryEngine {
    /// Read a memory back from its image; the current session is a fresh
    /// one started now, its id the time it started.
    pub fn from_bytes(data: &[u8]) -> (r: Option<Self>)
        ensures
            r is Some <==> memory_parsed(data@) is Some,
            r matches Some(e) ==> memory_parsed(data@) == Some(memory_contents(e)) && exists|now: u64|
                #[trigger] fresh_session(e.current_session, now, now),
    {
        let now = unix_now_secs();
        let r = Self::from_bytes_at(data, now);
        proof {
            if r is Some {
                assert(fresh_session(r.unwrap().current_session, now, now));
            }
        }
        r
    }
}

// ── Reading back what was written ────────────────────────────────────────────

proof fn lemma_u32s_back(pre: Seq<u8>, s: Seq<u32>, post: Seq<u8>)
    ensures
        u32s_bytes(s).len() == 4 * s.len(),
        u32s_at(pre + u32s_bytes(s) + post, pre.len() as int, s.len()) == s,
    decreases s.len(),
{
    lemma_auto_spec_u32_to_from_le_bytes();
    if s.len() > 0 {
        let s0 = s.drop_last();
        let x = s.last();
        let b = pre + u32s_bytes(s) + post;
        lemma_u32s_back(pre, s0, spec_u32_to_le_bytes(x) + post);
        assert(pre + u32s_bytes(s0) + (spec_u32_to_le_bytes(x) + post) =~= b);
        let p = pre.len() as int;
        let q = p + 4 * s0.len();
        assert(b.subrange(q, q + 4) =~= spec_u32_to_le_bytes(x));
        assert(u32s_at(b, p, s.len()) =~= s) by {
            assert forall|i: int| 0 <= i < s.len() implies #[trigger] u32s_at(b, p, s.len())[i] == s[i] by {
                if i < s0.len() {
                    assert(u32s_at(b, p, s0.len())[i] == s0[i]);
                }
            }
        }
    } else {
        assert(u32s_at(pre + u32s_bytes(s) + post, pre.len() as int, s.len()) =~= s);
    }
}

/// The parts of a temporal pattern as they come back.
pub open spec fn pattern_view(p: TemporalPattern) -> PatternView {
    (p.by_hour@, p.by_day@, p.total)
}

proof fn lemma_patterns_back(pre: Seq<u8>, m: Map<u64, TemporalPattern>, keys: Seq<u64>, post: Seq<u8>)
    requires
        keys.to_set().subset_of(m.dom()),
    ensures
        patterns_bytes(m, keys).len() == PATTERN_LEN * keys.len(),
        patterns_from(pre + patterns_bytes(m, keys) + post, pre.len() as int, keys.len()) == m.map_values(
            |p: TemporalPattern| pattern_view(p),
        ).restrict(keys.to_set()),
    decreases keys.len(),
{
    lemma_auto_spec_u64_to_from_le_bytes();
    lemma_auto_spec_u32_to_from_le_bytes();
    let v = m.map_values(|p: TemporalPattern| pattern_view(p));
    if keys.len() == 0 {
        assert(patterns_from(pre + patterns_bytes(m, keys) + post, pre.len() as int, 0) =~= v.restrict(keys.to_set()));
    } else {
        let k0 = keys.drop_last();
        let k = keys.last();
        lemma_subset_drop_last(keys, m.dom());
        let t = m[k];
        let rec = spec_u64_to_le_bytes(k) + u32s_bytes(t.by_hour@) + u32s_bytes(t.by_day@) + spec_u32_to_le_bytes(t.total);
        let b = pre + patterns_bytes(m, keys) + post;
        lemma_patterns_back(pre, m, k0, rec + post);
        assert(pre + patterns_bytes(m, k0) + (rec + post) =~= b);
        let q = pre.len() + PATTERN_LEN * k0.len();
        lemma_u32s_back(pre + patterns_bytes(m, k0) + spec_u64_to_le_bytes(k), t.by_hour@, u32s_bytes(t.by_day@) + spec_u32_to_le_bytes(t.total) + post);
        assert(pre + patterns_bytes(m, k0) + spec_u64_to_le_bytes(k) + u32s_bytes(t.by_hour@) + (u32s_bytes(t.by_day@) + spec_u32_to_le_bytes(t.total) + post) =~= b);
        lemma_u32s_back(pre + patterns_bytes(m, k0) + spec_u64_to_le_bytes(k) + u32s_bytes(t.by_hour@), t.by_day@, spec_u32_to_le_bytes(t.total) + post);
        assert(pre + patterns_bytes(m, k0) + spec_u64_to_le_bytes(k) + u32s_bytes(t.by_hour@) + u32s_bytes(t.by_day@) + (spec_u32_to_le_bytes(t.total) + post) =~= b);
        assert(b.subrange(q, q + 8) =~= spec_u64_to_le_bytes(k));
        assert(b.subrange(q + 132, q + 136) =~= spec_u32_to_le_bytes(t.total));
        lemma_restrict_push(v, keys);
    }
}

proof fn lemma_streaks_back(pre: Seq<u8>, m: Map<u64, Streak>, keys: Seq<u64>, post: Seq<u8>)
    requires
        keys.to_set().subset_of(m.dom()),
    ensures
        streaks_bytes(m, keys).len() == STREAK_LEN * keys.len(),
        streaks_from(pre + streaks_bytes(m, keys) + post, pre.len() as int, keys.len()) == m.restrict(keys.to_set()),
    decreases keys.len(),
{
    lemma_auto_spec_u64_to_from_le_bytes();
    lemma_auto_spec_u32_to_from_le_bytes();
    if keys.len() == 0 {
        assert(streaks_from(pre + streaks_bytes(m, keys) + post, pre.len() as int, 0) =~= m.restrict(keys.to_set()));
    } else {
        let k0 = keys.drop_last();
        let k = keys.last();
        lemma_subset_drop_last(keys, m.dom());
        let t = m[k];
        let rec = spec_u64_to_le_bytes(k) + spec_u32_to_le_bytes(t.current_days) + spec_u32_to_le_bytes(t.longest_days)
            + spec_u64_to_le_bytes(t.last_touched_day);
        let b = pre + streaks_bytes(m, keys) + post;
        lemma_streaks_back(pre, m, k0, rec + post);
        assert(pre + streaks_bytes(m, k0) + (rec + post) =~= b);
        let q = pre.len() + STREAK_LEN * k0.len();
        assert(b.subrange(q, q + 8) =~= spec_u64_to_le_bytes(k));
        assert(b.subrange(q + 8, q + 12) =~= spec_u32_to_le_bytes(t.current_days));
        assert(b.subrange(q + 12, q + 16) =~= spec_u32_to_le_bytes(t.longest_days));
        assert(b.subrange(q + 16, q + 24) =~= spec_u64_to_le_bytes(t.last_touched_day));
        lemma_restrict_push(m, keys);
    }
}

proof fn lemma_pair_key_back(k: u128)
    ensures
        pair_key(key_pair(k).0, key_pair(k).1) == k,
{
    let a = k / 18446744073709551616;
    let c = k % 18446744073709551616;
    assert(a < 18446744073709551616 && k == a * 18446744073709551616 + c && 0 <= c < 18446744073709551616) by (nonlinear_arith)
        requires
            k <= u128::MAX,
            a == k / 18446744073709551616,
            c == k % 18446744073709551616,
    ;
}

proof fn lemma_pairs_back(pre: Seq<u8>, m: Map<u128, u32>, keys: Seq<u128>, post: Seq<u8>)
    requires
        keys.to_set().subset_of(m.dom()),
    ensures
        pairs_bytes(m, keys).len() == PAIR_LEN * keys.len(),
        pairs_from(pre + pairs_bytes(m, keys) + post, pre.len() as int, keys.len()) == m.restrict(keys.to_set()),
    decreases keys.len(),
{
    lemma_auto_spec_u64_to_from_le_bytes();
    lemma_auto_spec_u32_to_from_le_bytes();
    if keys.len() == 0 {
        assert(pairs_from(pre + pairs_bytes(m, keys) + post, pre.len() as int, 0) =~= m.restrict(keys.to_set()));
    } else {
        let k0 = keys.drop_last();
        let k = keys.last();
        lemma_subset_drop_last128(keys, m.dom());
        let rec = spec_u64_to_le_bytes(key_pair(k).0) + spec_u64_to_le_bytes(key_pair(k).1) + spec_u32_to_le_bytes(m[k]);
        let b = pre + pairs_bytes(m, keys) + post;
        lemma_pairs_back(pre, m, k0, rec + post);
        assert(pre + pairs_bytes(m, k0) + (rec + post) =~= b);
        let q = pre.len() + PAIR_LEN * k0.len();
        assert(b.subrange(q, q + 8) =~= spec_u64_to_le_bytes(key_pair(k).0));
        assert(b.subrange(q + 8, q + 16) =~= spec_u64_to_le_bytes(key_pair(k).1));
        assert(b.subrange(q + 16, q + 20) =~= spec_u32_to_le_bytes(m[k]));
        lemma_pair_key_back(k);
        lemma_restrict_push128(m, keys);
    }
}

proof fn lemma_windows_back(pre: Seq<u8>, m: Map<u64, [u32; 14]>, keys: Seq<u64>, post: Seq<u8>)
    requires
        keys.to_set().subset_of(m.dom()),
    ensures
        windows_bytes(m, keys).len() == WINDOW_LEN * keys.len(),
        windows_from(pre + windows_bytes(m, keys) + post, pre.len() as int, keys.len()) == m.map_values(
            |a: [u32; 14]| a@,
        ).restrict(keys.to_set()),
    decreases keys.len(),
{
    lemma_auto_spec_u64_to_from_le_bytes();
    let v = m.map_values(|a: [u32; 14]| a@);
    if keys.len() == 0 {
        assert(windows_from(pre + windows_bytes(m, keys) + post, pre.len() as int, 0) =~= v.restrict(keys.to_set()));
    } else {
        let k0 = keys.drop_last();
        let k = keys.last();
        lemma_subset_drop_last(keys, m.dom());
        let rec = spec_u64_to_le_bytes(k) + u32s_bytes(m[k]@);
        let b = pre + windows_bytes(m, keys) + post;
        lemma_windows_back(pre, m, k0, rec + post);
        assert(pre + windows_bytes(m, k0) + (rec + post) =~= b);
        let q = pre.len() + WINDOW_LEN * k0.len();
        lemma_u32s_back(pre + windows_bytes(m, k0) + spec_u64_to_le_bytes(k), m[k]@, post);
        assert(pre + windows_bytes(m, k0) + spec_u64_to_le_bytes(k) + u32s_bytes(m[k]@) + post =~= b);
        assert(b.subrange(q, q + 8) =~= spec_u64_to_le_bytes(k));
        lemma_restrict_push(v, keys);
    }
}

proof fn lemma_subset_drop_last(keys: Seq<u64>, dom: Set<u64>)
    requires
        keys.len() > 0,
        keys.to_set().subset_of(dom),
    ensures
        keys.drop_last().to_set().subset_of(dom),
        dom.contains(keys.last()),
{
    assert(keys.to_set().contains(keys[keys.len() - 1]));
    assert forall|x: u64| keys.drop_last().to_set().contains(x) implies dom.contains(x) by {
        let j = choose|j: int| 0 <= j < keys.drop_last().len() && keys.drop_last()[j] == x;
        assert(keys[j] == x);
        assert(keys.to_set().contains(x));
    }
}

proof fn lemma_subset_drop_last128(keys: Seq<u128>, dom: Set<u128>)
    requires
        keys.len() > 0,
        keys.to_set().subset_of(dom),
    ensures
        keys.drop_last().to_set().subset_of(dom),
        dom.contains(keys.last()),
{
    assert(keys.to_set().contains(keys[keys.len() - 1]));
    assert forall|x: u128| keys.drop_last().to_set().contains(x) implies dom.contains(x) by {
        let j = choose|j: int| 0 <= j < keys.drop_last().len() && keys.drop_last()[j] == x;
        assert(keys[j] == x);
        assert(keys.to_set().contains(x));
    }
}

/// Restricting to one more key.
proof fn lemma_restrict_push<V>(m: Map<u64, V>, keys: Seq<u64>)
    requires
        keys.len() > 0,
        m.dom().contains(keys.last()),
    ensures
        m.restrict(keys.to_set()) == m.restrict(keys.drop_last().to_set()).insert(keys.last(), m[keys.last()]),
{
    assert(m.restrict(keys.to_set()) =~= m.restrict(keys.drop_last().to_set()).insert(keys.last(), m[keys.last()])) by {
        assert forall|x: u64| #[trigger] keys.to_set().contains(x) <==> (keys.drop_last().to_set().contains(x) || x
            == keys.last()) by {
            if keys.to_set().contains(x) {
                let j = choose|j: int| 0 <= j < keys.len() && keys[j] == x;
                if j < keys.len() - 1 {
                    assert(keys.drop_last()[j] == x);
                }
            }
            if keys.drop_last().to_set().contains(x) {
                let j = choose|j: int| 0 <= j < keys.drop_last().len() && keys.drop_last()[j] == x;
                assert(keys[j] == x);
            }
            if x == keys.last() {
                assert(keys[keys.len() - 1] == x);
            }
        }
    }
}

proof fn lemma_restrict_push128<V>(m: Map<u128, V>, keys: Seq<u128>)
    requires
        keys.len() > 0,
        m.dom().contains(keys.last()),
    ensures
        m.restrict(keys.to_set()) == m.restrict(keys.drop_last().to_set()).insert(keys.last(), m[keys.last()]),
{
    assert(m.restrict(keys.to_set()) =~= m.restrict(keys.drop_last().to_set()).insert(keys.last(), m[keys.last()])) by {
        assert forall|x: u128| #[trigger] keys.to_set().contains(x) <==> (keys.drop_last().to_set().contains(x) || x
            == keys.last()) by {
            if keys.to_set().contains(x) {
                let j = choose|j: int| 0 <= j < keys.len() && keys[j] == x;
                if j < keys.len() - 1 {
                    assert(keys.drop_last()[j] == x);
                }
            }
            if keys.drop_last().to_set().contains(x) {
                let j = choose|j: int| 0 <= j < keys.drop_last().len() && keys.drop_last()[j] == x;
                assert(keys[j] == x);
            }
            if x == keys.last() {
                assert(keys[keys.len() - 1] == x);
            }
        }
    }
}

/// Every file name of `fs` fits in 255 bytes of UTF-8.
pub open spec fn files_fit(fs: Seq<(u64, String)>) -> bool {
    forall|i: int| 0 <= i < fs.len() ==> vstd::utf8::encode_utf8((#[trigger] fs[i]).1@).len() <= 255
}

proof fn lemma_text_field(s: Seq<char>)
    requires
        vstd::utf8::encode_utf8(s).len() <= 255,
    ensures
        text_field(s) == seq![vstd::utf8::encode_utf8(s).len() as u8] + vstd::utf8::encode_utf8(s),
{
    let e = vstd::utf8::encode_utf8(s);
    assert(e.take(e.len() as int) =~= e);
}

proof fn lemma_entries_back(pre: Seq<u8>, fs: Seq<(u64, String)>, post: Seq<u8>)
    requires
        files_fit(fs),
    ensures
        entries_at(pre + files_bytes(fs) + post, pre.len() as int, fs.len()) == Some(
            (
                fs.map_values(|f: (u64, String)| (f.0, vstd::utf8::encode_utf8(f.1@))),
                (pre.len() + files_bytes(fs).len()) as int,
            ),
        ),
    decreases fs.len(),
{
    lemma_auto_spec_u64_to_from_le_bytes();
    if fs.len() == 0 {
        assert(fs.map_values(|f: (u64, String)| (f.0, vstd::utf8::encode_utf8(f.1@))) =~= Seq::<EntryRecord>::empty());
    } else {
        let f0 = fs.drop_last();
        let f = fs.last();
        assert(fs[fs.len() - 1] == f);
        assert(files_fit(f0)) by {
            assert forall|i: int| 0 <= i < f0.len() implies vstd::utf8::encode_utf8((#[trigger] f0[i]).1@).len() <= 255 by {
                assert(f0[i] == fs[i]);
            }
        }
        let e = vstd::utf8::encode_utf8(f.1@);
        lemma_text_field(f.1@);
        let rec = spec_u64_to_le_bytes(f.0) + text_field(f.1@);
        let b = pre + files_bytes(fs) + post;
        lemma_entries_back(pre, f0, rec + post);
        assert(pre + files_bytes(f0) + (rec + post) =~= b);
        let q = (pre.len() + files_bytes(f0).len()) as int;
        assert(b.subrange(q, q + 8) =~= spec_u64_to_le_bytes(f.0));
        assert(b[q + 8] == e.len());
        assert(b.subrange(q + 9, q + 9 + e.len()) =~= e);
        assert(f0.map_values(|f: (u64, String)| (f.0, vstd::utf8::encode_utf8(f.1@))).push((f.0, e)) =~= fs.map_values(
            |f: (u64, String)| (f.0, vstd::utf8::encode_utf8(f.1@)),
        ));
    }
}

/// A name as it comes back.
pub open spec fn stored_name(s: String) -> Seq<char> {
    lossy_text(vstd::utf8::encode_utf8(s@))
}

/// A stored name reads back as the name itself: its UTF-8 bytes are valid
/// UTF-8 and decode to it.
pub proof fn lemma_stored_name(s: String)
    ensures
        stored_name(s) == s@,
{
    vstd::utf8::encode_utf8_valid_utf8(s@);
    vstd::utf8::encode_utf8_decode_utf8(s@);
}

/// The names a memory's image is read back with are its own names.
pub proof fn lemma_stored_names(e: MemoryEngine)
    ensures
        stored_contents(e).names == e.names@.map_values(|s: String| s@),
{
    assert forall|k: u64| #[trigger] e.names@.contains_key(k) implies stored_contents(e).names[k] == e.names@.map_values(
        |s: String| s@,
    )[k] by {
        lemma_stored_name(e.names@[k]);
    }
    assert(stored_contents(e).names =~= e.names@.map_values(|s: String| s@));
}

/// A session as it comes back: names as read, no peak, no focus for an
/// empty name.
pub open spec fn stored_session(s: Session) -> SessionView {
    (
        s.id,
        s.start_ts,
        s.end_ts,
        s.total_writes,
        s.total_reads,
        s.files_touched@.map_values(|f: (u64, String)| (f.0, stored_name(f.1))),
        match s.focus_file {
            Some(f) => Some(stored_name(f)),
            None => None,
        },
        0usize,
    )
}

/// A session that its image holds in full: at most 100 files, every name
/// within 255 bytes, and a focus name, when there is one, that is not
/// empty.
pub open spec fn session_fits(s: Session) -> bool {
    &&& s.files_touched@.len() <= IMAGE_FILES
    &&& files_fit(s.files_touched@)
    &&& s.focus_file matches Some(f) ==> 0 < vstd::utf8::encode_utf8(f@).len() <= 255
}

proof fn lemma_session_back(pre: Seq<u8>, s: Session, post: Seq<u8>)
    requires
        session_fits(s),
    ensures
        session_at(pre + session_bytes(s) + post, pre.len() as int) matches Some((r, q)) && session_of(r)
            == stored_session(s) && q == pre.len() + session_bytes(s).len(),
{
    lemma_auto_spec_u64_to_from_le_bytes();
    lemma_auto_spec_u32_to_from_le_bytes();
    let fs = s.files_touched@;
    let n = fs.len();
    assert(capped(n, IMAGE_FILES as nat) == n);
    assert(fs.take(n as int) =~= fs);
    let ft = focus_text(s.focus_file);
    let e = vstd::utf8::encode_utf8(ft);
    assert(e.len() <= 255) by {
        if s.focus_file is None {
            vstd::utf8::encode_utf8_decode_utf8(ft);
            assert(ft =~= Seq::<char>::empty());
            assert(vstd::utf8::encode_utf8(Seq::<char>::empty()) =~= Seq::<u8>::empty());
        }
    }
    lemma_text_field(ft);
    let head = spec_u64_to_le_bytes(s.id) + spec_u64_to_le_bytes(s.start_ts) + spec_u64_to_le_bytes(s.end_ts)
        + spec_u64_to_le_bytes(s.total_writes) + spec_u64_to_le_bytes(s.total_reads) + spec_u32_to_le_bytes(n as u32);
    let b = pre + session_bytes(s) + post;
    let p = pre.len() as int;
    assert(b =~= pre + head + files_bytes(fs) + (text_field(ft) + post));
    lemma_entries_back(pre + head, fs, text_field(ft) + post);
    assert(b.subrange(p, p + 8) =~= spec_u64_to_le_bytes(s.id));
    assert(b.subrange(p + 8, p + 16) =~= spec_u64_to_le_bytes(s.start_ts));
    assert(b.subrange(p + 16, p + 24) =~= spec_u64_to_le_bytes(s.end_ts));
    assert(b.subrange(p + 24, p + 32) =~= spec_u64_to_le_bytes(s.total_writes));
    assert(b.subrange(p + 32, p + 40) =~= spec_u64_to_le_bytes(s.total_reads));
    assert(b.subrange(p + 40, p + 44) =~= spec_u32_to_le_bytes(n as u32));
    let q = p + 44 + files_bytes(fs).len();
    assert(b[q] == e.len());
    assert(b.subrange(q + 1, q + 1 + e.len()) =~= e);
    let (r, q2) = session_at(b, p)->Some_0;
    assert(r.5 == fs.map_values(|f: (u64, String)| (f.0, vstd::utf8::encode_utf8(f.1@))));
    assert(r.5.map_values(|x: EntryRecord| (x.0, lossy_text(x.1))) =~= fs.map_values(
        |f: (u64, String)| (f.0, stored_name(f.1)),
    ));
    if s.focus_file is None {
        vstd::utf8::encode_utf8_decode_utf8(ft);
        assert(vstd::utf8::encode_utf8(Seq::<char>::empty()) =~= Seq::<u8>::empty()) by {
            vstd::utf8::encode_utf8_decode_utf8(Seq::<char>::empty());
        }
    }
    assert(session_of(r) == stored_session(s));
}

proof fn lemma_sessions_back(pre: Seq<u8>, ss: Seq<Session>, post: Seq<u8>)
    requires
        forall|i: int| 0 <= i < ss.len() ==> session_fits(#[trigger] ss[i]),
    ensures
        sessions_at(pre + sessions_bytes(ss) + post, pre.len() as int, ss.len()) matches Some((rs, q)) && rs.map_values(
            |r: SessionRecord| session_of(r),
        ) == ss.map_values(|s: Session| stored_session(s)) && q == pre.len() + sessions_bytes(ss).len(),
    decreases ss.len(),
{
    if ss.len() == 0 {
        let (rs, q) = sessions_at(pre + sessions_bytes(ss) + post, pre.len() as int, 0)->Some_0;
        assert(rs.map_values(|r: SessionRecord| session_of(r)) =~= ss.map_values(|s: Session| stored_session(s)));
    } else {
        let s0 = ss.drop_last();
        let s = ss.last();
        assert(ss[ss.len() - 1] == s);
        assert forall|i: int| 0 <= i < s0.len() implies session_fits(#[trigger] s0[i]) by {
            assert(s0[i] == ss[i]);
        }
        let b = pre + sessions_bytes(ss) + post;
        lemma_sessions_back(pre, s0, session_bytes(s) + post);
        assert(pre + sessions_bytes(s0) + (session_bytes(s) + post) =~= b);
        lemma_session_back(pre + sessions_bytes(s0), s, post);
        assert(pre + sessions_bytes(s0) + session_bytes(s) + post =~= b);
        let (rs0, q0) = sessions_at(b, pre.len() as int, s0.len())->Some_0;
        let (r, q) = session_at(b, q0)->Some_0;
        let a = rs0.push(r).map_values(|r: SessionRecord| session_of(r));
        let c = ss.map_values(|s: Session| stored_session(s));
        let a0 = rs0.map_values(|r: SessionRecord| session_of(r));
        let c0 = s0.map_values(|s: Session| stored_session(s));
        assert(a0 == c0);
        assert(a0.len() == rs0.len() && c0.len() == s0.len());
        assert(a.len() == c.len());
        assert forall|i: int| 0 <= i < ss.len() implies #[trigger] a[i] == c[i] by {
            if i < s0.len() {
                assert(a0[i] == c0[i]);
                assert(rs0.push(r)[i] == rs0[i]);
            }
        }
        assert(a =~= c);
    }
}

proof fn lemma_names_bytes(m: Map<u64, String>, keys: Seq<u64>)
    ensures
        names_bytes(m, keys) == files_bytes(keys.map_values(|k: u64| (k, m[k]))),
    decreases keys.len(),
{
    if keys.len() > 0 {
        lemma_names_bytes(m, keys.drop_last());
        assert(keys.map_values(|k: u64| (k, m[k])).drop_last() =~= keys.drop_last().map_values(|k: u64| (k, m[k])));
        assert(keys[keys.len() - 1] == keys.last());
    } else {
        assert(keys.map_values(|k: u64| (k, m[k])) =~= Seq::<(u64, String)>::empty());
    }
}

proof fn lemma_names_of(m: Map<u64, String>, keys: Seq<u64>)
    requires
        keys.to_set().subset_of(m.dom()),
    ensures
        names_of(keys.map_values(|k: u64| (k, m[k])).map_values(|f: (u64, String)| (f.0, vstd::utf8::encode_utf8(f.1@))))
            == m.map_values(|s: String| stored_name(s)).restrict(keys.to_set()),
    decreases keys.len(),
{
    let v = m.map_values(|s: String| stored_name(s));
    let es = keys.map_values(|k: u64| (k, m[k])).map_values(|f: (u64, String)| (f.0, vstd::utf8::encode_utf8(f.1@)));
    if keys.len() == 0 {
        assert(names_of(es) =~= v.restrict(keys.to_set()));
    } else {
        let k0 = keys.drop_last();
        lemma_subset_drop_last(keys, m.dom());
        lemma_names_of(m, k0);
        assert(es.drop_last() =~= k0.map_values(|k: u64| (k, m[k])).map_values(|f: (u64, String)| (f.0, vstd::utf8::encode_utf8(f.1@))));
        assert(keys[keys.len() - 1] == keys.last());
        lemma_restrict_push(v, keys);
    }
}

/// The contents a memory's image is read back as: names as
/// `String::from_utf8_lossy` reads their bytes (the names themselves),
/// sessions without their peak.
pub open spec fn stored_contents(e: MemoryEngine) -> MemoryContents {
    MemoryContents {
        total_sessions: e.total_sessions,
        sessions: e.sessions@.map_values(|s: Session| stored_session(s)),
        temporal: e.temporal@.map_values(|p: TemporalPattern| pattern_view(p)),
        streaks: e.streaks@,
        pairs: e.co_access.pairs@,
        last_day: e.trends.last(),
        daily: e.trends.windows().map_values(|a: [u32; 14]| a@),
        names: e.names@.map_values(|s: String| stored_name(s)),
    }
}

/// A memory its image holds in full: at most 500 sessions, each held in
/// full, and every name within 255 bytes.
pub open spec fn image_holds_all(e: MemoryEngine) -> bool {
    &&& e.sessions@.len() <= IMAGE_SESSIONS
    &&& forall|i: int| 0 <= i < e.sessions@.len() ==> session_fits(#[trigger] e.sessions@[i])
    &&& forall|k: u64| #[trigger] e.names@.contains_key(k) ==> vstd::utf8::encode_utf8(e.names@[k]@).len() <= 255
}

/// `keys` lists every key of a map, at most `cap` of them.
pub open spec fn covers<K>(keys: Seq<K>, dom: Set<K>, cap: nat) -> bool {
    keys.to_set() == dom && keys.len() <= cap
}

/// What a memory's image is read back as: everything the memory holds
/// apart from its current session, names included (a stored name reads
/// back as itself, `lemma_stored_name`) and sessions without their peak, whatever the order
/// its maps are walked in, when the image holds all of it (at most 500
/// sessions of at most 100 files, no empty focus name, every name within
/// 255 bytes, at most 10 000 entries of each map and 50 000 pairs).
pub proof fn lemma_memory_image_roundtrip(
    e: MemoryEngine,
    tk: Seq<u64>,
    kk: Seq<u64>,
    pk: Seq<u128>,
    dk: Seq<u64>,
    nk: Seq<u64>,
)
    requires
        image_holds_all(e),
        covers(tk, e.temporal@.dom(), IMAGE_ENTRIES as nat),
        covers(kk, e.streaks@.dom(), IMAGE_ENTRIES as nat),
        covers(pk, e.co_access.pairs@.dom(), IMAGE_PAIRS as nat),
        covers(dk, e.trends.windows().dom(), IMAGE_ENTRIES as nat),
        covers(nk, e.names@.dom(), IMAGE_ENTRIES as nat),
    ensures
        memory_parsed(image_in(e, tk, kk, pk, dk, nk)) == Some(stored_contents(e)),
        stored_contents(e).names == e.names@.map_values(|s: String| s@),
{
    lemma_stored_names(e);
    let ss = e.sessions@;
    let sn = ss.len();
    let tn = tk.len();
    let kn = kk.len();
    let pn = pk.len();
    let dn = dk.len();
    let nn = nk.len();
    assert(ss.take(sn as int) =~= ss);
    assert(tk.take(tn as int) =~= tk);
    assert(kk.take(kn as int) =~= kk);
    assert(pk.take(pn as int) =~= pk);
    assert(dk.take(dn as int) =~= dk);
    assert(nk.take(nn as int) =~= nk);
    let b = image_in(e, tk, kk, pk, dk, nk);
    let len = b.len() as int;
    let sb = sessions_bytes(ss);
    let pb = patterns_bytes(e.temporal@, tk);
    let kb = streaks_bytes(e.streaks@, kk);
    let qb = pairs_bytes(e.co_access.pairs@, pk);
    let wb = windows_bytes(e.trends.windows(), dk);
    let nb = names_bytes(e.names@, nk);
    let nt = names_tail(e, nk);
    let wt = windows_tail(e, dk, nk);
    let qt = pairs_tail(e, pk, dk, nk);
    let kt = streaks_tail(e, kk, pk, dk, nk);
    let pt = patterns_tail(e, tk, kk, pk, dk, nk);
    assert(spec_u64_to_le_bytes(e.total_sessions).len() == 8 && spec_u64_to_le_bytes(e.trends.last()).len() == 8) by {
        lemma_auto_spec_u64_to_from_le_bytes();
    }
    assert(spec_u32_to_le_bytes(sn as u32).len() == 4 && spec_u32_to_le_bytes(tn as u32).len() == 4
        && spec_u32_to_le_bytes(kn as u32).len() == 4 && spec_u32_to_le_bytes(pn as u32).len() == 4
        && spec_u32_to_le_bytes(dn as u32).len() == 4 && spec_u32_to_le_bytes(nn as u32).len() == 4) by {
        lemma_auto_spec_u32_to_from_le_bytes();
    }
    // the header
    assert(b.subrange(0, len) =~= b);
    lemma_peel(b, 0, memory_magic(), spec_u64_to_le_bytes(e.total_sessions) + (spec_u32_to_le_bytes(sn as u32) + (sb + pt)));
    lemma_peel(b, 8, spec_u64_to_le_bytes(e.total_sessions), spec_u32_to_le_bytes(sn as u32) + (sb + pt));
    assert(le64_at(b, 8) == e.total_sessions) by {
        lemma_auto_spec_u64_to_from_le_bytes();
    }
    lemma_peel(b, 16, spec_u32_to_le_bytes(sn as u32), sb + pt);
    assert(le32_at(b, 16) == sn) by {
        lemma_auto_spec_u32_to_from_le_bytes();
    }
    // sessions
    lemma_peel(b, 20, sb, pt);
    let p1 = 20 + sb.len() as int;
    assert(sessions_at(b, 20, sn) matches Some((rs, q)) && rs.map_values(|r: SessionRecord| session_of(r))
        == ss.map_values(|s: Session| stored_session(s)) && q == p1) by {
        lemma_sessions_back(b.subrange(0, 20), ss, pt);
    }
    // temporal patterns
    lemma_peel(b, p1, spec_u32_to_le_bytes(tn as u32), pb + kt);
    assert(le32_at(b, p1) == tn) by {
        lemma_auto_spec_u32_to_from_le_bytes();
    }
    lemma_peel(b, p1 + 4, pb, kt);
    assert(tk.to_set().subset_of(e.temporal@.dom()));
    lemma_patterns_back(b.subrange(0, p1 + 4), e.temporal@, tk, kt);
    assert(e.temporal@.map_values(|p: TemporalPattern| pattern_view(p)).restrict(tk.to_set()) =~= e.temporal@.map_values(
        |p: TemporalPattern| pattern_view(p),
    ));
    let p2 = p1 + 4 + pb.len() as int;
    // streaks
    lemma_peel(b, p2, spec_u32_to_le_bytes(kn as u32), kb + qt);
    assert(le32_at(b, p2) == kn) by {
        lemma_auto_spec_u32_to_from_le_bytes();
    }
    lemma_peel(b, p2 + 4, kb, qt);
    assert(kk.to_set().subset_of(e.streaks@.dom()));
    lemma_streaks_back(b.subrange(0, p2 + 4), e.streaks@, kk, qt);
    assert(e.streaks@.restrict(kk.to_set()) =~= e.streaks@);
    let p3 = p2 + 4 + kb.len() as int;
    // pairs
    lemma_peel(b, p3, spec_u32_to_le_bytes(pn as u32), qb + wt);
    assert(le32_at(b, p3) == pn) by {
        lemma_auto_spec_u32_to_from_le_bytes();
    }
    lemma_peel(b, p3 + 4, qb, wt);
    assert(pk.to_set().subset_of(e.co_access.pairs@.dom()));
    lemma_pairs_back(b.subrange(0, p3 + 4), e.co_access.pairs@, pk, wt);
    assert(e.co_access.pairs@.restrict(pk.to_set()) =~= e.co_access.pairs@);
    let p4 = p3 + 4 + qb.len() as int;
    // trend windows
    lemma_peel(b, p4, spec_u64_to_le_bytes(e.trends.last()), spec_u32_to_le_bytes(dn as u32) + (wb + nt));
    assert(le64_at(b, p4) == e.trends.last()) by {
        lemma_auto_spec_u64_to_from_le_bytes();
    }
    lemma_peel(b, p4 + 8, spec_u32_to_le_bytes(dn as u32), wb + nt);
    assert(le32_at(b, p4 + 8) == dn) by {
        lemma_auto_spec_u32_to_from_le_bytes();
    }
    lemma_peel(b, p4 + 12, wb, nt);
    assert(dk.to_set().subset_of(e.trends.windows().dom()));
    lemma_windows_back(b.subrange(0, p4 + 12), e.trends.windows(), dk, nt);
    assert(e.trends.windows().map_values(|a: [u32; 14]| a@).restrict(dk.to_set()) =~= e.trends.windows().map_values(
        |a: [u32; 14]| a@,
    ));
    let p5 = p4 + 12 + wb.len() as int;
    // names
    lemma_peel(b, p5, spec_u32_to_le_bytes(nn as u32), nb);
    assert(le32_at(b, p5) == nn) by {
        lemma_auto_spec_u32_to_from_le_bytes();
    }
    let named = nk.map_values(|k: u64| (k, e.names@[k]));
    assert(b.subrange(p5 + 4, len) =~= nb + Seq::<u8>::empty());
    lemma_peel(b, p5 + 4, nb, Seq::empty());
    lemma_names_bytes(e.names@, nk);
    assert(files_fit(named)) by {
        assert forall|i: int| 0 <= i < named.len() implies vstd::utf8::encode_utf8((#[trigger] named[i]).1@).len()
            <= 255 by {
            assert(nk.to_set().contains(nk[i]));
            assert(e.names@.contains_key(nk[i]));
        }
    }
    lemma_entries_back(b.subrange(0, p5 + 4), named, Seq::empty());
    assert(nk.to_set().subset_of(e.names@.dom()));
    lemma_names_of(e.names@, nk);
    assert(e.names@.map_values(|s: String| stored_name(s)).restrict(nk.to_set()) =~= e.names@.map_values(
        |s: String| stored_name(s),
    ));
    assert(memory_parsed(b) == Some(stored_contents(e)));
}

/// The bytes from `off` on are `head` then `rest`.
proof fn lemma_peel(b: Seq<u8>, off: int, head: Seq<u8>, rest: Seq<u8>)
    requires
        0 <= off <= b.len(),
        b.subrange(off, b.len() as int) == head + rest,
    ensures
        off + head.len() <= b.len(),
        b.subrange(off, off + head.len()) == head,
        b.subrange(off + head.len(), b.len() as int) == rest,
        b == b.subrange(0, off) + head + rest,
        b.subrange(0, off + head.len()) == b.subrange(0, off) + head,
{
    let t = b.subrange(off, b.len() as int);
    assert(t.len() == head.len() + rest.len());
    assert forall|i: int| 0 <= i < head.len() implies b[off + i] == head[i] by {
        assert(t[i] == b[off + i]);
        assert((head + rest)[i] == head[i]);
    }
    assert(b.subrange(off, off + head.len()) =~= head);
    assert forall|i: int| 0 <= i < rest.len() implies b[off + head.len() + i] == rest[i] by {
        assert(t[head.len() + i] == b[off + head.len() + i]);
        assert((head + rest)[head.len() + i] == rest[i]);
    }
    assert(b.subrange(off + head.len(), b.len() as int) =~= rest);
    assert(b =~= b.subrange(0, off) + head + rest);
    assert(b.subrange(0, off + head.len()) =~= b.subrange(0, off) + head);
}

} // verus!
