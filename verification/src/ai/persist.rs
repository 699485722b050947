//! Persisting what the prefetcher and the importance scorer learned.
//!
//! The current image: magic "VEXAI002", version (u32), transition count
//! (u32), transition records, statistics count (u32), statistics records,
//! then the 32-byte BLAKE3 digest of everything before it, so that a damaged
//! file is recognised and ignored. Names are stored as a length byte and at
//! most 255 bytes of UTF-8.
//!
//! The older image: magic "VEXAI001", then the same counts and records with
//! names cut at 207 bytes, and no version or digest.
use vstd::prelude::*;
use vstd::bytes::*;
use vstd::slice::*;
use vstd::string::*;
use std::collections::HashMap;
use crate::ai::importance::FileStats;
use crate::ai::markov::Transition;
use crate::codec::{append_bytes, append_u32, append_u64, copy_range, le32_at, le64_at, lossy_string, lossy_text, read_le32, read_le64};
use crate::text::join_text;
use crate::walk::{keys_in_walk_order, walk_order};

verus! {

broadcast use {vstd::std_specs::hash::group_hash_axioms, vstd::string::group_string_axioms};

// ── Where the image lives ─────────────────────────────────────────────────────

/// A transition as listed for inspection.
#[derive(Debug, Clone)]
pub struct MarkovEntry {
    pub from_ino: u64,
    pub to_ino: u64,
    pub to_name: String,
    pub count: u32,
}

/// Access statistics of one file as listed for inspection.
#[derive(Debug, Clone)]
pub struct ImportanceEntry {
    pub ino: u64,
    pub name: String,
    pub access_count: u32,
    pub last_access: u64,
    pub total_open_secs: u64,
}

/// The learned-state file that belongs to a disk image.
pub struct AIPersistence {
    path: String,
}

impl AIPersistence {
    /// The path of the learned-state file.
    pub closed spec fn file_path(&self) -> Seq<char> {
        self.path@
    }

    /// The learned state of `image_path` lives beside it, in `<image>.ai`.
    pub fn new(image_path: &str) -> (r: Self)
        ensures
            r.file_path() == image_path@ + ".ai"@,
    {
        AIPersistence { path: join_text(image_path, ".ai") }
    }

    /// The path of the learned-state file.
    pub fn path(&self) -> (r: &str)
        ensures
            r@ == self.file_path(),
    {
        self.path.as_str()
    }
}

// ── Sealing ──────────────────────────────────────────────────────────────────

/// Name for the 32-byte BLAKE3 digest of a byte sequence.
pub uninterp spec fn blake3_digest(data: Seq<u8>) -> [u8; 32];

/// Calls `blake3::hash`, the same digest as `Hasher::new().update(data)
/// .finalize()`. The contract claims only that the bytes are the named
/// digest of exactly the bytes handed in.
#[verifier::external_body]
fn blake3_hash(data: &[u8]) -> (r: [u8; 32])
    ensures
        r == blake3_digest(data@),
{
    *blake3::hash(data).as_bytes()
}

pub const DIGEST_LEN: usize = 32;

/// A payload followed by its digest.
pub open spec fn sealed(payload: Seq<u8>) -> Seq<u8> {
    payload + blake3_digest(payload)@
}

/// The payload of a sealed image: at least 8 payload bytes, and a digest
/// that matches them.
pub open spec fn unsealed(raw: Seq<u8>) -> Option<Seq<u8>> {
    if raw.len() < 8 + DIGEST_LEN {
        None
    } else {
        let payload = raw.subrange(0, raw.len() - DIGEST_LEN);
        if blake3_digest(payload)@ == raw.subrange(raw.len() - DIGEST_LEN, raw.len() as int) {
            Some(payload)
        } else {
            None
        }
    }
}

/// Append the payload's digest.
pub fn seal(payload: &[u8]) -> (r: Vec<u8>)
    ensures
        r@ == sealed(payload@),
{
    let digest = blake3_hash(payload);
    let mut out = copy_range(payload, 0, payload.len());
    append_bytes(&mut out, digest.as_slice());
    assert(out@ =~= sealed(payload@));
    out
}

/// The payload of a sealed image, or `None` when it is too short or its
/// digest does not match.
pub fn unseal(raw: &[u8]) -> (r: Option<Vec<u8>>)
    ensures
        r is Some <==> unsealed(raw@) is Some,
        r matches Some(p) ==> unsealed(raw@) == Some(p@),
{
    let n = raw.len();
    if n < 8 + DIGEST_LEN {
        return None;
    }
    let payload = copy_range(raw, 0, n - DIGEST_LEN);
    let digest = blake3_hash(payload.as_slice());
    let stored = slice_subrange(raw, n - DIGEST_LEN, n);
    let mut i: usize = 0;
    while i < DIGEST_LEN
        invariant
            i <= DIGEST_LEN,
            n == raw@.len(),
            n >= 8 + DIGEST_LEN,
            payload@ == raw@.subrange(0, n - DIGEST_LEN),
            stored@ == raw@.subrange(n - DIGEST_LEN, n as int),
            digest == blake3_digest(payload@),
            stored@.len() == DIGEST_LEN,
            digest@.len() == DIGEST_LEN,
            forall|j: int| 0 <= j < i ==> digest@[j] == stored@[j],
        decreases DIGEST_LEN - i,
    {
        if digest[i] != stored[i] {
            assert(digest@[i as int] != stored@[i as int]);
            assert(digest@ != stored@);
            assert(payload@ == raw@.subrange(0, raw@.len() - DIGEST_LEN));
            assert(stored@ == raw@.subrange(raw@.len() - DIGEST_LEN, raw@.len() as int));
            return None;
        }
        i = i + 1;
    }
    assert(digest@ =~= stored@);
    Some(payload)
}

/// Reading back a sealed image gives the payload.
pub proof fn lemma_seal_roundtrip(payload: Seq<u8>)
    requires
        payload.len() >= 8,
    ensures
        unsealed(sealed(payload)) == Some(payload),
{
    let raw = sealed(payload);
    assert(raw.subrange(0, raw.len() - DIGEST_LEN) =~= payload);
    assert(raw.subrange(raw.len() - DIGEST_LEN, raw.len() as int) =~= blake3_digest(payload)@);
}

// ── Image contents ───────────────────────────────────────────────────────────

/// "VEXAI002", the magic of the sealed image.
pub open spec fn ai_magic() -> Seq<u8> {
    seq![0x56u8, 0x45, 0x58, 0x41, 0x49, 0x30, 0x30, 0x32]
}

/// "VEXAI001", the magic of the older image without a digest.
pub open spec fn legacy_magic() -> Seq<u8> {
    seq![0x56u8, 0x45, 0x58, 0x41, 0x49, 0x30, 0x30, 0x31]
}

pub const AI_VERSION: u32 = 2;

/// Longest stored name in the sealed image, in bytes.
pub const NAME_LIMIT: usize = 255;

/// Longest stored name in the older image, in bytes.
pub const LEGACY_NAME_LIMIT: usize = 207;

/// A stored name: a length byte and at most `lim` bytes.
pub open spec fn name_field(b: Seq<u8>, lim: int) -> Seq<u8> {
    let n = if b.len() < lim { b.len() as int } else { lim };
    seq![n as u8] + b.take(n)
}

/// One transition record: from, to, count, name.
pub open spec fn transition_record(from: u64, t: Transition, lim: int) -> Seq<u8> {
    spec_u64_to_le_bytes(from) + spec_u64_to_le_bytes(t.0) + spec_u32_to_le_bytes(t.2) + name_field(
        vstd::utf8::encode_utf8(t.1@),
        lim,
    )
}

/// The records of the transitions out of `from`.
pub open spec fn transitions_bytes(from: u64, ts: Seq<Transition>, lim: int) -> Seq<u8>
    decreases ts.len(),
{
    if ts.len() == 0 {
        Seq::empty()
    } else {
        transitions_bytes(from, ts.drop_last(), lim) + transition_record(from, ts.last(), lim)
    }
}

/// The transition records of the files `keys`, in order.
pub open spec fn markov_bytes(m: Map<u64, Vec<Transition>>, keys: Seq<u64>, lim: int) -> Seq<u8>
    decreases keys.len(),
{
    if keys.len() == 0 {
        Seq::empty()
    } else {
        markov_bytes(m, keys.drop_last(), lim) + transitions_bytes(keys.last(), m[keys.last()]@, lim)
    }
}

/// Number of transitions of the files `keys`.
pub open spec fn markov_total(m: Map<u64, Vec<Transition>>, keys: Seq<u64>) -> nat
    decreases keys.len(),
{
    if keys.len() == 0 {
        0
    } else {
        markov_total(m, keys.drop_last()) + m[keys.last()]@.len()
    }
}

/// One statistics record: inode, count, last access, open time, name.
pub open spec fn stats_record(ino: u64, s: FileStats, lim: int) -> Seq<u8> {
    spec_u64_to_le_bytes(ino) + spec_u32_to_le_bytes(s.1) + spec_u64_to_le_bytes(s.2) + spec_u64_to_le_bytes(s.3)
        + name_field(vstd::utf8::encode_utf8(s.0@), lim)
}

/// The statistics records of the files `keys`, in order.
pub open spec fn stats_bytes(m: Map<u64, FileStats>, keys: Seq<u64>, lim: int) -> Seq<u8>
    decreases keys.len(),
{
    if keys.len() == 0 {
        Seq::empty()
    } else {
        stats_bytes(m, keys.drop_last(), lim) + stats_record(keys.last(), m[keys.last()], lim)
    }
}

/// The learned state after the header: transition count and records, then
/// statistics count and records, records in the given orders.
pub open spec fn learned_bytes(
    markov: Map<u64, Vec<Transition>>,
    markov_keys: Seq<u64>,
    stats: Map<u64, FileStats>,
    stats_keys: Seq<u64>,
    lim: int,
) -> Seq<u8> {
    spec_u32_to_le_bytes(markov_total(markov, markov_keys) as u32) + markov_bytes(markov, markov_keys, lim)
        + spec_u32_to_le_bytes(stats_keys.len() as u32) + stats_bytes(stats, stats_keys, lim)
}

/// The unsealed sealed-format image of the learned state.
pub open spec fn ai_payload(
    markov: Map<u64, Vec<Transition>>,
    markov_keys: Seq<u64>,
    stats: Map<u64, FileStats>,
    stats_keys: Seq<u64>,
) -> Seq<u8> {
    ai_magic() + spec_u32_to_le_bytes(AI_VERSION) + learned_bytes(markov, markov_keys, stats, stats_keys, NAME_LIMIT as int)
}

/// The older image of the learned state: no version and no digest, names
/// cut at 207 bytes.
pub open spec fn legacy_image(
    markov: Map<u64, Vec<Transition>>,
    markov_keys: Seq<u64>,
    stats: Map<u64, FileStats>,
    stats_keys: Seq<u64>,
) -> Seq<u8> {
    legacy_magic() + learned_bytes(markov, markov_keys, stats, stats_keys, LEGACY_NAME_LIMIT as int)
}

/// Append a name as its length byte and at most `lim` bytes of UTF-8.
pub(crate) fn append_name(out: &mut Vec<u8>, name: &String, lim: usize)
    requires
        lim <= 255,
    ensures
        final(out)@ == old(out)@ + name_field(vstd::utf8::encode_utf8(name@), lim as int),
{
    let b = name.as_str().as_bytes();
    let n: usize = if b.len() < lim { b.len() } else { lim };
    out.push(n as u8);
    append_bytes(out, slice_subrange(b, 0, n));
    assert(final(out)@ =~= old(out)@ + name_field(vstd::utf8::encode_utf8(name@), lim as int));
}

/// Number of transitions in the map, in walk order.
fn transition_total(markov: &HashMap<u64, Vec<Transition>>, mk: &Vec<u64>) -> (r: u32)
    requires
        mk@ == walk_order(markov),
        mk@.to_set() == markov@.dom(),
        markov_total(markov@, mk@) <= u32::MAX,
    ensures
        r == markov_total(markov@, mk@),
{
    let ghost m = markov@;
    let mut total: u32 = 0;
    let mut i: usize = 0;
    while i < mk.len()
        invariant
            i <= mk@.len(),
            mk@.to_set() == m.dom(),
            m == markov@,
            markov_total(m, mk@) <= u32::MAX,
            total == markov_total(m, mk@.subrange(0, i as int)),
        decreases mk@.len() - i,
    {
        let k = mk[i];
        proof {
            assert(mk@.to_set().contains(k));
            assert(mk@.subrange(0, i + 1).drop_last() =~= mk@.subrange(0, i as int));
            lemma_markov_total_prefix(m, mk@, i + 1);
        }
        total = total + markov.get(&k).unwrap().len() as u32;
        i = i + 1;
    }
    assert(mk@.subrange(0, mk@.len() as int) =~= mk@);
    total
}

/// Append the learned state: counts and records in walk order.
fn append_learned(
    out: &mut Vec<u8>,
    markov: &HashMap<u64, Vec<Transition>>,
    stats: &HashMap<u64, FileStats>,
    lim: usize,
)
    requires
        lim <= 255,
        markov_total(markov@, walk_order(markov)) <= u32::MAX,
    ensures
        final(out)@ == old(out)@ + learned_bytes(
            markov@,
            walk_order(markov),
            stats@,
            walk_order(stats),
            lim as int,
        ),
{
    let mk = keys_in_walk_order(markov);
    let sk = keys_in_walk_order(stats);
    let ghost m = markov@;
    let ghost st = stats@;
    let ghost start = out@;
    let total = transition_total(markov, &mk);
    append_u32(out, total);
    let ghost head = out@;
    let mut i: usize = 0;
    while i < mk.len()
        invariant
            i <= mk@.len(),
            lim <= 255,
            mk@.to_set() == m.dom(),
            m == markov@,
            out@ == head + markov_bytes(m, mk@.subrange(0, i as int), lim as int),
        decreases mk@.len() - i,
    {
        let k = mk[i];
        proof {
            assert(mk@.to_set().contains(k));
            assert(mk@.subrange(0, i + 1).drop_last() =~= mk@.subrange(0, i as int));
        }
        let ts = markov.get(&k).unwrap();
        let ghost before = out@;
        let mut j: usize = 0;
        while j < ts.len()
            invariant
                j <= ts@.len(),
                lim <= 255,
                out@ == before + transitions_bytes(k, ts@.subrange(0, j as int), lim as int),
            decreases ts@.len() - j,
        {
            proof {
                assert(ts@.subrange(0, j + 1).drop_last() =~= ts@.subrange(0, j as int));
            }
            let t = &ts[j];
            append_u64(out, k);
            append_u64(out, t.0);
            append_u32(out, t.2);
            append_name(out, &t.1, lim);
            assert(out@ =~= before + transitions_bytes(k, ts@.subrange(0, j + 1), lim as int));
            j = j + 1;
        }
        assert(ts@.subrange(0, ts@.len() as int) =~= ts@);
        assert(out@ =~= head + markov_bytes(m, mk@.subrange(0, i + 1), lim as int));
        i = i + 1;
    }
    assert(mk@.subrange(0, mk@.len() as int) =~= mk@);
    append_u32(out, sk.len() as u32);
    let ghost mid = out@;
    let mut i: usize = 0;
    while i < sk.len()
        invariant
            i <= sk@.len(),
            lim <= 255,
            sk@.to_set() == st.dom(),
            st == stats@,
            out@ == mid + stats_bytes(st, sk@.subrange(0, i as int), lim as int),
        decreases sk@.len() - i,
    {
        let k = sk[i];
        proof {
            assert(sk@.to_set().contains(k));
            assert(sk@.subrange(0, i + 1).drop_last() =~= sk@.subrange(0, i as int));
        }
        let s = stats.get(&k).unwrap();
        append_u64(out, k);
        append_u32(out, s.1);
        append_u64(out, s.2);
        append_u64(out, s.3);
        append_name(out, &s.0, lim);
        assert(out@ =~= mid + stats_bytes(st, sk@.subrange(0, i + 1), lim as int));
        i = i + 1;
    }
    assert(sk@.subrange(0, sk@.len() as int) =~= sk@);
    assert(out@ =~= start + learned_bytes(m, mk@, st, sk@, lim as int));
}

/// The sealed image of the learned state: transitions and statistics in
/// the order their maps are walked.
pub fn encode_ai_state(markov: &HashMap<u64, Vec<Transition>>, stats: &HashMap<u64, FileStats>) -> (r: Vec<u8>)
    requires
        markov_total(markov@, walk_order(markov)) <= u32::MAX,
    ensures
        r@ == sealed(ai_payload(markov@, walk_order(markov), stats@, walk_order(stats))),
{
    let mut out: Vec<u8> = Vec::new();
    out.push(0x56u8);
    out.push(0x45u8);
    out.push(0x58u8);
    out.push(0x41u8);
    out.push(0x49u8);
    out.push(0x30u8);
    out.push(0x30u8);
    out.push(0x32u8);
    append_u32(&mut out, AI_VERSION);
    append_learned(&mut out, markov, stats, NAME_LIMIT);
    assert(out@ =~= ai_payload(markov@, walk_order(markov), stats@, walk_order(stats)));
    seal(out.as_slice())
}

/// The older image of the learned state, without version or digest.
pub fn encode_legacy_ai_state(
    markov: &HashMap<u64, Vec<Transition>>,
    stats: &HashMap<u64, FileStats>,
) -> (r: Vec<u8>)
    requires
        markov_total(markov@, walk_order(markov)) <= u32::MAX,
    ensures
        r@ == legacy_image(markov@, walk_order(markov), stats@, walk_order(stats)),
{
    let mut out: Vec<u8> = Vec::new();
    out.push(0x56u8);
    out.push(0x45u8);
    out.push(0x58u8);
    out.push(0x41u8);
    out.push(0x49u8);
    out.push(0x30u8);
    out.push(0x30u8);
    out.push(0x31u8);
    append_learned(&mut out, markov, stats, LEGACY_NAME_LIMIT);
    assert(out@ =~= legacy_image(markov@, walk_order(markov), stats@, walk_order(stats)));
    out
}

proof fn lemma_markov_total_prefix(m: Map<u64, Vec<Transition>>, keys: Seq<u64>, n: int)
    requires
        0 <= n <= keys.len(),
    ensures
        markov_total(m, keys.subrange(0, n)) <= markov_total(m, keys),
    decreases keys.len(),
{
    if n < keys.len() {
        assert(keys.drop_last().subrange(0, n) =~= keys.subrange(0, n));
        lemma_markov_total_prefix(m, keys.drop_last(), n);
    } else {
        assert(keys.subrange(0, n) =~= keys);
    }
}

// ── Reading an image back ────────────────────────────────────────────────────

/// A transition as read back: from, to, count and the stored name bytes.
pub type TransitionRecord = (u64, u64, u32, Seq<u8>);

/// Statistics as read back: inode, count, last access, open time and the
/// stored name bytes.
pub type StatsRecord = (u64, u32, u64, u64, Seq<u8>);

/// A stored name at `p`: its bytes and the position after it.
pub open spec fn name_at(b: Seq<u8>, p: int) -> Option<(Seq<u8>, int)> {
    if 0 <= p < b.len() && p + 1 + b[p] <= b.len() {
        Some((b.subrange(p + 1, p + 1 + b[p]), p + 1 + b[p]))
    } else {
        None
    }
}

/// The bytes of the stored name at `p` (empty when there is none).
pub open spec fn name_bytes_at(b: Seq<u8>, p: int) -> Seq<u8> {
    match name_at(b, p) {
        Some((n, _)) => n,
        None => Seq::empty(),
    }
}

/// A transition record at `p` and the position after it.
pub open spec fn transition_at(b: Seq<u8>, p: int) -> Option<(TransitionRecord, int)> {
    if 0 <= p && p + 20 <= b.len() {
        match name_at(b, p + 20) {
            Some((n, q)) => Some(((le64_at(b, p), le64_at(b, p + 8), le32_at(b, p + 16), n), q)),
            None => None,
        }
    } else {
        None
    }
}

/// `n` transition records from `p` and the position after them.
pub open spec fn transitions_at(b: Seq<u8>, p: int, n: nat) -> Option<(Seq<TransitionRecord>, int)>
    decreases n,
{
    if n == 0 {
        Some((Seq::empty(), p))
    } else {
        match transitions_at(b, p, (n - 1) as nat) {
            Some((rs, q)) => match transition_at(b, q) {
                Some((r, q2)) => Some((rs.push(r), q2)),
                None => None,
            },
            None => None,
        }
    }
}

/// A statistics record at `p` and the position after it.
pub open spec fn stats_at(b: Seq<u8>, p: int) -> Option<(StatsRecord, int)> {
    if 0 <= p && p + 28 <= b.len() {
        match name_at(b, p + 28) {
            Some((n, q)) => Some(((le64_at(b, p), le32_at(b, p + 8), le64_at(b, p + 12), le64_at(b, p + 20), n), q)),
            None => None,
        }
    } else {
        None
    }
}

/// `n` statistics records from `p` and the position after them.
pub open spec fn stats_list_at(b: Seq<u8>, p: int, n: nat) -> Option<(Seq<StatsRecord>, int)>
    decreases n,
{
    if n == 0 {
        Some((Seq::empty(), p))
    } else {
        match stats_list_at(b, p, (n - 1) as nat) {
            Some((rs, q)) => match stats_at(b, q) {
                Some((r, q2)) => Some((rs.push(r), q2)),
                None => None,
            },
            None => None,
        }
    }
}

/// A transition list as text.
pub type TransitionsView = Seq<(u64, Seq<char>, u32)>;

/// Statistics as text.
pub type StatsView = (Seq<char>, u32, u64, u64);

/// Transitions by source, each record added to its source's list in order.
pub open spec fn markov_of(rs: Seq<TransitionRecord>) -> Map<u64, TransitionsView>
    decreases rs.len(),
{
    if rs.len() == 0 {
        Map::empty()
    } else {
        let m = markov_of(rs.drop_last());
        let r = rs.last();
        let prev = if m.contains_key(r.0) { m[r.0] } else { Seq::empty() };
        m.insert(r.0, prev.push((r.1, lossy_text(r.3), r.2)))
    }
}

/// Statistics by inode; a later record replaces an earlier one.
pub open spec fn stats_of(rs: Seq<StatsRecord>) -> Map<u64, StatsView>
    decreases rs.len(),
{
    if rs.len() == 0 {
        Map::empty()
    } else {
        let r = rs.last();
        stats_of(rs.drop_last()).insert(r.0, (lossy_text(r.4), r.1, r.2, r.3))
    }
}

pub open spec fn transitions_view(v: Seq<Transition>) -> TransitionsView {
    v.map_values(|t: Transition| (t.0, t.1@, t.2))
}

pub open spec fn markov_view(m: Map<u64, Vec<Transition>>) -> Map<u64, TransitionsView> {
    m.map_values(|v: Vec<Transition>| transitions_view(v@))
}

pub open spec fn stats_view(m: Map<u64, FileStats>) -> Map<u64, StatsView> {
    m.map_values(|s: FileStats| (s.0@, s.1, s.2, s.3))
}

/// The learned state whose transition count stands at `at`: nothing when
/// the bytes end before the last record does.
pub open spec fn learned_at(b: Seq<u8>, at: int) -> Option<(Map<u64, TransitionsView>, Map<u64, StatsView>)> {
    if at + 4 > b.len() {
        None
    } else {
        match transitions_at(b, at + 4, le32_at(b, at) as nat) {
            None => None,
            Some((rs, q)) => if q + 4 > b.len() {
                None
            } else {
                match stats_list_at(b, q + 4, le32_at(b, q) as nat) {
                    None => None,
                    Some((ss, _)) => Some((markov_of(rs), stats_of(ss))),
                }
            },
        }
    }
}

/// What reading a sealed image gives: nothing learned for a short, damaged
/// or foreign image, or for one that ends before its records do.
pub open spec fn decoded_ai(raw: Seq<u8>) -> Option<(Map<u64, TransitionsView>, Map<u64, StatsView>)> {
    match unsealed(raw) {
        None => Some((Map::empty(), Map::empty())),
        Some(p) => if p.subrange(0, 8) != ai_magic() {
            Some((Map::empty(), Map::empty()))
        } else {
            match learned_at(p, 12) {
                Some(l) => Some(l),
                None => Some((Map::empty(), Map::empty())),
            }
        },
    }
}

/// What reading an older image gives: nothing learned for a foreign one;
/// `None` when it ends before its magic or its records do.
pub open spec fn decoded_legacy_ai(raw: Seq<u8>) -> Option<(Map<u64, TransitionsView>, Map<u64, StatsView>)> {
    if raw.len() < 8 {
        None
    } else if raw.subrange(0, 8) != legacy_magic() {
        Some((Map::empty(), Map::empty()))
    } else {
        learned_at(raw, 8)
    }
}

/// Read a stored name at `p`.
pub(crate) fn read_name(b: &[u8], p: usize) -> (r: Option<(String, usize)>)
    ensures
        r is Some <==> name_at(b@, p as int) is Some,
        r matches Some((s, q)) ==> name_at(b@, p as int) matches Some((n, q2)) && q == q2 && s@ == lossy_text(n),
{
    if p >= b.len() {
        return None;
    }
    let len = b[p] as usize;
    if len > b.len() - p - 1 {
        return None;
    }
    let s = lossy_string(slice_subrange(b, p + 1, p + 1 + len));
    Some((s, p + 1 + len))
}

/// Read the transition records from `start` on.
fn read_transitions(b: &[u8], start: usize, count: u32) -> (r: Option<(HashMap<u64, Vec<Transition>>, usize)>)
    requires
        start <= b@.len(),
    ensures
        r is Some <==> transitions_at(b@, start as int, count as nat) is Some,
        r matches Some((m, q)) ==> transitions_at(b@, start as int, count as nat) matches Some((rs, q2)) && q2
            == q && markov_view(m@) == markov_of(rs),
{
    let ghost pb = b@;
    let mut markov: HashMap<u64, Vec<Transition>> = HashMap::new();
    let mut p: usize = start;
    let mut i: u32 = 0;
    let ghost mut rs: Seq<TransitionRecord> = Seq::empty();
    proof {
        assert(markov_view(markov@) =~= markov_of(rs));
    }
    while i < count
        invariant
            b@ == pb,
            i <= count,
            transitions_at(pb, start as int, i as nat) == Some((rs, p as int)),
            rs.len() == i,
            p <= pb.len(),
            markov_view(markov@) == markov_of(rs),
        decreases count - i,
    {
        if b.len() - p < 20 {
            proof {
                lemma_transitions_stop(pb, start as int, i as nat, count as nat, rs, p as int);
            }
            return None;
        }
        let from = read_le64(b, p);
        let to = read_le64(b, p + 8);
        let cnt = read_le32(b, p + 16);
        let (name, q) = match read_name(b, p + 20) {
            None => {
                proof {
                    lemma_transitions_stop(pb, start as int, i as nat, count as nat, rs, p as int);
                }
                return None;
            },
            Some(x) => x,
        };
        let ghost rec: TransitionRecord = (from, to, cnt, name_bytes_at(pb, p + 20));
        let ghost old_m = markov@;
        let mut list: Vec<Transition> = match markov.remove(&from) {
            Some(l) => l,
            None => Vec::new(),
        };
        let ghost prev = list@;
        assert(prev == (if old_m.contains_key(from) { old_m[from]@ } else { Seq::<Transition>::empty() }));
        list.push((to, name, cnt));
        let ghost new_list = list;
        markov.insert(from, list);
        proof {
            let ghost old_rs = rs;
            rs = rs.push(rec);
            assert(rs.drop_last() =~= old_rs);
            let ghost mo = markov_of(old_rs);
            assert(mo == markov_view(old_m));
            assert(mo.contains_key(from) == old_m.contains_key(from));
            if old_m.contains_key(from) {
                assert(mo[from] == transitions_view(old_m[from]@));
            } else {
                assert(transitions_view(prev) =~= Seq::empty());
            }
            let ghost prev_view = if mo.contains_key(from) { mo[from] } else { Seq::empty() };
            assert(prev_view == transitions_view(prev));
            assert(transitions_view(new_list@) =~= transitions_view(prev).push((to, lossy_text(rec.3), cnt)));
            assert(markov@ == old_m.remove(from).insert(from, new_list));
            assert(markov_view(markov@) =~= mo.insert(from, prev_view.push((to, lossy_text(rec.3), cnt))));
            assert(markov_view(markov@) =~= markov_of(rs));
        }
        p = q;
        i = i + 1;
    }
    Some((markov, p))
}

/// Read the statistics records from `start` on.
fn read_stats(b: &[u8], start: usize, count: u32) -> (r: Option<HashMap<u64, FileStats>>)
    requires
        start <= b@.len(),
    ensures
        r is Some <==> stats_list_at(b@, start as int, count as nat) is Some,
        r matches Some(s) ==> stats_list_at(b@, start as int, count as nat) matches Some((ss, _)) && stats_view(s@)
            == stats_of(ss),
{
    let ghost pb = b@;
    let mut stats: HashMap<u64, FileStats> = HashMap::new();
    let mut p: usize = start;
    let mut j: u32 = 0;
    let ghost mut ss: Seq<StatsRecord> = Seq::empty();
    proof {
        assert(stats_view(stats@) =~= stats_of(ss));
    }
    while j < count
        invariant
            b@ == pb,
            j <= count,
            stats_list_at(pb, start as int, j as nat) == Some((ss, p as int)),
            ss.len() == j,
            p <= pb.len(),
            stats_view(stats@) == stats_of(ss),
        decreases count - j,
    {
        if b.len() - p < 28 {
            proof {
                lemma_stats_stop(pb, start as int, j as nat, count as nat, ss, p as int);
            }
            return None;
        }
        let ino = read_le64(b, p);
        let acc = read_le32(b, p + 8);
        let last = read_le64(b, p + 12);
        let open = read_le64(b, p + 20);
        let (name, q) = match read_name(b, p + 28) {
            None => {
                proof {
                    lemma_stats_stop(pb, start as int, j as nat, count as nat, ss, p as int);
                }
                return None;
            },
            Some(x) => x,
        };
        let ghost rec: StatsRecord = (ino, acc, last, open, name_bytes_at(pb, p + 28));
        stats.insert(ino, (name, acc, last, open));
        proof {
            let ghost old_ss = ss;
            ss = ss.push(rec);
            assert(ss.drop_last() =~= old_ss);
            assert(stats_view(stats@) =~= stats_of(ss));
        }
        p = q;
        j = j + 1;
    }
    Some(stats)
}

/// Read the learned state whose transition count stands at `at`.
fn read_learned(b: &[u8], at: usize) -> (r: Option<(HashMap<u64, Vec<Transition>>, HashMap<u64, FileStats>)>)
    ensures
        r is Some <==> learned_at(b@, at as int) is Some,
        r matches Some((m, s)) ==> learned_at(b@, at as int) == Some((markov_view(m@), stats_view(s@))),
{
    if b.len() < 4 || at > b.len() - 4 {
        return None;
    }
    let count = read_le32(b, at);
    let (markov, p) = match read_transitions(b, at + 4, count) {
        None => {
            return None;
        },
        Some(x) => x,
    };
    if b.len() - p < 4 {
        return None;
    }
    let scount = read_le32(b, p);
    let stats = match read_stats(b, p + 4, scount) {
        None => {
            return None;
        },
        Some(s) => s,
    };
    Some((markov, stats))
}

/// Nothing learned.
fn nothing_learned() -> (r: (HashMap<u64, Vec<Transition>>, HashMap<u64, FileStats>))
    ensures
        markov_view(r.0@) == Map::<u64, TransitionsView>::empty(),
        stats_view(r.1@) == Map::<u64, StatsView>::empty(),
{
    let r = (HashMap::new(), HashMap::new());
    assert(markov_view(r.0@) =~= Map::empty());
    assert(stats_view(r.1@) =~= Map::empty());
    r
}

/// Read the learned state back from a sealed image; anything unreadable
/// reads as nothing learned, so the result is always there.
pub fn decode_ai_state(raw: &[u8]) -> (r: Option<(HashMap<u64, Vec<Transition>>, HashMap<u64, FileStats>)>)
    ensures
        r is Some,
        decoded_ai(raw@) is Some,
        r matches Some((m, s)) ==> decoded_ai(raw@) == Some((markov_view(m@), stats_view(s@))),
{
    let payload = match unseal(raw) {
        None => {
            return Some(nothing_learned());
        },
        Some(p) => p,
    };
    let b = payload.as_slice();
    let ghost pb = b@;
    if !(b[0] == 0x56 && b[1] == 0x45 && b[2] == 0x58 && b[3] == 0x41 && b[4] == 0x49 && b[5] == 0x30 && b[6] == 0x30
        && b[7] == 0x32) {
        proof {
            if pb.subrange(0, 8) == ai_magic() {
                assert(pb.subrange(0, 8)[0] == pb[0]);
                assert(pb[0] == 0x56 && pb[1] == 0x45 && pb[2] == 0x58 && pb[3] == 0x41);
                assert(pb.subrange(0, 8)[4] == pb[4]);
                assert(pb[4] == 0x49 && pb[5] == 0x30 && pb[6] == 0x30 && pb[7] == 0x32);
            }
        }
        return Some(nothing_learned());
    }
    assert(pb.subrange(0, 8) =~= ai_magic());
    match read_learned(b, 12) {
        Some(l) => Some(l),
        None => Some(nothing_learned()),
    }
}

/// Read the learned state back from an older image.
pub fn decode_legacy_ai_state(raw: &[u8]) -> (r: Option<(HashMap<u64, Vec<Transition>>, HashMap<u64, FileStats>)>)
    ensures
        r is Some <==> decoded_legacy_ai(raw@) is Some,
        r matches Some((m, s)) ==> decoded_legacy_ai(raw@) == Some((markov_view(m@), stats_view(s@))),
{
    let b = raw;
    let ghost pb = b@;
    if b.len() < 8 {
        return None;
    }
    if !(b[0] == 0x56 && b[1] == 0x45 && b[2] == 0x58 && b[3] == 0x41 && b[4] == 0x49 && b[5] == 0x30 && b[6] == 0x30
        && b[7] == 0x31) {
        proof {
            if pb.subrange(0, 8) == legacy_magic() {
                assert(pb.subrange(0, 8)[0] == pb[0]);
                assert(pb[0] == 0x56 && pb[1] == 0x45 && pb[2] == 0x58 && pb[3] == 0x41);
                assert(pb.subrange(0, 8)[4] == pb[4]);
                assert(pb[4] == 0x49 && pb[5] == 0x30 && pb[6] == 0x30 && pb[7] == 0x31);
            }
        }
        return Some(nothing_learned());
    }
    assert(pb.subrange(0, 8) =~= legacy_magic());
    read_learned(b, 8)
}

/// Once a record cannot be read, reading any larger number of records fails.
proof fn lemma_transitions_stop(b: Seq<u8>, start: int, i: nat, n: nat, rs: Seq<TransitionRecord>, p: int)
    requires
        i < n,
        transitions_at(b, start, i) == Some((rs, p)),
        transition_at(b, p) is None,
    ensures
        transitions_at(b, start, n) is None,
    decreases n - i,
{
    if n == i + 1 {
    } else {
        lemma_transitions_stop(b, start, i, (n - 1) as nat, rs, p);
    }
}

proof fn lemma_stats_stop(b: Seq<u8>, start: int, i: nat, n: nat, ss: Seq<StatsRecord>, p: int)
    requires
        i < n,
        stats_list_at(b, start, i) == Some((ss, p)),
        stats_at(b, p) is None,
    ensures
        stats_list_at(b, start, n) is None,
    decreases n - i,
{
    if n == i + 1 {
    } else {
        lemma_stats_stop(b, start, i, (n - 1) as nat, ss, p);
    }
}

// ── Reading back what was written ────────────────────────────────────────────

/// A name as it comes back: `String::from_utf8_lossy` of its UTF-8 bytes,
/// which is the name itself (see `lemma_stored_text`).
pub open spec fn stored_text(s: String) -> Seq<char> {
    lossy_text(vstd::utf8::encode_utf8(s@))
}

/// A stored name reads back as the name itself: its UTF-8 bytes are valid
/// UTF-8 and decode to it.
pub proof fn lemma_stored_text(s: String)
    ensures
        stored_text(s) == s@,
{
    vstd::utf8::encode_utf8_valid_utf8(s@);
    vstd::utf8::encode_utf8_decode_utf8(s@);
}

/// Transitions and statistics read back carry the names that were written.
pub proof fn lemma_stored_views(markov: Map<u64, Vec<Transition>>, stats: Map<u64, FileStats>)
    ensures
        stored_markov(markov) == markov_view(markov),
        stored_stats(stats) == stats_view(stats),
{
    assert forall|k: u64| #[trigger] markov.contains_key(k) implies stored_markov(markov)[k] == markov_view(markov)[k] by {
        let v = markov[k]@;
        assert forall|i: int| 0 <= i < v.len() implies stored_text(#[trigger] v[i].1) == v[i].1@ by {
            lemma_stored_text(v[i].1);
        }
        assert(v.map_values(|t: Transition| (t.0, stored_text(t.1), t.2)) =~= transitions_view(v));
    }
    assert(stored_markov(markov) =~= markov_view(markov));
    assert forall|k: u64| #[trigger] stats.contains_key(k) implies stored_stats(stats)[k] == stats_view(stats)[k] by {
        lemma_stored_text(stats[k].0);
    }
    assert(stored_stats(stats) =~= stats_view(stats));
}

/// The transitions as they come back from an image.
pub open spec fn stored_markov(m: Map<u64, Vec<Transition>>) -> Map<u64, TransitionsView> {
    m.map_values(|v: Vec<Transition>| v@.map_values(|t: Transition| (t.0, stored_text(t.1), t.2)))
}

/// The statistics as they come back from an image.
pub open spec fn stored_stats(m: Map<u64, FileStats>) -> Map<u64, StatsView> {
    m.map_values(|s: FileStats| (stored_text(s.0), s.1, s.2, s.3))
}

/// Every transition's name fits in `lim` bytes of UTF-8.
pub open spec fn markov_names_fit(m: Map<u64, Vec<Transition>>, lim: int) -> bool {
    forall|k: u64, i: int|
        m.dom().contains(k) && 0 <= i < m[k]@.len() ==> vstd::utf8::encode_utf8(#[trigger] m[k]@[i].1@).len()
            <= lim
}

/// Every file's name fits in `lim` bytes of UTF-8.
pub open spec fn stats_names_fit(m: Map<u64, FileStats>, lim: int) -> bool {
    forall|k: u64| m.dom().contains(k) ==> vstd::utf8::encode_utf8(#[trigger] m[k].0@).len() <= lim
}

/// `keys` lists the keys of a map, each once.
pub open spec fn lists_keys(keys: Seq<u64>, dom: Set<u64>) -> bool {
    keys.no_duplicates() && keys.to_set() == dom
}

/// Every source file has at least one transition.
pub open spec fn no_empty_lists(m: Map<u64, Vec<Transition>>) -> bool {
    forall|k: u64| m.dom().contains(k) ==> (#[trigger] m[k])@.len() > 0
}

spec fn record_bytes(r: TransitionRecord) -> Seq<u8> {
    spec_u64_to_le_bytes(r.0) + spec_u64_to_le_bytes(r.1) + spec_u32_to_le_bytes(r.2) + seq![r.3.len() as u8] + r.3
}

spec fn records_bytes(rs: Seq<TransitionRecord>) -> Seq<u8>
    decreases rs.len(),
{
    if rs.len() == 0 {
        Seq::empty()
    } else {
        records_bytes(rs.drop_last()) + record_bytes(rs.last())
    }
}

spec fn stored_transitions(from: u64, ts: Seq<Transition>) -> Seq<TransitionRecord> {
    ts.map_values(|t: Transition| (from, t.0, t.2, vstd::utf8::encode_utf8(t.1@)))
}

spec fn stored_records(m: Map<u64, Vec<Transition>>, keys: Seq<u64>) -> Seq<TransitionRecord>
    decreases keys.len(),
{
    if keys.len() == 0 {
        Seq::empty()
    } else {
        stored_records(m, keys.drop_last()) + stored_transitions(keys.last(), m[keys.last()]@)
    }
}

spec fn short_names(rs: Seq<TransitionRecord>) -> bool {
    forall|i: int| 0 <= i < rs.len() ==> (#[trigger] rs[i]).3.len() <= 255
}

proof fn lemma_read_record(pre: Seq<u8>, r: TransitionRecord, post: Seq<u8>)
    requires
        r.3.len() <= 255,
    ensures
        transition_at(pre + record_bytes(r) + post, pre.len() as int) == Some(
            (r, (pre.len() + record_bytes(r).len()) as int),
        ),
{
    lemma_auto_spec_u64_to_from_le_bytes();
    lemma_auto_spec_u32_to_from_le_bytes();
    let b = pre + record_bytes(r) + post;
    let p = pre.len() as int;
    assert(record_bytes(r).len() == 21 + r.3.len());
    assert(b.subrange(p, p + 8) =~= spec_u64_to_le_bytes(r.0));
    assert(b.subrange(p + 8, p + 16) =~= spec_u64_to_le_bytes(r.1));
    assert(b.subrange(p + 16, p + 20) =~= spec_u32_to_le_bytes(r.2));
    assert(b[p + 20] == record_bytes(r)[20]);
    assert(b.subrange(p + 21, p + 21 + r.3.len()) =~= r.3);
}

proof fn lemma_read_records(pre: Seq<u8>, rs: Seq<TransitionRecord>, post: Seq<u8>)
    requires
        short_names(rs),
    ensures
        transitions_at(pre + records_bytes(rs) + post, pre.len() as int, rs.len()) == Some(
            (rs, (pre.len() + records_bytes(rs).len()) as int),
        ),
    decreases rs.len(),
{
    if rs.len() > 0 {
        let rs0 = rs.drop_last();
        let r = rs.last();
        assert(short_names(rs0)) by {
            assert forall|i: int| 0 <= i < rs0.len() implies (#[trigger] rs0[i]).3.len() <= 255 by {
                assert(rs0[i] == rs[i]);
            }
        }
        assert(rs[rs.len() - 1] == r);
        let b = pre + records_bytes(rs) + post;
        lemma_read_records(pre, rs0, record_bytes(r) + post);
        assert(pre + records_bytes(rs0) + (record_bytes(r) + post) =~= b);
        lemma_read_record(pre + records_bytes(rs0), r, post);
        assert(pre + records_bytes(rs0) + record_bytes(r) + post =~= b);
        assert(rs0.push(r) =~= rs);
    }
}

proof fn lemma_records_bytes_concat(a: Seq<TransitionRecord>, b: Seq<TransitionRecord>)
    ensures
        records_bytes(a + b) == records_bytes(a) + records_bytes(b),
    decreases b.len(),
{
    if b.len() == 0 {
        assert(a + b =~= a);
        assert(records_bytes(a) + records_bytes(b) =~= records_bytes(a));
    } else {
        assert((a + b).drop_last() =~= a + b.drop_last());
        assert((a + b).last() == b.last());
        lemma_records_bytes_concat(a, b.drop_last());
        assert(records_bytes(a + b) =~= records_bytes(a) + records_bytes(b));
    }
}

proof fn lemma_transitions_bytes(from: u64, ts: Seq<Transition>, lim: int)
    requires
        lim <= 255,
        forall|i: int| 0 <= i < ts.len() ==> vstd::utf8::encode_utf8((#[trigger] ts[i]).1@).len() <= lim,
    ensures
        transitions_bytes(from, ts, lim) == records_bytes(stored_transitions(from, ts)),
        short_names(stored_transitions(from, ts)),
    decreases ts.len(),
{
    if ts.len() > 0 {
        let t = ts.last();
        assert(ts[ts.len() - 1] == t);
        lemma_transitions_bytes(from, ts.drop_last(), lim);
        assert(stored_transitions(from, ts).drop_last() =~= stored_transitions(from, ts.drop_last()));
        let e = vstd::utf8::encode_utf8(t.1@);
        assert(e.take(e.len() as int) =~= e);
        assert(transition_record(from, t, lim) =~= record_bytes((from, t.0, t.2, e)));
    }
    assert forall|i: int| 0 <= i < stored_transitions(from, ts).len() implies (#[trigger] stored_transitions(
        from,
        ts,
    )[i]).3.len() <= 255 by {
        assert(ts[i] == ts[i]);
    }
}

proof fn lemma_markov_bytes(m: Map<u64, Vec<Transition>>, keys: Seq<u64>, lim: int)
    requires
        lim <= 255,
        markov_names_fit(m, lim),
        keys.to_set().subset_of(m.dom()),
    ensures
        markov_bytes(m, keys, lim) == records_bytes(stored_records(m, keys)),
        short_names(stored_records(m, keys)),
        markov_total(m, keys) == stored_records(m, keys).len(),
    decreases keys.len(),
{
    if keys.len() > 0 {
        let k = keys.last();
        let k0 = keys.drop_last();
        assert(keys[keys.len() - 1] == k);
        assert(keys.to_set().contains(k));
        assert(k0.to_set().subset_of(m.dom())) by {
            assert forall|x: u64| k0.to_set().contains(x) implies m.dom().contains(x) by {
                let j = choose|j: int| 0 <= j < k0.len() && k0[j] == x;
                assert(keys[j] == x);
                assert(keys.to_set().contains(x));
            }
        }
        lemma_markov_bytes(m, k0, lim);
        assert forall|i: int| 0 <= i < m[k]@.len() implies vstd::utf8::encode_utf8((#[trigger] m[k]@[i]).1@).len()
            <= lim by {
            assert(m.dom().contains(k));
        }
        lemma_transitions_bytes(k, m[k]@, lim);
        lemma_records_bytes_concat(stored_records(m, k0), stored_transitions(k, m[k]@));
        let a = stored_records(m, k0);
        let b = stored_transitions(k, m[k]@);
        assert forall|i: int| 0 <= i < (a + b).len() implies (#[trigger] (a + b)[i]).3.len() <= 255 by {
            if i < a.len() {
                assert((a + b)[i] == a[i]);
            } else {
                assert((a + b)[i] == b[i - a.len()]);
            }
        }
    }
}

/// Adding the records of one more source to those of others.
proof fn lemma_markov_of_source(a: Seq<TransitionRecord>, k: u64, ts: Seq<Transition>)
    requires
        ts.len() > 0,
        !markov_of(a).contains_key(k),
    ensures
        markov_of(a + stored_transitions(k, ts)) == markov_of(a).insert(
            k,
            ts.map_values(|t: Transition| (t.0, stored_text(t.1), t.2)),
        ),
    decreases ts.len(),
{
    let all = a + stored_transitions(k, ts);
    let t = ts.last();
    assert(ts[ts.len() - 1] == t);
    assert(all.drop_last() =~= a + stored_transitions(k, ts.drop_last()));
    assert(all.last() == (k, t.0, t.2, vstd::utf8::encode_utf8(t.1@)));
    if ts.len() == 1 {
        assert(a + stored_transitions(k, ts.drop_last()) =~= a);
        assert(ts.map_values(|t: Transition| (t.0, stored_text(t.1), t.2)) =~= seq![(t.0, stored_text(t.1), t.2)]);
        assert(markov_of(all) =~= markov_of(a).insert(k, ts.map_values(|t: Transition| (t.0, stored_text(t.1), t.2))));
    } else {
        lemma_markov_of_source(a, k, ts.drop_last());
        assert(ts.drop_last().map_values(|t: Transition| (t.0, stored_text(t.1), t.2)).push(
            (t.0, stored_text(t.1), t.2),
        ) =~= ts.map_values(|t: Transition| (t.0, stored_text(t.1), t.2)));
        assert(markov_of(all) =~= markov_of(a).insert(k, ts.map_values(|t: Transition| (t.0, stored_text(t.1), t.2))));
    }
}

proof fn lemma_markov_of_records(m: Map<u64, Vec<Transition>>, keys: Seq<u64>)
    requires
        keys.no_duplicates(),
        keys.to_set().subset_of(m.dom()),
        no_empty_lists(m),
    ensures
        markov_of(stored_records(m, keys)) == stored_markov(m).restrict(keys.to_set()),
    decreases keys.len(),
{
    if keys.len() == 0 {
        assert(markov_of(stored_records(m, keys)) =~= stored_markov(m).restrict(keys.to_set()));
    } else {
        let k = keys.last();
        let k0 = keys.drop_last();
        assert(keys[keys.len() - 1] == k);
        assert(keys.to_set().contains(k));
        assert(k0.to_set().subset_of(m.dom())) by {
            assert forall|x: u64| k0.to_set().contains(x) implies m.dom().contains(x) by {
                let j = choose|j: int| 0 <= j < k0.len() && k0[j] == x;
                assert(keys[j] == x);
                assert(keys.to_set().contains(x));
            }
        }
        assert(k0.no_duplicates()) by {
            assert forall|i: int, j: int| 0 <= i < k0.len() && 0 <= j < k0.len() && i != j implies k0[i] != k0[j] by {
                assert(k0[i] == keys[i] && k0[j] == keys[j]);
            }
        }
        assert(!k0.to_set().contains(k)) by {
            if k0.to_set().contains(k) {
                let j = choose|j: int| 0 <= j < k0.len() && k0[j] == k;
                assert(keys[j] == keys[keys.len() - 1]);
            }
        }
        lemma_markov_of_records(m, k0);
        assert(m.dom().contains(k));
        assert(m[k]@.len() > 0);
        lemma_markov_of_source(stored_records(m, k0), k, m[k]@);
        assert(markov_of(stored_records(m, keys)) =~= stored_markov(m).restrict(keys.to_set())) by {
            assert forall|x: u64| #[trigger] keys.to_set().contains(x) <==> (k0.to_set().contains(x) || x == k) by {
                if keys.to_set().contains(x) {
                    let j = choose|j: int| 0 <= j < keys.len() && keys[j] == x;
                    if j < keys.len() - 1 {
                        assert(k0[j] == x);
                    }
                }
                if k0.to_set().contains(x) {
                    let j = choose|j: int| 0 <= j < k0.len() && k0[j] == x;
                    assert(keys[j] == x);
                }
            }
        }
    }
}

spec fn stats_record_bytes(r: StatsRecord) -> Seq<u8> {
    spec_u64_to_le_bytes(r.0) + spec_u32_to_le_bytes(r.1) + spec_u64_to_le_bytes(r.2) + spec_u64_to_le_bytes(r.3)
        + seq![r.4.len() as u8] + r.4
}

spec fn stats_records_bytes(rs: Seq<StatsRecord>) -> Seq<u8>
    decreases rs.len(),
{
    if rs.len() == 0 {
        Seq::empty()
    } else {
        stats_records_bytes(rs.drop_last()) + stats_record_bytes(rs.last())
    }
}

spec fn stored_stats_records(m: Map<u64, FileStats>, keys: Seq<u64>) -> Seq<StatsRecord> {
    keys.map_values(|k: u64| (k, m[k].1, m[k].2, m[k].3, vstd::utf8::encode_utf8(m[k].0@)))
}

proof fn lemma_read_stats_record(pre: Seq<u8>, r: StatsRecord, post: Seq<u8>)
    requires
        r.4.len() <= 255,
    ensures
        stats_at(pre + stats_record_bytes(r) + post, pre.len() as int) == Some(
            (r, (pre.len() + stats_record_bytes(r).len()) as int),
        ),
{
    lemma_auto_spec_u64_to_from_le_bytes();
    lemma_auto_spec_u32_to_from_le_bytes();
    let b = pre + stats_record_bytes(r) + post;
    let p = pre.len() as int;
    assert(stats_record_bytes(r).len() == 29 + r.4.len());
    assert(b.subrange(p, p + 8) =~= spec_u64_to_le_bytes(r.0));
    assert(b.subrange(p + 8, p + 12) =~= spec_u32_to_le_bytes(r.1));
    assert(b.subrange(p + 12, p + 20) =~= spec_u64_to_le_bytes(r.2));
    assert(b.subrange(p + 20, p + 28) =~= spec_u64_to_le_bytes(r.3));
    assert(b[p + 28] == stats_record_bytes(r)[28]);
    assert(b.subrange(p + 29, p + 29 + r.4.len()) =~= r.4);
}

proof fn lemma_read_stats_records(pre: Seq<u8>, rs: Seq<StatsRecord>, post: Seq<u8>)
    requires
        forall|i: int| 0 <= i < rs.len() ==> (#[trigger] rs[i]).4.len() <= 255,
    ensures
        stats_list_at(pre + stats_records_bytes(rs) + post, pre.len() as int, rs.len()) == Some(
            (rs, (pre.len() + stats_records_bytes(rs).len()) as int),
        ),
    decreases rs.len(),
{
    if rs.len() > 0 {
        let rs0 = rs.drop_last();
        let r = rs.last();
        assert forall|i: int| 0 <= i < rs0.len() implies (#[trigger] rs0[i]).4.len() <= 255 by {
            assert(rs0[i] == rs[i]);
        }
        assert(rs[rs.len() - 1] == r);
        let b = pre + stats_records_bytes(rs) + post;
        lemma_read_stats_records(pre, rs0, stats_record_bytes(r) + post);
        assert(pre + stats_records_bytes(rs0) + (stats_record_bytes(r) + post) =~= b);
        lemma_read_stats_record(pre + stats_records_bytes(rs0), r, post);
        assert(pre + stats_records_bytes(rs0) + stats_record_bytes(r) + post =~= b);
        assert(rs0.push(r) =~= rs);
    }
}

proof fn lemma_stats_bytes(m: Map<u64, FileStats>, keys: Seq<u64>, lim: int)
    requires
        lim <= 255,
        stats_names_fit(m, lim),
        keys.to_set().subset_of(m.dom()),
    ensures
        stats_bytes(m, keys, lim) == stats_records_bytes(stored_stats_records(m, keys)),
        stats_of(stored_stats_records(m, keys)) == stored_stats(m).restrict(keys.to_set()),
        forall|i: int|
            0 <= i < keys.len() ==> (#[trigger] stored_stats_records(m, keys)[i]).4.len() <= 255,
    decreases keys.len(),
{
    let rs = stored_stats_records(m, keys);
    if keys.len() == 0 {
        assert(stats_of(rs) =~= stored_stats(m).restrict(keys.to_set()));
    } else {
        let k = keys.last();
        let k0 = keys.drop_last();
        assert(keys[keys.len() - 1] == k);
        assert(keys.to_set().contains(k));
        assert(k0.to_set().subset_of(m.dom())) by {
            assert forall|x: u64| k0.to_set().contains(x) implies m.dom().contains(x) by {
                let j = choose|j: int| 0 <= j < k0.len() && k0[j] == x;
                assert(keys[j] == x);
                assert(keys.to_set().contains(x));
            }
        }
        lemma_stats_bytes(m, k0, lim);
        assert(rs.drop_last() =~= stored_stats_records(m, k0));
        let e = vstd::utf8::encode_utf8(m[k].0@);
        assert(m.dom().contains(k));
        assert(e.take(e.len() as int) =~= e);
        assert(stats_record(k, m[k], lim) =~= stats_record_bytes(rs.last()));
        assert(stats_of(rs) =~= stored_stats(m).restrict(keys.to_set())) by {
            assert forall|x: u64| #[trigger] keys.to_set().contains(x) <==> (k0.to_set().contains(x) || x == k) by {
                if keys.to_set().contains(x) {
                    let j = choose|j: int| 0 <= j < keys.len() && keys[j] == x;
                    if j < keys.len() - 1 {
                        assert(k0[j] == x);
                    }
                }
                if k0.to_set().contains(x) {
                    let j = choose|j: int| 0 <= j < k0.len() && k0[j] == x;
                    assert(keys[j] == x);
                }
            }
        }
        assert forall|i: int| 0 <= i < keys.len() implies (#[trigger] rs[i]).4.len() <= 255 by {
            assert(keys.to_set().contains(keys[i]));
        }
    }
}

/// Reading the learned state back from the bytes that hold it.
proof fn lemma_learned_roundtrip(
    head: Seq<u8>,
    markov: Map<u64, Vec<Transition>>,
    mk: Seq<u64>,
    stats: Map<u64, FileStats>,
    sk: Seq<u64>,
    lim: int,
)
    requires
        lim <= 255,
        lists_keys(mk, markov.dom()),
        lists_keys(sk, stats.dom()),
        markov_total(markov, mk) <= u32::MAX,
        sk.len() <= u32::MAX,
        no_empty_lists(markov),
        markov_names_fit(markov, lim),
        stats_names_fit(stats, lim),
    ensures
        learned_at(head + learned_bytes(markov, mk, stats, sk, lim), head.len() as int) == Some(
            (stored_markov(markov), stored_stats(stats)),
        ),
{
    lemma_auto_spec_u32_to_from_le_bytes();
    lemma_markov_bytes(markov, mk, lim);
    lemma_markov_of_records(markov, mk);
    lemma_stats_bytes(stats, sk, lim);
    let t = markov_total(markov, mk) as u32;
    let s = sk.len() as u32;
    let rs = stored_records(markov, mk);
    let ss = stored_stats_records(stats, sk);
    let mb = records_bytes(rs);
    let sb = stats_records_bytes(ss);
    let b = head + learned_bytes(markov, mk, stats, sk, lim);
    let h = head.len() as int;
    assert(b =~= head + spec_u32_to_le_bytes(t) + mb + (spec_u32_to_le_bytes(s) + sb));
    assert(b.subrange(h, h + 4) =~= spec_u32_to_le_bytes(t));
    lemma_read_records(head + spec_u32_to_le_bytes(t), rs, spec_u32_to_le_bytes(s) + sb);
    let q = h + 4 + mb.len();
    assert(b.subrange(q, q + 4) =~= spec_u32_to_le_bytes(s));
    assert(b =~= head + spec_u32_to_le_bytes(t) + mb + spec_u32_to_le_bytes(s) + sb + Seq::<u8>::empty());
    lemma_read_stats_records(head + spec_u32_to_le_bytes(t) + mb + spec_u32_to_le_bytes(s), ss, Seq::empty());
    assert(ss.len() == sk.len());
    assert(stored_markov(markov).restrict(mk.to_set()) =~= stored_markov(markov));
    assert(stored_stats(stats).restrict(sk.to_set()) =~= stored_stats(stats));
}

/// What a sealed image is read back as: the transitions and statistics
/// that were written, names included, for any order in which the files were written, when every name
/// fits in 255 bytes and every source file has a transition.
pub proof fn lemma_ai_image_roundtrip(
    markov: Map<u64, Vec<Transition>>,
    mk: Seq<u64>,
    stats: Map<u64, FileStats>,
    sk: Seq<u64>,
)
    requires
        lists_keys(mk, markov.dom()),
        lists_keys(sk, stats.dom()),
        markov_total(markov, mk) <= u32::MAX,
        sk.len() <= u32::MAX,
        no_empty_lists(markov),
        markov_names_fit(markov, NAME_LIMIT as int),
        stats_names_fit(stats, NAME_LIMIT as int),
    ensures
        decoded_ai(sealed(ai_payload(markov, mk, stats, sk))) == Some((stored_markov(markov), stored_stats(stats))),
        decoded_ai(sealed(ai_payload(markov, mk, stats, sk))) == Some((markov_view(markov), stats_view(stats))),
{
    lemma_stored_views(markov, stats);
    lemma_auto_spec_u32_to_from_le_bytes();
    let head = ai_magic() + spec_u32_to_le_bytes(AI_VERSION);
    let p = ai_payload(markov, mk, stats, sk);
    assert(p =~= head + learned_bytes(markov, mk, stats, sk, NAME_LIMIT as int));
    lemma_seal_roundtrip(p);
    assert(p.subrange(0, 8) =~= ai_magic());
    lemma_learned_roundtrip(head, markov, mk, stats, sk, NAME_LIMIT as int);
}

/// What an older image is read back as: the transitions and statistics
/// that were written, when every name fits in 207 bytes and every source
/// file has a transition.
pub proof fn lemma_legacy_image_roundtrip(
    markov: Map<u64, Vec<Transition>>,
    mk: Seq<u64>,
    stats: Map<u64, FileStats>,
    sk: Seq<u64>,
)
    requires
        lists_keys(mk, markov.dom()),
        lists_keys(sk, stats.dom()),
        markov_total(markov, mk) <= u32::MAX,
        sk.len() <= u32::MAX,
        no_empty_lists(markov),
        markov_names_fit(markov, LEGACY_NAME_LIMIT as int),
        stats_names_fit(stats, LEGACY_NAME_LIMIT as int),
    ensures
        decoded_legacy_ai(legacy_image(markov, mk, stats, sk)) == Some((stored_markov(markov), stored_stats(stats))),
        decoded_legacy_ai(legacy_image(markov, mk, stats, sk)) == Some((markov_view(markov), stats_view(stats))),
{
    lemma_stored_views(markov, stats);
    let raw = legacy_image(markov, mk, stats, sk);
    assert(raw.subrange(0, 8) =~= legacy_magic());
    lemma_learned_roundtrip(legacy_magic(), markov, mk, stats, sk, LEGACY_NAME_LIMIT as int);
}

} // verus!
