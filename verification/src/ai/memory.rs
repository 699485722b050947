//! Cross-session memory: sessions, when files tend to be used, streaks of
//! daily use, files used together and which files are trending.
use vstd::prelude::*;
use std::collections::{HashMap, HashSet};
use vstd::string::*;
use crate::clock::unix_now_secs;
use crate::text::{decimal, decimal_with_suffix};
use crate::walk::{keys_in_walk_order, lemma_insert_desc, sorted_desc, walk_order};

verus! {

broadcast use {vstd::std_specs::hash::group_hash_axioms, vstd::string::group_string_axioms};

/// `a - b`, or zero when `b > a`.
pub open spec fn sat_sub(a: u64, b: u64) -> u64 {
    if a >= b {
        (a - b) as u64
    } else {
        0
    }
}

/// Hour of the day (0–23) of a unix timestamp.
pub open spec fn hour_of(ts: u64) -> int {
    ((ts % 86400) / 3600) as int
}

/// Day of the week (0 = Monday) of a unix timestamp; the epoch was a Thursday.
pub open spec fn weekday_of(ts: u64) -> int {
    ((ts / 86400 + 3) % 7) as int
}

// ── Session ──────────────────────────────────────────────────────────────────

/// A single mount session.
#[derive(Debug, Clone)]
pub struct Session {
    pub id: u64,
    /// Unix seconds.
    pub start_ts: u64,
    /// 0 while the session is active.
    pub end_ts: u64,
    /// (ino, name) in the order first touched.
    pub files_touched: Vec<(u64, String)>,
    /// Most files open at once.
    pub peak_files: usize,
    pub total_writes: u64,
    pub total_reads: u64,
    /// Name of the most-accessed file of the session.
    pub focus_file: Option<String>,
}

/// A fresh session: started at `start`, nothing recorded.
pub open spec fn fresh_session(s: Session, id: u64, start: u64) -> bool {
    &&& s.id == id
    &&& s.start_ts == start
    &&& s.end_ts == 0
    &&& s.files_touched@.len() == 0
    &&& s.peak_files == 0
    &&& s.total_writes == 0
    &&& s.total_reads == 0
    &&& s.focus_file is None
}

/// Length of a session at time `now`: up to its end, or to `now` while
/// it is active.
pub open spec fn session_duration(s: Session, now: u64) -> u64 {
    sat_sub(if s.end_ts > 0 { s.end_ts } else { now }, s.start_ts)
}

impl Session {
    /// A session with id `id` starting at `start`.
    pub fn new_at(id: u64, start: u64) -> (r: Self)
        ensures
            fresh_session(r, id, start),
    {
        Self {
            id,
            start_ts: start,
            end_ts: 0,
            files_touched: Vec::new(),
            peak_files: 0,
            total_writes: 0,
            total_reads: 0,
            focus_file: None,
        }
    }

    /// A session with id `id` starting now.
    pub fn new(id: u64) -> (r: Self)
        ensures
            exists|start: u64| #[trigger] fresh_session(r, id, start),
    {
        Self::new_at(id, unix_now_secs())
    }

    /// Seconds from start to end, or to `now` while still active.
    pub fn duration_secs_at(&self, now: u64) -> (r: u64)
        ensures
            r == session_duration(*self, now),
    {
        let end = if self.end_ts > 0 { self.end_ts } else { now };
        end.saturating_sub(self.start_ts)
    }

    /// Seconds from start to end, or to now while still active.
    pub fn duration_secs(&self) -> (r: u64)
        ensures
            self.end_ts > 0 ==> r == sat_sub(self.end_ts, self.start_ts),
            exists|now: u64| r == #[trigger] session_duration(*self, now),
    {
        self.duration_secs_at(unix_now_secs())
    }

    pub fn is_active(&self) -> (r: bool)
        ensures
            r == (self.end_ts == 0),
    {
        self.end_ts == 0
    }

    /// Hour of day this session started (0–23).
    pub fn start_hour(&self) -> (r: u8)
        ensures
            r == hour_of(self.start_ts),
    {
        ((self.start_ts % 86400) / 3600) as u8
    }

    /// Day of week this session started (0 = Monday … 6 = Sunday).
    pub fn day_of_week(&self) -> (r: u8)
        ensures
            r == weekday_of(self.start_ts),
    {
        let days_since_epoch = self.start_ts / 86400;
        ((days_since_epoch + 3) % 7) as u8
    }
}

// ── Temporal pattern ─────────────────────────────────────────────────────────

/// When a file tends to be accessed: counts by hour of day and day of week.
#[derive(Debug, Clone)]
pub struct TemporalPattern {
    /// hour of day → access count
    pub by_hour: [u32; 24],
    /// day of week → access count (0 = Monday)
    pub by_day: [u32; 7],
    /// Total accesses recorded.
    pub total: u32,
}

/// Index `i` holds the largest count, and no later index holds as many:
/// the last of the largest counts.
pub open spec fn last_peak(s: Seq<u32>, i: int) -> bool {
    &&& 0 <= i < s.len()
    &&& forall|j: int| 0 <= j < s.len() ==> #[trigger] s[j] <= s[i]
    &&& forall|j: int| i < j < s.len() ==> #[trigger] s[j] < s[i]
}

/// Name of a day of the week.
pub open spec fn day_text(day: u8) -> Seq<char> {
    if day == 0 {
        "Monday"@
    } else if day == 1 {
        "Tuesday"@
    } else if day == 2 {
        "Wednesday"@
    } else if day == 3 {
        "Thursday"@
    } else if day == 4 {
        "Friday"@
    } else if day == 5 {
        "Saturday"@
    } else if day == 6 {
        "Sunday"@
    } else {
        "Unknown"@
    }
}

/// How an hour of the day is shown.
pub open spec fn hour_text(hour: u8) -> Seq<char> {
    if hour == 0 {
        "midnight"@
    } else if hour < 12 {
        decimal(hour as nat) + "am"@
    } else if hour == 12 {
        "noon"@
    } else {
        decimal((hour - 12) as nat) + "pm"@
    }
}

/// The last index of a largest count.
fn last_max(s: &[u32]) -> (r: usize)
    requires
        s@.len() > 0,
    ensures
        last_peak(s@, r as int),
{
    let mut best: usize = 0;
    let mut i: usize = 1;
    while i < s.len()
        invariant
            1 <= i <= s@.len(),
            best < i,
            forall|j: int| 0 <= j < i ==> #[trigger] s@[j] <= s@[best as int],
            forall|j: int| best < j < i ==> #[trigger] s@[j] < s@[best as int],
        decreases s@.len() - i,
    {
        if s[i] >= s[best] {
            best = i;
        }
        i = i + 1;
    }
    best
}

/// The counters an access at `ts` increments all have room.
pub open spec fn pattern_room(p: TemporalPattern, ts: u64) -> bool {
    &&& p.by_hour@[hour_of(ts)] < u32::MAX
    &&& p.by_day@[weekday_of(ts)] < u32::MAX
    &&& p.total < u32::MAX
}

/// `q` is `p` with an access at `ts` counted.
pub open spec fn pattern_recorded(p: TemporalPattern, q: TemporalPattern, ts: u64) -> bool {
    &&& q.by_hour@ == p.by_hour@.update(hour_of(ts), (p.by_hour@[hour_of(ts)] + 1) as u32)
    &&& q.by_day@ == p.by_day@.update(weekday_of(ts), (p.by_day@[weekday_of(ts)] + 1) as u32)
    &&& q.total == p.total + 1
}

/// A pattern with no accesses counted.
pub open spec fn pattern_empty(p: TemporalPattern) -> bool {
    &&& forall|h: int| 0 <= h < 24 ==> p.by_hour@[h] == 0
    &&& forall|d: int| 0 <= d < 7 ==> p.by_day@[d] == 0
    &&& p.total == 0
}

impl Default for TemporalPattern {
    fn default() -> (r: Self)
        ensures
            pattern_empty(r),
    {
        Self { by_hour: [0u32; 24], by_day: [0u32; 7], total: 0 }
    }
}

impl TemporalPattern {
    /// Count an access at unix time `ts`.
    pub fn record(&mut self, ts: u64)
        requires
            pattern_room(*old(self), ts),
        ensures
            pattern_recorded(*old(self), *final(self), ts),
    {
        let hour = ((ts % 86400) / 3600) as usize;
        let day = (((ts / 86400) + 3) % 7) as usize;
        self.by_hour[hour] = self.by_hour[hour] + 1;
        self.by_day[day] = self.by_day[day] + 1;
        self.total = self.total + 1;
    }

    /// Peak hour (0–23): the last hour with the most accesses.
    pub fn peak_hour(&self) -> (r: u8)
        ensures
            last_peak(self.by_hour@, r as int),
    {
        last_max(self.by_hour.as_slice()) as u8
    }

    /// Peak day (0 = Monday … 6 = Sunday): the last day with the most accesses.
    pub fn peak_day(&self) -> (r: u8)
        ensures
            last_peak(self.by_day@, r as int),
    {
        last_max(self.by_day.as_slice()) as u8
    }

    pub fn day_name(day: u8) -> (r: &'static str)
        ensures
            r@ == day_text(day),
    {
        match day {
            0 => "Monday",
            1 => "Tuesday",
            2 => "Wednesday",
            3 => "Thursday",
            4 => "Friday",
            5 => "Saturday",
            6 => "Sunday",
            _ => "Unknown",
        }
    }

    pub fn hour_label(hour: u8) -> (r: String)
        ensures
            r@ == hour_text(hour),
    {
        if hour == 0 {
            "midnight".to_string()
        } else if hour < 12 {
            decimal_with_suffix(hour as u64, "am")
        } else if hour == 12 {
            "noon".to_string()
        } else {
            decimal_with_suffix((hour - 12) as u64, "pm")
        }
    }
}

// ── Streak ───────────────────────────────────────────────────────────────────

/// How many consecutive days a file has been touched.
#[derive(Debug, Clone)]
pub struct Streak {
    pub current_days: u32,
    pub longest_days: u32,
    /// Days since the epoch.
    pub last_touched_day: u64,
}

/// Touching at `ts` overflows nothing.
pub open spec fn streak_room(s: Streak, ts: u64) -> bool {
    &&& ts / 86400 != s.last_touched_day ==> s.last_touched_day < u64::MAX
    &&& ts / 86400 == s.last_touched_day + 1 ==> s.current_days < u32::MAX
}

/// `t` is `s` touched at `ts`: same day changes nothing, the next day
/// extends the run (and the best run with it), any other day starts a new
/// run of one day and leaves the best run as it was.
pub open spec fn streak_touched(s: Streak, t: Streak, ts: u64) -> bool {
    &&& t.last_touched_day == ts / 86400
    &&& ts / 86400 == s.last_touched_day ==> t.current_days == s.current_days && t.longest_days == s.longest_days
    &&& ts / 86400 == s.last_touched_day + 1 ==> t.current_days == s.current_days + 1 && t.longest_days == (if s.current_days
        + 1 > s.longest_days {
        (s.current_days + 1) as u32
    } else {
        s.longest_days
    })
    &&& ts / 86400 != s.last_touched_day && ts / 86400 != s.last_touched_day + 1 ==> t.current_days == 1
        && t.longest_days == s.longest_days
}

impl Streak {
    pub fn new() -> (r: Self)
        ensures
            r.current_days == 0 && r.longest_days == 0 && r.last_touched_day == 0,
    {
        Self { current_days: 0, longest_days: 0, last_touched_day: 0 }
    }

    /// Touch the file at unix time `ts`: same day changes nothing, the next
    /// day extends the streak, any other day starts a new one.
    pub fn touch(&mut self, ts: u64)
        requires
            streak_room(*old(self), ts),
        ensures
            streak_touched(*old(self), *final(self), ts),
    {
        let today = ts / 86400;
        if today == self.last_touched_day {
        } else if today == self.last_touched_day + 1 {
            self.current_days = self.current_days + 1;
            if self.current_days > self.longest_days {
                self.longest_days = self.current_days;
            }
        } else {
            self.current_days = 1;
        }
        self.last_touched_day = today;
    }
}

/// A touch keeps the best run at or above the current run when it was so
/// before and, for a touch that starts a new run, the best run already
/// counts at least one day; a touch on a new day leaves a current run of at
/// least one day.
pub proof fn lemma_streak_best_covers_current(s: Streak, t: Streak, ts: u64)
    requires
        s.longest_days >= s.current_days,
        ts / 86400 != s.last_touched_day && ts / 86400 != s.last_touched_day + 1 ==> s.longest_days >= 1,
        streak_touched(s, t, ts),
    ensures
        t.longest_days >= t.current_days,
        ts / 86400 != s.last_touched_day ==> t.current_days >= 1,
{
}

// ── Trend ────────────────────────────────────────────────────────────────────

#[derive(Debug, Clone, Copy, PartialEq, Eq, Structural)]
pub enum Trend {
    /// First week of access.
    New,
    /// At least twice the accesses of the prior week.
    Rising,
    Stable,
    /// At most half the accesses of the prior week.
    Falling,
}

/// How a trend is shown.
pub open spec fn trend_text(t: Trend) -> Seq<char> {
    match t {
        Trend::New => "⭐ new"@,
        Trend::Rising => "📈 rising"@,
        Trend::Stable => "→ stable"@,
        Trend::Falling => "📉 fading"@,
    }
}

impl Trend {
    pub fn label(&self) -> (r: &'static str)
        ensures
            r@ == trend_text(*self),
    {
        match self {
            Trend::New => "⭐ new",
            Trend::Rising => "📈 rising",
            Trend::Stable => "→ stable",
            Trend::Falling => "📉 fading",
        }
    }
}


// ── Co-access ────────────────────────────────────────────────────────────────

/// 2^64: the factor that packs an ordered pair of inodes into one key.
pub const PAIR_SHIFT: u128 = 18446744073709551616;

/// The key of the pair (a, b).
pub open spec fn pair_key(a: u64, b: u64) -> u128 {
    (a * PAIR_SHIFT + b) as u128
}

/// The pair a key stands for.
pub open spec fn key_pair(k: u128) -> (u64, u64) {
    ((k / PAIR_SHIFT) as u64, (k % PAIR_SHIFT) as u64)
}

proof fn lemma_pair_key(a: u64, b: u64)
    ensures
        key_pair(pair_key(a, b)) == (a, b),
        a * PAIR_SHIFT + b <= u128::MAX,
{
    let k = a * PAIR_SHIFT + b;
    assert(k <= u128::MAX) by (nonlinear_arith)
        requires k == a * 18446744073709551616 + b, a <= 18446744073709551615, b <= 18446744073709551615;
    assert(k / 18446744073709551616 == a && k % 18446744073709551616 == b) by (nonlinear_arith)
        requires k == a * 18446744073709551616 + b, 0 <= b < 18446744073709551616, 0 <= a;
}

/// The key under which the pair (a, b) is counted.
pub fn pair_key_of(a: u64, b: u64) -> (r: u128)
    ensures
        r == pair_key(a, b),
        key_pair(r) == (a, b),
{
    proof {
        lemma_pair_key(a, b);
    }
    (a as u128) * PAIR_SHIFT + (b as u128)
}

pub(crate) fn split_pair_key(k: u128) -> (r: (u64, u64))
    ensures
        r == key_pair(k),
{
    proof {
        assert(k / PAIR_SHIFT < PAIR_SHIFT) by (nonlinear_arith)
            requires k <= u128::MAX;
    }
    ((k / PAIR_SHIFT) as u64, (k % PAIR_SHIFT) as u64)
}

/// The distinct values of `s` in order of first appearance.
pub open spec fn first_occurrences(s: Seq<u64>) -> Seq<u64>
    decreases s.len(),
{
    if s.len() == 0 {
        Seq::empty()
    } else if s.drop_last().contains(s.last()) {
        first_occurrences(s.drop_last())
    } else {
        first_occurrences(s.drop_last()).push(s.last())
    }
}

/// The inodes of a session's file list considered for pairing: the first
/// 20 distinct ones.
pub open spec fn session_members(files: Seq<(u64, String)>) -> Seq<u64> {
    let d = first_occurrences(files.map_values(|f: (u64, String)| f.0));
    if d.len() > 20 {
        d.take(20)
    } else {
        d
    }
}

/// `a < b` both appear among `members`.
pub open spec fn paired_in(members: Seq<u64>, a: u64, b: u64) -> bool {
    a < b && members.contains(a) && members.contains(b)
}

/// Count of pair `k`, zero when absent.
pub open spec fn pair_count(m: Map<u128, u32>, k: u128) -> int {
    if m.contains_key(k) {
        m[k] as int
    } else {
        0
    }
}

/// Files opened in the same session, counted per unordered pair.
#[derive(Debug, Clone)]
pub struct CoAccessMap {
    /// `pair_key(a, b)` with `a < b` → sessions in which both were opened.
    pub pairs: HashMap<u128, u32>,
}

proof fn lemma_first_occurrences(s: Seq<u64>)
    ensures
        first_occurrences(s).no_duplicates(),
        forall|x: u64| first_occurrences(s).contains(x) <==> s.contains(x),
    decreases s.len(),
{
    if s.len() > 0 {
        let t = s.drop_last();
        lemma_first_occurrences(t);
        let d = first_occurrences(t);
        assert forall|x: u64| first_occurrences(s).contains(x) <==> s.contains(x) by {
            if s.contains(x) {
                let i = choose|i: int| 0 <= i < s.len() && s[i] == x;
                if i < s.len() - 1 {
                    assert(t[i] == x);
                    assert(t.contains(x));
                }
            }
            if t.contains(x) {
                let i = choose|i: int| 0 <= i < t.len() && t[i] == x;
                assert(s[i] == x);
            }
            if !t.contains(s.last()) {
                assert(first_occurrences(s) == d.push(s.last()));
                if first_occurrences(s).contains(x) {
                    let i = choose|i: int| 0 <= i < first_occurrences(s).len() && first_occurrences(s)[i] == x;
                    if i < d.len() {
                        assert(d[i] == x);
                        assert(d.contains(x));
                    }
                }
                if d.contains(x) {
                    let i = choose|i: int| 0 <= i < d.len() && d[i] == x;
                    assert(first_occurrences(s)[i] == x);
                }
                if x == s.last() {
                    assert(first_occurrences(s)[d.len() as int] == x);
                }
            }
        }
    }
}

impl CoAccessMap {
    pub fn new() -> (r: Self)
        ensures
            r.pairs@ == Map::<u128, u32>::empty(),
    {
        Self { pairs: HashMap::new() }
    }

    /// The first 20 distinct inodes of a file list, in order.
    fn members(files: &[(u64, String)]) -> (r: Vec<u64>)
        ensures
            r@ == session_members(files@),
            r@.no_duplicates(),
    {
        let ghost inos = files@.map_values(|f: (u64, String)| f.0);
        let mut seen: HashSet<u64> = HashSet::new();
        let mut out: Vec<u64> = Vec::new();
        let mut i: usize = 0;
        proof {
            assert(inos.subrange(0, 0) =~= Seq::<u64>::empty());
        }
        while i < files.len() && out.len() < 20
            invariant
                i <= files@.len(),
                inos == files@.map_values(|f: (u64, String)| f.0),
                out@ == first_occurrences(inos.subrange(0, i as int)),
                out@.len() <= 20,
                forall|x: u64| seen@.contains(x) <==> inos.subrange(0, i as int).contains(x),
            decreases files@.len() - i,
        {
            let ino = files[i].0;
            proof {
                let t = inos.subrange(0, i + 1);
                assert(t.drop_last() =~= inos.subrange(0, i as int));
                assert(t.last() == ino);
                assert forall|x: u64| t.contains(x) <==> (inos.subrange(0, i as int).contains(x) || x == ino) by {
                    if t.contains(x) {
                        let j = choose|j: int| 0 <= j < t.len() && t[j] == x;
                        if j < i {
                            assert(inos.subrange(0, i as int)[j] == x);
                        }
                    }
                    if inos.subrange(0, i as int).contains(x) {
                        let j = choose|j: int| 0 <= j < i && inos.subrange(0, i as int)[j] == x;
                        assert(t[j] == x);
                    }
                    if x == ino {
                        assert(t[i as int] == x);
                    }
                }
            }
            if !seen.contains(&ino) {
                seen.insert(ino);
                out.push(ino);
            }
            i = i + 1;
        }
        proof {
            lemma_first_occurrences(inos.subrange(0, i as int));
            lemma_first_occurrences_prefix(inos, i as int);
            let d = first_occurrences(inos);
            if out@.len() < 20 {
                assert(i == files@.len());
                assert(inos.subrange(0, i as int) =~= inos);
                assert(out@ == d);
            } else {
                assert(out@.len() == 20);
                assert(d.take(20) == out@.take(20));
                assert(out@.take(20) =~= out@);
                if d.len() == 20 {
                    assert(d.take(20) =~= d);
                }
            }
        }
        out
    }

    /// Count every pair of distinct inodes among the first 20 distinct
    /// inodes of a session's file list. Lists of fewer than two files count
    /// nothing.
    pub fn record_session(&mut self, files: &[(u64, String)])
        requires
            files@.len() >= 2 ==> forall|a: u64, b: u64| #[trigger] paired_in(session_members(files@), a, b)
                && old(self).pairs@.contains_key(pair_key(a, b)) ==> old(self).pairs@[pair_key(a, b)] < u32::MAX,
        ensures
            files@.len() < 2 ==> final(self).pairs@ == old(self).pairs@,
            files@.len() >= 2 ==> {
                &&& forall|a: u64, b: u64| #[trigger] paired_in(session_members(files@), a, b)
                    ==> final(self).pairs@.contains_key(pair_key(a, b))
                    && final(self).pairs@[pair_key(a, b)] == pair_count(old(self).pairs@, pair_key(a, b)) + 1
                &&& forall|k: u128| #[trigger] final(self).pairs@.contains_key(k)
                    && !paired_in(session_members(files@), key_pair(k).0, key_pair(k).1)
                    ==> old(self).pairs@.contains_key(k) && final(self).pairs@[k] == old(self).pairs@[k]
                &&& forall|k: u128| #[trigger] old(self).pairs@.contains_key(k) ==> final(self).pairs@.contains_key(k)
            },
    {
        if files.len() < 2 {
            return;
        }
        let unique = Self::members(files);
        let ghost u = unique@;
        let ghost start = self.pairs@;
        let n = unique.len();
        let mut i: usize = 0;
        while i < n
            invariant
                n == u.len(),
                unique@ == u,
                u.no_duplicates(),
                i <= n,
                forall|a: u64, b: u64| #[trigger] paired_in(u, a, b) && start.contains_key(pair_key(a, b)) ==> start[pair_key(a, b)] < u32::MAX,
                forall|k: u128| #[trigger] start.contains_key(k) ==> self.pairs@.contains_key(k),
                forall|a: u64, b: u64| #[trigger] paired_in(u, a, b) ==> (
                    if pair_done(u, i as int, a, b) {
                        self.pairs@.contains_key(pair_key(a, b))
                        && self.pairs@[pair_key(a, b)] == pair_count(start, pair_key(a, b)) + 1
                    } else {
                        pair_count(self.pairs@, pair_key(a, b)) == pair_count(start, pair_key(a, b))
                    }),
                forall|k: u128| #[trigger] self.pairs@.contains_key(k) && !paired_in(u, key_pair(k).0, key_pair(k).1)
                    ==> start.contains_key(k) && self.pairs@[k] == start[k],
            decreases n - i,
        {
            let mut j: usize = i + 1;
            while j < n
                invariant
                    n == u.len(),
                    unique@ == u,
                    u.no_duplicates(),
                    i < n,
                    i + 1 <= j <= n,
                    forall|a: u64, b: u64| #[trigger] paired_in(u, a, b) && start.contains_key(pair_key(a, b)) ==> start[pair_key(a, b)] < u32::MAX,
                    forall|k: u128| #[trigger] start.contains_key(k) ==> self.pairs@.contains_key(k),
                    forall|a: u64, b: u64| #[trigger] paired_in(u, a, b) ==> (
                        if pair_done(u, i as int, a, b) || pair_at(u, i as int, j as int, a, b) {
                            self.pairs@.contains_key(pair_key(a, b))
                            && self.pairs@[pair_key(a, b)] == pair_count(start, pair_key(a, b)) + 1
                        } else {
                            pair_count(self.pairs@, pair_key(a, b)) == pair_count(start, pair_key(a, b))
                        }),
                    forall|k: u128| #[trigger] self.pairs@.contains_key(k) && !paired_in(u, key_pair(k).0, key_pair(k).1)
                        ==> start.contains_key(k) && self.pairs@[k] == start[k],
                decreases n - j,
            {
                let x = unique[i];
                let y = unique[j];
                let a = if x < y { x } else { y };
                let b = if x < y { y } else { x };
                let key = pair_key_of(a, b);
                proof {
                    assert(x != y) by {
                        assert(u[i as int] != u[j as int]);
                    }
                    assert(u.contains(x) && u.contains(y)) by {
                        assert(u[i as int] == x);
                        assert(u[j as int] == y);
                    }
                    assert(paired_in(u, a, b));
                    lemma_pair_once(u, i as int, j as int, a, b);
                }
                let old_count: u32 = match self.pairs.get(&key) {
                    Some(c) => *c,
                    None => 0,
                };
                self.pairs.insert(key, old_count + 1);
                proof {
                    assert forall|p: u64, q: u64| #[trigger] paired_in(u, p, q) implies (
                        if pair_done(u, i as int, p, q) || pair_at(u, i as int, j + 1, p, q) {
                            self.pairs@.contains_key(pair_key(p, q))
                            && self.pairs@[pair_key(p, q)] == pair_count(start, pair_key(p, q)) + 1
                        } else {
                            pair_count(self.pairs@, pair_key(p, q)) == pair_count(start, pair_key(p, q))
                        }) by {
                        lemma_pair_key(p, q);
                        lemma_pair_key(a, b);
                        if pair_key(p, q) == key {
                            assert((p, q) == (a, b));
                        }
                        lemma_pair_at_step(u, i as int, j as int, p, q, a, b);
                    }
                    assert forall|k: u128| #[trigger] self.pairs@.contains_key(k) && !paired_in(u, key_pair(k).0, key_pair(k).1)
                        implies start.contains_key(k) && self.pairs@[k] == start[k] by {
                        if k == key {
                            assert(key_pair(k) == (a, b));
                        }
                    }
                }
                j = j + 1;
            }
            proof {
                assert forall|a: u64, b: u64| #[trigger] paired_in(u, a, b) implies (
                    if pair_done(u, i + 1, a, b) {
                        self.pairs@.contains_key(pair_key(a, b))
                        && self.pairs@[pair_key(a, b)] == pair_count(start, pair_key(a, b)) + 1
                    } else {
                        pair_count(self.pairs@, pair_key(a, b)) == pair_count(start, pair_key(a, b))
                    }) by {
                    lemma_pair_done_step(u, i as int, a, b);
                }
            }
            i = i + 1;
        }
        proof {
            assert forall|a: u64, b: u64| #[trigger] paired_in(u, a, b) implies pair_done(u, n as int, a, b) by {
                lemma_pair_done_all(u, a, b);
            }
        }
    }
}

/// Pair (a, b) comes from positions (p, q) of `u` with p < q.
pub open spec fn pair_from(u: Seq<u64>, p: int, q: int, a: u64, b: u64) -> bool {
    &&& 0 <= p < q < u.len()
    &&& ((u[p] == a && u[q] == b) || (u[p] == b && u[q] == a))
}

/// The pair's first position lies before `i`: the outer loop has counted it.
pub open spec fn pair_done(u: Seq<u64>, i: int, a: u64, b: u64) -> bool {
    exists|p: int, q: int| #[trigger] pair_from(u, p, q, a, b) && p < i
}

/// The pair's positions are (i, q) with q before `j`.
pub open spec fn pair_at(u: Seq<u64>, i: int, j: int, a: u64, b: u64) -> bool {
    exists|q: int| #[trigger] pair_from(u, i, q, a, b) && q < j
}

/// In a list without duplicates each pair of distinct values comes from
/// exactly one pair of positions.
proof fn lemma_pair_unique(u: Seq<u64>, p1: int, q1: int, p2: int, q2: int, a: u64, b: u64)
    requires
        u.no_duplicates(),
        a != b,
        pair_from(u, p1, q1, a, b),
        pair_from(u, p2, q2, a, b),
    ensures
        p1 == p2 && q1 == q2,
{
    if u[p1] == a {
        if u[p2] == a {
            assert(p1 == p2);
        } else {
            assert(u[q2] == a);
            assert(q2 == p1);
            assert(u[q1] == b && u[p2] == b);
            assert(q1 == p2);
            assert(false);
        }
    } else {
        if u[p2] == b {
            assert(p1 == p2);
        } else {
            assert(u[q2] == b);
            assert(q2 == p1);
            assert(u[q1] == a && u[p2] == a);
            assert(q1 == p2);
            assert(false);
        }
    }
}

proof fn lemma_pair_once(u: Seq<u64>, i: int, j: int, a: u64, b: u64)
    requires
        u.no_duplicates(),
        0 <= i < j < u.len(),
        a < b,
        (u[i] == a && u[j] == b) || (u[i] == b && u[j] == a),
    ensures
        pair_from(u, i, j, a, b),
        !pair_done(u, i, a, b),
        !pair_at(u, i, j, a, b),
{
    assert(pair_from(u, i, j, a, b));
    if pair_done(u, i, a, b) {
        let (p, q) = choose|p: int, q: int| #[trigger] pair_from(u, p, q, a, b) && p < i;
        lemma_pair_unique(u, p, q, i, j, a, b);
    }
    if pair_at(u, i, j, a, b) {
        let q = choose|q: int| #[trigger] pair_from(u, i, q, a, b) && q < j;
        lemma_pair_unique(u, i, q, i, j, a, b);
    }
}

proof fn lemma_pair_at_step(u: Seq<u64>, i: int, j: int, p: u64, q: u64, a: u64, b: u64)
    requires
        u.no_duplicates(),
        0 <= i < j < u.len(),
        a < b,
        p < q,
        (u[i] == a && u[j] == b) || (u[i] == b && u[j] == a),
    ensures
        (pair_done(u, i, p, q) || pair_at(u, i, j + 1, p, q)) <==> (pair_done(u, i, p, q) || pair_at(u, i, j, p, q)
            || (p == a && q == b)),
{
    if pair_at(u, i, j + 1, p, q) {
        let k = choose|k: int| #[trigger] pair_from(u, i, k, p, q) && k < j + 1;
        if k == j {
            if u[i] == a {
                assert(u[i] == p || u[i] == q);
            }
        }
    }
    if p == a && q == b {
        assert(pair_from(u, i, j, p, q));
    }
    if pair_at(u, i, j, p, q) {
        let k = choose|k: int| #[trigger] pair_from(u, i, k, p, q) && k < j;
        assert(pair_from(u, i, k, p, q) && k < j + 1);
    }
}

proof fn lemma_pair_done_step(u: Seq<u64>, i: int, a: u64, b: u64)
    requires
        0 <= i < u.len(),
    ensures
        pair_done(u, i + 1, a, b) <==> (pair_done(u, i, a, b) || pair_at(u, i, u.len() as int, a, b)),
{
    if pair_done(u, i + 1, a, b) {
        let (p, q) = choose|p: int, q: int| #[trigger] pair_from(u, p, q, a, b) && p < i + 1;
        if p == i {
            assert(pair_from(u, i, q, a, b) && q < u.len());
        } else {
            assert(pair_from(u, p, q, a, b) && p < i);
        }
    }
    if pair_done(u, i, a, b) {
        let (p, q) = choose|p: int, q: int| #[trigger] pair_from(u, p, q, a, b) && p < i;
        assert(pair_from(u, p, q, a, b) && p < i + 1);
    }
    if pair_at(u, i, u.len() as int, a, b) {
        let q = choose|q: int| #[trigger] pair_from(u, i, q, a, b) && q < u.len();
        assert(pair_from(u, i, q, a, b) && i < i + 1);
    }
}

proof fn lemma_pair_done_all(u: Seq<u64>, a: u64, b: u64)
    requires
        paired_in(u, a, b),
    ensures
        pair_done(u, u.len() as int, a, b),
{
    let p = choose|p: int| 0 <= p < u.len() && u[p] == a;
    let q = choose|q: int| 0 <= q < u.len() && u[q] == b;
    if p < q {
        assert(pair_from(u, p, q, a, b));
    } else {
        assert(p != q);
        assert(pair_from(u, q, p, a, b));
    }
}

proof fn lemma_first_occurrences_prefix(s: Seq<u64>, i: int)
    requires
        0 <= i <= s.len(),
    ensures
        first_occurrences(s.subrange(0, i)).len() <= first_occurrences(s).len(),
        first_occurrences(s.subrange(0, i)).len() >= 20 ==> first_occurrences(s).take(20) == first_occurrences(
            s.subrange(0, i),
        ).take(20),
        first_occurrences(s).len() <= 20 ==> i == s.len() ==> first_occurrences(s.subrange(0, i)) == first_occurrences(s),
    decreases s.len() - i,
{
    if i == s.len() {
        assert(s.subrange(0, i) =~= s);
    } else {
        lemma_first_occurrences_prefix(s, i + 1);
        let t = s.subrange(0, i + 1);
        assert(t.drop_last() =~= s.subrange(0, i));
        let d0 = first_occurrences(s.subrange(0, i));
        let d1 = first_occurrences(t);
        if d0.len() >= 20 {
            assert(d1.take(20) =~= d0.take(20));
        }
    }
}


// ── Ranking by count ─────────────────────────────────────────────────────────

/// Sorted by count, largest first.
pub open spec fn count_desc(s: Seq<(u64, u32)>) -> bool {
    forall|i: int, j: int| 0 <= i < j < s.len() ==> (#[trigger] s[i]).1 >= (#[trigger] s[j]).1
}

/// What ranking keeps: the first `limit` of an ordering.
pub open spec fn first_n<T>(p: Seq<T>, limit: usize) -> Seq<T> {
    if limit < p.len() {
        p.take(limit as int)
    } else {
        p
    }
}

/// Stable insertion sort by count, largest first.
/// How often a pair was opened together, the key partners are ranked by.
pub open spec fn partner_key() -> spec_fn((u64, u32)) -> int {
    |p: (u64, u32)| p.1 as int
}

fn sort_by_count_desc(v: Vec<(u64, u32)>) -> (r: Vec<(u64, u32)>)
    ensures
        count_desc(r@),
        r@.to_multiset() == v@.to_multiset(),
        r@ == sorted_desc(v@, partner_key()),
{
    broadcast use vstd::seq_lib::group_to_multiset_ensures;
    let mut r: Vec<(u64, u32)> = Vec::new();
    let mut i: usize = 0;
    while i < v.len()
        invariant
            i <= v@.len(),
            count_desc(r@),
            r@.to_multiset() == v@.subrange(0, i as int).to_multiset(),
            r@ == sorted_desc(v@.subrange(0, i as int), partner_key()),
        decreases v@.len() - i,
    {
        let e = v[i];
        let mut pos: usize = r.len();
        while pos > 0 && r[pos - 1].1 < e.1
            invariant
                pos <= r@.len(),
                count_desc(r@),
                r@.to_multiset() == v@.subrange(0, i as int).to_multiset(),
                r@ == sorted_desc(v@.subrange(0, i as int), partner_key()),
                forall|k: int| pos <= k < r@.len() ==> (#[trigger] r@[k]).1 < e.1,
            decreases pos,
        {
            pos = pos - 1;
        }
        let ghost old_r = r@;
        r.insert(pos, e);
        proof {
            let d = r@;
            assert forall|a: int, b: int| 0 <= a < b < d.len() implies (#[trigger] d[a]).1 >= (#[trigger] d[b]).1 by {
                if a < pos && b > pos {
                    assert(d[a] == old_r[a] && d[b] == old_r[b - 1]);
                } else if a < pos && b == pos {
                    assert(d[a] == old_r[a]);
                    if a < pos - 1 {
                        assert(old_r[a].1 >= old_r[pos - 1].1);
                    }
                } else if a == pos {
                    assert(d[b] == old_r[b - 1]);
                } else if a > pos {
                    assert(d[a] == old_r[a - 1] && d[b] == old_r[b - 1]);
                } else {
                    assert(d[a] == old_r[a] && d[b] == old_r[b]);
                }
            }
            assert(d.remove(pos as int) =~= old_r);
            vstd::seq_lib::to_multiset_remove(d, pos as int);
            vstd::seq_lib::to_multiset_contains(d, e);
            assert(d[pos as int] == e);
            assert(d.contains(e));
            assert(d.to_multiset() =~= old_r.to_multiset().insert(e));
            assert(v@.subrange(0, i + 1) =~= v@.subrange(0, i as int).push(e));
            vstd::seq_lib::to_multiset_build(v@.subrange(0, i as int), e);
            lemma_insert_desc(old_r, e, partner_key(), pos as int);
            assert(v@.subrange(0, i + 1).drop_last() =~= v@.subrange(0, i as int));
        }
        i = i + 1;
    }
    assert(v@.subrange(0, v@.len() as int) =~= v@);
    r
}

/// Keep the first `limit` entries.
fn keep_first(v: Vec<(u64, u32)>, limit: usize) -> (r: Vec<(u64, u32)>)
    ensures
        r@ == first_n(v@, limit),
{
    let mut out: Vec<(u64, u32)> = Vec::new();
    let mut t: usize = 0;
    while t < v.len() && t < limit
        invariant
            t <= v@.len(),
            t <= limit,
            out@ == v@.take(t as int),
        decreases v@.len() - t,
    {
        out.push(v[t]);
        t = t + 1;
        assert(out@ =~= v@.take(t as int));
    }
    if limit >= v.len() {
        assert(v@.take(v@.len() as int) =~= v@);
    }
    out
}

/// The partners of `ino` found along `keys`, with their counts.
pub open spec fn partners_along(m: Map<u128, u32>, keys: Seq<u128>, ino: u64) -> Seq<(u64, u32)>
    decreases keys.len(),
{
    if keys.len() == 0 {
        Seq::empty()
    } else {
        let rest = partners_along(m, keys.drop_last(), ino);
        let (a, b) = key_pair(keys.last());
        if a == ino {
            rest.push((b, m[keys.last()]))
        } else if b == ino {
            rest.push((a, m[keys.last()]))
        } else {
            rest
        }
    }
}

/// The keys of a pair map in walk order.
pub open spec fn pair_walk(m: &HashMap<u128, u32>) -> Seq<u128> {
    vstd::std_specs::hash::into_iter_keys(vstd::std_specs::hash::spec_keys_iter(m))
}

pub(crate) fn pair_keys(m: &HashMap<u128, u32>) -> (r: Vec<u128>)
    ensures
        r@ == pair_walk(m),
        r@.to_set() == m@.dom(),
        r@.no_duplicates(),
{
    let mut out: Vec<u128> = Vec::new();
    for k in it: m.keys()
        invariant
            out@ == it.seq().take(it.index() as int).map_values(|k: &u128| *k),
    {
        out.push(*k);
        proof {
            assert(out@ =~= it.seq().take(it.index() + 1).map_values(|k: &u128| *k));
        }
    }
    assert(out@ =~= pair_walk(m));
    out
}

impl CoAccessMap {
    /// Partners of `ino` with how often they were opened together, most
    /// frequent first, at most `limit` of them.
    pub fn top_partners(&self, ino: u64, limit: usize) -> (r: Vec<(u64, u32)>)
        ensures
            exists|p: Seq<(u64, u32)>| #[trigger] count_desc(p)
                && p.to_multiset() == partners_along(self.pairs@, pair_walk(&self.pairs), ino).to_multiset()
                && r@ == first_n(p, limit),
            r@ == first_n(sorted_desc(partners_along(self.pairs@, pair_walk(&self.pairs), ino), partner_key()), limit),
    {
        let keys = pair_keys(&self.pairs);
        let ghost m = self.pairs@;
        let mut found: Vec<(u64, u32)> = Vec::new();
        let mut i: usize = 0;
        while i < keys.len()
            invariant
                i <= keys@.len(),
                keys@ == pair_walk(&self.pairs),
                keys@.to_set() == m.dom(),
                m == self.pairs@,
                found@ == partners_along(m, keys@.subrange(0, i as int), ino),
            decreases keys@.len() - i,
        {
            let k = keys[i];
            proof {
                assert(keys@.to_set().contains(k));
                assert(keys@.subrange(0, i + 1).drop_last() =~= keys@.subrange(0, i as int));
            }
            let (a, b) = split_pair_key(k);
            let count = *self.pairs.get(&k).unwrap();
            if a == ino {
                found.push((b, count));
            } else if b == ino {
                found.push((a, count));
            }
            i = i + 1;
        }
        assert(keys@.subrange(0, keys@.len() as int) =~= keys@);
        let sorted = sort_by_count_desc(found);
        let ghost p = sorted@;
        let r = keep_first(sorted, limit);
        assert(count_desc(p));
        r
    }
}


// ── Trends ───────────────────────────────────────────────────────────────────

/// Days in the trend window: the last 7 days against the 7 before.
pub const TREND_DAYS: usize = 14;

/// Days the window moves when the day changes from `last` to `today`.
pub open spec fn advance_for(last: u64, today: u64) -> int {
    if today > last {
        if today - last < 14 { (today - last) as int } else { 14 }
    } else {
        0
    }
}

/// A window moved forward by `adv` days: counts move toward the start and
/// zeros enter at the end.
pub open spec fn shifted(c: Seq<u32>, adv: int) -> Seq<u32> {
    Seq::new(14, |i: int| if i + adv < 14 { c[i + adv] } else { 0u32 })
}

/// Sum of `c[lo..hi]`.
pub open spec fn window_sum(c: Seq<u32>, lo: int, hi: int) -> int
    decreases hi - lo,
{
    if hi <= lo {
        0
    } else {
        window_sum(c, lo, hi - 1) + c[hi - 1]
    }
}

/// The trend of a 14-day window: the last 7 days against the 7 before.
pub open spec fn trend_of(c: Seq<u32>) -> Trend {
    let recent = window_sum(c, 7, 14);
    let prior = window_sum(c, 0, 7);
    if prior == 0 && recent > 2 {
        Trend::New
    } else if prior == 0 {
        Trend::Stable
    } else if recent >= 2 * prior {
        Trend::Rising
    } else if 2 * recent <= prior {
        Trend::Falling
    } else {
        Trend::Stable
    }
}

/// Both weekly sums of a window fit in a u32.
pub open spec fn sums_fit(c: Seq<u32>) -> bool {
    window_sum(c, 7, 14) <= u32::MAX && window_sum(c, 0, 7) <= u32::MAX
}

proof fn lemma_window_sum_mono(c: Seq<u32>, lo: int, mid: int, hi: int)
    requires
        lo <= mid <= hi,
    ensures
        window_sum(c, lo, mid) <= window_sum(c, lo, hi),
        window_sum(c, lo, mid) >= 0,
    decreases hi - mid,
{
    if mid < hi {
        lemma_window_sum_mono(c, lo, mid, hi - 1);
    }
    lemma_window_sum_nonneg(c, lo, mid);
}

proof fn lemma_window_sum_nonneg(c: Seq<u32>, lo: int, hi: int)
    ensures
        window_sum(c, lo, hi) >= 0,
    decreases hi - lo,
{
    if hi > lo {
        lemma_window_sum_nonneg(c, lo, hi - 1);
    }
}

fn sum_range(c: &[u32; 14], lo: usize, hi: usize) -> (r: u32)
    requires
        lo <= hi <= 14,
        window_sum(c@, lo as int, hi as int) <= u32::MAX,
    ensures
        r == window_sum(c@, lo as int, hi as int),
{
    let mut total: u32 = 0;
    let mut i: usize = lo;
    while i < hi
        invariant
            lo <= i <= hi <= 14,
            window_sum(c@, lo as int, hi as int) <= u32::MAX,
            total == window_sum(c@, lo as int, i as int),
        decreases hi - i,
    {
        proof {
            lemma_window_sum_mono(c@, lo as int, i + 1, hi as int);
        }
        total = total + c[i];
        i = i + 1;
    }
    total
}

fn shift_window(c: &[u32; 14], adv: usize) -> (r: [u32; 14])
    requires
        adv <= 14,
    ensures
        r@ == shifted(c@, adv as int),
{
    let mut out = [0u32; 14];
    let mut i: usize = 0;
    while i < 14
        invariant
            i <= 14,
            adv <= 14,
            out@.len() == 14,
            forall|j: int| 0 <= j < i ==> out@[j] == shifted(c@, adv as int)[j],
            forall|j: int| i <= j < 14 ==> out@[j] == 0,
        decreases 14 - i,
    {
        if i + adv < 14 {
            out[i] = c[i + adv];
        }
        i = i + 1;
    }
    assert(out@ =~= shifted(c@, adv as int));
    out
}

/// Counting an access to `ino` at `now` overflows nothing.
pub open spec fn trend_room(m: Map<u64, [u32; 14]>, last: u64, ino: u64, now: u64) -> bool {
    advance_for(last, now / 86400) == 0 && m.contains_key(ino) ==> m[ino]@[13] < u32::MAX
}

/// Windows `m2` (moved to day `last2`) are windows `m` (at day `last`)
/// after an access to `ino` at `now`: every window moves forward to the
/// new day, then today's count of `ino` goes up by one.
pub open spec fn windows_recorded(m: Map<u64, [u32; 14]>, last: u64, m2: Map<u64, [u32; 14]>, last2: u64, ino: u64, now: u64) -> bool {
    let adv = advance_for(last, now / 86400);
    let base = if m.contains_key(ino) {
        shifted(m[ino]@, adv)
    } else {
        Seq::new(14, |i: int| 0u32)
    };
    &&& last2 == (if now / 86400 > last { now / 86400 } else { last })
    &&& m2.dom() == m.dom().insert(ino)
    &&& forall|k: u64| k != ino && #[trigger] m.contains_key(k) ==> m2[k]@ == shifted(m[k]@, adv)
    &&& m2[ino]@ == base.update(13, (base[13] + 1) as u32)
}

/// Rolling 14-day access counts per file.
#[derive(Debug, Clone)]
pub struct TrendTracker {
    /// ino → accesses per day, index 0 = 13 days ago, 13 = today.
    pub daily: HashMap<u64, [u32; 14]>,
    /// The day (since the epoch) the window was last moved to.
    last_day: u64,
}

/// Sorted by recent accesses, largest first.
pub open spec fn recent_desc(s: Seq<(u64, Trend, u32)>) -> bool {
    forall|i: int, j: int| 0 <= i < j < s.len() ==> (#[trigger] s[i]).2 >= (#[trigger] s[j]).2
}

/// The rising or new files found along `keys`, with their trend and
/// accesses in the last 7 days.
pub open spec fn trending_along(m: Map<u64, [u32; 14]>, keys: Seq<u64>) -> Seq<(u64, Trend, u32)>
    decreases keys.len(),
{
    if keys.len() == 0 {
        Seq::empty()
    } else {
        let rest = trending_along(m, keys.drop_last());
        let k = keys.last();
        let t = trend_of(m[k]@);
        if t == Trend::Rising || t == Trend::New {
            rest.push((k, t, window_sum(m[k]@, 7, 14) as u32))
        } else {
            rest
        }
    }
}

/// Recent accesses, the key trending files are ordered by.
pub open spec fn recent_key() -> spec_fn((u64, Trend, u32)) -> int {
    |t: (u64, Trend, u32)| t.2 as int
}

fn sort_by_recent_desc(v: Vec<(u64, Trend, u32)>) -> (r: Vec<(u64, Trend, u32)>)
    ensures
        recent_desc(r@),
        r@.to_multiset() == v@.to_multiset(),
        r@ == sorted_desc(v@, recent_key()),
{
    broadcast use vstd::seq_lib::group_to_multiset_ensures;
    let mut r: Vec<(u64, Trend, u32)> = Vec::new();
    let mut i: usize = 0;
    while i < v.len()
        invariant
            i <= v@.len(),
            recent_desc(r@),
            r@.to_multiset() == v@.subrange(0, i as int).to_multiset(),
            r@ == sorted_desc(v@.subrange(0, i as int), recent_key()),
        decreases v@.len() - i,
    {
        let e = v[i];
        let mut pos: usize = r.len();
        while pos > 0 && r[pos - 1].2 < e.2
            invariant
                pos <= r@.len(),
                recent_desc(r@),
                r@.to_multiset() == v@.subrange(0, i as int).to_multiset(),
                r@ == sorted_desc(v@.subrange(0, i as int), recent_key()),
                forall|k: int| pos <= k < r@.len() ==> (#[trigger] r@[k]).2 < e.2,
            decreases pos,
        {
            pos = pos - 1;
        }
        let ghost old_r = r@;
        r.insert(pos, e);
        proof {
            let d = r@;
            assert forall|a: int, b: int| 0 <= a < b < d.len() implies (#[trigger] d[a]).2 >= (#[trigger] d[b]).2 by {
                if a < pos && b > pos {
                    assert(d[a] == old_r[a] && d[b] == old_r[b - 1]);
                } else if a < pos && b == pos {
                    assert(d[a] == old_r[a]);
                    if a < pos - 1 {
                        assert(old_r[a].2 >= old_r[pos - 1].2);
                    }
                } else if a == pos {
                    assert(d[b] == old_r[b - 1]);
                } else if a > pos {
                    assert(d[a] == old_r[a - 1] && d[b] == old_r[b - 1]);
                } else {
                    assert(d[a] == old_r[a] && d[b] == old_r[b]);
                }
            }
            assert(d.remove(pos as int) =~= old_r);
            vstd::seq_lib::to_multiset_remove(d, pos as int);
            vstd::seq_lib::to_multiset_contains(d, e);
            assert(d[pos as int] == e);
            assert(d.contains(e));
            assert(d.to_multiset() =~= old_r.to_multiset().insert(e));
            assert(v@.subrange(0, i + 1) =~= v@.subrange(0, i as int).push(e));
            vstd::seq_lib::to_multiset_build(v@.subrange(0, i as int), e);
            lemma_insert_desc(old_r, e, recent_key(), pos as int);
            assert(v@.subrange(0, i + 1).drop_last() =~= v@.subrange(0, i as int));
        }
        i = i + 1;
    }
    assert(v@.subrange(0, v@.len() as int) =~= v@);
    r
}

impl TrendTracker {
    /// The day the window was last moved to.
    pub closed spec fn last(&self) -> u64 {
        self.last_day
    }

    /// Windows by inode.
    pub closed spec fn windows(&self) -> Map<u64, [u32; 14]> {
        self.daily@
    }

    /// Inodes in the order the tracker walks them.
    pub closed spec fn walk(&self) -> Seq<u64> {
        walk_order(&self.daily)
    }

    /// A tracker holding `daily`, its window ending on day `last_day`.
    pub fn from_parts(daily: HashMap<u64, [u32; 14]>, last_day: u64) -> (r: Self)
        ensures
            r.windows() == daily@,
            r.last() == last_day,
            r.walk() == walk_order(&daily),
    {
        Self { daily, last_day }
    }

    /// The windows by inode.
    pub fn daily_map(&self) -> (r: &HashMap<u64, [u32; 14]>)
        ensures
            r@ == self.windows(),
            walk_order(r) == self.walk(),
    {
        &self.daily
    }

    /// The day the window was last moved to.
    pub fn last_day(&self) -> (r: u64)
        ensures
            r == self.last(),
    {
        self.last_day
    }

    /// An empty tracker whose window ends on the day of `now`.
    pub fn new_at(now: u64) -> (r: Self)
        ensures
            r.windows() == Map::<u64, [u32; 14]>::empty(),
            r.last() == now / 86400,
    {
        Self { daily: HashMap::new(), last_day: now / 86400 }
    }

    /// An empty tracker whose window ends today.
    pub fn new() -> (r: Self)
        ensures
            r.windows() == Map::<u64, [u32; 14]>::empty(),
    {
        Self::new_at(unix_now_secs())
    }

    /// Count an access to `ino` at time `now`, first moving every window
    /// forward when a new day has started.
    pub fn record_at(&mut self, ino: u64, now: u64)
        requires
            trend_room(old(self).windows(), old(self).last(), ino, now),
        ensures
            windows_recorded(old(self).windows(), old(self).last(), final(self).windows(), final(self).last(), ino, now),
    {
        let today = now / 86400;
        let ghost adv = advance_for(self.last_day, today);
        let ghost start = self.windows();
        if today > self.last_day {
            let advance: usize = if today - self.last_day < 14 { (today - self.last_day) as usize } else { 14 };
            let keys = keys_in_walk_order(&self.daily);
            let mut i: usize = 0;
            while i < keys.len()
                invariant
                    i <= keys@.len(),
                    keys@.to_set() == start.dom(),
                    keys@.no_duplicates(),
                    advance == adv,
                    adv <= 14,
                    self.windows().dom() == start.dom(),
                    forall|k: u64| #[trigger] start.contains_key(k) ==> (if keys@.subrange(0, i as int).contains(k) {
                        self.windows()[k]@ == shifted(start[k]@, adv)
                    } else {
                        self.windows()[k] == start[k]
                    }),
                decreases keys@.len() - i,
            {
                let k = keys[i];
                proof {
                    assert(keys@.to_set().contains(k));
                    crate::walk::lemma_prefix_set_step(keys@, i as int);
                    assert(!keys@.subrange(0, i as int).contains(k)) by {
                        if keys@.subrange(0, i as int).contains(k) {
                            let j = choose|j: int| 0 <= j < i && keys@.subrange(0, i as int)[j] == k;
                            assert(keys@[j] == keys@[i as int]);
                        }
                    }
                }
                let c = *self.daily.get(&k).unwrap();
                let moved = shift_window(&c, advance);
                self.daily.insert(k, moved);
                proof {
                    assert forall|q: u64| #[trigger] start.contains_key(q) implies (if keys@.subrange(0, i + 1).contains(q) {
                        self.windows()[q]@ == shifted(start[q]@, adv)
                    } else {
                        self.windows()[q] == start[q]
                    }) by {
                        assert(keys@.subrange(0, i + 1).to_set().contains(q) == keys@.subrange(0, i + 1).contains(q));
                        assert(keys@.subrange(0, i as int).to_set().contains(q) == keys@.subrange(0, i as int).contains(q));
                    }
                    assert(self.windows().dom() =~= start.dom());
                }
                i = i + 1;
            }
            proof {
                assert(keys@.subrange(0, keys@.len() as int) =~= keys@);
                assert forall|k: u64| #[trigger] start.contains_key(k) implies keys@.contains(k) by {
                    assert(keys@.to_set().contains(k));
                }
            }
            self.last_day = today;
        } else {
            proof {
                assert forall|k: u64| #[trigger] start.contains_key(k) implies self.windows()[k]@ == shifted(start[k]@, adv) by {
                    assert(self.windows()[k]@ =~= shifted(start[k]@, 0));
                }
            }
        }
        let mut c: [u32; 14] = match self.daily.get(&ino) {
            Some(c) => *c,
            None => [0u32; 14],
        };
        proof {
            if adv > 0 && start.contains_key(ino) {
                assert(c@[13] == 0);
            }
            if !start.contains_key(ino) {
                assert(c@ =~= Seq::new(14, |i: int| 0u32));
            }
        }
        c[13] = c[13] + 1;
        self.daily.insert(ino, c);
    }

    /// Count an access to `ino` now.
    pub fn record(&mut self, ino: u64)
        requires
            forall|k: u64| #[trigger] old(self).windows().contains_key(k) ==> old(self).windows()[k]@[13] < u32::MAX,
        ensures
            final(self).windows().dom() == old(self).windows().dom().insert(ino),
    {
        self.record_at(ino, unix_now_secs());
    }

    /// Is this file trending? Compares the last 7 days to the 7 before.
    pub fn trend(&self, ino: u64) -> (r: Trend)
        requires
            self.windows().contains_key(ino) ==> sums_fit(self.windows()[ino]@),
        ensures
            r == (if self.windows().contains_key(ino) { trend_of(self.windows()[ino]@) } else { Trend::Stable }),
    {
        let counts = match self.daily.get(&ino) {
            Some(c) => c,
            None => {
                return Trend::Stable;
            },
        };
        let recent = sum_range(counts, 7, 14);
        let prior = sum_range(counts, 0, 7);
        if prior == 0 && recent > 2 {
            return Trend::New;
        }
        if prior == 0 {
            return Trend::Stable;
        }
        if recent as u64 >= 2 * (prior as u64) {
            Trend::Rising
        } else if 2 * (recent as u64) <= prior as u64 {
            Trend::Falling
        } else {
            Trend::Stable
        }
    }

    /// Files with a Rising or New trend, most accesses in the last 7 days
    /// first.
    pub fn trending_files(&self) -> (r: Vec<(u64, Trend, u32)>)
        requires
            forall|k: u64| #[trigger] self.windows().contains_key(k) ==> sums_fit(self.windows()[k]@),
        ensures
            exists|p: Seq<(u64, Trend, u32)>| #[trigger] recent_desc(p)
                && p.to_multiset() == trending_along(self.windows(), self.walk()).to_multiset()
                && r@ == p,
            r@ == sorted_desc(trending_along(self.windows(), self.walk()), recent_key()),
    {
        let keys = keys_in_walk_order(&self.daily);
        let ghost m = self.windows();
        let mut found: Vec<(u64, Trend, u32)> = Vec::new();
        let mut i: usize = 0;
        while i < keys.len()
            invariant
                i <= keys@.len(),
                keys@ == self.walk(),
                keys@.to_set() == m.dom(),
                m == self.windows(),
                forall|k: u64| #[trigger] m.contains_key(k) ==> sums_fit(m[k]@),
                found@ == trending_along(m, keys@.subrange(0, i as int)),
            decreases keys@.len() - i,
        {
            let k = keys[i];
            proof {
                assert(keys@.to_set().contains(k));
                assert(keys@.subrange(0, i + 1).drop_last() =~= keys@.subrange(0, i as int));
            }
            let t = self.trend(k);
            if t == Trend::Rising || t == Trend::New {
                let counts = self.daily.get(&k).unwrap();
                let recent = sum_range(counts, 7, 14);
                found.push((k, t, recent));
            }
            i = i + 1;
        }
        assert(keys@.subrange(0, keys@.len() as int) =~= keys@);
        sort_by_recent_desc(found)
    }
}


// ── Memory engine ────────────────────────────────────────────────────────────

/// Archived sessions kept at most.
pub const MAX_SESSIONS: usize = 500;

/// Whether a file list names `ino`.
pub open spec fn lists_ino(files: Seq<(u64, String)>, ino: u64) -> bool {
    exists|i: int| 0 <= i < files.len() && (#[trigger] files[i]).0 == ino
}

/// The archive after adding a session: the oldest leaves past the limit.
pub open spec fn archived(s: Seq<Session>, last: Session) -> Seq<Session> {
    if s.len() + 1 > MAX_SESSIONS {
        s.push(last).drop_first()
    } else {
        s.push(last)
    }
}

/// The texts of some strings.
pub open spec fn texts(s: Seq<String>) -> Seq<Seq<char>> {
    s.map_values(|x: String| x@)
}

/// Names of the entries of `ps` whose inode has a name, in order.
pub open spec fn named(names: Map<u64, String>, ps: Seq<(u64, u32)>) -> Seq<Seq<char>>
    decreases ps.len(),
{
    if ps.len() == 0 {
        Seq::empty()
    } else if names.contains_key(ps.last().0) {
        named(names, ps.drop_last()).push(names[ps.last().0]@)
    } else {
        named(names, ps.drop_last())
    }
}

/// Status counters of the memory engine.
#[derive(Debug, Clone)]
pub struct MemoryStats {
    pub total_sessions: u64,
    pub current_session_files: usize,
    pub tracked_files: usize,
    pub active_streaks: usize,
    pub trending_count: usize,
    pub co_access_pairs: usize,
}

/// The cross-session memory: all long-term behavioural data.
pub struct MemoryEngine {
    /// Past sessions, at most `MAX_SESSIONS`.
    pub sessions: Vec<Session>,
    pub current_session: Session,
    /// ino → when it is used.
    pub temporal: HashMap<u64, TemporalPattern>,
    /// ino → daily streak.
    pub streaks: HashMap<u64, Streak>,
    pub co_access: CoAccessMap,
    pub trends: TrendTracker,
    /// ino → file name.
    pub names: HashMap<u64, String>,
    /// Sessions ever archived.
    pub total_sessions: u64,
    /// ino → how often it was opened in the current session.
    pub session_hits: HashMap<u64, u64>,
}

/// Number of streaks of at least two days along `keys`.
pub open spec fn active_along(m: Map<u64, Streak>, keys: Seq<u64>) -> nat
    decreases keys.len(),
{
    if keys.len() == 0 {
        0
    } else {
        active_along(m, keys.drop_last()) + if m[keys.last()].current_days >= 2 { 1nat } else { 0nat }
    }
}

/// How often `ino` was opened in the current session.
pub open spec fn hits_of(hits: Map<u64, u64>, ino: u64) -> nat {
    if hits.contains_key(ino) {
        hits[ino] as nat
    } else {
        0
    }
}

/// `ino` is the session's most-opened file: listed in its file list, no
/// listed file opened more often, and every file listed before it opened
/// less often (so of files opened equally often, the first listed).
pub open spec fn is_focus(files: Seq<(u64, String)>, hits: Map<u64, u64>, ino: u64) -> bool {
    exists|i: int|
        #![trigger files[i]]
        {
            &&& 0 <= i < files.len()
            &&& files[i].0 == ino
            &&& forall|j: int| 0 <= j < files.len() ==> hits_of(hits, (#[trigger] files[j]).0) <= hits_of(hits, ino)
            &&& forall|j: int| 0 <= j < i ==> hits_of(hits, (#[trigger] files[j]).0) < hits_of(hits, ino)
        }
}

/// The focus recorded for inode `ino`: its name when one is known.
pub open spec fn focus_named(focus: Option<String>, names: Map<u64, String>, ino: u64) -> bool {
    if names.contains_key(ino) {
        focus matches Some(f) && f@ == names[ino]@
    } else {
        focus is None
    }
}

/// `n` is memory `o` after closing its session at time `ts`.
pub open spec fn session_closed(o: MemoryEngine, n: MemoryEngine, ts: u64) -> bool {
    let last = n.sessions@.last();
    &&& n.total_sessions == o.total_sessions + 1
    &&& fresh_session(n.current_session, (ts + o.total_sessions + 1) as u64, ts)
    &&& n.sessions@.len() == archived(o.sessions@, o.current_session).len()
    &&& (o.sessions@.len() <= MAX_SESSIONS ==> n.sessions@.len() <= MAX_SESSIONS)
    &&& last.id == o.current_session.id
    &&& last.start_ts == o.current_session.start_ts
    &&& last.end_ts == ts
    &&& last.files_touched == o.current_session.files_touched
    &&& last.total_writes == o.current_session.total_writes
    &&& last.total_reads == o.current_session.total_reads
    &&& (o.current_session.files_touched@.len() == 0 ==> last.focus_file is None)
    &&& (o.current_session.files_touched@.len() > 0 ==> exists|ino: u64|
        #[trigger] is_focus(o.current_session.files_touched@, o.session_hits@, ino) && focus_named(last.focus_file, o.names@, ino))
    &&& n.session_hits@ == Map::<u64, u64>::empty()
    &&& n.sessions@.drop_last() == (if o.sessions@.len() + 1 > MAX_SESSIONS {
        o.sessions@.drop_first()
    } else {
        o.sessions@
    })
    &&& n.names == o.names
    &&& n.temporal == o.temporal
    &&& n.streaks == o.streaks
}

/// `n` is memory `o` after an access to `ino` named `name` at time `ts`.
pub open spec fn access_recorded(o: MemoryEngine, n: MemoryEngine, ino: u64, name: Seq<char>, ts: u64) -> bool {
    &&& (n.names@ == o.names@.insert(ino, n.names@[ino]))
    &&& (n.names@[ino]@ == name)
    &&& (lists_ino(o.current_session.files_touched@, ino) ==> n.current_session.files_touched@
                == o.current_session.files_touched@)
    &&& (!lists_ino(o.current_session.files_touched@, ino) ==> {
        let f = n.current_session.files_touched@;
        &&& f.len() == o.current_session.files_touched@.len() + 1
        &&& f.drop_last() == o.current_session.files_touched@
        &&& f.last().0 == ino
        &&& f.last().1@ == name
    })
    &&& (n.temporal@.dom() == o.temporal@.dom().insert(ino))
    &&& (forall|k: u64| k != ino && #[trigger] o.temporal@.contains_key(k) ==> n.temporal@[k] == o.temporal@[k])
    &&& (o.temporal@.contains_key(ino) ==> pattern_recorded(o.temporal@[ino], n.temporal@[ino], ts))
    &&& (!o.temporal@.contains_key(ino) ==> exists|p: TemporalPattern| #[trigger] pattern_empty(p)
                && pattern_recorded(p, n.temporal@[ino], ts))
    &&& (n.streaks@.dom() == o.streaks@.dom().insert(ino))
    &&& (forall|k: u64| k != ino && #[trigger] o.streaks@.contains_key(k) ==> n.streaks@[k] == o.streaks@[k])
    &&& (o.streaks@.contains_key(ino) ==> streak_touched(o.streaks@[ino], n.streaks@[ino], ts))
    &&& (!o.streaks@.contains_key(ino) ==> streak_touched(Streak { current_days: 0, longest_days: 0, last_touched_day: 0 }, n.streaks@[ino], ts))
    &&& (windows_recorded(o.trends.windows(), o.trends.last(), n.trends.windows(), n.trends.last(), ino, ts))
    &&& (n.sessions == o.sessions)
    &&& (n.co_access.pairs@ == o.co_access.pairs@)
    &&& (n.total_sessions == o.total_sessions)
    &&& (n.current_session.id == o.current_session.id)
    &&& (n.current_session.start_ts == o.current_session.start_ts)
    &&& (n.current_session.end_ts == o.current_session.end_ts)
    &&& (n.current_session.total_writes == o.current_session.total_writes)
    &&& (n.current_session.total_reads == o.current_session.total_reads)
    &&& (n.session_hits@ == o.session_hits@.insert(
        ino,
        if hits_of(o.session_hits@, ino) < u64::MAX {
            (hits_of(o.session_hits@, ino) + 1) as u64
        } else {
            u64::MAX
        },
    ))
}

impl MemoryEngine {
    /// A fresh memory at time `now`; the first session's id is `now`.
    pub fn new_at(now: u64) -> (r: Self)
        ensures
            r.sessions@.len() == 0,
            fresh_session(r.current_session, now, now),
            r.temporal@ == Map::<u64, TemporalPattern>::empty(),
            r.streaks@ == Map::<u64, Streak>::empty(),
            r.co_access.pairs@ == Map::<u128, u32>::empty(),
            r.trends.windows() == Map::<u64, [u32; 14]>::empty(),
            r.trends.last() == now / 86400,
            r.names@ == Map::<u64, String>::empty(),
            r.total_sessions == 0,
            r.session_hits@ == Map::<u64, u64>::empty(),
    {
        Self {
            sessions: Vec::new(),
            current_session: Session::new_at(now, now),
            temporal: HashMap::new(),
            streaks: HashMap::new(),
            co_access: CoAccessMap::new(),
            trends: TrendTracker::new_at(now),
            names: HashMap::new(),
            total_sessions: 0,
            session_hits: HashMap::new(),
        }
    }

    /// A fresh memory starting now.
    pub fn new() -> (r: Self)
        ensures
            r.sessions@.len() == 0,
            r.current_session.files_touched@.len() == 0,
            r.temporal@ == Map::<u64, TemporalPattern>::empty(),
            r.streaks@ == Map::<u64, Streak>::empty(),
            r.names@ == Map::<u64, String>::empty(),
            r.total_sessions == 0,
    {
        Self::new_at(unix_now_secs())
    }

    /// Record an access to `ino` named `name` at time `ts`: its name, its
    /// place in the session (once), its hour and weekday, its streak and
    /// today's trend count.
    pub fn record_access_at(&mut self, ino: u64, name: &str, ts: u64)
        requires
            old(self).temporal@.contains_key(ino) ==> pattern_room(old(self).temporal@[ino], ts),
            old(self).streaks@.contains_key(ino) ==> streak_room(old(self).streaks@[ino], ts),
            trend_room(old(self).trends.windows(), old(self).trends.last(), ino, ts),
        ensures
            access_recorded(*old(self), *final(self), ino, name@, ts),
    {
        let owned = name.to_string();
        self.names.insert(ino, owned);
        let mut listed = false;
        let mut i: usize = 0;
        while i < self.current_session.files_touched.len()
            invariant
                i <= self.current_session.files_touched@.len(),
                listed == exists|j: int| 0 <= j < i && (#[trigger] self.current_session.files_touched@[j]).0 == ino,
            decreases self.current_session.files_touched@.len() - i,
        {
            if self.current_session.files_touched[i].0 == ino {
                listed = true;
            }
            i = i + 1;
        }
        if !listed {
            self.current_session.files_touched.push((ino, name.to_string()));
            proof {
                assert(self.current_session.files_touched@.drop_last() =~= old(self).current_session.files_touched@);
            }
        }
        let mut pattern: TemporalPattern = match self.temporal.remove(&ino) {
            Some(p) => p,
            None => TemporalPattern::default(),
        };
        let ghost p0 = pattern;
        pattern.record(ts);
        self.temporal.insert(ino, pattern);
        let mut streak: Streak = match self.streaks.remove(&ino) {
            Some(st) => st,
            None => Streak::new(),
        };
        streak.touch(ts);
        self.streaks.insert(ino, streak);
        self.trends.record_at(ino, ts);
        let seen: u64 = match self.session_hits.get(&ino) {
            Some(c) => *c,
            None => 0,
        };
        let bumped = if seen < u64::MAX {
            seen + 1
        } else {
            seen
        };
        self.session_hits.insert(ino, bumped);
        proof {
            if !old(self).temporal@.contains_key(ino) {
                assert(pattern_empty(p0));
            }
            assert(self.temporal@.dom() =~= old(self).temporal@.dom().insert(ino));
            assert(self.streaks@.dom() =~= old(self).streaks@.dom().insert(ino));
            assert(self.names@ =~= old(self).names@.insert(ino, self.names@[ino]));
        }
    }

    /// Record an access to `ino` named `name` now: exactly what recording
    /// it at the time read from the clock does.
    pub fn record_access(&mut self, ino: u64, name: &str)
        requires
            old(self).temporal@.contains_key(ino) ==> old(self).temporal@[ino].total < u32::MAX
                && (forall|h: int| 0 <= h < 24 ==> old(self).temporal@[ino].by_hour@[h] < u32::MAX)
                && (forall|d: int| 0 <= d < 7 ==> old(self).temporal@[ino].by_day@[d] < u32::MAX),
            old(self).streaks@.contains_key(ino) ==> old(self).streaks@[ino].last_touched_day < u64::MAX
                && old(self).streaks@[ino].current_days < u32::MAX,
            old(self).trends.windows().contains_key(ino) ==> old(self).trends.windows()[ino]@[13] < u32::MAX,
        ensures
            exists|ts: u64| access_recorded(*old(self), *final(self), ino, name@, ts),
            final(self).names@[ino]@ == name@,
            final(self).temporal@.dom() == old(self).temporal@.dom().insert(ino),
            final(self).streaks@.dom() == old(self).streaks@.dom().insert(ino),
            lists_ino(final(self).current_session.files_touched@, ino),
    {
        let ts = unix_now_secs();
        proof {
            let h = hour_of(ts);
            let d = weekday_of(ts);
            assert(0 <= h < 24 && 0 <= d < 7);
        }
        self.record_access_at(ino, name, ts);
        proof {
            assert(access_recorded(*old(self), *self, ino, name@, ts));
            let f = self.current_session.files_touched@;
            if lists_ino(old(self).current_session.files_touched@, ino) {
                let i = choose|i: int| 0 <= i < old(self).current_session.files_touched@.len()
                    && (#[trigger] old(self).current_session.files_touched@[i]).0 == ino;
                assert(f[i].0 == ino);
            } else {
                assert(f.len() > 0);
                assert(f[f.len() - 1] == f.last());
                assert(f[f.len() - 1].0 == ino);
            }
        }
    }

    pub fn record_write(&mut self, _ino: u64)
        requires
            old(self).current_session.total_writes < u64::MAX,
        ensures
            final(self).current_session.total_writes == old(self).current_session.total_writes + 1,
            final(self).current_session.total_reads == old(self).current_session.total_reads,
            final(self).current_session.files_touched == old(self).current_session.files_touched,
            final(self).sessions == old(self).sessions,
            final(self).total_sessions == old(self).total_sessions,
    {
        self.current_session.total_writes = self.current_session.total_writes + 1;
    }

    pub fn record_read(&mut self, _ino: u64)
        requires
            old(self).current_session.total_reads < u64::MAX,
        ensures
            final(self).current_session.total_reads == old(self).current_session.total_reads + 1,
            final(self).current_session.total_writes == old(self).current_session.total_writes,
            final(self).current_session.files_touched == old(self).current_session.files_touched,
            final(self).sessions == old(self).sessions,
            final(self).total_sessions == old(self).total_sessions,
    {
        self.current_session.total_reads = self.current_session.total_reads + 1;
    }

    /// The most-opened file of a session's file list, the first listed of
    /// those opened equally often; `None` for an empty list.
    fn focus_ino(files: &Vec<(u64, String)>, hits: &HashMap<u64, u64>) -> (r: Option<u64>)
        ensures
            r is None <==> files@.len() == 0,
            r matches Some(ino) ==> is_focus(files@, hits@, ino),
    {
        if files.len() == 0 {
            return None;
        }
        let mut best_at: usize = 0;
        let mut best: u64 = match hits.get(&files[0].0) {
            Some(c) => *c,
            None => 0,
        };
        let mut i: usize = 1;
        while i < files.len()
            invariant
                1 <= i <= files@.len(),
                best_at < i,
                best == hits_of(hits@, files@[best_at as int].0),
                forall|j: int| 0 <= j < i ==> hits_of(hits@, (#[trigger] files@[j]).0) <= best,
                forall|j: int| 0 <= j < best_at ==> hits_of(hits@, (#[trigger] files@[j]).0) < best,
            decreases files@.len() - i,
        {
            let c: u64 = match hits.get(&files[i].0) {
                Some(c) => *c,
                None => 0,
            };
            if c > best {
                best = c;
                best_at = i;
            }
            i = i + 1;
        }
        let ino = files[best_at].0;
        proof {
            assert(files@[best_at as int].0 == ino);
        }
        Some(ino)
    }

    /// Close the current session at time `ts`: it ends, gets its focus file
    /// (the file opened most often in it, the first listed of equals, by
    /// its name) and co-access pairs, the per-session open counts restart, joins the archive (the oldest leaving past
    /// `MAX_SESSIONS`), and a new session starts.
    pub fn close_session_at(&mut self, ts: u64)
        requires
            old(self).current_session.files_touched@.len() >= 2 ==> forall|a: u64, b: u64| #[trigger] paired_in(
                session_members(old(self).current_session.files_touched@),
                a,
                b,
            ) && old(self).co_access.pairs@.contains_key(pair_key(a, b)) ==> old(self).co_access.pairs@[pair_key(a, b)]
                < u32::MAX,
            old(self).total_sessions < u64::MAX,
            ts + old(self).total_sessions + 1 <= u64::MAX,
        ensures
            session_closed(*old(self), *final(self), ts),
    {
        self.current_session.end_ts = ts;
        let focus = Self::focus_ino(&self.current_session.files_touched, &self.session_hits);
        self.current_session.focus_file = match focus {
            Some(ino) => match self.names.get(&ino) {
                Some(n) => Some(n.clone()),
                None => None,
            },
            None => None,
        };
        proof {
            if focus is Some {
                let ino = focus.unwrap();
                assert(is_focus(old(self).current_session.files_touched@, old(self).session_hits@, ino));
                assert(focus_named(self.current_session.focus_file, old(self).names@, ino));
            }
        }
        self.co_access.record_session(self.current_session.files_touched.as_slice());
        self.session_hits = HashMap::new();
        self.total_sessions = self.total_sessions + 1;
        let new_id = ts + self.total_sessions;
        let mut finished = Session::new_at(new_id, ts);
        std::mem::swap(&mut self.current_session, &mut finished);
        let ghost before = self.sessions@;
        self.sessions.push(finished);
        if self.sessions.len() > MAX_SESSIONS {
            self.sessions.remove(0);
        }
        proof {
            if before.len() + 1 > MAX_SESSIONS {
                assert(self.sessions@ =~= before.push(finished).drop_first());
                assert(self.sessions@.drop_last() =~= before.drop_first());
            } else {
                assert(self.sessions@.drop_last() =~= before);
            }
        }
    }

    /// Close the current session now: exactly what closing it at the time
    /// read from the clock does; a clock so late that the next session's
    /// number (the time plus the session count) would not fit a `u64` is
    /// taken as the latest time at which it fits.
    pub fn close_session(&mut self)
        requires
            old(self).current_session.files_touched@.len() >= 2 ==> forall|a: u64, b: u64| #[trigger] paired_in(
                session_members(old(self).current_session.files_touched@),
                a,
                b,
            ) && old(self).co_access.pairs@.contains_key(pair_key(a, b)) ==> old(self).co_access.pairs@[pair_key(a, b)]
                < u32::MAX,
            old(self).total_sessions < u64::MAX,
        ensures
            exists|ts: u64| ts + old(self).total_sessions + 1 <= u64::MAX && session_closed(*old(self), *final(self), ts),
            final(self).total_sessions == old(self).total_sessions + 1,
            final(self).current_session.files_touched@.len() == 0,
            final(self).sessions@.len() == archived(old(self).sessions@, old(self).current_session).len(),
    {
        let now = unix_now_secs();
        let latest = u64::MAX - self.total_sessions - 1;
        let ts = if now > latest {
            latest
        } else {
            now
        };
        self.close_session_at(ts);
        assert(session_closed(*old(self), *self, ts));
    }

    /// Names of the files most often opened with `ino`, at most `limit`,
    /// most frequent first; partners without a known name are skipped.
    pub fn top_cofiles(&self, ino: u64, limit: usize) -> (r: Vec<String>)
        ensures
            exists|p: Seq<(u64, u32)>| #[trigger] count_desc(p)
                && p.to_multiset() == partners_along(self.co_access.pairs@, pair_walk(&self.co_access.pairs), ino).to_multiset()
                && texts(r@) == named(self.names@, first_n(p, limit)),
            texts(r@) == named(
                self.names@,
                first_n(sorted_desc(partners_along(self.co_access.pairs@, pair_walk(&self.co_access.pairs), ino), partner_key()), limit),
            ),
    {
        let partners = self.co_access.top_partners(ino, limit);
        let mut out: Vec<String> = Vec::new();
        let mut i: usize = 0;
        while i < partners.len()
            invariant
                i <= partners@.len(),
                texts(out@) == named(self.names@, partners@.take(i as int)),
            decreases partners@.len() - i,
        {
            let p = partners[i].0;
            proof {
                assert(partners@.take(i + 1).drop_last() =~= partners@.take(i as int));
                assert(partners@.take(i + 1).last() == partners@[i as int]);
            }
            match self.names.get(&p) {
                Some(n) => {
                    let copy = n.clone();
                    out.push(copy);
                    proof {
                        assert(texts(out@) =~= named(self.names@, partners@.take(i as int)).push(copy@));
                    }
                },
                None => {},
            }
            i = i + 1;
        }
        proof {
            assert(partners@.take(partners@.len() as int) =~= partners@);
            let p = choose|p: Seq<(u64, u32)>| #[trigger] count_desc(p)
                && p.to_multiset() == partners_along(self.co_access.pairs@, pair_walk(&self.co_access.pairs), ino).to_multiset()
                && partners@ == first_n(p, limit);
            assert(count_desc(p));
        }
        out
    }

    /// Current streak for a file (0 when it has none).
    pub fn streak(&self, ino: u64) -> (r: u32)
        ensures
            r == (if self.streaks@.contains_key(ino) { self.streaks@[ino].current_days } else { 0 }),
    {
        match self.streaks.get(&ino) {
            Some(s) => s.current_days,
            None => 0,
        }
    }

    /// Counters for status reporting.
    pub fn stats(&self) -> (r: MemoryStats)
        requires
            self.total_sessions < u64::MAX,
            forall|k: u64| #[trigger] self.trends.windows().contains_key(k) ==> sums_fit(self.trends.windows()[k]@),
        ensures
            r.total_sessions == self.total_sessions + 1,
            r.current_session_files == self.current_session.files_touched@.len(),
            r.tracked_files == self.temporal@.dom().len(),
            r.active_streaks == active_along(self.streaks@, walk_order(&self.streaks)),
            r.trending_count == trending_along(self.trends.windows(), self.trends.walk()).len(),
            r.co_access_pairs == self.co_access.pairs@.dom().len(),
    {
        let keys = keys_in_walk_order(&self.streaks);
        let ghost m = self.streaks@;
        let mut active: usize = 0;
        let mut i: usize = 0;
        while i < keys.len()
            invariant
                i <= keys@.len(),
                keys@ == walk_order(&self.streaks),
                keys@.to_set() == m.dom(),
                m == self.streaks@,
                active == active_along(m, keys@.subrange(0, i as int)),
                active <= i,
            decreases keys@.len() - i,
        {
            let k = keys[i];
            proof {
                assert(keys@.to_set().contains(k));
                assert(keys@.subrange(0, i + 1).drop_last() =~= keys@.subrange(0, i as int));
            }
            if self.streaks.get(&k).unwrap().current_days >= 2 {
                active = active + 1;
            }
            i = i + 1;
        }
        assert(keys@.subrange(0, keys@.len() as int) =~= keys@);
        let trending = self.trends.trending_files();
        proof {
            broadcast use vstd::seq_lib::group_to_multiset_ensures;
            let p = choose|p: Seq<(u64, Trend, u32)>| #[trigger] recent_desc(p)
                && p.to_multiset() == trending_along(self.trends.windows(), self.trends.walk()).to_multiset()
                && trending@ == p;
            assert(p.to_multiset().len() == p.len());
            assert(trending_along(self.trends.windows(), self.trends.walk()).to_multiset().len()
                == trending_along(self.trends.windows(), self.trends.walk()).len());
        }
        MemoryStats {
            total_sessions: self.total_sessions + 1,
            current_session_files: self.current_session.files_touched.len(),
            tracked_files: self.temporal.len(),
            active_streaks: active,
            trending_count: trending.len(),
            co_access_pairs: self.co_access.pairs.len(),
        }
    }
}

} // verus!
