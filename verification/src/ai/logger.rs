//! Access log: a bounded record of file opens, reads, writes, closes and
//! deletes, the input every learning component works from.
use vstd::prelude::*;
use std::collections::VecDeque;
use vstd::string::*;
use crate::clock::unix_now_secs;
use crate::walk::{lemma_filter_empty, lemma_filter_step};

verus! {

broadcast use vstd::string::group_string_axioms;

/// A single file access event.
#[derive(Debug, Clone)]
pub struct AccessEvent {
    pub ino: u64,
    pub name: String,
    pub kind: AccessKind,
    /// Unix seconds.
    pub timestamp: u64,
    /// How long the file was open (0 if unknown).
    pub duration_secs: u64,
    /// File size at the time of access.
    pub size_bytes: u64,
}

#[derive(Debug, Clone, Copy, PartialEq, Eq, Structural)]
pub enum AccessKind {
    Open,
    Write,
    Read,
    Close,
    Delete,
}

/// `a - b`, or zero when `b > a`.
pub open spec fn sat_sub(a: u64, b: u64) -> u64 {
    if a >= b {
        (a - b) as u64
    } else {
        0
    }
}

/// An event at most `within` seconds old at time `now`.
pub open spec fn recent_at(e: AccessEvent, now: u64, within: u64) -> bool {
    sat_sub(now, e.timestamp) <= within
}

/// An event between one and two days old at time `now`.
pub open spec fn yesterday_at(e: AccessEvent, now: u64) -> bool {
    86400 <= sat_sub(now, e.timestamp) < 172800
}

impl AccessEvent {
    /// An event of `kind` on `ino` at `timestamp`.
    pub fn at(ino: u64, name: &str, kind: AccessKind, size_bytes: u64, timestamp: u64) -> (r: Self)
        ensures
            r.ino == ino && r.name@ == name@ && r.kind == kind,
            r.timestamp == timestamp && r.duration_secs == 0 && r.size_bytes == size_bytes,
    {
        Self { ino, name: name.to_string(), kind, timestamp, duration_secs: 0, size_bytes }
    }

    /// An event of `kind` on `ino` happening now.
    pub fn now(ino: u64, name: &str, kind: AccessKind, size_bytes: u64) -> (r: Self)
        ensures
            r.ino == ino && r.name@ == name@ && r.kind == kind,
            r.duration_secs == 0 && r.size_bytes == size_bytes,
    {
        Self::at(ino, name, kind, size_bytes, unix_now_secs())
    }

    /// Whether the access happened at most `within_secs` before `now`.
    pub fn is_recent_at(&self, now: u64, within_secs: u64) -> (r: bool)
        ensures
            r == recent_at(*self, now, within_secs),
    {
        now.saturating_sub(self.timestamp) <= within_secs
    }

    /// Was this access within the last `within_secs` seconds?
    pub fn is_recent(&self, within_secs: u64) -> (r: bool)
        ensures
            exists|now: u64| r == #[trigger] recent_at(*self, now, within_secs),
    {
        self.is_recent_at(unix_now_secs(), within_secs)
    }

    /// Whether the access happened between one and two days before `now`.
    pub fn is_yesterday_at(&self, now: u64) -> (r: bool)
        ensures
            r == yesterday_at(*self, now),
    {
        let age = now.saturating_sub(self.timestamp);
        age >= 86400 && age < 172800
    }

    /// Was this access yesterday (between 24 and 48 hours ago)?
    pub fn is_yesterday(&self) -> (r: bool)
        ensures
            exists|now: u64| r == #[trigger] yesterday_at(*self, now),
    {
        self.is_yesterday_at(unix_now_secs())
    }

    /// Was this access today (within the last 24 hours)?
    pub fn is_today(&self) -> (r: bool)
        ensures
            exists|now: u64| r == #[trigger] recent_at(*self, now, 86400),
    {
        self.is_recent(86400)
    }
}

/// The events a log keeps after recording one more: the oldest leaves once
/// the log holds `max` events.
pub open spec fn after_record(s: Seq<AccessEvent>, e: AccessEvent, max: usize) -> Seq<AccessEvent> {
    if s.len() >= max && s.len() > 0 {
        s.drop_first().push(e)
    } else {
        s.push(e)
    }
}

/// Events on `ino`.
pub open spec fn on_file(ino: u64) -> spec_fn(AccessEvent) -> bool {
    |e: AccessEvent| e.ino == ino
}

/// Events from yesterday, relative to `now`.
pub open spec fn from_yesterday(now: u64) -> spec_fn(AccessEvent) -> bool {
    |e: AccessEvent| yesterday_at(e, now)
}

/// Events from the last 24 hours, relative to `now`.
pub open spec fn from_today(now: u64) -> spec_fn(AccessEvent) -> bool {
    |e: AccessEvent| recent_at(e, now, 86400)
}

/// Open events.
pub open spec fn is_open() -> spec_fn(AccessEvent) -> bool {
    |e: AccessEvent| e.kind == AccessKind::Open
}

/// The largest timestamp among `s`, if any.
pub open spec fn max_timestamp(s: Seq<AccessEvent>) -> Option<u64>
    decreases s.len(),
{
    if s.len() == 0 {
        None
    } else {
        match max_timestamp(s.drop_last()) {
            None => Some(s.last().timestamp),
            Some(m) => Some(if s.last().timestamp > m { s.last().timestamp } else { m }),
        }
    }
}

/// The access log: the most recent events, oldest first, bounded in size.
pub struct AccessLog {
    events: VecDeque<AccessEvent>,
    max_events: usize,
}

impl View for AccessLog {
    type V = Seq<AccessEvent>;

    closed spec fn view(&self) -> Seq<AccessEvent> {
        self.events@
    }
}

impl AccessLog {
    pub closed spec fn spec_max_events(&self) -> usize {
        self.max_events
    }

    pub fn new(max_events: usize) -> (r: Self)
        ensures
            r@ == Seq::<AccessEvent>::empty(),
            r.spec_max_events() == max_events,
    {
        Self { events: VecDeque::new(), max_events }
    }

    /// Record a file access, dropping the oldest event when full.
    pub fn record(&mut self, event: AccessEvent)
        ensures
            final(self)@ == after_record(old(self)@, event, old(self).spec_max_events()),
            final(self).spec_max_events() == old(self).spec_max_events(),
    {
        if self.events.len() >= self.max_events {
            self.events.pop_front();
        }
        self.events.push_back(event);
        proof {
            if old(self)@.len() >= self.max_events && old(self)@.len() > 0 {
                assert(self.events@ =~= old(self)@.drop_first().push(event));
            }
        }
    }

    /// References to the events that satisfy `keep`, in log order.
    fn select(&self, Ghost(keep): Ghost<spec_fn(AccessEvent) -> bool>, ino: u64, mode: u8, now: u64) -> (r: Vec<&AccessEvent>)
        requires
            mode == 0 ==> keep == on_file(ino),
            mode == 1 ==> keep == from_yesterday(now),
            mode == 2 ==> keep == from_today(now),
            mode == 3 ==> keep == is_open(),
            mode <= 3,
        ensures
            r@.len() == self@.filter(keep).len(),
            forall|i: int| 0 <= i < r@.len() ==> *r@[i] == self@.filter(keep)[i],
    {
        let mut out: Vec<&AccessEvent> = Vec::new();
        let mut i: usize = 0;
        proof {
            lemma_filter_empty(self@, keep);
        }
        while i < self.events.len()
            invariant
                i <= self@.len(),
                self.events@ == self@,
                mode == 0 ==> keep == on_file(ino),
                mode == 1 ==> keep == from_yesterday(now),
                mode == 2 ==> keep == from_today(now),
                mode == 3 ==> keep == is_open(),
                mode <= 3,
                out@.len() == self@.subrange(0, i as int).filter(keep).len(),
                forall|j: int| 0 <= j < out@.len() ==> *out@[j] == self@.subrange(0, i as int).filter(keep)[j],
            decreases self@.len() - i,
        {
            let e = &self.events[i];
            proof {
                lemma_filter_step(self@, i as int, keep);
            }
            let wanted = if mode == 0 {
                e.ino == ino
            } else if mode == 1 {
                e.is_yesterday_at(now)
            } else if mode == 2 {
                e.is_recent_at(now, 86400)
            } else {
                e.kind == AccessKind::Open
            };
            if wanted {
                out.push(e);
            }
            i = i + 1;
        }
        assert(self@.subrange(0, self@.len() as int) =~= self@);
        out
    }

    /// All events for a specific file, oldest first.
    pub fn events_for(&self, ino: u64) -> (r: Vec<&AccessEvent>)
        ensures
            r@.len() == self@.filter(on_file(ino)).len(),
            forall|i: int| 0 <= i < r@.len() ==> *r@[i] == self@.filter(on_file(ino))[i],
    {
        self.select(Ghost(on_file(ino)), ino, 0, 0)
    }

    /// The last `limit` open events, newest first.
    pub fn recent_opens(&self, limit: usize) -> (r: Vec<&AccessEvent>)
        ensures
            r@.len() == (if limit < self@.filter(is_open()).len() { limit as nat } else { self@.filter(is_open()).len() }),
            forall|i: int| 0 <= i < r@.len() ==> *r@[i] == self@.filter(is_open()).reverse()[i],
    {
        let opens = self.select(Ghost(is_open()), 0, 3, 0);
        let n = opens.len();
        let mut out: Vec<&AccessEvent> = Vec::new();
        let mut k: usize = 0;
        while k < n && k < limit
            invariant
                n == opens@.len(),
                n == self@.filter(is_open()).len(),
                forall|j: int| 0 <= j < n ==> *opens@[j] == self@.filter(is_open())[j],
                k <= n,
                k <= limit,
                out@.len() == k,
                forall|j: int| 0 <= j < k ==> *out@[j] == self@.filter(is_open()).reverse()[j],
            decreases n - k,
        {
            out.push(opens[n - 1 - k]);
            k = k + 1;
        }
        out
    }

    /// All events from yesterday, relative to `now`.
    pub fn yesterday_at(&self, now: u64) -> (r: Vec<&AccessEvent>)
        ensures
            r@.len() == self@.filter(from_yesterday(now)).len(),
            forall|i: int| 0 <= i < r@.len() ==> *r@[i] == self@.filter(from_yesterday(now))[i],
    {
        self.select(Ghost(from_yesterday(now)), 0, 1, now)
    }

    /// All events from yesterday.
    pub fn yesterday(&self) -> (r: Vec<&AccessEvent>)
        ensures
            exists|now: u64| {
                &&& r@.len() == #[trigger] self@.filter(from_yesterday(now)).len()
                &&& forall|i: int| 0 <= i < r@.len() ==> *r@[i] == self@.filter(from_yesterday(now))[i]
            },
    {
        self.yesterday_at(unix_now_secs())
    }

    /// All events from the last 24 hours, relative to `now`.
    pub fn today_at(&self, now: u64) -> (r: Vec<&AccessEvent>)
        ensures
            r@.len() == self@.filter(from_today(now)).len(),
            forall|i: int| 0 <= i < r@.len() ==> *r@[i] == self@.filter(from_today(now))[i],
    {
        self.select(Ghost(from_today(now)), 0, 2, now)
    }

    /// All events from today.
    pub fn today(&self) -> (r: Vec<&AccessEvent>)
        ensures
            exists|now: u64| {
                &&& r@.len() == #[trigger] self@.filter(from_today(now)).len()
                &&& forall|i: int| 0 <= i < r@.len() ==> *r@[i] == self@.filter(from_today(now))[i]
            },
    {
        self.today_at(unix_now_secs())
    }

    /// How many times has this file been accessed?
    pub fn access_count(&self, ino: u64) -> (r: usize)
        ensures
            r == self@.filter(on_file(ino)).len(),
    {
        let mut n: usize = 0;
        let mut i: usize = 0;
        proof {
            lemma_filter_empty(self@, on_file(ino));
        }
        while i < self.events.len()
            invariant
                i <= self@.len(),
                self.events@ == self@,
                n == self@.subrange(0, i as int).filter(on_file(ino)).len(),
                n <= i,
            decreases self@.len() - i,
        {
            proof {
                lemma_filter_step(self@, i as int, on_file(ino));
            }
            if self.events[i].ino == ino {
                n = n + 1;
            }
            i = i + 1;
        }
        assert(self@.subrange(0, self@.len() as int) =~= self@);
        n
    }

    /// Last access time for a file.
    pub fn last_access(&self, ino: u64) -> (r: Option<u64>)
        ensures
            r == max_timestamp(self@.filter(on_file(ino))),
    {
        let mut best: Option<u64> = None;
        let mut i: usize = 0;
        proof {
            lemma_filter_empty(self@, on_file(ino));
        }
        while i < self.events.len()
            invariant
                i <= self@.len(),
                self.events@ == self@,
                best == max_timestamp(self@.subrange(0, i as int).filter(on_file(ino))),
            decreases self@.len() - i,
        {
            let e = &self.events[i];
            proof {
                lemma_filter_step(self@, i as int, on_file(ino));
                let f = self@.subrange(0, i + 1).filter(on_file(ino));
                if e.ino == ino {
                    assert(f.drop_last() =~= self@.subrange(0, i as int).filter(on_file(ino)));
                }
            }
            if e.ino == ino {
                best = match best {
                    None => Some(e.timestamp),
                    Some(m) => Some(if e.timestamp > m { e.timestamp } else { m }),
                };
            }
            i = i + 1;
        }
        assert(self@.subrange(0, self@.len() as int) =~= self@);
        best
    }

    pub fn all_events(&self) -> (r: &VecDeque<AccessEvent>)
        ensures
            r@ == self@,
    {
        &self.events
    }

    pub fn len(&self) -> (r: usize)
        ensures
            r == self@.len(),
    {
        self.events.len()
    }
}

/// The log never holds more than its limit (or one event when the limit
/// is zero), whatever is recorded.
pub proof fn lemma_log_bounded(s: Seq<AccessEvent>, e: AccessEvent, max: usize)
    requires
        s.len() <= max || s.len() <= 1,
    ensures
        after_record(s, e, max).len() <= max || after_record(s, e, max).len() <= 1,
{
}

} // verus!
