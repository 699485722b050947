//! The context summary: a short text of the current session, what the
//! memory holds (trending files, streaks, recent sessions) and a habit worth
//! pointing out.
use vstd::prelude::*;
use vstd::string::*;
use std::collections::HashMap;
use crate::ai::memory::{
    day_text, hour_text, last_peak, recent_key, sat_sub, session_duration, sums_fit, trend_text, trending_along,
    MemoryEngine, Session, Streak, TemporalPattern, Trend,
};
use crate::clock::unix_now_secs;
use crate::fs::snapshot::age_text;
use crate::text::{decimal, decimal_with_suffix, join_text};
use crate::walk::{keys_in_walk_order, lemma_insert_desc, sorted_desc, walk_order};

verus! {

broadcast use {vstd::std_specs::hash::group_hash_axioms, vstd::string::group_string_axioms};

/// A session's length: seconds, minutes, or hours and minutes.
pub open spec fn span_text(d: u64) -> Seq<char> {
    if d < 60 {
        decimal(d as nat) + "s"@
    } else if d < 3600 {
        decimal((d / 60) as nat) + "m"@
    } else {
        decimal((d / 3600) as nat) + "h "@ + decimal(((d % 3600) / 60) as nat) + "m"@
    }
}

/// A past session's length: seconds, minutes or hours.
pub open spec fn short_span_text(d: u64) -> Seq<char> {
    if d < 60 {
        decimal(d as nat) + "s"@
    } else if d < 3600 {
        decimal((d / 60) as nat) + "m"@
    } else {
        decimal((d / 3600) as nat) + "h"@
    }
}

/// Texts separated by ", ".
pub open spec fn comma_joined(ts: Seq<Seq<char>>) -> Seq<char>
    decreases ts.len(),
{
    if ts.len() == 0 {
        Seq::empty()
    } else if ts.len() == 1 {
        ts[0]
    } else {
        comma_joined(ts.drop_last()) + ", "@ + ts.last()
    }
}

/// The name shown for `ino`: the caller's name for it, else the one the
/// memory keeps, else `fallback`.
pub open spec fn shown_name(
    lookup: Map<u64, String>,
    names: Map<u64, String>,
    ino: u64,
    fallback: Seq<char>,
) -> Seq<char> {
    if lookup.contains_key(ino) {
        lookup[ino]@
    } else if names.contains_key(ino) {
        names[ino]@
    } else {
        fallback
    }
}

/// The first `n` elements, or all when there are fewer.
pub open spec fn first_at_most<T>(s: Seq<T>, n: nat) -> Seq<T> {
    if s.len() <= n {
        s
    } else {
        s.take(n as int)
    }
}

/// The lines about the current session.
pub open spec fn current_text(s: Session, now: u64) -> Seq<char> {
    "## Current session ("@ + span_text(session_duration(s, now)) + ")\n"@ + (if s.files_touched@.len() == 0 {
        "No files opened yet.\n"@
    } else {
        "Files touched: "@ + comma_joined(s.files_touched@.map_values(|f: (u64, String)| f.1@)) + "\n"@
    }) + "Writes: "@ + decimal(s.total_writes as nat) + "  Reads: "@ + decimal(s.total_reads as nat) + "\n"@
}

pub open spec fn trending_lines(ts: Seq<(u64, Trend, u32)>, lookup: Map<u64, String>, names: Map<u64, String>) -> Seq<
    char,
>
    decreases ts.len(),
{
    if ts.len() == 0 {
        Seq::empty()
    } else {
        let t = ts.last();
        trending_lines(ts.drop_last(), lookup, names) + "  "@ + trend_text(t.1) + " "@ + shown_name(
            lookup,
            names,
            t.0,
            "unknown"@,
        ) + " ("@ + decimal(t.2 as nat) + " accesses this week)\n"@
    }
}

/// The trending files, at most three.
pub open spec fn trending_text(ts: Seq<(u64, Trend, u32)>, lookup: Map<u64, String>, names: Map<u64, String>) -> Seq<
    char,
> {
    if ts.len() == 0 {
        Seq::empty()
    } else {
        "Trending:\n"@ + trending_lines(first_at_most(ts, 3), lookup, names)
    }
}

/// Streaks of at least two days along `keys`: inode, current and longest.
pub open spec fn streak_rows(m: Map<u64, Streak>, keys: Seq<u64>) -> Seq<(u64, u32, u32)>
    decreases keys.len(),
{
    if keys.len() == 0 {
        Seq::empty()
    } else {
        let rest = streak_rows(m, keys.drop_last());
        let k = keys.last();
        if m[k].current_days >= 2 {
            rest.push((k, m[k].current_days, m[k].longest_days))
        } else {
            rest
        }
    }
}

/// Current days, the key streaks are ordered by.
pub open spec fn streak_key() -> spec_fn((u64, u32, u32)) -> int {
    |r: (u64, u32, u32)| r.1 as int
}

pub open spec fn streak_lines(rows: Seq<(u64, u32, u32)>, lookup: Map<u64, String>, names: Map<u64, String>) -> Seq<
    char,
>
    decreases rows.len(),
{
    if rows.len() == 0 {
        Seq::empty()
    } else {
        let r = rows.last();
        streak_lines(rows.drop_last(), lookup, names) + "  🔥 "@ + shown_name(lookup, names, r.0, "unknown"@)
            + " — "@ + decimal(r.1 as nat) + " days in a row (best: "@ + decimal(r.2 as nat) + ")\n"@
    }
}

/// The longest running streaks, at most three.
pub open spec fn streaks_text(rows: Seq<(u64, u32, u32)>, lookup: Map<u64, String>, names: Map<u64, String>) -> Seq<
    char,
> {
    if rows.len() == 0 {
        Seq::empty()
    } else {
        "Streaks:\n"@ + streak_lines(first_at_most(sorted_desc(rows, streak_key()), 3), lookup, names)
    }
}

/// The focus shown for a session.
pub open spec fn focus_shown(f: Option<String>) -> Seq<char> {
    match f {
        Some(s) => s@,
        None => "—"@,
    }
}

pub open spec fn session_line(s: Session, now: u64) -> Seq<char> {
    "  "@ + age_text(sat_sub(now, s.start_ts)) + " — "@ + short_span_text(session_duration(s, now)) + "  focus: "@
        + focus_shown(s.focus_file) + "  ("@ + decimal(s.files_touched@.len()) + " files)\n"@
}

/// The `n` newest of `ss`, newest first.
pub open spec fn newest_lines(ss: Seq<Session>, n: nat, now: u64) -> Seq<char>
    decreases n,
{
    if n == 0 {
        Seq::empty()
    } else {
        newest_lines(ss, (n - 1) as nat, now) + session_line(ss[ss.len() - n], now)
    }
}

/// The newest past sessions, at most three.
pub open spec fn recent_text(ss: Seq<Session>, now: u64) -> Seq<char> {
    if ss.len() == 0 {
        Seq::empty()
    } else {
        "\nRecent sessions:\n"@ + newest_lines(ss, if ss.len() < 3 { ss.len() } else { 3 }, now)
    }
}

/// Along `keys`, the last file with the most accesses among those with at
/// least five.
pub open spec fn busiest_along(m: Map<u64, TemporalPattern>, keys: Seq<u64>) -> Option<u64>
    decreases keys.len(),
{
    if keys.len() == 0 {
        None
    } else {
        let prev = busiest_along(m, keys.drop_last());
        let k = keys.last();
        if m[k].total >= 5 && (prev matches Some(p) ==> m[k].total >= m[p].total) {
            Some(k)
        } else {
            prev
        }
    }
}

/// The index of the last largest count.
pub open spec fn peak_index(s: Seq<u32>) -> int {
    choose|i: int| last_peak(s, i)
}

/// The habit of the busiest file: its peak day and hour.
pub open spec fn insight_text(e: MemoryEngine, lookup: Map<u64, String>) -> Seq<char> {
    match busiest_along(e.temporal@, walk_order(&e.temporal)) {
        None => Seq::empty(),
        Some(k) => "\nInsight: you usually work on '"@ + shown_name(lookup, e.names@, k, "your most-used file"@)
            + "' on "@ + day_text(peak_index(e.temporal@[k].by_day@) as u8) + "s around "@ + hour_text(
            peak_index(e.temporal@[k].by_hour@) as u8,
        ) + "\n"@,
    }
}

/// The whole summary at time `now`.
pub open spec fn context_text(e: MemoryEngine, lookup: Map<u64, String>, now: u64) -> Seq<char> {
    current_text(e.current_session, now) + "\n## Memory ("@ + decimal((e.total_sessions + 1) as nat)
        + " sessions total)\n"@ + trending_text(
        sorted_desc(trending_along(e.trends.windows(), e.trends.walk()), recent_key()),
        lookup,
        e.names@,
    ) + streaks_text(streak_rows(e.streaks@, walk_order(&e.streaks)), lookup, e.names@) + recent_text(
        e.sessions@,
        now,
    ) + insight_text(e, lookup)
}

/// What the summary can be given: no total overflows.
pub open spec fn summary_room(e: MemoryEngine) -> bool {
    &&& e.total_sessions < u64::MAX
    &&& forall|k: u64| #[trigger] e.trends.windows().contains_key(k) ==> sums_fit(e.trends.windows()[k]@)
}

proof fn lemma_peak_unique(s: Seq<u32>, i: int)
    requires
        last_peak(s, i),
    ensures
        peak_index(s) == i,
{
    let j = peak_index(s);
    assert(last_peak(s, j));
    if j < i {
        assert(s[i] < s[j]);
        assert(s[i] <= s[j]);
        assert(s[j] <= s[i]);
    } else if i < j {
        assert(s[j] < s[i]);
        assert(s[i] <= s[j]);
    }
}

fn push_text(out: &mut String, piece: &str)
    ensures
        final(out)@ == old(out)@ + piece@,
{
    let joined = join_text(out.as_str(), piece);
    *out = joined;
}

fn span_string(d: u64) -> (r: String)
    ensures
        r@ == span_text(d),
{
    if d < 60 {
        decimal_with_suffix(d, "s")
    } else if d < 3600 {
        decimal_with_suffix(d / 60, "m")
    } else {
        let h = decimal_with_suffix(d / 3600, "h ");
        let m = decimal_with_suffix((d % 3600) / 60, "m");
        join_text(h.as_str(), m.as_str())
    }
}

fn short_span_string(d: u64) -> (r: String)
    ensures
        r@ == short_span_text(d),
{
    if d < 60 {
        decimal_with_suffix(d, "s")
    } else if d < 3600 {
        decimal_with_suffix(d / 60, "m")
    } else {
        decimal_with_suffix(d / 3600, "h")
    }
}

fn age_string(age: u64) -> (r: String)
    ensures
        r@ == age_text(age),
{
    if age < 60 {
        decimal_with_suffix(age, "s ago")
    } else if age < 3600 {
        decimal_with_suffix(age / 60, "m ago")
    } else if age < 86400 {
        decimal_with_suffix(age / 3600, "h ago")
    } else {
        decimal_with_suffix(age / 86400, "d ago")
    }
}

fn name_shown(lookup: &HashMap<u64, String>, names: &HashMap<u64, String>, ino: u64, fallback: &str) -> (r: String)
    ensures
        r@ == shown_name(lookup@, names@, ino, fallback@),
{
    match lookup.get(&ino) {
        Some(s) => s.clone(),
        None => match names.get(&ino) {
            Some(s) => s.clone(),
            None => fallback.to_string(),
        },
    }
}

fn sort_rows_desc(v: Vec<(u64, u32, u32)>) -> (r: Vec<(u64, u32, u32)>)
    ensures
        r@ == sorted_desc(v@, streak_key()),
{
    let mut r: Vec<(u64, u32, u32)> = Vec::new();
    let mut i: usize = 0;
    while i < v.len()
        invariant
            i <= v@.len(),
            r@ == sorted_desc(v@.subrange(0, i as int), streak_key()),
        decreases v@.len() - i,
    {
        let e = v[i];
        let mut pos: usize = r.len();
        while pos > 0 && r[pos - 1].1 < e.1
            invariant
                pos <= r@.len(),
                r@ == sorted_desc(v@.subrange(0, i as int), streak_key()),
                forall|k: int| pos <= k < r@.len() ==> (#[trigger] r@[k]).1 < e.1,
            decreases pos,
        {
            pos = pos - 1;
        }
        let ghost old_r = r@;
        r.insert(pos, e);
        proof {
            lemma_insert_desc(old_r, e, streak_key(), pos as int);
            assert(v@.subrange(0, i + 1).drop_last() =~= v@.subrange(0, i as int));
        }
        i = i + 1;
    }
    assert(v@.subrange(0, v@.len() as int) =~= v@);
    r
}

fn session_line_string(s: &Session, now: u64) -> (r: String)
    ensures
        r@ == session_line(*s, now),
{
    let mut out = String::new();
    push_text(&mut out, "  ");
    let ago = age_string(now.saturating_sub(s.start_ts));
    push_text(&mut out, ago.as_str());
    push_text(&mut out, " — ");
    let span = short_span_string(s.duration_secs_at(now));
    push_text(&mut out, span.as_str());
    push_text(&mut out, "  focus: ");
    match &s.focus_file {
        Some(f) => push_text(&mut out, f.as_str()),
        None => push_text(&mut out, "—"),
    }
    push_text(&mut out, "  (");
    let c = decimal_with_suffix(s.files_touched.len() as u64, " files)\n");
    push_text(&mut out, c.as_str());
    assert(out@ =~= session_line(*s, now));
    out
}

impl MemoryEngine {
    fn push_current(&self, out: &mut String, now: u64)
        ensures
            final(out)@ == old(out)@ + current_text(self.current_session, now),
    {
        let s = &self.current_session;
        let ghost start = out@;
        push_text(out, "## Current session (");
        let span = span_string(s.duration_secs_at(now));
        push_text(out, span.as_str());
        push_text(out, ")\n");
        let ghost mid = out@;
        let n = s.files_touched.len();
        if n == 0 {
            push_text(out, "No files opened yet.\n");
        } else {
            push_text(out, "Files touched: ");
            let ghost head = out@;
            let ghost texts = s.files_touched@.map_values(|f: (u64, String)| f.1@);
            let mut i: usize = 0;
            while i < n
                invariant
                    n == s.files_touched@.len(),
                    texts == s.files_touched@.map_values(|f: (u64, String)| f.1@),
                    i <= n,
                    out@ == head + comma_joined(texts.take(i as int)),
                decreases n - i,
            {
                proof {
                    assert(texts.take(i + 1).drop_last() =~= texts.take(i as int));
                    assert(texts.take(i + 1).last() == s.files_touched@[i as int].1@);
                }
                if i > 0 {
                    push_text(out, ", ");
                }
                push_text(out, s.files_touched[i].1.as_str());
                proof {
                    if i == 0 {
                        assert(texts.take(1)[0] == texts[0]);
                    }
                }
                i = i + 1;
                assert(out@ =~= head + comma_joined(texts.take(i as int)));
            }
            assert(texts.take(n as int) =~= texts);
            push_text(out, "\n");
        }
        push_text(out, "Writes: ");
        let w = decimal_with_suffix(s.total_writes, "  Reads: ");
        push_text(out, w.as_str());
        let r = decimal_with_suffix(s.total_reads, "\n");
        push_text(out, r.as_str());
        assert(out@ =~= start + current_text(self.current_session, now));
    }

    fn push_trending(&self, out: &mut String, lookup: &HashMap<u64, String>)
        requires
            forall|k: u64| #[trigger] self.trends.windows().contains_key(k) ==> sums_fit(self.trends.windows()[k]@),
        ensures
            final(out)@ == old(out)@ + trending_text(
                sorted_desc(trending_along(self.trends.windows(), self.trends.walk()), recent_key()),
                lookup@,
                self.names@,
            ),
    {
        let ts = self.trends.trending_files();
        if ts.len() == 0 {
            return;
        }
        let ghost start = out@;
        push_text(out, "Trending:\n");
        let ghost head = out@;
        let n: usize = if ts.len() < 3 { ts.len() } else { 3 };
        let mut i: usize = 0;
        while i < n
            invariant
                n <= ts@.len(),
                i <= n,
                out@ == head + trending_lines(ts@.take(i as int), lookup@, self.names@),
            decreases n - i,
        {
            proof {
                assert(ts@.take(i + 1).drop_last() =~= ts@.take(i as int));
            }
            let t = ts[i];
            push_text(out, "  ");
            push_text(out, t.1.label());
            push_text(out, " ");
            let name = name_shown(lookup, &self.names, t.0, "unknown");
            push_text(out, name.as_str());
            push_text(out, " (");
            let c = decimal_with_suffix(t.2 as u64, " accesses this week)\n");
            push_text(out, c.as_str());
            i = i + 1;
            assert(out@ =~= head + trending_lines(ts@.take(i as int), lookup@, self.names@));
        }
        assert(first_at_most(ts@, 3) =~= ts@.take(n as int));
    }

    fn push_streaks(&self, out: &mut String, lookup: &HashMap<u64, String>)
        ensures
            final(out)@ == old(out)@ + streaks_text(streak_rows(self.streaks@, walk_order(&self.streaks)), lookup@, self.names@),
    {
        let keys = keys_in_walk_order(&self.streaks);
        let ghost m = self.streaks@;
        let mut rows: Vec<(u64, u32, u32)> = Vec::new();
        let mut i: usize = 0;
        while i < keys.len()
            invariant
                i <= keys@.len(),
                keys@.to_set() == m.dom(),
                m == self.streaks@,
                rows@ == streak_rows(m, keys@.take(i as int)),
            decreases keys@.len() - i,
        {
            let k = keys[i];
            proof {
                assert(keys@.to_set().contains(k));
                assert(keys@.take(i + 1).drop_last() =~= keys@.take(i as int));
            }
            let s = self.streaks.get(&k).unwrap();
            if s.current_days >= 2 {
                rows.push((k, s.current_days, s.longest_days));
            }
            i = i + 1;
        }
        assert(keys@.take(keys@.len() as int) =~= keys@);
        if rows.len() == 0 {
            return;
        }
        let ghost all_rows = rows@;
        let sorted = sort_rows_desc(rows);
        let ghost start = out@;
        push_text(out, "Streaks:\n");
        let ghost head = out@;
        let n: usize = if sorted.len() < 3 { sorted.len() } else { 3 };
        let mut j: usize = 0;
        while j < n
            invariant
                n <= sorted@.len(),
                j <= n,
                out@ == head + streak_lines(sorted@.take(j as int), lookup@, self.names@),
            decreases n - j,
        {
            proof {
                assert(sorted@.take(j + 1).drop_last() =~= sorted@.take(j as int));
            }
            let r = sorted[j];
            push_text(out, "  🔥 ");
            let name = name_shown(lookup, &self.names, r.0, "unknown");
            push_text(out, name.as_str());
            push_text(out, " — ");
            let c = decimal_with_suffix(r.1 as u64, " days in a row (best: ");
            push_text(out, c.as_str());
            let b = decimal_with_suffix(r.2 as u64, ")\n");
            push_text(out, b.as_str());
            j = j + 1;
            assert(out@ =~= head + streak_lines(sorted@.take(j as int), lookup@, self.names@));
        }
        assert(sorted_desc(all_rows, streak_key()).len() == sorted@.len());
        assert(first_at_most(sorted@, 3) =~= sorted@.take(n as int));
    }

    fn push_recent(&self, out: &mut String, now: u64)
        ensures
            final(out)@ == old(out)@ + recent_text(self.sessions@, now),
    {
        let total = self.sessions.len();
        if total == 0 {
            return;
        }
        push_text(out, "\nRecent sessions:\n");
        let ghost head = out@;
        let n: usize = if total < 3 { total } else { 3 };
        let mut j: usize = 0;
        while j < n
            invariant
                total == self.sessions@.len(),
                n <= total,
                j <= n,
                out@ == head + newest_lines(self.sessions@, j as nat, now),
            decreases n - j,
        {
            let s = &self.sessions[total - 1 - j];
            let line = session_line_string(s, now);
            push_text(out, line.as_str());
            proof {
                assert(self.sessions@[self.sessions@.len() - (j + 1)] == *s);
            }
            j = j + 1;
            assert(out@ =~= head + newest_lines(self.sessions@, j as nat, now));
        }
    }

    fn push_insight(&self, out: &mut String, lookup: &HashMap<u64, String>)
        ensures
            final(out)@ == old(out)@ + insight_text(*self, lookup@),
    {
        let keys = keys_in_walk_order(&self.temporal);
        let ghost m = self.temporal@;
        let mut best: Option<u64> = None;
        let mut best_total: u32 = 0;
        let mut i: usize = 0;
        while i < keys.len()
            invariant
                i <= keys@.len(),
                keys@.to_set() == m.dom(),
                m == self.temporal@,
                best == busiest_along(m, keys@.take(i as int)),
                best matches Some(b) ==> m.contains_key(b) && best_total == m[b].total,
            decreases keys@.len() - i,
        {
            let k = keys[i];
            proof {
                assert(keys@.to_set().contains(k));
                assert(keys@.take(i + 1).drop_last() =~= keys@.take(i as int));
            }
            let t = self.temporal.get(&k).unwrap().total;
            if t >= 5 && (best.is_none() || t >= best_total) {
                best = Some(k);
                best_total = t;
            }
            i = i + 1;
        }
        assert(keys@.take(keys@.len() as int) =~= keys@);
        match best {
            None => {},
            Some(k) => {
                let p = self.temporal.get(&k).unwrap();
                push_text(out, "\nInsight: you usually work on '");
                let name = name_shown(lookup, &self.names, k, "your most-used file");
                push_text(out, name.as_str());
                push_text(out, "' on ");
                let day = p.peak_day();
                let hour = p.peak_hour();
                proof {
                    lemma_peak_unique(p.by_day@, day as int);
                    lemma_peak_unique(p.by_hour@, hour as int);
                }
                push_text(out, TemporalPattern::day_name(day));
                push_text(out, "s around ");
                let h = TemporalPattern::hour_label(hour);
                push_text(out, h.as_str());
                push_text(out, "\n");
            },
        }
    }

    /// The context summary at time `now`, names taken from `name_lookup`
    /// first and from the memory's own names after.
    pub fn context_summary_at(&self, name_lookup: &HashMap<u64, String>, now: u64) -> (r: String)
        requires
            summary_room(*self),
        ensures
            r@ == context_text(*self, name_lookup@, now),
    {
        let mut out = String::new();
        self.push_current(&mut out, now);
        push_text(&mut out, "\n## Memory (");
        let t = decimal_with_suffix(self.total_sessions + 1, " sessions total)\n");
        push_text(&mut out, t.as_str());
        self.push_trending(&mut out, name_lookup);
        self.push_streaks(&mut out, name_lookup);
        self.push_recent(&mut out, now);
        self.push_insight(&mut out, name_lookup);
        assert(out@ =~= context_text(*self, name_lookup@, now));
        out
    }

    /// The context summary now.
    pub fn context_summary(&self, name_lookup: &HashMap<u64, String>) -> (r: String)
        requires
            summary_room(*self),
        ensures
            exists|now: u64| r@ == #[trigger] context_text(*self, name_lookup@, now),
    {
        self.context_summary_at(name_lookup, unix_now_secs())
    }
}

} // verus!
