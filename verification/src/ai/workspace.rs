//! How a work session is classified, which files stall and which were
//! left mid-flow: the integer part of the workspace model.
use vstd::prelude::*;
use vstd::string::*;
use std::collections::HashMap;
use crate::ai::importance::FileStats;
use crate::text::{decimal, decimal_with_suffix, join_text};
use crate::walk::{keys_in_walk_order, walk_order};

verus! {

broadcast use {vstd::std_specs::hash::group_hash_axioms, vstd::string::group_string_axioms};

#[derive(Debug, Clone, Copy, PartialEq, Eq, Structural)]
pub enum SessionKind {
    /// Few files, many writes: deep work on one thing.
    Focus,
    /// Many files, few writes each: broad exploration.
    Exploration,
    /// Same files reopened 3+ times with few writes: something is blocking.
    Debugging,
    /// Doesn't fit cleanly into one category.
    Mixed,
}

impl SessionKind {
    pub fn label(&self) -> (r: &'static str)
        ensures
            r@ == (match self {
                SessionKind::Focus => "Focus"@,
                SessionKind::Exploration => "Exploration"@,
                SessionKind::Debugging => "Debugging"@,
                SessionKind::Mixed => "Mixed"@,
            }),
    {
        match self {
            SessionKind::Focus => "Focus",
            SessionKind::Exploration => "Exploration",
            SessionKind::Debugging => "Debugging",
            SessionKind::Mixed => "Mixed",
        }
    }
}

#[derive(Debug, Clone)]
pub struct SessionProfile {
    pub kind: SessionKind,
    /// Name of the project cluster most active in this session.
    pub primary_project: String,
    pub files_touched: usize,
    pub writes_made: usize,
    /// Files opened 3+ times during the session without a write.
    pub reopen_without_write: Vec<String>,
}

/// A file opened repeatedly across sessions but rarely written to.
#[derive(Debug, Clone)]
pub struct StallRecord {
    pub ino: u64,
    pub name: String,
    /// How many sessions this file was opened without a meaningful write.
    pub stall_session_count: usize,
    /// Total opens with no corresponding write across those sessions.
    pub open_without_write: usize,
}

/// The count recorded for `k`, zero when there is none.
pub open spec fn count_in(m: Map<u64, u32>, k: u64) -> u32 {
    if m.contains_key(k) {
        m[k]
    } else {
        0
    }
}

fn count_of(m: &HashMap<u64, u32>, k: u64) -> (r: u32)
    ensures
        r == count_in(m@, k),
{
    match m.get(&k) {
        Some(c) => *c,
        None => 0,
    }
}

/// The names of the files along `files` that were opened three times or
/// more and never written, where their name is known.
pub open spec fn reopened_unwritten(
    files: Seq<u64>,
    writes: Map<u64, u32>,
    opens: Map<u64, u32>,
    names: Map<u64, String>,
) -> Seq<Seq<char>>
    decreases files.len(),
{
    if files.len() == 0 {
        Seq::empty()
    } else {
        let rest = reopened_unwritten(files.drop_last(), writes, opens, names);
        let k = files.last();
        if count_in(opens, k) >= 3 && count_in(writes, k) == 0 && names.contains_key(k) {
            rest.push(names[k]@)
        } else {
            rest
        }
    }
}

/// The names of the files along `files` that were written and opened
/// at least twice, where their name is known.
pub open spec fn mid_flow(files: Seq<u64>, writes: Map<u64, u32>, opens: Map<u64, u32>, names: Map<u64, String>) -> Seq<
    Seq<char>,
>
    decreases files.len(),
{
    if files.len() == 0 {
        Seq::empty()
    } else {
        let rest = mid_flow(files.drop_last(), writes, opens, names);
        let k = files.last();
        if count_in(writes, k) > 0 && count_in(opens, k) >= 2 && names.contains_key(k) {
            rest.push(names[k]@)
        } else {
            rest
        }
    }
}

/// The sum of the counts along `keys`.
pub open spec fn counts_sum(m: Map<u64, u32>, keys: Seq<u64>) -> int
    decreases keys.len(),
{
    if keys.len() == 0 {
        0
    } else {
        counts_sum(m, keys.drop_last()) + m[keys.last()]
    }
}

/// How a session is classified from what was reopened, how many files
/// were touched and how many writes were made.
pub open spec fn session_kind(reopened: bool, files: int, writes: int) -> SessionKind {
    if reopened {
        SessionKind::Debugging
    } else if files <= 3 && writes >= 5 {
        SessionKind::Focus
    } else if files >= 6 && writes <= files {
        SessionKind::Exploration
    } else {
        SessionKind::Mixed
    }
}

/// How many of `files` were touched in the session.
pub open spec fn hits(files: Seq<u64>, session: Seq<u64>) -> nat
    decreases files.len(),
{
    if files.len() == 0 {
        0
    } else {
        hits(files.drop_last(), session) + if session.contains(files.last()) { 1nat } else { 0nat }
    }
}

/// Among the first `n` projects, the last one with the most files touched
/// in the session.
pub open spec fn busiest_project(projects: Seq<(String, Vec<u64>)>, session: Seq<u64>, n: nat) -> Option<int>
    decreases n,
{
    if n == 0 {
        None
    } else {
        let prev = busiest_project(projects, session, (n - 1) as nat);
        let i = n - 1;
        match prev {
            Some(p) => if hits(projects[i].1@, session) >= hits(projects[p].1@, session) {
                Some(i)
            } else {
                prev
            },
            None => Some(i),
        }
    }
}

/// Among the first `n` projects, the one picked has no project with more
/// of its files touched, and every later one has fewer; one is picked
/// whenever there is a project.
pub proof fn lemma_busiest_is_most_touched(projects: Seq<(String, Vec<u64>)>, session: Seq<u64>, n: nat)
    requires
        n <= projects.len(),
    ensures
        busiest_project(projects, session, n) is Some <==> n > 0,
        busiest_project(projects, session, n) matches Some(i) ==> {
            &&& 0 <= i < n
            &&& forall|j: int| 0 <= j < n ==> hits((#[trigger] projects[j]).1@, session) <= hits(projects[i].1@, session)
            &&& forall|j: int| i < j < n ==> hits((#[trigger] projects[j]).1@, session) < hits(projects[i].1@, session)
        },
    decreases n,
{
    if n > 0 {
        lemma_busiest_is_most_touched(projects, session, (n - 1) as nat);
    }
}

/// The project a session is said to be on has at least as many of its
/// files among the session's files as any project listed, and more than
/// any listed after it; with no project listed it is "unknown".
pub proof fn lemma_primary_project_is_most_touched(projects: Seq<(String, Vec<u64>)>, session: Seq<u64>)
    ensures
        projects.len() == 0 ==> primary_project_of(projects, session) == "unknown"@,
        projects.len() > 0 ==> exists|i: int|
            #![trigger projects[i]]
            {
                &&& 0 <= i < projects.len()
                &&& primary_project_of(projects, session) == projects[i].0@
                &&& forall|j: int| 0 <= j < projects.len() ==> hits((#[trigger] projects[j]).1@, session) <= hits(
                    projects[i].1@,
                    session,
                )
                &&& forall|j: int| i < j < projects.len() ==> hits((#[trigger] projects[j]).1@, session) < hits(
                    projects[i].1@,
                    session,
                )
            },
{
    lemma_busiest_is_most_touched(projects, session, projects.len());
    if projects.len() > 0 {
        let i = busiest_project(projects, session, projects.len()).unwrap();
        assert(primary_project_of(projects, session) == projects[i].0@);
    }
}

/// The name of the project most active in the session, "unknown" when
/// there is none.
pub open spec fn primary_project_of(projects: Seq<(String, Vec<u64>)>, session: Seq<u64>) -> Seq<char> {
    match busiest_project(projects, session, projects.len()) {
        Some(i) => projects[i].0@,
        None => "unknown"@,
    }
}

fn contains_ino(s: &[u64], x: u64) -> (r: bool)
    ensures
        r == s@.contains(x),
{
    let mut i: usize = 0;
    while i < s.len()
        invariant
            i <= s@.len(),
            forall|j: int| 0 <= j < i ==> s@[j] != x,
        decreases s@.len() - i,
    {
        if s[i] == x {
            assert(s@[i as int] == x);
            return true;
        }
        i = i + 1;
    }
    false
}

fn hit_count(files: &Vec<u64>, session: &[u64]) -> (r: usize)
    ensures
        r == hits(files@, session@),
{
    let mut n: usize = 0;
    let mut i: usize = 0;
    while i < files.len()
        invariant
            i <= files@.len(),
            n == hits(files@.take(i as int), session@),
            n <= i,
        decreases files@.len() - i,
    {
        proof {
            assert(files@.take(i + 1).drop_last() =~= files@.take(i as int));
        }
        if contains_ino(session, files[i]) {
            n = n + 1;
        }
        i = i + 1;
    }
    assert(files@.take(files@.len() as int) =~= files@);
    n
}

/// The names of the files opened three times or more and never written.
fn reopened_names(
    session_files: &[u64],
    write_counts: &HashMap<u64, u32>,
    open_counts: &HashMap<u64, u32>,
    names: &HashMap<u64, String>,
) -> (r: Vec<String>)
    ensures
        r@.map_values(|s: String| s@) == reopened_unwritten(session_files@, write_counts@, open_counts@, names@),
{
    let mut out: Vec<String> = Vec::new();
    let mut i: usize = 0;
    while i < session_files.len()
        invariant
            i <= session_files@.len(),
            out@.map_values(|s: String| s@) == reopened_unwritten(
                session_files@.take(i as int),
                write_counts@,
                open_counts@,
                names@,
            ),
        decreases session_files@.len() - i,
    {
        let k = session_files[i];
        proof {
            assert(session_files@.take(i + 1).drop_last() =~= session_files@.take(i as int));
        }
        let ghost before = out@;
        if count_of(open_counts, k) >= 3 && count_of(write_counts, k) == 0 {
            match names.get(&k) {
                Some(n) => {
                    out.push(n.clone());
                    assert(out@.map_values(|s: String| s@) =~= before.map_values(|s: String| s@).push(names@[k]@));
                },
                None => {},
            }
        }
        i = i + 1;
    }
    assert(session_files@.take(session_files@.len() as int) =~= session_files@);
    out
}

/// The names of the files written to and opened at least twice in the
/// session: work left mid-flow.
pub fn unfinished_files(
    session_files: &[u64],
    write_counts: &HashMap<u64, u32>,
    open_counts: &HashMap<u64, u32>,
    names: &HashMap<u64, String>,
) -> (r: Vec<String>)
    ensures
        r@.map_values(|s: String| s@) == mid_flow(session_files@, write_counts@, open_counts@, names@),
{
    let mut out: Vec<String> = Vec::new();
    let mut i: usize = 0;
    while i < session_files.len()
        invariant
            i <= session_files@.len(),
            out@.map_values(|s: String| s@) == mid_flow(session_files@.take(i as int), write_counts@, open_counts@, names@),
        decreases session_files@.len() - i,
    {
        let k = session_files[i];
        proof {
            assert(session_files@.take(i + 1).drop_last() =~= session_files@.take(i as int));
        }
        let ghost before = out@;
        if count_of(write_counts, k) > 0 && count_of(open_counts, k) >= 2 {
            match names.get(&k) {
                Some(n) => {
                    out.push(n.clone());
                    assert(out@.map_values(|s: String| s@) =~= before.map_values(|s: String| s@).push(names@[k]@));
                },
                None => {},
            }
        }
        i = i + 1;
    }
    assert(session_files@.take(session_files@.len() as int) =~= session_files@);
    out
}

/// Profile a session that just ended: its kind, the project it was spent
/// on (given each project's name and files), its files and writes, and
/// the files reopened without a write.
pub fn profile_session(
    session_files: &[u64],
    write_counts: &HashMap<u64, u32>,
    open_counts: &HashMap<u64, u32>,
    names: &HashMap<u64, String>,
    projects: &[(String, Vec<u64>)],
) -> (r: SessionProfile)
    requires
        counts_sum(write_counts@, walk_order(write_counts)) <= u32::MAX,
    ensures
        r.files_touched == session_files@.len(),
        r.writes_made == counts_sum(write_counts@, walk_order(write_counts)),
        r.reopen_without_write@.map_values(|s: String| s@) == reopened_unwritten(
            session_files@,
            write_counts@,
            open_counts@,
            names@,
        ),
        r.kind == session_kind(
            reopened_unwritten(session_files@, write_counts@, open_counts@, names@).len() > 0,
            session_files@.len() as int,
            counts_sum(write_counts@, walk_order(write_counts)),
        ),
        r.primary_project@ == primary_project_of(projects@, session_files@),
        projects@.len() > 0 ==> exists|i: int|
            #![trigger projects@[i]]
            {
                &&& 0 <= i < projects@.len()
                &&& r.primary_project@ == projects@[i].0@
                &&& forall|j: int| 0 <= j < projects@.len() ==> hits((#[trigger] projects@[j]).1@, session_files@) <= hits(
                    projects@[i].1@,
                    session_files@,
                )
            },
{
    proof {
        lemma_primary_project_is_most_touched(projects@, session_files@);
    }
    let files_touched = session_files.len();
    let keys = keys_in_walk_order(write_counts);
    let ghost m = write_counts@;
    let mut writes: u32 = 0;
    let mut i: usize = 0;
    while i < keys.len()
        invariant
            i <= keys@.len(),
            keys@ == walk_order(write_counts),
            keys@.to_set() == m.dom(),
            m == write_counts@,
            counts_sum(m, keys@) <= u32::MAX,
            writes == counts_sum(m, keys@.take(i as int)),
        decreases keys@.len() - i,
    {
        let k = keys[i];
        proof {
            assert(keys@.to_set().contains(k));
            assert(keys@.take(i + 1).drop_last() =~= keys@.take(i as int));
            lemma_counts_sum_prefix(m, keys@, i + 1);
        }
        writes = writes + *write_counts.get(&k).unwrap();
        i = i + 1;
    }
    assert(keys@.take(keys@.len() as int) =~= keys@);
    let reopen_without_write = reopened_names(session_files, write_counts, open_counts, names);
    let ghost ro = reopened_unwritten(session_files@, write_counts@, open_counts@, names@);
    assert(reopen_without_write@.len() == ro.len()) by {
        assert(reopen_without_write@.map_values(|s: String| s@).len() == reopen_without_write@.len());
    }
    let kind = if reopen_without_write.len() > 0 {
        SessionKind::Debugging
    } else if files_touched <= 3 && writes >= 5 {
        SessionKind::Focus
    } else if files_touched >= 6 && writes as usize <= files_touched {
        SessionKind::Exploration
    } else {
        SessionKind::Mixed
    };
    let mut best: Option<usize> = None;
    let mut best_hits: usize = 0;
    let mut j: usize = 0;
    while j < projects.len()
        invariant
            j <= projects@.len(),
            best matches Some(b) ==> b < j && best_hits == hits(projects@[b as int].1@, session_files@),
            (match best {
                Some(b) => Some(b as int),
                None => None,
            }) == busiest_project(projects@, session_files@, j as nat),
        decreases projects@.len() - j,
    {
        let h = hit_count(&projects[j].1, session_files);
        if best.is_none() || h >= best_hits {
            best = Some(j);
            best_hits = h;
        }
        j = j + 1;
    }
    let primary_project = match best {
        Some(b) => projects[b].0.clone(),
        None => "unknown".to_string(),
    };
    SessionProfile { kind, primary_project, files_touched, writes_made: writes as usize, reopen_without_write }
}

proof fn lemma_counts_sum_prefix(m: Map<u64, u32>, keys: Seq<u64>, n: int)
    requires
        0 <= n <= keys.len(),
    ensures
        counts_sum(m, keys.take(n)) <= counts_sum(m, keys),
    decreases keys.len(),
{
    if n < keys.len() {
        assert(keys.drop_last().take(n) =~= keys.take(n));
        lemma_counts_sum_prefix(m, keys.drop_last(), n);
    } else {
        assert(keys.take(n) =~= keys);
    }
}

/// The stall records along `keys`: files opened at least four times in
/// all, at least twice this session, and written at most once.
pub open spec fn stall_rows(
    stats: Map<u64, FileStats>,
    keys: Seq<u64>,
    writes: Map<u64, u32>,
    opens: Map<u64, u32>,
    names: Map<u64, String>,
) -> Seq<(u64, Seq<char>, usize, usize)>
    decreases keys.len(),
{
    if keys.len() == 0 {
        Seq::empty()
    } else {
        let rest = stall_rows(stats, keys.drop_last(), writes, opens, names);
        let k = keys.last();
        let o = count_in(opens, k);
        if stats[k].1 >= 4 && o >= 2 && count_in(writes, k) <= 1 {
            let name = if names.contains_key(k) { names[k]@ } else { "ino_"@ + decimal(k as nat) };
            rest.push((k, name, (o / 2) as usize, o as usize))
        } else {
            rest
        }
    }
}

pub open spec fn stall_view(s: StallRecord) -> (u64, Seq<char>, usize, usize) {
    (s.ino, s.name@, s.stall_session_count, s.open_without_write)
}

/// The files that look stalled, in the order the statistics are walked.
pub fn detect_stalls(
    access_counts: &HashMap<u64, FileStats>,
    write_counts: &HashMap<u64, u32>,
    open_counts: &HashMap<u64, u32>,
    names: &HashMap<u64, String>,
) -> (r: Vec<StallRecord>)
    ensures
        r@.map_values(|s: StallRecord| stall_view(s)) == stall_rows(
            access_counts@,
            walk_order(access_counts),
            write_counts@,
            open_counts@,
            names@,
        ),
{
    let keys = keys_in_walk_order(access_counts);
    let ghost m = access_counts@;
    let mut out: Vec<StallRecord> = Vec::new();
    let mut i: usize = 0;
    while i < keys.len()
        invariant
            i <= keys@.len(),
            keys@.to_set() == m.dom(),
            m == access_counts@,
            out@.map_values(|s: StallRecord| stall_view(s)) == stall_rows(
                m,
                keys@.take(i as int),
                write_counts@,
                open_counts@,
                names@,
            ),
        decreases keys@.len() - i,
    {
        let k = keys[i];
        proof {
            assert(keys@.to_set().contains(k));
            assert(keys@.take(i + 1).drop_last() =~= keys@.take(i as int));
        }
        let total_opens = access_counts.get(&k).unwrap().1;
        let o = count_of(open_counts, k);
        let w = count_of(write_counts, k);
        let ghost before = out@;
        if total_opens >= 4 && o >= 2 && w <= 1 {
            let name = match names.get(&k) {
                Some(n) => n.clone(),
                None => {
                    let digits = decimal_with_suffix(k, "");
                    proof {
                        reveal_strlit("");
                        assert(decimal(k as nat) + ""@ =~= decimal(k as nat));
                    }
                    join_text("ino_", digits.as_str())
                },
            };
            let rec = StallRecord { ino: k, name, stall_session_count: (o / 2) as usize, open_without_write: o as usize };
            out.push(rec);
            assert(out@.map_values(|s: StallRecord| stall_view(s)) =~= before.map_values(|s: StallRecord| stall_view(s)).push(
                stall_view(rec),
            ));
        }
        i = i + 1;
    }
    assert(keys@.take(keys@.len() as int) =~= keys@);
    out
}

} // verus!
