//! The line diff `vexfs diff` shows between two versions of a file: lines
//! compared position by position.
use vstd::prelude::*;
use vstd::string::*;

verus! {

/// How a line of a diff stands.
#[derive(PartialEq, Eq, Structural, Clone, Copy, Debug)]
pub enum DiffKind {
    /// In both versions at this position.
    Same,
    /// In the old version only.
    Removed,
    /// In the new version only.
    Added,
}

/// A line of a diff.
pub struct DiffLine {
    pub kind: DiffKind,
    pub text: String,
}

/// The texts of a list of lines.
pub open spec fn texts(s: Seq<&str>) -> Seq<Seq<char>> {
    s.map_values(|l: &str| l@)
}

/// The diff lines for position `k`: the line once when both versions have
/// the same there; the old line removed and the new one added when they
/// differ; the one present otherwise.
pub open spec fn diff_at(a: Seq<Seq<char>>, b: Seq<Seq<char>>, k: int) -> Seq<(DiffKind, Seq<char>)> {
    if k < a.len() && k < b.len() {
        if a[k] == b[k] {
            seq![(DiffKind::Same, a[k])]
        } else {
            seq![(DiffKind::Removed, a[k]), (DiffKind::Added, b[k])]
        }
    } else if k < a.len() {
        seq![(DiffKind::Removed, a[k])]
    } else if k < b.len() {
        seq![(DiffKind::Added, b[k])]
    } else {
        Seq::empty()
    }
}

/// The diff lines for the first `n` positions.
pub open spec fn diff_rows(a: Seq<Seq<char>>, b: Seq<Seq<char>>, n: nat) -> Seq<(DiffKind, Seq<char>)>
    decreases n,
{
    if n == 0 {
        Seq::empty()
    } else {
        diff_rows(a, b, (n - 1) as nat) + diff_at(a, b, n - 1)
    }
}

/// How many of the diff lines are of kind `kind`.
pub open spec fn count_kind(rows: Seq<(DiffKind, Seq<char>)>, kind: DiffKind) -> nat
    decreases rows.len(),
{
    if rows.len() == 0 {
        0
    } else {
        count_kind(rows.drop_last(), kind) + (if rows.last().0 == kind {
            1nat
        } else {
            0nat
        })
    }
}

proof fn lemma_count_concat(x: Seq<(DiffKind, Seq<char>)>, y: Seq<(DiffKind, Seq<char>)>, kind: DiffKind)
    ensures
        count_kind(x + y, kind) == count_kind(x, kind) + count_kind(y, kind),
    decreases y.len(),
{
    if y.len() > 0 {
        lemma_count_concat(x, y.drop_last(), kind);
        assert((x + y).drop_last() =~= x + y.drop_last());
    } else {
        assert(x + y =~= x);
    }
}

/// The lines of the new version a diff shows: its same and added lines.
pub open spec fn new_side(rows: Seq<(DiffKind, Seq<char>)>) -> Seq<Seq<char>>
    decreases rows.len(),
{
    if rows.len() == 0 {
        Seq::empty()
    } else if rows.last().0 == DiffKind::Removed {
        new_side(rows.drop_last())
    } else {
        new_side(rows.drop_last()).push(rows.last().1)
    }
}

/// The lines of the old version a diff shows: its same and removed lines.
pub open spec fn old_side(rows: Seq<(DiffKind, Seq<char>)>) -> Seq<Seq<char>>
    decreases rows.len(),
{
    if rows.len() == 0 {
        Seq::empty()
    } else if rows.last().0 == DiffKind::Added {
        old_side(rows.drop_last())
    } else {
        old_side(rows.drop_last()).push(rows.last().1)
    }
}

proof fn lemma_sides_concat(x: Seq<(DiffKind, Seq<char>)>, y: Seq<(DiffKind, Seq<char>)>)
    ensures
        new_side(x + y) == new_side(x) + new_side(y),
        old_side(x + y) == old_side(x) + old_side(y),
    decreases y.len(),
{
    if y.len() > 0 {
        lemma_sides_concat(x, y.drop_last());
        assert((x + y).drop_last() =~= x + y.drop_last());
        assert((x + y).last() == y.last());
        assert(new_side(x) + new_side(y.drop_last()).push(y.last().1) =~= (new_side(x) + new_side(y.drop_last())).push(
            y.last().1,
        ));
        assert(old_side(x) + old_side(y.drop_last()).push(y.last().1) =~= (old_side(x) + old_side(y.drop_last())).push(
            y.last().1,
        ));
    } else {
        assert(x + y =~= x);
        assert(new_side(x) + new_side(y) =~= new_side(x));
        assert(old_side(x) + old_side(y) =~= old_side(x));
    }
}

proof fn lemma_side_counts(rows: Seq<(DiffKind, Seq<char>)>)
    ensures
        new_side(rows).len() == count_kind(rows, DiffKind::Same) + count_kind(rows, DiffKind::Added),
        old_side(rows).len() == count_kind(rows, DiffKind::Same) + count_kind(rows, DiffKind::Removed),
    decreases rows.len(),
{
    if rows.len() > 0 {
        lemma_side_counts(rows.drop_last());
    }
}

proof fn lemma_sides_prefix(a: Seq<Seq<char>>, b: Seq<Seq<char>>, n: nat)
    ensures
        new_side(diff_rows(a, b, n)) == b.take(if n <= b.len() { n as int } else { b.len() as int }),
        old_side(diff_rows(a, b, n)) == a.take(if n <= a.len() { n as int } else { a.len() as int }),
    decreases n,
{
    if n > 0 {
        let k = n - 1;
        lemma_sides_prefix(a, b, (n - 1) as nat);
        lemma_sides_concat(diff_rows(a, b, (n - 1) as nat), diff_at(a, b, k));
        reveal_with_fuel(new_side, 3);
        reveal_with_fuel(old_side, 3);
        let d = diff_at(a, b, k);
        if k < a.len() && k < b.len() && a[k] != b[k] {
            assert(d.drop_last() =~= seq![(DiffKind::Removed, a[k])]);
        }
        if k < b.len() {
            assert(b.take(k + 1) =~= b.take(k).push(b[k]));
        } else {
            assert(b.take(b.len() as int) =~= b.take(if k <= b.len() { k } else { b.len() as int }));
        }
        if k < a.len() {
            assert(a.take(k + 1) =~= a.take(k).push(a[k]));
        } else {
            assert(a.take(a.len() as int) =~= a.take(if k <= a.len() { k } else { a.len() as int }));
        }
    } else {
        assert(b.take(0) =~= Seq::<Seq<char>>::empty());
        assert(a.take(0) =~= Seq::<Seq<char>>::empty());
    }
}

/// A diff shows every line of both versions: its same and added lines, in
/// order, are the new version, its same and removed lines the old one; so
/// the added lines number the new version's lines less the same ones, and
/// the removed lines the old version's less the same ones.
pub proof fn lemma_diff_shows_both_versions(a: Seq<Seq<char>>, b: Seq<Seq<char>>)
    ensures
        new_side(diff_rows(a, b, if a.len() >= b.len() { a.len() } else { b.len() })) == b,
        old_side(diff_rows(a, b, if a.len() >= b.len() { a.len() } else { b.len() })) == a,
        count_kind(diff_rows(a, b, if a.len() >= b.len() { a.len() } else { b.len() }), DiffKind::Added)
            + count_kind(diff_rows(a, b, if a.len() >= b.len() { a.len() } else { b.len() }), DiffKind::Same) == b.len(),
        count_kind(diff_rows(a, b, if a.len() >= b.len() { a.len() } else { b.len() }), DiffKind::Removed)
            + count_kind(diff_rows(a, b, if a.len() >= b.len() { a.len() } else { b.len() }), DiffKind::Same) == a.len(),
{
    let n = if a.len() >= b.len() { a.len() } else { b.len() };
    lemma_sides_prefix(a, b, n);
    lemma_side_counts(diff_rows(a, b, n));
    assert(b.take(b.len() as int) =~= b);
    assert(a.take(a.len() as int) =~= a);
}

/// The diff between the lines `a` of the old version and `b` of the new:
/// the diff lines in order, then how many lines were added and removed.
pub fn line_diff(a: &[&str], b: &[&str]) -> (r: (Vec<DiffLine>, usize, usize))
    ensures
        r.0@.map_values(|l: DiffLine| (l.kind, l.text@)) == diff_rows(
            texts(a@),
            texts(b@),
            if a@.len() >= b@.len() {
                a@.len()
            } else {
                b@.len()
            },
        ),
        r.1 == count_kind(
            diff_rows(texts(a@), texts(b@), if a@.len() >= b@.len() { a@.len() } else { b@.len() }),
            DiffKind::Added,
        ),
        r.2 == count_kind(
            diff_rows(texts(a@), texts(b@), if a@.len() >= b@.len() { a@.len() } else { b@.len() }),
            DiffKind::Removed,
        ),
        new_side(r.0@.map_values(|l: DiffLine| (l.kind, l.text@))) == texts(b@),
        old_side(r.0@.map_values(|l: DiffLine| (l.kind, l.text@))) == texts(a@),
        r.1 + count_kind(r.0@.map_values(|l: DiffLine| (l.kind, l.text@)), DiffKind::Same) == b@.len(),
        r.2 + count_kind(r.0@.map_values(|l: DiffLine| (l.kind, l.text@)), DiffKind::Same) == a@.len(),
{
    proof {
        lemma_diff_shows_both_versions(texts(a@), texts(b@));
    }
    let ghost ta = texts(a@);
    let ghost tb = texts(b@);
    let n = if a.len() >= b.len() {
        a.len()
    } else {
        b.len()
    };
    let mut out: Vec<DiffLine> = Vec::new();
    let mut added: usize = 0;
    let mut removed: usize = 0;
    let mut k: usize = 0;
    while k < n
        invariant
            k <= n,
            n == (if a@.len() >= b@.len() { a@.len() } else { b@.len() }),
            ta == texts(a@),
            tb == texts(b@),
            out@.map_values(|l: DiffLine| (l.kind, l.text@)) == diff_rows(ta, tb, k as nat),
            added == count_kind(diff_rows(ta, tb, k as nat), DiffKind::Added),
            removed == count_kind(diff_rows(ta, tb, k as nat), DiffKind::Removed),
            added <= k,
            removed <= k,
        decreases n - k,
    {
        let ghost before = out@;
        let ghost step = diff_at(ta, tb, k as int);
        if k < a.len() && k < b.len() {
            let x = String::from_str(a[k]);
            let y = String::from_str(b[k]);
            if x == y {
                out.push(DiffLine { kind: DiffKind::Same, text: x });
            } else {
                out.push(DiffLine { kind: DiffKind::Removed, text: x });
                out.push(DiffLine { kind: DiffKind::Added, text: y });
                added = added + 1;
                removed = removed + 1;
            }
        } else if k < a.len() {
            out.push(DiffLine { kind: DiffKind::Removed, text: String::from_str(a[k]) });
            removed = removed + 1;
        } else {
            out.push(DiffLine { kind: DiffKind::Added, text: String::from_str(b[k]) });
            added = added + 1;
        }
        proof {
            assert(out@.map_values(|l: DiffLine| (l.kind, l.text@)) =~= before.map_values(
                |l: DiffLine| (l.kind, l.text@),
            ) + step);
            assert(diff_rows(ta, tb, (k + 1) as nat) == diff_rows(ta, tb, k as nat) + step);
            lemma_count_concat(diff_rows(ta, tb, k as nat), step, DiffKind::Added);
            lemma_count_concat(diff_rows(ta, tb, k as nat), step, DiffKind::Removed);
            reveal_with_fuel(count_kind, 3);
        }
        k = k + 1;
    }
    (out, added, removed)
}

} // verus!
