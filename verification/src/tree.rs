//! The directory tree as the `tree` command draws it: each directory's
//! children with directories first and then in name order, joined by box
//! drawing connectors, down to a depth limit, with the number of files and
//! directories drawn.
use vstd::prelude::*;
use vstd::string::*;
use crate::text::{chars_of, push_char};

verus! {

/// An entry of the tree: inode number, parent inode number, name, and
/// whether it is a directory.
pub type TreeEntry = (u64, u64, String, bool);

/// `a` comes before `b` in code point order, a proper prefix first.
pub open spec fn name_lt(a: Seq<char>, b: Seq<char>) -> bool
    decreases a.len(),
{
    if b.len() == 0 {
        false
    } else if a.len() == 0 {
        true
    } else if a[0] != b[0] {
        (a[0] as u32) < (b[0] as u32)
    } else {
        name_lt(a.drop_first(), b.drop_first())
    }
}

/// `a` is drawn before `b` among siblings: directories first, then by name.
pub open spec fn drawn_before(a: TreeEntry, b: TreeEntry) -> bool {
    (a.3 && !b.3) || (a.3 == b.3 && name_lt(a.2@, b.2@))
}

/// `s` with `e` put in before the first element it is drawn before, so
/// that of entries that tie, the earlier stays first.
pub open spec fn insert_sorted(s: Seq<TreeEntry>, e: TreeEntry) -> Seq<TreeEntry>
    decreases s.len(),
{
    if s.len() == 0 {
        seq![e]
    } else if drawn_before(e, s[0]) {
        seq![e] + s
    } else {
        seq![s[0]] + insert_sorted(s.drop_first(), e)
    }
}

/// The children of `node` among `entries`, in drawing order.
pub open spec fn children_of(entries: Seq<TreeEntry>, node: u64) -> Seq<TreeEntry>
    decreases entries.len(),
{
    if entries.len() == 0 {
        Seq::empty()
    } else if entries.last().1 == node {
        insert_sorted(children_of(entries.drop_last(), node), entries.last())
    } else {
        children_of(entries.drop_last(), node)
    }
}

/// The connector drawn before the entry: a corner for the last child.
pub open spec fn connector(last: bool) -> Seq<char> {
    if last {
        seq!['\u{2514}', '\u{2500}', '\u{2500}', ' ']
    } else {
        seq!['\u{251c}', '\u{2500}', '\u{2500}', ' ']
    }
}

/// What the children of an entry are drawn under: blank below the last
/// child, a bar below the others.
pub open spec fn extension(last: bool) -> Seq<char> {
    if last {
        seq![' ', ' ', ' ', ' ']
    } else {
        seq!['\u{2502}', ' ', ' ', ' ']
    }
}

/// The icon and name of an entry.
pub open spec fn label(e: TreeEntry) -> Seq<char> {
    (if e.3 {
        seq!['\u{1f4c1}', ' ']
    } else {
        seq!['\u{1f4c4}', ' ']
    }) + e.2@
}

/// The rows drawn for the children of `node` from the `i`-th on, at depth
/// `depth` under `prefix`: each child's row (the entry and its line), then,
/// for a directory within the depth limit (0 meaning none) and while
/// `fuel` lasts, the rows of its own children.
pub open spec fn rows_from(
    entries: Seq<TreeEntry>,
    kids: Seq<TreeEntry>,
    i: nat,
    prefix: Seq<char>,
    depth: nat,
    max_depth: nat,
    fuel: nat,
) -> Seq<(TreeEntry, Seq<char>)>
    decreases fuel, kids.len() - i,
{
    if i >= kids.len() {
        Seq::empty()
    } else {
        let e = kids[i as int];
        let last = i == kids.len() - 1;
        let row = (e, prefix + connector(last) + label(e));
        let below = if e.3 && (max_depth == 0 || depth < max_depth) && fuel > 0 {
            rows_from(
                entries,
                children_of(entries, e.0),
                0,
                prefix + extension(last),
                depth + 1,
                max_depth,
                (fuel - 1) as nat,
            )
        } else {
            Seq::empty()
        };
        seq![row] + below + rows_from(entries, kids, i + 1, prefix, depth, max_depth, fuel)
    }
}

/// The rows of the whole tree under `root`. A directory is entered at most
/// as many levels deep as there are entries, which no tree whose parent
/// links form no cycle reaches.
pub open spec fn tree_rows(entries: Seq<TreeEntry>, root: u64, max_depth: nat) -> Seq<(TreeEntry, Seq<char>)> {
    rows_from(entries, children_of(entries, root), 0, Seq::empty(), 0, max_depth, entries.len())
}

/// How many of the rows are directories (`dirs`) or files.
pub open spec fn count_rows(rows: Seq<(TreeEntry, Seq<char>)>, dirs: bool) -> nat
    decreases rows.len(),
{
    if rows.len() == 0 {
        0
    } else {
        count_rows(rows.drop_last(), dirs) + (if rows.last().0.3 == dirs {
            1nat
        } else {
            0nat
        })
    }
}

/// Whether `a` is drawn before `b` among siblings.
fn entry_before(a: &TreeEntry, b: &TreeEntry) -> (r: bool)
    ensures
        r == drawn_before(*a, *b),
{
    if a.3 != b.3 {
        return a.3;
    }
    let x = chars_of(a.2.as_str());
    let y = chars_of(b.2.as_str());
    let mut i: usize = 0;
    proof {
        assert(x@.subrange(0, x@.len() as int) =~= x@);
        assert(y@.subrange(0, y@.len() as int) =~= y@);
    }
    while i < x.len() && i < y.len() && x[i] == y[i]
        invariant
            i <= x@.len(),
            i <= y@.len(),
            x@ == a.2@,
            y@ == b.2@,
            name_lt(x@, y@) == name_lt(x@.subrange(i as int, x@.len() as int), y@.subrange(i as int, y@.len() as int)),
        decreases x@.len() - i,
    {
        proof {
            assert(x@.subrange(i as int, x@.len() as int).drop_first() =~= x@.subrange(i + 1, x@.len() as int));
            assert(y@.subrange(i as int, y@.len() as int).drop_first() =~= y@.subrange(i + 1, y@.len() as int));
        }
        i = i + 1;
    }
    proof {
        assert(x@.subrange(0, x@.len() as int) =~= x@);
        assert(y@.subrange(0, y@.len() as int) =~= y@);
    }
    if i >= y.len() {
        false
    } else if i >= x.len() {
        true
    } else {
        (x[i] as u32) < (y[i] as u32)
    }
}

/// A copy of an entry.
fn copy_entry(e: &TreeEntry) -> (r: TreeEntry)
    ensures
        r == *e,
{
    (e.0, e.1, e.2.clone(), e.3)
}

/// The children of `node` among `entries`, in drawing order.
fn sorted_children(entries: &Vec<TreeEntry>, node: u64) -> (r: Vec<TreeEntry>)
    ensures
        r@ == children_of(entries@, node),
{
    let mut out: Vec<TreeEntry> = Vec::new();
    let mut i: usize = 0;
    proof {
        assert(entries@.subrange(0, 0) =~= Seq::<TreeEntry>::empty());
    }
    while i < entries.len()
        invariant
            i <= entries@.len(),
            out@ == children_of(entries@.subrange(0, i as int), node),
        decreases entries@.len() - i,
    {
        proof {
            assert(entries@.subrange(0, i + 1).drop_last() =~= entries@.subrange(0, i as int));
        }
        if entries[i].1 == node {
            let e = copy_entry(&entries[i]);
            let mut p: usize = 0;
            proof {
                assert(out@.subrange(0, out@.len() as int) =~= out@);
                assert(out@.subrange(0, 0) + insert_sorted(out@, e) =~= insert_sorted(out@, e));
            }
            while p < out.len() && !entry_before(&e, &out[p])
                invariant
                    p <= out@.len(),
                    insert_sorted(out@, e) == out@.subrange(0, p as int) + insert_sorted(
                        out@.subrange(p as int, out@.len() as int),
                        e,
                    ),
                decreases out@.len() - p,
            {
                proof {
                    let t = out@.subrange(p as int, out@.len() as int);
                    assert(t.drop_first() =~= out@.subrange(p + 1, out@.len() as int));
                    assert(out@.subrange(0, p as int) + (seq![t[0]] + insert_sorted(t.drop_first(), e))
                        =~= out@.subrange(0, p + 1) + insert_sorted(out@.subrange(p + 1, out@.len() as int), e));
                }
                p = p + 1;
            }
            proof {
                let t = out@.subrange(p as int, out@.len() as int);
                assert(insert_sorted(t, e) =~= seq![e] + t);
                assert(out@.subrange(0, p as int) + (seq![e] + t) =~= out@.insert(p as int, e));
            }
            out.insert(p, e);
        }
        i = i + 1;
    }
    proof {
        assert(entries@.subrange(0, entries@.len() as int) =~= entries@);
    }
    out
}

/// The text `a` followed by the characters `b`.
fn joined(a: &String, bv: &Vec<char>) -> (r: String)
    ensures
        r@ == a@ + bv@,
{
    let mut out = a.clone();
    let mut i: usize = 0;
    while i < bv.len()
        invariant
            i <= bv@.len(),
            out@ == a@ + bv@.subrange(0, i as int),
        decreases bv@.len() - i,
    {
        push_char(&mut out, bv[i]);
        proof {
            assert(out@ =~= a@ + bv@.subrange(0, i + 1));
        }
        i = i + 1;
    }
    proof {
        assert(bv@.subrange(0, bv@.len() as int) =~= bv@);
    }
    out
}

/// The characters of a connector or an extension.
fn drawing(corner: bool, last: bool) -> (r: Vec<char>)
    ensures
        r@ == (if corner {
            connector(last)
        } else {
            extension(last)
        }),
{
    let mut v: Vec<char> = Vec::new();
    if corner {
        v.push(if last {
            '\u{2514}'
        } else {
            '\u{251c}'
        });
        v.push('\u{2500}');
        v.push('\u{2500}');
        v.push(' ');
    } else {
        v.push(if last {
            ' '
        } else {
            '\u{2502}'
        });
        v.push(' ');
        v.push(' ');
        v.push(' ');
    }
    proof {
        assert(v@ =~= (if corner {
            connector(last)
        } else {
            extension(last)
        }));
    }
    v
}

/// The line of an entry drawn under `prefix`.
fn row_line(prefix: &String, e: &TreeEntry, last: bool) -> (r: String)
    ensures
        r@ == prefix@ + connector(last) + label(*e),
{
    let c = drawing(true, last);
    let with_corner = joined(prefix, &c);
    let mut icon: Vec<char> = Vec::new();
    icon.push(if e.3 {
        '\u{1f4c1}'
    } else {
        '\u{1f4c4}'
    });
    icon.push(' ');
    let name = chars_of(e.2.as_str());
    let mut i: usize = 0;
    while i < name.len()
        invariant
            i <= name@.len(),
            name@ == e.2@,
            icon@ == (if e.3 {
                seq!['\u{1f4c1}', ' ']
            } else {
                seq!['\u{1f4c4}', ' ']
            }) + name@.subrange(0, i as int),
        decreases name@.len() - i,
    {
        icon.push(name[i]);
        proof {
            assert(icon@ =~= (if e.3 {
                seq!['\u{1f4c1}', ' ']
            } else {
                seq!['\u{1f4c4}', ' ']
            }) + name@.subrange(0, i + 1));
        }
        i = i + 1;
    }
    proof {
        assert(name@.subrange(0, name@.len() as int) =~= name@);
    }
    let r = joined(&with_corner, &icon);
    proof {
        assert(r@ =~= prefix@ + connector(last) + label(*e));
    }
    r
}

/// Append the rows for the children of a node from the `i`-th on.
fn draw_from(
    entries: &Vec<TreeEntry>,
    kids: &Vec<TreeEntry>,
    i: usize,
    prefix: &String,
    depth: usize,
    max_depth: usize,
    fuel: usize,
    out: &mut Vec<(TreeEntry, String)>,
)
    requires
        i <= kids@.len(),
        depth + fuel <= entries@.len(),
    ensures
        final(out)@.map_values(|x: (TreeEntry, String)| (x.0, x.1@)) == old(out)@.map_values(
            |x: (TreeEntry, String)| (x.0, x.1@),
        ) + rows_from(entries@, kids@, i as nat, prefix@, depth as nat, max_depth as nat, fuel as nat),
    decreases fuel, kids@.len() - i,
{
    if i >= kids.len() {
        proof {
            assert(old(out)@.map_values(|x: (TreeEntry, String)| (x.0, x.1@)) + Seq::empty() =~= out@.map_values(
                |x: (TreeEntry, String)| (x.0, x.1@),
            ));
        }
        return;
    }
    let last = i == kids.len() - 1;
    let e = copy_entry(&kids[i]);
    let line = row_line(prefix, &e, last);
    let ghost before = out@;
    out.push((copy_entry(&e), line));
    let ghost after_row = out@;
    proof {
        assert(after_row.map_values(|x: (TreeEntry, String)| (x.0, x.1@)) =~= before.map_values(
            |x: (TreeEntry, String)| (x.0, x.1@),
        ).push((e, prefix@ + connector(last) + label(e))));
    }
    let total = entries.len();
    if e.3 && (max_depth == 0 || depth < max_depth) && fuel > 0 {
        assert(depth + 1 <= total);
        let sub = sorted_children(entries, e.0);
        let ext = drawing(false, last);
        let deeper = joined(prefix, &ext);
        draw_from(entries, &sub, 0, &deeper, depth + 1, max_depth, fuel - 1, out);
    }
    let ghost after_below = out@;
    draw_from(entries, kids, i + 1, prefix, depth, max_depth, fuel, out);
    proof {
        let f = |x: (TreeEntry, String)| (x.0, x.1@);
        let rest = rows_from(entries@, kids@, (i + 1) as nat, prefix@, depth as nat, max_depth as nat, fuel as nat);
        let below = if e.3 && (max_depth == 0 || depth < max_depth) && fuel > 0 {
            rows_from(
                entries@,
                children_of(entries@, e.0),
                0,
                prefix@ + extension(last),
                (depth + 1) as nat,
                max_depth as nat,
                (fuel - 1) as nat,
            )
        } else {
            Seq::empty()
        };
        assert(after_below.map_values(f) =~= after_row.map_values(f) + below);
        assert(kids@[i as int] == e);
        assert(out@.map_values(f) =~= before.map_values(f) + (seq![(e, prefix@ + connector(last) + label(e))]
            + below + rest));
    }
}

/// Draw the tree under `root` from the entries, down to `max_depth`
/// levels (0 meaning no limit): the rows in drawing order, each with the
/// entry's inode number and its line, then the number of files and of
/// directories drawn.
pub fn tree_lines(entries: &Vec<TreeEntry>, root: u64, max_depth: usize) -> (r: (Vec<(u64, String)>, usize, usize))
    ensures
        r.0@.map_values(|x: (u64, String)| (x.0, x.1@)) == tree_rows(entries@, root, max_depth as nat).map_values(
            |x: (TreeEntry, Seq<char>)| (x.0.0, x.1),
        ),
        r.1 == count_rows(tree_rows(entries@, root, max_depth as nat), false),
        r.2 == count_rows(tree_rows(entries@, root, max_depth as nat), true),
{
    let kids = sorted_children(entries, root);
    let mut rows: Vec<(TreeEntry, String)> = Vec::new();
    let empty = String::new();
    draw_from(entries, &kids, 0, &empty, 0, max_depth, entries.len(), &mut rows);
    let ghost all = tree_rows(entries@, root, max_depth as nat);
    proof {
        assert(rows@.map_values(|x: (TreeEntry, String)| (x.0, x.1@)) =~= all);
    }
    let mut lines: Vec<(u64, String)> = Vec::new();
    let mut files: usize = 0;
    let mut dirs: usize = 0;
    let mut i: usize = 0;
    while i < rows.len()
        invariant
            i <= rows@.len(),
            rows@.map_values(|x: (TreeEntry, String)| (x.0, x.1@)) == all,
            lines@.map_values(|x: (u64, String)| (x.0, x.1@)) == all.subrange(0, i as int).map_values(
                |x: (TreeEntry, Seq<char>)| (x.0.0, x.1),
            ),
            files == count_rows(all.subrange(0, i as int), false),
            dirs == count_rows(all.subrange(0, i as int), true),
            files + dirs == i,
        decreases rows@.len() - i,
    {
        let ghost g = all.subrange(0, i + 1);
        proof {
            assert(g.drop_last() =~= all.subrange(0, i as int));
            assert(g.last() == all[i as int]);
            assert(all[i as int] == (rows@[i as int].0, rows@[i as int].1@));
        }
        let ino = rows[i].0.0;
        let text = rows[i].1.clone();
        if rows[i].0.3 {
            dirs = dirs + 1;
        } else {
            files = files + 1;
        }
        let ghost old_lines = lines@;
        lines.push((ino, text));
        proof {
            let f = |x: (u64, String)| (x.0, x.1@);
            let h = |x: (TreeEntry, Seq<char>)| (x.0.0, x.1);
            assert(lines@.map_values(f) =~= old_lines.map_values(f).push(h(all[i as int])));
            assert(g.map_values(h) =~= all.subrange(0, i as int).map_values(h).push(h(all[i as int])));
            assert(lines@.map_values(|x: (u64, String)| (x.0, x.1@)) =~= g.map_values(
                |x: (TreeEntry, Seq<char>)| (x.0.0, x.1),
            ));
        }
        i = i + 1;
    }
    proof {
        assert(all.subrange(0, rows@.len() as int) =~= all);
    }
    (lines, files, dirs)
}

} // verus!
