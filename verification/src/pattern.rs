//! The small pattern language `vexfs find` matches names with: an optional
//! `^` anchor at the start, an optional `$` anchor at the end, and `.*`
//! standing for any run of characters; anything else matches literally.
use vstd::prelude::*;
use vstd::string::*;
use crate::ai::entropy::{lowercase, to_lowercase};
use crate::text::{chars_of, ends_with};
use crate::web::starts_with;

verus! {

/// Where `needle` first occurs in `hay`, if it does.
pub open spec fn find_in(hay: Seq<char>, needle: Seq<char>) -> Option<int>
    decreases hay.len(),
{
    if needle.len() > hay.len() {
        None
    } else if hay.len() == 0 || hay.subrange(0, needle.len() as int) == needle {
        Some(0)
    } else {
        match find_in(hay.drop_first(), needle) {
            Some(j) => Some(j + 1),
            None => None,
        }
    }
}

/// The two characters `.*`.
pub open spec fn wildcard() -> Seq<char> {
    seq!['.', '*']
}

/// The pieces of `core` between its `.*` wildcards, left to right.
pub open spec fn split_parts(core: Seq<char>) -> Seq<Seq<char>>
    decreases core.len(),
{
    match find_in(core, wildcard()) {
        Some(j) => if 0 <= j && j + 2 <= core.len() {
            seq![core.subrange(0, j)] + split_parts(core.subrange(j + 2, core.len() as int))
        } else {
            seq![core]
        },
        None => seq![core],
    }
}

/// `s` without the `^` characters it begins with.
pub open spec fn without_carets(s: Seq<char>) -> Seq<char>
    decreases s.len(),
{
    if s.len() > 0 && s[0] == '^' {
        without_carets(s.drop_first())
    } else {
        s
    }
}

/// `s` without the `$` characters it ends with.
pub open spec fn without_dollars(s: Seq<char>) -> Seq<char>
    decreases s.len(),
{
    if s.len() > 0 && s.last() == '$' {
        without_dollars(s.drop_last())
    } else {
        s
    }
}

/// What is left of `rest` once the parts from the `i`-th on are found in
/// it in turn (the first, under a start anchor, at its very start), empty
/// parts skipped; `None` when one is not found.
pub open spec fn match_parts(parts: Seq<Seq<char>>, i: nat, rest: Seq<char>, anchored: bool) -> Option<Seq<char>>
    decreases parts.len() - i,
{
    if i >= parts.len() {
        Some(rest)
    } else if parts[i as int].len() == 0 {
        match_parts(parts, i + 1, rest, anchored)
    } else if i == 0 && anchored {
        if starts_with(rest, parts[0]) {
            match_parts(parts, i + 1, rest.subrange(parts[0].len() as int, rest.len() as int), anchored)
        } else {
            None
        }
    } else {
        match find_in(rest, parts[i as int]) {
            Some(j) => if 0 <= j && j + parts[i as int].len() <= rest.len() {
                match_parts(parts, i + 1, rest.subrange(j + parts[i as int].len(), rest.len() as int), anchored)
            } else {
                None
            },
            None => None,
        }
    }
}

/// Whether `text` matches `pattern`.
pub open spec fn pattern_matches(pattern: Seq<char>, text: Seq<char>) -> bool {
    let start = pattern.len() > 0 && pattern[0] == '^';
    let end = pattern.len() > 0 && pattern.last() == '$';
    let core = without_dollars(without_carets(pattern));
    if find_in(core, wildcard()) is Some {
        match match_parts(split_parts(core), 0, text, start) {
            Some(rest) => !(end && rest.len() > 0),
            None => false,
        }
    } else if start && end {
        text == core
    } else if start {
        starts_with(text, core)
    } else if end {
        ends_with(text, core)
    } else {
        find_in(text, core) is Some
    }
}

proof fn lemma_find_bounds(hay: Seq<char>, needle: Seq<char>)
    ensures
        find_in(hay, needle) matches Some(j) ==> 0 <= j && j + needle.len() <= hay.len()
            && hay.subrange(j, j + needle.len()) == needle,
    decreases hay.len(),
{
    if needle.len() <= hay.len() && hay.len() > 0 && hay.subrange(0, needle.len() as int) != needle {
        lemma_find_bounds(hay.drop_first(), needle);
        if let Some(j) = find_in(hay.drop_first(), needle) {
            assert(hay.subrange(j + 1, j + 1 + needle.len()) =~= hay.drop_first().subrange(j, j + needle.len()));
        }
    } else if needle.len() <= hay.len() && hay.len() == 0 {
        assert(hay.subrange(0, 0) =~= needle);
    }
}

/// A first occurrence is found where it is.
proof fn lemma_find_first(s: Seq<char>, n: Seq<char>, j: int)
    requires
        0 <= j,
        j + n.len() <= s.len(),
        s.subrange(j, j + n.len()) == n,
        forall|i: int| 0 <= i < j ==> #[trigger] s.subrange(i, i + n.len()) != n,
    ensures
        find_in(s, n) == Some(j),
    decreases j,
{
    if j == 0 {
        if s.len() > 0 {
            assert(s.subrange(0, n.len() as int) == n);
        }
    } else {
        assert(s.subrange(0int, 0int + n.len()) != n);
        let d = s.drop_first();
        assert forall|i: int| 0 <= i < j - 1 implies #[trigger] d.subrange(i, i + n.len()) != n by {
            assert(d.subrange(i, i + n.len()) =~= s.subrange(i + 1, i + 1 + n.len()));
        }
        assert(d.subrange(j - 1, j - 1 + n.len()) =~= s.subrange(j, j + n.len()));
        lemma_find_first(d, n, j - 1);
    }
}

/// Dropping trailing `$` characters from `u + v` leaves `u` in front when
/// `u` does not end with `$`.
proof fn lemma_dollars_keep_prefix(u: Seq<char>, v: Seq<char>) -> (w: Seq<char>)
    requires
        u.len() > 0,
        u.last() != '$',
    ensures
        without_dollars(u + v) == u + w,
    decreases v.len(),
{
    if v.len() == 0 {
        assert(u + v =~= u);
        assert(u + Seq::<char>::empty() =~= u);
        Seq::empty()
    } else if v.last() == '$' {
        assert((u + v).last() == '$');
        assert((u + v).drop_last() =~= u + v.drop_last());
        lemma_dollars_keep_prefix(u, v.drop_last())
    } else {
        assert((u + v).last() == v.last());
        v
    }
}

/// A pattern anchored with `^` whose first piece before a `.*` is not
/// empty matches only names that begin with that piece.
pub proof fn lemma_start_anchor_fixes_first_piece(a: Seq<char>, rest: Seq<char>, t: Seq<char>)
    requires
        a.len() > 0,
        a[0] != '^',
        forall|i: int| 0 <= i && i + 1 < a.len() ==> !(#[trigger] a[i] == '.' && a[i + 1] == '*'),
    ensures
        pattern_matches(seq!['^'] + a + wildcard() + rest, t) ==> starts_with(t, a),
{
    let w = wildcard();
    let p = seq!['^'] + a + w + rest;
    let body = a + w + rest;
    assert(p.drop_first() =~= body);
    assert(body[0] == a[0]);
    assert(without_carets(body) == body);
    assert(without_carets(p) == body);
    let u = a + w;
    assert(u.last() == '*');
    let tail = lemma_dollars_keep_prefix(u, rest);
    assert(body =~= u + rest);
    let core = u + tail;
    assert(without_dollars(without_carets(p)) == core);
    assert forall|i: int| 0 <= i < a.len() implies #[trigger] core.subrange(i, i + w.len()) != w by {
        if core.subrange(i, i + 2) == w {
            assert(core.subrange(i, i + 2)[0] == core[i]);
            assert(core.subrange(i, i + 2)[1] == core[i + 1]);
            if i + 1 < a.len() {
                assert(core[i] == a[i] && core[i + 1] == a[i + 1]);
            } else {
                assert(core[i + 1] == '.');
            }
        }
    }
    assert(core.subrange(a.len() as int, a.len() + w.len() as int) =~= w);
    lemma_find_first(core, w, a.len() as int);
    assert(core.subrange(0, a.len() as int) =~= a);
    let parts = split_parts(core);
    assert(parts[0] == a);
    assert(p.len() > 0 && p[0] == '^');
}

/// Whether `needle` occurs in `hay` at `at`.
fn occurs_at(hay: &Vec<char>, at: usize, needle: &Vec<char>) -> (r: bool)
    requires
        at + needle@.len() <= hay@.len(),
    ensures
        r == (hay@.subrange(at as int, at + needle@.len()) == needle@),
{
    let hn = hay.len();
    let mut i: usize = 0;
    while i < needle.len()
        invariant
            hn == hay@.len(),
            i <= needle@.len(),
            at + needle@.len() <= hay@.len(),
            forall|k: int| 0 <= k < i ==> hay@[at + k] == needle@[k],
        decreases needle@.len() - i,
    {
        if hay[at + i] != needle[i] {
            assert(hay@.subrange(at as int, at + needle@.len())[i as int] != needle@[i as int]);
            return false;
        }
        i = i + 1;
    }
    assert(hay@.subrange(at as int, at + needle@.len()) =~= needle@);
    true
}

/// Where `needle` first occurs in `hay` from `start` on, counted from `start`.
fn find_from(hay: &Vec<char>, start: usize, needle: &Vec<char>) -> (r: Option<usize>)
    requires
        start <= hay@.len(),
    ensures
        match r {
            Some(j) => find_in(hay@.subrange(start as int, hay@.len() as int), needle@) == Some(j as int),
            None => find_in(hay@.subrange(start as int, hay@.len() as int), needle@) is None,
        },
{
    let n = hay.len();
    let m = needle.len();
    if m == 0 {
        proof {
            let t = hay@.subrange(start as int, n as int);
            assert(t.subrange(0, 0) =~= needle@);
        }
        return Some(0);
    }
    let mut at = start;
    while n - at >= m
        invariant
            start <= at <= n,
            n == hay@.len(),
            m == needle@.len(),
            m > 0,
            find_in(hay@.subrange(start as int, n as int), needle@) == (match find_in(
                hay@.subrange(at as int, n as int),
                needle@,
            ) {
                Some(j) => Some(j + (at - start)),
                None => None,
            }),
        decreases n - at,
    {
        let ghost t = hay@.subrange(at as int, n as int);
        if occurs_at(hay, at, needle) {
            assert(t.subrange(0, m as int) =~= hay@.subrange(at as int, at + m));
            return Some(at - start);
        }
        proof {
            assert(t.subrange(0, m as int) =~= hay@.subrange(at as int, at + m));
            assert(t.drop_first() =~= hay@.subrange(at + 1, n as int));
        }
        at = at + 1;
    }
    None
}

/// The characters of `s` from `a` up to `b`.
fn chars_between(s: &Vec<char>, a: usize, b: usize) -> (r: Vec<char>)
    requires
        a <= b <= s@.len(),
    ensures
        r@ == s@.subrange(a as int, b as int),
{
    let mut out: Vec<char> = Vec::new();
    let mut i = a;
    while i < b
        invariant
            a <= i <= b,
            b <= s@.len(),
            out@ == s@.subrange(a as int, i as int),
        decreases b - i,
    {
        out.push(s[i]);
        proof {
            assert(out@ =~= s@.subrange(a as int, i + 1));
        }
        i = i + 1;
    }
    out
}

/// The parts of a character list, as texts.
pub open spec fn parts_view(parts: Seq<Vec<char>>) -> Seq<Seq<char>> {
    parts.map_values(|v: Vec<char>| v@)
}

/// The pieces of `core` between its wildcards.
fn split_core(core: &Vec<char>) -> (r: Vec<Vec<char>>)
    ensures
        parts_view(r@) == split_parts(core@),
{
    let n = core.len();
    let mut wild: Vec<char> = Vec::new();
    wild.push('.');
    wild.push('*');
    assert(wild@ =~= wildcard());
    let mut parts: Vec<Vec<char>> = Vec::new();
    let mut pos: usize = 0;
    proof {
        assert(core@.subrange(0, n as int) =~= core@);
        assert(parts_view(parts@) + split_parts(core@) =~= split_parts(core@));
    }
    loop
        invariant
            pos <= n,
            n == core@.len(),
            wild@ == wildcard(),
            parts_view(parts@) + split_parts(core@.subrange(pos as int, n as int)) == split_parts(core@),
        decreases n - pos,
    {
        let ghost t = core@.subrange(pos as int, n as int);
        let ghost before = parts@;
        proof {
            lemma_find_bounds(t, wildcard());
        }
        match find_from(core, pos, &wild) {
            Some(j) => {
                let piece = chars_between(core, pos, pos + j);
                parts.push(piece);
                proof {
                    assert(t.subrange(0, j as int) =~= core@.subrange(pos as int, pos + j));
                    assert(t.subrange(j + 2, t.len() as int) =~= core@.subrange(pos + j + 2, n as int));
                    assert(parts_view(parts@) =~= parts_view(before).push(core@.subrange(pos as int, pos + j)));
                    assert(parts_view(parts@) + split_parts(core@.subrange(pos + j + 2, n as int)) =~= parts_view(before)
                        + split_parts(t));
                }
                pos = pos + j + 2;
            },
            None => {
                let piece = chars_between(core, pos, n);
                parts.push(piece);
                proof {
                    assert(parts_view(parts@) =~= parts_view(before) + split_parts(t));
                }
                return parts;
            },
        }
    }
}

/// What is left of `text` after the parts are found in it in turn.
fn match_all(parts: &Vec<Vec<char>>, text: &Vec<char>, anchored: bool) -> (r: Option<usize>)
    ensures
        match r {
            Some(pos) => pos <= text@.len() && match_parts(parts_view(parts@), 0, text@, anchored) == Some(
                text@.subrange(pos as int, text@.len() as int),
            ),
            None => match_parts(parts_view(parts@), 0, text@, anchored) is None,
        },
{
    let n = text.len();
    let ghost pv = parts_view(parts@);
    let mut pos: usize = 0;
    let mut i: usize = 0;
    proof {
        assert(text@.subrange(0, n as int) =~= text@);
    }
    while i < parts.len()
        invariant
            i <= parts@.len(),
            pos <= n,
            n == text@.len(),
            pv == parts_view(parts@),
            match_parts(pv, 0, text@, anchored) == match_parts(pv, i as nat, text@.subrange(pos as int, n as int), anchored),
        decreases parts@.len() - i,
    {
        let ghost rest = text@.subrange(pos as int, n as int);
        let part = &parts[i];
        assert(pv[i as int] == part@);
        let m = part.len();
        if m == 0 {
            i = i + 1;
        } else if i == 0 && anchored {
            if n - pos >= m && occurs_at(text, pos, part) {
                proof {
                    assert(rest.subrange(0, m as int) =~= text@.subrange(pos as int, pos + m));
                    assert(rest.subrange(m as int, rest.len() as int) =~= text@.subrange(pos + m, n as int));
                }
                pos = pos + m;
                i = i + 1;
            } else {
                proof {
                    if m <= rest.len() {
                        assert(rest.subrange(0, m as int) =~= text@.subrange(pos as int, pos + m));
                    }
                }
                return None;
            }
        } else {
            proof {
                lemma_find_bounds(rest, part@);
            }
            match find_from(text, pos, part) {
                Some(j) => {
                    proof {
                        assert(rest.subrange(j + m, rest.len() as int) =~= text@.subrange(pos + j + m, n as int));
                    }
                    pos = pos + j + m;
                    i = i + 1;
                },
                None => {
                    return None;
                },
            }
        }
    }
    Some(pos)
}

/// Whether `text` matches `pattern`: `^` anchors at the start, `$` at the
/// end, `.*` stands for any run; the pieces between wildcards are found in
/// turn, each at its first occurrence after the one before.
pub fn regex_match(pattern: &str, text: &str) -> (r: bool)
    ensures
        r == pattern_matches(pattern@, text@),
{
    let p = chars_of(pattern);
    let t = chars_of(text);
    let n = p.len();
    let start = n > 0 && p[0] == '^';
    let end = n > 0 && p[n - 1] == '$';
    let mut a: usize = 0;
    proof {
        assert(p@.subrange(0, n as int) =~= p@);
    }
    while a < n && p[a] == '^'
        invariant
            a <= n,
            n == p@.len(),
            without_carets(p@) == without_carets(p@.subrange(a as int, n as int)),
        decreases n - a,
    {
        proof {
            assert(p@.subrange(a as int, n as int).drop_first() =~= p@.subrange(a + 1, n as int));
        }
        a = a + 1;
    }
    let mut b: usize = n;
    while b > a && p[b - 1] == '$'
        invariant
            a <= b <= n,
            n == p@.len(),
            without_dollars(p@.subrange(a as int, n as int)) == without_dollars(p@.subrange(a as int, b as int)),
        decreases b,
    {
        proof {
            assert(p@.subrange(a as int, b as int).drop_last() =~= p@.subrange(a as int, b - 1));
        }
        b = b - 1;
    }
    let core = chars_between(&p, a, b);
    proof {
        assert(core@ == without_dollars(without_carets(p@)));
    }
    let mut wild: Vec<char> = Vec::new();
    wild.push('.');
    wild.push('*');
    assert(wild@ =~= wildcard());
    assert(core@.subrange(0, core@.len() as int) =~= core@);
    assert(t@.subrange(0, t@.len() as int) =~= t@);
    let tn = t.len();
    let m = core.len();
    if find_from(&core, 0, &wild).is_some() {
        let parts = split_core(&core);
        match match_all(&parts, &t, start) {
            Some(pos) => !(end && pos < tn),
            None => false,
        }
    } else if start && end {
        if tn != m {
            return false;
        }
        let r = occurs_at(&t, 0, &core);
        proof {
            if t@ == core@ {
                assert(t@.subrange(0, m as int) =~= core@);
            }
        }
        r
    } else if start {
        tn >= m && occurs_at(&t, 0, &core)
    } else if end {
        tn >= m && occurs_at(&t, tn - m, &core)
    } else {
        find_from(&t, 0, &core).is_some()
    }
}

/// Whether a name is found by a search for `pattern`: as a pattern when
/// `regex` is set, else as a piece of it, case ignored.
pub fn name_matches(pattern: &str, name: &str, regex: bool) -> (r: bool)
    ensures
        r == (if regex {
            pattern_matches(pattern@, name@)
        } else {
            find_in(lowercase(name@), lowercase(pattern@)) is Some
        }),
{
    if regex {
        return regex_match(pattern, name);
    }
    let n = chars_of(to_lowercase(name).as_str());
    let p = chars_of(to_lowercase(pattern).as_str());
    assert(n@.subrange(0, n@.len() as int) =~= n@);
    find_from(&n, 0, &p).is_some()
}

} // verus!
