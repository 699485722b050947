//! The daemon's reading of a raw HTTP request: the method and path of its
//! request line, the `Content-Length` it declares and the body that
//! length takes.
use vstd::prelude::*;
use vstd::string::*;
use crate::ai::entropy::{lowercase, to_lowercase};
use crate::codec::{lossy_string, utf8_lossy};
use crate::text::{chars_of, push_char};
use crate::web::{chars_start_with, starts_with, to_uppercase, uppercase};

verus! {

/// White space as Unicode defines it, the characters `char::is_whitespace`
/// accepts.
pub open spec fn is_space(c: char) -> bool {
    ||| ('\u{9}' <= c && c <= '\u{d}')
    ||| c == ' '
    ||| c == '\u{85}'
    ||| c == '\u{a0}'
    ||| c == '\u{1680}'
    ||| ('\u{2000}' <= c && c <= '\u{200a}')
    ||| c == '\u{2028}'
    ||| c == '\u{2029}'
    ||| c == '\u{202f}'
    ||| c == '\u{205f}'
    ||| c == '\u{3000}'
}

fn space(c: char) -> (r: bool)
    ensures
        r == is_space(c),
{
    ('\u{9}' <= c && c <= '\u{d}') || c == ' ' || c == '\u{85}' || c == '\u{a0}' || c == '\u{1680}'
        || ('\u{2000}' <= c && c <= '\u{200a}') || c == '\u{2028}' || c == '\u{2029}' || c
        == '\u{202f}' || c == '\u{205f}' || c == '\u{3000}'
}

/// The index of the first `c` in `s`, or the length of `s` when there is none.
pub open spec fn index_of(s: Seq<char>, c: char) -> nat
    decreases s.len(),
{
    if s.len() == 0 {
        0
    } else if s[0] == c {
        0
    } else {
        1 + index_of(s.drop_first(), c)
    }
}

/// A line without the one `\r` it may end with.
pub open spec fn without_cr(l: Seq<char>) -> Seq<char> {
    if l.len() > 0 && l.last() == '\r' {
        l.drop_last()
    } else {
        l
    }
}

/// The first line of a non-empty text as `str::lines` gives it: up to the
/// first `\n` less a `\r` before it, or the whole text when it has no `\n`.
pub open spec fn first_line(s: Seq<char>) -> Seq<char> {
    let i = index_of(s, '\n');
    if i < s.len() {
        without_cr(s.subrange(0, i as int))
    } else {
        s
    }
}

/// `t` without the white space it begins with.
pub open spec fn trim_start(t: Seq<char>) -> Seq<char>
    decreases t.len(),
{
    if t.len() > 0 && is_space(t[0]) {
        trim_start(t.drop_first())
    } else {
        t
    }
}

/// `t` without the white space it ends with.
pub open spec fn trim_end(t: Seq<char>) -> Seq<char>
    decreases t.len(),
{
    if t.len() > 0 && is_space(t.last()) {
        trim_end(t.drop_last())
    } else {
        t
    }
}

/// The value of a run of decimal digits.
pub open spec fn digits_value(d: Seq<char>) -> nat
    decreases d.len(),
{
    if d.len() == 0 {
        0
    } else {
        digits_value(d.drop_last()) * 10 + (d.last() as nat - 48) as nat
    }
}

/// Every character is an ASCII digit.
pub open spec fn all_digits(d: Seq<char>) -> bool {
    forall|i: int| 0 <= i < d.len() ==> '0' <= #[trigger] d[i] && d[i] <= '9'
}

/// The number `t` spells as `usize::from_str` reads it: an optional `+`,
/// then at least one digit, the value fitting a `usize`.
pub open spec fn parsed_usize(t: Seq<char>) -> Option<nat> {
    let d = if t.len() > 0 && t[0] == '+' {
        t.drop_first()
    } else {
        t
    };
    if d.len() > 0 && all_digits(d) && digits_value(d) <= usize::MAX {
        Some(digits_value(d))
    } else {
        None
    }
}

/// What a header line's value counts: the text after its first `:`,
/// trimmed, read as a number; 0 when there is no `:` or no number.
pub open spec fn header_value(line: Seq<char>) -> nat {
    let c = index_of(line, ':');
    if c < line.len() {
        match parsed_usize(trim_end(trim_start(line.subrange(c + 1int, line.len() as int)))) {
            Some(v) => v,
            None => 0,
        }
    } else {
        0
    }
}

/// The length a request declares: the value of its first line, in order,
/// whose lower-cased form begins with `content-length:`; 0 when none does.
pub open spec fn declared_length(s: Seq<char>) -> nat
    decreases s.len(),
{
    if s.len() == 0 {
        0
    } else if starts_with(lowercase(first_line(s)), "content-length:"@) {
        header_value(first_line(s))
    } else if index_of(s, '\n') < s.len() {
        declared_length(s.subrange(index_of(s, '\n') + 1int, s.len() as int))
    } else {
        0
    }
}

/// The length of the run of non-space characters `s` begins with.
pub open spec fn word_len(s: Seq<char>) -> nat
    decreases s.len(),
{
    if s.len() == 0 || is_space(s[0]) {
        0
    } else {
        1 + word_len(s.drop_first())
    }
}

/// The first white-space separated word of `s`, empty when it has none.
pub open spec fn first_word(s: Seq<char>) -> Seq<char> {
    trim_start(s).subrange(0, word_len(trim_start(s)) as int)
}

/// What follows the first word of `s`.
pub open spec fn after_first_word(s: Seq<char>) -> Seq<char> {
    trim_start(s).subrange(word_len(trim_start(s)) as int, trim_start(s).len() as int)
}

/// The method word of a request text: the first word of its first line.
pub open spec fn method_word(s: Seq<char>) -> Seq<char> {
    if s.len() == 0 {
        Seq::empty()
    } else {
        first_word(first_line(s))
    }
}

/// The path of a request text: the second word of its first line, `/`
/// when there is none.
pub open spec fn request_path(s: Seq<char>) -> Seq<char> {
    let w = if s.len() == 0 {
        Seq::<char>::empty()
    } else {
        first_word(after_first_word(first_line(s)))
    };
    if w.len() == 0 {
        "/"@
    } else {
        w
    }
}

/// How many bytes the UTF-8 form of a character takes.
pub open spec fn char_width(c: char) -> nat {
    if (c as u32) < 0x80 {
        1
    } else if (c as u32) < 0x800 {
        2
    } else if (c as u32) < 0x10000 {
        3
    } else {
        4
    }
}

/// How many bytes the UTF-8 form of a text takes.
pub open spec fn utf8_width(s: Seq<char>) -> nat
    decreases s.len(),
{
    if s.len() == 0 {
        0
    } else {
        utf8_width(s.drop_last()) + char_width(s.last())
    }
}

/// The leading characters of `s` whose UTF-8 form takes exactly `k`
/// bytes; `None` when `k` falls inside a character or past the end.
pub open spec fn prefix_of_width(s: Seq<char>, k: int) -> Option<Seq<char>>
    decreases s.len(),
{
    if k == 0 {
        Some(Seq::empty())
    } else if s.len() == 0 || k < 0 {
        None
    } else {
        match prefix_of_width(s.drop_first(), k - char_width(s[0])) {
            Some(p) => Some(seq![s[0]] + p),
            None => None,
        }
    }
}

/// The index of the first blank line mark `\r\n\r\n` in `s`, or its
/// length when there is none.
pub open spec fn blank_line_at(s: Seq<char>) -> nat
    decreases s.len(),
{
    if s.len() < 4 {
        s.len()
    } else if s.subrange(0, 4) == "\r\n\r\n"@ {
        0
    } else {
        1 + blank_line_at(s.drop_first())
    }
}

/// The body of a request text: after its first blank line mark, the
/// leading characters that take as many bytes as it declares (capped at
/// the text's own size in bytes); empty when there is no mark or no such
/// characters.
pub open spec fn request_body(s: Seq<char>) -> Seq<char> {
    let j = blank_line_at(s);
    let rest = if j + 4 <= s.len() {
        s.subrange(j + 4int, s.len() as int)
    } else {
        Seq::empty()
    };
    let k = if declared_length(s) <= utf8_width(s) {
        declared_length(s)
    } else {
        utf8_width(s)
    };
    match prefix_of_width(rest, k as int) {
        Some(p) => p,
        None => Seq::empty(),
    }
}

/// A request as the daemon reads it.
pub struct Request {
    /// The method word, upper-cased.
    pub method: String,
    /// The requested path.
    pub path: String,
    /// The body the declared length takes.
    pub body: String,
}


/// The characters of `s` from `a` up to `b`, as a text.
fn text_between(s: &Vec<char>, a: usize, b: usize) -> (r: String)
    requires
        a <= b <= s@.len(),
    ensures
        r@ == s@.subrange(a as int, b as int),
{
    let mut out = String::new();
    let mut i = a;
    while i < b
        invariant
            a <= i <= b,
            b <= s@.len(),
            out@ == s@.subrange(a as int, i as int),
        decreases b - i,
    {
        push_char(&mut out, s[i]);
        proof {
            assert(out@ =~= s@.subrange(a as int, i + 1));
        }
        i = i + 1;
    }
    out
}

/// Where the first `c` at or after `from` stands in `s`, or `s`'s length.
fn find_char(s: &Vec<char>, from: usize, c: char) -> (r: usize)
    requires
        from <= s@.len(),
    ensures
        r == from + index_of(s@.subrange(from as int, s@.len() as int), c),
        r <= s@.len(),
{
    let n = s.len();
    let mut i = from;
    while i < n && s[i] != c
        invariant
            from <= i <= n,
            n == s@.len(),
            index_of(s@.subrange(from as int, n as int), c) == (i - from) + index_of(
                s@.subrange(i as int, n as int),
                c,
            ),
        decreases n - i,
    {
        proof {
            assert(s@.subrange(i as int, n as int).drop_first() =~= s@.subrange(i + 1, n as int));
        }
        i = i + 1;
    }
    i
}

/// Where the white space that `s` has from `from` on ends.
fn skip_spaces(s: &Vec<char>, from: usize) -> (r: usize)
    requires
        from <= s@.len(),
    ensures
        from <= r <= s@.len(),
        trim_start(s@.subrange(from as int, s@.len() as int)) == s@.subrange(r as int, s@.len() as int),
{
    let n = s.len();
    let mut i = from;
    while i < n && space(s[i])
        invariant
            from <= i <= n,
            n == s@.len(),
            trim_start(s@.subrange(from as int, n as int)) == trim_start(s@.subrange(i as int, n as int)),
        decreases n - i,
    {
        proof {
            assert(s@.subrange(i as int, n as int).drop_first() =~= s@.subrange(i + 1, n as int));
        }
        i = i + 1;
    }
    i
}

/// Where the word that `s` has at `from` ends.
fn word_end(s: &Vec<char>, from: usize) -> (r: usize)
    requires
        from <= s@.len(),
    ensures
        from <= r <= s@.len(),
        word_len(s@.subrange(from as int, s@.len() as int)) == r - from,
{
    let n = s.len();
    let mut i = from;
    while i < n && !space(s[i])
        invariant
            from <= i <= n,
            n == s@.len(),
            word_len(s@.subrange(from as int, n as int)) == (i - from) + word_len(s@.subrange(i as int, n as int)),
        decreases n - i,
    {
        proof {
            assert(s@.subrange(i as int, n as int).drop_first() =~= s@.subrange(i + 1, n as int));
        }
        i = i + 1;
    }
    i
}

/// The first word of the line `l` and the word after it.
fn first_two_words(l: &Vec<char>) -> (r: (String, String))
    ensures
        r.0@ == first_word(l@),
        r.1@ == first_word(after_first_word(l@)),
{
    let n = l.len();
    proof {
        assert(l@.subrange(0, n as int) =~= l@);
    }
    let i = skip_spaces(l, 0);
    let j = word_end(l, i);
    let i2 = skip_spaces(l, j);
    let j2 = word_end(l, i2);
    proof {
        let t = l@.subrange(i as int, n as int);
        assert(t.subrange(0, (j - i) as int) =~= l@.subrange(i as int, j as int));
        assert(t.subrange((j - i) as int, t.len() as int) =~= l@.subrange(j as int, n as int));
        let t2 = l@.subrange(i2 as int, n as int);
        assert(t2.subrange(0, (j2 - i2) as int) =~= l@.subrange(i2 as int, j2 as int));
    }
    (text_between(l, i, j), text_between(l, i2, j2))
}

/// The first line of the text `s` has from `pos` on, and where the `\n`
/// ending it stands (the length of `s` when none does).
fn line_from(s: &Vec<char>, pos: usize) -> (r: (Vec<char>, usize))
    requires
        pos < s@.len(),
    ensures
        r.1 == pos + index_of(s@.subrange(pos as int, s@.len() as int), '\n'),
        r.1 <= s@.len(),
        r.0@ == first_line(s@.subrange(pos as int, s@.len() as int)),
{
    let n = s.len();
    let nl = find_char(s, pos, '\n');
    let ghost t = s@.subrange(pos as int, n as int);
    let end = if nl < n && nl > pos && s[nl - 1] == '\r' {
        nl - 1
    } else {
        nl
    };
    let mut line: Vec<char> = Vec::new();
    let mut i = pos;
    while i < end
        invariant
            pos <= i <= end,
            end <= n,
            n == s@.len(),
            line@ == s@.subrange(pos as int, i as int),
        decreases end - i,
    {
        line.push(s[i]);
        proof {
            assert(line@ =~= s@.subrange(pos as int, i + 1));
        }
        i = i + 1;
    }
    proof {
        if nl < n {
            let head = t.subrange(0, (nl - pos) as int);
            assert(head =~= s@.subrange(pos as int, nl as int));
            if nl > pos && s@[nl - 1] == '\r' {
                assert(head.drop_last() =~= s@.subrange(pos as int, end as int));
            }
        } else {
            assert(t =~= s@.subrange(pos as int, end as int));
        }
    }
    (line, nl)
}

/// Digits read so far never exceed the value of all of them.
proof fn lemma_digits_grow(d: Seq<char>, i: int)
    requires
        0 <= i <= d.len(),
    ensures
        digits_value(d.subrange(0, i)) <= digits_value(d),
    decreases d.len() - i,
{
    if i < d.len() {
        lemma_digits_grow(d, i + 1);
        assert(d.subrange(0, i + 1).drop_last() =~= d.subrange(0, i));
    } else {
        assert(d.subrange(0, i) =~= d);
    }
}

/// The number the characters of `s` from `a` up to `b` spell, as
/// `usize::from_str` reads it.
fn parse_usize_between(s: &Vec<char>, a: usize, b: usize) -> (r: Option<usize>)
    requires
        a <= b <= s@.len(),
    ensures
        match r {
            Some(v) => parsed_usize(s@.subrange(a as int, b as int)) == Some(v as nat),
            None => parsed_usize(s@.subrange(a as int, b as int)) is None,
        },
{
    let ghost t = s@.subrange(a as int, b as int);
    let d0 = if a < b && s[a] == '+' {
        a + 1
    } else {
        a
    };
    let ghost d = s@.subrange(d0 as int, b as int);
    proof {
        if a < b && s@[a as int] == '+' {
            assert(t.drop_first() =~= d);
        } else {
            assert(t =~= d);
        }
    }
    if d0 >= b {
        return None;
    }
    let mut acc: u128 = 0;
    let mut i = d0;
    proof {
        assert(d.subrange(0, 0) =~= Seq::<char>::empty());
        assert(parsed_usize(t) == (if d.len() > 0 && all_digits(d) && digits_value(d) <= usize::MAX {
            Some(digits_value(d))
        } else {
            None
        }));
    }
    while i < b
        invariant
            a <= d0 <= i <= b,
            t == s@.subrange(a as int, b as int),
            parsed_usize(t) == (if d.len() > 0 && all_digits(d) && digits_value(d) <= usize::MAX {
                Some(digits_value(d))
            } else {
                None
            }),
            b <= s@.len(),
            d == s@.subrange(d0 as int, b as int),
            all_digits(d.subrange(0, (i - d0) as int)),
            acc == digits_value(d.subrange(0, (i - d0) as int)),
            acc <= usize::MAX,
        decreases b - i,
    {
        let ch = s[i];
        if !('0' <= ch && ch <= '9') {
            proof {
                assert(d[(i - d0) as int] == ch);
            }
            return None;
        }
        let dv = (ch as u32 - 48) as u128;
        acc = acc * 10 + dv;
        proof {
            let p = d.subrange(0, (i - d0) + 1);
            assert(p.drop_last() =~= d.subrange(0, (i - d0) as int));
            assert(p.last() == ch);
            assert(all_digits(p)) by {
                assert forall|x: int| 0 <= x < p.len() implies '0' <= #[trigger] p[x] && p[x] <= '9' by {
                    if x < p.len() - 1 {
                        assert(p[x] == d.subrange(0, (i - d0) as int)[x]);
                    }
                }
            }
        }
        if acc > usize::MAX as u128 {
            proof {
                lemma_digits_grow(d, (i - d0) + 1);
            }
            return None;
        }
        i = i + 1;
    }
    proof {
        assert(d.subrange(0, (b - d0) as int) =~= d);
    }
    Some(acc as usize)
}

/// The value a header line gives after its first `:`.
fn header_value_of(l: &Vec<char>) -> (r: usize)
    ensures
        r == header_value(l@),
{
    let n = l.len();
    proof {
        assert(l@.subrange(0, n as int) =~= l@);
    }
    let c = find_char(l, 0, ':');
    if c >= n {
        return 0;
    }
    let i = skip_spaces(l, c + 1);
    let mut j = n;
    while j > i && space(l[j - 1])
        invariant
            i <= j <= n,
            n == l@.len(),
            trim_end(l@.subrange(i as int, n as int)) == trim_end(l@.subrange(i as int, j as int)),
        decreases j,
    {
        proof {
            assert(l@.subrange(i as int, j as int).drop_last() =~= l@.subrange(i as int, j - 1));
        }
        j = j - 1;
    }
    match parse_usize_between(l, i, j) {
        Some(v) => v,
        None => 0,
    }
}

/// The length the request text `s` declares.
fn declared_length_of(s: &Vec<char>) -> (r: usize)
    ensures
        r == declared_length(s@),
{
    let n = s.len();
    let mut pos: usize = 0;
    proof {
        assert(s@.subrange(0, n as int) =~= s@);
    }
    while pos < n
        invariant
            pos <= n,
            n == s@.len(),
            declared_length(s@) == declared_length(s@.subrange(pos as int, n as int)),
        decreases n - pos,
    {
        let (line, nl) = line_from(s, pos);
        let text = text_between(&line, 0, line.len());
        proof {
            assert(line@.subrange(0, line@.len() as int) =~= line@);
        }
        let lower = chars_of(to_lowercase(text.as_str()).as_str());
        if chars_start_with(&lower, "content-length:") {
            return header_value_of(&line);
        }
        if nl >= n {
            return 0;
        }
        proof {
            let t = s@.subrange(pos as int, n as int);
            assert(t.subrange((nl - pos) + 1, t.len() as int) =~= s@.subrange(nl + 1, n as int));
        }
        pos = nl + 1;
    }
    0
}

/// How many bytes the UTF-8 form of `c` takes.
fn width_of(c: char) -> (r: u128)
    ensures
        r == char_width(c),
{
    let v = c as u32;
    if v < 0x80 {
        1
    } else if v < 0x800 {
        2
    } else if v < 0x10000 {
        3
    } else {
        4
    }
}

/// How many bytes the UTF-8 form of the text `s` takes.
fn text_width(s: &Vec<char>) -> (r: u128)
    ensures
        r == utf8_width(s@),
{
    let mut acc: u128 = 0;
    let mut i: usize = 0;
    while i < s.len()
        invariant
            i <= s@.len(),
            acc == utf8_width(s@.subrange(0, i as int)),
            acc <= 4 * i,
        decreases s@.len() - i,
    {
        acc = acc + width_of(s[i]);
        proof {
            assert(s@.subrange(0, i + 1).drop_last() =~= s@.subrange(0, i as int));
        }
        i = i + 1;
    }
    proof {
        assert(s@.subrange(0, s@.len() as int) =~= s@);
    }
    acc
}

/// Where the first `\r\n\r\n` stands in `s`, or its length.
fn find_blank_line(s: &Vec<char>) -> (r: usize)
    ensures
        r == blank_line_at(s@),
        r <= s@.len(),
{
    let n = s.len();
    let mut i: usize = 0;
    proof {
        reveal_strlit("\r\n\r\n");
        assert(s@.subrange(0, n as int) =~= s@);
    }
    while n - i >= 4 && !(s[i] == '\r' && s[i + 1] == '\n' && s[i + 2] == '\r' && s[i + 3] == '\n')
        invariant
            i <= n,
            n == s@.len(),
            blank_line_at(s@) == i + blank_line_at(s@.subrange(i as int, n as int)),
        decreases n - i,
    {
        proof {
            let t = s@.subrange(i as int, n as int);
            reveal_strlit("\r\n\r\n");
            if t.subrange(0, 4) == "\r\n\r\n"@ {
                assert(t.subrange(0, 4)[0] == '\r');
                assert(t.subrange(0, 4)[1] == '\n');
                assert(t.subrange(0, 4)[2] == '\r');
                assert(t.subrange(0, 4)[3] == '\n');
            }
            assert(t.drop_first() =~= s@.subrange(i + 1, n as int));
        }
        i = i + 1;
    }
    if n - i < 4 {
        return n;
    }
    proof {
        let t = s@.subrange(i as int, n as int);
        reveal_strlit("\r\n\r\n");
        assert(t.subrange(0, 4) =~= "\r\n\r\n"@);
    }
    i
}

/// The body of the request text `s`.
fn body_of(s: &Vec<char>) -> (r: String)
    ensures
        r@ == request_body(s@),
{
    let n = s.len();
    let j = find_blank_line(s);
    let a = if n - j >= 4 {
        j + 4
    } else {
        n
    };
    let ghost rest = s@.subrange(a as int, n as int);
    proof {
        if !(n - j >= 4) {
            assert(rest =~= Seq::<char>::empty());
        }
    }
    let declared = declared_length_of(s) as u128;
    let total = text_width(s);
    let k = if declared <= total {
        declared
    } else {
        total
    };
    let mut acc: u128 = 0;
    let mut i = a;
    proof {
        assert(s@.subrange(i as int, n as int) =~= rest);
        assert(s@.subrange(a as int, i as int) =~= Seq::<char>::empty());
        match prefix_of_width(rest, k as int) {
            Some(p) => assert(s@.subrange(a as int, i as int) + p =~= p),
            None => {},
        }
    }
    while i < n && acc < k
        invariant
            a <= i <= n,
            n == s@.len(),
            rest == s@.subrange(a as int, n as int),
            acc <= 4 * (i - a),
            prefix_of_width(rest, k as int) == (match prefix_of_width(s@.subrange(i as int, n as int), k - acc) {
                Some(p) => Some(s@.subrange(a as int, i as int) + p),
                None => None,
            }),
        decreases n - i,
    {
        let w = width_of(s[i]);
        proof {
            let t = s@.subrange(i as int, n as int);
            assert(t.drop_first() =~= s@.subrange(i + 1, n as int));
            assert(t[0] == s@[i as int]);
            match prefix_of_width(s@.subrange(i + 1, n as int), k - acc - w) {
                Some(p) => {
                    assert(s@.subrange(a as int, i as int) + (seq![s@[i as int]] + p) =~= s@.subrange(a as int, i + 1) + p);
                },
                None => {},
            }
        }
        acc = acc + w;
        i = i + 1;
    }
    if acc == k {
        proof {
            assert(s@.subrange(a as int, i as int) + Seq::<char>::empty() =~= s@.subrange(a as int, i as int));
        }
        text_between(s, a, i)
    } else {
        String::new()
    }
}

/// Read a raw request the daemon received: its bytes decoded as
/// `String::from_utf8_lossy` decodes them, the method word of the request
/// line upper-cased, the path (`/` when the line has none) and the body
/// its declared length takes.
pub fn parse_request(raw: &[u8]) -> (r: Request)
    ensures
        r.method@ == uppercase(method_word(utf8_lossy(raw@))),
        r.path@ == request_path(utf8_lossy(raw@)),
        r.body@ == request_body(utf8_lossy(raw@)),
{
    let text = lossy_string(raw);
    let s = chars_of(text.as_str());
    let (method_text, path_text) = if s.len() == 0 {
        (String::new(), String::new())
    } else {
        let (line, _nl) = line_from(&s, 0);
        proof {
            assert(s@.subrange(0, s@.len() as int) =~= s@);
        }
        first_two_words(&line)
    };
    let method = to_uppercase(method_text.as_str());
    let path_chars = chars_of(path_text.as_str());
    let path = if path_chars.len() == 0 {
        String::from_str("/")
    } else {
        path_text
    };
    let body = body_of(&s);
    Request { method, path, body }
}

} // verus!
