//! The dashboard daemon's own grammar: which API endpoint a request names,
//! how text is escaped into a JSON string, and how percent-escapes in a
//! request path decode. Sockets, files and the language model are the
//! caller's part.
use vstd::prelude::*;
use vstd::string::*;
use crate::ai::entropy::{lowercase, to_lowercase};
use crate::text::{chars_of, push_char};

verus! {

/// A character as it stands inside a JSON string.
pub open spec fn json_char(c: char) -> Seq<char> {
    if c == '\\' {
        seq!['\\', '\\']
    } else if c == '"' {
        seq!['\\', '"']
    } else if c == '\n' {
        seq!['\\', 'n']
    } else if c == '\r' {
        seq!['\\', 'r']
    } else if c == '\t' {
        seq!['\\', 't']
    } else {
        seq![c]
    }
}

/// A text as it stands inside a JSON string: backslash, quote, newline,
/// carriage return and tab escaped, every other character as it is.
pub open spec fn json_escaped(s: Seq<char>) -> Seq<char>
    decreases s.len(),
{
    if s.len() == 0 {
        Seq::empty()
    } else {
        json_escaped(s.drop_last()) + json_char(s.last())
    }
}

/// `s` escaped for use inside a JSON string.
pub fn escape_json(s: &str) -> (r: String)
    ensures
        r@ == json_escaped(s@),
{
    let cs = chars_of(s);
    let mut out = String::new();
    let mut i: usize = 0;
    while i < cs.len()
        invariant
            i <= cs@.len(),
            cs@ == s@,
            out@ == json_escaped(cs@.take(i as int)),
        decreases cs@.len() - i,
    {
        let c = cs[i];
        let ghost before = out@;
        if c == '\\' {
            push_char(&mut out, '\\');
            push_char(&mut out, '\\');
        } else if c == '"' {
            push_char(&mut out, '\\');
            push_char(&mut out, '"');
        } else if c == '\n' {
            push_char(&mut out, '\\');
            push_char(&mut out, 'n');
        } else if c == '\r' {
            push_char(&mut out, '\\');
            push_char(&mut out, 'r');
        } else if c == '\t' {
            push_char(&mut out, '\\');
            push_char(&mut out, 't');
        } else {
            push_char(&mut out, c);
        }
        proof {
            assert(cs@.take(i + 1).drop_last() =~= cs@.take(i as int));
            assert(cs@.take(i + 1).last() == c);
            assert(out@ =~= before + json_char(c));
        }
        i = i + 1;
    }
    assert(cs@.take(cs@.len() as int) =~= s@);
    out
}

/// The value of a hexadecimal digit.
pub open spec fn hex_value(c: char) -> Option<u8> {
    if '0' <= c && c <= '9' {
        Some((c as u32 - 48) as u8)
    } else if 'a' <= c && c <= 'f' {
        Some((c as u32 - 87) as u8)
    } else if 'A' <= c && c <= 'F' {
        Some((c as u32 - 55) as u8)
    } else {
        None
    }
}

/// The byte that the two characters after a `%` stand for, read as base-16
/// digits the way `u8::from_str_radix` reads them (a leading `+` allowed);
/// `None` when they are not such a number.
pub open spec fn escape_byte(h1: char, h2: char) -> Option<u8> {
    if h1 == '+' {
        hex_value(h2)
    } else if hex_value(h1) is Some && hex_value(h2) is Some {
        Some((hex_value(h1).unwrap() * 16 + hex_value(h2).unwrap()) as u8)
    } else {
        None
    }
}

/// A request path with its percent-escapes decoded: `%` and the two
/// characters after it (`0` standing in for a missing one) become the byte
/// they spell as a character, or nothing when they spell none; every other
/// character stays.
pub open spec fn url_decoded(s: Seq<char>) -> Seq<char>
    decreases s.len(),
{
    if s.len() == 0 {
        Seq::empty()
    } else if s[0] == '%' {
        let h1 = if s.len() > 1 {
            s[1]
        } else {
            '0'
        };
        let h2 = if s.len() > 2 {
            s[2]
        } else {
            '0'
        };
        let rest = s.subrange(if s.len() > 3 {
            3
        } else {
            s.len() as int
        }, s.len() as int);
        (match escape_byte(h1, h2) {
            Some(b) => seq![b as char],
            None => Seq::empty(),
        }) + url_decoded(rest)
    } else {
        seq![s[0]] + url_decoded(s.drop_first())
    }
}

fn hex_digit(c: char) -> (r: Option<u8>)
    ensures
        r == hex_value(c),
{
    if '0' <= c && c <= '9' {
        Some((c as u32 - 48) as u8)
    } else if 'a' <= c && c <= 'f' {
        Some((c as u32 - 87) as u8)
    } else if 'A' <= c && c <= 'F' {
        Some((c as u32 - 55) as u8)
    } else {
        None
    }
}

/// `s` with its percent-escapes decoded.
pub fn url_decode(s: &str) -> (r: String)
    ensures
        r@ == url_decoded(s@),
{
    let cs = chars_of(s);
    let n = cs.len();
    let mut out = String::new();
    let mut i: usize = 0;
    proof {
        assert(cs@.subrange(0, n as int) =~= cs@);
    }
    while i < n
        invariant
            i <= n,
            n == cs@.len(),
            cs@ == s@,
            out@ + url_decoded(cs@.subrange(i as int, n as int)) == url_decoded(s@),
        decreases n - i,
    {
        let ghost rest = cs@.subrange(i as int, n as int);
        let ghost before = out@;
        let c = cs[i];
        if c == '%' {
            let h1 = if n - i > 1 {
                cs[i + 1]
            } else {
                '0'
            };
            let h2 = if n - i > 2 {
                cs[i + 2]
            } else {
                '0'
            };
            let b: Option<u8> = if h1 == '+' {
                hex_digit(h2)
            } else {
                match (hex_digit(h1), hex_digit(h2)) {
                    (Some(x), Some(y)) => Some(x * 16 + y),
                    _ => None,
                }
            };
            match b {
                Some(v) => push_char(&mut out, v as char),
                None => {},
            }
            let next = if n - i > 3 {
                i + 3
            } else {
                n
            };
            proof {
                assert(rest[0] == '%');
                assert(rest.len() > 1 ==> rest[1] == h1);
                assert(rest.len() > 2 ==> rest[2] == h2);
                assert(rest.subrange(if rest.len() > 3 {
                    3
                } else {
                    rest.len() as int
                }, rest.len() as int) =~= cs@.subrange(next as int, n as int));
                assert(b == escape_byte(h1, h2));
                match b {
                    Some(v) => assert(out@ =~= before + seq![v as char]),
                    None => assert(out@ =~= before),
                }
                assert(out@ + url_decoded(cs@.subrange(next as int, n as int)) =~= before + url_decoded(rest));
            }
            i = next;
        } else {
            push_char(&mut out, c);
            proof {
                assert(rest[0] == c);
                assert(rest.drop_first() =~= cs@.subrange(i + 1, n as int));
                assert(out@ + url_decoded(cs@.subrange(i + 1, n as int)) =~= before + url_decoded(rest));
            }
            i = i + 1;
        }
    }
    proof {
        assert(cs@.subrange(n as int, n as int) =~= Seq::<char>::empty());
        assert(out@ + Seq::<char>::empty() =~= out@);
    }
    out
}


/// Name for what `str::to_uppercase` returns for a text.
pub uninterp spec fn uppercase(s: Seq<char>) -> Seq<char>;

/// Calls `str::to_uppercase`. The result is the named uppercase form of
/// exactly this text; Unicode case mapping is not spelled out here.
#[verifier::external_body]
pub(crate) fn to_uppercase(s: &str) -> (r: String)
    ensures
        r@ == uppercase(s@),
{
    s.to_uppercase()
}

/// `s` begins with `prefix`.
pub open spec fn starts_with(s: Seq<char>, prefix: Seq<char>) -> bool {
    prefix.len() <= s.len() && s.subrange(0, prefix.len() as int) == prefix
}

/// Whether the characters `s` begin with those of `prefix`.
pub(crate) fn chars_start_with(s: &Vec<char>, prefix: &str) -> (r: bool)
    ensures
        r == starts_with(s@, prefix@),
{
    let pre = chars_of(prefix);
    if pre.len() > s.len() {
        return false;
    }
    let mut i: usize = 0;
    while i < pre.len()
        invariant
            i <= pre@.len(),
            pre@ == prefix@,
            pre@.len() <= s@.len(),
            forall|j: int| 0 <= j < i ==> s@[j] == pre@[j],
        decreases pre@.len() - i,
    {
        if s[i] != pre[i] {
            assert(s@.subrange(0, pre@.len() as int)[i as int] != pre@[i as int]);
            return false;
        }
        i = i + 1;
    }
    assert(s@.subrange(0, pre@.len() as int) =~= pre@);
    true
}

/// Whether the characters `s` are exactly those of `text`.
fn chars_equal(s: &Vec<char>, text: &str) -> (r: bool)
    ensures
        r == (s@ == text@),
{
    let same_len = s.len() == chars_of(text).len();
    if !same_len {
        return false;
    }
    let r = chars_start_with(s, text);
    proof {
        if r {
            assert(s@ =~= s@.subrange(0, text@.len() as int));
        }
        if s@ == text@ {
            assert(s@.subrange(0, text@.len() as int) =~= text@);
        }
    }
    r
}

/// The characters of `s` from index `start` on, as a text.
fn text_from(s: &Vec<char>, start: usize) -> (r: String)
    requires
        start <= s@.len(),
    ensures
        r@ == s@.subrange(start as int, s@.len() as int),
{
    let mut out = String::new();
    let mut i = start;
    while i < s.len()
        invariant
            start <= i <= s@.len(),
            out@ == s@.subrange(start as int, i as int),
        decreases s@.len() - i,
    {
        push_char(&mut out, s[i]);
        proof {
            assert(out@ =~= s@.subrange(start as int, i + 1));
        }
        i = i + 1;
    }
    out
}

/// `s` without the `/` characters it begins with.
pub open spec fn without_leading_slashes(s: Seq<char>) -> Seq<char>
    decreases s.len(),
{
    if s.len() > 0 && s[0] == '/' {
        without_leading_slashes(s.drop_first())
    } else {
        s
    }
}

/// What the daemon does with a request.
#[derive(PartialEq, Eq, Structural, Clone, Copy, Debug)]
pub enum RouteKind {
    /// A CORS preflight (`OPTIONS`), answered with no content.
    Preflight,
    /// The telemetry snapshot of the mounted volume.
    Telemetry,
    /// The listing of the volume's top directory.
    ListFiles,
    /// Read the named file.
    ReadFile,
    /// Write the request body to the named file.
    WriteFile,
    /// Delete the named file or directory.
    DeleteFile,
    /// Create the named directory.
    MakeDir,
    /// A file or directory endpoint asked with a method it does not take.
    MethodNotAllowed,
    /// A semantic search with the request body as query.
    Search,
    /// A question for the assistant with the request body as text.
    Ask,
    /// The snapshot listing.
    Snapshots,
    /// A file of the dashboard itself, served as it is or answered 404.
    Asset,
}

/// A routed request: what to do and the file or directory name it names
/// (the decoded name for the file and directory endpoints, the path under
/// the dashboard directory for an asset, empty otherwise).
pub struct Route {
    pub kind: RouteKind,
    pub name: String,
}

/// What the daemon does with a request whose method, upper-cased, is `m`
/// and whose path is `p`.
pub open spec fn route_kind(m: Seq<char>, p: Seq<char>) -> RouteKind {
    if m == "OPTIONS"@ {
        RouteKind::Preflight
    } else if p == "/api/telemetry"@ {
        RouteKind::Telemetry
    } else if p == "/api/files"@ && m == "GET"@ {
        RouteKind::ListFiles
    } else if starts_with(p, "/api/file/"@) {
        if m == "GET"@ {
            RouteKind::ReadFile
        } else if m == "POST"@ {
            RouteKind::WriteFile
        } else if m == "DELETE"@ {
            RouteKind::DeleteFile
        } else {
            RouteKind::MethodNotAllowed
        }
    } else if starts_with(p, "/api/dir/"@) {
        if m == "POST"@ {
            RouteKind::MakeDir
        } else {
            RouteKind::MethodNotAllowed
        }
    } else if p == "/api/search"@ && m == "POST"@ {
        RouteKind::Search
    } else if p == "/api/ask"@ && m == "POST"@ {
        RouteKind::Ask
    } else if p == "/api/snapshots"@ && m == "GET"@ {
        RouteKind::Snapshots
    } else {
        RouteKind::Asset
    }
}

/// The name a request names, by its kind: the decoded rest of the path
/// for the file and directory endpoints, `index.html` for the root and the
/// path without its leading slashes for any other asset, nothing otherwise.
pub open spec fn route_name(kind: RouteKind, p: Seq<char>) -> Seq<char> {
    match kind {
        RouteKind::ReadFile | RouteKind::WriteFile | RouteKind::DeleteFile => url_decoded(
            p.subrange("/api/file/"@.len() as int, p.len() as int),
        ),
        RouteKind::MakeDir => url_decoded(p.subrange("/api/dir/"@.len() as int, p.len() as int)),
        RouteKind::Asset => if p == "/"@ {
            "index.html"@
        } else {
            without_leading_slashes(p)
        },
        _ => Seq::empty(),
    }
}

/// The part of `s` after its leading `/` characters.
fn skip_leading_slashes(s: &Vec<char>) -> (r: String)
    ensures
        r@ == without_leading_slashes(s@),
{
    let mut i: usize = 0;
    assert(s@.subrange(0, s@.len() as int) =~= s@);
    while i < s.len() && s[i] == '/'
        invariant
            i <= s@.len(),
            without_leading_slashes(s@) == without_leading_slashes(s@.subrange(i as int, s@.len() as int)),
        decreases s@.len() - i,
    {
        proof {
            let rest = s@.subrange(i as int, s@.len() as int);
            assert(rest.drop_first() =~= s@.subrange(i + 1, s@.len() as int));
        }
        i = i + 1;
    }
    let r = text_from(s, i);
    proof {
        let rest = s@.subrange(i as int, s@.len() as int);
        assert(rest.len() == 0 || rest[0] != '/');
    }
    r
}

/// How the daemon answers a request with this method and path.
pub fn route(method: &str, path: &str) -> (r: Route)
    ensures
        r.kind == route_kind(uppercase(method@), path@),
        r.name@ == route_name(r.kind, path@),
{
    let m = chars_of(to_uppercase(method).as_str());
    let p = chars_of(path);
    proof {
        reveal_strlit("/api/file/");
        reveal_strlit("/api/dir/");
    }
    let kind = if chars_equal(&m, "OPTIONS") {
        RouteKind::Preflight
    } else if chars_equal(&p, "/api/telemetry") {
        RouteKind::Telemetry
    } else if chars_equal(&p, "/api/files") && chars_equal(&m, "GET") {
        RouteKind::ListFiles
    } else if chars_start_with(&p, "/api/file/") {
        if chars_equal(&m, "GET") {
            RouteKind::ReadFile
        } else if chars_equal(&m, "POST") {
            RouteKind::WriteFile
        } else if chars_equal(&m, "DELETE") {
            RouteKind::DeleteFile
        } else {
            RouteKind::MethodNotAllowed
        }
    } else if chars_start_with(&p, "/api/dir/") {
        if chars_equal(&m, "POST") {
            RouteKind::MakeDir
        } else {
            RouteKind::MethodNotAllowed
        }
    } else if chars_equal(&p, "/api/search") && chars_equal(&m, "POST") {
        RouteKind::Search
    } else if chars_equal(&p, "/api/ask") && chars_equal(&m, "POST") {
        RouteKind::Ask
    } else if chars_equal(&p, "/api/snapshots") && chars_equal(&m, "GET") {
        RouteKind::Snapshots
    } else {
        RouteKind::Asset
    };
    let name = match kind {
        RouteKind::ReadFile | RouteKind::WriteFile | RouteKind::DeleteFile => {
            let rest = text_from(&p, 10);
            url_decode(rest.as_str())
        },
        RouteKind::MakeDir => {
            let rest = text_from(&p, 9);
            url_decode(rest.as_str())
        },
        RouteKind::Asset => {
            if chars_equal(&p, "/") {
                String::from_str("index.html")
            } else {
                skip_leading_slashes(&p)
            }
        },
        _ => String::new(),
    };
    Route { kind, name }
}

/// What follows the last `.` of a name (the whole name when it has none).
pub open spec fn last_segment(s: Seq<char>) -> Seq<char>
    decreases s.len(),
{
    if s.len() == 0 || s.last() == '.' {
        Seq::empty()
    } else {
        last_segment(s.drop_last()).push(s.last())
    }
}

/// The extensions the dashboard opens as text.
pub open spec fn text_extension(e: Seq<char>) -> bool {
    ||| e == "txt"@ ||| e == "md"@ ||| e == "rs"@ ||| e == "toml"@ ||| e == "yaml"@ ||| e == "yml"@
    ||| e == "json"@ ||| e == "sh"@ ||| e == "py"@ ||| e == "js"@ ||| e == "ts"@ ||| e == "html"@
    ||| e == "css"@ ||| e == "c"@ ||| e == "h"@ ||| e == "cpp"@ ||| e == "go"@ ||| e == "java"@
    ||| e == "log"@ ||| e == "conf"@ ||| e == "ini"@ ||| e == "env"@ ||| e == "xml"@
}

/// Whether the dashboard shows a file of this name as text: its extension,
/// lower-cased, is one of the text extensions.
pub fn is_text_name(name: &str) -> (r: bool)
    ensures
        r == text_extension(lowercase(last_segment(name@))),
{
    let cs = chars_of(name);
    let n = cs.len();
    let mut start = n;
    proof {
        assert(cs@.subrange(0, n as int) =~= cs@);
        assert(last_segment(cs@) + cs@.subrange(n as int, n as int) =~= last_segment(cs@));
    }
    while start > 0 && cs[start - 1] != '.'
        invariant
            start <= n,
            n == cs@.len(),
            last_segment(cs@) == last_segment(cs@.subrange(0, start as int)) + cs@.subrange(start as int, n as int),
        decreases start,
    {
        proof {
            let p = cs@.subrange(0, start as int);
            assert(p.drop_last() =~= cs@.subrange(0, start - 1));
            assert(last_segment(p) == last_segment(p.drop_last()).push(p.last()));
            assert(last_segment(p.drop_last()).push(p.last()) + cs@.subrange(start as int, n as int)
                =~= last_segment(cs@.subrange(0, start - 1)) + cs@.subrange(start - 1, n as int));
        }
        start = start - 1;
    }
    proof {
        assert(last_segment(cs@.subrange(0, start as int)) =~= Seq::<char>::empty());
        assert(Seq::<char>::empty() + cs@.subrange(start as int, n as int) =~= cs@.subrange(start as int, n as int));
    }
    let ext = text_from(&cs, start);
    proof {
        assert(ext@ == last_segment(name@));
    }
    let e = chars_of(to_lowercase(ext.as_str()).as_str());
    chars_equal(&e, "txt") || chars_equal(&e, "md") || chars_equal(&e, "rs") || chars_equal(&e, "toml")
        || chars_equal(&e, "yaml") || chars_equal(&e, "yml") || chars_equal(&e, "json") || chars_equal(&e, "sh")
        || chars_equal(&e, "py") || chars_equal(&e, "js") || chars_equal(&e, "ts") || chars_equal(&e, "html")
        || chars_equal(&e, "css") || chars_equal(&e, "c") || chars_equal(&e, "h") || chars_equal(&e, "cpp")
        || chars_equal(&e, "go") || chars_equal(&e, "java") || chars_equal(&e, "log") || chars_equal(&e, "conf")
        || chars_equal(&e, "ini") || chars_equal(&e, "env") || chars_equal(&e, "xml")
}

} // verus!
