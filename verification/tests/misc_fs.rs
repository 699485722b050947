use vexfs::pattern::regex_match;
use vexfs::diff::{line_diff, DiffKind};
use vexfs::tree::tree_lines;
use vexfs::http::parse_request;
use vexfs::web::{route, RouteKind};
use vexfs::allocator::SlabAllocator;
use vexfs::fs::compress::{compress, decompress, is_compressed};
use vexfs::fs::snapshot_disk::{DiskSnapshot, SNAPSHOT_MAGIC};

#[test]
fn test_allocator_tracks_size() {
    let alloc = SlabAllocator::new(64 * 1024 * 1024);
    assert_eq!(alloc.used(), 0);
    assert_eq!(alloc.available(), 64 * 1024 * 1024);
}

#[test]
fn test_compress_decompress_roundtrip() {
    let original = b"hello world this is a test of compression ".repeat(100);
    let compressed = compress(&original);
    assert!(compressed.len() < original.len());
    assert!(is_compressed(&compressed));
    let decompressed = decompress(&compressed);
    assert_eq!(decompressed, original);
}

#[test]
fn test_small_data_not_compressed() {
    let data = b"tiny";
    let result = compress(data);
    assert_eq!(result, data);
    assert!(!is_compressed(&result));
}

#[test]
fn test_incompressible_data_not_compressed() {
    let data: Vec<u8> = (0..=255u8).cycle().take(4096).collect();
    let out = compress(&data);
    assert!(!is_compressed(&out) || out.len() < data.len());
}

#[test]
fn test_decompress_passthrough_for_uncompressed() {
    let data = b"not compressed data";
    assert_eq!(decompress(data), data);
}

#[test]
fn compressed_header_holds_magic_and_size() {
    let original = vec![7u8; 2000];
    let c = compress(&original);
    assert_eq!(&c[0..4], &0x5A535444u32.to_le_bytes());
    assert_eq!(&c[4..8], &2000u32.to_le_bytes());
}

#[test]
fn disk_snapshot_name_and_validity() {
    let mut s = DiskSnapshot::empty();
    assert!(!s.is_valid());
    s.magic = SNAPSHOT_MAGIC;
    s.is_used = 1;
    assert!(s.is_valid());
    s.set_name("config.toml");
    assert_eq!(s.get_name(), "config.toml");
    s.set_name("bad/name");
    assert_eq!(s.get_name(), "");
    let long = "x".repeat(300);
    s.set_name(&long);
    assert_eq!(s.get_name().len(), 207);
}

#[test]
fn escape_json_escapes_quotes_and_controls() {
    assert_eq!(vexfs::web::escape_json("a\"b\\c\nd\re\tf"), "a\\\"b\\\\c\\nd\\re\\tf");
    assert_eq!(vexfs::web::escape_json("plain"), "plain");
}

#[test]
fn url_decode_handles_escapes() {
    assert_eq!(vexfs::web::url_decode("a%20b"), "a b");
    assert_eq!(vexfs::web::url_decode("%41%4a%4A"), "AJJ");
    assert_eq!(vexfs::web::url_decode("%zzx"), "x");
    assert_eq!(vexfs::web::url_decode("%+5"), "\u{5}");
    assert_eq!(vexfs::web::url_decode("%4"), "@");
    assert_eq!(vexfs::web::url_decode("100%"), "100\u{0}");
    assert_eq!(vexfs::web::url_decode("%e9"), "\u{e9}");
}

#[test]
fn route_names_endpoints() {
    let r = route("get", "/api/file/notes%20one.txt");
    assert_eq!(r.kind, RouteKind::ReadFile);
    assert_eq!(r.name, "notes one.txt");
    assert_eq!(route("POST", "/api/file/x").kind, RouteKind::WriteFile);
    assert_eq!(route("DELETE", "/api/file/x").kind, RouteKind::DeleteFile);
    assert_eq!(route("PUT", "/api/file/x").kind, RouteKind::MethodNotAllowed);
    let d = route("POST", "/api/dir/new%2Fdir");
    assert_eq!(d.kind, RouteKind::MakeDir);
    assert_eq!(d.name, "new/dir");
    assert_eq!(route("GET", "/api/dir/x").kind, RouteKind::MethodNotAllowed);
    assert_eq!(route("OPTIONS", "/api/files").kind, RouteKind::Preflight);
    assert_eq!(route("DELETE", "/api/telemetry").kind, RouteKind::Telemetry);
    assert_eq!(route("GET", "/api/files").kind, RouteKind::ListFiles);
    assert_eq!(route("POST", "/api/search").kind, RouteKind::Search);
    assert_eq!(route("POST", "/api/ask").kind, RouteKind::Ask);
    assert_eq!(route("GET", "/api/snapshots").kind, RouteKind::Snapshots);
    let root = route("GET", "/");
    assert_eq!(root.kind, RouteKind::Asset);
    assert_eq!(root.name, "index.html");
    let css = route("GET", "//style.css");
    assert_eq!(css.kind, RouteKind::Asset);
    assert_eq!(css.name, "style.css");
    assert_eq!(route("GET", "/api/search").kind, RouteKind::Asset);
}

#[test]
fn parse_request_reads_line_length_and_body() {
    let raw = b"post /api/file/a.txt HTTP/1.1\r\nHost: x\r\nContent-Length: 5\r\n\r\nhello world";
    let r = parse_request(raw);
    assert_eq!(r.method, "POST");
    assert_eq!(r.path, "/api/file/a.txt");
    assert_eq!(r.body, "hello");
}

#[test]
fn parse_request_edge_cases() {
    let r = parse_request(b"");
    assert_eq!(r.method, "");
    assert_eq!(r.path, "/");
    assert_eq!(r.body, "");
    let r = parse_request(b"GET\r\n\r\nbody");
    assert_eq!(r.method, "GET");
    assert_eq!(r.path, "/");
    assert_eq!(r.body, "");
    // a declared length past the end of the body takes nothing
    let r = parse_request(b"POST /x\r\ncontent-length: +40\r\n\r\nshort");
    assert_eq!(r.body, "");
    // a length that is no number counts as zero
    let r = parse_request(b"POST /x\r\nCONTENT-LENGTH: abc\r\n\r\nshort");
    assert_eq!(r.body, "");
    // a length that ends inside a character takes nothing
    let r = parse_request("POST /x\r\nContent-Length: 1\r\n\r\n\u{e9}".as_bytes());
    assert_eq!(r.body, "");
    let r = parse_request("POST /x\r\nContent-Length:  2 \r\n\r\n\u{e9}z".as_bytes());
    assert_eq!(r.body, "\u{e9}");
}

fn tree_fixture() -> Vec<(u64, u64, String, bool)> {
    vec![
        (2, 1, "src".to_string(), true),
        (3, 1, "b.txt".to_string(), false),
        (4, 1, "a.txt".to_string(), false),
        (5, 2, "main.rs".to_string(), false),
        (6, 2, "bin".to_string(), true),
        (7, 6, "x.rs".to_string(), false),
    ]
}

#[test]
fn tree_lines_draws_dirs_first_then_names() {
    let (rows, files, dirs) = tree_lines(&tree_fixture(), 1, 0);
    let lines: Vec<String> = rows.iter().map(|r| r.1.clone()).collect();
    assert_eq!(
        lines,
        vec![
            "\u{251c}\u{2500}\u{2500} \u{1f4c1} src".to_string(),
            "\u{2502}   \u{251c}\u{2500}\u{2500} \u{1f4c1} bin".to_string(),
            "\u{2502}   \u{2502}   \u{2514}\u{2500}\u{2500} \u{1f4c4} x.rs".to_string(),
            "\u{2502}   \u{2514}\u{2500}\u{2500} \u{1f4c4} main.rs".to_string(),
            "\u{251c}\u{2500}\u{2500} \u{1f4c4} a.txt".to_string(),
            "\u{2514}\u{2500}\u{2500} \u{1f4c4} b.txt".to_string(),
        ]
    );
    let inos: Vec<u64> = rows.iter().map(|r| r.0).collect();
    assert_eq!(inos, vec![2, 6, 7, 5, 4, 3]);
    assert_eq!((files, dirs), (4, 2));
}

#[test]
fn tree_lines_stops_at_depth_limit() {
    let (rows, files, dirs) = tree_lines(&tree_fixture(), 1, 1);
    let inos: Vec<u64> = rows.iter().map(|r| r.0).collect();
    assert_eq!(inos, vec![2, 6, 5, 4, 3]);
    assert_eq!((files, dirs), (3, 2));
    let (rows, files, dirs) = tree_lines(&tree_fixture(), 99, 0);
    assert!(rows.is_empty());
    assert_eq!((files, dirs), (0, 0));
}

#[test]
fn tree_lines_ends_on_a_parent_cycle() {
    let entries = vec![(1, 1, "loop".to_string(), true)];
    let (rows, _, dirs) = tree_lines(&entries, 1, 0);
    assert_eq!(rows.len(), 2);
    assert_eq!(dirs, 2);
}

#[test]
fn regex_match_anchors_and_wildcards() {
    assert!(regex_match("^a.*z$", "abcz"));
    assert!(!regex_match("^a.*$", "abc"));
    assert!(regex_match("foo", "xfooy"));
    assert!(!regex_match("^foo", "xfoo"));
    assert!(regex_match("foo$", "xfoo"));
    assert!(regex_match("^foo$", "foo"));
    assert!(!regex_match("^foo$", "foox"));
    assert!(regex_match(".*", ""));
    assert!(!regex_match("a.*b.*c", "acb"));
    assert!(regex_match("a.*b.*c", "xaybzc"));
    assert!(regex_match("^^x$$", "x"));
}

#[test]
fn line_diff_compares_by_position() {
    let (rows, added, removed) = line_diff(&["x", "y", "z"], &["x", "q"]);
    let got: Vec<(DiffKind, String)> = rows.into_iter().map(|l| (l.kind, l.text)).collect();
    assert_eq!(
        got,
        vec![
            (DiffKind::Same, "x".to_string()),
            (DiffKind::Removed, "y".to_string()),
            (DiffKind::Added, "q".to_string()),
            (DiffKind::Removed, "z".to_string()),
        ]
    );
    assert_eq!((added, removed), (1, 2));
}

#[test]
fn name_matches_by_piece_or_pattern() {
    assert!(vexfs::pattern::name_matches("FOO", "xfooy", false));
    assert!(!vexfs::pattern::name_matches("bar", "xfooy", false));
    assert!(!vexfs::pattern::name_matches("^a", "ba", true));
    assert!(vexfs::pattern::name_matches("a$", "ba", true));
}

#[test]
fn text_names_by_extension() {
    assert!(vexfs::web::is_text_name("notes.MD"));
    assert!(vexfs::web::is_text_name("a.tar.rs"));
    assert!(!vexfs::web::is_text_name("image.png"));
    assert!(!vexfs::web::is_text_name("Makefile"));
    assert!(vexfs::web::is_text_name("env"));
    assert!(!vexfs::web::is_text_name("trailing."));
}
