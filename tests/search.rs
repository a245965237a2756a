use search_tool::{
    check_request, classify_path, normalize_output, normalize_text, path_target, render_matches,
    search_arguments, PathTarget, SearchError, SearchRequest, Workspace,
};

fn request(pattern: &str, root: &str) -> SearchRequest {
    SearchRequest {
        pattern: pattern.to_string(),
        root: root.to_string(),
        file_filter: None,
        case_sensitive: false,
        whole_phrase: false,
        whole_word: false,
    }
}

fn unescape(s: &str) -> String {
    s.replace("&apos;", "'")
        .replace("&quot;", "\"")
        .replace("&gt;", ">")
        .replace("&lt;", "<")
        .replace("&amp;", "&")
}

const STATS: &str = "\n3 matches\n2 matched lines\n1 files contained matches\n5 files searched\n120 bytes printed\n3000 bytes searched\n0.000123 seconds spent searching\n0.004567 seconds\n";

#[test]
fn arguments_for_default_request() {
    let args = search_arguments(&request("foo", "/tmp/proj"));
    let expected = vec![
        "--line-number", "--with-filename", "--no-ignore", "--hidden", "--text", "--stats",
        "--ignore-case", "foo", ".",
    ];
    assert_eq!(args, expected);
}

#[test]
fn arguments_for_every_option() {
    let mut req = request("a.b", "/r");
    req.case_sensitive = true;
    req.whole_phrase = true;
    req.whole_word = true;
    req.file_filter = Some("*.rs".to_string());
    let args = search_arguments(&req);
    let expected = vec![
        "--line-number", "--with-filename", "--no-ignore", "--hidden", "--text", "--stats",
        "--case-sensitive", "--fixed-strings", "--word-regexp", "--glob", "*.rs", "a.b", ".",
    ];
    assert_eq!(args, expected);
}

#[test]
fn blank_fields_are_invalid() {
    assert_eq!(
        check_request(&request(" \t", "/tmp")),
        Err(SearchError::InvalidInput("Search query cannot be empty".to_string()))
    );
    assert_eq!(
        check_request(&request("x", "\u{00A0} ")),
        Err(SearchError::InvalidInput("Search path cannot be empty".to_string()))
    );
    assert_eq!(
        check_request(&request("", "")),
        Err(SearchError::InvalidInput("Search query cannot be empty".to_string()))
    );
    assert!(check_request(&request(" x ", "/tmp")).is_ok());
}

#[test]
fn begin_search_records_root() {
    let mut ws = Workspace::new();
    assert_eq!(ws.last_root(), None);
    let args = ws.begin_search(&request("foo", "/tmp/proj")).unwrap();
    assert_eq!(args.last().unwrap(), ".");
    assert_eq!(ws.last_root(), Some("/tmp/proj".to_string()));
    assert!(ws.begin_search(&request("", "/elsewhere")).is_err());
    assert_eq!(ws.last_root(), Some("/elsewhere".to_string()));
}

#[test]
fn whole_word_search_gives_one_record_per_line() {
    let mut req = request("foo", "/tmp/proj");
    req.whole_word = true;
    let args = search_arguments(&req);
    assert!(args.contains(&"--word-regexp".to_string()));
    let out = normalize_text("./notes.txt:1:foobar foo baz\n");
    assert_eq!(out.matches.len(), 1);
    assert_eq!(out.matches[0].file, "./notes.txt");
    assert_eq!(out.matches[0].line, "1");
    assert_eq!(out.matches[0].content, "foobar foo baz");
}

#[test]
fn non_ascii_content_is_dropped() {
    let out = normalize_text("src/app.txt:42:héllo\nsrc/b.txt:3:hello\n");
    assert_eq!(out.matches.len(), 1);
    assert_eq!(out.matches[0].file, "src/b.txt");
    assert_eq!(out.matches[0].line, "3");
    assert_eq!(out.matches[0].content, "hello");
}

#[test]
fn non_ascii_whitespace_is_kept() {
    let out = normalize_text("a.txt:1:x\u{00A0}y\n");
    assert_eq!(out.matches.len(), 1);
    assert_eq!(out.matches[0].content, "x\u{00A0}y");
}

#[test]
fn statistics_are_read() {
    let out = normalize_text(&format!("a.txt:1:foo{}", STATS));
    assert_eq!(out.stats.total_matches, 3);
    assert_eq!(out.stats.matched_lines, 2);
    assert_eq!(out.stats.files_searched, 5);
    assert_eq!(out.stats.search_seconds, Some("0.000123".to_string()));
    assert_eq!(out.stats.total_seconds, Some("0.004567".to_string()));
    assert_eq!(out.matches.len(), 1);
}

#[test]
fn missing_statistics_stay_zero() {
    let out = normalize_text("a.txt:1:foo\n");
    assert_eq!(out.stats.total_matches, 0);
    assert_eq!(out.stats.matched_lines, 0);
    assert_eq!(out.stats.files_searched, 0);
    assert_eq!(out.stats.search_seconds, None);
    assert_eq!(out.stats.total_seconds, None);
}

#[test]
fn counts_parse_like_usize() {
    let out = normalize_text("+7 matched lines\n99999999999999999999999 files searched\n");
    assert_eq!(out.stats.matched_lines, 7);
    assert_eq!(out.stats.files_searched, 0);
    let out = normalize_text("12 matches\nabc matches\n");
    assert_eq!(out.stats.total_matches, 0);
    let out = normalize_text("  42   matches  \n");
    assert_eq!(out.stats.total_matches, 42);
}

#[test]
fn statistics_lines_are_not_matches() {
    let out = normalize_text("src/a.txt:3:two matches here\nsrc/b.txt:4:plain\n");
    assert_eq!(out.matches.len(), 1);
    assert_eq!(out.matches[0].file, "src/b.txt");
    assert_eq!(out.stats.total_matches, 0);
}

#[test]
fn malformed_lines_are_dropped() {
    let out = normalize_text(":1:x\nno colon here\na:1\n\n   \nok.txt:9:y");
    assert_eq!(out.matches.len(), 1);
    assert_eq!(out.matches[0].file, "ok.txt");
    assert_eq!(out.matches[0].line, "9");
    assert_eq!(out.matches[0].content, "y");
}

#[test]
fn empty_output_gives_no_records() {
    let out = normalize_text("");
    assert!(out.matches.is_empty());
    assert_eq!(render_matches(&out.matches), "");
}

#[test]
fn paths_use_forward_slashes_and_parts_are_trimmed() {
    let out = normalize_text(" dir\\sub\\f.txt : 7 :  x:y \r\n");
    assert_eq!(out.matches.len(), 1);
    assert_eq!(out.matches[0].file, "dir/sub/f.txt");
    assert_eq!(out.matches[0].line, "7");
    assert_eq!(out.matches[0].content, "x:y");
}

#[test]
fn content_length_ceiling() {
    let kept = format!("f:1:{}\n", "a".repeat(1000));
    assert_eq!(normalize_text(&kept).matches.len(), 1);
    let dropped = format!("f:1:{}\n", "a".repeat(1001));
    assert_eq!(normalize_text(&dropped).matches.len(), 0);
}

#[test]
fn content_is_escaped_and_round_trips() {
    let original = "if a < b && c > \"d\" || 'e' &amp;";
    let out = normalize_text(&format!("x.c:5:{}\n", original));
    assert_eq!(out.matches.len(), 1);
    assert_eq!(
        out.matches[0].content,
        "if a &lt; b &amp;&amp; c &gt; &quot;d&quot; || &apos;e&apos; &amp;amp;"
    );
    assert_eq!(unescape(&out.matches[0].content), original);
}

#[test]
fn markup_of_records() {
    let out = normalize_text("a.txt:1:<b>\nb.txt:22:x\n");
    assert_eq!(
        render_matches(&out.matches),
        "<line file=\"a.txt\" num=\"1\">&lt;b&gt;</line>\n<line file=\"b.txt\" num=\"22\">x</line>"
    );
}

#[test]
fn raw_bytes_are_decoded() {
    let out = normalize_output(b"a.txt:1:ok\nb.txt:2:\xff\n3 matched lines\n");
    assert_eq!(out.matches.len(), 1);
    assert_eq!(out.matches[0].file, "a.txt");
    assert_eq!(out.stats.matched_lines, 3);
}

#[test]
fn path_classification() {
    assert_eq!(classify_path("./a/b.txt", false), PathTarget::UnderRoot("a/b.txt".to_string()));
    assert_eq!(classify_path("./a/b.txt", true), PathTarget::UnderRoot("a/b.txt".to_string()));
    assert_eq!(classify_path("a/b.txt", false), PathTarget::UnderRoot("a/b.txt".to_string()));
    assert_eq!(classify_path("/a/b.txt", true), PathTarget::AsGiven("/a/b.txt".to_string()));
    assert_eq!(path_target("./x.txt"), PathTarget::UnderRoot("x.txt".to_string()));
    assert_eq!(path_target("rel/x.txt"), PathTarget::UnderRoot("rel/x.txt".to_string()));
}

#[test]
fn files_with_matches_do_not_set_total() {
    let out = normalize_text("1 files contained matches\n");
    assert_eq!(out.stats.total_matches, 0);
    let out = normalize_text("7 matches\n2 files contained matches\n");
    assert_eq!(out.stats.total_matches, 7);
}
