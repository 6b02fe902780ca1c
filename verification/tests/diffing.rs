use xdiff::{
    build_diff, canonicalize, inline_spans, split_lines, tokenize, DiffContext, DiffResult,
    JsonValue, RawResponse, RequestContext, ResponseContext,
};

fn request(url: &str) -> RequestContext {
    RequestContext {
        method: "GET".to_string(),
        url: url.to_string(),
        params: JsonValue::empty_object(),
        headers: Vec::new(),
        body: None,
        user_agent: None,
    }
}

fn response(headers: Vec<(&str, &str)>, body: &str) -> RawResponse {
    RawResponse {
        url: "http://example.com/".to_string(),
        version: "HTTP/1.1".to_string(),
        status: 200,
        headers: headers
            .into_iter()
            .map(|(k, v)| (k.to_string(), v.to_string()))
            .collect(),
        body: body.to_string(),
    }
}

fn profile(skip: Vec<&str>) -> DiffContext {
    DiffContext::new(
        request("http://a/"),
        request("http://b/"),
        ResponseContext::new(skip.into_iter().map(|s| s.to_string()).collect()),
    )
}

#[test]
fn canonical_text_shape() {
    let res = response(
        vec![("content-type", "application/json"), ("date", "x")],
        "{\"b\":2,\"a\":1}",
    );
    let text = canonicalize(&res, &Vec::new());
    assert_eq!(
        text,
        "HTTP/1.1 200\ncontent-type: application/json\ndate: x\n\n{\n  \"a\": 1,\n  \"b\": 2\n}\n"
    );
}

#[test]
fn canonical_text_keeps_non_json_body_verbatim() {
    let res = response(vec![], "plain text");
    let text = canonicalize(&res, &Vec::new());
    assert_eq!(text, "HTTP/1.1 200\n\nplain text\n");
}

#[test]
fn canonical_text_skips_exact_header_names() {
    let res = response(vec![("Date", "a"), ("date", "b")], "x");
    let skip = vec!["date".to_string()];
    let text = canonicalize(&res, &skip);
    assert_eq!(text, "HTTP/1.1 200\nDate: a\n\nx\n");
}

#[test]
fn identical_responses_compare_equal() {
    let p = profile(vec![]);
    let r1 = response(vec![("h", "v")], "same");
    let r2 = response(vec![("h", "v")], "same");
    assert_eq!(p.diff_responses(&r1, &r2), DiffResult::Equal);
}

#[test]
fn skipped_header_difference_compares_equal() {
    let p = profile(vec!["date"]);
    let r1 = response(vec![("h", "v"), ("date", "Mon")], "same");
    let r2 = response(vec![("h", "v"), ("date", "Tue")], "same");
    assert_eq!(p.diff_responses(&r1, &r2), DiffResult::Equal);
}

#[test]
fn unskipped_header_difference_is_a_diff() {
    let p = profile(vec![]);
    let r1 = response(vec![("h", "v1")], "same");
    let r2 = response(vec![("h", "v2")], "same");
    match p.diff_responses(&r1, &r2) {
        DiffResult::Diff(s) => {
            assert!(s.contains("--- a/http://example.com/"));
            assert!(s.contains("-h: v1"));
            assert!(s.contains("+h: v2"));
        }
        DiffResult::Equal => panic!("expected a diff"),
    }
}

#[test]
fn json_bodies_differing_in_layout_compare_equal() {
    let p = profile(vec![]);
    let r1 = response(vec![], "{\"a\":1,\"b\":2}");
    let r2 = response(vec![], "{ \"b\" : 2,\n  \"a\" : 1 }");
    assert_eq!(p.diff_responses(&r1, &r2), DiffResult::Equal);
}

#[test]
fn diff_renders_single_hunk_with_line_numbers() {
    let s = build_diff("H", "a\nb\n", "a\nc\n");
    assert_eq!(s, "H\n   1   1 a\n   2    -b\n       2+c\n");
}

#[test]
fn diff_marks_missing_final_newline() {
    let s = build_diff("H", "a", "b");
    assert_eq!(
        s,
        "H\n   1    -a\n\\ No newline at end of file\n       1+b\n\\ No newline at end of file\n"
    );
}

#[test]
fn diff_far_apart_changes_make_two_hunks() {
    let old = "x\n1\n2\n3\n4\n5\n6\n7\n8\ny\n";
    let new = "X\n1\n2\n3\n4\n5\n6\n7\n8\nY\n";
    let s = build_diff("H", old, new);
    let divider: String = std::iter::repeat('-').take(80).collect();
    assert!(s.contains(&divider));
    assert!(s.contains("-x\n"));
    assert!(s.contains("+X\n"));
    assert!(s.contains("-y"));
    assert!(s.contains("+Y"));
}

#[test]
fn split_lines_keeps_endings() {
    let lines = split_lines("a\nb");
    assert_eq!(lines, vec!["a\n".to_string(), "b".to_string()]);
    assert!(split_lines("").is_empty());
}

#[test]
fn tokenize_splits_word_and_space_runs() {
    let toks = tokenize("hello  world\n");
    assert_eq!(
        toks,
        vec![
            "hello".to_string(),
            "  ".to_string(),
            "world".to_string(),
            "\n".to_string()
        ]
    );
}

#[test]
fn inline_spans_mark_changed_words() {
    let (old_spans, new_spans) = inline_spans("hello world\n", "hello verus\n");
    assert_eq!(
        old_spans,
        vec![
            (false, "hello ".to_string()),
            (true, "world".to_string()),
            (false, "\n".to_string())
        ]
    );
    assert_eq!(
        new_spans,
        vec![
            (false, "hello ".to_string()),
            (true, "verus".to_string()),
            (false, "\n".to_string())
        ]
    );
}

#[test]
fn canonical_status_line_uses_version_and_code() {
    let mut res = response(vec![], "x");
    res.version = "HTTP/2.0".to_string();
    res.status = 404;
    assert_eq!(canonicalize(&res, &Vec::new()), "HTTP/2.0 404\n\nx\n");
}

#[test]
fn body_against_itself_compares_equal_even_without_json() {
    let p = profile(vec![]);
    let r = response(vec![("h", "v")], "not { json");
    assert_eq!(p.diff_responses(&r, &r), DiffResult::Equal);
}
