use xdiff::{
    parse_key_val, resolve_request, unresolve_request, DiffConfig, DiffContext, Error, JsonValue,
    KeyVal, KeyValType, RawRequestContext, RequestConfig, RequestContext, ResponseContext,
};

fn empty_request(url: &str) -> RequestContext {
    RequestContext {
        method: "GET".to_string(),
        url: url.to_string(),
        params: JsonValue::empty_object(),
        headers: Vec::new(),
        body: None,
        user_agent: None,
    }
}

#[test]
fn parse_query_override() {
    let kv = parse_key_val("foo=bar").unwrap();
    assert_eq!(kv.kv_type, KeyValType::Query);
    assert_eq!(kv.key, "foo");
    assert_eq!(kv.val, "bar");
}

#[test]
fn parse_body_override() {
    let kv = parse_key_val("@a=b").unwrap();
    assert_eq!(kv.kv_type, KeyValType::Body);
    assert_eq!(kv.key, "a");
    assert_eq!(kv.val, "b");
}

#[test]
fn parse_header_override() {
    let kv = parse_key_val("%h=v").unwrap();
    assert_eq!(kv.kv_type, KeyValType::Header);
    assert_eq!(kv.key, "h");
    assert_eq!(kv.val, "v");
}

#[test]
fn parse_empty_fails() {
    assert_eq!(parse_key_val(""), Err(Error::InvalidOverrideSyntax));
}

#[test]
fn parse_leading_digit_fails() {
    assert_eq!(parse_key_val("1x=y"), Err(Error::InvalidOverrideSyntax));
}

#[test]
fn parse_without_value_fails() {
    assert_eq!(parse_key_val("novalue"), Err(Error::InvalidOverrideSyntax));
}

#[test]
fn parse_keeps_later_equals_in_value() {
    let kv = parse_key_val("a=b=c").unwrap();
    assert_eq!(kv.key, "a");
    assert_eq!(kv.val, "b=c");
}

#[test]
fn json_parse_sorts_and_pretty_prints() {
    let v = xdiff::parse_json("{\"b\":1,\"a\":[true,null]}").unwrap();
    assert_eq!(
        v.to_pretty_string(),
        "{\n  \"a\": [\n    true,\n    null\n  ],\n  \"b\": 1\n}"
    );
    assert_eq!(v.to_compact_string(), "{\"a\":[true,null],\"b\":1}");
}

#[test]
fn json_duplicate_keys_last_wins() {
    let v = xdiff::parse_json("{\"a\":1,\"a\":2}").unwrap();
    assert_eq!(v.to_compact_string(), "{\"a\":2}");
}

#[test]
fn json_string_escapes_decode_and_reencode() {
    let v = xdiff::parse_json("\"a\\nb\\u0041\"").unwrap();
    match &v {
        JsonValue::Str(s) => assert_eq!(s, "a\nbA"),
        _ => panic!("expected a string"),
    }
    assert_eq!(v.to_compact_string(), "\"a\\nbA\"");
}

#[test]
fn json_number_lexeme_is_kept() {
    let v = xdiff::parse_json("[1.50, -0.25e2, 0]").unwrap();
    assert_eq!(v.to_compact_string(), "[1.50,-0.25e2,0]");
}

#[test]
fn json_rejects_malformed_text() {
    assert!(xdiff::parse_json("{").is_none());
    assert!(xdiff::parse_json("{\"a\":01}").is_none());
    assert!(xdiff::parse_json("[1,]").is_none());
    assert!(xdiff::parse_json("\"\\u00\"").is_none());
    assert!(xdiff::parse_json("1 2").is_none());
}

#[test]
fn json_upsert_and_get() {
    let mut v = JsonValue::empty_object();
    v.obj_upsert("b".to_string(), JsonValue::Str("2".to_string()));
    v.obj_upsert("a".to_string(), JsonValue::Str("1".to_string()));
    v.obj_upsert("b".to_string(), JsonValue::Str("3".to_string()));
    assert_eq!(v.to_compact_string(), "{\"a\":\"1\",\"b\":\"3\"}");
    match v.obj_get("b") {
        Some(JsonValue::Str(s)) => assert_eq!(s, "3"),
        _ => panic!("expected b to be present"),
    }
    assert!(v.obj_get("c").is_none());
}

#[test]
fn update_last_write_wins() {
    let mut ctx = empty_request("http://example.com/");
    let overrides = vec![
        KeyVal::new(KeyValType::Query, "a".to_string(), "1".to_string()),
        KeyVal::new(KeyValType::Query, "a".to_string(), "2".to_string()),
    ];
    ctx.update(&overrides).unwrap();
    assert_eq!(ctx.params.to_compact_string(), "{\"a\":\"2\"}");
}

#[test]
fn update_body_override_without_body_is_dropped() {
    let mut ctx = empty_request("http://example.com/");
    let overrides = vec![KeyVal::new(KeyValType::Body, "x".to_string(), "1".to_string())];
    ctx.update(&overrides).unwrap();
    assert_eq!(ctx.body, None);
}

#[test]
fn update_body_override_with_body_upserts() {
    let mut ctx = empty_request("http://example.com/");
    ctx.body = Some(JsonValue::empty_object());
    let overrides = vec![KeyVal::new(KeyValType::Body, "x".to_string(), "1".to_string())];
    ctx.update(&overrides).unwrap();
    assert_eq!(ctx.body.unwrap().to_compact_string(), "{\"x\":\"1\"}");
}

#[test]
fn update_header_is_lowercased_and_replaces() {
    let mut ctx = empty_request("http://example.com/");
    ctx.headers.push(("x-token".to_string(), "old".to_string()));
    let overrides = vec![KeyVal::new(
        KeyValType::Header,
        "X-Token".to_string(),
        "abc".to_string(),
    )];
    ctx.update(&overrides).unwrap();
    assert_eq!(ctx.headers, vec![("x-token".to_string(), "abc".to_string())]);
}

#[test]
fn update_invalid_header_name_fails() {
    let mut ctx = empty_request("http://example.com/");
    let overrides = vec![KeyVal::new(
        KeyValType::Header,
        "bad name".to_string(),
        "v".to_string(),
    )];
    assert_eq!(ctx.update(&overrides), Err(Error::HeaderParseError));
}

#[test]
fn build_rejects_unsupported_scheme() {
    let ctx = empty_request("ftp://example.com/");
    assert_eq!(ctx.build().unwrap_err(), Error::UnsupportedScheme);
}

#[test]
fn build_resolves_defaults_and_query() {
    let mut ctx = empty_request("http://example.com/api");
    ctx.params
        .obj_upsert("q".to_string(), JsonValue::Str("rust".to_string()));
    let rr = ctx.build().unwrap();
    assert_eq!(rr.method, "GET");
    assert_eq!(rr.url, "http://example.com/api?q=rust");
    assert_eq!(rr.user_agent, "Requester/0.1.0");
    assert_eq!(rr.body_text, None);
}

#[test]
fn build_encodes_arrays_as_repeated_pairs() {
    let mut ctx = empty_request("http://example.com/api");
    ctx.params.obj_upsert(
        "t".to_string(),
        JsonValue::Arr(vec![
            JsonValue::Str("a".to_string()),
            JsonValue::Str("b".to_string()),
        ]),
    );
    let rr = ctx.build().unwrap();
    assert_eq!(rr.url, "http://example.com/api?t=a&t=b");
}

#[test]
fn build_percent_encodes_values() {
    let mut ctx = empty_request("http://example.com/api");
    ctx.params
        .obj_upsert("q".to_string(), JsonValue::Str("a b/c".to_string()));
    let rr = ctx.build().unwrap();
    assert_eq!(rr.url, "http://example.com/api?q=a%20b%2Fc");
}

#[test]
fn build_keeps_user_agent_and_serializes_body() {
    let mut ctx = empty_request("https://example.com/api");
    ctx.user_agent = Some("probe/1.0".to_string());
    let mut body = JsonValue::empty_object();
    body.obj_upsert("x".to_string(), JsonValue::Str("1".to_string()));
    ctx.body = Some(body);
    let rr = ctx.build().unwrap();
    assert_eq!(rr.user_agent, "probe/1.0");
    assert_eq!(rr.body_text.unwrap(), "{\"x\":\"1\"}");
}

#[test]
fn build_rejects_non_json_content_type_with_body() {
    let mut ctx = empty_request("http://example.com/api");
    ctx.headers
        .push(("content-type".to_string(), "text/plain".to_string()));
    ctx.body = Some(JsonValue::empty_object());
    assert_eq!(ctx.build().unwrap_err(), Error::UnsupportedContentType);
}

#[test]
fn from_url_accumulates_repeated_query_keys() {
    let ctx = RequestContext::from_url_str("https://example.com/path?a=1&b=2&a=3").unwrap();
    assert_eq!(ctx.url, "https://example.com/path");
    assert_eq!(ctx.method, "GET");
    assert_eq!(
        ctx.params.to_compact_string(),
        "{\"a\":[\"1\",\"3\"],\"b\":\"2\"}"
    );
    assert_eq!(ctx.body, None);
}

#[test]
fn from_url_rejects_invalid_url() {
    assert_eq!(
        RequestContext::from_url_str("notaurl").unwrap_err(),
        Error::UrlParseError
    );
}

#[test]
fn store_lookup_by_exact_name() {
    let ctx = empty_request("http://example.com/");
    let cfg = RequestConfig::new_with_profile("rust".to_string(), ctx);
    assert!(cfg.get("rust").is_ok());
    assert_eq!(cfg.get("Rust").unwrap_err(), Error::ProfileNotFound);
}

#[test]
fn diff_store_lookup_and_missing_profile() {
    let cfg = DiffConfig::new_with_profile(
        "p".to_string(),
        empty_request("http://a/"),
        empty_request("http://b/"),
        ResponseContext::new(Vec::new()),
    );
    assert!(cfg.get("p").is_ok());
    assert_eq!(cfg.get("q").unwrap_err(), Error::ProfileNotFound);
}

#[test]
fn load_validation_is_eager() {
    let mut bad = empty_request("http://a/");
    bad.params = JsonValue::Num("1".to_string());
    let entries = vec![
        ("good".to_string(), empty_request("http://a/")),
        ("bad".to_string(), bad),
    ];
    assert_eq!(
        RequestConfig::from_entries(entries).unwrap_err(),
        Error::ParamsNotObject
    );
}

#[test]
fn diff_load_validation_is_eager() {
    let mut bad = empty_request("http://b/");
    bad.params = JsonValue::Bool(true);
    let entries = vec![(
        "p".to_string(),
        DiffContext::new(
            empty_request("http://a/"),
            bad,
            ResponseContext::new(Vec::new()),
        ),
    )];
    assert_eq!(
        DiffConfig::from_entries(entries).unwrap_err(),
        Error::ParamsNotObject
    );
}

#[test]
fn resolve_fills_defaults() {
    let raw = RawRequestContext {
        method: None,
        url: "http://example.com/".to_string(),
        params: None,
        headers: None,
        body: None,
        user_agent: None,
    };
    let ctx = resolve_request(raw).unwrap();
    assert_eq!(ctx.method, "GET");
    assert_eq!(ctx.params, JsonValue::empty_object());
    assert!(ctx.headers.is_empty());
}

#[test]
fn resolve_rejects_non_object_params() {
    let raw = RawRequestContext {
        method: None,
        url: "http://example.com/".to_string(),
        params: Some(JsonValue::Str("x".to_string())),
        headers: None,
        body: None,
        user_agent: None,
    };
    assert_eq!(resolve_request(raw).unwrap_err(), Error::ParamsNotObject);
}

#[test]
fn unresolve_then_resolve_restores_profile() {
    let mut ctx = empty_request("http://example.com/");
    ctx.params
        .obj_upsert("q".to_string(), JsonValue::Str("rust".to_string()));
    ctx.user_agent = Some("probe/1.0".to_string());
    let raw = unresolve_request(ctx);
    assert_eq!(raw.method, None);
    assert_eq!(raw.headers, None);
    let back = resolve_request(raw).unwrap();
    assert_eq!(back.method, "GET");
    assert_eq!(back.params.to_compact_string(), "{\"q\":\"rust\"}");
    assert_eq!(back.user_agent, Some("probe/1.0".to_string()));
}

#[test]
fn unresolve_drops_every_default() {
    let ctx = empty_request("http://example.com/");
    let raw = unresolve_request(ctx);
    assert_eq!(raw.method, None);
    assert_eq!(raw.params, None);
    assert_eq!(raw.headers, None);
    assert_eq!(raw.body, None);
    assert_eq!(raw.user_agent, None);
}

#[test]
fn json_rejects_surrogate_escape() {
    assert!(xdiff::parse_json("\"\\ud834\"").is_none());
}

#[test]
fn json_compact_emit_parses_back() {
    let v = xdiff::parse_json("{\"k\":[1,\"two\",false,null]}").unwrap();
    let text = v.to_compact_string();
    let v2 = xdiff::parse_json(&text).unwrap();
    assert_eq!(v, v2);
}

#[test]
fn build_replaces_query_and_keeps_fragment() {
    let mut ctx = empty_request("http://example.com/p?old=1#frag");
    ctx.params
        .obj_upsert("q".to_string(), JsonValue::Str("2".to_string()));
    let rr = ctx.build().unwrap();
    assert_eq!(rr.url, "http://example.com/p?q=2#frag");
}

#[test]
fn update_invalid_header_value_fails() {
    let mut ctx = empty_request("http://example.com/");
    let overrides = vec![KeyVal::new(
        KeyValType::Header,
        "x-a".to_string(),
        "bad\u{7f}value".to_string(),
    )];
    assert_eq!(ctx.update(&overrides), Err(Error::HeaderParseError));
}

#[test]
fn update_stops_at_first_invalid_override_keeping_earlier_ones() {
    let mut ctx = empty_request("http://example.com/");
    let overrides = vec![
        KeyVal::new(KeyValType::Query, "a".to_string(), "1".to_string()),
        KeyVal::new(KeyValType::Header, "bad name".to_string(), "v".to_string()),
        KeyVal::new(KeyValType::Query, "b".to_string(), "2".to_string()),
    ];
    assert_eq!(ctx.update(&overrides), Err(Error::HeaderParseError));
    assert_eq!(ctx.params.to_compact_string(), "{\"a\":\"1\"}");
}
