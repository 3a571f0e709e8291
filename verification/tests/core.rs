use xdiff::cli::{parse_key_val, KeyValType};
use xdiff::json::JsonValue;
use xdiff::request::{Method, RequestProfile};
use xdiff::response::{filter_json, RawResponse, ResponseProfile};
use xdiff::{DiffConfig, DiffProfile, ExtraArgs, RequestConfig, XdiffError};

fn chars(s: &str) -> Vec<char> {
    s.chars().collect()
}

fn text(v: &Vec<char>) -> String {
    v.iter().collect()
}

fn parse_json_str(s: &str) -> Option<JsonValue> {
    xdiff::json_parse::parse_json(&chars(s))
}

fn compact(v: &JsonValue) -> String {
    text(&xdiff::json_text::to_json_chars(v))
}

fn pretty(v: &JsonValue) -> String {
    text(&xdiff::json_text::to_json_chars_pretty(v))
}

#[test]
fn json_parse_and_encode_round_trip() {
    let v = parse_json_str("{\"a\": [1, true, null, \"x\\n\"], \"b\": 1.5e3}").unwrap();
    assert_eq!(compact(&v), "{\"a\":[1,true,null,\"x\\n\"],\"b\":1.5e3}");
    let again = parse_json_str(&compact(&v)).unwrap();
    assert_eq!(compact(&again), compact(&v));
}

#[test]
fn json_parse_rejects_garbage() {
    assert!(parse_json_str("{\"a\": }").is_none());
    assert!(parse_json_str("").is_none());
    assert!(parse_json_str("{} trailing").is_none());
    assert!(parse_json_str("[1,]").is_none());
    assert!(parse_json_str("\"unterminated").is_none());
}

#[test]
fn json_parse_unicode_escapes() {
    let v = parse_json_str("\"\\u0041\\u00e9\"").unwrap();
    assert_eq!(compact(&v), "\"A\u{e9}\"");
    let smiley = parse_json_str("\"\\ud83d\\ude00\"").unwrap();
    assert_eq!(compact(&smiley), "\"\u{1f600}\"");
    // a lone surrogate is not a string
    assert!(parse_json_str("\"\\ud83d\"").is_none());
}

#[test]
fn json_duplicate_keys_last_wins_first_position() {
    let v = parse_json_str("{\"a\":1,\"b\":2,\"a\":3}").unwrap();
    assert_eq!(compact(&v), "{\"a\":3,\"b\":2}");
}

#[test]
fn json_pretty_layout() {
    let v = parse_json_str("{\"a\":1,\"b\":[1,2],\"c\":{},\"d\":[]}").unwrap();
    assert_eq!(
        pretty(&v),
        "{\n  \"a\": 1,\n  \"b\": [\n    1,\n    2\n  ],\n  \"c\": {},\n  \"d\": []\n}"
    );
}

#[test]
fn filter_json_removes_top_level_key() {
    let skip = vec!["b".to_string()];
    let out = filter_json("{\"a\":1,\"b\":2,\"c\":3}", &skip).unwrap();
    assert_eq!(out, "{\n  \"a\": 1,\n  \"c\": 3\n}");
}

#[test]
fn filter_json_non_object_untouched() {
    let skip = vec!["b".to_string()];
    let out = filter_json("[1,2,3]", &skip).unwrap();
    assert_eq!(out, "[\n  1,\n  2,\n  3\n]");
}

#[test]
fn filter_json_bad_body_is_decode_error() {
    let skip: Vec<String> = vec![];
    let err = filter_json("not json", &skip).unwrap_err();
    assert_eq!(err, XdiffError::BodyDecodeError);
}

#[test]
fn parse_key_val_sigils() {
    let q = parse_key_val("name=hello").unwrap();
    assert_eq!(q.key_type, KeyValType::Query);
    assert_eq!(q.key, "name");
    assert_eq!(q.value, "hello");

    let h = parse_key_val("%Content-Type=application/json").unwrap();
    assert_eq!(h.key_type, KeyValType::Header);
    assert_eq!(h.key, "Content-Type");
    assert_eq!(h.value, "application/json");

    let b = parse_key_val("@count=3").unwrap();
    assert_eq!(b.key_type, KeyValType::Body);
    assert_eq!(b.key, "count");
    assert_eq!(b.value, "3");

    let t = parse_key_val(" spaced = padded value ").unwrap();
    assert_eq!(t.key, "spaced");
    assert_eq!(t.value, "padded value");
}

#[test]
fn parse_key_val_rejects_bad_directives() {
    assert!(matches!(
        parse_key_val("1bad=x"),
        Err(XdiffError::InvalidOverrideKey(_))
    ));
    assert!(matches!(
        parse_key_val("noequals"),
        Err(XdiffError::InvalidOverrideKey(_))
    ));
    assert!(matches!(
        parse_key_val("=value"),
        Err(XdiffError::InvalidOverrideKey(_))
    ));
}

#[test]
fn from_key_vals_partitions_in_order() {
    let kvs = vec![
        parse_key_val("a=1").unwrap(),
        parse_key_val("%h=2").unwrap(),
        parse_key_val("@b=3").unwrap(),
        parse_key_val("c=4").unwrap(),
    ];
    let args = ExtraArgs::from_key_vals(kvs);
    assert_eq!(args.query, vec![("a".to_string(), "1".to_string()), ("c".to_string(), "4".to_string())]);
    assert_eq!(args.headers, vec![("h".to_string(), "2".to_string())]);
    assert_eq!(args.body, vec![("b".to_string(), "3".to_string())]);
}

#[test]
fn validate_accepts_objects_and_rejects_scalars() {
    let ok = RequestProfile::new(
        Method::Get,
        "https://example.com/".to_string(),
        Some(parse_json_str("{\"a\":1}").unwrap()),
        vec![],
        None,
    );
    assert!(ok.validate().is_ok());

    let bad = RequestProfile::new(
        Method::Get,
        "https://example.com/".to_string(),
        Some(parse_json_str("[1,2]").unwrap()),
        vec![],
        None,
    );
    assert!(matches!(bad.validate(), Err(XdiffError::InvalidShape(_))));

    let bad_body = RequestProfile::new(
        Method::Post,
        "https://example.com/".to_string(),
        None,
        vec![],
        Some(parse_json_str("3").unwrap()),
    );
    assert!(matches!(bad_body.validate(), Err(XdiffError::InvalidShape(_))));
}

#[test]
fn parse_from_url_string_strips_and_types_query() {
    let p = RequestProfile::parse_from_url_string(
        "https://api.example.com/users?active=true&page=2",
    )
    .unwrap();
    assert_eq!(p.method, Method::Get);
    assert_eq!(p.url, "https://api.example.com/users");
    assert!(p.headers.is_empty());
    assert!(p.body.is_none());
    let params = p.params.unwrap();
    assert_eq!(compact(&params), "{\"active\":true,\"page\":2}");
}

#[test]
fn parse_from_url_string_rejects_relative() {
    assert!(matches!(
        RequestProfile::parse_from_url_string("/no/scheme"),
        Err(XdiffError::ConfigParseError(_))
    ));
}

#[test]
fn header_override_overwrites_same_name() {
    let template = RequestProfile::new(
        Method::Post,
        "https://example.com/".to_string(),
        None,
        vec![("Content-Type".to_string(), "text/plain".to_string())],
        None,
    );
    let mut args = ExtraArgs::new();
    args.headers
        .push(("Content-Type".to_string(), "application/json".to_string()));
    let (headers, _, body) = template.generate(&args).unwrap();
    assert_eq!(headers.len(), 1);
    assert_eq!(headers[0].1, "application/json");
    assert_eq!(body, "{}");
}

#[test]
fn generate_defaults_content_type_to_json() {
    let template = RequestProfile::new(
        Method::Post,
        "https://example.com/".to_string(),
        None,
        vec![],
        Some(parse_json_str("{\"x\":1}").unwrap()),
    );
    let args = ExtraArgs::new();
    let (headers, _, body) = template.generate(&args).unwrap();
    assert!(headers
        .iter()
        .any(|(k, v)| k == "Content-Type" && v == "application/json"));
    assert_eq!(body, "{\"x\":1}");
}

#[test]
fn generate_merges_query_and_body_overrides() {
    let template = RequestProfile::new(
        Method::Post,
        "https://example.com/".to_string(),
        Some(parse_json_str("{\"page\":1}").unwrap()),
        vec![],
        Some(parse_json_str("{\"name\":\"old\"}").unwrap()),
    );
    let mut args = ExtraArgs::new();
    args.query.push(("page".to_string(), "2".to_string()));
    args.query.push(("active".to_string(), "true".to_string()));
    args.body.push(("name".to_string(), "hello".to_string()));
    let (_, query, body) = template.generate(&args).unwrap();
    assert_eq!(compact(&query), "{\"page\":2,\"active\":true}");
    assert_eq!(body, "{\"name\":\"hello\"}");
}

#[test]
fn generate_rejects_unknown_content_type() {
    let template = RequestProfile::new(
        Method::Post,
        "https://example.com/".to_string(),
        None,
        vec![("Content-Type".to_string(), "text/plain".to_string())],
        None,
    );
    let args = ExtraArgs::new();
    assert!(matches!(
        template.generate(&args),
        Err(XdiffError::UnsupportedContentType(_))
    ));
}

#[test]
fn generate_form_encodes_body() {
    let template = RequestProfile::new(
        Method::Post,
        "https://example.com/".to_string(),
        None,
        vec![(
            "Content-Type".to_string(),
            "application/x-www-form-urlencoded".to_string(),
        )],
        Some(parse_json_str("{\"name\":\"a b\",\"n\":3}").unwrap()),
    );
    let args = ExtraArgs::new();
    let (_, _, body) = template.generate(&args).unwrap();
    assert_eq!(body, "name=a+b&n=3");
}

#[test]
fn get_url_appends_merged_query() {
    let template = RequestProfile::new(
        Method::Get,
        "https://example.com/path?old=1".to_string(),
        None,
        vec![],
        None,
    );
    let mut args = ExtraArgs::new();
    args.query.push(("q".to_string(), "a b/\u{e9}".to_string()));
    let url = template.get_url(&args).unwrap();
    assert_eq!(url, "https://example.com/path?q=a+b%2F%C3%A9");
}

#[test]
fn get_url_without_params_is_unchanged() {
    let template = RequestProfile::new(
        Method::Get,
        "https://example.com/path".to_string(),
        None,
        vec![],
        None,
    );
    let url = template.get_url(&ExtraArgs::new()).unwrap();
    assert_eq!(url, "https://example.com/path");
}

fn sample_response() -> RawResponse {
    RawResponse {
        version: "HTTP/1.1".to_string(),
        status: 200,
        reason: "OK".to_string(),
        headers: vec![
            ("content-type".to_string(), "application/json".to_string()),
            ("date".to_string(), "today".to_string()),
        ],
        body: "{\"a\":1,\"b\":2,\"c\":3}".to_string(),
    }
}

#[test]
fn normalize_filters_headers_and_body() {
    let res = sample_response();
    let profile = ResponseProfile::new(vec!["Date".to_string()], vec!["b".to_string()]);
    let out = res.get_text(&profile).unwrap();
    assert_eq!(
        out,
        "HTTP/1.1 200 OK\ncontent-type: application/json\n\n{\n  \"a\": 1,\n  \"c\": 3\n}\n"
    );
}

#[test]
fn normalize_passes_other_bodies_verbatim() {
    let mut res = sample_response();
    res.headers[0].1 = "text/html".to_string();
    res.body = "<p>hi</p>".to_string();
    let out = res.get_text(&ResponseProfile::default()).unwrap();
    assert_eq!(out, "HTTP/1.1 200 OK\ncontent-type: text/html\ndate: today\n\n<p>hi</p>\n");
}

#[test]
fn normalize_bad_json_body_is_decode_error() {
    let mut res = sample_response();
    res.body = "oops".to_string();
    assert!(matches!(
        res.get_text(&ResponseProfile::default()),
        Err(XdiffError::BodyDecodeError)
    ));
}

#[test]
fn store_lookup_finds_and_misses() {
    let req1 = RequestProfile::parse_from_url_string("https://example.com/a").unwrap();
    let req2 = RequestProfile::parse_from_url_string("https://example.com/a").unwrap();
    let profile = DiffProfile::new(req1, req2, ResponseProfile::default());
    let store = DiffConfig::new(vec![("prod".to_string(), profile)]);
    assert!(store.get_profile("prod").is_some());
    assert!(store.get_profile("missing-name").is_none());
    match store.get("missing-name") {
        Err(XdiffError::ProfileNotFound(name)) => assert_eq!(name, "missing-name"),
        _ => panic!("expected ProfileNotFound"),
    }
}

#[test]
fn store_validate_names_first_invalid() {
    let good = RequestProfile::parse_from_url_string("https://example.com/a").unwrap();
    let bad = RequestProfile::new(
        Method::Get,
        "https://example.com/b".to_string(),
        Some(parse_json_str("[1]").unwrap()),
        vec![],
        None,
    );
    let store = RequestConfig::new(vec![
        ("ok".to_string(), good),
        ("broken".to_string(), bad),
    ]);
    match store.validate() {
        Err(XdiffError::InvalidShape(name)) => assert_eq!(name, "broken"),
        _ => panic!("expected InvalidShape naming the profile"),
    }
}

#[test]
fn scalar_rule_is_consistent() {
    // the documented typing rule: null / true / false / JSON numbers are
    // scalars, everything else (including leading-zero digits) is a string
    let v = xdiff::json::parse_scalar("01".chars().collect());
    assert_eq!(compact(&v), "\"01\"");
    let v = xdiff::json::parse_scalar("1.5e3".chars().collect());
    assert_eq!(compact(&v), "1.5e3");
    let v = xdiff::json::parse_scalar("null".chars().collect());
    assert_eq!(compact(&v), "null");
    let v = xdiff::json::parse_scalar("{\"a\":1}".chars().collect());
    assert_eq!(compact(&v), "\"{\\\"a\\\":1}\"");
}

#[test]
fn parse_from_url_string_decodes_query_pairs() {
    let p = RequestProfile::parse_from_url_string("https://example.com/?q=a%20b&note=x%26y").unwrap();
    let params = p.params.unwrap();
    assert_eq!(compact(&params), "{\"q\":\"a b\",\"note\":\"x&y\"}");
}

#[test]
fn diff_is_empty_for_identical_multiline_bodies() {
    let text = "HTTP/1.1 200 OK\ncontent-type: application/json\n\n{\n  \"a\": 1\n}\n";
    assert_eq!(xdiff::diff_text(text, text).unwrap(), "");
}

#[test]
fn validate_names_the_offending_field() {
    let bad_params = RequestProfile::new(
        Method::Get,
        "https://example.com/".to_string(),
        Some(parse_json_str("[1,2]").unwrap()),
        vec![],
        None,
    );
    match bad_params.validate() {
        Err(XdiffError::InvalidShape(msg)) => assert_eq!(msg, "params must be an object"),
        _ => panic!("expected InvalidShape naming params"),
    }
    let bad_body = RequestProfile::new(
        Method::Post,
        "https://example.com/".to_string(),
        None,
        vec![],
        Some(parse_json_str("3").unwrap()),
    );
    match bad_body.validate() {
        Err(XdiffError::InvalidShape(msg)) => assert_eq!(msg, "body must be an object"),
        _ => panic!("expected InvalidShape naming body"),
    }
}

#[test]
fn profile_validate_names_the_failing_side() {
    let good = RequestProfile::parse_from_url_string("https://example.com/a").unwrap();
    let bad = RequestProfile::new(
        Method::Get,
        "https://example.com/b".to_string(),
        Some(parse_json_str("[1]").unwrap()),
        vec![],
        None,
    );
    let profile = DiffProfile::new(good, bad, ResponseProfile::default());
    match profile.validate() {
        Err(XdiffError::InvalidShape(msg)) => assert_eq!(msg, "req2 failed to validate"),
        _ => panic!("expected InvalidShape naming req2"),
    }
    let bad1 = RequestProfile::new(
        Method::Get,
        "https://example.com/c".to_string(),
        None,
        vec![],
        Some(parse_json_str("true").unwrap()),
    );
    let good2 = RequestProfile::parse_from_url_string("https://example.com/d").unwrap();
    let profile2 = DiffProfile::new(bad1, good2, ResponseProfile::default());
    match profile2.validate() {
        Err(XdiffError::InvalidShape(msg)) => assert_eq!(msg, "req1 failed to validate"),
        _ => panic!("expected InvalidShape naming req1"),
    }
}
