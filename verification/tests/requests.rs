use dedoc_translate::error::TranslationError;
use dedoc_translate::json::{read_json, Json};
use dedoc_translate::request::{
    gtx_reply, gtx_translation, gtx_url, is_rate_limited_error, lingva_reply, lingva_translation,
    lingva_url, parse_gtx_body, HttpOutcome, RequestFailure,
};

fn message(result: Result<String, TranslationError>) -> String {
    match result {
        Ok(text) => panic!("a translation came: {text}"),
        Err(error) => error.message(),
    }
}

fn transport(text: &str) -> RequestFailure {
    RequestFailure::Transport { text: text.to_string() }
}

fn status(code: u16, response: u16, text: &str) -> RequestFailure {
    RequestFailure::Status { code, response, text: text.to_string() }
}

#[test]
fn gtx_url_encodes_the_chunk() {
    assert_eq!(
        gtx_url("a b&c\n-._~", "en", "vi"),
        "https://translate.googleapis.com/translate_a/single?client=gtx&sl=en&tl=vi&dt=t&q=a%20b%26c%0A-._~"
    );
}

#[test]
fn lingva_url_encodes_the_chunk() {
    assert_eq!(lingva_url("à/?", "en", "vi"), "https://lingva.ml/api/v1/en/vi/%C3%A0%2F%3F");
}

#[test]
fn status_429_is_a_rate_limit() {
    assert!(is_rate_limited_error(&status(429, 429, "")));
    assert!(is_rate_limited_error(&status(500, 429, "")));
    assert!(!is_rate_limited_error(&status(503, 503, "status 429")));
}

#[test]
fn words_of_a_failure_can_be_a_rate_limit() {
    assert!(is_rate_limited_error(&transport("got 429 from proxy")));
    assert!(is_rate_limited_error(&transport("Too Many Requests")));
    assert!(!is_rate_limited_error(&transport("too many requests")));
    assert!(!is_rate_limited_error(&transport("timed out")));
}

#[test]
fn gtx_segments_are_put_together() {
    let body = r#"[[["Xin ","Hello ",null],["chào","there"],[null,"x"],[],5],null,"en"]"#;
    assert_eq!(parse_gtx_body(body).unwrap(), "Xin chào");
}

#[test]
fn gtx_body_needs_segments() {
    for body in ["[]", "{}", "[null]", "[\"x\"]", "7", "null", "{\"0\":[[\"x\"]]}"] {
        assert_eq!(message(parse_gtx_body(body)), "parse error: missing [0] segments");
    }
}

#[test]
fn gtx_body_needs_a_translation() {
    for body in ["[[]]", "[[[\"\",\"x\"]]]", "[[[5]]]", "[[{\"0\":\"x\"}]]"] {
        assert_eq!(message(parse_gtx_body(body)), "parse error: empty translation");
    }
}

#[test]
fn gtx_body_needs_json() {
    for body in ["", "x", "[[[\"a\"]]", "[1] 2", "\"\\ud800\""] {
        let reason = serde_json::from_str::<serde_json::Value>(body).unwrap_err().to_string();
        assert_eq!(message(parse_gtx_body(body)), format!("parse error: {reason}"));
    }
}

#[test]
fn gtx_reply_reads_the_body() {
    let body = HttpOutcome::Body("[[[\"Xin chào\",\"Hello\"]]]".to_string());
    assert_eq!(gtx_reply(body).unwrap(), "Xin chào");
}

#[test]
fn failed_request_is_an_error() {
    assert_eq!(
        message(gtx_reply(HttpOutcome::Failed(status(500, 500, "status code 500")))),
        "network error: status code 500"
    );
    assert_eq!(
        message(gtx_reply(HttpOutcome::Failed(transport("timed out")))),
        "network error: timed out"
    );
    assert_eq!(
        message(lingva_reply(HttpOutcome::Unreadable("too large".to_string()))),
        "network error: too large"
    );
    assert_eq!(
        message(lingva_reply(HttpOutcome::Failed(status(429, 429, "x")))),
        "rate limited (HTTP 429)"
    );
}

#[test]
fn lingva_reply_reads_the_translation() {
    let body = HttpOutcome::Body("{\"info\":{},\"translation\":\"Xin chào\"}".to_string());
    assert_eq!(lingva_reply(body).unwrap(), "Xin chào");
    let empty = HttpOutcome::Body("{\"translation\":\"\"}".to_string());
    assert_eq!(lingva_reply(empty).unwrap(), "");
    let twice = HttpOutcome::Body("{\"translation\":\"a\",\"translation\":\"b\"}".to_string());
    assert_eq!(lingva_reply(twice).unwrap(), "b");
}

#[test]
fn lingva_reply_needs_the_translation() {
    for body in ["{}", "[]", "{\"translation\":5}", "{\"Translation\":\"x\"}", "\"translation\""] {
        assert_eq!(
            message(lingva_reply(HttpOutcome::Body(body.to_string()))),
            "parse error: missing `translation` field"
        );
    }
    assert!(message(lingva_reply(HttpOutcome::Body("<html>".to_string())))
        .starts_with("parse error: expected value"));
}

#[test]
fn json_is_read_whole() {
    let read = read_json("{\"b\":[true,null,1.5,\"\\u0041\"],\"a\":{}}").unwrap();
    let list = read.member("b").unwrap().list().unwrap();
    assert_eq!(list.len(), 4);
    assert!(matches!(list[0], Json::Bool(true)));
    assert!(matches!(list[1], Json::Null));
    assert!(matches!(list[2], Json::Number));
    assert_eq!(list[3].text(), Some("A"));
    assert!(matches!(read.member("a"), Some(Json::Object(_))));
    assert!(read.member("c").is_none());
    assert!(read.first().is_none());
}

#[test]
fn translations_are_taken_out_of_json() {
    let segment = Json::List(vec![Json::Text("Xin chào".to_string()), Json::Null]);
    let answer = Json::List(vec![Json::List(vec![segment]), Json::Null]);
    assert_eq!(gtx_translation(&answer).unwrap(), "Xin chào");
    assert!(matches!(lingva_translation(&answer), Err(TranslationError::Parse(_))));
}

#[test]
fn errors_have_messages() {
    let network = TranslationError::Network("timed out".to_string());
    assert_eq!(network.message(), "network error: timed out");
    let parse = TranslationError::Parse("empty translation".to_string());
    assert_eq!(parse.message(), "parse error: empty translation");
    assert_eq!(TranslationError::RateLimited.message(), "rate limited (HTTP 429)");
    assert_eq!(
        TranslationError::PlaceholderMismatch.message(),
        "placeholder mismatch after translation"
    );
}
