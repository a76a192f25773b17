//! The requests to the providers, and what their answers say.
use vstd::prelude::*;
use vstd::string::StringExecFns;
use crate::error::TranslationError;
use crate::json::{read_json, Json};
use crate::error;
use crate::json;
use crate::search;
use crate::text;

verus! {

/// Whether a byte stands for itself in a URL: an ASCII letter or digit, a
/// hyphen, a full stop, an underscore or a tilde.
pub open spec fn unreserved(b: u8) -> bool {
    ||| 48 <= b <= 57
    ||| 65 <= b <= 90
    ||| 97 <= b <= 122
    ||| b == 45
    ||| b == 46
    ||| b == 95
    ||| b == 126
}

/// The digit for a number below sixteen, in upper case.
pub open spec fn upper_digit(n: int) -> char {
    if n < 10 {
        (48 + n) as char
    } else {
        (55 + n) as char
    }
}

/// A byte as it stands in a URL.
pub open spec fn percent_byte(b: u8) -> Seq<char> {
    if unreserved(b) {
        seq![b as char]
    } else {
        seq!['%', upper_digit(b as int / 16), upper_digit(b as int % 16)]
    }
}

/// Bytes as they stand in a URL.
pub open spec fn percent_encoded(bytes: Seq<u8>) -> Seq<char>
    decreases bytes.len(),
{
    if bytes.len() == 0 {
        Seq::empty()
    } else {
        percent_encoded(bytes.drop_last()) + percent_byte(bytes.last())
    }
}

/// Encodes a text for a URL with `urlencoding::encode`: of its UTF-8 bytes each
/// that is not unreserved becomes a percent sign and two digits.
#[verifier::external_body]
fn url_encode(data: &str) -> (encoded: String)
    ensures
        encoded@ == percent_encoded(vstd::utf8::encode_utf8(data@)),
{
    urlencoding::encode(data).into_owned()
}

/// The address that asks Google to translate a chunk.
pub open spec fn gtx_address(chunk: Seq<char>, sl: Seq<char>, tl: Seq<char>) -> Seq<char> {
    "https://translate.googleapis.com/translate_a/single?client=gtx&sl="@ + sl + "&tl="@ + tl
        + "&dt=t&q="@ + percent_encoded(vstd::utf8::encode_utf8(chunk))
}

/// The address that asks Lingva to translate a chunk.
pub open spec fn lingva_address(chunk: Seq<char>, sl: Seq<char>, tl: Seq<char>) -> Seq<char> {
    "https://lingva.ml/api/v1/"@ + sl + "/"@ + tl + "/"@ + percent_encoded(
        vstd::utf8::encode_utf8(chunk),
    )
}

/// Builds the address that asks Google to translate a chunk.
pub fn gtx_url(chunk: &str, sl: &str, tl: &str) -> (url: String)
    ensures
        url@ == gtx_address(chunk@, sl@, tl@),
{
    let mut url = "https://translate.googleapis.com/translate_a/single?client=gtx&sl=".to_owned();
    url.append(sl);
    url.append("&tl=");
    url.append(tl);
    url.append("&dt=t&q=");
    url.append(url_encode(chunk).as_str());
    url
}

/// Builds the address that asks Lingva to translate a chunk.
pub fn lingva_url(chunk: &str, sl: &str, tl: &str) -> (url: String)
    ensures
        url@ == lingva_address(chunk@, sl@, tl@),
{
    let mut url = "https://lingva.ml/api/v1/".to_owned();
    url.append(sl);
    url.append("/");
    url.append(tl);
    url.append("/");
    url.append(url_encode(chunk).as_str());
    url
}

/// Why a request brought no answer.
pub enum RequestFailure {
    /// The server answered with an error status. `code` is the status that the
    /// failure reports, `response` that of the answer itself, and `text` the
    /// failure in words.
    Status { code: u16, response: u16, text: String },
    /// No answer came. `text` is the failure in words.
    Transport { text: String },
}

/// What came of a request.
pub enum HttpOutcome {
    /// The body of the answer.
    Body(String),
    /// An answer whose body could not be read, and why.
    Unreadable(String),
    /// No answer.
    Failed(RequestFailure),
}

/// Whether a failure says that there were too many requests: by its status, or
/// where it has none in its words.
pub open spec fn rate_limited(failure: RequestFailure) -> bool {
    match failure {
        RequestFailure::Status { code, response, .. } => code == 429 || response == 429,
        RequestFailure::Transport { text } => search::contains(text@, "429"@) || search::contains(
            text@,
            "Too Many Requests"@,
        ),
    }
}

/// Tests whether a failure says that there were too many requests.
pub fn is_rate_limited_error(failure: &RequestFailure) -> (limited: bool)
    ensures
        limited == rate_limited(*failure),
{
    match failure {
        RequestFailure::Status { code, response, .. } => *code == 429 || *response == 429,
        RequestFailure::Transport { text } => {
            let words = text::chars_of(text.as_str());
            search::has(&words, &text::chars_of("429")) || search::has(
                &words,
                &text::chars_of("Too Many Requests"),
            )
        },
    }
}

/// The body that a request brought, or the error that stands for none.
pub open spec fn http_body(outcome: HttpOutcome) -> Result<Seq<char>, error::Failure> {
    match outcome {
        HttpOutcome::Body(body) => Ok(body@),
        HttpOutcome::Unreadable(text) => Err(error::Failure::Network(text@)),
        HttpOutcome::Failed(failure) => if rate_limited(failure) {
            Err(error::Failure::RateLimited)
        } else {
            match failure {
                RequestFailure::Status { text, .. } => Err(error::Failure::Network(text@)),
                RequestFailure::Transport { text } => Err(error::Failure::Network(text@)),
            }
        },
    }
}

/// What a result holds.
pub open spec fn shown(result: Result<String, TranslationError>) -> Result<
    Seq<char>,
    error::Failure,
> {
    match result {
        Ok(text) => Ok(text@),
        Err(error) => Err(error@),
    }
}

/// Gets the body that a request brought.
fn body_of(outcome: HttpOutcome) -> (body: Result<String, TranslationError>)
    ensures
        shown(body) == http_body(outcome),
{
    match outcome {
        HttpOutcome::Body(body) => Ok(body),
        HttpOutcome::Unreadable(text) => Err(TranslationError::Network(text)),
        HttpOutcome::Failed(failure) => {
            if is_rate_limited_error(&failure) {
                Err(TranslationError::RateLimited)
            } else {
                match failure {
                    RequestFailure::Status { text, .. } => Err(TranslationError::Network(text)),
                    RequestFailure::Transport { text } => Err(TranslationError::Network(text)),
                }
            }
        },
    }
}

/// The translation in one segment of Google's answer: its first item, if that
/// is a text, and nothing else.
pub open spec fn segment_text(segment: json::JsonTree) -> Seq<char> {
    match segment.first() {
        Some(item) => match item.text() {
            Some(text) => text,
            None => Seq::empty(),
        },
        None => Seq::empty(),
    }
}

/// The translations in some segments, one after the other.
pub open spec fn segments_text(segments: Seq<json::JsonTree>) -> Seq<char> {
    text::concat(Seq::new(segments.len(), |i: int| segment_text(segments[i])))
}

/// The translation in Google's answer, which reads
/// `[[["translated","source",...],...],null,"en",...]`.
pub open spec fn gtx_translated(answer: json::JsonTree) -> Result<Seq<char>, error::Failure> {
    let segments = match answer.first() {
        Some(item) => item.list(),
        None => None,
    };
    match segments {
        None => Err(error::Failure::Parse("missing [0] segments"@)),
        Some(segments) => if segments_text(segments).len() == 0 {
            Err(error::Failure::Parse("empty translation"@))
        } else {
            Ok(segments_text(segments))
        },
    }
}

/// Gets the translation out of Google's answer.
pub fn gtx_translation(answer: &Json) -> (translation: Result<String, TranslationError>)
    ensures
        shown(translation) == gtx_translated(answer.tree()),
{
    let segments = match answer.first() {
        Some(item) => item.list(),
        None => None,
    };
    match segments {
        None => Err(TranslationError::Parse("missing [0] segments".to_owned())),
        Some(segments) => {
            let ghost all = Seq::new(
                segments@.len(),
                |i: int| segment_text(json::trees(segments@)[i]),
            );
            let mut out = String::new();
            let mut i: usize = 0;
            assert(all.take(0) =~= Seq::empty());
            while i < segments.len()
                invariant
                    i <= segments@.len(),
                    all == Seq::new(
                        segments@.len(),
                        |i: int| segment_text(json::trees(segments@)[i]),
                    ),
                    out@ == text::concat(all.take(i as int)),
                decreases segments@.len() - i,
            {
                let ghost before = out@;
                proof {
                    assert(all.take(i + 1).drop_last() =~= all.take(i as int));
                    assert(all.take(i + 1).last() == segment_text(segments@[i as int].tree()));
                }
                match segments[i].first() {
                    Some(item) => match item.text() {
                        Some(text) => {
                            out.append(text);
                        },
                        None => {},
                    },
                    None => {},
                }
                assert(out@ =~= before + segment_text(segments@[i as int].tree()));
                i += 1;
            }
            assert(all.take(i as int) =~= all);
            assert(out@ == segments_text(json::trees(segments@)));
            if out.as_str().is_empty() {
                Err(TranslationError::Parse("empty translation".to_owned()))
            } else {
                Ok(out)
            }
        },
    }
}

/// The translation in the text of Google's answer.
pub open spec fn gtx_parsed(body: Seq<char>) -> Result<Seq<char>, error::Failure> {
    match json::json_document(body) {
        Ok(answer) => gtx_translated(answer),
        Err(reason) => Err(error::Failure::Parse(reason)),
    }
}

/// Gets the translation out of the text of Google's answer.
pub fn parse_gtx_body(body: &str) -> (translation: Result<String, TranslationError>)
    ensures
        shown(translation) == gtx_parsed(body@),
{
    match read_json(body) {
        Ok(answer) => gtx_translation(&answer),
        Err(reason) => Err(TranslationError::Parse(reason)),
    }
}

/// What a request to Google brought: the translation of a chunk, or why there
/// is none.
pub open spec fn gtx_answered(outcome: HttpOutcome) -> Result<Seq<char>, error::Failure> {
    match http_body(outcome) {
        Ok(body) => gtx_parsed(body),
        Err(failure) => Err(failure),
    }
}

/// Reads what a request to Google brought.
pub fn gtx_reply(outcome: HttpOutcome) -> (translation: Result<String, TranslationError>)
    ensures
        shown(translation) == gtx_answered(outcome),
{
    match body_of(outcome) {
        Ok(body) => parse_gtx_body(body.as_str()),
        Err(error) => Err(error),
    }
}

/// The translation in Lingva's answer, which reads `{"translation":"..."}`.
pub open spec fn lingva_translated(answer: json::JsonTree) -> Result<Seq<char>, error::Failure> {
    let text = match answer.member("translation"@) {
        Some(value) => value.text(),
        None => None,
    };
    match text {
        Some(text) => Ok(text),
        None => Err(error::Failure::Parse("missing `translation` field"@)),
    }
}

/// Gets the translation out of Lingva's answer.
pub fn lingva_translation(answer: &Json) -> (translation: Result<String, TranslationError>)
    ensures
        shown(translation) == lingva_translated(answer.tree()),
{
    let text = match answer.member("translation") {
        Some(value) => value.text(),
        None => None,
    };
    match text {
        Some(text) => Ok(text.to_owned()),
        None => Err(TranslationError::Parse("missing `translation` field".to_owned())),
    }
}

/// What a request to Lingva brought: the translation of a chunk, or why there
/// is none.
pub open spec fn lingva_answered(outcome: HttpOutcome) -> Result<Seq<char>, error::Failure> {
    match http_body(outcome) {
        Ok(body) => match json::json_document(body) {
            Ok(answer) => lingva_translated(answer),
            Err(reason) => Err(error::Failure::Parse(reason)),
        },
        Err(failure) => Err(failure),
    }
}

/// Reads what a request to Lingva brought.
pub fn lingva_reply(outcome: HttpOutcome) -> (translation: Result<String, TranslationError>)
    ensures
        shown(translation) == lingva_answered(outcome),
{
    match body_of(outcome) {
        Ok(body) => match read_json(body.as_str()) {
            Ok(answer) => lingva_translation(&answer),
            Err(reason) => Err(TranslationError::Parse(reason)),
        },
        Err(error) => Err(error),
    }
}

} // verus!
