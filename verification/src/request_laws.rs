//! What holds of the addresses of the providers and of what their answers are read as.
use vstd::prelude::*;
use crate::request::{HttpOutcome, RequestFailure};
use crate::error;
use crate::json;
use crate::request;

verus! {

/// What Google's answer reads if its segments are these.
pub open spec fn gtx_answer(
    segments: Seq<json::JsonTree>,
    more: Seq<json::JsonTree>,
) -> json::JsonTree {
    json::JsonTree::List(seq![json::JsonTree::List(segments)] + more)
}

/// The translation that was read, or nothing.
pub open spec fn read_text(result: Result<Seq<char>, error::Failure>) -> Seq<char> {
    match result {
        Ok(text) => text,
        Err(_) => Seq::empty(),
    }
}

/// Google's answer is read segment by segment. With one more segment that starts with a text,
/// that text is added to the translation, whatever else the segment and the answer hold. A
/// segment that does not start with a text adds nothing. Without any text there is no
/// translation.
pub proof fn law_segments_are_read_in_order(
    segments: Seq<json::JsonTree>,
    more: Seq<json::JsonTree>,
    t: Seq<char>,
    others: Seq<json::JsonTree>,
    silent: json::JsonTree,
)
    requires
        silent matches json::JsonTree::List(items) ==> items.len() > 0 ==> !(items[0] is Text),
    ensures
        ({
            let before = read_text(request::gtx_translated(gtx_answer(segments, more)));
            let spoken = json::JsonTree::List(seq![json::JsonTree::Text(t)] + others);
            let after = request::gtx_translated(gtx_answer(segments.push(spoken), more));
            if (before + t).len() == 0 {
                after == Err::<Seq<char>, error::Failure>(
                    error::Failure::Parse("empty translation"@),
                )
            } else {
                after == Ok::<Seq<char>, error::Failure>(before + t)
            }
        }),
        request::gtx_translated(gtx_answer(segments.push(silent), more)) == request::gtx_translated(
            gtx_answer(segments, more),
        ),
        request::gtx_translated(gtx_answer(Seq::empty(), more)) == Err::<Seq<char>, error::Failure>(
            error::Failure::Parse("empty translation"@),
        ),
{
    let spoken = json::JsonTree::List(seq![json::JsonTree::Text(t)] + others);
    lemma_first_is_segments(segments, more);
    lemma_first_is_segments(segments.push(spoken), more);
    lemma_first_is_segments(segments.push(silent), more);
    lemma_first_is_segments(Seq::empty(), more);
    lemma_segments_push(segments, spoken);
    lemma_segments_push(segments, silent);
    assert((seq![json::JsonTree::Text(t)] + others)[0] == json::JsonTree::Text(t));
    assert(request::segment_text(spoken) == t);
    assert(request::segment_text(silent) == Seq::<char>::empty());
    assert(request::segments_text(segments) + Seq::<char>::empty() =~= request::segments_text(
        segments,
    ));
    let before = read_text(request::gtx_translated(gtx_answer(segments, more)));
    assert(before =~= request::segments_text(segments));
    let none = Seq::<json::JsonTree>::empty();
    assert(Seq::new(none.len(), |i: int| request::segment_text(none[i])) =~= Seq::empty());
    assert(request::segments_text(none).len() == 0);
}

proof fn lemma_first_is_segments(segments: Seq<json::JsonTree>, more: Seq<json::JsonTree>)
    ensures
        gtx_answer(segments, more).first() == Some(json::JsonTree::List(segments)),
{
    assert((seq![json::JsonTree::List(segments)] + more)[0] == json::JsonTree::List(segments));
}

proof fn lemma_segments_push(segments: Seq<json::JsonTree>, segment: json::JsonTree)
    ensures
        request::segments_text(segments.push(segment)) == request::segments_text(segments)
            + request::segment_text(segment),
{
    let longer = segments.push(segment);
    let before = Seq::new(segments.len(), |i: int| request::segment_text(segments[i]));
    let after = Seq::new(longer.len(), |i: int| request::segment_text(longer[i]));
    assert(after.drop_last() =~= before);
    assert(after.last() == request::segment_text(segment));
}

/// An answer of Google that is no list, or whose first item is none, has no translation.
pub proof fn law_answer_needs_segments(answer: json::JsonTree)
    requires
        answer matches json::JsonTree::List(items) ==> items.len() > 0 ==> !(items[0] is List),
    ensures
        request::gtx_translated(answer) == Err::<Seq<char>, error::Failure>(
            error::Failure::Parse("missing [0] segments"@),
        ),
{
}

proof fn lemma_named(
    before: Seq<(Seq<char>, json::JsonTree)>,
    name: Seq<char>,
    value: json::JsonTree,
    behind: Seq<(Seq<char>, json::JsonTree)>,
)
    requires
        forall|k: int| 0 <= k < before.len() ==> (#[trigger] before[k]).0 != name,
    ensures
        json::named(before.push((name, value)) + behind, name) == Some(value),
        json::named(before, name) is None,
    decreases before.len(),
{
    let all = before.push((name, value)) + behind;
    if before.len() == 0 {
        assert(all[0] == (name, value));
    } else {
        let fewer = before.skip(1);
        assert(all[0] == before[0]);
        assert(all.skip(1) =~= fewer.push((name, value)) + behind);
        assert forall|k: int| 0 <= k < fewer.len() implies (#[trigger] fewer[k]).0 != name by {
            assert(before[k + 1].0 != name);
        }
        lemma_named(fewer, name, value, behind);
    }
}

/// Lingva's answer is the text of its member `translation`, whatever the other members are.
/// Without that member, or where it is no text, or where the answer is no object, there is
/// no translation.
pub proof fn law_lingva_answers_by_name(
    before: Seq<(Seq<char>, json::JsonTree)>,
    value: json::JsonTree,
    behind: Seq<(Seq<char>, json::JsonTree)>,
    other: json::JsonTree,
)
    requires
        forall|k: int| 0 <= k < before.len() ==> (#[trigger] before[k]).0 != "translation"@,
        !(other is Object),
    ensures
        request::lingva_translated(
            json::JsonTree::Object(before.push(("translation"@, value)) + behind),
        ) == match value {
            json::JsonTree::Text(t) => Ok::<Seq<char>, error::Failure>(t),
            _ => Err::<Seq<char>, error::Failure>(
                error::Failure::Parse("missing `translation` field"@),
            ),
        },
        request::lingva_translated(json::JsonTree::Object(before)) == Err::<
            Seq<char>,
            error::Failure,
        >(error::Failure::Parse("missing `translation` field"@)),
        request::lingva_translated(other) == Err::<Seq<char>, error::Failure>(
            error::Failure::Parse("missing `translation` field"@),
        ),
{
    lemma_named(before, "translation"@, value, behind);
}

/// The status 429 means too many requests, and so do the words of a failure without a status
/// if they hold the number or `Too Many Requests`. Nothing else does.
pub proof fn law_too_many_requests(
    code: u16,
    response: u16,
    words: String,
    before: Seq<char>,
    behind: Seq<char>,
)
    ensures
        request::rate_limited(RequestFailure::Status { code, response, text: words }) <==> code
            == 429 || response == 429,
        words@ == before + "429"@ + behind || words@ == before + "Too Many Requests"@ + behind
            ==> request::rate_limited(RequestFailure::Transport { text: words }),
        (forall|p: int|
            #![trigger words@.subrange(p, p + 3)]
            0 <= p && p + 3 <= words@.len() ==> words@.subrange(p, p + 3) != "429"@) && (forall|
            p: int,
        |
            #![trigger words@.subrange(p, p + 17)]
            0 <= p && p + 17 <= words@.len() ==> words@.subrange(p, p + 17)
                != "Too Many Requests"@) ==> !request::rate_limited(
            RequestFailure::Transport { text: words },
        ),
{
    reveal_strlit("429");
    reveal_strlit("Too Many Requests");
    let at = before.len() as int;
    if words@ == before + "429"@ + behind {
        assert(words@.subrange(at, at + 3) =~= "429"@);
        assert(crate::search::occurs_at(words@, at, "429"@));
    }
    if words@ == before + "Too Many Requests"@ + behind {
        assert(words@.subrange(at, at + 17) =~= "Too Many Requests"@);
        assert(crate::search::occurs_at(words@, at, "Too Many Requests"@));
    }
}

/// A body is read as it came. A body that could not be read is a failure of the network in
/// the words that came, and so is a failed request, unless it means too many requests.
pub proof fn law_outcomes_are_read(outcome: HttpOutcome)
    ensures
        match outcome {
            HttpOutcome::Body(body) => request::gtx_answered(outcome) == request::gtx_parsed(body@)
                && request::lingva_answered(outcome) == (match json::json_document(body@) {
                Ok(answer) => request::lingva_translated(answer),
                Err(reason) => Err::<Seq<char>, error::Failure>(error::Failure::Parse(reason)),
            }) && request::gtx_parsed(body@) == (match json::json_document(body@) {
                Ok(answer) => request::gtx_translated(answer),
                Err(reason) => Err::<Seq<char>, error::Failure>(error::Failure::Parse(reason)),
            }),
            HttpOutcome::Unreadable(words) => {
                &&& request::gtx_answered(outcome) == Err::<Seq<char>, error::Failure>(
                    error::Failure::Network(words@),
                )
                &&& request::lingva_answered(outcome) == Err::<Seq<char>, error::Failure>(
                    error::Failure::Network(words@),
                )
            },
            HttpOutcome::Failed(failure) => {
                let words = match failure {
                    RequestFailure::Status { text, .. } => text@,
                    RequestFailure::Transport { text } => text@,
                };
                let error = if request::rate_limited(failure) {
                    error::Failure::RateLimited
                } else {
                    error::Failure::Network(words)
                };
                &&& request::gtx_answered(outcome) == Err::<Seq<char>, error::Failure>(error)
                &&& request::lingva_answered(outcome) == Err::<Seq<char>, error::Failure>(error)
            },
        },
{
}

/// The addresses name the languages and end with the chunk as it stands in a URL.
pub proof fn law_addresses_hold_the_chunk(chunk: Seq<char>, sl: Seq<char>, tl: Seq<char>)
    ensures
        request::gtx_address(chunk, sl, tl)
            == "https://translate.googleapis.com/translate_a/single?client=gtx&sl="@ + sl + "&tl="@
            + tl + "&dt=t&q="@ + request::percent_encoded(vstd::utf8::encode_utf8(chunk)),
        request::lingva_address(chunk, sl, tl) == "https://lingva.ml/api/v1/"@ + sl + "/"@ + tl
            + "/"@ + request::percent_encoded(vstd::utf8::encode_utf8(chunk)),
{
}

/// A text stands in a URL byte by byte: a letter or digit of ASCII, a hyphen, a full stop, an
/// underscore or a tilde as itself, any other byte as a percent sign and its two digits in
/// base sixteen.
pub proof fn law_urls_are_written_byte_by_byte(before: Seq<u8>, b: u8)
    ensures
        ({
            let plain = 'a' as u8 <= b <= 'z' as u8 || 'A' as u8 <= b <= 'Z' as u8 || '0' as u8 <= b
                <= '9' as u8 || b == '-' as u8 || b == '.' as u8 || b == '_' as u8 || b
                == '~' as u8;
            let shown = request::percent_encoded(before.push(b)).skip(
                request::percent_encoded(before).len() as int,
            );
            &&& request::percent_encoded(before.push(b)).take(
                request::percent_encoded(before).len() as int,
            ) == request::percent_encoded(before)
            &&& plain ==> shown.len() == 1 && shown[0] as int == b as int
            &&& !plain ==> shown.len() == 3 && shown[0] == '%' && "0123456789ABCDEF"@[b as int / 16]
                == shown[1] && "0123456789ABCDEF"@[b as int % 16] == shown[2]
        }),
        request::percent_encoded(Seq::empty()).len() == 0,
{
    reveal_strlit("0123456789ABCDEF");
    assert(before.push(b).drop_last() =~= before);
    let first = request::percent_encoded(before);
    let all = request::percent_encoded(before.push(b));
    assert(all == first + request::percent_byte(b));
    assert(all.take(first.len() as int) =~= first);
    assert(all.skip(first.len() as int) =~= request::percent_byte(b));
}

} // verus!
