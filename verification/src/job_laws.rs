//! What holds of the translation of a list of texts, from the texts to what becomes of them.
use vstd::prelude::*;
use crate::config::TranslationConfig;
use crate::job::{TextsJob, TextsStep, TranslatedTexts};
use crate::provider::TranslationProvider;
use crate::request::HttpOutcome;
use crate::digits;
use crate::error;
use crate::job;
use crate::placeholder;
use crate::placeholder_laws;
use crate::provider;
use crate::provider_laws;
use crate::request;
use crate::text;

verus! {

/// The texts that are worth a request, in order.
pub open spec fn worthy(texts: Seq<Seq<char>>) -> Seq<Seq<char>> {
    texts.filter(|t: Seq<char>| text::translatable(t))
}

/// What a text is sent as.
pub open spec fn protected(t: Seq<char>) -> Seq<char> {
    placeholder::hidden(placeholder::code_parts(t))
}

/// The code that a text keeps.
pub open spec fn kept_code(t: Seq<char>) -> Seq<Seq<char>> {
    placeholder::codes(placeholder::code_parts(t))
}

/// What becomes of a text that was sent, given its translation: the translation itself if
/// the text has no code, else what restoring the code gives, and the text where that fails.
pub open spec fn brought_back(t: Seq<char>, raw: Seq<char>) -> Seq<char> {
    if kept_code(t).len() == 0 {
        raw
    } else {
        match placeholder::restored(raw, kept_code(t)) {
            Some(restored) => restored,
            None => t,
        }
    }
}

proof fn lemma_worthy(texts: Seq<Seq<char>>)
    requires
        texts.len() <= usize::MAX,
    ensures
        job::worth(texts).len() == worthy(texts).len(),
        forall|k: int|
            0 <= k < worthy(texts).len() ==> #[trigger] worthy(texts)[k] == texts[job::worth(
                texts,
            )[k] as int],
    decreases texts.len(),
{
    reveal(Seq::filter);
    if texts.len() > 0 {
        let front = texts.drop_last();
        let test = |t: Seq<char>| text::translatable(t);
        lemma_worthy(front);
        job::lemma_worth_below(front);
        assert(worthy(texts) == if test(texts.last()) {
            worthy(front).push(texts.last())
        } else {
            worthy(front)
        });
        assert forall|k: int| 0 <= k < worthy(texts).len() implies #[trigger] worthy(texts)[k]
            == texts[job::worth(texts)[k] as int] by {
            if k < worthy(front).len() {
                assert(worthy(texts)[k] == worthy(front)[k]);
                assert(job::worth(front)[k] < front.len());
            }
        }
    }
}

/// What is sent are the texts that are worth a request, in order, each with its code hidden.
pub proof fn law_worthy_texts_are_sent(texts: Seq<Seq<char>>)
    requires
        texts.len() <= usize::MAX,
    ensures
        job::sent_texts(texts) == worthy(texts).map_values(|t: Seq<char>| protected(t)),
{
    lemma_worthy(texts);
    assert(job::sent_texts(texts) =~= worthy(texts).map_values(|t: Seq<char>| protected(t)));
}

/// A translation goes to the text that it is of: the text with as many others worth a
/// request before it as there are translations before. If restoring its code succeeds, the
/// text becomes what that gives, however many pieces of code it has. Only where it fails, or
/// where there is no translation, the text stays.
pub proof fn law_translation_goes_to_its_text(
    texts: Seq<Seq<char>>,
    translations: Seq<Seq<char>>,
    i: int,
)
    requires
        0 <= i < texts.len() <= usize::MAX,
    ensures
        job::finished(texts, translations).len() == texts.len(),
        job::finished(texts, translations)[i] == if text::translatable(texts[i]) && worthy(
            texts.take(i),
        ).len() < translations.len() {
            brought_back(texts[i], translations[worthy(texts.take(i)).len() as int])
        } else {
            texts[i]
        },
{
    lemma_worthy(texts.take(i));
}

/// Each text gets its own translation. If a translator gives `f` of whatever is sent, a text
/// that is worth a request becomes `f` of what it was sent as, with its code put back, and
/// any other text stays.
pub proof fn law_each_text_gets_its_own_translation(
    texts: Seq<Seq<char>>,
    f: spec_fn(Seq<char>) -> Seq<char>,
    i: int,
)
    requires
        0 <= i < texts.len() <= usize::MAX,
    ensures
        job::finished(texts, job::sent_texts(texts).map_values(f))[i] == if text::translatable(
            texts[i],
        ) {
            brought_back(texts[i], f(protected(texts[i])))
        } else {
            texts[i]
        },
{
    law_translation_goes_to_its_text(texts, job::sent_texts(texts).map_values(f), i);
    if text::translatable(texts[i]) {
        job::lemma_worth_take(texts, i);
        job::lemma_worth_prefix(texts, i + 1);
        lemma_worthy(texts.take(i));
        let r = job::rank(texts, i);
        assert(job::worth(texts.take(i + 1))[r] == i);
        assert(job::worth(texts)[r] == i);
        assert(job::sent_texts(texts)[r] == protected(texts[i]));
    }
}

/// Code comes back into what becomes of a text. If each piece of its code has a token in the
/// translation and the tokens stand apart, the text becomes the translation with every token
/// replaced by the code it stands for.
pub proof fn law_code_comes_back_into_its_text(
    texts: Seq<Seq<char>>,
    translations: Seq<Seq<char>>,
    i: int,
    slots: Seq<placeholder_laws::Slot>,
)
    requires
        0 <= i < texts.len() <= usize::MAX,
        text::translatable(texts[i]),
        worthy(texts.take(i)).len() < translations.len(),
        kept_code(texts[i]).len() > 0,
        placeholder::normalised(translations[worthy(texts.take(i)).len() as int]) == text::concat(
            placeholder_laws::written(slots),
        ),
        placeholder_laws::apart(slots, kept_code(texts[i]).len() as int),
        forall|n: nat|
            n < kept_code(texts[i]).len() ==> slots.contains(
                placeholder_laws::Slot::Mark(#[trigger] digits::decimal(n)),
            ),
    ensures
        job::finished(texts, translations)[i] == text::concat(
            placeholder_laws::results(slots, kept_code(texts[i])),
        ),
{
    law_translation_goes_to_its_text(texts, translations, i);
    placeholder_laws::law_code_comes_back(
        translations[worthy(texts.take(i)).len() as int],
        slots,
        kept_code(texts[i]),
    );
}

/// Whether the code of a text is lost in its translation.
pub open spec fn loses_code(
    texts: Seq<Seq<char>>,
    translations: Seq<Seq<char>>,
    i: int,
) -> bool {
    &&& 0 <= i < texts.len()
    &&& text::translatable(texts[i])
    &&& worthy(texts.take(i)).len() < translations.len()
    &&& kept_code(texts[i]).len() > 0
    &&& placeholder::restored(
        translations[worthy(texts.take(i)).len() as int],
        kept_code(texts[i]),
    ) is None
}

/// The user is warned about lost code if and only if the code of some text is lost, and in
/// the same words each time.
pub proof fn law_user_is_warned_of_lost_code(
    done: TranslatedTexts,
    texts: Seq<Seq<char>>,
    translations: Seq<Seq<char>>,
)
    requires
        texts.len() <= usize::MAX,
        job::ends_with(done, texts, translations),
    ensures
        text::views(done.texts@) == job::finished(texts, translations),
        done.warning is Some <==> exists|i: int| #[trigger] loses_code(texts, translations, i),
        done.warning matches Some(warning) ==> warning@
            == "translation dropped code placeholders; showing original text for a line."@,
{
    assert forall|i: int| 0 <= i < texts.len() implies #[trigger] loses_code(texts, translations, i)
        == (job::answered(texts, translations, i) && job::lost(
        texts[i],
        translations[job::rank(texts, i)],
    )) by {
        lemma_worthy(texts.take(i));
    }
    if done.warning is Some {
        let i = choose|i: int|
            0 <= i < texts.len() && #[trigger] job::answered(texts, translations, i) && job::lost(
                texts[i],
                translations[job::rank(texts, i)],
            );
        assert(loses_code(texts, translations, i));
    } else if exists|i: int| #[trigger] loses_code(texts, translations, i) {
        let i = choose|i: int| #[trigger] loses_code(texts, translations, i);
        assert(job::answered(texts, translations, i));
    }
}

/// The provider that is not this one.
pub open spec fn swapped(provider: TranslationProvider) -> TranslationProvider {
    if provider is GoogleGtx {
        TranslationProvider::Lingva(provider::LingvaTranslator)
    } else {
        TranslationProvider::GoogleGtx(provider::GoogleGtxTranslator)
    }
}

/// The first failure makes the job start anew with the other provider: with the same texts,
/// in the same language, from the first request on.
pub proof fn law_first_failure_turns_to_the_other(
    job: TextsJob,
    outcome: HttpOutcome,
    step: TextsStep,
)
    requires
        job.waits(),
        job.leads_to(outcome, step),
        job.first_error is None,
        job.provider.answered(outcome) is Err,
    ensures
        step matches TextsStep::Ask(next) && next.provider == swapped(job.provider)
            && next.answers@.len() == 0 && next.texts == job.texts && next.target_lang
            == job.target_lang && (next.first_error matches Some(first) && Err::<
            Seq<char>,
            error::Failure,
        >(first@) == job.provider.answered(outcome)) && (swapped(job.provider).progress(
            job::sent_texts(text::views(job.texts@)),
            Seq::empty(),
        ) matches provider::Progress::Ask(chunk) && next.url@ == swapped(job.provider).address(
            chunk,
            "en"@,
            job.target_lang@,
        )),
{
    match step {
        TextsStep::Ask(next) => {
            assert(text::views(next.answers@) =~= Seq::empty());
        },
        _ => {},
    }
}

/// If both providers fail, every text stays, and the warning names both and says why.
pub proof fn law_second_failure_keeps_the_texts(
    job: TextsJob,
    outcome: HttpOutcome,
    step: TextsStep,
)
    requires
        job.leads_to(outcome, step),
        job.first_error is Some,
        job.provider.answered(outcome) is Err,
    ensures
        step matches TextsStep::Done(done) && done.texts == job.texts && (
        done.warning matches Some(warning) && warning@ == "translation via "@ + (
        if job.provider is GoogleGtx {
            "lingva"@
        } else {
            "google-gtx"@
        }) + " failed ("@ + job.first_error->0@.message() + "); fallback "@ + (
        if job.provider is GoogleGtx {
            "google-gtx"@
        } else {
            "lingva"@
        }) + " failed ("@ + job.provider.answered(outcome)->Err_0.message()
            + "); showing original English text."@),
{
}

/// An answer takes the job one step further: to the next request of the same provider, from
/// English into the same language, or to the end, where the translations that the provider
/// put together go to their texts.
pub proof fn law_answer_goes_on(job: TextsJob, outcome: HttpOutcome, step: TextsStep)
    requires
        job.prepared(),
        job.leads_to(outcome, step),
        job.provider.answered(outcome) is Ok,
    ensures
        ({
            let answers = text::views(job.answers@).push(job.provider.answered(outcome)->Ok_0);
            match job.provider.progress(text::views(job.sent@), answers) {
                provider::Progress::Ask(chunk) => step matches TextsStep::Ask(next)
                    && next.provider == job.provider && next.texts == job.texts && next.target_lang
                    == job.target_lang && next.first_error == job.first_error && text::views(
                    next.answers@,
                ) == answers && next.url@ == if job.provider is GoogleGtx {
                    request::gtx_address(chunk, "en"@, job.target_lang@)
                } else {
                    request::lingva_address(chunk, "en"@, job.target_lang@)
                },
                provider::Progress::Done(translations, _) => step matches TextsStep::Done(done)
                    && job::ends_with(done, text::views(job.texts@), translations),
            }
        }),
{
    match step {
        TextsStep::Ask(next) => {
            assert(text::views(next.sent@) == text::views(job.sent@));
        },
        _ => {},
    }
}

/// Whether every answer so far is that of a faithful translator.
pub open spec fn answered_faithfully(
    f: spec_fn(Seq<char>) -> Seq<char>,
    provider: TranslationProvider,
    sent: Seq<Seq<char>>,
    answers: Seq<Seq<char>>,
) -> bool {
    forall|m: int|
        0 <= m < answers.len() ==> (#[trigger] provider.progress(sent, answers.take(m)) matches provider::Progress::Ask(
            chunk,
        ) ==> if provider is GoogleGtx {
            provider_laws::faithful(f, chunk, answers[m])
        } else {
            answers[m] == f(chunk)
        })
}

proof fn lemma_provider_translates(
    f: spec_fn(Seq<char>) -> Seq<char>,
    provider: TranslationProvider,
    sent: Seq<Seq<char>>,
    answers: Seq<Seq<char>>,
)
    requires
        sent.len() <= usize::MAX,
        forall|k: int| 0 <= k < sent.len() ==> provider_laws::plain(#[trigger] sent[k]),
        provider_laws::keeps_plain(f),
        answered_faithfully(f, provider, sent, answers),
        provider.progress(sent, answers) is Done,
    ensures
        provider.progress(sent, answers)->Done_0 == sent.map_values(
            |s: Seq<char>| provider_laws::translated(f, s),
        ),
{
    let got = provider.progress(sent, answers)->Done_0;
    let tr = |s: Seq<char>| provider_laws::translated(f, s);
    provider::law_providers_are_sound(provider, sent, answers);
    match provider {
        TranslationProvider::GoogleGtx(_) => {
            assert forall|m: int| 0 <= m < answers.len() implies (#[trigger] provider::gtx_progress(
                sent,
                answers.take(m),
            ) matches provider::Progress::Ask(chunk) ==> provider_laws::faithful(
                f,
                chunk,
                answers[m],
            )) by {
                let here = provider.progress(sent, answers.take(m));
            }
            assert forall|k: int| 0 <= k < sent.len() implies #[trigger] got[k] == tr(sent[k]) by {
                provider_laws::law_google_translates_each_text(f, sent, answers, k);
            }
        },
        TranslationProvider::Lingva(_) => {
            assert forall|m: int| 0 <= m < answers.len() implies (
            #[trigger] provider::lingva_progress(sent, answers.take(m)) matches provider::Progress::Ask(
                chunk,
            ) ==> answers[m] == f(chunk)) by {
                let here = provider.progress(sent, answers.take(m));
            }
            assert forall|k: int| 0 <= k < sent.len() implies #[trigger] got[k] == tr(sent[k]) by {
                provider_laws::law_lingva_translates_each_text(f, sent, answers, k);
            }
        },
    }
    assert(got =~= sent.map_values(tr));
}

/// A job brings every text its own translation. If the provider answers every request
/// faithfully and none of the texts that are sent holds a newline, then in the end a text
/// that is worth a request is the translation of what it was sent as, with its code put
/// back, and any other text stays.
pub proof fn law_job_brings_translations(
    f: spec_fn(Seq<char>) -> Seq<char>,
    job: TextsJob,
    outcome: HttpOutcome,
    done: TranslatedTexts,
    i: int,
)
    requires
        job.prepared(),
        job.leads_to(outcome, TextsStep::Done(done)),
        job.provider.answered(outcome) is Ok,
        forall|k: int|
            0 <= k < job.sent@.len() ==> provider_laws::plain((#[trigger] job.sent@[k])@),
        provider_laws::keeps_plain(f),
        answered_faithfully(
            f,
            job.provider,
            text::views(job.sent@),
            text::views(job.answers@).push(job.provider.answered(outcome)->Ok_0),
        ),
        0 <= i < job.texts@.len(),
    ensures
        done.texts@.len() == job.texts@.len(),
        done.texts@[i]@ == if text::translatable(job.texts@[i]@) {
            brought_back(
                job.texts@[i]@,
                provider_laws::translated(f, protected(job.texts@[i]@)),
            )
        } else {
            job.texts@[i]@
        },
{
    let sent = text::views(job.sent@);
    let texts = text::views(job.texts@);
    let answers = text::views(job.answers@).push(job.provider.answered(outcome)->Ok_0);
    let tr = |s: Seq<char>| provider_laws::translated(f, s);
    assert(sent.len() == job.sent.len());
    assert(texts.len() == job.texts.len());
    assert forall|k: int| 0 <= k < sent.len() implies provider_laws::plain(#[trigger] sent[k]) by {
        assert(provider_laws::plain(job.sent@[k]@));
    }
    law_answer_goes_on(job, outcome, TextsStep::Done(done));
    lemma_provider_translates(f, job.provider, sent, answers);
    law_each_text_gets_its_own_translation(texts, tr, i);
    assert(text::views(done.texts@).len() == texts.len());
    assert(text::views(done.texts@)[i] == done.texts@[i]@);
    assert(texts[i] == job.texts@[i]@);
}

/// A job starts with the provider that is named `lingva`, or else with Google. Its first
/// request is for what the provider asks of the texts that are sent, from English into the
/// language that is asked for. Without a text worth a request there is none, and the texts
/// stay.
pub proof fn law_job_starts_with_the_named_provider(
    texts: Vec<String>,
    config: TranslationConfig,
    step: TextsStep,
)
    requires
        job::starts(texts, config, step),
    ensures
        worthy(text::views(texts@)).len() == 0 ==> (step matches TextsStep::Done(done)
            && done.texts == texts && done.warning is None),
        worthy(text::views(texts@)).len() > 0 ==> (step matches TextsStep::Ask(job) && job.texts
            == texts && job.answers@.len() == 0 && job.first_error is None && (job.provider is Lingva
            <==> config.provider@ == "lingva"@) && text::views(job.sent@) == worthy(
            text::views(texts@),
        ).map_values(|t: Seq<char>| protected(t)) && job.target_lang@ == config.target_lang@ && (
        job.provider.progress(text::views(job.sent@), Seq::empty()) matches provider::Progress::Ask(
            chunk,
        ) && job.url@ == if config.provider@ == "lingva"@ {
            request::lingva_address(chunk, "en"@, config.target_lang@)
        } else {
            request::gtx_address(chunk, "en"@, config.target_lang@)
        })),
{
    let all = text::views(texts@);
    assert(all.len() == texts.len());
    lemma_worthy(all);
    law_worthy_texts_are_sent(all);
    match step {
        TextsStep::Ask(job) => {
            assert(text::views(job.answers@) =~= Seq::empty());
        },
        _ => {},
    }
}

/// Google is first asked for the texts of the first batch, joined by newlines if there are
/// several, and Lingva for the first chunk of the first text.
pub proof fn law_first_request(sent: Seq<Seq<char>>)
    requires
        0 < sent.len() <= usize::MAX,
    ensures
        provider::lingva_progress(sent, Seq::empty()) == provider::Progress::Ask(
            provider_laws::all_chunks(sent)[0],
        ),
        crate::batch::batches(sent)[0].len() > 1 ==> provider::gtx_progress(sent, Seq::empty())
            == provider::Progress::Ask(
            text::join_lines(sent.take(crate::batch::batches(sent)[0].len() as int)),
        ),
        crate::batch::batches(sent)[0].len() == 1 ==> provider::gtx_progress(sent, Seq::empty())
            == provider::Progress::Ask(provider_laws::all_chunks(sent)[0]),
{
    let none = Seq::<Seq<char>>::empty();
    let batches = crate::batch::batches(sent);
    let lingva = TranslationProvider::Lingva(provider::LingvaTranslator);
    provider::lemma_progress_starts(lingva, sent, none);
    provider_laws::law_lingva_asks_in_order(sent, none);
    crate::batch::law_batches(sent);
    let google = TranslationProvider::GoogleGtx(provider::GoogleGtxTranslator);
    provider::lemma_progress_starts(google, sent, none);
    let first = crate::batch::select(sent, batches[0]);
    assert(first =~= sent.take(batches[0].len() as int));
    assert(batches[0].len() <= 8);
    if batches[0].len() == 1 {
        assert(first[0] == sent[0]);
        let asked = provider::chunks(sent[0]);
        crate::split::law_chunks_fit(sent[0], 3500);
        assert(provider::one_by_one(first, none, 0) == provider::Progress::Ask(asked[0]));
        assert(provider::one_by_one(sent, none, 0) == provider::Progress::Ask(asked[0]));
    }
}

/// The words for each failure.
pub proof fn law_failures_have_their_words(text: Seq<char>)
    ensures
        error::Failure::Network(text).message() == "network error: "@ + text,
        error::Failure::Parse(text).message() == "parse error: "@ + text,
        error::Failure::RateLimited.message() == "rate limited (HTTP 429)"@,
        error::Failure::PlaceholderMismatch.message() == "placeholder mismatch after translation"@,
{
}

} // verus!
