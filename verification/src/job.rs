//! The translation of a list of texts, from request to request.
//!
//! [`translate_texts`] starts a job. As long as the job asks for an address, the caller
//! fetches it and hands back what came of that with [`TextsJob::answer`]. No failure
//! reaches the caller: where a text cannot be translated, it stays as it is.
use vstd::prelude::*;
use vstd::string::StringExecFns;
use crate::config::TranslationConfig;
use crate::error::TranslationError;
use crate::provider::{pick_provider, ProviderStep, TranslationProvider};
use crate::request::HttpOutcome;
use crate::error;
use crate::placeholder;
use crate::placeholder_laws;
use crate::provider;
use crate::text;

verus! {

/// A text with its code hidden, as it is sent to a provider.
pub open spec fn hidden_text(s: Seq<char>) -> Seq<char> {
    placeholder::hidden(placeholder::code_parts(s))
}

/// The code that is hidden in a text.
pub open spec fn hidden_codes(s: Seq<char>) -> Seq<Seq<char>> {
    placeholder::codes(placeholder::code_parts(s))
}

/// The positions of the texts that are worth a request.
pub open spec fn worth(texts: Seq<Seq<char>>) -> Seq<usize>
    decreases texts.len(),
{
    if texts.len() == 0 {
        Seq::empty()
    } else if text::translatable(texts.last()) {
        worth(texts.drop_last()).push((texts.len() - 1) as usize)
    } else {
        worth(texts.drop_last())
    }
}

/// What is sent to a provider for a list of texts.
pub open spec fn sent_texts(texts: Seq<Seq<char>>) -> Seq<Seq<char>> {
    Seq::new(worth(texts).len(), |k: int| hidden_text(texts[worth(texts)[k] as int]))
}

/// How many of the texts before position `i` are worth a request.
pub open spec fn rank(texts: Seq<Seq<char>>, i: int) -> int {
    worth(texts.take(i)).len() as int
}

/// Whether the translation of a text has lost some of its code.
pub open spec fn lost(s: Seq<char>, raw: Seq<char>) -> bool {
    hidden_codes(s).len() > 0 && placeholder::restored(raw, hidden_codes(s)) is None
}

/// What becomes of a text, given its translation: the translation with the code put
/// back, or the text itself where some of the code is lost.
pub open spec fn kept(s: Seq<char>, raw: Seq<char>) -> Seq<char> {
    if hidden_codes(s).len() == 0 {
        raw
    } else {
        match placeholder::restored(raw, hidden_codes(s)) {
            Some(restored) => restored,
            None => s,
        }
    }
}

/// Whether there is a translation for the text at position `i`.
pub open spec fn answered(texts: Seq<Seq<char>>, translations: Seq<Seq<char>>, i: int) -> bool {
    text::translatable(texts[i]) && rank(texts, i) < translations.len()
}

/// What becomes of a list of texts, given the translations of those that were sent.
pub open spec fn finished(texts: Seq<Seq<char>>, translations: Seq<Seq<char>>) -> Seq<Seq<char>> {
    Seq::new(
        texts.len(),
        |i: int|
            if answered(texts, translations, i) {
                kept(texts[i], translations[rank(texts, i)])
            } else {
                texts[i]
            },
    )
}

/// Whether some translation has lost code.
pub open spec fn some_lost(texts: Seq<Seq<char>>, translations: Seq<Seq<char>>) -> bool {
    exists|i: int|
        0 <= i < texts.len() && #[trigger] answered(texts, translations, i) && lost(
            texts[i],
            translations[rank(texts, i)],
        )
}

/// Whether lists hold the code that is hidden in the texts that were sent.
pub open spec fn codes_of(placeholders: Seq<Vec<String>>, texts: Seq<Seq<char>>) -> bool {
    &&& placeholders.len() == worth(texts).len()
    &&& forall|k: int|
        0 <= k < placeholders.len() ==> text::views((#[trigger] placeholders[k])@) == hidden_codes(
            texts[worth(texts)[k] as int],
        )
}

pub proof fn lemma_worth_take(texts: Seq<Seq<char>>, i: int)
    requires
        0 <= i < texts.len(),
    ensures
        worth(texts.take(i + 1)) == if text::translatable(texts[i]) {
            worth(texts.take(i)).push(i as usize)
        } else {
            worth(texts.take(i))
        },
{
    assert(texts.take(i + 1).drop_last() =~= texts.take(i));
}

pub proof fn lemma_worth_prefix(texts: Seq<Seq<char>>, i: int)
    requires
        0 <= i <= texts.len(),
    ensures
        rank(texts, i) <= worth(texts).len(),
        forall|k: int| 0 <= k < rank(texts, i) ==> worth(texts)[k] == worth(texts.take(i))[k],
    decreases texts.len() - i,
{
    if i == texts.len() {
        assert(texts.take(i) =~= texts);
    } else {
        lemma_worth_prefix(texts, i + 1);
        lemma_worth_take(texts, i);
    }
}

pub proof fn lemma_worth_below(texts: Seq<Seq<char>>)
    requires
        texts.len() <= usize::MAX,
    ensures
        forall|k: int| 0 <= k < worth(texts).len() ==> #[trigger] worth(texts)[k] < texts.len(),
        worth(texts).len() <= texts.len(),
    decreases texts.len(),
{
    if texts.len() > 0 {
        lemma_worth_below(texts.drop_last());
    }
}

/// Puts the code back into the translations of the texts that were sent. A text whose
/// translation lost some code stays as it is, and so does one that was not sent or has
/// no translation. Also tells whether some code was lost.
pub fn restore_all(
    texts: &[String],
    positions: &[usize],
    placeholders: &[Vec<String>],
    translated: &[String],
) -> (result: (Vec<String>, bool))
    requires
        positions@ == worth(text::views(texts@)),
        codes_of(placeholders@, text::views(texts@)),
        translated@.len() <= positions@.len(),
    ensures
        text::views(result.0@) == finished(text::views(texts@), text::views(translated@)),
        result.1 == some_lost(text::views(texts@), text::views(translated@)),
{
    let ghost all = text::views(texts@);
    let ghost raw = text::views(translated@);
    let mut out: Vec<String> = Vec::new();
    let mut dropped = false;
    let mut next: usize = 0;
    let mut i: usize = 0;
    assert(all.take(0) =~= Seq::empty());
    while i < texts.len()
        invariant
            i <= texts@.len(),
            all == text::views(texts@),
            raw == text::views(translated@),
            positions@ == worth(all),
            codes_of(placeholders@, all),
            translated@.len() <= positions@.len(),
            next == rank(all, i as int),
            next <= positions@.len(),
            text::views(out@) == finished(all, raw).take(i as int),
            dropped == exists|j: int|
                0 <= j < i && #[trigger] answered(all, raw, j) && lost(all[j], raw[rank(all, j)]),
        decreases texts@.len() - i,
    {
        proof {
            assert(all.len() == texts.len());
            lemma_worth_below(all);
            lemma_worth_take(all, i as int);
            lemma_worth_prefix(all, i as int);
            lemma_worth_prefix(all, i + 1);
            assert(finished(all, raw).take(i + 1) =~= finished(all, raw).take(i as int).push(
                finished(all, raw)[i as int],
            ));
        }
        let mut text = texts[i].clone();
        let ghost was_dropped = dropped;
        if next < positions.len() && positions[next] == i {
            assert(text::translatable(all[i as int])) by {
                if !text::translatable(all[i as int]) {
                    lemma_worth_later(all, i + 1, next as int);
                }
            }
            if next < translated.len() {
                assert(answered(all, raw, i as int));
                let codes = &placeholders[next];
                assert(text::views(codes@) == hidden_codes(all[i as int]));
                assert(codes@.len() == hidden_codes(all[i as int]).len());
                if codes.len() == 0 {
                    text = translated[next].clone();
                } else {
                    match placeholder::restore(translated[next].as_str(), codes) {
                        Ok(restored) => {
                            text = restored;
                        },
                        Err(_) => {
                            dropped = true;
                        },
                    }
                }
            }
            next += 1;
        } else {
            assert(!text::translatable(all[i as int])) by {
                if text::translatable(all[i as int]) {
                    assert(worth(all.take(i + 1))[next as int] == i);
                }
            }
        }
        proof {
            text::lemma_views_push(out@, text);
            assert(text@ == finished(all, raw)[i as int]);
            if dropped && !was_dropped {
                assert(answered(all, raw, i as int) && lost(
                    all[i as int],
                    raw[rank(all, i as int)],
                ));
            }
        }
        out.push(text);
        i += 1;
    }
    assert(finished(all, raw).take(i as int) =~= finished(all, raw));
    (out, dropped)
}

/// Behind the texts before position `i`, only later positions follow.
pub proof fn lemma_worth_later(texts: Seq<Seq<char>>, i: int, k: int)
    requires
        0 <= i <= texts.len() <= usize::MAX,
        rank(texts, i) <= k < worth(texts).len(),
    ensures
        worth(texts)[k] >= i,
    decreases texts.len(),
{
    if i == texts.len() {
        assert(texts.take(i) =~= texts);
    } else {
        let shorter = texts.drop_last();
        assert(shorter.take(i) =~= texts.take(i));
        if k < worth(shorter).len() {
            lemma_worth_later(shorter, i, k);
        }
    }
}

/// Texts that are translated, or left as they are.
pub struct TranslatedTexts {
    pub texts: Vec<String>,
    /// What the user should know about texts that were left as they are.
    pub warning: Option<String>,
}

/// What happens next with a list of texts.
pub enum TextsStep {
    /// They are translated.
    Done(TranslatedTexts),
    /// An address is to be fetched.
    Ask(TextsJob),
}

/// The translation of a list of texts that waits for an answer.
pub struct TextsJob {
    /// The texts, all of them.
    pub texts: Vec<String>,
    /// The language to translate into.
    pub target_lang: String,
    /// The positions of the texts that are sent.
    pub positions: Vec<usize>,
    /// What is sent for them.
    pub sent: Vec<String>,
    /// The code that is hidden in what is sent.
    pub placeholders: Vec<Vec<String>>,
    /// The provider that is asked.
    pub provider: TranslationProvider,
    /// Why the provider before it failed.
    pub first_error: Option<TranslationError>,
    /// The answers of this provider so far.
    pub answers: Vec<String>,
    /// The address to fetch next.
    pub url: String,
}

/// The language of the texts.
pub open spec fn source_lang() -> Seq<char> {
    "en"@
}

impl TextsJob {
    /// Whether the work is prepared: the texts that are worth it are sent, with their
    /// code hidden.
    pub open spec fn prepared(self) -> bool {
        &&& self.positions@ == worth(text::views(self.texts@))
        &&& self.positions@.len() > 0
        &&& text::views(self.sent@) == sent_texts(text::views(self.texts@))
        &&& codes_of(self.placeholders@, text::views(self.texts@))
    }

    /// How far the provider has come.
    pub open spec fn progress(self) -> provider::Progress {
        self.provider.progress(text::views(self.sent@), text::views(self.answers@))
    }

    /// Whether the job waits for the answer that its provider needs next.
    pub open spec fn waits(self) -> bool {
        &&& self.prepared()
        &&& self.progress() matches provider::Progress::Ask(chunk) && self.url@
            == self.provider.address(chunk, source_lang(), self.target_lang@)
    }

    /// What happens once a request is made: an answer is the translation of the next
    /// chunk. If there is none, the other provider starts from the beginning. If that one
    /// fails as well, the texts stay as they are.
    pub open spec fn leads_to(self, outcome: HttpOutcome, step: TextsStep) -> bool {
        match self.provider.answered(outcome) {
            Ok(translation) => self.goes_on(text::views(self.answers@).push(translation), step),
            Err(failure) => match (self.first_error, step) {
                (None, TextsStep::Ask(job)) => {
                    &&& job.waits()
                    &&& job.same_work(self)
                    &&& job.provider == self.provider.other()
                    &&& job.answers@.len() == 0
                    &&& job.first_error matches Some(first) && first@ == failure
                },
                (Some(first), TextsStep::Done(done)) => {
                    &&& done.texts == self.texts
                    &&& done.warning matches Some(warning) && warning@ == failed_warning(
                        self.provider.other(),
                        first@,
                        failure,
                    )
                },
                _ => false,
            },
        }
    }

    /// What happens after some answers of the provider.
    pub open spec fn goes_on(self, answers: Seq<Seq<char>>, step: TextsStep) -> bool {
        match (self.provider.progress(text::views(self.sent@), answers), step) {
            (provider::Progress::Ask(_), TextsStep::Ask(job)) => {
                &&& job.waits()
                &&& job.same_work(self)
                &&& job.provider == self.provider
                &&& job.first_error == self.first_error
                &&& text::views(job.answers@) == answers
            },
            (provider::Progress::Done(translations, _), TextsStep::Done(done)) => ends_with(
                done,
                text::views(self.texts@),
                translations,
            ),
            _ => false,
        }
    }

    /// Whether this job is about the same texts as another.
    pub open spec fn same_work(self, other: TextsJob) -> bool {
        &&& self.texts == other.texts
        &&& self.target_lang == other.target_lang
    }
}

/// The warning where both providers fail.
pub open spec fn failed_warning(
    primary: TranslationProvider,
    first: error::Failure,
    second: error::Failure,
) -> Seq<char> {
    "translation via "@ + primary.named() + " failed ("@ + first.message() + "); fallback "@
        + primary.other().named() + " failed ("@ + second.message()
        + "); showing original English text."@
}

/// The warning where a translation has lost code.
pub open spec fn lost_warning() -> Seq<char> {
    "translation dropped code placeholders; showing original text for a line."@
}

fn warn_failed(
    primary: &TranslationProvider,
    first: &TranslationError,
    second: &TranslationError,
) -> (warning: String)
    ensures
        warning@ == failed_warning(*primary, first@, second@),
{
    let mut warning = "translation via ".to_owned();
    warning.append(primary.name());
    warning.append(" failed (");
    warning.append(first.message().as_str());
    warning.append("); fallback ");
    warning.append(primary.fallback().name());
    warning.append(" failed (");
    warning.append(second.message().as_str());
    warning.append("); showing original English text.");
    warning
}

/// What the end of a job is, given the translations of the texts that were sent.
pub open spec fn ends_with(
    done: TranslatedTexts,
    texts: Seq<Seq<char>>,
    translations: Seq<Seq<char>>,
) -> bool {
    &&& text::views(done.texts@) == finished(texts, translations)
    &&& match done.warning {
        Some(warning) => some_lost(texts, translations) && warning@ == lost_warning(),
        None => !some_lost(texts, translations),
    }
}

impl TextsJob {
    /// Ends the job with the translations of the texts that were sent.
    fn finish(self, translated: Vec<String>) -> (done: TranslatedTexts)
        requires
            self.prepared(),
            translated@.len() <= self.sent@.len(),
        ensures
            ends_with(done, text::views(self.texts@), text::views(translated@)),
    {
        assert(self.sent@.len() == text::views(self.sent@).len());
        let (texts, dropped) = restore_all(
            &self.texts,
            &self.positions,
            &self.placeholders,
            &translated,
        );
        let warning = if dropped {
            Some(
                "translation dropped code placeholders; showing original text for a line.".to_owned(),
            )
        } else {
            None
        };
        TranslatedTexts { texts, warning }
    }

    /// Goes on after the answers so far.
    fn advance(self) -> (step: TextsStep)
        requires
            self.prepared(),
        ensures
            self.goes_on(text::views(self.answers@), step),
    {
        proof {
            assert(self.sent@.len() == self.sent.len());
            provider::law_providers_are_sound(
                self.provider,
                text::views(self.sent@),
                text::views(self.answers@),
            );
        }
        match self.provider.translate(&self.sent, "en", self.target_lang.as_str(), &self.answers) {
            ProviderStep::Ask(url) => {
                let mut job = self;
                job.url = url;
                TextsStep::Ask(job)
            },
            ProviderStep::Done(translated) => {
                assert(translated@.len() == text::views(translated@).len());
                assert(self.sent@.len() == text::views(self.sent@).len());
                TextsStep::Done(self.finish(translated))
            },
        }
    }

    /// Goes on with what came of the request for the address. An answer is the
    /// translation of the next chunk. If there is none, the other provider starts from
    /// the beginning. If that one fails as well, the texts stay as they are.
    pub fn answer(self, outcome: HttpOutcome) -> (step: TextsStep)
        requires
            self.prepared(),
        ensures
            self.leads_to(outcome, step),
    {
        let mut job = self;
        match job.provider.reply(outcome) {
            Ok(translation) => {
                proof {
                    text::lemma_views_push(job.answers@, translation);
                }
                job.answers.push(translation);
                job.advance()
            },
            Err(error) => match job.first_error {
                None => {
                    job.provider = job.provider.fallback();
                    job.first_error = Some(error);
                    job.answers = Vec::new();
                    proof {
                        assert(job.sent@.len() == job.sent.len());
                        provider::lemma_progress_starts(
                            job.provider,
                            text::views(job.sent@),
                            text::views(job.answers@),
                        );
                    }
                    job.advance()
                },
                Some(first) => {
                    let warning = warn_failed(&job.provider.fallback(), &first, &error);
                    TextsStep::Done(TranslatedTexts { texts: job.texts, warning: Some(warning) })
                },
            },
        }
    }
}

/// Whether the tokens of a text, with its code hidden, are told apart.
pub open spec fn told_apart(s: Seq<char>) -> bool {
    placeholder_laws::coreless(s) || placeholder_laws::unambiguous(placeholder::code_parts(s))
}

/// Whether a text comes out as it went in, if the provider gives back what it is sent.
/// This is owed for a text whose words spell no tokens that get in the way, and so for one
/// that holds no `PH_` before a number, in any case.
pub open spec fn sends_back(texts: Seq<Seq<char>>) -> bool {
    forall|i: int|
        0 <= i < texts.len() && told_apart(#[trigger] texts[i]) ==> finished(
            texts,
            sent_texts(texts),
        )[i] == texts[i] && !(answered(texts, sent_texts(texts), i) && lost(
            texts[i],
            sent_texts(texts)[rank(texts, i)],
        ))
}

/// Whether a text survives being sent and given back unchanged.
spec fn survives(s: Seq<char>) -> bool {
    kept(s, hidden_text(s)) == s && !lost(s, hidden_text(s))
}

proof fn lemma_sends_back(texts: Seq<Seq<char>>)
    requires
        texts.len() <= usize::MAX,
        forall|i: int|
            0 <= i < texts.len() && text::translatable(#[trigger] texts[i])
                && told_apart(texts[i]) ==> survives(texts[i]),
    ensures
        sends_back(texts),
{
    assert forall|i: int|
        0 <= i < texts.len() && told_apart(#[trigger] texts[i]) implies finished(
        texts,
        sent_texts(texts),
    )[i] == texts[i] && !(answered(texts, sent_texts(texts), i) && lost(
        texts[i],
        sent_texts(texts)[rank(texts, i)],
    )) by {
        if text::translatable(texts[i]) {
            lemma_worth_take(texts, i);
            lemma_worth_prefix(texts, i + 1);
            assert(worth(texts)[rank(texts, i)] == i);
            assert(sent_texts(texts)[rank(texts, i)] == hidden_text(texts[i]));
        }
    }
}

/// Every text keeps its place, whatever the translations are. A text that is not worth
/// a request stays as it is, and so does one whose translation has lost code.
pub proof fn law_texts_keep_their_places(texts: Seq<Seq<char>>, translations: Seq<Seq<char>>, i: int)
    requires
        0 <= i < texts.len(),
    ensures
        finished(texts, translations).len() == texts.len(),
        !text::translatable(texts[i]) ==> finished(texts, translations)[i] == texts[i],
        answered(texts, translations, i) && lost(texts[i], translations[rank(texts, i)])
            ==> finished(texts, translations)[i] == texts[i],
{
}

impl TextsJob {
    /// How often a provider may be asked for the texts of this job.
    pub open spec fn limit(self, provider: TranslationProvider) -> int {
        provider.request_limit(text::views(self.sent@))
    }

    /// How many more requests there may be.
    pub open spec fn left(self) -> int {
        self.limit(self.provider) - self.answers@.len() + match self.first_error {
            Some(_) => 0,
            None => self.limit(self.provider.other()),
        }
    }
}

/// A job comes to its end: with every answer, whatever it is, fewer requests are left.
pub proof fn law_jobs_end(job: TextsJob, outcome: HttpOutcome, next: TextsJob)
    requires
        job.waits(),
        job.leads_to(outcome, TextsStep::Ask(next)),
    ensures
        0 < next.left() < job.left(),
{
    let sent = text::views(job.sent@);
    assert(text::views(next.sent@) == sent);
    assert(sent.len() == job.sent.len());
    assert(text::views(job.answers@).len() == job.answers@.len());
    assert(text::views(next.answers@).len() == next.answers@.len());
    provider::law_providers_are_bounded(job.provider, sent, text::views(job.answers@));
    provider::law_providers_are_bounded(next.provider, sent, text::views(next.answers@));
    provider::law_fallbacks_are_mutual(job.provider);
    provider::lemma_progress_starts(job.provider.other(), sent, Seq::empty());
    provider::law_providers_are_bounded(job.provider.other(), sent, Seq::empty());
}

/// The line that warns the user, unless there was a warning before.
pub fn warn_once(already_warned: bool, message: &str) -> (line: Option<String>)
    ensures
        match line {
            Some(line) => !already_warned && line@ == "WARNING: "@ + message@,
            None => already_warned,
        },
{
    if already_warned {
        None
    } else {
        let mut line = "WARNING: ".to_owned();
        line.append(message);
        Some(line)
    }
}

/// What a list of texts leads to: those that are worth a request are sent to the provider
/// that the configuration names, with their code hidden. If there are none, nothing is
/// asked for.
pub open spec fn starts(texts: Vec<String>, config: TranslationConfig, step: TextsStep) -> bool {
    match step {
        TextsStep::Done(done) => {
            &&& worth(text::views(texts@)).len() == 0
            &&& done.texts == texts
            &&& done.warning is None
        },
        TextsStep::Ask(job) => {
            &&& worth(text::views(texts@)).len() > 0
            &&& job.waits()
            &&& job.texts == texts
            &&& job.target_lang@ == config.target_lang@
            &&& job.provider == provider::picked(config)
            &&& job.first_error is None
            &&& job.answers@.len() == 0
            &&& sends_back(text::views(texts@))
        },
    }
}

/// Starts to translate a list of texts. Those that are worth a request are sent to the
/// provider that the configuration names, with their code hidden.
pub fn translate_texts(texts: Vec<String>, config: &TranslationConfig) -> (step: TextsStep)
    ensures
        starts(texts, *config, step),
{
    let ghost all = text::views(texts@);
    let mut positions: Vec<usize> = Vec::new();
    let mut sent: Vec<String> = Vec::new();
    let mut placeholders: Vec<Vec<String>> = Vec::new();
    let mut i: usize = 0;
    assert(all.take(0) =~= Seq::empty());
    while i < texts.len()
        invariant
            i <= texts@.len(),
            all == text::views(texts@),
            positions@ == worth(all.take(i as int)),
            sent@.len() == positions@.len(),
            placeholders@.len() == positions@.len(),
            forall|k: int| 0 <= k < positions@.len() ==> #[trigger] positions@[k] < i,
            forall|k: int|
                0 <= k < sent@.len() ==> (#[trigger] sent@[k])@ == hidden_text(
                    all[positions@[k] as int],
                ),
            forall|k: int|
                0 <= k < placeholders@.len() ==> text::views((#[trigger] placeholders@[k])@)
                    == hidden_codes(all[positions@[k] as int]),
            forall|j: int|
                0 <= j < i && text::translatable(#[trigger] all[j]) && told_apart(all[j])
                    ==> survives(all[j]),
        decreases texts@.len() - i,
    {
        proof {
            lemma_worth_take(all, i as int);
        }
        if text::looks_translatable(texts[i].as_str()) {
            let (protected, codes) = placeholder::protect(texts[i].as_str());
            assert(codes@.len() == hidden_codes(all[i as int]).len());
            sent.push(protected);
            placeholders.push(codes);
            positions.push(i);
        }
        i += 1;
    }
    assert(all.take(i as int) =~= all);
    if sent.len() == 0 {
        return TextsStep::Done(TranslatedTexts { texts, warning: None });
    }
    assert(text::views(sent@) =~= sent_texts(all));
    proof {
        assert(all.len() == texts.len());
        lemma_sends_back(all);
    }
    let job = TextsJob {
        texts,
        target_lang: config.target_lang.clone(),
        positions,
        sent,
        placeholders,
        provider: pick_provider(config),
        first_error: None,
        answers: Vec::new(),
        url: String::new(),
    };
    proof {
        provider::lemma_progress_starts(
            job.provider,
            text::views(job.sent@),
            text::views(job.answers@),
        );
    }
    job.advance()
}

} // verus!
