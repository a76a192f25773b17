//! The providers: which requests they make for a list of texts, and how the
//! translations are put together from the answers.
use vstd::prelude::*;
use vstd::string::{StrSliceExecFns, StringExecFns};
use crate::config::TranslationConfig;
use crate::error::TranslationError;
use crate::batch;
use crate::error;
use crate::request;
use crate::search;
use crate::split;
use crate::text;

verus! {

/// The most characters in one request.
pub const REQUEST_MAX_CHARS: usize = 3500;

/// How far the work on a list of texts has come.
pub ghost enum Progress {
    /// The next request is for this chunk.
    Ask(Seq<char>),
    /// These are the translations, made from the answers before a position.
    Done(Seq<Seq<char>>, int),
}

impl Progress {
    /// The same progress with some translations before its own.
    pub open spec fn after(self, before: Seq<Seq<char>>) -> Progress {
        match self {
            Progress::Ask(chunk) => Progress::Ask(chunk),
            Progress::Done(translations, next) => Progress::Done(before + translations, next),
        }
    }
}

/// The requests that one text takes.
pub open spec fn chunks(text: Seq<char>) -> Seq<Seq<char>> {
    split::long_text_chunks(text, REQUEST_MAX_CHARS as int)
}

/// Texts translated one by one, with the answers from `next` on: each text takes
/// one answer for each of its chunks, and these make its translation.
pub open spec fn one_by_one(texts: Seq<Seq<char>>, answers: Seq<Seq<char>>, next: int) -> Progress
    decreases texts.len(),
{
    if texts.len() == 0 {
        Progress::Done(Seq::empty(), next)
    } else {
        let asked = chunks(texts[0]);
        if next + asked.len() > answers.len() {
            Progress::Ask(asked[answers.len() - next])
        } else {
            one_by_one(texts.skip(1), answers, next + asked.len()).after(
                seq![text::concat(answers.subrange(next, next + asked.len()))],
            )
        }
    }
}

/// A batch of texts translated with the answers from `next` on. Several texts
/// go into one request, joined by newlines. Where the answer has as many lines,
/// these are the translations. Where it has not, the texts are translated one
/// by one.
pub open spec fn one_batch(texts: Seq<Seq<char>>, answers: Seq<Seq<char>>, next: int) -> Progress {
    if texts.len() == 1 || text::join_lines(texts).len() > REQUEST_MAX_CHARS {
        one_by_one(texts, answers, next)
    } else if next >= answers.len() {
        Progress::Ask(text::join_lines(texts))
    } else if search::lines(answers[next]).len() == texts.len() {
        Progress::Done(search::lines(answers[next]), next + 1)
    } else {
        one_by_one(texts, answers, next + 1)
    }
}

/// Batches of texts translated one after the other, with the answers from
/// `next` on.
pub open spec fn batch_by_batch(
    texts: Seq<Seq<char>>,
    batches: Seq<Seq<usize>>,
    answers: Seq<Seq<char>>,
    next: int,
) -> Progress
    decreases batches.len(),
{
    if batches.len() == 0 {
        Progress::Done(Seq::empty(), next)
    } else {
        match one_batch(batch::select(texts, batches[0]), answers, next) {
            Progress::Ask(chunk) => Progress::Ask(chunk),
            Progress::Done(translations, after) => batch_by_batch(
                texts,
                batches.skip(1),
                answers,
                after,
            ).after(translations),
        }
    }
}

/// How far Google has come with a list of texts, after some answers.
pub open spec fn gtx_progress(texts: Seq<Seq<char>>, answers: Seq<Seq<char>>) -> Progress {
    batch_by_batch(texts, batch::batches(texts), answers, 0)
}

/// How far Lingva has come with a list of texts, after some answers.
pub open spec fn lingva_progress(texts: Seq<Seq<char>>, answers: Seq<Seq<char>>) -> Progress {
    one_by_one(texts, answers, 0)
}

/// Translates the texts at some positions one by one, and adds the translations
/// to `out`. Gives back the position of the next answer, or the next chunk to ask
/// for.
fn run_one_by_one(
    texts: &[String],
    positions: &[usize],
    answers: &[String],
    from: usize,
    out: &mut Vec<String>,
) -> (reached: Result<usize, String>)
    requires
        from <= answers@.len(),
        forall|k: int| 0 <= k < positions@.len() ==> #[trigger] positions@[k] < texts@.len(),
    ensures
        match one_by_one(
            batch::select(text::views(texts@), positions@),
            text::views(answers@),
            from as int,
        ) {
            Progress::Ask(chunk) => reached matches Err(asked) && asked@ == chunk,
            Progress::Done(translations, next) => {
                &&& reached matches Ok(position) && position == next
                &&& next <= answers@.len()
                &&& text::views(final(out)@) == text::views(old(out)@) + translations
            },
        },
{
    let ghost all = batch::select(text::views(texts@), positions@);
    let ghost given = text::views(answers@);
    let ghost mut got: Seq<Seq<char>> = Seq::empty();
    let mut next: usize = from;
    let mut k: usize = 0;
    assert(all.skip(0) =~= all);
    assert(one_by_one(all, given, next as int).after(got) == one_by_one(all, given, from as int))
        by {
        match one_by_one(all, given, next as int) {
            Progress::Ask(_) => {},
            Progress::Done(translations, _) => {
                assert(got + translations =~= translations);
            },
        }
    }
    assert(text::views(out@) =~= text::views(old(out)@) + got);
    while k < positions.len()
        invariant
            k <= positions@.len(),
            next <= answers@.len(),
            forall|k: int| 0 <= k < positions@.len() ==> #[trigger] positions@[k] < texts@.len(),
            all == batch::select(text::views(texts@), positions@),
            given == text::views(answers@),
            text::views(out@) == text::views(old(out)@) + got,
            one_by_one(all.skip(k as int), given, next as int).after(got) == one_by_one(
                all,
                given,
                from as int,
            ),
        decreases positions@.len() - k,
    {
        let asked = split::split_long_text(texts[positions[k]].as_str(), REQUEST_MAX_CHARS);
        let ghost rest = all.skip(k as int);
        proof {
            assert(rest[0] == all[k as int]);
            assert(text::views(asked@) == chunks(rest[0]));
            assert(asked@.len() == chunks(rest[0]).len());
            assert(rest.skip(1) =~= all.skip(k + 1));
        }
        if asked.len() > answers.len() - next {
            let chunk = asked[answers.len() - next].clone();
            assert(chunk@ == chunks(rest[0])[answers@.len() - next]);
            return Err(chunk);
        }
        let translation = join_answers(answers, next, next + asked.len());
        proof {
            text::lemma_views_push(out@, translation);
            let tail = one_by_one(all.skip(k + 1), given, next + asked@.len());
            match tail {
                Progress::Ask(_) => {},
                Progress::Done(translations, _) => {
                    assert(got.push(translation@) + translations =~= got + (seq![translation@]
                        + translations));
                },
            }
            got = got.push(translation@);
        }
        out.push(translation);
        assert(text::views(out@) =~= text::views(old(out)@) + got);
        next += asked.len();
        k += 1;
    }
    assert(all.skip(k as int) =~= Seq::empty());
    assert(got + Seq::<Seq<char>>::empty() =~= got);
    Ok(next)
}

/// The answers from `from` up to `to`, one after the other.
fn join_answers(answers: &[String], from: usize, to: usize) -> (joined: String)
    requires
        from <= to <= answers@.len(),
    ensures
        joined@ == text::concat(text::views(answers@).subrange(from as int, to as int)),
{
    let ghost given = text::views(answers@);
    let mut joined = String::new();
    let mut i: usize = from;
    assert(given.subrange(from as int, i as int) =~= Seq::empty());
    while i < to
        invariant
            from <= i <= to <= answers@.len(),
            given == text::views(answers@),
            joined@ == text::concat(given.subrange(from as int, i as int)),
        decreases to - i,
    {
        assert(given.subrange(from as int, i + 1).drop_last() =~= given.subrange(
            from as int,
            i as int,
        ));
        joined.append(answers[i].as_str());
        i += 1;
    }
    joined
}

/// The texts at some positions, joined by newlines.
fn join_texts(texts: &[String], positions: &[usize]) -> (joined: String)
    requires
        forall|k: int| 0 <= k < positions@.len() ==> #[trigger] positions@[k] < texts@.len(),
    ensures
        joined@ == text::join_lines(batch::select(text::views(texts@), positions@)),
{
    let ghost all = batch::select(text::views(texts@), positions@);
    let mut joined = String::new();
    let mut k: usize = 0;
    assert(all.take(0) =~= Seq::empty());
    while k < positions.len()
        invariant
            k <= positions@.len(),
            forall|k: int| 0 <= k < positions@.len() ==> #[trigger] positions@[k] < texts@.len(),
            all == batch::select(text::views(texts@), positions@),
            joined@ == text::join_lines(all.take(k as int)),
        decreases positions@.len() - k,
    {
        proof {
            assert(all.take(k + 1) =~= all.take(k as int).push(all[k as int]));
            if k > 0 {
                text::lemma_join_lines_push(all.take(k as int), all[k as int]);
            }
        }
        if k > 0 {
            joined.push('\n');
        }
        joined.append(texts[positions[k]].as_str());
        assert(joined@ =~= text::join_lines(all.take(k + 1)));
        k += 1;
    }
    assert(all.take(k as int) =~= all);
    joined
}

/// Adds some texts to a list.
fn push_all(out: &mut Vec<String>, texts: Vec<String>)
    ensures
        text::views(final(out)@) == text::views(old(out)@) + text::views(texts@),
{
    let mut more = texts;
    out.append(&mut more);
    assert(text::views(out@) =~= text::views(old(out)@) + text::views(texts@));
}

/// Translates the texts of a batch, and adds the translations to `out`. Gives
/// back the position of the next answer, or the next chunk to ask for.
fn run_batch(
    texts: &[String],
    positions: &[usize],
    answers: &[String],
    next: usize,
    out: &mut Vec<String>,
) -> (reached: Result<usize, String>)
    requires
        next <= answers@.len(),
        forall|k: int| 0 <= k < positions@.len() ==> #[trigger] positions@[k] < texts@.len(),
    ensures
        match one_batch(
            batch::select(text::views(texts@), positions@),
            text::views(answers@),
            next as int,
        ) {
            Progress::Ask(chunk) => reached matches Err(asked) && asked@ == chunk,
            Progress::Done(translations, after) => {
                &&& reached matches Ok(position) && position == after
                &&& after <= answers@.len()
                &&& text::views(final(out)@) == text::views(old(out)@) + translations
            },
        },
{
    if positions.len() == 1 {
        return run_one_by_one(texts, positions, answers, next, out);
    }
    let joined = join_texts(texts, positions);
    if joined.as_str().unicode_len() > REQUEST_MAX_CHARS {
        return run_one_by_one(texts, positions, answers, next, out);
    }
    if next == answers.len() {
        return Err(joined);
    }
    let found = search::split_lines(answers[next].as_str());
    assert(found@.len() == search::lines(answers@[next as int]@).len());
    if found.len() == positions.len() {
        push_all(out, found);
        Ok(next + 1)
    } else {
        run_one_by_one(texts, positions, answers, next + 1, out)
    }
}

/// What a provider does next.
pub enum ProviderStep {
    /// It asks for this address.
    Ask(String),
    /// It has translated the texts.
    Done(Vec<String>),
}

/// Translates texts through Google's free interface.
pub struct GoogleGtxTranslator;

impl GoogleGtxTranslator {
    pub fn name(&self) -> (name: &'static str)
        ensures
            name@ == "google-gtx"@,
    {
        "google-gtx"
    }

    /// Goes on with the translation of some texts after the answers that came so
    /// far.
    pub fn translate(&self, texts: &[String], sl: &str, tl: &str, answers: &[String]) -> (step:
        ProviderStep)
        ensures
            match gtx_progress(text::views(texts@), text::views(answers@)) {
                Progress::Ask(chunk) => step matches ProviderStep::Ask(url) && url@
                    == request::gtx_address(chunk, sl@, tl@),
                Progress::Done(translations, _) => step matches ProviderStep::Done(out)
                    && text::views(out@) == translations,
            },
    {
        let batches = batch::split_into_batches(texts);
        let ghost all = text::views(texts@);
        let ghost given = text::views(answers@);
        let ghost dealt = batch::lists(batches@);
        let mut out: Vec<String> = Vec::new();
        let mut next: usize = 0;
        let mut b: usize = 0;
        proof {
            assert(all.len() == texts.len());
            batch::law_batches(all);
            batch::lemma_dealt_below(dealt, 0, all.len() as int);
            assert(dealt.skip(0) =~= dealt);
            lemma_after_nothing(batch_by_batch(all, dealt, given, 0));
            assert(text::views(out@) =~= Seq::empty());
        }
        while b < batches.len()
            invariant
                b <= batches@.len(),
                next <= answers@.len(),
                all == text::views(texts@),
                given == text::views(answers@),
                dealt == batch::lists(batches@),
                batch::below(dealt, all.len() as int),
                batch_by_batch(all, dealt.skip(b as int), given, next as int).after(
                    text::views(out@),
                ) == gtx_progress(all, given),
            decreases batches@.len() - b,
        {
            let ghost before = text::views(out@);
            let ghost rest = dealt.skip(b as int);
            proof {
                assert(rest[0] == dealt[b as int]);
                assert(rest.skip(1) =~= dealt.skip(b + 1));
                assert(dealt[b as int] == batches@[b as int]@);
            }
            match run_batch(texts, &batches[b], answers, next, &mut out) {
                Ok(position) => {
                    proof {
                        lemma_after_both(
                            batch_by_batch(all, dealt.skip(b + 1), given, position as int),
                            before,
                            text::views(out@).skip(before.len() as int),
                        );
                        assert(text::views(out@) =~= before + text::views(out@).skip(
                            before.len() as int,
                        ));
                        match one_batch(batch::select(all, rest[0]), given, next as int) {
                            Progress::Done(translations, _) => {
                                assert(text::views(out@).skip(before.len() as int) =~= translations);
                            },
                            _ => {},
                        }
                    }
                    next = position;
                },
                Err(chunk) => {
                    return ProviderStep::Ask(request::gtx_url(chunk.as_str(), sl, tl));
                },
            }
            b += 1;
        }
        assert(dealt.skip(b as int) =~= Seq::empty());
        assert(text::views(out@) + Seq::<Seq<char>>::empty() =~= text::views(out@));
        ProviderStep::Done(out)
    }
}

proof fn lemma_after_nothing(progress: Progress)
    ensures
        progress.after(Seq::empty()) == progress,
{
    match progress {
        Progress::Ask(_) => {},
        Progress::Done(translations, _) => {
            assert(Seq::<Seq<char>>::empty() + translations =~= translations);
        },
    }
}

proof fn lemma_after_both(progress: Progress, first: Seq<Seq<char>>, second: Seq<Seq<char>>)
    ensures
        progress.after(second).after(first) == progress.after(first + second),
{
    match progress {
        Progress::Ask(_) => {},
        Progress::Done(translations, _) => {
            assert(first + (second + translations) =~= first + second + translations);
        },
    }
}

/// Translates texts through the Lingva service.
pub struct LingvaTranslator;

impl LingvaTranslator {
    pub fn name(&self) -> (name: &'static str)
        ensures
            name@ == "lingva"@,
    {
        "lingva"
    }

    /// Goes on with the translation of some texts after the answers that came so
    /// far.
    pub fn translate(&self, texts: &[String], sl: &str, tl: &str, answers: &[String]) -> (step:
        ProviderStep)
        ensures
            match lingva_progress(text::views(texts@), text::views(answers@)) {
                Progress::Ask(chunk) => step matches ProviderStep::Ask(url) && url@
                    == request::lingva_address(chunk, sl@, tl@),
                Progress::Done(translations, _) => step matches ProviderStep::Done(out)
                    && text::views(out@) == translations,
            },
    {
        let mut positions: Vec<usize> = Vec::new();
        let mut i: usize = 0;
        while i < texts.len()
            invariant
                i <= texts@.len(),
                positions@ == batch::run(0, i as int),
            decreases texts@.len() - i,
        {
            positions.push(i);
            i += 1;
            assert(positions@ =~= batch::run(0, i as int));
        }
        assert(batch::select(text::views(texts@), positions@) =~= text::views(texts@));
        let mut out: Vec<String> = Vec::new();
        let ghost nothing = text::views(out@);
        match run_one_by_one(texts, &positions, answers, 0, &mut out) {
            Ok(_) => {
                proof {
                    match lingva_progress(text::views(texts@), text::views(answers@)) {
                        Progress::Ask(_) => {},
                        Progress::Done(translations, _) => {
                            assert(nothing + translations =~= translations);
                        },
                    }
                }
                ProviderStep::Done(out)
            },
            Err(chunk) => ProviderStep::Ask(request::lingva_url(chunk.as_str(), sl, tl)),
        }
    }
}

/// A provider of translations.
pub enum TranslationProvider {
    GoogleGtx(GoogleGtxTranslator),
    Lingva(LingvaTranslator),
}

impl TranslationProvider {
    /// How far the provider has come with a list of texts, after some answers.
    pub open spec fn progress(self, texts: Seq<Seq<char>>, answers: Seq<Seq<char>>) -> Progress {
        match self {
            TranslationProvider::GoogleGtx(_) => gtx_progress(texts, answers),
            TranslationProvider::Lingva(_) => lingva_progress(texts, answers),
        }
    }

    /// The address that asks the provider to translate a chunk.
    pub open spec fn address(self, chunk: Seq<char>, sl: Seq<char>, tl: Seq<char>) -> Seq<char> {
        match self {
            TranslationProvider::GoogleGtx(_) => request::gtx_address(chunk, sl, tl),
            TranslationProvider::Lingva(_) => request::lingva_address(chunk, sl, tl),
        }
    }

    /// What a request to the provider brought.
    pub open spec fn answered(self, outcome: request::HttpOutcome) -> Result<
        Seq<char>,
        error::Failure,
    > {
        match self {
            TranslationProvider::GoogleGtx(_) => request::gtx_answered(outcome),
            TranslationProvider::Lingva(_) => request::lingva_answered(outcome),
        }
    }

    /// The name of the provider.
    pub open spec fn named(self) -> Seq<char> {
        match self {
            TranslationProvider::GoogleGtx(_) => "google-gtx"@,
            TranslationProvider::Lingva(_) => "lingva"@,
        }
    }

    /// The provider to turn to when this one fails.
    pub open spec fn other(self) -> TranslationProvider {
        match self {
            TranslationProvider::GoogleGtx(_) => TranslationProvider::Lingva(LingvaTranslator),
            TranslationProvider::Lingva(_) => TranslationProvider::GoogleGtx(GoogleGtxTranslator),
        }
    }

    /// The name of the provider.
    pub fn name(&self) -> (name: &'static str)
        ensures
            name@ == self.named(),
    {
        match self {
            TranslationProvider::GoogleGtx(google) => google.name(),
            TranslationProvider::Lingva(lingva) => lingva.name(),
        }
    }

    /// The provider to turn to when this one fails.
    pub fn fallback(&self) -> (provider: TranslationProvider)
        ensures
            provider == self.other(),
    {
        match self {
            TranslationProvider::GoogleGtx(_) => TranslationProvider::Lingva(LingvaTranslator),
            TranslationProvider::Lingva(_) => TranslationProvider::GoogleGtx(GoogleGtxTranslator),
        }
    }

    /// Goes on with the translation of some texts after the answers that came so
    /// far.
    pub fn translate(&self, texts: &[String], sl: &str, tl: &str, answers: &[String]) -> (step:
        ProviderStep)
        ensures
            match self.progress(text::views(texts@), text::views(answers@)) {
                Progress::Ask(chunk) => step matches ProviderStep::Ask(url) && url@
                    == self.address(chunk, sl@, tl@),
                Progress::Done(translations, _) => step matches ProviderStep::Done(out)
                    && text::views(out@) == translations,
            },
    {
        match self {
            TranslationProvider::GoogleGtx(google) => google.translate(texts, sl, tl, answers),
            TranslationProvider::Lingva(lingva) => lingva.translate(texts, sl, tl, answers),
        }
    }

    /// Reads what a request to the provider brought.
    pub fn reply(&self, outcome: request::HttpOutcome) -> (translation: Result<
        String,
        TranslationError,
    >)
        ensures
            request::shown(translation) == self.answered(outcome),
    {
        match self {
            TranslationProvider::GoogleGtx(_) => request::gtx_reply(outcome),
            TranslationProvider::Lingva(_) => request::lingva_reply(outcome),
        }
    }
}

/// The provider that a configuration names: Lingva by its name, else Google.
pub open spec fn picked(config: TranslationConfig) -> TranslationProvider {
    if config.provider@ == "lingva"@ {
        TranslationProvider::Lingva(LingvaTranslator)
    } else {
        TranslationProvider::GoogleGtx(GoogleGtxTranslator)
    }
}

/// Picks the provider that a configuration names.
pub fn pick_provider(config: &TranslationConfig) -> (provider: TranslationProvider)
    ensures
        provider == picked(*config),
{
    if config.provider == "lingva".to_owned() {
        TranslationProvider::Lingva(LingvaTranslator)
    } else {
        TranslationProvider::GoogleGtx(GoogleGtxTranslator)
    }
}

/// A provider that fails is made up for by the other one, and that one by the first.
pub proof fn law_fallbacks_are_mutual(provider: TranslationProvider)
    ensures
        provider.other() != provider,
        provider.other().other() == provider,
        provider.other().named() != provider.named(),
{
    reveal_strlit("google-gtx");
    reveal_strlit("lingva");
    assert("google-gtx"@.len() != "lingva"@.len());
    match provider {
        TranslationProvider::GoogleGtx(google) => {
            assert(google == GoogleGtxTranslator);
        },
        TranslationProvider::Lingva(lingva) => {
            assert(lingva == LingvaTranslator);
        },
    }
}

/// Whether the next request, if there is one, has at most [`REQUEST_MAX_CHARS`]
/// characters, and the translations, if they are there, are as many as asked for.
pub open spec fn sound(progress: Progress, count: int) -> bool {
    match progress {
        Progress::Ask(chunk) => chunk.len() <= REQUEST_MAX_CHARS,
        Progress::Done(translations, _) => translations.len() == count,
    }
}

proof fn lemma_chunk_fits(s: Seq<char>, k: int)
    requires
        0 <= k < chunks(s).len(),
    ensures
        chunks(s)[k].len() <= REQUEST_MAX_CHARS,
{
    split::law_chunks_fit(s, REQUEST_MAX_CHARS as int);
}

pub proof fn lemma_one_by_one_sound(texts: Seq<Seq<char>>, answers: Seq<Seq<char>>, next: int)
    requires
        0 <= next <= answers.len(),
    ensures
        sound(one_by_one(texts, answers, next), texts.len() as int),
        one_by_one(texts, answers, next) matches Progress::Done(_, after) ==> next <= after
            <= answers.len(),
    decreases texts.len(),
{
    if texts.len() > 0 {
        let asked = chunks(texts[0]);
        if next + asked.len() > answers.len() {
            lemma_chunk_fits(texts[0], answers.len() - next);
        } else {
            lemma_one_by_one_sound(texts.skip(1), answers, next + asked.len());
        }
    }
}

pub proof fn lemma_one_batch_sound(texts: Seq<Seq<char>>, answers: Seq<Seq<char>>, next: int)
    requires
        0 <= next <= answers.len(),
    ensures
        sound(one_batch(texts, answers, next), texts.len() as int),
        one_batch(texts, answers, next) matches Progress::Done(_, after) ==> next <= after
            <= answers.len(),
{
    lemma_one_by_one_sound(texts, answers, next);
    if next < answers.len() {
        lemma_one_by_one_sound(texts, answers, next + 1);
    }
}

proof fn lemma_batch_by_batch_sound(
    texts: Seq<Seq<char>>,
    batches: Seq<Seq<usize>>,
    answers: Seq<Seq<char>>,
    next: int,
    from: int,
    to: int,
)
    requires
        0 <= next <= answers.len(),
        batch::dealt(batches, from, to),
    ensures
        sound(batch_by_batch(texts, batches, answers, next), to - from),
    decreases batches.len(),
{
    if batches.len() > 0 {
        let first = batch::select(texts, batches[0]);
        lemma_one_batch_sound(first, answers, next);
        match one_batch(first, answers, next) {
            Progress::Ask(_) => {},
            Progress::Done(translations, after) => {
                lemma_batch_by_batch_sound(
                    texts,
                    batches.skip(1),
                    answers,
                    after,
                    from + batches[0].len(),
                    to,
                );
            },
        }
    }
}

/// Whatever Google answers, no request has more than 3500 characters, and in the
/// end there is one translation for each text.
pub proof fn law_gtx_is_sound(texts: Seq<Seq<char>>, answers: Seq<Seq<char>>)
    requires
        texts.len() <= usize::MAX,
    ensures
        sound(gtx_progress(texts, answers), texts.len() as int),
{
    batch::law_batches(texts);
    lemma_batch_by_batch_sound(
        texts,
        batch::batches(texts),
        answers,
        0,
        0,
        texts.len() as int,
    );
}

/// Whatever Lingva answers, no request has more than 3500 characters, and in the
/// end there is one translation for each text.
pub proof fn law_lingva_is_sound(texts: Seq<Seq<char>>, answers: Seq<Seq<char>>)
    ensures
        sound(lingva_progress(texts, answers), texts.len() as int),
{
    lemma_one_by_one_sound(texts, answers, 0);
}

/// Whatever the answers are, no request has more than 3500 characters, and in the end
/// there is one translation for each text.
pub proof fn law_providers_are_sound(
    provider: TranslationProvider,
    texts: Seq<Seq<char>>,
    answers: Seq<Seq<char>>,
)
    requires
        texts.len() <= usize::MAX,
    ensures
        sound(provider.progress(texts, answers), texts.len() as int),
{
    law_gtx_is_sound(texts, answers);
    law_lingva_is_sound(texts, answers);
}

/// With texts to translate and no answers yet, a provider asks for something.
pub proof fn lemma_progress_starts(
    provider: TranslationProvider,
    texts: Seq<Seq<char>>,
    answers: Seq<Seq<char>>,
)
    requires
        0 < texts.len() <= usize::MAX,
        answers.len() == 0,
    ensures
        provider.progress(texts, answers) is Ask,
{
    split::law_chunks_fit(texts[0], REQUEST_MAX_CHARS as int);
    batch::law_batches(texts);
    let batches = batch::batches(texts);
    assert(batches.len() > 0);
    let first = batch::select(texts, batches[0]);
    split::law_chunks_fit(first[0], REQUEST_MAX_CHARS as int);
}

/// How many requests some texts take one by one.
pub open spec fn chunk_count(texts: Seq<Seq<char>>) -> int
    decreases texts.len(),
{
    if texts.len() == 0 {
        0
    } else {
        chunks(texts[0]).len() + chunk_count(texts.skip(1))
    }
}

/// The most requests that a batch can take: those of its one text, or of several
/// texts the one for all of them and one more for each.
pub open spec fn batch_bound(texts: Seq<Seq<char>>) -> int {
    if texts.len() == 1 {
        chunks(texts[0]).len() as int
    } else {
        1 + texts.len() as int
    }
}

/// The most requests that some batches can take.
pub open spec fn request_bound(texts: Seq<Seq<char>>, batches: Seq<Seq<usize>>) -> int
    decreases batches.len(),
{
    if batches.len() == 0 {
        0
    } else {
        batch_bound(batch::select(texts, batches[0])) + request_bound(texts, batches.skip(1))
    }
}

proof fn lemma_chunk_count(texts: Seq<Seq<char>>)
    requires
        forall|k: int| 0 <= k < texts.len() ==> (#[trigger] texts[k]).len() <= REQUEST_MAX_CHARS,
    ensures
        chunk_count(texts) == texts.len(),
    decreases texts.len(),
{
    if texts.len() > 0 {
        assert(texts[0].len() <= REQUEST_MAX_CHARS);
        lemma_chunk_count(texts.skip(1));
    }
}

proof fn lemma_joined_longest(texts: Seq<Seq<char>>, k: int)
    requires
        0 <= k < texts.len(),
    ensures
        texts[k].len() <= text::join_lines(texts).len(),
    decreases texts.len(),
{
    if texts.len() > 1 && k < texts.len() - 1 {
        lemma_joined_longest(texts.drop_last(), k);
    }
}

proof fn lemma_one_by_one_bounded(texts: Seq<Seq<char>>, answers: Seq<Seq<char>>, next: int)
    requires
        0 <= next <= answers.len(),
    ensures
        match one_by_one(texts, answers, next) {
            Progress::Ask(_) => answers.len() - next < chunk_count(texts),
            Progress::Done(_, after) => after - next == chunk_count(texts),
        },
    decreases texts.len(),
{
    if texts.len() > 0 {
        let asked = chunks(texts[0]);
        if next + asked.len() > answers.len() {
            lemma_chunk_count_positive(texts.skip(1));
        } else {
            lemma_one_by_one_bounded(texts.skip(1), answers, next + asked.len());
        }
    }
}

proof fn lemma_chunk_count_positive(texts: Seq<Seq<char>>)
    ensures
        chunk_count(texts) >= 0,
    decreases texts.len(),
{
    if texts.len() > 0 {
        lemma_chunk_count_positive(texts.skip(1));
    }
}

proof fn lemma_one_batch_bounded(texts: Seq<Seq<char>>, answers: Seq<Seq<char>>, next: int)
    requires
        0 <= next <= answers.len(),
        texts.len() > 0,
        texts.len() > 1 ==> text::join_lines(texts).len() <= batch::BATCH_MAX_CHARS,
    ensures
        match one_batch(texts, answers, next) {
            Progress::Ask(_) => answers.len() - next < batch_bound(texts),
            Progress::Done(_, after) => after - next <= batch_bound(texts),
        },
{
    lemma_one_by_one_bounded(texts, answers, next);
    if texts.len() == 1 {
        assert(texts.skip(1) =~= Seq::empty());
        assert(chunk_count(texts.skip(1)) == 0);
    } else {
        assert forall|k: int| 0 <= k < texts.len() implies (#[trigger] texts[k]).len()
            <= REQUEST_MAX_CHARS by {
            lemma_joined_longest(texts, k);
        }
        lemma_chunk_count(texts);
        if next < answers.len() {
            lemma_one_by_one_bounded(texts, answers, next + 1);
        }
    }
}

proof fn lemma_batch_by_batch_bounded(
    texts: Seq<Seq<char>>,
    batches: Seq<Seq<usize>>,
    answers: Seq<Seq<char>>,
    next: int,
)
    requires
        0 <= next <= answers.len(),
        batch::within_limits(texts, batches),
    ensures
        match batch_by_batch(texts, batches, answers, next) {
            Progress::Ask(_) => answers.len() - next < request_bound(texts, batches),
            Progress::Done(_, after) => after - next <= request_bound(texts, batches),
        },
        request_bound(texts, batches) >= 0,
    decreases batches.len(),
{
    if batches.len() > 0 {
        let first = batch::select(texts, batches[0]);
        let rest = batches.skip(1);
        assert forall|b: int| 0 <= b < rest.len() implies {
            let batch = #[trigger] rest[b];
            &&& 0 < batch.len() <= batch::BATCH_MAX_TEXTS
            &&& batch.len() > 1 ==> text::join_lines(batch::select(texts, batch)).len()
                <= batch::BATCH_MAX_CHARS
        } by {
            assert(rest[b] == batches[b + 1]);
        }
        lemma_one_batch_bounded(first, answers, next);
        lemma_one_batch_sound(first, answers, next);
        lemma_batch_by_batch_bounded(texts, rest, answers, answers.len() as int);
        match one_batch(first, answers, next) {
            Progress::Ask(_) => {},
            Progress::Done(_, after) => {
                lemma_batch_by_batch_bounded(texts, rest, answers, after);
            },
        }
    }
}

/// Google is asked a bounded number of times, whatever it answers. A batch of
/// several texts takes one request, and if the lines of the answer do not match
/// one more for each text, of which there are at most eight.
pub proof fn law_gtx_is_bounded(texts: Seq<Seq<char>>, answers: Seq<Seq<char>>)
    requires
        texts.len() <= usize::MAX,
        gtx_progress(texts, answers) is Ask,
    ensures
        answers.len() < request_bound(texts, batch::batches(texts)),
        forall|b: int|
            0 <= b < batch::batches(texts).len() && #[trigger] batch::batches(texts)[b].len() > 1
                ==> batch_bound(batch::select(texts, batch::batches(texts)[b])) <= 1
                + batch::BATCH_MAX_TEXTS,
{
    batch::law_batches(texts);
    lemma_batch_by_batch_bounded(texts, batch::batches(texts), answers, 0);
}

/// Lingva is asked once for each chunk of each text.
pub proof fn law_lingva_is_bounded(texts: Seq<Seq<char>>, answers: Seq<Seq<char>>)
    ensures
        lingva_progress(texts, answers) is Ask <==> answers.len() < chunk_count(texts),
{
    lemma_one_by_one_bounded(texts, answers, 0);
    lemma_one_by_one_sound(texts, answers, 0);
}

impl TranslationProvider {
    /// The most requests that some texts can take.
    pub open spec fn request_limit(self, texts: Seq<Seq<char>>) -> int {
        match self {
            TranslationProvider::GoogleGtx(_) => request_bound(texts, batch::batches(texts)),
            TranslationProvider::Lingva(_) => chunk_count(texts),
        }
    }
}

/// A provider is asked a bounded number of times, whatever it answers.
pub proof fn law_providers_are_bounded(
    provider: TranslationProvider,
    texts: Seq<Seq<char>>,
    answers: Seq<Seq<char>>,
)
    requires
        texts.len() <= usize::MAX,
    ensures
        provider.progress(texts, answers) is Ask ==> answers.len() < provider.request_limit(texts),
{
    if provider.progress(texts, answers) is Ask {
        match provider {
            TranslationProvider::GoogleGtx(_) => {
                law_gtx_is_bounded(texts, answers);
            },
            TranslationProvider::Lingva(_) => {
                law_lingva_is_bounded(texts, answers);
            },
        }
    }
}

} // verus!
