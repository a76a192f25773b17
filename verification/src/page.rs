//! The translation of the texts of a page, with the translations that are kept on disk.
//!
//! [`translate_page`] says what to do first. The caller reads the cache of the page,
//! fetches an address or writes the cache, and hands back what came of it, until the
//! texts are translated.
use vstd::prelude::*;
use crate::cache::{find_unit, merge_units, read_cache, CacheUnit, TranslationCache, CACHE_VERSION};
use crate::config::TranslationConfig;
use crate::job::{translate_texts, TextsJob, TextsStep, TranslatedTexts};
use crate::request::HttpOutcome;
use crate::cache;
use crate::job;
use crate::paths;
use crate::text;

verus! {

/// What texts may be in a list.
pub open spec fn maybe_views(list: Seq<Option<String>>) -> Seq<Option<Seq<char>>> {
    Seq::new(
        list.len(),
        |k: int|
            match list[k] {
                Some(text) => Some(text@),
                None => None,
            },
    )
}

/// What units hold for each text.
pub open spec fn hits(texts: Seq<Seq<char>>, units: Seq<cache::Unit>) -> Seq<Option<Seq<char>>> {
    Seq::new(texts.len(), |k: int| cache::lookup(units, paths::text_hash(texts[k])))
}

/// The texts for which there is nothing.
pub open spec fn missing(texts: Seq<Seq<char>>, known: Seq<Option<Seq<char>>>) -> Seq<Seq<char>>
    decreases known.len(),
{
    if known.len() == 0 {
        Seq::empty()
    } else if known.last() is None {
        missing(texts, known.drop_last()).push(texts[known.len() - 1])
    } else {
        missing(texts, known.drop_last())
    }
}

/// How many of the texts before position `i` have nothing.
pub open spec fn gaps(known: Seq<Option<Seq<char>>>, i: int) -> int
    decreases i,
{
    if i <= 0 {
        0
    } else if known[i - 1] is None {
        gaps(known, i - 1) + 1
    } else {
        gaps(known, i - 1)
    }
}

/// What becomes of the texts of a page: what is known of each, or else its translation.
pub open spec fn filled(
    texts: Seq<Seq<char>>,
    known: Seq<Option<Seq<char>>>,
    translated: Seq<Seq<char>>,
) -> Seq<Seq<char>> {
    Seq::new(
        texts.len(),
        |i: int|
            match known[i] {
                Some(text) => text,
                None => if gaps(known, i) < translated.len() {
                    translated[gaps(known, i)]
                } else {
                    texts[i]
                },
            },
    )
}

proof fn lemma_missing_take(texts: Seq<Seq<char>>, known: Seq<Option<Seq<char>>>, i: int)
    requires
        0 <= i < known.len(),
    ensures
        missing(texts, known.take(i + 1)) == if known[i] is None {
            missing(texts, known.take(i)).push(texts[i])
        } else {
            missing(texts, known.take(i))
        },
{
    assert(known.take(i + 1).drop_last() =~= known.take(i));
}

proof fn lemma_gaps(texts: Seq<Seq<char>>, known: Seq<Option<Seq<char>>>, i: int)
    requires
        0 <= i <= known.len(),
    ensures
        gaps(known, i) == missing(texts, known.take(i)).len(),
    decreases i,
{
    if i > 0 {
        lemma_gaps(texts, known, i - 1);
        lemma_missing_take(texts, known, i - 1);
    }
}

/// Puts what is known of the texts and the translations of the others together.
pub fn fill(texts: &[String], known: Vec<Option<String>>, translated: &[String]) -> (result: Vec<
    String,
>)
    requires
        texts@.len() == known@.len(),
    ensures
        text::views(result@) == filled(
            text::views(texts@),
            maybe_views(known@),
            text::views(translated@),
        ),
{
    let ghost all = text::views(texts@);
    let ghost found = maybe_views(known@);
    let ghost raw = text::views(translated@);
    let ghost whole = filled(all, found, raw);
    let mut result: Vec<String> = Vec::new();
    let mut next: usize = 0;
    let mut i: usize = 0;
    while i < texts.len()
        invariant
            i <= texts@.len(),
            texts@.len() == known@.len(),
            all == text::views(texts@),
            found == maybe_views(known@),
            raw == text::views(translated@),
            whole == filled(all, found, raw),
            next == gaps(found, i as int),
            next <= i,
            text::views(result@) == whole.take(i as int),
        decreases texts@.len() - i,
    {
        assert(whole.take(i + 1) =~= whole.take(i as int).push(whole[i as int]));
        let text = match &known[i] {
            Some(text) => text.clone(),
            None => {
                next += 1;
                if next - 1 < translated.len() {
                    translated[next - 1].clone()
                } else {
                    texts[i].clone()
                }
            },
        };
        proof {
            assert(found[i as int] is None == known@[i as int] is None);
            text::lemma_views_push(result@, text);
        }
        result.push(text);
        i += 1;
    }
    assert(whole.take(i as int) =~= whole);
    result
}

/// The texts of a page and what is known of them.
pub struct PageTexts {
    pub texts: Vec<String>,
    pub docset: String,
    pub page_id: String,
    /// What the cache holds for each text.
    pub known: Vec<Option<String>>,
}

impl PageTexts {
    /// Whether this is about some texts of a page.
    pub open spec fn is_about(self, start: PageStart) -> bool {
        &&& self.texts == start.texts
        &&& self.docset == start.docset
        &&& self.page_id == start.page_id
    }

    /// Whether a page is complete, given the translations of the texts that were missing.
    pub open spec fn completes(self, translated: Seq<Seq<char>>, end: PageEnd) -> bool {
        &&& end.texts == self.texts
        &&& end.docset == self.docset
        &&& end.page_id == self.page_id
        &&& text::views(end.results@) == filled(
            text::views(self.texts@),
            maybe_views(self.known@),
            translated,
        )
    }
}

/// The texts of a page whose cache is to be read.
pub struct PageStart {
    pub texts: Vec<String>,
    pub docset: String,
    pub page_id: String,
}

/// The translation of a page that waits for an answer.
pub struct PageJob {
    /// What is known of the texts, if the page has a cache.
    pub page: Option<PageTexts>,
    /// The translation of the texts that are missing.
    pub job: TextsJob,
}

/// The texts of a page that are translated and whose cache is to be read once more and
/// written.
pub struct PageEnd {
    pub texts: Vec<String>,
    pub docset: String,
    pub page_id: String,
    /// What became of each text.
    pub results: Vec<String>,
    /// What the user should know about texts that were left as they are.
    pub warning: Option<String>,
}

/// What happens next with the texts of a page.
pub enum PageStep {
    /// They are translated, and there is nothing to keep.
    Done(TranslatedTexts),
    /// The cache is to be read.
    Read(PageStart),
    /// An address is to be fetched.
    Ask(PageJob),
    /// The cache is to be read once more, and written.
    Keep(PageEnd),
}

impl PageStep {
    /// Whether the step can be taken.
    pub open spec fn ready(self) -> bool {
        match self {
            PageStep::Ask(job) => job.prepared(),
            PageStep::Keep(end) => end.texts@.len() == end.results@.len(),
            _ => true,
        }
    }
}

/// What is left to do for a page.
pub struct PageResult {
    /// What became of the texts.
    pub translated: TranslatedTexts,
    /// The cache that is to be written.
    pub cache: TranslationCache,
}

impl PageJob {
    /// Whether the job waits for an answer and has something to say about each text.
    pub open spec fn prepared(self) -> bool {
        &&& self.job.prepared()
        &&& self.page matches Some(page) ==> page.texts@.len() == page.known@.len()
    }
}

/// What the translation of the missing texts means for the page. A page without a cache
/// is done when they are.
pub open spec fn follows(page: Option<PageTexts>, texts: TextsStep, step: PageStep) -> bool {
    match (texts, page, step) {
        (TextsStep::Ask(job), _, PageStep::Ask(next)) => next.page == page && next.job == job,
        (TextsStep::Done(done), None, PageStep::Done(result)) => result == done,
        (TextsStep::Done(done), Some(page), PageStep::Keep(end)) => {
            &&& page.completes(text::views(done.texts@), end)
            &&& end.warning == done.warning
        },
        _ => false,
    }
}

fn follow(page: Option<PageTexts>, texts: TextsStep) -> (step: PageStep)
    requires
        page matches Some(page) ==> page.texts@.len() == page.known@.len(),
        texts matches TextsStep::Ask(job) ==> job.prepared(),
    ensures
        follows(page, texts, step),
        step.ready(),
{
    match texts {
        TextsStep::Ask(job) => PageStep::Ask(PageJob { page, job }),
        TextsStep::Done(done) => match page {
            None => PageStep::Done(done),
            Some(page) => {
                let results = fill(&page.texts, page.known, &done.texts);
                assert(results@.len() == text::views(results@).len());
                PageStep::Keep(
                    PageEnd {
                        texts: page.texts,
                        docset: page.docset,
                        page_id: page.page_id,
                        results,
                        warning: done.warning,
                    },
                )
            },
        },
    }
}

/// What the texts of a page lead to: nothing is done for no texts, and the cache is read
/// first, unless there is to be none.
pub open spec fn begins(
    texts: Vec<String>,
    config: TranslationConfig,
    docset: Seq<char>,
    page_id: Seq<char>,
    step: PageStep,
) -> bool {
    if texts@.len() == 0 {
        step matches PageStep::Done(done) && done.texts@.len() == 0 && done.warning is None
    } else if config.no_cache {
        exists|first: TextsStep| #[trigger]
            job::starts(texts, config, first) && follows(None, first, step)
    } else {
        step matches PageStep::Read(start) && start.texts == texts && start.docset@ == docset
            && start.page_id@ == page_id
    }
}

/// Starts to translate the texts of a page.
pub fn translate_page(
    texts: Vec<String>,
    config: &TranslationConfig,
    docset: &str,
    page_id: &str,
) -> (step: PageStep)
    ensures
        begins(texts, *config, docset@, page_id@, step),
        step.ready(),
{
    if texts.len() == 0 {
        return PageStep::Done(TranslatedTexts { texts: Vec::new(), warning: None });
    }
    if config.no_cache {
        let first = translate_texts(texts, config);
        return follow(None, first);
    }
    PageStep::Read(PageStart { texts, docset: docset.to_owned(), page_id: page_id.to_owned() })
}

impl PageStart {
    /// What the cache that was found leads to: the texts that it does not hold are
    /// translated.
    pub open spec fn leads_to(
        self,
        found: Option<TranslationCache>,
        config: TranslationConfig,
        step: PageStep,
    ) -> bool {
        let texts = text::views(self.texts@);
        let known = hits(texts, cache::units_in(cache::usable(found, config)));
        exists|page: PageTexts, asked: Vec<String>, first: TextsStep|
            {
                &&& #[trigger] page.is_about(self)
                &&& maybe_views(page.known@) == known
                &&& text::views(asked@) == missing(texts, known)
                &&& #[trigger] job::starts(asked, config, first)
                &&& follows(Some(page), first, step)
            }
    }

    /// Goes on with the cache that was found on disk. The texts that it does not hold are
    /// translated.
    pub fn cached(self, found: Option<TranslationCache>, config: &TranslationConfig) -> (step:
        PageStep)
        ensures
            self.leads_to(found, *config, step),
            step.ready(),
    {
        let units: Vec<CacheUnit> = match read_cache(found, config) {
            Some(cache) => cache.units,
            None => Vec::new(),
        };
        let ghost all = text::views(self.texts@);
        let ghost held = cache::units(units@);
        let ghost whole = hits(all, held);
        assert(held =~= cache::units_in(cache::usable(found, *config)));
        let mut known: Vec<Option<String>> = Vec::new();
        let mut asked: Vec<String> = Vec::new();
        let mut i: usize = 0;
        assert(whole.take(0) =~= Seq::empty());
        while i < self.texts.len()
            invariant
                i <= self.texts@.len(),
                all == text::views(self.texts@),
                held == cache::units(units@),
                whole == hits(all, held),
                maybe_views(known@) == whole.take(i as int),
                text::views(asked@) == missing(all, whole.take(i as int)),
            decreases self.texts@.len() - i,
        {
            let hash = paths::hash_text(self.texts[i].as_str());
            let hit = find_unit(&units, &hash);
            proof {
                lemma_missing_take(all, whole, i as int);
                text::lemma_views_push(asked@, self.texts@[i as int]);
                assert(whole.take(i + 1) =~= whole.take(i as int).push(whole[i as int]));
            }
            let ghost before = maybe_views(known@);
            if hit.is_none() {
                asked.push(self.texts[i].clone());
            }
            known.push(hit);
            proof {
                assert(maybe_views(known@) =~= before.push(whole[i as int]));
            }
            i += 1;
        }
        assert(whole.take(i as int) =~= whole);
        assert(known@.len() == maybe_views(known@).len());
        let page = PageTexts {
            texts: self.texts,
            docset: self.docset,
            page_id: self.page_id,
            known,
        };
        assert(page.is_about(self));
        let first = translate_texts(asked, config);
        assert(job::starts(asked, *config, first));
        follow(Some(page), first)
    }
}

impl PageJob {
    /// Goes on with what came of the request for the address.
    pub fn answer(self, outcome: HttpOutcome) -> (step: PageStep)
        requires
            self.prepared(),
        ensures
            exists|next: TextsStep| #[trigger]
                self.job.leads_to(outcome, next) && follows(self.page, next, step),
            step.ready(),
    {
        let next = self.job.answer(outcome);
        follow(self.page, next)
    }
}

impl PageEnd {
    /// Whether the texts of the page are handed out and kept: the units of the cache that
    /// was found stay, and there is one for each text.
    pub open spec fn leads_to(
        self,
        found: Option<TranslationCache>,
        config: TranslationConfig,
        result: PageResult,
    ) -> bool {
        &&& result.translated.texts == self.results
        &&& result.translated.warning == self.warning
        &&& result.cache.version == CACHE_VERSION
        &&& result.cache.source_lang@ == "en"@
        &&& result.cache.target_lang@ == config.target_lang@
        &&& result.cache.provider@ == config.provider@
        &&& result.cache.glossary_hash@ == "none"@
        &&& cache::units(result.cache.units@) == cache::merged(
            cache::units_in(cache::usable(found, config)),
            text::views(self.texts@),
            text::views(self.results@),
        )
    }

    /// Ends the page with the cache that was found on disk by now.
    pub fn keep(self, found: Option<TranslationCache>, config: &TranslationConfig) -> (result:
        PageResult)
        requires
            self.texts@.len() == self.results@.len(),
        ensures
            self.leads_to(found, *config, result),
            cache::usable(Some(result.cache), *config) == Some(result.cache),
    {
        let known: Vec<CacheUnit> = match read_cache(found, config) {
            Some(cache) => cache.units,
            None => Vec::new(),
        };
        assert(cache::units(known@) =~= cache::units_in(cache::usable(found, *config)));
        let units = merge_units(known, &self.texts, &self.results);
        PageResult {
            translated: TranslatedTexts { texts: self.results, warning: self.warning },
            cache: TranslationCache {
                version: CACHE_VERSION,
                source_lang: "en".to_owned(),
                target_lang: config.target_lang.clone(),
                provider: config.provider.clone(),
                glossary_hash: "none".to_owned(),
                units,
            },
        }
    }
}

/// The position of the first of `n` texts with a hash, or `n`.
pub open spec fn first_same(texts: Seq<Seq<char>>, hash: Seq<char>, n: int) -> int
    decreases n,
{
    if n <= 0 {
        0
    } else if first_same(texts, hash, n - 1) < n - 1 {
        first_same(texts, hash, n - 1)
    } else if paths::text_hash(texts[n - 1]) == hash {
        n - 1
    } else {
        n
    }
}

proof fn lemma_first_same(
    texts: Seq<Seq<char>>,
    results: Seq<Seq<char>>,
    hash: Seq<char>,
    n: int,
)
    requires
        0 <= n <= texts.len(),
    ensures
        0 <= first_same(texts, hash, n) <= n,
        first_same(texts, hash, n) < n ==> paths::text_hash(texts[first_same(texts, hash, n)])
            == hash,
        forall|j: int|
            0 <= j < n && paths::text_hash(#[trigger] texts[j]) == hash ==> first_same(
                texts,
                hash,
                n,
            ) <= j,
        cache::first_with(cache::fresh(texts, results).take(n), hash) == if first_same(
            texts,
            hash,
            n,
        ) < n {
            Some(results[first_same(texts, hash, n)])
        } else {
            None
        },
    decreases n,
{
    if n > 0 {
        lemma_first_same(texts, results, hash, n - 1);
        let units = cache::fresh(texts, results);
        assert(units.take(n).drop_last() =~= units.take(n - 1));
    }
}

proof fn lemma_nothing_missing(texts: Seq<Seq<char>>, known: Seq<Option<Seq<char>>>)
    requires
        forall|i: int| 0 <= i < known.len() ==> (#[trigger] known[i]) is Some,
    ensures
        missing(texts, known).len() == 0,
    decreases known.len(),
{
    if known.len() > 0 {
        let front = known.drop_last();
        assert forall|i: int| 0 <= i < front.len() implies (#[trigger] front[i]) is Some by {
            assert(known[i] is Some);
        }
        lemma_nothing_missing(texts, front);
        assert(known[known.len() - 1] is Some);
    }
}

/// Once the texts of a page are kept, none of them is asked for again.
pub proof fn law_kept_texts_are_not_asked_for(
    texts: Seq<Seq<char>>,
    results: Seq<Seq<char>>,
    units: Seq<cache::Unit>,
)
    ensures
        missing(texts, hits(texts, cache::merged(units, texts, results))).len() == 0,
{
    let kept = cache::merged(units, texts, results);
    let new_units = cache::fresh(texts, results);
    assert forall|i: int| 0 <= i < hits(texts, kept).len() implies (#[trigger] hits(
        texts,
        kept,
    )[i]) is Some by {
        let hash = paths::text_hash(texts[i]);
        cache::law_first_unit_counts(units + new_units, hash);
        cache::lemma_first_with_add(units, new_units, hash);
        lemma_first_same(texts, results, hash, texts.len() as int);
        assert(new_units.take(texts.len() as int) =~= new_units);
    }
    lemma_nothing_missing(texts, hits(texts, kept));
}

/// A page that is shown again from what was kept is shown as it was. Of texts with the
/// same hash, the first one counts.
pub proof fn law_kept_page_is_shown_again(
    texts: Seq<Seq<char>>,
    units: Seq<cache::Unit>,
    translated: Seq<Seq<char>>,
    later: Seq<Seq<char>>,
    i: int,
)
    requires
        cache::no_doubles(units),
        0 <= i < texts.len(),
    ensures
        ({
            let shown = filled(texts, hits(texts, units), translated);
            let kept = cache::merged(units, texts, shown);
            filled(texts, hits(texts, kept), later)[i] == shown[first_same(
                texts,
                paths::text_hash(texts[i]),
                texts.len() as int,
            )]
        }),
        first_same(texts, paths::text_hash(texts[i]), texts.len() as int) <= i,
{
    let shown = filled(texts, hits(texts, units), translated);
    let kept = cache::merged(units, texts, shown);
    let new_units = cache::fresh(texts, shown);
    let hash = paths::text_hash(texts[i]);
    cache::law_first_unit_counts(units + new_units, hash);
    cache::lemma_first_with_add(units, new_units, hash);
    cache::lemma_only_unit_counts(units, hash);
    lemma_first_same(texts, shown, hash, texts.len() as int);
    assert(new_units.take(texts.len() as int) =~= new_units);
    let j = first_same(texts, hash, texts.len() as int);
    assert(hits(texts, units)[j] == cache::lookup(units, hash));
}

/// Every text of a page keeps its place: what the cache holds for it is shown, and if it
/// holds nothing, the translation of the text itself.
pub proof fn law_page_texts_keep_their_places(
    texts: Seq<Seq<char>>,
    known: Seq<Option<Seq<char>>>,
    i: int,
)
    requires
        known.len() == texts.len(),
        0 <= i < texts.len(),
    ensures
        known[i] is None ==> 0 <= gaps(known, i) < missing(texts, known).len() && missing(
            texts,
            known,
        )[gaps(known, i)] == texts[i],
        filled(texts, known, missing(texts, known))[i] == match known[i] {
            Some(text) => text,
            None => texts[i],
        },
{
    lemma_gaps(texts, known, i);
    lemma_gaps(texts, known, i + 1);
    lemma_missing_take(texts, known, i);
    lemma_missing_prefix(texts, known, i + 1);
}

proof fn lemma_missing_prefix(texts: Seq<Seq<char>>, known: Seq<Option<Seq<char>>>, i: int)
    requires
        0 <= i <= known.len(),
    ensures
        missing(texts, known.take(i)).len() <= missing(texts, known).len(),
        forall|k: int|
            0 <= k < missing(texts, known.take(i)).len() ==> missing(texts, known)[k] == missing(
                texts,
                known.take(i),
            )[k],
    decreases known.len() - i,
{
    if i == known.len() {
        assert(known.take(i) =~= known);
    } else {
        lemma_missing_prefix(texts, known, i + 1);
        lemma_missing_take(texts, known, i);
    }
}

} // verus!
