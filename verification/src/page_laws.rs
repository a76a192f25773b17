//! What holds of the translation of a page and of what is kept of it.
use vstd::prelude::*;
use crate::cache::TranslationCache;
use crate::config::TranslationConfig;
use crate::job::TextsStep;
use crate::page::{PageEnd, PageJob, PageResult, PageStart, PageStep};
use crate::request::HttpOutcome;
use crate::cache;
use crate::job;
use crate::job_laws;
use crate::page;
use crate::paths;
use crate::text;

verus! {

/// A cache is used if it has version 1, is made from English, and is made for the language
/// and by the provider that are asked for, and not otherwise.
pub proof fn law_only_a_fitting_cache_is_used(cache: TranslationCache, config: TranslationConfig)
    ensures
        cache::usable(Some(cache), config) == if cache.version == 1 && cache.source_lang@ == "en"@
            && cache.target_lang@ == config.target_lang@ && cache.provider@ == config.provider@ {
            Some(cache)
        } else {
            None
        },
        cache::usable(None, config) is None,
        cache::units_in(None).len() == 0,
        cache::units_in(Some(cache)).len() == cache.units@.len(),
        forall|k: int|
            0 <= k < cache.units@.len() ==> (#[trigger] cache::units_in(Some(cache))[k]).hash
                == cache.units@[k].source_hash@ && cache::units_in(Some(cache))[k].source
                == cache.units@[k].source@ && cache::units_in(Some(cache))[k].translated
                == cache.units@[k].translated@,
{
}

/// Looking up a hash gives the translation of the last unit that has it, and nothing where
/// none has it.
pub proof fn law_lookup_gives_the_last(units: Seq<cache::Unit>, hash: Seq<char>, k: int)
    ensures
        0 <= k < units.len() && units[k].hash == hash && (forall|j: int|
            k < j < units.len() ==> (#[trigger] units[j]).hash != hash) ==> cache::lookup(
            units,
            hash,
        ) == Some(units[k].translated),
        (forall|j: int| 0 <= j < units.len() ==> (#[trigger] units[j]).hash != hash)
            ==> cache::lookup(units, hash) is None,
    decreases units.len(),
{
    if units.len() > 0 {
        let front = units.drop_last();
        assert(units.last() == units[units.len() - 1]);
        law_lookup_gives_the_last(front, hash, k);
        if 0 <= k < units.len() && units[k].hash == hash && (forall|j: int|
            k < j < units.len() ==> (#[trigger] units[j]).hash != hash) {
            if k < front.len() {
                assert(units[units.len() - 1].hash != hash);
                assert(front[k] == units[k]);
                assert forall|j: int| k < j < front.len() implies (#[trigger] front[j]).hash
                    != hash by {
                    assert(units[j].hash != hash);
                }
            }
        }
        if forall|j: int| 0 <= j < units.len() ==> (#[trigger] units[j]).hash != hash {
            assert(units[units.len() - 1].hash != hash);
            assert forall|j: int| 0 <= j < front.len() implies (#[trigger] front[j]).hash != hash by {
                assert(units[j].hash != hash);
            }
        }
    }
}

/// What is kept grows text by text. A text whose hash is not there yet is added at the end,
/// with its hash and what became of it. One whose hash is there changes nothing.
pub proof fn law_new_texts_are_added(
    known: Seq<cache::Unit>,
    texts: Seq<Seq<char>>,
    results: Seq<Seq<char>>,
    t: Seq<char>,
    result: Seq<char>,
)
    requires
        texts.len() == results.len(),
    ensures
        ({
            let before = cache::merged(known, texts, results);
            let after = cache::merged(known, texts.push(t), results.push(result));
            if (exists|k: int|
                0 <= k < known.len() && (#[trigger] known[k]).hash == paths::text_hash(t)) || (
            exists|k: int|
                0 <= k < texts.len() && paths::text_hash(#[trigger] texts[k]) == paths::text_hash(
                    t,
                )) {
                after == before
            } else {
                &&& after.len() == before.len() + 1
                &&& after.drop_last() == before
                &&& after.last().hash == paths::text_hash(t)
                &&& after.last().source == t
                &&& after.last().translated == result
            }
        }),
{
    let hash = paths::text_hash(t);
    let unit = cache::Unit { hash, source: t, translated: result };
    let units = known + cache::fresh(texts, results);
    let longer = known + cache::fresh(texts.push(t), results.push(result));
    assert(longer =~= units.push(unit));
    assert(units.push(unit).drop_last() =~= units);
    cache::law_first_unit_counts(units, hash);
    if exists|k: int| 0 <= k < known.len() && (#[trigger] known[k]).hash == hash {
        let k = choose|k: int| 0 <= k < known.len() && (#[trigger] known[k]).hash == hash;
        assert(units[k].hash == hash);
    } else if exists|k: int| 0 <= k < texts.len() && paths::text_hash(#[trigger] texts[k]) == hash {
        let k = choose|k: int| 0 <= k < texts.len() && paths::text_hash(#[trigger] texts[k]) == hash;
        assert(units[known.len() + k].hash == hash);
    } else {
        assert forall|k: int| 0 <= k < units.len() implies (#[trigger] units[k]).hash != hash by {
            if k < known.len() {
                assert(units[k] == known[k]);
            } else {
                assert(units[k].hash == paths::text_hash(texts[k - known.len()]));
            }
        }
        assert(!cache::has_hash(units, hash));
        let before = cache::merged(known, texts, results);
        assert(before.push(unit).drop_last() =~= before);
    }
}

/// Of the units that a cache held before, the first with each hash stays, in order.
pub proof fn law_first_units_stay(
    known: Seq<cache::Unit>,
    unit: cache::Unit,
    texts: Seq<Seq<char>>,
    results: Seq<Seq<char>>,
)
    requires
        texts.len() == 0,
    ensures
        known.len() == 0 ==> cache::merged(known, texts, results).len() == 0,
        cache::merged(known.push(unit), texts, results) == if exists|k: int|
            0 <= k < known.len() && (#[trigger] known[k]).hash == unit.hash {
            cache::merged(known, texts, results)
        } else {
            cache::merged(known, texts, results).push(unit)
        },
{
    let none = cache::fresh(texts, results);
    assert(known + none =~= known);
    assert(known.push(unit) + none =~= known.push(unit));
    assert(known.push(unit).drop_last() =~= known);
    cache::law_first_unit_counts(known, unit.hash);
}

/// The texts for which units hold nothing, in order.
pub open spec fn unknown(texts: Seq<Seq<char>>, units: Seq<cache::Unit>) -> Seq<Seq<char>> {
    texts.filter(|t: Seq<char>| cache::lookup(units, paths::text_hash(t)) is None)
}

proof fn lemma_unknown(texts: Seq<Seq<char>>, units: Seq<cache::Unit>, n: int)
    requires
        0 <= n <= texts.len(),
    ensures
        page::missing(texts, page::hits(texts, units).take(n)) == unknown(texts.take(n), units),
        page::gaps(page::hits(texts, units), n) == unknown(texts.take(n), units).len(),
    decreases n,
{
    reveal(Seq::filter);
    let known = page::hits(texts, units);
    let test = |t: Seq<char>| cache::lookup(units, paths::text_hash(t)) is None;
    if n == 0 {
        assert(known.take(0) =~= Seq::empty());
        assert(texts.take(0) =~= Seq::empty());
    } else {
        lemma_unknown(texts, units, n - 1);
        assert(known.take(n).drop_last() =~= known.take(n - 1));
        assert(texts.take(n).drop_last() =~= texts.take(n - 1));
        assert(texts.take(n).last() == texts[n - 1]);
        assert(known.take(n).last() == known[n - 1]);
        assert(test(texts[n - 1]) == (known[n - 1] is None));
    }
}

/// Only the texts that the cache does not hold are asked for, in order.
pub proof fn law_only_unknown_texts_are_asked_for(
    texts: Seq<Seq<char>>,
    units: Seq<cache::Unit>,
)
    ensures
        page::missing(texts, page::hits(texts, units)) == unknown(texts, units),
{
    lemma_unknown(texts, units, texts.len() as int);
    assert(texts.take(texts.len() as int) =~= texts);
    assert(page::hits(texts, units).take(texts.len() as int) =~= page::hits(texts, units));
}

/// A text of a page becomes what the cache holds for it. Where it holds nothing, the text
/// becomes the translation at the place that it has among the texts that were asked for.
pub proof fn law_translations_fill_the_gaps(
    texts: Seq<Seq<char>>,
    units: Seq<cache::Unit>,
    translated: Seq<Seq<char>>,
    i: int,
)
    requires
        0 <= i < texts.len(),
    ensures
        page::filled(texts, page::hits(texts, units), translated).len() == texts.len(),
        page::filled(texts, page::hits(texts, units), translated)[i] == match cache::lookup(
            units,
            paths::text_hash(texts[i]),
        ) {
            Some(held) => held,
            None => if unknown(texts.take(i), units).len() < translated.len() {
                translated[unknown(texts.take(i), units).len() as int]
            } else {
                texts[i]
            },
        },
{
    lemma_unknown(texts, units, i);
}

/// Each text of a page becomes its own translation. If what is asked for is translated text
/// by text, a text becomes what the cache holds for it, or else its own translation.
pub proof fn law_each_page_text_gets_its_own(
    texts: Seq<Seq<char>>,
    units: Seq<cache::Unit>,
    f: spec_fn(Seq<char>) -> Seq<char>,
    i: int,
)
    requires
        0 <= i < texts.len(),
    ensures
        page::filled(
            texts,
            page::hits(texts, units),
            page::missing(texts, page::hits(texts, units)).map_values(f),
        )[i] == match cache::lookup(units, paths::text_hash(texts[i])) {
            Some(held) => held,
            None => f(texts[i]),
        },
{
    page::law_page_texts_keep_their_places(texts, page::hits(texts, units), i);
}

/// What is in force of the cache that was found.
pub open spec fn in_force(found: Option<TranslationCache>, config: TranslationConfig) -> Seq<
    cache::Unit,
> {
    cache::units_in(cache::usable(found, config))
}

/// A page starts with nothing to do if it has no texts, with a job for all its texts if there
/// is to be no cache, and else with its cache.
pub proof fn law_page_starts_with_its_cache(
    texts: Vec<String>,
    config: TranslationConfig,
    docset: Seq<char>,
    page_id: Seq<char>,
    step: PageStep,
)
    requires
        page::begins(texts, config, docset, page_id, step),
    ensures
        texts@.len() == 0 ==> (step matches PageStep::Done(done) && done.texts@.len() == 0
            && done.warning is None),
        texts@.len() > 0 && !config.no_cache ==> (step matches PageStep::Read(start) && start.texts
            == texts && start.docset@ == docset && start.page_id@ == page_id),
        texts@.len() > 0 && config.no_cache ==> match step {
            PageStep::Done(done) => done.texts == texts && done.warning is None,
            PageStep::Ask(next) => next.page is None && next.job.texts == texts
                && next.job.answers@.len() == 0,
            _ => false,
        },
{
}

/// A page whose cache is read asks for the texts that the cache does not hold, and for
/// nothing where none of these is worth a request. What the cache holds is kept in mind for
/// each text.
pub proof fn law_cached_page_asks_for_the_rest(
    start: PageStart,
    found: Option<TranslationCache>,
    config: TranslationConfig,
    step: PageStep,
)
    requires
        start.leads_to(found, config, step),
    ensures
        match step {
            PageStep::Ask(next) => {
                &&& text::views(next.job.texts@) == unknown(
                    text::views(start.texts@),
                    in_force(found, config),
                )
                &&& next.page matches Some(known) && known.texts == start.texts && known.docset
                    == start.docset && known.page_id == start.page_id && page::maybe_views(
                    known.known@,
                ) == page::hits(text::views(start.texts@), in_force(found, config))
            },
            PageStep::Keep(end) => {
                &&& end.texts == start.texts
                &&& end.docset == start.docset
                &&& end.page_id == start.page_id
                &&& end.warning is None
                &&& job_laws::worthy(
                    unknown(text::views(start.texts@), in_force(found, config)),
                ).len() == 0
                &&& text::views(end.results@) == Seq::new(
                    start.texts@.len(),
                    |i: int|
                        match cache::lookup(
                            in_force(found, config),
                            paths::text_hash(start.texts@[i]@),
                        ) {
                            Some(held) => held,
                            None => start.texts@[i]@,
                        },
                )
            },
            _ => false,
        },
{
    let texts = text::views(start.texts@);
    let units = in_force(found, config);
    let known = page::hits(texts, units);
    let (about, asked, first) = choose|
        about: page::PageTexts,
        asked: Vec<String>,
        first: TextsStep,
    |
        {
            &&& #[trigger] about.is_about(start)
            &&& page::maybe_views(about.known@) == known
            &&& text::views(asked@) == page::missing(texts, known)
            &&& #[trigger] job::starts(asked, config, first)
            &&& page::follows(Some(about), first, step)
        };
    law_only_unknown_texts_are_asked_for(texts, units);
    job_laws::law_job_starts_with_the_named_provider(asked, config, first);
    match step {
        PageStep::Keep(end) => {
            let results = text::views(end.results@);
            assert(results == page::filled(texts, known, text::views(asked@)));
            assert forall|i: int| 0 <= i < texts.len() implies #[trigger] results[i]
                == match cache::lookup(units, paths::text_hash(start.texts@[i]@)) {
                Some(held) => held,
                None => start.texts@[i]@,
            } by {
                page::law_page_texts_keep_their_places(texts, known, i);
            }
            assert(results =~= Seq::new(
                start.texts@.len(),
                |i: int|
                    match cache::lookup(units, paths::text_hash(start.texts@[i]@)) {
                        Some(held) => held,
                        None => start.texts@[i]@,
                    },
            ));
        },
        _ => {},
    }
}

/// An answer takes the job of a page one step further. When the job is done, a page without a
/// cache is done with it. A page with one has for each text what the cache held, or else what
/// became of it in the job.
pub proof fn law_answered_page_puts_texts_together(
    job: PageJob,
    outcome: HttpOutcome,
    next: TextsStep,
    step: PageStep,
)
    requires
        job.job.leads_to(outcome, next),
        page::follows(job.page, next, step),
    ensures
        match (next, job.page) {
            (TextsStep::Ask(later), _) => step matches PageStep::Ask(waiting) && waiting.job
                == later && waiting.page == job.page,
            (TextsStep::Done(done), None) => step matches PageStep::Done(result) && result == done,
            (TextsStep::Done(done), Some(known)) => step matches PageStep::Keep(end) && end.texts
                == known.texts && end.docset == known.docset && end.page_id == known.page_id
                && end.warning == done.warning && text::views(end.results@) == page::filled(
                text::views(known.texts@),
                page::maybe_views(known.known@),
                text::views(done.texts@),
            ),
        },
{
}

/// In the end the texts of a page are handed out as they became, and the cache that is to be
/// written is for this configuration: it is used again for it. It holds what the cache held
/// by then, and each text with what became of it, unless its hash was there.
pub proof fn law_page_is_kept(
    end: PageEnd,
    found: Option<TranslationCache>,
    config: TranslationConfig,
    result: PageResult,
)
    requires
        end.leads_to(found, config, result),
    ensures
        result.translated.texts == end.results,
        result.translated.warning == end.warning,
        cache::usable(Some(result.cache), config) == Some(result.cache),
        result.cache.version == 1,
        result.cache.source_lang@ == "en"@,
        result.cache.target_lang@ == config.target_lang@,
        result.cache.provider@ == config.provider@,
        result.cache.glossary_hash@ == "none"@,
        cache::units_in(Some(result.cache)) == cache::merged(
            in_force(found, config),
            text::views(end.texts@),
            text::views(end.results@),
        ),
{
}

} // verus!
