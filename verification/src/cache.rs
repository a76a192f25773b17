//! The translations of a page that are kept on disk.
use vstd::prelude::*;
use crate::config::TranslationConfig;
use crate::paths;
use crate::text;

verus! {

/// The version of the cache file.
pub const CACHE_VERSION: u32 = 1;

/// The translation of one text.
pub struct CacheUnit {
    /// The hash of the text.
    pub source_hash: String,
    pub source: String,
    pub translated: String,
}

/// The translations of the texts of one page.
pub struct TranslationCache {
    pub version: u32,
    pub source_lang: String,
    pub target_lang: String,
    pub provider: String,
    pub glossary_hash: String,
    pub units: Vec<CacheUnit>,
}

/// What a [`CacheUnit`] holds.
pub ghost struct Unit {
    pub hash: Seq<char>,
    pub source: Seq<char>,
    pub translated: Seq<char>,
}

impl View for CacheUnit {
    type V = Unit;

    open spec fn view(&self) -> Unit {
        Unit {
            hash: self.source_hash@,
            source: self.source@,
            translated: self.translated@,
        }
    }
}

/// What each of a list of units holds.
pub open spec fn units(of: Seq<CacheUnit>) -> Seq<Unit> {
    Seq::new(of.len(), |k: int| of[k]@)
}

/// The units of a cache, if there is one.
pub open spec fn units_in(cache: Option<TranslationCache>) -> Seq<Unit> {
    match cache {
        Some(cache) => units(cache.units@),
        None => Seq::empty(),
    }
}

/// Whether a cache fits a configuration: it has this version, is made from English into
/// the language and by the provider that are asked for.
pub open spec fn fits(cache: TranslationCache, config: TranslationConfig) -> bool {
    &&& cache.version == CACHE_VERSION
    &&& cache.target_lang@ == config.target_lang@
    &&& cache.provider@ == config.provider@
    &&& cache.source_lang@ == "en"@
}

/// The cache that is used, given the one that was found on disk.
pub open spec fn usable(found: Option<TranslationCache>, config: TranslationConfig) -> Option<
    TranslationCache,
> {
    match found {
        Some(cache) => if fits(cache, config) {
            Some(cache)
        } else {
            None
        },
        None => None,
    }
}

/// Takes the cache that was found on disk, unless it does not fit the configuration.
pub fn read_cache(found: Option<TranslationCache>, config: &TranslationConfig) -> (cache: Option<
    TranslationCache,
>)
    ensures
        cache == usable(found, *config),
{
    match found {
        Some(cache) => {
            if cache.version != CACHE_VERSION || cache.target_lang != config.target_lang
                || cache.provider != config.provider || cache.source_lang != "en".to_owned() {
                None
            } else {
                Some(cache)
            }
        },
        None => None,
    }
}

/// The translation that units hold for a hash. The last one counts.
pub open spec fn lookup(units: Seq<Unit>, hash: Seq<char>) -> Option<Seq<char>>
    decreases units.len(),
{
    if units.len() == 0 {
        None
    } else if units.last().hash == hash {
        Some(units.last().translated)
    } else {
        lookup(units.drop_last(), hash)
    }
}

/// Looks up the translation for a hash.
pub fn find_unit(of: &[CacheUnit], hash: &String) -> (found: Option<String>)
    ensures
        match found {
            Some(translated) => lookup(units(of@), hash@) == Some(translated@),
            None => lookup(units(of@), hash@) is None,
        },
{
    let ghost all = units(of@);
    let mut n: usize = of.len();
    assert(all.take(n as int) =~= all);
    while n > 0
        invariant
            n <= of@.len(),
            all == units(of@),
            lookup(all.take(n as int), hash@) == lookup(all, hash@),
        decreases n,
    {
        assert(all.take(n as int).drop_last() =~= all.take(n - 1));
        assert(all.take(n as int).last() == of@[n - 1]@);
        if of[n - 1].source_hash == *hash {
            return Some(of[n - 1].translated.clone());
        }
        n -= 1;
    }
    None
}

/// Whether some unit has a hash.
pub open spec fn has_hash(units: Seq<Unit>, hash: Seq<char>) -> bool {
    exists|k: int| 0 <= k < units.len() && (#[trigger] units[k]).hash == hash
}

/// The units without those whose hash an earlier one has.
pub open spec fn distinct(units: Seq<Unit>) -> Seq<Unit>
    decreases units.len(),
{
    if units.len() == 0 {
        Seq::empty()
    } else if has_hash(distinct(units.drop_last()), units.last().hash) {
        distinct(units.drop_last())
    } else {
        distinct(units.drop_last()).push(units.last())
    }
}

/// The units for some texts and what became of them.
pub open spec fn fresh(texts: Seq<Seq<char>>, results: Seq<Seq<char>>) -> Seq<Unit> {
    Seq::new(
        texts.len(),
        |k: int|
            Unit { hash: paths::text_hash(texts[k]), source: texts[k], translated: results[k] },
    )
}

/// The units of a cache and those for some texts and what became of them.
pub open spec fn merged(
    known: Seq<Unit>,
    texts: Seq<Seq<char>>,
    results: Seq<Seq<char>>,
) -> Seq<Unit> {
    distinct(known + fresh(texts, results))
}

fn holds_hash(of: &[CacheUnit], hash: &String) -> (found: bool)
    ensures
        found == has_hash(units(of@), hash@),
{
    let mut k: usize = 0;
    while k < of.len()
        invariant
            k <= of@.len(),
            forall|j: int| 0 <= j < k ==> (#[trigger] units(of@)[j]).hash != hash@,
        decreases of@.len() - k,
    {
        assert(units(of@)[k as int] == of@[k as int]@);
        if of[k].source_hash == *hash {
            return true;
        }
        k += 1;
    }
    false
}

/// Adds a unit unless one with its hash is there.
fn push_distinct(kept: &mut Vec<CacheUnit>, unit: CacheUnit, Ghost(before): Ghost<Seq<Unit>>)
    requires
        units(old(kept)@) == distinct(before),
    ensures
        units(final(kept)@) == distinct(before.push(unit@)),
{
    assert(before.push(unit@).drop_last() =~= before);
    if !holds_hash(kept, &unit.source_hash) {
        let ghost earlier = units(kept@);
        kept.push(unit);
        assert(units(kept@) =~= earlier.push(unit@));
    }
}

/// Puts together what is kept for a page: the units of the cache, and then one for each
/// text. Of several with one hash, the first is kept.
pub fn merge_units(known: Vec<CacheUnit>, texts: &[String], results: &[String]) -> (kept: Vec<
    CacheUnit,
>)
    requires
        texts@.len() == results@.len(),
    ensures
        units(kept@) == merged(units(known@), text::views(texts@), text::views(results@)),
{
    let ghost old_units = units(known@);
    let ghost new_units = fresh(text::views(texts@), text::views(results@));
    let mut kept: Vec<CacheUnit> = Vec::new();
    assert(old_units.take(0) =~= Seq::empty());
    assert(units(kept@) =~= Seq::empty());
    for unit in it: known
        invariant
            it.seq() == known@,
            old_units == units(known@),
            units(kept@) == distinct(old_units.take(it.index() as int)),
    {
        let ghost before = old_units.take(it.index() as int);
        assert(old_units.take(it.index() + 1) =~= before.push(unit@));
        push_distinct(&mut kept, unit, Ghost(before));
    }
    assert(old_units.take(old_units.len() as int) =~= old_units);
    let mut k: usize = 0;
    assert(old_units + new_units.take(0) =~= old_units);
    while k < texts.len()
        invariant
            k <= texts@.len(),
            texts@.len() == results@.len(),
            new_units == fresh(text::views(texts@), text::views(results@)),
            units(kept@) == distinct(old_units + new_units.take(k as int)),
        decreases texts@.len() - k,
    {
        let unit = CacheUnit {
            source_hash: paths::hash_text(texts[k].as_str()),
            source: texts[k].clone(),
            translated: results[k].clone(),
        };
        let ghost before = old_units + new_units.take(k as int);
        assert(unit@ == new_units[k as int]);
        assert(old_units + new_units.take(k + 1) =~= before.push(unit@));
        push_distinct(&mut kept, unit, Ghost(before));
        k += 1;
    }
    assert(new_units.take(k as int) =~= new_units);
    kept
}

/// Whether no two units have the same hash.
pub open spec fn no_doubles(units: Seq<Unit>) -> bool {
    forall|j: int, k: int|
        0 <= j < k < units.len() ==> (#[trigger] units[j]).hash != (#[trigger] units[k]).hash
}

/// What is kept for a page holds no two units with the same hash.
pub proof fn law_distinct_has_no_doubles(units: Seq<Unit>)
    ensures
        no_doubles(distinct(units)),
    decreases units.len(),
{
    if units.len() > 0 {
        law_distinct_has_no_doubles(units.drop_last());
        let before = distinct(units.drop_last());
        if !has_hash(before, units.last().hash) {
            let after = before.push(units.last());
            assert forall|j: int, k: int| 0 <= j < k < after.len() implies (#[trigger] after[j]).hash
                != (#[trigger] after[k]).hash by {
                assert(after[j] == before[j]);
                if k == before.len() {
                    assert(before[j].hash != units.last().hash);
                } else {
                    assert(after[k] == before[k]);
                }
            }
        }
    }
}

/// The first unit with a hash.
pub open spec fn first_with(units: Seq<Unit>, hash: Seq<char>) -> Option<Seq<char>>
    decreases units.len(),
{
    if units.len() == 0 {
        None
    } else {
        match first_with(units.drop_last(), hash) {
            Some(translated) => Some(translated),
            None => if units.last().hash == hash {
                Some(units.last().translated)
            } else {
                None
            },
        }
    }
}

proof fn lemma_first_with_none(units: Seq<Unit>, hash: Seq<char>)
    ensures
        first_with(units, hash) is None <==> !has_hash(units, hash),
    decreases units.len(),
{
    if units.len() > 0 {
        let front = units.drop_last();
        lemma_first_with_none(front, hash);
        if has_hash(front, hash) {
            let k = choose|k: int| 0 <= k < front.len() && (#[trigger] front[k]).hash == hash;
            assert(units[k].hash == hash);
        } else if units.last().hash == hash {
            assert(units[units.len() - 1].hash == hash);
        } else {
            assert forall|k: int| 0 <= k < units.len() implies (#[trigger] units[k]).hash != hash by {
                if k < front.len() {
                    assert(units[k] == front[k]);
                }
            }
        }
    }
}

/// Looking a hash up in what is kept gives the first of the units that were put together.
pub proof fn law_first_unit_counts(units: Seq<Unit>, hash: Seq<char>)
    ensures
        lookup(distinct(units), hash) == first_with(units, hash),
        has_hash(distinct(units), hash) == has_hash(units, hash),
    decreases units.len(),
{
    lemma_first_with_none(units, hash);
    lemma_lookup_none(distinct(units), hash);
    if units.len() > 0 {
        let front = units.drop_last();
        law_first_unit_counts(front, hash);
        law_first_unit_counts(front, units.last().hash);
        lemma_first_with_none(front, hash);
        let before = distinct(front);
        if !has_hash(before, units.last().hash) {
            assert(before.push(units.last()).drop_last() =~= before);
            lemma_lookup_none(before, hash);
        }
    }
}

proof fn lemma_lookup_none(units: Seq<Unit>, hash: Seq<char>)
    ensures
        lookup(units, hash) is None <==> !has_hash(units, hash),
    decreases units.len(),
{
    if units.len() > 0 {
        let front = units.drop_last();
        lemma_lookup_none(front, hash);
        if units.last().hash == hash {
            assert(units[units.len() - 1].hash == hash);
        } else if has_hash(front, hash) {
            let k = choose|k: int| 0 <= k < front.len() && (#[trigger] front[k]).hash == hash;
            assert(units[k].hash == hash);
        } else {
            assert forall|k: int| 0 <= k < units.len() implies (#[trigger] units[k]).hash != hash by {
                if k < front.len() {
                    assert(units[k] == front[k]);
                }
            }
        }
    }
}

/// The first of the units that two lists hold for a hash is that of the first list, if it
/// has one.
pub proof fn lemma_first_with_add(first: Seq<Unit>, second: Seq<Unit>, hash: Seq<char>)
    ensures
        first_with(first + second, hash) == match first_with(first, hash) {
            Some(translated) => Some(translated),
            None => first_with(second, hash),
        },
    decreases second.len(),
{
    if second.len() == 0 {
        assert(first + second =~= first);
    } else {
        assert((first + second).drop_last() =~= first + second.drop_last());
        lemma_first_with_add(first, second.drop_last(), hash);
    }
}

/// Without the last of some units, there are still no doubles, and none has its hash.
proof fn lemma_no_doubles_front(units: Seq<Unit>)
    requires
        no_doubles(units),
        units.len() > 0,
    ensures
        no_doubles(units.drop_last()),
        !has_hash(units.drop_last(), units.last().hash),
{
    let front = units.drop_last();
    assert forall|j: int, k: int| 0 <= j < k < front.len() implies (#[trigger] front[j]).hash != (
    #[trigger] front[k]).hash by {
        assert(units[j].hash != units[k].hash);
    }
    assert forall|k: int| 0 <= k < front.len() implies (#[trigger] front[k]).hash
        != units.last().hash by {
        assert(units[k].hash != units[units.len() - 1].hash);
    }
}

/// Where no hash comes twice, it does not matter which of the units counts.
pub proof fn lemma_only_unit_counts(units: Seq<Unit>, hash: Seq<char>)
    requires
        no_doubles(units),
    ensures
        lookup(units, hash) == first_with(units, hash),
    decreases units.len(),
{
    if units.len() > 0 {
        let front = units.drop_last();
        lemma_no_doubles_front(units);
        lemma_only_unit_counts(front, hash);
        if units.last().hash == hash {
            lemma_first_with_none(front, hash);
        }
    }
}

proof fn lemma_distinct_prefix(first: Seq<Unit>, second: Seq<Unit>)
    ensures
        distinct(first).len() <= distinct(first + second).len(),
        distinct(first + second).take(distinct(first).len() as int) == distinct(first),
    decreases second.len(),
{
    let whole = distinct(first + second);
    let head = distinct(first);
    if second.len() == 0 {
        assert(first + second =~= first);
        assert(whole.take(head.len() as int) =~= head);
    } else {
        let before = distinct(first + second.drop_last());
        assert((first + second).drop_last() =~= first + second.drop_last());
        lemma_distinct_prefix(first, second.drop_last());
        assert(whole.take(head.len() as int) =~= before.take(head.len() as int));
    }
}

proof fn lemma_distinct_keeps(units: Seq<Unit>)
    requires
        no_doubles(units),
    ensures
        distinct(units) == units,
    decreases units.len(),
{
    if units.len() > 0 {
        let front = units.drop_last();
        lemma_no_doubles_front(units);
        lemma_distinct_keeps(front);
        assert(front.push(units.last()) =~= units);
    }
}

/// The units that a cache holds stay in their places when more are added.
pub proof fn law_known_units_stay(
    known: Seq<Unit>,
    texts: Seq<Seq<char>>,
    results: Seq<Seq<char>>,
)
    requires
        no_doubles(known),
    ensures
        known.len() <= merged(known, texts, results).len(),
        merged(known, texts, results).take(known.len() as int) == known,
{
    lemma_distinct_keeps(known);
    lemma_distinct_prefix(known, fresh(texts, results));
}

/// A cache fits the version, the languages and the provider that it was made for, and no
/// others.
pub proof fn law_caches_fit_their_configuration(
    cache: TranslationCache,
    config: TranslationConfig,
    other: TranslationConfig,
)
    requires
        fits(cache, config),
    ensures
        fits(cache, other) <==> other.target_lang@ == config.target_lang@ && other.provider@
            == config.provider@,
{
}

} // verus!
