use dedoc_translate::cache::{
    find_unit, merge_units, read_cache, CacheUnit, TranslationCache, CACHE_VERSION,
};
use dedoc_translate::config::TranslationConfig;
use dedoc_translate::job::TranslatedTexts;
use dedoc_translate::page::{fill, translate_page, PageEnd, PageJob, PageStart, PageStep};
use dedoc_translate::paths::hash_text;
use dedoc_translate::request::{gtx_url, HttpOutcome, RequestFailure};

fn strings(texts: &[&str]) -> Vec<String> {
    texts.iter().map(|text| text.to_string()).collect()
}

fn unit(hash: &str, source: &str, translated: &str) -> CacheUnit {
    CacheUnit {
        source_hash: hash.to_string(),
        source: source.to_string(),
        translated: translated.to_string(),
    }
}

fn known(source: &str, translated: &str) -> CacheUnit {
    unit(&hash_text(source), source, translated)
}

fn cache(units: Vec<CacheUnit>) -> TranslationCache {
    TranslationCache {
        version: 1,
        source_lang: "en".to_string(),
        target_lang: "vi".to_string(),
        provider: "google".to_string(),
        glossary_hash: "none".to_string(),
        units,
    }
}

fn config() -> TranslationConfig {
    TranslationConfig::new("vi", "google", false)
}

fn reads(step: PageStep) -> PageStart {
    match step {
        PageStep::Read(start) => start,
        _ => panic!("the cache is not read"),
    }
}

fn asks(step: PageStep) -> PageJob {
    match step {
        PageStep::Ask(job) => job,
        _ => panic!("nothing is asked for"),
    }
}

fn keeps(step: PageStep) -> PageEnd {
    match step {
        PageStep::Keep(end) => end,
        _ => panic!("nothing is kept"),
    }
}

fn done(step: PageStep) -> TranslatedTexts {
    match step {
        PageStep::Done(done) => done,
        _ => panic!("the page is not done"),
    }
}

fn shown(units: &[CacheUnit]) -> Vec<(&str, &str, &str)> {
    units
        .iter()
        .map(|unit| (unit.source_hash.as_str(), unit.source.as_str(), unit.translated.as_str()))
        .collect()
}

fn gtx_body(translation: &str) -> HttpOutcome {
    let text = serde_json::Value::String(translation.to_string());
    HttpOutcome::Body(format!("[[[{text},\"source\"]],null,\"en\"]"))
}

#[test]
fn cache_of_another_version_is_not_used() {
    assert_eq!(CACHE_VERSION, 1);
    assert!(read_cache(None, &config()).is_none());
    assert!(read_cache(Some(cache(vec![])), &config()).is_some());
    let mut old = cache(vec![]);
    old.version = 0;
    assert!(read_cache(Some(old), &config()).is_none());
}

#[test]
fn cache_of_another_configuration_is_not_used() {
    let french = TranslationConfig::new("fr", "google", false);
    assert!(read_cache(Some(cache(vec![])), &french).is_none());
    let lingva = TranslationConfig::new("vi", "lingva", false);
    assert!(read_cache(Some(cache(vec![])), &lingva).is_none());
    let mut german = cache(vec![]);
    german.source_lang = "de".to_string();
    assert!(read_cache(Some(german), &config()).is_none());
    let mut other_words = cache(vec![]);
    other_words.glossary_hash = "words".to_string();
    assert!(read_cache(Some(other_words), &config()).is_some());
}

#[test]
fn last_unit_counts() {
    let units = vec![unit("1", "a", "x"), unit("2", "b", "y"), unit("1", "c", "z")];
    assert_eq!(find_unit(&units, &"1".to_string()), Some("z".to_string()));
    assert_eq!(find_unit(&units, &"2".to_string()), Some("y".to_string()));
    assert_eq!(find_unit(&units, &"3".to_string()), None);
}

#[test]
fn first_unit_is_kept() {
    let units = vec![unit("1", "a", "x"), known("b", "y"), unit("1", "c", "z")];
    let kept = merge_units(units, &strings(&["b", "d", "d"]), &strings(&["B", "D", "E"]));
    let b = hash_text("b");
    let d = hash_text("d");
    assert_eq!(shown(&kept), [("1", "a", "x"), (b.as_str(), "b", "y"), (d.as_str(), "d", "D")]);
}

#[test]
fn gaps_are_filled_in_order() {
    let texts = strings(&["a", "b", "c", "d"]);
    let held = vec![None, Some("B".to_string()), None, None];
    assert_eq!(fill(&texts, held, &strings(&["A", "C"])), ["A", "B", "C", "d"]);
}

#[test]
fn empty_page_is_done() {
    let end = done(translate_page(vec![], &config(), "rust", "std/vec"));
    assert!(end.texts.is_empty());
    assert!(end.warning.is_none());
}

#[test]
fn page_without_a_cache_is_translated() {
    let no_cache = TranslationConfig::new("vi", "google", true);
    let step = translate_page(strings(&["Hello"]), &no_cache, "rust", "std/vec");
    let job = asks(step);
    assert_eq!(job.job.url, gtx_url("Hello", "en", "vi"));
    let end = done(job.answer(gtx_body("Ch\u{e0}o")));
    assert_eq!(end.texts, ["Ch\u{e0}o"]);
}

#[test]
fn page_is_translated_and_kept() {
    let texts = strings(&["Hello", "World", "7"]);
    let start = reads(translate_page(texts, &config(), "rust", "std/vec"));
    assert_eq!((start.docset.as_str(), start.page_id.as_str()), ("rust", "std/vec"));
    let found = cache(vec![known("World", "Th\u{1ebf}")]);
    let job = asks(start.cached(Some(found), &config()));
    assert_eq!(job.job.url, gtx_url("Hello", "en", "vi"));
    let end = keeps(job.answer(gtx_body("Ch\u{e0}o")));
    assert_eq!((end.docset.as_str(), end.page_id.as_str()), ("rust", "std/vec"));
    let result = end.keep(Some(cache(vec![known("Late", "Mu\u{1ed9}n")])), &config());
    assert_eq!(result.translated.texts, ["Ch\u{e0}o", "Th\u{1ebf}", "7"]);
    assert!(result.translated.warning.is_none());
    assert_eq!(result.cache.version, 1);
    assert_eq!(result.cache.source_lang, "en");
    assert_eq!(result.cache.target_lang, "vi");
    assert_eq!(result.cache.provider, "google");
    assert_eq!(result.cache.glossary_hash, "none");
    assert_eq!(
        shown(&result.cache.units),
        [
            (hash_text("Late").as_str(), "Late", "Mu\u{1ed9}n"),
            (hash_text("Hello").as_str(), "Hello", "Ch\u{e0}o"),
            (hash_text("World").as_str(), "World", "Th\u{1ebf}"),
            (hash_text("7").as_str(), "7", "7"),
        ]
    );
}

#[test]
fn kept_page_is_shown_again() {
    let texts = strings(&["Hello", "World", "Hello"]);
    let start = reads(translate_page(texts.clone(), &config(), "rust", "std/vec"));
    let job = asks(start.cached(None, &config()));
    let end = keeps(job.answer(gtx_body("A\nB\nC")));
    let result = end.keep(None, &config());
    assert_eq!(result.translated.texts, ["A", "B", "C"]);
    let start = reads(translate_page(texts, &config(), "rust", "std/vec"));
    let end = keeps(start.cached(Some(result.cache), &config()));
    assert_eq!(end.results, ["A", "B", "A"]);
    assert!(end.warning.is_none());
}

#[test]
fn page_of_another_language_is_translated_anew() {
    let start = reads(translate_page(strings(&["Hello"]), &config(), "rust", "std/vec"));
    let mut french = cache(vec![known("Hello", "Bonjour")]);
    french.target_lang = "fr".to_string();
    let job = asks(start.cached(Some(french), &config()));
    assert_eq!(job.job.url, gtx_url("Hello", "en", "vi"));
}

#[test]
fn page_keeps_its_texts_where_both_providers_fail() {
    let start = reads(translate_page(strings(&["Hello", "World"]), &config(), "rust", "std/vec"));
    let found = || cache(vec![known("World", "Th\u{1ebf}")]);
    let job = asks(start.cached(Some(found()), &config()));
    let failed =
        || HttpOutcome::Failed(RequestFailure::Transport { text: "timed out".to_string() });
    let job = asks(job.answer(failed()));
    let result = keeps(job.answer(failed())).keep(Some(found()), &config());
    assert_eq!(result.translated.texts, ["Hello", "Th\u{1ebf}"]);
    assert!(result.translated.warning.is_some());
    assert_eq!(result.cache.units.len(), 2);
    assert_eq!(result.cache.units[1].translated, "Hello");
}
