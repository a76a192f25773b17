use dedoc_translate::config::TranslationConfig;
use dedoc_translate::job::{
    restore_all, translate_texts, warn_once, TextsJob, TextsStep, TranslatedTexts,
};
use dedoc_translate::provider::{
    pick_provider, GoogleGtxTranslator, LingvaTranslator, ProviderStep, TranslationProvider,
};
use dedoc_translate::request::{gtx_url, lingva_url, HttpOutcome, RequestFailure};

fn strings(texts: &[&str]) -> Vec<String> {
    texts.iter().map(|text| text.to_string()).collect()
}

fn asked(step: ProviderStep) -> String {
    match step {
        ProviderStep::Ask(url) => url,
        ProviderStep::Done(_) => panic!("nothing is asked for"),
    }
}

fn finished(step: ProviderStep) -> Vec<String> {
    match step {
        ProviderStep::Ask(url) => panic!("{url} is asked for"),
        ProviderStep::Done(texts) => texts,
    }
}

fn waiting(step: TextsStep) -> TextsJob {
    match step {
        TextsStep::Ask(job) => job,
        TextsStep::Done(_) => panic!("nothing is asked for"),
    }
}

fn done(step: TextsStep) -> TranslatedTexts {
    match step {
        TextsStep::Ask(job) => panic!("{} is asked for", job.url),
        TextsStep::Done(done) => done,
    }
}

fn gtx_body(translation: &str) -> HttpOutcome {
    let text = serde_json::Value::String(translation.to_string());
    HttpOutcome::Body(format!("[[[{text},\"source\"]],null,\"en\"]"))
}

fn lingva_body(translation: &str) -> HttpOutcome {
    let text = serde_json::Value::String(translation.to_string());
    HttpOutcome::Body(format!("{{\"translation\":{text}}}"))
}

fn timeout() -> HttpOutcome {
    HttpOutcome::Failed(RequestFailure::Transport { text: "timed out".to_string() })
}

fn too_many() -> HttpOutcome {
    HttpOutcome::Failed(RequestFailure::Status {
        code: 429,
        response: 429,
        text: "status code 429".to_string(),
    })
}

#[test]
fn config_keeps_what_it_is_given() {
    let config = TranslationConfig::new("vi", "lingva", true);
    assert_eq!(config.target_lang, "vi");
    assert_eq!(config.provider, "lingva");
    assert!(config.no_cache);
}

#[test]
fn provider_is_picked_by_name() {
    assert_eq!(pick_provider(&TranslationConfig::new("vi", "lingva", false)).name(), "lingva");
    assert_eq!(pick_provider(&TranslationConfig::new("vi", "google", false)).name(), "google-gtx");
    assert_eq!(pick_provider(&TranslationConfig::new("vi", "Lingva", false)).name(), "google-gtx");
}

#[test]
fn providers_stand_in_for_each_other() {
    let google = TranslationProvider::GoogleGtx(GoogleGtxTranslator);
    let lingva = TranslationProvider::Lingva(LingvaTranslator);
    assert_eq!(google.fallback().name(), lingva.name());
    assert_eq!(lingva.fallback().name(), google.name());
    assert_eq!(google.fallback().fallback().name(), google.name());
}

#[test]
fn google_translates_a_batch_at_once() {
    let texts = strings(&["Hello", "World"]);
    let google = GoogleGtxTranslator;
    assert_eq!(asked(google.translate(&texts, "en", "vi", &[])), gtx_url("Hello\nWorld", "en", "vi"));
    let answers = strings(&["Xin ch\u{e0}o\nTh\u{1ebf} gi\u{1edb}i"]);
    assert_eq!(
        finished(google.translate(&texts, "en", "vi", &answers)),
        ["Xin ch\u{e0}o", "Th\u{1ebf} gi\u{1edb}i"]
    );
}

#[test]
fn google_asks_again_where_lines_are_lost() {
    let texts = strings(&["Hello", "World"]);
    let google = GoogleGtxTranslator;
    let one = strings(&["one line"]);
    assert_eq!(asked(google.translate(&texts, "en", "vi", &one)), gtx_url("Hello", "en", "vi"));
    let two = strings(&["one line", "A"]);
    assert_eq!(asked(google.translate(&texts, "en", "vi", &two)), gtx_url("World", "en", "vi"));
    let three = strings(&["a\nb\nc", "A", "B"]);
    assert_eq!(finished(google.translate(&texts, "en", "vi", &three)), ["A", "B"]);
}

#[test]
fn google_cuts_a_long_text() {
    let long = "x".repeat(4000);
    let texts = vec![long.clone(), "end".to_string()];
    let google = GoogleGtxTranslator;
    assert_eq!(asked(google.translate(&texts, "en", "vi", &[])), gtx_url(&long[..3500], "en", "vi"));
    let one = strings(&["A"]);
    assert_eq!(asked(google.translate(&texts, "en", "vi", &one)), gtx_url(&long[3500..], "en", "vi"));
    let two = strings(&["A", "B"]);
    assert_eq!(asked(google.translate(&texts, "en", "vi", &two)), gtx_url("end", "en", "vi"));
    let three = strings(&["A", "B", "C"]);
    assert_eq!(finished(google.translate(&texts, "en", "vi", &three)), ["AB", "C"]);
}

#[test]
fn lingva_translates_one_by_one() {
    let long = "x".repeat(3501);
    let texts = vec!["Hello".to_string(), long.clone()];
    let lingva = LingvaTranslator;
    assert_eq!(asked(lingva.translate(&texts, "en", "vi", &[])), lingva_url("Hello", "en", "vi"));
    let one = strings(&["A"]);
    assert_eq!(
        asked(lingva.translate(&texts, "en", "vi", &one)),
        lingva_url(&long[..3500], "en", "vi")
    );
    let two = strings(&["A", "B"]);
    assert_eq!(asked(lingva.translate(&texts, "en", "vi", &two)), lingva_url("x", "en", "vi"));
    let three = strings(&["A", "B", "C"]);
    assert_eq!(finished(lingva.translate(&texts, "en", "vi", &three)), ["A", "BC"]);
}

#[test]
fn no_texts_need_no_request() {
    assert!(finished(GoogleGtxTranslator.translate(&[], "en", "vi", &[])).is_empty());
    assert!(finished(LingvaTranslator.translate(&[], "en", "vi", &[])).is_empty());
}

#[test]
fn google_needs_few_requests_for_a_batch() {
    let texts = strings(&["one", "two", "three", "four", "five", "six", "seven", "eight"]);
    let mut answers: Vec<String> = vec![];
    while let ProviderStep::Ask(_) = GoogleGtxTranslator.translate(&texts, "en", "vi", &answers) {
        answers.push("mangled".to_string());
    }
    assert_eq!(answers.len(), 9);
}

#[test]
fn texts_are_translated() {
    let config = TranslationConfig::new("vi", "google", false);
    let texts = strings(&["12", "Use `x` here", "", "World"]);
    let job = waiting(translate_texts(texts, &config));
    assert_eq!(job.url, gtx_url("Use __PH_0__ here\nWorld", "en", "vi"));
    let end = done(job.answer(gtx_body("D\u{f9}ng __ ph_0 __ \u{111}i\nTh\u{1ebf}")));
    assert_eq!(end.texts, ["12", "D\u{f9}ng `x` \u{111}i", "", "Th\u{1ebf}"]);
    assert!(end.warning.is_none());
}

#[test]
fn texts_without_letters_need_no_request() {
    let config = TranslationConfig::new("vi", "google", false);
    let end = done(translate_texts(strings(&["12", "--", ""]), &config));
    assert_eq!(end.texts, ["12", "--", ""]);
    assert!(end.warning.is_none());
    assert!(done(translate_texts(vec![], &config)).texts.is_empty());
}

#[test]
fn text_that_lost_code_stays() {
    let config = TranslationConfig::new("vi", "google", false);
    let job = waiting(translate_texts(strings(&["Use `x` here", "World"]), &config));
    let end = done(job.answer(gtx_body("D\u{f9}ng\nTh\u{1ebf}")));
    assert_eq!(end.texts, ["Use `x` here", "Th\u{1ebf}"]);
    assert_eq!(
        end.warning.unwrap(),
        "translation dropped code placeholders; showing original text for a line."
    );
}

#[test]
fn other_provider_is_asked_where_one_fails() {
    let config = TranslationConfig::new("vi", "google", false);
    let job = waiting(translate_texts(strings(&["Hello", "World"]), &config));
    let job = waiting(job.answer(timeout()));
    assert_eq!(job.url, lingva_url("Hello", "en", "vi"));
    let job = waiting(job.answer(lingva_body("Ch\u{e0}o")));
    assert_eq!(job.url, lingva_url("World", "en", "vi"));
    let end = done(job.answer(lingva_body("Th\u{1ebf}")));
    assert_eq!(end.texts, ["Ch\u{e0}o", "Th\u{1ebf}"]);
    assert!(end.warning.is_none());
}

#[test]
fn google_stands_in_for_lingva() {
    let config = TranslationConfig::new("fr", "lingva", false);
    let job = waiting(translate_texts(strings(&["Hello"]), &config));
    assert_eq!(job.url, lingva_url("Hello", "en", "fr"));
    let job = waiting(job.answer(HttpOutcome::Body("{}".to_string())));
    assert_eq!(job.url, gtx_url("Hello", "en", "fr"));
    assert_eq!(done(job.answer(gtx_body("Bonjour"))).texts, ["Bonjour"]);
}

#[test]
fn texts_stay_where_both_providers_fail() {
    let config = TranslationConfig::new("vi", "google", false);
    let job = waiting(translate_texts(strings(&["Hello", "3"]), &config));
    let job = waiting(job.answer(timeout()));
    let end = done(job.answer(too_many()));
    assert_eq!(end.texts, ["Hello", "3"]);
    assert_eq!(
        end.warning.unwrap(),
        "translation via google-gtx failed (network error: timed out); fallback lingva failed \
         (rate limited (HTTP 429)); showing original English text."
    );
}

#[test]
fn failure_starts_the_other_provider_from_the_beginning() {
    let config = TranslationConfig::new("vi", "lingva", false);
    let job = waiting(translate_texts(strings(&["Hello", "World"]), &config));
    let job = waiting(job.answer(lingva_body("Ch\u{e0}o")));
    let job = waiting(job.answer(too_many()));
    assert_eq!(job.url, gtx_url("Hello\nWorld", "en", "vi"));
    let end = done(job.answer(HttpOutcome::Unreadable("cut off".to_string())));
    assert_eq!(end.texts, ["Hello", "World"]);
    assert_eq!(
        end.warning.unwrap(),
        "translation via lingva failed (rate limited (HTTP 429)); fallback google-gtx failed \
         (network error: cut off); showing original English text."
    );
}

#[test]
fn texts_that_are_sent_back_stay() {
    let config = TranslationConfig::new("vi", "lingva", false);
    let texts = strings(&["Use `x` and HashMap<K, V>", "!", "see src/lib.rs"]);
    let mut step = translate_texts(texts.clone(), &config);
    let mut requests = 0;
    while let TextsStep::Ask(job) = step {
        let sent = job.sent[job.answers.len()].clone();
        step = job.answer(lingva_body(&sent));
        requests += 1;
    }
    assert_eq!(requests, 2);
    assert_eq!(done(step).texts, texts);
}

#[test]
fn translations_go_to_their_places() {
    let texts = strings(&["1", "Hello", "a_b c", "World"]);
    let codes = vec![vec![], strings(&["a_b"]), vec![]];
    let (out, lost) = restore_all(&texts, &[1, 2, 3], &codes, &strings(&["A", "__PH_0__ C"]));
    assert_eq!(out, ["1", "A", "a_b C", "World"]);
    assert!(!lost);
    let (out, lost) = restore_all(&texts, &[1, 2, 3], &codes, &strings(&["A", "C", "B"]));
    assert_eq!(out, ["1", "A", "a_b c", "B"]);
    assert!(lost);
}

#[test]
fn warning_is_given_once() {
    assert_eq!(warn_once(false, "no network").unwrap(), "WARNING: no network");
    assert!(warn_once(true, "no network").is_none());
}

#[test]
fn job_comes_to_its_end() {
    let config = TranslationConfig::new("vi", "google", false);
    let texts: Vec<String> = (0..20).map(|i| format!("text number {i}")).collect();
    let mut step = translate_texts(texts, &config);
    let mut requests = 0;
    while let TextsStep::Ask(job) = step {
        step = job.answer(gtx_body("mangled"));
        requests += 1;
        assert!(requests < 100);
    }
    assert_eq!(requests, 23);
    assert_eq!(done(step).texts, ["mangled"; 20]);
}
