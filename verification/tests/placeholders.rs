use dedoc_translate::error::TranslationError;
use dedoc_translate::pattern::{find_code, find_tokens, is_token};
use dedoc_translate::placeholder::{normalise, protect, protect_spans, restore};

fn strings(texts: &[&str]) -> Vec<String> {
    texts.iter().map(|text| text.to_string()).collect()
}

#[test]
fn code_is_hidden() {
    let text = "See https://example.com/a for HashMap and a::b or foo() in src/main.rs, \
                Vec<T> my_var README";
    let (protected, codes) = protect(text);
    assert_eq!(
        protected,
        "See __PH_0__ for __PH_1__ and __PH_2__ or __PH_3__ in __PH_4__, \
         __PH_5__ __PH_6__ __PH_7__"
    );
    assert_eq!(
        codes,
        [
            "https://example.com/a",
            "HashMap",
            "a::b",
            "foo()",
            "src/main.rs",
            "Vec<T>",
            "my_var",
            "README",
        ]
    );
}

#[test]
fn inline_code_flags_and_mail_are_hidden() {
    let (protected, codes) = protect("Run `cargo build` with --release, ask me@example.com");
    assert_eq!(protected, "Run __PH_0__ with __PH_1__, ask __PH_2__");
    assert_eq!(codes, ["`cargo build`", "--release", "me@example.com"]);
}

#[test]
fn words_are_not_hidden() {
    let text = "Plain words, 12 of them: \u{111}\u{1eb9}p.";
    let (protected, codes) = protect(text);
    assert_eq!(protected, text);
    assert!(codes.is_empty());
}

#[test]
fn token_in_the_text_is_not_hidden() {
    let (protected, codes) = protect("Token __PH_7__ and a_b");
    assert_eq!(protected, "Token __PH_7__ and __PH_0__");
    assert_eq!(codes, ["a_b"]);
}

#[test]
fn code_is_found_by_position() {
    assert_eq!(find_code("\u{111}\u{111} a_b \u{111} c::d"), [(3, 6), (9, 13)]);
    assert!(find_code("nothing").is_empty());
}

#[test]
fn tokens_are_told_from_other_text() {
    assert!(is_token("__PH_0__"));
    assert!(is_token("__PH_120__"));
    assert!(is_token("__PH_\u{663}__"));
    assert!(!is_token("__PH___"));
    assert!(!is_token("__PH_1_"));
    assert!(!is_token(" __PH_1__"));
    assert!(!is_token("__PH_1__\n"));
    assert!(!is_token("__ph_1__"));
}

#[test]
fn given_stretches_are_hidden() {
    let (protected, codes) = protect_spans("\u{111}bcdef", &[(1, 3), (5, 6)]);
    assert_eq!(protected, "\u{111}__PH_0__de__PH_1__");
    assert_eq!(codes, ["bc", "f"]);
}

#[test]
fn many_pieces_of_code_are_numbered() {
    let text = (0..12).map(|i| format!("v_{i}")).collect::<Vec<_>>().join(" ");
    let (protected, codes) = protect(&text);
    assert!(protected.ends_with("__PH_9__ __PH_10__ __PH_11__"));
    assert_eq!(codes.len(), 12);
    assert_eq!(restore(&protected, &codes).unwrap(), text);
}

#[test]
fn changed_tokens_are_found() {
    let tokens = find_tokens("\u{e0} __ ph_ 12 __ x __PH_3__");
    assert_eq!(tokens.len(), 2);
    assert_eq!((tokens[0].start, tokens[0].end), (2, 14));
    assert_eq!((tokens[0].digits, tokens[0].digits_end), (9, 11));
    assert_eq!((tokens[1].start, tokens[1].end), (17, 25));
}

#[test]
fn changed_tokens_are_written_anew() {
    assert_eq!(normalise("a __ pH_\u{a0}07 __ b ___PH_1__"), "a __PH_07__ b ___PH_1__");
    assert_eq!(normalise("__PH _1__ __PH_x__"), "__PH _1__ __PH_x__");
}

#[test]
fn code_comes_back_in_any_order() {
    let codes = strings(&["`x`", "a_b"]);
    assert_eq!(restore("__PH_1__ then __PH_0__ and __PH_1__", &codes).unwrap(), "a_b then `x` and a_b");
}

#[test]
fn code_comes_back_from_changed_tokens() {
    let codes = strings(&["`cargo build`", "--release"]);
    let restored = restore("Ch\u{1ea1}y __ ph_0 __ v\u{1edb}i __Ph_ 1__", &codes);
    assert_eq!(restored.unwrap(), "Ch\u{1ea1}y `cargo build` v\u{1edb}i --release");
}

#[test]
fn lost_token_is_an_error() {
    let codes = strings(&["`x`", "a_b"]);
    assert!(matches!(restore("only __PH_0__", &codes), Err(TranslationError::PlaceholderMismatch)));
    assert!(matches!(restore("only __PH_1__", &codes), Err(TranslationError::PlaceholderMismatch)));
    assert!(matches!(restore("", &codes), Err(TranslationError::PlaceholderMismatch)));
}

#[test]
fn text_without_code_is_only_normalised() {
    assert_eq!(restore("plain", &[]).unwrap(), "plain");
    assert_eq!(restore("__ph_4__", &[]).unwrap(), "__PH_4__");
}

#[test]
fn protected_text_comes_back() {
    for text in [
        "Use `let x = 1;` and see https://doc.rust-lang.org/std/",
        "Call obj.method() on HashMap<K, V> in lib.rs --verbose",
        "no code at all",
        "",
        "\u{111}\u{1ecd}c std::fs::read \u{111}i",
    ] {
        let (protected, codes) = protect(text);
        assert_eq!(restore(&protected, &codes).unwrap(), text);
    }
}

#[test]
fn code_that_holds_a_token_is_not_hidden() {
    assert_eq!(protect("`__PH_0__`"), ("`__PH_0__`".to_string(), vec![]));
    assert_eq!(protect("a__PH_12__b"), ("a__PH_12__b".to_string(), vec![]));
    assert_eq!(protect_spans("x__PH_1__", &[(0, 9)]), ("x__PH_1__".to_string(), vec![]));
    assert_eq!(protect_spans("__PH_1_", &[(0, 7)]), ("__PH_0__".to_string(), strings(&["__PH_1_"])));
}

#[test]
fn text_with_a_token_in_code_comes_back() {
    let text = "`__PH_1__` a_b";
    let (protected, codes) = protect(text);
    assert_eq!(protected, "`__PH_1__` __PH_0__");
    assert_eq!(codes, ["a_b"]);
    assert_eq!(restore(&protected, &codes).unwrap(), text);
}

#[test]
fn code_that_spells_a_token_is_put_back_as_it_is() {
    let codes = strings(&["`__PH_1__`", "x"]);
    assert_eq!(restore("__PH_0__ __PH_1__", &codes).unwrap(), "`__PH_1__` x");
    assert_eq!(restore("__PH_1__ __ ph_0 __", &codes).unwrap(), "x `__PH_1__`");
}

#[test]
fn token_in_code_does_not_stand_for_a_lost_one() {
    let codes = strings(&["`__PH_1__`", "x"]);
    assert!(matches!(restore("__PH_0__", &codes), Err(TranslationError::PlaceholderMismatch)));
    let swapped = strings(&["x", "__PH_0__"]);
    assert!(matches!(restore("__PH_1__", &swapped), Err(TranslationError::PlaceholderMismatch)));
}

#[test]
fn number_that_stands_for_no_code_stays() {
    let codes = strings(&["a_b"]);
    assert_eq!(restore("__PH_0__ __ph_1__ __PH_00__", &codes).unwrap(), "a_b __PH_1__ __PH_00__");
    assert!(matches!(restore("__PH_00__", &codes), Err(TranslationError::PlaceholderMismatch)));
}

#[test]
fn token_that_shares_underscores_is_found() {
    let one = strings(&["foo()"]);
    assert_eq!(restore("__PH_1__PH_0__", &one).unwrap(), "__PH_1foo()");
    assert_eq!(restore("__ ph_1 __PH_0__ x", &one).unwrap(), "__PH_1foo() x");
    assert_eq!(restore("__PH_0___PH_0__", &one).unwrap(), "foo()_PH_0__");
}

#[test]
fn first_number_takes_shared_underscores() {
    let two = strings(&["a", "b"]);
    assert!(matches!(restore("__PH_0__PH_1__", &two), Err(TranslationError::PlaceholderMismatch)));
    assert!(matches!(restore("__PH_1__PH_0__", &two), Err(TranslationError::PlaceholderMismatch)));
    assert_eq!(restore("__PH_0__PH_1__ __PH_1__", &two).unwrap(), "aPH_1__ b");
    assert_eq!(restore("__PH_1__PH_0__ __PH_1__", &two).unwrap(), "__PH_1a b");
}
