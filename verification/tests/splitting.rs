use dedoc_translate::batch::split_into_batches;
use dedoc_translate::search::split_lines;
use dedoc_translate::split::split_long_text;
use dedoc_translate::text::looks_translatable;

fn strings(texts: &[&str]) -> Vec<String> {
    texts.iter().map(|text| text.to_string()).collect()
}

#[test]
fn short_text_is_one_chunk() {
    assert_eq!(split_long_text("Hello. World.", 13), ["Hello. World."]);
    assert_eq!(split_long_text("  spaced  ", 10), ["  spaced  "]);
    assert_eq!(split_long_text("", 0), [""]);
}

#[test]
fn long_text_is_cut_behind_sentences() {
    let text = "Hello. World foo. Bar";
    assert_eq!(split_long_text(text, 10), ["Hello.", "World foo.", "Bar"]);
    assert_eq!(split_long_text(text, 20), ["Hello. World foo.", "Bar"]);
    assert_eq!(split_long_text("Eh? Oh! Ah. Uh", 8), ["Eh? Oh!", "Ah. Uh"]);
}

#[test]
fn long_text_is_cut_at_newlines() {
    assert_eq!(split_long_text("a\n\n\nb", 3), ["a b"]);
    assert_eq!(split_long_text("one\ntwo\n", 5), ["one", "two"]);
    assert_eq!(split_long_text("one. \n\n two", 5), ["one.", "two"]);
}

#[test]
fn full_stop_within_a_word_does_not_cut() {
    assert_eq!(split_long_text("3.14 is pi", 5), ["3.14 ", "is pi"]);
}

#[test]
fn oversized_piece_is_cut_by_length() {
    assert_eq!(split_long_text("abcdefg", 3), ["abc", "def", "g"]);
    assert_eq!(split_long_text("x. yyyyyy z", 4), ["x.", "yyyy", "yy z"]);
    assert_eq!(split_long_text("     ", 2), ["  ", "  ", " "]);
    assert_eq!(split_long_text("ăâđêôơư", 4), ["ăâđê", "ôơư"]);
}

#[test]
fn chunks_fit_and_keep_what_is_not_white_space() {
    let text = "One two. Three\nfour five six seven! Eight?nine ten.\n\neleven";
    for max_chars in 1..40 {
        let chunks = split_long_text(text, max_chars);
        assert!(chunks.iter().all(|chunk| chunk.chars().count() <= max_chars));
        let kept: String = chunks.concat().chars().filter(|c| !c.is_whitespace()).collect();
        let wanted: String = text.chars().filter(|c| !c.is_whitespace()).collect();
        assert_eq!(kept, wanted);
    }
}

#[test]
fn batches_hold_eight_texts() {
    let texts = strings(&["t"; 17]);
    let batches = split_into_batches(&texts);
    assert_eq!(batches, vec![(0..8).collect::<Vec<usize>>(), (8..16).collect(), vec![16]]);
}

#[test]
fn batches_hold_three_thousand_characters() {
    let long = "x".repeat(2998);
    assert_eq!(split_into_batches(&strings(&[&long, "a", "b"])), vec![vec![0, 1], vec![2]]);
    let longer = "x".repeat(2999);
    assert_eq!(split_into_batches(&strings(&[&longer, "a"])), vec![vec![0], vec![1]]);
    let huge = "x".repeat(4000);
    assert_eq!(split_into_batches(&strings(&["a", &huge, "b"])), vec![vec![0], vec![1], vec![2]]);
}

#[test]
fn no_texts_make_no_batches() {
    assert!(split_into_batches(&[]).is_empty());
}

#[test]
fn every_text_is_in_one_batch() {
    let texts: Vec<String> = (0..40).map(|i: usize| "y".repeat(i * 37 % 1500)).collect();
    let batches = split_into_batches(&texts);
    assert_eq!(batches.concat(), (0..40).collect::<Vec<usize>>());
    for batch in batches {
        let joined: Vec<&str> = batch.iter().map(|&i| texts[i].as_str()).collect();
        assert!(batch.len() <= 8);
        assert!(joined.join("\n").chars().count() <= 3000);
    }
}

#[test]
fn text_without_a_letter_is_not_translatable() {
    assert!(looks_translatable("ab"));
    assert!(looks_translatable("é"));
    assert!(looks_translatable("\t1 a\n"));
    assert!(!looks_translatable("a"));
    assert!(!looks_translatable(" a "));
    assert!(!looks_translatable("12 - 34"));
    assert!(!looks_translatable(""));
    assert!(!looks_translatable("\u{3000}\u{a0}"));
}

#[test]
fn all_white_space_is_trimmed() {
    for c in "\t\n\u{b}\u{c}\r \u{85}\u{a0}\u{1680}\u{2000}\u{200a}\u{2028}\u{2029}\u{202f}\u{205f}\u{3000}".chars() {
        assert!(!looks_translatable(&format!("{c}a{c}")));
        assert_eq!(split_long_text(&format!("{c}{c}abc.{c}d"), 4), ["abc.", "d"]);
    }
    assert!(looks_translatable("\u{200b}a"));
}

#[test]
fn joined_lines_come_back() {
    let lines = strings(&["one", "", "three"]);
    assert_eq!(split_lines(&lines.join("\n")), lines);
    assert_eq!(split_lines(""), [""]);
    assert_eq!(split_lines("\n"), ["", ""]);
}
