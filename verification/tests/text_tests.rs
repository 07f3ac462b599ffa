use n_gram::{cut, eos, is_whitespace, n_grams, sos, tiny_corpus, tokenize, EOS, SOS};

fn words(items: &[&str]) -> Vec<String> {
    items.iter().map(|w| w.to_string()).collect()
}

#[test]
fn tokenize_splits_on_single_spaces() {
    assert_eq!(tokenize("Eat tasty cakes".to_string()), words(&["Eat", "tasty", "cakes"]));
}

#[test]
fn tokenize_drops_empty_fragments() {
    assert_eq!(tokenize("  a \t\n b   c  ".to_string()), words(&["a", "b", "c"]));
}

#[test]
fn tokenize_of_empty_text_is_empty() {
    assert_eq!(tokenize(String::new()), Vec::<String>::new());
}

#[test]
fn tokenize_of_whitespace_only_is_empty() {
    assert_eq!(tokenize(" \t\r\n\u{00A0}\u{3000}".to_string()), Vec::<String>::new());
}

#[test]
fn tokenize_keeps_case_and_punctuation() {
    assert_eq!(
        tokenize("The quick, brown FOX.".to_string()),
        words(&["The", "quick,", "brown", "FOX."])
    );
}

#[test]
fn tokenize_splits_on_unicode_whitespace() {
    assert_eq!(
        tokenize("a\u{00A0}b\u{3000}c\u{2003}d\u{0085}e\u{1680}f".to_string()),
        words(&["a", "b", "c", "d", "e", "f"])
    );
}

#[test]
fn tokenize_keeps_zero_width_space_inside_a_token() {
    assert_eq!(tokenize("a\u{200B}b \u{180E}c".to_string()), words(&["a\u{200B}b", "\u{180E}c"]));
}

#[test]
fn tokenize_single_word() {
    assert_eq!(tokenize("word".to_string()), words(&["word"]));
}

#[test]
fn tokenize_handles_multibyte_tokens() {
    assert_eq!(tokenize("héllo wörld 日本語".to_string()), words(&["héllo", "wörld", "日本語"]));
}

#[test]
fn tokenize_agrees_with_split_whitespace() {
    let samples = [
        "",
        " ",
        "a",
        " a",
        "a ",
        "a  b",
        "\u{2028}x\u{2029}y\u{202F}z\u{205F}w",
        "tab\tseparated\u{000B}vertical\u{000C}feed\rreturn",
        "\u{001C}not\u{001F}space",
        "The quick brown fox jumps over the lazy dog.",
    ];
    for sample in samples {
        let expected: Vec<String> = sample.split_whitespace().map(|t| t.to_string()).collect();
        assert_eq!(tokenize(sample.to_string()), expected);
    }
}

#[test]
fn is_whitespace_agrees_with_std_on_every_char() {
    let mut code: u32 = 0;
    while code <= 0x10FFFF {
        if let Some(c) = char::from_u32(code) {
            assert_eq!(is_whitespace(c), c.is_whitespace());
        }
        code += 1;
    }
}

#[test]
fn sos_prepends_the_start_marker() {
    assert_eq!(sos(words(&["a", "b"])), words(&["__sos__", "a", "b"]));
    assert_eq!(sos(Vec::new()), words(&[SOS]));
}

#[test]
fn eos_appends_the_end_marker() {
    assert_eq!(eos(words(&["a", "b"])), words(&["a", "b", "__eos__"]));
    assert_eq!(eos(Vec::new()), words(&[EOS]));
}

#[test]
fn markers_wrap_a_sentence() {
    assert_eq!(
        sos(eos(tokenize("The quick".to_string()))),
        words(&["__sos__", "The", "quick", "__eos__"])
    );
}

#[test]
fn n_grams_of_three_tokens_are_two_bigrams() {
    let grams = n_grams(words(&["Eat", "tasty", "cakes"]), 2);
    assert_eq!(
        grams,
        vec![
            (words(&["Eat"]), "tasty".to_string()),
            (words(&["tasty"]), "cakes".to_string()),
        ]
    );
}

#[test]
fn n_grams_follow_tokenize() {
    let grams = n_grams(tokenize("Eat tasty cakes".to_string()), 2);
    assert_eq!(
        grams,
        vec![
            (words(&["Eat"]), "tasty".to_string()),
            (words(&["tasty"]), "cakes".to_string()),
        ]
    );
}

#[test]
fn n_grams_with_a_window_of_the_whole_sequence() {
    let grams = n_grams(words(&["a", "b", "c"]), 3);
    assert_eq!(grams, vec![(words(&["a", "b"]), "c".to_string())]);
}

#[test]
fn n_grams_with_a_window_of_one_have_empty_contexts() {
    let grams = n_grams(words(&["a", "b"]), 1);
    assert_eq!(grams, vec![(Vec::new(), "a".to_string()), (Vec::new(), "b".to_string())]);
}

#[test]
fn n_grams_trigrams() {
    let grams = n_grams(words(&["a", "b", "c", "d"]), 3);
    assert_eq!(
        grams,
        vec![(words(&["a", "b"]), "c".to_string()), (words(&["b", "c"]), "d".to_string())]
    );
}

#[test]
fn cut_keeps_the_most_recent_tokens() {
    assert_eq!(cut(words(&["a", "b", "c", "d"]), 2), words(&["c", "d"]));
}

#[test]
fn cut_keeps_short_sequences_whole() {
    assert_eq!(cut(words(&["a", "b"]), 2), words(&["a", "b"]));
    assert_eq!(cut(words(&["a"]), 2), words(&["a"]));
    assert_eq!(cut(Vec::new(), 2), Vec::<String>::new());
}

#[test]
fn cut_to_nothing() {
    assert_eq!(cut(words(&["a", "b"]), 0), Vec::<String>::new());
}

#[test]
fn tiny_corpus_has_all_its_sentences() {
    let corpus = tiny_corpus();
    assert_eq!(corpus.len(), 46);
    assert_eq!(corpus[0], "The quick brown fox jumps over the lazy dog.");
    assert_eq!(corpus[1], "A speedy red fox leaps above the tired hound.");
    assert_eq!(corpus[45], "An alert sandy-colored fox leaps above the slumbering pet.");
}
