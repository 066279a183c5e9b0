use spam_filter::tokenizer::{break_words, normalize_word, normalize_words};

#[test]
fn empty_text_has_no_tokens() {
    assert!(break_words("").is_empty());
}

#[test]
fn punctuation_and_spaces_alone_have_no_tokens() {
    assert!(break_words("  ... !!! ,, ").is_empty());
}

#[test]
fn words_are_split_and_lower_cased() {
    assert_eq!(break_words("Hello, WORLD!"), vec!["hello".to_string(), "world".to_string()]);
}

#[test]
fn repeated_words_are_kept() {
    assert_eq!(
        break_words("now NOW now"),
        vec!["now".to_string(), "now".to_string(), "now".to_string()]
    );
}

#[test]
fn russian_words_are_stemmed() {
    assert_eq!(normalize_word("кошки"), "кошк");
    assert_eq!(normalize_word("кошка"), "кошк");
    assert_eq!(normalize_word("письма"), "письм");
}

#[test]
fn russian_words_are_lower_cased_before_stemming() {
    assert_eq!(normalize_word("КОШКИ"), "кошк");
    assert_eq!(normalize_word("Встреча"), "встреч");
}

#[test]
fn two_forms_of_one_word_are_one_token() {
    let tokens = break_words("кошка кошки");
    assert_eq!(tokens.len(), 2);
    assert_eq!(tokens[0], tokens[1]);
}

#[test]
fn normalize_words_keeps_order() {
    let words = vec!["Деньги".to_string(), "Buy".to_string(), "деньги".to_string()];
    assert_eq!(
        normalize_words(&words),
        vec!["деньг".to_string(), "buy".to_string(), "деньг".to_string()]
    );
}
