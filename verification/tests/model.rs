use spam_filter::{
    classify_ratings, parse_label, ClassifiedType, Counter, ExampleType, Model, Rating, TrainExample,
};

fn odds(spam: u64, ham: u64) -> Rating {
    Rating { spam_count: spam, spam_total: 1, ham_count: ham, ham_total: 1 }
}

fn combine(ratings: &[Rating]) -> f64 {
    if ratings.is_empty() {
        return 0.0;
    }
    let mut product = 1.0f64;
    let mut alt_product = 1.0f64;
    for r in ratings {
        let spam_rate = r.spam_count as f64 / r.spam_total as f64;
        let ham_rate = r.ham_count as f64 / r.ham_total as f64;
        let p = spam_rate / (ham_rate + spam_rate);
        product *= p;
        alt_product *= 1.0 - p;
    }
    product / (product + alt_product)
}

fn record(label: &str, text: &str) -> TrainExample {
    TrainExample { label: label.to_string(), text: text.to_string() }
}

#[test]
fn empty_text_has_no_ratings_and_scores_zero() {
    let mut model = Model::new();
    assert!(model.retained_ratings("").is_empty());
    model.train(ExampleType::Spam, "buy viagra now");
    let ratings = model.retained_ratings("");
    assert!(ratings.is_empty());
    assert_eq!(combine(&ratings), 0.0);
}

#[test]
fn untrained_model_rates_every_token_one_half() {
    let model = Model::new();
    let ratings = model.retained_ratings("any text at all");
    assert_eq!(ratings, vec![odds(1, 1); 4]);
    assert_eq!(combine(&ratings), 0.5);
}

#[test]
fn spam_exclusive_tokens_score_as_spam() {
    let mut model = Model::new();
    model.train(ExampleType::Spam, "buy viagra now");
    model.train(ExampleType::Ham, "meeting notes attached");
    let ratings = model.retained_ratings("buy now");
    assert_eq!(ratings, vec![odds(99, 1), odds(99, 1)]);
    let score = combine(&ratings);
    assert!(score > 0.8);
    assert!(score <= 1.0);
}

#[test]
fn ham_exclusive_tokens_rate_low() {
    let mut model = Model::new();
    model.train(ExampleType::Spam, "buy viagra now");
    model.train(ExampleType::Ham, "meeting notes attached");
    assert_eq!(model.rate_words("Meeting notes"), vec![odds(1, 99), odds(1, 99)]);
    assert_eq!(model.rate_words("unknown"), vec![odds(1, 1)]);
}

#[test]
fn mixed_tokens_are_rated_by_class_rates() {
    let mut model = Model::new();
    model.train(ExampleType::Spam, "free free free money");
    model.train(ExampleType::Ham, "free lunch");
    // free: spam 3 of 4, ham 1 of 2
    assert_eq!(model.lookup(&"free".to_string()), Counter { ham: 1, spam: 3 });
    assert_eq!(
        model.rate_words("free"),
        vec![Rating { spam_count: 3, spam_total: 4, ham_count: 1, ham_total: 2 }]
    );
    assert!(matches!(model.classify("free"), ClassifiedType::Ham(_)));
    assert!(matches!(model.classify("free money"), ClassifiedType::Spam(_)));
    assert_eq!(model.rate_words("money lunch"), vec![odds(99, 1), odds(1, 99)]);
}

#[test]
fn training_grows_totals_by_the_number_of_tokens() {
    let mut model = Model::new();
    assert_eq!(model.spam_total_count(), 0);
    assert_eq!(model.ham_total_count(), 0);
    model.train(ExampleType::Spam, "buy buy now");
    assert_eq!(model.spam_total_count(), 3);
    assert_eq!(model.ham_total_count(), 0);
    model.train(ExampleType::Ham, "see you now, now");
    assert_eq!(model.spam_total_count(), 3);
    assert_eq!(model.ham_total_count(), 4);
    model.train(ExampleType::Ham, "");
    assert_eq!(model.spam_total_count() + model.ham_total_count(), 7);
    assert_eq!(model.lookup(&"now".to_string()), Counter { ham: 2, spam: 1 });
    assert_eq!(model.lookup(&"buy".to_string()), Counter { ham: 0, spam: 2 });
}

#[test]
fn train_tokens_counts_each_token() {
    let mut model = Model::new();
    let tokens = vec!["a".to_string(), "b".to_string(), "a".to_string()];
    model.train_tokens(ExampleType::Ham, &tokens);
    assert_eq!(model.lookup(&"a".to_string()), Counter { ham: 2, spam: 0 });
    assert_eq!(model.lookup(&"b".to_string()), Counter { ham: 1, spam: 0 });
    assert_eq!(model.lookup(&"c".to_string()), Counter { ham: 0, spam: 0 });
}

#[test]
fn try_train_trains_and_says_so() {
    let mut model = Model::new();
    assert!(model.try_train(ExampleType::Spam, "win money"));
    assert_eq!(model.spam_total_count(), 2);
    assert_eq!(model.lookup(&"win".to_string()), Counter { ham: 0, spam: 1 });
}

#[test]
fn reading_twice_gives_the_same_ratings() {
    let mut model = Model::new();
    model.train(ExampleType::Spam, "buy viagra now");
    model.train(ExampleType::Ham, "buy notes now");
    let first = model.retained_ratings("buy viagra notes now please");
    let second = model.retained_ratings("buy viagra notes now please");
    assert_eq!(first, second);
}

#[test]
fn long_messages_are_trimmed_to_twenty_ratings() {
    let mut model = Model::new();
    model.train(ExampleType::Spam, "s");
    model.train(ExampleType::Ham, "h");
    let twenty = "s s s s s s s s s s n n n n n n n n n n";
    assert_eq!(model.retained_ratings(twenty).len(), 20);
    assert_eq!(model.retained_ratings(twenty), model.rate_words(twenty));
    let long = "n s n h n s n h n s n h n s n h n s n h n s n h n s n h n s n h n s n h n s n h";
    let kept = model.retained_ratings(long);
    let mut expected = vec![odds(1, 99); 10];
    expected.extend(vec![odds(99, 1); 10]);
    assert_eq!(kept, expected);
    assert!((combine(&kept) - 0.5).abs() < 1e-9);
}

#[test]
fn labels_are_spam_and_ham_only() {
    assert_eq!(parse_label("spam"), Some(ExampleType::Spam));
    assert_eq!(parse_label("ham"), Some(ExampleType::Ham));
    assert_eq!(parse_label("unknown"), None);
    assert_eq!(parse_label("Spam"), None);
    assert_eq!(parse_label(""), None);
}

#[test]
fn bulk_training_skips_unknown_labels() {
    let mut model = Model::new();
    model.train_bulk(&vec![record("unknown", "x")]);
    assert_eq!(model.lookup(&"x".to_string()), Counter { ham: 0, spam: 0 });
    assert_eq!(model.spam_total_count() + model.ham_total_count(), 0);
}

#[test]
fn bulk_training_applies_records_in_order() {
    let mut model = Model::new();
    model.train_bulk(&vec![
        record("spam", "buy x now"),
        record("unknown", "x"),
        record("ham", "x y"),
        record("spam", ""),
    ]);
    assert_eq!(model.lookup(&"x".to_string()), Counter { ham: 1, spam: 1 });
    assert_eq!(model.lookup(&"y".to_string()), Counter { ham: 1, spam: 0 });
    assert_eq!(model.spam_total_count(), 3);
    assert_eq!(model.ham_total_count(), 2);
}

#[test]
fn empty_text_is_ham_with_score_zero() {
    let mut model = Model::new();
    model.train(ExampleType::Spam, "buy viagra now");
    match model.classify("") {
        ClassifiedType::Ham(ratings) => {
            assert!(ratings.is_empty());
            assert_eq!(combine(&ratings), 0.0);
        }
        ClassifiedType::Spam(_) => panic!("an empty text is ham"),
    }
    match Model::new().classify("") {
        ClassifiedType::Ham(ratings) => assert!(ratings.is_empty()),
        ClassifiedType::Spam(_) => panic!("an empty text is ham"),
    }
}

#[test]
fn buy_now_is_spam_after_training() {
    let mut model = Model::new();
    model.train(ExampleType::Spam, "buy viagra now");
    model.train(ExampleType::Ham, "meeting notes attached");
    match model.classify("buy now") {
        ClassifiedType::Spam(ratings) => {
            assert_eq!(ratings, vec![odds(99, 1), odds(99, 1)]);
            assert!(combine(&ratings) > 0.8);
        }
        ClassifiedType::Ham(_) => panic!("spam-exclusive tokens make spam"),
    }
    assert!(matches!(model.classify("meeting notes"), ClassifiedType::Ham(_)));
    assert!(matches!(model.classify("something else"), ClassifiedType::Ham(_)));
}

#[test]
fn untrained_model_calls_everything_ham() {
    let model = Model::new();
    match model.classify("buy viagra now") {
        ClassifiedType::Ham(ratings) => assert_eq!(combine(&ratings), 0.5),
        ClassifiedType::Spam(_) => panic!("one half does not exceed the threshold"),
    }
}

#[test]
fn classifying_twice_gives_the_same_outcome() {
    let mut model = Model::new();
    model.train(ExampleType::Spam, "buy viagra now");
    model.train(ExampleType::Ham, "buy notes now");
    let first = model.classify("buy viagra notes");
    let second = model.classify("buy viagra notes");
    match (first, second) {
        (ClassifiedType::Spam(a), ClassifiedType::Spam(b)) => assert_eq!(a, b),
        (ClassifiedType::Ham(a), ClassifiedType::Ham(b)) => assert_eq!(a, b),
        _ => panic!("the label changed between two readings"),
    }
}

#[test]
fn threshold_is_strict_at_four_to_one() {
    // odds 4 to 1 are the score 8/10 exactly, which does not exceed the threshold
    assert!(matches!(classify_ratings(vec![odds(4, 1)]), ClassifiedType::Ham(_)));
    assert!(matches!(classify_ratings(vec![odds(2, 1), odds(2, 1)]), ClassifiedType::Ham(_)));
    assert!(matches!(classify_ratings(vec![odds(401, 100)]), ClassifiedType::Spam(_)));
    assert!(matches!(classify_ratings(vec![odds(5, 1), odds(1, 1)]), ClassifiedType::Spam(_)));
    assert!(matches!(classify_ratings(vec![odds(99, 1), odds(1, 99)]), ClassifiedType::Ham(_)));
    assert!(matches!(classify_ratings(vec![]), ClassifiedType::Ham(_)));
}

#[test]
fn threshold_is_exact_for_products_beyond_machine_words() {
    let big = u64::MAX;
    // spam product big^20 * 5, ham product big^20: odds 5 to 1
    let mut ratings = vec![odds(big, big); 20];
    ratings.push(odds(5, 1));
    assert!(matches!(classify_ratings(ratings), ClassifiedType::Spam(_)));
    let mut ratings = vec![odds(big, big); 20];
    ratings.push(odds(4, 1));
    assert!(matches!(classify_ratings(ratings), ClassifiedType::Ham(_)));
    // twenty ratings of 99/100 against none: far above
    assert!(matches!(classify_ratings(vec![odds(99, 1); 20]), ClassifiedType::Spam(_)));
    assert!(matches!(classify_ratings(vec![odds(1, 99); 20]), ClassifiedType::Ham(_)));
    // big^2 to 4 * big^2 - 1 ... just above and just below four to one
    assert!(matches!(
        classify_ratings(vec![odds(big, big - 1), odds(4, 1)]),
        ClassifiedType::Spam(_)
    ));
    assert!(matches!(
        classify_ratings(vec![odds(big - 1, big), odds(4, 1)]),
        ClassifiedType::Ham(_)
    ));
}

#[test]
fn many_distinct_tokens_are_found_again() {
    let mut model = Model::new();
    let mut tokens = Vec::new();
    for i in 0..2000u32 {
        tokens.push(format!("w{}", i));
    }
    model.train_tokens(ExampleType::Spam, &tokens);
    model.train_tokens(ExampleType::Ham, &tokens[..1000].to_vec());
    assert_eq!(model.spam_total_count(), 2000);
    assert_eq!(model.ham_total_count(), 1000);
    assert_eq!(model.lookup(&"w0".to_string()), Counter { ham: 1, spam: 1 });
    assert_eq!(model.lookup(&"w999".to_string()), Counter { ham: 1, spam: 1 });
    assert_eq!(model.lookup(&"w1000".to_string()), Counter { ham: 0, spam: 1 });
    assert_eq!(model.lookup(&"w2000".to_string()), Counter { ham: 0, spam: 0 });
    assert_eq!(
        model.rate_words("w5 w1500 w2500"),
        vec![
            Rating { spam_count: 1, spam_total: 2000, ham_count: 1, ham_total: 1000 },
            odds(99, 1),
            odds(1, 1),
        ]
    );
}
