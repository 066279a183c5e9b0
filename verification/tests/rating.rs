use spam_filter::rating::{keep_extremes, sort_ratings};
use spam_filter::{Counter, Rating};

fn odds(spam: u64, ham: u64) -> Rating {
    Rating { spam_count: spam, spam_total: 1, ham_count: ham, ham_total: 1 }
}

fn rates(spam_count: u64, spam_total: u64, ham_count: u64, ham_total: u64) -> Rating {
    Rating { spam_count, spam_total, ham_count, ham_total }
}

#[test]
fn spam_only_token_rates_99_in_100() {
    assert_eq!(Rating::rate(Counter { ham: 0, spam: 1 }, 1, 0), odds(99, 1));
    assert_eq!(Rating::rate(Counter { ham: 0, spam: 7 }, 50, 40), odds(99, 1));
}

#[test]
fn ham_only_token_rates_1_in_100() {
    assert_eq!(Rating::rate(Counter { ham: 1, spam: 0 }, 0, 1), odds(1, 99));
    assert_eq!(Rating::rate(Counter { ham: 9, spam: 0 }, 50, 40), odds(1, 99));
}

#[test]
fn unseen_token_rates_one_half() {
    assert_eq!(Rating::rate(Counter { ham: 0, spam: 0 }, 0, 0), odds(1, 1));
    assert_eq!(Rating::rate(Counter { ham: 0, spam: 0 }, 12, 30), odds(1, 1));
}

#[test]
fn mixed_token_is_rated_by_its_rates() {
    // spam rate 3/10, ham rate 1/5: 0.3 / (0.2 + 0.3) = 15 / 25
    let r = Rating::rate(Counter { ham: 1, spam: 3 }, 10, 5);
    assert_eq!(r, rates(3, 10, 1, 5));
    assert!(r.at_most(&odds(15, 10)) && odds(15, 10).at_most(&r));
    assert!(r.at_most(&odds(3, 2)) && odds(3, 2).at_most(&r));
    assert!(!r.at_most(&odds(149, 100)));
    assert!(!odds(151, 100).at_most(&r));
}

#[test]
fn mixed_token_is_floored_at_1_in_100() {
    // spam rate 1/1000, ham rate 1: below 1/100
    assert_eq!(Rating::rate(Counter { ham: 1000, spam: 1 }, 1000, 1000), odds(1, 99));
    // exactly 1/100 stays as computed
    assert_eq!(Rating::rate(Counter { ham: 99, spam: 1 }, 1, 1), odds(1, 99));
    assert_eq!(Rating::rate(Counter { ham: 98, spam: 1 }, 1, 1), rates(1, 1, 98, 1));
    assert_eq!(Rating::rate(Counter { ham: 100, spam: 1 }, 1, 1), odds(1, 99));
    // spam rate 1/3, ham rate 33/1: 1 to 99 exactly; one more ham falls below
    assert_eq!(Rating::rate(Counter { ham: 33, spam: 1 }, 3, 1), rates(1, 3, 33, 1));
    assert_eq!(Rating::rate(Counter { ham: 34, spam: 1 }, 3, 1), odds(1, 99));
}

#[test]
fn largest_counts_do_not_overflow() {
    let m = u64::MAX;
    let r = Rating::rate(Counter { ham: m, spam: m }, m, m);
    assert_eq!(r, rates(m, m, m, m));
    assert!(r.at_most(&odds(1, 1)) && odds(1, 1).at_most(&r));
    let low = Rating::rate(Counter { ham: m, spam: 1 }, m, m);
    assert_eq!(low, odds(1, 99));
    let high = Rating::rate(Counter { ham: 1, spam: m }, m, m);
    assert_eq!(high, rates(m, m, 1, m));
    assert!(r.at_most(&high) && !high.at_most(&r));
    // a smaller spam total is a higher spam rate
    assert!(rates(m, m, m, m).at_most(&rates(m, m - 1, m, m)));
    assert!(!rates(m, m - 1, m, m).at_most(&rates(m, m, m, m)));
}

#[test]
fn ratings_compare_by_probability() {
    assert!(odds(1, 99).at_most(&odds(1, 1)));
    assert!(odds(1, 1).at_most(&odds(99, 1)));
    assert!(!odds(99, 1).at_most(&odds(1, 1)));
    assert!(odds(2, 2).at_most(&odds(1, 1)) && odds(1, 1).at_most(&odds(2, 2)));
    assert!(odds(u64::MAX, 1).at_most(&odds(u64::MAX, 1)));
    assert!(!odds(u64::MAX, 1).at_most(&odds(1, u64::MAX)));
}

#[test]
fn sorting_ascends_and_is_stable() {
    let v = vec![odds(99, 1), odds(2, 2), odds(1, 99), odds(1, 1), odds(15, 10)];
    assert_eq!(
        sort_ratings(&v),
        vec![odds(1, 99), odds(2, 2), odds(1, 1), odds(15, 10), odds(99, 1)]
    );
}

#[test]
fn twenty_ratings_are_all_kept_in_order() {
    let mut v = Vec::new();
    for i in 0..20u64 {
        v.push(odds(20 - i, 1));
    }
    assert_eq!(keep_extremes(v.clone()), v);
}

#[test]
fn twenty_one_ratings_lose_the_middle_one() {
    let mut v = Vec::new();
    for i in 0..21u64 {
        v.push(odds(21 - i, 1));
    }
    let kept = keep_extremes(v);
    let mut expected = Vec::new();
    for i in 1..=21u64 {
        if i != 11 {
            expected.push(odds(i, 1));
        }
    }
    assert_eq!(kept, expected);
}

#[test]
fn long_lists_keep_ten_lowest_and_ten_highest() {
    let mut v = Vec::new();
    for i in 0..100u64 {
        v.push(odds((i * 37) % 100 + 1, 1));
    }
    let kept = keep_extremes(v);
    let mut expected = Vec::new();
    for i in 1..=10u64 {
        expected.push(odds(i, 1));
    }
    for i in 91..=100u64 {
        expected.push(odds(i, 1));
    }
    assert_eq!(kept, expected);
}
