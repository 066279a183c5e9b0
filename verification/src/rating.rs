//! Word ratings as exact odds, their order, and the trimming of long messages.
use crate::natural::{one, relate, times, value, Relation};
use crate::table::{Counter, Counts};
use vstd::prelude::*;

verus! {

/// How many ratings are kept from each end of a long message.
pub const KEPT_PER_END: usize = 10;

/// The longest list of ratings that is combined untrimmed.
pub const MAX_COMBINED: usize = 20;

/// The estimated probability that a token indicates spam, held exactly as two
/// rates: `spam_count / spam_total` and `ham_count / ham_total`. The probability
/// is `spam_rate / (spam_rate + ham_rate)`, which equals
/// `spam_weight / (spam_weight + ham_weight)`.
#[derive(Clone, Copy, Debug, PartialEq, Eq, Structural)]
pub struct Rating {
    pub spam_count: u64,
    pub spam_total: u64,
    pub ham_count: u64,
    pub ham_total: u64,
}

impl Rating {
    /// All four numbers are positive, so the probability lies strictly between 0 and 1.
    pub open spec fn wf(self) -> bool {
        self.spam_count > 0 && self.spam_total > 0 && self.ham_count > 0 && self.ham_total > 0
    }

    /// The weight of spam in the odds: the spam rate, cleared of both denominators.
    pub open spec fn spam_weight(self) -> nat {
        self.spam_count as nat * self.ham_total as nat
    }

    /// The weight of ham in the odds: the ham rate, cleared of both denominators.
    pub open spec fn ham_weight(self) -> nat {
        self.ham_count as nat * self.spam_total as nat
    }

    /// The probability's numerator.
    pub open spec fn numerator(self) -> nat {
        self.spam_weight()
    }

    /// The probability's denominator.
    pub open spec fn denominator(self) -> nat {
        self.spam_weight() + self.ham_weight()
    }

    /// The probability 99/100 of a token seen in spam only.
    pub open spec fn spam_only() -> Rating {
        Rating { spam_count: 99, spam_total: 1, ham_count: 1, ham_total: 1 }
    }

    /// The probability 1/100 of a token seen in ham only; also the floor of every rating.
    pub open spec fn ham_only() -> Rating {
        Rating { spam_count: 1, spam_total: 1, ham_count: 99, ham_total: 1 }
    }

    /// The probability 1/2 of a token that says nothing.
    pub open spec fn neutral() -> Rating {
        Rating { spam_count: 1, spam_total: 1, ham_count: 1, ham_total: 1 }
    }

    /// `self`'s probability is at most `other`'s.
    pub open spec fn le(self, other: Rating) -> bool {
        self.spam_weight() * other.ham_weight() <= other.spam_weight() * self.ham_weight()
    }

    /// The rating of a token with counts `c` in a table with the given totals.
    ///
    /// With both counts positive and both totals positive the probability is
    /// `spam_rate / (ham_rate + spam_rate)`, where `spam_rate = c.spam / spam_total`
    /// and `ham_rate = c.ham / ham_total`, and not less than 1/100.
    pub open spec fn of_counts(c: Counts, spam_total: nat, ham_total: nat) -> Rating {
        if c.spam > 0 && c.ham == 0 {
            Rating::spam_only()
        } else if c.spam == 0 && c.ham > 0 {
            Rating::ham_only()
        } else if c.spam > 0 && c.ham > 0 && spam_total > 0 && ham_total > 0 {
            if 99 * (c.spam * ham_total) < c.ham * spam_total {
                Rating::ham_only()
            } else {
                Rating {
                    spam_count: c.spam as u64,
                    spam_total: spam_total as u64,
                    ham_count: c.ham as u64,
                    ham_total: ham_total as u64,
                }
            }
        } else {
            Rating::neutral()
        }
    }

    /// Rates a token from its counter and the table's totals.
    pub fn rate(counter: Counter, spam_total: u64, ham_total: u64) -> (rating: Rating)
        ensures
            rating == Rating::of_counts(counter@, spam_total as nat, ham_total as nat),
            rating.wf(),
    {
        if counter.spam > 0 && counter.ham == 0 {
            Rating { spam_count: 99, spam_total: 1, ham_count: 1, ham_total: 1 }
        } else if counter.spam == 0 && counter.ham > 0 {
            Rating { spam_count: 1, spam_total: 1, ham_count: 99, ham_total: 1 }
        } else if counter.spam > 0 && counter.ham > 0 && spam_total > 0 && ham_total > 0 {
            let left = product_of_four(99, counter.spam, ham_total, 1);
            let right = product_of_four(counter.ham, spam_total, 1, 1);
            proof {
                let s = counter.spam as nat;
                let h = counter.ham as nat;
                let st = spam_total as nat;
                let ht = ham_total as nat;
                assert(99 * s * ht * 1 == 99 * (s * ht)) by (nonlinear_arith);
                assert(h * st * 1 * 1 == h * st) by (nonlinear_arith);
            }
            match relate(&left, &right) {
                Relation::Below => Rating {
                    spam_count: 1,
                    spam_total: 1,
                    ham_count: 99,
                    ham_total: 1,
                },
                _ => Rating {
                    spam_count: counter.spam,
                    spam_total,
                    ham_count: counter.ham,
                    ham_total,
                },
            }
        } else {
            Rating { spam_count: 1, spam_total: 1, ham_count: 1, ham_total: 1 }
        }
    }

    /// Whether all four numbers fit in 32 bits, so that products of four fit in 128.
    fn is_small(&self) -> (small: bool)
        ensures
            small == (self.spam_count <= 0xFFFF_FFFF && self.spam_total <= 0xFFFF_FFFF
                && self.ham_count <= 0xFFFF_FFFF && self.ham_total <= 0xFFFF_FFFF),
    {
        self.spam_count <= 0xFFFF_FFFF && self.spam_total <= 0xFFFF_FFFF && self.ham_count
            <= 0xFFFF_FFFF && self.ham_total <= 0xFFFF_FFFF
    }

    /// Whether `self`'s probability is at most `other`'s.
    pub fn at_most(&self, other: &Rating) -> (holds: bool)
        ensures
            holds == self.le(*other),
    {
        proof {
            lemma_regroup(
                self.spam_count as nat,
                self.ham_total as nat,
                other.ham_count as nat,
                other.spam_total as nat,
            );
            lemma_regroup(
                other.spam_count as nat,
                other.ham_total as nat,
                self.ham_count as nat,
                self.spam_total as nat,
            );
        }
        if self.is_small() && other.is_small() {
            proof {
                lemma_small_product(
                    self.spam_count as nat,
                    self.ham_total as nat,
                    other.ham_count as nat,
                    other.spam_total as nat,
                );
                lemma_small_product(
                    other.spam_count as nat,
                    other.ham_total as nat,
                    self.ham_count as nat,
                    self.spam_total as nat,
                );
            }
            let left: u128 = (self.spam_count as u128) * (self.ham_total as u128) * (
            other.ham_count as u128) * (other.spam_total as u128);
            let right: u128 = (other.spam_count as u128) * (other.ham_total as u128) * (
            self.ham_count as u128) * (self.spam_total as u128);
            left <= right
        } else {
            let left = product_of_four(
                self.spam_count,
                self.ham_total,
                other.ham_count,
                other.spam_total,
            );
            let right = product_of_four(
                other.spam_count,
                other.ham_total,
                self.ham_count,
                self.spam_total,
            );
            match relate(&left, &right) {
                Relation::Above => false,
                _ => true,
            }
        }
    }
}

proof fn lemma_small_product(a: nat, b: nat, c: nat, d: nat)
    requires
        a <= 0xFFFF_FFFF,
        b <= 0xFFFF_FFFF,
        c <= 0xFFFF_FFFF,
        d <= 0xFFFF_FFFF,
    ensures
        a * b <= 18446744065119617025,
        a * b * c <= 79228162458924105385300197375,
        a * b * c * d <= 340282366604025813516997721482669850625,
{
    assert(a * b <= 18446744065119617025) by (nonlinear_arith)
        requires
            a <= 0xFFFF_FFFF,
            b <= 0xFFFF_FFFF,
    ;
    let ab = a * b;
    assert(ab * c <= 79228162458924105385300197375) by (nonlinear_arith)
        requires
            ab <= 18446744065119617025,
            c <= 0xFFFF_FFFF,
    ;
    let abc = ab * c;
    assert(abc * d <= 340282366604025813516997721482669850625) by (nonlinear_arith)
        requires
            abc <= 79228162458924105385300197375,
            d <= 0xFFFF_FFFF,
    ;
}

proof fn lemma_regroup(a: nat, b: nat, c: nat, d: nat)
    ensures
        a * b * c * d == (a * b) * (c * d),
{
    assert(a * b * c * d == (a * b) * (c * d)) by (nonlinear_arith);
}

/// The product of four numbers, in five limbs.
pub fn product_of_four(a: u64, b: u64, c: u64, d: u64) -> (product: Vec<u64>)
    ensures
        value(product@) == a as nat * b as nat * c as nat * d as nat,
        product@.len() == 5,
{
    let p0 = one();
    let p1 = times(&p0, a);
    let p2 = times(&p1, b);
    let p3 = times(&p2, c);
    times(&p3, d)
}

/// Where `x` goes into an ascending list: behind every leading rating that is at most `x`.
pub open spec fn insert_index(s: Seq<Rating>, x: Rating) -> int
    decreases s.len(),
{
    if s.len() == 0 || !s[0].le(x) {
        0
    } else {
        1 + insert_index(s.skip(1), x)
    }
}

/// The ratings in ascending order of probability; equal ones keep their order.
pub open spec fn sorted_of(s: Seq<Rating>) -> Seq<Rating>
    decreases s.len(),
{
    if s.len() == 0 {
        Seq::empty()
    } else {
        let front = sorted_of(s.drop_last());
        front.insert(insert_index(front, s.last()), s.last())
    }
}

/// The ratings that are combined: all of them up to twenty, else the ten
/// lowest followed by the ten highest.
pub open spec fn retained(s: Seq<Rating>) -> Seq<Rating> {
    if s.len() > MAX_COMBINED {
        let sorted = sorted_of(s);
        sorted.take(KEPT_PER_END as int) + sorted.skip(sorted.len() - KEPT_PER_END)
    } else {
        s
    }
}

/// Every rating in the list has positive weights.
pub open spec fn all_wf(s: Seq<Rating>) -> bool {
    forall|i: int| 0 <= i < s.len() ==> (#[trigger] s[i]).wf()
}

/// Whether the list ascends: no rating's probability exceeds the next one's.
pub open spec fn ascending(s: Seq<Rating>) -> bool {
    forall|i: int, j: int| 0 <= i < j < s.len() ==> s[i].le(s[j])
}

/// The insertion index lies within the list or just behind it.
pub proof fn lemma_insert_index_range(s: Seq<Rating>, x: Rating)
    ensures
        0 <= insert_index(s, x) <= s.len(),
    decreases s.len(),
{
    if s.len() > 0 && s[0].le(x) {
        lemma_insert_index_range(s.skip(1), x);
    }
}

proof fn lemma_insert_index_is(s: Seq<Rating>, x: Rating, j: int)
    requires
        0 <= j <= s.len(),
        forall|k: int| 0 <= k < j ==> (#[trigger] s[k]).le(x),
        j == s.len() || !s[j].le(x),
    ensures
        insert_index(s, x) == j,
    decreases j,
{
    if j > 0 {
        let rest = s.skip(1);
        assert(s[0].le(x));
        assert forall|k: int| 0 <= k < j - 1 implies (#[trigger] rest[k]).le(x) by {
            assert(rest[k] == s[k + 1]);
        }
        if j < s.len() {
            assert(rest[j - 1] == s[j]);
        }
        lemma_insert_index_is(rest, x, j - 1);
    }
}

/// Sorting keeps the number of ratings.
pub proof fn lemma_sorted_len(s: Seq<Rating>)
    ensures
        sorted_of(s).len() == s.len(),
    decreases s.len(),
{
    if s.len() > 0 {
        lemma_sorted_len(s.drop_last());
        lemma_insert_index_range(sorted_of(s.drop_last()), s.last());
    }
}

/// Sorts ratings ascending by probability.
pub fn sort_ratings(ratings: &Vec<Rating>) -> (sorted: Vec<Rating>)
    ensures
        sorted@ == sorted_of(ratings@),
{
    let mut sorted: Vec<Rating> = Vec::new();
    let mut i: usize = 0;
    while i < ratings.len()
        invariant
            i <= ratings.len(),
            sorted@ == sorted_of(ratings@.take(i as int)),
        decreases ratings.len() - i,
    {
        let x = ratings[i];
        let mut j: usize = 0;
        while j < sorted.len() && sorted[j].at_most(&x)
            invariant
                j <= sorted.len(),
                forall|k: int| 0 <= k < j ==> (#[trigger] sorted@[k]).le(x),
            decreases sorted.len() - j,
        {
            j += 1;
        }
        proof {
            lemma_insert_index_is(sorted@, x, j as int);
            assert(ratings@.take(i + 1).drop_last() =~= ratings@.take(i as int));
        }
        sorted.insert(j, x);
        i += 1;
    }
    proof {
        assert(ratings@.take(i as int) =~= ratings@);
    }
    sorted
}

/// Trims a list of ratings to those that are combined.
pub fn keep_extremes(ratings: Vec<Rating>) -> (kept: Vec<Rating>)
    ensures
        kept@ == retained(ratings@),
{
    if ratings.len() > MAX_COMBINED {
        let sorted = sort_ratings(&ratings);
        proof {
            lemma_sorted_len(ratings@);
        }
        let n = sorted.len();
        let mut kept: Vec<Rating> = Vec::new();
        let mut i: usize = 0;
        while i < KEPT_PER_END
            invariant
                i <= KEPT_PER_END,
                n == sorted.len(),
                n > MAX_COMBINED,
                kept@ == sorted@.take(i as int),
            decreases KEPT_PER_END - i,
        {
            kept.push(sorted[i]);
            proof {
                assert(kept@ =~= sorted@.take(i + 1));
            }
            i += 1;
        }
        let mut j: usize = n - KEPT_PER_END;
        while j < n
            invariant
                n - KEPT_PER_END <= j <= n,
                n == sorted.len(),
                n > MAX_COMBINED,
                kept@ == sorted@.take(KEPT_PER_END as int) + sorted@.subrange(
                    n - KEPT_PER_END,
                    j as int,
                ),
            decreases n - j,
        {
            kept.push(sorted[j]);
            proof {
                assert(kept@ =~= sorted@.take(KEPT_PER_END as int) + sorted@.subrange(
                    n - KEPT_PER_END,
                    j + 1,
                ));
            }
            j += 1;
        }
        proof {
            assert(sorted@.subrange(n - KEPT_PER_END, n as int) =~= sorted@.skip(
                n - KEPT_PER_END,
            ));
        }
        kept
    } else {
        ratings
    }
}

/// The weights of a rating with positive numbers are positive.
pub proof fn lemma_weights_positive(r: Rating)
    requires
        r.wf(),
    ensures
        r.spam_weight() > 0,
        r.ham_weight() > 0,
{
    assert(r.spam_count as nat * r.ham_total as nat > 0) by (nonlinear_arith)
        requires
            r.spam_count > 0,
            r.ham_total > 0,
    ;
    assert(r.ham_count as nat * r.spam_total as nat > 0) by (nonlinear_arith)
        requires
            r.ham_count > 0,
            r.spam_total > 0,
    ;
}

/// The rating order is total: of two ratings one is at most the other.
pub proof fn lemma_le_total(a: Rating, b: Rating)
    ensures
        a.le(b) || b.le(a),
{
}

/// The rating order is transitive on ratings with positive weights.
pub proof fn lemma_le_transitive(a: Rating, b: Rating, c: Rating)
    requires
        a.wf(),
        b.wf(),
        c.wf(),
        a.le(b),
        b.le(c),
    ensures
        a.le(c),
{
    lemma_weights_positive(a);
    lemma_weights_positive(b);
    lemma_weights_positive(c);
    let an = a.spam_weight() as int;
    let am = a.ham_weight() as int;
    let bn = b.spam_weight() as int;
    let bm = b.ham_weight() as int;
    let cn = c.spam_weight() as int;
    let cm = c.ham_weight() as int;
    assert(an * cm <= cn * am) by (nonlinear_arith)
        requires
            an > 0,
            am > 0,
            bn > 0,
            bm > 0,
            cn > 0,
            cm > 0,
            an * bm <= bn * am,
            bn * cm <= cn * bm,
    {
        assert((an * bm) * cm <= (bn * am) * cm);
        assert((bn * cm) * am <= (cn * bm) * am);
        assert((an * cm) * bm <= (cn * am) * bm);
    }
}

/// The rating order is the order of the probabilities `numerator / denominator`.
pub proof fn lemma_le_orders_probabilities(a: Rating, b: Rating)
    ensures
        a.le(b) <==> a.numerator() * b.denominator() <= b.numerator() * a.denominator(),
{
    let an = a.spam_weight() as int;
    let am = a.ham_weight() as int;
    let bn = b.spam_weight() as int;
    let bm = b.ham_weight() as int;
    assert(an * (bn + bm) == an * bn + an * bm) by (nonlinear_arith);
    assert(bn * (an + am) == an * bn + bn * am) by (nonlinear_arith);
}

/// A rating is at least 1/100 and below 1, whatever the counts and totals.
pub proof fn lemma_rating_range(c: Counts, spam_total: nat, ham_total: nat)
    requires
        c.spam <= u64::MAX,
        c.ham <= u64::MAX,
        spam_total <= u64::MAX,
        ham_total <= u64::MAX,
    ensures
        Rating::of_counts(c, spam_total, ham_total).wf(),
        Rating::ham_only().le(Rating::of_counts(c, spam_total, ham_total)),
        100 * Rating::of_counts(c, spam_total, ham_total).numerator() >= Rating::of_counts(
            c,
            spam_total,
            ham_total,
        ).denominator(),
        Rating::of_counts(c, spam_total, ham_total).numerator() < Rating::of_counts(
            c,
            spam_total,
            ham_total,
        ).denominator(),
{
    let r = Rating::of_counts(c, spam_total, ham_total);
    lemma_weights_positive(r);
    assert(Rating::ham_only().spam_weight() == 1 && Rating::ham_only().ham_weight() == 99);
    assert(Rating::spam_only().spam_weight() == 99 && Rating::spam_only().ham_weight() == 1);
    assert(Rating::neutral().spam_weight() == 1 && Rating::neutral().ham_weight() == 1);
}

/// A token seen in spam only rates exactly 99/100, one seen in ham only
/// exactly 1/100, and one never seen exactly 1/2, whatever the totals.
pub proof fn lemma_exclusive_ratings(c: Counts, spam_total: nat, ham_total: nat)
    ensures
        c.spam >= 1 && c.ham == 0 ==> Rating::of_counts(c, spam_total, ham_total)
            == Rating::spam_only(),
        c.ham >= 1 && c.spam == 0 ==> Rating::of_counts(c, spam_total, ham_total)
            == Rating::ham_only(),
        c == Counts::zero() ==> Rating::of_counts(c, spam_total, ham_total) == Rating::neutral(),
        100 * Rating::spam_only().numerator() == 99 * Rating::spam_only().denominator(),
        100 * Rating::ham_only().numerator() == 1 * Rating::ham_only().denominator(),
        2 * Rating::neutral().numerator() == 1 * Rating::neutral().denominator(),
{
}

proof fn lemma_insert_index_splits(s: Seq<Rating>, x: Rating)
    ensures
        0 <= insert_index(s, x) <= s.len(),
        forall|k: int| 0 <= k < insert_index(s, x) ==> (#[trigger] s[k]).le(x),
        insert_index(s, x) < s.len() ==> !s[insert_index(s, x)].le(x),
    decreases s.len(),
{
    if s.len() > 0 && s[0].le(x) {
        let rest = s.skip(1);
        lemma_insert_index_splits(rest, x);
        let idx = insert_index(rest, x);
        assert forall|k: int| 0 <= k < idx + 1 implies (#[trigger] s[k]).le(x) by {
            if k > 0 {
                assert(rest[k - 1] == s[k]);
            }
        }
        if idx + 1 < s.len() {
            assert(rest[idx] == s[idx + 1]);
        }
    }
}

/// Sorting yields an ascending list.
pub proof fn lemma_sorted_ascending(s: Seq<Rating>)
    requires
        all_wf(s),
    ensures
        ascending(sorted_of(s)),
        all_wf(sorted_of(s)),
    decreases s.len(),
{
    if s.len() > 0 {
        let front = sorted_of(s.drop_last());
        let x = s.last();
        assert(x.wf());
        assert(all_wf(s.drop_last())) by {
            assert forall|i: int| 0 <= i < s.drop_last().len() implies (
            #[trigger] s.drop_last()[i]).wf() by {
                assert(s[i].wf());
            }
        }
        lemma_sorted_ascending(s.drop_last());
        lemma_insert_index_splits(front, x);
        let idx = insert_index(front, x);
        let out = front.insert(idx, x);
        assert forall|i: int| 0 <= i < out.len() implies (#[trigger] out[i]).wf() by {
            if i < idx {
                assert(out[i] == front[i]);
            } else if i > idx {
                assert(out[i] == front[i - 1]);
            }
        }
        assert forall|i: int, j: int| 0 <= i < j < out.len() implies out[i].le(out[j]) by {
            if j < idx {
                assert(out[i] == front[i] && out[j] == front[j]);
            } else if j == idx {
                assert(out[i] == front[i]);
            } else if i < idx {
                assert(out[i] == front[i] && out[j] == front[j - 1]);
            } else if i == idx {
                assert(out[j] == front[j - 1]);
                lemma_le_total(front[idx], x);
                assert(front[idx].wf());
                assert(front[j - 1].wf());
                if j - 1 > idx {
                    lemma_le_transitive(x, front[idx], front[j - 1]);
                }
            } else {
                assert(out[i] == front[i - 1] && out[j] == front[j - 1]);
            }
        }
    }
}

/// Sorting rearranges: every rating occurs as often after it as before.
pub proof fn lemma_sorted_permutes(s: Seq<Rating>)
    ensures
        sorted_of(s).to_multiset() == s.to_multiset(),
    decreases s.len(),
{
    if s.len() > 0 {
        let front = sorted_of(s.drop_last());
        lemma_sorted_permutes(s.drop_last());
        lemma_insert_index_range(front, s.last());
        vstd::seq_lib::to_multiset_insert(front, insert_index(front, s.last()), s.last());
        vstd::seq_lib::to_multiset_build(s.drop_last(), s.last());
        assert(s.drop_last().push(s.last()) =~= s);
    } else {
        assert(s =~= Seq::<Rating>::empty());
    }
}

/// Up to twenty ratings are all combined, in their order. Of twenty-one, the
/// ten lowest and the ten highest are combined and the middle one is dropped.
/// Of more, twenty are combined: the ten lowest, then the ten highest.
pub proof fn lemma_trimming_boundary(s: Seq<Rating>)
    ensures
        s.len() <= 20 ==> retained(s) == s,
        s.len() == 21 ==> retained(s) == sorted_of(s).remove(10),
        s.len() > 20 ==> retained(s).len() == 20,
        s.len() > 20 ==> retained(s) == sorted_of(s).take(10) + sorted_of(s).skip(s.len() - 10),
{
    lemma_sorted_len(s);
    if s.len() == 21 {
        assert(retained(s) =~= sorted_of(s).remove(10));
    }
}

/// The product of the spam weights of a list of ratings.
pub open spec fn spam_product(s: Seq<Rating>) -> nat
    decreases s.len(),
{
    if s.len() == 0 {
        1
    } else {
        spam_product(s.drop_last()) * s.last().spam_weight()
    }
}

/// The product of the ham weights of a list of ratings.
pub open spec fn ham_product(s: Seq<Rating>) -> nat
    decreases s.len(),
{
    if s.len() == 0 {
        1
    } else {
        ham_product(s.drop_last()) * s.last().ham_weight()
    }
}

/// The numerator of the combined spam score of a list of ratings. With
/// probabilities `p`, the score `prod(p) / (prod(p) + prod(1 - p))` equals
/// `spam_product / (spam_product + ham_product)`; no ratings give the score zero.
pub open spec fn score_numerator(s: Seq<Rating>) -> nat {
    if s.len() == 0 {
        0
    } else {
        spam_product(s)
    }
}

/// The denominator of the combined spam score of a list of ratings.
pub open spec fn score_denominator(s: Seq<Rating>) -> nat {
    if s.len() == 0 {
        1
    } else {
        spam_product(s) + ham_product(s)
    }
}

/// Whether the combined score exceeds 8/10, the threshold of the spam label.
pub open spec fn exceeds_threshold(s: Seq<Rating>) -> bool {
    10 * score_numerator(s) > 8 * score_denominator(s)
}

/// The combined score lies between 0 and 1: its denominator is positive and
/// not less than its numerator.
pub proof fn lemma_score_in_unit_interval(s: Seq<Rating>)
    requires
        all_wf(s),
    ensures
        score_denominator(s) > 0,
        score_numerator(s) <= score_denominator(s),
        s.len() > 0 ==> spam_product(s) > 0 && ham_product(s) > 0,
    decreases s.len(),
{
    if s.len() > 0 {
        let front = s.drop_last();
        assert(all_wf(front)) by {
            assert forall|i: int| 0 <= i < front.len() implies (#[trigger] front[i]).wf() by {
                assert(s[i].wf());
            }
        }
        assert(s.last().wf());
        if front.len() > 0 {
            lemma_score_in_unit_interval(front);
        }
        let a = spam_product(front);
        let b = ham_product(front);
        let n = s.last().spam_weight();
        let m = s.last().ham_weight();
        lemma_weights_positive(s.last());
        assert(a * n > 0 && b * m > 0) by (nonlinear_arith)
            requires
                a > 0,
                b > 0,
                n > 0,
                m > 0,
        ;
    }
}

/// Ratings that are all neutral combine to exactly 1/2.
pub proof fn lemma_neutral_score_is_half(s: Seq<Rating>)
    requires
        s.len() > 0,
        forall|i: int| 0 <= i < s.len() ==> s[i] == Rating::neutral(),
    ensures
        spam_product(s) == 1,
        ham_product(s) == 1,
        2 * score_numerator(s) == score_denominator(s),
    decreases s.len(),
{
    let front = s.drop_last();
    assert(s.last() == Rating::neutral());
    if front.len() > 0 {
        assert forall|i: int| 0 <= i < front.len() implies front[i] == Rating::neutral() by {
            assert(front[i] == s[i]);
        }
        lemma_neutral_score_is_half(front);
    }
}

/// A sorted list of equal ratings holds that rating only.
pub proof fn lemma_sorted_constant(s: Seq<Rating>, x: Rating)
    requires
        forall|i: int| 0 <= i < s.len() ==> s[i] == x,
    ensures
        sorted_of(s).len() == s.len(),
        forall|i: int| 0 <= i < s.len() ==> sorted_of(s)[i] == x,
    decreases s.len(),
{
    if s.len() > 0 {
        let front = sorted_of(s.drop_last());
        assert forall|i: int| 0 <= i < s.drop_last().len() implies s.drop_last()[i] == x by {
            assert(s.drop_last()[i] == s[i]);
        }
        lemma_sorted_constant(s.drop_last(), x);
        lemma_insert_index_range(front, s.last());
        assert(s.last() == x);
    }
}

/// Whether the combined score of the ratings exceeds 8/10, decided exactly.
pub fn passes_threshold(ratings: &Vec<Rating>) -> (passes: bool)
    ensures
        passes == exceeds_threshold(ratings@),
{
    if ratings.len() == 0 {
        return false;
    }
    let mut spam: Vec<u64> = one();
    let mut ham: Vec<u64> = one();
    let mut i: usize = 0;
    while i < ratings.len()
        invariant
            i <= ratings.len(),
            value(spam@) == spam_product(ratings@.take(i as int)),
            value(ham@) == ham_product(ratings@.take(i as int)),
            spam@.len() == 2 * i + 1,
            ham@.len() == 2 * i + 1,
        decreases ratings.len() - i,
    {
        proof {
            assert(ratings@.take(i + 1).drop_last() =~= ratings@.take(i as int));
        }
        let r = ratings[i];
        proof {
            let x = value(spam@);
            let y = value(ham@);
            assert(x * r.spam_count as nat * r.ham_total as nat == x * r.spam_weight())
                by (nonlinear_arith)
                requires
                    r.spam_weight() == r.spam_count as nat * r.ham_total as nat,
            ;
            assert(y * r.ham_count as nat * r.spam_total as nat == y * r.ham_weight())
                by (nonlinear_arith)
                requires
                    r.ham_weight() == r.ham_count as nat * r.spam_total as nat,
            ;
        }
        spam = times(&times(&spam, r.spam_count), r.ham_total);
        ham = times(&times(&ham, r.ham_count), r.spam_total);
        i += 1;
    }
    proof {
        assert(ratings@.take(i as int) =~= ratings@);
    }
    let left = times(&spam, 1);
    let right = times(&ham, 4);
    match relate(&left, &right) {
        Relation::Above => true,
        _ => false,
    }
}

} // verus!
