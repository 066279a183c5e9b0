//! The model: training, rating the words of a message, and bulk training.
use crate::rating::{
    all_wf, exceeds_threshold, keep_extremes, lemma_neutral_score_is_half, lemma_rating_range,
    lemma_score_in_unit_interval, lemma_sorted_ascending, lemma_sorted_constant, lemma_sorted_len,
    passes_threshold, retained, score_denominator, score_numerator, sorted_of, Rating,
};
use crate::table::{
    lemma_training_counts_occurrences, occurrences, Counter, Counts, ExampleType, FrequencyTable,
    TableView,
};
use crate::tokenizer::{break_words, tokens_of, views_of};
use vstd::prelude::*;

verus! {

/// The most occurrences a table can count.
pub const MAX_OCCURRENCES: u64 = 0xFFFF_FFFF_FFFF_FFFF;

/// The ratings of a sequence of tokens against a table, in the tokens' order.
pub open spec fn ratings_of(table: TableView, tokens: Seq<Seq<char>>) -> Seq<Rating> {
    Seq::new(
        tokens.len(),
        |i: int| Rating::of_counts(table.lookup(tokens[i]), table.spam_total, table.ham_total),
    )
}

/// The label that a text names: `spam`, `ham`, or none.
pub open spec fn label_of(label: Seq<char>) -> Option<ExampleType> {
    if label == "spam"@ {
        Some(ExampleType::Spam)
    } else if label == "ham"@ {
        Some(ExampleType::Ham)
    } else {
        None
    }
}

/// One record of a bulk training request.
pub struct TrainExample {
    pub label: String,
    pub text: String,
}

/// The table after one bulk record: trained where the label is recognized and
/// the table can still count the text's tokens, unchanged otherwise.
pub open spec fn after_record(table: TableView, label: Seq<char>, text: Seq<char>) -> TableView {
    match label_of(label) {
        Some(typ) => if table.total() + tokens_of(text).len() <= MAX_OCCURRENCES {
            table.train(tokens_of(text), typ)
        } else {
            table
        },
        None => table,
    }
}

/// The table after a list of bulk records, applied in order.
pub open spec fn after_records(table: TableView, records: Seq<TrainExample>) -> TableView
    decreases records.len(),
{
    if records.len() == 0 {
        table
    } else {
        after_record(
            after_records(table, records.drop_last()),
            records.last().label@,
            records.last().text@,
        )
    }
}

/// The outcome of a classification: the label, and with it the ratings from
/// which the spam score is combined.
pub enum ClassifiedType {
    Spam(Vec<Rating>),
    Ham(Vec<Rating>),
}

impl ClassifiedType {
    /// The ratings that were combined.
    pub open spec fn ratings(self) -> Seq<Rating> {
        match self {
            ClassifiedType::Spam(ratings) => ratings@,
            ClassifiedType::Ham(ratings) => ratings@,
        }
    }

    /// The outcome is that of combining exactly `ratings`: spam where their
    /// score exceeds 8/10, ham otherwise.
    pub open spec fn decides(self, ratings: Seq<Rating>) -> bool {
        &&& self.ratings() == ratings
        &&& (self is Spam) == exceeds_threshold(ratings)
    }

    /// The outcome is that of classifying `text` against `table`.
    pub open spec fn classifies(self, table: TableView, text: Seq<char>) -> bool {
        self.decides(retained(ratings_of(table, tokens_of(text))))
    }
}

/// Labels the ratings that a score is combined from.
pub fn classify_ratings(ratings: Vec<Rating>) -> (result: ClassifiedType)
    ensures
        result.decides(ratings@),
{
    if passes_threshold(&ratings) {
        ClassifiedType::Spam(ratings)
    } else {
        ClassifiedType::Ham(ratings)
    }
}

/// Reads a label. Anything but `spam` and `ham` is not a label.
pub fn parse_label(label: &str) -> (parsed: Option<ExampleType>)
    ensures
        parsed == label_of(label@),
{
    let owned = label.to_owned();
    if owned == "spam".to_owned() {
        Some(ExampleType::Spam)
    } else if owned == "ham".to_owned() {
        Some(ExampleType::Ham)
    } else {
        None
    }
}

/// A frequency table together with the operations that train and read it.
pub struct Model {
    table: FrequencyTable,
}

impl View for Model {
    type V = TableView;

    closed spec fn view(&self) -> TableView {
        self.table@
    }
}

impl Model {
    /// The table's invariant holds.
    pub closed spec fn wf(&self) -> bool {
        self.table.wf()
    }

    /// A well-formed model has counted no more than its counters can hold.
    pub proof fn lemma_total_fits(&self)
        requires
            self.wf(),
        ensures
            self@.total() <= MAX_OCCURRENCES,
    {
        self.table.lemma_total_fits();
    }

    /// An untrained model.
    pub fn new() -> (model: Model)
        ensures
            model.wf(),
            model@ == TableView::empty(),
    {
        Model { table: FrequencyTable::new() }
    }

    /// All spam occurrences counted so far.
    pub fn spam_total_count(&self) -> (total: u64)
        requires
            self.wf(),
        ensures
            total == self@.spam_total,
    {
        self.table.spam_total()
    }

    /// All ham occurrences counted so far.
    pub fn ham_total_count(&self) -> (total: u64)
        requires
            self.wf(),
        ensures
            total == self@.ham_total,
    {
        self.table.ham_total()
    }

    /// The counter of a token; zero for a token never trained.
    pub fn lookup(&self, token: &String) -> (counter: Counter)
        requires
            self.wf(),
        ensures
            counter@ == self@.lookup(token@),
    {
        self.table.lookup(token)
    }

    /// Splits a text into its tokens.
    pub fn break_words(&self, example: &str) -> (tokens: Vec<String>)
        ensures
            views_of(tokens@) == tokens_of(example@),
            example@.len() == 0 ==> tokens@.len() == 0,
    {
        break_words(example)
    }

    /// Rates each token against the table, in order, duplicates kept.
    pub fn rate_tokens(&self, tokens: &Vec<String>) -> (ratings: Vec<Rating>)
        requires
            self.wf(),
        ensures
            ratings@ == ratings_of(self@, views_of(tokens@)),
            all_wf(ratings@),
    {
        let spam_total = self.table.spam_total();
        let ham_total = self.table.ham_total();
        let mut ratings: Vec<Rating> = Vec::new();
        let mut i: usize = 0;
        while i < tokens.len()
            invariant
                i <= tokens.len(),
                self.wf(),
                spam_total == self@.spam_total,
                ham_total == self@.ham_total,
                ratings@ == ratings_of(self@, views_of(tokens@).take(i as int)),
                all_wf(ratings@),
            decreases tokens.len() - i,
        {
            let counter = self.table.lookup(&tokens[i]);
            let rating = Rating::rate(counter, spam_total, ham_total);
            ratings.push(rating);
            proof {
                assert(ratings@ =~= ratings_of(self@, views_of(tokens@).take(i + 1)));
            }
            i += 1;
        }
        proof {
            assert(views_of(tokens@).take(i as int) =~= views_of(tokens@));
        }
        ratings
    }

    /// Rates each word occurrence of a text.
    pub fn rate_words(&self, example: &str) -> (ratings: Vec<Rating>)
        requires
            self.wf(),
        ensures
            ratings@ == ratings_of(self@, tokens_of(example@)),
            all_wf(ratings@),
            example@.len() == 0 ==> ratings@.len() == 0,
    {
        let tokens = break_words(example);
        self.rate_tokens(&tokens)
    }

    /// The ratings from which a text's spam score is combined: those of all
    /// its word occurrences, trimmed to the most extreme when there are more than
    /// twenty. A text without characters has none, and its score is zero.
    pub fn retained_ratings(&self, example: &str) -> (ratings: Vec<Rating>)
        requires
            self.wf(),
        ensures
            ratings@ == retained(ratings_of(self@, tokens_of(example@))),
            example@.len() == 0 ==> ratings@.len() == 0,
    {
        let all = self.rate_words(example);
        keep_extremes(all)
    }

    /// Classifies a text: spam where its score exceeds 8/10, ham otherwise. A
    /// text without characters is ham, with no ratings and the score zero.
    pub fn classify(&self, example: &str) -> (result: ClassifiedType)
        requires
            self.wf(),
        ensures
            result.classifies(self@, example@),
            example@.len() == 0 ==> result is Ham && result.ratings().len() == 0,
    {
        classify_ratings(self.retained_ratings(example))
    }

    /// Counts one occurrence of each token, in order, under `typ`.
    pub fn train_tokens(&mut self, typ: ExampleType, tokens: &Vec<String>)
        requires
            old(self).wf(),
            old(self)@.total() + tokens@.len() <= MAX_OCCURRENCES,
        ensures
            final(self).wf(),
            final(self)@ == old(self)@.train(views_of(tokens@), typ),
    {
        let ghost before = self@;
        let mut i: usize = 0;
        while i < tokens.len()
            invariant
                i <= tokens.len(),
                self.wf(),
                self@ == before.train(views_of(tokens@).take(i as int), typ),
                self@.total() == before.total() + i,
                before.total() + tokens@.len() <= MAX_OCCURRENCES,
            decreases tokens.len() - i,
        {
            self.table.increment(tokens[i].clone(), typ);
            proof {
                assert(views_of(tokens@).take(i + 1).drop_last() =~= views_of(tokens@).take(
                    i as int,
                ));
            }
            i += 1;
        }
        proof {
            assert(views_of(tokens@).take(i as int) =~= views_of(tokens@));
        }
    }

    /// Trains the model with one labelled text: every word occurrence counts once.
    pub fn train(&mut self, typ: ExampleType, example: &str)
        requires
            old(self).wf(),
            old(self)@.total() + tokens_of(example@).len() <= MAX_OCCURRENCES,
        ensures
            final(self).wf(),
            final(self)@ == old(self)@.train(tokens_of(example@), typ),
    {
        let tokens = break_words(example);
        proof {
            assert(views_of(tokens@).len() == tokens@.len());
        }
        self.train_tokens(typ, &tokens);
    }

    /// Trains the model where the table can still count the text's tokens, and
    /// says whether it did. Otherwise the model stays as it is.
    pub fn try_train(&mut self, typ: ExampleType, example: &str) -> (trained: bool)
        requires
            old(self).wf(),
        ensures
            final(self).wf(),
            trained == (old(self)@.total() + tokens_of(example@).len() <= MAX_OCCURRENCES),
            trained ==> final(self)@ == old(self)@.train(tokens_of(example@), typ),
            !trained ==> final(self)@ == old(self)@,
    {
        let tokens = break_words(example);
        proof {
            assert(views_of(tokens@).len() == tokens@.len());
        }
        proof {
            self.table.lemma_total_fits();
        }
        let counted: u64 = self.table.spam_total() + self.table.ham_total();
        if tokens.len() as u64 <= MAX_OCCURRENCES - counted {
            self.train(typ, example);
            true
        } else {
            false
        }
    }

    /// Applies a list of labelled records in order. A record whose label is
    /// neither `spam` nor `ham` is skipped.
    pub fn train_bulk(&mut self, examples: &Vec<TrainExample>)
        requires
            old(self).wf(),
        ensures
            final(self).wf(),
            final(self)@ == after_records(old(self)@, examples@),
    {
        let ghost before = self@;
        let mut i: usize = 0;
        while i < examples.len()
            invariant
                i <= examples.len(),
                self.wf(),
                self@ == after_records(before, examples@.take(i as int)),
            decreases examples.len() - i,
        {
            let record = &examples[i];
            match parse_label(record.label.as_str()) {
                Some(typ) => {
                    self.try_train(typ, record.text.as_str());
                },
                None => {},
            }
            proof {
                assert(examples@.take(i + 1).drop_last() =~= examples@.take(i as int));
            }
            i += 1;
        }
        proof {
            assert(examples@.take(i as int) =~= examples@);
        }
    }
}

/// On an untrained model every token rates one half, and a text with at
/// least one token scores exactly one half.
pub proof fn lemma_untrained_scores_half(tokens: Seq<Seq<char>>)
    requires
        tokens.len() > 0,
    ensures
        forall|i: int|
            0 <= i < tokens.len() ==> ratings_of(TableView::empty(), tokens)[i]
                == Rating::neutral(),
        2 * score_numerator(retained(ratings_of(TableView::empty(), tokens)))
            == score_denominator(retained(ratings_of(TableView::empty(), tokens))),
        !exceeds_threshold(retained(ratings_of(TableView::empty(), tokens))),
{
    let all = ratings_of(TableView::empty(), tokens);
    lemma_sorted_constant(all, Rating::neutral());
    let kept = retained(all);
    assert(kept.len() > 0);
    assert forall|i: int| 0 <= i < kept.len() implies kept[i] == Rating::neutral() by {}
    lemma_neutral_score_is_half(kept);
}

/// The ratings that are combined for any tokens have positive weights, so the
/// combined score lies between 0 and 1.
pub proof fn lemma_text_score_in_unit_interval(table: TableView, tokens: Seq<Seq<char>>)
    requires
        table.fits(),
    ensures
        all_wf(retained(ratings_of(table, tokens))),
        score_denominator(retained(ratings_of(table, tokens))) > 0,
        score_numerator(retained(ratings_of(table, tokens))) <= score_denominator(
            retained(ratings_of(table, tokens)),
        ),
{
    let all = ratings_of(table, tokens);
    assert forall|i: int| 0 <= i < all.len() implies (#[trigger] all[i]).wf() by {
        assert(table.counts[tokens[i]].spam <= table.spam_total);
        lemma_rating_range(table.lookup(tokens[i]), table.spam_total, table.ham_total);
    }
    lemma_sorted_ascending(all);
    lemma_sorted_len(all);
    let kept = retained(all);
    assert forall|i: int| 0 <= i < kept.len() implies (#[trigger] kept[i]).wf() by {
        if all.len() > 20 {
            let sorted = sorted_of(all);
            if i < 10 {
                assert(kept[i] == sorted[i]);
            } else {
                assert(kept[i] == sorted[sorted.len() - 10 + (i - 10)]);
            }
        }
    }
    lemma_score_in_unit_interval(kept);
}

/// A token that was trained as spam at least once and never as ham rates
/// exactly 99/100, and one trained as ham only exactly 1/100, whatever else
/// the table holds.
pub proof fn lemma_exclusive_token_rating(
    table: TableView,
    tokens: Seq<Seq<char>>,
    label: ExampleType,
    token: Seq<char>,
)
    requires
        table.lookup(token) == Counts::zero(),
        occurrences(tokens, token) >= 1,
    ensures
        label == ExampleType::Spam ==> ratings_of(table.train(tokens, label), seq![token])[0]
            == Rating::spam_only(),
        label == ExampleType::Ham ==> ratings_of(table.train(tokens, label), seq![token])[0]
            == Rating::ham_only(),
{
    lemma_training_counts_occurrences(table, tokens, label, token);
}

/// Classifying reads the model only: two outcomes for one table and one text
/// carry the same label and the same ratings.
pub proof fn lemma_classification_repeats(
    first: ClassifiedType,
    second: ClassifiedType,
    table: TableView,
    text: Seq<char>,
)
    requires
        first.classifies(table, text),
        second.classifies(table, text),
    ensures
        first.ratings() == second.ratings(),
        (first is Spam) == (second is Spam),
{
}

/// A record whose label is neither `spam` nor `ham` leaves every count and
/// both totals as they were.
pub proof fn lemma_unknown_label_changes_nothing(
    table: TableView,
    label: Seq<char>,
    text: Seq<char>,
)
    requires
        label_of(label) is None,
    ensures
        after_record(table, label, text) == table,
{
}

} // verus!
