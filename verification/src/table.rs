//! The frequency table: for each token, how often it was seen in spam and in ham.
use vstd::hash_map::StringHashMap;
use vstd::prelude::*;

verus! {

/// The label of a training example.
#[derive(Clone, Copy, Debug, PartialEq, Eq, Structural)]
pub enum ExampleType {
    Spam,
    Ham,
}

/// The training occurrences of one token, by label.
#[derive(Clone, Copy, Debug, PartialEq, Eq, Structural)]
pub struct Counter {
    pub ham: u64,
    pub spam: u64,
}

/// The mathematical counts of one token.
pub ghost struct Counts {
    pub ham: nat,
    pub spam: nat,
}

impl Counts {
    /// A token that was never seen.
    pub open spec fn zero() -> Counts {
        Counts { ham: 0, spam: 0 }
    }

    /// The counts after one more occurrence under `label`.
    pub open spec fn bumped(self, label: ExampleType) -> Counts {
        match label {
            ExampleType::Spam => Counts { ham: self.ham, spam: self.spam + 1 },
            ExampleType::Ham => Counts { ham: self.ham + 1, spam: self.spam },
        }
    }
}

impl View for Counter {
    type V = Counts;

    open spec fn view(&self) -> Counts {
        Counts { ham: self.ham as nat, spam: self.spam as nat }
    }
}

/// The mathematical content of a frequency table: the counts of every token
/// (zero for a token never seen) and the two table-wide totals.
pub ghost struct TableView {
    pub counts: Map<Seq<char>, Counts>,
    pub spam_total: nat,
    pub ham_total: nat,
}

impl TableView {
    /// The table in which nothing was counted.
    pub open spec fn empty() -> TableView {
        TableView {
            counts: Map::new(|t: Seq<char>| true, |t: Seq<char>| Counts::zero()),
            spam_total: 0,
            ham_total: 0,
        }
    }

    /// The counts of a token.
    pub open spec fn lookup(self, token: Seq<char>) -> Counts {
        self.counts[token]
    }

    /// All occurrences counted, of both labels.
    pub open spec fn total(self) -> nat {
        self.spam_total + self.ham_total
    }

    /// Every count and both totals fit the counters' width, and no token
    /// counts more under a label than the table does in all.
    pub open spec fn fits(self) -> bool {
        &&& self.spam_total + self.ham_total <= u64::MAX
        &&& forall|token: Seq<char>| #[trigger]
            self.counts[token].spam <= self.spam_total && self.counts[token].ham
                <= self.ham_total
    }

    /// The table after one occurrence of `token` under `label`.
    pub open spec fn increment(self, token: Seq<char>, label: ExampleType) -> TableView {
        TableView {
            counts: self.counts.insert(token, self.counts[token].bumped(label)),
            spam_total: if label == ExampleType::Spam {
                self.spam_total + 1
            } else {
                self.spam_total
            },
            ham_total: if label == ExampleType::Ham {
                self.ham_total + 1
            } else {
                self.ham_total
            },
        }
    }

    /// The table after one occurrence of each of `tokens`, in order, under `label`.
    pub open spec fn train(self, tokens: Seq<Seq<char>>, label: ExampleType) -> TableView
        decreases tokens.len(),
    {
        if tokens.len() == 0 {
            self
        } else {
            self.train(tokens.drop_last(), label).increment(tokens.last(), label)
        }
    }
}

/// The spam counts of `tokens` in `counts`, added up.
pub open spec fn spam_counts_sum(tokens: Seq<Seq<char>>, counts: Map<Seq<char>, Counts>) -> nat
    decreases tokens.len(),
{
    if tokens.len() == 0 {
        0
    } else {
        spam_counts_sum(tokens.drop_last(), counts) + counts[tokens.last()].spam
    }
}

/// The ham counts of `tokens` in `counts`, added up.
pub open spec fn ham_counts_sum(tokens: Seq<Seq<char>>, counts: Map<Seq<char>, Counts>) -> nat
    decreases tokens.len(),
{
    if tokens.len() == 0 {
        0
    } else {
        ham_counts_sum(tokens.drop_last(), counts) + counts[tokens.last()].ham
    }
}

/// How often `token` occurs in `tokens`.
pub open spec fn occurrences(tokens: Seq<Seq<char>>, token: Seq<char>) -> nat
    decreases tokens.len(),
{
    if tokens.len() == 0 {
        0
    } else {
        occurrences(tokens.drop_last(), token) + if tokens.last() == token {
            1nat
        } else {
            0nat
        }
    }
}

/// Training adds the number of tokens to the total of the trained label and
/// leaves the other total as it is: the two together grow by that number.
pub proof fn lemma_training_grows_totals(
    table: TableView,
    tokens: Seq<Seq<char>>,
    label: ExampleType,
)
    ensures
        table.train(tokens, label).total() == table.total() + tokens.len(),
        label == ExampleType::Spam ==> table.train(tokens, label).spam_total == table.spam_total
            + tokens.len() && table.train(tokens, label).ham_total == table.ham_total,
        label == ExampleType::Ham ==> table.train(tokens, label).ham_total == table.ham_total
            + tokens.len() && table.train(tokens, label).spam_total == table.spam_total,
    decreases tokens.len(),
{
    if tokens.len() > 0 {
        lemma_training_grows_totals(table, tokens.drop_last(), label);
    }
}

/// Training adds to each token's count under the trained label the number of
/// its occurrences among the tokens, and leaves its other count as it is.
pub proof fn lemma_training_counts_occurrences(
    table: TableView,
    tokens: Seq<Seq<char>>,
    label: ExampleType,
    token: Seq<char>,
)
    ensures
        label == ExampleType::Spam ==> table.train(tokens, label).lookup(token) == (Counts {
            ham: table.lookup(token).ham,
            spam: table.lookup(token).spam + occurrences(tokens, token),
        }),
        label == ExampleType::Ham ==> table.train(tokens, label).lookup(token) == (Counts {
            ham: table.lookup(token).ham + occurrences(tokens, token),
            spam: table.lookup(token).spam,
        }),
    decreases tokens.len(),
{
    if tokens.len() > 0 {
        lemma_training_counts_occurrences(table, tokens.drop_last(), label, token);
    }
}

/// One stored token with its counter.
struct Entry {
    token: String,
    counter: Counter,
}

/// Maps each token to its counter. A token occurs in at most one entry, and
/// the index says in which.
pub struct FrequencyTable {
    entries: Vec<Entry>,
    index: StringHashMap<usize>,
}

spec fn lookup_in(s: Seq<Entry>, token: Seq<char>) -> Counts
    decreases s.len(),
{
    if s.len() == 0 {
        Counts::zero()
    } else if s.last().token@ == token {
        s.last().counter@
    } else {
        lookup_in(s.drop_last(), token)
    }
}

spec fn spam_sum(s: Seq<Entry>) -> nat
    decreases s.len(),
{
    if s.len() == 0 {
        0
    } else {
        spam_sum(s.drop_last()) + s.last().counter.spam as nat
    }
}

spec fn ham_sum(s: Seq<Entry>) -> nat
    decreases s.len(),
{
    if s.len() == 0 {
        0
    } else {
        ham_sum(s.drop_last()) + s.last().counter.ham as nat
    }
}

spec fn stored_tokens(s: Seq<Entry>) -> Seq<Seq<char>> {
    Seq::new(s.len(), |i: int| s[i].token@)
}

proof fn lemma_sums_over_tokens(s: Seq<Entry>, n: int, counts: Map<Seq<char>, Counts>)
    requires
        0 <= n <= s.len(),
        forall|i: int| 0 <= i < s.len() ==> counts[#[trigger] s[i].token@] == s[i].counter@,
    ensures
        spam_counts_sum(stored_tokens(s).take(n), counts) == spam_sum(s.take(n)),
        ham_counts_sum(stored_tokens(s).take(n), counts) == ham_sum(s.take(n)),
    decreases n,
{
    if n > 0 {
        lemma_sums_over_tokens(s, n - 1, counts);
        assert(stored_tokens(s).take(n).drop_last() =~= stored_tokens(s).take(n - 1));
        assert(s.take(n).drop_last() =~= s.take(n - 1));
        assert(stored_tokens(s).take(n).last() == s[n - 1].token@);
        assert(s.take(n).last() == s[n - 1]);
    }
}

spec fn indexed(s: Seq<Entry>, index: Map<Seq<char>, usize>) -> bool {
    &&& forall|i: int|
        0 <= i < s.len() ==> index.contains_key(#[trigger] s[i].token@) && index[s[i].token@]
            == i
    &&& forall|token: Seq<char>| #[trigger]
        index.contains_key(token) ==> index[token] < s.len() && s[index[token] as int].token@
            == token
}

spec fn distinct(s: Seq<Entry>) -> bool {
    forall|i: int, j: int| 0 <= i < j < s.len() ==> s[i].token@ != s[j].token@
}

proof fn lemma_lookup_hit(s: Seq<Entry>, i: int)
    requires
        distinct(s),
        0 <= i < s.len(),
    ensures
        lookup_in(s, s[i].token@) == s[i].counter@,
    decreases s.len(),
{
    if i < s.len() - 1 {
        assert(s[i].token@ != s[s.len() - 1].token@);
        assert(s.drop_last()[i] == s[i]);
        lemma_lookup_hit(s.drop_last(), i);
    }
}

proof fn lemma_lookup_miss(s: Seq<Entry>, token: Seq<char>)
    requires
        forall|i: int| 0 <= i < s.len() ==> s[i].token@ != token,
    ensures
        lookup_in(s, token) == Counts::zero(),
    decreases s.len(),
{
    if s.len() > 0 {
        lemma_lookup_miss(s.drop_last(), token);
    }
}

proof fn lemma_lookup_within_sums(s: Seq<Entry>, token: Seq<char>)
    ensures
        lookup_in(s, token).spam <= spam_sum(s),
        lookup_in(s, token).ham <= ham_sum(s),
    decreases s.len(),
{
    if s.len() > 0 {
        lemma_lookup_within_sums(s.drop_last(), token);
    }
}

proof fn lemma_lookup_other(s: Seq<Entry>, i: int, e: Entry, token: Seq<char>)
    requires
        0 <= i < s.len(),
        e.token@ == s[i].token@,
        token != e.token@,
    ensures
        lookup_in(s.update(i, e), token) == lookup_in(s, token),
    decreases s.len(),
{
    let t = s.update(i, e);
    if i == s.len() - 1 {
        assert(t.drop_last() =~= s.drop_last());
    } else {
        assert(t.drop_last() =~= s.drop_last().update(i, e));
        lemma_lookup_other(s.drop_last(), i, e, token);
    }
}

proof fn lemma_sums_update(s: Seq<Entry>, i: int, e: Entry)
    requires
        0 <= i < s.len(),
    ensures
        spam_sum(s.update(i, e)) + s[i].counter.spam == spam_sum(s) + e.counter.spam,
        ham_sum(s.update(i, e)) + s[i].counter.ham == ham_sum(s) + e.counter.ham,
        s[i].counter.spam <= spam_sum(s),
        s[i].counter.ham <= ham_sum(s),
    decreases s.len(),
{
    let t = s.update(i, e);
    if i == s.len() - 1 {
        assert(t.drop_last() =~= s.drop_last());
    } else {
        assert(t.drop_last() =~= s.drop_last().update(i, e));
        lemma_sums_update(s.drop_last(), i, e);
    }
}

impl View for FrequencyTable {
    type V = TableView;

    closed spec fn view(&self) -> TableView {
        TableView {
            counts: Map::new(
                |t: Seq<char>| true,
                |t: Seq<char>| lookup_in(self.entries@, t),
            ),
            spam_total: spam_sum(self.entries@),
            ham_total: ham_sum(self.entries@),
        }
    }
}

impl FrequencyTable {
    /// No token is stored twice, the index leads to each token's entry, and
    /// the totals fit the counters' width.
    pub closed spec fn wf(&self) -> bool {
        &&& distinct(self.entries@)
        &&& indexed(self.entries@, self.index@)
        &&& spam_sum(self.entries@) + ham_sum(self.entries@) <= u64::MAX
    }

    /// A well-formed table has counted no more than its counters can hold,
    /// and no token more often than all tokens together.
    pub proof fn lemma_total_fits(&self)
        requires
            self.wf(),
        ensures
            self@.total() <= u64::MAX,
            self@.fits(),
    {
        assert forall|token: Seq<char>| #[trigger]
            self@.counts[token].spam <= self@.spam_total && self@.counts[token].ham
                <= self@.ham_total by {
            lemma_lookup_within_sums(self.entries@, token);
        }
    }

    /// The tokens that the table stores, each once.
    pub closed spec fn tokens(&self) -> Seq<Seq<char>> {
        stored_tokens(self.entries@)
    }

    /// Each total is the sum of the respective count over the stored tokens,
    /// no token is stored twice, and a token that is not stored counts zero.
    pub proof fn lemma_totals_are_sums(&self)
        requires
            self.wf(),
        ensures
            self@.spam_total == spam_counts_sum(self.tokens(), self@.counts),
            self@.ham_total == ham_counts_sum(self.tokens(), self@.counts),
            self.tokens().no_duplicates(),
            forall|token: Seq<char>|
                !self.tokens().contains(token) ==> self@.lookup(token) == Counts::zero(),
    {
        let s = self.entries@;
        assert forall|i: int| 0 <= i < s.len() implies self@.counts[#[trigger] s[i].token@]
            == s[i].counter@ by {
            lemma_lookup_hit(s, i);
        }
        lemma_sums_over_tokens(s, s.len() as int, self@.counts);
        assert(s.take(s.len() as int) =~= s);
        assert(stored_tokens(s).take(s.len() as int) =~= stored_tokens(s));
        assert forall|token: Seq<char>| !self.tokens().contains(token) implies self@.lookup(token)
            == Counts::zero() by {
            assert forall|i: int| 0 <= i < s.len() implies s[i].token@ != token by {
                assert(stored_tokens(s)[i] == s[i].token@);
            }
            lemma_lookup_miss(s, token);
        }
    }

    /// An empty table.
    pub fn new() -> (table: FrequencyTable)
        ensures
            table.wf(),
            table@ == TableView::empty(),
    {
        let table = FrequencyTable { entries: Vec::new(), index: StringHashMap::new() };
        proof {
            assert(table@.counts =~= TableView::empty().counts);
        }
        table
    }

    fn find(&self, token: &String) -> (found: Option<usize>)
        requires
            self.wf(),
        ensures
            match found {
                Some(i) => i < self.entries@.len() && self.entries@[i as int].token@ == token@,
                None => forall|k: int|
                    0 <= k < self.entries@.len() ==> self.entries@[k].token@ != token@,
            },
    {
        match self.index.get(token.as_str()) {
            Some(i) => Some(*i),
            None => None,
        }
    }

    /// The counter of a token; zero for a token never seen.
    pub fn lookup(&self, token: &String) -> (counter: Counter)
        requires
            self.wf(),
        ensures
            counter@ == self@.lookup(token@),
    {
        match self.find(token) {
            Some(i) => {
                proof {
                    lemma_lookup_hit(self.entries@, i as int);
                }
                self.entries[i].counter
            },
            None => {
                proof {
                    lemma_lookup_miss(self.entries@, token@);
                }
                Counter { ham: 0, spam: 0 }
            },
        }
    }

    /// Counts one more occurrence of `token` under `label`.
    pub fn increment(&mut self, token: String, label: ExampleType)
        requires
            old(self).wf(),
            old(self)@.total() < u64::MAX,
        ensures
            final(self).wf(),
            final(self)@ == old(self)@.increment(token@, label),
    {
        let ghost before = self.entries@;
        let ghost key = token@;
        match self.find(&token) {
            Some(i) => {
                let c = self.entries[i].counter;
                proof {
                    lemma_sums_update(before, i as int, before[i as int]);
                    lemma_lookup_hit(before, i as int);
                }
                let bumped = match label {
                    ExampleType::Spam => Counter { ham: c.ham, spam: c.spam + 1 },
                    ExampleType::Ham => Counter { ham: c.ham + 1, spam: c.spam },
                };
                let e = Entry { token, counter: bumped };
                self.entries.set(i, e);
                proof {
                    lemma_sums_update(before, i as int, e);
                    lemma_lookup_hit(self.entries@, i as int);
                    assert forall|t: Seq<char>| #[trigger]
                        self.index@.contains_key(t) implies self.index@[t] < self.entries@.len()
                        && self.entries@[self.index@[t] as int].token@ == t by {
                        assert(before[self.index@[t] as int].token@ == t);
                    }
                    assert forall|t: Seq<char>|
                        lookup_in(self.entries@, t) == (if t == key {
                            lookup_in(before, key).bumped(label)
                        } else {
                            lookup_in(before, t)
                        }) by {
                        if t != key {
                            lemma_lookup_other(before, i as int, e, t);
                        }
                    }
                }
            },
            None => {
                let fresh = match label {
                    ExampleType::Spam => Counter { ham: 0, spam: 1 },
                    ExampleType::Ham => Counter { ham: 1, spam: 0 },
                };
                self.index.insert(token.clone(), self.entries.len());
                let e = Entry { token, counter: fresh };
                self.entries.push(e);
                proof {
                    lemma_lookup_miss(before, key);
                    assert(self.entries@.drop_last() =~= before);
                    assert forall|i: int| 0 <= i < self.entries@.len() implies self.index@.contains_key(
                        #[trigger] self.entries@[i].token@,
                    ) && self.index@[self.entries@[i].token@] == i by {
                        if i < before.len() {
                            assert(self.entries@[i] == before[i]);
                            assert(before[i].token@ != key);
                        }
                    }
                    assert forall|t: Seq<char>| #[trigger]
                        self.index@.contains_key(t) implies self.index@[t] < self.entries@.len()
                        && self.entries@[self.index@[t] as int].token@ == t by {
                        if t != key {
                            assert(old(self).index@.contains_key(t));
                            assert(self.entries@[old(self).index@[t] as int] == before[old(
                                self,
                            ).index@[t] as int]);
                        }
                    }
                }
            },
        }
        proof {
            assert(self@.counts =~= old(self)@.increment(key, label).counts);
        }
    }

    /// The sum of the spam counts of all tokens.
    pub fn spam_total(&self) -> (total: u64)
        requires
            self.wf(),
        ensures
            total == self@.spam_total,
    {
        let mut total: u64 = 0;
        let mut i: usize = 0;
        while i < self.entries.len()
            invariant
                i <= self.entries@.len(),
                total == spam_sum(self.entries@.take(i as int)),
                spam_sum(self.entries@) <= u64::MAX,
            decreases self.entries@.len() - i,
        {
            proof {
                assert(self.entries@.take(i + 1).drop_last() =~= self.entries@.take(i as int));
                lemma_prefix_sums(self.entries@, i + 1);
            }
            total = total + self.entries[i].counter.spam;
            i += 1;
        }
        proof {
            assert(self.entries@.take(i as int) =~= self.entries@);
        }
        total
    }

    /// The sum of the ham counts of all tokens.
    pub fn ham_total(&self) -> (total: u64)
        requires
            self.wf(),
        ensures
            total == self@.ham_total,
    {
        let mut total: u64 = 0;
        let mut i: usize = 0;
        while i < self.entries.len()
            invariant
                i <= self.entries@.len(),
                total == ham_sum(self.entries@.take(i as int)),
                ham_sum(self.entries@) <= u64::MAX,
            decreases self.entries@.len() - i,
        {
            proof {
                assert(self.entries@.take(i + 1).drop_last() =~= self.entries@.take(i as int));
                lemma_prefix_sums(self.entries@, i + 1);
            }
            total = total + self.entries[i].counter.ham;
            i += 1;
        }
        proof {
            assert(self.entries@.take(i as int) =~= self.entries@);
        }
        total
    }
}

proof fn lemma_prefix_sums(s: Seq<Entry>, n: int)
    requires
        0 <= n <= s.len(),
    ensures
        spam_sum(s.take(n)) <= spam_sum(s),
        ham_sum(s.take(n)) <= ham_sum(s),
    decreases s.len() - n,
{
    if n == s.len() {
        assert(s.take(n) =~= s);
    } else {
        assert(s.take(n + 1).drop_last() =~= s.take(n));
        lemma_prefix_sums(s, n + 1);
    }
}

} // verus!
