use vstd::prelude::*;

verus! {

use vstd::laws_eq::obeys_concrete_eq;

/// A table of symbols, each owning a sub-interval `[start, end)` of
/// `[0, total)`.
pub trait SymbolModel<T: Eq> {
    /// The table is consistent, so that the laws below hold.
    spec fn model_wf(&self) -> bool;

    /// Sum of all counts.
    spec fn model_total(&self) -> nat;

    /// The symbol has an entry in the table.
    spec fn model_contains(&self, s: T) -> bool;

    /// The interval `(start, end)` that encodes the symbol.
    spec fn model_interval(&self, s: T) -> (int, int);

    /// The symbol, and the interval, that a value in `[0, total)` decodes to.
    spec fn model_lookup(&self, v: int) -> (T, int, int);

    /// What every consistent table guarantees: intervals lie in
    /// `[0, total)`, each value below `total` decodes to an interval that holds
    /// it, and a value in the interval of a symbol decodes to that symbol and
    /// that interval.
    proof fn lemma_model_laws(&self)
        requires
            self.model_wf(),
        ensures
            self.model_total() <= u32::MAX,
            forall|s: T| #[trigger]
                self.model_contains(s) ==> 0 <= self.model_interval(s).0 <= self.model_interval(s).1
                    <= self.model_total(),
            forall|v: int|
                0 <= v < self.model_total() ==> {
                    let r = #[trigger] self.model_lookup(v);
                    0 <= r.1 <= v < r.2 <= self.model_total()
                },
            forall|s: T, v: int|
                #[trigger] self.model_contains(s) && self.model_interval(s).0 <= v < self.model_interval(s).1
                    ==> #[trigger] self.model_lookup(v) == (s, self.model_interval(s).0, self.model_interval(s).1),
    ;

    fn contains(&self, s: &T) -> (r: bool)
        requires
            self.model_wf(),
        ensures
            r == self.model_contains(*s),
    ;

    fn total(&self) -> (r: u32)
        requires
            self.model_wf(),
        ensures
            r == self.model_total(),
    ;

    fn interval(&self, s: &T) -> (r: (u32, u32))
        requires
            self.model_wf(),
            self.model_contains(*s),
        ensures
            r.0 == self.model_interval(*s).0,
            r.1 == self.model_interval(*s).1,
    ;

    fn lookup(&self, v: u32) -> (r: (&T, u32, u32))
        requires
            self.model_wf(),
            v < self.model_total(),
        ensures
            (*r.0, r.1 as int, r.2 as int) == self.model_lookup(v as int),
    ;
}

/// Sum of the first `k` counts.
pub open spec fn prefix_sum(counts: Seq<u32>, k: int) -> int
    decreases k,
{
    if k <= 0 {
        0
    } else {
        prefix_sum(counts, k - 1) + counts[k - 1]
    }
}

/// Sum of all counts.
pub open spec fn count_sum(counts: Seq<u32>) -> int {
    prefix_sum(counts, counts.len() as int)
}

/// The first index at or after `k` that holds `s`, or the length if none does.
pub open spec fn first_index_from<T>(symbols: Seq<T>, s: T, k: int) -> int
    decreases symbols.len() - k,
{
    if k >= symbols.len() {
        symbols.len() as int
    } else if symbols[k] == s {
        k
    } else {
        first_index_from(symbols, s, k + 1)
    }
}

/// The first index at or after `k` whose interval ends above `v`, or the
/// length if none does.
pub open spec fn lookup_index_from(counts: Seq<u32>, v: int, k: int) -> int
    decreases counts.len() - k,
{
    if k >= counts.len() {
        counts.len() as int
    } else if v < prefix_sum(counts, k + 1) {
        k
    } else {
        lookup_index_from(counts, v, k + 1)
    }
}

/// One halving round: counts under 3 become 1, the others are halved.
pub open spec fn halve_counts(counts: Seq<u32>) -> Seq<u32> {
    Seq::new(counts.len(), |i: int| if counts[i] < 3 { 1u32 } else { (counts[i] / 2) as u32 })
}

/// The counts with every zero raised to one; their sum bounds the sum after
/// any halving round.
pub open spec fn raised_counts(counts: Seq<u32>) -> Seq<u32> {
    Seq::new(counts.len(), |i: int| if counts[i] == 0 { 1u32 } else { counts[i] })
}

/// Normalising goes on while the sum is at least a million; it can only end
/// when there are fewer than a million counts.
pub open spec fn normalizes(counts: Seq<u32>) -> bool {
    count_sum(counts) < 1_000_000 || counts.len() < 1_000_000
}

/// The counts after halving rounds until their sum is below a million.
pub open spec fn normalized_counts(counts: Seq<u32>) -> Seq<u32>
    decreases count_sum(raised_counts(counts)),
{
    if count_sum(counts) >= 1_000_000 && counts.len() < 1_000_000 {
        proof {
            lemma_halving_decreases(counts);
        }
        normalized_counts(halve_counts(counts))
    } else {
        counts
    }
}

/// How many halving rounds normalising makes.
pub open spec fn normalize_rounds(counts: Seq<u32>) -> nat
    decreases count_sum(raised_counts(counts)),
{
    if count_sum(counts) >= 1_000_000 && counts.len() < 1_000_000 {
        proof {
            lemma_halving_decreases(counts);
        }
        normalize_rounds(halve_counts(counts)) + 1
    } else {
        0
    }
}

/// Prefix sums are non-negative and grow with the prefix.
pub proof fn lemma_prefix_sum_mono(counts: Seq<u32>, i: int, k: int)
    requires
        0 <= i <= k <= counts.len(),
    ensures
        0 <= prefix_sum(counts, i) <= prefix_sum(counts, k),
    decreases k,
{
    if k > i {
        lemma_prefix_sum_mono(counts, i, k - 1);
    } else if i > 0 {
        lemma_prefix_sum_mono(counts, i - 1, i - 1);
    }
}

pub proof fn lemma_prefix_halve(counts: Seq<u32>, k: int)
    requires
        0 <= k <= counts.len(),
    ensures
        prefix_sum(halve_counts(counts), k) <= prefix_sum(raised_counts(counts), k),
        2 * prefix_sum(halve_counts(counts), k) <= prefix_sum(counts, k) + 2 * k,
        prefix_sum(counts, k) >= 0,
        prefix_sum(raised_counts(counts), k) >= 0,
        (forall|j: int| 0 <= j < k ==> counts[j] < 2) ==> prefix_sum(counts, k) <= k,
        (exists|j: int| 0 <= j < k && counts[j] >= 2) ==> prefix_sum(halve_counts(counts), k)
            < prefix_sum(raised_counts(counts), k),
    decreases k,
{
    if k > 0 {
        lemma_prefix_halve(counts, k - 1);
        if exists|j: int| 0 <= j < k && counts[j] >= 2 {
            let j = choose|j: int| 0 <= j < k && counts[j] >= 2;
            if j < k - 1 {
                assert(exists|j: int| 0 <= j < k - 1 && counts[j] >= 2);
            }
        }
    }
}

/// A halving round that normalising makes lowers the sum of the raised
/// counts, and every count it leaves is at least one.
pub proof fn lemma_halving_decreases(counts: Seq<u32>)
    requires
        count_sum(counts) >= 1_000_000,
        counts.len() < 1_000_000,
    ensures
        count_sum(raised_counts(halve_counts(counts))) < count_sum(raised_counts(counts)),
        count_sum(raised_counts(halve_counts(counts))) >= 0,
{
    let n = counts.len() as int;
    lemma_prefix_halve(counts, n);
    if !(exists|j: int| 0 <= j < n && counts[j] >= 2) {
        assert(forall|j: int| 0 <= j < n ==> counts[j] < 2);
    }
    assert(raised_counts(halve_counts(counts)) =~= halve_counts(counts));
    lemma_prefix_sum_mono(halve_counts(counts), 0, n);
}

/// Normalising keeps the order of the counts: a count no larger than
/// another stays no larger.
pub proof fn lemma_normalize_keeps_order(counts: Seq<u32>, i: int, j: int)
    requires
        0 <= i < counts.len(),
        0 <= j < counts.len(),
        counts[i] <= counts[j],
    ensures
        normalized_counts(counts).len() == counts.len(),
        normalized_counts(counts)[i] <= normalized_counts(counts)[j],
    decreases count_sum(raised_counts(counts)),
{
    if count_sum(counts) >= 1_000_000 && counts.len() < 1_000_000 {
        lemma_halving_decreases(counts);
        let h = halve_counts(counts);
        assert(h[i] <= h[j]);
        lemma_normalize_keeps_order(h, i, j);
    }
}

pub proof fn lemma_first_index_from<T>(symbols: Seq<T>, s: T, k: int)
    requires
        0 <= k <= symbols.len(),
    ensures
        k <= first_index_from(symbols, s, k) <= symbols.len(),
        first_index_from(symbols, s, k) < symbols.len() ==> symbols[first_index_from(symbols, s, k)] == s,
        forall|j: int| k <= j < first_index_from(symbols, s, k) ==> symbols[j] != s,
    decreases symbols.len() - k,
{
    if k < symbols.len() && symbols[k] != s {
        lemma_first_index_from(symbols, s, k + 1);
    }
}

pub proof fn lemma_lookup_index_from(counts: Seq<u32>, v: int, k: int)
    requires
        0 <= k <= counts.len(),
    ensures
        k <= lookup_index_from(counts, v, k) <= counts.len(),
        lookup_index_from(counts, v, k) < counts.len() ==> v < prefix_sum(
            counts,
            lookup_index_from(counts, v, k) + 1,
        ),
        forall|j: int| k <= j < lookup_index_from(counts, v, k) ==> v >= #[trigger] prefix_sum(counts, j + 1),
    decreases counts.len() - k,
{
    if k < counts.len() && v >= prefix_sum(counts, k + 1) {
        lemma_lookup_index_from(counts, v, k + 1);
    }
}

/// The symbol table and counts of a [`VectorCountSymbolModel`].
pub struct CountModel<T> {
    pub symbols: Seq<T>,
    pub counts: Seq<u32>,
    pub total: nat,
    pub norm_count: nat,
}

impl<T> CountModel<T> {
    /// One count per symbol, `total` is their sum, and both counters fit
    /// their machine type.
    pub open spec fn wf(self) -> bool {
        &&& self.counts.len() == self.symbols.len()
        &&& self.total == count_sum(self.counts)
        &&& self.total <= u32::MAX
        &&& self.norm_count <= u32::MAX
    }

    /// The index of the first entry for `s`.
    pub open spec fn index_of(self, s: T) -> int {
        first_index_from(self.symbols, s, 0)
    }

    /// The interval of the first entry for `s`: the sums of the counts
    /// before it and up to it.
    pub open spec fn interval(self, s: T) -> (int, int) {
        (prefix_sum(self.counts, self.index_of(s)), prefix_sum(self.counts, self.index_of(s) + 1))
    }

    /// The first entry whose interval ends above `v`, with its interval.
    pub open spec fn lookup(self, v: int) -> (T, int, int) {
        let i = lookup_index_from(self.counts, v, 0);
        (self.symbols[i], prefix_sum(self.counts, i), prefix_sum(self.counts, i + 1))
    }

    /// The counts with the first entry for `s` set to `c`.
    pub open spec fn with_count(self, s: T, c: u32) -> Seq<u32> {
        self.counts.update(self.index_of(s), c)
    }

    /// The counts with the first entry for `s` one higher.
    pub open spec fn incremented(self, s: T) -> Seq<u32> {
        self.counts.update(self.index_of(s), (self.counts[self.index_of(s)] + 1) as u32)
    }
}

/// A symbol model that keeps a count per symbol in a vector; a symbol's
/// interval is the sum of the counts before it up to the sum including it.
pub struct VectorCountSymbolModel<T: Eq> {
    symbols: Vec<T>,
    counts: Vec<u32>,
    total: u32,
    norm_count: u32,
}

impl<T: Eq> View for VectorCountSymbolModel<T> {
    type V = CountModel<T>;

    closed spec fn view(&self) -> CountModel<T> {
        CountModel {
            symbols: self.symbols@,
            counts: self.counts@,
            total: self.total as nat,
            norm_count: self.norm_count as nat,
        }
    }
}

pub proof fn lemma_prefix_sum_update(counts: Seq<u32>, i: int, c: u32, k: int)
    requires
        0 <= i < counts.len(),
        0 <= k <= counts.len(),
    ensures
        prefix_sum(counts.update(i, c), k) == prefix_sum(counts, k) + (if i < k {
            c - counts[i]
        } else {
            0
        }),
    decreases k,
{
    if k > 0 {
        lemma_prefix_sum_update(counts, i, c, k - 1);
    }
}

pub proof fn lemma_prefix_sum_ones(counts: Seq<u32>, k: int)
    requires
        0 <= k <= counts.len(),
        forall|j: int| 0 <= j < counts.len() ==> counts[j] == 1,
    ensures
        prefix_sum(counts, k) == k,
    decreases k,
{
    if k > 0 {
        lemma_prefix_sum_ones(counts, k - 1);
    }
}

impl<T: Eq> VectorCountSymbolModel<T> {
    /// The table is consistent and `==` on symbols is equality.
    pub open spec fn wf(&self) -> bool {
        &&& self@.wf()
        &&& obeys_concrete_eq::<T>()
    }

    /// A model with count 1 for every symbol.
    pub fn new(symbols: Vec<T>) -> (r: Self)
        requires
            symbols.len() <= u32::MAX,
            obeys_concrete_eq::<T>(),
        ensures
            r.wf(),
            r@ == (CountModel {
                symbols: symbols@,
                counts: Seq::new(symbols.len() as nat, |i: int| 1u32),
                total: symbols.len() as nat,
                norm_count: 0,
            }),
    {
        let mut counts: Vec<u32> = Vec::new();
        let mut i: usize = 0;
        while i < symbols.len()
            invariant
                i <= symbols.len(),
                counts@ == Seq::new(i as nat, |j: int| 1u32),
            decreases symbols.len() - i,
        {
            counts.push(1);
            i = i + 1;
            assert(counts@ =~= Seq::new(i as nat, |j: int| 1u32));
        }
        let length = symbols.len() as u32;
        proof {
            lemma_prefix_sum_ones(counts@, counts@.len() as int);
        }
        Self { symbols: symbols, counts: counts, total: length, norm_count: 0 }
    }

    /// The symbols, in table order.
    pub fn symbols(&self) -> (r: &Vec<T>)
        ensures
            r@ == self@.symbols,
    {
        &self.symbols
    }

    /// The count of each symbol, in table order.
    pub fn counts(&self) -> (r: &Vec<u32>)
        ensures
            r@ == self@.counts,
    {
        &self.counts
    }

    /// The index of the first entry for `s`.
    pub fn find_index(&self, s: &T) -> (r: usize)
        requires
            self.wf(),
            self@.symbols.contains(*s),
        ensures
            r == self@.index_of(*s),
            r < self@.symbols.len(),
    {
        proof {
            reveal(obeys_concrete_eq);
            lemma_first_index_from(self@.symbols, *s, 0);
        }
        let mut idx: usize = 0;
        while !(self.symbols[idx] == *s)
            invariant
                self.wf(),
                self@.symbols.contains(*s),
                idx <= self@.index_of(*s) < self@.symbols.len(),
                first_index_from(self@.symbols, *s, idx as int) == self@.index_of(*s),
            decreases self@.symbols.len() - idx,
        {
            proof {
                reveal(obeys_concrete_eq);
                lemma_first_index_from(self@.symbols, *s, 0);
                assert(idx < self@.index_of(*s));
                assert(self@.symbols.len() == self.symbols.len());
            }
            idx = idx + 1;
        }
        idx
    }

    /// Sets the count of `s` to `c`, then normalises.
    pub fn set_count(&mut self, s: &T, c: u32)
        requires
            old(self).wf(),
            old(self)@.symbols.contains(*s),
            count_sum(old(self)@.with_count(*s, c)) <= u32::MAX,
            normalizes(old(self)@.with_count(*s, c)),
            old(self)@.norm_count + normalize_rounds(old(self)@.with_count(*s, c)) <= u32::MAX,
        ensures
            final(self).wf(),
            final(self)@.symbols == old(self)@.symbols,
            final(self)@.counts == normalized_counts(old(self)@.with_count(*s, c)),
            final(self)@.norm_count == old(self)@.norm_count + normalize_rounds(old(self)@.with_count(*s, c)),
            final(self)@.total < 1_000_000,
            forall|i: int, j: int|
                0 <= i < old(self)@.counts.len() && 0 <= j < old(self)@.counts.len()
                    && old(self)@.with_count(*s, c)[i] <= old(self)@.with_count(*s, c)[j] ==> #[trigger] final(self)@.counts[i]
                    <= #[trigger] final(self)@.counts[j],
            old(self)@.total - old(self)@.counts[old(self)@.index_of(*s)] + c < 1_000_000 ==> {
                &&& final(self)@.counts == old(self)@.counts.update(old(self)@.index_of(*s), c)
                &&& final(self)@.total == old(self)@.total - old(self)@.counts[old(self)@.index_of(*s)] + c
                &&& final(self)@.norm_count == old(self)@.norm_count
            },
    {
        proof {
            lemma_with_count(old(self)@, *s, c);
            if old(self)@.total - old(self)@.counts[old(self)@.index_of(*s)] + c < 1_000_000 {
                lemma_normalize_below_a_million(old(self)@.with_count(*s, c));
                assert(old(self)@.with_count(*s, c) =~= old(self)@.counts.update(old(self)@.index_of(*s), c));
            }
        }
        let idx = self.find_index(s);
        proof {
            let n = self@.counts.len() as int;
            lemma_prefix_sum_update(self@.counts, idx as int, c, n);
            lemma_prefix_sum_update(self@.counts, idx as int, 0, n);
            lemma_prefix_sum_mono(self@.counts.update(idx as int, 0), 0, n);
        }
        self.total = self.total - self.counts[idx];
        self.counts.set(idx, c);
        self.total = self.total + self.counts[idx];
        self.normalize();
    }

    /// Adds one to the count of `s`, then normalises.
    pub fn incr_count(&mut self, s: &T)
        requires
            old(self).wf(),
            old(self)@.symbols.contains(*s),
            old(self)@.total < u32::MAX,
            normalizes(old(self)@.incremented(*s)),
            old(self)@.norm_count + normalize_rounds(old(self)@.incremented(*s)) <= u32::MAX,
        ensures
            final(self).wf(),
            final(self)@.symbols == old(self)@.symbols,
            final(self)@.counts == normalized_counts(old(self)@.incremented(*s)),
            final(self)@.norm_count == old(self)@.norm_count + normalize_rounds(old(self)@.incremented(*s)),
            final(self)@.total < 1_000_000,
            forall|i: int, j: int|
                0 <= i < old(self)@.counts.len() && 0 <= j < old(self)@.counts.len()
                    && old(self)@.incremented(*s)[i] <= old(self)@.incremented(*s)[j] ==> #[trigger] final(self)@.counts[i]
                    <= #[trigger] final(self)@.counts[j],
            old(self)@.total + 1 < 1_000_000 ==> {
                &&& final(self)@.counts == old(self)@.counts.update(
                    old(self)@.index_of(*s),
                    (old(self)@.counts[old(self)@.index_of(*s)] + 1) as u32,
                )
                &&& final(self)@.counts[old(self)@.index_of(*s)] == old(self)@.counts[old(self)@.index_of(*s)] + 1
                &&& final(self)@.total == old(self)@.total + 1
                &&& final(self)@.norm_count == old(self)@.norm_count
            },
    {
        proof {
            lemma_incremented(old(self)@, *s);
            if old(self)@.total + 1 < 1_000_000 {
                lemma_normalize_below_a_million(old(self)@.incremented(*s));
                let i = old(self)@.index_of(*s);
                assert(old(self)@.incremented(*s) =~= old(self)@.counts.update(
                    i,
                    (old(self)@.counts[i] + 1) as u32,
                ));
            }
        }
        let idx = self.find_index(s);
        proof {
            let n = self@.counts.len() as int;
            lemma_prefix_sum_update(self@.counts, idx as int, 0, n);
            lemma_prefix_sum_mono(self@.counts.update(idx as int, 0), 0, n);
            lemma_prefix_sum_update(self@.counts, idx as int, (self@.counts[idx as int] + 1) as u32, n);
        }
        self.total = self.total + 1;
        let bumped = self.counts[idx] + 1;
        self.counts.set(idx, bumped);
        self.normalize();
    }

    /// Halves the counts, counts under 3 becoming 1, until their sum is below
    /// a million, so that no interval gets too small a share.
    fn normalize(&mut self)
        requires
            old(self)@.wf(),
            obeys_concrete_eq::<T>(),
            normalizes(old(self)@.counts),
            old(self)@.norm_count + normalize_rounds(old(self)@.counts) <= u32::MAX,
        ensures
            final(self).wf(),
            final(self)@.symbols == old(self)@.symbols,
            final(self)@.counts == normalized_counts(old(self)@.counts),
            final(self)@.norm_count == old(self)@.norm_count + normalize_rounds(old(self)@.counts),
            final(self)@.total < 1_000_000,
            forall|i: int, j: int|
                0 <= i < old(self)@.counts.len() && 0 <= j < old(self)@.counts.len() && old(self)@.counts[i]
                    <= old(self)@.counts[j] ==> #[trigger] final(self)@.counts[i]
                    <= #[trigger] final(self)@.counts[j],
    {
        while self.total >= 1000000
            invariant
                self@.wf(),
                obeys_concrete_eq::<T>(),
                self@.symbols == old(self)@.symbols,
                normalizes(self@.counts),
                normalized_counts(self@.counts) == normalized_counts(old(self)@.counts),
                self@.norm_count + normalize_rounds(self@.counts) == old(self)@.norm_count
                    + normalize_rounds(old(self)@.counts),
                old(self)@.norm_count + normalize_rounds(old(self)@.counts) <= u32::MAX,
            decreases count_sum(raised_counts(self@.counts)),
        {
            let ghost c = self@.counts;
            let ghost n = c.len() as int;
            proof {
                lemma_halving_decreases(c);
                lemma_prefix_halve(c, n);
            }
            self.norm_count = self.norm_count + 1;
            let ghost nc = self.norm_count;
            let mut new_total: u32 = 0;
            let mut i: usize = 0;
            while i < self.symbols.len()
                invariant
                    0 <= i <= n,
                    n == c.len(),
                    n < 1_000_000,
                    self.symbols.len() == n,
                    self@.symbols == old(self)@.symbols,
                    self.norm_count == nc,
                    self.counts.len() == n,
                    forall|j: int| 0 <= j < i ==> self.counts@[j] == halve_counts(c)[j],
                    forall|j: int| i <= j < n ==> self.counts@[j] == c[j],
                    new_total == prefix_sum(halve_counts(c), i as int),
                    2 * prefix_sum(halve_counts(c), n) <= count_sum(c) + 2 * n,
                    count_sum(c) <= u32::MAX,
                decreases n - i,
            {
                proof {
                    lemma_prefix_sum_mono(halve_counts(c), i as int + 1, n);
                }
                let old_count = self.counts[i];
                let next: u32 = if old_count < 3 {
                    1
                } else {
                    old_count / 2
                };
                self.counts.set(i, next);
                new_total = new_total + next;
                i = i + 1;
            }
            assert(self.counts@ =~= halve_counts(c));
            assert(normalize_rounds(c) == normalize_rounds(halve_counts(c)) + 1);
            self.total = new_total;
        }
        proof {
            assert forall|i: int, j: int|
                0 <= i < old(self)@.counts.len() && 0 <= j < old(self)@.counts.len() && old(self)@.counts[i]
                    <= old(self)@.counts[j] implies #[trigger] self@.counts[i] <= #[trigger] self@.counts[j] by {
                lemma_normalize_keeps_order(old(self)@.counts, i, j);
            }
        }
    }
}

impl<T: Eq> SymbolModel<T> for VectorCountSymbolModel<T> {
    open spec fn model_wf(&self) -> bool {
        self.wf()
    }

    open spec fn model_total(&self) -> nat {
        self@.total
    }

    open spec fn model_contains(&self, s: T) -> bool {
        self@.symbols.contains(s)
    }

    open spec fn model_interval(&self, s: T) -> (int, int) {
        self@.interval(s)
    }

    open spec fn model_lookup(&self, v: int) -> (T, int, int) {
        self@.lookup(v)
    }

    proof fn lemma_model_laws(&self) {
        let m = self@;
        let n = m.counts.len() as int;
        assert forall|s: T| #[trigger] self.model_contains(s) implies 0 <= self.model_interval(s).0
            <= self.model_interval(s).1 <= self.model_total() by {
            lemma_first_index_from(m.symbols, s, 0);
            let i = m.index_of(s);
            if i == n {
                let j = choose|j: int| 0 <= j < m.symbols.len() && m.symbols[j] == s;
                assert(m.symbols[j] != s);
            }
            lemma_prefix_sum_mono(m.counts, i, i + 1);
            lemma_prefix_sum_mono(m.counts, i + 1, n);
        }
        assert forall|v: int| 0 <= v < self.model_total() implies {
            let r = #[trigger] self.model_lookup(v);
            0 <= r.1 <= v < r.2 <= self.model_total()
        } by {
            lemma_lookup_index_from(m.counts, v, 0);
            let i = lookup_index_from(m.counts, v, 0);
            if i == n {
                assert(n > 0);
                assert(v >= prefix_sum(m.counts, (n - 1) + 1));
            }
            if i > 0 {
                assert(v >= prefix_sum(m.counts, (i - 1) + 1));
            }
            lemma_prefix_sum_mono(m.counts, 0, i);
            lemma_prefix_sum_mono(m.counts, i + 1, n);
        }
        assert forall|s: T, v: int|
            #[trigger] self.model_contains(s) && self.model_interval(s).0 <= v < self.model_interval(s).1
                implies #[trigger] self.model_lookup(v) == (s, self.model_interval(s).0, self.model_interval(s).1) by {
            lemma_first_index_from(m.symbols, s, 0);
            lemma_lookup_index_from(m.counts, v, 0);
            let j = m.index_of(s);
            let i = lookup_index_from(m.counts, v, 0);
            if j == n {
                let k = choose|k: int| 0 <= k < m.symbols.len() && m.symbols[k] == s;
                assert(m.symbols[k] != s);
            }
            if i < j {
                lemma_prefix_sum_mono(m.counts, i + 1, j);
            }
            if i > j {
                assert(v >= prefix_sum(m.counts, j + 1));
            }
        }
    }

    fn contains(&self, s: &T) -> (r: bool) {
        proof {
            reveal(obeys_concrete_eq);
        }
        let mut idx: usize = 0;
        while idx < self.symbols.len()
            invariant
                self.wf(),
                idx <= self.symbols.len(),
                forall|j: int| 0 <= j < idx ==> self@.symbols[j] != *s,
            decreases self.symbols.len() - idx,
        {
            proof {
                reveal(obeys_concrete_eq);
            }
            if self.symbols[idx] == *s {
                return true;
            }
            idx = idx + 1;
        }
        false
    }

    fn interval(&self, s: &T) -> (r: (u32, u32)) {
        proof {
            reveal(obeys_concrete_eq);
            lemma_first_index_from(self@.symbols, *s, 0);
        }
        let mut sum: u32 = 0;
        let mut idx: usize = 0;
        while !(self.symbols[idx] == *s)
            invariant
                self.wf(),
                self@.symbols.contains(*s),
                idx <= self@.index_of(*s) < self@.symbols.len(),
                first_index_from(self@.symbols, *s, idx as int) == self@.index_of(*s),
                sum == prefix_sum(self@.counts, idx as int),
            decreases self@.symbols.len() - idx,
        {
            proof {
                reveal(obeys_concrete_eq);
                lemma_first_index_from(self@.symbols, *s, 0);
                assert(idx < self@.index_of(*s));
                assert(self@.symbols.len() == self.symbols.len());
                lemma_prefix_sum_mono(self@.counts, idx as int + 1, self@.counts.len() as int);
            }
            sum = sum + self.counts[idx];
            idx = idx + 1;
        }
        proof {
            lemma_prefix_sum_mono(self@.counts, idx as int + 1, self@.counts.len() as int);
        }
        (sum, sum + self.counts[idx])
    }

    fn lookup(&self, v: u32) -> (r: (&T, u32, u32)) {
        proof {
            lemma_lookup_index_from(self@.counts, v as int, 0);
        }
        let ghost n = self@.counts.len() as int;
        let mut sum: u32 = 0;
        let mut i: usize = 0;
        proof {
            if n == 0 {
                assert(false);
            }
            lemma_prefix_sum_mono(self@.counts, 1, n);
            assert(prefix_sum(self@.counts, 0) == 0);
            assert(prefix_sum(self@.counts, 1) == self@.counts[0]);
        }
        while v >= sum + self.counts[i]
            invariant
                self.wf(),
                n == self@.counts.len(),
                v < self@.total,
                0 <= i < n,
                n == self.counts.len(),
                sum == prefix_sum(self@.counts, i as int),
                sum + self@.counts[i as int] <= self@.total,
                sum <= v,
                lookup_index_from(self@.counts, v as int, i as int) == lookup_index_from(self@.counts, v as int, 0),
            decreases n - i,
        {
            proof {
                lemma_prefix_sum_mono(self@.counts, i as int + 1, n);
                if i + 1 == n {
                    assert(false);
                }
            }
            sum = sum + self.counts[i];
            i = i + 1;
            proof {
                lemma_prefix_sum_mono(self@.counts, i as int + 1, n);
            }
        }
        (&self.symbols[i], sum, sum + self.counts[i])
    }

    fn total(&self) -> (r: u32) {
        self.total
    }
}

/// Normalising leaves counts whose sum is below a million as they are.
pub proof fn lemma_normalize_below_a_million(counts: Seq<u32>)
    requires
        count_sum(counts) < 1_000_000,
    ensures
        normalized_counts(counts) == counts,
        normalize_rounds(counts) == 0,
{
}

/// A normalising round, while the sum is at least a million: every count
/// under 3 becomes 1 and every other count `c` becomes `c / 2`, rounded
/// down; normalising goes on from there.
pub proof fn lemma_normalize_round(counts: Seq<u32>)
    requires
        count_sum(counts) >= 1_000_000,
        counts.len() < 1_000_000,
    ensures
        normalized_counts(counts) == normalized_counts(
            Seq::new(counts.len(), |i: int| if counts[i] < 3 { 1u32 } else { (counts[i] / 2) as u32 }),
        ),
        normalize_rounds(counts) == 1 + normalize_rounds(
            Seq::new(counts.len(), |i: int| if counts[i] < 3 { 1u32 } else { (counts[i] / 2) as u32 }),
        ),
{
    let next = Seq::new(counts.len(), |i: int| if counts[i] < 3 { 1u32 } else { (counts[i] / 2) as u32 });
    assert(halve_counts(counts) =~= next);
}

/// When one round brings the sum below a million, each count `c` ends as 1
/// if `c < 3` and as `c / 2`, rounded down, otherwise.
pub proof fn lemma_normalize_one_round(counts: Seq<u32>, i: int)
    requires
        count_sum(counts) >= 1_000_000,
        counts.len() < 1_000_000,
        count_sum(
            Seq::new(counts.len(), |j: int| if counts[j] < 3 { 1u32 } else { (counts[j] / 2) as u32 }),
        ) < 1_000_000,
        0 <= i < counts.len(),
    ensures
        normalized_counts(counts).len() == counts.len(),
        normalized_counts(counts)[i] == if counts[i] < 3 {
            1
        } else {
            counts[i] / 2
        },
        normalize_rounds(counts) == 1,
{
    lemma_normalize_round(counts);
    let next = Seq::new(counts.len(), |j: int| if counts[j] < 3 { 1u32 } else { (counts[j] / 2) as u32 });
    lemma_normalize_below_a_million(next);
}

/// The symbol `s` is found at the first index that holds it.
pub proof fn lemma_index_of<T>(m: CountModel<T>, s: T)
    requires
        m.symbols.contains(s),
    ensures
        0 <= m.index_of(s) < m.symbols.len(),
        m.symbols[m.index_of(s)] == s,
        forall|j: int| 0 <= j < m.index_of(s) ==> m.symbols[j] != s,
{
    lemma_first_index_from(m.symbols, s, 0);
    if m.index_of(s) == m.symbols.len() {
        let k = choose|k: int| 0 <= k < m.symbols.len() && m.symbols[k] == s;
        assert(m.symbols[k] != s);
    }
}

/// Setting a count: the count of `s` becomes `c`, whatever it was, every
/// other count stays, and the sum changes by the difference.
pub proof fn lemma_with_count<T>(m: CountModel<T>, s: T, c: u32)
    requires
        m.wf(),
        m.symbols.contains(s),
    ensures
        m.with_count(s, c).len() == m.counts.len(),
        m.with_count(s, c)[m.index_of(s)] == c,
        forall|j: int| 0 <= j < m.counts.len() && j != m.index_of(s) ==> #[trigger] m.with_count(s, c)[j] == m.counts[j],
        count_sum(m.with_count(s, c)) == m.total - m.counts[m.index_of(s)] + c,
{
    lemma_index_of(m, s);
    let n = m.counts.len() as int;
    lemma_prefix_sum_update(m.counts, m.index_of(s), c, n);
}

/// Incrementing a count: the count of `s` becomes one larger, whatever it
/// was, every other count stays, and the sum becomes one larger.
pub proof fn lemma_incremented<T>(m: CountModel<T>, s: T)
    requires
        m.wf(),
        m.symbols.contains(s),
        m.total < u32::MAX,
    ensures
        m.incremented(s).len() == m.counts.len(),
        m.incremented(s)[m.index_of(s)] == m.counts[m.index_of(s)] + 1,
        forall|j: int| 0 <= j < m.counts.len() && j != m.index_of(s) ==> #[trigger] m.incremented(s)[j] == m.counts[j],
        count_sum(m.incremented(s)) == m.total + 1,
{
    lemma_index_of(m, s);
    let n = m.counts.len() as int;
    let i = m.index_of(s);
    lemma_prefix_sum_update(m.counts, i, 0, n);
    lemma_prefix_sum_mono(m.counts.update(i, 0), 0, n);
    lemma_prefix_sum_update(m.counts, i, (m.counts[i] + 1) as u32, n);
}

/// English letter frequencies, per thousand, for `a` to `z`.
pub open spec fn letter_weights() -> Seq<u32> {
    seq![
        82u32, 15, 28, 43, 127, 22, 20, 61, 70, 2, 8, 40, 24, 67, 75, 19, 1, 60, 63, 91, 28, 10, 24, 2, 20,
        1,
    ]
}

/// A weight held to `[1, 1000]`.
pub open spec fn clamp_weight(w: u32) -> u32 {
    if w < 1 {
        1
    } else if w > 1000 {
        1000
    } else {
        w
    }
}

/// The weight of byte `b` in the table: the letter's weight for ASCII
/// letters of either case, 1 for every other byte.
pub open spec fn byte_weight(b: int) -> u32 {
    if 65 <= b < 91 {
        clamp_weight(letter_weights()[b - 65])
    } else if 97 <= b < 123 {
        clamp_weight(letter_weights()[b - 97])
    } else {
        1
    }
}

/// The weight of each letter, lower or upper case, is its English frequency
/// per thousand; every byte that is not an ASCII letter weighs 1.
pub proof fn lemma_english_letter_weights()
    ensures
        byte_weight(97) == 82 && byte_weight(65) == 82,  // a
        byte_weight(98) == 15 && byte_weight(66) == 15,  // b
        byte_weight(99) == 28 && byte_weight(67) == 28,  // c
        byte_weight(100) == 43 && byte_weight(68) == 43,  // d
        byte_weight(101) == 127 && byte_weight(69) == 127,  // e
        byte_weight(102) == 22 && byte_weight(70) == 22,  // f
        byte_weight(103) == 20 && byte_weight(71) == 20,  // g
        byte_weight(104) == 61 && byte_weight(72) == 61,  // h
        byte_weight(105) == 70 && byte_weight(73) == 70,  // i
        byte_weight(106) == 2 && byte_weight(74) == 2,  // j
        byte_weight(107) == 8 && byte_weight(75) == 8,  // k
        byte_weight(108) == 40 && byte_weight(76) == 40,  // l
        byte_weight(109) == 24 && byte_weight(77) == 24,  // m
        byte_weight(110) == 67 && byte_weight(78) == 67,  // n
        byte_weight(111) == 75 && byte_weight(79) == 75,  // o
        byte_weight(112) == 19 && byte_weight(80) == 19,  // p
        byte_weight(113) == 1 && byte_weight(81) == 1,  // q
        byte_weight(114) == 60 && byte_weight(82) == 60,  // r
        byte_weight(115) == 63 && byte_weight(83) == 63,  // s
        byte_weight(116) == 91 && byte_weight(84) == 91,  // t
        byte_weight(117) == 28 && byte_weight(85) == 28,  // u
        byte_weight(118) == 10 && byte_weight(86) == 10,  // v
        byte_weight(119) == 24 && byte_weight(87) == 24,  // w
        byte_weight(120) == 2 && byte_weight(88) == 2,  // x
        byte_weight(121) == 20 && byte_weight(89) == 20,  // y
        byte_weight(122) == 1 && byte_weight(90) == 1,  // z
        forall|b: int| 0 <= b < 256 && !(65 <= b < 91) && !(97 <= b < 123) ==> #[trigger] byte_weight(b) == 1,
        forall|b: int| 0 <= b < 256 ==> 1 <= #[trigger] byte_weight(b) <= 127,
{
    assert forall|b: int| 0 <= b < 256 implies 1 <= #[trigger] byte_weight(b) <= 127 by {
        if 65 <= b < 91 {
            assert(letter_weights()[b - 65] <= 127);
        } else if 97 <= b < 123 {
            assert(letter_weights()[b - 97] <= 127);
        }
    }
}

/// A table of 256 weights, one per byte value, that favours English letters.
pub fn ascii_english_letter_weights_1000() -> (table: Vec<u32>)
    ensures
        table.len() == 256,
        forall|b: int| 0 <= b < 256 ==> #[trigger] table@[b] == byte_weight(b),
{
    let w: [u32; 26] = [
        82,  // a
        15,  // b
        28,  // c
        43,  // d
        127,  // e
        22,  // f
        20,  // g
        61,  // h
        70,  // i
        2,  // j
        8,  // k
        40,  // l
        24,  // m
        67,  // n
        75,  // o
        19,  // p
        1,  // q
        60,  // r
        63,  // s
        91,  // t
        28,  // u
        10,  // v
        24,  // w
        2,  // x
        20,  // y
        1,  // z
    ];
    assert(w@ =~= letter_weights());
    let mut table: Vec<u32> = Vec::new();
    let mut k: usize = 0;
    while k < 256
        invariant
            k <= 256,
            table@ == Seq::new(k as nat, |j: int| 1u32),
        decreases 256 - k,
    {
        table.push(1);
        k = k + 1;
        assert(table@ =~= Seq::new(k as nat, |j: int| 1u32));
    }
    let mut i: usize = 0;
    while i < 26
        invariant
            i <= 26,
            w@ == letter_weights(),
            table.len() == 256,
            forall|b: int|
                0 <= b < 256 ==> #[trigger] table@[b] == if (65 <= b < 65 + i) || (97 <= b < 97 + i) {
                    byte_weight(b)
                } else {
                    1u32
                },
        decreases 26 - i,
    {
        let upper = 65 + i;
        let lower = 97 + i;
        let wi = w[i];
        let clamped = if wi < 1 {
            1
        } else if wi > 1000 {
            1000
        } else {
            wi
        };
        table.set(upper, clamped);
        table.set(lower, clamped);
        i = i + 1;
    }
    table
}

} // verus!
