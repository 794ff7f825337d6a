//! A symbol-frequency model: each symbol of a fixed alphabet carries an
//! integer count, and the half-open intervals `[cum(i), cum(i+1))` of the
//! cumulative counts partition `[0, total)`.
//!
//! The encoder asks for a symbol's interval, the decoder looks a value up in
//! the partition; both sides mutate the counts in lockstep.  Whenever the
//! total weight reaches 1,000,000 every count is halved (counts below 3 are
//! clamped to 1) until the total is back under the bound, so the coder's
//! fixed-width products cannot overflow and no symbol ever loses its spot.

use vstd::prelude::*;

verus! {

/// The total weight is renormalized back below this bound.
pub const WEIGHT_LIMIT: u32 = 1_000_000;

/// Symbols the model can hold: types whose equality test is exact.
pub trait Symbol: Sized {
    /// Equality of two symbols, with its outcome visible to specifications.
    fn sym_eq(&self, other: &Self) -> (r: bool)
        ensures
            r == (self == other),
    ;
}

impl Symbol for u8 {
    fn sym_eq(&self, other: &Self) -> (r: bool)
        ensures
            r == (self == other),
    {
        *self == *other
    }
}

impl Symbol for char {
    fn sym_eq(&self, other: &Self) -> (r: bool)
        ensures
            r == (self == other),
    {
        *self == *other
    }
}

/// Sum of the first `i` counts: the cumulative weight strictly below index `i`.
pub open spec fn cum(c: Seq<u32>, i: int) -> int
    decreases i,
{
    if i <= 0 {
        0
    } else {
        cum(c, i - 1) + c[i - 1]
    }
}

/// The first index at or after `i` whose cumulative interval reaches past `v`.
pub open spec fn lookup_idx(c: Seq<u32>, v: int, i: int) -> int
    decreases c.len() - i,
        when 0 <= i <= c.len()
{
    if i >= c.len() {
        i
    } else if v < cum(c, i + 1) {
        i
    } else {
        lookup_idx(c, v, i + 1)
    }
}

/// One renormalization pass: every count is halved, counts below 3 become 1.
pub open spec fn halved(c: Seq<u32>) -> Seq<u32> {
    c.map(|i: int, x: u32| if x < 3 { 1u32 } else { x / 2 })
}

/// The counts after increasing the count at `i` by one.
pub open spec fn bumped(c: Seq<u32>, i: int) -> Seq<u32> {
    c.update(i, (c[i] + 1) as u32)
}

pub proof fn lemma_cum_nonneg(c: Seq<u32>, i: int)
    ensures
        cum(c, i) >= 0,
    decreases i,
{
    if i > 0 {
        lemma_cum_nonneg(c, i - 1);
    }
}

pub proof fn lemma_cum_mono(c: Seq<u32>, i: int, j: int)
    requires
        i <= j,
    ensures
        cum(c, i) <= cum(c, j),
    decreases j - i,
{
    if i < j {
        lemma_cum_mono(c, i, j - 1);
    }
}

pub proof fn lemma_cum_all_ones(c: Seq<u32>, j: int)
    requires
        0 <= j <= c.len(),
        forall|k: int| 0 <= k < c.len() ==> c[k] == 1,
    ensures
        cum(c, j) == j,
    decreases j,
{
    if j > 0 {
        lemma_cum_all_ones(c, j - 1);
    }
}

pub proof fn lemma_cum_ge_len(c: Seq<u32>, j: int)
    requires
        0 <= j <= c.len(),
        forall|k: int| 0 <= k < c.len() ==> c[k] >= 1,
    ensures
        cum(c, j) >= j,
    decreases j,
{
    if j > 0 {
        lemma_cum_ge_len(c, j - 1);
    }
}

pub proof fn lemma_cum_update(c: Seq<u32>, i: int, x: u32, j: int)
    requires
        0 <= i < c.len(),
        0 <= j <= c.len(),
    ensures
        cum(c.update(i, x), j) == cum(c, j) + (if i < j {
            x - c[i]
        } else {
            0
        }),
    decreases j,
{
    if j > 0 {
        lemma_cum_update(c, i, x, j - 1);
    }
}

pub proof fn lemma_halved_cum(c: Seq<u32>, j: int)
    requires
        0 <= j <= c.len(),
        forall|k: int| 0 <= k < c.len() ==> c[k] >= 1,
    ensures
        halved(c).len() == c.len(),
        2 * cum(halved(c), j) <= cum(c, j) + j,
    decreases j,
{
    if j > 0 {
        lemma_halved_cum(c, j - 1);
    }
}

/// Repeated renormalization: halve all counts until the total weight is back
/// under `WEIGHT_LIMIT`.
pub open spec fn renorm(c: Seq<u32>) -> Seq<u32>
    decreases cum(c, c.len() as int),
        when 1 <= c.len() < WEIGHT_LIMIT && (forall|k: int| 0 <= k < c.len() ==> c[k] >= 1)
{
    if cum(c, c.len() as int) >= WEIGHT_LIMIT {
        proof {
            lemma_cum_ge_len(c, c.len() as int);
            lemma_halved_cum(c, c.len() as int);
            lemma_cum_nonneg(halved(c), c.len() as int);
        }
        renorm(halved(c))
    } else {
        c
    }
}

/// Renormalization keeps every count at least 1, keeps the length, and lands
/// strictly under the weight bound.
pub proof fn lemma_renorm(c: Seq<u32>)
    requires
        1 <= c.len() < WEIGHT_LIMIT,
        forall|k: int| 0 <= k < c.len() ==> c[k] >= 1,
    ensures
        renorm(c).len() == c.len(),
        forall|k: int| 0 <= k < renorm(c).len() ==> renorm(c)[k] >= 1,
        cum(renorm(c), renorm(c).len() as int) < WEIGHT_LIMIT,
    decreases cum(c, c.len() as int),
{
    if cum(c, c.len() as int) >= WEIGHT_LIMIT {
        lemma_cum_ge_len(c, c.len() as int);
        lemma_halved_cum(c, c.len() as int);
        lemma_cum_nonneg(halved(c), c.len() as int);
        assert(forall|k: int| 0 <= k < halved(c).len() ==> halved(c)[k] >= 1);
        lemma_renorm(halved(c));
    }
}

pub struct VectorCountSymbolModel<T: Symbol> {
    pub symbols: Vec<T>,
    pub counts: Vec<u32>,
    pub total: u32,
}

impl<T: Symbol> VectorCountSymbolModel<T> {
    /// The structural part of the invariant: lengths agree, the alphabet is
    /// nonempty, smaller than the weight bound and free of duplicates, and
    /// every count is at least 1.
    pub open spec fn wf_counts(self) -> bool {
        &&& self.counts@.len() == self.symbols@.len()
        &&& 1 <= self.symbols@.len() < WEIGHT_LIMIT
        &&& forall|i: int| 0 <= i < self.counts@.len() ==> self.counts@[i] >= 1
        &&& forall|i: int, j: int|
            0 <= i < j < self.symbols@.len() ==> self.symbols@[i] != self.symbols@[j]
    }

    /// The full invariant: additionally the stored total is the sum of the
    /// counts and sits strictly under the weight bound.
    pub open spec fn inv(self) -> bool {
        &&& self.wf_counts()
        &&& self.total == cum(self.counts@, self.counts@.len() as int)
        &&& self.total < WEIGHT_LIMIT
    }

    /// The index at which a symbol sits in the alphabet.
    pub open spec fn idx_of(self, s: T) -> int {
        self.symbols@.index_of(s)
    }

    /// A fresh model: every symbol of the alphabet starts with count 1.
    pub fn new(symbols: Vec<T>) -> (r: Self)
        requires
            1 <= symbols@.len() < WEIGHT_LIMIT,
            forall|i: int, j: int| 0 <= i < j < symbols@.len() ==> symbols@[i] != symbols@[j],
        ensures
            r.inv(),
            r.symbols@ == symbols@,
            r.counts@.len() == symbols@.len(),
            forall|i: int| 0 <= i < r.counts@.len() ==> r.counts@[i] == 1,
            r.total == symbols@.len(),
    {
        let mut counts: Vec<u32> = Vec::new();
        let mut i: usize = 0;
        let n: usize = symbols.len();
        while i < n
            invariant
                i <= n,
                n == symbols@.len(),
                counts@.len() == i,
                forall|j: int| 0 <= j < i ==> counts@[j] == 1,
            decreases n - i,
        {
            counts.push(1);
            i += 1;
        }
        proof {
            lemma_cum_all_ones(counts@, counts@.len() as int);
        }
        let length: u32 = n as u32;
        Self { symbols, counts, total: length }
    }

    /// Where a symbol sits in the alphabet's fixed declaration order.
    pub fn find_index(&self, s: &T) -> (r: usize)
        requires
            self.inv(),
            self.symbols@.contains(*s),
        ensures
            r < self.symbols@.len(),
            self.symbols@[r as int] == *s,
            r == self.idx_of(*s),
    {
        let n: usize = self.symbols.len();
        let mut idx: usize = 0;
        while idx < n
            invariant
                self.inv(),
                self.symbols@.contains(*s),
                idx <= n,
                n == self.symbols@.len(),
                forall|j: int| 0 <= j < idx ==> self.symbols@[j] != *s,
            decreases n - idx,
        {
            if self.symbols[idx].sym_eq(s) {
                proof {
                    let k = self.idx_of(*s);
                    assert(0 <= k < self.symbols@.len() && self.symbols@[k] == *s);
                }
                return idx;
            }
            idx += 1;
        }
        proof {
            let k = self.idx_of(*s);
            assert(0 <= k < self.symbols@.len() && self.symbols@[k] == *s);
            assert(false);
        }
        0
    }

    /// Whether the model's alphabet holds the symbol.
    pub fn contains(&self, s: &T) -> (r: bool)
        requires
            self.inv(),
        ensures
            r == self.symbols@.contains(*s),
    {
        let n: usize = self.symbols.len();
        let mut idx: usize = 0;
        while idx < n
            invariant
                idx <= n,
                n == self.symbols@.len(),
                forall|j: int| 0 <= j < idx ==> self.symbols@[j] != *s,
            decreases n - idx,
        {
            if self.symbols[idx].sym_eq(s) {
                return true;
            }
            idx += 1;
        }
        false
    }

    /// The model's total weight.
    pub fn total(&self) -> (r: u32)
        ensures
            r == self.total,
    {
        self.total
    }

    /// The half-open interval `[lo, hi)` of a symbol inside `[0, total)`:
    /// the counts of all earlier symbols, then this symbol's count.
    #[verifier::loop_isolation(false)]
    pub fn interval(&self, s: &T) -> (r: (u32, u32))
        requires
            self.inv(),
            self.symbols@.contains(*s),
        ensures
            r.0 == cum(self.counts@, self.idx_of(*s)),
            r.1 == cum(self.counts@, self.idx_of(*s) + 1),
            r.0 < r.1 <= self.total,
    {
        let n: usize = self.symbols.len();
        let mut sum: u32 = 0;
        let mut idx: usize = 0;
        while idx < n
            invariant
                idx <= n,
                sum == cum(self.counts@, idx as int),
                forall|j: int| 0 <= j < idx ==> self.symbols@[j] != *s,
            decreases n - idx,
        {
            proof {
                lemma_cum_mono(self.counts@, idx as int + 1, n as int);
                lemma_cum_nonneg(self.counts@, idx as int);
            }
            if self.symbols[idx].sym_eq(s) {
                proof {
                    let k = self.idx_of(*s);
                    assert(0 <= k < self.symbols@.len() && self.symbols@[k] == *s);
                }
                let c = self.counts[idx];
                return (sum, sum + c);
            }
            sum = sum + self.counts[idx];
            idx += 1;
        }
        proof {
            let k = self.idx_of(*s);
            assert(0 <= k < self.symbols@.len() && self.symbols@[k] == *s);
            assert(false);
        }
        (0, 0)
    }

    /// The unique symbol whose interval holds `v`, with that interval.
    #[verifier::loop_isolation(false)]
    pub fn lookup<'a>(&'a self, v: u32) -> (r: (&'a T, u32, u32))
        requires
            self.inv(),
            v < self.total,
        ensures
            ({
                let i = lookup_idx(self.counts@, v as int, 0);
                &&& 0 <= i < self.symbols@.len()
                &&& *r.0 == self.symbols@[i]
                &&& r.1 == cum(self.counts@, i)
                &&& r.2 == cum(self.counts@, i + 1)
                &&& r.1 <= v < r.2
            }),
    {
        let n: usize = self.symbols.len();
        let mut sum: u32 = 0;
        let mut idx: usize = 0;
        while idx < n
            invariant
                idx <= n,
                sum == cum(self.counts@, idx as int),
                v >= sum,
                lookup_idx(self.counts@, v as int, 0) == lookup_idx(
                    self.counts@,
                    v as int,
                    idx as int,
                ),
            decreases n - idx,
        {
            proof {
                lemma_cum_mono(self.counts@, idx as int + 1, n as int);
                lemma_cum_nonneg(self.counts@, idx as int);
            }
            let int_end = sum + self.counts[idx];
            if v < int_end {
                return (&self.symbols[idx], sum, int_end);
            }
            sum = int_end;
            idx += 1;
        }
        proof {
            assert(false);
        }
        (&self.symbols[0], 0, 0)
    }

    /// Raise the count of a symbol by one (and the total with it), then
    /// renormalize if the total has reached the weight bound.
    pub fn incr_count(&mut self, s: &T)
        requires
            old(self).inv(),
            old(self).symbols@.contains(*s),
        ensures
            final(self).inv(),
            final(self).symbols@ == old(self).symbols@,
            final(self).counts@ == renorm(bumped(old(self).counts@, old(self).idx_of(*s))),
    {
        let idx = self.find_index(s);
        proof {
            lemma_cum_mono(self.counts@, idx as int + 1, self.counts@.len() as int);
            lemma_cum_nonneg(self.counts@, idx as int);
        }
        let c0 = self.counts[idx];
        self.counts.set(idx, c0 + 1);
        self.total = self.total + 1;
        proof {
            lemma_cum_update(
                old(self).counts@,
                idx as int,
                (c0 + 1) as u32,
                old(self).counts@.len() as int,
            );
        }
        self.normalize();
    }

    /// Set the count of a symbol outright, then renormalize if the total has
    /// reached the weight bound.
    pub fn set_count(&mut self, s: &T, c: u32)
        requires
            old(self).inv(),
            old(self).symbols@.contains(*s),
            c >= 1,
            old(self).total - old(self).counts@[old(self).idx_of(*s)] + c <= u32::MAX,
        ensures
            final(self).inv(),
            final(self).symbols@ == old(self).symbols@,
            final(self).counts@ == renorm(old(self).counts@.update(old(self).idx_of(*s), c)),
    {
        let idx = self.find_index(s);
        proof {
            lemma_cum_mono(self.counts@, idx as int + 1, self.counts@.len() as int);
            lemma_cum_nonneg(self.counts@, idx as int);
        }
        let c0 = self.counts[idx];
        self.total = self.total - c0;
        self.counts.set(idx, c);
        self.total = self.total + c;
        proof {
            lemma_cum_update(old(self).counts@, idx as int, c, old(self).counts@.len() as int);
        }
        self.normalize();
    }

    /// Halve every count until the total weight is back under the bound.
    #[verifier::loop_isolation(false)]
    fn normalize(&mut self)
        requires
            old(self).wf_counts(),
            old(self).total == cum(old(self).counts@, old(self).counts@.len() as int),
        ensures
            final(self).inv(),
            final(self).symbols@ == old(self).symbols@,
            final(self).counts@ == renorm(old(self).counts@),
    {
        proof {
            lemma_renorm(old(self).counts@);
        }
        while self.total >= WEIGHT_LIMIT
            invariant
                self.wf_counts(),
                self.symbols@ == old(self).symbols@,
                self.counts@.len() == old(self).counts@.len(),
                self.total == cum(self.counts@, self.counts@.len() as int),
                renorm(self.counts@) == renorm(old(self).counts@),
            decreases self.total,
        {
            proof {
                lemma_halved_cum(self.counts@, self.counts@.len() as int);
                lemma_cum_ge_len(self.counts@, self.counts@.len() as int);
            }
            self.halve_counts();
        }
    }

    /// One renormalization pass over the counts, recomputing the total.
    #[verifier::loop_isolation(false)]
    fn halve_counts(&mut self)
        requires
            old(self).wf_counts(),
            cum(old(self).counts@, old(self).counts@.len() as int) <= u32::MAX,
        ensures
            final(self).wf_counts(),
            final(self).symbols@ == old(self).symbols@,
            final(self).counts@ == halved(old(self).counts@),
            final(self).total == cum(final(self).counts@, final(self).counts@.len() as int),
    {
        let n: usize = self.counts.len();
        let mut j: usize = 0;
        while j < n
            invariant
                j <= n,
                self.counts@.len() == n,
                self.symbols@ == old(self).symbols@,
                forall|k: int| 0 <= k < j ==> self.counts@[k] == halved(old(self).counts@)[k],
                forall|k: int| j <= k < n ==> self.counts@[k] == old(self).counts@[k],
            decreases n - j,
        {
            let cj = self.counts[j];
            let nv: u32 = if cj < 3 {
                1
            } else {
                cj / 2
            };
            self.counts.set(j, nv);
            j += 1;
        }
        proof {
            assert(self.counts@ =~= halved(old(self).counts@));
            lemma_halved_cum(old(self).counts@, n as int);
        }
        let mut sum: u32 = 0;
        let mut j2: usize = 0;
        while j2 < n
            invariant
                j2 <= n,
                sum == cum(self.counts@, j2 as int),
            decreases n - j2,
        {
            proof {
                lemma_cum_mono(self.counts@, j2 as int + 1, n as int);
                lemma_cum_nonneg(self.counts@, j2 as int);
            }
            sum = sum + self.counts[j2];
            j2 += 1;
        }
        self.total = sum;
    }
}

pub proof fn lemma_lookup_from(c: Seq<u32>, v: int, i: int)
    requires
        0 <= i <= c.len(),
        cum(c, i) <= v < cum(c, c.len() as int),
    ensures
        i <= lookup_idx(c, v, i) < c.len(),
        cum(c, lookup_idx(c, v, i)) <= v < cum(c, lookup_idx(c, v, i) + 1),
    decreases c.len() - i,
{
    if i >= c.len() {
        assert(false);
    } else if v < cum(c, i + 1) {
    } else {
        lemma_lookup_from(c, v, i + 1);
    }
}

pub proof fn lemma_dual_from(c: Seq<u32>, i: int, v: int, j: int)
    requires
        0 <= j <= i < c.len(),
        cum(c, i) <= v < cum(c, i) + c[i],
    ensures
        lookup_idx(c, v, j) == i,
    decreases i - j,
{
    if j == i {
        assert(cum(c, i + 1) == cum(c, i) + c[i]);
    } else {
        lemma_cum_mono(c, j + 1, i);
        lemma_dual_from(c, i, v, j + 1);
    }
}

/// Interval/lookup duality: for a symbol `s` of the model and any value `v`
/// inside `s`'s interval `[lo, hi)`, looking `v` up finds exactly `s`'s index
/// (and so returns `s` with that same interval).
pub proof fn lemma_interval_lookup_duality<T: Symbol>(m: VectorCountSymbolModel<T>, s: T, v: int)
    requires
        m.inv(),
        m.symbols@.contains(s),
        cum(m.counts@, m.idx_of(s)) <= v < cum(m.counts@, m.idx_of(s)) + m.counts@[m.idx_of(s)],
    ensures
        lookup_idx(m.counts@, v, 0) == m.idx_of(s),
{
    let k = m.idx_of(s);
    assert(0 <= k < m.symbols@.len() && m.symbols@[k] == s);
    lemma_dual_from(m.counts@, k, v, 0);
}

/// The symbol intervals partition `[0, total)`: every value below the total
/// weight falls inside exactly one symbol's interval.
pub proof fn lemma_intervals_partition(c: Seq<u32>, v: int)
    requires
        0 <= v < cum(c, c.len() as int),
    ensures
        ({
            let i = lookup_idx(c, v, 0);
            &&& 0 <= i < c.len()
            &&& cum(c, i) <= v < cum(c, i) + c[i]
            &&& forall|j: int|
                0 <= j < c.len() && #[trigger] cum(c, j) <= v < cum(c, j) + c[j] ==> j == i
        }),
{
    lemma_lookup_from(c, v, 0);
    let i = lookup_idx(c, v, 0);
    assert(cum(c, i + 1) == cum(c, i) + c[i]);
    assert forall|j: int|
        0 <= j < c.len() && #[trigger] cum(c, j) <= v < cum(c, j) + c[j] implies j == i by {
        lemma_dual_from(c, j, v, 0);
    }
}

} // verus!
