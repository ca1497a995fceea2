use vstd::prelude::*;
use crate::error::ForestError;
use crate::fraction::{Fraction, Ratio};

verus! {

/// The count of class `c` in the counts `s`: classes beyond the last bin
/// have not been seen.
pub open spec fn count_at(s: Seq<nat>, c: int) -> nat {
    if 0 <= c < s.len() {
        s[c]
    } else {
        0
    }
}

/// The sum of the counts of the classes below `k`.
pub open spec fn partial_total(s: Seq<nat>, k: nat) -> nat
    decreases k,
{
    if k == 0 {
        0
    } else {
        partial_total(s, (k - 1) as nat) + count_at(s, k - 1)
    }
}

/// The number of observations counted: the sum of all bins.
pub open spec fn total_of(s: Seq<nat>) -> nat {
    partial_total(s, s.len())
}

/// The sum of the squared counts of the classes below `k`.
pub open spec fn partial_squares(s: Seq<nat>, k: nat) -> nat
    decreases k,
{
    if k == 0 {
        0
    } else {
        partial_squares(s, (k - 1) as nat) + count_at(s, k - 1) * count_at(s, k - 1)
    }
}

/// The sum of the squared counts of all bins.
pub open spec fn squares_of(s: Seq<nat>) -> nat {
    partial_squares(s, s.len())
}

/// The larger of two lengths.
pub open spec fn wider(a: nat, b: nat) -> nat {
    if a >= b {
        a
    } else {
        b
    }
}

/// The counts `s` after one more observation of class `c`.
pub open spec fn bump(s: Seq<nat>, c: nat) -> Seq<nat> {
    Seq::new(
        wider(s.len(), c + 1),
        |i: int|
            if i == c {
                (count_at(s, i) + 1) as nat
            } else {
                count_at(s, i)
            },
    )
}

/// The bin-wise sum of two counters.
pub open spec fn plus(a: Seq<nat>, b: Seq<nat>) -> Seq<nat> {
    Seq::new(wider(a.len(), b.len()), |i: int| (count_at(a, i) + count_at(b, i)) as nat)
}

/// The counts of a sequence of class labels, taken in order.
pub open spec fn tally(labels: Seq<nat>) -> Seq<nat> {
    labels.fold_left(Seq::<nat>::empty(), |acc: Seq<nat>, c: nat| bump(acc, c))
}

/// Class labels as class indices.
pub open spec fn labels(y: Seq<u8>) -> Seq<nat> {
    y.map_values(|c: u8| c as nat)
}

/// The numerator of the Gini impurity over the square of the total.
pub open spec fn gini_numerator(s: Seq<nat>) -> nat {
    (total_of(s) * total_of(s) - squares_of(s)) as nat
}

/// The probability of class `c`: its share of the total, and zero where
/// nothing has been counted.
pub open spec fn probability_of(s: Seq<nat>, c: int) -> Ratio {
    if total_of(s) == 0 {
        Ratio { num: 0, den: 1 }
    } else {
        Ratio { num: count_at(s, c), den: total_of(s) }
    }
}

/// The Gini impurity, the sum over the classes of `p (1 - p)`, as the exact
/// fraction `(N * N - sum of squared counts) / (N * N)`; zero where nothing
/// has been counted.
pub open spec fn gini_of(s: Seq<nat>) -> Ratio {
    if total_of(s) == 0 {
        Ratio { num: 0, den: 1 }
    } else {
        Ratio {
            num: (total_of(s) * total_of(s) - squares_of(s)) as nat,
            den: total_of(s) * total_of(s),
        }
    }
}

/// Whether `c` is the most frequent class of `s`, the smallest index winning
/// among equals.
pub open spec fn is_mode(s: Seq<nat>, c: int) -> bool {
    &&& 0 <= c < s.len()
    &&& forall|i: int| 0 <= i < s.len() ==> s[i] <= s[c]
    &&& forall|i: int| 0 <= i < c ==> s[i] < s[c]
}

/// Whether one class holds every observation.
pub open spec fn concentrated(s: Seq<nat>) -> bool {
    exists|c: int| 0 <= c < s.len() && #[trigger] s[c] == total_of(s)
}

/// Bins beyond the last add nothing to a sum of counts.
pub proof fn lemma_partial_total_beyond(s: Seq<nat>, k: nat)
    requires
        k >= s.len(),
    ensures
        partial_total(s, k) == total_of(s),
    decreases k,
{
    if k > s.len() {
        lemma_partial_total_beyond(s, (k - 1) as nat);
    }
}

/// The sum of a bin-wise sum is the sum of the sums.
pub proof fn lemma_partial_total_plus(a: Seq<nat>, b: Seq<nat>, k: nat)
    ensures
        partial_total(plus(a, b), k) == partial_total(a, k) + partial_total(b, k),
    decreases k,
{
    if k > 0 {
        lemma_partial_total_plus(a, b, (k - 1) as nat);
    }
}

/// One more observation of class `c` adds one to every sum that covers `c`.
pub proof fn lemma_partial_total_bump(s: Seq<nat>, c: nat, k: nat)
    ensures
        partial_total(bump(s, c), k) == partial_total(s, k) + (if c < k {
            1nat
        } else {
            0nat
        }),
    decreases k,
{
    if k > 0 {
        lemma_partial_total_bump(s, c, (k - 1) as nat);
    }
}

/// The sums of counts grow with the number of bins they cover, and no bin
/// holds more than the sum that covers it.
pub proof fn lemma_partial_total_grows(s: Seq<nat>, j: nat, k: nat)
    requires
        j <= k,
    ensures
        partial_total(s, j) <= partial_total(s, k),
        j < k ==> partial_total(s, j) + count_at(s, j as int) <= partial_total(s, k),
    decreases k,
{
    if j < k {
        lemma_partial_total_grows(s, j, (k - 1) as nat);
    }
}

/// No class has been seen more often than there are observations.
pub proof fn lemma_count_at_most_total(s: Seq<nat>, c: int)
    ensures
        count_at(s, c) <= total_of(s),
{
    if 0 <= c < s.len() {
        lemma_partial_total_grows(s, c as nat, s.len());
    }
}

/// One more observation raises the total by one.
pub proof fn lemma_total_bump(s: Seq<nat>, c: nat)
    ensures
        total_of(bump(s, c)) == total_of(s) + 1,
{
    let k = wider(s.len(), c + 1);
    lemma_partial_total_bump(s, c, k);
    lemma_partial_total_beyond(s, k);
}

/// The order in which two observations are counted does not matter.
pub proof fn lemma_bump_commutes(s: Seq<nat>, c: nat, d: nat)
    ensures
        bump(bump(s, c), d) == bump(bump(s, d), c),
{
    assert(bump(bump(s, c), d) =~= bump(bump(s, d), c));
}

/// Counting a rearranged sequence of labels gives the same counter.
pub proof fn lemma_tally_rearranged(a: Seq<nat>, b: Seq<nat>)
    requires
        a.to_multiset() == b.to_multiset(),
    ensures
        tally(a) == tally(b),
{
    let f = |acc: Seq<nat>, c: nat| bump(acc, c);
    assert(vstd::seq_lib::commutative_foldl(f)) by {
        assert forall|x: nat, y: nat, v: Seq<nat>| #[trigger] f(f(v, x), y) == f(f(v, y), x) by {
            lemma_bump_commutes(v, x, y);
        }
    }
    vstd::seq_lib::lemma_fold_left_permutation(a, b, f, Seq::<nat>::empty());
}

/// A counter of labels has counted each label once.
pub proof fn lemma_tally_total(labels: Seq<nat>)
    ensures
        total_of(tally(labels)) == labels.len(),
    decreases labels.len(),
{
    if labels.len() > 0 {
        lemma_tally_total(labels.drop_last());
        lemma_total_bump(tally(labels.drop_last()), labels.last());
    }
}

/// Counter addition is associative.
pub proof fn lemma_plus_associative(a: Seq<nat>, b: Seq<nat>, c: Seq<nat>)
    ensures
        plus(plus(a, b), c) == plus(a, plus(b, c)),
{
    assert(plus(plus(a, b), c) =~= plus(a, plus(b, c)));
}

/// Counter addition is commutative.
pub proof fn lemma_plus_commutative(a: Seq<nat>, b: Seq<nat>)
    ensures
        plus(a, b) == plus(b, a),
{
    assert(plus(a, b) =~= plus(b, a));
}

/// The empty counter is the identity of counter addition, on either side.
pub proof fn lemma_plus_identity(a: Seq<nat>)
    ensures
        plus(a, Seq::<nat>::empty()) == a,
        plus(Seq::<nat>::empty(), a) == a,
{
    assert(plus(a, Seq::<nat>::empty()) =~= a);
    assert(plus(Seq::<nat>::empty(), a) =~= a);
}

/// The total of a sum of counters is the sum of their totals.
pub proof fn lemma_plus_total(a: Seq<nat>, b: Seq<nat>)
    ensures
        total_of(plus(a, b)) == total_of(a) + total_of(b),
{
    let k = wider(a.len(), b.len());
    lemma_partial_total_plus(a, b, k);
    lemma_partial_total_beyond(a, k);
    lemma_partial_total_beyond(b, k);
}

/// The sum of the numerators of the probabilities of the classes below `k`.
pub open spec fn share_sum(s: Seq<nat>, k: nat) -> nat
    decreases k,
{
    if k == 0 {
        0
    } else {
        share_sum(s, (k - 1) as nat) + probability_of(s, k - 1).num
    }
}

/// The probabilities of the classes of a counter that has counted something
/// add up to one: all have the total as denominator, and their numerators
/// add up to the total. Each is at most one.
pub proof fn lemma_probabilities_sum_to_one(s: Seq<nat>)
    requires
        total_of(s) > 0,
    ensures
        forall|c: int| (#[trigger] probability_of(s, c)).den == total_of(s),
        share_sum(s, s.len()) == total_of(s),
        forall|c: int| (#[trigger] probability_of(s, c)).le(Ratio { num: 1, den: 1 }),
{
    lemma_share_sum(s, s.len());
    assert forall|c: int| (#[trigger] probability_of(s, c)).le(Ratio { num: 1, den: 1 }) by {
        lemma_count_at_most_total(s, c);
    }
}

/// The numerators of the probabilities are the counts.
proof fn lemma_share_sum(s: Seq<nat>, k: nat)
    requires
        total_of(s) > 0,
    ensures
        share_sum(s, k) == partial_total(s, k),
    decreases k,
{
    if k > 0 {
        lemma_share_sum(s, (k - 1) as nat);
    }
}

/// One more bin keeps the sum of squares below the square of the sum.
proof fn lemma_square_step(t: int, q: int, x: int)
    by (nonlinear_arith)
    requires
        0 <= q <= t * t,
        0 <= t,
        0 <= x,
    ensures
        q + x * x <= (t + x) * (t + x),
        (t + x) * (t + x) - (q + x * x) == (t * t - q) + 2 * (t * x),
{
}

/// One more bin keeps the square of the sum below the number of bins times
/// the sum of squares.
proof fn lemma_mean_square_step(t: int, q: int, x: int, k: int)
    requires
        0 <= t,
        0 <= q,
        0 <= x,
        0 <= k,
        t * t <= k * q,
    ensures
        (t + x) * (t + x) <= (k + 1) * (q + x * x),
{
    if k == 0 {
        assert(t == 0) by (nonlinear_arith)
            requires
                t * t <= k * q,
                k == 0,
                0 <= t,
        ;
        assert((t + x) * (t + x) <= (k + 1) * (q + x * x)) by (nonlinear_arith)
            requires
                t == 0,
                k == 0,
                0 <= q,
        ;
    } else {
        let d = t - k * x;
        assert(d * d >= 0) by (nonlinear_arith);
        assert(k * (2 * (t * x)) <= t * t + k * k * (x * x)) by (nonlinear_arith)
            requires
                d == t - k * x,
                d * d >= 0,
        ;
        assert(k * (2 * (t * x)) <= k * (q + k * (x * x))) by (nonlinear_arith)
            requires
                k * (2 * (t * x)) <= t * t + k * k * (x * x),
                t * t <= k * q,
        ;
        assert(2 * (t * x) <= q + k * (x * x)) by (nonlinear_arith)
            requires
                k * (2 * (t * x)) <= k * (q + k * (x * x)),
                0 < k,
        ;
        assert((t + x) * (t + x) <= (k + 1) * (q + x * x)) by (nonlinear_arith)
            requires
                2 * (t * x) <= q + k * (x * x),
                t * t <= k * q,
        ;
    }
}

/// Below any number of bins: the sum of squares is at most the square of
/// the sum, which is at most the number of bins times the sum of squares;
/// and the first two are equal exactly where at most one bin is not empty.
pub proof fn lemma_partial_gini(s: Seq<nat>, k: nat)
    ensures
        partial_squares(s, k) <= partial_total(s, k) * partial_total(s, k),
        partial_total(s, k) * partial_total(s, k) <= k * partial_squares(s, k),
        partial_squares(s, k) == partial_total(s, k) * partial_total(s, k) <==> (partial_total(s, k)
            == 0 || exists|c: int| 0 <= c < k && #[trigger] count_at(s, c) == partial_total(s, k)),
    decreases k,
{
    if k == 0 {
        let z = partial_total(s, k);
        assert(z == 0);
        assert(z * z == 0);
        assert(k * partial_squares(s, k) == 0);
    } else {
        let j = (k - 1) as nat;
        lemma_partial_gini(s, j);
        let t = partial_total(s, j) as int;
        let q = partial_squares(s, j) as int;
        let x = count_at(s, k - 1) as int;
        let t2 = partial_total(s, k) as int;
        let q2 = partial_squares(s, k) as int;
        assert(t2 == t + x);
        assert(q2 == q + x * x);
        lemma_square_step(t, q, x);
        lemma_mean_square_step(t, q, x, j as int);
        assert(t2 * t2 <= k * q2);
        let whole = q2 == t2 * t2;
        let single = t2 == 0 || exists|c: int| 0 <= c < k && #[trigger] count_at(s, c) == t2;
        if whole {
            assert(t * t - q >= 0);
            assert(t * x >= 0) by (nonlinear_arith)
                requires
                    t >= 0,
                    x >= 0,
            ;
            assert(t * x == 0);
            assert(q == t * t);
            assert(t == 0 || x == 0) by (nonlinear_arith)
                requires
                    t * x == 0,
            ;
            if t == 0 {
                assert(count_at(s, k - 1) == t2);
            } else {
                assert(t2 == t);
                let c = choose|c: int| 0 <= c < j && #[trigger] count_at(s, c) == t;
                assert(count_at(s, c) == t2);
            }
            assert(single);
        }
        if single {
            if t2 == 0 {
                assert(t == 0 && x == 0);
                assert(t * x == 0);
            } else {
                let c = choose|c: int| 0 <= c < k && #[trigger] count_at(s, c) == t2;
                if c == k - 1 {
                    assert(t == 0);
                    assert(t * x == 0);
                } else {
                    lemma_partial_total_grows(s, c as nat, j);
                    assert(count_at(s, c) <= t);
                    assert(x == 0);
                    assert(t * x == 0) by (nonlinear_arith)
                        requires
                            x == 0,
                    ;
                    assert(count_at(s, c) == t);
                }
            }
            assert(q == t * t);
            assert(whole);
        }
    }
}

/// The Gini impurity of a counter with `K > 0` classes lies between zero and
/// `1 - 1/K`, and is zero exactly where one class holds every observation.
pub proof fn lemma_gini_bounds(s: Seq<nat>)
    requires
        s.len() > 0,
    ensures
        gini_of(s).den > 0,
        squares_of(s) <= total_of(s) * total_of(s),
        gini_of(s).le(Ratio { num: (s.len() - 1) as nat, den: s.len() }),
        gini_of(s).is_zero() <==> concentrated(s),
{
    let k = s.len();
    let t = total_of(s) as int;
    let q = squares_of(s) as int;
    lemma_partial_gini(s, k);
    if t == 0 {
        assert(count_at(s, 0) <= total_of(s)) by {
            lemma_count_at_most_total(s, 0);
        }
        assert(s[0] == total_of(s));
        assert(concentrated(s));
    } else {
        assert(t * t > 0) by (nonlinear_arith)
            requires
                t > 0,
        ;
        assert((t * t - q) * k <= (k - 1) * (t * t)) by (nonlinear_arith)
            requires
                t * t <= k * q,
        ;
        if gini_of(s).is_zero() {
            assert(q == t * t);
            let c = choose|c: int| 0 <= c < k && #[trigger] count_at(s, c) == partial_total(s, k);
            assert(s[c] == total_of(s));
        }
        if concentrated(s) {
            let c = choose|c: int| 0 <= c < s.len() && #[trigger] s[c] == total_of(s);
            assert(count_at(s, c) == partial_total(s, k));
        }
    }
}

/// The counts that a vector of bins stands for.
pub open spec fn bins(v: Seq<u64>) -> Seq<nat> {
    Seq::new(v.len(), |i: int| v[i] as nat)
}

/// Appends empty bins until the bin of class `upto` exists.
fn widen(counts: &mut Vec<u64>, upto: usize)
    ensures
        final(counts)@.len() == wider(old(counts)@.len(), (upto + 1) as nat),
        forall|i: int|
            0 <= i < final(counts)@.len() ==> (#[trigger] final(counts)@[i]) as nat == count_at(
                bins(old(counts)@),
                i,
            ),
{
    while counts.len() <= upto
        invariant
            old(counts)@.len() <= counts@.len(),
            counts@.len() <= wider(old(counts)@.len(), (upto + 1) as nat),
            forall|i: int|
                0 <= i < counts@.len() ==> (#[trigger] counts@[i]) as nat == count_at(
                    bins(old(counts)@),
                    i,
                ),
        decreases upto + 1 - counts@.len(),
    {
        counts.push(0);
    }
}

/// The square of a 64-bit count fits in 128 bits, and squaring keeps order.
proof fn lemma_square_fits(a: int, b: int)
    by (nonlinear_arith)
    requires
        0 <= a <= b,
        b <= 0xffff_ffff_ffff_ffff,
    ensures
        a * a <= b * b,
        b * b <= 0xffff_ffff_ffff_fffe_0000_0000_0000_0001,
{
}

/// A categorical counter: for each class index, how often it was observed.
/// It serves as the leaf of a classification tree and as its prediction.
pub struct CatCount {
    counts: Vec<u64>,
    total: u64,
}

impl View for CatCount {
    type V = Seq<nat>;

    closed spec fn view(&self) -> Seq<nat> {
        bins(self.counts@)
    }
}

impl Clone for CatCount {
    fn clone(&self) -> (copy: Self)
        ensures
            copy@ == self@,
    {
        proof {
            use_type_invariant(self);
        }
        let counts = self.counts.clone();
        proof {
            assert(counts@ =~= self.counts@);
        }
        CatCount { counts, total: self.total }
    }
}

impl CatCount {
    #[verifier::type_invariant]
    spec fn total_is_sum(self) -> bool {
        self.total == total_of(bins(self.counts@))
    }

    /// The counter that has counted nothing.
    pub fn empty() -> (c: CatCount)
        ensures
            c@ == Seq::<nat>::empty(),
    {
        let c = CatCount { counts: Vec::new(), total: 0 };
        proof {
            assert(bins(c.counts@) =~= Seq::<nat>::empty());
        }
        c
    }

    /// The counter of the class labels `y`: the sum of the counters of each.
    pub fn tally_of(y: &[u8]) -> (c: CatCount)
        ensures
            c@ == tally(labels(y@)),
    {
        let mut counter = CatCount::empty();
        let n = y.len();
        let mut i: usize = 0;
        while i < n
            invariant
                i <= n,
                n == y@.len(),
                counter@ == tally(labels(y@).take(i as int)),
            decreases n - i,
        {
            proof {
                lemma_tally_total(labels(y@).take(i as int));
                assert(labels(y@).take(i + 1).drop_last() =~= labels(y@).take(i as int));
            }
            counter.add_one(y[i] as usize);
            i = i + 1;
        }
        proof {
            assert(labels(y@).take(n as int) =~= labels(y@));
        }
        counter
    }

    /// The number of bins: one more than the largest class index seen or
    /// merged in.
    pub fn n_classes(&self) -> (k: usize)
        ensures
            k == self@.len(),
    {
        self.counts.len()
    }

    /// How often class `c` was observed.
    pub fn count(&self, c: usize) -> (n: u64)
        ensures
            n == count_at(self@, c as int),
    {
        if c < self.counts.len() {
            self.counts[c]
        } else {
            0
        }
    }

    /// The number of observations.
    pub fn total(&self) -> (n: u64)
        ensures
            n == total_of(self@),
    {
        proof {
            use_type_invariant(self);
        }
        self.total
    }

    /// Counts one more observation of class `c`.
    pub fn add_one(&mut self, c: usize)
        requires
            total_of(old(self)@) < u64::MAX,
        ensures
            final(self)@ == bump(old(self)@, c as nat),
    {
        proof {
            use_type_invariant(&*self);
        }
        let mut taken = CatCount::empty();
        std::mem::swap(self, &mut taken);
        let CatCount { counts, total } = taken;
        let mut counts = counts;
        let ghost before = bins(counts@);
        widen(&mut counts, c);
        proof {
            lemma_count_at_most_total(before, c as int);
            lemma_total_bump(before, c as nat);
        }
        let seen = counts[c];
        counts.set(c, seen + 1);
        proof {
            assert(bins(counts@) =~= bump(before, c as nat));
        }
        *self = CatCount { counts, total: total + 1 };
    }

    /// Adds the counts of `other`, bin by bin.
    pub fn merge(&mut self, other: &CatCount)
        requires
            total_of(old(self)@) + total_of(other@) <= u64::MAX,
        ensures
            final(self)@ == plus(old(self)@, other@),
    {
        proof {
            use_type_invariant(&*self);
            use_type_invariant(other);
        }
        let mut taken = CatCount::empty();
        std::mem::swap(self, &mut taken);
        let CatCount { counts, total } = taken;
        let mut counts = counts;
        let ghost before = bins(counts@);
        let ghost added = bins(other.counts@);
        let n = other.counts.len();
        if n > 0 {
            widen(&mut counts, n - 1);
        }
        let mut i: usize = 0;
        while i < n
            invariant
                i <= n,
                n == other.counts@.len(),
                added == bins(other.counts@),
                counts@.len() == wider(before.len(), n as nat),
                total_of(before) + total_of(added) <= u64::MAX,
                forall|j: int|
                    0 <= j < i ==> (#[trigger] counts@[j]) as nat == count_at(before, j) + count_at(
                        added,
                        j,
                    ),
                forall|j: int|
                    i <= j < counts@.len() ==> (#[trigger] counts@[j]) as nat == count_at(
                        before,
                        j,
                    ),
            decreases n - i,
        {
            proof {
                lemma_count_at_most_total(before, i as int);
                lemma_count_at_most_total(added, i as int);
            }
            let sum = counts[i] + other.counts[i];
            counts.set(i, sum);
            i = i + 1;
        }
        proof {
            assert(bins(counts@) =~= plus(before, added));
            lemma_plus_total(before, added);
        }
        *self = CatCount { counts, total: total + other.total };
    }

    /// The sum of this counter and `other`, unless their totals together
    /// exceed what a count can hold.
    pub fn combine(self, other: &CatCount) -> (sum: Option<CatCount>)
        ensures
            sum is Some <==> total_of(self@) + total_of(other@) <= u64::MAX,
            sum matches Some(c) ==> c@ == plus(self@, other@),
    {
        let mut sum = self;
        if other.total() <= u64::MAX - sum.total() {
            sum.merge(other);
            Some(sum)
        } else {
            None
        }
    }

    /// The probability of class `c`: its share of the observations, and zero
    /// where there are none.
    pub fn probability(&self, c: usize) -> (p: Fraction)
        ensures
            p@ == probability_of(self@, c as int),
    {
        proof {
            use_type_invariant(self);
        }
        if self.total == 0 {
            Fraction::zero()
        } else {
            let seen = self.count(c);
            match Fraction::new(seen as u128, self.total as u128) {
                Some(p) => p,
                None => Fraction::zero(),
            }
        }
    }

    /// The probabilities of all classes, in the order of the classes.
    pub fn normalized(&self) -> (shares: Vec<Fraction>)
        ensures
            shares@.len() == self@.len(),
            forall|c: int|
                0 <= c < shares@.len() ==> (#[trigger] shares@[c])@ == probability_of(self@, c),
    {
        let n = self.n_classes();
        let mut shares: Vec<Fraction> = Vec::new();
        let mut c: usize = 0;
        while c < n
            invariant
                c <= n,
                n == self@.len(),
                shares@.len() == c,
                forall|j: int| 0 <= j < c ==> (#[trigger] shares@[j])@ == probability_of(self@, j),
            decreases n - c,
        {
            shares.push(self.probability(c));
            c = c + 1;
        }
        shares
    }

    /// The class observed most often, the smallest index among equals. A
    /// counter that has counted nothing has no such class.
    pub fn most_frequent(&self) -> (r: Result<usize, ForestError>)
        ensures
            r is Err <==> total_of(self@) == 0,
            r is Err ==> r == Err::<usize, ForestError>(ForestError::UndefinedPrediction),
            r matches Ok(c) ==> is_mode(self@, c as int),
    {
        proof {
            use_type_invariant(self);
        }
        if self.total == 0 {
            return Err(ForestError::UndefinedPrediction);
        }
        let n = self.counts.len();
        let mut best: usize = 0;
        let mut i: usize = 1;
        while i < n
            invariant
                0 < n,
                n == self.counts@.len(),
                1 <= i <= n,
                best < i,
                forall|j: int| 0 <= j < i ==> self.counts@[j] <= self.counts@[best as int],
                forall|j: int| 0 <= j < best ==> self.counts@[j] < self.counts@[best as int],
            decreases n - i,
        {
            if self.counts[i] > self.counts[best] {
                best = i;
            }
            i = i + 1;
        }
        Ok(best)
    }

    /// The Gini impurity of the counted classes, exactly.
    pub fn gini(&self) -> (g: Fraction)
        ensures
            g@ == gini_of(self@),
    {
        proof {
            use_type_invariant(self);
        }
        if self.total == 0 {
            return Fraction::zero();
        }
        let ghost view = bins(self.counts@);
        let n = self.counts.len();
        let t = self.total as u128;
        proof {
            lemma_square_fits(self.total as int, self.total as int);
        }
        let whole = t * t;
        let mut squares: u128 = 0;
        let mut i: usize = 0;
        while i < n
            invariant
                i <= n,
                n == self.counts@.len(),
                view == bins(self.counts@),
                squares == partial_squares(view, i as nat),
                t == total_of(view),
                t <= u64::MAX,
                whole == t * t,
            decreases n - i,
        {
            let c = self.counts[i] as u128;
            proof {
                lemma_partial_gini(view, (i + 1) as nat);
                lemma_partial_total_grows(view, (i + 1) as nat, n as nat);
                lemma_square_fits(partial_total(view, (i + 1) as nat) as int, t as int);
                lemma_square_fits(c as int, c as int);
                assert(count_at(view, i as int) == c);
                assert(partial_squares(view, (i + 1) as nat) == squares + c * c);
            }
            squares = squares + c * c;
            i = i + 1;
        }
        proof {
            lemma_partial_gini(view, n as nat);
            assert(squares == squares_of(view));
            assert(t * t > 0) by (nonlinear_arith)
                requires
                    t > 0,
            ;
            assert(total_of(view) * total_of(view) == whole);
        }
        match Fraction::new(whole - squares, whole) {
            Some(g) => g,
            None => Fraction::zero(),
        }
    }
}

} // verus!
