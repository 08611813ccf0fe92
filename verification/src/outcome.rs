use vstd::prelude::*;

use crate::constants::{DICE_COUNT, SIDES};
use vstd::string::StrSliceExecFns;

verus! {

/// A multiset of dice, as a histogram: `histogram[d]` dice show face `d + 1`.
/// A full roll has six dice; partial outcomes (fewer dice) stand for the
/// subsets a player may keep between rolls.
#[derive(Debug, Clone, Copy, PartialEq)]
pub struct Outcome {
    pub histogram: [u8; SIDES],
}

/// 7 to the power `n`: the radix places of the dense outcome encoding.
pub open spec fn pow7(n: int) -> int
    decreases n,
{
    if n <= 0 {
        1
    } else {
        7 * pow7(n - 1)
    }
}

/// Number of dice among the first `n` faces of the histogram.
pub open spec fn hist_total(h: Seq<u8>, n: int) -> int
    decreases n,
{
    if n <= 0 {
        0
    } else {
        hist_total(h, n - 1) + h[n - 1]
    }
}

/// The mixed-radix encoding of the first `n` digits: `sum h[d] * 7^d`.
pub open spec fn encode_digits(h: Seq<u8>, n: int) -> int
    decreases n,
{
    if n <= 0 {
        0
    } else {
        encode_digits(h, n - 1) + h[n - 1] * pow7(n - 1)
    }
}

/// The value of digits `n` and above, in units of `7^n`.
pub open spec fn encode_tail(h: Seq<u8>, n: int) -> int
    decreases 6 - n,
{
    if n < 0 || n >= 6 {
        0
    } else {
        h[n] + 7 * encode_tail(h, n + 1)
    }
}

/// Digit `d` of `v` in base 7.
pub open spec fn digit(v: int, d: int) -> int {
    (v / pow7(d)) % 7
}

/// `n!`.
pub open spec fn fact(n: int) -> int
    decreases n,
{
    if n <= 0 {
        1
    } else {
        n * fact(n - 1)
    }
}

/// Product of the factorials of the first `n` histogram entries.
pub open spec fn fact_product(h: Seq<u8>, n: int) -> int
    decreases n,
{
    if n <= 0 {
        1
    } else {
        fact_product(h, n - 1) * fact(h[n - 1] as int)
    }
}

/// Componentwise order on histograms: `a` keeps at most the dice of `b`.
pub open spec fn sub_histogram(a: Seq<u8>, b: Seq<u8>) -> bool {
    forall|i: int| 0 <= i < 6 ==> a[i] <= b[i]
}

/// Position of the first nonzero histogram entry at or after `i`, or 6.
pub open spec fn first_nonzero(h: Seq<u8>, i: int) -> int
    decreases 6 - i,
{
    if i < 0 || i >= 6 {
        6
    } else if h[i] != 0 {
        i
    } else {
        first_nonzero(h, i + 1)
    }
}

/// The histograms one added die away, one per face.
pub open spec fn successor_histograms(h: Seq<u8>) -> Seq<Seq<u8>> {
    Seq::new(6, |i: int| h.update(i, (h[i] + 1) as u8))
}

/// The histograms one removed die away, one per face with a die, in face
/// order, starting at face index `d`.
pub open spec fn predecessor_histograms(h: Seq<u8>, d: int) -> Seq<Seq<u8>>
    decreases 6 - d,
{
    if d < 0 || d >= 6 {
        Seq::empty()
    } else if h[d] != 0 {
        seq![h.update(d, (h[d] - 1) as u8)] + predecessor_histograms(h, d + 1)
    } else {
        predecessor_histograms(h, d + 1)
    }
}

impl Outcome {
    /// Validity: at most six dice in all.
    pub open spec fn valid(self) -> bool {
        hist_total(self.histogram@, 6) <= 6
    }

    /// The dense encoding of this histogram.
    pub open spec fn encoded(self) -> int {
        encode_digits(self.histogram@, 6)
    }

    /// The outcome with no dice.
    pub fn empty() -> (r: Self)
        ensures
            forall|i: int| 0 <= i < 6 ==> r.histogram@[i] == 0,
            hist_total(r.histogram@, 6) == 0,
            r.valid(),
    {
        let r = Outcome { histogram: [0; SIDES] };
        proof {
            reveal_with_fuel(hist_total, 7);
        }
        r
    }

    pub fn encode(&self) -> (r: u32)
        ensures
            r == self.encoded(),
    {
        proof {
            lemma_pow7_values();
        }
        let mut r: u32 = 0;
        let mut a: u32 = 1;
        let mut d: usize = 0;
        while d < SIDES
            invariant
                d <= 6,
                a == pow7(d as int),
                a <= 117649,
                r == encode_digits(self.histogram@, d as int),

            decreases 6 - d,
        {
            proof {
                lemma_pow7_le_117649(d as int);
                lemma_pow7_le_117649(d + 1);
                lemma_encode_digits_general(self.histogram@, d as int);
                lemma_encode_digits_general(self.histogram@, d + 1);
                assert(a * (self.histogram@[d as int] as u32) == (self.histogram@[d as int] as u32)
                    * pow7(d as int)) by (nonlinear_arith)
                    requires
                        a == pow7(d as int),
                ;
                assert(0 <= (self.histogram@[d as int] as int) * pow7(d as int) <= 255 * 117649)
                    by (nonlinear_arith)
                    requires
                        0 <= self.histogram@[d as int] <= 255,
                        0 < pow7(d as int) <= 117649,
                ;
                assert((DICE_COUNT + 1) as u32 == 7u32);
            }
            r += a * (self.histogram[d] as u32);
            a = a * ((DICE_COUNT + 1) as u32);
            d += 1;
        }
        r
    }

    pub fn decode(v: u32) -> (r: Self)
        ensures
            forall|d: int| 0 <= d < 6 ==> r.histogram@[d] == digit(v as int, d),
            forall|d: int| 0 <= d < 6 ==> r.histogram@[d] <= 6,
    {
        proof {
            lemma_pow7_values();
        }
        let mut histogram: [u8; SIDES] = [0; SIDES];
        let mut cur: u32 = v;
        let mut d: usize = 0;
        while d < SIDES
            invariant
                d <= 6,
                cur == v as int / pow7(d as int),
                forall|i: int| 0 <= i < d ==> histogram@[i] == digit(v as int, i),
                forall|i: int| 0 <= i < d ==> histogram@[i] <= 6,

            decreases 6 - d,
        {
            proof {
                lemma_pow7_values();
                vstd::arithmetic::div_mod::lemma_div_denominator(v as int, pow7(d as int), 7);
                vstd::arithmetic::div_mod::lemma_mod_division_less_than_divisor(
                    v as int / pow7(d as int),
                    7,
                );
                vstd::arithmetic::div_mod::lemma_div_pos_is_pos(v as int, pow7(d as int));
            }
            histogram[d] = (cur % ((DICE_COUNT + 1) as u32)) as u8;
            cur = cur / ((DICE_COUNT + 1) as u32);
            d += 1;
        }
        Outcome { histogram }
    }

    /// Number of distinct die orderings that produce this histogram:
    /// `6! / (h[0]! * ... * h[5]!)`.
    pub fn multiplicity(&self) -> (r: usize)
        requires
            forall|i: int| 0 <= i < 6 ==> self.histogram@[i] <= 6,
        ensures
            r == 720int / fact_product(self.histogram@, 6),
    {
        proof {
            lemma_fact_values();
        }
        let fac: [usize; DICE_COUNT] = [1, 2, 6, 24, 120, 720];
        assert(forall|j: int| 0 <= j < 6 ==> #[trigger] fac@[j] == fact(j + 1));
        let mut res: usize = fac[DICE_COUNT - 1];
        let mut d: usize = 0;
        while d < SIDES
            invariant
                d <= 6,
                forall|i2: int| 0 <= i2 < 6 ==> self.histogram@[i2] <= 6,
                forall|j: int| 0 <= j < 6 ==> #[trigger] fac@[j] == fact(j + 1),
                res == 720int / fact_product(self.histogram@, d as int),

            decreases 6 - d,
        {
            proof {
                lemma_fact_values();
                lemma_fact_product_pos(self.histogram@, d as int);
                lemma_fact_product_pos(self.histogram@, d + 1);
            }
            if self.histogram[d] > 0 {
                let f = fac[(self.histogram[d] - 1) as usize];
                proof {
                    assert(f == fact(self.histogram@[d as int] as int));
                    vstd::arithmetic::div_mod::lemma_div_denominator(
                        720,
                        fact_product(self.histogram@, d as int),
                        f as int,
                    );
                }
                res = res / f;
            }
            proof {
                let h = self.histogram@;
                let p = fact_product(h, d as int);
                assert(fact_product(h, d as int + 1) == p * fact(h[d as int] as int));
                if h[d as int] == 0 {
                    assert(fact(h[d as int] as int) == 1);
                    assert(p * 1 == p);
                    assert(res == 720int / fact_product(h, d as int + 1));
                } else {
                    assert(res == (720int / p) / fact(h[d as int] as int));
                    assert(res == 720int / fact_product(h, d as int + 1));
                }
            }
            d += 1;
        }
        res
    }

    pub fn predecessors(&self) -> (r: OutcomePredecessorIterator)
        ensures
            r.outcome == *self,
            r.next == 0,
    {
        OutcomePredecessorIterator { outcome: *self, next: 0 }
    }

    pub fn successors(&self) -> (r: OutcomeSuccessorIterator)
        ensures
            r.outcome == *self,
            r.next == 0,
    {
        OutcomeSuccessorIterator { outcome: *self, next: 0 }
    }
}

/// Yields the predecessors of an outcome: one die removed, per face that has
/// one, in face order.
pub struct OutcomePredecessorIterator {
    pub outcome: Outcome,
    pub next: usize,
}

/// Yields the successors of an outcome: one die added, per face, in face
/// order.
pub struct OutcomeSuccessorIterator {
    pub outcome: Outcome,
    pub next: usize,
}

impl OutcomePredecessorIterator {
    pub fn next(&mut self) -> (r: Option<Outcome>)
        requires
            old(self).next <= 6,
        ensures
            final(self).outcome == old(self).outcome,
            ({
                let h = old(self).outcome.histogram@;
                let p = first_nonzero(h, old(self).next as int);
                if p == 6 {
                    r is None && final(self).next == 6
                } else {
                    r matches Some(s) && s.histogram@ == h.update(p, (h[p] - 1) as u8)
                        && final(self).next == p + 1
                }
            }),
    {
        while self.next < SIDES && self.outcome.histogram[self.next] == 0
            invariant
                self.next <= 6,
                self.outcome == old(self).outcome,
                first_nonzero(self.outcome.histogram@, self.next as int) == first_nonzero(
                    old(self).outcome.histogram@,
                    old(self).next as int,
                ),

            decreases 6 - self.next,
        {
            self.next += 1;
        }
        if self.next == SIDES {
            return None;
        }
        let mut histogram = self.outcome.histogram;
        histogram[self.next] = histogram[self.next] - 1;
        self.next += 1;
        Some(Outcome { histogram })
    }
}

impl OutcomeSuccessorIterator {
    pub fn next(&mut self) -> (r: Option<Outcome>)
        requires
            old(self).next <= 6,
            forall|i: int| 0 <= i < 6 ==> old(self).outcome.histogram@[i] <= 6,
        ensures
            final(self).outcome == old(self).outcome,
            ({
                let h = old(self).outcome.histogram@;
                let p = old(self).next as int;
                if p == 6 {
                    r is None && final(self).next == 6
                } else {
                    r matches Some(s) && s.histogram@ == h.update(p, (h[p] + 1) as u8)
                        && final(self).next == p + 1
                }
            }),
    {
        if self.next == SIDES {
            return None;
        }
        let mut histogram = self.outcome.histogram;
        histogram[self.next] = histogram[self.next] + 1;
        self.next += 1;
        Some(Outcome { histogram })
    }
}

/// Enumerates every histogram with a fixed number of dice, each exactly
/// once — the single empty histogram when that number is zero.
pub struct OutcomeIterator {
    pub histogram: [u8; SIDES],
    pub done: bool,
}

impl OutcomeIterator {
    fn new(dice_count: u8) -> (r: Self)
        requires
            dice_count <= 6,
        ensures
            r.histogram@[0] == dice_count,
            forall|i: int| 1 <= i < 6 ==> r.histogram@[i] == 0,
            hist_total(r.histogram@, 6) == dice_count,
            !r.done,
    {
        let mut h: [u8; SIDES] = [0; SIDES];
        h[0] = dice_count;
        proof {
            reveal_with_fuel(hist_total, 7);
        }
        OutcomeIterator { histogram: h, done: false }
    }

    /// Yields the current histogram and advances by `enum_step`; the last
    /// histogram of the size (no step exists) marks the iterator finished.
    /// Together, `lemma_enum_step_increases` and `lemma_enum_step_successor`
    /// show that the steps walk the equal-dice histograms in strictly
    /// increasing colexicographic order without skipping any, so starting
    /// from `lemma_enum_first`'s minimum every histogram is yielded exactly
    /// once.
    pub fn next(&mut self) -> (r: Option<Outcome>)
        requires
            hist_total(old(self).histogram@, 6) <= 6,
        ensures
            hist_total(final(self).histogram@, 6) <= 6,
            ({
                let h = old(self).histogram@;
                let p = first_nonzero(h, 0);
                if old(self).done {
                    r is None && *final(self) == *old(self)
                } else {
                    r matches Some(s) && s.histogram@ == h && s.valid() && (if p >= 5 {
                        final(self).done && final(self).histogram@ == h
                    } else {
                        !final(self).done && final(self).histogram@ == enum_step(h)
                    })
                }
            }),
    {
        if self.done {
            return None;
        }
        let ghost old_h = self.histogram@;
        let result = Outcome { histogram: self.histogram };
        let mut i: usize = 0;
        while i < SIDES && self.histogram[i] == 0
            invariant
                i <= 6,
                self == old(self),
                first_nonzero(self.histogram@, i as int) == first_nonzero(self.histogram@, 0),

            decreases 6 - i,
        {
            i += 1;
        }
        if i + 1 >= SIDES {
            self.done = true;
            return Some(result);
        }
        proof {
            lemma_hist_entry_le_total(old_h, 6, i as int);
            lemma_hist_entry_le_total(old_h, 6, i + 1);
            lemma_hist_total_update(old_h, 6, i + 1, (old_h[i as int + 1] + 1) as u8);
            lemma_hist_total_update(
                old_h.update(i + 1, (old_h[i as int + 1] + 1) as u8),
                6,
                i as int,
                0,
            );
            lemma_hist_total_update(
                old_h.update(i + 1, (old_h[i as int + 1] + 1) as u8).update(i as int, 0),
                6,
                0,
                (old_h[i as int] - 1) as u8,
            );
        }
        let v = self.histogram[i] - 1;
        self.histogram[i + 1] = self.histogram[i + 1] + 1;
        self.histogram[i] = 0;
        self.histogram[0] = v;
        Some(result)
    }
}

/// Enumerates every full six-dice outcome exactly once.
pub fn outcomes() -> (r: OutcomeIterator)
    ensures
        r.histogram@[0] == 6,
        forall|i: int| 1 <= i < 6 ==> r.histogram@[i] == 0,
        hist_total(r.histogram@, 6) == 6,
        !r.done,
{
    OutcomeIterator::new(DICE_COUNT as u8)
}

/// Enumerates every partial outcome of exactly `dice_count` dice; for zero
/// dice, the one empty histogram.
pub fn sub_outcomes(dice_count: usize) -> (r: OutcomeIterator)
    requires
        dice_count <= 6,
    ensures
        r.histogram@[0] == dice_count,
        forall|i: int| 1 <= i < 6 ==> r.histogram@[i] == 0,
        hist_total(r.histogram@, 6) == dice_count,
        !r.done,
{
    OutcomeIterator::new(dice_count as u8)
}

/// The largest encoding any valid outcome can take: six dice on face six.
pub fn max_outcome_encoding() -> (r: usize)
    ensures
        r == 6 * pow7(5),
        forall|o: Outcome| o.valid() ==> #[trigger] o.encoded() <= r,
{
    proof {
        lemma_pow7_values();
        assert forall|o: Outcome| o.valid() implies #[trigger] o.encoded() <= 6 * pow7(5) by {
            lemma_encoded_le_total(o.histogram@, 6);
        }
    }
    let o = Outcome { histogram: [0, 0, 0, 0, 0, DICE_COUNT as u8] };
    let e = o.encode();
    proof {
        reveal_with_fuel(encode_digits, 7);
    }
    e as usize
}

/// One enumeration step: the dice on the first face with any move up one
/// die to the next face, and the dice below them return to face one. The
/// last histogram of a size (every die on the highest face, or no dice at
/// all) has no step; the iterator then finishes.
pub open spec fn enum_step(h: Seq<u8>) -> Seq<u8> {
    let p = first_nonzero(h, 0);
    if p < 5 {
        h.update(p + 1, (h[p + 1] + 1) as u8).update(p, 0).update(0, (h[p] - 1) as u8)
    } else {
        h
    }
}

/// Colexicographic order on histograms below face index `n`: `a` comes
/// before `b` when, at the highest face where they differ, `a` has fewer
/// dice.
pub open spec fn colex_lt_from(a: Seq<u8>, b: Seq<u8>, n: int) -> bool
    decreases n,
{
    if n <= 0 {
        false
    } else if a[n - 1] < b[n - 1] {
        true
    } else if a[n - 1] > b[n - 1] {
        false
    } else {
        colex_lt_from(a, b, n - 1)
    }
}

pub open spec fn colex_lt(a: Seq<u8>, b: Seq<u8>) -> bool {
    colex_lt_from(a, b, 6)
}

/// The highest face index below `n` where the histograms differ, or -1.
pub open spec fn first_diff(a: Seq<u8>, b: Seq<u8>, n: int) -> int
    decreases n,
{
    if n <= 0 {
        -1
    } else if a[n - 1] != b[n - 1] {
        n - 1
    } else {
        first_diff(a, b, n - 1)
    }
}

/// The order holds exactly when the histograms differ and `a` is smaller at
/// the highest differing face; and the two agree everywhere above it.
pub proof fn lemma_colex_characterization(a: Seq<u8>, b: Seq<u8>, n: int)
    requires
        0 <= n,
    ensures
        colex_lt_from(a, b, n) <==> (first_diff(a, b, n) >= 0 && a[first_diff(a, b, n)] < b[
            first_diff(a, b, n)
        ]),
        forall|i: int| first_diff(a, b, n) < i < n ==> a[i] == b[i],
        first_diff(a, b, n) == first_diff(b, a, n),
        first_diff(a, b, n) < n,
    decreases n,
{
    if n > 0 {
        lemma_colex_characterization(a, b, n - 1);
    }
}

/// The order is asymmetric; with `lemma_enum_step_increases` this is what
/// makes the enumeration free of duplicates.
pub proof fn lemma_colex_asymmetric(a: Seq<u8>, b: Seq<u8>)
    requires
        colex_lt(a, b),
    ensures
        !colex_lt(b, a),
{
    lemma_colex_characterization(a, b, 6);
    lemma_colex_characterization(b, a, 6);
}

/// Histograms that agree on faces `k` and above have equal dice counts
/// there.
proof fn lemma_hist_suffix_sums(a: Seq<u8>, b: Seq<u8>, k: int, n: int)
    requires
        0 <= k <= n,
        forall|i: int| k <= i < n ==> a[i] == b[i],
    ensures
        hist_total(a, n) - hist_total(a, k) == hist_total(b, n) - hist_total(b, k),
    decreases n,
{
    if n > k {
        lemma_hist_suffix_sums(a, b, k, n - 1);
    }
}

/// Every face below the first nonzero one is empty.
proof fn lemma_first_nonzero_zeros(h: Seq<u8>, i: int, k: int)
    requires
        0 <= i <= k < first_nonzero(h, i),
    ensures
        h[k] == 0,
    decreases k - i,
{
    if k > i {
        lemma_first_nonzero_zeros(h, i + 1, k);
    }
}

/// The first nonzero face lies between the start of the search and six,
/// and is indeed nonzero when it exists.
pub proof fn lemma_first_nonzero_range(h: Seq<u8>, i: int)
    requires
        0 <= i <= 6,
    ensures
        i <= first_nonzero(h, i) <= 6,
        first_nonzero(h, i) < 6 ==> h[first_nonzero(h, i)] != 0,
    decreases 6 - i,
{
    if i < 6 && h[i] == 0 {
        lemma_first_nonzero_range(h, i + 1);
    }
}

/// Histograms that agree on the faces from `k` up differ, if at all, below
/// `k`.
proof fn lemma_first_diff_below(a: Seq<u8>, b: Seq<u8>, k: int, n: int)
    requires
        0 <= k <= n,
        forall|i: int| k <= i < n ==> a[i] == b[i],
    ensures
        first_diff(a, b, n) < k,
    decreases n,
{
    if n > k {
        lemma_first_diff_below(a, b, k, n - 1);
    } else {
        lemma_colex_characterization(a, b, n);
    }
}

/// A histogram whose entries below `n` are all zero has no dice below `n`.
proof fn lemma_hist_total_zeros(h: Seq<u8>, n: int)
    requires
        forall|i: int| 0 <= i < n ==> h[i] == 0,
    ensures
        hist_total(h, n) == 0,
    decreases n,
{
    if n > 0 {
        lemma_hist_total_zeros(h, n - 1);
    }
}

/// The enumeration step keeps the dice count.
pub proof fn lemma_enum_step_total(h: Seq<u8>)
    requires
        h.len() == 6,
        hist_total(h, 6) <= 6,
        first_nonzero(h, 0) < 5,
    ensures
        hist_total(enum_step(h), 6) == hist_total(h, 6),
{
    let p = first_nonzero(h, 0);
    lemma_first_nonzero_range(h, 0);
    assert forall|k: int| 0 <= k < p implies h[k] == 0 by {
        lemma_first_nonzero_zeros(h, 0, k);
    }
    assert forall|k: int| 0 <= k < 6 implies h[k] <= 6 by {
        lemma_hist_entry_le_total(h, 6, k);
    }
    let h1 = h.update(p + 1, (h[p + 1] + 1) as u8);
    let h2 = h1.update(p, 0);
    lemma_hist_total_update(h, 6, p + 1, (h[p + 1] + 1) as u8);
    lemma_hist_total_update(h1, 6, p, 0);
    lemma_hist_total_update(h2, 6, 0, (h[p] - 1) as u8);
}

/// The enumeration step moves strictly up in colexicographic order.
pub proof fn lemma_enum_step_increases(h: Seq<u8>)
    requires
        h.len() == 6,
        hist_total(h, 6) <= 6,
        first_nonzero(h, 0) < 5,
    ensures
        colex_lt(h, enum_step(h)),
{
    let p = first_nonzero(h, 0);
    lemma_first_nonzero_range(h, 0);
    assert forall|k: int| 0 <= k < 6 implies h[k] <= 6 by {
        lemma_hist_entry_le_total(h, 6, k);
    }
    let s = enum_step(h);
    lemma_colex_characterization(h, s, 6);
    assert(first_diff(h, s, 6) == p + 1 && h[p + 1] < s[p + 1]) by {
        assert(forall|i: int| p + 1 < i < 6 ==> h[i] == s[i]);
        lemma_first_diff_pins(h, s, p + 1, 6);
    }
}

/// When two histograms agree above `m` and differ at `m`, the highest
/// difference below `n` is `m`.
proof fn lemma_first_diff_pins(a: Seq<u8>, b: Seq<u8>, m: int, n: int)
    requires
        0 <= m < n,
        a[m] != b[m],
        forall|i: int| m < i < n ==> a[i] == b[i],
    ensures
        first_diff(a, b, n) == m,
    decreases n,
{
    if n - 1 > m {
        lemma_first_diff_pins(a, b, m, n - 1);
    }
}

/// The enumeration step is the exact colexicographic successor: no
/// histogram with the same number of dice lies strictly between a histogram
/// and its step.
pub proof fn lemma_enum_step_successor(h: Seq<u8>, g: Seq<u8>)
    requires
        h.len() == 6,
        g.len() == 6,
        hist_total(h, 6) <= 6,
        first_nonzero(h, 0) < 5,
        hist_total(g, 6) == hist_total(h, 6),
        colex_lt(h, g),
    ensures
        !colex_lt(g, enum_step(h)),
{
    let p = first_nonzero(h, 0);
    lemma_first_nonzero_range(h, 0);
    let s = enum_step(h);
    assert forall|k: int| 0 <= k < 6 implies h[k] <= 6 by {
        lemma_hist_entry_le_total(h, 6, k);
    }
    assert forall|k: int| 0 <= k < p implies h[k] == 0 by {
        lemma_first_nonzero_zeros(h, 0, k);
    }
    lemma_colex_characterization(h, g, 6);
    let m = first_diff(h, g, 6);
    assert(h[m] < g[m]);
    // The highest difference cannot lie at or below the first nonzero face:
    // `g` would then need more dice.
    if m <= p {
        lemma_hist_suffix_sums(h, g, m + 1, 6);
        lemma_hist_total_zeros(h, m);
        lemma_hist_total_nonneg(g, m);
        assert(hist_total(h, m + 1) == hist_total(h, m) + h[m]);
        assert(hist_total(g, m + 1) == hist_total(g, m) + g[m]);
        assert(hist_total(g, m + 1) == hist_total(h, m + 1));
        assert(false);
    }
    lemma_enum_step_total(h);
    if m > p + 1 {
        // `s` agrees with `h` at and above `m`, so `g` exceeds `s` there too.
        lemma_first_diff_pins(g, s, m, 6);
        lemma_colex_characterization(g, s, 6);
    } else {
        // m == p + 1: `g` has at least as many dice as `s` on face `p + 1`.
        if g[p + 1] > s[p + 1] {
            lemma_first_diff_pins(g, s, p + 1, 6);
            lemma_colex_characterization(g, s, 6);
        } else {
            // Equal from `p + 1` up; below, `s` puts everything on face one,
            // the colexicographic minimum of the remaining dice.
            assert(g[p + 1] == s[p + 1]);
            lemma_colex_characterization(g, s, 6);
            lemma_first_diff_below(g, s, p + 1, 6);
            let m2 = first_diff(g, s, 6);
            if colex_lt(g, s) {
                assert(0 <= m2 < 6 && g[m2] < s[m2]);
                assert(m2 <= p);
                assert(forall|i: int| 0 < i <= p ==> s[i] == 0);
                assert(m2 == 0);
                lemma_hist_suffix_sums(g, s, 1, 6);
                assert(hist_total(g, 0) == 0);
                assert(hist_total(s, 0) == 0);
                assert(hist_total(g, 1) == g[0]);
                assert(hist_total(s, 1) == s[0]);
                assert(false);
            }
        }
    }
}

/// The last histogram of the enumeration: with every die on the highest
/// face, no histogram with the same number of dice comes later.
pub proof fn lemma_enum_last(h: Seq<u8>, g: Seq<u8>)
    requires
        h.len() == 6,
        g.len() == 6,
        first_nonzero(h, 0) >= 5,
        hist_total(g, 6) == hist_total(h, 6),
    ensures
        !colex_lt(h, g),
{
    assert forall|k: int| 0 <= k < 5 implies h[k] == 0 by {
        lemma_first_nonzero_zeros(h, 0, k);
    }
    if first_nonzero(h, 0) == 6 {
        lemma_first_nonzero_zeros(h, 0, 5);
    }
    if colex_lt(h, g) {
        lemma_colex_characterization(h, g, 6);
        let m = first_diff(h, g, 6);
        lemma_hist_suffix_sums(h, g, m + 1, 6);
        lemma_hist_total_zeros(h, m);
        lemma_hist_total_nonneg(g, m);
        assert(hist_total(h, m + 1) == hist_total(h, m) + h[m]);
        assert(hist_total(g, m + 1) == hist_total(g, m) + g[m]);
        assert(false);
    }
}

/// The first histogram of the enumeration: with every die on face one, no
/// histogram with the same number of dice comes earlier.
pub proof fn lemma_enum_first(h: Seq<u8>, g: Seq<u8>)
    requires
        h.len() == 6,
        g.len() == 6,
        forall|i: int| 1 <= i < 6 ==> h[i] == 0,
        hist_total(g, 6) == hist_total(h, 6),
    ensures
        !colex_lt(g, h),
{
    if colex_lt(g, h) {
        lemma_colex_characterization(g, h, 6);
        let m = first_diff(g, h, 6);
        assert(g[m] < h[m]);
        assert(m == 0);
        lemma_hist_suffix_sums(g, h, 1, 6);
        assert(hist_total(g, 0) == 0);
        assert(hist_total(h, 0) == 0);
        assert(hist_total(g, 1) == g[0]);
        assert(hist_total(h, 1) == h[0]);
        assert(false);
    }
}

/// Number of characters among the first `n` of `s` that name face `d + 1`.
pub open spec fn digit_count(s: Seq<char>, d: int, n: int) -> int
    decreases n,
{
    if n <= 0 {
        0
    } else {
        digit_count(s, d, n - 1) + if s[n - 1] as int - '1' as int == d {
            1int
        } else {
            0int
        }
    }
}

/// Whether `s` spells a full roll: six characters, each a die face `1`-`6`.
pub open spec fn is_roll_word(s: Seq<char>) -> bool {
    s.len() == 6 && forall|k: int| 0 <= k < 6 ==> '1' <= #[trigger] s[k] <= '6'
}

/// Parses six dice typed as digits, e.g. `113456`, into a histogram.
pub fn parse_outcome(line: &str) -> (r: Option<Outcome>)
    ensures
        r is Some <==> is_roll_word(line@),
        r matches Some(o) ==> {
            &&& forall|d: int| 0 <= d < 6 ==> o.histogram@[d] == digit_count(line@, d, 6)
            &&& o.valid()
        },
{
    if line.unicode_len() != DICE_COUNT {
        return None;
    }
    let mut outcome = Outcome::empty();
    let mut i: usize = 0;
    while i < DICE_COUNT
        invariant
            i <= 6,
            line@.len() == 6,
            forall|k: int| 0 <= k < i ==> '1' <= #[trigger] line@[k] <= '6',
            forall|d: int| 0 <= d < 6 ==> outcome.histogram@[d] == digit_count(line@, d, i as int),
            hist_total(outcome.histogram@, 6) == i,

        decreases 6 - i,
    {
        let c = line.get_char(i);
        if '1' > c {
            return None;
        }
        let v = (c as u32 - '1' as u32) as usize;
        if v >= SIDES {
            return None;
        }
        proof {
            lemma_hist_entry_le_total(outcome.histogram@, 6, v as int);
            lemma_hist_total_update(
                outcome.histogram@,
                6,
                v as int,
                (outcome.histogram@[v as int] + 1) as u8,
            );
        }
        outcome.histogram[v] = outcome.histogram[v] + 1;
        i += 1;
    }
    Some(outcome)
}

pub proof fn lemma_pow7_values()
    ensures
        pow7(0) == 1,
        pow7(1) == 7,
        pow7(2) == 49,
        pow7(3) == 343,
        pow7(4) == 2401,
        pow7(5) == 16807,
        pow7(6) == 117649,
{
    reveal_with_fuel(pow7, 8);
}

pub proof fn lemma_fact_values()
    ensures
        fact(0) == 1,
        fact(1) == 1,
        fact(2) == 2,
        fact(3) == 6,
        fact(4) == 24,
        fact(5) == 120,
        fact(6) == 720,
{
    reveal_with_fuel(fact, 8);
}

/// Factorial products of histogram entries are positive.
pub proof fn lemma_fact_product_pos(h: Seq<u8>, n: int)
    requires
        forall|i: int| 0 <= i < 6 ==> h[i] <= 6,
        n <= 6,
    ensures
        1 <= fact_product(h, n),
    decreases n,
{
    lemma_fact_values();
    if n > 0 {
        lemma_fact_product_pos(h, n - 1);
        let f = fact(h[n - 1] as int);
        assert(1 <= f <= 720);
        assert(fact_product(h, n - 1) * f >= 1) by (nonlinear_arith)
            requires
                1 <= fact_product(h, n - 1),
                1 <= f,
        ;
    }
}

/// With digits below 7, the first `n` digits encode to less than `7^n`.
pub proof fn lemma_encode_digits_bounds(h: Seq<u8>, n: int)
    requires
        0 <= n,
        forall|i: int| 0 <= i < n ==> h[i] <= 6,
    ensures
        0 <= encode_digits(h, n) < pow7(n),
    decreases n,
{
    if n > 0 {
        lemma_encode_digits_bounds(h, n - 1);
        lemma_pow7_pos(n - 1);
        assert(h[n - 1] * pow7(n - 1) <= 6 * pow7(n - 1)) by (nonlinear_arith)
            requires
                0 <= h[n - 1] <= 6,
                pow7(n - 1) >= 1,
        ;
        assert(h[n - 1] * pow7(n - 1) >= 0) by (nonlinear_arith)
            requires
                0 <= h[n - 1],
                pow7(n - 1) >= 1,
        ;
    }
}

/// Whatever its entries, a histogram's first `n` digits encode below
/// `43 * 7^n`.
pub proof fn lemma_encode_digits_general(h: Seq<u8>, n: int)
    requires
        0 <= n,
    ensures
        0 <= encode_digits(h, n) <= 43 * pow7(n),
    decreases n,
{
    if n > 0 {
        lemma_encode_digits_general(h, n - 1);
        lemma_pow7_pos(n - 1);
        assert(0 <= h[n - 1] * pow7(n - 1) <= 255 * pow7(n - 1)) by (nonlinear_arith)
            requires
                0 <= h[n - 1] <= 255,
                pow7(n - 1) >= 1,
        ;
        assert(43 * pow7(n - 1) + 255 * pow7(n - 1) <= 43 * (7 * pow7(n - 1))) by (nonlinear_arith)
            requires
                pow7(n - 1) >= 1,
        ;
    }
}

/// `7^n` is at most `7^6` for `n` up to six.
pub proof fn lemma_pow7_le_117649(n: int)
    requires
        n <= 6,
    ensures
        0 < pow7(n) <= 117649,
    decreases n,
{
    lemma_pow7_values();
    if n > 0 {
        lemma_pow7_le_117649(n - 1);
    }
}

/// An encoding is at most the dice count times the highest radix place.
pub proof fn lemma_encoded_le_total(h: Seq<u8>, n: int)
    requires
        0 <= n <= 6,
    ensures
        0 <= encode_digits(h, n) <= hist_total(h, n) * 16807,
    decreases n,
{
    if n > 0 {
        lemma_encoded_le_total(h, n - 1);
        lemma_pow7_le_16807(n - 1);
        lemma_pow7_pos(n - 1);
        assert(h[n - 1] * pow7(n - 1) <= h[n - 1] * 16807) by (nonlinear_arith)
            requires
                0 <= h[n - 1],
                0 < pow7(n - 1) <= 16807,
        ;
        assert(h[n - 1] * pow7(n - 1) >= 0) by (nonlinear_arith)
            requires
                0 <= h[n - 1],
                0 < pow7(n - 1),
        ;
        assert((hist_total(h, n - 1) + h[n - 1]) * 16807 == hist_total(h, n - 1) * 16807 + h[n
            - 1] * 16807) by (nonlinear_arith);
    }
}

pub proof fn lemma_pow7_pos(n: int)
    ensures
        pow7(n) >= 1,
    decreases n,
{
    if n > 0 {
        lemma_pow7_pos(n - 1);
    }
}

pub proof fn lemma_pow7_le_16807(n: int)
    requires
        n <= 5,
    ensures
        0 < pow7(n) <= 16807,
    decreases n,
{
    lemma_pow7_values();
    if n > 0 {
        lemma_pow7_le_16807(n - 1);
    }
}

/// A histogram entry never exceeds the dice total that includes it.
pub proof fn lemma_hist_entry_le_total(h: Seq<u8>, n: int, i: int)
    requires
        0 <= i < n,
    ensures
        h[i] <= hist_total(h, n),
        hist_total(h, n) >= 0,
    decreases n,
{
    if n > 0 {
        if i < n - 1 {
            lemma_hist_entry_le_total(h, n - 1, i);
        } else {
            lemma_hist_total_nonneg(h, n - 1);
        }
    }
}

pub proof fn lemma_hist_total_nonneg(h: Seq<u8>, n: int)
    ensures
        hist_total(h, n) >= 0,
    decreases n,
{
    if n > 0 {
        lemma_hist_total_nonneg(h, n - 1);
    }
}

/// Updating one entry changes the total by the difference at that entry.
pub proof fn lemma_hist_total_update(h: Seq<u8>, n: int, i: int, x: u8)
    requires
        0 <= i < 6,
        n <= 6,
        h.len() == 6,
    ensures
        hist_total(h.update(i, x), n) == if i < n {
            hist_total(h, n) - h[i] + x
        } else {
            hist_total(h, n)
        },
    decreases n,
{
    if n > 0 {
        lemma_hist_total_update(h, n - 1, i, x);
    }
}

/// Splitting an encoding at digit `n`: low digits plus `7^n` times the tail.
pub proof fn lemma_encode_split(h: Seq<u8>, n: int)
    requires
        0 <= n <= 6,
    ensures
        encode_digits(h, 6) == encode_digits(h, n) + pow7(n) * encode_tail(h, n),
    decreases 6 - n,
{
    if n == 6 {
        assert(encode_tail(h, 6) == 0);
    } else {
        lemma_encode_split(h, n + 1);
        assert(pow7(n + 1) == 7 * pow7(n));
        assert(encode_tail(h, n) == h[n] + 7 * encode_tail(h, n + 1));
        assert(pow7(n) * (h[n] + 7 * encode_tail(h, n + 1)) == h[n] * pow7(n) + (7 * pow7(n))
            * encode_tail(h, n + 1)) by (nonlinear_arith);
    }
}

pub proof fn lemma_encode_tail_nonneg(h: Seq<u8>, n: int)
    ensures
        encode_tail(h, n) >= 0,
    decreases 6 - n,
{
    if 0 <= n < 6 {
        lemma_encode_tail_nonneg(h, n + 1);
    }
}

/// Round trip one way: decoding recovers every digit of an encoded valid
/// histogram.
pub proof fn lemma_outcome_decode_of_encode(h: Seq<u8>, d: int)
    requires
        0 <= d < 6,
        forall|i: int| 0 <= i < 6 ==> h[i] <= 6,
    ensures
        digit(encode_digits(h, 6), d) == h[d],
{
    let e = encode_digits(h, 6);
    lemma_encode_split(h, d);
    lemma_encode_digits_bounds(h, d);
    lemma_pow7_pos(d);
    lemma_encode_tail_nonneg(h, d + 1);
    let tail = encode_tail(h, d);
    assert(tail == h[d] + 7 * encode_tail(h, d + 1));
    vstd::arithmetic::div_mod::lemma_fundamental_div_mod_converse(
        e,
        pow7(d),
        tail,
        encode_digits(h, d),
    );
    assert(e / pow7(d) == tail);
    vstd::arithmetic::div_mod::lemma_mod_multiples_vanish(encode_tail(h, d + 1), h[d] as int, 7);
    vstd::arithmetic::div_mod::lemma_small_mod(h[d] as nat, 7);
}

/// Round trip the other way: every value below `7^6` is the encoding of its
/// own digits.
pub proof fn lemma_outcome_encode_of_decode(v: int)
    requires
        0 <= v < 117649,
    ensures
        forall|h: Seq<u8>|
            (h.len() == 6 && forall|i: int| 0 <= i < 6 ==> h[i] == digit(v, i))
                ==> #[trigger] encode_digits(h, 6) == v,
{
    assert forall|h: Seq<u8>|
        (h.len() == 6 && forall|i: int| 0 <= i < 6 ==> h[i] == digit(v, i)) implies #[trigger] encode_digits(
        h,
        6,
    ) == v by {
        lemma_pow7_values();
        lemma_tail_of_digits(v, h, 5);
        lemma_tail_of_digits(v, h, 4);
        lemma_tail_of_digits(v, h, 3);
        lemma_tail_of_digits(v, h, 2);
        lemma_tail_of_digits(v, h, 1);
        lemma_tail_of_digits(v, h, 0);
        lemma_encode_split(h, 0);
    }
}

/// Lattice shape, upward: the empty outcome has exactly the six single-die
/// outcomes as successors, one per face.
pub proof fn lemma_empty_successors()
    ensures
        ({
            let e = Seq::new(6, |i: int| 0u8);
            successor_histograms(e).len() == 6 && forall|f: int|
                0 <= f < 6 ==> successor_histograms(e)[f] == Seq::new(
                    6,
                    |d: int| if d == f { 1u8 } else { 0u8 },
                )
        }),
{
    let e = Seq::new(6, |i: int| 0u8);
    assert forall|f: int| 0 <= f < 6 implies successor_histograms(e)[f] == Seq::new(
        6,
        |d: int| if d == f { 1u8 } else { 0u8 },
    ) by {
        assert(successor_histograms(e)[f] =~= Seq::new(
            6,
            |d: int| if d == f { 1u8 } else { 0u8 },
        ));
    }
}

/// Lattice shape, downward: a six-of-a-kind outcome has exactly one
/// predecessor, the five-of-a-kind of the same face.
pub proof fn lemma_six_of_a_kind_predecessors(f: int)
    requires
        0 <= f < 6,
    ensures
        ({
            let h = Seq::new(6, |d: int| if d == f { 6u8 } else { 0u8 });
            predecessor_histograms(h, 0) == seq![h.update(f, 5u8)]
        }),
{
    let h = Seq::new(6, |d: int| if d == f { 6u8 } else { 0u8 });
    lemma_six_of_a_kind_predecessors_from(f, 0);
}

proof fn lemma_six_of_a_kind_predecessors_from(f: int, d: int)
    requires
        0 <= f < 6,
        0 <= d <= 6,
    ensures
        ({
            let h = Seq::new(6, |i: int| if i == f { 6u8 } else { 0u8 });
            predecessor_histograms(h, d) == if d <= f {
                seq![h.update(f, 5u8)]
            } else {
                Seq::<Seq<u8>>::empty()
            }
        }),
    decreases 6 - d,
{
    let h = Seq::new(6, |i: int| if i == f { 6u8 } else { 0u8 });
    if d < 6 {
        lemma_six_of_a_kind_predecessors_from(f, d + 1);
        if d == f {
            assert(seq![h.update(f, 5u8)] + Seq::<Seq<u8>>::empty() =~= seq![h.update(f, 5u8)]);
        }
    }
}

/// A histogram below another in the componentwise order encodes no higher.
pub proof fn lemma_encode_monotone(a: Seq<u8>, b: Seq<u8>, n: int)
    requires
        0 <= n,
        forall|i: int| 0 <= i < n ==> a[i] <= b[i],
    ensures
        encode_digits(a, n) <= encode_digits(b, n),
    decreases n,
{
    if n > 0 {
        lemma_encode_monotone(a, b, n - 1);
        lemma_pow7_pos(n - 1);
        assert(a[n - 1] * pow7(n - 1) <= b[n - 1] * pow7(n - 1)) by (nonlinear_arith)
            requires
                a[n - 1] <= b[n - 1],
                pow7(n - 1) >= 1,
        ;
    }
}

/// A histogram below another in the componentwise order has no more dice.
pub proof fn lemma_hist_total_monotone(a: Seq<u8>, b: Seq<u8>, n: int)
    requires
        forall|i: int| 0 <= i < n ==> a[i] <= b[i],
    ensures
        hist_total(a, n) <= hist_total(b, n),
    decreases n,
{
    if n > 0 {
        lemma_hist_total_monotone(a, b, n - 1);
    }
}

/// For a histogram holding the base-7 digits of `v`, the tail from digit `n`
/// equals `v / 7^n`.
proof fn lemma_tail_of_digits(v: int, h: Seq<u8>, n: int)
    requires
        0 <= v < 117649,
        0 <= n < 6,
        forall|i: int| 0 <= i < 6 ==> h[i] == digit(v, i),
        n < 5 ==> encode_tail(h, n + 1) == v / pow7(n + 1),
    ensures
        encode_tail(h, n) == v / pow7(n),
{
    lemma_pow7_values();
    lemma_pow7_pos(n);
    if n == 5 {
        assert(encode_tail(h, 6) == 0);
        assert(v / 16807 < 7) by {
            vstd::arithmetic::div_mod::lemma_div_is_ordered(v, 117648, 16807);
            assert(117648int / 16807 == 6);
        }
        vstd::arithmetic::div_mod::lemma_div_pos_is_pos(v, 16807);
        vstd::arithmetic::div_mod::lemma_small_mod((v / 16807) as nat, 7);
        assert(h[5] == digit(v, 5));
    } else {
        assert(encode_tail(h, n) == h[n] + 7 * encode_tail(h, n + 1));
        vstd::arithmetic::div_mod::lemma_fundamental_div_mod(v / pow7(n), 7);
        vstd::arithmetic::div_mod::lemma_div_denominator(v, pow7(n), 7);
        assert(pow7(n) * 7 == pow7(n + 1)) by {
            assert(pow7(n + 1) == 7 * pow7(n));
        }
    }
}

} // verus!
