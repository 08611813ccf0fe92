use vstd::prelude::*;

use crate::constants::{BONUS, BONUS_LIMIT, CHANCE, Comb, R15, R16, R26, S2, S22, S222, S23, S3,
    S33, S4, SIDES, YAHTZEE};
use crate::outcome::{Outcome, hist_total};
use crate::state::{State, upper_bound_spec};

verus! {

/// One legal move: fill an upper-section side row, or a combination row.
#[derive(Debug, Clone, Copy, PartialEq)]
pub enum Action {
    Combination(Comb),
    Side(usize),
}

/// Sum of all dice: face value times count, over the first `n` faces.
pub open spec fn chance_score(h: Seq<u8>, n: int) -> int
    decreases n,
{
    if n <= 0 {
        0
    } else {
        chance_score(h, n - 1) + n * h[n - 1]
    }
}

/// The face showing on all six dice, or zero; the lowest such face wins.
pub open spec fn yahtzee_face(h: Seq<u8>, d: int) -> int
    decreases 6 - d,
{
    if d < 0 || d >= 6 {
        0
    } else if h[d] == 6 {
        d + 1
    } else {
        yahtzee_face(h, d + 1)
    }
}

/// Six of a kind scores 100 plus six times the face, else zero.
pub open spec fn yahtzee_value(h: Seq<u8>) -> int {
    let f = yahtzee_face(h, 0);
    if f > 0 {
        100 + 6 * f
    } else {
        0
    }
}

/// Cumulative pair sums, greedily claimed from the highest face down to face
/// index `d`: entry `k` is twice the sum of the top `k + 1` pair faces.
pub open spec fn pair_sums(h: Seq<u8>, d: int) -> Seq<int>
    decreases 6 - d,
{
    if d < 0 || d >= 6 {
        Seq::empty()
    } else {
        let rest = pair_sums(h, d + 1);
        if h[d] >= 2 {
            rest.push(last_or_zero(rest) + 2 * (d + 1))
        } else {
            rest
        }
    }
}

pub open spec fn last_or_zero(s: Seq<int>) -> int {
    if s.len() == 0 {
        0
    } else {
        s[s.len() - 1]
    }
}

/// Value of the `k`-th pair row: the cumulative sum of the top `k + 1` pairs,
/// or zero when fewer pairs exist.
pub open spec fn pair_value(h: Seq<u8>, k: int) -> int {
    let ps = pair_sums(h, 0);
    if 0 <= k < ps.len() {
        ps[k]
    } else {
        0
    }
}

/// Greedy scan state for the n-of-a-kind rows, after processing faces from
/// the highest down to `d`: `(pair face, triple face, quad face, second
/// triple face)`, zero where none was seen.
pub open spec fn comb_scan(h: Seq<u8>, d: int) -> (int, int, int, int)
    decreases 6 - d,
{
    if d < 0 || d >= 6 {
        (0, 0, 0, 0)
    } else {
        let (s2, s3, s4, s33) = comb_scan(h, d + 1);
        let v = d + 1;
        if h[d] >= 4 {
            (if s2 >= s3 {
                s2
            } else {
                s3
            }, v, v, s33)
        } else if h[d] == 3 {
            (if s2 >= s3 {
                s2
            } else {
                s3
            }, v, s4, if s33 >= s3 {
                s33
            } else {
                s3
            })
        } else if h[d] == 2 {
            (v, s3, s4, s33)
        } else {
            (s2, s3, s4, s33)
        }
    }
}

pub open spec fn four_kind_value(h: Seq<u8>) -> int {
    4 * comb_scan(h, 0).2
}

pub open spec fn three_kind_value(h: Seq<u8>) -> int {
    3 * comb_scan(h, 0).1
}

pub open spec fn two_triples_value(h: Seq<u8>) -> int {
    let (s2, s3, s4, s33) = comb_scan(h, 0);
    if s33 > 0 {
        3 * (s33 + s3)
    } else {
        0
    }
}

pub open spec fn pair_triple_value(h: Seq<u8>) -> int {
    let (s2, s3, s4, s33) = comb_scan(h, 0);
    if s2 > 0 && s3 > 0 {
        2 * s2 + 3 * s3
    } else {
        0
    }
}

/// Number of faces showing on exactly one die, among the first `n` faces.
pub open spec fn singles_count(h: Seq<u8>, n: int) -> int
    decreases n,
{
    if n <= 0 {
        0
    } else {
        singles_count(h, n - 1) + if h[n - 1] == 1 {
            1int
        } else {
            0int
        }
    }
}

/// Values of the three straight rows `(low, high, full)`.
pub open spec fn straight_values(h: Seq<u8>) -> (int, int, int) {
    let s = singles_count(h, 6);
    if s == 6 {
        (15, 20, 30)
    } else if s == 4 && h[0] == 0 {
        (0, 20, 0)
    } else if s == 4 && h[5] == 0 {
        (15, 0, 0)
    } else {
        (0, 0, 0)
    }
}

/// Appends the chance row's score: the sum of all dice.
fn score_sum(o: Outcome, res: &mut Vec<(Comb, u32)>)
    ensures
        final(res)@ == old(res)@.push((CHANCE, chance_score(o.histogram@, 6) as u32)),
{
    proof {
        lemma_chance_score_bounds(o.histogram@, 6);
    }
    let mut sum: u32 = 0;
    let mut d: usize = 0;
    while d < SIDES
        invariant
            d <= 6,
            sum == chance_score(o.histogram@, d as int),
            sum <= 9180,

        decreases 6 - d,
    {
        proof {
            lemma_chance_score_bounds(o.histogram@, d as int);
            lemma_chance_score_bounds(o.histogram@, d + 1);
        }
        sum += (d as u32 + 1) * (o.histogram[d] as u32);
        d += 1;
    }
    res.push((CHANCE, sum));
}

/// `chance_score` lies between 0 and `6 * 255 * n`.
pub proof fn lemma_chance_score_bounds(h: Seq<u8>, n: int)
    requires
        0 <= n <= 6,
    ensures
        0 <= chance_score(h, n) <= 1530 * n,
    decreases n,
{
    if n > 0 {
        lemma_chance_score_bounds(h, n - 1);
        assert(0 <= n * h[n - 1] <= 1530) by (nonlinear_arith)
            requires
                1 <= n <= 6,
                0 <= h[n - 1] <= 255,
        ;
    }
}

/// Appends the six-of-a-kind row's score.
fn score_yahtzee(o: Outcome, res: &mut Vec<(Comb, u32)>)
    ensures
        final(res)@ == old(res)@.push((YAHTZEE, yahtzee_value(o.histogram@) as u32)),
{
    let mut s6: u32 = 0;
    let mut d: usize = SIDES;
    while d > 0
        invariant
            d <= 6,
            s6 == yahtzee_face(o.histogram@, d as int),
            s6 <= 6,

        decreases d,
    {
        d -= 1;
        if o.histogram[d] == 6 {
            s6 = d as u32 + 1;
        }
    }
    proof {
        lemma_yahtzee_face_bounds(o.histogram@, 0);
    }
    if s6 > 0 {
        res.push((YAHTZEE, 100 + 6 * s6));
    } else {
        res.push((YAHTZEE, 0));
    }
}

pub proof fn lemma_yahtzee_face_bounds(h: Seq<u8>, d: int)
    requires
        0 <= d <= 6,
    ensures
        0 <= yahtzee_face(h, d) <= 6,
    decreases 6 - d,
{
    if d < 6 {
        lemma_yahtzee_face_bounds(h, d + 1);
    }
}

/// Number of dice on face `d` and above.
pub open spec fn hist_total_from(h: Seq<u8>, d: int) -> int
    decreases 6 - d,
{
    if d < 0 || d >= 6 {
        0
    } else {
        h[d] + hist_total_from(h, d + 1)
    }
}

/// The dice below `d` and the dice at or above `d` add up to all the dice.
pub proof fn lemma_hist_split(h: Seq<u8>, d: int)
    requires
        0 <= d <= 6,
    ensures
        hist_total(h, 6) == hist_total(h, d) + hist_total_from(h, d),
    decreases 6 - d,
{
    if d < 6 {
        lemma_hist_split(h, d + 1);
    }
}

/// The combination row that claims the `k`-th greedy pair.
pub open spec fn pair_comb(k: int) -> Comb {
    if k == 0 {
        S2
    } else if k == 1 {
        S22
    } else {
        S222
    }
}

/// Largest possible cumulative sum of `k + 1` distinct pair faces:
/// `2 * (6 + 5 + ... + (6 - k))`.
pub open spec fn pair_cap(k: int) -> int {
    (k + 1) * (12 - k)
}

/// Each pair takes two dice, so the greedy pair list is short; and each
/// cumulative sum is positive, below its cap, and below the last.
pub proof fn lemma_pair_sums_caps(h: Seq<u8>, d: int)
    requires
        0 <= d <= 6,
    ensures
        ({
            let ps = pair_sums(h, d);
            &&& 2 * ps.len() <= hist_total_from(h, d)
            &&& ps.len() <= 6 - d
            &&& forall|k: int| 0 <= k < ps.len() ==> 0 < #[trigger] ps[k] <= pair_cap(k)
            &&& forall|k: int| 0 <= k < ps.len() ==> #[trigger] ps[k] <= last_or_zero(ps)
            &&& 0 <= last_or_zero(ps) <= 42
        }),
    decreases 6 - d,
{
    assert forall|k: int| 0 <= k <= 5 implies pair_cap(k) <= 42 by {
        assert((k + 1) * (12 - k) <= 42) by (nonlinear_arith)
            requires
                0 <= k <= 5,
        ;
    }
    if d < 6 {
        lemma_pair_sums_caps(h, d + 1);
        let prev = pair_sums(h, d + 1);
        let ps = pair_sums(h, d);
        if h[d] >= 2 {
            let k_new = prev.len() as int;
            assert(k_new <= 5 - d);
            assert(pair_cap(k_new - 1) + 2 * (6 - k_new) == pair_cap(k_new)) by (nonlinear_arith);
            assert(2 * (d + 1) <= 2 * (6 - k_new));
            if k_new == 0 {
                assert(ps[0] == 2 * (d + 1) <= 12);
            }
        }
    }
}

/// The three pair rows' scores, in emission order.
pub open spec fn pair_row_entries(h: Seq<u8>) -> Seq<(Comb, u32)> {
    seq![
        (S2, pair_value(h, 0) as u32),
        (S22, pair_value(h, 1) as u32),
        (S222, pair_value(h, 2) as u32),
    ]
}

/// The pair entries emitted so far when the greedy scan has reached face `d`.
pub open spec fn pair_partial_entries(h: Seq<u8>, d: int) -> Seq<(Comb, u32)> {
    Seq::new(pair_sums(h, d).len(), |k: int| (pair_comb(k), pair_sums(h, d)[k] as u32))
}

/// Appends the three pair rows' scores: pairs claimed greedily from the
/// highest face down; rows beyond the available pairs score zero.
fn score_pairs(o: Outcome, res: &mut Vec<(Comb, u32)>)
    requires
        hist_total(o.histogram@, 6) <= 6,
    ensures
        final(res)@ == old(res)@ + pair_row_entries(o.histogram@),
{
    let ghost h = o.histogram@;
    let pair_scores: [Comb; 3] = [S2, S22, S222];
    assert(forall|k: int| 0 <= k < 3 ==> #[trigger] pair_scores@[k] == pair_comb(k));
    let mut pair_sum: u32 = 0;
    let mut pairs: usize = 0;
    let mut d: usize = SIDES;
    while d > 0
        invariant
            d <= 6,
            hist_total(h, 6) <= 6,
            h == o.histogram@,
            pairs == pair_sums(h, d as int).len(),
            pair_sum == last_or_zero(pair_sums(h, d as int)),
            pair_sum <= 42,
            forall|k: int| 0 <= k < 3 ==> #[trigger] pair_scores@[k] == pair_comb(k),
            res@ == old(res)@ + pair_partial_entries(h, d as int),

        decreases d,
    {
        proof {
            lemma_pair_sums_caps(h, d as int);
            lemma_pair_sums_caps(h, d - 1);
            lemma_hist_split(h, d - 1);
            crate::outcome::lemma_hist_total_nonneg(h, d - 1);
        }
        d -= 1;
        if o.histogram[d] >= 2 {
            pair_sum += 2 * (d as u32 + 1);
            proof {
                assert(pair_scores@[pairs as int] == pair_comb(pairs as int));
            }
            res.push((pair_scores[pairs], pair_sum));
            pairs += 1;
            proof {
                assert(res@ =~= old(res)@ + pair_partial_entries(h, d as int));
            }
        }
    }
    proof {
        lemma_pair_sums_caps(h, 0);
        lemma_hist_split(h, 0);
        assert(res@ =~= old(res)@ + Seq::new(
            pairs as nat,
            |k: int| (pair_comb(k), pair_value(h, k) as u32),
        ));
    }
    let mut i: usize = pairs;
    while i < 3
        invariant
            pairs <= i <= 3,
            pairs == pair_sums(h, 0).len(),
            h == o.histogram@,
            hist_total(h, 6) <= 6,
            forall|k: int|
                0 <= k < pair_sums(h, 0).len() ==> 0 <= #[trigger] pair_sums(h, 0)[k] <= 42,
            forall|k: int| 0 <= k < 3 ==> #[trigger] pair_scores@[k] == pair_comb(k),
            res@ == old(res)@ + Seq::new(i as nat, |k: int| (pair_comb(k), pair_value(h, k) as u32)),

        decreases 3 - i,
    {
        proof {
            assert(pair_scores@[i as int] == pair_comb(i as int));
        }
        res.push((pair_scores[i], 0));
        i += 1;
        proof {
            assert(res@ =~= old(res)@ + Seq::new(
                i as nat,
                |k: int| (pair_comb(k), pair_value(h, k) as u32),
            ));
        }
    }
    proof {
        assert(old(res)@ + Seq::new(3, |k: int| (pair_comb(k), pair_value(h, k) as u32)) =~= old(
            res,
        )@ + pair_row_entries(h));
    }
}

/// The four n-of-a-kind rows' scores, in emission order.
pub open spec fn comb_row_entries(h: Seq<u8>) -> Seq<(Comb, u32)> {
    seq![
        (S4, four_kind_value(h) as u32),
        (S3, three_kind_value(h) as u32),
        (S33, two_triples_value(h) as u32),
        (S23, pair_triple_value(h) as u32),
    ]
}

/// Appends the four n-of-a-kind rows' scores, from one greedy scan over the
/// faces from highest to lowest.
fn score_combinations(o: Outcome, res: &mut Vec<(Comb, u32)>)
    ensures
        final(res)@ == old(res)@ + comb_row_entries(o.histogram@),
{
    let ghost h = o.histogram@;
    let mut s2: u32 = 0;
    let mut s3: u32 = 0;
    let mut s4: u32 = 0;
    let mut s33: u32 = 0;
    let mut d: usize = SIDES;
    while d > 0
        invariant
            d <= 6,
            h == o.histogram@,
            (s2 as int, s3 as int, s4 as int, s33 as int) == comb_scan(h, d as int),
            s2 <= 6 && s3 <= 6 && s4 <= 6 && s33 <= 6,

        decreases d,
    {
        d -= 1;
        if o.histogram[d] >= 4 {
            if s3 > s2 {
                s2 = s3;
            }
            s3 = d as u32 + 1;
            s4 = s3;
        } else if o.histogram[d] == 3 {
            if s3 > s2 {
                s2 = s3;
            }
            if s3 > s33 {
                s33 = s3;
            }
            s3 = d as u32 + 1;
        } else if o.histogram[d] == 2 {
            s2 = d as u32 + 1;
        }
    }
    res.push((S4, 4 * s4));
    res.push((S3, 3 * s3));
    if s33 > 0 {
        res.push((S33, 3 * (s33 + s3)));
    } else {
        res.push((S33, 0));
    }
    if s2 > 0 && s3 > 0 {
        res.push((S23, 2 * s2 + 3 * s3));
    } else {
        res.push((S23, 0));
    }
    proof {
        assert(res@ =~= old(res)@ + comb_row_entries(h));
    }
}

/// The three straight rows' scores, in emission order.
pub open spec fn straight_row_entries(h: Seq<u8>) -> Seq<(Comb, u32)> {
    let (r15, r26, r16) = straight_values(h);
    seq![(R15, r15 as u32), (R26, r26 as u32), (R16, r16 as u32)]
}

/// Appends the three straight rows' scores.
fn score_singles(o: Outcome, res: &mut Vec<(Comb, u32)>)
    ensures
        final(res)@ == old(res)@ + straight_row_entries(o.histogram@),
{
    let ghost h = o.histogram@;
    let mut singles: u32 = 0;
    let mut d: usize = 0;
    while d < SIDES
        invariant
            d <= 6,
            h == o.histogram@,
            singles == singles_count(h, d as int),
            singles <= d,

        decreases 6 - d,
    {
        if o.histogram[d] == 1 {
            singles += 1;
        }
        d += 1;
    }
    if singles == 6 {
        res.push((R15, 15));
        res.push((R26, 20));
        res.push((R16, 30));
    } else if singles == 4 && o.histogram[0] == 0 {
        res.push((R15, 0));
        res.push((R26, 20));
        res.push((R16, 0));
    } else if singles == 4 && o.histogram[5] == 0 {
        res.push((R15, 15));
        res.push((R26, 0));
        res.push((R16, 0));
    } else {
        res.push((R15, 0));
        res.push((R26, 0));
        res.push((R16, 0));
    }
    proof {
        assert(res@ =~= old(res)@ + straight_row_entries(h));
    }
}

/// Every combination row's raw score for this outcome, for each group of
/// rows that still has an open row, in emission order. Entries for rows that
/// are already used are emitted too and filtered by `actions`.
pub open spec fn raw_comb_scores(s: State, h: Seq<u8>) -> Seq<(Comb, u32)> {
    (if !(s.has_comb_spec(S2 as int) && s.has_comb_spec(S22 as int) && s.has_comb_spec(
        S222 as int,
    )) {
        pair_row_entries(h)
    } else {
        Seq::empty()
    }) + (if !s.has_comb_spec(CHANCE as int) {
        seq![(CHANCE, chance_score(h, 6) as u32)]
    } else {
        Seq::empty()
    }) + (if !s.has_comb_spec(YAHTZEE as int) {
        seq![(YAHTZEE, yahtzee_value(h) as u32)]
    } else {
        Seq::empty()
    }) + (if !(s.has_comb_spec(S3 as int) && s.has_comb_spec(S4 as int) && s.has_comb_spec(
        S33 as int,
    ) && s.has_comb_spec(S23 as int)) {
        comb_row_entries(h)
    } else {
        Seq::empty()
    }) + (if !(s.has_comb_spec(R15 as int) && s.has_comb_spec(R26 as int) && s.has_comb_spec(
        R16 as int,
    )) {
        straight_row_entries(h)
    } else {
        Seq::empty()
    })
}

/// Appends the raw scores of every group of combination rows in which the
/// position still has an open row.
pub fn possible_scores(o: Outcome, s: State, res: &mut Vec<(Comb, u32)>)
    requires
        hist_total(o.histogram@, 6) <= 6,
    ensures
        final(res)@ == old(res)@ + raw_comb_scores(s, o.histogram@),
{
    if !(s.has_comb(S2) && s.has_comb(S22) && s.has_comb(S222)) {
        score_pairs(o, res);
    }
    if !s.has_comb(CHANCE) {
        score_sum(o, res);
    }
    if !s.has_comb(YAHTZEE) {
        score_yahtzee(o, res);
    }
    if !(s.has_comb(S3) && s.has_comb(S4) && s.has_comb(S33) && s.has_comb(S23)) {
        score_combinations(o, res);
    }
    if !(s.has_comb(R15) && s.has_comb(R26) && s.has_comb(R16)) {
        score_singles(o, res);
    }
    proof {
        assert(res@ =~= old(res)@ + raw_comb_scores(s, o.histogram@));
    }
}

/// New bonus track and payout bonus when `pts` upper-section points land on
/// a track reading `score`: crossing the threshold clamps the track and pays
/// the one-time bonus.
pub open spec fn bonus_apply(score: int, pts: int) -> (int, int) {
    if score < BONUS_LIMIT && score + pts >= BONUS_LIMIT {
        (BONUS_LIMIT as int, BONUS as int)
    } else if score < BONUS_LIMIT {
        (score + pts, 0int)
    } else {
        (score, 0int)
    }
}

/// The transition that fills side row `d`.
pub open spec fn side_entry(s: State, h: Seq<u8>, d: int) -> (Action, State, u32) {
    let pts = (d + 1) * h[d];
    let (new_score, bonus) = bonus_apply(s.score as int, pts);
    (
        Action::Side(d as usize),
        State {
            combination_mask: s.combination_mask,
            sides_mask: s.sides_mask | (1u8 << (d as u8)),
            score: new_score as u32,
        },
        (pts + bonus) as u32,
    )
}

/// The transitions for the unused side rows below `n`, in face order.
pub open spec fn side_entries(s: State, h: Seq<u8>, n: int) -> Seq<(Action, State, u32)>
    decreases n,
{
    if n <= 0 {
        Seq::empty()
    } else {
        side_entries(s, h, n - 1) + if s.has_side_spec(n - 1) {
            Seq::empty()
        } else {
            seq![side_entry(s, h, n - 1)]
        }
    }
}

/// The transition that fills combination row `c` for `v` points.
pub open spec fn comb_entry(s: State, c: Comb, v: u32) -> (Action, State, u32) {
    (
        Action::Combination(c),
        State {
            combination_mask: s.combination_mask | (1u16 << (c as u16)),
            sides_mask: s.sides_mask,
            score: s.score,
        },
        v,
    )
}

/// The transitions for the raw combination scores from index `i` on, keeping
/// only rows not already used.
pub open spec fn filtered_comb_entries(s: State, raw: Seq<(Comb, u32)>, i: int) -> Seq<
    (Action, State, u32),
>
    decreases raw.len() - i,
{
    if i < 0 || i >= raw.len() {
        Seq::empty()
    } else {
        (if s.has_comb_spec(raw[i].0 as int) {
            Seq::empty()
        } else {
            seq![comb_entry(s, raw[i].0, raw[i].1)]
        }) + filtered_comb_entries(s, raw, i + 1)
    }
}

/// Every legal transition from position `s` on outcome histogram `h`:
/// side rows in face order, then combination rows in emission order.
pub open spec fn actions_spec(s: State, h: Seq<u8>) -> Seq<(Action, State, u32)> {
    side_entries(s, h, 6) + filtered_comb_entries(s, raw_comb_scores(s, h), 0)
}

/// Enumerates every legal move from `state` on the resolved outcome `o`,
/// with the position it leads to and the points it pays.
pub fn actions(state: State, o: Outcome) -> (r: Vec<(Action, State, u32)>)
    requires
        state.wf(),
        o.valid(),
    ensures
        r@ == actions_spec(state, o.histogram@),
{
    let ghost h = o.histogram@;
    let mut res: Vec<(Action, State, u32)> = Vec::new();
    let score = state.score;
    let mut d: usize = 0;
    while d < SIDES
        invariant
            d <= 6,
            state.wf(),
            score == state.score,
            h == o.histogram@,
            res@ == side_entries(state, h, d as int),

        decreases 6 - d,
    {
        if !state.has_side(d) {
            let hv = o.histogram[d];
            proof {
                assert(0 <= (d as u32 + 1) * (hv as u32) <= 1530) by (nonlinear_arith)
                    requires
                        0 <= d < 6,
                        hv <= 255,
                ;
                assert((d as u32 + 1) * (hv as u32) == (d + 1) * h[d as int]) by (nonlinear_arith)
                    requires
                        0 <= d < 6,
                        hv == h[d as int],
                        hv <= 255,
                ;
            }
            let s = (d as u32 + 1) * (hv as u32);
            let (new_score, bonus) = if score < BONUS_LIMIT && score + s >= BONUS_LIMIT {
                (BONUS_LIMIT, BONUS)
            } else if score < BONUS_LIMIT {
                (score + s, 0)
            } else {
                (score, 0)
            };
            res.push((Action::Side(d), state.with_side(d).with_score(new_score), s + bonus));
            proof {
                assert(res@ =~= side_entries(state, h, d as int + 1));
            }
        }
        d += 1;
    }
    let mut raw: Vec<(Comb, u32)> = Vec::new();
    possible_scores(o, state, &mut raw);
    proof {
        lemma_raw_comb_scores_sound(state, h);
        assert(res@ + filtered_comb_entries(state, raw@, 0) =~= actions_spec(state, h));
    }
    let mut i: usize = 0;
    while i < raw.len()
        invariant
            state.wf(),
            i <= raw@.len(),
            h == o.histogram@,
            raw@ == raw_comb_scores(state, h),
            forall|j: int| 0 <= j < raw@.len() ==> 0 <= (#[trigger] raw@[j]).0 < 12,
            res@ + filtered_comb_entries(state, raw@, i as int) == actions_spec(state, h),

        decreases raw@.len() - i,
    {
        let (c, v) = raw[i];
        if !state.has_comb(c) {
            res.push((Action::Combination(c), state.with_comb(c), v));
        }
        proof {
            assert(res@ + filtered_comb_entries(state, raw@, i as int + 1) =~= actions_spec(
                state,
                h,
            ));
        }
        i += 1;
    }
    res
}

/// The dice sum is at most six times the dice count.
pub proof fn lemma_chance_score_le(h: Seq<u8>, n: int)
    requires
        0 <= n <= 6,
    ensures
        0 <= chance_score(h, n) <= 6 * hist_total(h, n),
    decreases n,
{
    if n > 0 {
        lemma_chance_score_le(h, n - 1);
        assert(0 <= n * h[n - 1] <= 6 * h[n - 1]) by (nonlinear_arith)
            requires
                1 <= n <= 6,
                0 <= h[n - 1],
        ;
    }
}

/// Shape of the greedy n-of-a-kind scan: every component is a face value at
/// or above the faces not yet scanned (or zero), the second triple face lies
/// above the triple face, and the pair face differs from the triple face.
pub proof fn lemma_comb_scan_props(h: Seq<u8>, d: int)
    requires
        0 <= d <= 6,
    ensures
        ({
            let (s2, s3, s4, s33) = comb_scan(h, d);
            &&& 0 <= s2 <= 6 && 0 <= s3 <= 6 && 0 <= s4 <= 6 && 0 <= s33 <= 6
            &&& (s2 == 0 || s2 >= d + 1)
            &&& (s3 == 0 || s3 >= d + 1)
            &&& (s4 == 0 || s4 >= d + 1)
            &&& (s33 == 0 || s33 >= d + 1)
            &&& (s33 > 0 ==> s33 > s3 && s3 > 0)
            &&& (s2 > 0 && s3 > 0 ==> s2 != s3)
        }),
    decreases 6 - d,
{
    if d < 6 {
        lemma_comb_scan_props(h, d + 1);
    }
}

/// Every raw combination entry names a real row and scores at most that
/// row's maximum.
pub proof fn lemma_raw_comb_scores_sound(s: State, h: Seq<u8>)
    requires
        hist_total(h, 6) <= 6,
    ensures
        forall|j: int|
            0 <= j < raw_comb_scores(s, h).len() ==> {
                let e = #[trigger] raw_comb_scores(s, h)[j];
                0 <= e.0 < 12 && e.1 <= crate::state::comb_max(e.0 as int)
            },
{
    let g1 = if !(s.has_comb_spec(S2 as int) && s.has_comb_spec(S22 as int) && s.has_comb_spec(
        S222 as int,
    )) {
        pair_row_entries(h)
    } else {
        Seq::<(Comb, u32)>::empty()
    };
    let g2 = if !s.has_comb_spec(CHANCE as int) {
        seq![(CHANCE, chance_score(h, 6) as u32)]
    } else {
        Seq::<(Comb, u32)>::empty()
    };
    let g3 = if !s.has_comb_spec(YAHTZEE as int) {
        seq![(YAHTZEE, yahtzee_value(h) as u32)]
    } else {
        Seq::<(Comb, u32)>::empty()
    };
    let g4 = if !(s.has_comb_spec(S3 as int) && s.has_comb_spec(S4 as int) && s.has_comb_spec(
        S33 as int,
    ) && s.has_comb_spec(S23 as int)) {
        comb_row_entries(h)
    } else {
        Seq::<(Comb, u32)>::empty()
    };
    let g5 = if !(s.has_comb_spec(R15 as int) && s.has_comb_spec(R26 as int) && s.has_comb_spec(
        R16 as int,
    )) {
        straight_row_entries(h)
    } else {
        Seq::<(Comb, u32)>::empty()
    };
    assert(raw_comb_scores(s, h) == g1 + g2 + g3 + g4 + g5);
    let ok = |e: (Comb, u32)| 0 <= e.0 < 12 && e.1 <= crate::state::comb_max(e.0 as int);
    lemma_pair_sums_caps(h, 0);
    lemma_hist_split(h, 0);
    assert(pair_value(h, 0) <= 12 && pair_value(h, 1) <= 22 && pair_value(h, 2) <= 30 && 0
        <= pair_value(h, 0) && 0 <= pair_value(h, 1) && 0 <= pair_value(h, 2)) by {
        let ps = pair_sums(h, 0);
        assert(pair_cap(0) == 12 && pair_cap(1) == 22 && pair_cap(2) == 30);
    }
    assert forall|j: int| 0 <= j < g1.len() implies ok(#[trigger] g1[j]) by {
        assert(g1.len() > 0 ==> g1 == pair_row_entries(h));
    }
    lemma_chance_score_le(h, 6);
    assert forall|j: int| 0 <= j < g2.len() implies ok(#[trigger] g2[j]) by {
        assert(g2.len() > 0 ==> g2[0] == (CHANCE, chance_score(h, 6) as u32));
    }
    lemma_yahtzee_face_bounds(h, 0);
    assert forall|j: int| 0 <= j < g3.len() implies ok(#[trigger] g3[j]) by {
        assert(g3.len() > 0 ==> g3[0] == (YAHTZEE, yahtzee_value(h) as u32));
    }
    lemma_comb_scan_props(h, 0);
    assert forall|j: int| 0 <= j < g4.len() implies ok(#[trigger] g4[j]) by {
        assert(g4.len() > 0 ==> g4 == comb_row_entries(h));
        let (s2, s3, s4, s33) = comb_scan(h, 0);
        assert(four_kind_value(h) <= 24);
        assert(three_kind_value(h) <= 18);
        assert(two_triples_value(h) <= 33);
        assert(pair_triple_value(h) <= 28);
    }
    assert forall|j: int| 0 <= j < g5.len() implies ok(#[trigger] g5[j]) by {
        assert(g5.len() > 0 ==> g5 == straight_row_entries(h));
    }
    assert forall|j: int| 0 <= j < raw_comb_scores(s, h).len() implies {
        let e = #[trigger] raw_comb_scores(s, h)[j];
        0 <= e.0 < 12 && e.1 <= crate::state::comb_max(e.0 as int)
    } by {
        let l1 = g1.len() as int;
        let l2 = l1 + g2.len();
        let l3 = l2 + g3.len();
        let l4 = l3 + g4.len();
        if j < l1 {
            assert(raw_comb_scores(s, h)[j] == g1[j]);
        } else if j < l2 {
            assert(raw_comb_scores(s, h)[j] == g2[j - l1]);
        } else if j < l3 {
            assert(raw_comb_scores(s, h)[j] == g3[j - l2]);
        } else if j < l4 {
            assert(raw_comb_scores(s, h)[j] == g4[j - l3]);
        } else {
            assert(raw_comb_scores(s, h)[j] == g5[j - l4]);
        }
    }
}

/// What every legal transition guarantees: a well-formed next position, a
/// strictly larger encoding, and points within the admissible bound.
pub open spec fn transition_sound(s: State, e: (Action, State, u32)) -> bool {
    &&& e.1.wf()
    &&& e.1.encoding() > s.encoding()
    &&& e.2 + upper_bound_spec(e.1) <= upper_bound_spec(s)
}

/// Filling one side row is a sound transition.
proof fn lemma_side_entry_sound(s: State, h: Seq<u8>, d: int)
    requires
        s.wf(),
        0 <= d < 6,
        !s.has_side_spec(d),
        0 <= h[d] <= 6,
    ensures
        transition_sound(s, side_entry(s, h, d)),
{
    let e = side_entry(s, h, d);
    let t = e.1;
    let hv = h[d];
    let pts = (d + 1) * hv;
    assert(0 <= pts <= 6 * (d + 1)) by (nonlinear_arith)
        requires
            pts == (d + 1) * hv,
            0 <= hv <= 6,
            0 <= d,
    ;
    crate::state::lemma_u8_set_bit(s.sides_mask, d as u8);
    crate::state::lemma_sides_total_set_bit(s, t, d, 6);
    crate::state::lemma_combs_total_same(s, t, 12);
    crate::state::lemma_sides_total_bounds(s, 6);
    crate::state::lemma_sides_total_bounds(t, 6);
    crate::state::lemma_combs_total_bounds(s, 12);
    let tot = crate::state::sides_total(s, 6);
    let tot2 = crate::state::sides_total(t, 6);
    assert(tot2 == tot - 6 * (d + 1));
    assert(tot >= 6 * (d + 1));
    assert(t.sides_mask > s.sides_mask);
    assert(t.encoding() > s.encoding());
}

/// Every side-row transition is sound.
proof fn lemma_side_entries_sound(s: State, h: Seq<u8>, n: int)
    requires
        s.wf(),
        0 <= n <= 6,
        forall|i: int| 0 <= i < 6 ==> h[i] <= 6,
    ensures
        forall|j: int|
            0 <= j < side_entries(s, h, n).len() ==> transition_sound(
                s,
                #[trigger] side_entries(s, h, n)[j],
            ),
    decreases n,
{
    if n > 0 {
        lemma_side_entries_sound(s, h, n - 1);
        if !s.has_side_spec(n - 1) {
            lemma_side_entry_sound(s, h, n - 1);
        }
        assert forall|j: int| 0 <= j < side_entries(s, h, n).len() implies transition_sound(
            s,
            #[trigger] side_entries(s, h, n)[j],
        ) by {
            if j < side_entries(s, h, n - 1).len() {
                assert(side_entries(s, h, n)[j] == side_entries(s, h, n - 1)[j]);
            } else {
                assert(side_entries(s, h, n)[j] == side_entry(s, h, n - 1));
            }
        }
    }
}

/// Filling one combination row, for at most that row's maximum, is a sound
/// transition.
proof fn lemma_comb_entry_sound(s: State, c: Comb, v: u32)
    requires
        s.wf(),
        c < 12,
        !s.has_comb_spec(c as int),
        v <= crate::state::comb_max(c as int),
    ensures
        transition_sound(s, comb_entry(s, c, v)),
{
    let e = comb_entry(s, c, v);
    let t = e.1;
    crate::state::lemma_u16_set_bit(s.combination_mask, c as u16);
    crate::state::lemma_combs_total_set_bit(s, t, c as int, 12);
    crate::state::lemma_sides_total_same(s, t, 6);
    assert(t.combination_mask > s.combination_mask);
    assert(t.encoding() > s.encoding());
}

/// Every combination-row transition drawn from capped raw scores is sound.
proof fn lemma_filtered_comb_entries_sound(s: State, raw: Seq<(Comb, u32)>, i: int)
    requires
        s.wf(),
        0 <= i,
        forall|j: int|
            0 <= j < raw.len() ==> {
                let e = #[trigger] raw[j];
                0 <= e.0 < 12 && e.1 <= crate::state::comb_max(e.0 as int)
            },
    ensures
        forall|j: int|
            0 <= j < filtered_comb_entries(s, raw, i).len() ==> transition_sound(
                s,
                #[trigger] filtered_comb_entries(s, raw, i)[j],
            ),
    decreases raw.len() - i,
{
    if i < raw.len() {
        lemma_filtered_comb_entries_sound(s, raw, i + 1);
        if !s.has_comb_spec(raw[i].0 as int) {
            lemma_comb_entry_sound(s, raw[i].0, raw[i].1);
        }
        assert forall|j: int| 0 <= j < filtered_comb_entries(s, raw, i).len() implies
            transition_sound(s, #[trigger] filtered_comb_entries(s, raw, i)[j]) by {
            if s.has_comb_spec(raw[i].0 as int) {
                assert(filtered_comb_entries(s, raw, i)[j] == filtered_comb_entries(
                    s,
                    raw,
                    i + 1,
                )[j]);
            } else if j == 0 {
                assert(filtered_comb_entries(s, raw, i)[j] == comb_entry(s, raw[i].0, raw[i].1));
            } else {
                assert(filtered_comb_entries(s, raw, i)[j] == filtered_comb_entries(
                    s,
                    raw,
                    i + 1,
                )[j - 1]);
            }
        }
    }
}

/// Soundness of the action enumeration. Every legal transition leads to a
/// well-formed position, strictly raises the encoded index — the transition
/// graph is acyclic and a single backward sweep solves it — and pays at most
/// what the admissible bound allows:
/// `points + upper_bound(next) <= upper_bound(state)`.
pub proof fn lemma_actions_sound(s: State, h: Seq<u8>, i: int)
    requires
        s.wf(),
        hist_total(h, 6) <= 6,
        0 <= i < actions_spec(s, h).len(),
    ensures
        actions_spec(s, h)[i].1.wf(),
        actions_spec(s, h)[i].1.encoding() > s.encoding(),
        actions_spec(s, h)[i].2 + upper_bound_spec(actions_spec(s, h)[i].1) <= upper_bound_spec(
            s,
        ),
{
    assert forall|d: int| 0 <= d < 6 implies h[d] <= 6 by {
        crate::outcome::lemma_hist_entry_le_total(h, 6, d);
    }
    lemma_raw_comb_scores_sound(s, h);
    lemma_side_entries_sound(s, h, 6);
    lemma_filtered_comb_entries_sound(s, raw_comb_scores(s, h), 0);
    let n1 = side_entries(s, h, 6).len() as int;
    if i < n1 {
        assert(actions_spec(s, h)[i] == side_entries(s, h, 6)[i]);
    } else {
        assert(actions_spec(s, h)[i] == filtered_comb_entries(s, raw_comb_scores(s, h), 0)[i
            - n1]);
    }
}

} // verus!
