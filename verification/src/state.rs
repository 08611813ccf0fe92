use vstd::prelude::*;

use crate::constants::{
    BONUS, BONUS_COUNT, BONUS_LIMIT, CHANCE, COMB_COUNT, COMB_MASK, Comb, DICE_COUNT, R15, R16,
    R26, S2, S22, S222, S23, S3, S33, S4, SIDES, SIDES_MASK, YAHTZEE,
};

verus! {

/// One game position: which combination rows and upper-section side rows are
/// already used, and the clamped upper-section score on the bonus track.
#[derive(Debug, Clone, Copy, PartialEq, Eq)]
pub struct State {
    pub combination_mask: u16,
    pub sides_mask: u8,
    pub score: u32,
}

impl State {
    /// Validity: masks within their widths, bonus track clamped at `BONUS_LIMIT`.
    pub open spec fn wf(self) -> bool {
        &&& self.combination_mask <= COMB_MASK
        &&& self.sides_mask <= SIDES_MASK
        &&& self.score <= BONUS_LIMIT
    }

    /// Whether side row `side` (die face `side + 1`) is already used.
    pub open spec fn has_side_spec(self, side: int) -> bool {
        self.sides_mask & (1u8 << (side as u8)) != 0
    }

    /// Whether combination row `comb` is already used.
    pub open spec fn has_comb_spec(self, comb: int) -> bool {
        self.combination_mask & (1u16 << (comb as u16)) != 0
    }

    /// The dense encoding: combination bits, then side bits, then the score.
    pub open spec fn encoding(self) -> int {
        self.combination_mask + self.sides_mask * 0x1000 + self.score * 0x40000
    }

    /// Inverse of `encoding` on well-formed inputs.
    pub open spec fn decoding(v: int) -> State {
        State {
            combination_mask: (v % 0x1000) as u16,
            sides_mask: ((v / 0x1000) % 0x40) as u8,
            score: (v / 0x40000) as u32,
        }
    }

    pub fn decode(s: u32) -> (r: Self)
        requires
            s / 0x40000 <= BONUS_LIMIT,
        ensures
            r == State::decoding(s as int),
            r.wf(),
    {
        let combination_mask = (s & 0xFFF) as u16;
        let sides_mask = ((s >> 12) & 0x3F) as u8;
        let score = s >> 18;
        proof {
            assert(s & 0xFFF == s % 0x1000) by (bit_vector);
            assert((s >> 12) & 0x3F == (s / 0x1000) % 0x40) by (bit_vector);
            assert(s >> 18 == s / 0x40000) by (bit_vector);
        }
        State { combination_mask, sides_mask, score }
    }

    pub fn encode(&self) -> (r: u32)
        requires
            self.wf(),
        ensures
            r == self.encoding(),
    {
        let r = (self.combination_mask as u32)
            | ((self.sides_mask as u32) << 12)
            | (self.score << 18);
        proof {
            let c = self.combination_mask;
            let m = self.sides_mask;
            let sc = self.score;
            assert((c as u32) | ((m as u32) << 12) | (sc << 18) == c + m * 0x1000 + sc * 0x40000)
                by (bit_vector)
                requires
                    c <= 0xFFFu16,
                    m <= 0x3Fu8,
                    sc <= 84u32,
            ;
        }
        r
    }

    pub fn initial() -> (r: State)
        ensures
            r.combination_mask == 0,
            r.sides_mask == 0,
            r.score == 0,
            r.wf(),
    {
        State { combination_mask: 0, sides_mask: 0, score: 0 }
    }

    /// A position whose whole upper section is already filled.
    pub fn all_sides() -> (r: State)
        ensures
            r.combination_mask == 0,
            r.sides_mask == SIDES_MASK,
            r.score == 0,
            r.wf(),
    {
        State { combination_mask: 0, sides_mask: SIDES_MASK, score: 0 }
    }

    /// Whether the game is over: every row of both sections is used.
    pub fn done(&self) -> (r: bool)
        ensures
            r <==> (self.combination_mask == COMB_MASK && self.sides_mask == SIDES_MASK),
    {
        self.combination_mask == COMB_MASK && self.sides_mask == SIDES_MASK
    }

    pub fn has_side(&self, side: usize) -> (r: bool)
        requires
            side < SIDES,
        ensures
            r == self.has_side_spec(side as int),
    {
        self.sides_mask & (1u8 << (side as u8)) != 0
    }

    pub fn with_side(&self, side: usize) -> (r: State)
        requires
            side < SIDES,
        ensures
            r.combination_mask == self.combination_mask,
            r.sides_mask == self.sides_mask | (1u8 << (side as u8)),
            r.score == self.score,
    {
        State {
            combination_mask: self.combination_mask,
            sides_mask: self.sides_mask | (1u8 << (side as u8)),
            score: self.score,
        }
    }

    pub fn has_comb(&self, comb: Comb) -> (r: bool)
        requires
            comb < COMB_COUNT,
        ensures
            r == self.has_comb_spec(comb as int),
    {
        self.combination_mask & (1u16 << (comb as u16)) != 0
    }

    pub fn with_comb(&self, comb: Comb) -> (r: State)
        requires
            comb < COMB_COUNT,
        ensures
            r.combination_mask == self.combination_mask | (1u16 << (comb as u16)),
            r.sides_mask == self.sides_mask,
            r.score == self.score,
    {
        State {
            combination_mask: self.combination_mask | (1u16 << (comb as u16)),
            sides_mask: self.sides_mask,
            score: self.score,
        }
    }

    pub fn with_score(&self, score: u32) -> (r: State)
        requires
            score <= BONUS_LIMIT,
        ensures
            r.combination_mask == self.combination_mask,
            r.sides_mask == self.sides_mask,
            r.score == score,
    {
        State {
            combination_mask: self.combination_mask,
            sides_mask: self.sides_mask,
            score,
        }
    }
}

/// Number of set bits among the low `n` bits of `m`.
pub open spec fn count_bits(m: u32, n: int) -> int
    decreases n,
{
    if n <= 0 {
        0
    } else {
        count_bits(m, n - 1) + ((m >> ((n - 1) as u32)) & 1)
    }
}

/// Most points one upper-section side row can still award: all six dice
/// showing face `d + 1`.
pub open spec fn side_max(d: int) -> int {
    6 * (d + 1)
}

/// Sum of `side_max` over the unused side rows below `n`.
pub open spec fn sides_total(s: State, n: int) -> int
    decreases n,
{
    if n <= 0 {
        0
    } else {
        sides_total(s, n - 1) + if s.has_side_spec(n - 1) {
            0
        } else {
            side_max(n - 1)
        }
    }
}

/// Most points combination row `c` can award.
pub open spec fn comb_max(c: int) -> int {
    if c == S2 {
        12
    } else if c == S22 {
        22
    } else if c == S222 {
        30
    } else if c == S3 {
        18
    } else if c == S4 {
        24
    } else if c == S33 {
        33
    } else if c == R15 {
        15
    } else if c == R26 {
        20
    } else if c == R16 {
        30
    } else if c == S23 {
        28
    } else if c == CHANCE {
        36
    } else if c == YAHTZEE {
        136
    } else {
        0
    }
}

/// Sum of `comb_max` over the unused combination rows below `n`.
pub open spec fn combs_total(s: State, n: int) -> int
    decreases n,
{
    if n <= 0 {
        0
    } else {
        combs_total(s, n - 1) + if s.has_comb_spec(n - 1) {
            0
        } else {
            comb_max(n - 1)
        }
    }
}

/// The one-time bonus still available to a position whose bonus track reads
/// `score` and whose unused side rows can still add up to `total` points.
pub open spec fn bonus_avail(score: int, total: int) -> int {
    if score < BONUS_LIMIT && score + total >= BONUS_LIMIT {
        50
    } else {
        0
    }
}

/// The running bonus track while side rows below `n` award their maximum one
/// by one: it snaps to `BONUS_LIMIT` exactly when it crosses the threshold,
/// and keeps accumulating afterwards.
pub open spec fn running_score(orig: int, s: State, n: int) -> int
    decreases n,
{
    if n <= 0 {
        orig
    } else {
        let prev = running_score(orig, s, n - 1);
        if s.has_side_spec(n - 1) {
            prev
        } else if prev < BONUS_LIMIT && prev + side_max(n - 1) >= BONUS_LIMIT {
            BONUS_LIMIT as int
        } else {
            prev + side_max(n - 1)
        }
    }
}

/// The running score never exceeds the plain sum, reaches the threshold
/// exactly when the plain sum does, and equals the plain sum until it has
/// crossed the threshold.
pub proof fn lemma_running_score(orig: int, s: State, n: int)
    requires
        0 <= orig,
        0 <= n <= 6,
    ensures
        running_score(orig, s, n) <= orig + sides_total(s, n),
        running_score(orig, s, n) >= BONUS_LIMIT <==> orig + sides_total(s, n) >= BONUS_LIMIT,
        running_score(orig, s, n) >= BONUS_LIMIT || running_score(orig, s, n) == orig
            + sides_total(s, n),
    decreases n,
{
    if n > 0 {
        lemma_running_score(orig, s, n - 1);
    }
}

/// Admissible bound on the points still obtainable from `s`: the maxima of
/// all unused rows, plus the bonus where the unused side rows can still
/// reach it.
pub open spec fn upper_bound_spec(s: State) -> int {
    sides_total(s, SIDES as int) + bonus_avail(s.score as int, sides_total(s, SIDES as int))
        + combs_total(s, COMB_COUNT as int)
}

/// `sides_total` stays between 0 and the sum of all six side maxima.
pub proof fn lemma_sides_total_bounds(s: State, n: int)
    requires
        0 <= n <= 6,
    ensures
        0 <= sides_total(s, n) <= 3 * n * (n + 1),
        sides_total(s, n) <= 126,
    decreases n,
{
    if n > 0 {
        lemma_sides_total_bounds(s, n - 1);
        assert(3 * (n - 1) * n + 6 * n == 3 * n * (n + 1)) by (nonlinear_arith);
    }
    assert(3 * n * (n + 1) <= 126) by (nonlinear_arith)
        requires
            0 <= n <= 6,
    ;
}

/// `combs_total` stays between 0 and the sum of all twelve row maxima.
pub proof fn lemma_combs_total_bounds(s: State, n: int)
    requires
        0 <= n <= 12,
    ensures
        0 <= combs_total(s, n) <= 136 * n,
    decreases n,
{
    if n > 0 {
        lemma_combs_total_bounds(s, n - 1);
    }
}

impl State {
    /// Number of turns already played: one per used row of either section.
    pub fn turn_count(&self) -> (r: u32)
        ensures
            r == count_bits(self.combination_mask as u32, 16) + count_bits(
                self.sides_mask as u32,
                8,
            ),
    {
        let cm = self.combination_mask as u32;
        let sm = self.sides_mask as u32;
        let mut r: u32 = 0;
        let mut i: usize = 0;
        while i < 16
            invariant
                i <= 16,
                r == count_bits(cm, i as int),
                r <= i,

            decreases 16 - i,
        {
            proof {
                assert((cm >> (i as u32)) & 1 <= 1) by (bit_vector);
            }
            r = r + ((cm >> (i as u32)) & 1);
            i = i + 1;
        }
        let mut j: usize = 0;
        while j < 8
            invariant
                j <= 8,
                r == count_bits(cm, 16) + count_bits(sm, j as int),
                r <= 16 + j,

            decreases 8 - j,
        {
            proof {
                assert((sm >> (j as u32)) & 1 <= 1) by (bit_vector);
            }
            r = r + ((sm >> (j as u32)) & 1);
            j = j + 1;
        }
        r
    }

    /// Sum of the maxima of the unused combination rows.
    #[verifier::rlimit(100)]
    fn unused_comb_points(&self) -> (r: u32)
        ensures
            r == combs_total(*self, COMB_COUNT as int),
            r <= 404,
    {
        let mut ub: u32 = 0;
        assert(ub == combs_total(*self, 0));
        if !self.has_comb(S2) {
            ub += 2 * (SIDES as u32);
        }
        assert(ub == combs_total(*self, 1));
        if !self.has_comb(S22) {
            ub += 4 * (SIDES as u32) - 2;
        }
        assert(ub == combs_total(*self, 2));
        if !self.has_comb(S222) {
            ub += 6 * (SIDES as u32) - 6;
        }
        assert(ub == combs_total(*self, 3));
        if !self.has_comb(S3) {
            ub += 3 * (SIDES as u32);
        }
        assert(ub == combs_total(*self, 4));
        if !self.has_comb(S4) {
            ub += 4 * (SIDES as u32);
        }
        assert(ub == combs_total(*self, 5));
        if !self.has_comb(S33) {
            ub += 6 * (SIDES as u32) - 3;
        }
        assert(ub == combs_total(*self, 6));
        if !self.has_comb(R15) {
            ub += 1 + 2 + 3 + 4 + 5;
        }
        assert(ub == combs_total(*self, 7));
        if !self.has_comb(R26) {
            ub += 2 + 3 + 4 + 5 + 6;
        }
        assert(ub == combs_total(*self, 8));
        if !self.has_comb(R16) {
            ub += 30;
        }
        assert(ub == combs_total(*self, 9));
        if !self.has_comb(S23) {
            ub += 5 * (SIDES as u32) - 2;
        }
        assert(ub == combs_total(*self, 10));
        if !self.has_comb(CHANCE) {
            ub += (DICE_COUNT as u32) * (SIDES as u32);
        }
        assert(ub == combs_total(*self, 11));
        if !self.has_comb(YAHTZEE) {
            ub += 100 + (DICE_COUNT as u32) * (SIDES as u32);
        }
        assert(ub == combs_total(*self, 12));
        ub
    }

    /// Admissible bound on the points still obtainable from this position.
    #[verifier::rlimit(100)]
    pub fn upper_bound_points(&self) -> (r: u32)
        requires
            self.wf(),
        ensures
            r == upper_bound_spec(*self),
    {
        let mut ub: u32 = 0;
        let mut score: u32 = self.score;
        let mut d: usize = 0;
        while d < SIDES
            invariant
                d <= 6,
                self.wf(),
                ub == sides_total(*self, d as int) + bonus_avail(
                    self.score as int,
                    sides_total(*self, d as int),
                ),
                score == running_score(self.score as int, *self, d as int),

            decreases 6 - d,
        {
            proof {
                lemma_sides_total_bounds(*self, d as int);
                lemma_sides_total_bounds(*self, d + 1);
                lemma_running_score(self.score as int, *self, d as int);
                lemma_running_score(self.score as int, *self, d + 1);
            }
            if !self.has_side(d) {
                assert(DICE_COUNT as u32 == 6u32);
                let s = (d as u32 + 1) * (DICE_COUNT as u32);
                assert(s == side_max(d as int));
                if score < BONUS_LIMIT && score + s >= BONUS_LIMIT {
                    score = BONUS_LIMIT;
                    ub += BONUS;
                } else {
                    score += s;
                }
                ub += s;
            }
            d += 1;
        }
        proof {
            lemma_sides_total_bounds(*self, 6);
        }
        ub + self.unused_comb_points()
    }

    /// `points` with the automatic upper-section pace (`BONUS_COUNT` dice of
    /// each used face) subtracted, as shown to the player.
    pub fn display_score(&self, points: u32) -> (r: i32)
        requires
            points <= i32::MAX,
        ensures
            r == points - used_sides_pace(*self, SIDES as int),
    {
        let mut p: i32 = points as i32;
        let mut d: usize = 0;
        while d < SIDES
            invariant
                d <= 6,
                points <= i32::MAX,
                p == points - used_sides_pace(*self, d as int),

            decreases 6 - d,
        {
            proof {
                lemma_used_sides_pace_bounds(*self, d as int);
                lemma_used_sides_pace_bounds(*self, d + 1);
            }
            if self.has_side(d) {
                p -= (BONUS_COUNT as i32) * (1 + d as i32);
            }
            d += 1;
        }
        p
    }
}

/// Sum of `BONUS_COUNT * (d + 1)` over the used side rows below `n`: the pace
/// a player must hold on face `d + 1` to stay on track for the bonus.
pub open spec fn used_sides_pace(s: State, n: int) -> int
    decreases n,
{
    if n <= 0 {
        0
    } else {
        used_sides_pace(s, n - 1) + if s.has_side_spec(n - 1) {
            4 * n
        } else {
            0
        }
    }
}

pub proof fn lemma_used_sides_pace_bounds(s: State, n: int)
    requires
        0 <= n <= 6,
    ensures
        0 <= used_sides_pace(s, n) <= 2 * n * (n + 1),
        used_sides_pace(s, n) <= 84,
    decreases n,
{
    if n > 0 {
        lemma_used_sides_pace_bounds(s, n - 1);
        assert(2 * (n - 1) * n + 4 * n == 2 * n * (n + 1)) by (nonlinear_arith);
    }
    assert(2 * n * (n + 1) <= 84) by (nonlinear_arith)
        requires
            0 <= n <= 6,
    ;
}

/// The fresh position can still score 580 points: every row's maximum plus
/// the full upper-section bonus.
pub proof fn lemma_initial_upper_bound()
    ensures
        upper_bound_spec(State { combination_mask: 0, sides_mask: 0, score: 0 }) == 580,
{
    let s = State { combination_mask: 0, sides_mask: 0, score: 0 };
    assert(forall|e: u8| #![trigger (1u8 << e)] 0u8 & (1u8 << e) == 0) by (bit_vector);
    assert(forall|e: u16| #![trigger (1u16 << e)] 0u16 & (1u16 << e) == 0) by (bit_vector);
    reveal_with_fuel(sides_total, 7);
    reveal_with_fuel(combs_total, 13);
    assert(sides_total(s, 6) == 126);
    assert(combs_total(s, 12) == 404);
}

/// Setting one bit raises the mask, sets exactly that bit, and keeps a
/// six-bit mask within six bits.
pub proof fn lemma_u8_set_bit(m: u8, d: u8)
    by (bit_vector)
    requires
        d < 8,
    ensures
        (m | (1u8 << d)) & (1u8 << d) != 0,
        m & (1u8 << d) == 0 ==> (m | (1u8 << d)) > m,
        forall|e: u8|
            #![trigger (m | (1u8 << d)) & (1u8 << e)]
            e < 8 && e != d ==> ((m | (1u8 << d)) & (1u8 << e)) == (m & (1u8 << e)),
        m <= 0x3F && d < 6 ==> (m | (1u8 << d)) <= 0x3F,
{
}

/// Setting one bit raises the mask, sets exactly that bit, and keeps a
/// twelve-bit mask within twelve bits.
pub proof fn lemma_u16_set_bit(m: u16, d: u16)
    by (bit_vector)
    requires
        d < 16,
    ensures
        (m | (1u16 << d)) & (1u16 << d) != 0,
        m & (1u16 << d) == 0 ==> (m | (1u16 << d)) > m,
        forall|e: u16|
            #![trigger (m | (1u16 << d)) & (1u16 << e)]
            e < 16 && e != d ==> ((m | (1u16 << d)) & (1u16 << e)) == (m & (1u16 << e)),
        m <= 0x0FFF && d < 12 ==> (m | (1u16 << d)) <= 0x0FFF,
{
}

/// Two positions with the same side rows have the same remaining side total.
pub proof fn lemma_sides_total_same(s: State, t: State, n: int)
    requires
        t.sides_mask == s.sides_mask,
    ensures
        sides_total(t, n) == sides_total(s, n),
    decreases n,
{
    if n > 0 {
        lemma_sides_total_same(s, t, n - 1);
    }
}

/// Two positions with the same combination rows have the same remaining
/// combination total.
pub proof fn lemma_combs_total_same(s: State, t: State, n: int)
    requires
        t.combination_mask == s.combination_mask,
    ensures
        combs_total(t, n) == combs_total(s, n),
    decreases n,
{
    if n > 0 {
        lemma_combs_total_same(s, t, n - 1);
    }
}

/// Using side row `d` removes exactly that row's maximum from the remaining
/// side total.
pub proof fn lemma_sides_total_set_bit(s: State, t: State, d: int, n: int)
    requires
        0 <= d < 6,
        0 <= n <= 6,
        !s.has_side_spec(d),
        t.sides_mask == s.sides_mask | (1u8 << (d as u8)),
    ensures
        sides_total(t, n) == sides_total(s, n) - (if d < n {
            side_max(d)
        } else {
            0
        }),
    decreases n,
{
    lemma_u8_set_bit(s.sides_mask, d as u8);
    if n > 0 {
        lemma_sides_total_set_bit(s, t, d, n - 1);
        if n - 1 == d {
            assert(t.has_side_spec(d));
        } else {
            assert((s.sides_mask | (1u8 << (d as u8))) & (1u8 << ((n - 1) as u8)) == s.sides_mask
                & (1u8 << ((n - 1) as u8)));
        }
    }
}

/// Using combination row `c` removes exactly that row's maximum from the
/// remaining combination total.
pub proof fn lemma_combs_total_set_bit(s: State, t: State, c: int, n: int)
    requires
        0 <= c < 12,
        0 <= n <= 12,
        !s.has_comb_spec(c),
        t.combination_mask == s.combination_mask | (1u16 << (c as u16)),
    ensures
        combs_total(t, n) == combs_total(s, n) - (if c < n {
            comb_max(c)
        } else {
            0
        }),
    decreases n,
{
    lemma_u16_set_bit(s.combination_mask, c as u16);
    if n > 0 {
        lemma_combs_total_set_bit(s, t, c, n - 1);
        if n - 1 == c {
            assert(t.has_comb_spec(c));
        } else {
            assert((s.combination_mask | (1u16 << (c as u16))) & (1u16 << ((n - 1) as u16))
                == s.combination_mask & (1u16 << ((n - 1) as u16)));
        }
    }
}

/// Decoding inverts encoding: every well-formed position survives a round trip.
pub proof fn lemma_state_decode_of_encode(s: State)
    requires
        s.wf(),
    ensures
        State::decoding(s.encoding()) == s,
{
    let v = s.encoding();
    vstd::arithmetic::div_mod::lemma_fundamental_div_mod_converse(
        v,
        0x1000,
        s.sides_mask + s.score * 0x40,
        s.combination_mask as int,
    );
    vstd::arithmetic::div_mod::lemma_fundamental_div_mod_converse(
        s.sides_mask + s.score * 0x40,
        0x40,
        s.score as int,
        s.sides_mask as int,
    );
    vstd::arithmetic::div_mod::lemma_fundamental_div_mod_converse(
        v,
        0x40000,
        s.score as int,
        s.combination_mask + s.sides_mask * 0x1000,
    );
}

/// Encoding inverts decoding: every integer with an in-range score field is
/// the encoding of the position it decodes to.
pub proof fn lemma_state_encode_of_decode(v: int)
    requires
        0 <= v,
        v / 0x40000 <= BONUS_LIMIT,
    ensures
        State::decoding(v).encoding() == v,
        State::decoding(v).wf(),
{
    vstd::arithmetic::div_mod::lemma_fundamental_div_mod(v, 0x1000);
    vstd::arithmetic::div_mod::lemma_fundamental_div_mod(v / 0x1000, 0x40);
    vstd::arithmetic::div_mod::lemma_div_denominator(v, 0x1000, 0x40);
    vstd::arithmetic::div_mod::lemma_mod_division_less_than_divisor(v, 0x1000);
    vstd::arithmetic::div_mod::lemma_mod_division_less_than_divisor(v / 0x1000, 0x40);
}

} // verus!
