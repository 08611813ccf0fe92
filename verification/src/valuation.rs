use vstd::prelude::*;

use crate::constants::SIDES;
use crate::outcome::{
    Outcome, lemma_encode_monotone, lemma_encoded_le_total, lemma_hist_total_monotone,
    sub_histogram,
};

verus! {

/// `v` agrees with `o` on the faces below `i` and keeps at most `o`'s dice
/// on the faces from `i` up.
pub open spec fn prefix_subset(v: Outcome, o: Outcome, i: int) -> bool {
    &&& forall|d: int| 0 <= d < i ==> v.histogram@[d] == o.histogram@[d]
    &&& forall|d: int| i <= d < 6 ==> v.histogram@[d] <= o.histogram@[d]
}

/// Appends every outcome that agrees with `outcome` below face `i` and is a
/// subset of it from face `i` up, each exactly once: the appended segment
/// holds no outcome twice.
fn each_subset_help(outcome: Outcome, res: &mut Vec<Outcome>, i: usize)
    requires
        i <= 6,
        forall|d: int| 0 <= d < 6 ==> outcome.histogram@[d] <= 6,
    ensures
        old(res)@.len() <= final(res)@.len(),
        forall|k: int| 0 <= k < old(res)@.len() ==> final(res)@[k] == old(res)@[k],
        forall|k: int|
            old(res)@.len() <= k < final(res)@.len() ==> prefix_subset(
                #[trigger] final(res)@[k],
                outcome,
                i as int,
            ),
        forall|v: Outcome| prefix_subset(v, outcome, i as int) ==> final(res)@.contains(v),
        forall|k1: int, k2: int|
            old(res)@.len() <= k1 < k2 < final(res)@.len() ==> final(res)@[k1] != final(res)@[k2],
    decreases 6 - i,
{
    let mut j: usize = i;
    while j < SIDES && outcome.histogram[j] == 0
        invariant
            i <= j <= 6,
            forall|v: Outcome|
                prefix_subset(v, outcome, j as int) == prefix_subset(v, outcome, i as int),

        decreases 6 - j,
    {
        assert forall|v: Outcome|
            prefix_subset(v, outcome, j + 1) == prefix_subset(v, outcome, i as int) by {
            assert(prefix_subset(v, outcome, j + 1) == prefix_subset(v, outcome, j as int));
        }
        j += 1;
    }
    if j == SIDES {
        res.push(outcome);
        assert forall|v: Outcome| prefix_subset(v, outcome, i as int) implies res@.contains(
            v,
        ) by {
            assert(v.histogram@ =~= outcome.histogram@);
            assert(v.histogram =~= outcome.histogram);
            assert(res@[res@.len() - 1] == v);
        }
        return ;
    }
    let cap = outcome.histogram[j];
    let mut val: u8 = 0;
    while val <= cap
        invariant
            i <= j < 6,
            forall|d: int| 0 <= d < 6 ==> outcome.histogram@[d] <= 6,
            cap == outcome.histogram@[j as int],
            val <= cap + 1,
            forall|v: Outcome|
                prefix_subset(v, outcome, j as int) == prefix_subset(v, outcome, i as int),
            old(res)@.len() <= res@.len(),
            forall|k: int| 0 <= k < old(res)@.len() ==> res@[k] == old(res)@[k],
            forall|k: int|
                old(res)@.len() <= k < res@.len() ==> prefix_subset(
                    #[trigger] res@[k],
                    outcome,
                    i as int,
                ),
            forall|v: Outcome|
                prefix_subset(v, outcome, i as int) && v.histogram@[j as int] < val
                    ==> res@.contains(v),
            forall|k: int|
                old(res)@.len() <= k < res@.len() ==> (#[trigger] res@[k]).histogram@[j as int]
                    < val,
            forall|k1: int, k2: int|
                old(res)@.len() <= k1 < k2 < res@.len() ==> res@[k1] != res@[k2],

        decreases cap + 1 - val,
    {
        let mut oc = outcome;
        oc.histogram[j] = val;
        let ghost res_before = res@;
        each_subset_help(oc, res, j + 1);
        assert forall|k: int|
            old(res)@.len() <= k < res@.len() implies prefix_subset(
            #[trigger] res@[k],
            outcome,
            i as int,
        ) by {
            if k < res_before.len() {
                assert(res@[k] == res_before[k]);
            } else {
                assert(prefix_subset(res@[k], oc, j + 1));
            }
        }
        assert forall|v: Outcome|
            prefix_subset(v, outcome, i as int) && v.histogram@[j as int] < val + 1 implies res@
            .contains(v) by {
            if v.histogram@[j as int] < val {
                let k0 = choose|k0: int| 0 <= k0 < res_before.len() && res_before[k0] == v;
                assert(res@[k0] == v);
            } else {
                assert(v.histogram@[j as int] == val);
                assert(prefix_subset(v, oc, j + 1));
            }
        }
        assert forall|k: int|
            old(res)@.len() <= k < res@.len() implies (#[trigger] res@[k]).histogram@[j as int]
            < val + 1 by {
            if k < res_before.len() {
                assert(res@[k] == res_before[k]);
            } else {
                assert(prefix_subset(res@[k], oc, j + 1));
                assert(res@[k].histogram@[j as int] == val);
            }
        }
        assert forall|k1: int, k2: int|
            old(res)@.len() <= k1 < k2 < res@.len() implies res@[k1] != res@[k2] by {
            if k2 < res_before.len() {
                assert(res@[k1] == res_before[k1] && res@[k2] == res_before[k2]);
            } else if k1 < res_before.len() {
                assert(res@[k1] == res_before[k1]);
                assert(res@[k1].histogram@[j as int] < val);
                assert(prefix_subset(res@[k2], oc, j + 1));
                assert(res@[k2].histogram@[j as int] == val);
            }
        }
        val += 1;
    }
}

/// Every outcome obtainable by keeping a subset of `outcome`'s dice, each
/// exactly once, the outcome itself included.
pub fn each_subset(outcome: Outcome) -> (r: Vec<Outcome>)
    requires
        forall|d: int| 0 <= d < 6 ==> outcome.histogram@[d] <= 6,
    ensures
        forall|k: int|
            0 <= k < r@.len() ==> sub_histogram((#[trigger] r@[k]).histogram@, outcome.histogram@),
        forall|v: Outcome| sub_histogram(v.histogram@, outcome.histogram@) ==> r@.contains(v),
        forall|k1: int, k2: int| 0 <= k1 < k2 < r@.len() ==> r@[k1] != r@[k2],
{
    let mut res: Vec<Outcome> = Vec::new();
    each_subset_help(outcome, &mut res, 0);
    proof {
        assert forall|v: Outcome|
            sub_histogram(v.histogram@, outcome.histogram@) implies res@.contains(v) by {
            assert(prefix_subset(v, outcome, 0));
        }
    }
    res
}

/// What `choose_reroll` promises of its result `r`: it keeps a subset of
/// `o`'s dice whose table value no subset of `o` beats, and keeps `o` itself
/// on an exact tie.
pub open spec fn chosen_reroll(table: Seq<u64>, o: Outcome, r: Outcome) -> bool {
    &&& sub_histogram(r.histogram@, o.histogram@)
    &&& forall|v: Outcome|
        sub_histogram(v.histogram@, o.histogram@) ==> table[v.encoded()] <= table[r.encoded()]
    &&& (table[r.encoded()] == table[o.encoded()] ==> r == o)
}

/// Replaces `outcome` by the subset of its dice whose reroll value is
/// largest, keeping `outcome` itself unless a proper subset is strictly
/// better. Values are compared as unsigned keys whose order is the order of
/// the expected scores they stand for. The table need only reach the
/// outcome's own encoding: a kept subset never encodes higher.
pub fn choose_reroll(outcome: &mut Outcome, reroll_value: &Vec<u64>)
    requires
        old(outcome).valid(),
        old(outcome).encoded() < reroll_value@.len(),
    ensures
        final(outcome).valid(),
        chosen_reroll(reroll_value@, *old(outcome), *final(outcome)),
{
    proof {
        lemma_encoded_le_total(outcome.histogram@, 6);
        assert forall|d: int| 0 <= d < 6 implies outcome.histogram@[d] <= 6 by {
            crate::outcome::lemma_hist_entry_le_total(outcome.histogram@, 6, d);
        }
    }
    let subs = each_subset(*outcome);
    let ghost orig = *outcome;
    let mut best: u64 = reroll_value[outcome.encode() as usize];
    let mut k: usize = 0;
    while k < subs.len()
        invariant
            k <= subs@.len(),
            orig.valid(),
            orig.encoded() < reroll_value@.len(),
            forall|k2: int|
                0 <= k2 < subs@.len() ==> sub_histogram(
                    (#[trigger] subs@[k2]).histogram@,
                    orig.histogram@,
                ),
            forall|v: Outcome| sub_histogram(v.histogram@, orig.histogram@) ==> subs@.contains(v),
            sub_histogram(outcome.histogram@, orig.histogram@),
            best == reroll_value@[outcome.encoded()],
            best >= reroll_value@[orig.encoded()],
            best == reroll_value@[orig.encoded()] ==> *outcome == orig,
            forall|k2: int|
                0 <= k2 < k ==> reroll_value@[(#[trigger] subs@[k2]).encoded()] <= best,

        decreases subs@.len() - k,
    {
        proof {
            lemma_sub_encoding_le(subs@[k as int], orig);
        }
        let s = subs[k];
        let value = reroll_value[s.encode() as usize];
        if value > best {
            best = value;
            *outcome = s;
        }
        k += 1;
    }
    proof {
        lemma_sub_encoding_le(*outcome, orig);
        assert forall|v: Outcome|
            sub_histogram(v.histogram@, orig.histogram@) implies reroll_value@[v.encoded()]
            <= reroll_value@[outcome.encoded()] by {
            assert(subs@.contains(v));
            let k0 = choose|k0: int| 0 <= k0 < subs@.len() && subs@[k0] == v;
            assert(reroll_value@[subs@[k0].encoded()] <= best);
        }
    }
}

/// A subset of a valid outcome is valid and encodes no higher, so a table
/// entry for the outcome covers every subset's entry.
pub proof fn lemma_sub_encoding_le(v: Outcome, o: Outcome)
    requires
        o.valid(),
        sub_histogram(v.histogram@, o.histogram@),
    ensures
        v.valid(),
        0 <= v.encoded() <= o.encoded(),
{
    lemma_hist_total_monotone(v.histogram@, o.histogram@, 6);
    lemma_encode_monotone(v.histogram@, o.histogram@, 6);
    lemma_encoded_le_total(v.histogram@, 6);
}

/// Keeping the chosen subset is never worth less than keeping all dice.
pub proof fn lemma_choose_reroll_no_loss(table: Seq<u64>, o: Outcome, r: Outcome)
    requires
        chosen_reroll(table, o, r),
    ensures
        table[r.encoded()] >= table[o.encoded()],
{
    assert(sub_histogram(o.histogram@, o.histogram@));
}

/// Choosing a reroll is idempotent: choosing again from the chosen subset
/// gives the same subset back.
pub proof fn lemma_choose_reroll_idempotent(table: Seq<u64>, o: Outcome, r: Outcome, r2: Outcome)
    requires
        chosen_reroll(table, o, r),
        chosen_reroll(table, r, r2),
    ensures
        r2 == r,
{
    assert(sub_histogram(r2.histogram@, o.histogram@));
    assert(sub_histogram(r.histogram@, r.histogram@));
    assert(table[r2.encoded()] == table[r.encoded()]);
}

} // verus!
