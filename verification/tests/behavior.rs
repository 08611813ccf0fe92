use yahtzee::constants::{BONUS_LIMIT, CHANCE, R15, R16, R26, S2, S22, S222, S33, S4, YAHTZEE};
use yahtzee::err::{Error, ErrorKind};
use yahtzee::store::{record_count, record_offset};
use yahtzee::{
    Action, Outcome, State, actions, choose_reroll, each_subset, max_outcome_encoding, outcomes,
    parse_outcome, sub_outcomes,
};

fn action_points(state: State, o: Outcome) -> Vec<(Action, u32)> {
    actions(state, o).into_iter().map(|(a, _, p)| (a, p)).collect()
}

#[test]
fn outcome_encode_exact() {
    let o = Outcome { histogram: [1, 2, 3, 0, 0, 0] };
    assert_eq!(o.encode(), 1 + 2 * 7 + 3 * 49);
    assert_eq!(Outcome::decode(1 + 2 * 7 + 3 * 49), o);
    assert_eq!(Outcome::empty().encode(), 0);
    assert_eq!(max_outcome_encoding(), 6 * 16807);
}

#[test]
fn outcome_count_is_complete() {
    // 462 distinct six-dice histograms; 21 with two dice.
    let mut n = 0;
    let mut it = outcomes();
    while let Some(_) = it.next() {
        n += 1;
    }
    assert_eq!(n, 462);
    let mut m = 0;
    let mut it2 = sub_outcomes(2);
    while let Some(_) = it2.next() {
        m += 1;
    }
    assert_eq!(m, 21);
}

#[test]
fn zero_dice_enumeration_is_the_empty_outcome() {
    let mut it = sub_outcomes(0);
    assert_eq!(it.next(), Some(Outcome { histogram: [0, 0, 0, 0, 0, 0] }));
    assert_eq!(it.next(), None);
    assert_eq!(it.next(), None);
}

#[test]
fn multiplicity_exact() {
    assert_eq!(Outcome { histogram: [6, 0, 0, 0, 0, 0] }.multiplicity(), 1);
    assert_eq!(Outcome { histogram: [1, 1, 1, 1, 1, 1] }.multiplicity(), 720);
    assert_eq!(Outcome { histogram: [2, 2, 2, 0, 0, 0] }.multiplicity(), 90);
    assert_eq!(Outcome { histogram: [0, 2, 0, 0, 3, 1] }.multiplicity(), 60);
}

#[test]
fn state_encode_fields() {
    let s = State { combination_mask: 0x0fff, sides_mask: 0x3f, score: 84 };
    assert_eq!(s.encode(), 0x0fff | (0x3f << 12) | (84 << 18));
    assert!(s.done());
    assert!(!State::initial().done());
    assert_eq!(s.turn_count(), 18);
    assert_eq!(State::initial().turn_count(), 0);
}

#[test]
fn state_builders() {
    let s = State::initial().with_side(2).with_comb(S4).with_score(10);
    assert!(s.has_side(2));
    assert!(!s.has_side(3));
    assert!(s.has_comb(S4));
    assert!(!s.has_comb(S2));
    assert_eq!(s.score, 10);
    assert_eq!(s.turn_count(), 2);
}

#[test]
fn all_sides_upper_bound() {
    // Only the twelve combination rows remain: the sum of their maxima.
    assert_eq!(State::all_sides().upper_bound_points(), 404);
}

#[test]
fn display_score_subtracts_pace() {
    assert_eq!(State::initial().display_score(100), 100);
    assert_eq!(State::initial().with_side(0).display_score(100), 96);
    assert_eq!(State::all_sides().display_score(0), -84);
}

#[test]
fn chance_and_one_side_left() {
    // Only the chance row and the face-six row remain: exactly two moves.
    let s = State {
        combination_mask: 0x0fff & !(1 << CHANCE),
        sides_mask: 0x1f,
        score: 0,
    };
    let o = Outcome { histogram: [0, 2, 0, 0, 3, 1] };
    let moves = actions(s, o);
    assert_eq!(moves.len(), 2);
    let (a0, n0, p0) = moves[0];
    let (a1, n1, p1) = moves[1];
    assert_eq!(a0, Action::Side(5));
    assert_eq!(p0, 6);
    assert_eq!(a1, Action::Combination(CHANCE));
    assert_eq!(p1, 25);
    assert_ne!(n0.encode(), n1.encode());
    assert_ne!(n0.encode(), s.encode());
    assert_ne!(n1.encode(), s.encode());
    assert!(n0.encode() > s.encode());
    assert!(n1.encode() > s.encode());
}

#[test]
fn bonus_crossing_pays_once() {
    let s = State { combination_mask: 0x0fff, sides_mask: 0x1f, score: 80 };
    let o = Outcome { histogram: [5, 0, 0, 0, 0, 1] };
    let moves = actions(s, o);
    assert_eq!(moves.len(), 1);
    let (a, n, p) = moves[0];
    assert_eq!(a, Action::Side(5));
    assert_eq!(p, 6 + 50);
    assert_eq!(n.score, BONUS_LIMIT);
    // At the threshold already: the same roll pays no further bonus.
    let s2 = State { combination_mask: 0x0fff, sides_mask: 0x1f, score: 84 };
    let (_, n2, p2) = actions(s2, o)[0];
    assert_eq!(p2, 6);
    assert_eq!(n2.score, 84);
}

#[test]
fn straights_score_fixed_constants() {
    // Only the three straight rows remain.
    let s = State {
        combination_mask: 0x0fff & !((1 << R15) | (1 << R26) | (1 << R16)),
        sides_mask: 0x3f,
        score: 84,
    };
    let full = Outcome { histogram: [1, 1, 1, 1, 1, 1] };
    assert_eq!(
        action_points(s, full),
        vec![
            (Action::Combination(R15), 15),
            (Action::Combination(R26), 20),
            (Action::Combination(R16), 30),
        ]
    );
    let high = Outcome { histogram: [0, 1, 1, 1, 1, 2] };
    assert_eq!(
        action_points(s, high),
        vec![
            (Action::Combination(R15), 0),
            (Action::Combination(R26), 20),
            (Action::Combination(R16), 0),
        ]
    );
    let low = Outcome { histogram: [2, 1, 1, 1, 1, 0] };
    assert_eq!(
        action_points(s, low),
        vec![
            (Action::Combination(R15), 15),
            (Action::Combination(R26), 0),
            (Action::Combination(R16), 0),
        ]
    );
    let none = Outcome { histogram: [2, 2, 1, 1, 0, 0] };
    assert_eq!(
        action_points(s, none),
        vec![
            (Action::Combination(R15), 0),
            (Action::Combination(R26), 0),
            (Action::Combination(R16), 0),
        ]
    );
}

#[test]
fn yahtzee_scores_hundred_plus_dice() {
    let s = State {
        combination_mask: 0x0fff & !(1 << YAHTZEE),
        sides_mask: 0x3f,
        score: 84,
    };
    let six_sixes = Outcome { histogram: [0, 0, 0, 0, 0, 6] };
    assert_eq!(action_points(s, six_sixes), vec![(Action::Combination(YAHTZEE), 136)]);
    let six_ones = Outcome { histogram: [6, 0, 0, 0, 0, 0] };
    assert_eq!(action_points(s, six_ones), vec![(Action::Combination(YAHTZEE), 106)]);
    let near = Outcome { histogram: [1, 0, 0, 0, 0, 5] };
    assert_eq!(action_points(s, near), vec![(Action::Combination(YAHTZEE), 0)]);
}

#[test]
fn pairs_claimed_from_highest_face() {
    let s = State {
        combination_mask: 0x0fff & !((1 << S2) | (1 << S22) | (1 << S222)),
        sides_mask: 0x3f,
        score: 84,
    };
    let three_pairs = Outcome { histogram: [0, 2, 2, 0, 2, 0] };
    assert_eq!(
        action_points(s, three_pairs),
        vec![
            (Action::Combination(S2), 10),
            (Action::Combination(S22), 16),
            (Action::Combination(S222), 20),
        ]
    );
    let one_pair = Outcome { histogram: [1, 1, 1, 1, 2, 0] };
    assert_eq!(
        action_points(s, one_pair),
        vec![
            (Action::Combination(S2), 10),
            (Action::Combination(S22), 0),
            (Action::Combination(S222), 0),
        ]
    );
}

#[test]
fn two_triples_sum_both() {
    let s = State { combination_mask: 0x0fff & !(1 << S33), sides_mask: 0x3f, score: 84 };
    let two_triples = Outcome { histogram: [0, 0, 3, 0, 0, 3] };
    assert_eq!(action_points(s, two_triples), vec![(Action::Combination(S33), 27)]);
    let one_triple = Outcome { histogram: [0, 0, 3, 1, 1, 1] };
    assert_eq!(action_points(s, one_triple), vec![(Action::Combination(S33), 0)]);
}

#[test]
fn admissible_bound_holds_on_transitions() {
    let s = State { combination_mask: 0x00ff, sides_mask: 0x07, score: 20 };
    let ub = s.upper_bound_points();
    let o = Outcome { histogram: [0, 2, 0, 0, 3, 1] };
    for (_, next, points) in actions(s, o) {
        assert!(points + next.upper_bound_points() <= ub);
        assert!(next.encode() > s.encode());
    }
}

#[test]
fn each_subset_lists_all_subsets() {
    let subs = each_subset(Outcome { histogram: [1, 1, 0, 0, 0, 0] });
    assert_eq!(subs.len(), 4);
    for target in [
        [0, 0, 0, 0, 0, 0],
        [1, 0, 0, 0, 0, 0],
        [0, 1, 0, 0, 0, 0],
        [1, 1, 0, 0, 0, 0],
    ] {
        assert!(subs.iter().any(|s| s.histogram == target));
    }
    let all = each_subset(Outcome { histogram: [0, 0, 2, 0, 0, 3] });
    assert_eq!(all.len(), 12);
}

#[test]
fn choose_reroll_picks_best_subset() {
    let mut table = vec![0u64; max_outcome_encoding() + 1];
    let lone_six = Outcome { histogram: [0, 0, 0, 0, 0, 1] };
    table[lone_six.encode() as usize] = 5;
    let mut o = Outcome { histogram: [1, 0, 0, 0, 0, 1] };
    choose_reroll(&mut o, &table);
    assert_eq!(o, lone_six);
    // Choosing again from the choice changes nothing.
    choose_reroll(&mut o, &table);
    assert_eq!(o, lone_six);
}

#[test]
fn choose_reroll_keeps_all_on_tie() {
    let table = vec![7u64; max_outcome_encoding() + 1];
    let start = Outcome { histogram: [2, 0, 0, 1, 0, 3] };
    let mut o = start;
    choose_reroll(&mut o, &table);
    assert_eq!(o, start);
}

#[test]
fn choose_reroll_never_loses_value() {
    let mut table = vec![0u64; max_outcome_encoding() + 1];
    for (i, v) in table.iter_mut().enumerate() {
        *v = (i as u64).wrapping_mul(2654435761) % 1000;
    }
    let start = Outcome { histogram: [1, 1, 1, 0, 0, 3] };
    let keep_all = table[start.encode() as usize];
    let mut o = start;
    choose_reroll(&mut o, &table);
    assert!(table[o.encode() as usize] >= keep_all);
    let first = o;
    choose_reroll(&mut o, &table);
    assert_eq!(o, first);
}

#[test]
fn parse_outcome_reads_digit_rolls() {
    assert_eq!(parse_outcome("113456"), Some(Outcome { histogram: [2, 0, 1, 1, 1, 1] }));
    assert_eq!(parse_outcome("666666"), Some(Outcome { histogram: [0, 0, 0, 0, 0, 6] }));
    assert_eq!(parse_outcome("12345"), None);
    assert_eq!(parse_outcome("1234567"), None);
    assert_eq!(parse_outcome("123457"), None);
    assert_eq!(parse_outcome("12345a"), None);
    assert_eq!(parse_outcome("12345."), None);
    assert_eq!(parse_outcome(""), None);
}

#[test]
fn error_codes_and_messages() {
    assert_eq!(Error::from(ErrorKind::UnicodeDecode).get_error_code(), 1);
    assert_eq!(Error::from(ErrorKind::Range).get_error_code(), 2);
    assert_eq!(Error::from(ErrorKind::Io).get_error_code(), 3);
    assert_eq!(Error::from(ErrorKind::FileNotFound).get_error_code(), 4);
    assert_eq!(Error::from(ErrorKind::GameOver).get_error_code(), 5);
    assert_eq!(Error { kind: ErrorKind::Range }.message(), "State index out of range.");
    assert_eq!(Error { kind: ErrorKind::FileNotFound }.message(), "File not found.");
}

#[test]
fn store_record_addressing() {
    assert_eq!(record_count(80), 10);
    assert_eq!(record_count(0), 0);
    assert!(matches!(record_offset(3, 10), Ok(24)));
    assert!(record_offset(10, 10).is_err());
    assert!(record_offset(0, 0).is_err());
}
