use yahtzee::constants::{BONUS_LIMIT, CHANCE, COMB_COUNT, R16, S23, SIDES};
use yahtzee::{Action, Outcome, State, actions, outcomes};

fn successor_histograms(o: Outcome) -> Vec<[u8; 6]> {
    let mut got: Vec<[u8; 6]> = Vec::new();
    let mut it = o.successors();
    while let Some(s) = it.next() {
        got.push(s.histogram);
    }
    got
}

fn predecessor_histograms(o: Outcome) -> Vec<[u8; 6]> {
    let mut got: Vec<[u8; 6]> = Vec::new();
    let mut it = o.predecessors();
    while let Some(s) = it.next() {
        got.push(s.histogram);
    }
    got
}

#[test]
fn state_roundtrip() {
    let states = (1 + BONUS_LIMIT as usize) << (SIDES + COMB_COUNT);
    assert!(states > 10);
    for i in 0..states {
        let s = State::decode(i as u32);
        let j = s.encode();
        let r = State::decode(j);
        assert_eq!(s, r);
        assert_eq!(i, j as usize);
    }
}

#[test]
fn lib_empty_successors() {
    assert_eq!(
        successor_histograms(Outcome::empty()),
        vec![
            [1, 0, 0, 0, 0, 0],
            [0, 1, 0, 0, 0, 0],
            [0, 0, 1, 0, 0, 0],
            [0, 0, 0, 1, 0, 0],
            [0, 0, 0, 0, 1, 0],
            [0, 0, 0, 0, 0, 1]
        ]
    );
}

#[test]
fn lib_simple_predecessors() {
    let o = Outcome { histogram: [0, 0, 6, 0, 0, 0] };
    assert_eq!(predecessor_histograms(o), vec![[0, 0, 5, 0, 0, 0]]);
}

#[test]
fn lib_outcome_encode_decode() {
    let mut it = outcomes();
    while let Some(o) = it.next() {
        assert_eq!(o, Outcome::decode(o.encode()));
    }
}

#[test]
fn lib_state_encode_decode() {
    for i in 0..2228 {
        let s = State::decode(i * 1000);
        assert_eq!(s, State::decode(s.encode()));
    }
}

#[test]
fn lib_state_initial_encode() {
    assert_eq!(State::initial().encode(), 0);
}

#[test]
fn lib_state_initial_upper_bound() {
    assert_eq!(State::initial().upper_bound_points(), 580);
}

#[test]
fn main_empty_successors() {
    assert_eq!(
        successor_histograms(Outcome::empty()),
        vec![
            [1, 0, 0, 0, 0, 0],
            [0, 1, 0, 0, 0, 0],
            [0, 0, 1, 0, 0, 0],
            [0, 0, 0, 1, 0, 0],
            [0, 0, 0, 0, 1, 0],
            [0, 0, 0, 0, 0, 1]
        ]
    );
}

#[test]
fn main_simple_predecessors() {
    let o = Outcome { histogram: [0, 0, 6, 0, 0, 0] };
    assert_eq!(predecessor_histograms(o), vec![[0, 0, 5, 0, 0, 0]]);
}

#[test]
fn main_outcome_encode_decode() {
    let mut it = outcomes();
    while let Some(o) = it.next() {
        assert_eq!(o, Outcome::decode(o.encode()));
    }
}

#[test]
fn main_state_encode_decode() {
    for i in 0..2228 {
        let s = State::decode(i * 1000);
        assert_eq!(s, State::decode(s.encode()));
    }
}

#[test]
fn main_state_initial_encode() {
    assert_eq!(State::initial().encode(), 0);
}

#[test]
fn main_state_initial_upper_bound() {
    assert_eq!(State::initial().upper_bound_points(), 580);
}

#[test]
fn test_actions() {
    let s = State { combination_mask: 0x08ff, sides_mask: 0x01, score: 0 };
    let o = Outcome { histogram: [0, 2, 0, 0, 3, 1] };
    let mut acts = Vec::new();
    let mut states = Vec::new();
    let mut pts = Vec::new();
    for (action, next_state, points) in actions(s, o) {
        acts.push(action);
        states.push(next_state);
        pts.push(points);
    }
    assert_eq!(
        acts,
        vec![
            Action::Side(2 - 1),
            Action::Side(3 - 1),
            Action::Side(4 - 1),
            Action::Side(5 - 1),
            Action::Side(6 - 1),
            Action::Combination(CHANCE),
            Action::Combination(S23),
            Action::Combination(R16),
        ]
    );
    assert_eq!(
        states,
        vec![
            State { combination_mask: 0x08ff, sides_mask: 0x03, score: 4 },
            State { combination_mask: 0x08ff, sides_mask: 0x05, score: 0 },
            State { combination_mask: 0x08ff, sides_mask: 0x09, score: 0 },
            State { combination_mask: 0x08ff, sides_mask: 0x11, score: 15 },
            State { combination_mask: 0x08ff, sides_mask: 0x21, score: 6 },
            State { combination_mask: 0x0cff, sides_mask: 0x01, score: 0 },
            State { combination_mask: 0x0aff, sides_mask: 0x01, score: 0 },
            State { combination_mask: 0x09ff, sides_mask: 0x01, score: 0 },
        ]
    );
    assert_eq!(pts, vec![4, 0, 0, 15, 6, 25, 19, 0]);
}
