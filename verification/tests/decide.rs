use evonomics::brain::{merge_hues, Brain};
use evonomics::codon::{Codon, Decision};
use evonomics::direction::Direction;
use evonomics::dna::Dna;
use evonomics::rng::SimRng;
use evonomics::sim::rotate_window;

fn brain_with(sequence: Vec<Codon>, entries: Vec<usize>, rotation: u32) -> Brain {
    Brain {
        color: 0,
        rotation,
        generation: 0,
        memory: vec![0, 0, 0, 0],
        code: Dna { sequence, entries },
    }
}

#[test]
fn write_actions_fill_registers() {
    let mut b = brain_with(vec![Codon::Literal(4), Codon::Write(2)], vec![0], 0);
    let d = b.decide_ordered(&vec![], &vec![0]);
    assert_eq!(d, Decision::Nothing);
    assert_eq!(b.memory, vec![0, 0, 4, 0]);
    assert_eq!(b.signal(), 0);
}

#[test]
fn signal_is_register_zero() {
    let mut b = brain_with(vec![Codon::Literal(9), Codon::Write(0)], vec![0], 0);
    b.decide_ordered(&vec![], &vec![0]);
    assert_eq!(b.signal(), 9);
}

#[test]
fn decision_rotated_by_orientation() {
    // one quarter turn counter-clockwise carries Right to Up
    let mut b = brain_with(vec![Codon::Move(Direction::Right)], vec![0], 1);
    let d = b.decide_ordered(&vec![], &vec![0]);
    assert_eq!(d, Decision::Move(Direction::Up));
}

#[test]
fn rotate_actions_turn_the_brain() {
    let mut b = brain_with(
        vec![Codon::RotateLeft, Codon::Move(Direction::Right)],
        vec![0, 1],
        0,
    );
    // run the rotation gene first, then the move gene
    let d = b.decide_ordered(&vec![], &vec![0, 1]);
    assert_eq!(b.rotation(), 1);
    assert_eq!(d, Decision::Move(Direction::Up));
}

#[test]
fn last_action_wins_across_genes() {
    let mut b = brain_with(
        vec![Codon::Move(Direction::Right), Codon::Divide(Direction::Down)],
        vec![0, 1],
        0,
    );
    let d = b.decide_ordered(&vec![], &vec![0, 1]);
    assert_eq!(d, Decision::Divide(Direction::Down));
}

#[test]
fn rotation_invariance_on_a_concrete_window() {
    // a brain that reports its first perceived input and then moves
    let code = vec![Codon::Input(0), Codon::Write(0), Codon::Move(Direction::Right)];
    let entries = vec![0, 2];
    let order = vec![0usize, 2usize];
    let mut w: Vec<i64> = Vec::new();
    for i in 0..42i64 {
        w.push(100 + i);
    }
    // baseline: orientation 0 sees the window as it is
    let mut a = brain_with(code.clone(), entries.clone(), 0);
    let pa = rotate_window(&w, 0);
    let da = a.decide_ordered(&pa, &order);
    // turned brain: orientation 1, world turned back by one quarter
    let w_back = rotate_window(&w, 3);
    let mut b = brain_with(code, entries, 1);
    let pb = rotate_window(&w_back, 1);
    let db = b.decide_ordered(&pb, &order);
    // both perceive the same values and decide alike, up to the turn
    assert_eq!(a.memory[0], b.memory[0]);
    assert_eq!(da, Decision::Move(Direction::Right));
    assert_eq!(db, Decision::Move(Direction::Up));
}

#[test]
fn brain_mutation_keeps_identity_fields() {
    let mut rng = SimRng::from_seed(5);
    let mut b = brain_with(vec![Codon::Add, Codon::Sub], vec![1], 2);
    b.color = 1234;
    b.generation = 6;
    for _ in 0..50 {
        let seq_before = b.code.sequence.len() as i64;
        b.mutate(&mut rng);
        assert!((b.code.sequence.len() as i64 - seq_before).abs() <= 1);
        assert_eq!(b.color, 1234);
        assert_eq!(b.generation, 6);
        assert_eq!(b.rotation, 2);
        assert_eq!(b.memory, vec![0, 0, 0, 0]);
    }
}

#[test]
fn hue_merge_takes_the_shorter_arc() {
    let mut rng = SimRng::from_seed(1);
    assert_eq!(merge_hues(&mut rng, &vec![100, 200]), 150);
    // across the wrap: 3500 and 100 meet at 0
    assert_eq!(merge_hues(&mut rng, &vec![3500, 100]), 0);
    // a single hue merges to itself
    assert_eq!(merge_hues(&mut rng, &vec![777]), 777);
}

#[test]
fn opposed_hues_fall_back_to_a_fresh_hue() {
    let mut rng = SimRng::from_seed(2);
    let h = merge_hues(&mut rng, &vec![0, 1800]);
    assert!(h < 3600);
}
