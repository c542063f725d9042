use evonomics::brain::{combine, Brain};
use evonomics::codon::Codon;
use evonomics::dna::{crossover, random_dna, split_points, Dna};
use evonomics::rng::SimRng;

fn entries_sorted_unique_in_range(d: &Dna) {
    for k in 0..d.entries.len() {
        assert!(d.entries[k] < d.sequence.len());
        if k + 1 < d.entries.len() {
            assert!(d.entries[k] < d.entries[k + 1]);
        }
    }
}

#[test]
fn mutate_changes_sequence_and_entries_by_at_most_one() {
    let mut rng = SimRng::from_seed(7);
    let mut d = Dna {
        sequence: vec![Codon::Add, Codon::Sub, Codon::Mul, Codon::Div, Codon::Less],
        entries: vec![0, 2, 4],
    };
    for _ in 0..200 {
        let seq_before = d.sequence.len() as i64;
        let ent_before = d.entries.len() as i64;
        d.mutate(&mut rng);
        assert!((d.sequence.len() as i64 - seq_before).abs() <= 1);
        assert!((d.entries.len() as i64 - ent_before).abs() <= 1);
        entries_sorted_unique_in_range(&d);
    }
}

#[test]
fn random_genome_is_well_formed() {
    let mut rng = SimRng::from_seed(99);
    for _ in 0..10 {
        let d = random_dna(&mut rng);
        entries_sorted_unique_in_range(&d);
    }
}

#[test]
fn split_points_cuts_at_entries_with_implicit_origin() {
    let items = vec![
        Codon::Add,
        Codon::Sub,
        Codon::Mul,
        Codon::Div,
        Codon::Less,
        Codon::Trade,
        Codon::RotateLeft,
    ];
    let genes = split_points(&vec![2, 5], &items);
    assert_eq!(genes.len(), 3);
    assert_eq!(genes[0], vec![Codon::Add, Codon::Sub]);
    assert_eq!(genes[1], vec![Codon::Mul, Codon::Div, Codon::Less]);
    assert_eq!(genes[2], vec![Codon::Trade, Codon::RotateLeft]);
}

#[test]
fn split_points_without_entries_has_no_genes() {
    let items = vec![Codon::Add, Codon::Sub];
    let genes = split_points(&vec![], &items);
    assert_eq!(genes.len(), 0);
}

#[test]
fn crossover_of_one_parent_reassembles_its_genes() {
    let mut rng = SimRng::from_seed(3);
    let parent = Dna {
        sequence: vec![
            Codon::Add,
            Codon::Sub,
            Codon::Mul,
            Codon::Div,
            Codon::Less,
            Codon::Trade,
            Codon::RotateLeft,
        ],
        entries: vec![2, 5],
    };
    let child = crossover(&mut rng, vec![parent.clone()]);
    // with a single parent every slot picks its gene, in order
    assert_eq!(child.sequence, parent.sequence);
    assert_eq!(child.entries, vec![0, 2, 5]);
}

#[test]
fn combine_tracks_generations_and_zeroes_memory() {
    let mut rng = SimRng::from_seed(11);
    let mut a = Brain::random(&mut rng);
    let mut b = Brain::random(&mut rng);
    a.generation = 3;
    b.generation = 7;
    let child = combine(&mut rng, vec![a, b]);
    assert_eq!(child.generation, 8);
    assert_eq!(child.memory, vec![0, 0, 0, 0]);
    assert!(child.color < 3600);
    assert!(child.rotation < 4);
    entries_sorted_unique_in_range(&child.code);
}

#[test]
fn crossover_child_genes_are_whole_parent_genes() {
    let mut rng = SimRng::from_seed(17);
    let a = Dna {
        sequence: vec![Codon::Add, Codon::Sub, Codon::Mul],
        entries: vec![0, 2],
    };
    let b = Dna { sequence: vec![Codon::Div], entries: vec![0] };
    let parent_genes = vec![
        vec![Codon::Add, Codon::Sub],
        vec![Codon::Mul],
        vec![Codon::Div],
    ];
    for _ in 0..20 {
        let child = crossover(&mut rng, vec![a.clone(), b.clone()]);
        let genes = split_points(&child.entries, &child.sequence);
        // at most one gene per slot, and the larger parent has two slots
        assert!(genes.len() <= 2);
        for g in &genes {
            assert!(parent_genes.contains(g));
        }
    }
}
