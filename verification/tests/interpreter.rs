use evonomics::codon::{Action, Codon};
use evonomics::direction::Direction;
use evonomics::dna::Dna;
use evonomics::scalar;

fn dna(sequence: Vec<Codon>, entries: Vec<usize>) -> Dna {
    Dna { sequence, entries }
}

fn mem4() -> Vec<i64> {
    vec![0, 0, 0, 0]
}

#[test]
fn empty_genome_executes_to_nothing() {
    let d = Dna::new();
    let inputs: Vec<i64> = vec![];
    assert_eq!(d.execute(&inputs, &mem4(), 0), Action::Nothing);
    assert_eq!(d.execute(&inputs, &mem4(), 5), Action::Nothing);
}

#[test]
fn arithmetic_gene_writes_sum() {
    let d = dna(
        vec![Codon::Literal(2), Codon::Literal(3), Codon::Add, Codon::Write(0)],
        vec![0],
    );
    assert_eq!(d.execute(&vec![], &mem4(), 0), Action::Write(0, 5));
}

#[test]
fn subtraction_and_multiplication() {
    let d = dna(
        vec![
            Codon::Literal(10),
            Codon::Literal(4),
            Codon::Sub,
            Codon::Literal(3),
            Codon::Mul,
            Codon::Write(1),
        ],
        vec![0],
    );
    assert_eq!(d.execute(&vec![], &mem4(), 0), Action::Write(1, 18));
}

#[test]
fn division_by_zero_yields_zero() {
    let d = dna(
        vec![Codon::Literal(5), Codon::Literal(0), Codon::Div, Codon::Write(1)],
        vec![0],
    );
    assert_eq!(d.execute(&vec![], &mem4(), 0), Action::Write(1, 0));
}

#[test]
fn less_false_ends_gene() {
    let d = dna(
        vec![Codon::Literal(3), Codon::Literal(2), Codon::Less, Codon::Move(Direction::Right)],
        vec![0],
    );
    assert_eq!(d.execute(&vec![], &mem4(), 0), Action::Nothing);
}

#[test]
fn less_true_continues_gene() {
    let d = dna(
        vec![Codon::Literal(2), Codon::Literal(3), Codon::Less, Codon::Move(Direction::Right)],
        vec![0],
    );
    assert_eq!(d.execute(&vec![], &mem4(), 0), Action::Move(Direction::Right));
}

#[test]
fn endless_loop_halts_within_step_cap() {
    // a one-instruction cycle that pushes forever: the cap must end it
    let d = dna(vec![Codon::Literal(1)], vec![0]);
    assert_eq!(d.execute(&vec![], &mem4(), 0), Action::Nothing);
}

#[test]
fn copy_operand_reduced_modulo_stack_depth() {
    // Copy(5) on a one-deep stack duplicates the top (5 mod 1 == 0)
    let d = dna(
        vec![Codon::Literal(7), Codon::Copy(5), Codon::Add, Codon::Write(0)],
        vec![0],
    );
    assert_eq!(d.execute(&vec![], &mem4(), 0), Action::Write(0, 14));
}

#[test]
fn input_operand_reduced_modulo_input_count() {
    let d = dna(vec![Codon::Input(3), Codon::Write(0)], vec![0]);
    assert_eq!(d.execute(&vec![10, 20], &mem4(), 0), Action::Write(0, 20));
}

#[test]
fn read_operand_reduced_modulo_register_count() {
    let d = dna(vec![Codon::Read(6), Codon::Write(0)], vec![0]);
    let memory = vec![1, 2, 3, 4];
    // 6 mod 4 == 2
    assert_eq!(d.execute(&vec![], &memory, 0), Action::Write(0, 3));
}

#[test]
fn stack_underflow_ends_gene() {
    let d = dna(vec![Codon::Add], vec![0]);
    assert_eq!(d.execute(&vec![], &mem4(), 0), Action::Nothing);
}

#[test]
fn trade_values_clamped() {
    let d = dna(
        vec![Codon::Literal(20000), Codon::Literal(3), Codon::Trade],
        vec![0],
    );
    // the top of the stack is the rate, the value below it the quantity
    assert_eq!(d.execute(&vec![], &mem4(), 0), Action::Trade(3, 10000));
}

#[test]
fn simple_trade_is_immediate() {
    let d = dna(vec![Codon::SimpleTrade(5, -3)], vec![0]);
    assert_eq!(d.execute(&vec![], &mem4(), 0), Action::Trade(5, -3));
}

#[test]
fn out_of_range_entry_is_nothing() {
    let d = dna(vec![Codon::RotateLeft], vec![0]);
    assert_eq!(d.execute(&vec![], &mem4(), 9), Action::Nothing);
}

#[test]
fn saturating_scalar_arithmetic() {
    assert_eq!(scalar::sadd(i64::MAX, 1), i64::MAX);
    assert_eq!(scalar::sadd(2, 3), 5);
    assert_eq!(scalar::ssub(i64::MIN, 1), i64::MIN);
    assert_eq!(scalar::smul(i64::MAX, 2), i64::MAX);
    assert_eq!(scalar::smul(i64::MIN, 2), i64::MIN);
    assert_eq!(scalar::smul(-3, 4), -12);
    assert_eq!(scalar::sdiv(7, 2), 3);
    assert_eq!(scalar::sdiv(-7, 2), -3);
    assert_eq!(scalar::sdiv(i64::MIN, -1), i64::MAX);
    assert_eq!(scalar::sdiv(5, 0), 0);
}
