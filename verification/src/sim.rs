//! The cellular-automaton engine: per-cell state, the read-only `step`
//! phase (sense the neighborhood, run the brain, emit a diff and directed
//! move payloads) and the write-only `update` phase (apply the diff and the
//! payloads addressed to the cell), plus the simulation container that
//! drives whole ticks and the market.
use vstd::prelude::*;
use crate::brain::Brain;
use crate::brain::combine;
use crate::brain::codes_of;
use crate::brain::decide_post;
use crate::brain::fold_decide;
use crate::brain::max_generation;
use crate::brain::spec_rotate_decision;
use crate::codon::Decision;
use crate::codon::spec_clamp_trade;
use crate::dna::Dna;
use crate::direction::spec_dir_index;
use crate::rng::SimRng;

verus! {

/// Food a cell must keep to move; moving away burns it.
pub const MOVE_PENALTY: u32 = 8;

/// Food endowment of a freshly spawned agent.
pub const SPAWN_FOOD: u32 = 16;

/// Money per grid cell held by the reserve at simulation start.
pub const RESERVE_MULTIPLIER: u32 = 64;

/// Length of the full sensory window: five values (occupancy, wall flag,
/// food, signal, money) for each of the eight neighbors, then the cell's
/// own food and money.
pub const WINDOW_LEN: usize = 42;

/// A trade intent: `food` negative bids to buy, positive asks to sell, at
/// `rate` money per unit.
#[derive(Clone, Copy, PartialEq, Eq, Structural, Debug)]
pub struct Trade {
    pub rate: i32,
    pub food: i32,
}

#[derive(Clone, Copy, PartialEq, Eq, Structural, Debug)]
pub enum CellType {
    Wall,
    Source,
    Empty,
}

/// One grid cell: resources, terrain type, the signal neighbors sense, an
/// optional occupant, and an optional trade intent cleared every tick.
#[derive(Debug)]
pub struct Cell {
    pub food: u32,
    pub money: u32,
    pub ty: CellType,
    pub signal: i64,
    pub brain: Option<Brain>,
    pub trade: Option<Trade>,
}

impl Cell {
    /// Wall cells never host an agent; any occupant is well formed.
    pub open spec fn wf(self) -> bool {
        &&& self.ty == CellType::Wall ==> self.brain is None
        &&& match self.brain {
            Some(b) => b.wf(),
            None => true,
        }
    }

    /// An empty open cell with nothing in it.
    pub fn empty() -> (r: Cell)
        ensures
            r.wf(),
            r.food == 0,
            r.money == 0,
            r.ty == CellType::Empty,
            r.signal == 0,
            r.brain is None,
            r.trade is None,
    {
        Cell { food: 0, money: 0, ty: CellType::Empty, signal: 0, brain: None, trade: None }
    }
}

impl Default for Cell {
    /// The default cell is empty and open.
    fn default() -> (r: Cell)
        ensures
            r.wf(),
            r.food == 0 && r.money == 0 && r.ty == CellType::Empty && r.signal == 0,
            r.brain is None && r.trade is None,
    {
        Cell::empty()
    }
}

/// What one cell shows its neighbors: the read-only view the step phase
/// senses.
#[derive(Clone, Copy, PartialEq, Eq, Structural, Debug)]
pub struct Sense {
    pub occupied: bool,
    pub wall: bool,
    pub food: u32,
    pub signal: i64,
    pub money: u32,
}

impl Sense {
    /// What this cell looks like from outside.
    pub open spec fn spec_of_cell(c: Cell) -> Sense {
        Sense {
            occupied: c.brain is Some,
            wall: c.ty == CellType::Wall,
            food: c.food,
            signal: c.signal,
            money: c.money,
        }
    }

    pub fn of_cell(c: &Cell) -> (r: Sense)
        ensures
            r == Sense::spec_of_cell(*c),
    {
        Sense {
            occupied: c.brain.is_some(),
            wall: matches!(c.ty, CellType::Wall),
            food: c.food,
            signal: c.signal,
            money: c.money,
        }
    }
}

/// The five sensory values one neighbor contributes, in order: occupancy,
/// wall flag, food, signal, money.
pub open spec fn sense_values(s: Sense) -> Seq<i64> {
    seq![
        if s.occupied {
            1i64
        } else {
            0i64
        },
        if s.wall {
            1i64
        } else {
            0i64
        },
        s.food as i64,
        s.signal,
        s.money as i64,
    ]
}

/// The full unrotated sensory window: the eight neighbors' values in
/// counter-clockwise direction order, then the cell's own food and money.
pub open spec fn spec_window(senses: Seq<Sense>, self_food: u32, self_money: u32) -> Seq<i64> {
    Seq::new(
        WINDOW_LEN as nat,
        |i: int|
            if i < 40 {
                sense_values(senses[i / 5])[i % 5]
            } else if i == 40 {
                self_food as i64
            } else {
                self_money as i64
            },
    )
}

/// Rotate the neighbor-derived part of a window counter-clockwise by the
/// given number of quarter turns (two neighbor slots each); the trailing
/// self-values stay put.
pub open spec fn spec_rotate_window(w: Seq<i64>, quarters: int) -> Seq<i64> {
    Seq::new(
        w.len(),
        |i: int|
            if i < 40 {
                w[(i + 10 * quarters) % 40]
            } else {
                w[i]
            },
    )
}

/// Build the unrotated sensory window.
pub fn build_window(senses: &Vec<Sense>, self_food: u32, self_money: u32) -> (r: Vec<i64>)
    requires
        senses@.len() == 8,
    ensures
        r@ == spec_window(senses@, self_food, self_money),
{
    let mut r: Vec<i64> = Vec::new();
    let mut n: usize = 0;
    while n < 8
        invariant
            senses@.len() == 8,
            n <= 8,
            r@.len() == 5 * n,
            forall|i: int|
                0 <= i < r@.len() ==> (#[trigger] r@[i]) == sense_values(senses@[i / 5])[i % 5],
        decreases 8 - n,
    {
        let s = senses[n];
        r.push(if s.occupied {
            1i64
        } else {
            0i64
        });
        r.push(if s.wall {
            1i64
        } else {
            0i64
        });
        r.push(s.food as i64);
        r.push(s.signal);
        r.push(s.money as i64);
        proof {
            assert forall|i: int|
                0 <= i < r@.len() implies (#[trigger] r@[i]) == sense_values(senses@[i / 5])[i
                % 5] by {
                if i >= 5 * n {
                    assert(i / 5 == n as int) by (nonlinear_arith)
                        requires
                            5 * n <= i < 5 * (n + 1),
                    ;
                    assert(i % 5 == i - 5 * n) by (nonlinear_arith)
                        requires
                            5 * n <= i < 5 * (n + 1),
                    ;
                }
            }
        }
        n = n + 1;
    }
    r.push(self_food as i64);
    r.push(self_money as i64);
    proof {
        assert(r@ =~= spec_window(senses@, self_food, self_money));
    }
    r
}

/// Rotate the neighbor part of a window by `quarters` quarter turns.
pub fn rotate_window(w: &Vec<i64>, quarters: u32) -> (r: Vec<i64>)
    requires
        w@.len() == WINDOW_LEN,
        quarters < 4,
    ensures
        r@ == spec_rotate_window(w@, quarters as int),
{
    let mut r: Vec<i64> = Vec::new();
    let mut i: usize = 0;
    while i < 40
        invariant
            w@.len() == WINDOW_LEN,
            quarters < 4,
            i <= 40,
            r@.len() == i,
            forall|j: int|
                0 <= j < i ==> (#[trigger] r@[j]) == w@[(j + 10 * quarters) % 40],
        decreases 40 - i,
    {
        let src = (i + 10 * (quarters as usize)) % 40;
        r.push(w[src]);
        i = i + 1;
    }
    r.push(w[40]);
    r.push(w[41]);
    proof {
        assert(r@ =~= spec_rotate_window(w@, quarters as int));
    }
    r
}

/// Rotating a window twice rotates it once by the combined quarter count.
proof fn lemma_rotate_window_adds(w: Seq<i64>, a: int, b: int)
    requires
        w.len() == WINDOW_LEN,
        0 <= a,
        0 <= b,
    ensures
        spec_rotate_window(spec_rotate_window(w, a), b) == spec_rotate_window(w, (a + b) % 4),
{
    let lhs = spec_rotate_window(spec_rotate_window(w, a), b);
    let rhs = spec_rotate_window(w, (a + b) % 4);
    assert forall|i: int| 0 <= i < w.len() implies lhs[i] == rhs[i] by {
        if i < 40 {
            let m = (i + 10 * b) % 40;
            vstd::arithmetic::div_mod::lemma_mod_bound(i + 10 * b, 40);
            assert(lhs[i] == spec_rotate_window(w, a)[m]);
            assert(spec_rotate_window(w, a)[m] == w[(m + 10 * a) % 40]);
            assert((m + 10 * a) % 40 == (i + 10 * b + 10 * a) % 40) by {
                vstd::arithmetic::div_mod::lemma_add_mod_noop(i + 10 * b, 10 * a, 40);
                vstd::arithmetic::div_mod::lemma_add_mod_noop((i + 10 * b) % 40, 10 * a, 40);
                vstd::arithmetic::div_mod::lemma_mod_twice(i + 10 * b, 40);
            }
            assert((i + 10 * ((a + b) % 4)) % 40 == (i + 10 * (a + b)) % 40) by {
                vstd::arithmetic::div_mod::lemma_fundamental_div_mod(a + b, 4);
                let t = (a + b) / 4;
                assert(10 * (a + b) == 10 * ((a + b) % 4) + 40 * t);
                vstd::arithmetic::div_mod::lemma_mod_multiples_vanish(t, i + 10 * ((a + b) % 4), 40);
            }
            assert(rhs[i] == w[(i + 10 * (a + b)) % 40]);
        }
    }
    assert(lhs =~= rhs);
}

/// The decision the engine derives from a brain state and an unrotated
/// window: the window is turned into the brain's frame, the genes run in
/// the given order, and the resulting decision is turned back by the final
/// orientation.
pub open spec fn spec_decide_from_window(
    seq: Seq<crate::codon::Codon>,
    order: Seq<usize>,
    memory: Seq<i64>,
    rotation: int,
    w: Seq<i64>,
) -> Decision {
    let p = spec_rotate_window(w, rotation);
    let r = fold_decide(seq, p, order, memory, rotation, Decision::Nothing);
    spec_rotate_decision(r.2, r.1)
}

/// Rotation invariance: advance a brain's orientation by `k` quarter turns
/// and rotate its sensory window back by the same `k`, and the decision it
/// reaches is exactly the baseline decision rotated by `k`.
pub proof fn lemma_rotation_invariance(
    seq: Seq<crate::codon::Codon>,
    order: Seq<usize>,
    memory: Seq<i64>,
    w: Seq<i64>,
    rotation: int,
    k: int,
)
    requires
        w.len() == WINDOW_LEN,
        0 <= rotation < 4,
        0 <= k < 4,
    ensures
        spec_decide_from_window(
            seq,
            order,
            memory,
            (rotation + k) % 4,
            spec_rotate_window(w, (4 - k) % 4),
        ) == spec_rotate_decision(spec_decide_from_window(seq, order, memory, rotation, w), k),
{
    let w2 = spec_rotate_window(w, (4 - k) % 4);
    vstd::arithmetic::div_mod::lemma_mod_bound(rotation + k, 4);
    vstd::arithmetic::div_mod::lemma_mod_bound(4 - k, 4);
    lemma_rotate_window_adds(w, (4 - k) % 4, (rotation + k) % 4);
    assert(((4 - k) % 4 + (rotation + k) % 4) % 4 == rotation) by {
        vstd::arithmetic::div_mod::lemma_add_mod_noop((4 - k) % 4, (rotation + k) % 4, 4);
        vstd::arithmetic::div_mod::lemma_mod_twice(4 - k, 4);
        vstd::arithmetic::div_mod::lemma_mod_twice(rotation + k, 4);
        vstd::arithmetic::div_mod::lemma_add_mod_noop(4 - k, rotation + k, 4);
        vstd::arithmetic::div_mod::lemma_mod_multiples_vanish(1, rotation, 4);
        vstd::arithmetic::div_mod::lemma_small_mod(rotation as nat, 4nat);
    }
    assert(spec_rotate_window(w2, (rotation + k) % 4) == spec_rotate_window(w, rotation));
    crate::brain::lemma_decide_rotation(
        seq,
        spec_rotate_window(w, rotation),
        order,
        memory,
        rotation,
        k,
    );
}


/// Resources (and possibly a brain) directed at one neighbor.
#[derive(Debug)]
pub struct Move {
    pub food: u32,
    pub money: u32,
    pub brain: Option<Brain>,
}

/// Resource changes a cell applies to itself after a step, plus the state
/// of its occupant after the decision pass (`None` when it vacated).
#[derive(Debug)]
pub struct Diff {
    pub consume: u32,
    pub spend: u32,
    pub moved: bool,
    pub trade: Option<Trade>,
    pub brain: Option<Brain>,
}

/// The payload that carries nothing.
pub open spec fn empty_move() -> Move {
    Move { food: 0, money: 0, brain: None }
}

/// Eight empty payloads, one per direction.
pub open spec fn empty_moves() -> Seq<Move> {
    Seq::new(8, |i: int| empty_move())
}

/// The diff of a cell that vacates: no resource change, occupant cleared.
pub open spec fn vacate_diff() -> Diff {
    Diff { consume: 0, spend: 0, moved: true, trade: None, brain: None }
}

/// The diff of a cell that only exists this tick: one food consumed,
/// nothing else, occupant kept.
pub open spec fn just_exist(b: Brain, t: Option<Trade>) -> (Diff, Seq<Move>) {
    (Diff { consume: 1, spend: 0, moved: false, trade: t, brain: Some(b) }, empty_moves())
}

/// Two brains with identical contents.
pub open spec fn brain_eq(a: Brain, c: Brain) -> bool {
    &&& a.color == c.color
    &&& a.rotation == c.rotation
    &&& a.generation == c.generation
    &&& a.memory@ == c.memory@
    &&& a.code.sequence@ == c.code.sequence@
    &&& a.code.entries@ == c.code.entries@
}

/// The brain a division sends away holds the same controller state, one
/// generation deeper.
pub open spec fn spec_child_of(b: Brain, child: Brain) -> bool {
    &&& child.color == b.color
    &&& child.rotation == b.rotation
    &&& child.memory@ == b.memory@
    &&& child.code.sequence@ == b.code.sequence@
    &&& child.code.entries@ == b.code.entries@
    &&& child.generation as int == if b.generation < usize::MAX {
        b.generation + 1
    } else {
        b.generation as int
    }
}

/// A trade intent is affordable when the cell holds more food than it
/// offers and enough money to cover a buy.
pub open spec fn spec_trade_affordable(cell: Cell, rate: i32, q: i32) -> bool {
    &&& (q as int) < (cell.food as int)
    &&& -(rate as int) * (q as int) <= cell.money as int
}

/// Translate a decision into the cell's diff and its eight outgoing
/// payloads; `child` is the copy a division sends away. Unaffordable
/// decisions degrade to just existing.
pub open spec fn spec_step_apply(cell: Cell, d: Decision, b: Brain, child: Brain) -> (
    Diff,
    Seq<Move>,
) {
    match d {
        Decision::Move(dir) => if cell.food > MOVE_PENALTY {
            (
                Diff {
                    consume: cell.food,
                    spend: cell.money,
                    moved: true,
                    trade: None,
                    brain: None,
                },
                empty_moves().update(
                    spec_dir_index(dir),
                    Move {
                        food: (cell.food - 1 - MOVE_PENALTY) as u32,
                        money: cell.money,
                        brain: Some(b),
                    },
                ),
            )
        } else {
            just_exist(b, None)
        },
        Decision::Divide(dir) => if cell.food >= 2 + MOVE_PENALTY {
            (
                Diff {
                    consume: ((cell.food / 2) as int + 1 + (MOVE_PENALTY / 2) as int) as u32,
                    spend: cell.money / 2,
                    moved: false,
                    trade: None,
                    brain: Some(b),
                },
                empty_moves().update(
                    spec_dir_index(dir),
                    Move {
                        food: ((cell.food / 2) as int - (MOVE_PENALTY / 2) as int) as u32,
                        money: cell.money / 2,
                        brain: Some(child),
                    },
                ),
            )
        } else {
            just_exist(b, None)
        },
        Decision::Trade(rate, q) => if spec_trade_affordable(cell, rate, q) {
            just_exist(b, Some(Trade { rate, food: q }))
        } else {
            just_exist(b, None)
        },
        Decision::Nothing => just_exist(b, None),
    }
}

/// Money carried by a list of payloads.
pub open spec fn sum_moves_money(moves: Seq<Move>) -> int
    decreases moves.len(),
{
    if moves.len() == 0 {
        0
    } else {
        moves.last().money + sum_moves_money(moves.drop_last())
    }
}

/// Food carried by a list of payloads.
pub open spec fn sum_moves_food(moves: Seq<Move>) -> int
    decreases moves.len(),
{
    if moves.len() == 0 {
        0
    } else {
        moves.last().food + sum_moves_food(moves.drop_last())
    }
}

/// The brains carried by a list of payloads, in payload order.
pub open spec fn arriving_brains(moves: Seq<Move>) -> Seq<Brain>
    decreases moves.len(),
{
    if moves.len() == 0 {
        Seq::empty()
    } else {
        match moves.last().brain {
            Some(b) => arriving_brains(moves.drop_last()).push(b),
            None => arriving_brains(moves.drop_last()),
        }
    }
}

/// The bookkeeping facts the tick loop needs from every step, whatever the
/// decision was: the payloads' money exactly covers the diff's spend, no
/// cell spends or eats what it does not hold, every emitted brain is well
/// formed, and the payloads are one per direction.
pub open spec fn step_accounting(cell: Cell, diff: Diff, moves: Seq<Move>) -> bool {
    &&& moves.len() == 8
    &&& sum_moves_money(moves) == diff.spend as int
    &&& diff.spend <= cell.money
    &&& diff.consume <= cell.food
    &&& cell.ty == CellType::Wall ==> diff.spend == 0 && diff.brain is None
    &&& match diff.brain {
        Some(b) => b.wf(),
        None => true,
    }
    &&& forall|i: int|
        0 <= i < moves.len() ==> match (#[trigger] moves[i]).brain {
            Some(b) => b.wf(),
            None => true,
        }
}

/// The full step relation: an unoccupied or starved cell vacates; an
/// occupied one senses its neighborhood in its own frame, runs its genes
/// in some shuffled order, and translates the decision it reached.
pub open spec fn step_post(cell: Cell, senses: Seq<Sense>, diff: Diff, moves: Seq<Move>) -> bool {
    match cell.brain {
        None => diff == vacate_diff() && moves == empty_moves(),
        Some(pre) => if cell.food == 0 {
            diff == vacate_diff() && moves == empty_moves()
        } else {
            exists|d: Decision, b: Brain, child: Brain, ord: Seq<usize>|
                #![trigger decide_post(pre, b, ord, spec_rotate_window(spec_window(senses, cell.food, cell.money), pre.rotation as int), d), spec_step_apply(cell, d, b, child)]
                {
                    &&& decide_post(
                        pre,
                        b,
                        ord,
                        spec_rotate_window(
                            spec_window(senses, cell.food, cell.money),
                            pre.rotation as int,
                        ),
                        d,
                    )
                    &&& ord.to_multiset() == pre.code.entries@.to_multiset()
                    &&& b.wf()
                    &&& spec_child_of(b, child)
                    &&& (diff, moves) == spec_step_apply(cell, d, b, child)
                }
        },
    }
}

/// Eight empty payloads, built.
fn make_empty_moves() -> (r: Vec<Move>)
    ensures
        r@ =~= empty_moves(),
        sum_moves_money(r@) == 0,
        sum_moves_food(r@) == 0,
{
    let mut r: Vec<Move> = Vec::new();
    let mut i: usize = 0;
    while i < 8
        invariant
            i <= 8,
            r@.len() == i,
            forall|j: int| 0 <= j < i ==> (#[trigger] r@[j]) == empty_move(),
            sum_moves_money(r@) == 0,
            sum_moves_food(r@) == 0,
        decreases 8 - i,
    {
        let ghost pre = r@;
        r.push(Move { food: 0, money: 0, brain: None });
        proof {
            assert(r@.drop_last() =~= pre);
        }
        i = i + 1;
    }
    proof {
        assert(r@ =~= empty_moves());
    }
    r
}

impl Brain {
    /// An identical private copy of this brain; the genome is copied too,
    /// so the copy can be mutated without touching the original.
    pub fn duplicate(&self) -> (r: Brain)
        ensures
            r.color == self.color,
            r.rotation == self.rotation,
            r.generation == self.generation,
            r.memory@ == self.memory@,
            r.code.sequence@ == self.code.sequence@,
            r.code.entries@ == self.code.entries@,
    {
        let memory = self.memory.clone();
        proof {
            assert(memory@ =~= self.memory@);
        }
        Brain {
            color: self.color,
            rotation: self.rotation,
            generation: self.generation,
            memory,
            code: self.code.duplicate(),
        }
    }
}

/// The read-only step phase for one cell: sense the eight neighbors, let
/// the occupant decide, and translate the decision into a diff and eight
/// directed payloads.
pub fn step(cell: &Cell, senses: &Vec<Sense>, rng: &mut SimRng) -> (r: (Diff, Vec<Move>))
    requires
        cell.wf(),
        senses@.len() == 8,
    ensures
        step_post(*cell, senses@, r.0, r.1@),
        step_accounting(*cell, r.0, r.1@),
{
    if cell.brain.is_none() || cell.food == 0 {
        let moves = make_empty_moves();
        return (
            Diff { consume: 0, spend: 0, moved: true, trade: None, brain: None },
            moves,
        );
    }
    let pre_brain = cell.brain.as_ref().unwrap();
    let mut b = pre_brain.duplicate();
    let window = build_window(senses, cell.food, cell.money);
    let perceived = rotate_window(&window, b.rotation());
    let mut order = b.code.entries.clone();
    proof {
        assert(order@ =~= b.code.entries@);
        assert(b.code.entries@ =~= pre_brain.code.entries@);
    }
    crate::rng::shuffle(rng, &mut order);
    let d = b.decide_ordered(&perceived, &order);
    proof {
        assert(decide_post(
            *pre_brain,
            b,
            order@,
            spec_rotate_window(
                spec_window(senses@, cell.food, cell.money),
                pre_brain.rotation as int,
            ),
            d,
        ));
    }
    apply_decision(cell, d, b, Ghost(*pre_brain), Ghost(order@), Ghost(senses@))
}

/// Translate an affordable decision into its diff and payloads; degrade an
/// unaffordable one to just existing.
fn apply_decision(
    cell: &Cell,
    d: Decision,
    b: Brain,
    Ghost(pre): Ghost<Brain>,
    Ghost(ord): Ghost<Seq<usize>>,
    Ghost(senses): Ghost<Seq<Sense>>,
) -> (r: (Diff, Vec<Move>))
    requires
        cell.wf(),
        cell.brain == Some(pre),
        cell.food > 0,
        b.wf(),
        senses.len() == 8,
        decide_post(
            pre,
            b,
            ord,
            spec_rotate_window(spec_window(senses, cell.food, cell.money), pre.rotation as int),
            d,
        ),
        ord.to_multiset() == pre.code.entries@.to_multiset(),
    ensures
        step_post(*cell, senses, r.0, r.1@),
        step_accounting(*cell, r.0, r.1@),
{
    let child = Brain {
        generation: if b.generation < usize::MAX {
            b.generation + 1
        } else {
            b.generation
        },
        ..b.duplicate()
    };
    proof {
        assert(spec_child_of(b, child));
    }
    let ghost goal = spec_step_apply(*cell, d, b, child);
    let result: (Diff, Vec<Move>) = match d {
        Decision::Move(dir) => {
            if cell.food > MOVE_PENALTY {
                let mut moves = make_empty_moves();
                let ix = crate::direction::dir_index(dir);
                let ghost pre_moves = moves@;
                moves[ix] = Move {
                    food: cell.food - 1 - MOVE_PENALTY,
                    money: cell.money,
                    brain: Some(b),
                };
                proof {
                    lemma_sum_moves_update(pre_moves, ix as int, moves@[ix as int]);
                }
                (
                    Diff {
                        consume: cell.food,
                        spend: cell.money,
                        moved: true,
                        trade: None,
                        brain: None,
                    },
                    moves,
                )
            } else {
                (
                    Diff { consume: 1, spend: 0, moved: false, trade: None, brain: Some(b) },
                    make_empty_moves(),
                )
            }
        },
        Decision::Divide(dir) => {
            if cell.food >= 2 + MOVE_PENALTY {
                let mut moves = make_empty_moves();
                let ix = crate::direction::dir_index(dir);
                let ghost pre_moves = moves@;
                moves[ix] = Move {
                    food: cell.food / 2 - MOVE_PENALTY / 2,
                    money: cell.money / 2,
                    brain: Some(child),
                };
                proof {
                    lemma_sum_moves_update(pre_moves, ix as int, moves@[ix as int]);
                }
                (
                    Diff {
                        consume: cell.food / 2 + 1 + MOVE_PENALTY / 2,
                        spend: cell.money / 2,
                        moved: false,
                        trade: None,
                        brain: Some(b),
                    },
                    moves,
                )
            } else {
                (
                    Diff { consume: 1, spend: 0, moved: false, trade: None, brain: Some(b) },
                    make_empty_moves(),
                )
            }
        },
        Decision::Trade(rate, q) => {
            let ra = rate as i64;
            let qa = q as i64;
            proof {
                assert(-(ra as int) * (qa as int) <= i64::MAX && -(ra as int) * (qa as int)
                    >= i64::MIN) by (nonlinear_arith)
                    requires
                        -0x80000000 <= ra <= 0x7fffffff,
                        -0x80000000 <= qa <= 0x7fffffff,
                ;
            }
            let affordable = qa < (cell.food as i64) && (-ra) * qa <= (cell.money as i64);
            if affordable {
                (
                    Diff {
                        consume: 1,
                        spend: 0,
                        moved: false,
                        trade: Some(Trade { rate, food: q }),
                        brain: Some(b),
                    },
                    make_empty_moves(),
                )
            } else {
                (
                    Diff { consume: 1, spend: 0, moved: false, trade: None, brain: Some(b) },
                    make_empty_moves(),
                )
            }
        },
        Decision::Nothing => {
            (
                Diff { consume: 1, spend: 0, moved: false, trade: None, brain: Some(b) },
                make_empty_moves(),
            )
        },
    };
    proof {
        assert((result.0, result.1@) == goal);
        assert(step_post(*cell, senses, result.0, result.1@));
    }
    result
}

/// Updating one payload of a list shifts the money and food sums by the
/// difference, and brains elsewhere stay as they were.
proof fn lemma_sum_moves_update(moves: Seq<Move>, i: int, m: Move)
    requires
        0 <= i < moves.len(),
    ensures
        sum_moves_money(moves.update(i, m)) == sum_moves_money(moves) - moves[i].money + m.money,
        sum_moves_food(moves.update(i, m)) == sum_moves_food(moves) - moves[i].food + m.food,
    decreases moves.len(),
{
    if moves.len() > 0 {
        if i == moves.len() - 1 {
            assert(moves.update(i, m).drop_last() =~= moves.drop_last());
            assert(moves.update(i, m).last() == m);
        } else {
            assert(moves.update(i, m).drop_last() =~= moves.drop_last().update(i, m));
            assert(moves.update(i, m).last() == moves.last());
            lemma_sum_moves_update(moves.drop_last(), i, m);
        }
    }
}


/// The tunable stochastic rates, probabilities in parts per million.
#[derive(Clone, Copy, PartialEq, Eq, Structural, Debug)]
pub struct Config {
    /// Chance an empty cell spawns a fresh agent, per tick.
    pub spawn_ppm: u32,
    /// Chance a surviving occupant mutates, per tick.
    pub mutation_ppm: u32,
    /// Chance an ordinary cell regrows one food, per tick.
    pub general_food_ppm: u32,
    /// Chance a source cell produces its bounty, per tick.
    pub cornucopia_food_ppm: u32,
    /// Food a source cell produces when it fires.
    pub cornucopia_bounty: u32,
}

impl Config {
    /// The rates a simulation starts with.
    pub open spec fn initial_spec() -> Config {
        Config {
            spawn_ppm: 30u32,
            mutation_ppm: 100u32,
            general_food_ppm: 10000u32,
            cornucopia_food_ppm: 0u32,
            cornucopia_bounty: 0u32,
        }
    }

    /// The rates a simulation starts with.
    pub fn initial() -> (r: Config)
        ensures
            r == Config::initial_spec(),
    {
        Config {
            spawn_ppm: 30,
            mutation_ppm: 100,
            general_food_ppm: 10000,
            cornucopia_food_ppm: 0,
            cornucopia_bounty: 0,
        }
    }
}

/// Money held by the cells of a grid.
pub open spec fn sum_money(cells: Seq<Cell>) -> int
    decreases cells.len(),
{
    if cells.len() == 0 {
        0
    } else {
        cells.last().money + sum_money(cells.drop_last())
    }
}

/// Clamp a mathematical integer into the `u32` range.
pub open spec fn sat_u32(x: int) -> int {
    if x > u32::MAX {
        u32::MAX as int
    } else if x < 0 {
        0
    } else {
        x
    }
}

/// Payload sums are nonnegative and bounded by the payload count.
proof fn lemma_sum_moves_bounds(moves: Seq<Move>)
    ensures
        0 <= sum_moves_money(moves) <= moves.len() * (u32::MAX as int),
        0 <= sum_moves_food(moves) <= moves.len() * (u32::MAX as int),
    decreases moves.len(),
{
    if moves.len() > 0 {
        lemma_sum_moves_bounds(moves.drop_last());
    }
}

/// Sums and arrivals over a prefix extend one payload at a time.
proof fn lemma_sum_moves_step(moves: Seq<Move>, i: int)
    requires
        0 <= i < moves.len(),
    ensures
        sum_moves_money(moves.subrange(0, i + 1)) == sum_moves_money(moves.subrange(0, i))
            + moves[i].money,
        sum_moves_food(moves.subrange(0, i + 1)) == sum_moves_food(moves.subrange(0, i))
            + moves[i].food,
        arriving_brains(moves.subrange(0, i + 1)) == (match moves[i].brain {
            Some(b) => arriving_brains(moves.subrange(0, i)).push(b),
            None => arriving_brains(moves.subrange(0, i)),
        }),
{
    let pre = moves.subrange(0, i);
    let now = moves.subrange(0, i + 1);
    assert(now.drop_last() =~= pre);
    assert(now.last() == moves[i]);
}

/// The occupant candidates a cell has after a step: its surviving occupant
/// (if any) followed by every brain that arrived.
pub open spec fn candidate_brains(diff: Diff, moves: Seq<Move>) -> Seq<Brain> {
    let occ: Seq<Brain> = if diff.moved {
        Seq::empty()
    } else {
        match diff.brain {
            Some(b) => seq![b],
            None => Seq::empty(),
        }
    };
    occ + arriving_brains(moves)
}

/// The food a spawn brings: a fresh agent appears only where no occupant
/// candidate remained, and arrives with its fixed endowment.
pub open spec fn spawn_endowment(diff: Diff, moves: Seq<Move>, r: Cell) -> int {
    if candidate_brains(diff, moves).len() == 0 && r.brain is Some {
        SPAWN_FOOD as int
    } else {
        0
    }
}

/// What the update phase did to one cell, whatever the random draws
/// were: the exact money equation, wall behavior, the food ledger up to
/// the stochastic extras, and the occupant's provenance from the
/// candidates that met in the cell.
pub open spec fn update_post(cell: Cell, diff: Diff, moves: Seq<Move>, config: Config, r: Cell) -> bool {
    &&& r.ty == cell.ty
    &&& r.money as int == cell.money - diff.spend + sum_moves_money(moves)
    &&& (cell.ty == CellType::Wall ==> r.brain is None && r.food == cell.food && r.trade
        == cell.trade && r.signal == cell.signal)
    &&& (cell.ty != CellType::Wall ==> {
            &&& r.trade == diff.trade
            &&& (r.signal as int) == (match r.brain {
                Some(b) => b.memory@[0] as int,
                None => 0int,
            })
            &&& (exists|re: int|
                #![trigger sat_u32(cell.food - diff.consume + sum_moves_food(moves) + spawn_endowment(diff, moves, r) + re)]
                (re == 0 || re == 1 || re == config.cornucopia_bounty as int) && r.food as int
                    == sat_u32(
                    cell.food - diff.consume + sum_moves_food(moves) + spawn_endowment(
                        diff,
                        moves,
                        r,
                    ) + re,
                ))
            &&& (candidate_brains(diff, moves).len() == 0 ==> (match r.brain {
                Some(b) => b.generation == 0,
                None => true,
            }))
            &&& (candidate_brains(diff, moves).len() == 1 ==> (match r.brain {
                Some(b) => {
                    let c = candidate_brains(diff, moves)[0];
                    &&& b.color == c.color
                    &&& b.rotation == c.rotation
                    &&& b.generation == c.generation
                    &&& b.memory@ == c.memory@
                    &&& crate::dna::dna_evolves(
                        c.code.sequence@,
                        c.code.entries@,
                        b.code.sequence@,
                        b.code.entries@,
                    )
                },
                None => false,
            }))
            &&& (candidate_brains(diff, moves).len() >= 2 ==> (match r.brain {
                Some(b) => {
                    &&& b.generation as int == (if max_generation(
                        candidate_brains(diff, moves),
                    ) < usize::MAX {
                        max_generation(candidate_brains(diff, moves)) + 1
                    } else {
                        usize::MAX as int
                    })
                    // the occupant's genome is a crossover of the
                    // candidates' genomes, then at most one mutation step
                    &&& exists|z: Dna|
                        #[trigger] crate::dna::crossover_post(
                            codes_of(candidate_brains(diff, moves)),
                            z,
                        ) && crate::dna::dna_evolves(
                            z.sequence@,
                            z.entries@,
                            b.code.sequence@,
                            b.code.entries@,
                        )
                },
                None => false,
            }))
        })
}

/// The write-only update phase for one cell: apply the diff, deliver the
/// payloads addressed here, merge arriving occupants, then run the
/// stochastic mutation, spawning and food regeneration steps. Wall cells
/// only accumulate arriving money, so the reserve can reclaim it at the
/// end of the tick.
pub fn update(cell: &Cell, diff: Diff, moves: Vec<Move>, config: &Config, rng: &mut SimRng) -> (r:
    Cell)
    requires
        cell.wf(),
        diff.consume <= cell.food,
        diff.spend <= cell.money,
        cell.ty == CellType::Wall ==> diff.spend == 0 && diff.brain is None,
        match diff.brain {
            Some(b) => b.wf(),
            None => true,
        },
        forall|i: int|
            0 <= i < moves@.len() ==> match (#[trigger] moves@[i]).brain {
                Some(b) => b.wf(),
                None => true,
            },
        moves@.len() <= 0x20000000,
        cell.money - diff.spend + sum_moves_money(moves@) <= u32::MAX,
    ensures
        r.wf(),
        update_post(*cell, diff, moves@, *config, r),
{
    proof {
        lemma_sum_moves_bounds(moves@);
    }
    // deliver money and food; gather the brains that arrived
    let mut money_in: u64 = 0;
    let mut food_in: u64 = 0;
    let mut arrived: Vec<Brain> = Vec::new();
    let mut moves = moves;
    let ghost all_moves = moves@;
    let mut i: usize = 0;
    while moves.len() > 0
        invariant
            i + moves@.len() == all_moves.len(),
            all_moves.len() <= 0x20000000,
            moves@ =~= all_moves.subrange(i as int, all_moves.len() as int),
            forall|j: int|
                0 <= j < all_moves.len() ==> match (#[trigger] all_moves[j]).brain {
                    Some(b) => b.wf(),
                    None => true,
                },
            money_in as int == sum_moves_money(all_moves.subrange(0, i as int)),
            food_in as int == sum_moves_food(all_moves.subrange(0, i as int)),
            arrived@ == arriving_brains(all_moves.subrange(0, i as int)),
        decreases moves@.len(),
    {
        proof {
            lemma_sum_moves_step(all_moves, i as int);
            lemma_sum_moves_bounds(all_moves.subrange(0, i as int));
        }
        let m = moves.remove(0);
        proof {
            assert(m == all_moves[i as int]);
        }
        money_in = money_in + (m.money as u64);
        food_in = food_in + (m.food as u64);
        match m.brain {
            Some(b) => {
                arrived.push(b);
            },
            None => {},
        }
        i = i + 1;
        proof {
            assert(moves@ =~= all_moves.subrange(i as int, all_moves.len() as int));
        }
    }
    proof {
        assert(all_moves.subrange(0, all_moves.len() as int) =~= all_moves);
        lemma_arriving_wf(all_moves);
    }
    // walls only take the money in, for the reserve sweep to reclaim
    if matches!(cell.ty, CellType::Wall) {
        let new_money = (cell.money as u64) + money_in;
        return Cell {
            food: cell.food,
            money: new_money as u32,
            ty: cell.ty,
            signal: cell.signal,
            brain: None,
            trade: cell.trade,
        };
    }
    let new_money64 = (cell.money as u64) + money_in - (diff.spend as u64);
    let new_money = new_money64 as u32;
    // the occupant that survived the step, then everything that arrived
    let occ: Option<Brain> = if diff.moved {
        None
    } else {
        diff.brain
    };
    let ghost cands = candidate_brains(diff, all_moves);
    let occ_count: usize = if occ.is_some() {
        1
    } else {
        0
    };
    proof {
        match &occ {
            Some(o) => {
                assert(cands =~= seq![*o] + arrived@);
            },
            None => {
                assert(cands =~= arrived@);
            },
        }
    }
    let mut new_brain: Option<Brain>;
    if arrived.len() + occ_count > 1 {
        // several would-be occupants merge into one
        let mut all: Vec<Brain> = Vec::new();
        match occ {
            Some(o) => {
                all.push(o);
            },
            None => {},
        }
        let ghost head = all@;
        let mut arrived = arrived;
        let ghost arr_all = arrived@;
        let mut k: usize = 0;
        while arrived.len() > 0
            invariant
                arr_all.len() <= 0x20000000,
                k + arrived@.len() == arr_all.len(),
                arrived@ =~= arr_all.subrange(k as int, arr_all.len() as int),
                all@ =~= head + arr_all.subrange(0, k as int),
                forall|j: int| 0 <= j < arr_all.len() ==> (#[trigger] arr_all[j]).wf(),
                forall|j: int| 0 <= j < head.len() ==> (#[trigger] head[j]).wf(),
            decreases arrived@.len(),
        {
            let b = arrived.remove(0);
            proof {
                assert(b == arr_all[k as int]);
            }
            all.push(b);
            k = k + 1;
            proof {
                assert(arrived@ =~= arr_all.subrange(k as int, arr_all.len() as int));
                assert(arr_all.subrange(0, k as int) =~= arr_all.subrange(0, k - 1).push(b));
                assert(all@ =~= head + arr_all.subrange(0, k as int));
            }
        }
        proof {
            assert(arr_all.subrange(0, arr_all.len() as int) =~= arr_all);
            assert(all@ =~= cands);
        }
        new_brain = Some(combine(rng, all));
    } else if occ_count == 0 && arrived.len() == 1 {
        let mut arrived = arrived;
        let b = arrived.remove(0);
        proof {
            assert(b == cands[0]);
        }
        new_brain = Some(b);
    } else {
        new_brain = occ;
    }
    // mutation of whoever holds the cell now
    let ghost pre_mutation = new_brain;
    new_brain = match new_brain {
        Some(mut b) => {
            if rng.chance_ppm(config.mutation_ppm) {
                b.mutate(rng);
            }
            Some(b)
        },
        None => None,
    };
    // a new agent may appear in an empty cell, with its endowment
    let mut spawn_extra: u32 = 0;
    if new_brain.is_none() && rng.chance_ppm(config.spawn_ppm) {
        new_brain = Some(Brain::random(rng));
        spawn_extra = SPAWN_FOOD;
    }
    // food regeneration
    let mut regen_extra: u32 = 0;
    match cell.ty {
        CellType::Source => {
            if rng.chance_ppm(config.cornucopia_food_ppm) {
                regen_extra = config.cornucopia_bounty;
            }
        },
        _ => {
            if rng.chance_ppm(config.general_food_ppm) {
                regen_extra = 1;
            }
        },
    }
    let base: u32 = cell.food - diff.consume;
    let total_food: u64 = base as u64 + food_in + spawn_extra as u64 + regen_extra as u64;
    let new_food: u32 = if total_food > (u32::MAX as u64) {
        u32::MAX
    } else {
        total_food as u32
    };
    let signal: i64 = match &new_brain {
        Some(b) => b.signal(),
        None => 0,
    };
    let r = Cell {
        food: new_food,
        money: new_money,
        ty: cell.ty,
        signal,
        brain: new_brain,
        trade: diff.trade,
    };
    proof {
        let re = regen_extra as int;
        // the endowment is paid exactly when a fresh agent appeared
        assert(spawn_extra as int == spawn_endowment(diff, all_moves, r));
        assert((re == 0 || re == 1 || re == config.cornucopia_bounty as int) && r.food as int
            == sat_u32(
            cell.food - diff.consume + sum_moves_food(all_moves) + spawn_endowment(
                diff,
                all_moves,
                r,
            ) + re,
        ));
        // the occupant's genome comes from the candidates
        if cands.len() == 1 {
            match (&pre_mutation, &r.brain) {
                (Some(c), Some(b)) => {
                    assert(crate::dna::dna_evolves(
                        c.code.sequence@,
                        c.code.entries@,
                        b.code.sequence@,
                        b.code.entries@,
                    ));
                },
                _ => {},
            }
        }
        if cands.len() >= 2 {
            match (&pre_mutation, &r.brain) {
                (Some(c), Some(b)) => {
                    assert(crate::dna::crossover_post(codes_of(cands), c.code)
                        && crate::dna::dna_evolves(
                        c.code.sequence@,
                        c.code.entries@,
                        b.code.sequence@,
                        b.code.entries@,
                    ));
                },
                _ => {},
            }
        }
    }
    r
}

/// Every brain carried by well-formed payloads is well formed.
proof fn lemma_arriving_wf(moves: Seq<Move>)
    requires
        forall|j: int|
            0 <= j < moves.len() ==> match (#[trigger] moves[j]).brain {
                Some(b) => b.wf(),
                None => true,
            },
    ensures
        forall|j: int|
            0 <= j < arriving_brains(moves).len() ==> (#[trigger] arriving_brains(moves)[j]).wf(),
        arriving_brains(moves).len() <= moves.len(),
    decreases moves.len(),
{
    if moves.len() > 0 {
        assert(moves.drop_last() =~= moves.subrange(0, moves.len() - 1));
        assert(forall|j: int|
            0 <= j < moves.drop_last().len() ==> match (#[trigger] moves.drop_last()[j]).brain {
                Some(b) => b.wf(),
                None => true,
            });
        lemma_arriving_wf(moves.drop_last());
    }
}


/// Spend over a list of diffs.
pub open spec fn sum_spend(diffs: Seq<Diff>) -> int
    decreases diffs.len(),
{
    if diffs.len() == 0 {
        0
    } else {
        diffs.last().spend + sum_spend(diffs.drop_last())
    }
}

/// Money sitting in per-target payload lists.
pub open spec fn sum_inc_money(vs: Seq<Vec<Move>>) -> int
    decreases vs.len(),
{
    if vs.len() == 0 {
        0
    } else {
        sum_moves_money(vs.last()@) + sum_inc_money(vs.drop_last())
    }
}

/// Prefix sums over diffs extend one diff at a time.
proof fn lemma_sum_spend_step(diffs: Seq<Diff>, i: int)
    requires
        0 <= i < diffs.len(),
    ensures
        sum_spend(diffs.subrange(0, i + 1)) == sum_spend(diffs.subrange(0, i)) + diffs[i].spend,
{
    let pre = diffs.subrange(0, i);
    let now = diffs.subrange(0, i + 1);
    assert(now.drop_last() =~= pre);
    assert(now.last() == diffs[i]);
}

/// Prefix sums over payload lists extend one list at a time.
proof fn lemma_sum_inc_step(vs: Seq<Vec<Move>>, i: int)
    requires
        0 <= i < vs.len(),
    ensures
        sum_inc_money(vs.subrange(0, i + 1)) == sum_inc_money(vs.subrange(0, i))
            + sum_moves_money(vs[i]@),
{
    let pre = vs.subrange(0, i);
    let now = vs.subrange(0, i + 1);
    assert(now.drop_last() =~= pre);
    assert(now.last() == vs[i]);
}

/// Replacing one payload list shifts the total by the difference.
proof fn lemma_sum_inc_update(vs: Seq<Vec<Move>>, t: int, v: Vec<Move>)
    requires
        0 <= t < vs.len(),
    ensures
        sum_inc_money(vs.update(t, v)) == sum_inc_money(vs) - sum_moves_money(vs[t]@)
            + sum_moves_money(v@),
    decreases vs.len(),
{
    if vs.len() > 0 {
        if t == vs.len() - 1 {
            assert(vs.update(t, v).drop_last() =~= vs.drop_last());
            assert(vs.update(t, v).last() == v);
        } else {
            assert(vs.update(t, v).drop_last() =~= vs.drop_last().update(t, v));
            assert(vs.update(t, v).last() == vs.last());
            lemma_sum_inc_update(vs.drop_last(), t, v);
        }
    }
}

/// Incoming money totals are nonnegative and bound each list's share.
proof fn lemma_sum_inc_bounds(vs: Seq<Vec<Move>>, t: int)
    requires
        0 <= t < vs.len(),
    ensures
        sum_moves_money(vs[t]@) <= sum_inc_money(vs),
        sum_inc_money(vs) >= 0,
    decreases vs.len(),
{
    lemma_sum_inc_nonneg(vs);
    if vs.len() > 0 {
        lemma_sum_moves_nonneg(vs.last()@);
        if t == vs.len() - 1 {
            lemma_sum_inc_nonneg(vs.drop_last());
        } else {
            lemma_sum_inc_bounds(vs.drop_last(), t);
        }
    }
}

proof fn lemma_sum_inc_nonneg(vs: Seq<Vec<Move>>)
    ensures
        sum_inc_money(vs) >= 0,
    decreases vs.len(),
{
    if vs.len() > 0 {
        lemma_sum_moves_nonneg(vs.last()@);
        lemma_sum_inc_nonneg(vs.drop_last());
    }
}

proof fn lemma_sum_moves_nonneg(moves: Seq<Move>)
    ensures
        sum_moves_money(moves) >= 0,
    decreases moves.len(),
{
    if moves.len() > 0 {
        lemma_sum_moves_nonneg(moves.drop_last());
    }
}

/// What every cell can still cover after its diff: money minus spend,
/// summed.
pub open spec fn sum_avail(cells: Seq<Cell>, diffs: Seq<Diff>) -> int
    decreases cells.len(),
{
    if cells.len() == 0 || diffs.len() == 0 {
        0
    } else {
        (cells.last().money - diffs.last().spend) + sum_avail(cells.drop_last(), diffs.drop_last())
    }
}

/// The available sum splits into the money and spend sums, each cell's
/// share is nonnegative when spends are covered, and each share bounds
/// the total from below.
proof fn lemma_sum_avail(cells: Seq<Cell>, diffs: Seq<Diff>, i: int)
    requires
        cells.len() == diffs.len(),
        0 <= i < cells.len(),
        forall|j: int| 0 <= j < diffs.len() ==> (#[trigger] diffs[j]).spend <= cells[j].money,
    ensures
        sum_avail(cells, diffs) == sum_money(cells) - sum_spend(diffs),
        cells[i].money - diffs[i].spend <= sum_avail(cells, diffs),
        sum_avail(cells, diffs) >= 0,
    decreases cells.len(),
{
    lemma_sum_avail_nonneg(cells, diffs);
    lemma_sum_avail_split(cells, diffs);
    if cells.len() > 0 {
        if i == cells.len() - 1 {
            lemma_sum_avail_nonneg(cells.drop_last(), diffs.drop_last());
        } else {
            assert(forall|j: int|
                0 <= j < diffs.drop_last().len() ==> (#[trigger] diffs.drop_last()[j]).spend
                    <= cells.drop_last()[j].money);
            lemma_sum_avail(cells.drop_last(), diffs.drop_last(), i);
        }
    }
}

proof fn lemma_sum_avail_nonneg(cells: Seq<Cell>, diffs: Seq<Diff>)
    requires
        cells.len() == diffs.len(),
        forall|j: int| 0 <= j < diffs.len() ==> (#[trigger] diffs[j]).spend <= cells[j].money,
    ensures
        sum_avail(cells, diffs) >= 0,
    decreases cells.len(),
{
    if cells.len() > 0 {
        assert(forall|j: int|
            0 <= j < diffs.drop_last().len() ==> (#[trigger] diffs.drop_last()[j]).spend
                <= cells.drop_last()[j].money);
        lemma_sum_avail_nonneg(cells.drop_last(), diffs.drop_last());
    }
}

proof fn lemma_sum_avail_split(cells: Seq<Cell>, diffs: Seq<Diff>)
    requires
        cells.len() == diffs.len(),
    ensures
        sum_avail(cells, diffs) == sum_money(cells) - sum_spend(diffs),
    decreases cells.len(),
{
    if cells.len() > 0 {
        lemma_sum_avail_split(cells.drop_last(), diffs.drop_last());
    }
}

/// The torus neighbor of cell `i` one step in direction `d`.
pub open spec fn spec_neighbor_index(i: int, d: crate::direction::Direction, w: int, h: int) -> int {
    let x = i % w;
    let y = i / w;
    let dx = crate::direction::spec_dir_delta(d).0;
    let dy = crate::direction::spec_dir_delta(d).1;
    let nx = (x + dx + w) % w;
    let ny = (y + dy + h) % h;
    ny * w + nx
}

/// Compute the torus neighbor of a cell.
pub fn neighbor_index(i: usize, d: crate::direction::Direction, w: usize, h: usize) -> (r: usize)
    requires
        w >= 1,
        h >= 1,
        i < w * h,
        w * h <= usize::MAX,
    ensures
        r == spec_neighbor_index(i as int, d, w as int, h as int),
        r < w * h,
{
    let x = i % w;
    let y = i / w;
    proof {
        assert(y < h) by (nonlinear_arith)
            requires
                w >= 1,
                h >= 1,
                i < w * h,
                y == i / w,
        ;
        assert(x < w);
    }
    let (dx, dy) = crate::direction::dir_delta(d);
    let nx = if dx < 0 {
        if x == 0 {
            w - 1
        } else {
            x - 1
        }
    } else if dx > 0 {
        if x + 1 == w {
            0
        } else {
            x + 1
        }
    } else {
        x
    };
    let ny = if dy < 0 {
        if y == 0 {
            h - 1
        } else {
            y - 1
        }
    } else if dy > 0 {
        if y + 1 == h {
            0
        } else {
            y + 1
        }
    } else {
        y
    };
    proof {
        let xi = x as int;
        let yi = y as int;
        let wi = w as int;
        let hi = h as int;
        let dxi = crate::direction::spec_dir_delta(d).0;
        let dyi = crate::direction::spec_dir_delta(d).1;
        assert(nx as int == (xi + dxi + wi) % wi) by {
            vstd::arithmetic::div_mod::lemma_mod_multiples_vanish(1, xi + dxi, wi);
            if dxi < 0 {
                if xi == 0 {
                    vstd::arithmetic::div_mod::lemma_small_mod((w - 1) as nat, w as nat);
                } else {
                    vstd::arithmetic::div_mod::lemma_small_mod((x - 1) as nat, w as nat);
                }
            } else if dxi > 0 {
                if xi + 1 == wi {
                    vstd::arithmetic::div_mod::lemma_mod_self_0(wi);
                } else {
                    vstd::arithmetic::div_mod::lemma_small_mod((x + 1) as nat, w as nat);
                }
            } else {
                vstd::arithmetic::div_mod::lemma_small_mod(x as nat, w as nat);
            }
        }
        assert(ny as int == (yi + dyi + hi) % hi) by {
            vstd::arithmetic::div_mod::lemma_mod_multiples_vanish(1, yi + dyi, hi);
            if dyi < 0 {
                if yi == 0 {
                    vstd::arithmetic::div_mod::lemma_small_mod((h - 1) as nat, h as nat);
                } else {
                    vstd::arithmetic::div_mod::lemma_small_mod((y - 1) as nat, h as nat);
                }
            } else if dyi > 0 {
                if yi + 1 == hi {
                    vstd::arithmetic::div_mod::lemma_mod_self_0(hi);
                } else {
                    vstd::arithmetic::div_mod::lemma_small_mod((y + 1) as nat, h as nat);
                }
            } else {
                vstd::arithmetic::div_mod::lemma_small_mod(y as nat, h as nat);
            }
        }
        let nyi = ny as int;
        let nxi = nx as int;
        assert(nyi * wi + nxi < hi * wi && nyi * wi + nxi < wi * hi && nyi * wi >= 0) by (nonlinear_arith)
            requires
                0 <= nyi < hi,
                0 <= nxi < wi,
                wi >= 1,
                hi >= 1,
        ;
        assert((ny as int) * wi + nx as int == spec_neighbor_index(i as int, d, wi, hi));
    }
    ny * w + nx
}

/// The eight neighbor views of cell `i`, in counter-clockwise direction
/// order.
pub fn gather_senses(cells: &Vec<Cell>, i: usize, w: usize, h: usize) -> (r: Vec<Sense>)
    requires
        w >= 1,
        h >= 1,
        i < w * h,
        w * h <= usize::MAX,
        cells@.len() == w * h,
    ensures
        r@.len() == 8,
        forall|d: int|
            0 <= d < 8 ==> (#[trigger] r@[d]) == Sense::spec_of_cell(
                cells@[spec_neighbor_index(
                    i as int,
                    crate::direction::spec_dir_from_index(d),
                    w as int,
                    h as int,
                )],
            ),
{
    let mut r: Vec<Sense> = Vec::new();
    let mut d: usize = 0;
    while d < 8
        invariant
            w >= 1,
            h >= 1,
            i < w * h,
            w * h <= usize::MAX,
            cells@.len() == w * h,
            d <= 8,
            r@.len() == d,
            forall|k: int|
                0 <= k < d ==> (#[trigger] r@[k]) == Sense::spec_of_cell(
                    cells@[spec_neighbor_index(
                        i as int,
                        crate::direction::spec_dir_from_index(k),
                        w as int,
                        h as int,
                    )],
                ),
        decreases 8 - d,
    {
        let dir = crate::direction::dir_from_index(d);
        let ni = neighbor_index(i, dir, w, h);
        r.push(Sense::of_cell(&cells[ni]));
        d = d + 1;
    }
    r
}


/// The eight neighbor views a cell senses, in counter-clockwise
/// direction order.
pub open spec fn spec_senses_of(cells: Seq<Cell>, i: int, w: int, h: int) -> Seq<Sense> {
    Seq::new(
        8,
        |d: int|
            Sense::spec_of_cell(
                cells[spec_neighbor_index(i, crate::direction::spec_dir_from_index(d), w, h)],
            ),
    )
}

/// A cell row with every trade slot cleared.
pub open spec fn spec_clear_trades(cells: Seq<Cell>) -> Seq<Cell> {
    Seq::new(cells.len(), |i: int| Cell { trade: None, ..cells[i] })
}

/// The orders a grid's pending trade intents produce, in cell order,
/// rates and quantities clamped as they enter the market.
pub open spec fn spec_trades_of(cells: Seq<Cell>) -> Seq<crate::market::Order>
    decreases cells.len(),
{
    if cells.len() == 0 {
        Seq::empty()
    } else {
        spec_trades_of(cells.drop_last()) + (match cells.last().trade {
            Some(t) => seq![
                crate::market::Order {
                    index: (cells.len() - 1) as usize,
                    rate: spec_clamp_trade(t.rate as i64),
                    food: spec_clamp_trade(t.food as i64),
                },
            ],
            None => Seq::<crate::market::Order>::empty(),
        })
    }
}

/// A cell row after the wall sweep: wall cells keep no money.
pub open spec fn spec_sweep(cells: Seq<Cell>) -> Seq<Cell> {
    Seq::new(
        cells.len(),
        |i: int|
            if cells[i].ty == CellType::Wall {
                Cell { money: 0, ..cells[i] }
            } else {
                cells[i]
            },
    )
}

/// The money the sweep reclaims from wall cells.
pub open spec fn swept_money(cells: Seq<Cell>) -> int
    decreases cells.len(),
{
    if cells.len() == 0 {
        0
    } else {
        swept_money(cells.drop_last()) + (if cells.last().ty == CellType::Wall {
            cells.last().money as int
        } else {
            0int
        })
    }
}

/// What a cell displays: walls their fixed color, agents their hue, open
/// ground its resources.
#[derive(Clone, Copy, PartialEq, Eq, Structural, Debug)]
pub enum CellColor {
    Wall,
    Agent(u32),
    Resources(u32, u32),
}

/// The display class of a cell.
pub open spec fn spec_cell_color(c: Cell) -> CellColor {
    if c.ty == CellType::Wall {
        CellColor::Wall
    } else {
        match c.brain {
            Some(b) => CellColor::Agent(b.color),
            None => CellColor::Resources(c.food, c.money),
        }
    }
}

/// How many cells hold an agent.
pub open spec fn count_occupied(cells: Seq<Cell>) -> int
    decreases cells.len(),
{
    if cells.len() == 0 {
        0
    } else {
        (if cells.last().brain is Some {
            1int
        } else {
            0int
        }) + count_occupied(cells.drop_last())
    }
}

/// The data the rendering shell needs for one frame: per cell a display
/// color and a lineage depth, the number of occupied cells, and how many
/// ticks this frame stands for.
#[derive(Debug)]
pub struct SimView {
    pub colors: Vec<(CellColor, usize)>,
    pub cells: usize,
    pub ticks: usize,
}

/// Commands the simulation accepts between ticks. Probabilities are in
/// parts per million.
#[derive(Clone, Copy, PartialEq, Eq, Structural, Debug)]
pub enum ToSim {
    Tick(usize),
    SetSpawnChance(u32),
    SetMutationChance(u32),
    SetGeneralFoodChance(u32),
    SetCornucopiaBounty(u32),
    SetCornucopiaChance(u32),
}

/// What the simulation reports: a frame, or the market telemetry of one
/// tick.
#[derive(Debug)]
pub enum FromSim {
    View(SimView),
    Market {
        bid: Option<i32>,
        ask: Option<i32>,
        reserve: u32,
        buy_volume: u32,
        sell_volume: u32,
    },
}

/// The whole simulation: the grid, the conserved reserve, the resting
/// order book, the last tick's market telemetry, the tunable rates and
/// the random stream.
pub struct Sim {
    pub width: usize,
    pub height: usize,
    pub cells: Vec<Cell>,
    pub reserve: u32,
    pub book: crate::market::Book,
    pub last_bid: Option<i32>,
    pub last_ask: Option<i32>,
    pub buy_volume: u32,
    pub sell_volume: u32,
    pub config: Config,
    pub rng: SimRng,
}

/// One matching pass explains a tick's market outputs: the orders are
/// exactly the pending intents of a post-update grid `mid` (in some
/// shuffled order), the pass ran against the books and the reserve the
/// tick began with, and the tick ends with the grid the pass produced,
/// wall money swept back to the reserve, and the pass's volume counters.
pub open spec fn tick_market_evidence(
    pre: Sim,
    post: Sim,
    mid: Seq<Cell>,
    orders: Seq<crate::market::Order>,
) -> bool {
    let stf = crate::market::spec_market_from(
        crate::market::market_entry(spec_clear_trades(mid), pre.book, pre.reserve),
        orders,
        0,
    );
    &&& orders.to_multiset() == spec_trades_of(mid).to_multiset()
    &&& post.buy_volume as int == stf.buy_volume
    &&& post.sell_volume as int == stf.sell_volume
    &&& crate::market::heap_orders(post.book.bids) == stf.bids
    &&& crate::market::heap_orders(post.book.asks) == stf.asks
    &&& post.cells@ == spec_sweep(stf.cells)
    &&& post.reserve as int == stf.reserve + swept_money(stf.cells)
}

/// The two cellular-automaton phases explain the grid the market then
/// cleared: every cell of the old grid produced its step diff and
/// payloads from its own neighborhood, the deliveries carried exactly
/// the money the diffs spent, and every cell of `mid` is an update of
/// the old cell under its diff and its delivered payloads.
pub open spec fn tick_phase_evidence(
    pre: Sim,
    mid: Seq<Cell>,
    diffs: Seq<Diff>,
    outs: Seq<Vec<Move>>,
    deliveries: Seq<Vec<Move>>,
) -> bool {
    let n = pre.cells@.len();
    &&& diffs.len() == n
    &&& outs.len() == n
    &&& deliveries.len() == n
    &&& mid.len() == n
    &&& forall|i: int|
        0 <= i < n ==> step_post(
            pre.cells@[i],
            spec_senses_of(pre.cells@, i, pre.width as int, pre.height as int),
            #[trigger] diffs[i],
            outs[i]@,
        )
    &&& forall|i: int| 0 <= i < n ==> step_accounting(pre.cells@[i], #[trigger] diffs[i], outs[i]@)
    &&& sum_inc_money(deliveries) == sum_spend(diffs)
    &&& forall|i: int|
        0 <= i < n ==> update_post(
            pre.cells@[i],
            #[trigger] diffs[i],
            deliveries[i]@,
            pre.config,
            mid[i],
        )
}

impl Sim {
    /// The conserved money total: one reserve share per grid cell.
    pub open spec fn money_target(self) -> int {
        self.width * self.height * (RESERVE_MULTIPLIER as int)
    }

    /// Between ticks: the grid has its stated shape, every cell is well
    /// formed, walls hold neither agents nor money, the resting book
    /// addresses the grid, and all money on the grid plus the reserve
    /// equals the conserved target.
    pub open spec fn wf(self) -> bool {
        &&& self.width >= 1
        &&& self.height >= 1
        &&& self.cells@.len() == self.width * self.height
        &&& self.width * self.height <= usize::MAX
        &&& self.money_target() <= u32::MAX
        &&& sum_money(self.cells@) + self.reserve == self.money_target()
        &&& forall|i: int| 0 <= i < self.cells@.len() ==> (#[trigger] self.cells@[i]).wf()
        &&& forall|i: int|
            0 <= i < self.cells@.len() ==> ((#[trigger] self.cells@[i]).ty == CellType::Wall
                ==> self.cells@[i].money == 0)
        &&& forall|i: int|
            0 <= i < self.cells@.len() ==> (#[trigger] self.cells@[i]).signal == (
            match self.cells@[i].brain {
                Some(b) => b.memory@[0],
                None => 0i64,
            })
        &&& self.book.wf(self.cells@.len() as int)
    }

    /// A fresh simulation: a seeded random stream, a grid whose walls are
    /// carved by the maze generator at the chosen openness, source cells
    /// scattered at the chosen density, no agents, no food or money on the
    /// grid, and the whole money supply in the reserve.
    pub fn new(width: usize, height: usize, openness: usize, cornucopia_ppm: u32, seed: u64) -> (r:
        Sim)
        requires
            width >= 1,
            height >= 1,
            openness < usize::MAX,
            width * height * (RESERVE_MULTIPLIER as int) <= u32::MAX,
        ensures
            r.wf(),
            r.width == width,
            r.height == height,
            r.reserve as int == width * height * (RESERVE_MULTIPLIER as int),
            r.config == Config::initial_spec(),
            r.buy_volume == 0,
            r.sell_volume == 0,
            r.last_bid is None,
            r.last_ask is None,
            forall|i: int|
                0 <= i < r.cells@.len() ==> (#[trigger] r.cells@[i]).money == 0
                    && r.cells@[i].food == 0 && r.cells@[i].brain is None && r.cells@[i].trade
                    is None,
    {
        proof {
            let wi = width as int;
            let hi = height as int;
            assert(wi * hi <= wi * hi * (RESERVE_MULTIPLIER as int) && wi * hi >= 1)
                by (nonlinear_arith)
                requires
                    wi >= 1,
                    hi >= 1,
            ;
        }
        let mut rng = SimRng::from_seed(seed);
        let n = width * height;
        let reserve: u32 = ((n as u64) * (RESERVE_MULTIPLIER as u64)) as u32;
        // carve the wall pattern on the coarse openness grid
        let open_scale = openness + 1;
        let open_w = width / open_scale;
        let open_h = height / open_scale;
        let mut walls: Vec<bool> = Vec::new();
        if open_w >= 1 && open_h >= 1 {
            proof {
                let wi = width as int;
                let hi = height as int;
                let osi = open_scale as int;
                vstd::arithmetic::div_mod::lemma_div_nonincreasing(wi, osi);
                vstd::arithmetic::div_mod::lemma_div_nonincreasing(hi, osi);
                assert(hi * 64 <= wi * hi * 64 && wi * 64 <= wi * hi * 64) by (nonlinear_arith)
                    requires
                        wi >= 1,
                        hi >= 1,
                ;
                let owi = open_w as int;
                let ohi = open_h as int;
                assert(ohi * owi <= hi * wi) by (nonlinear_arith)
                    requires
                        1 <= owi <= wi,
                        1 <= ohi <= hi,
                ;
                assert(hi * wi == wi * hi) by (nonlinear_arith);
            }
            walls = crate::gridgen::generate_walls(&mut rng, (open_h, open_w));
        }
        let mut cells: Vec<Cell> = Vec::new();
        let mut i: usize = 0;
        while i < n
            invariant
                n == width * height,
                width >= 1,
                height >= 1,
                n <= usize::MAX,
                i <= n,
                cells@.len() == i,
                open_scale == openness + 1,
                open_scale >= 1,
                open_w == width / open_scale,
                open_h == height / open_scale,
                open_w >= 1 && open_h >= 1 ==> walls@.len() == open_h * open_w,
                sum_money(cells@) == 0,
                forall|j: int|
                    0 <= j < i ==> (#[trigger] cells@[j]).money == 0 && cells@[j].food == 0
                        && cells@[j].brain is None && cells@[j].trade is None && cells@[j].signal
                        == 0 && cells@[j].wf(),
            decreases n - i,
        {
            let mut ty = if rng.chance_ppm(cornucopia_ppm) {
                CellType::Source
            } else {
                CellType::Empty
            };
            if open_w >= 1 && open_h >= 1 {
                let x = i % width;
                let y = i / width;
                let ox = x / open_scale;
                let oy = y / open_scale;
                if ox < open_w && oy < open_h {
                    let wl = walls.len();
                    proof {
                        let oxi = ox as int;
                        let oyi = oy as int;
                        let owi = open_w as int;
                        let ohi = open_h as int;
                        assert(oyi * owi + oxi < ohi * owi && oyi * owi >= 0) by (nonlinear_arith)
                            requires
                                0 <= oyi < ohi,
                                0 <= oxi < owi,
                                owi >= 1,
                                ohi >= 1,
                        ;
                        assert(walls@.len() == wl);
                    }
                    if walls[oy * open_w + ox] {
                        ty = CellType::Wall;
                    }
                }
            }
            let ghost pre = cells@;
            cells.push(
                Cell { food: 0, money: 0, ty, signal: 0, brain: None, trade: None },
            );
            proof {
                assert(cells@.drop_last() =~= pre);
            }
            i = i + 1;
        }
        let r = Sim {
            width,
            height,
            cells,
            reserve,
            book: crate::market::Book::new(),
            last_bid: None,
            last_ask: None,
            buy_volume: 0,
            sell_volume: 0,
            config: Config::initial(),
            rng,
        };
        r
    }

    /// The last tick's market telemetry.
    pub fn market(&self) -> (r: FromSim)
        ensures
            r == (FromSim::Market {
                bid: self.last_bid,
                ask: self.last_ask,
                reserve: self.reserve,
                buy_volume: self.buy_volume,
                sell_volume: self.sell_volume,
            }),
    {
        FromSim::Market {
            bid: self.last_bid,
            ask: self.last_ask,
            reserve: self.reserve,
            buy_volume: self.buy_volume,
            sell_volume: self.sell_volume,
        }
    }

    /// A frame for the rendering shell: per cell its display class and
    /// its occupant's lineage depth, plus the agent count.
    pub fn view(&self, ticks: usize) -> (r: SimView)
        requires
            self.wf(),
        ensures
            r.colors@.len() == self.cells@.len(),
            forall|i: int|
                0 <= i < self.cells@.len() ==> (#[trigger] r.colors@[i]).0 == spec_cell_color(
                    self.cells@[i],
                ) && r.colors@[i].1 == (match self.cells@[i].brain {
                    Some(b) => b.generation,
                    None => 0,
                }),
            r.cells as int == count_occupied(self.cells@),
            r.ticks == ticks,
    {
        let mut colors: Vec<(CellColor, usize)> = Vec::new();
        let mut occupied: usize = 0;
        let mut i: usize = 0;
        while i < self.cells.len()
            invariant
                self.wf(),
                i <= self.cells@.len(),
                colors@.len() == i,
                forall|j: int|
                    0 <= j < i ==> (#[trigger] colors@[j]).0 == spec_cell_color(self.cells@[j])
                        && colors@[j].1 == (match self.cells@[j].brain {
                        Some(b) => b.generation,
                        None => 0,
                    }),
                occupied as int == count_occupied(self.cells@.subrange(0, i as int)),
                occupied <= i,
            decreases self.cells@.len() - i,
        {
            let c = &self.cells[i];
            let color = if matches!(c.ty, CellType::Wall) {
                CellColor::Wall
            } else {
                match &c.brain {
                    Some(b) => CellColor::Agent(b.color()),
                    None => CellColor::Resources(c.food, c.money),
                }
            };
            let generation: usize = match &c.brain {
                Some(b) => b.generation,
                None => 0,
            };
            if c.brain.is_some() {
                occupied = occupied + 1;
            }
            colors.push((color, generation));
            proof {
                let pre = self.cells@.subrange(0, i as int);
                let now = self.cells@.subrange(0, i + 1);
                assert(now.drop_last() =~= pre);
                assert(now.last() == self.cells@[i as int]);
            }
            i = i + 1;
        }
        proof {
            assert(self.cells@.subrange(0, self.cells@.len() as int) =~= self.cells@);
        }
        SimView { colors, cells: occupied, ticks }
    }

    /// Apply one parameter command; `Tick` is driven by the caller.
    pub fn apply_command(&mut self, cmd: &ToSim)
        ensures
            final(self).width == old(self).width,
            final(self).height == old(self).height,
            final(self).cells@ == old(self).cells@,
            final(self).reserve == old(self).reserve,
            final(self).book == old(self).book,
            match *cmd {
                ToSim::Tick(_) => final(self).config == old(self).config,
                ToSim::SetSpawnChance(p) => final(self).config == (Config {
                    spawn_ppm: p,
                    ..old(self).config
                }),
                ToSim::SetMutationChance(p) => final(self).config == (Config {
                    mutation_ppm: p,
                    ..old(self).config
                }),
                ToSim::SetGeneralFoodChance(p) => final(self).config == (Config {
                    general_food_ppm: p,
                    ..old(self).config
                }),
                ToSim::SetCornucopiaBounty(v) => final(self).config == (Config {
                    cornucopia_bounty: v,
                    ..old(self).config
                }),
                ToSim::SetCornucopiaChance(p) => final(self).config == (Config {
                    cornucopia_food_ppm: p,
                    ..old(self).config
                }),
            },
    {
        match cmd {
            ToSim::Tick(_) => {},
            ToSim::SetSpawnChance(p) => {
                self.config.spawn_ppm = *p;
            },
            ToSim::SetMutationChance(p) => {
                self.config.mutation_ppm = *p;
            },
            ToSim::SetGeneralFoodChance(p) => {
                self.config.general_food_ppm = *p;
            },
            ToSim::SetCornucopiaBounty(v) => {
                self.config.cornucopia_bounty = *v;
            },
            ToSim::SetCornucopiaChance(p) => {
                self.config.cornucopia_food_ppm = *p;
            },
        }
    }

    /// Advance the simulation one tick: step every cell against the old
    /// grid, deliver the payloads, update every cell, clear the collected
    /// trade intents through the market, and sweep wall money back into
    /// the reserve. Money over the grid plus the reserve is conserved
    /// exactly, and no wall cell ends the tick holding money or an agent.
    pub fn tick(self) -> (r: Sim)
        requires
            self.wf(),
        ensures
            r.wf(),
            r.width == self.width,
            r.height == self.height,
            r.config == self.config,
            sum_money(r.cells@) + r.reserve == r.width * r.height * (RESERVE_MULTIPLIER as int),
            forall|i: int|
                0 <= i < r.cells@.len() ==> ((#[trigger] r.cells@[i]).ty == CellType::Wall
                    ==> r.cells@[i].money == 0 && r.cells@[i].brain is None),
            forall|i: int| 0 <= i < r.cells@.len() ==> (#[trigger] r.cells@[i]).trade is None,
            forall|i: int|
                0 <= i < r.cells@.len() ==> (#[trigger] r.cells@[i]).ty == self.cells@[i].ty,
            crate::market::is_top_rate(
                crate::market::heap_orders(r.book.bids),
                r.last_bid,
                true,
            ),
            crate::market::is_top_rate(
                crate::market::heap_orders(r.book.asks),
                r.last_ask,
                false,
            ),
            exists|
                mid: Seq<Cell>,
                orders: Seq<crate::market::Order>,
                diffs: Seq<Diff>,
                outs: Seq<Vec<Move>>,
                deliveries: Seq<Vec<Move>>,
            |
                #![trigger tick_market_evidence(self, r, mid, orders), tick_phase_evidence(self, mid, diffs, outs, deliveries)]
                tick_market_evidence(self, r, mid, orders) && tick_phase_evidence(
                    self,
                    mid,
                    diffs,
                    outs,
                    deliveries,
                ),
    {
        let ghost self0 = self;
        let Sim {
            width,
            height,
            mut cells,
            mut reserve,
            mut book,
            last_bid: _,
            last_ask: _,
            buy_volume: _,
            sell_volume: _,
            config,
            mut rng,
        } = self;
        let n = cells.len();
        let ghost total = self.money_target();
        let ghost cells0 = cells@;
        // step phase: read-only over the whole old grid
        let mut diffs: Vec<Diff> = Vec::new();
        let mut outs: Vec<Vec<Move>> = Vec::new();
        let mut i: usize = 0;
        while i < n
            invariant
                width >= 1,
                height >= 1,
                n == width * height,
                n <= usize::MAX,
                cells@ == cells0,
                n == cells0.len(),
                forall|j: int| 0 <= j < cells0.len() ==> (#[trigger] cells0[j]).wf(),
                i <= n,
                diffs@.len() == i,
                outs@.len() == i,
                forall|j: int|
                    0 <= j < i ==> step_accounting(
                        cells0[j],
                        #[trigger] diffs@[j],
                        outs@[j]@,
                    ),
                forall|j: int|
                    0 <= j < i ==> step_post(
                        cells0[j],
                        spec_senses_of(cells0, j, width as int, height as int),
                        #[trigger] diffs@[j],
                        outs@[j]@,
                    ),
            decreases n - i,
        {
            let senses = gather_senses(&cells, i, width, height);
            proof {
                assert(senses@ =~= spec_senses_of(cells0, i as int, width as int, height as int));
            }
            let (diff, moves) = step(&cells[i], &senses, &mut rng);
            diffs.push(diff);
            outs.push(moves);
            i = i + 1;
        }
        let ghost diffs0 = diffs@;
        let ghost outs0 = outs@;
        // scatter phase: deliver each payload to its target cell
        let mut incoming: Vec<Vec<Move>> = Vec::new();
        let mut i: usize = 0;
        while i < n
            invariant
                i <= n,
                incoming@.len() == i,
                forall|t: int| 0 <= t < i ==> (#[trigger] incoming@[t])@.len() == 0,
            decreases n - i,
        {
            incoming.push(Vec::new());
            i = i + 1;
        }
        proof {
            lemma_sum_inc_empty(incoming@);
            assert(diffs0.subrange(0, 0) =~= Seq::<Diff>::empty());
        }
        let mut outs = outs;
        let mut i: usize = 0;
        while i < n
            invariant
                width >= 1,
                height >= 1,
                n == width * height,
                n <= usize::MAX,
                n == cells0.len(),
                n == diffs0.len(),
                i <= n,
                outs@.len() == n - i,
                forall|j: int|
                    0 <= j < n - i ==> step_accounting(
                        cells0[i + j],
                        diffs0[i + j],
                        (#[trigger] outs@[j])@,
                    ),
                incoming@.len() == n,
                sum_inc_money(incoming@) == sum_spend(diffs0.subrange(0, i as int)),
                forall|t: int| 0 <= t < n ==> (#[trigger] incoming@[t])@.len() <= 8 * i,
                forall|t: int, k: int|
                    #![trigger incoming@[t]@[k]]
                    0 <= t < n && 0 <= k < incoming@[t]@.len() ==> match incoming@[t]@[k].brain {
                        Some(b) => b.wf(),
                        None => true,
                    },
            decreases n - i,
        {
            let mut mvs = outs.remove(0);
            let ghost mvs0 = mvs@;
            proof {
                assert(step_accounting(cells0[i as int], diffs0[i as int], mvs0));
                assert(mvs0.subrange(0, 0) =~= Seq::<Move>::empty());
            }
            let mut d: usize = 0;
            while d < 8
                invariant
                    width >= 1,
                    height >= 1,
                    n == width * height,
                    n <= usize::MAX,
                    i < n,
                    d <= 8,
                    mvs0.len() == 8,
                    mvs@ =~= mvs0.subrange(d as int, 8),
                    forall|k: int|
                        0 <= k < 8 ==> match (#[trigger] mvs0[k]).brain {
                            Some(b) => b.wf(),
                            None => true,
                        },
                    incoming@.len() == n,
                    sum_inc_money(incoming@) == sum_spend(diffs0.subrange(0, i as int))
                        + sum_moves_money(mvs0.subrange(0, d as int)),
                    forall|t: int| 0 <= t < n ==> (#[trigger] incoming@[t])@.len() <= 8 * i + d,
                    forall|t: int, k: int|
                        #![trigger incoming@[t]@[k]]
                        0 <= t < n && 0 <= k < incoming@[t]@.len() ==> match incoming@[t]@[k].brain
                            {
                            Some(b) => b.wf(),
                            None => true,
                        },
                decreases 8 - d,
            {
                let m = mvs.remove(0);
                proof {
                    assert(m == mvs0[d as int]);
                    lemma_sum_moves_step(mvs0, d as int);
                }
                let t = neighbor_index(i, crate::direction::dir_from_index(d), width, height);
                let ghost inc_pre = incoming@;
                let mut v = incoming.remove(t);
                let ghost v0 = v@;
                let ghost m_money = m.money as int;
                v.push(m);
                proof {
                    assert(v@.drop_last() =~= v0);
                    assert(sum_moves_money(v@) == sum_moves_money(v0) + m_money);
                }
                incoming.insert(t, v);
                proof {
                    assert(incoming@ =~= inc_pre.update(t as int, incoming@[t as int]));
                    lemma_sum_inc_update(inc_pre, t as int, incoming@[t as int]);
                    assert(mvs@ =~= mvs0.subrange(d + 1, 8));
                }
                d = d + 1;
            }
            proof {
                assert(mvs0.subrange(0, 8) =~= mvs0);
                lemma_sum_spend_step(diffs0, i as int);
            }
            i = i + 1;
        }
        proof {
            assert(diffs0.subrange(0, n as int) =~= diffs0);
        }
        // update phase: write every cell from its diff and deliveries
        let ghost incoming0 = incoming@;
        let mut new_cells: Vec<Cell> = Vec::new();
        let mut diffs = diffs;
        let mut incoming = incoming;
        let mut i: usize = 0;
        while i < n
            invariant
                n == cells0.len(),
                n == diffs0.len(),
                n == incoming0.len(),
                n <= 0x4000000,
                cells@ == cells0,
                i <= n,
                new_cells@.len() == i,
                diffs@ =~= diffs0.subrange(i as int, n as int),
                incoming@ =~= incoming0.subrange(i as int, n as int),
                forall|j: int| 0 <= j < cells0.len() ==> (#[trigger] cells0[j]).wf(),
                forall|j: int|
                    0 <= j < cells0.len() ==> (#[trigger] cells0[j]).signal == (
                    match cells0[j].brain {
                        Some(b) => b.memory@[0],
                        None => 0i64,
                    }),
                forall|j: int|
                    0 <= j < n ==> (#[trigger] diffs0[j]).spend <= cells0[j].money
                        && diffs0[j].consume <= cells0[j].food && (cells0[j].ty == CellType::Wall
                        ==> diffs0[j].spend == 0 && diffs0[j].brain is None) && (match diffs0[j].brain {
                        Some(b) => b.wf(),
                        None => true,
                    }),
                forall|t: int| 0 <= t < n ==> (#[trigger] incoming0[t])@.len() <= 0x20000000,
                forall|t: int, k: int|
                    #![trigger incoming0[t]@[k]]
                    0 <= t < n && 0 <= k < incoming0[t]@.len() ==> match incoming0[t]@[k].brain {
                        Some(b) => b.wf(),
                        None => true,
                    },
                sum_inc_money(incoming0) == sum_spend(diffs0),
                sum_money(cells0) + reserve == total,
                total <= u32::MAX,
                sum_money(new_cells@) == sum_money(cells0.subrange(0, i as int)) - sum_spend(
                    diffs0.subrange(0, i as int),
                ) + sum_inc_money(incoming0.subrange(0, i as int)),
                forall|j: int|
                    0 <= j < i ==> (#[trigger] new_cells@[j]).wf() && new_cells@[j].ty == cells0[j].ty
                        && (cells0[j].ty == CellType::Wall ==> new_cells@[j].brain is None),
                forall|j: int|
                    0 <= j < i ==> (#[trigger] new_cells@[j]).signal == (
                    match new_cells@[j].brain {
                        Some(b) => b.memory@[0],
                        None => 0i64,
                    }),
                forall|j: int|
                    0 <= j < i ==> update_post(
                        cells0[j],
                        #[trigger] diffs0[j],
                        incoming0[j]@,
                        config,
                        new_cells@[j],
                    ),
            decreases n - i,
        {
            let diff = diffs.remove(0);
            let inc = incoming.remove(0);
            proof {
                assert(diff == diffs0[i as int]);
                assert(inc == incoming0[i as int]);
                // the money this cell ends with cannot exceed the grid total
                lemma_sum_avail(cells0, diffs0, i as int);
                lemma_sum_inc_bounds(incoming0, i as int);
                crate::market::lemma_sum_money_nonneg(cells0);
                assert(cells0[i as int].money - diffs0[i as int].spend + sum_moves_money(
                    incoming0[i as int]@,
                ) <= u32::MAX);
                assert(diffs@ =~= diffs0.subrange(i + 1, n as int));
                assert(incoming@ =~= incoming0.subrange(i + 1, n as int));
            }
            let ghost inc_view = inc@;
            let ghost prev_cells = new_cells@;
            let c = update(&cells[i], diff, inc, &config, &mut rng);
            new_cells.push(c);
            proof {
                let pre_c = cells0.subrange(0, i as int);
                let now_c = cells0.subrange(0, i + 1);
                assert(now_c.drop_last() =~= pre_c);
                assert(now_c.last() == cells0[i as int]);
                lemma_sum_spend_step(diffs0, i as int);
                lemma_sum_inc_step(incoming0, i as int);
                assert(inc_view == incoming0[i as int]@);
                assert(new_cells@.drop_last() =~= prev_cells);
                assert(new_cells@.last() == c);
                assert(c.money as int == cells0[i as int].money - diffs0[i as int].spend
                    + sum_moves_money(incoming0[i as int]@));
                assert(sum_money(new_cells@) == sum_money(prev_cells) + c.money);
            }
            i = i + 1;
        }
        proof {
            assert(cells0.subrange(0, n as int) =~= cells0);
            assert(incoming0.subrange(0, n as int) =~= incoming0);
            assert(sum_money(new_cells@) == sum_money(cells0));
        }
        let ghost mid = new_cells@;
        proof {
            assert(spec_trades_of(mid.subrange(0, 0)) =~= Seq::<crate::market::Order>::empty());
        }
        // collect the trade intents the step phase created
        let mut orders: Vec<crate::market::Order> = Vec::new();
        let mut i: usize = 0;
        while i < n
            invariant
                n == new_cells@.len(),
                i <= n,
                sum_money(new_cells@) + reserve == total,
                total <= u32::MAX,
                crate::market::orders_wf(orders@, n as int),
                forall|j: int|
                    0 <= j < n ==> (#[trigger] new_cells@[j]).wf() && (new_cells@[j].ty
                        == CellType::Wall ==> new_cells@[j].brain is None),
                forall|j: int| 0 <= j < i ==> (#[trigger] new_cells@[j]).trade is None,
                forall|j: int|
                    0 <= j < n ==> (#[trigger] new_cells@[j]).signal == (
                    match new_cells@[j].brain {
                        Some(b) => b.memory@[0],
                        None => 0i64,
                    }),
                n == mid.len(),
                forall|j: int|
                    0 <= j < i ==> (#[trigger] new_cells@[j]) == (Cell { trade: None, ..mid[j] }),
                forall|j: int| i <= j < n ==> (#[trigger] new_cells@[j]) == mid[j],
                orders@ == spec_trades_of(mid.subrange(0, i as int)),
                book.wf(n as int),
            decreases n - i,
        {
            proof {
                assert(mid.subrange(0, i + 1).drop_last() =~= mid.subrange(0, i as int));
                assert(mid.subrange(0, i + 1).last() == mid[i as int]);
            }
            let has_trade = new_cells[i].trade.is_some();
            if has_trade {
                let ghost pre = new_cells@;
                let mut c = crate::market::take_cell(&mut new_cells, i);
                let t = c.trade.unwrap();
                c.trade = None;
                let rate = crate::codon::clamp_trade(t.rate as i64);
                let food = crate::codon::clamp_trade(t.food as i64);
                crate::market::put_cell(&mut new_cells, i, c, Ghost(pre));
                proof {
                    crate::market::lemma_sum_money_update(pre, i as int, new_cells@[i as int]);
                    assert(new_cells@[i as int] == (Cell { trade: None, ..mid[i as int] }));
                }
                orders.push(crate::market::Order { index: i, rate, food });
                proof {
                    assert(orders@ =~= spec_trades_of(mid.subrange(0, i + 1)));
                }
            } else {
                proof {
                    assert(new_cells@[i as int] == (Cell { trade: None, ..mid[i as int] }));
                    assert(orders@ =~= spec_trades_of(mid.subrange(0, i + 1)));
                }
            }
            i = i + 1;
        }
        proof {
            assert(mid.subrange(0, n as int) =~= mid);
            assert(new_cells@ =~= spec_clear_trades(mid));
        }
        // market phase: shuffle the intents, then clear them
        crate::rng::shuffle(&mut rng, &mut orders);
        proof {
            broadcast use vstd::seq_lib::group_to_multiset_ensures;

            assert forall|j: int| 0 <= j < orders@.len() implies {
                &&& (#[trigger] orders@[j]).index < n
                &&& -(crate::codon::TRADE_CLAMP as int) <= orders@[j].rate
                    <= crate::codon::TRADE_CLAMP as int
                &&& -(crate::codon::TRADE_CLAMP as int) <= orders@[j].food
                    <= crate::codon::TRADE_CLAMP as int
            } by {
                assert(orders@.to_multiset().count(orders@[j]) > 0);
            }
        }
        let ghost shuffled = orders@;
        let ghost stf = crate::market::spec_market_from(
            crate::market::market_entry(spec_clear_trades(mid), book, reserve),
            shuffled,
            0,
        );
        let outcome = crate::market::run_market(&mut new_cells, &mut book, &mut reserve, orders);
        let ghost post_market = new_cells@;
        let ghost reserve_pm = reserve as int;
        proof {
            assert(post_market == stf.cells);
            assert(reserve_pm == stf.reserve);
            assert(swept_money(post_market.subrange(0, 0)) == 0);
        }
        let last_bid = book.best_bid();
        let last_ask = book.best_ask();
        // sweep: money stranded on walls returns to the reserve
        let mut i: usize = 0;
        while i < n
            invariant
                n == new_cells@.len(),
                i <= n,
                sum_money(new_cells@) + reserve == total,
                total <= u32::MAX,
                forall|j: int|
                    0 <= j < n ==> (#[trigger] new_cells@[j]).wf() && (new_cells@[j].ty
                        == CellType::Wall ==> new_cells@[j].brain is None),
                forall|j: int| 0 <= j < n ==> (#[trigger] new_cells@[j]).trade is None,
                forall|j: int|
                    0 <= j < n ==> (#[trigger] new_cells@[j]).signal == (
                    match new_cells@[j].brain {
                        Some(b) => b.memory@[0],
                        None => 0i64,
                    }),
                forall|j: int|
                    0 <= j < i ==> ((#[trigger] new_cells@[j]).ty == CellType::Wall
                        ==> new_cells@[j].money == 0),
                n == post_market.len(),
                forall|j: int|
                    0 <= j < i ==> (#[trigger] new_cells@[j]) == (if post_market[j].ty
                        == CellType::Wall {
                        Cell { money: 0, ..post_market[j] }
                    } else {
                        post_market[j]
                    }),
                forall|j: int| i <= j < n ==> (#[trigger] new_cells@[j]) == post_market[j],
                reserve as int == reserve_pm + swept_money(post_market.subrange(0, i as int)),
                book.wf(n as int),
            decreases n - i,
        {
            proof {
                assert(post_market.subrange(0, i + 1).drop_last() =~= post_market.subrange(
                    0,
                    i as int,
                ));
                assert(post_market.subrange(0, i + 1).last() == post_market[i as int]);
            }
            let is_wall = matches!(new_cells[i].ty, CellType::Wall);
            if is_wall {
                let ghost pre = new_cells@;
                proof {
                    crate::market::lemma_sum_money_bounds(pre, i as int);
                }
                let mut c = crate::market::take_cell(&mut new_cells, i);
                reserve = reserve + c.money;
                c.money = 0;
                crate::market::put_cell(&mut new_cells, i, c, Ghost(pre));
                proof {
                    crate::market::lemma_sum_money_update(pre, i as int, new_cells@[i as int]);
                }
            }
            i = i + 1;
        }
        proof {
            assert(post_market.subrange(0, n as int) =~= post_market);
            assert(new_cells@ =~= spec_sweep(post_market));
        }
        let r = Sim {
            width,
            height,
            cells: new_cells,
            reserve,
            book,
            last_bid,
            last_ask,
            buy_volume: outcome.buy_volume,
            sell_volume: outcome.sell_volume,
            config,
            rng,
        };
        proof {
            assert(tick_market_evidence(self0, r, mid, shuffled));
            assert(tick_phase_evidence(self0, mid, diffs0, outs0, incoming0)) by {
                assert(self0.cells@ == cells0);
                assert(self0.config == config);
            }
            assert forall|i: int| 0 <= i < r.cells@.len() implies (#[trigger] r.cells@[i]).ty
                == self0.cells@[i].ty by {
                assert(post_market[i].ty == spec_clear_trades(mid)[i].ty);
                assert(mid[i].ty == cells0[i].ty);
            }
        }
        r
    }
}

/// A row of empty payload lists carries no money.
proof fn lemma_sum_inc_empty(vs: Seq<Vec<Move>>)
    requires
        forall|t: int| 0 <= t < vs.len() ==> (#[trigger] vs[t])@.len() == 0,
    ensures
        sum_inc_money(vs) == 0,
    decreases vs.len(),
{
    if vs.len() > 0 {
        lemma_sum_inc_empty(vs.drop_last());
    }
}

} // verus!
