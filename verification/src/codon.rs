//! The instruction vocabulary of an agent's bytecode, the per-gene outcome
//! (`Action`), and the externally visible outcome of one decision pass
//! (`Decision`).
use vstd::prelude::*;
use crate::direction::Direction;
use crate::direction::dir_from_index;
use crate::rng::SimRng;

verus! {

/// Rates and quantities produced by the `Trade` instruction are clamped to
/// this magnitude before they leave the interpreter.
pub const TRADE_CLAMP: i64 = 10000;

/// One instruction of an agent's bytecode.
///
/// Arithmetic instructions pop two values and push one; `Less` pops two and
/// ends the gene unless the comparison holds; `Copy`, `Read` and `Input`
/// push a value; every index operand is reduced modulo the length of the
/// container it addresses, so no operand an evolved program carries can make
/// execution fault. `Write`, `Move`, `Divide`, `Trade`, `SimpleTrade`,
/// `RotateLeft` and `RotateRight` end the gene with the matching `Action`.
#[derive(Clone, Copy, PartialEq, Eq, Structural, Debug)]
pub enum Codon {
    Add,
    Sub,
    Mul,
    Div,
    Literal(i64),
    Less,
    Copy(u32),
    Read(u32),
    Input(u32),
    Write(u32),
    Move(Direction),
    Divide(Direction),
    Trade,
    SimpleTrade(i32, i32),
    RotateLeft,
    RotateRight,
}

/// What one gene run produced.
#[derive(Clone, Copy, PartialEq, Eq, Structural, Debug)]
pub enum Action {
    Write(u32, i64),
    Move(Direction),
    Divide(Direction),
    Trade(i32, i32),
    RotateLeft,
    RotateRight,
    Nothing,
}

/// What one whole decision pass produced: the action handed to the
/// cellular-automaton step. In `Trade(rate, quantity)` a negative quantity
/// bids to buy food, a positive one asks to sell it.
#[derive(Clone, Copy, PartialEq, Eq, Structural, Debug)]
pub enum Decision {
    Move(Direction),
    Divide(Direction),
    Trade(i32, i32),
    Nothing,
}

impl Action {
    /// The decision a terminal action stands for. `Write`, `RotateLeft` and
    /// `RotateRight` are consumed inside the decision pass and never reach
    /// this conversion.
    pub open spec fn spec_to_decision(self) -> Decision {
        match self {
            Action::Move(d) => Decision::Move(d),
            Action::Divide(d) => Decision::Divide(d),
            Action::Trade(r, f) => Decision::Trade(r, f),
            _ => Decision::Nothing,
        }
    }
}

/// Clamp an interpreter scalar into the trade range.
pub open spec fn spec_clamp_trade(x: i64) -> i32 {
    if x > TRADE_CLAMP {
        TRADE_CLAMP as i32
    } else if x < -TRADE_CLAMP {
        (-TRADE_CLAMP) as i32
    } else {
        x as i32
    }
}

pub fn clamp_trade(x: i64) -> (r: i32)
    ensures
        r == spec_clamp_trade(x),
{
    if x > TRADE_CLAMP {
        TRADE_CLAMP as i32
    } else if x < -TRADE_CLAMP {
        (-TRADE_CLAMP) as i32
    } else {
        x as i32
    }
}

/// Draw a fresh instruction at random, with the distribution the genome
/// sampler and structural mutation share: register operands are drawn
/// within the register file, directions among the four cardinals, and
/// fixed-form trades with a small positive rate and a small signed quantity.
pub fn random_codon(rng: &mut SimRng) -> Codon {
    let k = rng.below(18);
    if k == 0 {
        Codon::Add
    } else if k == 1 {
        Codon::Sub
    } else if k == 2 {
        Codon::Mul
    } else if k == 3 {
        Codon::Div
    } else if k == 4 {
        Codon::Literal((rng.below(4) as i64) - 2)
    } else if k == 5 {
        Codon::Less
    } else if k == 6 {
        Codon::Copy(rng.word())
    } else if k == 7 {
        Codon::Read(rng.below(4) as u32)
    } else if k == 8 {
        Codon::Input(rng.word())
    } else if k == 9 {
        Codon::Write(rng.below(4) as u32)
    } else if k == 10 {
        Codon::Move(random_cardinal(rng))
    } else if k == 11 {
        Codon::Divide(random_cardinal(rng))
    } else if k == 12 {
        Codon::Trade
    } else if k == 13 {
        Codon::RotateLeft
    } else if k == 14 {
        Codon::RotateRight
    } else {
        Codon::SimpleTrade(1 + rng.below(49) as i32, rng.below(20) as i32 - 10)
    }
}

/// One of the four cardinal directions, uniformly.
pub fn random_cardinal(rng: &mut SimRng) -> Direction {
    let k = rng.below(4);
    dir_from_index(2 * k)
}

} // verus!
