//! An agent's controller: a private register file, an orientation in
//! quarter turns, a hue, a lineage counter, and its genome. One decision
//! pass runs every gene in a caller-supplied (normally shuffled) order,
//! folds `Write` results into the registers, consumes rotation actions as
//! orientation changes, keeps the last remaining action as the tentative
//! decision, and finally rotates that decision by the orientation, so a
//! brain's sense of forward is independent of absolute grid orientation.
use vstd::prelude::*;
use crate::codon::Action;
use crate::codon::Codon;
use crate::codon::Decision;
use crate::direction::spec_turn;
use crate::direction::turn;
use crate::direction::lemma_turn_adds;
use crate::dna::Dna;
use crate::dna::MAX_EXECUTE;
use crate::dna::NUM_STATE;
use crate::dna::crossover;
use crate::dna::crossover_post;
use crate::dna::random_dna;
use crate::dna::run_gene;
use crate::rng::SimRng;
use crate::rng::shuffle;

verus! {

/// Hues are angles measured in tenths of a degree.
pub const HUE_STEPS: u32 = 3600;

#[derive(Clone, Debug)]
pub struct Brain {
    /// The hue, in tenths of a degree.
    pub color: u32,
    /// Orientation counter-clockwise, in quarter turns.
    pub rotation: u32,
    /// Lineage depth: how many divisions and crossings led here.
    pub generation: usize,
    /// The private register file; never shared between agents.
    pub memory: Vec<i64>,
    /// The genome.
    pub code: Dna,
}

/// Rotate the direction carried by a decision counter-clockwise by the
/// given number of quarter turns.
pub open spec fn spec_rotate_decision(d: Decision, quarters: int) -> Decision {
    match d {
        Decision::Move(dir) => Decision::Move(spec_turn(dir, 2 * quarters)),
        Decision::Divide(dir) => Decision::Divide(spec_turn(dir, 2 * quarters)),
        _ => d,
    }
}

/// One decision pass over the genes listed in `order`: each gene run sees
/// the registers as left by earlier `Write`s; rotation actions turn the
/// orientation immediately; any other action (a failed run's `Nothing`
/// included) replaces the tentative decision, so the last one wins.
pub open spec fn fold_decide(
    seq: Seq<Codon>,
    inputs: Seq<i64>,
    order: Seq<usize>,
    memory: Seq<i64>,
    rotation: int,
    tentative: Decision,
) -> (Seq<i64>, int, Decision)
    decreases order.len(),
{
    if order.len() == 0 {
        (memory, rotation, tentative)
    } else {
        let act = run_gene(
            seq,
            inputs,
            memory,
            order[0] as int,
            Seq::<i64>::empty(),
            MAX_EXECUTE as nat,
        );
        match act {
            Action::Write(pos, v) => {
                let m2 = if memory.len() == 0 {
                    memory
                } else {
                    memory.update((pos as int) % (memory.len() as int), v)
                };
                fold_decide(seq, inputs, order.drop_first(), m2, rotation, tentative)
            },
            Action::RotateLeft => fold_decide(
                seq,
                inputs,
                order.drop_first(),
                memory,
                (rotation + 1) % 4,
                tentative,
            ),
            Action::RotateRight => fold_decide(
                seq,
                inputs,
                order.drop_first(),
                memory,
                (rotation + 3) % 4,
                tentative,
            ),
            _ => fold_decide(
                seq,
                inputs,
                order.drop_first(),
                memory,
                rotation,
                act.spec_to_decision(),
            ),
        }
    }
}

/// How a finished decision pass relates the brain before and after it, the
/// gene order it ran, and the decision it returned.
pub open spec fn decide_post(
    pre: Brain,
    post: Brain,
    ord: Seq<usize>,
    inputs: Seq<i64>,
    d: Decision,
) -> bool {
    let r = fold_decide(
        pre.code.sequence@,
        inputs,
        ord,
        pre.memory@,
        pre.rotation as int,
        Decision::Nothing,
    );
    &&& post.memory@ == r.0
    &&& post.rotation as int == r.1
    &&& post.code.sequence@ == pre.code.sequence@
    &&& post.code.entries@ == pre.code.entries@
    &&& post.color == pre.color
    &&& post.generation == pre.generation
    &&& d == spec_rotate_decision(r.2, r.1)
}

impl Brain {
    pub open spec fn wf(self) -> bool {
        &&& self.rotation < 4
        &&& self.memory@.len() == NUM_STATE
        &&& self.color < HUE_STEPS
        &&& self.code.wf()
    }

    /// The hue, in tenths of a degree.
    pub fn color(&self) -> (r: u32)
        ensures
            r == self.color,
    {
        self.color
    }

    /// The signal a neighbor senses from this agent: register 0.
    pub fn signal(&self) -> (r: i64)
        requires
            self.wf(),
        ensures
            r == self.memory@[0],
    {
        self.memory[0]
    }

    /// Orientation counter-clockwise, in quarter turns.
    pub fn rotation(&self) -> (r: u32)
        ensures
            r == self.rotation,
    {
        self.rotation
    }

    /// Rotate a decision's direction counter-clockwise by this brain's
    /// orientation.
    pub fn rotate(&self, decision: Decision) -> (r: Decision)
        requires
            self.wf(),
        ensures
            r == spec_rotate_decision(decision, self.rotation as int),
    {
        match decision {
            Decision::Move(dir) => Decision::Move(turn(dir, 2 * (self.rotation as usize))),
            Decision::Divide(dir) => Decision::Divide(turn(dir, 2 * (self.rotation as usize))),
            d => d,
        }
    }

    /// One decision pass with an explicit gene order: run every listed
    /// gene, fold writes into the registers, apply rotations, keep the last
    /// other action, and rotate it by the final orientation.
    pub fn decide_ordered(&mut self, inputs: &Vec<i64>, order: &Vec<usize>) -> (d: Decision)
        requires
            old(self).wf(),
        ensures
            final(self).wf(),
            decide_post(*old(self), *final(self), order@, inputs@, d),
    {
        let ghost pre = *old(self);
        proof {
            assert(order@.subrange(0, order@.len() as int) =~= order@);
        }
        let mut tentative = Decision::Nothing;
        let mut i: usize = 0;
        while i < order.len()
            invariant
                i <= order@.len(),
                self.wf(),
                self.code.sequence@ == pre.code.sequence@,
                self.code.entries@ == pre.code.entries@,
                self.color == pre.color,
                self.generation == pre.generation,
                fold_decide(
                    pre.code.sequence@,
                    inputs@,
                    order@,
                    pre.memory@,
                    pre.rotation as int,
                    Decision::Nothing,
                ) == fold_decide(
                    pre.code.sequence@,
                    inputs@,
                    order@.subrange(i as int, order@.len() as int),
                    self.memory@,
                    self.rotation as int,
                    tentative,
                ),
            decreases order@.len() - i,
        {
            let ghost rest = order@.subrange(i as int, order@.len() as int);
            proof {
                assert(rest[0] == order@[i as int]);
                assert(rest.drop_first() =~= order@.subrange(i + 1, order@.len() as int));
            }
            let entry = order[i];
            let act = self.code.execute(inputs, &self.memory, entry);
            match act {
                Action::Write(pos, v) => {
                    let wp = (pos as usize) % self.memory.len();
                    self.memory[wp] = v;
                },
                Action::RotateLeft => {
                    self.rotation = (self.rotation + 1) % 4;
                },
                Action::RotateRight => {
                    self.rotation = (self.rotation + 3) % 4;
                },
                Action::Move(dir) => {
                    tentative = Decision::Move(dir);
                },
                Action::Divide(dir) => {
                    tentative = Decision::Divide(dir);
                },
                Action::Trade(r, q) => {
                    tentative = Decision::Trade(r, q);
                },
                Action::Nothing => {
                    tentative = Decision::Nothing;
                },
            }
            i = i + 1;
        }
        proof {
            assert(order@.subrange(order@.len() as int, order@.len() as int)
                =~= Seq::<usize>::empty());
        }
        self.rotate(tentative)
    }

    /// One decision pass over all genes, in a freshly shuffled order.
    pub fn decide(&mut self, rng: &mut SimRng, inputs: &Vec<i64>) -> (d: Decision)
        requires
            old(self).wf(),
        ensures
            final(self).wf(),
            exists|ord: Seq<usize>|
                #[trigger] decide_post(*old(self), *final(self), ord, inputs@, d)
                    && ord.to_multiset() == old(self).code.entries@.to_multiset(),
    {
        let mut order = self.code.entries.clone();
        proof {
            assert(order@ =~= self.code.entries@);
        }
        shuffle(rng, &mut order);
        let d = self.decide_ordered(inputs, &order);
        proof {
            assert(decide_post(*old(self), *self, order@, inputs@, d));
        }
        d
    }

    /// Structural mutation: clone-then-edit on this brain's private copy of
    /// the genome, leaving any shared instance untouched. The genome's
    /// sequence and entry set each change by at most one element.
    pub fn mutate(&mut self, rng: &mut SimRng)
        requires
            old(self).wf(),
        ensures
            final(self).wf(),
            final(self).code.sequence@.len() >= old(self).code.sequence@.len() - 1,
            final(self).code.sequence@.len() <= old(self).code.sequence@.len() + 1,
            final(self).code.entries@.len() >= old(self).code.entries@.len() - 1,
            final(self).code.entries@.len() <= old(self).code.entries@.len() + 1,
            final(self).memory@ == old(self).memory@,
            final(self).rotation == old(self).rotation,
            final(self).color == old(self).color,
            final(self).generation == old(self).generation,
            crate::dna::mutation_step(
                old(self).code.sequence@,
                old(self).code.entries@,
                final(self).code.sequence@,
                final(self).code.entries@,
            ),
    {
        let mut code = self.code.duplicate();
        code.mutate(rng);
        self.code = code;
    }

    /// A brand-new agent: zeroed registers, random orientation and hue, a
    /// random genome, generation zero.
    pub fn random(rng: &mut SimRng) -> (r: Brain)
        ensures
            r.wf(),
            r.generation == 0,
            r.memory@.len() == NUM_STATE,
            forall|i: int| 0 <= i < NUM_STATE ==> r.memory@[i] == 0,
    {
        Brain {
            color: rng.below(HUE_STEPS as usize) as u32,
            rotation: rng.below(4) as u32,
            generation: 0,
            memory: zero_memory(),
            code: random_dna(rng),
        }
    }
}

/// A zeroed register file.
fn zero_memory() -> (r: Vec<i64>)
    ensures
        r@.len() == NUM_STATE,
        forall|i: int| 0 <= i < NUM_STATE ==> r@[i] == 0,
{
    let mut m: Vec<i64> = Vec::new();
    m.push(0);
    m.push(0);
    m.push(0);
    m.push(0);
    m
}

/// The genomes of a list of brains.
pub open spec fn codes_of(bs: Seq<Brain>) -> Seq<Dna> {
    bs.map_values(|b: Brain| b.code)
}

/// The hues of a list of brains.
pub open spec fn hues_of(bs: Seq<Brain>) -> Seq<u32> {
    bs.map_values(|b: Brain| b.color)
}

/// The largest generation among a list of brains.
pub open spec fn max_generation(bs: Seq<Brain>) -> int
    decreases bs.len(),
{
    if bs.len() == 0 {
        0
    } else {
        let rest = max_generation(bs.drop_last());
        if bs.last().generation > rest {
            bs.last().generation as int
        } else {
            rest
        }
    }
}

/// Crossover of two or more parents: the child's genome is assembled from
/// whole genes of the parents, its hue is the angular mean of theirs --
/// the shorter-arc midpoints folded left to right, which agrees with the
/// vector-sum circular mean for two parents and approximates it for more,
/// with a fresh random hue when two hues cancel exactly -- its orientation
/// is fresh, its registers are zeroed, and its generation is one past the
/// largest parent generation.
pub fn combine(rng: &mut SimRng, brains: Vec<Brain>) -> (r: Brain)
    requires
        brains@.len() >= 1,
        forall|i: int| 0 <= i < brains@.len() ==> (#[trigger] brains@[i]).wf(),
    ensures
        r.wf(),
        crossover_post(codes_of(brains@), r.code),
        spec_hue_fold(
            hues_of(brains@)[0] as int,
            hues_of(brains@).drop_first(),
        ) matches Some(h) ==> r.color as int == h,
        r.generation as int == if max_generation(brains@) < usize::MAX {
            max_generation(brains@) + 1
        } else {
            usize::MAX as int
        },
        r.memory@.len() == NUM_STATE,
        forall|i: int| 0 <= i < NUM_STATE ==> r.memory@[i] == 0,
{
    let ghost orig = brains@;
    let mut brains = brains;
    let mut codes: Vec<Dna> = Vec::new();
    let mut hues: Vec<u32> = Vec::new();
    let mut generation: usize = 0;
    while brains.len() > 0
        invariant
            codes@.len() + brains@.len() == orig.len(),
            hues@.len() == codes@.len(),
            brains@ =~= orig.subrange(codes@.len() as int, orig.len() as int),
            forall|i: int| 0 <= i < orig.len() ==> (#[trigger] orig[i]).wf(),
            forall|i: int| 0 <= i < codes@.len() ==> (#[trigger] codes@[i]) == orig[i].code,
            forall|i: int| 0 <= i < hues@.len() ==> (#[trigger] hues@[i]) == orig[i].color,
            forall|i: int| 0 <= i < hues@.len() ==> (#[trigger] hues@[i]) < HUE_STEPS,
            generation as int == max_generation(orig.subrange(0, codes@.len() as int)),
        decreases brains@.len(),
    {
        let ghost k: int = codes@.len() as int;
        let b = brains.remove(0);
        proof {
            assert(b == orig[k as int]);
        }
        if b.generation > generation {
            generation = b.generation;
        }
        codes.push(b.code);
        hues.push(b.color);
        proof {
            assert(brains@ =~= orig.subrange(codes@.len() as int, orig.len() as int));
            let pre = orig.subrange(0, k as int);
            let now = orig.subrange(0, k + 1);
            assert(now.drop_last() =~= pre);
            assert(now.last() == orig[k as int]);
        }
    }
    proof {
        assert(orig.subrange(0, orig.len() as int) =~= orig);
        assert(codes@ =~= codes_of(orig));
        assert(codes@.len() >= 1);
        assert(forall|i: int| 0 <= i < codes@.len() ==> (#[trigger] codes@[i]).wf()) by {
            assert(forall|i: int|
                0 <= i < codes@.len() ==> (#[trigger] codes@[i]) == orig[i].code);
        }
    }
    let code = crossover(rng, codes);
    proof {
        assert(hues@ =~= hues_of(orig));
        assert(hues@.subrange(1, hues@.len() as int) =~= hues_of(orig).drop_first());
    }
    let color = merge_hues(rng, &hues);
    let generation = if generation < usize::MAX {
        generation + 1
    } else {
        generation
    };
    Brain {
        color,
        rotation: rng.below(4) as u32,
        generation,
        memory: zero_memory(),
        code,
    }
}

/// The distance counter-clockwise from hue `a` to hue `b`.
pub open spec fn spec_hue_gap(a: int, b: int) -> int {
    (b - a + HUE_STEPS) % (HUE_STEPS as int)
}

/// The angular midpoint of two hues, along the shorter arc. Meaningless
/// when the hues are exactly opposed; callers treat that case separately.
pub open spec fn spec_hue_mid(a: int, b: int) -> int {
    let d = spec_hue_gap(a, b);
    if d < HUE_STEPS / 2 {
        (a + d / 2) % (HUE_STEPS as int)
    } else {
        (b + spec_hue_gap(b, a) / 2) % (HUE_STEPS as int)
    }
}

/// Fold the angular midpoint over a list of hues, left to right; `None`
/// marks a degenerate step (two exactly opposed hues).
pub open spec fn spec_hue_fold(acc: int, rest: Seq<u32>) -> Option<int>
    decreases rest.len(),
{
    if rest.len() == 0 {
        Some(acc)
    } else if spec_hue_gap(acc, rest[0] as int) == HUE_STEPS / 2 {
        None
    } else {
        spec_hue_fold(spec_hue_mid(acc, rest[0] as int), rest.drop_first())
    }
}

/// The merged hue of one or more parents: angular midpoints folded left to
/// right, with a fresh random hue whenever a step degenerates (two hues
/// exactly opposed cancel, leaving no angular mean).
pub fn merge_hues(rng: &mut SimRng, hues: &Vec<u32>) -> (r: u32)
    requires
        hues@.len() >= 1,
        forall|i: int| 0 <= i < hues@.len() ==> (#[trigger] hues@[i]) < HUE_STEPS,
    ensures
        r < HUE_STEPS,
        spec_hue_fold(hues@[0] as int, hues@.subrange(1, hues@.len() as int)) matches Some(h)
            ==> r as int == h,
{
    let mut acc: u32 = hues[0];
    let mut i: usize = 1;
    let mut degenerate = false;
    while i < hues.len()
        invariant
            1 <= i <= hues@.len(),
            forall|j: int| 0 <= j < hues@.len() ==> (#[trigger] hues@[j]) < HUE_STEPS,
            acc < HUE_STEPS,
            !degenerate ==> spec_hue_fold(hues@[0] as int, hues@.subrange(1, hues@.len() as int))
                == spec_hue_fold(acc as int, hues@.subrange(i as int, hues@.len() as int)),
            degenerate ==> spec_hue_fold(
                hues@[0] as int,
                hues@.subrange(1, hues@.len() as int),
            ) is None,
        decreases hues@.len() - i,
    {
        let ghost rest = hues@.subrange(i as int, hues@.len() as int);
        proof {
            assert(rest[0] == hues@[i as int]);
            assert(rest.drop_first() =~= hues@.subrange(i + 1, hues@.len() as int));
        }
        let h = hues[i];
        let gap = (h + HUE_STEPS - acc) % HUE_STEPS;
        if gap == HUE_STEPS / 2 {
            degenerate = true;
            acc = rng.below(HUE_STEPS as usize) as u32;
        } else if gap < HUE_STEPS / 2 {
            acc = (acc + gap / 2) % HUE_STEPS;
        } else {
            let back = (acc + HUE_STEPS - h) % HUE_STEPS;
            acc = (h + back / 2) % HUE_STEPS;
        }
        i = i + 1;
    }
    proof {
        assert(hues@.subrange(hues@.len() as int, hues@.len() as int) =~= Seq::<u32>::empty());
    }
    acc
}

/// Rotation invariance of a decision pass: starting a pass with the
/// orientation advanced by `k` quarter turns leaves the register writes and
/// the tentative decision unchanged, advances the final orientation by the
/// same `k`, and rotates the returned decision by exactly `k` more quarter
/// turns. The sensory window is the same on both sides here; the engine
/// rotates it by the orientation before the pass, so together the two give
/// a brain whose behavior depends only on its relative view of the world.
pub proof fn lemma_decide_rotation(
    seq: Seq<Codon>,
    inputs: Seq<i64>,
    order: Seq<usize>,
    memory: Seq<i64>,
    rotation: int,
    k: int,
)
    requires
        0 <= rotation < 4,
        0 <= k < 4,
    ensures
        ({
            let r1 = fold_decide(seq, inputs, order, memory, rotation, Decision::Nothing);
            let r2 = fold_decide(seq, inputs, order, memory, (rotation + k) % 4, Decision::Nothing);
            &&& r2.0 == r1.0
            &&& r2.2 == r1.2
            &&& r2.1 == (r1.1 + k) % 4
            &&& spec_rotate_decision(r2.2, r2.1) == spec_rotate_decision(
                spec_rotate_decision(r1.2, r1.1),
                k,
            )
        }),
{
    lemma_fold_rotation_offset(seq, inputs, order, memory, rotation, k, Decision::Nothing);
    lemma_fold_rotation_range(seq, inputs, order, memory, rotation, Decision::Nothing);
    let r1 = fold_decide(seq, inputs, order, memory, rotation, Decision::Nothing);
    let r2 = fold_decide(seq, inputs, order, memory, (rotation + k) % 4, Decision::Nothing);
    lemma_rotate_decision_adds(r1.2, r1.1, k);
}

/// The orientation a decision pass ends with stays a quarter-turn count.
proof fn lemma_fold_rotation_range(
    seq: Seq<Codon>,
    inputs: Seq<i64>,
    order: Seq<usize>,
    memory: Seq<i64>,
    rotation: int,
    tentative: Decision,
)
    requires
        0 <= rotation < 4,
    ensures
        0 <= fold_decide(seq, inputs, order, memory, rotation, tentative).1 < 4,
    decreases order.len(),
{
    if order.len() == 0 {
    } else {
        let act = run_gene(
            seq,
            inputs,
            memory,
            order[0] as int,
            Seq::<i64>::empty(),
            MAX_EXECUTE as nat,
        );
        match act {
            Action::Write(pos, v) => {
                let m2 = if memory.len() == 0 {
                    memory
                } else {
                    memory.update((pos as int) % (memory.len() as int), v)
                };
                lemma_fold_rotation_range(seq, inputs, order.drop_first(), m2, rotation, tentative);
            },
            Action::RotateLeft => {
                vstd::arithmetic::div_mod::lemma_mod_bound(rotation + 1, 4);
                lemma_fold_rotation_range(
                    seq,
                    inputs,
                    order.drop_first(),
                    memory,
                    (rotation + 1) % 4,
                    tentative,
                );
            },
            Action::RotateRight => {
                vstd::arithmetic::div_mod::lemma_mod_bound(rotation + 3, 4);
                lemma_fold_rotation_range(
                    seq,
                    inputs,
                    order.drop_first(),
                    memory,
                    (rotation + 3) % 4,
                    tentative,
                );
            },
            _ => {
                lemma_fold_rotation_range(
                    seq,
                    inputs,
                    order.drop_first(),
                    memory,
                    rotation,
                    act.spec_to_decision(),
                );
            },
        }
    }
}

/// Folding with the start orientation advanced by `k` advances the end
/// orientation by `k` and changes nothing else.
proof fn lemma_fold_rotation_offset(
    seq: Seq<Codon>,
    inputs: Seq<i64>,
    order: Seq<usize>,
    memory: Seq<i64>,
    rotation: int,
    k: int,
    tentative: Decision,
)
    requires
        0 <= rotation < 4,
        0 <= k < 4,
    ensures
        ({
            let r1 = fold_decide(seq, inputs, order, memory, rotation, tentative);
            let r2 = fold_decide(seq, inputs, order, memory, (rotation + k) % 4, tentative);
            &&& r2.0 == r1.0
            &&& r2.2 == r1.2
            &&& r2.1 == (r1.1 + k) % 4
        }),
    decreases order.len(),
{
    if order.len() == 0 {
    } else {
        let act = run_gene(
            seq,
            inputs,
            memory,
            order[0] as int,
            Seq::<i64>::empty(),
            MAX_EXECUTE as nat,
        );
        match act {
            Action::Write(pos, v) => {
                let m2 = if memory.len() == 0 {
                    memory
                } else {
                    memory.update((pos as int) % (memory.len() as int), v)
                };
                lemma_fold_rotation_offset(
                    seq,
                    inputs,
                    order.drop_first(),
                    m2,
                    rotation,
                    k,
                    tentative,
                );
            },
            Action::RotateLeft => {
                assert(((rotation + k) % 4 + 1) % 4 == ((rotation + 1) % 4 + k) % 4) by {
                    vstd::arithmetic::div_mod::lemma_add_mod_noop(rotation + k, 1, 4);
                    vstd::arithmetic::div_mod::lemma_add_mod_noop(rotation + 1, k, 4);
                    vstd::arithmetic::div_mod::lemma_mod_twice(rotation + k, 4);
                    vstd::arithmetic::div_mod::lemma_mod_twice(rotation + 1, 4);
                    vstd::arithmetic::div_mod::lemma_add_mod_noop(rotation + 1 + k, 0, 4);
                }
                vstd::arithmetic::div_mod::lemma_mod_bound(rotation + 1, 4);
                lemma_fold_rotation_offset(
                    seq,
                    inputs,
                    order.drop_first(),
                    memory,
                    (rotation + 1) % 4,
                    k,
                    tentative,
                );
            },
            Action::RotateRight => {
                assert(((rotation + k) % 4 + 3) % 4 == ((rotation + 3) % 4 + k) % 4) by {
                    vstd::arithmetic::div_mod::lemma_add_mod_noop(rotation + k, 3, 4);
                    vstd::arithmetic::div_mod::lemma_add_mod_noop(rotation + 3, k, 4);
                    vstd::arithmetic::div_mod::lemma_mod_twice(rotation + k, 4);
                    vstd::arithmetic::div_mod::lemma_mod_twice(rotation + 3, 4);
                }
                vstd::arithmetic::div_mod::lemma_mod_bound(rotation + 3, 4);
                lemma_fold_rotation_offset(
                    seq,
                    inputs,
                    order.drop_first(),
                    memory,
                    (rotation + 3) % 4,
                    k,
                    tentative,
                );
            },
            _ => {
                lemma_fold_rotation_offset(
                    seq,
                    inputs,
                    order.drop_first(),
                    memory,
                    rotation,
                    k,
                    act.spec_to_decision(),
                );
            },
        }
    }
}

/// Rotating a decision by `r + k` quarter turns equals rotating it by `r`
/// and then by `k`.
proof fn lemma_rotate_decision_adds(d: Decision, r: int, k: int)
    requires
        0 <= r,
        0 <= k,
    ensures
        spec_rotate_decision(d, (r + k) % 4) == spec_rotate_decision(spec_rotate_decision(d, r), k),
{
    match d {
        Decision::Move(dir) => {
            lemma_turn_mod_quarters(dir, r, k);
        },
        Decision::Divide(dir) => {
            lemma_turn_mod_quarters(dir, r, k);
        },
        _ => {},
    }
}

/// Turning by `2 * ((r + k) % 4)` eighths equals turning by `2 * r` and
/// then by `2 * k`.
proof fn lemma_turn_mod_quarters(dir: crate::direction::Direction, r: int, k: int)
    requires
        0 <= r,
        0 <= k,
    ensures
        spec_turn(dir, 2 * ((r + k) % 4)) == spec_turn(spec_turn(dir, 2 * r), 2 * k),
{
    lemma_turn_adds(dir, 2 * r, 2 * k);
    let i = crate::direction::spec_dir_index(dir);
    let q = (r + k) % 4;
    assert((i + 2 * q) % 8 == (i + 2 * (r + k)) % 8) by {
        vstd::arithmetic::div_mod::lemma_fundamental_div_mod(r + k, 4);
        let t = (r + k) / 4;
        assert(2 * (r + k) == 2 * q + 8 * t);
        assert((i + 2 * q + 8 * t) % 8 == (i + 2 * q) % 8) by {
            vstd::arithmetic::div_mod::lemma_mod_multiples_vanish(t, i + 2 * q, 8);
        }
    }
    assert(spec_turn(dir, 2 * q) == spec_turn(dir, 2 * (r + k)));
}

} // verus!
