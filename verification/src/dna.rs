//! The genome: an ordered instruction sequence plus a sorted set of gene
//! entry offsets. A gene is the run of instructions starting at one entry.
//! Execution of a gene is bounded by a hard step cap, so arbitrary evolved
//! programs (cycles included) always halt; there is no explicit halt
//! instruction, a gene ends on a failed comparison, a stack underflow, a
//! terminal action or the cap. Structural mutation grows or shrinks the
//! sequence and the entry set by at most one step each.
use vstd::prelude::*;
use crate::codon::Action;
use crate::codon::Codon;
use crate::codon::spec_clamp_trade;
use crate::codon::clamp_trade;
use crate::codon::random_codon;
use crate::rng::SimRng;
use crate::scalar;

verus! {

/// Hard cap on instruction steps for one gene run.
pub const MAX_EXECUTE: usize = 128;

/// Number of private registers in a brain's memory.
pub const NUM_STATE: usize = 4;

/// Entry offsets are strictly increasing (hence unique) and each one lands
/// inside a sequence of length `n`.
pub open spec fn entries_wf(entries: Seq<usize>, n: int) -> bool {
    &&& forall|i: int| 0 <= i < entries.len() ==> (#[trigger] entries[i]) < n
    &&& forall|i: int, j: int|
        0 <= i < j < entries.len() ==> #[trigger] entries[i] < #[trigger] entries[j]
}

/// One gene run of the bytecode machine, stated as a recursive function of
/// the whole machine state. `fuel` bounds the steps left; execution ends
/// with `Nothing` when fuel runs out, when the program counter leaves the
/// sequence (in particular on an empty genome), on stack underflow, and on
/// a failed `Less` comparison. A terminal instruction ends it with its
/// action. Index operands are reduced modulo the container they address.
pub open spec fn run_gene(
    seq: Seq<Codon>,
    inputs: Seq<i64>,
    memory: Seq<i64>,
    at: int,
    stack: Seq<i64>,
    fuel: nat,
) -> Action
    decreases fuel,
{
    if fuel == 0 || !(0 <= at < seq.len()) {
        Action::Nothing
    } else {
        let next = (at + 1) % (seq.len() as int);
        let f = (fuel - 1) as nat;
        match seq[at] {
            Codon::Add => if stack.len() < 2 {
                Action::Nothing
            } else {
                let b = stack.last();
                let a = stack[stack.len() - 2];
                run_gene(
                    seq,
                    inputs,
                    memory,
                    next,
                    stack.drop_last().drop_last().push(scalar::spec_sadd(a, b)),
                    f,
                )
            },
            Codon::Sub => if stack.len() < 2 {
                Action::Nothing
            } else {
                let b = stack.last();
                let a = stack[stack.len() - 2];
                run_gene(
                    seq,
                    inputs,
                    memory,
                    next,
                    stack.drop_last().drop_last().push(scalar::spec_ssub(a, b)),
                    f,
                )
            },
            Codon::Mul => if stack.len() < 2 {
                Action::Nothing
            } else {
                let b = stack.last();
                let a = stack[stack.len() - 2];
                run_gene(
                    seq,
                    inputs,
                    memory,
                    next,
                    stack.drop_last().drop_last().push(scalar::spec_smul(a, b)),
                    f,
                )
            },
            Codon::Div => if stack.len() < 2 {
                Action::Nothing
            } else {
                let b = stack.last();
                let a = stack[stack.len() - 2];
                run_gene(
                    seq,
                    inputs,
                    memory,
                    next,
                    stack.drop_last().drop_last().push(scalar::spec_sdiv(a, b)),
                    f,
                )
            },
            Codon::Literal(n) => run_gene(seq, inputs, memory, next, stack.push(n), f),
            Codon::Less => if stack.len() < 2 {
                Action::Nothing
            } else {
                let b = stack.last();
                let a = stack[stack.len() - 2];
                if a < b {
                    run_gene(seq, inputs, memory, next, stack.drop_last().drop_last(), f)
                } else {
                    Action::Nothing
                }
            },
            Codon::Copy(pos) => if stack.len() == 0 {
                Action::Nothing
            } else {
                let idx = (pos as int) % (stack.len() as int);
                run_gene(
                    seq,
                    inputs,
                    memory,
                    next,
                    stack.push(stack[stack.len() - 1 - idx]),
                    f,
                )
            },
            Codon::Read(pos) => if memory.len() == 0 {
                Action::Nothing
            } else {
                run_gene(
                    seq,
                    inputs,
                    memory,
                    next,
                    stack.push(memory[(pos as int) % (memory.len() as int)]),
                    f,
                )
            },
            Codon::Input(pos) => if inputs.len() == 0 {
                Action::Nothing
            } else {
                run_gene(
                    seq,
                    inputs,
                    memory,
                    next,
                    stack.push(inputs[(pos as int) % (inputs.len() as int)]),
                    f,
                )
            },
            Codon::Write(pos) => if stack.len() == 0 {
                Action::Nothing
            } else {
                Action::Write(pos, stack.last())
            },
            Codon::Move(d) => Action::Move(d),
            Codon::Divide(d) => Action::Divide(d),
            Codon::Trade => if stack.len() < 2 {
                Action::Nothing
            } else {
                Action::Trade(
                    spec_clamp_trade(stack.last()),
                    spec_clamp_trade(stack[stack.len() - 2]),
                )
            },
            Codon::SimpleTrade(r, q) => Action::Trade(r, q),
            Codon::RotateLeft => Action::RotateLeft,
            Codon::RotateRight => Action::RotateRight,
        }
    }
}

/// An empty genome executes to `Nothing` for every entry point, every
/// input, every register file and every fuel.
pub proof fn lemma_empty_genome_nothing(
    inputs: Seq<i64>,
    memory: Seq<i64>,
    at: int,
    stack: Seq<i64>,
    fuel: nat,
)
    ensures
        run_gene(Seq::<Codon>::empty(), inputs, memory, at, stack, fuel) == Action::Nothing,
{
}

/// The entry offsets after a codon was inserted at `p`: offsets at or
/// past the insertion shift up by one and keep addressing the same
/// codons.
pub open spec fn entries_after_insert(ent: Seq<usize>, p: int) -> Seq<usize> {
    ent.map_values(
        |e: usize|
            if e >= p {
                (e + 1) as usize
            } else {
                e
            },
    )
}

/// The entry offsets after the codon at `p` was removed: an entry at the
/// removed offset is dropped, offsets past it shift down by one, and all
/// survivors keep addressing the same codons.
pub open spec fn entries_after_removal(ent: Seq<usize>, p: int) -> Seq<usize>
    decreases ent.len(),
{
    if ent.len() == 0 {
        ent
    } else {
        let rest = entries_after_removal(ent.drop_last(), p);
        if ent.last() == p {
            rest
        } else if ent.last() > p {
            rest.push((ent.last() - 1) as usize)
        } else {
            rest.push(ent.last())
        }
    }
}

/// The sequence half of one mutation: either nothing changed because the
/// genome was empty and the coin fell on deletion, or exactly one codon
/// was inserted at some offset (entries shifting with it), or exactly one
/// was removed (entries dropping and shifting with it). `mid` is the
/// entry list right after this edit.
pub open spec fn sequence_edit(
    pre_seq: Seq<Codon>,
    pre_ent: Seq<usize>,
    post_seq: Seq<Codon>,
    mid: Seq<usize>,
) -> bool {
    ||| (pre_seq.len() == 0 && post_seq == pre_seq && mid == pre_ent)
    ||| (exists|p: int, c: Codon|
        0 <= p <= pre_seq.len() && post_seq == #[trigger] pre_seq.insert(p, c) && mid
            == entries_after_insert(pre_ent, p))
    ||| (exists|p: int|
        0 <= p < pre_seq.len() && post_seq == #[trigger] pre_seq.remove(p) && mid
            == entries_after_removal(pre_ent, p))
}

/// The entry half of one mutation: unchanged (the coin fell against an
/// edit, the drawn offset already was an entry, or there was nothing to
/// delete), or one offset inside the sequence inserted, or one entry
/// removed.
pub open spec fn entry_edit(mid: Seq<usize>, n: int, post: Seq<usize>) -> bool {
    ||| post == mid
    ||| (exists|k: int, off: usize|
        0 <= k <= mid.len() && (off as int) < n && post == #[trigger] mid.insert(k, off))
    ||| (exists|k: int| 0 <= k < mid.len() && post == #[trigger] mid.remove(k))
}

/// What one `mutate` call may do: a sequence edit followed by an entry
/// edit, through some intermediate entry list.
pub open spec fn mutation_step(
    pre_seq: Seq<Codon>,
    pre_ent: Seq<usize>,
    post_seq: Seq<Codon>,
    post_ent: Seq<usize>,
) -> bool {
    exists|mid: Seq<usize>|
        #[trigger] sequence_edit(pre_seq, pre_ent, post_seq, mid) && entry_edit(
            mid,
            post_seq.len() as int,
            post_ent,
        )
}

/// A genome that is unchanged or one mutation step away.
pub open spec fn dna_evolves(
    pre_seq: Seq<Codon>,
    pre_ent: Seq<usize>,
    post_seq: Seq<Codon>,
    post_ent: Seq<usize>,
) -> bool {
    ||| (post_seq == pre_seq && post_ent == pre_ent)
    ||| mutation_step(pre_seq, pre_ent, post_seq, post_ent)
}

/// A genome: the instruction sequence and the gene entry offsets.
#[derive(Clone, Debug)]
pub struct Dna {
    pub sequence: Vec<Codon>,
    pub entries: Vec<usize>,
}

impl Dna {
    pub open spec fn wf(self) -> bool {
        entries_wf(self.entries@, self.sequence@.len() as int)
    }

    /// The empty genome: no instructions, no entry points.
    pub fn new() -> (r: Dna)
        ensures
            r.wf(),
            r.sequence@.len() == 0,
            r.entries@.len() == 0,
    {
        Dna { sequence: Vec::new(), entries: Vec::new() }
    }

    /// An identical private copy of this genome: mutation always works on
    /// such a copy, never on an instance other agents share.
    pub fn duplicate(&self) -> (r: Dna)
        ensures
            r.sequence@ == self.sequence@,
            r.entries@ == self.entries@,
    {
        let sequence = self.sequence.clone();
        let entries = self.entries.clone();
        proof {
            assert(sequence@ =~= self.sequence@);
            assert(entries@ =~= self.entries@);
        }
        Dna { sequence, entries }
    }

    /// Run the gene starting at offset `at` against the given sensory
    /// inputs and register file. Total: any offset, any operand and any
    /// instruction mix halt within the step cap with a defined action.
    pub fn execute(&self, inputs: &Vec<i64>, memory: &Vec<i64>, at: usize) -> (r: Action)
        ensures
            r == run_gene(
                self.sequence@,
                inputs@,
                memory@,
                at as int,
                Seq::<i64>::empty(),
                MAX_EXECUTE as nat,
            ),
    {
        let seq_len = self.sequence.len();
        let mut stack: Vec<i64> = Vec::new();
        let mut pc: usize = at;
        let mut fuel: usize = MAX_EXECUTE;
        while fuel > 0
            invariant
                seq_len == self.sequence@.len(),
                pc < seq_len || fuel == MAX_EXECUTE,
                run_gene(
                    self.sequence@,
                    inputs@,
                    memory@,
                    at as int,
                    Seq::<i64>::empty(),
                    MAX_EXECUTE as nat,
                ) == run_gene(
                    self.sequence@,
                    inputs@,
                    memory@,
                    pc as int,
                    stack@,
                    fuel as nat,
                ),
            decreases fuel,
        {
            if pc >= seq_len {
                return Action::Nothing;
            }
            let ghost pre_stack = stack@;
            match self.sequence[pc] {
                Codon::Add => {
                    if stack.len() < 2 {
                        return Action::Nothing;
                    }
                    let b = stack.pop().unwrap();
                    let a = stack.pop().unwrap();
                    proof {
                        assert(stack@ == pre_stack.drop_last().drop_last());
                    }
                    stack.push(scalar::sadd(a, b));
                },
                Codon::Sub => {
                    if stack.len() < 2 {
                        return Action::Nothing;
                    }
                    let b = stack.pop().unwrap();
                    let a = stack.pop().unwrap();
                    proof {
                        assert(stack@ == pre_stack.drop_last().drop_last());
                    }
                    stack.push(scalar::ssub(a, b));
                },
                Codon::Mul => {
                    if stack.len() < 2 {
                        return Action::Nothing;
                    }
                    let b = stack.pop().unwrap();
                    let a = stack.pop().unwrap();
                    proof {
                        assert(stack@ == pre_stack.drop_last().drop_last());
                    }
                    stack.push(scalar::smul(a, b));
                },
                Codon::Div => {
                    if stack.len() < 2 {
                        return Action::Nothing;
                    }
                    let b = stack.pop().unwrap();
                    let a = stack.pop().unwrap();
                    proof {
                        assert(stack@ == pre_stack.drop_last().drop_last());
                    }
                    stack.push(scalar::sdiv(a, b));
                },
                Codon::Literal(n) => {
                    stack.push(n);
                },
                Codon::Less => {
                    if stack.len() < 2 {
                        return Action::Nothing;
                    }
                    let b = stack.pop().unwrap();
                    let a = stack.pop().unwrap();
                    proof {
                        assert(stack@ == pre_stack.drop_last().drop_last());
                    }
                    if !(a < b) {
                        return Action::Nothing;
                    }
                },
                Codon::Copy(pos) => {
                    if stack.len() == 0 {
                        return Action::Nothing;
                    }
                    let idx = (pos as usize) % stack.len();
                    let v = stack[stack.len() - 1 - idx];
                    stack.push(v);
                },
                Codon::Read(pos) => {
                    if memory.len() == 0 {
                        return Action::Nothing;
                    }
                    let v = memory[(pos as usize) % memory.len()];
                    stack.push(v);
                },
                Codon::Input(pos) => {
                    if inputs.len() == 0 {
                        return Action::Nothing;
                    }
                    let v = inputs[(pos as usize) % inputs.len()];
                    stack.push(v);
                },
                Codon::Write(pos) => {
                    if stack.len() == 0 {
                        return Action::Nothing;
                    }
                    let v = stack[stack.len() - 1];
                    return Action::Write(pos, v);
                },
                Codon::Move(d) => {
                    return Action::Move(d);
                },
                Codon::Divide(d) => {
                    return Action::Divide(d);
                },
                Codon::Trade => {
                    if stack.len() < 2 {
                        return Action::Nothing;
                    }
                    let a = stack[stack.len() - 1];
                    let b = stack[stack.len() - 2];
                    return Action::Trade(clamp_trade(a), clamp_trade(b));
                },
                Codon::SimpleTrade(r, q) => {
                    return Action::Trade(r, q);
                },
                Codon::RotateLeft => {
                    return Action::RotateLeft;
                },
                Codon::RotateRight => {
                    return Action::RotateRight;
                },
            }
            pc = (pc + 1) % seq_len;
            fuel = fuel - 1;
        }
        Action::Nothing
    }

    /// One structural mutation: with even odds insert a fresh instruction at
    /// a random offset (shifting entries past it) or delete the instruction
    /// at a random offset (dropping an entry that pointed exactly there, and
    /// shifting the rest); independently, add a new entry at a random offset
    /// (skipped when it would duplicate one) or, when no entry was dropped
    /// above, delete a random entry. The sequence and the entry set each
    /// change by at most one element per call.
    pub fn mutate(&mut self, rng: &mut SimRng)
        requires
            old(self).wf(),
        ensures
            final(self).wf(),
            final(self).sequence@.len() >= old(self).sequence@.len() - 1,
            final(self).sequence@.len() <= old(self).sequence@.len() + 1,
            final(self).entries@.len() >= old(self).entries@.len() - 1,
            final(self).entries@.len() <= old(self).entries@.len() + 1,
            mutation_step(
                old(self).sequence@,
                old(self).entries@,
                final(self).sequence@,
                final(self).entries@,
            ),
    {
        let ghost pre_seq = self.sequence@;
        let ghost pre_ent = self.entries@;
        let mut entry_dropped = false;
        if rng.coin() {
            // insert a fresh instruction
            let position = rng.at_most(self.sequence.len());
            let c = random_codon(rng);
            self.sequence.insert(position, c);
            shift_entries_up(&mut self.entries, position, self.sequence.len());
        } else if self.sequence.len() > 0 {
            // delete one instruction
            let position = rng.below(self.sequence.len());
            self.sequence.remove(position);
            let before = self.entries.len();
            drop_and_shift_entries(&mut self.entries, position, self.sequence.len());
            entry_dropped = self.entries.len() < before;
        }
        let ghost mid = self.entries@;
        proof {
            assert(sequence_edit(pre_seq, pre_ent, self.sequence@, mid));
        }
        if self.sequence.len() > 0 && rng.coin() {
            // add an entry at a random offset, unless it already exists
            let offset = rng.below(self.sequence.len());
            insert_entry_sorted(&mut self.entries, offset, self.sequence.len());
        } else if !entry_dropped && self.entries.len() > 0 {
            // delete a random entry
            let k = rng.below(self.entries.len());
            self.entries.remove(k);
        }
        proof {
            assert(entry_edit(mid, self.sequence@.len() as int, self.entries@));
        }
    }
}

/// The boundaries of a genome's genes: the entry offsets, with an implicit
/// leading 0 when the first entry is not 0, followed by the sequence end.
pub open spec fn gene_bounds(points: Seq<usize>, n: int) -> Seq<int> {
    let base = points.map_values(|p: usize| p as int);
    let with_origin = if points.len() > 0 && points[0] != 0 {
        seq![0int] + base
    } else {
        base
    };
    with_origin.push(n)
}

/// The views of a list of gene vectors.
pub open spec fn gene_views(gs: Seq<Vec<Codon>>) -> Seq<Seq<Codon>> {
    gs.map_values(|g: Vec<Codon>| g@)
}

/// Split an instruction sequence into its genes: the contiguous runs
/// between consecutive gene boundaries. A genome without entry points has
/// no genes at all.
pub open spec fn spec_split_points(points: Seq<usize>, items: Seq<Codon>) -> Seq<Seq<Codon>> {
    let b = gene_bounds(points, items.len() as int);
    Seq::new((b.len() - 1) as nat, |i: int| items.subrange(b[i], b[i + 1]))
}

/// The genes of a genome: its sequence split at its entry offsets.
pub open spec fn genes_of(d: Dna) -> Seq<Seq<Codon>> {
    spec_split_points(d.entries@, d.sequence@)
}

/// Split `items` into the runs between consecutive `points` (gene
/// boundaries), with an implicit leading boundary at 0 when the first point
/// is elsewhere.
pub fn split_points(points: &Vec<usize>, items: &Vec<Codon>) -> (r: Vec<Vec<Codon>>)
    requires
        entries_wf(points@, items@.len() as int),
    ensures
        gene_views(r@) == spec_split_points(points@, items@),
        r@.len() <= points@.len() + 1,
{
    let n = items.len();
    let mut bounds: Vec<usize> = Vec::new();
    if points.len() > 0 && points[0] != 0 {
        bounds.push(0);
    }
    let mut i: usize = 0;
    while i < points.len()
        invariant
            entries_wf(points@, items@.len() as int),
            n == items@.len(),
            i <= points@.len(),
            bounds@.len() == i + (if points@.len() > 0 && points@[0] != 0 {
                1int
            } else {
                0int
            }),
            bounds@.map_values(|x: usize| x as int) == gene_bounds(points@, n as int).subrange(
                0,
                bounds@.len() as int,
            ),
        decreases points@.len() - i,
    {
        bounds.push(points[i]);
        proof {
            assert(bounds@.map_values(|x: usize| x as int) =~= gene_bounds(
                points@,
                n as int,
            ).subrange(0, bounds@.len() as int));
        }
        i = i + 1;
    }
    let ghost pre_push = bounds@;
    bounds.push(n);
    proof {
        assert(gene_bounds(points@, n as int).len() == points@.len() + (if points@.len() > 0
            && points@[0] != 0 {
            1int
        } else {
            0int
        }) + 1);
        assert(pre_push.map_values(|x: usize| x as int) == gene_bounds(points@, n as int).subrange(
            0,
            pre_push.len() as int,
        ));
        let lhs = bounds@.map_values(|x: usize| x as int);
        let rhs = gene_bounds(points@, n as int);
        assert(lhs.len() == rhs.len());
        assert forall|a: int| 0 <= a < lhs.len() implies lhs[a] == rhs[a] by {
            assert(lhs[a] == bounds@[a] as int);
            if a < pre_push.len() {
                assert(bounds@[a] == pre_push[a]);
                assert(pre_push.map_values(|x: usize| x as int)[a] == pre_push[a] as int);
                assert(rhs.subrange(0, pre_push.len() as int)[a] == rhs[a]);
            } else {
                assert(bounds@[a] == n);
                assert(rhs[a] == n as int);
            }
        }
        assert(lhs =~= rhs);
    }
    let ghost b = gene_bounds(points@, n as int);
    proof {
        assert forall|a: int| 0 <= a < b.len() implies 0 <= #[trigger] b[a] <= n by {
            assert(b[a] == bounds@.map_values(|x: usize| x as int)[a]);
        }
        assert forall|a: int, c: int| 0 <= a < c < b.len() implies #[trigger] b[a]
            <= #[trigger] b[c] by {
            assert(b[a] == bounds@[a] as int);
            assert(b[c] == bounds@[c] as int);
        }
    }
    let mut r: Vec<Vec<Codon>> = Vec::new();
    let mut k: usize = 0;
    while k < bounds.len() - 1
        invariant
            n == items@.len(),
            bounds@.map_values(|x: usize| x as int) == b,
            b == gene_bounds(points@, n as int),
            b.len() >= 1,
            forall|a: int| 0 <= a < b.len() ==> 0 <= #[trigger] b[a] <= n,
            forall|a: int, c: int| 0 <= a < c < b.len() ==> #[trigger] b[a] <= #[trigger] b[c],
            k < bounds@.len(),
            bounds@.len() >= 1,
            r@.len() == k,
            forall|j: int|
                0 <= j < k ==> (#[trigger] r@[j])@ == items@.subrange(b[j], b[j + 1]),
        decreases bounds@.len() - k,
    {
        let lo = bounds[k];
        let hi = bounds[k + 1];
        proof {
            assert(b[k as int] == bounds@.map_values(|x: usize| x as int)[k as int]);
            assert(b[k + 1] == bounds@.map_values(|x: usize| x as int)[k + 1]);
        }
        let mut gene: Vec<Codon> = Vec::new();
        let mut j = lo;
        while j < hi
            invariant
                lo <= j <= hi,
                hi <= items@.len(),
                gene@ == items@.subrange(lo as int, j as int),
            decreases hi - j,
        {
            gene.push(items[j]);
            proof {
                assert(gene@ =~= items@.subrange(lo as int, j + 1));
            }
            j = j + 1;
        }
        r.push(gene);
        k = k + 1;
    }
    proof {
        assert(gene_views(r@) =~= spec_split_points(points@, items@));
    }
    r
}

/// Shift every entry at or past `position` up by one; entries stay sorted
/// and inside a sequence that just grew to `new_len`.
fn shift_entries_up(entries: &mut Vec<usize>, position: usize, new_len: usize)
    requires
        entries_wf(old(entries)@, new_len - 1),
        position < new_len,
    ensures
        entries_wf(final(entries)@, new_len as int),
        final(entries)@.len() == old(entries)@.len(),
        final(entries)@ == entries_after_insert(old(entries)@, position as int),
{
    let ghost orig = entries@;
    let n = entries.len();
    let mut i: usize = 0;
    while i < n
        invariant
            n == entries@.len(),
            orig.len() == n,
            entries_wf(orig, new_len - 1),
            position < new_len,
            forall|j: int|
                0 <= j < i ==> (#[trigger] entries@[j]) == if orig[j] >= position {
                    (orig[j] + 1) as usize
                } else {
                    orig[j]
                },
            forall|j: int| i <= j < n ==> (#[trigger] entries@[j]) == orig[j],
        decreases n - i,
    {
        let e = entries[i];
        if e >= position {
            entries[i] = e + 1;
        }
        i = i + 1;
    }
    proof {
        assert(entries@ =~= entries_after_insert(orig, position as int));
    }
}

/// Remove any entry equal to `position` and shift entries past it down by
/// one; entries stay sorted and inside a sequence that just shrank to
/// `new_len`.
fn drop_and_shift_entries(entries: &mut Vec<usize>, position: usize, new_len: usize)
    requires
        entries_wf(old(entries)@, new_len + 1),
        position <= new_len,
    ensures
        entries_wf(final(entries)@, new_len as int),
        final(entries)@.len() >= old(entries)@.len() - 1,
        final(entries)@.len() <= old(entries)@.len(),
        final(entries)@ == entries_after_removal(old(entries)@, position as int),
{
    let ghost orig = entries@;
    let n = entries.len();
    let mut out: Vec<usize> = Vec::new();
    let mut dropped = false;
    let mut i: usize = 0;
    while i < n
        invariant
            n == orig.len(),
            entries@ == orig,
            entries_wf(orig, new_len + 1),
            position <= new_len,
            i <= n,
            out@.len() + (if dropped {
                1int
            } else {
                0int
            }) == i,
            entries_wf(out@, new_len as int),
            out@ == entries_after_removal(orig.subrange(0, i as int), position as int),
            // entries are unique, so at most one can be dropped
            dropped ==> forall|k: int| i <= k < n ==> (#[trigger] orig[k]) != position,
            // everything kept so far sits strictly below where the still
            // unprocessed entries will land after the shift
            forall|j: int, k: int|
                #![trigger out@[j], orig[k]]
                0 <= j < out@.len() && i <= k < n && orig[k] != position ==> out@[j] < (if orig[k]
                    > position {
                    orig[k] - 1
                } else {
                    orig[k] as int
                }),
        decreases n - i,
    {
        proof {
            assert(orig.subrange(0, i + 1).drop_last() =~= orig.subrange(0, i as int));
            assert(orig.subrange(0, i + 1).last() == orig[i as int]);
        }
        let e = entries[i];
        if e < position {
            out.push(e);
        } else if e > position {
            out.push(e - 1);
        } else {
            dropped = true;
        }
        i = i + 1;
    }
    proof {
        assert(orig.subrange(0, n as int) =~= orig);
    }
    *entries = out;
}

/// Insert `offset` into the sorted entry list, keeping it sorted; nothing
/// changes when the offset is already present.
fn insert_entry_sorted(entries: &mut Vec<usize>, offset: usize, seq_len: usize)
    requires
        entries_wf(old(entries)@, seq_len as int),
        offset < seq_len,
    ensures
        entries_wf(final(entries)@, seq_len as int),
        final(entries)@.len() >= old(entries)@.len(),
        final(entries)@.len() <= old(entries)@.len() + 1,
        entry_edit(old(entries)@, seq_len as int, final(entries)@),
{
    let n = entries.len();
    let mut i: usize = 0;
    while i < n && entries[i] < offset
        invariant
            n == entries@.len(),
            i <= n,
            forall|j: int| 0 <= j < i ==> (#[trigger] entries@[j]) < offset,
        decreases n - i,
    {
        i = i + 1;
    }
    if i < n && entries[i] == offset {
        return;
    }
    entries.insert(i, offset);
}


/// The genes kept by the child: the non-empty ones among the chosen slots.
pub open spec fn nonempty_genes(gs: Seq<Seq<Codon>>) -> Seq<Seq<Codon>> {
    gs.filter(|g: Seq<Codon>| g.len() > 0)
}

proof fn lemma_nonempty_genes_push(s: Seq<Seq<Codon>>, x: Seq<Codon>)
    ensures
        x.len() > 0 ==> nonempty_genes(s.push(x)) == nonempty_genes(s).push(x),
        x.len() == 0 ==> nonempty_genes(s.push(x)) == nonempty_genes(s),
{
    reveal(Seq::filter);
    let t = s.push(x);
    assert(t.drop_last() =~= s);
    assert(t.last() == x);
    assert(nonempty_genes(t) == if t.last().len() > 0 {
        nonempty_genes(t.drop_last()).push(t.last())
    } else {
        nonempty_genes(t.drop_last())
    });
}

/// Largest gene count among a list of genomes.
pub open spec fn max_gene_count(ds: Seq<Dna>) -> int
    decreases ds.len(),
{
    if ds.len() == 0 {
        0
    } else {
        let rest = max_gene_count(ds.drop_last());
        let last = genes_of(ds.last()).len() as int;
        if last > rest {
            last
        } else {
            rest
        }
    }
}

/// A gene list padded out with empty genes: the padded list is the
/// original with zero or more empty genes inserted, order kept.
pub open spec fn padded_with_empties(orig: Seq<Seq<Codon>>, pad: Seq<Seq<Codon>>) -> bool
    decreases pad.len(),
{
    if pad.len() == orig.len() {
        pad == orig
    } else if pad.len() > orig.len() {
        exists|q: int|
            0 <= q < pad.len() && (#[trigger] pad[q]).len() == 0 && padded_with_empties(
                orig,
                pad.remove(q),
            )
    } else {
        false
    }
}

/// How the chosen slots come from the parents: each parent's gene list is
/// padded with empty genes up to the common slot count, and slot `k` of
/// the child is slot `k` of the picked parent's padded list.
pub open spec fn slot_assignment(
    perm: Seq<Dna>,
    chosen: Seq<Seq<Codon>>,
    padded: Seq<Seq<Seq<Codon>>>,
    pick: Seq<int>,
) -> bool {
    &&& padded.len() == perm.len()
    &&& forall|p: int|
        0 <= p < perm.len() ==> (#[trigger] padded[p]).len() == chosen.len()
            && padded_with_empties(genes_of(perm[p]), padded[p])
    &&& pick.len() == chosen.len()
    &&& forall|k: int|
        0 <= k < chosen.len() ==> 0 <= #[trigger] pick[k] < perm.len() && chosen[k]
            == padded[pick[k]][k]
}

/// What crossover guarantees, through a permutation of the parents and the
/// list of chosen gene slots: one gene slot per position up to the largest
/// parent gene count, each slot filled from some parent's padded gene list
/// at that slot index, each non-empty chosen gene an exact, uncut gene of
/// one of the parents, and the child's gene decomposition exactly the
/// non-empty chosen genes in order.
pub open spec fn crossover_witness(
    parents: Seq<Dna>,
    child: Dna,
    perm: Seq<Dna>,
    chosen: Seq<Seq<Codon>>,
) -> bool {
    &&& perm.to_multiset() == parents.to_multiset()
    &&& chosen.len() == max_gene_count(perm)
    &&& (exists|padded: Seq<Seq<Seq<Codon>>>, pick: Seq<int>|
        #[trigger] slot_assignment(perm, chosen, padded, pick))
    &&& forall|k: int|
        0 <= k < chosen.len() && (#[trigger] chosen[k]).len() > 0 ==> exists|p: int|
            0 <= p < perm.len() && genes_of(#[trigger] perm[p]).contains(chosen[k])
    &&& genes_of(child) == nonempty_genes(chosen)
}

/// Inserting one empty gene keeps a list a padding of the original.
proof fn lemma_padding_insert(orig: Seq<Seq<Codon>>, pad: Seq<Seq<Codon>>, q: int)
    requires
        padded_with_empties(orig, pad),
        0 <= q <= pad.len(),
    ensures
        padded_with_empties(orig, pad.insert(q, Seq::<Codon>::empty())),
{
    let bigger = pad.insert(q, Seq::<Codon>::empty());
    assert(bigger.len() == pad.len() + 1);
    assert(pad.len() >= orig.len());
    assert(bigger[q].len() == 0);
    assert(bigger.remove(q) =~= pad);
}

/// Crossover conserves genes: the child is assembled from whole genes of
/// the parents, one choice per gene slot.
pub open spec fn crossover_post(parents: Seq<Dna>, child: Dna) -> bool {
    exists|perm: Seq<Dna>, chosen: Seq<Seq<Codon>>|
        crossover_witness(parents, child, perm, chosen)
}

/// Appending one non-empty gene to a genome under construction appends it
/// to the genome's gene decomposition.
proof fn lemma_split_append(points: Seq<usize>, items: Seq<Codon>, g: Seq<Codon>)
    requires
        entries_wf(points, items.len() as int),
        points.len() > 0 || items.len() == 0,
        items.len() + g.len() <= usize::MAX,
        g.len() > 0,
    ensures
        spec_split_points(points.push(items.len() as usize), items + g) == spec_split_points(
            points,
            items,
        ).push(g),
{
    let n = items.len() as int;
    let m = g.len() as int;
    let b_old = gene_bounds(points, n);
    let b_new = gene_bounds(points.push(n as usize), n + m);
    let base = points.map_values(|p: usize| p as int);
    let base2 = points.push(n as usize).map_values(|p: usize| p as int);
    assert(base2 =~= base.push(n));
    if points.len() == 0 {
        assert(items.len() == 0);
        assert(b_old =~= seq![0int]);
        assert(b_new =~= seq![0int, m]);
        let lhs = spec_split_points(points.push(n as usize), items + g);
        let rhs = spec_split_points(points, items).push(g);
        assert(lhs.len() == 1 && rhs.len() == 1);
        assert(lhs[0] == (items + g).subrange(0, m));
        assert((items + g).subrange(0, m) =~= g);
        assert(rhs[0] == g);
        assert(lhs =~= rhs);
    } else {
        assert(points.push(n as usize)[0] == points[0]);
        let with_origin = if points.len() > 0 && points[0] != 0 {
            seq![0int] + base
        } else {
            base
        };
        if points[0] != 0 {
            assert(seq![0int] + base.push(n) =~= (seq![0int] + base).push(n));
        }
        assert(b_new =~= with_origin.push(n).push(n + m));
        assert(b_old == with_origin.push(n));
        assert(b_new =~= b_old.push(n + m));
        // every old boundary lies within the old items
        assert forall|a: int| 0 <= a < b_old.len() implies 0 <= #[trigger] b_old[a] <= n by {
            if a < with_origin.len() {
                if points[0] != 0 {
                    if a == 0 {
                        assert(with_origin[0] == 0);
                    } else {
                        assert(with_origin[a] == base[a - 1]);
                        assert(points[a - 1] < n);
                    }
                } else {
                    assert(with_origin[a] == base[a]);
                    assert(points[a] < n);
                }
            }
        }
        let lhs = spec_split_points(points.push(n as usize), items + g);
        let rhs = spec_split_points(points, items).push(g);
        assert(lhs.len() == b_new.len() - 1);
        assert(rhs.len() == (b_old.len() - 1) + 1);
        assert(lhs.len() == rhs.len());
        assert forall|a: int| 0 <= a < lhs.len() implies lhs[a] == rhs[a] by {
            if a < b_old.len() - 1 {
                assert(b_new[a] == b_old[a]);
                assert(b_new[a + 1] == b_old[a + 1]);
                assert((items + g).subrange(b_old[a], b_old[a + 1]) =~= items.subrange(
                    b_old[a],
                    b_old[a + 1],
                ));
            } else {
                assert(a == b_old.len() - 1);
                assert(b_new[a] == b_old[a]);
                assert(b_old[a] == n);
                assert(b_new[a + 1] == n + m);
                assert((items + g).subrange(n, n + m) =~= g);
                assert(rhs[a] == g);
            }
        }
        assert(lhs =~= rhs);
    }
}

/// Multi-parent crossover: shuffle the parents, split each into genes, pad
/// the gene lists with empty genes at random positions up to the largest
/// count, then fill each gene slot from a parent chosen at random,
/// recording an entry wherever the chosen gene is non-empty.
pub fn crossover(rng: &mut SimRng, dnas: Vec<Dna>) -> (r: Dna)
    requires
        dnas@.len() >= 1,
        forall|i: int| 0 <= i < dnas@.len() ==> (#[trigger] dnas@[i]).wf(),
    ensures
        r.wf(),
        crossover_post(dnas@, r),
{
    proof {
        broadcast use vstd::seq_lib::group_to_multiset_ensures;
        broadcast use vstd::multiset::group_multiset_axioms;
    }
    let ghost original = dnas@;
    let mut dnas = dnas;
    crate::rng::shuffle(rng, &mut dnas);
    proof {
        assert forall|i: int| 0 <= i < dnas@.len() implies (#[trigger] dnas@[i]).wf() by {
            broadcast use vstd::seq_lib::group_to_multiset_ensures;
            assert(dnas@.to_multiset().count(dnas@[i]) > 0);
            assert(original.contains(dnas@[i]));
        }
    }
    let ghost perm = dnas@;
    let parent_count = dnas.len();
    // split every genome into its genes
    let mut genes_all: Vec<Vec<Vec<Codon>>> = Vec::new();
    let mut dnas = dnas;
    while dnas.len() > 0
        invariant
            genes_all@.len() + dnas@.len() == perm.len(),
            dnas@ =~= perm.subrange(genes_all@.len() as int, perm.len() as int),
            forall|i: int| 0 <= i < perm.len() ==> (#[trigger] perm[i]).wf(),
            forall|q: int|
                0 <= q < genes_all@.len() ==> gene_views((#[trigger] genes_all@[q])@)
                    == genes_of(perm[q]),
        decreases dnas@.len(),
    {
        let ghost q = genes_all@.len();
        let d = dnas.remove(0);
        proof {
            assert(d == perm[q as int]);
        }
        let gs = split_points(&d.entries, &d.sequence);
        genes_all.push(gs);
        proof {
            assert(dnas@ =~= perm.subrange(genes_all@.len() as int, perm.len() as int));
        }
    }
    // the largest gene count across the parents
    let mut max_genes: usize = 0;
    let mut q: usize = 0;
    while q < genes_all.len()
        invariant
            genes_all@.len() == perm.len(),
            q <= perm.len(),
            forall|i: int| 0 <= i < perm.len() ==> (#[trigger] perm[i]).wf(),
            forall|i: int|
                0 <= i < perm.len() ==> gene_views((#[trigger] genes_all@[i])@) == genes_of(
                    perm[i],
                ),
            max_genes as int == max_gene_count(perm.subrange(0, q as int)),
        decreases perm.len() - q,
    {
        let c = genes_all[q].len();
        if c > max_genes {
            max_genes = c;
        }
        proof {
            let pre = perm.subrange(0, q as int);
            let now = perm.subrange(0, q + 1);
            assert(now.drop_last() =~= pre);
            assert(now.last() == perm[q as int]);
            assert(gene_views(genes_all@[q as int]@) == genes_of(perm[q as int]));
            assert(c as int == genes_of(perm[q as int]).len());
        }
        q = q + 1;
    }
    proof {
        assert(perm.subrange(0, perm.len() as int) =~= perm);
    }
    // pad every gene list with empty genes at random positions
    let mut q: usize = 0;
    while q < genes_all.len()
        invariant
            genes_all@.len() == perm.len(),
            q <= perm.len(),
            forall|i: int| 0 <= i < perm.len() ==> (#[trigger] perm[i]).wf(),
            max_genes as int == max_gene_count(perm),
            forall|i: int|
                q <= i < perm.len() ==> gene_views((#[trigger] genes_all@[i])@) == genes_of(
                    perm[i],
                ),
            forall|i: int|
                0 <= i < q ==> (#[trigger] genes_all@[i])@.len() == max_genes,
            forall|i: int, j: int|
                #![trigger genes_all@[i]@[j]]
                0 <= i < q && 0 <= j < genes_all@[i]@.len() && genes_all@[i]@[j]@.len() > 0
                    ==> genes_of(perm[i]).contains(genes_all@[i]@[j]@),
            forall|i: int|
                0 <= i < q ==> padded_with_empties(
                    genes_of(perm[i]),
                    gene_views((#[trigger] genes_all@[i])@),
                ),
        decreases perm.len() - q,
    {
        let mut gs = genes_all.remove(q);
        proof {
            assert(gene_views(gs@) == genes_of(perm[q as int]));
            assert(genes_of(perm[q as int]).len() <= max_gene_count(perm)) by {
                lemma_max_gene_count_bound(perm, q as int);
            }
            assert forall|j: int| 0 <= j < gs@.len() implies genes_of(perm[q as int]).contains(
                #[trigger] gs@[j]@,
            ) by {
                assert(gene_views(gs@)[j] == gs@[j]@);
            }
        }
        while gs.len() < max_genes
            invariant
                q < perm.len(),
                gs@.len() <= max_genes,
                forall|j: int|
                    #![trigger gs@[j]]
                    0 <= j < gs@.len() && gs@[j]@.len() > 0 ==> genes_of(
                        perm[q as int],
                    ).contains(gs@[j]@),
                padded_with_empties(genes_of(perm[q as int]), gene_views(gs@)),
            decreases max_genes - gs@.len(),
        {
            let position = rng.below(gs.len() + 1);
            let ghost pre = gs@;
            gs.insert(position, Vec::new());
            proof {
                pre.insert_ensures(position as int, gs@[position as int]);
                assert(gene_views(gs@) =~= gene_views(pre).insert(
                    position as int,
                    Seq::<Codon>::empty(),
                ));
                lemma_padding_insert(genes_of(perm[q as int]), gene_views(pre), position as int);
                assert forall|j: int|
                    0 <= j < gs@.len() && (#[trigger] gs@[j])@.len() > 0 implies genes_of(
                    perm[q as int],
                ).contains(gs@[j]@) by {
                    if j < position {
                        assert(gs@[j] == pre[j]);
                    } else if j > position {
                        assert(gs@[j] == pre[j - 1]);
                    } else {
                        assert(gs@[j]@.len() == 0);
                    }
                }
            }
        }
        genes_all.insert(q, gs);
        q = q + 1;
    }
    // assemble the child, one randomly chosen parent per gene slot
    let ghost padded_views: Seq<Seq<Seq<Codon>>> = Seq::new(
        perm.len(),
        |p: int| gene_views(genes_all@[p]@),
    );
    let ghost genes_final = genes_all@;
    let mut child = Dna::new();
    let ghost chosen_init: Seq<Seq<Codon>> = Seq::empty();
    let mut chosen: Ghost<Seq<Seq<Codon>>> = Ghost(chosen_init);
    let mut pick: Ghost<Seq<int>> = Ghost(Seq::empty());
    let mut k: usize = 0;
    while k < max_genes
        invariant
            genes_all@ == genes_final,
            padded_views == Seq::new(perm.len(), |p: int| gene_views(genes_final[p]@)),
            genes_all@.len() == perm.len(),
            perm.len() >= 1,
            parent_count == perm.len(),
            k <= max_genes,
            forall|i: int| 0 <= i < perm.len() ==> (#[trigger] genes_all@[i])@.len() == max_genes,
            forall|i: int, j: int|
                #![trigger genes_all@[i]@[j]]
                0 <= i < perm.len() && 0 <= j < max_genes && genes_all@[i]@[j]@.len() > 0
                    ==> genes_of(perm[i]).contains(genes_all@[i]@[j]@),
            chosen@.len() == k,
            pick@.len() == k,
            forall|j: int|
                0 <= j < k ==> 0 <= #[trigger] pick@[j] < perm.len() && chosen@[j]
                    == padded_views[pick@[j]][j],
            forall|j: int|
                0 <= j < k && (#[trigger] chosen@[j]).len() > 0 ==> exists|p: int|
                    0 <= p < perm.len() && genes_of(#[trigger] perm[p]).contains(chosen@[j]),
            child.wf(),
            child.entries@.len() > 0 || child.sequence@.len() == 0,
            spec_split_points(child.entries@, child.sequence@) == nonempty_genes(chosen@),
        decreases max_genes - k,
    {
        let which = rng.below(parent_count);
        let gene = genes_all[which][k].clone();
        proof {
            assert(gene@ =~= genes_all@[which as int]@[k as int]@);
            assert(padded_views[which as int] == gene_views(genes_final[which as int]@));
            assert(gene_views(genes_final[which as int]@)[k as int] == genes_final[which as int]@[k as int]@);
        }
        pick = Ghost(pick@.push(which as int));
        if gene.len() > 0 {
            let ghost prev_points = child.entries@;
            let ghost prev_items = child.sequence@;
            let start = child.sequence.len();
            child.entries.push(start);
            let mut j: usize = 0;
            while j < gene.len()
                invariant
                    j <= gene@.len(),
                    child.sequence@ == prev_items + gene@.subrange(0, j as int),
                    child.entries@ == prev_points.push(start),
                    start == prev_items.len(),
                decreases gene@.len() - j,
            {
                child.sequence.push(gene[j]);
                proof {
                    assert(prev_items + gene@.subrange(0, j as int) + seq![gene@[j as int]]
                        =~= prev_items + gene@.subrange(0, j + 1));
                }
                j = j + 1;
            }
            let total_now = child.sequence.len();
            proof {
                assert(gene@.subrange(0, gene@.len() as int) =~= gene@);
                assert(child.sequence@ == prev_items + gene@);
                assert(child.sequence@.len() == total_now);
                lemma_split_append(prev_points, prev_items, gene@);
                lemma_nonempty_genes_push(chosen@, gene@);
                // the new entry keeps the offsets strictly increasing and in range
                assert forall|a: int|
                    0 <= a < child.entries@.len() implies (#[trigger] child.entries@[a])
                    < child.sequence@.len() by {
                    if a < prev_points.len() {
                        assert(child.entries@[a] == prev_points[a]);
                    } else {
                        assert(child.entries@[a] == start);
                    }
                }
                assert forall|a: int, b: int|
                    0 <= a < b < child.entries@.len() implies #[trigger] child.entries@[a]
                    < #[trigger] child.entries@[b] by {
                    if b < prev_points.len() {
                    } else {
                        assert(child.entries@[b] == start);
                        if a < prev_points.len() {
                            assert(child.entries@[a] == prev_points[a]);
                            assert(prev_points[a] < prev_items.len());
                        }
                    }
                }
            }
            chosen = Ghost(chosen@.push(gene@));
        } else {
            proof {
                lemma_nonempty_genes_push(chosen@, gene@);
            }
            chosen = Ghost(chosen@.push(gene@));
        }
        k = k + 1;
    }
    proof {
        assert(crossover_witness(original, child, perm, chosen@)) by {
            assert(genes_of(child) == spec_split_points(child.entries@, child.sequence@));
            assert(slot_assignment(perm, chosen@, padded_views, pick@)) by {
                assert forall|p: int| 0 <= p < perm.len() implies (#[trigger] padded_views[p]).len()
                    == chosen@.len() && padded_with_empties(genes_of(perm[p]), padded_views[p]) by {
                    assert(padded_views[p] == gene_views(genes_final[p]@));
                }
            }
        }
    }
    child
}

/// Hard cap on the instruction count of a freshly sampled genome.
pub const RANDOM_SEQ_CAP: usize = 4096;

/// Hard cap on the entry count of a freshly sampled genome.
pub const RANDOM_ENTRY_CAP: usize = 1024;

/// A fresh random genome: an instruction count drawn from a geometric
/// distribution with mean near 256 (capped), that many random instructions,
/// then an entry count drawn the same way with mean near 64 (capped), each
/// entry a random offset, duplicates merged.
pub fn random_dna(rng: &mut SimRng) -> (r: Dna)
    ensures
        r.wf(),
{
    let mut d = Dna::new();
    let mut go = true;
    while go && d.sequence.len() < RANDOM_SEQ_CAP
        invariant
            d.entries@.len() == 0,
            d.wf(),
        decreases RANDOM_SEQ_CAP - d.sequence@.len(), (if go { 1int } else { 0int }),
    {
        if rng.below(257) == 0 {
            go = false;
        } else {
            let c = random_codon(rng);
            d.sequence.push(c);
        }
    }
    if d.sequence.len() > 0 {
        let mut go = true;
        let mut k: usize = 0;
        while go && k < RANDOM_ENTRY_CAP
            invariant
                d.wf(),
                d.sequence@.len() > 0,
            decreases RANDOM_ENTRY_CAP - k, (if go { 1int } else { 0int }),
        {
            if rng.below(65) == 0 {
                go = false;
            } else {
                let offset = rng.below(d.sequence.len());
                insert_entry_sorted(&mut d.entries, offset, d.sequence.len());
                k = k + 1;
            }
        }
    }
    d
}

/// Each genome's gene count is bounded by the maximum over the list.
proof fn lemma_max_gene_count_bound(ds: Seq<Dna>, i: int)
    requires
        0 <= i < ds.len(),
    ensures
        genes_of(ds[i]).len() <= max_gene_count(ds),
    decreases ds.len(),
{
    if ds.len() > 0 {
        if i == ds.len() - 1 {
            assert(ds.last() == ds[i]);
        } else {
            lemma_max_gene_count_bound(ds.drop_last(), i);
            assert(ds.drop_last()[i] == ds[i]);
        }
    }
}

} // verus!
