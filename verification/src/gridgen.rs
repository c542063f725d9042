//! The wall generator: a randomized incremental union of open areas, run
//! once at simulation setup. Every position is visited in a random order;
//! a position with no open neighbor area starts a new area, one that
//! would widen a single neighboring area beyond a corridor stays a wall,
//! and any other position merges the areas around it and opens.
use vstd::prelude::*;
use crate::rng::SimRng;
use crate::rng::shuffle;

verus! {

/// One step on a wrapped axis of length `shape`.
pub open spec fn spec_wrap(pos: int, shape: int, delt: int) -> int {
    (pos + shape + delt) % shape
}

/// Move `pos` by `delt` on an axis of length `shape`, wrapping around.
pub fn wrap(pos: usize, shape: usize, delt: isize) -> (r: usize)
    requires
        1 <= shape,
        pos < shape,
        -1 <= delt <= 1,
        shape < usize::MAX / 2,
    ensures
        r == spec_wrap(pos as int, shape as int, delt as int),
        r < shape,
{
    let t: usize = if delt < 0 {
        pos + (shape - 1)
    } else if delt > 0 {
        pos + shape + 1
    } else {
        pos + shape
    };
    let r = t % shape;
    proof {
        vstd::arithmetic::div_mod::lemma_mod_bound(
            pos as int + shape as int + delt as int,
            shape as int,
        );
    }
    r
}

/// Move a 2-D position by a delta on a wrapped grid.
pub fn dir(pos: (usize, usize), shape: (usize, usize), delta: (isize, isize)) -> (r: (
    usize,
    usize,
))
    requires
        1 <= shape.0,
        1 <= shape.1,
        pos.0 < shape.0,
        pos.1 < shape.1,
        -1 <= delta.0 <= 1,
        -1 <= delta.1 <= 1,
        shape.0 < usize::MAX / 2,
        shape.1 < usize::MAX / 2,
    ensures
        r.0 == spec_wrap(pos.0 as int, shape.0 as int, delta.0 as int),
        r.1 == spec_wrap(pos.1 as int, shape.1 as int, delta.1 as int),
        r.0 < shape.0,
        r.1 < shape.1,
{
    (wrap(pos.0, shape.0, delta.0), wrap(pos.1, shape.1, delta.1))
}

/// The four axis neighbors of a position, wrapping around the grid.
pub fn dirs(pos: (usize, usize), shape: (usize, usize)) -> (r: Vec<(usize, usize)>)
    requires
        1 <= shape.0,
        1 <= shape.1,
        pos.0 < shape.0,
        pos.1 < shape.1,
        shape.0 < usize::MAX / 2,
        shape.1 < usize::MAX / 2,
    ensures
        r@.len() == 4,
        r@[0].0 == spec_wrap(pos.0 as int, shape.0 as int, 1) && r@[0].1 == pos.1,
        r@[1].0 == pos.0 && r@[1].1 == spec_wrap(pos.1 as int, shape.1 as int, 1),
        r@[2].0 == spec_wrap(pos.0 as int, shape.0 as int, -1) && r@[2].1 == pos.1,
        r@[3].0 == pos.0 && r@[3].1 == spec_wrap(pos.1 as int, shape.1 as int, -1),
        forall|k: int| 0 <= k < 4 ==> (#[trigger] r@[k]).0 < shape.0 && r@[k].1 < shape.1,
{
    let mut r: Vec<(usize, usize)> = Vec::new();
    let d0 = dir(pos, shape, (1, 0));
    let d1 = dir(pos, shape, (0, 1));
    let d2 = dir(pos, shape, (-1, 0));
    let d3 = dir(pos, shape, (0, -1));
    r.push(d0);
    r.push(d1);
    r.push(d2);
    r.push(d3);
    proof {
        assert(r@[0] == d0 && r@[1] == d1 && r@[2] == d2 && r@[3] == d3);
        vstd::arithmetic::div_mod::lemma_mod_multiples_vanish(1, pos.0 as int, shape.0 as int);
        vstd::arithmetic::div_mod::lemma_mod_multiples_vanish(1, pos.1 as int, shape.1 as int);
        vstd::arithmetic::div_mod::lemma_small_mod(pos.0 as nat, shape.0 as nat);
        vstd::arithmetic::div_mod::lemma_small_mod(pos.1 as nat, shape.1 as nat);
        assert(spec_wrap(pos.0 as int, shape.0 as int, 0) == pos.0);
        assert(spec_wrap(pos.1 as int, shape.1 as int, 0) == pos.1);
    }
    r
}

/// Carve a wall pattern for a grid of `shape.0` rows by `shape.1`
/// columns; `true` marks a wall. Row-major: position `(row, col)` is at
/// `row * shape.1 + col`.
pub fn generate_walls(rng: &mut SimRng, shape: (usize, usize)) -> (r: Vec<bool>)
    requires
        1 <= shape.0,
        1 <= shape.1,
        shape.0 < usize::MAX / 2,
        shape.1 < usize::MAX / 2,
        shape.0 * shape.1 <= usize::MAX,
    ensures
        r@.len() == shape.0 * shape.1,
        exists|i: int| 0 <= i < r@.len() && !(#[trigger] r@[i]),
{
    let rows = shape.0;
    let cols = shape.1;
    let n = rows * cols;
    proof {
        let ri = rows as int;
        let ci = cols as int;
        assert(ri * ci >= 1) by (nonlinear_arith)
            requires
                ri >= 1,
                ci >= 1,
        ;
    }
    // the grid under construction, all walls at first
    let mut grid: Vec<bool> = Vec::new();
    // which open area each opened position belongs to
    let mut open: Vec<Option<usize>> = Vec::new();
    let mut i: usize = 0;
    while i < n
        invariant
            i <= n,
            grid@.len() == i,
            open@.len() == i,
            forall|p: int| 0 <= p < i ==> (#[trigger] open@[p]) is None,
        decreases n - i,
    {
        grid.push(true);
        open.push(None);
        i = i + 1;
    }
    // an arena of areas, each holding its open positions
    let mut areas: Vec<Option<Vec<usize>>> = Vec::new();
    // visit every position in a random order
    let mut order: Vec<usize> = Vec::new();
    let mut i: usize = 0;
    while i < n
        invariant
            i <= n,
            order@.len() == i,
            forall|k: int| 0 <= k < i ==> (#[trigger] order@[k]) < n,
        decreases n - i,
    {
        order.push(i);
        i = i + 1;
    }
    shuffle(rng, &mut order);
    proof {
        broadcast use vstd::seq_lib::group_to_multiset_ensures;

        assert forall|k: int| 0 <= k < order@.len() implies (#[trigger] order@[k]) < n by {
            assert(order@.to_multiset().count(order@[k]) > 0);
        }
    }
    let mut oi: usize = 0;
    while oi < order.len()
        invariant
            grid@.len() == n,
            open@.len() == n,
            n == rows * cols,
            1 <= rows,
            1 <= cols,
            rows < usize::MAX / 2,
            cols < usize::MAX / 2,
            oi <= order@.len(),
            order@.len() == n,
            n >= 1,
            forall|k: int| 0 <= k < order@.len() ==> (#[trigger] order@[k]) < n,
            oi == 0 ==> forall|p: int| 0 <= p < n ==> (#[trigger] open@[p]) is None,
            oi >= 1 ==> exists|i: int| 0 <= i < n && !(#[trigger] grid@[i]),
        decreases order@.len() - oi,
    {
        let ghost grid_at_entry = grid@;
        let pos = order[oi];
        let y = pos / cols;
        let x = pos % cols;
        proof {
            assert(y < rows) by (nonlinear_arith)
                requires
                    cols >= 1,
                    rows >= 1,
                    pos < rows * cols,
                    y == pos as int / cols as int,
            ;
            vstd::arithmetic::div_mod::lemma_mod_bound(pos as int, cols as int);
        }
        let ghost grid_at_entry_open = open@;
        let neighbors = dirs((y, x), (rows, cols));
        // the distinct neighboring areas, and how many open neighbors
        let mut neighbor_areas: Vec<usize> = Vec::new();
        let mut num_open: usize = 0;
        let mut k: usize = 0;
        while k < neighbors.len()
            invariant
                grid@.len() == n,
                open@.len() == n,
                n == rows * cols,
                1 <= rows,
                1 <= cols,
                neighbors@.len() == 4,
                forall|j: int|
                    0 <= j < 4 ==> (#[trigger] neighbors@[j]).0 < rows && neighbors@[j].1 < cols,
                k <= 4,
                num_open <= k,
                neighbor_areas@.len() <= k,
                open@ == grid_at_entry_open,
                (forall|p: int| 0 <= p < n ==> (#[trigger] open@[p]) is None)
                    ==> neighbor_areas@.len() == 0,
            decreases neighbors@.len() - k,
        {
            let (ny, nx) = neighbors[k];
            proof {
                let nyi = ny as int;
                let nxi = nx as int;
                let ci = cols as int;
                let ri = rows as int;
                assert(nyi * ci + nxi < ri * ci && nyi * ci >= 0) by (nonlinear_arith)
                    requires
                        0 <= nyi < ri,
                        0 <= nxi < ci,
                        ci >= 1,
                        ri >= 1,
                ;
            }
            let ni = ny * cols + nx;
            match open[ni] {
                Some(a) => {
                    num_open = num_open + 1;
                    let mut seen = false;
                    let mut j: usize = 0;
                    while j < neighbor_areas.len()
                        invariant
                            j <= neighbor_areas@.len(),
                        decreases neighbor_areas@.len() - j,
                    {
                        if neighbor_areas[j] == a {
                            seen = true;
                        }
                        j = j + 1;
                    }
                    if !seen {
                        neighbor_areas.push(a);
                    }
                },
                None => {},
            }
            k = k + 1;
        }
        if neighbor_areas.len() == 0 {
            // no open area nearby: this position starts a new one
            let aid = areas.len();
            let mut members: Vec<usize> = Vec::new();
            members.push(pos);
            areas.push(Some(members));
            open[pos] = Some(aid);
            grid[pos] = false;
        } else if neighbor_areas.len() == 1 && num_open > 1 {
            // opening here would widen a single area into a hall: stay a wall
        } else {
            // merge every neighboring area into the first one and open
            let fa = neighbor_areas[0];
            let mut k: usize = 1;
            while k < neighbor_areas.len()
                invariant
                    grid@.len() == n,
                    open@.len() == n,
                    k <= neighbor_areas@.len(),
                    fa == neighbor_areas@[0],
                decreases neighbor_areas@.len() - k,
            {
                let a = neighbor_areas[k];
                // consult the arena defensively: a stale or out-of-range id
                // simply contributes nothing
                if a < areas.len() && a != fa {
                    let moved = areas.remove(a);
                    areas.insert(a, None);
                    match moved {
                        Some(spots) => {
                            let mut m: usize = 0;
                            while m < spots.len()
                                invariant
                                    open@.len() == n,
                                    m <= spots@.len(),
                                decreases spots@.len() - m,
                            {
                                let spot = spots[m];
                                if spot < n {
                                    open[spot] = Some(fa);
                                }
                                m = m + 1;
                            }
                            if fa < areas.len() {
                                let fslot = areas.remove(fa);
                                let mut fvec = match fslot {
                                    Some(v) => v,
                                    None => Vec::new(),
                                };
                                let mut m: usize = 0;
                                let mut spots = spots;
                                while spots.len() > 0
                                    invariant
                                        true,
                                    decreases spots@.len(),
                                {
                                    let spot = spots.remove(0);
                                    fvec.push(spot);
                                }
                                areas.insert(fa, Some(fvec));
                            }
                        },
                        None => {},
                    }
                }
                k = k + 1;
            }
            if fa < areas.len() {
                let fslot = areas.remove(fa);
                let mut fvec = match fslot {
                    Some(v) => v,
                    None => Vec::new(),
                };
                fvec.push(pos);
                areas.insert(fa, Some(fvec));
            }
            open[pos] = Some(fa);
            grid[pos] = false;
        }
        proof {
            if oi == 0 {
                // the first visited position sees no open area and founds one
                assert(!grid@[pos as int]);
            } else {
                let w = choose|i: int| 0 <= i < n && !grid_at_entry[i];
                assert(!grid@[w]);
            }
        }
        oi = oi + 1;
    }
    grid
}

} // verus!
