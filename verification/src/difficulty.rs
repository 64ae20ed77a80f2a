//! Difficulty model: the target clue count for each difficulty level, and
//! unconditional strategic cell removal.

use crate::grid::num_zeros;
use crate::rng::new_rng;
use vstd::arithmetic::div_mod::{lemma_div_by_multiple, lemma_div_is_ordered};
use vstd::arithmetic::mul::lemma_mul_inequality;
use vstd::prelude::*;

verus! {

/// The difficulty levels accepted at the request boundary: `0` (easy) to
/// `3` (expert).
pub open spec fn spec_valid_difficulty(difficulty: i32) -> bool {
    0 <= difficulty <= 3
}

/// The clue percentage for a difficulty level, in hundredths: easy keeps
/// 55% of the cells, medium 40%, hard 30%, expert 22%. Any other level
/// falls back to medium.
pub open spec fn spec_clue_percent(difficulty: i32) -> int {
    if difficulty == 0 {
        55
    } else if difficulty == 1 {
        40
    } else if difficulty == 2 {
        30
    } else if difficulty == 3 {
        22
    } else {
        40
    }
}

/// The clue-count target for a grid of edge `size` at the given difficulty:
/// the clue percentage of the cell count, rounded down.
pub open spec fn spec_clue_target(size: nat, difficulty: i32) -> int {
    (size * size * spec_clue_percent(difficulty)) / 100
}

/// Lower difficulty levels never aim for fewer clues than higher ones,
/// and for any real grid (edge length at least 2) the easy target is
/// strictly larger than the expert target: the 55% and 22% bands are far
/// enough apart that the targets differ even after rounding down.
pub proof fn lemma_clue_target_monotonic(size: nat)
    ensures
        spec_clue_target(size, 0) >= spec_clue_target(size, 1),
        spec_clue_target(size, 1) >= spec_clue_target(size, 2),
        spec_clue_target(size, 2) >= spec_clue_target(size, 3),
        size >= 2 ==> spec_clue_target(size, 0) > spec_clue_target(size, 3),
{
    let t = (size * size) as int;
    assert(t >= 0);
    lemma_mul_inequality(40, 55, t);
    lemma_mul_inequality(30, 40, t);
    lemma_mul_inequality(22, 30, t);
    assert(t * 55 == 55 * t && t * 40 == 40 * t && t * 30 == 30 * t && t * 22 == 22 * t)
        by (nonlinear_arith);
    lemma_div_is_ordered(t * 40, t * 55, 100);
    lemma_div_is_ordered(t * 30, t * 40, 100);
    lemma_div_is_ordered(t * 22, t * 30, 100);
    if size >= 2 {
        assert(t >= 4 && t * 55 >= t * 22 + 100) by (nonlinear_arith)
            requires
                t == size * size,
                size >= 2,
        ;
        let b = t * 22;
        vstd::arithmetic::div_mod::lemma_fundamental_div_mod(b, 100);
        vstd::arithmetic::div_mod::lemma_mod_bound(b, 100);
        vstd::arithmetic::div_mod::lemma_fundamental_div_mod_converse_div(
            b + 100,
            100,
            b / 100 + 1,
            b % 100,
        );
        lemma_div_is_ordered(b + 100, t * 55, 100);
    }
}

/// Tells whether `difficulty` is an accepted difficulty level.
pub fn is_valid_difficulty(difficulty: i32) -> (r: bool)
    ensures
        r == spec_valid_difficulty(difficulty),
{
    0 <= difficulty && difficulty <= 3
}

/// The display name of a difficulty level.
pub fn difficulty_name(difficulty: i32) -> (r: &'static str)
    ensures
        difficulty == 0 ==> r@ == "easy"@,
        difficulty == 1 ==> r@ == "medium"@,
        difficulty == 2 ==> r@ == "hard"@,
        difficulty == 3 ==> r@ == "expert"@,
        !spec_valid_difficulty(difficulty) ==> r@ == "unknown"@,
{
    match difficulty {
        0 => "easy",
        1 => "medium",
        2 => "hard",
        3 => "expert",
        _ => "unknown",
    }
}

/// Computes the target number of clues for a grid of edge `size` at the
/// given difficulty level.
pub fn calculate_clue_count(size: usize, difficulty: i32) -> (r: usize)
    requires
        size * size <= usize::MAX,
    ensures
        r == spec_clue_target(size as nat, difficulty),
        r <= size * size,
{
    let total = size * size;
    let percentage: u128 = if difficulty == 0 {
        55
    } else if difficulty == 1 {
        40
    } else if difficulty == 2 {
        30
    } else if difficulty == 3 {
        22
    } else {
        40
    };
    let t = (total as u128) * percentage / 100;
    proof {
        let tt = total as int;
        let p = percentage as int;
        lemma_mul_inequality(p, 100, tt);
        assert(tt * p == p * tt) by (nonlinear_arith);
        assert(tt * 100 == 100 * tt) by (nonlinear_arith);
        lemma_div_is_ordered(tt * p, tt * 100, 100);
        lemma_div_by_multiple(tt, 100);
        assert(tt * 100 == 100 * tt) by (nonlinear_arith);
    }
    t as usize
}

/// Removes cells from `grid` in a seeded random order, unconditionally,
/// until the clue count would drop below `target_clues` or every cell was
/// visited. Returns the number of removal steps taken. The `_solution`
/// argument is kept for interface compatibility and not consulted.
pub fn remove_cells_strategically(
    grid: &mut Vec<i32>,
    _solution: &Vec<i32>,
    target_clues: usize,
    size: usize,
    seed: u64,
) -> (removed: usize)
    requires
        old(grid)@.len() == size * size,
        size * size <= usize::MAX,
    ensures
        final(grid)@.len() == size * size,
        removed == if target_clues <= size * size {
            size * size - target_clues
        } else {
            0
        },
        forall|i: int|
            0 <= i < size * size ==> #[trigger] final(grid)@[i] == old(grid)@[i]
                || final(grid)@[i] == 0,
        forall|i: int| 0 <= i < size * size && old(grid)@[i] == 0 ==> #[trigger] final(grid)@[i]
            == 0,
        num_zeros(final(grid)@) >= num_zeros(old(grid)@),
{
    let mut rng = new_rng(seed);
    let total_cells = size * size;
    let target_removals = if total_cells >= target_clues {
        total_cells - target_clues
    } else {
        0
    };
    let mut indices: Vec<usize> = Vec::new();
    let mut k: usize = 0;
    while k < total_cells
        invariant
            indices@.len() == k,
            k <= total_cells,
            forall|j: int| 0 <= j < k ==> #[trigger] indices@[j] == j,
        decreases total_cells - k,
    {
        indices.push(k);
        k = k + 1;
    }
    let ghost pre = indices@;
    crate::generator::shuffle_indices(&mut indices, &mut rng);
    proof {
        assert forall|j: int| 0 <= j < indices@.len() implies #[trigger] indices@[j]
            < total_cells by {
            let j0 = choose|j0: int| 0 <= j0 < pre.len() && pre[j0] == indices@[j];
        }
    }
    let mut removed: usize = 0;
    let mut iidx: usize = 0;
    while iidx < total_cells && removed < target_removals
        invariant
            grid@.len() == size * size,
            total_cells == size * size,
            indices@.len() == total_cells,
            target_removals <= total_cells,
            forall|j: int| 0 <= j < indices@.len() ==> #[trigger] indices@[j] < total_cells,
            removed == iidx,
            removed <= target_removals,
            iidx <= total_cells,
            forall|i: int|
                0 <= i < size * size ==> #[trigger] grid@[i] == old(grid)@[i] || grid@[i] == 0,
            forall|i: int|
                0 <= i < size * size && old(grid)@[i] == 0 ==> #[trigger] grid@[i] == 0,
            num_zeros(grid@) >= num_zeros(old(grid)@),
        decreases total_cells - iidx,
    {
        let idx = indices[iidx];
        let ghost before = grid@;
        let original_value = grid[idx];
        grid.set(idx, 0);
        proof {
            if original_value == 0 {
                assert(grid@ =~= before);
            } else {
                crate::grid::lemma_num_zeros_clear(before, idx as int);
            }
        }
        removed = removed + 1;
        iidx = iidx + 1;
    }
    removed
}

} // verus!
