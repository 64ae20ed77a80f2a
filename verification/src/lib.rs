//! Deterministic Sudoku puzzle generation and validation.
//!
//! A complete solution grid is built from a caller-supplied seed, then a
//! puzzle is carved out of it by removing cells, keeping the solution
//! unique for the classic 9x9 size. Grids are flat row-major `Vec<i32>`
//! buffers: `0` marks an empty cell, `1..=size` a placed digit.

use vstd::prelude::*;

pub mod difficulty;
pub mod generator;
pub mod grid;
pub mod rng;
pub mod solver;

use crate::difficulty::{spec_clue_target, spec_valid_difficulty};
use crate::grid::{num_zeros, solution_count, spec_isqrt, valid_solution};
use crate::solver::size_ok;

verus! {

/// The grid edge sizes accepted at the request boundary.
pub open spec fn spec_valid_size(size: i32) -> bool {
    size == 9 || size == 16 || size == 25 || size == 36 || size == 49 || size == 100
}

/// Tells whether `size` is one of the accepted grid edge sizes.
pub fn is_valid_size(size: i32) -> (r: bool)
    ensures
        r == spec_valid_size(size),
{
    matches!(size, 9 | 16 | 25 | 36 | 49 | 100)
}

/// A generated puzzle together with the complete solution it was carved
/// from, both as flat row-major buffers.
#[derive(Debug)]
pub struct PuzzleResult {
    pub grid: Vec<i32>,
    pub solution: Vec<i32>,
}

/// Why a generation request was refused.
#[derive(Clone, Copy, Debug, PartialEq, Eq, Structural)]
pub enum GenerateError {
    /// The requested edge length is not one of the accepted sizes.
    InvalidSize,
    /// The requested difficulty level is outside `0..=3`.
    InvalidDifficulty,
    /// The freshly generated solution failed re-validation; this reports an
    /// algorithm defect, not a caller mistake.
    InternalConsistencyFailure,
}

/// The accepted sizes are perfect squares whose sub-grid edge divides them,
/// so every machine-limit precondition of the grid routines holds.
proof fn lemma_accepted_size_ok(size: i32)
    requires
        spec_valid_size(size),
    ensures
        size_ok(size as nat),
        (size as int) * (size as int) < usize::MAX,
        spec_isqrt(size as int) * spec_isqrt(size as int) == size,
{
    crate::grid::lemma_isqrt_unique(9, 3);
    crate::grid::lemma_isqrt_unique(16, 4);
    crate::grid::lemma_isqrt_unique(25, 5);
    crate::grid::lemma_isqrt_unique(36, 6);
    crate::grid::lemma_isqrt_unique(49, 7);
    crate::grid::lemma_isqrt_unique(100, 10);
    let n = size as int;
    assert(0 <= n * n <= 10000) by (nonlinear_arith)
        requires
            0 <= n <= 100,
    ;
    assert(usize::MAX >= 0xffff_ffff);
}

/// Generates a Sudoku puzzle: validates the request, builds a complete
/// solution deterministically from the seed, re-validates it defensively,
/// and carves the puzzle with the seed offset by one so that removal order
/// and solution shape draw from different pseudo-random streams.
///
/// On success the solution is a valid complete grid, every clue of the
/// puzzle equals the solution's digit at the same index, the clue count
/// meets the difficulty's removal target except where the uniqueness check
/// kept a cell, and a puzzle of edge 9 has exactly one completion.
pub fn generate(size: i32, difficulty: i32, seed: u64) -> (r: Result<PuzzleResult, GenerateError>)
    ensures
        !spec_valid_size(size) ==> r == Err::<PuzzleResult, GenerateError>(
            GenerateError::InvalidSize,
        ),
        spec_valid_size(size) && !spec_valid_difficulty(difficulty) ==> r == Err::<
            PuzzleResult,
            GenerateError,
        >(GenerateError::InvalidDifficulty),
        r matches Ok(p) ==> {
            &&& spec_valid_size(size)
            &&& spec_valid_difficulty(difficulty)
            &&& p.solution@.len() == size * size
            &&& valid_solution(p.solution@, size as nat)
            &&& p.grid@.len() == size * size
            &&& forall|i: int|
                0 <= i < p.grid@.len() ==> #[trigger] p.grid@[i] == p.solution@[i] || p.grid@[i]
                    == 0
            &&& (size == 9 ==> solution_count(p.grid@, size as nat) == 1)
            &&& (size == 9 ==> num_zeros(p.grid@) >= 1)
            &&& num_zeros(p.grid@) <= size * size - spec_clue_target(size as nat, difficulty)
            &&& (size != 9 ==> num_zeros(p.grid@) == size * size - spec_clue_target(
                size as nat,
                difficulty,
            ))
        },
        r matches Err(e) ==> {
            &&& (e == GenerateError::InvalidSize <==> !spec_valid_size(size))
            &&& (e == GenerateError::InvalidDifficulty <==> spec_valid_size(size)
                && !spec_valid_difficulty(difficulty))
        },
        spec_valid_size(size) && spec_valid_difficulty(difficulty) ==> r matches Ok(_),
{
    if !is_valid_size(size) {
        return Err(GenerateError::InvalidSize);
    }
    if !crate::difficulty::is_valid_difficulty(difficulty) {
        return Err(GenerateError::InvalidDifficulty);
    }
    proof {
        lemma_accepted_size_ok(size);
    }
    let size_usize = size as usize;
    let solution = crate::generator::generate_solution(size_usize, seed);
    if !crate::solver::is_valid_solution(&solution, size_usize) {
        return Err(GenerateError::InternalConsistencyFailure);
    }
    let mut solution_copy: Vec<i32> = Vec::new();
    let mut k: usize = 0;
    while k < solution.len()
        invariant
            solution_copy@.len() == k,
            k <= solution@.len(),
            forall|i: int| 0 <= i < k ==> #[trigger] solution_copy@[i] == solution@[i],
        decreases solution@.len() - k,
    {
        solution_copy.push(solution[k]);
        k = k + 1;
    }
    proof {
        assert(solution_copy@ =~= solution@);
    }
    let grid = crate::generator::create_puzzle(
        solution_copy,
        difficulty,
        size_usize,
        seed.wrapping_add(1),
    );
    Ok(PuzzleResult { grid, solution })
}

} // verus!
