//! Solution generation and puzzle carving: randomized backtracking fill for
//! the classic size, closed-form pattern construction for large sizes, the
//! bounded solution counter, and uniqueness-preserving cell removal.

use crate::difficulty::{calculate_clue_count, spec_clue_target};
use crate::grid::{
    at, completions_branches, completions_from, in_grid, lemma_completions_filled,
    lemma_index_bound, lemma_index_split, lemma_num_zeros_clear, lemma_num_zeros_filled,
    no_conflicts, num_zeros, placement_ok, prefix_filled, solution_count, spec_isqrt,
    sub_grid_size, suffix_empty, valid_solution,
};
use crate::rng::{new_rng, rand_index};
use crate::solver::size_ok;
use vstd::prelude::*;

verus! {

/// Shuffles the digit candidates in place with the seeded generator
/// (Fisher-Yates). The result holds exactly the values that were there,
/// possibly reordered: every entry comes from the input, and distinct
/// entries stay distinct.
pub(crate) fn shuffle_numbers(numbers: &mut Vec<i32>, rng: &mut rand::rngs::StdRng)
    ensures
        final(numbers)@.len() == old(numbers)@.len(),
        final(numbers)@.to_multiset() == old(numbers)@.to_multiset(),
        forall|k: int|
            0 <= k < final(numbers)@.len() ==> old(numbers)@.contains(#[trigger] final(numbers)@[k]),
        old(numbers)@.no_duplicates() ==> final(numbers)@.no_duplicates(),
{
    let len = numbers.len();
    let mut i: usize = len;
    while i > 1
        invariant
            numbers@.len() == len,
            i <= len,
            numbers@.to_multiset() == old(numbers)@.to_multiset(),
            forall|k: int| 0 <= k < len ==> old(numbers)@.contains(#[trigger] numbers@[k]),
            old(numbers)@.no_duplicates() ==> numbers@.no_duplicates(),
        decreases i,
    {
        i = i - 1;
        let j = rand_index(rng, i);
        let ghost prev = numbers@;
        let a = numbers[i];
        let b = numbers[j];
        numbers.set(i, b);
        numbers.set(j, a);
        proof {
            broadcast use vstd::multiset::group_multiset_axioms;

            if i == j {
                assert(numbers@ =~= prev);
            } else {
                prev.to_multiset_ensures();
                prev.update(i as int, prev[j as int]).to_multiset_ensures();
                assert(prev.contains(prev[i as int]));
                assert(prev.update(i as int, prev[j as int])[i as int] == prev[j as int]);
                assert(prev.update(i as int, prev[j as int]).contains(prev[j as int]));
                vstd::seq_lib::to_multiset_update(prev, i as int, prev[j as int]);
                vstd::seq_lib::to_multiset_update(
                    prev.update(i as int, prev[j as int]),
                    j as int,
                    prev[i as int],
                );
                assert(numbers@.to_multiset() =~= prev.to_multiset());
            }
            assert forall|k: int| 0 <= k < len implies old(numbers)@.contains(
                #[trigger] numbers@[k],
            ) by {
                assert(numbers@[k] == prev[k] || numbers@[k] == prev[i as int] || numbers@[k]
                    == prev[j as int]);
            }
            if old(numbers)@.no_duplicates() {
                assert forall|k1: int, k2: int|
                    0 <= k1 < len && 0 <= k2 < len && k1 != k2 implies numbers@[k1]
                    != numbers@[k2] by {
                    assert(prev.no_duplicates());
                }
            }
        }
    }
}

/// Shuffles the removal-order indices in place with the seeded generator
/// (Fisher-Yates); same contract as the digit shuffle.
pub(crate) fn shuffle_indices(indices: &mut Vec<usize>, rng: &mut rand::rngs::StdRng)
    ensures
        final(indices)@.len() == old(indices)@.len(),
        final(indices)@.to_multiset() == old(indices)@.to_multiset(),
        forall|k: int|
            0 <= k < final(indices)@.len() ==> old(indices)@.contains(#[trigger] final(indices)@[k]),
        old(indices)@.no_duplicates() ==> final(indices)@.no_duplicates(),
{
    let len = indices.len();
    let mut i: usize = len;
    while i > 1
        invariant
            indices@.len() == len,
            i <= len,
            indices@.to_multiset() == old(indices)@.to_multiset(),
            forall|k: int| 0 <= k < len ==> old(indices)@.contains(#[trigger] indices@[k]),
            old(indices)@.no_duplicates() ==> indices@.no_duplicates(),
        decreases i,
    {
        i = i - 1;
        let j = rand_index(rng, i);
        let ghost prev = indices@;
        let a = indices[i];
        let b = indices[j];
        indices.set(i, b);
        indices.set(j, a);
        proof {
            broadcast use vstd::multiset::group_multiset_axioms;

            if i == j {
                assert(indices@ =~= prev);
            } else {
                prev.to_multiset_ensures();
                prev.update(i as int, prev[j as int]).to_multiset_ensures();
                assert(prev.contains(prev[i as int]));
                assert(prev.update(i as int, prev[j as int])[i as int] == prev[j as int]);
                assert(prev.update(i as int, prev[j as int]).contains(prev[j as int]));
                vstd::seq_lib::to_multiset_update(prev, i as int, prev[j as int]);
                vstd::seq_lib::to_multiset_update(
                    prev.update(i as int, prev[j as int]),
                    j as int,
                    prev[i as int],
                );
                assert(indices@.to_multiset() =~= prev.to_multiset());
            }
            assert forall|k: int| 0 <= k < len implies old(indices)@.contains(
                #[trigger] indices@[k],
            ) by {
                assert(indices@[k] == prev[k] || indices@[k] == prev[i as int] || indices@[k]
                    == prev[j as int]);
            }
            if old(indices)@.no_duplicates() {
                assert forall|k1: int, k2: int|
                    0 <= k1 < len && 0 <= k2 < len && k1 != k2 implies indices@[k1]
                    != indices@[k2] by {
                    assert(prev.no_duplicates());
                }
            }
        }
    }
}

/// Tells whether writing `num` at the empty cell `(row, col)` would
/// conflict with a cell of the same row, column, or box. Unlike the
/// editable-cell check, the cell under test is assumed empty and every
/// other cell is a legitimate conflict source.
fn is_valid_placement(grid: &Vec<i32>, size: usize, row: usize, col: usize, num: i32) -> (r: bool)
    requires
        size_ok(size as nat),
        grid@.len() == size * size,
        row < size,
        col < size,
    ensures
        r == placement_ok(grid@, size as nat, row as int, col as int, num),
{
    let ghost gsize = size as nat;
    for c in 0..size
        invariant
            size_ok(gsize),
            gsize == size,
            grid@.len() == size * size,
            row < size,
            col < size,
            forall|c0: int| 0 <= c0 < c ==> #[trigger] at(grid@, gsize, row as int, c0) != num,
    {
        proof {
            lemma_index_bound(gsize, row as int, c as int);
        }
        if grid[row * size + c] == num {
            assert(at(grid@, gsize, row as int, c as int) == num);
            return false;
        }
        assert(at(grid@, gsize, row as int, c as int) == grid@[row * size + c]);
    }
    for r in 0..size
        invariant
            size_ok(gsize),
            gsize == size,
            grid@.len() == size * size,
            row < size,
            col < size,
            forall|c0: int| 0 <= c0 < size ==> #[trigger] at(grid@, gsize, row as int, c0) != num,
            forall|r0: int| 0 <= r0 < r ==> #[trigger] at(grid@, gsize, r0, col as int) != num,
    {
        proof {
            lemma_index_bound(gsize, r as int, col as int);
        }
        if grid[r * size + col] == num {
            assert(at(grid@, gsize, r as int, col as int) == num);
            return false;
        }
        assert(at(grid@, gsize, r as int, col as int) == grid@[r * size + col]);
    }
    let s = sub_grid_size(size);
    let ghost gs = s as int;
    proof {
        crate::grid::lemma_box_origin(size as int, gs, row as int);
        crate::grid::lemma_box_origin(size as int, gs, col as int);
    }
    let box_row = (row / s) * s;
    let box_col = (col / s) * s;
    let mut r = box_row;
    while r < box_row + s
        invariant
            size_ok(gsize),
            gsize == size,
            grid@.len() == size * size,
            row < size,
            col < size,
            gs == spec_isqrt(size as int),
            1 <= s,
            s == gs,
            box_row == (row as int / gs) * gs,
            box_col == (col as int / gs) * gs,
            box_row <= r <= box_row + s,
            box_row + s <= size,
            box_col + s <= size,
            forall|c0: int| 0 <= c0 < size ==> #[trigger] at(grid@, gsize, row as int, c0) != num,
            forall|r0: int| 0 <= r0 < size ==> #[trigger] at(grid@, gsize, r0, col as int) != num,
            forall|r0: int, c0: int|
                box_row <= r0 < r && box_col <= c0 < box_col + s ==> #[trigger] at(
                    grid@,
                    gsize,
                    r0,
                    c0,
                ) != num,
        decreases box_row + s - r,
    {
        let mut c = box_col;
        while c < box_col + s
            invariant
                size_ok(gsize),
                gsize == size,
                grid@.len() == size * size,
                row < size,
                col < size,
                gs == spec_isqrt(size as int),
                1 <= s,
                s == gs,
                box_row == (row as int / gs) * gs,
                box_col == (col as int / gs) * gs,
                box_row <= r < box_row + s,
                box_col <= c <= box_col + s,
                box_row + s <= size,
                box_col + s <= size,
                forall|r0: int, c0: int|
                    box_row <= r0 < r && box_col <= c0 < box_col + s ==> #[trigger] at(
                        grid@,
                        gsize,
                        r0,
                        c0,
                    ) != num,
                forall|c0: int|
                    box_col <= c0 < c ==> #[trigger] at(grid@, gsize, r as int, c0) != num,
            decreases box_col + s - c,
        {
            proof {
                lemma_index_bound(gsize, r as int, c as int);
            }
            if grid[r * size + c] == num {
                proof {
                    crate::grid::lemma_band(r as int, row as int, gs);
                    crate::grid::lemma_band(c as int, col as int, gs);
                    assert(at(grid@, gsize, r as int, c as int) == num);
                }
                return false;
            }
            assert(at(grid@, gsize, r as int, c as int) == grid@[r * size + c]);
            c = c + 1;
        }
        r = r + 1;
    }
    proof {
        assert forall|r0: int, c0: int|
            in_grid(gsize, r0, c0) && crate::grid::same_box(gsize, r0, c0, row as int, col as int)
            implies #[trigger] at(grid@, gsize, r0, c0) != num by {
            crate::grid::lemma_band(r0, row as int, gs);
            crate::grid::lemma_band(c0, col as int, gs);
        }
    }
    true
}

/// Depth-first backtracking fill from cell `pos` on: tries the digits in a
/// seeded random order at each empty cell and undoes every placement on a
/// failed branch. On success the grid is a complete valid solution that
/// keeps the already-filled prefix; on failure it is left exactly as it
/// was.
fn fill_grid(grid: &mut Vec<i32>, size: usize, pos: usize, rng: &mut rand::rngs::StdRng) -> (r:
    bool)
    requires
        size_ok(size as nat),
        old(grid)@.len() == size * size,
        pos <= size * size,
        prefix_filled(old(grid)@, size as nat, pos as int),
        suffix_empty(old(grid)@, pos as int),
        no_conflicts(old(grid)@, size as nat),
    ensures
        final(grid)@.len() == size * size,
        r == crate::grid::completable(old(grid)@, size as nat, pos as int),
        r ==> valid_solution(final(grid)@, size as nat),
        r ==> forall|i: int| 0 <= i < pos ==> final(grid)@[i] == old(grid)@[i],
        !r ==> final(grid)@ == old(grid)@,
    decreases size * size - pos,
{
    let ghost gsize = size as nat;
    let total_cells = size * size;
    if pos >= total_cells {
        proof {
            assert(valid_solution(grid@, gsize) && crate::grid::extends(grid@, grid@, pos as int));
        }
        return true;
    }
    let row = pos / size;
    let col = pos % size;
    proof {
        lemma_index_split(gsize, pos as int);
    }
    let mut numbers: Vec<i32> = Vec::new();
    let mut k: usize = 0;
    while k < size
        invariant
            numbers@.len() == k,
            k <= size,
            size <= 0x7fff_ffff,
            forall|m: int| 0 <= m < k ==> #[trigger] numbers@[m] == m + 1,
        decreases size - k,
    {
        numbers.push((k + 1) as i32);
        k = k + 1;
    }
    let ghost fresh = numbers@;
    shuffle_numbers(&mut numbers, rng);
    proof {
        assert forall|m: int| 0 <= m < numbers@.len() implies 1 <= #[trigger] numbers@[m]
            <= size by {
            let m0 = choose|m0: int| 0 <= m0 < fresh.len() && fresh[m0] == numbers@[m];
        }
    }
    let mut idx: usize = 0;
    while idx < size
        invariant
            size_ok(gsize),
            gsize == size,
            total_cells == size * size,
            pos < total_cells,
            grid@ == old(grid)@,
            grid@.len() == size * size,
            row == pos as int / size as int,
            col == pos as int % size as int,
            row < size,
            col < size,
            row * size + col == pos,
            idx <= size,
            numbers@.len() == size,
            forall|m: int| 0 <= m < numbers@.len() ==> 1 <= #[trigger] numbers@[m] <= size,
            numbers@.to_multiset() == fresh.to_multiset(),
            fresh.len() == size,
            forall|m: int| 0 <= m < fresh.len() ==> #[trigger] fresh[m] == m + 1,
            prefix_filled(grid@, gsize, pos as int),
            suffix_empty(grid@, pos as int),
            no_conflicts(grid@, gsize),
            forall|h: Seq<i32>, m: int|
                valid_solution(h, gsize) && #[trigger] crate::grid::extends(h, grid@, pos as int)
                    && 0 <= m < idx ==> h[pos as int] != #[trigger] numbers@[m],
        decreases size - idx,
    {
        let num = numbers[idx];
        if is_valid_placement(grid, size, row, col, num) {
            let ghost before = grid@;
            grid.set(pos, num);
            proof {
                assert(at(before, gsize, row as int, col as int) == before[pos as int]);
                crate::grid::lemma_place_keeps_conflict_free(
                    before,
                    gsize,
                    row as int,
                    col as int,
                    num,
                );
                assert(grid@ == before.update(pos as int, num));
            }
            let ok = fill_grid(grid, size, pos + 1, rng);
            if ok {
                proof {
                    assert(valid_solution(grid@, gsize) && crate::grid::extends(
                        grid@,
                        old(grid)@,
                        pos as int,
                    ));
                }
                return true;
            }
            grid.set(pos, 0);
            proof {
                assert(grid@ =~= before);
                // No completion places this digit here: it would complete
                // the grid that the recursive call just refuted.
                assert forall|h: Seq<i32>, m: int|
                    valid_solution(h, gsize) && #[trigger] crate::grid::extends(
                        h,
                        grid@,
                        pos as int,
                    ) && 0 <= m < idx + 1 implies h[pos as int] != #[trigger] numbers@[m] by {
                    if m == idx && h[pos as int] == numbers@[m] {
                        assert(crate::grid::extends(
                            h,
                            before.update(pos as int, num),
                            pos as int + 1,
                        ));
                        assert(crate::grid::completable(
                            before.update(pos as int, num),
                            gsize,
                            pos as int + 1,
                        ));
                    }
                }
            }
        } else {
            proof {
                // No completion places this digit here: it would conflict
                // with the cell that made the placement check fail.
                assert forall|h: Seq<i32>, m: int|
                    valid_solution(h, gsize) && #[trigger] crate::grid::extends(
                        h,
                        grid@,
                        pos as int,
                    ) && 0 <= m < idx + 1 implies h[pos as int] != #[trigger] numbers@[m] by {
                    if m == idx && h[pos as int] == numbers@[m] {
                        crate::grid::lemma_completion_placement_ok(grid@, h, gsize, pos as int);
                    }
                }
            }
        }
        idx = idx + 1;
    }
    proof {
        // Every digit was refuted, and the shuffled candidates cover all
        // of 1..=size, so no completion of the prefix exists.
        if crate::grid::completable(grid@, gsize, pos as int) {
            let h = choose|h: Seq<i32>|
                valid_solution(h, gsize) && #[trigger] crate::grid::extends(h, grid@, pos as int);
            let v = h[pos as int];
            assert(1 <= v <= size);
            fresh.to_multiset_ensures();
            numbers@.to_multiset_ensures();
            assert(fresh[v as int - 1] == v);
            assert(fresh.contains(v));
            assert(fresh.to_multiset().count(v) > 0);
            assert(numbers@.to_multiset().count(v) > 0);
            assert(numbers@.contains(v));
            let m = choose|m: int| 0 <= m < numbers@.len() && numbers@[m] == v;
            assert(false);
        }
    }
    false
}

/// The rotation applied to the base row in row `r` of the pattern
/// construction: it varies within a sub-grid band through `r * s` and
/// across bands through `r / s`, so that rows, columns, and boxes all
/// draw each base entry exactly once.
pub open spec fn spec_shift(s: int, size: int, r: int) -> int {
    (r * s + r / s) % size
}

/// The base-row position that the pattern construction reads for cell
/// `(r, c)`.
pub open spec fn spec_pattern_idx(s: int, size: int, r: int, c: int) -> int {
    (c + spec_shift(s, size, r)) % size
}

/// Numbers with the same remainder modulo `n` that lie less than `n`
/// apart are equal.
proof fn lemma_mod_eq_bounded(n: int, x: int, y: int)
    requires
        n >= 1,
        x % n == y % n,
        -n < x - y < n,
    ensures
        x == y,
{
    vstd::arithmetic::div_mod::lemma_fundamental_div_mod(x, n);
    vstd::arithmetic::div_mod::lemma_fundamental_div_mod(y, n);
    let d = x / n - y / n;
    assert(x - y == n * d) by (nonlinear_arith)
        requires
            x == n * (x / n) + x % n,
            y == n * (y / n) + y % n,
            x % n == y % n,
            d == x / n - y / n,
    ;
    assert(d == 0) by (nonlinear_arith)
        requires
            x - y == n * d,
            -n < x - y < n,
            n >= 1,
    ;
}

/// On a grid whose edge is the square `s * s`, the row shift decomposes as
/// `(r % s) * s + r / s`: the band index and the offset inside the band
/// swap places, which makes the shift a bijection on `0..size`.
proof fn lemma_shift_value(s: int, r: int)
    requires
        s >= 1,
        0 <= r < s * s,
    ensures
        spec_shift(s, s * s, r) == (r % s) * s + r / s,
        0 <= spec_shift(s, s * s, r) < s * s,
{
    let a = r / s;
    let b = r % s;
    vstd::arithmetic::div_mod::lemma_fundamental_div_mod(r, s);
    vstd::arithmetic::div_mod::lemma_mod_bound(r, s);
    assert(0 <= a < s) by (nonlinear_arith)
        requires
            r == s * a + b,
            0 <= b < s,
            0 <= r < s * s,
            s >= 1,
    ;
    assert(r * s + a == a * (s * s) + (b * s + a) && 0 <= b * s + a < s * s) by (nonlinear_arith)
        requires
            r == s * a + b,
            0 <= b < s,
            0 <= a < s,
            s >= 1,
    ;
    vstd::arithmetic::div_mod::lemma_fundamental_div_mod_converse_mod(
        r * s + a,
        s * s,
        a,
        b * s + a,
    );
}

/// On a perfect-square grid, a pattern-constructed grid over a duplicate-
/// free base row of in-range digits is a valid solution: within any row,
/// column, or box, no two cells read the same base position, so no two
/// cells hold the same digit.
proof fn lemma_pattern_valid(g: Seq<i32>, base: Seq<i32>, size: nat, s: int)
    requires
        s >= 1,
        s * s == size,
        g.len() == size * size,
        base.len() == size,
        forall|k: int| 0 <= k < base.len() ==> 1 <= #[trigger] base[k] <= size,
        base.no_duplicates(),
        forall|r: int, c: int|
            in_grid(size, r, c) ==> #[trigger] at(g, size, r, c) == base[spec_pattern_idx(
                s,
                size as int,
                r,
                c,
            )],
    ensures
        valid_solution(g, size),
{
    let n = size as int;
    assert(n < (s + 1) * (s + 1)) by (nonlinear_arith)
        requires
            n == s * s,
            s >= 1,
    ;
    crate::grid::lemma_isqrt_unique(n, s);
    assert forall|r: int, c: int| in_grid(size, r, c) implies 0 <= spec_pattern_idx(s, n, r, c)
        < n by {
        vstd::arithmetic::div_mod::lemma_mod_bound(c + spec_shift(s, n, r), n);
    }
    assert forall|i: int| 0 <= i < g.len() implies 1 <= #[trigger] g[i] <= size by {
        lemma_index_split(size, i);
        let r = i / n;
        let c = i % n;
        assert(at(g, size, r, c) == g[i]);
    }
    // Rows: the same shift is added to two different columns.
    assert forall|r: int, c1: int, c2: int|
        in_grid(size, r, c1) && in_grid(size, r, c2) && c1 != c2 && #[trigger] at(g, size, r, c1)
            != 0 implies at(g, size, r, c1) != #[trigger] at(g, size, r, c2) by {
        if spec_pattern_idx(s, n, r, c1) == spec_pattern_idx(s, n, r, c2) {
            lemma_mod_eq_bounded(n, c1 + spec_shift(s, n, r), c2 + spec_shift(s, n, r));
        }
    }
    // Columns: equal cells would force equal shifts, and the shift is a
    // bijection of the rows.
    assert forall|c: int, r1: int, r2: int|
        in_grid(size, r1, c) && in_grid(size, r2, c) && r1 != r2 && #[trigger] at(g, size, r1, c)
            != 0 implies at(g, size, r1, c) != #[trigger] at(g, size, r2, c) by {
        if spec_pattern_idx(s, n, r1, c) == spec_pattern_idx(s, n, r2, c) {
            lemma_shift_value(s, r1);
            lemma_shift_value(s, r2);
            lemma_mod_eq_bounded(n, c + spec_shift(s, n, r1), c + spec_shift(s, n, r2));
            let a1 = r1 / s;
            let b1 = r1 % s;
            let a2 = r2 / s;
            let b2 = r2 % s;
            vstd::arithmetic::div_mod::lemma_fundamental_div_mod(r1, s);
            vstd::arithmetic::div_mod::lemma_fundamental_div_mod(r2, s);
            vstd::arithmetic::div_mod::lemma_mod_bound(r1, s);
            vstd::arithmetic::div_mod::lemma_mod_bound(r2, s);
            assert(r1 == r2) by (nonlinear_arith)
                requires
                    b1 * s + a1 == b2 * s + a2,
                    0 <= b1 < s,
                    0 <= b2 < s,
                    0 <= a1,
                    0 <= a2,
                    r1 == s * a1 + b1,
                    r2 == s * a2 + b2,
                    0 <= r1 < s * s,
                    0 <= r2 < s * s,
            ;
        }
    }
    // Boxes: two cells of one box differ by less than a band in both the
    // base offset and the band offset, so their base positions coincide
    // only when the cells do.
    assert forall|r1: int, c1: int, r2: int, c2: int|
        in_grid(size, r1, c1) && in_grid(size, r2, c2) && crate::grid::same_box(
            size,
            r1,
            c1,
            r2,
            c2,
        ) && !(r1 == r2 && c1 == c2) && #[trigger] at(g, size, r1, c1) != 0 implies at(
        g,
        size,
        r1,
        c1,
    ) != #[trigger] at(g, size, r2, c2) by {
        if spec_pattern_idx(s, n, r1, c1) == spec_pattern_idx(s, n, r2, c2) {
            lemma_shift_value(s, r1);
            lemma_shift_value(s, r2);
            let a1 = r1 / s;
            let b1 = r1 % s;
            let a2 = r2 / s;
            let b2 = r2 % s;
            let d1 = c1 % s;
            let d2 = c2 % s;
            vstd::arithmetic::div_mod::lemma_fundamental_div_mod(r1, s);
            vstd::arithmetic::div_mod::lemma_fundamental_div_mod(r2, s);
            vstd::arithmetic::div_mod::lemma_mod_bound(r1, s);
            vstd::arithmetic::div_mod::lemma_mod_bound(r2, s);
            vstd::arithmetic::div_mod::lemma_fundamental_div_mod(c1, s);
            vstd::arithmetic::div_mod::lemma_fundamental_div_mod(c2, s);
            vstd::arithmetic::div_mod::lemma_mod_bound(c1, s);
            vstd::arithmetic::div_mod::lemma_mod_bound(c2, s);
            let x = c1 + spec_shift(s, n, r1);
            let y = c2 + spec_shift(s, n, r2);
            assert(0 <= a1 < s && 0 <= a2 < s) by (nonlinear_arith)
                requires
                    r1 == s * a1 + b1,
                    r2 == s * a2 + b2,
                    0 <= b1 < s,
                    0 <= b2 < s,
                    0 <= r1 < s * s,
                    0 <= r2 < s * s,
                    s >= 1,
            ;
            assert(-n < x - y < n) by (nonlinear_arith)
                requires
                    n == s * s,
                    x == c1 + b1 * s + a1,
                    y == c2 + b2 * s + a2,
                    c1 == s * (c1 / s) + d1,
                    c2 == s * (c2 / s) + d2,
                    c1 / s == c2 / s,
                    a1 == a2,
                    0 <= d1 < s,
                    0 <= d2 < s,
                    0 <= b1 < s,
                    0 <= b2 < s,
                    0 <= a1 < s,
            ;
            lemma_mod_eq_bounded(n, x, y);
            assert(r1 == r2 && c1 == c2) by (nonlinear_arith)
                requires
                    x == y,
                    x == c1 + b1 * s + a1,
                    y == c2 + b2 * s + a2,
                    c1 == s * (c1 / s) + d1,
                    c2 == s * (c2 / s) + d2,
                    c1 / s == c2 / s,
                    a1 == a2,
                    0 <= d1 < s,
                    0 <= d2 < s,
                    0 <= b1 < s,
                    0 <= b2 < s,
                    r1 == s * a1 + b1,
                    r2 == s * a2 + b2,
            ;
        }
    }
}

/// Closed-form Latin-square construction for large grids: the first row is
/// a random permutation of `1..=size`, and every other row is that base
/// row rotated by a shift that varies with the row and its sub-grid band.
/// Fills every cell with an in-range digit in one pass, with no search.
fn generate_solution_pattern(size: usize, rng: &mut rand::rngs::StdRng) -> (r: Vec<i32>)
    requires
        size_ok(size as nat),
    ensures
        r@.len() == size * size,
        crate::grid::all_filled(r@, size as nat),
        spec_isqrt(size as int) * spec_isqrt(size as int) == size ==> valid_solution(
            r@,
            size as nat,
        ),
{
    let ghost gsize = size as nat;
    let total_cells = size * size;
    let mut grid: Vec<i32> = Vec::new();
    let mut k: usize = 0;
    while k < total_cells
        invariant
            grid@.len() == k,
            k <= total_cells,
            forall|i: int| 0 <= i < k ==> #[trigger] grid@[i] == 0,
        decreases total_cells - k,
    {
        grid.push(0);
        k = k + 1;
    }
    let sub_grid = sub_grid_size(size);
    let mut base_row: Vec<i32> = Vec::new();
    let mut k2: usize = 0;
    while k2 < size
        invariant
            base_row@.len() == k2,
            k2 <= size,
            size <= 0x7fff_ffff,
            forall|m: int| 0 <= m < k2 ==> #[trigger] base_row@[m] == m + 1,
        decreases size - k2,
    {
        base_row.push((k2 + 1) as i32);
        k2 = k2 + 1;
    }
    let ghost fresh = base_row@;
    shuffle_numbers(&mut base_row, rng);
    proof {
        assert forall|m: int| 0 <= m < base_row@.len() implies 1 <= #[trigger] base_row@[m]
            <= size by {
            let m0 = choose|m0: int| 0 <= m0 < fresh.len() && fresh[m0] == base_row@[m];
        }
        assert(fresh.no_duplicates());
    }
    let ghost base = base_row@;
    let ghost gsub = sub_grid as int;
    let mut row: usize = 0;
    while row < size
        invariant
            size_ok(gsize),
            gsize == size,
            total_cells == size * size,
            grid@.len() == total_cells,
            base_row@.len() == size,
            base == base_row@,
            gsub == sub_grid,
            gsub == spec_isqrt(size as int),
            1 <= sub_grid <= size,
            forall|m: int| 0 <= m < base_row@.len() ==> 1 <= #[trigger] base_row@[m] <= size,
            base_row@.no_duplicates(),
            row <= size,
            forall|r0: int, c0: int|
                0 <= r0 < row && 0 <= c0 < size ==> #[trigger] at(grid@, gsize, r0, c0)
                    == base[spec_pattern_idx(gsub, size as int, r0, c0)],
        decreases size - row,
    {
        let band = row / sub_grid;
        proof {
            vstd::arithmetic::div_mod::lemma_fundamental_div_mod(row as int, sub_grid as int);
            vstd::arithmetic::div_mod::lemma_mod_bound(row as int, sub_grid as int);
            assert(band <= row && row * sub_grid + band < size * size) by (nonlinear_arith)
                requires
                    row as int == sub_grid as int * (band as int) + (row as int % sub_grid as int),
                    0 <= row as int % sub_grid as int,
                    1 <= sub_grid <= size,
                    0 <= row < size,
                    0 <= band,
            ;
        }
        let shift = (row * sub_grid + band) % size;
        proof {
            assert(shift == spec_shift(gsub, size as int, row as int));
        }
        let mut col: usize = 0;
        while col < size
            invariant
                size_ok(gsize),
                gsize == size,
                total_cells == size * size,
                grid@.len() == total_cells,
                base_row@.len() == size,
                base == base_row@,
                gsub == sub_grid,
                gsub == spec_isqrt(size as int),
                1 <= sub_grid <= size,
                forall|m: int| 0 <= m < base_row@.len() ==> 1 <= #[trigger] base_row@[m] <= size,
                base_row@.no_duplicates(),
                row < size,
                col <= size,
                shift < size,
                shift == spec_shift(gsub, size as int, row as int),
                forall|r0: int, c0: int|
                    0 <= r0 < row && 0 <= c0 < size ==> #[trigger] at(grid@, gsize, r0, c0)
                        == base[spec_pattern_idx(gsub, size as int, r0, c0)],
                forall|c0: int|
                    0 <= c0 < col ==> #[trigger] at(grid@, gsize, row as int, c0)
                        == base[spec_pattern_idx(gsub, size as int, row as int, c0)],
            decreases size - col,
        {
            proof {
                lemma_index_bound(gsize, row as int, col as int);
            }
            let idx = row * size + col;
            let ghost before = grid@;
            let v = base_row[(col + shift) % size];
            grid.set(idx, v);
            proof {
                assert(at(grid@, gsize, row as int, col as int) == v);
                assert(v == base[spec_pattern_idx(gsub, size as int, row as int, col as int)]);
                assert forall|r0: int, c0: int|
                    0 <= r0 < row && 0 <= c0 < size implies #[trigger] at(grid@, gsize, r0, c0)
                    == base[spec_pattern_idx(gsub, size as int, r0, c0)] by {
                    crate::grid::lemma_index_injective(gsize, r0, c0, row as int, col as int);
                    lemma_index_bound(gsize, r0, c0);
                    assert(at(grid@, gsize, r0, c0) == at(before, gsize, r0, c0));
                }
                assert forall|c0: int| 0 <= c0 < col + 1 implies #[trigger] at(
                    grid@,
                    gsize,
                    row as int,
                    c0,
                ) == base[spec_pattern_idx(gsub, size as int, row as int, c0)] by {
                    if c0 != col {
                        crate::grid::lemma_index_injective(
                            gsize,
                            row as int,
                            c0,
                            row as int,
                            col as int,
                        );
                        lemma_index_bound(gsize, row as int, c0);
                        assert(at(grid@, gsize, row as int, c0) == at(before, gsize, row as int, c0));
                    }
                }
            }
            col = col + 1;
        }
        row = row + 1;
    }
    proof {
        assert forall|i: int| 0 <= i < grid@.len() implies 1 <= #[trigger] grid@[i] <= size by {
            lemma_index_split(gsize, i);
            assert(at(grid@, gsize, i / size as int, i % size as int) == grid@[i]);
            vstd::arithmetic::div_mod::lemma_mod_bound(
                (i % size as int) + spec_shift(gsub, size as int, i / size as int),
                size as int,
            );
        }
        if spec_isqrt(size as int) * spec_isqrt(size as int) == size {
            lemma_pattern_valid(grid@, base, gsize, gsub);
        }
    }
    grid
}

/// For a perfect-square edge, some valid solution exists (the pattern
/// construction over the identity base row is one), so any grid buffer of
/// that size can be completed from an empty prefix.
proof fn lemma_solution_exists(size: nat, s: int, g: Seq<i32>)
    requires
        size_ok(size),
        s == spec_isqrt(size as int),
        s * s == size,
        g.len() == size * size,
    ensures
        crate::grid::completable(g, size, 0),
{
    let n = size as int;
    crate::solver::lemma_isqrt_positive(n);
    let base = Seq::new(size, |k: int| (k + 1) as i32);
    let h = Seq::new(
        size * size,
        |i: int| base[spec_pattern_idx(s, n, i / n, i % n)],
    );
    assert forall|k: int| 0 <= k < base.len() implies 1 <= #[trigger] base[k] <= size by {
        assert(base[k] == (k + 1) as i32);
    }
    assert(base.no_duplicates()) by {
        assert forall|k1: int, k2: int|
            0 <= k1 < base.len() && 0 <= k2 < base.len() && k1 != k2 implies base[k1]
            != base[k2] by {
            assert(base[k1] == (k1 + 1) as i32 && base[k2] == (k2 + 1) as i32);
        }
    }
    assert forall|r: int, c: int| in_grid(size, r, c) implies #[trigger] at(h, size, r, c)
        == base[spec_pattern_idx(s, n, r, c)] by {
        lemma_index_bound(size, r, c);
        let i = r * n + c;
        vstd::arithmetic::div_mod::lemma_fundamental_div_mod_converse_div(i, n, r, c);
        vstd::arithmetic::div_mod::lemma_fundamental_div_mod_converse_mod(i, n, r, c);
        assert(r * n == n * r) by (nonlinear_arith);
    }
    lemma_pattern_valid(h, base, size, s);
    assert(valid_solution(h, size) && crate::grid::extends(h, g, 0));
}

/// Generates a complete valid solution grid for the given edge length,
/// deterministically from the seed: randomized backtracking below edge 16,
/// pattern construction from 16 up. For the accepted, perfect-square edge
/// lengths both strategies provably produce a valid solution: the
/// backtracking search is exhaustive, and a completion always exists.
pub fn generate_solution(size: usize, seed: u64) -> (r: Vec<i32>)
    requires
        size_ok(size as nat),
    ensures
        r@.len() == size * size,
        size >= 16 ==> crate::grid::all_filled(r@, size as nat),
        spec_isqrt(size as int) * spec_isqrt(size as int) == size ==> valid_solution(
            r@,
            size as nat,
        ),
        size < 16 ==> valid_solution(r@, size as nat) || r@ =~= Seq::new((size * size) as nat, |i: int| 0i32),
{
    let mut rng = new_rng(seed);
    if size >= 16 {
        return generate_solution_pattern(size, &mut rng);
    }
    let total_cells = size * size;
    let mut grid: Vec<i32> = Vec::new();
    let mut k: usize = 0;
    while k < total_cells
        invariant
            grid@.len() == k,
            k <= total_cells,
            forall|i: int| 0 <= i < k ==> #[trigger] grid@[i] == 0,
        decreases total_cells - k,
    {
        grid.push(0);
        k = k + 1;
    }
    let ghost empty = grid@;
    proof {
        assert forall|r: int, c: int| in_grid(size as nat, r, c) implies #[trigger] at(
            grid@,
            size as nat,
            r,
            c,
        ) == 0 by {
            lemma_index_bound(size as nat, r, c);
        }
    }
    let filled = fill_grid(&mut grid, size, 0, &mut rng);
    proof {
        if !filled {
            if spec_isqrt(size as int) * spec_isqrt(size as int) == size {
                lemma_solution_exists(size as nat, spec_isqrt(size as int), grid@);
                assert(false);
            }
            assert(grid@ =~= Seq::new((size * size) as nat, |i: int| 0i32));
        }
    }
    grid
}

/// Counts the completions of the grid from cell `pos` on, in ascending
/// candidate order, stopping as soon as the running count reaches
/// `max_count`. The grid is restored exactly before every return.
fn count_solutions_recursive(grid: &mut Vec<i32>, size: usize, pos: usize, max_count: usize) -> (r:
    usize)
    requires
        size_ok(size as nat),
        size * size < usize::MAX,
        old(grid)@.len() == size * size,
        pos <= size * size,
        max_count == 2,
    ensures
        final(grid)@ == old(grid)@,
        r <= size * size - pos + 1,
        completions_from(old(grid)@, size as nat, pos as int) < max_count ==> r
            == completions_from(old(grid)@, size as nat, pos as int),
        completions_from(old(grid)@, size as nat, pos as int) >= max_count ==> r >= max_count,
    decreases size * size - pos,
{
    let ghost gsize = size as nat;
    let total_cells = size * size;
    let mut current_pos = pos;
    while current_pos < total_cells && grid[current_pos] != 0
        invariant
            grid@ == old(grid)@,
            grid@.len() == total_cells,
            total_cells == size * size,
            pos <= current_pos <= total_cells,
            completions_from(grid@, gsize, pos as int) == completions_from(
                grid@,
                gsize,
                current_pos as int,
            ),
        decreases total_cells - current_pos,
    {
        proof {
            assert(completions_from(grid@, gsize, current_pos as int) == completions_from(
                grid@,
                gsize,
                current_pos as int + 1,
            ));
        }
        current_pos = current_pos + 1;
    }
    if current_pos >= total_cells {
        proof {
            assert(completions_from(grid@, gsize, current_pos as int) == 1);
        }
        return 1;
    }
    let ghost g0 = grid@;
    let row = current_pos / size;
    let col = current_pos % size;
    proof {
        lemma_index_split(gsize, current_pos as int);
    }
    let mut count: usize = 0;
    let ghost cp = current_pos as int;
    let ghost mut done: nat = 0;
    let mut v: usize = 1;
    while v <= size
        invariant
            size_ok(gsize),
            gsize == size,
            size * size < usize::MAX,
            total_cells == size * size,
            grid@ == g0,
            g0 == old(grid)@,
            grid@.len() == total_cells,
            pos <= current_pos < total_cells,
            cp == current_pos,
            g0[cp] == 0,
            completions_from(g0, gsize, pos as int) == completions_from(g0, gsize, cp),
            row == cp / size as int,
            col == cp % size as int,
            row < size,
            col < size,
            row * size + col == current_pos,
            1 <= v <= size + 1,
            completions_branches(g0, gsize, cp, 1) == done + completions_branches(
                g0,
                gsize,
                cp,
                v as int,
            ),
            count == done,
            done < max_count,
            max_count == 2,
        decreases size + 1 - v,
    {
        let num = v as i32;
        if is_valid_placement(grid, size, row, col, num) {
            grid.set(current_pos, num);
            proof {
                assert(grid@ == g0.update(cp, num));
            }
            let child = count_solutions_recursive(grid, size, current_pos + 1, max_count);
            grid.set(current_pos, 0);
            proof {
                assert(grid@ =~= g0);
            }
            let ghost child_true = completions_from(g0.update(cp, num), gsize, cp + 1);
            count = count + child;
            proof {
                done = done + child_true;
                assert(completions_branches(g0, gsize, cp, v as int) == child_true
                    + completions_branches(g0, gsize, cp, v as int + 1));
            }
            if count >= max_count {
                proof {
                    // The running total reached the cutoff, so the true
                    // branch sum from here is at least the cutoff too.
                    if child_true < max_count {
                        assert(count == done);
                    }
                    assert(done >= max_count);
                    assert(completions_branches(g0, gsize, cp, 1) >= done);
                    assert(completions_from(g0, gsize, cp) == completions_branches(
                        g0,
                        gsize,
                        cp,
                        1,
                    ));
                }
                return count;
            }
        } else {
            proof {
                assert(completions_branches(g0, gsize, cp, v as int) == completions_branches(
                    g0,
                    gsize,
                    cp,
                    v as int + 1,
                ));
            }
        }
        v = v + 1;
    }
    proof {
        assert(completions_branches(g0, gsize, cp, v as int) == 0);
        assert(completions_from(g0, gsize, cp) == completions_branches(g0, gsize, cp, 1));
    }
    count
}

/// Counts the ways to complete a (possibly partial) grid, stopping at two:
/// the result is exact when it is `0` or `1`, and at least `2` whenever the
/// grid has two or more completions. A defensive copy of the grid is
/// searched, so the input is never touched.
pub fn count_solutions(grid: &Vec<i32>, size: usize) -> (r: usize)
    requires
        size_ok(size as nat),
        size * size < usize::MAX,
        grid@.len() == size * size,
    ensures
        solution_count(grid@, size as nat) < 2 ==> r == solution_count(grid@, size as nat),
        solution_count(grid@, size as nat) >= 2 ==> r >= 2,
{
    let mut grid_copy: Vec<i32> = Vec::new();
    let mut k: usize = 0;
    while k < grid.len()
        invariant
            grid_copy@.len() == k,
            k <= grid@.len(),
            forall|i: int| 0 <= i < k ==> #[trigger] grid_copy@[i] == grid@[i],
        decreases grid@.len() - k,
    {
        grid_copy.push(grid[k]);
        k = k + 1;
    }
    proof {
        assert(grid_copy@ =~= grid@);
    }
    count_solutions_recursive(&mut grid_copy, size, 0, 2)
}

/// Computes the target number of clues for a grid of edge `size` at the
/// given difficulty level.
pub(crate) fn calculate_target_clues(size: usize, difficulty: i32) -> (r: usize)
    requires
        size * size <= usize::MAX,
    ensures
        r == spec_clue_target(size as nat, difficulty),
        r <= size * size,
{
    calculate_clue_count(size, difficulty)
}

/// The set of digits standing in the first `n` cells of row `row`.
spec fn row_vals(g: Seq<i32>, size: nat, row: int, n: int) -> Set<int>
    decreases n,
{
    if n <= 0 {
        Set::empty()
    } else {
        row_vals(g, size, row, n - 1).insert(at(g, size, row, n - 1) as int)
    }
}

proof fn lemma_row_vals(g: Seq<i32>, size: nat, row: int, n: int)
    requires
        valid_solution(g, size),
        0 <= row < size,
        0 <= n <= size,
    ensures
        row_vals(g, size, row, n).finite(),
        row_vals(g, size, row, n).len() == n,
        forall|v: int|
            #[trigger] row_vals(g, size, row, n).contains(v) <==> exists|c: int|
                0 <= c < n && at(g, size, row, c) == v,
    decreases n,
{
    broadcast use vstd::set::group_set_axioms;

    if n > 0 {
        lemma_row_vals(g, size, row, n - 1);
        let prev = row_vals(g, size, row, n - 1);
        let w = at(g, size, row, n - 1) as int;
        crate::grid::lemma_index_bound(size, row, n - 1);
        // The next digit is new: it differs from every earlier digit of
        // the row, so the set grows by exactly one.
        if prev.contains(w) {
            let c0 = choose|c0: int| 0 <= c0 < n - 1 && at(g, size, row, c0) == w;
            assert(at(g, size, row, n - 1) != 0);
            assert(false);
        }
    }
}

/// In a valid solution every digit of `1..=size` stands somewhere in every
/// row: the row's `size` cells hold `size` distinct in-range digits, so
/// they exhaust the range.
proof fn lemma_row_surjective(g: Seq<i32>, size: nat, row: int, v: i32)
    requires
        valid_solution(g, size),
        0 <= row < size,
        1 <= v <= size,
    ensures
        crate::grid::row_has(g, size, row, v),
{
    broadcast use vstd::set::group_set_axioms;

    if !crate::grid::row_has(g, size, row, v) {
        let vals = row_vals(g, size, row, size as int);
        lemma_row_vals(g, size, row, size as int);
        let range = vstd::set_lib::set_int_range(1, size as int + 1);
        vstd::set_lib::lemma_int_range(1, size as int + 1);
        let smaller = range.remove(v as int);
        assert forall|u: int| vals.contains(u) implies smaller.contains(u) by {
            let c0 = choose|c0: int| 0 <= c0 < size && at(g, size, row, c0) == u;
            assert(1 <= at(g, size, row, c0) <= size) by {
                crate::grid::lemma_index_bound(size, row, c0);
            }
        }
        vstd::set_lib::lemma_len_subset(vals, smaller);
        assert(false);
    }
}

/// Emptying a single cell of a valid solution leaves a grid with exactly
/// one completion: the erased digit is forced, because every other digit
/// already stands elsewhere in the cell's row.
proof fn lemma_one_hole_unique(g: Seq<i32>, size: nat, i: int)
    requires
        size_ok(size),
        valid_solution(g, size),
        0 <= i < size * size,
    ensures
        solution_count(g.update(i, 0), size) == 1,
{
    let h = g.update(i, 0);
    lemma_index_split(size, i);
    let r = i / size as int;
    let c = i % size as int;
    let v0 = at(g, size, r, c);
    assert(1 <= v0 <= size) by {
        lemma_index_bound(size, r, c);
    }
    assert forall|r0: int, c0: int| in_grid(size, r0, c0) && !(r0 == r && c0 == c) implies #[trigger] at(
        h,
        size,
        r0,
        c0,
    ) == at(g, size, r0, c0) by {
        crate::grid::lemma_index_injective(size, r0, c0, r, c);
        lemma_index_bound(size, r0, c0);
    }
    lemma_one_hole_skip(g, size, i, 0);
    assert(h[i] == 0);
    assert(completions_from(h, size, i) == completions_branches(h, size, i, 1));
    lemma_one_hole_branches(g, size, i, 1);
}

/// The scan to the hole: every cell before `i` is still filled, so the
/// completion count from any earlier position equals the count from `i`.
proof fn lemma_one_hole_skip(g: Seq<i32>, size: nat, i: int, pos: int)
    requires
        valid_solution(g, size),
        0 <= pos <= i < size * size,
    ensures
        completions_from(g.update(i, 0), size, pos) == completions_from(g.update(i, 0), size, i),
    decreases i - pos,
{
    let h = g.update(i, 0);
    if pos < i {
        assert(h[pos] == g[pos]);
        assert(g[pos] != 0);
        lemma_one_hole_skip(g, size, i, pos + 1);
    }
}

/// The candidate sum at the hole: every digit but the erased one conflicts
/// with its occurrence elsewhere in the row, and the erased one leads back
/// to the original solution, so the branches from `v` up contribute one
/// completion when the erased digit is still ahead and none otherwise.
proof fn lemma_one_hole_branches(g: Seq<i32>, size: nat, i: int, v: int)
    requires
        size_ok(size),
        valid_solution(g, size),
        0 <= i < size * size,
        1 <= v <= size + 1,
    ensures
        completions_branches(g.update(i, 0), size, i, v) == if v <= at(
            g,
            size,
            i / size as int,
            i % size as int,
        ) as int {
            1nat
        } else {
            0nat
        },
    decreases size + 1 - v,
{
    let h = g.update(i, 0);
    lemma_index_split(size, i);
    let r = i / size as int;
    let c = i % size as int;
    let v0 = at(g, size, r, c);
    assert(1 <= v0 <= size) by {
        lemma_index_bound(size, r, c);
    }
    assert forall|r0: int, c0: int| in_grid(size, r0, c0) && !(r0 == r && c0 == c) implies #[trigger] at(
        h,
        size,
        r0,
        c0,
    ) == at(g, size, r0, c0) by {
        crate::grid::lemma_index_injective(size, r0, c0, r, c);
        lemma_index_bound(size, r0, c0);
    }
    assert(at(h, size, r, c) == 0) by {
        lemma_index_bound(size, r, c);
    }
    if v > size {
        assert(completions_branches(h, size, i, v) == 0);
    } else {
        lemma_one_hole_branches(g, size, i, v + 1);
        if v == v0 as int {
            // The erased digit fits: no other cell of the row, column, or
            // box holds it, or the original solution would repeat it.
            assert(placement_ok(h, size, r, c, v as i32)) by {
                if crate::grid::row_has(h, size, r, v as i32) {
                    let c1 = choose|c1: int|
                        0 <= c1 < size && #[trigger] at(h, size, r, c1) == v as i32;
                    assert(at(g, size, r, c1) == v0 && c1 != c);
                    assert(false);
                }
                if crate::grid::col_has(h, size, c, v as i32) {
                    let r1 = choose|r1: int|
                        0 <= r1 < size && #[trigger] at(h, size, r1, c) == v as i32;
                    assert(at(g, size, r1, c) == v0 && r1 != r);
                    assert(false);
                }
                if crate::grid::box_has(h, size, r, c, v as i32) {
                    let (r1, c1) = choose|r1: int, c1: int|
                        in_grid(size, r1, c1) && crate::grid::same_box(size, r1, c1, r, c)
                            && #[trigger] at(h, size, r1, c1) == v as i32;
                    assert(at(g, size, r1, c1) == v0 && !(r1 == r && c1 == c));
                    assert(false);
                }
            }
            assert(h.update(i, v as i32) =~= g);
            lemma_completions_filled(g, size, i + 1);
        } else {
            // Another digit conflicts with its occurrence in the row.
            lemma_row_surjective(g, size, r, v as i32);
            assert(!placement_ok(h, size, r, c, v as i32)) by {
                let c1 = choose|c1: int|
                    0 <= c1 < size && #[trigger] at(g, size, r, c1) == v as i32;
                assert(c1 != c);
                assert(at(h, size, r, c1) == v as i32);
                assert(crate::grid::row_has(h, size, r, v as i32));
            }
        }
    }
}

/// Carves a puzzle out of a complete solution: visits the cells in a
/// seeded random order and empties them until enough cells were removed
/// for the difficulty's clue target. For the classic edge length 9 a
/// removal is kept only when the puzzle still has exactly one completion;
/// at larger sizes every removal is accepted unconditionally. Every kept
/// clue equals the solution's digit at the same index.
pub fn create_puzzle(solution: Vec<i32>, difficulty: i32, size: usize, seed: u64) -> (puzzle: Vec<
    i32,
>)
    requires
        size_ok(size as nat),
        size * size < usize::MAX,
        valid_solution(solution@, size as nat),
    ensures
        puzzle@.len() == size * size,
        forall|i: int|
            0 <= i < puzzle@.len() ==> #[trigger] puzzle@[i] == solution@[i] || puzzle@[i] == 0,
        size == 9 ==> solution_count(puzzle@, size as nat) == 1,
        size == 9 && spec_clue_target(size as nat, difficulty) < size * size ==> num_zeros(
            puzzle@,
        ) >= 1,
        num_zeros(puzzle@) <= size * size - spec_clue_target(size as nat, difficulty),
        size != 9 ==> num_zeros(puzzle@) == size * size - spec_clue_target(
            size as nat,
            difficulty,
        ),
{
    let ghost gsize = size as nat;
    let ghost sol = solution@;
    let mut rng = new_rng(seed);
    let mut puzzle = solution;
    let target_clues = calculate_target_clues(size, difficulty);
    let total_cells = size * size;
    let cells_to_remove = total_cells - target_clues;
    let mut indices: Vec<usize> = Vec::new();
    let mut k: usize = 0;
    while k < total_cells
        invariant
            indices@.len() == k,
            k <= total_cells,
            forall|j: int| 0 <= j < k ==> #[trigger] indices@[j] == j,
        decreases total_cells - k,
    {
        indices.push(k);
        k = k + 1;
    }
    proof {
        assert(indices@.no_duplicates());
    }
    let ghost pre = indices@;
    shuffle_indices(&mut indices, &mut rng);
    proof {
        assert forall|j: int| 0 <= j < indices@.len() implies #[trigger] indices@[j]
            < total_cells by {
            let j0 = choose|j0: int| 0 <= j0 < pre.len() && pre[j0] == indices@[j];
        }
        lemma_num_zeros_filled(sol, gsize);
        if size == 9 {
            lemma_completions_filled(sol, gsize, 0);
        }
    }
    let check_uniqueness = size == 9;
    let mut removed: usize = 0;
    let mut iidx: usize = 0;
    while iidx < total_cells && removed < cells_to_remove
        invariant
            size_ok(gsize),
            gsize == size,
            size * size < usize::MAX,
            total_cells == size * size,
            check_uniqueness == (size == 9),
            cells_to_remove == total_cells - target_clues,
            target_clues == spec_clue_target(gsize, difficulty),
            target_clues <= total_cells,
            puzzle@.len() == total_cells,
            indices@.len() == total_cells,
            indices@.no_duplicates(),
            forall|j: int| 0 <= j < indices@.len() ==> #[trigger] indices@[j] < total_cells,
            valid_solution(sol, gsize),
            iidx <= total_cells,
            removed <= cells_to_remove,
            removed <= iidx,
            !check_uniqueness ==> removed == iidx,
            iidx == 0 ==> puzzle@ == sol,
            check_uniqueness && cells_to_remove >= 1 && iidx >= 1 ==> removed >= 1,
            num_zeros(puzzle@) == removed,
            forall|i: int| 0 <= i < total_cells ==> #[trigger] puzzle@[i] == sol[i] || puzzle@[i]
                == 0,
            check_uniqueness ==> solution_count(puzzle@, gsize) == 1,
            forall|i: int|
                0 <= i < total_cells && #[trigger] puzzle@[i] == 0 ==> exists|j: int|
                    0 <= j < iidx && indices@[j] == i,
        decreases total_cells - iidx,
    {
        let idx = indices[iidx];
        proof {
            if puzzle@[idx as int] == 0 {
                let j = choose|j: int| 0 <= j < iidx && indices@[j] == idx;
                assert(indices@[j] == indices@[iidx as int]);
                assert(false);
            }
        }
        let original_value = puzzle[idx];
        let ghost before = puzzle@;
        puzzle.set(idx, 0);
        proof {
            lemma_num_zeros_clear(before, idx as int);
        }
        if check_uniqueness {
            let c = count_solutions(&puzzle, size);
            if c == 1 {
                removed = removed + 1;
                proof {
                    assert(solution_count(puzzle@, gsize) == 1);
                    assert forall|i: int|
                        0 <= i < total_cells && #[trigger] puzzle@[i] == 0 implies exists|j: int|
                            0 <= j < iidx + 1 && indices@[j] == i by {
                        if before[i] == 0 {
                            let j = choose|j: int| 0 <= j < iidx && indices@[j] == i;
                        } else {
                            assert(indices@[iidx as int] == i);
                        }
                    }
                }
            } else {
                proof {
                    // The very first removal always survives the check: a
                    // solution with a single hole completes uniquely.
                    if iidx == 0 {
                        lemma_one_hole_unique(sol, gsize, idx as int);
                        assert(false);
                    }
                }
                puzzle.set(idx, original_value);
                proof {
                    assert(puzzle@ =~= before);
                }
            }
        } else {
            removed = removed + 1;
            proof {
                assert forall|i: int|
                    0 <= i < total_cells && #[trigger] puzzle@[i] == 0 implies exists|j: int|
                        0 <= j < iidx + 1 && indices@[j] == i by {
                    if before[i] == 0 {
                        let j = choose|j: int| 0 <= j < iidx && indices@[j] == i;
                    } else {
                        assert(indices@[iidx as int] == i);
                    }
                }
            }
        }
        iidx = iidx + 1;
    }
    puzzle
}

} // verus!
