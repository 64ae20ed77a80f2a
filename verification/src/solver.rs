//! Grid validation: the full-solution check and the single-cell constraint
//! check used when a cell may already hold the candidate value.

use crate::grid::{
    at, box_valid, col_valid, constraints_ok, in_grid, lemma_aligned_band_fits, lemma_aligned_le,
    lemma_band, lemma_box_origin, lemma_index_bound, lemma_index_split, row_valid, same_box,
    spec_isqrt, sub_grid_size, valid_solution,
};
use vstd::prelude::*;

verus! {

/// Common machine-limit preconditions for a grid of edge length `size`:
/// the edge fits an `i32`, the cell count fits a `usize`, and the sub-grid
/// edge divides the grid edge (the boxes tile the grid exactly).
pub open spec fn size_ok(size: nat) -> bool {
    &&& 1 <= size <= 0x7fff_ffff
    &&& size * size <= usize::MAX
    &&& (size as int) % spec_isqrt(size as int) == 0
}

/// Checks that row `row` holds every digit at most once, all in `1..=size`.
fn is_valid_row(grid: &Vec<i32>, size: usize, row: usize) -> (r: bool)
    requires
        size_ok(size as nat),
        grid@.len() == size * size,
        row < size,
    ensures
        r == row_valid(grid@, size as nat, row as int),
{
    let ghost gsize = size as nat;
    let mut seen: Vec<bool> = Vec::new();
    let mut k: usize = 0;
    while k < size
        invariant
            seen@.len() == k,
            k <= size,
            forall|v: int| 0 <= v < k ==> !(#[trigger] seen@[v]),
        decreases size - k,
    {
        seen.push(false);
        k = k + 1;
    }
    for c in 0..size
        invariant
            size_ok(gsize),
            gsize == size,
            grid@.len() == size * size,
            row < size,
            seen@.len() == size,
            forall|c0: int| 0 <= c0 < c ==> 1 <= #[trigger] at(grid@, gsize, row as int, c0) <= size,
            forall|c1: int, c2: int|
                0 <= c1 < c && 0 <= c2 < c && c1 != c2 ==> #[trigger] at(grid@, gsize, row as int, c1)
                    != #[trigger] at(grid@, gsize, row as int, c2),
            forall|v: int|
                0 <= v < size ==> (#[trigger] seen@[v] <==> exists|c0: int|
                    0 <= c0 < c && #[trigger] at(grid@, gsize, row as int, c0) == v + 1),
    {
        proof {
            lemma_index_bound(gsize, row as int, c as int);
        }
        let value = grid[row * size + c];
        assert(value == at(grid@, gsize, row as int, c as int));
        if value < 1 || value > size as i32 {
            return false;
        }
        let vi = (value - 1) as usize;
        if seen[vi] {
            proof {
                let c0 = choose|c0: int|
                    0 <= c0 < c && #[trigger] at(grid@, gsize, row as int, c0) == vi + 1;
                assert(at(grid@, gsize, row as int, c0) == at(grid@, gsize, row as int, c as int));
            }
            return false;
        }
        seen.set(vi, true);
        proof {
            assert forall|v: int|
                0 <= v < size implies (#[trigger] seen@[v] <==> exists|c0: int|
                    0 <= c0 < c + 1 && #[trigger] at(grid@, gsize, row as int, c0) == v + 1) by {
                if v == vi {
                    assert(at(grid@, gsize, row as int, c as int) == v + 1);
                }
            }
        }
    }
    true
}

/// Checks that column `col` holds every digit at most once, all in `1..=size`.
fn is_valid_col(grid: &Vec<i32>, size: usize, col: usize) -> (r: bool)
    requires
        size_ok(size as nat),
        grid@.len() == size * size,
        col < size,
    ensures
        r == col_valid(grid@, size as nat, col as int),
{
    let ghost gsize = size as nat;
    let mut seen: Vec<bool> = Vec::new();
    let mut k: usize = 0;
    while k < size
        invariant
            seen@.len() == k,
            k <= size,
            forall|v: int| 0 <= v < k ==> !(#[trigger] seen@[v]),
        decreases size - k,
    {
        seen.push(false);
        k = k + 1;
    }
    for row in 0..size
        invariant
            size_ok(gsize),
            gsize == size,
            grid@.len() == size * size,
            col < size,
            seen@.len() == size,
            forall|r0: int| 0 <= r0 < row ==> 1 <= #[trigger] at(grid@, gsize, r0, col as int) <= size,
            forall|r1: int, r2: int|
                0 <= r1 < row && 0 <= r2 < row && r1 != r2 ==> #[trigger] at(grid@, gsize, r1, col as int)
                    != #[trigger] at(grid@, gsize, r2, col as int),
            forall|v: int|
                0 <= v < size ==> (#[trigger] seen@[v] <==> exists|r0: int|
                    0 <= r0 < row && #[trigger] at(grid@, gsize, r0, col as int) == v + 1),
    {
        proof {
            lemma_index_bound(gsize, row as int, col as int);
        }
        let value = grid[row * size + col];
        assert(value == at(grid@, gsize, row as int, col as int));
        if value < 1 || value > size as i32 {
            return false;
        }
        let vi = (value - 1) as usize;
        if seen[vi] {
            proof {
                let r0 = choose|r0: int|
                    0 <= r0 < row && #[trigger] at(grid@, gsize, r0, col as int) == vi + 1;
                assert(at(grid@, gsize, r0, col as int) == at(grid@, gsize, row as int, col as int));
            }
            return false;
        }
        seen.set(vi, true);
        proof {
            assert forall|v: int|
                0 <= v < size implies (#[trigger] seen@[v] <==> exists|r0: int|
                    0 <= r0 < row + 1 && #[trigger] at(grid@, gsize, r0, col as int) == v + 1) by {
                if v == vi {
                    assert(at(grid@, gsize, row as int, col as int) == v + 1);
                }
            }
        }
    }
    true
}

/// Checks that the `box_size` by `box_size` box with top-left corner
/// `(start_row, start_col)` holds every digit at most once, all in
/// `1..=size`.
fn is_valid_box(grid: &Vec<i32>, size: usize, start_row: usize, start_col: usize, box_size: usize) -> (r: bool)
    requires
        size_ok(size as nat),
        grid@.len() == size * size,
        start_row + box_size <= size,
        start_col + box_size <= size,
        1 <= box_size,
    ensures
        r == box_valid(grid@, size as nat, start_row as int, start_col as int, box_size as int),
{
    let ghost gsize = size as nat;
    let ghost br = start_row as int;
    let ghost bc = start_col as int;
    let ghost s = box_size as int;
    let mut seen: Vec<bool> = Vec::new();
    let mut k: usize = 0;
    while k < size
        invariant
            seen@.len() == k,
            k <= size,
            forall|v: int| 0 <= v < k ==> !(#[trigger] seen@[v]),
        decreases size - k,
    {
        seen.push(false);
        k = k + 1;
    }
    let mut i: usize = 0;
    while i < box_size
        invariant
            size_ok(gsize),
            gsize == size,
            grid@.len() == size * size,
            br == start_row,
            bc == start_col,
            s == box_size,
            start_row + box_size <= size,
            start_col + box_size <= size,
            1 <= box_size,
            i <= box_size,
            seen@.len() == size,
            forall|i0: int, j0: int|
                0 <= i0 < i && 0 <= j0 < s ==> 1 <= #[trigger] at(grid@, gsize, br + i0, bc + j0)
                    <= size,
            forall|i1: int, j1: int, i2: int, j2: int|
                0 <= i1 < i && 0 <= j1 < s && 0 <= i2 < i && 0 <= j2 < s && !(i1 == i2 && j1 == j2)
                    ==> #[trigger] at(grid@, gsize, br + i1, bc + j1) != #[trigger] at(
                    grid@,
                    gsize,
                    br + i2,
                    bc + j2,
                ),
            forall|v: int|
                0 <= v < size ==> (#[trigger] seen@[v] <==> exists|i0: int, j0: int|
                    0 <= i0 < i && 0 <= j0 < s && #[trigger] at(grid@, gsize, br + i0, bc + j0) == v
                        + 1),
        decreases box_size - i,
    {
        let mut j: usize = 0;
        while j < box_size
            invariant
                size_ok(gsize),
                gsize == size,
                grid@.len() == size * size,
                br == start_row,
                bc == start_col,
                s == box_size,
                start_row + box_size <= size,
                start_col + box_size <= size,
                1 <= box_size,
                i < box_size,
                j <= box_size,
                seen@.len() == size,
                forall|i0: int, j0: int|
                    (0 <= i0 < i && 0 <= j0 < s) || (i0 == i && 0 <= j0 < j) ==> 1 <= #[trigger] at(
                        grid@,
                        gsize,
                        br + i0,
                        bc + j0,
                    ) <= size,
                forall|i1: int, j1: int, i2: int, j2: int|
                    ((0 <= i1 < i && 0 <= j1 < s) || (i1 == i && 0 <= j1 < j)) && ((0 <= i2 < i && 0
                        <= j2 < s) || (i2 == i && 0 <= j2 < j)) && !(i1 == i2 && j1 == j2)
                        ==> #[trigger] at(grid@, gsize, br + i1, bc + j1) != #[trigger] at(
                        grid@,
                        gsize,
                        br + i2,
                        bc + j2,
                    ),
                forall|v: int|
                    0 <= v < size ==> (#[trigger] seen@[v] <==> exists|i0: int, j0: int|
                        ((0 <= i0 < i && 0 <= j0 < s) || (i0 == i && 0 <= j0 < j)) && #[trigger] at(
                            grid@,
                            gsize,
                            br + i0,
                            bc + j0,
                        ) == v + 1),
            decreases box_size - j,
        {
            proof {
                lemma_index_bound(gsize, br + i, bc + j);
            }
            let value = grid[(start_row + i) * size + (start_col + j)];
            assert(value == at(grid@, gsize, br + i, bc + j));
            if value < 1 || value > size as i32 {
                return false;
            }
            let vi = (value - 1) as usize;
            if seen[vi] {
                proof {
                    let (i0, j0) = choose|i0: int, j0: int|
                        ((0 <= i0 < i && 0 <= j0 < s) || (i0 == i && 0 <= j0 < j)) && #[trigger] at(
                            grid@,
                            gsize,
                            br + i0,
                            bc + j0,
                        ) == vi + 1;
                    assert(at(grid@, gsize, br + i0, bc + j0) == at(grid@, gsize, br + i, bc + j));
                }
                return false;
            }
            seen.set(vi, true);
            proof {
                assert forall|v: int|
                    0 <= v < size implies (#[trigger] seen@[v] <==> exists|i0: int, j0: int|
                        ((0 <= i0 < i && 0 <= j0 < s) || (i0 == i && 0 <= j0 < j + 1))
                            && #[trigger] at(grid@, gsize, br + i0, bc + j0) == v + 1) by {
                    if v == vi {
                        assert(at(grid@, gsize, br + i as int, bc + j as int) == v + 1);
                    }
                }
            }
            j = j + 1;
        }
        i = i + 1;
    }
    true
}

/// Validates a complete grid: the buffer must hold exactly `size * size`
/// cells and every row, column, and box must hold each digit of
/// `1..=size` exactly once.
pub fn is_valid_solution(grid: &Vec<i32>, size: usize) -> (r: bool)
    requires
        size_ok(size as nat),
    ensures
        r == valid_solution(grid@, size as nat),
{
    let ghost gsize = size as nat;
    if grid.len() != size * size {
        return false;
    }
    for row in 0..size
        invariant
            size_ok(gsize),
            gsize == size,
            grid@.len() == size * size,
            forall|r0: int| 0 <= r0 < row ==> row_valid(grid@, gsize, r0),
    {
        if !is_valid_row(grid, size, row) {
            assert(!valid_solution(grid@, gsize)) by {
                if valid_solution(grid@, gsize) {
                    assert forall|c: int| 0 <= c < size implies 1 <= #[trigger] at(
                        grid@,
                        gsize,
                        row as int,
                        c,
                    ) <= size by {
                        lemma_index_bound(gsize, row as int, c);
                    }
                    assert(row_valid(grid@, gsize, row as int));
                }
            }
            return false;
        }
    }
    for col in 0..size
        invariant
            size_ok(gsize),
            gsize == size,
            grid@.len() == size * size,
            forall|r0: int| 0 <= r0 < size ==> row_valid(grid@, gsize, r0),
            forall|c0: int| 0 <= c0 < col ==> col_valid(grid@, gsize, c0),
    {
        if !is_valid_col(grid, size, col) {
            assert(!valid_solution(grid@, gsize)) by {
                if valid_solution(grid@, gsize) {
                    assert forall|r0: int| 0 <= r0 < size implies 1 <= #[trigger] at(
                        grid@,
                        gsize,
                        r0,
                        col as int,
                    ) <= size by {
                        lemma_index_bound(gsize, r0, col as int);
                    }
                    assert(col_valid(grid@, gsize, col as int));
                }
            }
            return false;
        }
    }
    let s = sub_grid_size(size);
    let ghost gs = s as int;
    let mut br: usize = 0;
    while br < size
        invariant
            size_ok(gsize),
            gsize == size,
            grid@.len() == size * size,
            gs == spec_isqrt(size as int),
            1 <= s <= size,
            s == gs,
            br % s == 0,
            br <= size,
            forall|r0: int| 0 <= r0 < size ==> row_valid(grid@, gsize, r0),
            forall|c0: int| 0 <= c0 < size ==> col_valid(grid@, gsize, c0),
            forall|br0: int, bc0: int|
                0 <= br0 < br && 0 <= bc0 < size && br0 % gs == 0 && bc0 % gs == 0
                    ==> #[trigger] box_valid(grid@, gsize, br0, bc0, gs),
        decreases size - br,
    {
        proof {
            lemma_aligned_band_fits(size as int, gs, br as int);
        }
        let mut bc: usize = 0;
        while bc < size
            invariant
                size_ok(gsize),
                gsize == size,
                grid@.len() == size * size,
                gs == spec_isqrt(size as int),
                1 <= s <= size,
                s == gs,
                br % s == 0,
                br < size,
                br + s <= size,
                bc % s == 0,
                bc <= size,
                forall|br0: int, bc0: int|
                    0 <= br0 < br && 0 <= bc0 < size && br0 % gs == 0 && bc0 % gs == 0
                        ==> #[trigger] box_valid(grid@, gsize, br0, bc0, gs),
                forall|bc0: int|
                    0 <= bc0 < bc && bc0 % gs == 0 ==> #[trigger] box_valid(
                        grid@,
                        gsize,
                        br as int,
                        bc0,
                        gs,
                    ),
            decreases size - bc,
        {
            proof {
                lemma_aligned_band_fits(size as int, gs, bc as int);
            }
            if !is_valid_box(grid, size, br, bc, s) {
                assert(!valid_solution(grid@, gsize)) by {
                    if valid_solution(grid@, gsize) {
                        lemma_valid_solution_box(grid@, gsize, br as int, bc as int);
                    }
                }
                return false;
            }
            proof {
                let old_bc = bc as int;
                assert forall|bc0: int|
                    0 <= bc0 < old_bc + gs && bc0 % gs == 0 implies #[trigger] box_valid(
                    grid@,
                    gsize,
                    br as int,
                    bc0,
                    gs,
                ) by {
                    lemma_aligned_le(bc0, old_bc, gs);
                }
                lemma_mod_add_multiple(bc as int, gs);
            }
            bc = bc + s;
        }
        proof {
            let old_br = br as int;
            assert forall|br0: int, bc0: int|
                0 <= br0 < old_br + gs && 0 <= bc0 < size && br0 % gs == 0 && bc0 % gs == 0
                implies #[trigger] box_valid(grid@, gsize, br0, bc0, gs) by {
                lemma_aligned_le(br0, old_br, gs);
            }
            lemma_mod_add_multiple(br as int, gs);
        }
        br = br + s;
    }
    proof {
        lemma_checked_boxes_imply_valid(grid@, gsize);
    }
    true
}

/// Adding one full band keeps a position aligned.
proof fn lemma_mod_add_multiple(x: int, s: int)
    requires
        s >= 1,
        0 <= x,
        x % s == 0,
    ensures
        (x + s) % s == 0,
{
    vstd::arithmetic::div_mod::lemma_add_mod_noop(x, s, s);
    vstd::arithmetic::div_mod::lemma_mod_self_0(s);
    vstd::arithmetic::div_mod::lemma_small_mod(0nat, s as nat);
}

/// From a full set of per-unit checks, conclude the global validity
/// predicate: every box origin below `size` is some `(bi * s, bj * s)`
/// with `bi < m`, and every cell and conflicting pair falls inside one
/// checked unit.
proof fn lemma_checked_boxes_imply_valid(g: Seq<i32>, size: nat)
    requires
        size_ok(size),
        g.len() == size * size,
        forall|r0: int| 0 <= r0 < size ==> row_valid(g, size, r0),
        forall|c0: int| 0 <= c0 < size ==> col_valid(g, size, c0),
        forall|br0: int, bc0: int|
            0 <= br0 < size && 0 <= bc0 < size && br0 % spec_isqrt(size as int) == 0 && bc0
                % spec_isqrt(size as int) == 0 ==> #[trigger] box_valid(
                g,
                size,
                br0,
                bc0,
                spec_isqrt(size as int),
            ),
    ensures
        valid_solution(g, size),
{
    let s = spec_isqrt(size as int);
    lemma_isqrt_positive(size as int);
    assert forall|i: int| 0 <= i < g.len() implies 1 <= #[trigger] g[i] <= size by {
        lemma_index_split(size, i);
        let r = i / size as int;
        let c = i % size as int;
        assert(at(g, size, r, c) == g[i]);
        assert(row_valid(g, size, r));
    }
    assert forall|r: int, c1: int, c2: int|
        in_grid(size, r, c1) && in_grid(size, r, c2) && c1 != c2 && #[trigger] at(g, size, r, c1)
            != 0 implies at(g, size, r, c1) != #[trigger] at(g, size, r, c2) by {
        assert(row_valid(g, size, r));
    }
    assert forall|c: int, r1: int, r2: int|
        in_grid(size, r1, c) && in_grid(size, r2, c) && r1 != r2 && #[trigger] at(g, size, r1, c)
            != 0 implies at(g, size, r1, c) != #[trigger] at(g, size, r2, c) by {
        assert(col_valid(g, size, c));
    }
    assert forall|r1: int, c1: int, r2: int, c2: int|
        in_grid(size, r1, c1) && in_grid(size, r2, c2) && same_box(size, r1, c1, r2, c2) && !(r1
            == r2 && c1 == c2) && #[trigger] at(g, size, r1, c1) != 0 implies at(g, size, r1, c1)
        != #[trigger] at(g, size, r2, c2) by {
        let br0 = (r1 / s) * s;
        let bc0 = (c1 / s) * s;
        lemma_box_origin(size as int, s, r1);
        lemma_box_origin(size as int, s, c1);
        lemma_band(r1, r1, s);
        lemma_band(c1, c1, s);
        lemma_band(r2, r1, s);
        lemma_band(c2, c1, s);
        vstd::arithmetic::div_mod::lemma_mod_multiples_basic(r1 / s, s);
        vstd::arithmetic::div_mod::lemma_mod_multiples_basic(c1 / s, s);
        assert(box_valid(g, size, br0, bc0, s));
        let i1 = r1 - br0;
        let j1 = c1 - bc0;
        let i2 = r2 - br0;
        let j2 = c2 - bc0;
        assert(at(g, size, br0 + i1, bc0 + j1) != at(g, size, br0 + i2, bc0 + j2));
    }
}

/// In a valid solution, the box of any in-bounds cell satisfies the
/// per-box validity predicate at its origin.
proof fn lemma_valid_solution_box(g: Seq<i32>, size: nat, br: int, bc: int)
    requires
        size_ok(size),
        valid_solution(g, size),
        0 <= br < size,
        0 <= bc < size,
        br % spec_isqrt(size as int) == 0,
        bc % spec_isqrt(size as int) == 0,
        br + spec_isqrt(size as int) <= size,
        bc + spec_isqrt(size as int) <= size,
    ensures
        box_valid(g, size, br, bc, spec_isqrt(size as int)),
{
    let s = spec_isqrt(size as int);
    lemma_isqrt_positive(size as int);
    assert forall|i: int, j: int| 0 <= i < s && 0 <= j < s implies 1 <= #[trigger] at(
        g,
        size,
        br + i,
        bc + j,
    ) <= size by {
        lemma_index_bound(size, br + i, bc + j);
    }
    assert forall|i1: int, j1: int, i2: int, j2: int|
        0 <= i1 < s && 0 <= j1 < s && 0 <= i2 < s && 0 <= j2 < s && !(i1 == i2 && j1 == j2)
        implies #[trigger] at(g, size, br + i1, bc + j1) != #[trigger] at(
        g,
        size,
        br + i2,
        bc + j2,
    ) by {
        lemma_same_box_offsets(size, br, bc, i1, j1, i2, j2);
        assert(at(g, size, br + i1, bc + j1) != 0);
    }
}

/// Two cells of the same `s`-aligned box are related by `same_box`.
proof fn lemma_same_box_offsets(size: nat, br: int, bc: int, i1: int, j1: int, i2: int, j2: int)
    requires
        size_ok(size),
        0 <= br,
        0 <= bc,
        br % spec_isqrt(size as int) == 0,
        bc % spec_isqrt(size as int) == 0,
        0 <= i1 < spec_isqrt(size as int),
        0 <= j1 < spec_isqrt(size as int),
        0 <= i2 < spec_isqrt(size as int),
        0 <= j2 < spec_isqrt(size as int),
    ensures
        same_box(size, br + i1, bc + j1, br + i2, bc + j2),
{
    let s = spec_isqrt(size as int);
    lemma_isqrt_positive(size as int);
    lemma_aligned_band(br, i1, s);
    lemma_aligned_band(br, i2, s);
    lemma_aligned_band(bc, j1, s);
    lemma_aligned_band(bc, j2, s);
}

/// A cell at offset `i` into an `s`-aligned band has the band's quotient.
proof fn lemma_aligned_band(b: int, i: int, s: int)
    requires
        s >= 1,
        0 <= b,
        b % s == 0,
        0 <= i < s,
    ensures
        (b + i) / s == b / s,
{
    vstd::arithmetic::div_mod::lemma_fundamental_div_mod(b, s);
    vstd::arithmetic::div_mod::lemma_mod_bound(b, s);
    assert((b / s) * s == s * (b / s)) by (nonlinear_arith);
    vstd::arithmetic::div_mod::lemma_fundamental_div_mod_converse_div(b + i, s, b / s, i);
}

/// The integer square root of a positive number is positive.
pub proof fn lemma_isqrt_positive(n: int)
    requires
        n >= 1,
    ensures
        1 <= spec_isqrt(n),
        spec_isqrt(n) <= n,
{
    crate::grid::lemma_isqrt_bounds(n);
    let s = spec_isqrt(n);
    if s == 0 {
        assert((s + 1) * (s + 1) == 1) by (nonlinear_arith)
            requires
                s == 0,
        ;
    }
    assert(s <= s * s) by (nonlinear_arith)
        requires
            1 <= s,
    ;
}

/// Tells whether `value` may stand at `(row, col)`: it must be a digit in
/// `1..=size` that no other cell of the same row, column, or box holds.
/// The cell `(row, col)` itself is excluded from the comparison, so the
/// test also applies to a cell that already holds `value`.
pub fn check_constraints(grid: &Vec<i32>, size: usize, row: usize, col: usize, value: i32) -> (r:
    bool)
    requires
        size_ok(size as nat),
        grid@.len() == size * size,
        row < size,
        col < size,
    ensures
        r == constraints_ok(grid@, size as nat, row as int, col as int, value),
{
    let ghost gsize = size as nat;
    if value < 1 || value > size as i32 {
        return false;
    }
    for c in 0..size
        invariant
            size_ok(gsize),
            gsize == size,
            grid@.len() == size * size,
            row < size,
            col < size,
            1 <= value <= size,
            forall|c0: int|
                0 <= c0 < c && c0 != col ==> #[trigger] at(grid@, gsize, row as int, c0) != value,
    {
        proof {
            lemma_index_bound(gsize, row as int, c as int);
        }
        if c != col && grid[row * size + c] == value {
            assert(at(grid@, gsize, row as int, c as int) == value);
            return false;
        }
        assert(at(grid@, gsize, row as int, c as int) == grid@[row * size + c]);
    }
    for r in 0..size
        invariant
            size_ok(gsize),
            gsize == size,
            grid@.len() == size * size,
            row < size,
            col < size,
            1 <= value <= size,
            forall|c0: int|
                0 <= c0 < size && c0 != col ==> #[trigger] at(grid@, gsize, row as int, c0) != value,
            forall|r0: int|
                0 <= r0 < r && r0 != row ==> #[trigger] at(grid@, gsize, r0, col as int) != value,
    {
        proof {
            lemma_index_bound(gsize, r as int, col as int);
        }
        if r != row && grid[r * size + col] == value {
            assert(at(grid@, gsize, r as int, col as int) == value);
            return false;
        }
        assert(at(grid@, gsize, r as int, col as int) == grid@[r * size + col]);
    }
    let s = sub_grid_size(size);
    let ghost gs = s as int;
    proof {
        lemma_box_origin(size as int, gs, row as int);
        lemma_box_origin(size as int, gs, col as int);
    }
    let box_row = (row / s) * s;
    let box_col = (col / s) * s;
    let mut r = box_row;
    while r < box_row + s
        invariant
            size_ok(gsize),
            gsize == size,
            grid@.len() == size * size,
            row < size,
            col < size,
            1 <= value <= size,
            gs == spec_isqrt(size as int),
            1 <= s,
            s == gs,
            box_row == (row as int / gs) * gs,
            box_col == (col as int / gs) * gs,
            box_row <= r <= box_row + s,
            box_row + s <= size,
            box_col + s <= size,
            forall|c0: int|
                0 <= c0 < size && c0 != col ==> #[trigger] at(grid@, gsize, row as int, c0) != value,
            forall|r0: int|
                0 <= r0 < size && r0 != row ==> #[trigger] at(grid@, gsize, r0, col as int) != value,
            forall|r0: int, c0: int|
                box_row <= r0 < r && box_col <= c0 < box_col + s && !(r0 == row && c0 == col)
                    ==> #[trigger] at(grid@, gsize, r0, c0) != value,
        decreases box_row + s - r,
    {
        let mut c = box_col;
        while c < box_col + s
            invariant
                size_ok(gsize),
                gsize == size,
                grid@.len() == size * size,
                row < size,
                col < size,
                1 <= value <= size,
                gs == spec_isqrt(size as int),
                1 <= s,
                s == gs,
                box_row == (row as int / gs) * gs,
                box_col == (col as int / gs) * gs,
                box_row <= r < box_row + s,
                box_col <= c <= box_col + s,
                box_row + s <= size,
                box_col + s <= size,
                forall|c0: int|
                    0 <= c0 < size && c0 != col ==> #[trigger] at(grid@, gsize, row as int, c0)
                        != value,
                forall|r0: int|
                    0 <= r0 < size && r0 != row ==> #[trigger] at(grid@, gsize, r0, col as int)
                        != value,
                forall|r0: int, c0: int|
                    box_row <= r0 < r && box_col <= c0 < box_col + s && !(r0 == row && c0 == col)
                        ==> #[trigger] at(grid@, gsize, r0, c0) != value,
                forall|c0: int|
                    box_col <= c0 < c && !(r == row && c0 == col) ==> #[trigger] at(
                        grid@,
                        gsize,
                        r as int,
                        c0,
                    ) != value,
            decreases box_col + s - c,
        {
            proof {
                lemma_index_bound(gsize, r as int, c as int);
            }
            if (r != row || c != col) && grid[r * size + c] == value {
                proof {
                    lemma_band(r as int, row as int, gs);
                    lemma_band(c as int, col as int, gs);
                    assert(at(grid@, gsize, r as int, c as int) == value);
                }
                return false;
            }
            assert(at(grid@, gsize, r as int, c as int) == grid@[r * size + c]);
            c = c + 1;
        }
        r = r + 1;
    }
    proof {
        assert forall|r0: int, c0: int|
            in_grid(gsize, r0, c0) && same_box(gsize, r0, c0, row as int, col as int) && !(r0
                == row && c0 == col) implies #[trigger] at(grid@, gsize, r0, c0) != value by {
            lemma_band(r0, row as int, gs);
            lemma_band(c0, col as int, gs);
        }
    }
    true
}

} // verus!
