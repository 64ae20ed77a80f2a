//! Mathematical model of a Sudoku grid: flat row-major sequences of `i32`
//! cells, the sub-grid geometry, and the validity predicates that the
//! executable checkers and generators are specified against.

use vstd::arithmetic::div_mod::{
    lemma_div_by_multiple, lemma_div_is_ordered, lemma_fundamental_div_mod,
    lemma_fundamental_div_mod_converse_div, lemma_mod_bound,
};
use vstd::arithmetic::mul::lemma_mul_inequality;
use vstd::prelude::*;

verus! {

/// The largest `s` with `s * s <= n` (the sub-grid edge length when `n` is a
/// perfect square).
pub open spec fn spec_isqrt(n: int) -> int
    decreases n,
{
    if n <= 0 {
        0
    } else if (spec_isqrt(n - 1) + 1) * (spec_isqrt(n - 1) + 1) <= n {
        spec_isqrt(n - 1) + 1
    } else {
        spec_isqrt(n - 1)
    }
}

pub proof fn lemma_isqrt_bounds(n: int)
    requires
        0 <= n,
    ensures
        0 <= spec_isqrt(n),
        spec_isqrt(n) * spec_isqrt(n) <= n,
        n < (spec_isqrt(n) + 1) * (spec_isqrt(n) + 1),
    decreases n,
{
    if n > 0 {
        lemma_isqrt_bounds(n - 1);
        let p = spec_isqrt(n - 1);
        if (p + 1) * (p + 1) <= n {
            assert(n < (spec_isqrt(n) + 1) * (spec_isqrt(n) + 1)) by (nonlinear_arith)
                requires
                    spec_isqrt(n) == p + 1,
                    n <= (p + 1) * (p + 1),
                    0 <= p,
            ;
        }
    }
}

pub proof fn lemma_isqrt_unique(n: int, s: int)
    requires
        0 <= s,
        s * s <= n,
        n < (s + 1) * (s + 1),
    ensures
        s == spec_isqrt(n),
{
    lemma_isqrt_bounds(n);
    let q = spec_isqrt(n);
    if s < q {
        assert((s + 1) * (s + 1) <= q * q) by (nonlinear_arith)
            requires
                s + 1 <= q,
                0 <= s,
        ;
    }
    if q < s {
        assert((q + 1) * (q + 1) <= s * s) by (nonlinear_arith)
            requires
                q + 1 <= s,
                0 <= q,
        ;
    }
}

/// Computes the sub-grid edge length: the integer square root of `size`.
pub fn sub_grid_size(size: usize) -> (s: usize)
    requires
        1 <= size <= 0x7fff_ffff,
    ensures
        s == spec_isqrt(size as int),
        s * s <= size,
        1 <= s <= size,
{
    let mut s: usize = 1;
    while s + 1 <= size / (s + 1)
        invariant
            1 <= s <= size <= 0x7fff_ffff,
            s * s <= size,
        decreases size - s,
    {
        proof {
            let t = s as int + 1;
            // The loop condition gives t <= size / t, hence t * t <= size.
            lemma_mul_inequality(t, size as int / t, t);
            lemma_fundamental_div_mod(size as int, t);
            assert((size as int / t) * t <= size) by (nonlinear_arith)
                requires
                    size as int == t * (size as int / t) + size as int % t,
                    0 <= size as int % t,
                    0 < t,
            ;
        }
        s = s + 1;
    }
    proof {
        // The loop exit gives s + 1 > size / (s + 1), hence (s+1)^2 > size.
        let t = s as int + 1;
        if t * t <= size as int {
            lemma_div_is_ordered(t * t, size as int, t);
            lemma_div_by_multiple(t, t);
        }
        lemma_isqrt_unique(size as int, s as int);
    }
    s
}

/// The cell of `g` at row `r`, column `c`, for a grid of edge length `size`.
pub open spec fn at(g: Seq<i32>, size: nat, r: int, c: int) -> i32 {
    g[r * size + c]
}

/// Whether `(r, c)` lies inside a grid of edge length `size`.
pub open spec fn in_grid(size: nat, r: int, c: int) -> bool {
    0 <= r < size && 0 <= c < size
}

/// A row-major cell index is within the grid buffer.
pub proof fn lemma_index_bound(size: nat, r: int, c: int) by (nonlinear_arith)
    requires
        in_grid(size, r, c),
    ensures
        0 <= r * size + c < size * size,
{
}

/// Distinct coordinates give distinct row-major indices.
pub proof fn lemma_index_injective(size: nat, r1: int, c1: int, r2: int, c2: int) by (nonlinear_arith)
    requires
        in_grid(size, r1, c1),
        in_grid(size, r2, c2),
        !(r1 == r2 && c1 == c2),
    ensures
        r1 * size + c1 != r2 * size + c2,
{
}

/// Row and column are recovered from a flat index by division and remainder.
pub proof fn lemma_index_split(size: nat, i: int)
    requires
        size >= 1,
        0 <= i < size * size,
    ensures
        in_grid(size, i / size as int, i % size as int),
        (i / size as int) * size + (i % size as int) == i,
{
    lemma_fundamental_div_mod(i, size as int);
    assert((i / (size as int)) < size) by (nonlinear_arith)
        requires
            size >= 1,
            i < size * size,
            i == size * (i / (size as int)) + (i % (size as int)),
            0 <= i % (size as int),
    ;
    assert((i / (size as int)) * size == size * (i / (size as int))) by (nonlinear_arith);
}

/// Two cell coordinates fall in the same sub-grid box.
pub open spec fn same_box(size: nat, r1: int, c1: int, r2: int, c2: int) -> bool {
    let s = spec_isqrt(size as int);
    r1 / s == r2 / s && c1 / s == c2 / s
}

/// `x` and `y` have the same quotient by `s` exactly when `x` lies in the
/// length-`s` band that starts at `(y / s) * s`.
pub proof fn lemma_band(x: int, y: int, s: int)
    requires
        s >= 1,
        0 <= x,
        0 <= y,
    ensures
        x / s == y / s <==> (y / s) * s <= x < (y / s) * s + s,
{
    lemma_fundamental_div_mod(x, s);
    lemma_fundamental_div_mod(y, s);
    if (y / s) * s <= x < (y / s) * s + s {
        lemma_fundamental_div_mod_converse_div(x, s, y / s, x - (y / s) * s);
    }
}

/// The box containing position `x` starts at `(x / s) * s` and, when `s`
/// divides `size`, ends at or before `size`.
pub proof fn lemma_box_origin(size: int, s: int, x: int)
    requires
        s >= 1,
        size >= 1,
        size % s == 0,
        0 <= x < size,
    ensures
        0 <= (x / s) * s <= x,
        (x / s) * s + s <= size,
{
    lemma_fundamental_div_mod(x, s);
    lemma_mod_bound(x, s);
    lemma_fundamental_div_mod(size, s);
    let q = x / s;
    let qs = size / s;
    assert(q * s == s * q) by (nonlinear_arith);
    assert(qs * s == s * qs) by (nonlinear_arith);
    if q + 1 > qs {
        // Then q >= qs, so x >= qs * s == size, a contradiction.
        lemma_mul_inequality(qs, q, s);
    } else {
        lemma_mul_inequality(q + 1, qs, s);
        assert((q + 1) * s == q * s + s) by (nonlinear_arith);
    }
}

/// Multiples of `s` that are less than `s` apart are ordered.
pub proof fn lemma_aligned_le(x: int, y: int, s: int)
    requires
        s >= 1,
        0 <= x,
        0 <= y,
        x % s == 0,
        y % s == 0,
        x < y + s,
    ensures
        x <= y,
{
    lemma_fundamental_div_mod(x, s);
    lemma_fundamental_div_mod(y, s);
    let a = x / s;
    let b = y / s;
    if x > y {
        assert(s * a > s * b) by (nonlinear_arith)
            requires
                s * a == x,
                s * b == y,
                x > y,
        ;
        assert(a > b) by (nonlinear_arith)
            requires
                s * a > s * b,
                s >= 1,
        ;
        lemma_mul_inequality(b + 1, a, s);
        assert((b + 1) * s == b * s + s) by (nonlinear_arith);
        assert(b * s == s * b) by (nonlinear_arith);
        assert(a * s == s * a) by (nonlinear_arith);
    }
}

/// A multiple of `s` within a grid of edge `size` (where `s` divides
/// `size`) leaves room for a full band of `s` cells.
pub proof fn lemma_aligned_band_fits(size: int, s: int, x: int)
    requires
        s >= 1,
        size >= 1,
        size % s == 0,
        0 <= x < size,
        x % s == 0,
    ensures
        x + s <= size,
{
    lemma_fundamental_div_mod(x, s);
    lemma_box_origin(size, s, x);
    assert((x / s) * s == s * (x / s)) by (nonlinear_arith);
}

/// Every cell holds a digit in `1..=size`: no empty cells remain.
pub open spec fn all_filled(g: Seq<i32>, size: nat) -> bool {
    forall|i: int| 0 <= i < g.len() ==> 1 <= #[trigger] g[i] <= size
}

/// No two distinct cells of the same row, column, or box hold the same
/// nonzero digit. Empty cells (zeros) conflict with nothing.
pub open spec fn no_conflicts(g: Seq<i32>, size: nat) -> bool {
    &&& forall|r: int, c1: int, c2: int|
        in_grid(size, r, c1) && in_grid(size, r, c2) && c1 != c2 && #[trigger] at(g, size, r, c1)
            != 0 ==> at(g, size, r, c1) != #[trigger] at(g, size, r, c2)
    &&& forall|c: int, r1: int, r2: int|
        in_grid(size, r1, c) && in_grid(size, r2, c) && r1 != r2 && #[trigger] at(g, size, r1, c)
            != 0 ==> at(g, size, r1, c) != #[trigger] at(g, size, r2, c)
    &&& forall|r1: int, c1: int, r2: int, c2: int|
        in_grid(size, r1, c1) && in_grid(size, r2, c2) && same_box(size, r1, c1, r2, c2) && !(r1
            == r2 && c1 == c2) && #[trigger] at(g, size, r1, c1) != 0 ==> at(g, size, r1, c1)
            != #[trigger] at(g, size, r2, c2)
}

/// A complete, valid solution: full buffer of in-range digits with no
/// row, column, or box repeating a digit.
pub open spec fn valid_solution(g: Seq<i32>, size: nat) -> bool {
    &&& g.len() == size * size
    &&& all_filled(g, size)
    &&& no_conflicts(g, size)
}

/// Row `row` holds only in-range digits, none of them twice.
pub open spec fn row_valid(g: Seq<i32>, size: nat, row: int) -> bool {
    &&& forall|c: int| 0 <= c < size ==> 1 <= #[trigger] at(g, size, row, c) <= size
    &&& forall|c1: int, c2: int|
        0 <= c1 < size && 0 <= c2 < size && c1 != c2 ==> #[trigger] at(g, size, row, c1)
            != #[trigger] at(g, size, row, c2)
}

/// Column `col` holds only in-range digits, none of them twice.
pub open spec fn col_valid(g: Seq<i32>, size: nat, col: int) -> bool {
    &&& forall|r: int| 0 <= r < size ==> 1 <= #[trigger] at(g, size, r, col) <= size
    &&& forall|r1: int, r2: int|
        0 <= r1 < size && 0 <= r2 < size && r1 != r2 ==> #[trigger] at(g, size, r1, col)
            != #[trigger] at(g, size, r2, col)
}

/// The `s` by `s` box with top-left corner `(br, bc)` holds only in-range
/// digits, none of them twice.
pub open spec fn box_valid(g: Seq<i32>, size: nat, br: int, bc: int, s: int) -> bool {
    &&& forall|i: int, j: int|
        0 <= i < s && 0 <= j < s ==> 1 <= #[trigger] at(g, size, br + i, bc + j) <= size
    &&& forall|i1: int, j1: int, i2: int, j2: int|
        0 <= i1 < s && 0 <= j1 < s && 0 <= i2 < s && 0 <= j2 < s && !(i1 == i2 && j1 == j2)
            ==> #[trigger] at(g, size, br + i1, bc + j1) != #[trigger] at(g, size, br + i2, bc + j2)
}

/// Some cell of row `row` holds `v`.
pub open spec fn row_has(g: Seq<i32>, size: nat, row: int, v: i32) -> bool {
    exists|c: int| 0 <= c < size && #[trigger] at(g, size, row, c) == v
}

/// Some cell of column `col` holds `v`.
pub open spec fn col_has(g: Seq<i32>, size: nat, col: int, v: i32) -> bool {
    exists|r: int| 0 <= r < size && #[trigger] at(g, size, r, col) == v
}

/// Some cell of the box containing `(row, col)` holds `v`.
pub open spec fn box_has(g: Seq<i32>, size: nat, row: int, col: int, v: i32) -> bool {
    exists|r: int, c: int|
        in_grid(size, r, c) && same_box(size, r, c, row, col) && #[trigger] at(g, size, r, c) == v
}

/// Placing `v` at the empty cell `(row, col)` would conflict with no cell of
/// its row, column, or box. This is the candidate test of the backtracking
/// search, applied while the cell itself still holds `0`.
pub open spec fn placement_ok(g: Seq<i32>, size: nat, row: int, col: int, v: i32) -> bool {
    &&& !row_has(g, size, row, v)
    &&& !col_has(g, size, col, v)
    &&& !box_has(g, size, row, col, v)
}

/// The cells before `pos` all hold in-range digits.
pub open spec fn prefix_filled(g: Seq<i32>, size: nat, pos: int) -> bool {
    forall|i: int| 0 <= i < pos ==> 1 <= #[trigger] g[i] <= size
}

/// The cells from `pos` on are all empty.
pub open spec fn suffix_empty(g: Seq<i32>, pos: int) -> bool {
    forall|i: int| pos <= i < g.len() ==> #[trigger] g[i] == 0
}

/// Writing a non-conflicting digit into an empty cell keeps the grid free
/// of conflicts.
pub proof fn lemma_place_keeps_conflict_free(g: Seq<i32>, size: nat, row: int, col: int, v: i32)
    requires
        g.len() == size * size,
        size >= 1,
        in_grid(size, row, col),
        at(g, size, row, col) == 0,
        no_conflicts(g, size),
        placement_ok(g, size, row, col, v),
        v != 0,
    ensures
        no_conflicts(g.update(row * size + col, v), size),
{
    lemma_index_bound(size, row, col);
    let g2 = g.update(row * size + col, v);
    assert forall|r: int, c: int| in_grid(size, r, c) && !(r == row && c == col) implies at(
        g2,
        size,
        r,
        c,
    ) == at(g, size, r, c) by {
        lemma_index_injective(size, r, c, row, col);
        lemma_index_bound(size, r, c);
    }
    assert(at(g2, size, row, col) == v) by {
        lemma_index_bound(size, row, col);
    }
    assert forall|r: int, c1: int, c2: int|
        in_grid(size, r, c1) && in_grid(size, r, c2) && c1 != c2 && #[trigger] at(g2, size, r, c1)
            != 0 implies at(g2, size, r, c1) != #[trigger] at(g2, size, r, c2) by {
        if r == row && c1 == col {
            if at(g2, size, r, c2) == v {
                assert(at(g, size, row, c2) == v);
                assert(row_has(g, size, row, v));
            }
        } else if r == row && c2 == col {
            if at(g2, size, r, c1) == v {
                assert(at(g, size, row, c1) == v);
                assert(row_has(g, size, row, v));
            }
        }
    }
    assert forall|c: int, r1: int, r2: int|
        in_grid(size, r1, c) && in_grid(size, r2, c) && r1 != r2 && #[trigger] at(g2, size, r1, c)
            != 0 implies at(g2, size, r1, c) != #[trigger] at(g2, size, r2, c) by {
        if r1 == row && c == col {
            if at(g2, size, r2, c) == v {
                assert(at(g, size, r2, col) == v);
                assert(col_has(g, size, col, v));
            }
        } else if r2 == row && c == col {
            if at(g2, size, r1, c) == v {
                assert(at(g, size, r1, col) == v);
                assert(col_has(g, size, col, v));
            }
        }
    }
    assert forall|r1: int, c1: int, r2: int, c2: int|
        in_grid(size, r1, c1) && in_grid(size, r2, c2) && same_box(size, r1, c1, r2, c2) && !(r1
            == r2 && c1 == c2) && #[trigger] at(g2, size, r1, c1) != 0 implies at(g2, size, r1, c1)
        != #[trigger] at(g2, size, r2, c2) by {
        if r1 == row && c1 == col {
            if at(g2, size, r2, c2) == v {
                assert(at(g, size, r2, c2) == v);
                assert(box_has(g, size, row, col, v));
            }
        } else if r2 == row && c2 == col {
            if at(g2, size, r1, c1) == v {
                assert(at(g, size, r1, c1) == v);
                assert(box_has(g, size, row, col, v));
            }
        }
    }
}

/// `h` agrees with `g` on every cell before `pos` (and has the same
/// length): it is a candidate completion of the filled prefix of `g`.
pub open spec fn extends(h: Seq<i32>, g: Seq<i32>, pos: int) -> bool {
    &&& h.len() == g.len()
    &&& forall|i: int| 0 <= i < pos ==> h[i] == g[i]
}

/// Some valid solution completes the filled prefix of `g`.
pub open spec fn completable(g: Seq<i32>, size: nat, pos: int) -> bool {
    exists|h: Seq<i32>| valid_solution(h, size) && #[trigger] extends(h, g, pos)
}

/// In a partially filled grid, the digit that any valid completion puts
/// into the first empty cell passes the placement check: a conflicting
/// cell would be a conflict inside the completion itself.
pub proof fn lemma_completion_placement_ok(g: Seq<i32>, h: Seq<i32>, size: nat, pos: int)
    requires
        size >= 1,
        g.len() == size * size,
        suffix_empty(g, pos),
        0 <= pos < size * size,
        valid_solution(h, size),
        extends(h, g, pos),
    ensures
        placement_ok(g, size, pos / size as int, pos % size as int, h[pos]),
{
    lemma_index_split(size, pos);
    let r = pos / size as int;
    let c = pos % size as int;
    let v = h[pos];
    assert(1 <= v <= size);
    if row_has(g, size, r, v) {
        let c1 = choose|c1: int| 0 <= c1 < size && #[trigger] at(g, size, r, c1) == v;
        lemma_index_bound(size, r, c1);
        let i1 = r * size + c1;
        assert(g[i1] != 0);
        assert(i1 < pos);
        assert(at(h, size, r, c1) == v);
        assert(c1 != c);
        assert(at(h, size, r, c) == v);
        assert(false);
    }
    if col_has(g, size, c, v) {
        let r1 = choose|r1: int| 0 <= r1 < size && #[trigger] at(g, size, r1, c) == v;
        lemma_index_bound(size, r1, c);
        let i1 = r1 * size + c;
        assert(g[i1] != 0);
        assert(i1 < pos);
        assert(at(h, size, r1, c) == v);
        assert(r1 != r);
        assert(at(h, size, r, c) == v);
        assert(false);
    }
    if box_has(g, size, r, c, v) {
        let (r1, c1) = choose|r1: int, c1: int|
            in_grid(size, r1, c1) && same_box(size, r1, c1, r, c) && #[trigger] at(g, size, r1, c1)
                == v;
        lemma_index_bound(size, r1, c1);
        let i1 = r1 * size + c1;
        assert(g[i1] != 0);
        assert(i1 < pos);
        assert(at(h, size, r1, c1) == v);
        assert(!(r1 == r && c1 == c));
        assert(at(h, size, r, c) == v);
        assert(false);
    }
}

/// The number of ways to extend the grid, cell by cell from position
/// `pos` on, into a completely filled grid in which every placement was
/// conflict-free when made. Already-filled cells are kept as they are.
pub open spec fn completions_from(g: Seq<i32>, size: nat, pos: int) -> nat
    decreases size * size - pos, size as int + 1,
{
    if pos < 0 || pos >= size * size {
        1
    } else if g[pos] != 0 {
        completions_from(g, size, pos + 1)
    } else {
        completions_branches(g, size, pos, 1)
    }
}

/// The completions of `g` that place one of the digits `v..=size` into the
/// empty cell `pos`: the sum, over the conflict-free candidates among them,
/// of the completions of the grid so extended.
pub open spec fn completions_branches(g: Seq<i32>, size: nat, pos: int, v: int) -> nat
    decreases size * size - pos, size as int + 1 - v,
{
    if v > size || pos < 0 || pos >= size * size {
        0
    } else {
        (if placement_ok(g, size, pos / size as int, pos % size as int, v as i32) {
            completions_from(g.update(pos, v as i32), size, pos + 1)
        } else {
            0
        }) + completions_branches(g, size, pos, v + 1)
    }
}

/// The number of completions of the whole grid: `1` means the grid is
/// uniquely solvable by conflict-free cell-by-cell filling.
pub open spec fn solution_count(g: Seq<i32>, size: nat) -> nat {
    completions_from(g, size, 0)
}

/// A grid with no empty cell from `pos` on has exactly one completion.
pub proof fn lemma_completions_filled(g: Seq<i32>, size: nat, pos: int)
    requires
        g.len() == size * size,
        forall|i: int| pos <= i < g.len() ==> #[trigger] g[i] != 0,
        0 <= pos,
    ensures
        completions_from(g, size, pos) == 1,
    decreases size * size - pos,
{
    if pos < size * size {
        lemma_completions_filled(g, size, pos + 1);
    }
}

/// The number of empty cells among the first `n` cells of `g`.
pub open spec fn num_zeros_up_to(g: Seq<i32>, n: int) -> nat
    decreases n,
{
    if n <= 0 {
        0
    } else {
        num_zeros_up_to(g, n - 1) + (if g[n - 1] == 0 {
            1nat
        } else {
            0nat
        })
    }
}

/// The number of empty cells of `g`.
pub open spec fn num_zeros(g: Seq<i32>) -> nat {
    num_zeros_up_to(g, g.len() as int)
}

proof fn lemma_num_zeros_up_to_update(g: Seq<i32>, i: int, v: i32, n: int)
    requires
        0 <= i < g.len(),
        g[i] != 0,
        v == 0,
        n <= g.len(),
    ensures
        n <= i ==> num_zeros_up_to(g.update(i, v), n) == num_zeros_up_to(g, n),
        n > i ==> num_zeros_up_to(g.update(i, v), n) == num_zeros_up_to(g, n) + 1,
    decreases n,
{
    if n > 0 {
        lemma_num_zeros_up_to_update(g, i, v, n - 1);
    }
}

/// Emptying one filled cell raises the empty-cell count by one.
pub proof fn lemma_num_zeros_clear(g: Seq<i32>, i: int)
    requires
        0 <= i < g.len(),
        g[i] != 0,
    ensures
        num_zeros(g.update(i, 0)) == num_zeros(g) + 1,
{
    lemma_num_zeros_up_to_update(g, i, 0, g.len() as int);
}

proof fn lemma_num_zeros_up_to_none(g: Seq<i32>, n: int)
    requires
        forall|i: int| 0 <= i < g.len() ==> #[trigger] g[i] != 0,
        n <= g.len(),
    ensures
        num_zeros_up_to(g, n) == 0,
    decreases n,
{
    if n > 0 {
        lemma_num_zeros_up_to_none(g, n - 1);
    }
}

/// A completely filled grid has no empty cells.
pub proof fn lemma_num_zeros_filled(g: Seq<i32>, size: nat)
    requires
        all_filled(g, size),
    ensures
        num_zeros(g) == 0,
{
    lemma_num_zeros_up_to_none(g, g.len() as int);
}

/// Some cell of row `row` other than column `col` holds `v`.
pub open spec fn row_has_other(g: Seq<i32>, size: nat, row: int, col: int, v: i32) -> bool {
    exists|c: int| 0 <= c < size && c != col && #[trigger] at(g, size, row, c) == v
}

/// Some cell of column `col` other than row `row` holds `v`.
pub open spec fn col_has_other(g: Seq<i32>, size: nat, row: int, col: int, v: i32) -> bool {
    exists|r: int| 0 <= r < size && r != row && #[trigger] at(g, size, r, col) == v
}

/// Some cell of the box of `(row, col)`, other than `(row, col)` itself,
/// holds `v`.
pub open spec fn box_has_other(g: Seq<i32>, size: nat, row: int, col: int, v: i32) -> bool {
    exists|r: int, c: int|
        in_grid(size, r, c) && same_box(size, r, c, row, col) && !(r == row && c == col)
            && #[trigger] at(g, size, r, c) == v
}

/// `v` may stand at `(row, col)`: it is an in-range digit and no other cell
/// of the same row, column, or box holds it. The cell itself is ignored, so
/// the test also applies to a cell that already holds `v`.
pub open spec fn constraints_ok(g: Seq<i32>, size: nat, row: int, col: int, v: i32) -> bool {
    &&& 1 <= v <= size
    &&& !row_has_other(g, size, row, col, v)
    &&& !col_has_other(g, size, row, col, v)
    &&& !box_has_other(g, size, row, col, v)
}

} // verus!
