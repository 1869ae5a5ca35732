use vstd::prelude::*;

use crate::value::{Value, all_values, lemma_filter_values};

verus! {

/// The row, 0 to 8, of the cell at linear index `p`.
pub open spec fn spec_row(p: int) -> int {
    p / 9
}

/// The column, 0 to 8, of the cell at linear index `p`.
pub open spec fn spec_column(p: int) -> int {
    p % 9
}

/// The block of the cell at linear index `p`, as (block row, block column).
pub open spec fn spec_block(p: int) -> (int, int) {
    (spec_row(p) / 3, spec_column(p) / 3)
}

/// Where the cell at linear index `p` lies within its block, 0 to 8 in
/// row-major order.
pub open spec fn spec_slot(p: int) -> int {
    3 * (spec_row(p) % 3) + spec_column(p) % 3
}

/// The linear index of the cell at row `r` and column `c`.
pub open spec fn cell_at(r: int, c: int) -> int {
    9 * r + c
}

/// The `i`-th cell of block (`br`, `bc`), counted row-major within the block.
pub open spec fn block_cell(br: int, bc: int, i: int) -> int {
    cell_at(3 * br + i / 3, 3 * bc + i % 3)
}

/// The nine cells of row `r`, left to right.
pub open spec fn row_cells(r: int) -> Seq<int> {
    Seq::new(9, |i: int| cell_at(r, i))
}

/// The nine cells of column `c`, top to bottom.
pub open spec fn column_cells(c: int) -> Seq<int> {
    Seq::new(9, |i: int| cell_at(i, c))
}

/// The nine cells of block (`br`, `bc`), row-major.
pub open spec fn block_cells(br: int, bc: int) -> Seq<int> {
    Seq::new(9, |i: int| block_cell(br, bc, i))
}

/// The row containing linear index `position`.
pub fn row(position: u8) -> (r: u8)
    requires
        position < 81,
    ensures
        r == spec_row(position as int),
        r < 9,
{
    position / 9
}

/// The column containing linear index `position`.
pub fn column(position: u8) -> (r: u8)
    requires
        position < 81,
    ensures
        r == spec_column(position as int),
        r < 9,
{
    position % 9
}

/// The block containing linear index `position`, as (block row, block column).
pub fn block(position: u8) -> (r: (u8, u8))
    requires
        position < 81,
    ensures
        r.0 == spec_block(position as int).0,
        r.1 == spec_block(position as int).1,
        r.0 < 3,
        r.1 < 3,
{
    let x = column(position) / 3;
    let y = row(position) / 3;
    (y, x)
}

/// Whether value `v` fills one of `cells` on board `b`.
pub open spec fn present(b: Seq<Option<Value>>, cells: Seq<int>, v: Value) -> bool {
    exists|i: int| 0 <= i < cells.len() && b[#[trigger] cells[i]] == Some(v)
}

/// Whether value `v` fills a cell of the row, the column or the block of
/// position `p`.
pub open spec fn group_has(b: Seq<Option<Value>>, p: int, v: Value) -> bool {
    ||| present(b, row_cells(spec_row(p)), v)
    ||| present(b, column_cells(spec_column(p)), v)
    ||| present(b, block_cells(spec_block(p).0, spec_block(p).1), v)
}

/// Whether `v` is still legal at position `p`: it is absent from the
/// position's row, column and block.
pub open spec fn is_candidate(b: Seq<Option<Value>>, p: int, v: Value) -> bool {
    !group_has(b, p, v)
}

/// The legal values at position `p`, in ascending order.
pub open spec fn candidates(b: Seq<Option<Value>>, p: int) -> Seq<Value> {
    all_values().filter(|v: Value| is_candidate(b, p, v))
}

/// The filled values among `cells` are pairwise distinct.
pub open spec fn distinct_in(b: Seq<Option<Value>>, cells: Seq<int>) -> bool {
    forall|i: int, j: int|
        0 <= i < cells.len() && 0 <= j < cells.len() && i != j && b[#[trigger] cells[i]] is Some
            ==> b[cells[i]] != b[#[trigger] cells[j]]
}

/// A board of 81 cells whose every row, column and block holds each value
/// at most once.
pub open spec fn valid(b: Seq<Option<Value>>) -> bool {
    &&& b.len() == 81
    &&& forall|k: int|
        0 <= k < 9 ==> {
            &&& distinct_in(b, #[trigger] row_cells(k))
            &&& distinct_in(b, column_cells(k))
            &&& distinct_in(b, block_cells(k / 3, k % 3))
        }
}

/// No cell is empty.
pub open spec fn complete(b: Seq<Option<Value>>) -> bool {
    forall|p: int| 0 <= p < b.len() ==> (#[trigger] b[p]) is Some
}

/// `s` keeps every filled cell of `b`.
pub open spec fn extends(s: Seq<Option<Value>>, b: Seq<Option<Value>>) -> bool {
    &&& s.len() == b.len()
    &&& forall|p: int| 0 <= p < b.len() && (#[trigger] b[p]) is Some ==> s[p] == b[p]
}

/// `s` is a complete, valid board that keeps every filled cell of `b`.
pub open spec fn solves(s: Seq<Option<Value>>, b: Seq<Option<Value>>) -> bool {
    &&& valid(s)
    &&& complete(s)
    &&& extends(s, b)
}

/// Some complete, valid board keeps every filled cell of `b`.
pub open spec fn solvable(b: Seq<Option<Value>>) -> bool {
    exists|s: Seq<Option<Value>>| solves(s, b)
}

/// The number of empty cells.
pub open spec fn num_empty(b: Seq<Option<Value>>) -> nat
    decreases b.len(),
{
    if b.len() == 0 {
        0
    } else {
        num_empty(b.drop_last()) + if b.last() is None {
            1nat
        } else {
            0nat
        }
    }
}

/// Each cell lies in the row, the column and the block that the position
/// derivations name, at the offsets they name; and no other row, column or
/// block lists it.
pub proof fn lemma_cell_geometry(p: int)
    requires
        0 <= p < 81,
    ensures
        0 <= spec_row(p) < 9,
        0 <= spec_column(p) < 9,
        0 <= spec_block(p).0 < 3,
        0 <= spec_block(p).1 < 3,
        0 <= spec_slot(p) < 9,
        row_cells(spec_row(p))[spec_column(p)] == p,
        column_cells(spec_column(p))[spec_row(p)] == p,
        block_cells(spec_block(p).0, spec_block(p).1)[spec_slot(p)] == p,
        forall|r: int, i: int|
            0 <= r < 9 && 0 <= i < 9 && #[trigger] cell_at(r, i) == p ==> r == spec_row(p) && i
                == spec_column(p),
        forall|br: int, bc: int, i: int|
            0 <= br < 3 && 0 <= bc < 3 && 0 <= i < 9 && #[trigger] block_cell(br, bc, i) == p
                ==> br == spec_block(p).0 && bc == spec_block(p).1 && i == spec_slot(p),
{
    assert forall|br: int, bc: int, i: int|
        0 <= br < 3 && 0 <= bc < 3 && 0 <= i < 9 && #[trigger] block_cell(br, bc, i) == p
            implies br == spec_block(p).0 && bc == spec_block(p).1 && i == spec_slot(p) by {
        let r = 3 * br + i / 3;
        let c = 3 * bc + i % 3;
        assert(r == p / 9 && c == p % 9);
        assert(r / 3 == br);
        assert(c / 3 == bc);
        assert(i == 3 * (r % 3) + c % 3);
    }
}

/// A value is in the candidate sequence exactly when it is legal there.
pub proof fn lemma_candidates_contains(b: Seq<Option<Value>>, p: int, v: Value)
    ensures
        candidates(b, p).contains(v) <==> is_candidate(b, p, v),
{
    lemma_filter_values(|w: Value| is_candidate(b, p, w), v);
}

/// Candidate soundness: no candidate of an empty cell already fills a cell
/// of its row, its column or its block.
pub proof fn lemma_candidate_sound(b: Seq<Option<Value>>, p: int, v: Value)
    requires
        b.len() == 81,
        0 <= p < 81,
        b[p] is None,
        candidates(b, p).contains(v),
    ensures
        !present(b, row_cells(spec_row(p)), v),
        !present(b, column_cells(spec_column(p)), v),
        !present(b, block_cells(spec_block(p).0, spec_block(p).1), v),
{
    lemma_candidates_contains(b, p, v);
}

/// Candidate completeness: every value absent from the row, the column and
/// the block of an empty cell is one of its candidates.
pub proof fn lemma_candidate_complete(b: Seq<Option<Value>>, p: int, v: Value)
    requires
        b.len() == 81,
        0 <= p < 81,
        b[p] is None,
        !present(b, row_cells(spec_row(p)), v),
        !present(b, column_cells(spec_column(p)), v),
        !present(b, block_cells(spec_block(p).0, spec_block(p).1), v),
    ensures
        candidates(b, p).contains(v),
{
    lemma_candidates_contains(b, p, v);
}

/// Filling an empty cell of a valid board with one of its candidates keeps
/// the board valid.
pub proof fn lemma_fill_keeps_valid(b: Seq<Option<Value>>, p: int, v: Value)
    requires
        valid(b),
        0 <= p < 81,
        b[p] is None,
        is_candidate(b, p, v),
    ensures
        valid(b.update(p, Some(v))),
{
    let c = b.update(p, Some(v));
    assert forall|k: int| 0 <= k < 9 implies {
        &&& distinct_in(c, #[trigger] row_cells(k))
        &&& distinct_in(c, column_cells(k))
        &&& distinct_in(c, block_cells(k / 3, k % 3))
    } by {
        lemma_valid_groups(b, k);
        lemma_fill_row(b, p, v, k);
        lemma_fill_column(b, p, v, k);
        lemma_fill_block(b, p, v, k / 3, k % 3);
    }
}

proof fn lemma_fill_row(b: Seq<Option<Value>>, p: int, v: Value, k: int)
    requires
        b.len() == 81,
        0 <= p < 81,
        b[p] is None,
        is_candidate(b, p, v),
        0 <= k < 9,
        distinct_in(b, row_cells(k)),
    ensures
        distinct_in(b.update(p, Some(v)), row_cells(k)),
{
    lemma_cell_geometry(p);
    lemma_fill_keeps_distinct(b, p, v, row_cells(k));
}

proof fn lemma_fill_column(b: Seq<Option<Value>>, p: int, v: Value, k: int)
    requires
        b.len() == 81,
        0 <= p < 81,
        b[p] is None,
        is_candidate(b, p, v),
        0 <= k < 9,
        distinct_in(b, column_cells(k)),
    ensures
        distinct_in(b.update(p, Some(v)), column_cells(k)),
{
    lemma_cell_geometry(p);
    lemma_fill_keeps_distinct(b, p, v, column_cells(k));
}

#[verifier::rlimit(30)]
proof fn lemma_fill_block(b: Seq<Option<Value>>, p: int, v: Value, br: int, bc: int)
    requires
        b.len() == 81,
        0 <= p < 81,
        b[p] is None,
        is_candidate(b, p, v),
        0 <= br < 3,
        0 <= bc < 3,
        distinct_in(b, block_cells(br, bc)),
    ensures
        distinct_in(b.update(p, Some(v)), block_cells(br, bc)),
{
    let cells = block_cells(br, bc);
    assert forall|i: int| 0 <= i < cells.len() implies 0 <= #[trigger] cells[i] < 81 by {
        assert(0 <= i / 3 < 3 && 0 <= i % 3 < 3);
    }
    assert forall|i: int, j: int|
        0 <= i < cells.len() && 0 <= j < cells.len() && i != j implies #[trigger] cells[i]
            != #[trigger] cells[j] by {
        lemma_cell_geometry(cells[i]);
    }
    if exists|i: int| 0 <= i < cells.len() && #[trigger] cells[i] == p {
        let i = choose|i: int| 0 <= i < cells.len() && #[trigger] cells[i] == p;
        lemma_cell_geometry(p);
        assert(block_cell(br, bc, i) == p);
        assert(br == spec_block(p).0 && bc == spec_block(p).1);
    }
    lemma_fill_keeps_distinct(b, p, v, cells);
}

proof fn lemma_fill_keeps_distinct(b: Seq<Option<Value>>, p: int, v: Value, cells: Seq<int>)
    requires
        b.len() == 81,
        0 <= p < 81,
        b[p] is None,
        distinct_in(b, cells),
        forall|i: int| 0 <= i < cells.len() ==> 0 <= #[trigger] cells[i] < 81,
        forall|i: int, j: int|
            0 <= i < cells.len() && 0 <= j < cells.len() && i != j ==> #[trigger] cells[i]
                != #[trigger] cells[j],
        (exists|i: int| 0 <= i < cells.len() && #[trigger] cells[i] == p) ==> !present(
            b,
            cells,
            v,
        ),
    ensures
        distinct_in(b.update(p, Some(v)), cells),
{
    let c = b.update(p, Some(v));
    assert forall|i: int, j: int|
        0 <= i < cells.len() && 0 <= j < cells.len() && i != j && c[#[trigger] cells[i]] is Some
            implies c[cells[i]] != c[#[trigger] cells[j]] by {
        if cells[i] == p {
            assert(b[cells[j]] != Some(v));
        } else if cells[j] == p {
            assert(b[cells[i]] != Some(v));
        }
    }
}

proof fn lemma_valid_groups(b: Seq<Option<Value>>, k: int)
    requires
        valid(b),
        0 <= k < 9,
    ensures
        distinct_in(b, row_cells(k)),
        distinct_in(b, column_cells(k)),
        distinct_in(b, block_cells(k / 3, k % 3)),
{
    assert(distinct_in(b, row_cells(k)));
}

/// A solution of a board fills each empty cell with one of its candidates,
/// and also solves the board with that cell filled.
pub proof fn lemma_solution_fills_candidate(s: Seq<Option<Value>>, b: Seq<Option<Value>>, p: int)
    requires
        solves(s, b),
        0 <= p < 81,
        b[p] is None,
    ensures
        s[p] is Some,
        is_candidate(b, p, s[p]->0),
        solves(s, b.update(p, s[p])),
{
    let v = s[p]->0;
    lemma_cell_geometry(p);
    let r = spec_row(p);
    let c = spec_column(p);
    let (br, bc) = spec_block(p);
    assert(distinct_in(s, row_cells(r)));
    lemma_valid_groups(s, c);
    let k = 3 * br + bc;
    assert(k / 3 == br && k % 3 == bc);
    lemma_valid_groups(s, k);
    if present(b, row_cells(r), v) {
        let i = choose|i: int| 0 <= i < 9 && b[#[trigger] row_cells(r)[i]] == Some(v);
        assert(s[row_cells(r)[i]] == Some(v));
        assert(i != c);
    }
    if present(b, column_cells(c), v) {
        let i = choose|i: int| 0 <= i < 9 && b[#[trigger] column_cells(c)[i]] == Some(v);
        assert(s[column_cells(c)[i]] == Some(v));
        assert(i != r);
    }
    if present(b, block_cells(br, bc), v) {
        let i = choose|i: int| 0 <= i < 9 && b[#[trigger] block_cells(br, bc)[i]] == Some(v);
        assert(s[block_cells(br, bc)[i]] == Some(v));
        assert(i != spec_slot(p));
    }
    assert(extends(s, b.update(p, s[p])));
}

/// Filling one empty cell lowers the count of empty cells by one.
pub proof fn lemma_fill_num_empty(b: Seq<Option<Value>>, p: int, v: Value)
    requires
        0 <= p < b.len(),
        b[p] is None,
    ensures
        num_empty(b) >= 1,
        num_empty(b.update(p, Some(v))) == num_empty(b) - 1,
    decreases b.len(),
{
    let c = b.update(p, Some(v));
    if p == b.len() - 1 {
        assert(c.drop_last() =~= b.drop_last());
    } else {
        assert(c.drop_last() =~= b.drop_last().update(p, Some(v)));
        lemma_fill_num_empty(b.drop_last(), p, v);
    }
}

} // verus!
