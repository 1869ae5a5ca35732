use vstd::prelude::*;

use crate::board::Board;
use crate::grid::{
    block,
    candidates,
    complete,
    extends,
    is_candidate,
    lemma_candidates_contains,
    lemma_fill_keeps_valid,
    lemma_fill_num_empty,
    lemma_solution_fills_candidate,
    num_empty,
    solvable,
    solves,
    valid,
    block_cell,
    block_cells,
    cell_at,
    column,
    column_cells,
    present,
    row,
    row_cells,
    spec_block,
    spec_column,
    spec_row,
};
use crate::value::{Value, all_values, lemma_filter_values};

verus! {

/// The filled values among `cells`, in the order of `cells`.
pub open spec fn filled(b: Seq<Option<Value>>, cells: Seq<int>) -> Seq<Value>
    decreases cells.len(),
{
    if cells.len() == 0 {
        Seq::empty()
    } else {
        match b[cells.last()] {
            Some(v) => filled(b, cells.drop_last()).push(v),
            None => filled(b, cells.drop_last()),
        }
    }
}

/// The nine linear indices of each block, blocks numbered row-major
/// (block row times three plus block column).
pub open spec fn block_offset_table() -> Seq<Seq<usize>> {
    Seq::new(9, |k: int| Seq::new(9, |i: int| block_cell(k / 3, k % 3, i) as usize))
}

/// The values in `cells` are those that fill a cell in the list.
pub proof fn lemma_filled_contains(b: Seq<Option<Value>>, cells: Seq<int>, v: Value)
    ensures
        filled(b, cells).contains(v) <==> present(b, cells, v),
    decreases cells.len(),
{
    if cells.len() > 0 {
        let rest = cells.drop_last();
        let last = cells.last();
        lemma_filled_contains(b, rest, v);
        if present(b, cells, v) {
            let i = choose|i: int| 0 <= i < cells.len() && b[#[trigger] cells[i]] == Some(v);
            if i < cells.len() - 1 {
                assert(rest[i] == cells[i]);
            }
        }
        if present(b, rest, v) {
            let i = choose|i: int| 0 <= i < rest.len() && b[#[trigger] rest[i]] == Some(v);
            assert(cells[i] == rest[i]);
        }
        if b[last] == Some(v) {
            assert(cells[cells.len() - 1] == last);
        }
        let fr = filled(b, rest);
        if let Some(w) = b[last] {
            if fr.contains(v) {
                let j = choose|j: int| 0 <= j < fr.len() && fr[j] == v;
                assert(fr.push(w)[j] == v);
            }
            if w == v {
                assert(fr.push(w)[fr.len() as int] == v);
            }
            if fr.push(w).contains(v) {
                let j = choose|j: int| 0 <= j < fr.len() + 1 && fr.push(w)[j] == v;
                if j < fr.len() {
                    assert(fr[j] == v);
                }
            }
        }
    }
}

/// The empty cell with the fewest candidates among the first `n` cells;
/// of several with equally few, the first.
pub open spec fn pick_upto(b: Seq<Option<Value>>, n: int) -> Option<int>
    decreases n,
{
    if n <= 0 {
        None
    } else {
        let prev = pick_upto(b, n - 1);
        if b[n - 1] is None && (prev is None || candidates(b, n - 1).len() < candidates(
            b,
            prev->0,
        ).len()) {
            Some(n - 1)
        } else {
            prev
        }
    }
}

/// The cell to branch on: the first empty cell with the fewest candidates.
pub open spec fn chosen_cell(b: Seq<Option<Value>>) -> Option<int> {
    pick_upto(b, 81)
}

/// The boards to explore next: one per candidate of the chosen cell, in
/// ascending order of the candidate, each the board with that cell filled.
pub open spec fn expansion(b: Seq<Option<Value>>) -> Seq<Seq<Option<Value>>> {
    match chosen_cell(b) {
        Some(p) => candidates(b, p).map_values(|v: Value| b.update(p, Some(v))),
        None => Seq::empty(),
    }
}

/// Some empty cell has no candidate at all.
pub open spec fn has_dead_cell(b: Seq<Option<Value>>) -> bool {
    exists|p: int| 0 <= p < 81 && b[p] is None && #[trigger] candidates(b, p).len() == 0
}

proof fn lemma_pick_upto(b: Seq<Option<Value>>, n: int)
    requires
        0 <= n <= b.len(),
    ensures
        match pick_upto(b, n) {
            Some(p) => {
                &&& 0 <= p < n
                &&& b[p] is None
                &&& forall|q: int|
                    0 <= q < n && b[q] is None ==> candidates(b, p).len() <= #[trigger] candidates(
                        b,
                        q,
                    ).len() && (q < p ==> candidates(b, p).len() < candidates(b, q).len())
            },
            None => forall|q: int| 0 <= q < n ==> (#[trigger] b[q]) is Some,
        },
    decreases n,
{
    if n > 0 {
        lemma_pick_upto(b, n - 1);
    }
}

/// The chosen cell is empty, has no more candidates than any empty cell,
/// and has strictly fewer than every empty cell before it: of several
/// cells with equally few candidates, the first in row-major order wins.
pub proof fn lemma_chosen_cell_is_first_minimum(b: Seq<Option<Value>>)
    requires
        b.len() == 81,
        !complete(b),
    ensures
        chosen_cell(b) is Some,
        0 <= chosen_cell(b)->0 < 81,
        b[chosen_cell(b)->0] is None,
        forall|q: int|
            0 <= q < 81 && b[q] is None ==> candidates(b, chosen_cell(b)->0).len()
                <= #[trigger] candidates(b, q).len(),
        forall|q: int|
            0 <= q < chosen_cell(b)->0 && b[q] is None ==> candidates(b, chosen_cell(b)->0).len()
                < #[trigger] candidates(b, q).len(),
{
    lemma_pick_upto(b, 81);
}

/// A board with an empty cell that no value fits has no solution.
pub proof fn lemma_dead_cell_unsolvable(b: Seq<Option<Value>>, p: int)
    requires
        b.len() == 81,
        0 <= p < 81,
        b[p] is None,
        candidates(b, p).len() == 0,
    ensures
        !solvable(b),
{
    if solvable(b) {
        let s = choose|s: Seq<Option<Value>>| solves(s, b);
        lemma_solution_fills_candidate(s, b, p);
        lemma_candidates_contains(b, p, s[p]->0);
    }
}

/// The block table is the same in every worker: it follows from the
/// grid's geometry alone, whatever board a worker has examined.
pub proof fn lemma_block_offsets_shared(a: &Worker, b: &Worker)
    requires
        a.wf(),
        b.wf(),
    ensures
        a.offsets() == b.offsets(),
        a.offsets() == block_offset_table(),
        forall|k: int, i: int|
            0 <= k < 9 && 0 <= i < 9 ==> #[trigger] a.offsets()[k][i] as int == block_cell(
                k / 3,
                k % 3,
                i,
            ),
{
}

/// Whether `v` occurs in `list`.
fn contains_value(list: &[Value], v: Value) -> (r: bool)
    ensures
        r == list@.contains(v),
{
    let mut i: usize = 0;
    while i < list.len()
        invariant
            i <= list@.len(),
            forall|j: int| 0 <= j < i ==> list@[j] != v,
        decreases list@.len() - i,
    {
        if list[i] == v {
            return true;
        }
        i = i + 1;
    }
    false
}

/// Reusable scratch space for constraint evaluation: for each row, column
/// and block, the values that fill it on the board last examined; and the
/// fixed table of the cells of each block.
pub struct Worker {
    available_values: Vec<Value>,
    block_offsets: Vec<Vec<usize>>,
    rows: Vec<Vec<Value>>,
    columns: Vec<Vec<Value>>,
    blocks: Vec<Vec<Value>>,
}

impl Worker {
    /// The values in the order in which candidates are listed.
    pub closed spec fn values(&self) -> Seq<Value> {
        self.available_values@
    }

    /// The cells of each block, as the worker holds them.
    pub closed spec fn offsets(&self) -> Seq<Seq<usize>> {
        self.block_offsets@.map_values(|o: Vec<usize>| o@)
    }

    /// The values recorded for each row.
    pub closed spec fn row_lists(&self) -> Seq<Seq<Value>> {
        self.rows@.map_values(|l: Vec<Value>| l@)
    }

    /// The values recorded for each column.
    pub closed spec fn column_lists(&self) -> Seq<Seq<Value>> {
        self.columns@.map_values(|l: Vec<Value>| l@)
    }

    /// The values recorded for each block, blocks numbered row-major.
    pub closed spec fn block_lists(&self) -> Seq<Seq<Value>> {
        self.blocks@.map_values(|l: Vec<Value>| l@)
    }

    /// The worker's fixed parts are in place: the nine values in order,
    /// the block table, and one scratch list per row, column and block.
    pub closed spec fn wf(&self) -> bool {
        &&& self.available_values@ == all_values()
        &&& self.offsets() == block_offset_table()
        &&& self.rows@.len() == 9
        &&& self.columns@.len() == 9
        &&& self.blocks@.len() == 9
    }

    /// The scratch lists hold, for every row, column and block, the values
    /// that fill it on board `b`.
    pub closed spec fn reflects(&self, b: Seq<Option<Value>>) -> bool {
        &&& forall|k: int| 0 <= k < 9 ==> #[trigger] self.row_lists()[k] == filled(b, row_cells(k))
        &&& forall|k: int|
            0 <= k < 9 ==> #[trigger] self.column_lists()[k] == filled(b, column_cells(k))
        &&& forall|k: int|
            0 <= k < 9 ==> #[trigger] self.block_lists()[k] == filled(
                b,
                block_cells(k / 3, k % 3),
            )
    }

    /// When the scratch lists reflect `b`, what `possible` lists for a
    /// position are exactly its candidates on `b`.
    pub proof fn lemma_possible_is_candidates(&self, b: Seq<Option<Value>>, p: int)
        requires
            self.wf(),
            self.reflects(b),
            b.len() == 81,
            0 <= p < 81,
        ensures
            all_values().filter(
                |v: Value|
                    !self.row_lists()[spec_row(p)].contains(v) && !self.column_lists()[spec_column(
                        p,
                    )].contains(v) && !self.block_lists()[3 * spec_block(p).0 + spec_block(
                        p,
                    ).1].contains(v),
            ) == candidates(b, p),
    {
        let f = |v: Value|
            !self.row_lists()[spec_row(p)].contains(v) && !self.column_lists()[spec_column(
                p,
            )].contains(v) && !self.block_lists()[3 * spec_block(p).0 + spec_block(p).1].contains(
                v,
            );
        let g = |v: Value| is_candidate(b, p, v);
        let (br, bc) = spec_block(p);
        let k = 3 * br + bc;
        assert(0 <= br < 3 && 0 <= bc < 3);
        assert(k / 3 == br && k % 3 == bc);
        assert(self.row_lists()[spec_row(p)] == filled(b, row_cells(spec_row(p))));
        assert(self.column_lists()[spec_column(p)] == filled(b, column_cells(spec_column(p))));
        assert(self.block_lists()[k] == filled(b, block_cells(br, bc)));
        assert forall|v: Value| #[trigger] f(v) == g(v) by {
            lemma_filled_contains(b, row_cells(spec_row(p)), v);
            lemma_filled_contains(b, column_cells(spec_column(p)), v);
            lemma_filled_contains(b, block_cells(br, bc), v);
        }
        assert(f =~= g);
    }

    /// A worker with empty scratch lists and the block table computed.
    pub fn new() -> (r: Worker)
        ensures
            r.wf(),
            forall|k: int|
                0 <= k < 9 ==> (#[trigger] r.row_lists()[k]).len() == 0
                    && r.column_lists()[k].len() == 0 && r.block_lists()[k].len() == 0,
    {
        let mut worker = Worker {
            available_values: Value::all(),
            block_offsets: Vec::new(),
            rows: empty_lists(),
            columns: empty_lists(),
            blocks: empty_lists(),
        };
        assert(forall|j: int| 0 <= j < 9 ==> (#[trigger] worker.row_lists()[j]).len() == 0);
        assert(forall|j: int| 0 <= j < 9 ==> (#[trigger] worker.column_lists()[j]).len() == 0);
        assert(forall|j: int| 0 <= j < 9 ==> (#[trigger] worker.block_lists()[j]).len() == 0);
        assert(worker.row_lists().len() == 9 && worker.column_lists().len() == 9);
        assert(worker.block_lists().len() == 9);
        worker.calculate_block_offsets();
        assert(worker.rows@.len() == worker.row_lists().len());
        assert(worker.columns@.len() == worker.column_lists().len());
        assert(worker.blocks@.len() == worker.block_lists().len());
        worker
    }

    /// Fills in the table of the nine cells of each block.
    pub fn calculate_block_offsets(&mut self)
        ensures
            final(self).offsets() == block_offset_table(),
            final(self).values() == old(self).values(),
            final(self).row_lists() == old(self).row_lists(),
            final(self).column_lists() == old(self).column_lists(),
            final(self).block_lists() == old(self).block_lists(),
    {
        let mut table: Vec<Vec<usize>> = Vec::new();
        for blockrow in 0..3usize
            invariant
                table@.len() == 3 * blockrow,
                forall|k: int|
                    0 <= k < table@.len() ==> (#[trigger] table@[k])@ == block_offset_table()[k],
        {
            for blockcol in 0..3usize
                invariant
                    blockrow < 3,
                    table@.len() == 3 * blockrow + blockcol,
                    forall|k: int|
                        0 <= k < table@.len() ==> (#[trigger] table@[k])@
                            == block_offset_table()[k],
            {
                let row = blockrow * 3;
                let col = blockcol * 3;
                let cells = vec![
                    9 * row + col,
                    9 * row + col + 1,
                    9 * row + col + 2,
                    9 * (row + 1) + col,
                    9 * (row + 1) + col + 1,
                    9 * (row + 1) + col + 2,
                    9 * (row + 2) + col,
                    9 * (row + 2) + col + 1,
                    9 * (row + 2) + col + 2,
                ];
                let ghost k = 3 * blockrow + blockcol;
                assert(k / 3 == blockrow && k % 3 == blockcol);
                assert(cells@ =~= block_offset_table()[k]);
                table.push(cells);
            }
        }
        assert(table@.map_values(|o: Vec<usize>| o@) =~= block_offset_table());
        self.block_offsets = table;
    }

    /// The values of the canonical order that `constraint` lacks, in order.
    pub fn check_constraint(&self, constraint: &[Value]) -> (r: Vec<Value>)
        requires
            self.wf(),
        ensures
            r@ == all_values().filter(|v: Value| !constraint@.contains(v)),
    {
        let ghost f = |v: Value| !constraint@.contains(v);
        let mut out: Vec<Value> = Vec::new();
        for i in 0..self.available_values.len()
            invariant
                self.available_values@ == all_values(),
                f == (|v: Value| !constraint@.contains(v)),
                out@ == all_values().take(i as int).filter(f),
        {
            let x = self.available_values[i];
            proof {
                assert(all_values().take(i + 1) =~= all_values().take(i as int).push(x));
                all_values().take(i as int).lemma_filter_push(x, f);
            }
            let absent = !contains_value(constraint, x);
            if absent {
                out.push(x);
            }
        }
        assert(all_values().take(9) =~= all_values());
        out
    }

    /// Records the values that fill row `row` of `board`, replacing what
    /// was recorded for that row before.
    pub fn constrain_row(&mut self, board: &Board, row: usize)
        requires
            old(self).wf(),
            board.wf(),
            row < 9,
        ensures
            final(self).wf(),
            final(self).row_lists() == old(self).row_lists().update(
                row as int,
                filled(board@, row_cells(row as int)),
            ),
            final(self).column_lists() == old(self).column_lists(),
            final(self).block_lists() == old(self).block_lists(),
    {
        let ghost cells = row_cells(row as int);
        let mut list: Vec<Value> = Vec::new();
        let start = row * 9;
        let end = start + 9;
        for pt in start..end
            invariant
                row < 9,
                start == row * 9,
                end == start + 9,
                board.wf(),
                cells == row_cells(row as int),
                list@ == filled(board@, cells.take(pt - start)),
        {
            proof {
                assert(cells.take(pt - start + 1).drop_last() =~= cells.take(pt - start));
            }
            if let Some(val) = board.get(pt) {
                list.push(val);
            }
        }
        assert(cells.take(9) =~= cells);
        self.rows[row] = list;
        assert(self.row_lists() =~= old(self).row_lists().update(row as int, filled(board@, cells)));
    }

    /// Records the values that fill column `column` of `board`, replacing
    /// what was recorded for that column before.
    pub fn constrain_column(&mut self, board: &Board, column: usize)
        requires
            old(self).wf(),
            board.wf(),
            column < 9,
        ensures
            final(self).wf(),
            final(self).column_lists() == old(self).column_lists().update(
                column as int,
                filled(board@, column_cells(column as int)),
            ),
            final(self).row_lists() == old(self).row_lists(),
            final(self).block_lists() == old(self).block_lists(),
    {
        let ghost cells = column_cells(column as int);
        let mut list: Vec<Value> = Vec::new();
        for i in 0..9usize
            invariant
                board.wf(),
                column < 9,
                cells == column_cells(column as int),
                list@ == filled(board@, cells.take(i as int)),
        {
            let pt = i * 9 + column;
            proof {
                assert(cells.take(i + 1).drop_last() =~= cells.take(i as int));
            }
            if let Some(val) = board.get(pt) {
                list.push(val);
            }
        }
        assert(cells.take(9) =~= cells);
        self.columns[column] = list;
        assert(self.column_lists() =~= old(self).column_lists().update(
            column as int,
            filled(board@, cells),
        ));
    }

    /// Records the values that fill block `block` (block row, block column)
    /// of `board`, replacing what was recorded for that block before.
    pub fn constrain_block(&mut self, board: &Board, block: (u8, u8))
        requires
            old(self).wf(),
            board.wf(),
            block.0 < 3,
            block.1 < 3,
        ensures
            final(self).wf(),
            final(self).block_lists() == old(self).block_lists().update(
                3 * block.0 + block.1,
                filled(board@, block_cells(block.0 as int, block.1 as int)),
            ),
            final(self).row_lists() == old(self).row_lists(),
            final(self).column_lists() == old(self).column_lists(),
    {
        let k = 3 * (block.0 as usize) + (block.1 as usize);
        let ghost cells = block_cells(block.0 as int, block.1 as int);
        assert(k / 3 == block.0 && k % 3 == block.1);
        assert(self.block_offsets@.len() == self.offsets().len());
        assert(self.offsets()[k as int] == self.block_offsets@[k as int]@);
        let offsets = &self.block_offsets[k];
        assert(offsets@ == block_offset_table()[k as int]);
        let mut list: Vec<Value> = Vec::new();
        for i in 0..9usize
            invariant
                board.wf(),
                k < 9,
                k / 3 == block.0,
                k % 3 == block.1,
                offsets@ == block_offset_table()[k as int],
                cells == block_cells(block.0 as int, block.1 as int),
                list@ == filled(board@, cells.take(i as int)),
        {
            let pt = offsets[i];
            proof {
                assert(cells.take(i + 1).drop_last() =~= cells.take(i as int));
            }
            if let Some(val) = board.get(pt) {
                list.push(val);
            }
        }
        assert(cells.take(9) =~= cells);
        self.blocks[k] = list;
        assert(self.block_lists() =~= old(self).block_lists().update(k as int, filled(board@, cells)));
    }

    /// The values absent from the recorded row, column and block of
    /// `position`, in ascending order.
    pub fn possible(&mut self, position: u8) -> (r: Vec<Value>)
        requires
            old(self).wf(),
            position < 81,
        ensures
            *final(self) == *old(self),
            r@ == all_values().filter(
                |v: Value|
                    !old(self).row_lists()[spec_row(position as int)].contains(v)
                        && !old(self).column_lists()[spec_column(position as int)].contains(v)
                        && !old(self).block_lists()[3 * spec_block(position as int).0
                        + spec_block(position as int).1].contains(v),
            ),
    {
        let (br, bc) = block(position);
        let possible_row = self.check_constraint(self.rows[row(position) as usize].as_slice());
        let possible_column = self.check_constraint(
            self.columns[column(position) as usize].as_slice(),
        );
        let possible_block = self.check_constraint(
            self.blocks[3 * (br as usize) + (bc as usize)].as_slice(),
        );
        let ghost f = |v: Value|
            !self.row_lists()[spec_row(position as int)].contains(v)
                && !self.column_lists()[spec_column(position as int)].contains(v)
                && !self.block_lists()[3 * spec_block(position as int).0 + spec_block(
                position as int,
            ).1].contains(v);
        let mut out: Vec<Value> = Vec::new();
        for i in 0..self.available_values.len()
            invariant
                self.wf(),
                *self == *old(self),
                position < 81,
                br == spec_block(position as int).0,
                bc == spec_block(position as int).1,
                possible_row@ == all_values().filter(
                    |v: Value| !self.rows@[spec_row(position as int)]@.contains(v),
                ),
                possible_column@ == all_values().filter(
                    |v: Value| !self.columns@[spec_column(position as int)]@.contains(v),
                ),
                possible_block@ == all_values().filter(
                    |v: Value| !self.blocks@[3 * br + bc]@.contains(v),
                ),
                f == (|v: Value|
                    !self.row_lists()[spec_row(position as int)].contains(v)
                        && !self.column_lists()[spec_column(position as int)].contains(v)
                        && !self.block_lists()[3 * spec_block(position as int).0 + spec_block(
                        position as int,
                    ).1].contains(v)),
                out@ == all_values().take(i as int).filter(f),
        {
            let x = self.available_values[i];
            proof {
                assert(all_values().take(i + 1) =~= all_values().take(i as int).push(x));
                all_values().take(i as int).lemma_filter_push(x, f);
                lemma_filter_values(
                    |v: Value| !self.rows@[spec_row(position as int)]@.contains(v),
                    x,
                );
                lemma_filter_values(
                    |v: Value| !self.columns@[spec_column(position as int)]@.contains(v),
                    x,
                );
                lemma_filter_values(|v: Value| !self.blocks@[3 * br + bc]@.contains(v), x);
            }
            if contains_value(possible_row.as_slice(), x) && contains_value(
                possible_column.as_slice(),
                x,
            ) && contains_value(possible_block.as_slice(), x) {
                out.push(x);
            }
        }
        assert(all_values().take(9) =~= all_values());
        out
    }
}

/// Nine empty lists.
fn empty_lists() -> (r: Vec<Vec<Value>>)
    ensures
        r@.len() == 9,
        forall|k: int| 0 <= k < 9 ==> (#[trigger] r@[k])@.len() == 0,
{
    let mut r: Vec<Vec<Value>> = Vec::new();
    for k in 0..9usize
        invariant
            r@.len() == k,
            forall|j: int| 0 <= j < k ==> (#[trigger] r@[j])@.len() == 0,
    {
        r.push(Vec::new());
    }
    r
}

/// Expands `board` at its most constrained empty cell: records the values
/// of every row, column and block, picks the first empty cell with the
/// fewest candidates, and returns one board per candidate, in ascending
/// order, each with that cell filled. The result depends on the board
/// alone, not on what the worker held before.
pub fn next(board: &Board, worker: &mut Worker) -> (r: Vec<Board>)
    requires
        old(worker).wf(),
        board.wf(),
        !complete(board@),
    ensures
        final(worker).wf(),
        final(worker).reflects(board@),
        r@.map_values(|c: Board| c@) == expansion(board@),
{
    for offset in 0..9usize
        invariant
            worker.wf(),
            board.wf(),
            forall|k: int|
                0 <= k < offset ==> #[trigger] worker.row_lists()[k] == filled(
                    board@,
                    row_cells(k),
                ),
            forall|k: int|
                0 <= k < offset ==> #[trigger] worker.column_lists()[k] == filled(
                    board@,
                    column_cells(k),
                ),
    {
        worker.constrain_row(board, offset);
        worker.constrain_column(board, offset);
    }
    for k in 0..9usize
        invariant
            worker.wf(),
            board.wf(),
            forall|j: int|
                0 <= j < 9 ==> #[trigger] worker.row_lists()[j] == filled(board@, row_cells(j)),
            forall|j: int|
                0 <= j < 9 ==> #[trigger] worker.column_lists()[j] == filled(
                    board@,
                    column_cells(j),
                ),
            forall|j: int|
                0 <= j < k ==> #[trigger] worker.block_lists()[j] == filled(
                    board@,
                    block_cells(j / 3, j % 3),
                ),
    {
        worker.constrain_block(board, ((k / 3) as u8, (k % 3) as u8));
    }
    let mut least_possible: Vec<Value> = Vec::new();
    let mut least_position: usize = 81;
    for position in 0..81usize
        invariant
            worker.wf(),
            worker.reflects(board@),
            board.wf(),
            least_position == 81 ==> pick_upto(board@, position as int) is None,
            least_position != 81 ==> pick_upto(board@, position as int) == Some(
                least_position as int,
            ) && least_possible@ == candidates(board@, least_position as int),
    {
        if board.get(position).is_none() {
            let poss = worker.possible(position as u8);
            proof {
                worker.lemma_possible_is_candidates(board@, position as int);
                lemma_pick_upto(board@, position as int);
            }
            if least_position == 81 || poss.len() < least_possible.len() {
                least_possible = poss;
                least_position = position;
            }
        }
    }
    proof {
        lemma_pick_upto(board@, 81);
    }
    let mut boards: Vec<Board> = Vec::new();
    for i in 0..least_possible.len()
        invariant
            board.wf(),
            least_position < 81,
            boards@.len() == i,
            forall|j: int|
                0 <= j < i ==> (#[trigger] boards@[j])@ == board@.update(
                    least_position as int,
                    Some(least_possible@[j]),
                ),
    {
        boards.push(board.with_value(least_position, least_possible[i]));
    }
    assert(boards@.map_values(|c: Board| c@) =~= expansion(board@));
    boards
}

/// Searches depth first for a completion of `board`: a complete board is
/// returned as it is; otherwise each board of the expansion is tried in
/// order, and the first completion found is returned. `None` means that
/// the search ran out of branches.
pub fn run(board: &Board, worker: &mut Worker) -> (r: Option<Board>)
    requires
        old(worker).wf(),
        board.wf(),
    ensures
        final(worker).wf(),
        r matches Some(s) ==> s.wf() && complete(s@) && extends(s@, board@),
        valid(board@) ==> (r matches Some(s) ==> valid(s@)),
        solvable(board@) ==> r is Some,
        valid(board@) ==> (r is Some <==> solvable(board@)),
        complete(board@) ==> (r matches Some(s) && s@ == board@),
        has_dead_cell(board@) ==> r is None,
    decreases num_empty(board@),
{
    if board.is_complete() {
        let s = board.duplicate();
        assert(valid(board@) ==> solves(s@, board@));
        return Some(s);
    }
    let choices = next(board, worker);
    let ghost p = chosen_cell(board@)->0;
    proof {
        lemma_chosen_cell_is_first_minimum(board@);
        assert(choices@.map_values(|c: Board| c@).len() == choices@.len());
        assert(choices@.len() == candidates(board@, p).len());
        if has_dead_cell(board@) {
            let q = choose|q: int|
                0 <= q < 81 && board@[q] is None && #[trigger] candidates(board@, q).len() == 0;
            assert(candidates(board@, p).len() <= candidates(board@, q).len());
        }
        assert forall|j: int| 0 <= j < choices@.len() implies {
            &&& (#[trigger] choices@[j])@ == board@.update(p, Some(candidates(board@, p)[j]))
            &&& choices@[j].wf()
            &&& extends(choices@[j]@, board@)
            &&& num_empty(choices@[j]@) < num_empty(board@)
            &&& valid(board@) ==> valid(choices@[j]@)
        } by {
            let v = candidates(board@, p)[j];
            assert(choices@.map_values(|c: Board| c@)[j] == choices@[j]@);
            lemma_candidates_contains(board@, p, v);
            lemma_fill_num_empty(board@, p, v);
            if valid(board@) {
                lemma_fill_keeps_valid(board@, p, v);
            }
        }
    }
    let mut i: usize = 0;
    while i < choices.len()
        invariant
            worker.wf(),
            board.wf(),
            0 <= p < 81,
            board@[p] is None,
            i <= choices@.len(),
            choices@.len() == candidates(board@, p).len(),
            forall|j: int|
                0 <= j < choices@.len() ==> {
                    &&& (#[trigger] choices@[j])@ == board@.update(
                        p,
                        Some(candidates(board@, p)[j]),
                    )
                    &&& choices@[j].wf()
                    &&& extends(choices@[j]@, board@)
                    &&& num_empty(choices@[j]@) < num_empty(board@)
                    &&& valid(board@) ==> valid(choices@[j]@)
                },
            forall|j: int| 0 <= j < i ==> !solvable(#[trigger] choices@[j]@),
            has_dead_cell(board@) ==> choices@.len() == 0,
        decreases choices@.len() - i,
    {
        let choice = &choices[i];
        if choice.is_complete() {
            let s = choice.duplicate();
            assert(valid(board@) ==> solves(s@, board@));
            return Some(s);
        }
        let outcome = run(choice, worker);
        if outcome.is_some() {
            assert(valid(board@) ==> solves(outcome->0@, board@));
            return outcome;
        }
        i = i + 1;
    }
    proof {
        if solvable(board@) {
            let s = choose|s: Seq<Option<Value>>| solves(s, board@);
            lemma_solution_fills_candidate(s, board@, p);
            let v = s[p]->0;
            lemma_candidates_contains(board@, p, v);
            let j = choose|j: int|
                0 <= j < candidates(board@, p).len() && candidates(board@, p)[j] == v;
            assert(solves(s, choices@[j]@));
        }
    }
    None
}

} // verus!
