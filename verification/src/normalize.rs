//! The table normalizer: turns the rows of one source table, each a sequence
//! of cells carrying text and `colspan`/`rowspan`, into a rectangular grid of
//! strings in which merged regions appear as empty slots after the principal
//! slot.
//!
//! The grid is built row by row. Before the cells of a row are placed, active
//! row spans are carried forward from the previously committed row: starting
//! at column zero, as long as the previous row holds an occupied slot whose
//! remaining row span exceeds one, an empty-content cell with the decremented
//! row span is appended and the column advances by that cell's column span.
//! Each source cell then contributes one principal slot followed by
//! `colspan - 1` empty slots. Finally every row is padded to the widest
//! column count seen anywhere in the table.

use vstd::prelude::*;
use vstd::math::clip;
use vstd::math::max;
use vstd::string::StringExecFns;

verus! {

/// One table cell as materialized during normalization.
pub struct Cell {
    /// The cell's text.
    pub content: String,
    /// Horizontal merge extent, at least one.
    pub colspan: usize,
    /// Vertical merge extent, at least one.
    pub rowspan: usize,
}

/// The mathematical image of a cell.
pub ghost struct CellModel {
    pub content: Seq<char>,
    pub colspan: int,
    pub rowspan: int,
}

impl View for Cell {
    type V = CellModel;

    open spec fn view(&self) -> CellModel {
        CellModel {
            content: self.content@,
            colspan: self.colspan as int,
            rowspan: self.rowspan as int,
        }
    }
}

/// A cell whose spans are both at least one.
pub open spec fn wf_cell(c: CellModel) -> bool {
    c.colspan >= 1 && c.rowspan >= 1
}

pub open spec fn wf_cells(cs: Seq<CellModel>) -> bool {
    forall|i: int| 0 <= i < cs.len() ==> wf_cell(#[trigger] cs[i])
}

pub open spec fn wf_slot(s: Option<CellModel>) -> bool {
    match s {
        Option::Some(c) => wf_cell(c),
        Option::None => true,
    }
}

pub open spec fn wf_slots(r: Seq<Option<CellModel>>) -> bool {
    forall|i: int| 0 <= i < r.len() ==> wf_slot(#[trigger] r[i])
}

pub open spec fn rows_wf(rows: Seq<Seq<CellModel>>) -> bool {
    forall|i: int| 0 <= i < rows.len() ==> wf_cells(#[trigger] rows[i])
}

/// Views of the executable structures.
pub open spec fn cells_view(r: Seq<Cell>) -> Seq<CellModel> {
    r.map_values(|c: Cell| c@)
}

pub open spec fn rows_view(rows: Seq<Vec<Cell>>) -> Seq<Seq<CellModel>> {
    rows.map_values(|r: Vec<Cell>| cells_view(r@))
}

pub open spec fn slot_view(s: Option<Cell>) -> Option<CellModel> {
    match s {
        Option::Some(c) => Option::Some(c@),
        Option::None => Option::None,
    }
}

pub open spec fn slots_view(r: Seq<Option<Cell>>) -> Seq<Option<CellModel>> {
    r.map_values(|s: Option<Cell>| slot_view(s))
}

pub open spec fn grid_view(g: Seq<Vec<Option<Cell>>>) -> Seq<Seq<Option<CellModel>>> {
    g.map_values(|r: Vec<Option<Cell>>| slots_view(r@))
}

pub open spec fn strings_view(t: Seq<Vec<String>>) -> Seq<Seq<Seq<char>>> {
    t.map_values(|r: Vec<String>| r@.map_values(|s: String| s@))
}

pub open spec fn tables_view(ts: Seq<Vec<Vec<String>>>) -> Seq<Seq<Seq<Seq<char>>>> {
    ts.map_values(|t: Vec<Vec<String>>| strings_view(t@))
}

/// Whether the carry of active row spans continues at column `col`.
pub open spec fn carry_cond(prev: Seq<Option<CellModel>>, max_cols: int, col: int) -> bool {
    &&& col < max_cols
    &&& 0 <= col < prev.len()
    &&& prev[col] is Some
    &&& prev[col]->Some_0.rowspan > 1
    &&& prev[col]->Some_0.colspan >= 1
}

/// The placeholder that continues a spanned cell one row further down.
pub open spec fn carried_cell(c: CellModel) -> CellModel {
    CellModel { content: Seq::empty(), colspan: c.colspan, rowspan: c.rowspan - 1 }
}

/// The slots that the carry loop prepends to a fresh row, starting at `col`.
pub open spec fn carry_slots(prev: Seq<Option<CellModel>>, max_cols: int, col: int) -> Seq<
    Option<CellModel>,
>
    decreases clip(max_cols - col),
{
    if carry_cond(prev, max_cols, col) {
        seq![Option::Some(carried_cell(prev[col]->Some_0))] + carry_slots(
            prev,
            max_cols,
            col + prev[col]->Some_0.colspan,
        )
    } else {
        Seq::empty()
    }
}

/// The column index at which the carry loop stops.
pub open spec fn carry_end(prev: Seq<Option<CellModel>>, max_cols: int, col: int) -> int
    decreases clip(max_cols - col),
{
    if carry_cond(prev, max_cols, col) {
        carry_end(prev, max_cols, col + prev[col]->Some_0.colspan)
    } else {
        col
    }
}

/// The column index after stepping over already-occupied slots.
pub open spec fn skip_end(row: Seq<Option<CellModel>>, col: int) -> int
    decreases clip(row.len() - col),
{
    if 0 <= col < row.len() && row[col] is Some {
        skip_end(row, col + 1)
    } else {
        col
    }
}

/// The slots one source cell contributes: its principal slot followed by
/// `colspan - 1` empty slots.
pub open spec fn cell_block(c: CellModel) -> Seq<Option<CellModel>> {
    seq![Option::Some(c)] + Seq::new(clip(c.colspan - 1), |i: int| Option::<CellModel>::None)
}

/// The slots contributed by a sequence of source cells.
pub open spec fn blocks(cells: Seq<CellModel>) -> Seq<Option<CellModel>>
    decreases cells.len(),
{
    if cells.len() == 0 {
        Seq::empty()
    } else {
        cell_block(cells[0]) + blocks(cells.drop_first())
    }
}

/// The row slots after all source cells are placed.
pub open spec fn place_slots(
    row: Seq<Option<CellModel>>,
    col: int,
    cells: Seq<CellModel>,
) -> Seq<Option<CellModel>>
    decreases cells.len(),
{
    if cells.len() == 0 {
        row
    } else {
        place_slots(row + cell_block(cells[0]), skip_end(row, col) + cells[0].colspan, cells.drop_first())
    }
}

/// The column index reached after all source cells are placed.
pub open spec fn place_end(row: Seq<Option<CellModel>>, col: int, cells: Seq<CellModel>) -> int
    decreases cells.len(),
{
    if cells.len() == 0 {
        col
    } else {
        place_end(row + cell_block(cells[0]), skip_end(row, col) + cells[0].colspan, cells.drop_first())
    }
}

/// A row before padding: carried placeholders, then the placed cells.
pub open spec fn row_slots_unpadded(
    prev: Seq<Option<CellModel>>,
    max_cols: int,
    cells: Seq<CellModel>,
) -> Seq<Option<CellModel>> {
    place_slots(carry_slots(prev, max_cols, 0), carry_end(prev, max_cols, 0), cells)
}

/// The column index reached at the end of a row.
pub open spec fn row_end(
    prev: Seq<Option<CellModel>>,
    max_cols: int,
    cells: Seq<CellModel>,
) -> int {
    place_end(carry_slots(prev, max_cols, 0), carry_end(prev, max_cols, 0), cells)
}

/// `row` padded with empty slots up to `width`.
pub open spec fn pad_slots(row: Seq<Option<CellModel>>, width: int) -> Seq<Option<CellModel>> {
    if row.len() >= width {
        row
    } else {
        row + Seq::new(clip(width - row.len()), |i: int| Option::<CellModel>::None)
    }
}

/// The row as committed to the working grid.
pub open spec fn committed_row(
    prev: Seq<Option<CellModel>>,
    max_cols: int,
    cells: Seq<CellModel>,
) -> Seq<Option<CellModel>> {
    pad_slots(
        row_slots_unpadded(prev, max_cols, cells),
        max(max_cols, row_end(prev, max_cols, cells)),
    )
}

/// The working grid and running column count after all rows are processed.
pub open spec fn grid_state(rows: Seq<Seq<CellModel>>) -> (Seq<Seq<Option<CellModel>>>, int)
    decreases rows.len(),
{
    if rows.len() == 0 {
        (Seq::empty(), 0)
    } else {
        let gm = grid_state(rows.drop_last());
        let prev = if gm.0.len() > 0 {
            gm.0.last()
        } else {
            Seq::empty()
        };
        (
            gm.0.push(committed_row(prev, gm.1, rows.last())),
            max(gm.1, row_end(prev, gm.1, rows.last())),
        )
    }
}

/// The width of the normalized table: the widest column index observed.
pub open spec fn grid_width(rows: Seq<Seq<CellModel>>) -> int {
    grid_state(rows).1
}

/// The string a slot emits: the cell's content, or empty for a placeholder.
pub open spec fn slot_text(s: Option<CellModel>) -> Seq<char> {
    match s {
        Option::Some(c) => c.content,
        Option::None => Seq::empty(),
    }
}

/// The normalized table: every committed row mapped to strings and padded to
/// the full table width, so the result is rectangular by construction.
pub open spec fn table_text(rows: Seq<Seq<CellModel>>) -> Seq<Seq<Seq<char>>> {
    let g = grid_state(rows).0;
    let w = grid_state(rows).1;
    g.map_values(
        |r: Seq<Option<CellModel>>|
            Seq::new(
                clip(w),
                |j: int|
                    if 0 <= j < r.len() {
                        slot_text(r[j])
                    } else {
                        Seq::<char>::empty()
                    },
            ),
    )
}

pub proof fn lemma_slots_view_push(r: Seq<Option<Cell>>, x: Option<Cell>)
    ensures
        slots_view(r.push(x)) =~= slots_view(r).push(slot_view(x)),
{
    assert forall|i: int| 0 <= i < r.len() + 1 implies slots_view(r.push(x))[i] == slots_view(
        r,
    ).push(slot_view(x))[i] by {
        if i < r.len() {
            assert(r.push(x)[i] == r[i]);
        } else {
            assert(r.push(x)[i] == x);
        }
    }
}

pub proof fn lemma_carry_end_ge(prev: Seq<Option<CellModel>>, max_cols: int, col: int)
    ensures
        carry_end(prev, max_cols, col) >= col,
    decreases clip(max_cols - col),
{
    if carry_cond(prev, max_cols, col) {
        lemma_carry_end_ge(prev, max_cols, col + prev[col]->Some_0.colspan);
    }
}

pub proof fn lemma_carry_props(prev: Seq<Option<CellModel>>, max_cols: int, col: int)
    ensures
        col + carry_slots(prev, max_cols, col).len() <= carry_end(prev, max_cols, col),
        wf_slots(carry_slots(prev, max_cols, col)),
    decreases clip(max_cols - col),
{
    if carry_cond(prev, max_cols, col) {
        lemma_carry_props(prev, max_cols, col + prev[col]->Some_0.colspan);
    }
}

pub proof fn lemma_skip_end_bounds(row: Seq<Option<CellModel>>, col: int)
    ensures
        skip_end(row, col) >= col,
        skip_end(row, col) <= max(col, row.len() as int),
    decreases clip(row.len() - col),
{
    if 0 <= col < row.len() && row[col] is Some {
        lemma_skip_end_bounds(row, col + 1);
    }
}

pub proof fn lemma_place_end_ge(row: Seq<Option<CellModel>>, col: int, cells: Seq<CellModel>)
    requires
        wf_cells(cells),
    ensures
        place_end(row, col, cells) >= col,
    decreases cells.len(),
{
    if cells.len() > 0 {
        assert(wf_cell(cells[0]));
        lemma_skip_end_bounds(row, col);
        assert(wf_cells(cells.drop_first()));
        lemma_place_end_ge(
            row + cell_block(cells[0]),
            skip_end(row, col) + cells[0].colspan,
            cells.drop_first(),
        );
    }
}

/// Placement only appends: the committed slots of a row are the carried
/// placeholders followed by each source cell's block, in order.
pub proof fn lemma_place_shape(row: Seq<Option<CellModel>>, col: int, cells: Seq<CellModel>)
    ensures
        place_slots(row, col, cells) =~= row + blocks(cells),
    decreases cells.len(),
{
    if cells.len() == 0 {
        assert(row + blocks(cells) =~= row);
    } else {
        lemma_place_shape(
            row + cell_block(cells[0]),
            skip_end(row, col) + cells[0].colspan,
            cells.drop_first(),
        );
        assert((row + cell_block(cells[0])) + blocks(cells.drop_first()) =~= row + (cell_block(
            cells[0],
        ) + blocks(cells.drop_first())));
    }
}

pub proof fn lemma_place_props(row: Seq<Option<CellModel>>, col: int, cells: Seq<CellModel>)
    requires
        wf_cells(cells),
        wf_slots(row),
        row.len() <= col,
    ensures
        place_slots(row, col, cells).len() <= place_end(row, col, cells),
        wf_slots(place_slots(row, col, cells)),
        place_slots(row, col, cells).len() >= row.len(),
    decreases cells.len(),
{
    if cells.len() > 0 {
        let c = cells[0];
        assert(wf_cell(c));
        // over-length column: the skip loop does not move
        assert(skip_end(row, col) == col);
        let row1 = row + cell_block(c);
        assert(row1.len() == row.len() + c.colspan);
        assert(wf_slots(row1)) by {
            assert(forall|i: int|
                0 <= i < cell_block(c).len() ==> wf_slot(#[trigger] cell_block(c)[i]));
        }
        assert(wf_cells(cells.drop_first()));
        lemma_place_props(row1, col + c.colspan, cells.drop_first());
    }
}

/// One normalization step: the grid after `i + 1` rows extends the grid after
/// `i` rows by the committed form of row `i`.
pub proof fn lemma_grid_step(rows: Seq<Seq<CellModel>>, i: int)
    requires
        0 <= i < rows.len(),
    ensures
        ({
            let gm = grid_state(rows.take(i));
            let prev = if gm.0.len() > 0 {
                gm.0.last()
            } else {
                Seq::empty()
            };
            &&& grid_state(rows.take(i + 1)).0 == gm.0.push(committed_row(prev, gm.1, rows[i]))
            &&& grid_state(rows.take(i + 1)).1 == max(gm.1, row_end(prev, gm.1, rows[i]))
        }),
{
    assert(rows.take(i + 1).drop_last() =~= rows.take(i));
    assert(rows.take(i + 1).last() == rows[i]);
}

pub proof fn lemma_width_monotone(rows: Seq<Seq<CellModel>>, i: int)
    requires
        0 <= i <= rows.len(),
    ensures
        grid_state(rows.take(i)).1 <= grid_state(rows).1,
    decreases rows.len() - i,
{
    if i == rows.len() {
        assert(rows.take(i) =~= rows);
    } else {
        lemma_grid_step(rows, i);
        lemma_width_monotone(rows, i + 1);
    }
}

/// Build one committed grid row from the previous committed row, the running
/// column count, and the row's source cells. Returns the new row and the new
/// column count, or `None` where a column index would not fit in `usize`.
#[verifier::loop_isolation(false)]
fn build_row(prev: &Vec<Option<Cell>>, max_cols: usize, cells: &Vec<Cell>) -> (r: Option<
    (Vec<Option<Cell>>, usize),
>)
    requires
        wf_slots(slots_view(prev@)),
        wf_cells(cells_view(cells@)),
        prev@.len() == max_cols as int,
    ensures
        match r {
            Option::Some(p) => {
                &&& slots_view(p.0@) == committed_row(
                    slots_view(prev@),
                    max_cols as int,
                    cells_view(cells@),
                )
                &&& p.1 as int == max(
                    max_cols as int,
                    row_end(slots_view(prev@), max_cols as int, cells_view(cells@)),
                )
                &&& wf_slots(slots_view(p.0@))
                &&& p.0@.len() == p.1 as int
            },
            Option::None => row_end(slots_view(prev@), max_cols as int, cells_view(cells@))
                > usize::MAX as int,
        },
{
    let ghost pv = slots_view(prev@);
    let ghost cv = cells_view(cells@);
    let ghost mc = max_cols as int;
    let ghost ce = carry_end(pv, mc, 0);
    let mut row: Vec<Option<Cell>> = Vec::new();
    let mut col: usize = 0;
    let mut stop: bool = false;
    // carry forward the active row spans of the previous committed row
    while !stop
        invariant
            slots_view(row@) + carry_slots(pv, mc, col as int) =~= carry_slots(pv, mc, 0),
            carry_end(pv, mc, col as int) == ce,
            row@.len() <= col as int,
            stop ==> !carry_cond(pv, mc, col as int),
        decreases clip(mc - col as int) + (if stop { 0int } else { 1int }),
    {
        if col >= max_cols {
            stop = true;
            continue;
        }
        let slot: &Option<Cell> = &prev[col];
        proof {
            assert(pv[col as int] == slot_view(prev@[col as int]));
        }
        if slot.is_none() {
            stop = true;
            continue;
        }
        let c: &Cell = slot.as_ref().unwrap();
        if c.rowspan <= 1 {
            stop = true;
            continue;
        }
        proof {
            assert(pv[col as int]->Some_0 == c@);
            assert(wf_slot(pv[col as int]));
            assert(carry_cond(pv, mc, col as int));
        }
        let placeholder = Cell {
            content: String::new(),
            colspan: c.colspan,
            rowspan: c.rowspan - 1,
        };
        let ghost row_before = slots_view(row@);
        row.push(Option::Some(placeholder));
        proof {
            assert(placeholder@ == carried_cell(pv[col as int]->Some_0));
            assert(slots_view(row@) =~= row_before + seq![
                Option::Some(carried_cell(pv[col as int]->Some_0)),
            ]);
            assert(row_before + (seq![
                Option::Some(carried_cell(pv[col as int]->Some_0)),
            ] + carry_slots(pv, mc, col as int + c.colspan as int)) =~= (row_before + seq![
                Option::Some(carried_cell(pv[col as int]->Some_0)),
            ]) + carry_slots(pv, mc, col as int + c.colspan as int));
        }
        let next = col.checked_add(c.colspan);
        if next.is_none() {
            proof {
                lemma_carry_end_ge(pv, mc, col as int + c.colspan as int);
                assert(ce > usize::MAX as int);
                lemma_place_end_ge(carry_slots(pv, mc, 0), ce, cv);
            }
            return Option::None;
        }
        col = next.unwrap();
    }
    proof {
        assert(carry_slots(pv, mc, col as int) =~= Seq::<Option<CellModel>>::empty());
        assert(slots_view(row@) =~= carry_slots(pv, mc, 0));
        assert(col as int == ce);
        lemma_carry_props(pv, mc, 0);
    }
    let ghost re = row_end(pv, mc, cv);
    let ghost carried = carry_slots(pv, mc, 0);
    proof {
        assert(cv.skip(0) =~= cv);
    }
    // place the row's source cells
    let mut k: usize = 0;
    while k < cells.len()
        invariant
            k as int <= cv.len(),
            wf_slots(slots_view(row@)),
            row@.len() <= col as int,
            place_slots(slots_view(row@), col as int, cv.skip(k as int)) == row_slots_unpadded(
                pv,
                mc,
                cv,
            ),
            place_end(slots_view(row@), col as int, cv.skip(k as int)) == re,
        decreases cv.len() - k as int,
    {
        let c: &Cell = &cells[k];
        proof {
            assert(cv[k as int] == c@);
            assert(wf_cell(c@));
            assert(skip_end(slots_view(row@), col as int) == col as int);
            assert(cv.skip(k as int)[0] == cv[k as int]);
            assert(cv.skip(k as int).drop_first() =~= cv.skip(k as int + 1));
        }
        let principal = Cell {
            content: c.content.clone(),
            colspan: c.colspan,
            rowspan: c.rowspan,
        };
        let ghost row_before = slots_view(row@);
        row.push(Option::Some(principal));
        let mut j: usize = 1;
        proof {
            assert(slots_view(row@) =~= row_before + seq![Option::Some(c@)] + Seq::new(
                (1 - 1) as nat,
                |i: int| Option::<CellModel>::None,
            ));
        }
        while j < c.colspan
            invariant
                1 <= j,
                j as int <= max(c.colspan as int, 1),
                slots_view(row@) =~= row_before + seq![Option::Some(c@)] + Seq::new(
                    (j - 1) as nat,
                    |i: int| Option::<CellModel>::None,
                ),
            decreases c.colspan - j,
        {
            let ghost rsnap = row@;
            row.push(Option::None);
            proof {
                lemma_slots_view_push(rsnap, Option::None);
                assert(slots_view(row@) =~= row_before + seq![Option::Some(c@)] + Seq::new(
                    j as nat,
                    |i: int| Option::<CellModel>::None,
                ));
            }
            j = j + 1;
        }
        proof {
            assert(slots_view(row@) =~= row_before + cell_block(c@));
        }
        let next = col.checked_add(c.colspan);
        if next.is_none() {
            proof {
                lemma_place_end_ge(
                    row_before + cell_block(c@),
                    col as int + c.colspan as int,
                    cv.skip(k as int + 1),
                );
            }
            return Option::None;
        }
        col = next.unwrap();
        k = k + 1;
    }
    proof {
        assert(cv.skip(cv.len() as int) =~= Seq::<CellModel>::empty());
        assert(slots_view(row@) == row_slots_unpadded(pv, mc, cv));
        assert(col as int == re);
        lemma_place_props(carried, ce, cv);
    }
    let new_max = if col > max_cols {
        col
    } else {
        max_cols
    };
    let ghost unp = slots_view(row@);
    // pad the row to the new running column count
    while row.len() < new_max
        invariant
            unp.len() <= row@.len(),
            slots_view(row@) =~= unp + Seq::new(
                (row@.len() - unp.len()) as nat,
                |i: int| Option::<CellModel>::None,
            ),
            row@.len() <= new_max as int,
        decreases new_max - row@.len(),
    {
        let ghost rsnap = row@;
        row.push(Option::None);
        proof {
            lemma_slots_view_push(rsnap, Option::None);
        }
    }
    proof {
        assert(row@.len() == new_max as int);
        assert(slots_view(row@) =~= pad_slots(unp, max(mc, re)));
        assert(wf_slots(slots_view(row@)));
    }
    Option::Some((row, new_max))
}

/// Where cell `k`'s block begins inside `blocks(cells)`: the sum of the
/// column spans of the cells before it.
pub open spec fn block_start(cells: Seq<CellModel>, k: int) -> int
    decreases k,
{
    if k <= 0 {
        0
    } else {
        block_start(cells, k - 1) + clip(cells[k - 1].colspan - 1) + 1
    }
}

pub proof fn lemma_blocks_len(cells: Seq<CellModel>)
    ensures
        blocks(cells).len() == block_start(cells, cells.len() as int),
    decreases cells.len(),
{
    if cells.len() > 0 {
        lemma_blocks_len(cells.drop_first());
        lemma_block_start_shift(cells, cells.len() as int);
    }
}

pub proof fn lemma_block_start_shift(cells: Seq<CellModel>, k: int)
    requires
        1 <= k <= cells.len(),
    ensures
        block_start(cells, k) == clip(cells[0].colspan - 1) + 1 + block_start(
            cells.drop_first(),
            k - 1,
        ),
    decreases k,
{
    if k == 1 {
        assert(block_start(cells, 0) == 0);
        assert(block_start(cells.drop_first(), 0) == 0);
    } else {
        lemma_block_start_shift(cells, k - 1);
        assert(cells.drop_first()[k - 2] == cells[k - 1]);
        assert(block_start(cells, k) == block_start(cells, k - 1) + clip(cells[k - 1].colspan - 1)
            + 1);
        assert(block_start(cells.drop_first(), k - 1) == block_start(cells.drop_first(), k - 2)
            + clip(cells.drop_first()[k - 2].colspan - 1) + 1);
    }
}

/// Column-span expansion: cell `k` of a row contributes exactly one occupied
/// slot, holding the cell itself, followed by `colspan - 1` empty slots,
/// consecutively.
pub proof fn lemma_blocks_structure(cells: Seq<CellModel>, k: int)
    requires
        wf_cells(cells),
        0 <= k < cells.len(),
    ensures
        0 <= block_start(cells, k),
        block_start(cells, k) + cells[k].colspan <= blocks(cells).len(),
        blocks(cells)[block_start(cells, k)] == Option::Some(cells[k]),
        forall|d: int|
            1 <= d < cells[k].colspan ==> (#[trigger] blocks(cells)[block_start(cells, k) + d])
                is None,
    decreases k,
{
    lemma_blocks_len(cells);
    lemma_block_start_nonneg(cells, k);
    lemma_block_start_mono(cells, k);
    if k == 0 {
        assert(blocks(cells) == cell_block(cells[0]) + blocks(cells.drop_first()));
        assert(cell_block(cells[0])[0] == Option::Some(cells[0]));
        assert(wf_cell(cells[0]));
        assert(cell_block(cells[0]).len() == cells[0].colspan);
        assert(block_start(cells, 0) == 0);
        assert forall|d: int|
            1 <= d < cells[0].colspan implies (#[trigger] blocks(cells)[block_start(cells, 0)
            + d]) is None by {
            assert(blocks(cells)[d] == cell_block(cells[0])[d]);
            assert(cell_block(cells[0])[d] == Seq::new(
                clip(cells[0].colspan - 1),
                |i: int| Option::<CellModel>::None,
            )[d - 1]);
        }
    } else {
        let rest = cells.drop_first();
        assert(wf_cells(rest));
        lemma_blocks_structure(rest, k - 1);
        lemma_block_start_shift(cells, k);
        assert(rest[k - 1] == cells[k]);
        assert(blocks(cells) == cell_block(cells[0]) + blocks(rest));
        assert(wf_cell(cells[0]));
        assert(cell_block(cells[0]).len() == cells[0].colspan);
        assert(block_start(cells, k) == cell_block(cells[0]).len() + block_start(rest, k - 1));
        lemma_block_start_nonneg(rest, k - 1);
        assert(blocks(cells)[block_start(cells, k)] == blocks(rest)[block_start(rest, k - 1)]);
        assert forall|d: int|
            1 <= d < cells[k].colspan implies (#[trigger] blocks(cells)[block_start(cells, k)
            + d]) is None by {
            assert(blocks(cells)[block_start(cells, k) + d] == blocks(rest)[block_start(
                rest,
                k - 1,
            ) + d]);
        }
    }
}

pub proof fn lemma_block_start_nonneg(cells: Seq<CellModel>, k: int)
    ensures
        block_start(cells, k) >= 0,
    decreases k,
{
    if k > 0 {
        lemma_block_start_nonneg(cells, k - 1);
    }
}

pub proof fn lemma_block_start_mono(cells: Seq<CellModel>, k: int)
    requires
        wf_cells(cells),
        0 <= k < cells.len(),
    ensures
        block_start(cells, k) + cells[k].colspan <= block_start(cells, cells.len() as int),
    decreases cells.len() - k,
{
    assert(wf_cell(cells[k]));
    if k + 1 == cells.len() {
        assert(block_start(cells, k + 1) == block_start(cells, k) + clip(cells[k].colspan - 1)
            + 1);
    } else {
        lemma_block_start_mono(cells, k + 1);
        assert(wf_cell(cells[k + 1]));
        assert(block_start(cells, k + 1) == block_start(cells, k) + clip(cells[k].colspan - 1)
            + 1);
    }
}

/// The carried placeholders of a row all have empty content.
pub proof fn lemma_carry_contents(prev: Seq<Option<CellModel>>, max_cols: int, col: int)
    ensures
        forall|j: int|
            0 <= j < carry_slots(prev, max_cols, col).len() ==> slot_text(
                #[trigger] carry_slots(prev, max_cols, col)[j],
            ) == Seq::<char>::empty(),
    decreases clip(max_cols - col),
{
    if carry_cond(prev, max_cols, col) {
        let cs = prev[col]->Some_0.colspan;
        lemma_carry_contents(prev, max_cols, col + cs);
        assert forall|j: int|
            0 <= j < carry_slots(prev, max_cols, col).len() implies slot_text(
            #[trigger] carry_slots(prev, max_cols, col)[j],
        ) == Seq::<char>::empty() by {
            if j == 0 {
                assert(carry_slots(prev, max_cols, col)[0] == Option::Some(
                    carried_cell(prev[col]->Some_0),
                ));
            } else {
                assert(carry_slots(prev, max_cols, col)[j] == carry_slots(
                    prev,
                    max_cols,
                    col + cs,
                )[j - 1]);
            }
        }
    }
}

/// Every slot a row's cells contribute is empty or holds one of those cells.
pub proof fn lemma_blocks_provenance(cells: Seq<CellModel>, j: int)
    requires
        0 <= j < blocks(cells).len(),
    ensures
        blocks(cells)[j] is None || exists|b: int|
            0 <= b < cells.len() && blocks(cells)[j] == Option::Some(cells[b]),
    decreases cells.len(),
{
    if cells.len() > 0 {
        let head = cell_block(cells[0]);
        assert(blocks(cells) == head + blocks(cells.drop_first()));
        if j < head.len() {
            if j == 0 {
                assert(blocks(cells)[0] == Option::Some(cells[0]));
            } else {
                assert(head[j] == Option::<CellModel>::None);
            }
        } else {
            lemma_blocks_provenance(cells.drop_first(), j - head.len());
            if blocks(cells.drop_first())[j - head.len()] is Some {
                let b = choose|b: int|
                    0 <= b < cells.drop_first().len() && blocks(cells.drop_first())[j - head.len()]
                        == Option::Some(cells.drop_first()[b]);
                assert(cells.drop_first()[b] == cells[b + 1]);
                assert(blocks(cells)[j] == Option::Some(cells[b + 1]));
            }
        }
    }
}

/// The shape of a committed row: the carried placeholders, then each source
/// cell's block, then padding.
pub proof fn lemma_committed_shape(
    prev: Seq<Option<CellModel>>,
    max_cols: int,
    cells: Seq<CellModel>,
)
    ensures
        ({
            let carried = carry_slots(prev, max_cols, 0);
            let unpadded = row_slots_unpadded(prev, max_cols, cells);
            &&& unpadded =~= carried + blocks(cells)
            &&& committed_row(prev, max_cols, cells) =~= pad_slots(
                carried + blocks(cells),
                max(max_cols, row_end(prev, max_cols, cells)),
            )
        }),
{
    lemma_place_shape(carry_slots(prev, max_cols, 0), carry_end(prev, max_cols, 0), cells);
}

/// The committed grid has one row per source row.
pub proof fn lemma_grid_len(rows: Seq<Seq<CellModel>>)
    ensures
        grid_state(rows).0.len() == rows.len(),
    decreases rows.len(),
{
    if rows.len() > 0 {
        lemma_grid_len(rows.drop_last());
    }
}

/// Rows already committed do not change as later rows are processed.
pub proof fn lemma_grid_prefix(rows: Seq<Seq<CellModel>>, i: int)
    requires
        0 <= i <= rows.len(),
    ensures
        grid_state(rows.take(i)).0 =~= grid_state(rows).0.take(i),
    decreases rows.len() - i,
{
    lemma_grid_len(rows);
    if i == rows.len() {
        assert(rows.take(i) =~= rows);
        assert(grid_state(rows).0.take(i) =~= grid_state(rows).0);
    } else {
        lemma_grid_step(rows, i);
        lemma_grid_prefix(rows, i + 1);
        lemma_grid_len(rows.take(i));
        lemma_grid_len(rows.take(i + 1));
        assert(grid_state(rows.take(i)).0 =~= grid_state(rows.take(i + 1)).0.take(i));
        assert(grid_state(rows).0.take(i + 1).take(i) =~= grid_state(rows).0.take(i));
    }
}

/// Committed row `i` of the full grid is the committed form of source row
/// `i` against the grid state after the first `i` rows.
pub proof fn lemma_grid_row_is_committed(rows: Seq<Seq<CellModel>>, i: int)
    requires
        0 <= i < rows.len(),
    ensures
        ({
            let gm = grid_state(rows.take(i));
            let prev = if gm.0.len() > 0 {
                gm.0.last()
            } else {
                Seq::<Option<CellModel>>::empty()
            };
            grid_state(rows).0[i] == committed_row(prev, gm.1, rows[i])
        }),
{
    lemma_grid_len(rows);
    lemma_grid_len(rows.take(i));
    lemma_grid_step(rows, i);
    lemma_grid_prefix(rows, i + 1);
    let gm = grid_state(rows.take(i));
    let prev = if gm.0.len() > 0 {
        gm.0.last()
    } else {
        Seq::<Option<CellModel>>::empty()
    };
    let x = committed_row(prev, gm.1, rows[i]);
    assert(grid_state(rows.take(i + 1)).0 == gm.0.push(x));
    assert(gm.0.len() == i);
    assert(gm.0.push(x)[i] == x);
    assert(grid_state(rows).0.take(i + 1)[i] == grid_state(rows).0[i]);
}

/// The committed form of one row: its length is the new running column count,
/// its slots are well formed, and the row-end column is nonnegative.
pub proof fn lemma_committed_props(
    prev: Seq<Option<CellModel>>,
    mc: int,
    cells: Seq<CellModel>,
)
    requires
        wf_slots(prev),
        wf_cells(cells),
        mc >= 0,
    ensures
        row_end(prev, mc, cells) >= 0,
        committed_row(prev, mc, cells).len() == max(mc, row_end(prev, mc, cells)),
        wf_slots(committed_row(prev, mc, cells)),
{
    let carried = carry_slots(prev, mc, 0);
    let ce = carry_end(prev, mc, 0);
    lemma_carry_props(prev, mc, 0);
    lemma_carry_end_ge(prev, mc, 0);
    lemma_place_props(carried, ce, cells);
    lemma_place_end_ge(carried, ce, cells);
    let unp = row_slots_unpadded(prev, mc, cells);
    let w = max(mc, row_end(prev, mc, cells));
    assert(unp.len() <= w);
    assert(committed_row(prev, mc, cells).len() == w);
    assert forall|q: int| 0 <= q < committed_row(prev, mc, cells).len() implies wf_slot(
        #[trigger] committed_row(prev, mc, cells)[q],
    ) by {
        if q < unp.len() {
            assert(committed_row(prev, mc, cells)[q] == unp[q]);
        } else {
            assert(committed_row(prev, mc, cells)[q] == Option::<CellModel>::None);
        }
    }
}

/// Every committed row is well formed and as long as the running column
/// count at its commit time.
pub proof fn lemma_grid_rows_wf(rows: Seq<Seq<CellModel>>, i: int)
    requires
        rows_wf(rows),
        0 <= i < rows.len(),
    ensures
        wf_slots(grid_state(rows).0[i]),
        grid_state(rows).0[i].len() == grid_state(rows.take(i + 1)).1,
        grid_state(rows.take(i + 1)).1 >= 0,
        grid_state(rows.take(i)).1 >= 0,
    decreases i,
{
    lemma_grid_len(rows);
    lemma_grid_len(rows.take(i));
    lemma_grid_step(rows, i);
    lemma_grid_prefix(rows, i);
    lemma_grid_prefix(rows, i + 1);
    lemma_grid_len(rows.take(i + 1));
    let gm = grid_state(rows.take(i));
    let prev = if gm.0.len() > 0 {
        gm.0.last()
    } else {
        Seq::<Option<CellModel>>::empty()
    };
    if i > 0 {
        lemma_grid_rows_wf(rows, i - 1);
        assert(prev == grid_state(rows).0[i - 1]);
    } else {
        assert(gm.0.len() == 0);
    }
    assert(wf_slots(prev));
    assert(wf_cells(rows[i]));
    lemma_committed_props(prev, gm.1, rows[i]);
    lemma_grid_row_is_committed(rows, i);
}

/// Row-span carry: a cell committed at column zero with row span `r` leaves,
/// in each of the following `r - 1` committed rows that exist (an overlong
/// row span is bounded by the table's height), an empty-content placeholder
/// at column zero with the span counted down — an empty string in the
/// normalized output.
pub proof fn lemma_rowspan_carry(rows: Seq<Seq<CellModel>>, i: int, d: int)
    requires
        rows_wf(rows),
        0 <= i,
        i + d < rows.len(),
        grid_state(rows).0[i].len() > 0,
        grid_state(rows).0[i][0] is Some,
        1 <= d < grid_state(rows).0[i][0]->Some_0.rowspan,
    ensures
        grid_state(rows).0[i + d].len() > 0,
        grid_state(rows).0[i + d][0] is Some,
        grid_state(rows).0[i + d][0]->Some_0.content =~= Seq::<char>::empty(),
        grid_state(rows).0[i + d][0]->Some_0.rowspan == grid_state(rows).0[i][0]->Some_0.rowspan
            - d,
        table_text(rows)[i + d][0] =~= Seq::<char>::empty(),
    decreases d,
{
    lemma_grid_len(rows);
    lemma_grid_rows_wf(rows, i);
    lemma_grid_step(rows, i + 1);
    lemma_grid_prefix(rows, i + 1);
    lemma_grid_prefix(rows, i + 2);
    lemma_grid_len(rows.take(i + 1));
    let c = grid_state(rows).0[i][0]->Some_0;
    let gm = grid_state(rows.take(i + 1));
    let prev = gm.0.last();
    assert(prev == grid_state(rows).0[i]);
    let m1 = gm.1;
    assert(m1 == prev.len());
    assert(carry_cond(prev, m1, 0)) by {
        assert(wf_slot(prev[0]));
    }
    let carried = carry_slots(prev, m1, 0);
    assert(carried[0] == Option::Some(carried_cell(c)));
    assert(carried.len() >= 1);
    lemma_committed_shape(prev, m1, rows[i + 1]);
    let next = grid_state(rows).0[i + 1];
    lemma_grid_row_is_committed(rows, i + 1);
    assert(next == committed_row(prev, m1, rows[i + 1]));
    assert(next[0] == carried[0]) by {
        assert((carried + blocks(rows[i + 1]))[0] == carried[0]);
        assert(row_slots_unpadded(prev, m1, rows[i + 1]).len() >= 1);
    }
    assert(next.len() > 0);
    if d > 1 {
        lemma_rowspan_carry(rows, i + 1, d - 1);
    }
    // the normalized output shows the placeholder as an empty string
    lemma_grid_rows_wf(rows, i + d);
    lemma_width_monotone(rows, i + 1);
    assert(grid_state(rows).1 >= m1);
    assert(table_text(rows)[i + d] == Seq::new(
        clip(grid_state(rows).1),
        |j: int|
            if 0 <= j < grid_state(rows).0[i + d].len() {
                slot_text(grid_state(rows).0[i + d][j])
            } else {
                Seq::<char>::empty()
            },
    ));
    assert(table_text(rows)[i + d][0] == slot_text(grid_state(rows).0[i + d][0]));
}

/// The carry reaches position `p` when every slot before it carries too: if
/// the slots of `prev` from `c` up to `p` are all occupied with row span
/// above one and the ones before `p` have column span one, the carried
/// prefix holds, at offset `p - c`, the placeholder for `prev[p]`.
pub proof fn lemma_carry_prefix_from(prev: Seq<Option<CellModel>>, m: int, c: int, p: int)
    requires
        0 <= c <= p < m,
        p < prev.len(),
        forall|q: int|
            c <= q < p ==> (#[trigger] prev[q]) is Some && prev[q]->Some_0.colspan == 1
                && prev[q]->Some_0.rowspan > 1,
        prev[p] is Some,
        prev[p]->Some_0.rowspan > 1,
        prev[p]->Some_0.colspan >= 1,
    ensures
        carry_slots(prev, m, c).len() > p - c,
        carry_slots(prev, m, c)[p - c] == Option::Some(carried_cell(prev[p]->Some_0)),
    decreases p - c,
{
    if c == p {
        assert(carry_cond(prev, m, c));
        assert(carry_slots(prev, m, c)[0] == Option::Some(carried_cell(prev[c]->Some_0)));
    } else {
        assert(prev[c] is Some && prev[c]->Some_0.colspan == 1);
        assert(carry_cond(prev, m, c));
        lemma_carry_prefix_from(prev, m, c + 1, p);
        assert(carry_slots(prev, m, c) == seq![
            Option::Some(carried_cell(prev[c]->Some_0)),
        ] + carry_slots(prev, m, c + 1));
        assert(carry_slots(prev, m, c)[p - c] == carry_slots(prev, m, c + 1)[p - c - 1]);
    }
}

/// Row-span carry at any column the carry reaches: where committed row `i`
/// holds, up to column `j`, only occupied slots with row span above one (the
/// ones before `j` of column span one), the next committed row holds at
/// column `j` an empty-content placeholder with `j`'s row span counted down,
/// and the normalized output there is the empty string.
pub proof fn lemma_rowspan_carry_at(rows: Seq<Seq<CellModel>>, i: int, j: int)
    requires
        rows_wf(rows),
        0 <= i,
        i + 1 < rows.len(),
        0 <= j < grid_state(rows).0[i].len(),
        forall|q: int|
            0 <= q < j ==> (#[trigger] grid_state(rows).0[i][q]) is Some && grid_state(
                rows,
            ).0[i][q]->Some_0.colspan == 1 && grid_state(rows).0[i][q]->Some_0.rowspan > 1,
        grid_state(rows).0[i][j] is Some,
        grid_state(rows).0[i][j]->Some_0.rowspan > 1,
    ensures
        grid_state(rows).0[i + 1].len() > j,
        grid_state(rows).0[i + 1][j] == Option::Some(
            carried_cell(grid_state(rows).0[i][j]->Some_0),
        ),
        table_text(rows)[i + 1][j] =~= Seq::<char>::empty(),
{
    lemma_grid_len(rows);
    lemma_grid_rows_wf(rows, i);
    lemma_grid_prefix(rows, i + 1);
    lemma_grid_len(rows.take(i + 1));
    let gm = grid_state(rows.take(i + 1));
    let prev = gm.0.last();
    assert(prev == grid_state(rows).0[i]);
    let m1 = gm.1;
    assert(m1 == prev.len());
    assert(wf_slot(prev[j]));
    lemma_carry_prefix_from(prev, m1, 0, j);
    let carried = carry_slots(prev, m1, 0);
    lemma_committed_shape(prev, m1, rows[i + 1]);
    let next = grid_state(rows).0[i + 1];
    lemma_grid_row_is_committed(rows, i + 1);
    assert(next == committed_row(prev, m1, rows[i + 1]));
    assert(next[j] == carried[j]) by {
        assert((carried + blocks(rows[i + 1]))[j] == carried[j]);
        assert(row_slots_unpadded(prev, m1, rows[i + 1]).len() >= carried.len());
    }
    assert(next.len() >= carried.len());
    // the normalized output shows the placeholder as an empty string
    lemma_grid_rows_wf(rows, i + 1);
    lemma_width_monotone(rows, i + 2);
    lemma_grid_step(rows, i + 1);
    assert(grid_state(rows.take(i + 2)).1 >= m1);
    assert(table_text(rows)[i + 1] == Seq::new(
        clip(grid_state(rows).1),
        |q: int|
            if 0 <= q < next.len() {
                slot_text(next[q])
            } else {
                Seq::<char>::empty()
            },
    ));
    assert(table_text(rows)[i + 1][j] == slot_text(next[j]));
}

/// Every cell of the normalized output is either the empty string or the
/// text of one of the source cells of its own row.
pub proof fn lemma_output_cells_from_input(rows: Seq<Seq<CellModel>>, i: int, j: int)
    requires
        rows_wf(rows),
        0 <= i < table_text(rows).len(),
        0 <= j < table_text(rows)[i].len(),
    ensures
        table_text(rows)[i][j] =~= Seq::<char>::empty() || exists|b: int|
            0 <= b < rows[i].len() && rows[i][b].content == table_text(rows)[i][j],
{
    lemma_grid_len(rows);
    lemma_grid_step(rows, i);
    lemma_grid_prefix(rows, i);
    lemma_grid_prefix(rows, i + 1);
    lemma_grid_len(rows.take(i));
    lemma_grid_len(rows.take(i + 1));
    let gm = grid_state(rows.take(i));
    let prev = if gm.0.len() > 0 {
        gm.0.last()
    } else {
        Seq::<Option<CellModel>>::empty()
    };
    let mc = gm.1;
    let g = grid_state(rows).0;
    lemma_grid_row_is_committed(rows, i);
    assert(g[i] == committed_row(prev, mc, rows[i]));
    lemma_committed_shape(prev, mc, rows[i]);
    let carried = carry_slots(prev, mc, 0);
    let bl = blocks(rows[i]);
    let unp = row_slots_unpadded(prev, mc, rows[i]);
    assert(table_text(rows)[i] == Seq::new(
        clip(grid_state(rows).1),
        |q: int|
            if 0 <= q < g[i].len() {
                slot_text(g[i][q])
            } else {
                Seq::<char>::empty()
            },
    ));
    if j < g[i].len() {
        assert(table_text(rows)[i][j] == slot_text(g[i][j]));
        if j < unp.len() {
            assert(g[i][j] == unp[j]);
            if j < carried.len() {
                lemma_carry_contents(prev, mc, 0);
                assert(slot_text(unp[j]) == Seq::<char>::empty());
            } else {
                assert(unp[j] == bl[j - carried.len()]);
                lemma_blocks_provenance(rows[i], j - carried.len());
                if bl[j - carried.len()] is Some {
                    let b = choose|b: int|
                        0 <= b < rows[i].len() && bl[j - carried.len()] == Option::Some(
                            rows[i][b],
                        );
                    assert(rows[i][b].content == table_text(rows)[i][j]);
                } else {
                    assert(slot_text(bl[j - carried.len()]) == Seq::<char>::empty());
                }
            }
        } else {
            assert(g[i][j] == Option::<CellModel>::None);
        }
    }
}

/// Rectangularity: any two rows of a normalized table have the same length,
/// the table's full width.
pub proof fn lemma_table_rectangular(rows: Seq<Seq<CellModel>>, i: int, j: int)
    requires
        0 <= i < table_text(rows).len(),
        0 <= j < table_text(rows).len(),
    ensures
        table_text(rows)[i].len() == table_text(rows)[j].len(),
        table_text(rows)[i].len() == clip(grid_width(rows)),
{
}

pub proof fn lemma_cells_view_push(r: Seq<Cell>, c: Cell)
    ensures
        cells_view(r.push(c)) =~= cells_view(r).push(c@),
{
    assert forall|i: int| 0 <= i < r.len() + 1 implies cells_view(r.push(c))[i] == cells_view(
        r,
    ).push(c@)[i] by {
        if i < r.len() {
            assert(r.push(c)[i] == r[i]);
        } else {
            assert(r.push(c)[i] == c);
        }
    }
}

pub proof fn lemma_rows_view_push(rows: Seq<Vec<Cell>>, r: Vec<Cell>)
    ensures
        rows_view(rows.push(r)) =~= rows_view(rows).push(cells_view(r@)),
{
    assert forall|i: int| 0 <= i < rows.len() + 1 implies rows_view(rows.push(r))[i] == rows_view(
        rows,
    ).push(cells_view(r@))[i] by {
        if i < rows.len() {
            assert(rows.push(r)[i] == rows[i]);
        } else {
            assert(rows.push(r)[i] == r);
        }
    }
}

pub proof fn lemma_grid_view_push(g: Seq<Vec<Option<Cell>>>, r: Vec<Option<Cell>>)
    ensures
        grid_view(g.push(r)) =~= grid_view(g).push(slots_view(r@)),
{
    assert forall|i: int| 0 <= i < g.len() + 1 implies grid_view(g.push(r))[i] == grid_view(
        g,
    ).push(slots_view(r@))[i] by {
        if i < g.len() {
            assert(g.push(r)[i] == g[i]);
        } else {
            assert(g.push(r)[i] == r);
        }
    }
}

pub proof fn lemma_tables_view_push(ts: Seq<Vec<Vec<String>>>, t: Vec<Vec<String>>)
    ensures
        tables_view(ts.push(t)) =~= tables_view(ts).push(strings_view(t@)),
{
    assert forall|i: int| 0 <= i < ts.len() + 1 implies tables_view(ts.push(t))[i] == tables_view(
        ts,
    ).push(strings_view(t@))[i] by {
        if i < ts.len() {
            assert(ts.push(t)[i] == ts[i]);
        } else {
            assert(ts.push(t)[i] == t);
        }
    }
}

pub proof fn lemma_strings_view_push(t: Seq<Vec<String>>, r: Vec<String>)
    ensures
        strings_view(t.push(r)) =~= strings_view(t).push(r@.map_values(|s: String| s@)),
{
    assert forall|i: int| 0 <= i < t.len() + 1 implies strings_view(t.push(r))[i] == strings_view(
        t,
    ).push(r@.map_values(|s: String| s@))[i] by {
        if i < t.len() {
            assert(t.push(r)[i] == t[i]);
        } else {
            assert(t.push(r)[i] == r);
        }
    }
}

/// Normalize one source table: expand its merges into a rectangular grid of
/// strings. Returns `None` exactly where some cell carries a zero span or a
/// column index of the grid would not fit in `usize`.
#[verifier::loop_isolation(false)]
pub fn normalize_table(rows: &Vec<Vec<Cell>>) -> (out: Option<Vec<Vec<String>>>)
    ensures
        ({
            let rs = rows_view(rows@);
            &&& (out is Some <==> rows_wf(rs) && grid_width(rs) <= usize::MAX as int)
            &&& (out matches Option::Some(t) ==> {
                &&& strings_view(t@) == table_text(rs)
                &&& t@.len() == rows@.len()
                &&& forall|i: int|
                    0 <= i < t@.len() ==> (#[trigger] t@[i]@.len()) as int == grid_width(rs)
            })
        }),
{
    let ghost rs = rows_view(rows@);
    // reject cells with a zero span: every well-formed cell has spans >= 1
    let mut i: usize = 0;
    while i < rows.len()
        invariant
            i as int <= rs.len(),
            forall|a: int| 0 <= a < i as int ==> wf_cells(#[trigger] rs[a]),
        decreases rows@.len() - i,
    {
        let r: &Vec<Cell> = &rows[i];
        proof {
            assert(rs[i as int] == cells_view(r@));
        }
        let mut j: usize = 0;
        while j < r.len()
            invariant
                j as int <= r@.len(),
                forall|b: int| 0 <= b < j as int ==> wf_cell(#[trigger] cells_view(r@)[b]),
            decreases r@.len() - j,
        {
            proof {
                assert(cells_view(r@)[j as int] == r@[j as int]@);
            }
            if r[j].colspan == 0 || r[j].rowspan == 0 {
                proof {
                    assert(!wf_cell(cells_view(r@)[j as int]));
                    assert(!wf_cells(rs[i as int]));
                    assert(!rows_wf(rs));
                }
                return Option::None;
            }
            j = j + 1;
        }
        proof {
            assert(wf_cells(rs[i as int]));
        }
        i = i + 1;
    }
    proof {
        assert(rows_wf(rs));
    }
    // build the working grid row by row
    let empty_prev: Vec<Option<Cell>> = Vec::new();
    let mut grid: Vec<Vec<Option<Cell>>> = Vec::new();
    let mut max_cols: usize = 0;
    let mut i: usize = 0;
    proof {
        assert(rs.take(0) =~= Seq::<Seq<CellModel>>::empty());
        assert(grid_view(grid@) =~= Seq::<Seq<Option<CellModel>>>::empty());
    }
    while i < rows.len()
        invariant
            i as int <= rs.len(),
            grid@.len() == i as int,
            grid_view(grid@) == grid_state(rs.take(i as int)).0,
            max_cols as int == grid_state(rs.take(i as int)).1,
            forall|a: int| 0 <= a < grid@.len() ==> wf_slots(#[trigger] grid_view(grid@)[a]),
            i as int > 0 ==> grid@[i as int - 1]@.len() == max_cols as int,
            i as int == 0 ==> max_cols == 0,
        decreases rows@.len() - i,
    {
        let ghost prev_model = if grid_view(grid@).len() > 0 {
            grid_view(grid@).last()
        } else {
            Seq::<Option<CellModel>>::empty()
        };
        let prev_ref: &Vec<Option<Cell>> = if grid.len() > 0 {
            &grid[grid.len() - 1]
        } else {
            &empty_prev
        };
        proof {
            assert(slots_view(prev_ref@) =~= prev_model);
            assert(wf_slots(prev_model));
            assert(prev_ref@.len() == max_cols as int);
            assert(rs[i as int] == cells_view(rows@[i as int]@));
        }
        let res = build_row(prev_ref, max_cols, &rows[i]);
        if res.is_none() {
            proof {
                lemma_grid_step(rs, i as int);
                assert(grid_state(rs.take(i as int + 1)).1 > usize::MAX as int);
                lemma_width_monotone(rs, i as int + 1);
                assert(grid_width(rs) > usize::MAX as int);
            }
            return Option::None;
        }
        let (new_row, new_max) = res.unwrap();
        proof {
            lemma_grid_step(rs, i as int);
            lemma_grid_view_push(grid@, new_row);
        }
        grid.push(new_row);
        max_cols = new_max;
        i = i + 1;
    }
    proof {
        assert(rs.take(rs.len() as int) =~= rs);
        assert(grid_view(grid@) == grid_state(rs).0);
        assert(max_cols as int == grid_width(rs));
    }
    let ghost w = grid_width(rs);
    // emit the normalized table: every slot's text, padded to the full width
    let mut out: Vec<Vec<String>> = Vec::new();
    let mut a: usize = 0;
    proof {
        assert(table_text(rs).take(0) =~= Seq::<Seq<Seq<char>>>::empty());
        assert(strings_view(out@) =~= Seq::<Seq<Seq<char>>>::empty());
    }
    while a < grid.len()
        invariant
            a as int <= grid@.len(),
            out@.len() == a as int,
            strings_view(out@) == table_text(rs).take(a as int),
            forall|b: int| 0 <= b < a as int ==> (#[trigger] out@[b]@.len()) == max_cols as int,
        decreases grid@.len() - a,
    {
        let grow: &Vec<Option<Cell>> = &grid[a];
        let ghost rmodel = grid_state(rs).0[a as int];
        proof {
            assert(slots_view(grow@) == rmodel);
            assert(table_text(rs)[a as int] == Seq::new(
                clip(w),
                |j: int|
                    if 0 <= j < rmodel.len() {
                        slot_text(rmodel[j])
                    } else {
                        Seq::<char>::empty()
                    },
            ));
        }
        let mut srow: Vec<String> = Vec::new();
        let mut j: usize = 0;
        while j < max_cols
            invariant
                j as int <= max_cols as int,
                srow@.len() == j as int,
                forall|b: int|
                    0 <= b < j as int ==> (#[trigger] srow@[b]@) == table_text(rs)[a as int][b],
            decreases max_cols - j,
        {
            let mut s: String = String::new();
            if j < grow.len() {
                proof {
                    assert(slots_view(grow@)[j as int] == slot_view(grow@[j as int]));
                }
                let slot: &Option<Cell> = &grow[j];
                if slot.is_some() {
                    s = slot.as_ref().unwrap().content.clone();
                }
            }
            proof {
                assert(s@ == table_text(rs)[a as int][j as int]);
            }
            srow.push(s);
            j = j + 1;
        }
        proof {
            assert(srow@.map_values(|s: String| s@) =~= table_text(rs)[a as int]);
            lemma_strings_view_push(out@, srow);
            assert(table_text(rs).take(a as int + 1) =~= table_text(rs).take(a as int).push(
                table_text(rs)[a as int],
            ));
        }
        out.push(srow);
        a = a + 1;
    }
    proof {
        assert(table_text(rs).take(grid@.len() as int) =~= table_text(rs));
    }
    Option::Some(out)
}

/// One decimal digit as a character.
pub open spec fn digit_char(d: int) -> char {
    ((48 + d) as u8) as char
}

/// The decimal rendering of `n`, most significant digit first.
pub open spec fn dec_digits(n: int) -> Seq<char>
    decreases n,
{
    if n < 10 {
        seq![digit_char(n)]
    } else {
        dec_digits(n / 10) + seq![digit_char(n % 10)]
    }
}

fn digit_str(d: usize) -> (r: String)
    requires
        d < 10,
    ensures
        r@ == seq![digit_char(d as int)],
{
    proof {
        reveal_strlit("0");
        reveal_strlit("1");
        reveal_strlit("2");
        reveal_strlit("3");
        reveal_strlit("4");
        reveal_strlit("5");
        reveal_strlit("6");
        reveal_strlit("7");
        reveal_strlit("8");
        reveal_strlit("9");
    }
    let lit: &str = if d == 0 {
        "0"
    } else if d == 1 {
        "1"
    } else if d == 2 {
        "2"
    } else if d == 3 {
        "3"
    } else if d == 4 {
        "4"
    } else if d == 5 {
        "5"
    } else if d == 6 {
        "6"
    } else if d == 7 {
        "7"
    } else if d == 8 {
        "8"
    } else {
        "9"
    };
    proof {
        assert(lit@ =~= seq![digit_char(d as int)]);
    }
    String::from_str(lit)
}

/// Render a number in decimal.
pub fn usize_string(x: usize) -> (r: String)
    ensures
        r@ == dec_digits(x as int),
    decreases x,
{
    if x < 10 {
        digit_str(x)
    } else {
        let hi = usize_string(x / 10);
        let lo = digit_str(x % 10);
        let r = hi.concat(lo.as_str());
        proof {
            assert(r@ =~= dec_digits(x as int));
        }
        r
    }
}

/// The trace form of one slot: the cell's text and spans, or nothing for an
/// empty slot.
pub open spec fn slot_trace(s: Option<CellModel>) -> Seq<char> {
    match s {
        Option::Some(c) => "['"@ + c.content + "', "@ + dec_digits(c.colspan) + ", "@ + dec_digits(
            c.rowspan,
        ) + "]"@,
        Option::None => Seq::empty(),
    }
}

/// The trace forms of the slots after the first, each behind a separator.
pub open spec fn slots_trace_rest(row: Seq<Option<CellModel>>) -> Seq<char>
    decreases row.len(),
{
    if row.len() == 0 {
        Seq::empty()
    } else {
        ", "@ + slot_trace(row[0]) + slots_trace_rest(row.drop_first())
    }
}

/// The trace forms of a row's slots, joined by a separator.
pub open spec fn slots_trace(row: Seq<Option<CellModel>>) -> Seq<char> {
    if row.len() == 0 {
        Seq::empty()
    } else {
        slot_trace(row[0]) + slots_trace_rest(row.drop_first())
    }
}

/// One line of the grid-construction trace: the running column count, then
/// every slot of the committed row.
pub open spec fn row_trace(width: int, row: Seq<Option<CellModel>>) -> Seq<char> {
    "Columns: "@ + dec_digits(width) + ", Cells: "@ + slots_trace(row)
}

fn render_slot(s: &Option<Cell>) -> (r: String)
    ensures
        r@ == slot_trace(slot_view(*s)),
{
    if s.is_none() {
        return String::new();
    }
    let c: &Cell = s.as_ref().unwrap();
    let mut out = String::from_str("['");
    out.append(c.content.as_str());
    out.append("', ");
    let cs = usize_string(c.colspan);
    out.append(cs.as_str());
    out.append(", ");
    let rs = usize_string(c.rowspan);
    out.append(rs.as_str());
    out.append("]");
    proof {
        assert(out@ =~= slot_trace(slot_view(*s)));
    }
    out
}

#[verifier::loop_isolation(false)]
fn render_row(width: usize, row: &Vec<Option<Cell>>) -> (r: String)
    ensures
        r@ == row_trace(width as int, slots_view(row@)),
{
    let ghost sv = slots_view(row@);
    let mut out = String::from_str("Columns: ");
    let w = usize_string(width);
    out.append(w.as_str());
    out.append(", Cells: ");
    if row.len() == 0 {
        proof {
            assert(out@ =~= row_trace(width as int, sv));
        }
        return out;
    }
    let s0 = render_slot(&row[0]);
    out.append(s0.as_str());
    proof {
        assert(sv[0] == slot_view(row@[0]));
        assert(sv.skip(1) =~= sv.drop_first());
        assert(out@ + slots_trace_rest(sv.skip(1)) =~= row_trace(width as int, sv));
    }
    let mut i: usize = 1;
    while i < row.len()
        invariant
            1 <= i <= row@.len(),
            out@ + slots_trace_rest(sv.skip(i as int)) =~= row_trace(width as int, sv),
        decreases row@.len() - i,
    {
        proof {
            assert(sv.skip(i as int)[0] == sv[i as int]);
            assert(sv.skip(i as int).drop_first() =~= sv.skip(i as int + 1));
            assert(sv[i as int] == slot_view(row@[i as int]));
        }
        let ghost snap = out@;
        out.append(", ");
        let si = render_slot(&row[i]);
        out.append(si.as_str());
        proof {
            assert(out@ =~= snap + ", "@ + slot_trace(sv[i as int]));
            assert(snap + (", "@ + slot_trace(sv[i as int]) + slots_trace_rest(
                sv.skip(i as int + 1),
            )) =~= ((snap + ", "@) + slot_trace(sv[i as int])) + slots_trace_rest(
                sv.skip(i as int + 1),
            ));
        }
        i = i + 1;
    }
    proof {
        assert(sv.skip(row@.len() as int) =~= Seq::<Option<CellModel>>::empty());
    }
    out
}

/// The grid-construction trace of one source table: one line per committed
/// row, showing the running column count and every slot the row holds, as the
/// grid is built. Returns `None` exactly where `normalize_table` does.
#[verifier::loop_isolation(false)]
pub fn trace_table(rows: &Vec<Vec<Cell>>) -> (out: Option<Vec<String>>)
    ensures
        ({
            let rs = rows_view(rows@);
            &&& (out is Some <==> rows_wf(rs) && grid_width(rs) <= usize::MAX as int)
            &&& (out matches Option::Some(ls) ==> {
                &&& ls@.len() == rows@.len()
                &&& forall|i: int|
                    0 <= i < ls@.len() ==> (#[trigger] ls@[i]@) == row_trace(
                        grid_state(rs.take(i + 1)).1,
                        grid_state(rs.take(i + 1)).0[i],
                    )
            })
        }),
{
    let ghost rs = rows_view(rows@);
    let mut i: usize = 0;
    while i < rows.len()
        invariant
            i as int <= rs.len(),
            forall|a: int| 0 <= a < i as int ==> wf_cells(#[trigger] rs[a]),
        decreases rows@.len() - i,
    {
        let r: &Vec<Cell> = &rows[i];
        proof {
            assert(rs[i as int] == cells_view(r@));
        }
        let mut j: usize = 0;
        while j < r.len()
            invariant
                j as int <= r@.len(),
                forall|b: int| 0 <= b < j as int ==> wf_cell(#[trigger] cells_view(r@)[b]),
            decreases r@.len() - j,
        {
            proof {
                assert(cells_view(r@)[j as int] == r@[j as int]@);
            }
            if r[j].colspan == 0 || r[j].rowspan == 0 {
                proof {
                    assert(!wf_cell(cells_view(r@)[j as int]));
                    assert(!wf_cells(rs[i as int]));
                    assert(!rows_wf(rs));
                }
                return Option::None;
            }
            j = j + 1;
        }
        proof {
            assert(wf_cells(rs[i as int]));
        }
        i = i + 1;
    }
    proof {
        assert(rows_wf(rs));
    }
    let empty_prev: Vec<Option<Cell>> = Vec::new();
    let mut grid: Vec<Vec<Option<Cell>>> = Vec::new();
    let mut lines: Vec<String> = Vec::new();
    let mut max_cols: usize = 0;
    let mut i: usize = 0;
    proof {
        assert(rs.take(0) =~= Seq::<Seq<CellModel>>::empty());
        assert(grid_view(grid@) =~= Seq::<Seq<Option<CellModel>>>::empty());
    }
    while i < rows.len()
        invariant
            i as int <= rs.len(),
            grid@.len() == i as int,
            lines@.len() == i as int,
            grid_view(grid@) == grid_state(rs.take(i as int)).0,
            max_cols as int == grid_state(rs.take(i as int)).1,
            forall|a: int| 0 <= a < grid@.len() ==> wf_slots(#[trigger] grid_view(grid@)[a]),
            i as int > 0 ==> grid@[i as int - 1]@.len() == max_cols as int,
            i as int == 0 ==> max_cols == 0,
            forall|a: int|
                0 <= a < i as int ==> (#[trigger] lines@[a]@) == row_trace(
                    grid_state(rs.take(a + 1)).1,
                    grid_state(rs.take(a + 1)).0[a],
                ),
        decreases rows@.len() - i,
    {
        let ghost prev_model = if grid_view(grid@).len() > 0 {
            grid_view(grid@).last()
        } else {
            Seq::<Option<CellModel>>::empty()
        };
        let prev_ref: &Vec<Option<Cell>> = if grid.len() > 0 {
            &grid[grid.len() - 1]
        } else {
            &empty_prev
        };
        proof {
            assert(slots_view(prev_ref@) =~= prev_model);
            assert(wf_slots(prev_model));
            assert(prev_ref@.len() == max_cols as int);
            assert(rs[i as int] == cells_view(rows@[i as int]@));
        }
        let res = build_row(prev_ref, max_cols, &rows[i]);
        if res.is_none() {
            proof {
                lemma_grid_step(rs, i as int);
                assert(grid_state(rs.take(i as int + 1)).1 > usize::MAX as int);
                lemma_width_monotone(rs, i as int + 1);
                assert(grid_width(rs) > usize::MAX as int);
            }
            return Option::None;
        }
        let (new_row, new_max) = res.unwrap();
        let line = render_row(new_max, &new_row);
        proof {
            lemma_grid_step(rs, i as int);
            lemma_grid_view_push(grid@, new_row);
            assert(grid_state(rs.take(i as int + 1)).0 == grid_view(grid@).push(
                slots_view(new_row@),
            ));
            assert(grid_state(rs.take(i as int + 1)).0[i as int] == slots_view(new_row@));
            assert(line@ == row_trace(
                grid_state(rs.take(i as int + 1)).1,
                grid_state(rs.take(i as int + 1)).0[i as int],
            ));
        }
        grid.push(new_row);
        lines.push(line);
        max_cols = new_max;
        i = i + 1;
    }
    proof {
        assert(rs.take(rs.len() as int) =~= rs);
        assert(max_cols as int == grid_width(rs));
    }
    Option::Some(lines)
}

} // verus!
