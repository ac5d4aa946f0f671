//! Greedy assignment of palette entries to grid cells under a finite stock.

use vstd::prelude::*;
use rand::rngs::StdRng;
use rand::seq::SliceRandom;
use crate::color::Rgb;
use crate::error::ErrorKind;
use crate::grid::{cell_positions, covers_grid, lemma_map_keeps_arrangement, GridCell};
use crate::inventory::{
    exhausted, is_nearest_available, lemma_nearest_entry_some, lemma_take_piece,
    lemma_total_stock_bounds, nearest_entry, take_piece, total_stock, valid_stock, Entry,
    Inventory,
};

verus! {

/// The palette color chosen for one cell. `entry` is the position of the
/// chosen color in the palette.
#[derive(Clone, Copy, Debug, PartialEq, Eq, Structural)]
pub struct Assignment {
    pub x: u64,
    pub y: u64,
    pub color: Rgb,
    pub entry: usize,
}

/// The positions of a sequence of assignments, in order.
pub open spec fn assigned_positions(assigned: Seq<Assignment>) -> Seq<(u64, u64)> {
    assigned.map_values(|a: Assignment| (a.x, a.y))
}

/// How far a run has come: the stock that is left, the assignments made so
/// far, and whether a cell was met for which nothing was left.
pub ghost struct Progress {
    pub stock: Seq<Entry>,
    pub assigned: Seq<Assignment>,
    pub failed: bool,
}

/// The assignment of entry `i` of `stock` to `cell`.
pub open spec fn assign(stock: Seq<Entry>, cell: GridCell, i: int) -> Assignment {
    Assignment { x: cell.x, y: cell.y, color: stock[i].color, entry: i as usize }
}

/// Visits one cell: the nearest available entry is assigned to it and loses
/// one piece. With nothing available the run fails, and a failed run stays
/// as it is.
pub open spec fn step(p: Progress, cell: GridCell) -> Progress {
    if p.failed {
        p
    } else {
        match nearest_entry(p.stock, cell.source) {
            Some(i) => Progress {
                stock: take_piece(p.stock, i),
                assigned: p.assigned.push(assign(p.stock, cell, i)),
                failed: false,
            },
            None => Progress { failed: true, ..p },
        }
    }
}

/// Visits `cells` in the order given, starting from the stock `inv`.
pub open spec fn run(inv: Seq<Entry>, cells: Seq<GridCell>) -> Progress
    decreases cells.len(),
{
    if cells.len() == 0 {
        Progress { stock: inv, assigned: Seq::empty(), failed: false }
    } else {
        step(run(inv, cells.drop_last()), cells.last())
    }
}

/// What a run hands back: the assignments if every cell got one, and
/// otherwise only the fact that the stock ran out.
pub open spec fn outcome_is(p: Progress, res: Result<Vec<Assignment>, ErrorKind>) -> bool {
    match res {
        Ok(assigned) => !p.failed && assigned@ == p.assigned,
        Err(e) => p.failed && e == ErrorKind::InventoryExhausted,
    }
}

/// The number of pieces that leave a stock of `total` pieces when `cells`
/// cells are visited.
pub open spec fn pieces_used(total: int, cells: int) -> int {
    if total < cells {
        total
    } else {
        cells
    }
}

/// Every assignment names an entry of a palette of `entries` colors.
pub open spec fn refers_within(assigned: Seq<Assignment>, entries: int) -> bool {
    forall|i: int| 0 <= i < assigned.len() ==> (#[trigger] assigned[i]).entry < entries
}

/// The number of assignments that name palette entry `entry`.
pub open spec fn count_of(assigned: Seq<Assignment>, entry: int) -> int
    decreases assigned.len(),
{
    if assigned.len() == 0 {
        0
    } else {
        count_of(assigned.drop_last(), entry) + if assigned.last().entry == entry {
            1int
        } else {
            0int
        }
    }
}

/// An entry is named by no more assignments than there are.
pub proof fn lemma_count_bounds(assigned: Seq<Assignment>, entry: int)
    ensures
        0 <= count_of(assigned, entry) <= assigned.len(),
    decreases assigned.len(),
{
    if assigned.len() > 0 {
        lemma_count_bounds(assigned.drop_last(), entry);
    }
}

/// A run over the first `k` cells is the beginning of the run over all of
/// them, and once it has failed nothing changes any more.
pub proof fn lemma_run_prefix(inv: Seq<Entry>, cells: Seq<GridCell>, k: int)
    requires
        0 <= k <= cells.len(),
    ensures
        run(inv, cells.take(k)).assigned.len() <= run(inv, cells).assigned.len(),
        forall|i: int|
            0 <= i < run(inv, cells.take(k)).assigned.len() ==> run(inv, cells.take(k)).assigned[i]
                == #[trigger] run(inv, cells).assigned[i],
        run(inv, cells.take(k)).failed ==> run(inv, cells) == run(inv, cells.take(k)),
    decreases cells.len(),
{
    if k == cells.len() {
        assert(cells.take(k) =~= cells);
    } else {
        assert(cells.take(k) =~= cells.drop_last().take(k));
        lemma_run_prefix(inv, cells.drop_last(), k);
    }
}

/// A run assigns at most one entry per cell, exactly one unless it fails,
/// and never adds or removes palette entries.
pub proof fn lemma_run_lengths(inv: Seq<Entry>, cells: Seq<GridCell>)
    ensures
        run(inv, cells).assigned.len() <= cells.len(),
        !run(inv, cells).failed ==> run(inv, cells).assigned.len() == cells.len(),
        run(inv, cells).stock.len() == inv.len(),
    decreases cells.len(),
{
    if cells.len() > 0 {
        lemma_run_lengths(inv, cells.drop_last());
        let before = run(inv, cells.drop_last());
        lemma_nearest_entry_some(before.stock, cells.last().source);
    }
}

/// Stock conservation and the exhaustion criterion. The pieces that left the
/// stock are as many as the cells that were assigned. The run fails exactly
/// when the stock holds fewer pieces than there are cells, and then it uses
/// up every piece.
pub proof fn lemma_run_accounts(inv: Seq<Entry>, cells: Seq<GridCell>)
    requires
        valid_stock(inv),
    ensures
        valid_stock(run(inv, cells).stock),
        total_stock(inv) - total_stock(run(inv, cells).stock) == run(inv, cells).assigned.len(),
        run(inv, cells).assigned.len() == pieces_used(total_stock(inv), cells.len() as int),
        run(inv, cells).failed <==> total_stock(inv) < cells.len(),
        run(inv, cells).failed ==> exhausted(run(inv, cells).stock),
    decreases cells.len(),
{
    lemma_total_stock_bounds(inv);
    if cells.len() > 0 {
        let before = run(inv, cells.drop_last());
        lemma_run_accounts(inv, cells.drop_last());
        lemma_run_lengths(inv, cells.drop_last());
        lemma_total_stock_bounds(before.stock);
        lemma_nearest_entry_some(before.stock, cells.last().source);
        if !before.failed {
            match nearest_entry(before.stock, cells.last().source) {
                Some(i) => {
                    lemma_take_piece(before.stock, i);
                },
                None => {},
            }
        }
    }
}

/// Non-negativity: at no point of a run does an entry hold a negative
/// number of pieces.
pub proof fn lemma_stock_never_negative(inv: Seq<Entry>, cells: Seq<GridCell>, k: int)
    requires
        valid_stock(inv),
        0 <= k <= cells.len(),
    ensures
        valid_stock(run(inv, cells.take(k)).stock),
{
    lemma_run_accounts(inv, cells.take(k));
}

/// Every assignment was chosen when its cell was visited: it carries the
/// cell's position and the color of the entry that was then the nearest
/// available one, which still had a piece.
pub proof fn lemma_assignment_choice(inv: Seq<Entry>, cells: Seq<GridCell>, i: int)
    requires
        0 <= i < run(inv, cells).assigned.len(),
    ensures
        i < cells.len(),
        !run(inv, cells.take(i)).failed,
        nearest_entry(run(inv, cells.take(i)).stock, cells[i].source) matches Some(e) && {
            &&& is_nearest_available(run(inv, cells.take(i)).stock, cells[i].source, e)
            &&& run(inv, cells).assigned[i] == assign(run(inv, cells.take(i)).stock, cells[i], e)
            &&& run(inv, cells.take(i)).stock[e].color == inv[e].color
        },
{
    lemma_run_lengths(inv, cells);
    let before = run(inv, cells.take(i));
    let after = run(inv, cells.take(i + 1));
    lemma_run_prefix(inv, cells, i);
    lemma_run_prefix(inv, cells, i + 1);
    lemma_run_lengths(inv, cells.take(i));
    lemma_run_lengths(inv, cells.take(i + 1));
    assert(cells.take(i + 1).drop_last() =~= cells.take(i));
    assert(cells.take(i + 1).last() == cells[i]);
    assert(after == step(before, cells[i]));
    lemma_nearest_entry_some(before.stock, cells[i].source);
    lemma_run_keeps_palette(inv, cells.take(i));
}

/// A run changes nothing of the palette but the numbers of pieces, and these
/// only go down.
pub proof fn lemma_run_keeps_palette(inv: Seq<Entry>, cells: Seq<GridCell>)
    ensures
        run(inv, cells).stock.len() == inv.len(),
        forall|j: int|
            0 <= j < inv.len() ==> {
                &&& (#[trigger] run(inv, cells).stock[j]).name == inv[j].name
                &&& run(inv, cells).stock[j].color == inv[j].color
                &&& run(inv, cells).stock[j].remaining <= inv[j].remaining
            },
    decreases cells.len(),
{
    if cells.len() > 0 {
        lemma_run_keeps_palette(inv, cells.drop_last());
        let before = run(inv, cells.drop_last());
        lemma_nearest_entry_some(before.stock, cells.last().source);
    }
}

/// Stock conservation, entry by entry: a run names each palette entry as
/// often as that entry lost pieces, and names no entry outside the palette.
pub proof fn lemma_run_counts(inv: Seq<Entry>, cells: Seq<GridCell>)
    requires
        inv.len() <= usize::MAX,
    ensures
        refers_within(run(inv, cells).assigned, inv.len() as int),
        run(inv, cells).stock.len() == inv.len(),
        forall|j: int|
            0 <= j < inv.len() ==> inv[j].remaining - (#[trigger] run(
                inv,
                cells,
            ).stock[j]).remaining == count_of(run(inv, cells).assigned, j),
    decreases cells.len(),
{
    if cells.len() > 0 {
        lemma_run_counts(inv, cells.drop_last());
        let before = run(inv, cells.drop_last());
        let after = run(inv, cells);
        lemma_nearest_entry_some(before.stock, cells.last().source);
        if !before.failed {
            match nearest_entry(before.stock, cells.last().source) {
                Some(e) => {
                    assert(after.assigned.drop_last() =~= before.assigned);
                    assert(after.assigned.last().entry == e);
                    assert forall|i: int| 0 <= i < after.assigned.len() implies (
                    #[trigger] after.assigned[i]).entry < inv.len() by {
                        if i < before.assigned.len() {
                            assert(after.assigned[i] == before.assigned[i]);
                        }
                    }
                },
                None => {},
            }
        }
    }
}

/// The assignments of a run that did not fail occupy the positions of the
/// cells, one for one.
pub proof fn lemma_run_positions(inv: Seq<Entry>, cells: Seq<GridCell>)
    requires
        !run(inv, cells).failed,
    ensures
        assigned_positions(run(inv, cells).assigned) == cell_positions(cells),
{
    lemma_run_lengths(inv, cells);
    assert forall|i: int| 0 <= i < cells.len() implies assigned_positions(
        run(inv, cells).assigned,
    )[i] == cell_positions(cells)[i] by {
        lemma_assignment_choice(inv, cells, i);
    }
    assert(assigned_positions(run(inv, cells).assigned) =~= cell_positions(cells));
}

/// Completeness: with at least as many pieces as cells, a run over cells
/// that cover a grid assigns every position of that grid exactly once.
pub proof fn lemma_run_complete(inv: Seq<Entry>, cells: Seq<GridCell>, width: int, height: int)
    requires
        valid_stock(inv),
        total_stock(inv) >= cells.len(),
        covers_grid(cell_positions(cells), width, height),
    ensures
        !run(inv, cells).failed,
        run(inv, cells).assigned.len() == width * height,
        covers_grid(assigned_positions(run(inv, cells).assigned), width, height),
{
    lemma_run_accounts(inv, cells);
    lemma_run_lengths(inv, cells);
    lemma_run_positions(inv, cells);
}

/// A stock with exactly one piece per cell is enough, and the run uses it
/// up.
pub proof fn lemma_exact_stock_is_used_up(inv: Seq<Entry>, cells: Seq<GridCell>)
    requires
        valid_stock(inv),
        total_stock(inv) == cells.len(),
    ensures
        !run(inv, cells).failed,
        run(inv, cells).assigned.len() == cells.len(),
        exhausted(run(inv, cells).stock),
{
    lemma_run_accounts(inv, cells);
    lemma_total_stock_bounds(run(inv, cells).stock);
}

/// A run on an exhausted stock fails on the first cell: it assigns nothing
/// and leaves the stock as it was.
pub proof fn lemma_no_stock_fails_at_once(inv: Seq<Entry>, cells: Seq<GridCell>)
    requires
        exhausted(inv),
        cells.len() > 0,
    ensures
        run(inv, cells.take(1)).failed,
        run(inv, cells) == (Progress { stock: inv, assigned: Seq::empty(), failed: true }),
{
    let first = cells.take(1);
    assert(first.drop_last() =~= Seq::<GridCell>::empty());
    assert(run(inv, first.drop_last()) == (Progress {
        stock: inv,
        assigned: Seq::empty(),
        failed: false,
    }));
    lemma_nearest_entry_some(inv, first.last().source);
    lemma_run_prefix(inv, cells, 1);
}

/// What a run over `cells` cells leaves behind, whatever the order of the
/// visit. The palette keeps its entries, their names and their colors, and
/// no entry gains pieces or goes below zero. The run succeeds exactly when
/// the stock held a piece for every cell; every assignment then names an
/// entry of the palette, and each entry has lost as many pieces as there are
/// assignments that name it. Otherwise the stock is used up.
pub open spec fn settled(
    before: Seq<Entry>,
    after: Seq<Entry>,
    res: Result<Vec<Assignment>, ErrorKind>,
    cells: int,
) -> bool {
    &&& after.len() == before.len()
    &&& forall|j: int|
        0 <= j < before.len() ==> {
            &&& (#[trigger] after[j]).name == before[j].name
            &&& after[j].color == before[j].color
            &&& 0 <= after[j].remaining <= before[j].remaining
        }
    &&& match res {
        Ok(assigned) => {
            &&& total_stock(before) >= cells
            &&& assigned@.len() == cells
            &&& total_stock(after) == total_stock(before) - cells
            &&& refers_within(assigned@, before.len() as int)
            &&& forall|j: int|
                0 <= j < before.len() ==> before[j].remaining - (#[trigger] after[j]).remaining
                    == count_of(assigned@, j)
        },
        Err(e) => {
            &&& total_stock(before) < cells
            &&& exhausted(after)
            &&& e == ErrorKind::InventoryExhausted
        },
    }
}

/// A run settles its accounts.
pub proof fn lemma_run_settles(
    inv: Seq<Entry>,
    cells: Seq<GridCell>,
    res: Result<Vec<Assignment>, ErrorKind>,
)
    requires
        valid_stock(inv),
        inv.len() <= usize::MAX,
        outcome_is(run(inv, cells), res),
    ensures
        settled(inv, run(inv, cells).stock, res, cells.len() as int),
{
    lemma_run_accounts(inv, cells);
    lemma_run_lengths(inv, cells);
    lemma_run_keeps_palette(inv, cells);
    lemma_run_counts(inv, cells);
}

/// Visits the cells in the order given. Each cell gets the nearest palette
/// entry that still has a piece, and that entry loses one piece. If a cell
/// is met when nothing is left, the run fails with `InventoryExhausted` and
/// no assignment is handed out.
pub fn quantize_in_order(cells: &Vec<GridCell>, inventory: &mut Inventory) -> (res: Result<
    Vec<Assignment>,
    ErrorKind,
>)
    ensures
        outcome_is(run(old(inventory)@, cells@), res),
        final(inventory)@ == run(old(inventory)@, cells@).stock,
        settled(old(inventory)@, final(inventory)@, res, cells@.len() as int),
        res matches Ok(assigned) ==> assigned_positions(assigned@) == cell_positions(cells@),
        res matches Ok(assigned) ==> forall|width: int, height: int| #[trigger]
            covers_grid(cell_positions(cells@), width, height) ==> covers_grid(
                assigned_positions(assigned@),
                width,
                height,
            ),
{
    let ghost start = inventory@;
    let mut assigned: Vec<Assignment> = Vec::new();
    let mut k: usize = 0;
    proof {
        assert(cells@.take(0) =~= Seq::<GridCell>::empty());
    }
    while k < cells.len()
        invariant
            k <= cells.len(),
            start == old(inventory)@,
            !run(start, cells@.take(k as int)).failed,
            inventory@ == run(start, cells@.take(k as int)).stock,
            assigned@ == run(start, cells@.take(k as int)).assigned,
        decreases cells.len() - k,
    {
        let cell = cells[k];
        proof {
            assert(cells@.take(k + 1).drop_last() =~= cells@.take(k as int));
            assert(cells@.take(k + 1).last() == cell);
        }
        match inventory.nearest_available(cell.source) {
            Some(i) => {
                let color = inventory.entries[i].color;
                let taken = inventory.decrement(i);
                assert(taken is Ok);
                assigned.push(Assignment { x: cell.x, y: cell.y, color, entry: i });
            },
            None => {
                proof {
                    lemma_run_prefix(start, cells@, k + 1);
                    old(inventory).lemma_valid();
                    lemma_run_settles(start, cells@, Err(ErrorKind::InventoryExhausted));
                }
                return Err(ErrorKind::InventoryExhausted);
            },
        }
        k += 1;
    }
    proof {
        assert(cells@.take(k as int) =~= cells@);
        old(inventory).lemma_valid();
        lemma_run_settles(start, cells@, Ok(assigned));
        lemma_run_positions(start, cells@);
    }
    Ok(assigned)
}

/// `rand::rngs::StdRng`, the generator that decides the order of a visit.
/// It is only handed on to the shuffle; nothing is known of its state.
#[verifier::external_type_specification]
#[verifier::external_body]
pub struct ExStdRng(StdRng);

/// Calls `rand::seq::SliceRandom::shuffle` on the cells. That function only
/// swaps items of the slice, so the cells afterwards are the cells before in
/// some order. Which order depends on the generator, and nothing is claimed
/// about it.
#[verifier::external_body]
fn shuffle_cells(cells: &mut Vec<GridCell>, rng: &mut StdRng)
    ensures
        final(cells)@.to_multiset() == old(cells)@.to_multiset(),
{
    cells.shuffle(rng);
}

/// Assigns a palette entry to every cell of `grid`, visiting the cells in a
/// random order drawn from `rng`, so that the cells which must make do with
/// a distant color are spread over the picture. The assignments come back in
/// the order of the visit.
///
/// Whatever the order, the run succeeds exactly when the stock holds at
/// least one piece per cell, and it then uses exactly that many pieces. A
/// run that fails has used up the stock and hands out no assignment.
pub fn quantize(grid: &Vec<GridCell>, inventory: &mut Inventory, rng: &mut StdRng) -> (res: Result<
    Vec<Assignment>,
    ErrorKind,
>)
    ensures
        exists|order: Seq<GridCell>|
            {
                &&& #[trigger] order.to_multiset() == grid@.to_multiset()
                &&& outcome_is(run(old(inventory)@, order), res)
                &&& final(inventory)@ == run(old(inventory)@, order).stock
            },
        settled(old(inventory)@, final(inventory)@, res, grid@.len() as int),
        res matches Ok(assigned) ==> assigned_positions(assigned@).to_multiset()
            == cell_positions(grid@).to_multiset(),
        res matches Ok(assigned) ==> forall|width: int, height: int| #[trigger]
            covers_grid(cell_positions(grid@), width, height) ==> covers_grid(
                assigned_positions(assigned@),
                width,
                height,
            ),
{
    let mut order = grid.clone();
    assert(order@ =~= grid@);
    shuffle_cells(&mut order, rng);
    proof {
        order@.to_multiset_ensures();
        grid@.to_multiset_ensures();
        lemma_map_keeps_arrangement(order@, grid@, |c: GridCell| (c.x, c.y));
    }
    let res = quantize_in_order(&order, inventory);
    proof {
        if res is Ok {
            let assigned = res->Ok_0;
            assert forall|width: int, height: int| #[trigger]
                covers_grid(cell_positions(grid@), width, height) implies covers_grid(
                assigned_positions(assigned@),
                width,
                height,
            ) by {
                lemma_arrangement_covers(assigned@, grid@, width, height);
            }
        }
    }
    res
}

/// Completeness for any order of visit: assignments that occupy the
/// positions of a grid's cells, in whatever arrangement, cover that grid.
pub proof fn lemma_arrangement_covers(
    assigned: Seq<Assignment>,
    grid: Seq<GridCell>,
    width: int,
    height: int,
)
    requires
        assigned_positions(assigned).to_multiset() == cell_positions(grid).to_multiset(),
        covers_grid(cell_positions(grid), width, height),
    ensures
        assigned.len() == width * height,
        covers_grid(assigned_positions(assigned), width, height),
{
    assigned_positions(assigned).to_multiset_ensures();
    cell_positions(grid).to_multiset_ensures();
}

} // verus!
