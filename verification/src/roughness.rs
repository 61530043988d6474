use std::collections::HashSet;
use vstd::prelude::*;

verus! {

/// A grid cell as (row, column).
pub type Cell = (usize, usize);

/// The point of cell (r, c) stayed bounded: its escape count reached `max_iter`.
pub open spec fn stays_bounded(grid: Seq<Vec<u32>>, r: int, c: int, max_iter: u32) -> bool {
    grid[r]@[c] >= max_iter
}

/// Cell (r, c) lies on the escape boundary: one of its four neighbours is on
/// the other side (bounded versus escaped).
pub open spec fn on_boundary(grid: Seq<Vec<u32>>, r: int, c: int, max_iter: u32) -> bool {
    let inside = stays_bounded(grid, r, c, max_iter);
    ||| stays_bounded(grid, r - 1, c, max_iter) != inside
    ||| stays_bounded(grid, r + 1, c, max_iter) != inside
    ||| stays_bounded(grid, r, c - 1, max_iter) != inside
    ||| stays_bounded(grid, r, c + 1, max_iter) != inside
}

/// Cell (r, c) is inside an n-by-n grid and not on its outer rim.
pub open spec fn interior_cell(n: int, r: int, c: int) -> bool {
    1 <= r && r + 1 < n && 1 <= c && c + 1 < n
}

/// Cell `a` comes before cell `b` in row-major order.
pub open spec fn row_major_before(a: Cell, b: Cell) -> bool {
    a.0 < b.0 || (a.0 == b.0 && a.1 < b.1)
}

/// Every grid row has as many entries as the grid has rows.
pub open spec fn is_square(grid: Seq<Vec<u32>>) -> bool {
    forall|r: int| 0 <= r < grid.len() ==> #[trigger] grid[r].len() == grid.len()
}

/// `cells` holds exactly the interior boundary cells of `grid`, in row-major order.
pub open spec fn boundary_of(grid: Seq<Vec<u32>>, max_iter: u32, cells: Seq<Cell>) -> bool {
    &&& forall|k: int| 0 <= k < cells.len() ==> {
        let cell = #[trigger] cells[k];
        interior_cell(grid.len() as int, cell.0 as int, cell.1 as int)
            && on_boundary(grid, cell.0 as int, cell.1 as int, max_iter)
    }
    &&& forall|r: usize, c: usize|
        interior_cell(grid.len() as int, r as int, c as int) && on_boundary(grid, r as int, c as int, max_iter)
            ==> #[trigger] cells.contains((r, c))
    &&& forall|i: int, j: int| 0 <= i < j < cells.len() ==> row_major_before(#[trigger] cells[i], #[trigger] cells[j])
}

/// Boundary extraction on a square grid of escape counts: the interior cells
/// where a neighbour has a different bounded/escaped status, row by row.
pub fn boundary_cells(escape: &Vec<Vec<u32>>, max_iter: u32) -> (cells: Vec<Cell>)
    requires
        is_square(escape@),
    ensures
        boundary_of(escape@, max_iter, cells@),
{
    let n = escape.len();
    let mut cells: Vec<Cell> = Vec::new();
    if n < 3 {
        return cells;
    }
    let mut ri: usize = 1;
    while ri < n - 1
        invariant
            n == escape.len(),
            n >= 3,
            is_square(escape@),
            1 <= ri <= n - 1,
            forall|k: int| 0 <= k < cells.len() ==> {
                let cell = #[trigger] cells[k];
                interior_cell(n as int, cell.0 as int, cell.1 as int)
                    && on_boundary(escape@, cell.0 as int, cell.1 as int, max_iter)
                    && cell.0 < ri
            },
            forall|r: usize, c: usize|
                interior_cell(n as int, r as int, c as int) && on_boundary(escape@, r as int, c as int, max_iter)
                    && r < ri ==> #[trigger] cells@.contains((r, c)),
            forall|i: int, j: int| 0 <= i < j < cells.len() ==> row_major_before(#[trigger] cells[i], #[trigger] cells[j]),
        decreases n - ri,
    {
        let mut ii: usize = 1;
        while ii < n - 1
            invariant
                n == escape.len(),
                n >= 3,
                is_square(escape@),
                1 <= ri < n - 1,
                1 <= ii <= n - 1,
                forall|k: int| 0 <= k < cells.len() ==> {
                    let cell = #[trigger] cells[k];
                    interior_cell(n as int, cell.0 as int, cell.1 as int)
                        && on_boundary(escape@, cell.0 as int, cell.1 as int, max_iter)
                        && row_major_before(cell, (ri, ii))
                },
                forall|r: usize, c: usize|
                    interior_cell(n as int, r as int, c as int) && on_boundary(escape@, r as int, c as int, max_iter)
                        && row_major_before((r, c), (ri, ii)) ==> #[trigger] cells@.contains((r, c)),
                forall|i: int, j: int| 0 <= i < j < cells.len() ==> row_major_before(#[trigger] cells[i], #[trigger] cells[j]),
            decreases n - ii,
        {
            proof {
                assert(escape@[ri as int].len() == n);
                assert(escape@[ri - 1].len() == n);
                assert(escape@[ri + 1].len() == n);
            }
            let inside = escape[ri][ii] >= max_iter;
            let has_diff = (escape[ri - 1][ii] >= max_iter) != inside
                || (escape[ri + 1][ii] >= max_iter) != inside
                || (escape[ri][ii - 1] >= max_iter) != inside
                || (escape[ri][ii + 1] >= max_iter) != inside;
            let ghost old_cells = cells@;
            if has_diff {
                cells.push((ri, ii));
                proof {
                    assert forall|r: usize, c: usize|
                        old_cells.contains((r, c)) implies #[trigger] cells@.contains((r, c)) by {
                        let k = choose|k: int| 0 <= k < old_cells.len() && old_cells[k] == (r, c);
                        assert(cells@[k] == (r, c));
                    }
                    assert(cells@[cells.len() - 1] == (ri, ii));
                }
            }
            ii = ii + 1;
        }
        ri = ri + 1;
    }
    cells
}

/// Cells (r, c) and (r2, c2) are neighbours: they share a side.
pub open spec fn side_neighbours(r: int, c: int, r2: int, c2: int) -> bool {
    ||| r2 == r && (c2 == c + 1 || c2 + 1 == c)
    ||| c2 == c && (r2 == r + 1 || r2 + 1 == r)
}

/// The boundary runs along both sides of the edge between a bounded and an
/// escaped pixel: when two interior neighbours differ in status (escape count
/// at least `max_iter` or not), both are boundary cells, whichever side each
/// is on.
pub proof fn lemma_boundary_contains_both_sides(
    grid: Seq<Vec<u32>>,
    max_iter: u32,
    cells: Seq<Cell>,
    r: usize,
    c: usize,
    r2: usize,
    c2: usize,
)
    requires
        is_square(grid),
        boundary_of(grid, max_iter, cells),
        interior_cell(grid.len() as int, r as int, c as int),
        interior_cell(grid.len() as int, r2 as int, c2 as int),
        side_neighbours(r as int, c as int, r2 as int, c2 as int),
        (grid[r as int]@[c as int] >= max_iter) != (grid[r2 as int]@[c2 as int] >= max_iter),
    ensures
        cells.contains((r, c)),
        cells.contains((r2, c2)),
{
    assert(on_boundary(grid, r as int, c as int, max_iter));
    assert(on_boundary(grid, r2 as int, c2 as int, max_iter));
}

/// Every boundary cell has a side neighbour whose status (escape count at
/// least `max_iter` or not) differs from its own.
pub proof fn lemma_boundary_cells_touch_other_status(grid: Seq<Vec<u32>>, max_iter: u32, cells: Seq<Cell>, k: int)
    requires
        boundary_of(grid, max_iter, cells),
        0 <= k < cells.len(),
    ensures
        ({
            let (r, c) = (cells[k].0 as int, cells[k].1 as int);
            let own = grid[r]@[c] >= max_iter;
            ||| (grid[r - 1]@[c] >= max_iter) != own
            ||| (grid[r + 1]@[c] >= max_iter) != own
            ||| (grid[r]@[c - 1] >= max_iter) != own
            ||| (grid[r]@[c + 1] >= max_iter) != own
        }),
{
    let cell = cells[k];
    assert(on_boundary(grid, cell.0 as int, cell.1 as int, max_iter));
}

/// Two strictly row-major-sorted sequences with the same members are equal.
proof fn lemma_sorted_same_members(x: Seq<Cell>, y: Seq<Cell>)
    requires
        forall|i: int, j: int| 0 <= i < j < x.len() ==> row_major_before(#[trigger] x[i], #[trigger] x[j]),
        forall|i: int, j: int| 0 <= i < j < y.len() ==> row_major_before(#[trigger] y[i], #[trigger] y[j]),
        forall|e: Cell| #![trigger x.contains(e)] #![trigger y.contains(e)] x.contains(e) <==> y.contains(e),
    ensures
        x == y,
    decreases x.len(),
{
    if x.len() == 0 {
        if y.len() > 0 {
            assert(y.contains(y[0]));
        }
        assert(x =~= y);
    } else if y.len() == 0 {
        assert(x.contains(x[0]));
    } else {
        assert(x.contains(x[0]));
        assert(y.contains(y[0]));
        let kx = choose|k: int| 0 <= k < x.len() && x[k] == y[0];
        let ky = choose|k: int| 0 <= k < y.len() && y[k] == x[0];
        if kx > 0 {
            assert(row_major_before(x[0], x[kx]));
        }
        if ky > 0 {
            assert(row_major_before(y[0], y[ky]));
        }
        assert(x[0] == y[0]);
        let xt = x.drop_first();
        let yt = y.drop_first();
        assert forall|e: Cell| #![trigger xt.contains(e)] #![trigger yt.contains(e)] xt.contains(e) <==> yt.contains(e) by {
            if xt.contains(e) {
                let k = choose|k: int| 0 <= k < xt.len() && xt[k] == e;
                assert(x[k + 1] == e);
                assert(row_major_before(x[0], x[k + 1]));
                assert(y.contains(e));
                let j = choose|j: int| 0 <= j < y.len() && y[j] == e;
                assert(j != 0);
                assert(yt[j - 1] == e);
            }
            if yt.contains(e) {
                let k = choose|k: int| 0 <= k < yt.len() && yt[k] == e;
                assert(y[k + 1] == e);
                assert(row_major_before(y[0], y[k + 1]));
                assert(x.contains(e));
                let j = choose|j: int| 0 <= j < x.len() && x[j] == e;
                assert(j != 0);
                assert(xt[j - 1] == e);
            }
        }
        assert forall|i: int, j: int| 0 <= i < j < xt.len() implies row_major_before(#[trigger] xt[i], #[trigger] xt[j]) by {
            assert(xt[i] == x[i + 1] && xt[j] == x[j + 1]);
        }
        assert forall|i: int, j: int| 0 <= i < j < yt.len() implies row_major_before(#[trigger] yt[i], #[trigger] yt[j]) by {
            assert(yt[i] == y[i + 1] && yt[j] == y[j + 1]);
        }
        lemma_sorted_same_members(xt, yt);
        assert forall|i: int| 0 <= i < x.len() implies x[i] == y[i] by {
            if i > 0 {
                assert(x[i] == xt[i - 1] && y[i] == yt[i - 1]);
            }
        }
        assert(x =~= y);
    }
}

/// The boundary does not depend on which side is called bounded: a grid in
/// which every pixel's status (escape count at least `max_iter` or not) is
/// swapped has exactly the same boundary cells.
pub proof fn lemma_boundary_of_swapped_status(
    grid: Seq<Vec<u32>>,
    swapped: Seq<Vec<u32>>,
    max_iter: u32,
    cells: Seq<Cell>,
    swapped_cells: Seq<Cell>,
)
    requires
        is_square(grid),
        swapped.len() == grid.len(),
        forall|r: int, c: int|
            0 <= r < grid.len() && 0 <= c < grid.len() ==> (#[trigger] swapped[r]@[c] >= max_iter) != (
            #[trigger] grid[r]@[c] >= max_iter),
        boundary_of(grid, max_iter, cells),
        boundary_of(swapped, max_iter, swapped_cells),
    ensures
        cells == swapped_cells,
{
    let n = grid.len() as int;
    assert forall|r: int, c: int| interior_cell(n, r, c) implies #[trigger] on_boundary(grid, r, c, max_iter)
        == on_boundary(swapped, r, c, max_iter) by {
        assert((swapped[r]@[c] >= max_iter) != (grid[r]@[c] >= max_iter));
        assert((swapped[r - 1]@[c] >= max_iter) != (grid[r - 1]@[c] >= max_iter));
        assert((swapped[r + 1]@[c] >= max_iter) != (grid[r + 1]@[c] >= max_iter));
        assert((swapped[r]@[c - 1] >= max_iter) != (grid[r]@[c - 1] >= max_iter));
        assert((swapped[r]@[c + 1] >= max_iter) != (grid[r]@[c + 1] >= max_iter));
    }
    assert forall|e: Cell| #![trigger cells.contains(e)] #![trigger swapped_cells.contains(e)]
        cells.contains(e) <==> swapped_cells.contains(e) by {
        if cells.contains(e) {
            let k = choose|k: int| 0 <= k < cells.len() && cells[k] == e;
            assert(on_boundary(grid, e.0 as int, e.1 as int, max_iter));
            assert(on_boundary(swapped, e.0 as int, e.1 as int, max_iter));
        }
        if swapped_cells.contains(e) {
            let k = choose|k: int| 0 <= k < swapped_cells.len() && swapped_cells[k] == e;
            assert(on_boundary(swapped, e.0 as int, e.1 as int, max_iter));
            assert(on_boundary(grid, e.0 as int, e.1 as int, max_iter));
        }
    }
    lemma_sorted_same_members(cells, swapped_cells);
}

/// The box of side `scale` that a cell falls in.
pub open spec fn box_of(cell: Cell, scale: usize) -> Cell {
    ((cell.0 / scale) as usize, (cell.1 / scale) as usize)
}

/// The set of boxes of side `scale` that the cells fall in.
pub open spec fn boxes_of(cells: Seq<Cell>, scale: usize) -> Set<Cell> {
    cells.map_values(|cell: Cell| box_of(cell, scale)).to_set()
}

/// At scale 1 every cell is its own box, and at any scale there are no more
/// boxes than cells; two cells share a box of side `scale` exactly when their
/// rows and their columns agree after division by `scale`.
pub proof fn lemma_boxes_of_bounds(cells: Seq<Cell>, scale: usize)
    requires
        scale > 0,
    ensures
        boxes_of(cells, 1) == cells.to_set(),
        boxes_of(cells, scale).len() <= cells.len(),
        forall|a: Cell, b: Cell|
            #[trigger] box_of(a, scale) == #[trigger] box_of(b, scale) <==> (a.0 / scale == b.0 / scale && a.1
                / scale == b.1 / scale),
{
    let image1 = cells.map_values(|cell: Cell| box_of(cell, 1));
    assert(image1 =~= cells) by {
        assert forall|k: int| 0 <= k < cells.len() implies image1[k] == cells[k] by {
            assert(cells[k].0 / 1 == cells[k].0 && cells[k].1 / 1 == cells[k].1);
        }
    }
    let image = cells.map_values(|cell: Cell| box_of(cell, scale));
    image.lemma_cardinality_of_set();
}

/// A box packed into one `u128` key: the row in the high 64 bits, the column
/// in the low 64 bits.
pub open spec fn box_key(b: Cell) -> u128 {
    (b.0 as int * 0x1_0000_0000_0000_0000 + b.1 as int) as u128
}

/// Different boxes get different keys.
proof fn lemma_box_key_injective(x: Cell, y: Cell)
    ensures
        box_key(x) == box_key(y) ==> x == y,
{
    assert(x.0 as int * 0x1_0000_0000_0000_0000 + x.1 as int <= u128::MAX);
    assert(y.0 as int * 0x1_0000_0000_0000_0000 + y.1 as int <= u128::MAX);
}

/// Box counting: how many distinct boxes of side `scale` the cells occupy.
pub fn box_count(cells: &[Cell], scale: usize) -> (count: usize)
    requires
        scale > 0,
    ensures
        count == boxes_of(cells@, scale).len(),
{
    broadcast use vstd::std_specs::hash::group_hash_axioms;
    let mut boxes: HashSet<u128> = HashSet::new();
    let mut i: usize = 0;
    while i < cells.len()
        invariant
            scale > 0,
            i <= cells.len(),
            forall|x: u128| boxes@.contains(x) <==> exists|k: int| 0 <= k < i && #[trigger] box_key(box_of(cells@[k], scale)) == x,
        decreases cells.len() - i,
    {
        let (r, c) = cells[i];
        let b: Cell = (r / scale, c / scale);
        assert(b == box_of(cells@[i as int], scale));
        let key: u128 = (b.0 as u128) * 0x1_0000_0000_0000_0000 + (b.1 as u128);
        assert(key == box_key(b));
        let ghost old_boxes = boxes@;
        boxes.insert(key);
        proof {
            assert forall|x: u128| boxes@.contains(x) <==> exists|k: int| 0 <= k < i + 1 && #[trigger] box_key(box_of(cells@[k], scale)) == x by {
                if exists|k: int| 0 <= k < i + 1 && #[trigger] box_key(box_of(cells@[k], scale)) == x {
                    let k = choose|k: int| 0 <= k < i + 1 && #[trigger] box_key(box_of(cells@[k], scale)) == x;
                    if k < i {
                        assert(old_boxes.contains(x));
                    }
                }
            }
        }
        i = i + 1;
    }
    proof {
        let f = |b: Cell| box_key(b);
        let occupied = boxes_of(cells@, scale);
        let image = cells@.map_values(|cell: Cell| box_of(cell, scale));
        assert forall|x: u128| #[trigger] boxes@.contains(x) <==> occupied.map(f).contains(x) by {
            if boxes@.contains(x) {
                let k = choose|k: int| 0 <= k < i && #[trigger] box_key(box_of(cells@[k], scale)) == x;
                assert(image[k] == box_of(cells@[k], scale));
                assert(occupied.contains(image[k]));
            }
            if occupied.map(f).contains(x) {
                let b = choose|b: Cell| occupied.contains(b) && f(b) == x;
                let k = choose|k: int| 0 <= k < image.len() && image[k] == b;
                assert(box_key(box_of(cells@[k], scale)) == x);
            }
        }
        assert(boxes@ =~= occupied.map(f));
        assert forall|a: Cell, b: Cell| occupied.contains(a) && occupied.contains(b) && #[trigger] f(a) == #[trigger] f(b) implies a == b by {
            lemma_box_key_injective(a, b);
        }
        assert(vstd::relations::injective_on(f, occupied));
        vstd::set_lib::lemma_map_size(occupied, boxes@, f);
    }
    boxes.len()
}

} // verus!
