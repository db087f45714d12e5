use vstd::prelude::*;
use crate::field::{MAX_SIDE, Packing, TilePlacementOnField, lemma_cell_index, lemma_same_geometry, same_shapes, target};
use crate::tile::Tile;

verus! {

/// The cell, as (column, row), where square `i` of `tile` lands under
/// placement `q`.
pub open spec fn square_cell(tile: Tile, q: TilePlacementOnField, i: int) -> (int, int) {
    target(tile, q.square_id as int, q.rotation as int, q.x as int, q.y as int, i)
}

/// `grid` gives each cell of a `w` by `h` field, row by row, the tile that
/// covers it, and `layout` says where each tile laid on the field lies:
/// every square of a laid tile lands inside the field on a cell the grid
/// gives to that tile, and every cell is given to a laid tile with a square
/// on it. So every cell has exactly one tile, and no two tiles overlap.
pub open spec fn exact_cover(w: int, h: int, tiles: Seq<Tile>, grid: Seq<usize>, layout: Seq<Option<TilePlacementOnField>>) -> bool {
    &&& grid.len() == w * h
    &&& layout.len() == tiles.len()
    &&& forall|t: int, i: int|
        0 <= t < tiles.len() && layout[t] is Some && 0 <= i < tiles[t].squares@.len() ==> {
            let p = #[trigger] square_cell(tiles[t], layout[t]->Some_0, i);
            &&& 0 <= p.0 < w
            &&& 0 <= p.1 < h
            &&& grid[p.1 * w + p.0] == t
        }
    &&& forall|c: int| 0 <= c < w * h ==> {
        let t = #[trigger] grid[c] as int;
        &&& t < tiles.len()
        &&& layout[t] is Some
        &&& exists|i: int| 0 <= i < tiles[t].squares@.len() && {
            let p = #[trigger] square_cell(tiles[t], layout[t]->Some_0, i);
            p.1 * w + p.0 == c
        }
    }
}

/// `layout` lays every tile on the field, anchored by one of its squares and
/// turned by one of its rotations.
pub open spec fn uses_every_tile(tiles: Seq<Tile>, layout: Seq<Option<TilePlacementOnField>>) -> bool {
    &&& layout.len() == tiles.len()
    &&& forall|t: int| 0 <= t < tiles.len() ==> {
        &&& (#[trigger] layout[t]) is Some
        &&& (layout[t]->Some_0).square_id < tiles[t].squares@.len()
        &&& tiles[t].valid_rotation((layout[t]->Some_0).rotation as int)
    }
}

/// An exact cover that uses every tile is a layout of the unplaced tiles of
/// a fresh search.
proof fn lemma_cover_lays_out(p: Packing, grid: Seq<usize>, layout: Seq<Option<TilePlacementOnField>>)
    requires
        p.wf(),
        forall|t: int| 0 <= t < p.tiles@.len() ==> !(#[trigger] p.tiles@[t]).placed,
        forall|c: int| 0 <= c < p.cells() ==> #[trigger] p.is_open(c),
        exact_cover(p.width as int, p.height as int, p.tiles@, grid, layout),
        uses_every_tile(p.tiles@, layout),
    ensures
        p.can_finish(),
{
    let w = p.width as int;
    let h = p.height as int;
    assert forall|t: int| 0 <= t < p.tiles@.len() && !p.tiles@[t].placed implies {
        &&& (#[trigger] layout[t]) is Some
        &&& p.on_field_ok(t, layout[t]->Some_0)
        &&& p.fits(t, (layout[t]->Some_0).square_id as int, (layout[t]->Some_0).rotation as int,
            (layout[t]->Some_0).x as int, (layout[t]->Some_0).y as int)
    } by {
        let q = layout[t]->Some_0;
        let a = q.square_id as int;
        assert(square_cell(p.tiles@[t], q, a) == (q.x as int, q.y as int));
        assert forall|i: int| 0 <= i < p.tile_len(t) implies
            #[trigger] p.lands_open(t, a, q.rotation as int, q.x as int, q.y as int, i) by {
            let c = square_cell(p.tiles@[t], q, i);
            lemma_cell_index(c.0, c.1, w, h);
        }
    }
    assert forall|t1: int, t2: int, c: int|
        0 <= t1 < p.tiles@.len() && 0 <= t2 < p.tiles@.len() && t1 != t2
            && !p.tiles@[t1].placed && !p.tiles@[t2].placed
            && #[trigger] p.covers(t1, layout[t1]->Some_0, c) implies !#[trigger] p.covers(t2, layout[t2]->Some_0, c) by {
        let i1 = choose|i: int| 0 <= i < p.tile_len(t1) && p.index_of(#[trigger] p.covered(t1, layout[t1]->Some_0, i)) == c;
        assert(square_cell(p.tiles@[t1], layout[t1]->Some_0, i1) == p.covered(t1, layout[t1]->Some_0, i1));
        assert(grid[c] == t1);
        if p.covers(t2, layout[t2]->Some_0, c) {
            let i2 = choose|i: int| 0 <= i < p.tile_len(t2) && p.index_of(#[trigger] p.covered(t2, layout[t2]->Some_0, i)) == c;
            assert(square_cell(p.tiles@[t2], layout[t2]->Some_0, i2) == p.covered(t2, layout[t2]->Some_0, i2));
            assert(grid[c] == t2);
        }
    }
    assert forall|c: int| 0 <= c < p.cells() && p.is_open(c) implies exists|t: int|
        0 <= t < p.tiles@.len() && !p.tiles@[t].placed && #[trigger] p.covers(t, layout[t]->Some_0, c) by {
        let t = grid[c] as int;
        let i = choose|i: int| 0 <= i < p.tiles@[t].squares@.len() && {
            let q = #[trigger] square_cell(p.tiles@[t], layout[t]->Some_0, i);
            q.1 * w + q.0 == c
        };
        assert(square_cell(p.tiles@[t], layout[t]->Some_0, i) == p.covered(t, layout[t]->Some_0, i));
        assert(p.covers(t, layout[t]->Some_0, c));
    }
    assert(p.lays_out(layout));
}

/// Searches for a way to cover a `width` by `height` field with the given
/// tiles, each used at most once. Returns the tile of each cell, row by row:
/// an exact cover of the field by the tiles laid on it.
pub fn solve(width: usize, height: usize, tiles: Vec<Tile>) -> (r: Option<Vec<usize>>)
    requires
        width <= MAX_SIDE,
        height <= MAX_SIDE,
        width * height <= usize::MAX,
        forall|t: int| 0 <= t < tiles@.len() ==> (#[trigger] tiles@[t]).wf() && !tiles@[t].placed,
    ensures
        r is Some ==> exists|layout: Seq<Option<TilePlacementOnField>>|
            exact_cover(width as int, height as int, tiles@, r->Some_0@, layout),
        (exists|grid: Seq<usize>, layout: Seq<Option<TilePlacementOnField>>|
            exact_cover(width as int, height as int, tiles@, grid, layout) && uses_every_tile(tiles@, layout))
            ==> r is Some,
{
    let ghost shapes = tiles@;
    let mut p = Packing::new(width, height, tiles);
    let ghost p0 = p;
    proof {
        if exists|grid: Seq<usize>, layout: Seq<Option<TilePlacementOnField>>|
            exact_cover(width as int, height as int, shapes, grid, layout) && uses_every_tile(shapes, layout) {
            let (grid, layout) = choose|grid: Seq<usize>, layout: Seq<Option<TilePlacementOnField>>|
                exact_cover(width as int, height as int, shapes, grid, layout) && uses_every_tile(shapes, layout);
            lemma_cover_lays_out(p0, grid, layout);
        }
    }
    if !p.search() {
        return None;
    }
    let mut grid: Vec<usize> = Vec::new();
    let cells = width * height;
    let mut c: usize = 0;
    while c < cells
        invariant
            p.wf(),
            p.is_solved(),
            cells == p.cells(),
            c <= cells,
            grid@.len() == c,
            forall|k: int| 0 <= k < c ==> Some(#[trigger] grid@[k]) == p.occupancy@[k],
        decreases cells - c,
    {
        assert(p.occupancy@[c as int] is Some);
        let t = match p.occupancy[c] {
            Some(t) => t,
            None => 0,
        };
        grid.push(t);
        c += 1;
    }
    proof {
        let layout = p.layout@;
        lemma_same_geometry(p0, p);
        assert forall|t: int, i: int|
            0 <= t < shapes.len() && layout[t] is Some && 0 <= i < shapes[t].squares@.len() implies {
                let q = #[trigger] square_cell(shapes[t], layout[t]->Some_0, i);
                &&& 0 <= q.0 < width
                &&& 0 <= q.1 < height
                &&& grid@[q.1 * width + q.0] == t
            } by {
            let q = layout[t]->Some_0;
            assert(square_cell(shapes[t], q, i) == p0.covered(t, q, i));
            assert(p.inside(t, q));
            assert(p.in_field(p.covered(t, q, i)));
            let cell = p.index_of(p.covered(t, q, i));
            assert(p.covers(t, q, cell));
            crate::field::lemma_cell_index(p.covered(t, q, i).0, p.covered(t, q, i).1, width as int, height as int);
            assert(p.occupancy@[cell] == Some(t as usize));
            assert(Some(grid@[cell]) == p.occupancy@[cell]);
        }
        assert forall|c: int| 0 <= c < width * height implies {
            let t = #[trigger] grid@[c] as int;
            &&& t < shapes.len()
            &&& layout[t] is Some
            &&& exists|i: int| 0 <= i < shapes[t].squares@.len() && {
                let q = #[trigger] square_cell(shapes[t], layout[t]->Some_0, i);
                q.1 * width + q.0 == c
            }
        } by {
            assert(Some(grid@[c]) == p.occupancy@[c]);
            assert(p.occupancy@[c] is Some);
            let t = grid@[c] as int;
            let q = layout[t]->Some_0;
            assert(p.covers(t, q, c));
            let i = choose|i: int| 0 <= i < p.tile_len(t) && p.index_of(#[trigger] p.covered(t, q, i)) == c;
            assert(square_cell(shapes[t], q, i) == p0.covered(t, q, i));
        }
        assert(shapes == tiles@);
    }
    let ghost g = grid@;
    let r = Some(grid);
    assert(r->Some_0@ == g);
    assert(exact_cover(width as int, height as int, tiles@, g, p.layout@));
    assert(exists|l: Seq<Option<TilePlacementOnField>>| exact_cover(width as int, height as int, tiles@, r->Some_0@, l));
    r
}

/// The letter that names tile `id`: `A` for the first.
pub open spec fn letter(id: int) -> char {
    ((65 + id) as u8) as char
}

/// The rows of a solved grid `width` cells wide, each cell written as the
/// letter of its tile.
pub fn render(grid: &Vec<usize>, width: usize, height: usize) -> (rows: Vec<Vec<char>>)
    requires
        grid@.len() == width * height,
        forall|c: int| 0 <= c < grid@.len() ==> #[trigger] grid@[c] < 26,
    ensures
        rows@.len() == height,
        forall|y: int| 0 <= y < height ==> (#[trigger] rows@[y])@.len() == width,
        forall|y: int, x: int| 0 <= y < height && 0 <= x < width ==>
            (#[trigger] rows@[y]@[x]) == letter(grid@[y * width + x] as int),
{
    let n = grid.len();
    let mut rows: Vec<Vec<char>> = Vec::new();
    let mut y: usize = 0;
    while y < height
        invariant
            n == grid@.len(),
            grid@.len() == width * height,
            forall|c: int| 0 <= c < grid@.len() ==> #[trigger] grid@[c] < 26,
            y <= height,
            rows@.len() == y,
            forall|v: int| 0 <= v < y ==> (#[trigger] rows@[v])@.len() == width,
            forall|v: int, x: int| 0 <= v < y && 0 <= x < width ==>
                (#[trigger] rows@[v]@[x]) == letter(grid@[v * width + x] as int),
        decreases height - y,
    {
        let mut row: Vec<char> = Vec::new();
        let mut x: usize = 0;
        while x < width
            invariant
                n == grid@.len(),
                grid@.len() == width * height,
                forall|c: int| 0 <= c < grid@.len() ==> #[trigger] grid@[c] < 26,
                y < height,
                rows@.len() == y,
                forall|v: int| 0 <= v < y ==> (#[trigger] rows@[v])@.len() == width,
                forall|v: int, x: int| 0 <= v < y && 0 <= x < width ==>
                    (#[trigger] rows@[v]@[x]) == letter(grid@[v * width + x] as int),
                x <= width,
                row@.len() == x,
                forall|u: int| 0 <= u < x ==> #[trigger] row@[u] == letter(grid@[y * width + u] as int),
            decreases width - x,
        {
            proof {
                crate::field::lemma_cell_index(x as int, y as int, width as int, height as int);
            }
            let id = grid[y * width + x];
            row.push(((65 + id) as u8) as char);
            x += 1;
        }
        rows.push(row);
        y += 1;
    }
    rows
}

} // verus!
