use vstd::prelude::*;
use crate::tile::{Tile, lemma_turn_injective, point, quarter_turns_of};

verus! {

/// The largest field side the search accepts.
pub const MAX_SIDE: usize = 0x7fff_ffff;

/// A candidate occupant of one cell: square `square_id` of tile `id`, with
/// the whole tile turned by `rotation`.
#[derive(Clone, Copy, PartialEq, Eq, Debug, Structural)]
pub struct SquareAllocation {
    pub id: usize,
    pub square_id: usize,
    pub rotation: u8,
}

/// A tile laid on the field: square `square_id` at cell `(x, y)`, the tile
/// turned by `rotation`.
#[derive(Clone, Copy, PartialEq, Eq, Debug, Structural)]
pub struct TilePlacementOnField {
    pub square_id: usize,
    pub x: usize,
    pub y: usize,
    pub rotation: u8,
}

/// One way to settle a tile: on the field, or left off it.
#[derive(Clone, Copy, PartialEq, Eq, Debug, Structural)]
pub enum TilePlacement {
    OnField(TilePlacementOnField),
    OffField,
}

/// The state of a search: the field, row by row, with a candidate list for
/// each open cell and `None` for each filled one; which tile fills each cell;
/// the placement options found for each tile; and, as a model, where each
/// tile laid on the field was put.
pub struct Packing {
    pub width: usize,
    pub height: usize,
    pub tiles: Vec<Tile>,
    pub field: Vec<Option<Vec<SquareAllocation>>>,
    pub occupancy: Vec<Option<usize>>,
    pub options: Vec<Vec<TilePlacement>>,
    pub layout: Ghost<Seq<Option<TilePlacementOnField>>>,
}

/// Where square `i` of tile `tile` lands when square `a` is anchored at
/// `(x, y)` and the tile is turned by `r`.
pub open spec fn target(tile: Tile, a: int, r: int, x: int, y: int, i: int) -> (int, int) {
    (
        x + tile.rotated(i, r).0 - tile.rotated(a, r).0,
        y + tile.rotated(i, r).1 - tile.rotated(a, r).1,
    )
}

pub proof fn lemma_target_injective(tile: Tile, a: int, r: int, x: int, y: int, i: int, j: int)
    requires
        tile.wf(),
        0 <= i < tile.squares@.len(),
        0 <= j < tile.squares@.len(),
        target(tile, a, r, x, y, i) == target(tile, a, r, x, y, j),
    ensures
        i == j,
{
    lemma_turn_injective(
        point(tile.squares@[i]),
        point(tile.squares@[j]),
        quarter_turns_of(tile.rot_sym, r),
    );
    if i < j {
        assert(tile.squares@[i] != tile.squares@[j]);
    } else if j < i {
        assert(tile.squares@[j] != tile.squares@[i]);
    }
}

impl Packing {
    pub open spec fn cells(&self) -> int {
        self.width * self.height
    }

    pub open spec fn in_field(&self, p: (int, int)) -> bool {
        0 <= p.0 < self.width && 0 <= p.1 < self.height
    }

    /// The index of a cell in the row-by-row grids.
    pub open spec fn index_of(&self, p: (int, int)) -> int {
        p.1 * self.width + p.0
    }

    /// The candidate list of an open cell.
    pub open spec fn list_at(&self, c: int) -> Seq<SquareAllocation> {
        self.field@[c]->Some_0@
    }

    pub open spec fn is_open(&self, c: int) -> bool {
        self.field@[c] is Some
    }

    pub open spec fn tile_len(&self, t: int) -> int {
        self.tiles@[t].squares@.len() as int
    }

    /// Square `i` of tile `t` lands on an open cell of the field.
    pub open spec fn lands_open(&self, t: int, a: int, r: int, x: int, y: int, i: int) -> bool {
        let p = target(self.tiles@[t], a, r, x, y, i);
        self.in_field(p) && self.is_open(self.index_of(p))
    }

    /// Every square of tile `t`, anchored by square `a` at `(x, y)` and
    /// turned by `r`, lands on an open cell of the field.
    pub open spec fn fits(&self, t: int, a: int, r: int, x: int, y: int) -> bool {
        forall|i: int| 0 <= i < self.tile_len(t) ==> #[trigger] self.lands_open(t, a, r, x, y, i)
    }

    pub open spec fn allocation_ok(&self, s: SquareAllocation) -> bool {
        &&& s.id < self.tiles@.len()
        &&& s.square_id < self.tile_len(s.id as int)
        &&& self.tiles@[s.id as int].valid_rotation(s.rotation as int)
    }

    pub open spec fn on_field_ok(&self, t: int, q: TilePlacementOnField) -> bool {
        &&& q.square_id < self.tile_len(t)
        &&& self.tiles@[t].valid_rotation(q.rotation as int)
        &&& q.x < self.width
        &&& q.y < self.height
    }

    pub open spec fn placement_ok(&self, t: int, p: TilePlacement) -> bool {
        match p {
            TilePlacement::OnField(q) => self.on_field_ok(t, q),
            TilePlacement::OffField => true,
        }
    }

    /// The cell that square `i` of tile `t` covers under placement `q`.
    pub open spec fn covered(&self, t: int, q: TilePlacementOnField, i: int) -> (int, int) {
        target(self.tiles@[t], q.square_id as int, q.rotation as int, q.x as int, q.y as int, i)
    }

    /// One of the first `n` squares of tile `t` covers the cell of index `c`
    /// under placement `q`.
    pub open spec fn covers_first(&self, t: int, q: TilePlacementOnField, c: int, n: int) -> bool {
        exists|i: int| 0 <= i < n && self.index_of(#[trigger] self.covered(t, q, i)) == c
    }

    /// Placement `q` of tile `t` covers the cell of index `c`.
    pub open spec fn covers(&self, t: int, q: TilePlacementOnField, c: int) -> bool {
        self.covers_first(t, q, c, self.tile_len(t))
    }

    /// Candidate `s` anchored at `(x, y)`, as a placement of its tile.
    pub open spec fn anchored(s: SquareAllocation, x: usize, y: usize) -> TilePlacementOnField {
        TilePlacementOnField { square_id: s.square_id, x, y, rotation: s.rotation }
    }

    /// The candidate of square `i` of the tile that `s` names, in the same
    /// rotation.
    pub open spec fn sibling(s: SquareAllocation, i: int) -> SquareAllocation {
        SquareAllocation { id: s.id, square_id: i as usize, rotation: s.rotation }
    }

    /// Every square of tile `t` lies inside the field under placement `q`.
    pub open spec fn inside(&self, t: int, q: TilePlacementOnField) -> bool {
        forall|i: int| 0 <= i < self.tile_len(t) ==> self.in_field(#[trigger] self.covered(t, q, i))
    }

    /// The grids have one entry per cell, a cell is filled exactly when a tile
    /// occupies it, every recorded candidate and option names a real square
    /// and rotation, and the occupied cells are exactly those covered by the
    /// tiles laid on the field.
    pub open spec fn wf(&self) -> bool {
        &&& self.width <= MAX_SIDE
        &&& self.height <= MAX_SIDE
        &&& self.cells() <= usize::MAX
        &&& self.tiles@.len() <= usize::MAX
        &&& self.field@.len() == self.cells()
        &&& self.occupancy@.len() == self.cells()
        &&& self.options@.len() == self.tiles@.len()
        &&& self.layout@.len() == self.tiles@.len()
        &&& forall|t: int| 0 <= t < self.tiles@.len() ==> (#[trigger] self.tiles@[t]).wf()
        &&& forall|c: int| 0 <= c < self.cells() ==> (#[trigger] self.field@[c] is None <==> self.occupancy@[c] is Some)
        &&& forall|c: int, k: int|
            0 <= c < self.cells() && self.field@[c] is Some && 0 <= k < self.list_at(c).len()
                ==> self.allocation_ok(#[trigger] self.list_at(c)[k])
        &&& forall|t: int, k: int|
            0 <= t < self.tiles@.len() && 0 <= k < self.options@[t]@.len()
                ==> self.placement_ok(t, #[trigger] self.options@[t]@[k])
        &&& forall|t: int|
            0 <= t < self.tiles@.len() && (#[trigger] self.layout@[t]) is Some ==> {
                &&& self.tiles@[t].placed
                &&& self.on_field_ok(t, self.layout@[t]->Some_0)
                &&& self.inside(t, self.layout@[t]->Some_0)
            }
        &&& forall|c: int|
            0 <= c < self.cells() && (#[trigger] self.occupancy@[c]) is Some ==> {
                let t = self.occupancy@[c]->Some_0 as int;
                &&& t < self.tiles@.len()
                &&& self.layout@[t] is Some
                &&& self.covers(t, self.layout@[t]->Some_0, c)
            }
        &&& forall|t: int, c: int|
            0 <= t < self.tiles@.len() && 0 <= c < self.cells() && self.layout@[t] is Some
                && #[trigger] self.covers(t, self.layout@[t]->Some_0, c)
                ==> self.occupancy@[c] == Some(t as usize)
    }

    /// The index of the cell where square `i` lands, anchored by square `a` at
    /// `(x, y)` and turned by `r`; `None` where it falls outside the field.
    pub fn target_cell(&self, t: usize, a: usize, r: u8, x: usize, y: usize, i: usize) -> (c: Option<usize>)
        requires
            self.wf(),
            t < self.tiles@.len(),
            a < self.tile_len(t as int),
            i < self.tile_len(t as int),
            self.tiles@[t as int].valid_rotation(r as int),
            x < self.width,
            y < self.height,
        ensures
            c is Some <==> self.in_field(target(self.tiles@[t as int], a as int, r as int, x as int, y as int, i as int)),
            c matches Some(k) ==> k == self.index_of(target(self.tiles@[t as int], a as int, r as int, x as int, y as int, i as int))
                && k < self.cells(),
    {
        let tile = &self.tiles[t];
        assert(self.tiles@[t as int].wf());
        let anchor = tile.get_square_rotated(a, r);
        let cur = tile.get_square_rotated(i, r);
        let tx: i64 = x as i64 + cur.0 as i64 - anchor.0 as i64;
        let ty: i64 = y as i64 + cur.1 as i64 - anchor.1 as i64;
        if tx < 0 || ty < 0 || tx >= self.width as i64 || ty >= self.height as i64 {
            return None;
        }
        let cx = tx as usize;
        let cy = ty as usize;
        proof {
            lemma_cell_index(cx as int, cy as int, self.width as int, self.height as int);
        }
        Some(cy * self.width + cx)
    }
}

/// A cell inside the field has an index inside the grid.
pub proof fn lemma_cell_index(x: int, y: int, w: int, h: int)
    requires
        0 <= x < w,
        0 <= y < h,
    ensures
        0 <= y * w + x < w * h,
{
    assert(y * w <= (h - 1) * w) by (nonlinear_arith)
        requires
            0 <= y < h,
            0 <= w,
    ;
    assert((h - 1) * w + w == h * w) by (nonlinear_arith);
    assert(0 <= y * w) by (nonlinear_arith)
        requires
            0 <= y,
            0 <= w,
    ;
}

/// Two cells inside the field with one index are one cell.
pub proof fn lemma_cell_index_injective(p: (int, int), q: (int, int), w: int)
    requires
        0 <= p.0 < w,
        0 <= q.0 < w,
        0 <= p.1,
        0 <= q.1,
        p.1 * w + p.0 == q.1 * w + q.0,
    ensures
        p == q,
{
    if p.1 < q.1 {
        assert(p.1 * w + w <= q.1 * w) by (nonlinear_arith)
            requires
                p.1 < q.1,
                0 <= w,
        ;
    } else if q.1 < p.1 {
        assert(q.1 * w + w <= p.1 * w) by (nonlinear_arith)
            requires
                q.1 < p.1,
                0 <= w,
        ;
    }
}

/// Two tile lists that differ at most in which tiles are placed.
pub open spec fn same_shapes(a: Seq<Tile>, b: Seq<Tile>) -> bool {
    &&& a.len() == b.len()
    &&& forall|t: int| 0 <= t < a.len() ==> (#[trigger] a[t]).squares@ == b[t].squares@ && a[t].rot_sym == b[t].rot_sym
}

/// The geometry of a state depends on its size and its tiles alone.
pub proof fn lemma_same_geometry(a: Packing, b: Packing)
    requires
        a.width == b.width,
        a.height == b.height,
        same_shapes(a.tiles@, b.tiles@),
    ensures
        forall|t: int, i: int, r: int| 0 <= t < a.tiles@.len() ==>
            #[trigger] b.tiles@[t].rotated(i, r) == a.tiles@[t].rotated(i, r),
        forall|t: int, q: TilePlacementOnField, i: int| 0 <= t < a.tiles@.len() ==> #[trigger] b.covered(t, q, i) == a.covered(t, q, i),
        forall|t: int, q: TilePlacementOnField, c: int| 0 <= t < a.tiles@.len() ==> #[trigger] b.covers(t, q, c) == a.covers(t, q, c),
        forall|t: int, q: TilePlacementOnField| 0 <= t < a.tiles@.len() ==> #[trigger] b.inside(t, q) == a.inside(t, q),
        forall|t: int, q: TilePlacementOnField| 0 <= t < a.tiles@.len() ==> #[trigger] b.on_field_ok(t, q) == a.on_field_ok(t, q),
        forall|s: SquareAllocation| #[trigger] b.allocation_ok(s) == a.allocation_ok(s),
        forall|t: int, p: TilePlacement| 0 <= t < a.tiles@.len() ==> #[trigger] b.placement_ok(t, p) == a.placement_ok(t, p),
{
    assert forall|t: int, q: TilePlacementOnField, i: int| 0 <= t < a.tiles@.len() implies #[trigger] b.covered(t, q, i) == a.covered(t, q, i) by {
        assert(a.tiles@[t].squares@ == b.tiles@[t].squares@);
    }
    assert forall|t: int, q: TilePlacementOnField, c: int| 0 <= t < a.tiles@.len() implies #[trigger] b.covers(t, q, c) == a.covers(t, q, c) by {
        if b.covers(t, q, c) {
            let i = choose|i: int| 0 <= i < b.tile_len(t) && b.index_of(#[trigger] b.covered(t, q, i)) == c;
            assert(a.index_of(a.covered(t, q, i)) == c);
        }
        if a.covers(t, q, c) {
            let i = choose|i: int| 0 <= i < a.tile_len(t) && a.index_of(#[trigger] a.covered(t, q, i)) == c;
            assert(b.index_of(b.covered(t, q, i)) == c);
        }
    }
    assert forall|t: int, q: TilePlacementOnField| 0 <= t < a.tiles@.len() implies #[trigger] b.inside(t, q) == a.inside(t, q) by {
        if b.inside(t, q) {
            assert forall|i: int| 0 <= i < a.tile_len(t) implies a.in_field(#[trigger] a.covered(t, q, i)) by {
                assert(b.in_field(b.covered(t, q, i)));
            }
        }
        if a.inside(t, q) {
            assert forall|i: int| 0 <= i < b.tile_len(t) implies b.in_field(#[trigger] b.covered(t, q, i)) by {
                assert(a.in_field(a.covered(t, q, i)));
            }
        }
    }
    assert forall|t: int, q: TilePlacementOnField| 0 <= t < a.tiles@.len() implies #[trigger] b.on_field_ok(t, q) == a.on_field_ok(t, q) by {
        assert(a.tiles@[t].squares@ == b.tiles@[t].squares@);
    }
    assert forall|s: SquareAllocation| #[trigger] b.allocation_ok(s) == a.allocation_ok(s) by {
        if s.id < a.tiles@.len() {
            assert(a.tiles@[s.id as int].squares@ == b.tiles@[s.id as int].squares@);
        }
    }
}

/// A state that differs from a well-formed one only in its candidate lists
/// and its options, where these still name real squares and rotations, is
/// well formed.
pub proof fn lemma_wf_frame(a: Packing, b: Packing)
    requires
        a.wf(),
        a.width == b.width,
        a.height == b.height,
        same_shapes(a.tiles@, b.tiles@),
        forall|t: int| 0 <= t < a.tiles@.len() && a.layout@[t] is Some ==> (#[trigger] b.tiles@[t]).placed,
        a.occupancy@ == b.occupancy@,
        a.layout@ == b.layout@,
        b.field@.len() == a.field@.len(),
        b.options@.len() == a.options@.len(),
        forall|c: int| 0 <= c < a.cells() ==> (#[trigger] b.field@[c] is Some) == (a.field@[c] is Some),
        forall|c: int, k: int|
            0 <= c < b.cells() && b.field@[c] is Some && 0 <= k < b.list_at(c).len()
                ==> b.allocation_ok(#[trigger] b.list_at(c)[k]),
        forall|t: int, k: int|
            0 <= t < b.tiles@.len() && 0 <= k < b.options@[t]@.len()
                ==> b.placement_ok(t, #[trigger] b.options@[t]@[k]),
    ensures
        b.wf(),
{
    lemma_same_geometry(a, b);
    assert forall|c: int| 0 <= c < b.cells() && (#[trigger] b.occupancy@[c]) is Some implies {
        let t = b.occupancy@[c]->Some_0 as int;
        &&& t < b.tiles@.len()
        &&& b.layout@[t] is Some
        &&& b.covers(t, b.layout@[t]->Some_0, c)
    } by {
        assert(a.occupancy@[c] is Some);
    }
    assert forall|t: int| 0 <= t < b.tiles@.len() && (#[trigger] b.layout@[t]) is Some implies {
        &&& b.tiles@[t].placed
        &&& b.on_field_ok(t, b.layout@[t]->Some_0)
        &&& b.inside(t, b.layout@[t]->Some_0)
    } by {
        assert(a.layout@[t] is Some);
    }
    assert forall|t: int| 0 <= t < b.tiles@.len() implies (#[trigger] b.tiles@[t]).wf() by {
        assert(a.tiles@[t].wf());
        assert(a.tiles@[t].squares@ == b.tiles@[t].squares@);
    }
}

/// Two placements of `tile` put every square on the same cell.
pub open spec fn same_cells(tile: Tile, q1: TilePlacementOnField, q2: TilePlacementOnField) -> bool {
    forall|j: int| 0 <= j < tile.squares@.len() ==>
        #[trigger] target(tile, q1.square_id as int, q1.rotation as int, q1.x as int, q1.y as int, j)
            == target(tile, q2.square_id as int, q2.rotation as int, q2.x as int, q2.y as int, j)
}

impl Packing {
    /// Tile `t` has an option on the field that puts every square where `q`
    /// does.
    pub open spec fn has_option(&self, t: int, q: TilePlacementOnField) -> bool {
        exists|k: int| 0 <= k < self.options@[t]@.len() && (#[trigger] self.options@[t]@[k]) is OnField
            && same_cells(self.tiles@[t], q, self.options@[t]@[k]->OnField_0)
    }
}

/// `b` keeps every option of `a`, in place, and may have more.
pub open spec fn options_grow(a: Packing, b: Packing) -> bool {
    &&& b.options@.len() == a.options@.len()
    &&& forall|t: int| 0 <= t < a.options@.len() ==> (#[trigger] b.options@[t])@.len() >= a.options@[t]@.len()
    &&& forall|t: int, k: int| 0 <= t < a.options@.len() && 0 <= k < a.options@[t]@.len()
        ==> #[trigger] b.options@[t]@[k] == a.options@[t]@[k]
}

pub proof fn lemma_options_grow_trans(a: Packing, b: Packing, c: Packing)
    requires
        options_grow(a, b),
        options_grow(b, c),
    ensures
        options_grow(a, c),
{
    assert forall|t: int, k: int| 0 <= t < a.options@.len() && 0 <= k < a.options@[t]@.len()
        implies #[trigger] c.options@[t]@[k] == a.options@[t]@[k] by {
        assert(b.options@[t]@[k] == a.options@[t]@[k]);
    }
}

/// An option kept is still there.
pub proof fn lemma_has_option_grow(a: Packing, b: Packing, t: int, q: TilePlacementOnField)
    requires
        options_grow(a, b),
        a.tiles@ == b.tiles@,
        0 <= t < a.options@.len(),
        a.has_option(t, q),
    ensures
        b.has_option(t, q),
{
    let k = choose|k: int| 0 <= k < a.options@[t]@.len() && (#[trigger] a.options@[t]@[k]) is OnField
        && same_cells(a.tiles@[t], q, a.options@[t]@[k]->OnField_0);
    assert(b.options@[t]@[k] == a.options@[t]@[k]);
}

/// Anchoring square `j` at the cell where square `i` lands covers the same
/// cells as the first anchoring.
pub proof fn lemma_shift_anchor(tile: Tile, a: int, r: int, x: int, y: int, j: int, i: int)
    ensures
        ({
            let p = target(tile, a, r, x, y, j);
            target(tile, j, r, p.0, p.1, i) == target(tile, a, r, x, y, i)
        }),
{
}

/// What registering a fresh candidate does to the candidate lists: the
/// candidate is listed at its cell, nothing listed is lost, and every new
/// entry is a placement of the same tile that fits at its own cell.
proof fn lemma_register_facts(pre: Packing, post: Packing, x: usize, y: usize, s: SquareAllocation)
    requires
        pre.wf(),
        x < pre.width,
        y < pre.height,
        pre.allocation_ok(s),
        pre.fits(s.id as int, s.square_id as int, s.rotation as int, x as int, y as int),
        post.width == pre.width,
        post.height == pre.height,
        post.tiles@ == pre.tiles@,
        post.field@.len() == pre.field@.len(),
        forall|j: int| 0 <= j < pre.tile_len(s.id as int) ==> {
            let k = pre.index_of(#[trigger] pre.covered(s.id as int, Packing::anchored(s, x, y), j));
            &&& post.field@[k] is Some
            &&& post.list_at(k) == pre.list_at(k).push(Packing::sibling(s, j))
        },
        forall|k: int| 0 <= k < pre.cells() && !pre.covers(s.id as int, Packing::anchored(s, x, y), k)
            ==> post.field@[k] == pre.field@[k],
    ensures
        post.field@[pre.index_of((x as int, y as int))] is Some,
        post.list_at(pre.index_of((x as int, y as int))).contains(s),
        forall|k: int, e: SquareAllocation|
            0 <= k < pre.cells() && pre.is_open(k) && pre.list_at(k).contains(e)
                ==> #[trigger] post.list_at(k).contains(e),
        forall|x2: int, y2: int, e: SquareAllocation|
            0 <= x2 < pre.width && 0 <= y2 < pre.height && pre.is_open(pre.index_of((x2, y2)))
                && #[trigger] post.list_at(pre.index_of((x2, y2))).contains(e)
                && !pre.list_at(pre.index_of((x2, y2))).contains(e)
                ==> e.id == s.id && pre.fits(e.id as int, e.square_id as int, e.rotation as int, x2, y2)
                    && same_cells(pre.tiles@[e.id as int], Packing::anchored(e, x2 as usize, y2 as usize), Packing::anchored(s, x, y)),
{
    let t = s.id as int;
    let a = s.square_id as int;
    let r = s.rotation as int;
    let q = Packing::anchored(s, x, y);
    let tile = pre.tiles@[t];
    // The anchor square covers the anchor cell.
    assert(pre.covered(t, q, a) == (x as int, y as int));
    let c = pre.index_of((x as int, y as int));
    assert(post.list_at(c) == pre.list_at(c).push(Packing::sibling(s, a)));
    assert(Packing::sibling(s, a) == s);
    assert(post.list_at(c)[pre.list_at(c).len() as int] == s);
    assert forall|k: int, e: SquareAllocation|
        0 <= k < pre.cells() && pre.is_open(k) && pre.list_at(k).contains(e)
            implies #[trigger] post.list_at(k).contains(e) by {
        let m = choose|m: int| 0 <= m < pre.list_at(k).len() && pre.list_at(k)[m] == e;
        if pre.covers(t, q, k) {
            let j = choose|j: int| 0 <= j < pre.tile_len(t) && pre.index_of(#[trigger] pre.covered(t, q, j)) == k;
            assert(post.list_at(k)[m] == e);
        }
    }
    assert forall|x2: int, y2: int, e: SquareAllocation|
        0 <= x2 < pre.width && 0 <= y2 < pre.height && pre.is_open(pre.index_of((x2, y2)))
            && #[trigger] post.list_at(pre.index_of((x2, y2))).contains(e)
            && !pre.list_at(pre.index_of((x2, y2))).contains(e)
            implies e.id == s.id && pre.fits(e.id as int, e.square_id as int, e.rotation as int, x2, y2)
                && same_cells(pre.tiles@[e.id as int], Packing::anchored(e, x2 as usize, y2 as usize), Packing::anchored(s, x, y)) by {
        let k = pre.index_of((x2, y2));
        lemma_cell_index(x2, y2, pre.width as int, pre.height as int);
        if !pre.covers(t, q, k) {
            assert(post.field@[k] == pre.field@[k]);
        }
        let j = choose|j: int| 0 <= j < pre.tile_len(t) && pre.index_of(#[trigger] pre.covered(t, q, j)) == k;
        let m = choose|m: int| 0 <= m < post.list_at(k).len() && post.list_at(k)[m] == e;
        if m < pre.list_at(k).len() {
            assert(pre.list_at(k)[m] == e);
        }
        assert(e == Packing::sibling(s, j));
        assert(tile.squares.len() == tile.squares@.len());
        assert(e.square_id as int == j);
        let p = pre.covered(t, q, j);
        assert(pre.lands_open(t, a, r, x as int, y as int, j));
        assert(p == target(tile, a, r, x as int, y as int, j));
        lemma_cell_index_injective(p, (x2, y2), pre.width as int);
        assert forall|i: int| 0 <= i < pre.tile_len(t) implies #[trigger] pre.lands_open(t, j, r, x2, y2, i) by {
            lemma_shift_anchor(tile, a, r, x as int, y as int, j, i);
            assert(pre.lands_open(t, a, r, x as int, y as int, i));
        }
        assert forall|i: int| 0 <= i < tile.squares@.len() implies
            #[trigger] target(tile, j, r, x2, y2, i) == target(tile, a, r, x as int, y as int, i) by {
            lemma_shift_anchor(tile, a, r, x as int, y as int, j, i);
        }
    }
}

impl Packing {
    /// Checks candidate `s` at cell `(x, y)` against the current partial
    /// solution. The cell must be open; a candidate already registered there
    /// is accepted as it stands; otherwise every square of the tile must land
    /// inside the field on an open cell, and then each covered cell gets the
    /// candidate of the square that covers it, and the tile gets the
    /// placement as an option.
    pub fn try_place(&mut self, x: usize, y: usize, s: SquareAllocation) -> (r: bool)
        requires
            old(self).wf(),
            x < old(self).width,
            y < old(self).height,
            old(self).allocation_ok(s),
        ensures
            final(self).wf(),
            final(self).width == old(self).width,
            final(self).height == old(self).height,
            final(self).tiles@ == old(self).tiles@,
            final(self).occupancy@ == old(self).occupancy@,
            final(self).layout@ == old(self).layout@,
            ({
                let c = old(self).index_of((x as int, y as int));
                let q = Packing::anchored(s, x, y);
                let t = s.id as int;
                let fresh = old(self).is_open(c) && !old(self).list_at(c).contains(s);
                &&& r == (old(self).is_open(c) && (old(self).list_at(c).contains(s)
                    || old(self).fits(t, s.square_id as int, s.rotation as int, x as int, y as int)))
                &&& r ==> final(self).field@[c] is Some && final(self).list_at(c).contains(s)
                &&& !(r && fresh) ==> final(self).field@ == old(self).field@
                    && final(self).options@ == old(self).options@
                &&& r && fresh ==> {
                    &&& forall|i: int| 0 <= i < old(self).tile_len(t) ==> {
                        let k = old(self).index_of(#[trigger] old(self).covered(t, q, i));
                        &&& final(self).field@[k] is Some
                        &&& final(self).list_at(k) == old(self).list_at(k).push(Packing::sibling(s, i))
                    }
                    &&& forall|k: int| 0 <= k < old(self).cells() && !old(self).covers(t, q, k)
                        ==> final(self).field@[k] == old(self).field@[k]
                    &&& final(self).options@.len() == old(self).options@.len()
                    &&& forall|u: int| 0 <= u < old(self).options@.len() && u != t
                        ==> final(self).options@[u] == old(self).options@[u]
                    &&& final(self).options@[t]@ == old(self).options@[t]@.push(TilePlacement::OnField(q))
                }
            }),
            forall|k: int, e: SquareAllocation|
                0 <= k < old(self).cells() && old(self).is_open(k) && old(self).list_at(k).contains(e)
                    ==> #[trigger] final(self).list_at(k).contains(e),
            forall|x2: int, y2: int, e: SquareAllocation|
                0 <= x2 < old(self).width && 0 <= y2 < old(self).height && old(self).is_open(old(self).index_of((x2, y2)))
                    && #[trigger] final(self).list_at(old(self).index_of((x2, y2))).contains(e)
                    && !old(self).list_at(old(self).index_of((x2, y2))).contains(e)
                    ==> e.id == s.id && old(self).fits(e.id as int, e.square_id as int, e.rotation as int, x2, y2)
                        && same_cells(old(self).tiles@[e.id as int], Packing::anchored(e, x2 as usize, y2 as usize), Packing::anchored(s, x, y))
                        && final(self).has_option(e.id as int, Packing::anchored(e, x2 as usize, y2 as usize)),
            options_grow(*old(self), *final(self)),
    {
        let ghost pre = *self;
        proof {
            lemma_cell_index(x as int, y as int, self.width as int, self.height as int);
        }
        let c = y * self.width + x;
        match &self.field[c] {
            None => {
                return false;
            },
            Some(l) => {
                let mut k: usize = 0;
                while k < l.len()
                    invariant
                        *self == pre,
                        pre.wf(),
                        0 <= c < pre.cells(),
                        c == pre.index_of((x as int, y as int)),
                        pre.field@[c as int] == Some(*l),
                        k <= l@.len(),
                        forall|j: int| 0 <= j < k ==> l@[j] != s,
                    decreases l.len() - k,
                {
                    if l[k] == s {
                        return true;
                    }
                    k += 1;
                }
                assert(!pre.list_at(c as int).contains(s));
            },
        }
        let t = s.id;
        let n = self.tiles[t].squares.len();
        let ghost q = Packing::anchored(s, x, y);
        let mut cells: Vec<usize> = Vec::new();
        let mut i: usize = 0;
        while i < n
            invariant
                *self == pre,
                q == Packing::anchored(s, x, y),
                0 <= c < pre.cells(),
                c == pre.index_of((x as int, y as int)),
                pre.is_open(c as int),
                !pre.list_at(c as int).contains(s),
                cells@.len() == i,
                forall|j: int| 0 <= j < i ==> cells@[j] == pre.index_of(#[trigger] pre.covered(t as int, q, j)),
                pre.wf(),
                pre.allocation_ok(s),
                t == s.id,
                x < pre.width,
                y < pre.height,
                n == pre.tile_len(t as int),
                i <= n,
                forall|j: int| 0 <= j < i ==> #[trigger] pre.lands_open(t as int, s.square_id as int, s.rotation as int, x as int, y as int, j),
            decreases n - i,
        {
            match self.target_cell(t, s.square_id, s.rotation, x, y, i) {
                None => {
                    assert(!pre.lands_open(t as int, s.square_id as int, s.rotation as int, x as int, y as int, i as int));
                    return false;
                },
                Some(k) => {
                    if self.field[k].is_none() {
                        assert(!pre.lands_open(t as int, s.square_id as int, s.rotation as int, x as int, y as int, i as int));
                        return false;
                    }
                    cells.push(k);
                },
            }
            i += 1;
        }
        assert(pre.fits(t as int, s.square_id as int, s.rotation as int, x as int, y as int));
        let mut i: usize = 0;
        while i < n
            invariant
                pre.wf(),
                pre.allocation_ok(s),
                t == s.id,
                x < pre.width,
                y < pre.height,
                n == pre.tile_len(t as int),
                i <= n,
                pre.fits(t as int, s.square_id as int, s.rotation as int, x as int, y as int),
                q == Packing::anchored(s, x, y),
                0 <= c < pre.cells(),
                c == pre.index_of((x as int, y as int)),
                pre.is_open(c as int),
                !pre.list_at(c as int).contains(s),
                cells@.len() == n,
                forall|j: int| 0 <= j < n ==> cells@[j] == pre.index_of(#[trigger] pre.covered(t as int, q, j)),
                self.width == pre.width,
                self.height == pre.height,
                self.tiles@ == pre.tiles@,
                self.occupancy@ == pre.occupancy@,
                self.layout@ == pre.layout@,
                self.options@ == pre.options@,
                self.field@.len() == pre.field@.len(),
                forall|j: int| 0 <= j < i ==> {
                    let k = pre.index_of(#[trigger] pre.covered(t as int, q, j));
                    &&& self.field@[k] is Some
                    &&& self.list_at(k) == pre.list_at(k).push(Packing::sibling(s, j))
                },
                forall|k: int| 0 <= k < pre.cells() && !pre.covers_first(t as int, q, k, i as int)
                    ==> self.field@[k] == pre.field@[k],
            decreases n - i,
        {
            let k = cells[i];
            assert(cells@[i as int] == pre.index_of(pre.covered(t as int, q, i as int)));
            assert(pre.lands_open(t as int, s.square_id as int, s.rotation as int, x as int, y as int, i as int));
            proof {
                let pi = pre.covered(t as int, q, i as int);
                assert(pi == target(pre.tiles@[t as int], s.square_id as int, s.rotation as int, x as int, y as int, i as int));
                lemma_cell_index(pi.0, pi.1, pre.width as int, pre.height as int);
            }
            proof {
                assert forall|j: int| 0 <= j < i implies pre.index_of(#[trigger] pre.covered(t as int, q, j)) != k by {
                    let pj = pre.covered(t as int, q, j);
                    let pi = pre.covered(t as int, q, i as int);
                    assert(pre.lands_open(t as int, s.square_id as int, s.rotation as int, x as int, y as int, j));
                    assert(pj == target(pre.tiles@[t as int], s.square_id as int, s.rotation as int, x as int, y as int, j));
                    assert(pi == target(pre.tiles@[t as int], s.square_id as int, s.rotation as int, x as int, y as int, i as int));
                    if pre.index_of(pj) == k {
                        lemma_cell_index_injective(pj, pi, pre.width as int);
                        assert(pre.tiles@[t as int].wf());
                        lemma_target_injective(pre.tiles@[t as int], s.square_id as int, s.rotation as int, x as int, y as int, j, i as int);
                    }
                }
                assert(!pre.covers_first(t as int, q, k as int, i as int));
            }
            let ghost before = self.field@;
            let ghost prev = *self;
            assert(before[k as int] is Some);
            if let Some(l) = &mut self.field[k] {
                l.push(SquareAllocation { id: t, square_id: i, rotation: s.rotation });
            }
            assert(self.field@ == before.update(k as int, self.field@[k as int]));
            assert(self.field@[k as int] is Some);
            assert(self.list_at(k as int) == before[k as int]->Some_0@.push(Packing::sibling(s, i as int)));
            assert(before[k as int] == pre.field@[k as int]);
            assert forall|j: int| 0 <= j < i + 1 implies {
                let kj = pre.index_of(#[trigger] pre.covered(t as int, q, j));
                &&& self.field@[kj] is Some
                &&& self.list_at(kj) == pre.list_at(kj).push(Packing::sibling(s, j))
            } by {
                let kj = pre.index_of(pre.covered(t as int, q, j));
                if j < i {
                    assert(kj != k);
                    let pj = pre.covered(t as int, q, j);
                    assert(pre.lands_open(t as int, s.square_id as int, s.rotation as int, x as int, y as int, j));
                    assert(pj == target(pre.tiles@[t as int], s.square_id as int, s.rotation as int, x as int, y as int, j));
                    lemma_cell_index(pj.0, pj.1, pre.width as int, pre.height as int);
                    assert(prev.field@[kj] is Some);
                    assert(prev.list_at(kj) == pre.list_at(kj).push(Packing::sibling(s, j)));
                    assert(self.field@[kj] == prev.field@[kj]);
                } else {
                    assert(kj == k);
                }
            }
            proof {
                assert forall|m: int| 0 <= m < pre.cells() && !pre.covers_first(t as int, q, m, i + 1)
                    implies self.field@[m] == pre.field@[m] by {
                    if pre.covers_first(t as int, q, m, i as int) {
                        let j = choose|j: int| 0 <= j < i && pre.index_of(#[trigger] pre.covered(t as int, q, j)) == m;
                        assert(0 <= j < i + 1 && pre.index_of(pre.covered(t as int, q, j)) == m);
                    }
                    if m == k {
                        assert(0 <= i < i + 1 && pre.index_of(pre.covered(t as int, q, i as int)) == m);
                    }
                }
            }
            i += 1;
        }
        let ghost mid = *self;
        self.options[t].push(TilePlacement::OnField(TilePlacementOnField { square_id: s.square_id, x, y, rotation: s.rotation }));
        proof {
            assert forall|m: int| 0 <= m < pre.cells() implies (#[trigger] self.field@[m] is Some) == (pre.field@[m] is Some) by {
                if pre.covers(t as int, q, m) {
                    let j = choose|j: int| 0 <= j < n && pre.index_of(#[trigger] pre.covered(t as int, q, j)) == m;
                    assert(pre.lands_open(t as int, s.square_id as int, s.rotation as int, x as int, y as int, j));
                }
            }
            assert forall|m: int, k: int|
                0 <= m < self.cells() && self.field@[m] is Some && 0 <= k < self.list_at(m).len()
                    implies self.allocation_ok(#[trigger] self.list_at(m)[k]) by {
                lemma_same_geometry(pre, *self);
                if pre.covers(t as int, q, m) {
                    let j = choose|j: int| 0 <= j < n && pre.index_of(#[trigger] pre.covered(t as int, q, j)) == m;
                    if k < pre.list_at(m).len() {
                        assert(self.list_at(m)[k] == pre.list_at(m)[k]);
                    } else {
                        assert(self.list_at(m)[k] == Packing::sibling(s, j));
                    }
                } else {
                    assert(self.list_at(m) == pre.list_at(m));
                }
            }
            assert forall|u: int, k: int|
                0 <= u < self.tiles@.len() && 0 <= k < self.options@[u]@.len()
                    implies self.placement_ok(u, #[trigger] self.options@[u]@[k]) by {
                lemma_same_geometry(pre, *self);
                if u != t {
                    assert(self.options@[u] == pre.options@[u]);
                } else if k < pre.options@[u]@.len() {
                    assert(self.options@[u]@[k] == pre.options@[u]@[k]);
                }
            }
            assert(same_shapes(pre.tiles@, self.tiles@));
            lemma_wf_frame(pre, *self);
            lemma_register_facts(pre, *self, x, y, s);
            let kk = pre.options@[t as int]@.len() as int;
            assert(self.options@[t as int]@[kk] == TilePlacement::OnField(q));
            assert forall|x2: int, y2: int, e: SquareAllocation|
                0 <= x2 < pre.width && 0 <= y2 < pre.height && pre.is_open(pre.index_of((x2, y2)))
                    && #[trigger] self.list_at(pre.index_of((x2, y2))).contains(e)
                    && !pre.list_at(pre.index_of((x2, y2))).contains(e)
                    implies self.has_option(e.id as int, Packing::anchored(e, x2 as usize, y2 as usize)) by {
                assert(e.id == s.id);
                assert(same_cells(pre.tiles@[t as int], Packing::anchored(e, x2 as usize, y2 as usize), q));
                assert(same_cells(self.tiles@[t as int], Packing::anchored(e, x2 as usize, y2 as usize), self.options@[t as int]@[kk]->OnField_0));
            }
            assert forall|u: int, k: int| 0 <= u < pre.options@.len() && 0 <= k < pre.options@[u]@.len()
                implies #[trigger] self.options@[u]@[k] == pre.options@[u]@[k] by {
                if u == t {
                    assert(self.options@[u]@[k] == pre.options@[u]@[k]);
                }
            }
        }
        true
    }
}

} // verus!
