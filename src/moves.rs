use vstd::prelude::*;
use crate::field::{
    Packing, SquareAllocation, TilePlacementOnField, lemma_cell_index, lemma_cell_index_injective,
    lemma_same_geometry, lemma_target_injective, lemma_wf_frame, same_shapes, target,
};
use crate::tile::Tile;

verus! {

/// How many tiles are not yet committed.
pub open spec fn unplaced_count(s: Seq<Tile>) -> nat
    decreases s.len(),
{
    if s.len() == 0 {
        0
    } else {
        unplaced_count(s.drop_last()) + if s.last().placed {
            0nat
        } else {
            1nat
        }
    }
}

/// Committing an unplaced tile leaves one fewer unplaced.
pub proof fn lemma_unplaced_update(s: Seq<Tile>, t: int, v: Tile)
    requires
        0 <= t < s.len(),
        !s[t].placed,
        v.placed,
    ensures
        unplaced_count(s.update(t, v)) + 1 == unplaced_count(s),
    decreases s.len(),
{
    if t == s.len() - 1 {
        assert(s.update(t, v).drop_last() =~= s.drop_last());
    } else {
        assert(s.update(t, v).drop_last() =~= s.drop_last().update(t, v));
        lemma_unplaced_update(s.drop_last(), t, v);
    }
}

impl Packing {
    /// `self` is `a` with tile `t` laid on the field at `q`: the covered cells
    /// are filled and occupied by `t`, and `t` is placed.
    pub open spec fn is_laid(&self, a: Packing, t: usize, q: TilePlacementOnField) -> bool {
        let t = t as int;
        &&& self.width == a.width
        &&& self.height == a.height
        &&& self.tiles@ == a.tiles@.update(t, Tile { placed: true, ..a.tiles@[t] })
        &&& self.options@ == a.options@
        &&& self.layout@ == a.layout@.update(t, Some(q))
        &&& self.field@.len() == a.field@.len()
        &&& self.occupancy@.len() == a.occupancy@.len()
        &&& forall|c: int| 0 <= c < a.cells() ==> #[trigger] self.occupancy@[c] == if a.covers(t, q, c) {
            Some(t as usize)
        } else {
            a.occupancy@[c]
        }
        &&& forall|c: int| 0 <= c < a.cells() ==> #[trigger] self.field@[c] == if a.covers(t, q, c) {
            None
        } else {
            a.field@[c]
        }
    }

    /// `self` is `a` with tile `t`, laid at `q`, lifted off again: the covered
    /// cells are open with the candidate lists of `log`, square by square, and
    /// unoccupied, and `t` is unplaced.
    pub open spec fn is_lifted(&self, a: Packing, t: usize, q: TilePlacementOnField, log: Seq<Vec<SquareAllocation>>) -> bool {
        let t = t as int;
        &&& self.width == a.width
        &&& self.height == a.height
        &&& self.tiles@ == a.tiles@.update(t, Tile { placed: false, ..a.tiles@[t] })
        &&& self.options@ == a.options@
        &&& self.layout@ == a.layout@.update(t, None)
        &&& self.field@.len() == a.field@.len()
        &&& self.occupancy@.len() == a.occupancy@.len()
        &&& forall|i: int| 0 <= i < a.tile_len(t) ==>
            self.field@[a.index_of(#[trigger] a.covered(t, q, i))] == Some(log[i])
        &&& forall|c: int| 0 <= c < a.cells() && !a.covers(t, q, c) ==> #[trigger] self.field@[c] == a.field@[c]
        &&& forall|c: int| 0 <= c < a.cells() ==> #[trigger] self.occupancy@[c] == if a.covers(t, q, c) {
            None
        } else {
            a.occupancy@[c]
        }
    }

    /// Lays tile `t` on the field at `q` when it is unplaced and every square
    /// lands on an open cell: the covered cells are filled and occupied by
    /// `t`, and `t` is placed. Returns the candidate lists the covered cells
    /// held, square by square, so that the move can be undone; `None`, with
    /// nothing changed, where the tile cannot go there.
    pub fn commit_on_field(&mut self, t: usize, q: TilePlacementOnField) -> (log: Option<Vec<Vec<SquareAllocation>>>)
        requires
            old(self).wf(),
            t < old(self).tiles@.len(),
            old(self).on_field_ok(t as int, q),
        ensures
            final(self).wf(),
            log is Some <==> !old(self).tiles@[t as int].placed
                && old(self).fits(t as int, q.square_id as int, q.rotation as int, q.x as int, q.y as int),
            log is None ==> *final(self) == *old(self),
            log matches Some(l) ==> {
                &&& final(self).is_laid(*old(self), t, q)
                &&& l@.len() == old(self).tile_len(t as int)
                &&& forall|i: int| 0 <= i < l@.len() ==>
                    Some(#[trigger] l@[i]) == old(self).field@[old(self).index_of(old(self).covered(t as int, q, i))]
                &&& unplaced_count(final(self).tiles@) + 1 == unplaced_count(old(self).tiles@)
            },
    {
        if self.tiles[t].placed {
            return None;
        }
        let cells = match self.open_cells(t, q) {
            None => {
                return None;
            },
            Some(c) => c,
        };
        let ghost pre = *self;
        proof {
            lemma_fits_inside(pre, t as int, q);
        }
        let n = cells.len();
        let mut log: Vec<Vec<SquareAllocation>> = Vec::new();
        let mut i: usize = 0;
        while i < n
            invariant
                pre.wf(),
                t < pre.tiles@.len(),
                !pre.tiles@[t as int].placed,
                pre.on_field_ok(t as int, q),
                pre.fits(t as int, q.square_id as int, q.rotation as int, q.x as int, q.y as int),
                pre.inside(t as int, q),
                forall|j: int| 0 <= j < pre.tile_len(t as int) ==> pre.is_open(pre.index_of(#[trigger] pre.covered(t as int, q, j))),
                n == pre.tile_len(t as int),
                cells@.len() == n,
                forall|j: int| 0 <= j < n ==> cells@[j] == pre.index_of(#[trigger] pre.covered(t as int, q, j)),
                i <= n,
                log@.len() == i,
                self.width == pre.width,
                self.height == pre.height,
                self.tiles@ == pre.tiles@,
                self.options@ == pre.options@,
                self.layout@ == pre.layout@,
                self.field@.len() == pre.field@.len(),
                self.occupancy@.len() == pre.occupancy@.len(),
                forall|j: int| 0 <= j < i ==>
                    Some(#[trigger] log@[j]) == pre.field@[pre.index_of(pre.covered(t as int, q, j))],
                forall|c: int| 0 <= c < pre.cells() ==> #[trigger] self.field@[c] == if pre.covers_first(t as int, q, c, i as int) {
                    None
                } else {
                    pre.field@[c]
                },
                forall|c: int| 0 <= c < pre.cells() ==> #[trigger] self.occupancy@[c] == if pre.covers_first(t as int, q, c, i as int) {
                    Some(t)
                } else {
                    pre.occupancy@[c]
                },
            decreases n - i,
        {
            let k = cells[i];
            proof {
                lemma_cells_distinct(pre, t as int, q, i as int, i as int);
                assert forall|j: int| 0 <= j < i implies pre.index_of(#[trigger] pre.covered(t as int, q, j)) != k by {
                    lemma_cells_distinct(pre, t as int, q, i as int, j);
                }
                assert(!pre.covers_first(t as int, q, k as int, i as int));
                assert(self.field@[k as int] == pre.field@[k as int]);
            }
            let mut slot: Option<Vec<SquareAllocation>> = None;
            std::mem::swap(&mut self.field[k], &mut slot);
            log.push(slot.unwrap());
            self.occupancy[k] = Some(t);
            proof {
                assert forall|c: int| 0 <= c < pre.cells() implies
                    (pre.covers_first(t as int, q, c, i + 1) == (pre.covers_first(t as int, q, c, i as int) || c == k)) by {
                    if pre.covers_first(t as int, q, c, i + 1) && c != k {
                        let j = choose|j: int| 0 <= j < i + 1 && pre.index_of(#[trigger] pre.covered(t as int, q, j)) == c;
                        assert(0 <= j < i && pre.index_of(pre.covered(t as int, q, j)) == c);
                    }
                    if pre.covers_first(t as int, q, c, i as int) {
                        let j = choose|j: int| 0 <= j < i && pre.index_of(#[trigger] pre.covered(t as int, q, j)) == c;
                        assert(0 <= j < i + 1 && pre.index_of(pre.covered(t as int, q, j)) == c);
                    }
                    if c == k {
                        assert(0 <= i < i + 1 && pre.index_of(pre.covered(t as int, q, i as int)) == c);
                    }
                }
            }
            i += 1;
        }
        self.tiles[t].placed = true;
        self.layout = Ghost(self.layout@.update(t as int, Some(q)));
        proof {
            assert(self.tiles@ =~= pre.tiles@.update(t as int, Tile { placed: true, ..pre.tiles@[t as int] }));
            lemma_laid_wf(pre, *self, t, q);
            lemma_unplaced_update(pre.tiles@, t as int, Tile { placed: true, ..pre.tiles@[t as int] });
        }
        Some(log)
    }

    /// Lifts tile `t`, laid at `q`, off the field: the covered cells are
    /// open again with the candidate lists of `log`, square by square, and
    /// unoccupied, and `t` is unplaced.
    pub fn undo_on_field(&mut self, t: usize, q: TilePlacementOnField, log: Vec<Vec<SquareAllocation>>)
        requires
            old(self).wf(),
            t < old(self).tiles@.len(),
            old(self).layout@[t as int] == Some(q),
            log@.len() == old(self).tile_len(t as int),
            forall|i: int, k: int| 0 <= i < log@.len() && 0 <= k < log@[i]@.len()
                ==> old(self).allocation_ok(#[trigger] log@[i]@[k]),
        ensures
            final(self).wf(),
            final(self).is_lifted(*old(self), t, q, log@),
    {
        let ghost pre = *self;
        let ghost orig = log@;
        let mut log = log;
        let n = self.tiles[t].squares.len();
        proof {
            assert(pre.on_field_ok(t as int, q));
            assert(pre.inside(t as int, q));
        }
        let cells = self.placed_cells(t, q);
        let mut i: usize = 0;
        while i < n
            invariant
                pre.wf(),
                t < pre.tiles@.len(),
                cells@.len() == n,
                forall|j: int| 0 <= j < n ==> cells@[j] == pre.index_of(#[trigger] pre.covered(t as int, q, j)),
                pre.layout@[t as int] == Some(q),
                pre.on_field_ok(t as int, q),
                pre.inside(t as int, q),
                n == pre.tile_len(t as int),
                orig.len() == n,
                log@.len() == n,
                forall|j: int| i <= j < n ==> #[trigger] log@[j] == orig[j],
                i <= n,
                self.width == pre.width,
                self.height == pre.height,
                self.tiles@ == pre.tiles@,
                self.options@ == pre.options@,
                self.layout@ == pre.layout@,
                self.field@.len() == pre.field@.len(),
                self.occupancy@.len() == pre.occupancy@.len(),
                forall|j: int| 0 <= j < i ==> self.field@[pre.index_of(#[trigger] pre.covered(t as int, q, j))] == Some(orig[j]),
                forall|c: int| 0 <= c < pre.cells() && !pre.covers_first(t as int, q, c, i as int)
                    ==> #[trigger] self.field@[c] == pre.field@[c],
                forall|c: int| 0 <= c < pre.cells() ==> #[trigger] self.occupancy@[c] == if pre.covers_first(t as int, q, c, i as int) {
                    None
                } else {
                    pre.occupancy@[c]
                },
            decreases n - i,
        {
            let k = cells[i];
            proof {
                lemma_cells_distinct(pre, t as int, q, i as int, i as int);
                assert(k == pre.index_of(pre.covered(t as int, q, i as int)));
                assert forall|j: int| 0 <= j < i implies pre.index_of(#[trigger] pre.covered(t as int, q, j)) != k by {
                    lemma_cells_distinct(pre, t as int, q, i as int, j);
                }
            }
            let mut l: Vec<SquareAllocation> = Vec::new();
            std::mem::swap(&mut log[i], &mut l);
            self.field[k] = Some(l);
            self.occupancy[k] = None;
            proof {
                assert forall|c: int| 0 <= c < pre.cells() implies
                    (pre.covers_first(t as int, q, c, i + 1) == (pre.covers_first(t as int, q, c, i as int) || c == k)) by {
                    if pre.covers_first(t as int, q, c, i + 1) && c != k {
                        let j = choose|j: int| 0 <= j < i + 1 && pre.index_of(#[trigger] pre.covered(t as int, q, j)) == c;
                        assert(0 <= j < i && pre.index_of(pre.covered(t as int, q, j)) == c);
                    }
                    if pre.covers_first(t as int, q, c, i as int) {
                        let j = choose|j: int| 0 <= j < i && pre.index_of(#[trigger] pre.covered(t as int, q, j)) == c;
                        assert(0 <= j < i + 1 && pre.index_of(pre.covered(t as int, q, j)) == c);
                    }
                    if c == k {
                        assert(0 <= i < i + 1 && pre.index_of(pre.covered(t as int, q, i as int)) == c);
                    }
                }
                assert forall|j: int| 0 <= j < i + 1 implies self.field@[pre.index_of(#[trigger] pre.covered(t as int, q, j))] == Some(orig[j]) by {
                    if j < i {
                        lemma_cells_distinct(pre, t as int, q, i as int, j);
                        lemma_cells_distinct(pre, t as int, q, j, j);
                    }
                }
            }
            i += 1;
        }
        self.tiles[t].placed = false;
        self.layout = Ghost(self.layout@.update(t as int, None));
        proof {
            assert(self.tiles@ =~= pre.tiles@.update(t as int, Tile { placed: false, ..pre.tiles@[t as int] }));
            assert forall|c: int| 0 <= c < pre.cells() && !pre.covers(t as int, q, c) implies #[trigger] self.field@[c] == pre.field@[c] by {}
            lemma_lifted_wf(pre, *self, t, q, orig);
        }
    }

    /// Sets tile `t` aside, off the field.
    pub fn commit_off_field(&mut self, t: usize)
        requires
            old(self).wf(),
            t < old(self).tiles@.len(),
            !old(self).tiles@[t as int].placed,
        ensures
            final(self).wf(),
            final(self).tiles@ == old(self).tiles@.update(t as int, Tile { placed: true, ..old(self).tiles@[t as int] }),
            final(self).width == old(self).width,
            final(self).height == old(self).height,
            final(self).field@ == old(self).field@,
            final(self).occupancy@ == old(self).occupancy@,
            final(self).options@ == old(self).options@,
            final(self).layout@ == old(self).layout@,
            unplaced_count(final(self).tiles@) + 1 == unplaced_count(old(self).tiles@),
    {
        let ghost pre = *self;
        self.tiles[t].placed = true;
        proof {
            assert(self.tiles@ =~= pre.tiles@.update(t as int, Tile { placed: true, ..pre.tiles@[t as int] }));
            assert(same_shapes(pre.tiles@, self.tiles@));
            lemma_same_geometry(pre, *self);
            assert(pre.layout@[t as int] is None);
            assert forall|c: int, k: int|
                0 <= c < self.cells() && self.field@[c] is Some && 0 <= k < self.list_at(c).len()
                    implies self.allocation_ok(#[trigger] self.list_at(c)[k]) by {
                assert(pre.allocation_ok(pre.list_at(c)[k]));
            }
            assert forall|u: int, k: int|
                0 <= u < self.tiles@.len() && 0 <= k < self.options@[u]@.len()
                    implies self.placement_ok(u, #[trigger] self.options@[u]@[k]) by {
                assert(pre.placement_ok(u, pre.options@[u]@[k]));
            }
            lemma_wf_frame(pre, *self);
            lemma_unplaced_update(pre.tiles@, t as int, Tile { placed: true, ..pre.tiles@[t as int] });
        }
    }

    /// Brings tile `t` back from off the field.
    pub fn undo_off_field(&mut self, t: usize)
        requires
            old(self).wf(),
            t < old(self).tiles@.len(),
            old(self).layout@[t as int] is None,
        ensures
            final(self).wf(),
            final(self).tiles@ == old(self).tiles@.update(t as int, Tile { placed: false, ..old(self).tiles@[t as int] }),
            final(self).width == old(self).width,
            final(self).height == old(self).height,
            final(self).field@ == old(self).field@,
            final(self).occupancy@ == old(self).occupancy@,
            final(self).options@ == old(self).options@,
            final(self).layout@ == old(self).layout@,
    {
        let ghost pre = *self;
        self.tiles[t].placed = false;
        proof {
            assert(self.tiles@ =~= pre.tiles@.update(t as int, Tile { placed: false, ..pre.tiles@[t as int] }));
            assert(same_shapes(pre.tiles@, self.tiles@));
            lemma_same_geometry(pre, *self);
            assert forall|c: int, k: int|
                0 <= c < self.cells() && self.field@[c] is Some && 0 <= k < self.list_at(c).len()
                    implies self.allocation_ok(#[trigger] self.list_at(c)[k]) by {
                assert(pre.allocation_ok(pre.list_at(c)[k]));
            }
            assert forall|u: int, k: int|
                0 <= u < self.tiles@.len() && 0 <= k < self.options@[u]@.len()
                    implies self.placement_ok(u, #[trigger] self.options@[u]@[k]) by {
                assert(pre.placement_ok(u, pre.options@[u]@[k]));
            }
            lemma_wf_frame(pre, *self);
        }
    }

    /// The cell indices that tile `t`, laid inside the field at `q`, covers,
    /// square by square.
    fn placed_cells(&self, t: usize, q: TilePlacementOnField) -> (v: Vec<usize>)
        requires
            self.wf(),
            t < self.tiles@.len(),
            self.on_field_ok(t as int, q),
            self.inside(t as int, q),
        ensures
            v@.len() == self.tile_len(t as int),
            forall|i: int| 0 <= i < v@.len() ==> v@[i] == self.index_of(#[trigger] self.covered(t as int, q, i)),
    {
        let n = self.tiles[t].squares.len();
        let mut cells: Vec<usize> = Vec::new();
        let mut i: usize = 0;
        while i < n
            invariant
                self.wf(),
                t < self.tiles@.len(),
                self.on_field_ok(t as int, q),
                self.inside(t as int, q),
                n == self.tile_len(t as int),
                i <= n,
                cells@.len() == i,
                forall|j: int| 0 <= j < i ==> cells@[j] == self.index_of(#[trigger] self.covered(t as int, q, j)),
            decreases n - i,
        {
            assert(self.in_field(self.covered(t as int, q, i as int)));
            let k = self.target_cell(t, q.square_id, q.rotation, q.x, q.y, i).unwrap();
            cells.push(k);
            i += 1;
        }
        cells
    }

    /// The cell indices covered by tile `t` at `q`, square by square, where
    /// every square lands on an open cell; `None` otherwise.
    fn open_cells(&self, t: usize, q: TilePlacementOnField) -> (r: Option<Vec<usize>>)
        requires
            self.wf(),
            t < self.tiles@.len(),
            self.on_field_ok(t as int, q),
        ensures
            r is Some <==> self.fits(t as int, q.square_id as int, q.rotation as int, q.x as int, q.y as int),
            r matches Some(v) ==> v@.len() == self.tile_len(t as int) && forall|i: int|
                0 <= i < v@.len() ==> v@[i] == self.index_of(#[trigger] self.covered(t as int, q, i)),
    {
        let n = self.tiles[t].squares.len();
        let mut cells: Vec<usize> = Vec::new();
        let mut i: usize = 0;
        while i < n
            invariant
                self.wf(),
                t < self.tiles@.len(),
                self.on_field_ok(t as int, q),
                n == self.tile_len(t as int),
                i <= n,
                cells@.len() == i,
                forall|j: int| 0 <= j < i ==> cells@[j] == self.index_of(#[trigger] self.covered(t as int, q, j)),
                forall|j: int| 0 <= j < i ==> #[trigger] self.lands_open(t as int, q.square_id as int, q.rotation as int, q.x as int, q.y as int, j),
            decreases n - i,
        {
            match self.target_cell(t, q.square_id, q.rotation, q.x, q.y, i) {
                None => {
                    assert(!self.lands_open(t as int, q.square_id as int, q.rotation as int, q.x as int, q.y as int, i as int));
                    return None;
                },
                Some(k) => {
                    if self.field[k].is_none() {
                        assert(!self.lands_open(t as int, q.square_id as int, q.rotation as int, q.x as int, q.y as int, i as int));
                        return None;
                    }
                    cells.push(k);
                },
            }
            i += 1;
        }
        Some(cells)
    }
}

/// Laying an unplaced tile where it fits keeps a state well formed.
proof fn lemma_laid_wf(a: Packing, b: Packing, tu: usize, q: TilePlacementOnField)
    requires
        a.wf(),
        tu < a.tiles@.len(),
        !a.tiles@[tu as int].placed,
        a.on_field_ok(tu as int, q),
        a.fits(tu as int, q.square_id as int, q.rotation as int, q.x as int, q.y as int),
        b.is_laid(a, tu, q),
    ensures
        b.wf(),
{
    let t = tu as int;
    assert(same_shapes(a.tiles@, b.tiles@));
    lemma_same_geometry(a, b);
    assert(a.layout@[t] is None);
    assert forall|u: int| 0 <= u < b.tiles@.len() implies (#[trigger] b.tiles@[u]).wf() by {
        assert(a.tiles@[u].wf());
        assert(b.tiles@[u].squares@ == a.tiles@[u].squares@);
    }
    assert forall|c: int| 0 <= c < b.cells() implies (#[trigger] b.field@[c] is None <==> b.occupancy@[c] is Some) by {
        assert(b.field@[c] == if a.covers(t, q, c) { None } else { a.field@[c] });
        assert(b.occupancy@[c] == if a.covers(t, q, c) { Some(t as usize) } else { a.occupancy@[c] });
    }
    assert forall|c: int, k: int|
        0 <= c < b.cells() && b.field@[c] is Some && 0 <= k < b.list_at(c).len()
            implies b.allocation_ok(#[trigger] b.list_at(c)[k]) by {
        assert(b.field@[c] == if a.covers(t, q, c) { None } else { a.field@[c] });
        assert(a.allocation_ok(a.list_at(c)[k]));
    }
    assert forall|u: int, k: int|
        0 <= u < b.tiles@.len() && 0 <= k < b.options@[u]@.len()
            implies b.placement_ok(u, #[trigger] b.options@[u]@[k]) by {
        assert(a.placement_ok(u, a.options@[u]@[k]));
    }
    assert forall|u: int| 0 <= u < b.tiles@.len() && (#[trigger] b.layout@[u]) is Some implies {
        &&& b.tiles@[u].placed
        &&& b.on_field_ok(u, b.layout@[u]->Some_0)
        &&& b.inside(u, b.layout@[u]->Some_0)
    } by {
        if u == t {
            assert forall|i: int| 0 <= i < a.tile_len(t) implies a.in_field(#[trigger] a.covered(t, q, i)) by {
                assert(a.lands_open(t, q.square_id as int, q.rotation as int, q.x as int, q.y as int, i));
            }
        } else {
            assert(a.layout@[u] is Some);
        }
    }
    assert forall|c: int| 0 <= c < b.cells() && (#[trigger] b.occupancy@[c]) is Some implies {
        let u = b.occupancy@[c]->Some_0 as int;
        &&& u < b.tiles@.len()
        &&& b.layout@[u] is Some
        &&& b.covers(u, b.layout@[u]->Some_0, c)
    } by {
        assert(b.occupancy@[c] == if a.covers(t, q, c) { Some(t as usize) } else { a.occupancy@[c] });
        if !a.covers(t, q, c) {
            let u = a.occupancy@[c]->Some_0 as int;
            assert(a.layout@[u] is Some);
            assert(u != t);
            assert(b.layout@[u] == a.layout@[u]);
            assert(a.covers(u, a.layout@[u]->Some_0, c));
            assert(b.covers(u, b.layout@[u]->Some_0, c));
        } else {
            assert(b.layout@[t] == Some(q));
            assert(b.covers(t, q, c));
        }
    }
    assert forall|u: int, c: int|
        0 <= u < b.tiles@.len() && 0 <= c < b.cells() && b.layout@[u] is Some
            && #[trigger] b.covers(u, b.layout@[u]->Some_0, c) implies b.occupancy@[c] == Some(u as usize) by {
        assert(b.occupancy@[c] == if a.covers(t, q, c) { Some(t as usize) } else { a.occupancy@[c] });
        if u != t {
            assert(a.layout@[u] == b.layout@[u]);
            assert(a.occupancy@[c] == Some(u as usize));
            if a.covers(t, q, c) {
                let i = choose|i: int| 0 <= i < a.tile_len(t) && a.index_of(#[trigger] a.covered(t, q, i)) == c;
                lemma_fits_inside(a, t, q);
            }
        }
    }
}

/// Lifting a tile laid on the field, with candidate lists that name real
/// squares and rotations, keeps a state well formed.
proof fn lemma_lifted_wf(a: Packing, b: Packing, tu: usize, q: TilePlacementOnField, log: Seq<Vec<SquareAllocation>>)
    requires
        a.wf(),
        tu < a.tiles@.len(),
        a.layout@[tu as int] == Some(q),
        log.len() == a.tile_len(tu as int),
        forall|i: int, k: int| 0 <= i < log.len() && 0 <= k < log[i]@.len() ==> a.allocation_ok(#[trigger] log[i]@[k]),
        b.is_lifted(a, tu, q, log),
    ensures
        b.wf(),
{
    let t = tu as int;
    assert(same_shapes(a.tiles@, b.tiles@));
    lemma_same_geometry(a, b);
    assert(a.inside(t, q));
    assert forall|u: int| 0 <= u < b.tiles@.len() implies (#[trigger] b.tiles@[u]).wf() by {
        assert(a.tiles@[u].wf());
        assert(b.tiles@[u].squares@ == a.tiles@[u].squares@);
    }
    assert forall|c: int| 0 <= c < b.cells() implies (#[trigger] b.field@[c] is None <==> b.occupancy@[c] is Some) by {
        assert(b.occupancy@[c] == if a.covers(t, q, c) { None } else { a.occupancy@[c] });
        if a.covers(t, q, c) {
            let i = choose|i: int| 0 <= i < a.tile_len(t) && a.index_of(#[trigger] a.covered(t, q, i)) == c;
            assert(b.field@[a.index_of(a.covered(t, q, i))] == Some(log[i]));
        }
    }
    assert forall|c: int, k: int|
        0 <= c < b.cells() && b.field@[c] is Some && 0 <= k < b.list_at(c).len()
            implies b.allocation_ok(#[trigger] b.list_at(c)[k]) by {
        if a.covers(t, q, c) {
            let i = choose|i: int| 0 <= i < a.tile_len(t) && a.index_of(#[trigger] a.covered(t, q, i)) == c;
            assert(b.field@[a.index_of(a.covered(t, q, i))] == Some(log[i]));
            assert(a.allocation_ok(log[i]@[k]));
        } else {
            assert(a.allocation_ok(a.list_at(c)[k]));
        }
    }
    assert forall|u: int, k: int|
        0 <= u < b.tiles@.len() && 0 <= k < b.options@[u]@.len()
            implies b.placement_ok(u, #[trigger] b.options@[u]@[k]) by {
        assert(a.placement_ok(u, a.options@[u]@[k]));
    }
    assert forall|u: int| 0 <= u < b.tiles@.len() && (#[trigger] b.layout@[u]) is Some implies {
        &&& b.tiles@[u].placed
        &&& b.on_field_ok(u, b.layout@[u]->Some_0)
        &&& b.inside(u, b.layout@[u]->Some_0)
    } by {
        assert(a.layout@[u] is Some);
    }
    assert forall|c: int| 0 <= c < b.cells() && (#[trigger] b.occupancy@[c]) is Some implies {
        let u = b.occupancy@[c]->Some_0 as int;
        &&& u < b.tiles@.len()
        &&& b.layout@[u] is Some
        &&& b.covers(u, b.layout@[u]->Some_0, c)
    } by {
        assert(b.occupancy@[c] == if a.covers(t, q, c) { None } else { a.occupancy@[c] });
        let u = a.occupancy@[c]->Some_0 as int;
        assert(a.layout@[u] is Some);
        assert(a.covers(u, a.layout@[u]->Some_0, c));
        assert(u != t);
        assert(b.layout@[u] == a.layout@[u]);
        assert(b.covers(u, b.layout@[u]->Some_0, c));
    }
    assert forall|u: int, c: int|
        0 <= u < b.tiles@.len() && 0 <= c < b.cells() && b.layout@[u] is Some
            && #[trigger] b.covers(u, b.layout@[u]->Some_0, c) implies b.occupancy@[c] == Some(u as usize) by {
        assert(b.occupancy@[c] == if a.covers(t, q, c) { None } else { a.occupancy@[c] });
        assert(u != t);
        assert(a.layout@[u] == b.layout@[u]);
        assert(a.covers(u, a.layout@[u]->Some_0, c));
        assert(a.occupancy@[c] == Some(u as usize));
        if a.covers(t, q, c) {
            assert(a.occupancy@[c] == Some(tu));
            assert(u as usize != tu);
        }
    }
}

/// Committing a tile to the field and undoing the move at once, with the
/// candidate lists that the commit handed back, gives back the state as it
/// was: the field with its candidate lists, the occupancy, the placed flags,
/// the options and the layout.
pub proof fn lemma_commit_then_undo(a: Packing, b: Packing, c: Packing, t: usize, q: TilePlacementOnField, log: Seq<Vec<SquareAllocation>>)
    requires
        a.wf(),
        t < a.tiles@.len(),
        !a.tiles@[t as int].placed,
        a.fits(t as int, q.square_id as int, q.rotation as int, q.x as int, q.y as int),
        b.is_laid(a, t, q),
        log.len() == a.tile_len(t as int),
        forall|i: int| 0 <= i < log.len() ==> Some(#[trigger] log[i]) == a.field@[a.index_of(a.covered(t as int, q, i))],
        c.is_lifted(b, t, q, log),
    ensures
        c.width == a.width,
        c.height == a.height,
        c.tiles@ == a.tiles@,
        c.field@ == a.field@,
        c.occupancy@ == a.occupancy@,
        c.options@ == a.options@,
        c.layout@ == a.layout@,
{
    assert(same_shapes(a.tiles@, b.tiles@));
    lemma_same_geometry(a, b);
    assert(a.layout@[t as int] is None);
    assert(c.tiles@ =~= a.tiles@);
    assert(c.layout@ =~= a.layout@);
    assert(c.occupancy@ =~= a.occupancy@);
    assert forall|k: int| 0 <= k < a.field@.len() implies #[trigger] c.field@[k] == a.field@[k] by {
        if a.covers(t as int, q, k) {
            let i = choose|i: int| 0 <= i < a.tile_len(t as int) && a.index_of(#[trigger] a.covered(t as int, q, i)) == k;
            assert(b.covered(t as int, q, i) == a.covered(t as int, q, i));
            assert(c.field@[b.index_of(b.covered(t as int, q, i))] == Some(log[i]));
        } else {
            assert(!b.covers(t as int, q, k));
        }
    }
    assert(c.field@ =~= a.field@);
}

/// A placement that fits lies inside the field, on open cells.
pub proof fn lemma_fits_inside(a: Packing, t: int, q: TilePlacementOnField)
    requires
        a.fits(t, q.square_id as int, q.rotation as int, q.x as int, q.y as int),
    ensures
        a.inside(t, q),
        forall|i: int| 0 <= i < a.tile_len(t) ==> a.is_open(a.index_of(#[trigger] a.covered(t, q, i))),
{
    assert forall|i: int| 0 <= i < a.tile_len(t) implies a.in_field(#[trigger] a.covered(t, q, i))
        && a.is_open(a.index_of(a.covered(t, q, i))) by {
        assert(a.lands_open(t, q.square_id as int, q.rotation as int, q.x as int, q.y as int, i));
    }
}

/// The cells a placement inside the field covers are distinct cells of the
/// grid.
pub proof fn lemma_cells_distinct(a: Packing, t: int, q: TilePlacementOnField, i: int, j: int)
    requires
        a.wf(),
        0 <= t < a.tiles@.len(),
        a.inside(t, q),
        0 <= i < a.tile_len(t),
        0 <= j < a.tile_len(t),
    ensures
        0 <= a.index_of(a.covered(t, q, i)) < a.cells(),
        i != j ==> a.index_of(a.covered(t, q, i)) != a.index_of(a.covered(t, q, j)),
{
    let pi = a.covered(t, q, i);
    let pj = a.covered(t, q, j);
    assert(a.in_field(pi));
    assert(a.in_field(pj));
    lemma_cell_index(pi.0, pi.1, a.width as int, a.height as int);
    if i != j && a.index_of(pi) == a.index_of(pj) {
        lemma_cell_index_injective(pi, pj, a.width as int);
        assert(a.tiles@[t].wf());
        lemma_target_injective(a.tiles@[t], q.square_id as int, q.rotation as int, q.x as int, q.y as int, i, j);
    }
}

} // verus!
