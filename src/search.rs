use vstd::prelude::*;
use crate::field::{
    MAX_SIDE, Packing, SquareAllocation, TilePlacement, TilePlacementOnField, lemma_cell_index,
    lemma_cell_index_injective, lemma_has_option_grow, lemma_options_grow_trans, lemma_same_geometry,
    lemma_wf_frame, options_grow, same_cells, same_shapes, target,
};
use crate::field::lemma_shift_anchor;
use crate::moves::{lemma_cells_distinct, lemma_fits_inside, unplaced_count};
use crate::tile::{RotSym, Tile};

verus! {

/// How many cells of a field are open.
pub open spec fn open_cells_in(f: Seq<Option<Vec<SquareAllocation>>>) -> nat
    decreases f.len(),
{
    if f.len() == 0 {
        0
    } else {
        open_cells_in(f.drop_last()) + if f.last() is Some {
            1nat
        } else {
            0nat
        }
    }
}

proof fn lemma_open_cells_bound(f: Seq<Option<Vec<SquareAllocation>>>)
    ensures
        open_cells_in(f) <= f.len(),
    decreases f.len(),
{
    if f.len() > 0 {
        lemma_open_cells_bound(f.drop_last());
    }
}

impl Packing {
    /// An empty field of `width` by `height` cells, all open with no
    /// candidates, and the given tiles, none placed and none with options.
    pub fn new(width: usize, height: usize, tiles: Vec<Tile>) -> (p: Packing)
        requires
            width <= MAX_SIDE,
            height <= MAX_SIDE,
            width * height <= usize::MAX,
            forall|t: int| 0 <= t < tiles@.len() ==> (#[trigger] tiles@[t]).wf() && !tiles@[t].placed,
        ensures
            p.wf(),
            p.width == width,
            p.height == height,
            p.tiles@ == tiles@,
            forall|c: int| 0 <= c < p.cells() ==> #[trigger] p.occupancy@[c] is None && p.field@[c] is Some
                && p.list_at(c).len() == 0,
            forall|t: int| 0 <= t < p.tiles@.len() ==> (#[trigger] p.options@[t])@.len() == 0,
    {
        let cells = width * height;
        let n = tiles.len();
        let mut field: Vec<Option<Vec<SquareAllocation>>> = Vec::new();
        let mut occupancy: Vec<Option<usize>> = Vec::new();
        let mut c: usize = 0;
        while c < cells
            invariant
                c <= cells,
                field@.len() == c,
                occupancy@.len() == c,
                forall|k: int| 0 <= k < c ==> #[trigger] occupancy@[k] is None && field@[k] is Some
                    && field@[k]->Some_0@.len() == 0,
            decreases cells - c,
        {
            field.push(Some(Vec::new()));
            occupancy.push(None);
            c += 1;
        }
        let mut options: Vec<Vec<TilePlacement>> = Vec::new();
        let mut t: usize = 0;
        while t < n
            invariant
                t <= n,
                n == tiles@.len(),
                field@.len() == cells,
                occupancy@.len() == cells,
                forall|k: int| 0 <= k < cells ==> #[trigger] occupancy@[k] is None && field@[k] is Some
                    && field@[k]->Some_0@.len() == 0,
                options@.len() == t,
                forall|k: int| 0 <= k < t ==> (#[trigger] options@[k])@.len() == 0,
            decreases n - t,
        {
            options.push(Vec::new());
            t += 1;
        }
        let ghost layout: Seq<Option<TilePlacementOnField>> = Seq::new(n as nat, |i: int| None);
        let p = Packing { width, height, tiles, field, occupancy, options, layout: Ghost(layout) };
        assert(p.tiles@.len() == n);
        assert(p.layout@.len() == n);
        assert forall|t: int| 0 <= t < p.tiles@.len() implies (#[trigger] p.layout@[t]) is None by {}
        assert(p.field@.len() == p.cells());
        assert(forall|c: int| 0 <= c < p.cells() ==> (#[trigger] p.field@[c] is None <==> p.occupancy@[c] is Some));
        assert(forall|c: int, k: int|
            0 <= c < p.cells() && p.field@[c] is Some && 0 <= k < p.list_at(c).len()
                ==> p.allocation_ok(#[trigger] p.list_at(c)[k]));
        assert(forall|t: int, k: int|
            0 <= t < p.tiles@.len() && 0 <= k < p.options@[t]@.len()
                ==> p.placement_ok(t, #[trigger] p.options@[t]@[k]));
        assert(forall|t: int| 0 <= t < p.tiles@.len() ==> (#[trigger] p.tiles@[t]).wf());
        p
    }

    /// How many cells are open.
    pub fn open_count(&self) -> (r: usize)
        requires
            self.wf(),
        ensures
            r == open_cells_in(self.field@),
    {
        let mut count: usize = 0;
        let mut c: usize = 0;
        while c < self.field.len()
            invariant
                c <= self.field@.len(),
                count == open_cells_in(self.field@.take(c as int)),
            decreases self.field@.len() - c,
        {
            assert(self.field@.take(c as int + 1).drop_last() =~= self.field@.take(c as int));
            proof {
                lemma_open_cells_bound(self.field@.take(c as int));
            }
            if self.field[c].is_some() {
                count += 1;
            }
            c += 1;
        }
        assert(self.field@.take(c as int) =~= self.field@);
        count
    }

    /// Gives every tile a fresh option list: the option of staying off the
    /// field for each unplaced tile that the open cells could still do
    /// without, none for any other.
    pub fn reset_options(&mut self)
        requires
            old(self).wf(),
        ensures
            final(self).wf(),
            final(self).width == old(self).width,
            final(self).height == old(self).height,
            final(self).tiles@ == old(self).tiles@,
            final(self).field@ == old(self).field@,
            final(self).occupancy@ == old(self).occupancy@,
            final(self).layout@ == old(self).layout@,
            final(self).options@.len() == old(self).options@.len(),
            forall|t: int| 0 <= t < old(self).tiles@.len() ==> (#[trigger] final(self).options@[t])@ == if !old(self).tiles@[t].placed
                && old(self).tile_len(t) <= open_cells_in(old(self).field@) {
                seq![TilePlacement::OffField]
            } else {
                seq![]
            },
    {
        let ghost pre = *self;
        let remaining = self.open_count();
        let n = self.tiles.len();
        let mut t: usize = 0;
        while t < n
            invariant
                pre.wf(),
                n == pre.tiles@.len(),
                remaining == open_cells_in(pre.field@),
                t <= n,
                self.width == pre.width,
                self.height == pre.height,
                self.tiles@ == pre.tiles@,
                self.field@ == pre.field@,
                self.occupancy@ == pre.occupancy@,
                self.layout@ == pre.layout@,
                self.options@.len() == pre.options@.len(),
                forall|u: int| 0 <= u < t ==> (#[trigger] self.options@[u])@ == if !pre.tiles@[u].placed
                    && pre.tile_len(u) <= open_cells_in(pre.field@) {
                    seq![TilePlacement::OffField]
                } else {
                    seq![]
                },
                forall|u: int| t <= u < n ==> #[trigger] self.options@[u] == pre.options@[u],
            decreases n - t,
        {
            let mut v: Vec<TilePlacement> = Vec::new();
            if !self.tiles[t].placed && self.tiles[t].squares.len() <= remaining {
                v.push(TilePlacement::OffField);
            }
            self.options[t] = v;
            t += 1;
        }
        proof {
            assert(same_shapes(pre.tiles@, self.tiles@));
            lemma_same_geometry(pre, *self);
            assert forall|c: int, k: int|
                0 <= c < self.cells() && self.field@[c] is Some && 0 <= k < self.list_at(c).len()
                    implies self.allocation_ok(#[trigger] self.list_at(c)[k]) by {
                assert(pre.allocation_ok(pre.list_at(c)[k]));
            }
            assert forall|u: int, k: int|
                0 <= u < self.tiles@.len() && 0 <= k < self.options@[u]@.len()
                    implies self.placement_ok(u, #[trigger] self.options@[u]@[k]) by {
            }
            lemma_wf_frame(pre, *self);
        }
    }
}

impl Packing {
    /// Rebuilds the candidate list of every open cell, row by row, from
    /// scratch: each unplaced tile, each of its squares and each of its
    /// rotations is tried at the cell, and every placement that fits is
    /// registered at all the cells it covers and among the tile's options.
    pub fn recompute(&mut self)
        requires
            old(self).wf(),
        ensures
            final(self).wf(),
            final(self).width == old(self).width,
            final(self).height == old(self).height,
            final(self).tiles@ == old(self).tiles@,
            final(self).occupancy@ == old(self).occupancy@,
            final(self).layout@ == old(self).layout@,
            forall|x: int, y: int| 0 <= x < final(self).width && 0 <= y < final(self).height
                && final(self).is_open(final(self).index_of((x, y))) ==> #[trigger] final(self).rebuilt_at(x, y),
            forall|x: int, y: int| 0 <= x < final(self).width && 0 <= y < final(self).height
                && final(self).is_open(final(self).index_of((x, y))) ==> #[trigger] final(self).optioned_at(x, y),
    {
        let ghost pre = *self;
        let mut y: usize = 0;
        while y < self.height
            invariant
                self.wf(),
                y <= self.height,
                self.width == pre.width,
                self.height == pre.height,
                self.tiles@ == pre.tiles@,
                self.occupancy@ == pre.occupancy@,
                self.layout@ == pre.layout@,
                pre.wf(),
                forall|x2: int, y2: int| 0 <= x2 < pre.width && 0 <= y2 < y
                    && pre.is_open(pre.index_of((x2, y2))) ==> #[trigger] pre.rebuilt_in(*self, x2, y2),
                forall|x2: int, y2: int| 0 <= x2 < pre.width && 0 <= y2 < y
                    && pre.is_open(pre.index_of((x2, y2))) ==> #[trigger] optioned_in(pre, *self, x2, y2),
            decreases pre.height - y,
        {
            let mut x: usize = 0;
            while x < self.width
                invariant
                    self.wf(),
                    y < self.height,
                    x <= self.width,
                    self.width == pre.width,
                    self.height == pre.height,
                    self.tiles@ == pre.tiles@,
                    self.occupancy@ == pre.occupancy@,
                    self.layout@ == pre.layout@,
                    pre.wf(),
                    forall|x2: int, y2: int| 0 <= x2 < pre.width && 0 <= y2 < pre.height
                        && (y2 < y || (y2 == y && x2 < x))
                        && pre.is_open(pre.index_of((x2, y2))) ==> #[trigger] pre.rebuilt_in(*self, x2, y2),
                    forall|x2: int, y2: int| 0 <= x2 < pre.width && 0 <= y2 < pre.height
                        && (y2 < y || (y2 == y && x2 < x))
                        && pre.is_open(pre.index_of((x2, y2))) ==> #[trigger] optioned_in(pre, *self, x2, y2),
                decreases pre.width - x,
            {
                proof {
                    lemma_cell_index(x as int, y as int, self.width as int, self.height as int);
                }
                let c = y * self.width + x;
                if self.field[c].is_some() {
                    let ghost s0 = *self;
                    self.clear_cell(c);
                    let ghost s1 = *self;
                    self.fill_cell(x, y);
                    proof {
                        lemma_fits_frame(pre, s1);
                        lemma_fits_frame(pre, s0);
                        lemma_rebuilt_step(pre, s0, s1, *self, x as int, y as int);
                        lemma_optioned_step(pre, s0, s1, *self, x as int, y as int);
                    }
                } else {
                    assert(!pre.is_open(pre.index_of((x as int, y as int))));
                }
                x += 1;
            }
            y += 1;
        }
        proof {
            lemma_fits_frame(pre, *self);
            assert forall|x: int, y: int| 0 <= x < self.width && 0 <= y < self.height
                && self.is_open(self.index_of((x, y))) implies #[trigger] self.rebuilt_at(x, y) by {
                lemma_cell_index(x, y, pre.width as int, pre.height as int);
                let k = pre.index_of((x, y));
                assert(self.index_of((x, y)) == k);
                assert(pre.is_open(k));
                assert(pre.rebuilt_in(*self, x, y));
                assert forall|e: SquareAllocation| #[trigger] self.list_at(self.index_of((x, y))).contains(e)
                    implies self.fits_unplaced(e.id as int, e.square_id as int, e.rotation as int, x, y) by {
                    assert(self.list_at(k).contains(e));
                    assert(pre.fits_unplaced(e.id as int, e.square_id as int, e.rotation as int, x, y));
                }
                assert forall|t: int, a: int, r: int| #[trigger] self.fits_unplaced(t, a, r, x, y)
                    implies self.list_at(self.index_of((x, y))).contains(SquareAllocation { id: t as usize, square_id: a as usize, rotation: r as u8 }) by {
                    assert(pre.fits_unplaced(t, a, r, x, y));
                }
            }
            assert forall|x: int, y: int| 0 <= x < self.width && 0 <= y < self.height
                && self.is_open(self.index_of((x, y))) implies #[trigger] self.optioned_at(x, y) by {
                lemma_cell_index(x, y, pre.width as int, pre.height as int);
                let k = pre.index_of((x, y));
                assert(self.index_of((x, y)) == k);
                assert(pre.is_open(k));
                assert(optioned_in(pre, *self, x, y));
            }
        }
    }

    /// Empties the candidate list of open cell `c`.
    fn clear_cell(&mut self, c: usize)
        requires
            old(self).wf(),
            c < old(self).cells(),
            old(self).field@[c as int] is Some,
        ensures
            final(self).wf(),
            final(self).field@.len() == old(self).field@.len(),
            final(self).field@[c as int] is Some,
            final(self).list_at(c as int).len() == 0,
            final(self).options@ == old(self).options@,
            forall|k: int| 0 <= k < old(self).field@.len() && k != c ==> #[trigger] final(self).field@[k] == old(self).field@[k],
            final(self).width == old(self).width,
            final(self).height == old(self).height,
            final(self).tiles@ == old(self).tiles@,
            final(self).occupancy@ == old(self).occupancy@,
            final(self).layout@ == old(self).layout@,
    {
        let ghost pre = *self;
        self.field[c] = Some(Vec::new());
        proof {
            assert(same_shapes(pre.tiles@, self.tiles@));
            lemma_same_geometry(pre, *self);
            assert forall|m: int, k: int|
                0 <= m < self.cells() && self.field@[m] is Some && 0 <= k < self.list_at(m).len()
                    implies self.allocation_ok(#[trigger] self.list_at(m)[k]) by {
                assert(pre.allocation_ok(pre.list_at(m)[k]));
            }
            assert forall|u: int, k: int|
                0 <= u < self.tiles@.len() && 0 <= k < self.options@[u]@.len()
                    implies self.placement_ok(u, #[trigger] self.options@[u]@[k]) by {
                assert(pre.placement_ok(u, pre.options@[u]@[k]));
            }
            lemma_wf_frame(pre, *self);
        }
    }

    /// Tries every unplaced tile, square and rotation anchored at `(x, y)`.
    fn fill_cell(&mut self, x: usize, y: usize)
        requires
            old(self).wf(),
            x < old(self).width,
            y < old(self).height,
        ensures
            final(self).wf(),
            final(self).width == old(self).width,
            final(self).height == old(self).height,
            final(self).tiles@ == old(self).tiles@,
            final(self).occupancy@ == old(self).occupancy@,
            final(self).layout@ == old(self).layout@,
            grows_soundly(*old(self), *final(self)),
            old(self).is_open(old(self).index_of((x as int, y as int))) ==> old(self).lists_all(*final(self), x as int, y as int),
            options_grow(*old(self), *final(self)),
            new_entries_optioned(*old(self), *final(self)),
    {
        let ghost pre = *self;
        proof {
            lemma_grows_refl(pre);
            assert(options_grow(pre, pre));
        }
        let n = self.tiles.len();
        let mut t: usize = 0;
        while t < n
            invariant
                self.wf(),
                pre.wf(),
                x < self.width,
                y < self.height,
                n == self.tiles@.len(),
                t <= n,
                self.width == pre.width,
                self.height == pre.height,
                self.tiles@ == pre.tiles@,
                self.occupancy@ == pre.occupancy@,
                self.layout@ == pre.layout@,
                grows_soundly(pre, *self),
                options_grow(pre, *self),
                new_entries_optioned(pre, *self),
                pre.is_open(pre.index_of((x as int, y as int))) ==> forall|u: int, a: int, r: int|
                    0 <= u < t && #[trigger] pre.fits_unplaced(u, a, r, x as int, y as int)
                        ==> self.list_at(pre.index_of((x as int, y as int))).contains(SquareAllocation { id: u as usize, square_id: a as usize, rotation: r as u8 }),
            decreases n - t,
        {
            if !self.tiles[t].placed {
                let len = self.tiles[t].squares.len();
                let rotations = rotations_of(self.tiles[t].rot_sym);
                let mut s: usize = 0;
                while s < len
                    invariant
                        self.wf(),
                        pre.wf(),
                        x < self.width,
                        y < self.height,
                        t < self.tiles@.len(),
                        !self.tiles@[t as int].placed,
                        len == self.tile_len(t as int),
                        rotations as nat == crate::tile::rotation_count(self.tiles@[t as int].rot_sym),
                        s <= len,
                        self.width == pre.width,
                        self.height == pre.height,
                        self.tiles@ == pre.tiles@,
                        self.occupancy@ == pre.occupancy@,
                        self.layout@ == pre.layout@,
                        grows_soundly(pre, *self),
                        options_grow(pre, *self),
                        new_entries_optioned(pre, *self),
                        pre.is_open(pre.index_of((x as int, y as int))) ==> forall|u: int, a: int, r: int|
                            (0 <= u < t || (u == t && 0 <= a < s)) && #[trigger] pre.fits_unplaced(u, a, r, x as int, y as int)
                                ==> self.list_at(pre.index_of((x as int, y as int))).contains(SquareAllocation { id: u as usize, square_id: a as usize, rotation: r as u8 }),
                    decreases len - s,
                {
                    let mut r: u8 = 0;
                    while r < rotations
                        invariant
                            self.wf(),
                            pre.wf(),
                            x < self.width,
                            y < self.height,
                            t < self.tiles@.len(),
                            !self.tiles@[t as int].placed,
                            s < self.tile_len(t as int),
                            rotations as nat == crate::tile::rotation_count(self.tiles@[t as int].rot_sym),
                            r <= rotations,
                            self.width == pre.width,
                            self.height == pre.height,
                            self.tiles@ == pre.tiles@,
                            self.occupancy@ == pre.occupancy@,
                            self.layout@ == pre.layout@,
                            grows_soundly(pre, *self),
                            options_grow(pre, *self),
                            new_entries_optioned(pre, *self),
                            pre.is_open(pre.index_of((x as int, y as int))) ==> forall|u: int, a: int, v: int|
                                (0 <= u < t || (u == t && 0 <= a < s) || (u == t && a == s && 0 <= v < r))
                                    && #[trigger] pre.fits_unplaced(u, a, v, x as int, y as int)
                                    ==> self.list_at(pre.index_of((x as int, y as int))).contains(SquareAllocation { id: u as usize, square_id: a as usize, rotation: v as u8 }),
                        decreases rotations - r,
                    {
                        let ghost before = *self;
                        let sa = SquareAllocation { id: t, square_id: s, rotation: r };
                        let placed = self.try_place(x, y, sa);
                        proof {
                            lemma_fits_frame(pre, before);
                            lemma_grows_step(pre, before, *self, sa);
                            lemma_option_step(pre, before, *self, sa, x, y);
                            let c = pre.index_of((x as int, y as int));
                            lemma_cell_index(x as int, y as int, pre.width as int, pre.height as int);
                            assert(before.index_of((x as int, y as int)) == c);
                            if pre.is_open(c) {
                                assert forall|u: int, a: int, v: int|
                                    (0 <= u < t || (u == t && 0 <= a < s) || (u == t && a == s && 0 <= v < r + 1))
                                        && #[trigger] pre.fits_unplaced(u, a, v, x as int, y as int)
                                        implies self.list_at(c).contains(SquareAllocation { id: u as usize, square_id: a as usize, rotation: v as u8 }) by {
                                    let e = SquareAllocation { id: u as usize, square_id: a as usize, rotation: v as u8 };
                                    if u == t && a == s && v == r {
                                        assert(e == sa);
                                        assert(before.is_open(c));
                                        assert(before.fits(t as int, s as int, r as int, x as int, y as int));
                                        assert(placed);
                                    } else {
                                        assert(before.list_at(c).contains(e));
                                    }
                                }
                            }
                        }
                        r += 1;
                    }
                    s += 1;
                }
            }
            t += 1;
        }
    }

    /// The open cell with the fewest candidates, the first in row order among
    /// equals, with its count; `None` where no cell is open.
    pub fn best_square(&self) -> (r: Option<(usize, usize)>)
        requires
            self.wf(),
        ensures
            r is None <==> forall|c: int| 0 <= c < self.cells() ==> !self.is_open(c),
            r matches Some((c, k)) ==> {
                &&& c < self.cells()
                &&& self.is_open(c as int)
                &&& k == self.list_at(c as int).len()
                &&& forall|d: int| 0 <= d < self.cells() && self.is_open(d)
                    ==> #[trigger] self.list_at(d).len() >= k && (d < c ==> self.list_at(d).len() > k)
            },
    {
        let mut best: Option<(usize, usize)> = None;
        let mut c: usize = 0;
        while c < self.field.len()
            invariant
                self.wf(),
                c <= self.cells(),
                best is None <==> forall|d: int| 0 <= d < c ==> !self.is_open(d),
                best matches Some((b, k)) ==> {
                    &&& b < c
                    &&& self.is_open(b as int)
                    &&& k == self.list_at(b as int).len()
                    &&& forall|d: int| 0 <= d < c && self.is_open(d)
                        ==> #[trigger] self.list_at(d).len() >= k && (d < b ==> self.list_at(d).len() > k)
                },
            decreases self.cells() - c,
        {
            match &self.field[c] {
                None => {
                    assert(!self.is_open(c as int));
                },
                Some(l) => {
                    assert(self.is_open(c as int));
                    let better = match best {
                        None => true,
                        Some((_, k)) => l.len() < k,
                    };
                    if better {
                        best = Some((c, l.len()));
                    }
                },
            }
            c += 1;
        }
        best
    }

    /// The unplaced tile with the fewest options, the first in order among
    /// equals, with its count; `None` where every tile is placed.
    pub fn best_tile(&self) -> (r: Option<(usize, usize)>)
        requires
            self.wf(),
        ensures
            r is None <==> forall|t: int| 0 <= t < self.tiles@.len() ==> (#[trigger] self.tiles@[t]).placed,
            r matches Some((t, k)) ==> {
                &&& t < self.tiles@.len()
                &&& !self.tiles@[t as int].placed
                &&& k == self.options@[t as int]@.len()
                &&& forall|u: int| 0 <= u < self.tiles@.len() && !self.tiles@[u].placed
                    ==> #[trigger] self.options@[u]@.len() >= k && (u < t ==> self.options@[u]@.len() > k)
            },
    {
        let mut best: Option<(usize, usize)> = None;
        let mut t: usize = 0;
        while t < self.tiles.len()
            invariant
                self.wf(),
                t <= self.tiles@.len(),
                best is None <==> forall|u: int| 0 <= u < t ==> (#[trigger] self.tiles@[u]).placed,
                best matches Some((b, k)) ==> {
                    &&& b < t
                    &&& !self.tiles@[b as int].placed
                    &&& k == self.options@[b as int]@.len()
                    &&& forall|u: int| 0 <= u < t && !self.tiles@[u].placed
                        ==> #[trigger] self.options@[u]@.len() >= k && (u < b ==> self.options@[u]@.len() > k)
                },
            decreases self.tiles@.len() - t,
        {
            if !self.tiles[t].placed {
                let len = self.options[t].len();
                let better = match best {
                    None => true,
                    Some((_, k)) => len < k,
                };
                if better {
                    best = Some((t, len));
                }
            }
            t += 1;
        }
        best
    }
}

/// Every cell occupied in `a` is occupied by the same tile in `b`.
pub open spec fn keeps_occupied(a: Seq<Option<usize>>, b: Seq<Option<usize>>) -> bool {
    &&& a.len() == b.len()
    &&& forall|c: int| 0 <= c < a.len() && (#[trigger] a[c]) is Some ==> b[c] == a[c]
}

/// Lifting a tile off the field after a search below it failed gives back
/// the placed flags, the occupancy and the layout from before the commit.
proof fn lemma_lift_restores(
    a: Packing,
    laid: Packing,
    b: Packing,
    c: Packing,
    t: usize,
    q: TilePlacementOnField,
    log: Seq<Vec<SquareAllocation>>,
)
    requires
        a.wf(),
        t < a.tiles@.len(),
        !a.tiles@[t as int].placed,
        a.fits(t as int, q.square_id as int, q.rotation as int, q.x as int, q.y as int),
        laid.is_laid(a, t, q),
        b.width == laid.width,
        b.height == laid.height,
        b.tiles@ == laid.tiles@,
        b.occupancy@ == laid.occupancy@,
        b.layout@ == laid.layout@,
        c.is_lifted(b, t, q, log),
    ensures
        c.width == a.width,
        c.height == a.height,
        c.tiles@ == a.tiles@,
        c.occupancy@ == a.occupancy@,
        c.layout@ == a.layout@,
{
    assert(same_shapes(a.tiles@, b.tiles@));
    lemma_same_geometry(a, b);
    lemma_fits_inside(a, t as int, q);
    assert(a.layout@[t as int] is None);
    assert(c.tiles@ =~= a.tiles@);
    assert(c.layout@ =~= a.layout@);
    assert forall|k: int| 0 <= k < a.occupancy@.len() implies #[trigger] c.occupancy@[k] == a.occupancy@[k] by {
        if a.covers(t as int, q, k) {
            let i = choose|i: int| 0 <= i < a.tile_len(t as int) && a.index_of(#[trigger] a.covered(t as int, q, i)) == k;
            assert(a.is_open(a.index_of(a.covered(t as int, q, i))));
        }
    }
    assert(c.occupancy@ =~= a.occupancy@);
}

impl Packing {
    /// Every cell is occupied.
    pub open spec fn is_solved(&self) -> bool {
        forall|c: int| 0 <= c < self.cells() ==> (#[trigger] self.occupancy@[c]) is Some
    }

    /// A copy of the candidate list of open cell `c`.
    fn candidates_at(&self, c: usize) -> (v: Vec<SquareAllocation>)
        requires
            self.wf(),
            c < self.cells(),
            self.is_open(c as int),
        ensures
            v@ == self.list_at(c as int),
    {
        let mut v: Vec<SquareAllocation> = Vec::new();
        match &self.field[c] {
            None => {},
            Some(l) => {
                let mut k: usize = 0;
                while k < l.len()
                    invariant
                        k <= l@.len(),
                        v@ == l@.take(k as int),
                    decreases l@.len() - k,
                {
                    v.push(l[k]);
                    assert(l@.take(k as int + 1) =~= l@.take(k as int).push(l@[k as int]));
                    k += 1;
                }
                assert(l@.take(k as int) =~= l@);
            },
        }
        v
    }

    /// A copy of the option list of tile `t`.
    fn options_of(&self, t: usize) -> (v: Vec<TilePlacement>)
        requires
            t < self.options@.len(),
        ensures
            v@ == self.options@[t as int]@,
    {
        let l = &self.options[t];
        let mut v: Vec<TilePlacement> = Vec::new();
        let mut k: usize = 0;
        while k < l.len()
            invariant
                k <= l@.len(),
                v@ == l@.take(k as int),
            decreases l@.len() - k,
        {
            v.push(l[k]);
            assert(l@.take(k as int + 1) =~= l@.take(k as int).push(l@[k as int]));
            k += 1;
        }
        assert(l@.take(k as int) =~= l@);
        v
    }

    /// Commits tile `t` at `q` where it fits, searches on, and, where that
    /// finds nothing, lifts the tile off again.
    fn try_on_field(&mut self, t: usize, q: TilePlacementOnField) -> (found: bool)
        requires
            old(self).wf(),
            t < old(self).tiles@.len(),
            !old(self).tiles@[t as int].placed,
            old(self).on_field_ok(t as int, q),
        ensures
            final(self).wf(),
            final(self).width == old(self).width,
            final(self).height == old(self).height,
            same_shapes(old(self).tiles@, final(self).tiles@),
            found ==> final(self).is_solved(),
            found ==> keeps_occupied(old(self).occupancy@, final(self).occupancy@),
            !found ==> final(self).tiles@ == old(self).tiles@ && final(self).occupancy@ == old(self).occupancy@
                && final(self).layout@ == old(self).layout@,
            forall|lay: Seq<Option<TilePlacementOnField>>| #[trigger] old(self).lays_out(lay)
                && same_cells(old(self).tiles@[t as int], q, lay[t as int]->Some_0) ==> found,
        decreases unplaced_count(old(self).tiles@), 0nat,
    {
        let ghost before = *self;
        match self.commit_on_field(t, q) {
            None => {
                proof {
                    assert forall|lay: Seq<Option<TilePlacementOnField>>| #[trigger] before.lays_out(lay)
                        && same_cells(before.tiles@[t as int], q, lay[t as int]->Some_0) implies false by {
                        let l = lay[t as int]->Some_0;
                        assert forall|i: int| 0 <= i < before.tile_len(t as int) implies
                            #[trigger] before.lands_open(t as int, q.square_id as int, q.rotation as int, q.x as int, q.y as int, i) by {
                            assert(before.lands_open(t as int, l.square_id as int, l.rotation as int, l.x as int, l.y as int, i));
                        }
                    }
                }
                false
            },
            Some(log) => {
                let ghost laid = *self;
                proof {
                    assert(same_shapes(before.tiles@, laid.tiles@));
                }
                if self.search() {
                    proof {
                        lemma_same_shapes_trans(before.tiles@, laid.tiles@, self.tiles@);
                        lemma_fits_inside(before, t as int, q);
                        assert forall|c: int| 0 <= c < before.occupancy@.len() && (#[trigger] before.occupancy@[c]) is Some
                            implies laid.occupancy@[c] == before.occupancy@[c] by {
                            if before.covers(t as int, q, c) {
                                let i = choose|i: int| 0 <= i < before.tile_len(t as int) && before.index_of(#[trigger] before.covered(t as int, q, i)) == c;
                                assert(before.is_open(before.index_of(before.covered(t as int, q, i))));
                            }
                        }
                        assert forall|c: int| 0 <= c < before.occupancy@.len() && (#[trigger] before.occupancy@[c]) is Some
                            implies self.occupancy@[c] == before.occupancy@[c] by {
                            assert(laid.occupancy@[c] == before.occupancy@[c]);
                        }
                    }
                    return true;
                }
                proof {
                    assert(same_shapes(before.tiles@, self.tiles@));
                    lemma_same_geometry(before, *self);
                    lemma_fits_inside(before, t as int, q);
                    assert forall|i: int, k: int| 0 <= i < log@.len() && 0 <= k < log@[i]@.len()
                        implies self.allocation_ok(#[trigger] log@[i]@[k]) by {
                        let cell = before.index_of(before.covered(t as int, q, i));
                        lemma_cells_distinct(before, t as int, q, i, i);
                        assert(Some(log@[i]) == before.field@[cell]);
                        assert(before.allocation_ok(before.list_at(cell)[k]));
                    }
                }
                proof {
                    assert forall|lay: Seq<Option<TilePlacementOnField>>| #[trigger] before.lays_out(lay)
                        && same_cells(before.tiles@[t as int], q, lay[t as int]->Some_0) implies false by {
                        lemma_lays_out_commit(before, laid, t, q, lay);
                        assert(laid.can_finish());
                    }
                }
                let ghost b = *self;
                self.undo_on_field(t, q, log);
                proof {
                    lemma_lift_restores(before, laid, b, *self, t, q, log@);
                }
                false
            },
        }
    }

    /// Sets tile `t` off the field, searches on, and, where that finds
    /// nothing, brings the tile back.
    fn try_off_field(&mut self, t: usize) -> (found: bool)
        requires
            old(self).wf(),
            t < old(self).tiles@.len(),
            !old(self).tiles@[t as int].placed,
        ensures
            final(self).wf(),
            final(self).width == old(self).width,
            final(self).height == old(self).height,
            same_shapes(old(self).tiles@, final(self).tiles@),
            found ==> final(self).is_solved(),
            found ==> keeps_occupied(old(self).occupancy@, final(self).occupancy@),
            !found ==> final(self).tiles@ == old(self).tiles@ && final(self).occupancy@ == old(self).occupancy@
                && final(self).layout@ == old(self).layout@,
        decreases unplaced_count(old(self).tiles@), 0nat,
    {
        let ghost before = *self;
        self.commit_off_field(t);
        let ghost laid = *self;
        assert(same_shapes(before.tiles@, laid.tiles@));
        if self.search() {
            proof {
                lemma_same_shapes_trans(before.tiles@, laid.tiles@, self.tiles@);
                assert forall|c: int| 0 <= c < before.occupancy@.len() && (#[trigger] before.occupancy@[c]) is Some
                    implies self.occupancy@[c] == before.occupancy@[c] by {
                    assert(laid.occupancy@[c] == before.occupancy@[c]);
                }
            }
            return true;
        }
        assert(before.layout@[t as int] is None);
        self.undo_off_field(t);
        assert(self.tiles@ =~= before.tiles@);
        false
    }

    /// Searches depth first for a way to fill every open cell. At each step
    /// the options are refreshed and the candidate lists rebuilt; then the
    /// open cell with the fewest candidates and the unplaced tile with the
    /// fewest options are found, and the search branches on the cell unless
    /// the tile has strictly fewer options, trying each option in order and
    /// undoing it when the search below it fails. Where no cell is open the
    /// field is filled and the search succeeds; a solution found is left in
    /// the state, and on failure the placed flags, the occupancy and the
    /// layout are as they were.
    pub fn search(&mut self) -> (found: bool)
        requires
            old(self).wf(),
        ensures
            final(self).wf(),
            final(self).width == old(self).width,
            final(self).height == old(self).height,
            same_shapes(old(self).tiles@, final(self).tiles@),
            found ==> final(self).is_solved(),
            found ==> keeps_occupied(old(self).occupancy@, final(self).occupancy@),
            !found ==> final(self).tiles@ == old(self).tiles@ && final(self).occupancy@ == old(self).occupancy@
                && final(self).layout@ == old(self).layout@,
            old(self).can_finish() ==> found,
        decreases unplaced_count(old(self).tiles@), 1nat,
    {
        self.reset_options();
        self.recompute();
        let ghost pre = *self;
        let ghost lay = choose|l: Seq<Option<TilePlacementOnField>>| pre.lays_out(l);
        let ghost fin = pre.can_finish();
        proof {
            if old(self).can_finish() {
                let l = choose|l: Seq<Option<TilePlacementOnField>>| old(self).lays_out(l);
                lemma_lays_out_frame(*old(self), pre, l);
            }
        }
        let (c, square_count) = match self.best_square() {
            None => {
                assert forall|c: int| 0 <= c < self.cells() implies (#[trigger] self.occupancy@[c]) is Some by {
                    assert(!self.is_open(c));
                }
                return true;
            },
            Some(b) => b,
        };
        let tile = self.best_tile();
        let by_square = branch_on_cell(square_count, tile);
        if by_square {
            let w = self.width;
            let x = c % w;
            let y = c / w;
            proof {
                lemma_split_index(c as int, w as int, self.height as int);
            }
            let cands = self.candidates_at(c);
            proof {
                if fin {
                    assert(pre.index_of((x as int, y as int)) == c);
                    assert(pre.rebuilt_at(x as int, y as int));
                    lemma_cell_witness(pre, lay, x as int, y as int);
                    let e = choose|e: SquareAllocation| #[trigger] pre.list_at(pre.index_of((x as int, y as int))).contains(e)
                        && e.id < pre.tiles@.len() && !pre.tiles@[e.id as int].placed
                        && same_cells(pre.tiles@[e.id as int], Packing::anchored(e, x, y), lay[e.id as int]->Some_0);
                    let m = choose|m: int| 0 <= m < cands@.len() && cands@[m] == e;
                    assert(cands@[m] == e);
                }
            }
            let ghost jj: int = if fin {
                choose|j: int| 0 <= j < cands@.len() && cands@[j].id < pre.tiles@.len()
                    && !pre.tiles@[cands@[j].id as int].placed
                    && same_cells(pre.tiles@[cands@[j].id as int], Packing::anchored(cands@[j], x, y), lay[cands@[j].id as int]->Some_0)
            } else {
                0
            };
            let mut i: usize = 0;
            while i < cands.len()
                invariant
                    self.wf(),
                    pre.wf(),
                    x < pre.width,
                    y < pre.height,
                    i <= cands@.len(),
                    forall|k: int| 0 <= k < cands@.len() ==> pre.allocation_ok(#[trigger] cands@[k]),
                    old(self).can_finish() ==> fin,
                    fin ==> pre.lays_out(lay) && i <= jj < cands@.len() && cands@[jj].id < pre.tiles@.len()
                        && !pre.tiles@[cands@[jj].id as int].placed
                        && same_cells(pre.tiles@[cands@[jj].id as int], Packing::anchored(cands@[jj], x, y), lay[cands@[jj].id as int]->Some_0),
                    self.width == pre.width,
                    self.height == pre.height,
                    self.tiles@ == pre.tiles@,
                    self.occupancy@ == pre.occupancy@,
                    self.layout@ == pre.layout@,
                    pre.tiles@ == old(self).tiles@,
                    pre.occupancy@ == old(self).occupancy@,
                    pre.layout@ == old(self).layout@,
                    pre.width == old(self).width,
                    pre.height == old(self).height,
                decreases cands@.len() - i,
            {
                let a = cands[i];
                assert(pre.allocation_ok(cands@[i as int]));
                if !self.tiles[a.id].placed {
                    let q = TilePlacementOnField { square_id: a.square_id, x, y, rotation: a.rotation };
                    proof {
                        if fin && i == jj {
                            lemma_lays_out_frame(pre, *self, lay);
                            assert(q == Packing::anchored(a, x, y));
                        }
                    }
                    if self.try_on_field(a.id, q) {
                        return true;
                    }
                }
                i += 1;
            }
            false
        } else {
            let t = match tile {
                Some((t, _)) => t,
                None => 0,
            };
            let opts = self.options_of(t);
            proof {
                if fin {
                    lemma_tile_witness(pre, lay, t as int);
                }
            }
            let ghost jj: int = if fin {
                choose|k: int| 0 <= k < opts@.len() && (#[trigger] opts@[k]) is OnField
                    && same_cells(pre.tiles@[t as int], opts@[k]->OnField_0, lay[t as int]->Some_0)
            } else {
                0
            };
            let mut i: usize = 0;
            while i < opts.len()
                invariant
                    self.wf(),
                    pre.wf(),
                    t < pre.tiles@.len(),
                    !pre.tiles@[t as int].placed,
                    i <= opts@.len(),
                    forall|k: int| 0 <= k < opts@.len() ==> pre.placement_ok(t as int, #[trigger] opts@[k]),
                    old(self).can_finish() ==> fin,
                    fin ==> pre.lays_out(lay) && i <= jj < opts@.len() && opts@[jj] is OnField
                        && same_cells(pre.tiles@[t as int], opts@[jj]->OnField_0, lay[t as int]->Some_0),
                    self.width == pre.width,
                    self.height == pre.height,
                    self.tiles@ == pre.tiles@,
                    self.occupancy@ == pre.occupancy@,
                    self.layout@ == pre.layout@,
                    pre.tiles@ == old(self).tiles@,
                    pre.occupancy@ == old(self).occupancy@,
                    pre.layout@ == old(self).layout@,
                    pre.width == old(self).width,
                    pre.height == old(self).height,
                decreases opts@.len() - i,
            {
                assert(pre.placement_ok(t as int, opts@[i as int]));
                proof {
                    if fin && i == jj {
                        lemma_lays_out_frame(pre, *self, lay);
                    }
                }
                let found = match opts[i] {
                    TilePlacement::OffField => self.try_off_field(t),
                    TilePlacement::OnField(q) => self.try_on_field(t, q),
                };
                if found {
                    return true;
                }
                i += 1;
            }
            false
        }
    }
}

/// Tile lists alike in shape to a third are alike in shape to each other.
proof fn lemma_same_shapes_trans(a: Seq<Tile>, b: Seq<Tile>, c: Seq<Tile>)
    requires
        same_shapes(a, b),
        same_shapes(b, c),
    ensures
        same_shapes(a, c),
{
    assert forall|t: int| 0 <= t < a.len() implies (#[trigger] a[t]).squares@ == c[t].squares@ && a[t].rot_sym == c[t].rot_sym by {
        assert(b[t].squares@ == c[t].squares@);
    }
}

/// The row and column of a cell index inside the grid.
proof fn lemma_split_index(c: int, w: int, h: int)
    requires
        0 <= w,
        0 <= h,
        0 <= c < w * h,
    ensures
        w > 0,
        0 <= c % w < w,
        0 <= c / w < h,
        (c / w) * w + c % w == c,
{
    if w == 0 {
        assert(w * h == 0);
    }
    vstd::arithmetic::div_mod::lemma_fundamental_div_mod(c, w);
    assert((c / w) * w == w * (c / w)) by (nonlinear_arith);
    assert(0 <= c / w) by (nonlinear_arith)
        requires
            0 <= c,
            w > 0,
    ;
    assert(c / w < h) by (nonlinear_arith)
        requires
            0 <= c < w * h,
            w > 0,
            c == w * (c / w) + c % w,
            0 <= c % w,
    ;
}

impl Packing {
    /// Tile `t` is unplaced, and its square `a`, anchored at `(x, y)` in
    /// rotation `r`, gives a placement that fits.
    pub open spec fn fits_unplaced(&self, t: int, a: int, r: int, x: int, y: int) -> bool {
        &&& 0 <= t < self.tiles@.len()
        &&& !self.tiles@[t].placed
        &&& 0 <= a < self.tile_len(t)
        &&& self.tiles@[t].valid_rotation(r)
        &&& self.fits(t, a, r, x, y)
    }

    /// `b` lists at cell `(x, y)` every placement that fits there in `self`.
    pub open spec fn lists_all(&self, b: Packing, x: int, y: int) -> bool {
        forall|t: int, a: int, r: int| #[trigger] self.fits_unplaced(t, a, r, x, y)
            ==> b.list_at(self.index_of((x, y))).contains(SquareAllocation { id: t as usize, square_id: a as usize, rotation: r as u8 })
    }

    /// `b` lists at cell `(x, y)` exactly the placements that fit there in
    /// `self`: each listed candidate fits, and each that fits is listed.
    pub open spec fn rebuilt_in(&self, b: Packing, x: int, y: int) -> bool {
        &&& forall|e: SquareAllocation| #[trigger] b.list_at(self.index_of((x, y))).contains(e)
            ==> self.fits_unplaced(e.id as int, e.square_id as int, e.rotation as int, x, y)
        &&& self.lists_all(b, x, y)
    }

    /// The candidate list of cell `(x, y)` holds exactly the placements that
    /// fit there: each listed candidate names an unplaced tile, one of its
    /// squares and one of its rotations, and anchored there it fits; and
    /// every such candidate that fits is listed.
    pub open spec fn rebuilt_at(&self, x: int, y: int) -> bool {
        self.rebuilt_in(*self, x, y)
    }
}

/// `b` lists at every open cell what `a` listed there, and whatever more it
/// lists there is a placement of an unplaced tile that fits at that cell in
/// `a`.
pub open spec fn grows_soundly(a: Packing, b: Packing) -> bool {
    &&& forall|k: int, e: SquareAllocation|
        0 <= k < a.cells() && a.is_open(k) && a.list_at(k).contains(e) ==> #[trigger] b.list_at(k).contains(e)
    &&& forall|x: int, y: int, e: SquareAllocation|
        0 <= x < a.width && 0 <= y < a.height && a.is_open(a.index_of((x, y)))
            && #[trigger] b.list_at(a.index_of((x, y))).contains(e) && !a.list_at(a.index_of((x, y))).contains(e)
            ==> a.fits_unplaced(e.id as int, e.square_id as int, e.rotation as int, x, y)
}

/// Every candidate that `b` lists beyond what `a` listed at an open cell has
/// a matching option in `b`.
pub open spec fn new_entries_optioned(a: Packing, b: Packing) -> bool {
    forall|x: int, y: int, e: SquareAllocation|
        0 <= x < a.width && 0 <= y < a.height && a.is_open(a.index_of((x, y)))
            && #[trigger] b.list_at(a.index_of((x, y))).contains(e) && !a.list_at(a.index_of((x, y))).contains(e)
            ==> b.has_option(e.id as int, Packing::anchored(e, x as usize, y as usize))
}

impl Packing {
    /// Every candidate listed at cell `(x, y)` has a matching option.
    pub open spec fn optioned_at(&self, x: int, y: int) -> bool {
        forall|e: SquareAllocation| #[trigger] self.list_at(self.index_of((x, y))).contains(e)
            ==> self.has_option(e.id as int, Packing::anchored(e, x as usize, y as usize))
    }
}

impl Packing {
    /// `lay` lays every unplaced tile on the field in one of its rotations,
    /// inside the field and on open cells, no two tiles on one cell, and
    /// together they cover every open cell.
    pub open spec fn lays_out(&self, lay: Seq<Option<TilePlacementOnField>>) -> bool {
        &&& lay.len() == self.tiles@.len()
        &&& forall|t: int| 0 <= t < self.tiles@.len() && !self.tiles@[t].placed ==> {
            &&& (#[trigger] lay[t]) is Some
            &&& self.on_field_ok(t, lay[t]->Some_0)
            &&& self.fits(t, (lay[t]->Some_0).square_id as int, (lay[t]->Some_0).rotation as int,
                (lay[t]->Some_0).x as int, (lay[t]->Some_0).y as int)
        }
        &&& forall|t1: int, t2: int, c: int|
            0 <= t1 < self.tiles@.len() && 0 <= t2 < self.tiles@.len() && t1 != t2
                && !self.tiles@[t1].placed && !self.tiles@[t2].placed
                && #[trigger] self.covers(t1, lay[t1]->Some_0, c) ==> !#[trigger] self.covers(t2, lay[t2]->Some_0, c)
        &&& forall|c: int| 0 <= c < self.cells() && self.is_open(c) ==> exists|t: int|
            0 <= t < self.tiles@.len() && !self.tiles@[t].placed && #[trigger] self.covers(t, lay[t]->Some_0, c)
    }

    /// The unplaced tiles can all be laid on the field so that they cover
    /// the open cells exactly.
    pub open spec fn can_finish(&self) -> bool {
        exists|lay: Seq<Option<TilePlacementOnField>>| #[trigger] self.lays_out(lay)
    }
}

pub proof fn lemma_same_cells_sym(tile: Tile, q1: TilePlacementOnField, q2: TilePlacementOnField)
    requires
        same_cells(tile, q1, q2),
    ensures
        same_cells(tile, q2, q1),
{
    assert forall|j: int| 0 <= j < tile.squares@.len() implies
        #[trigger] target(tile, q2.square_id as int, q2.rotation as int, q2.x as int, q2.y as int, j)
            == target(tile, q1.square_id as int, q1.rotation as int, q1.x as int, q1.y as int, j) by {
        assert(target(tile, q1.square_id as int, q1.rotation as int, q1.x as int, q1.y as int, j)
            == target(tile, q2.square_id as int, q2.rotation as int, q2.x as int, q2.y as int, j));
    }
}

/// A layout of the unplaced tiles stays one in a state that differs only in
/// candidate lists and options.
proof fn lemma_lays_out_frame(a: Packing, b: Packing, lay: Seq<Option<TilePlacementOnField>>)
    requires
        a.wf(),
        b.wf(),
        a.width == b.width,
        a.height == b.height,
        a.tiles@ == b.tiles@,
        a.occupancy@ == b.occupancy@,
        a.lays_out(lay),
    ensures
        b.lays_out(lay),
{
    lemma_fits_frame(a, b);
    assert(same_shapes(a.tiles@, b.tiles@));
    lemma_same_geometry(a, b);
    assert forall|c: int| 0 <= c < b.cells() && b.is_open(c) implies exists|t: int|
        0 <= t < b.tiles@.len() && !b.tiles@[t].placed && #[trigger] b.covers(t, lay[t]->Some_0, c) by {
        assert(a.is_open(c));
        let t = choose|t: int| 0 <= t < a.tiles@.len() && !a.tiles@[t].placed && #[trigger] a.covers(t, lay[t]->Some_0, c);
        assert(b.covers(t, lay[t]->Some_0, c));
    }
    assert forall|t1: int, t2: int, c: int|
        0 <= t1 < b.tiles@.len() && 0 <= t2 < b.tiles@.len() && t1 != t2
            && !b.tiles@[t1].placed && !b.tiles@[t2].placed
            && #[trigger] b.covers(t1, lay[t1]->Some_0, c) implies !#[trigger] b.covers(t2, lay[t2]->Some_0, c) by {
        assert(a.covers(t1, lay[t1]->Some_0, c));
    }
}

/// Laying an unplaced tile where the layout puts it leaves a layout of the
/// rest.
proof fn lemma_lays_out_commit(a: Packing, b: Packing, t: usize, q: TilePlacementOnField, lay: Seq<Option<TilePlacementOnField>>)
    requires
        a.wf(),
        b.wf(),
        t < a.tiles@.len(),
        !a.tiles@[t as int].placed,
        a.lays_out(lay),
        same_cells(a.tiles@[t as int], q, lay[t as int]->Some_0),
        b.is_laid(a, t, q),
    ensures
        b.lays_out(lay),
{
    let ti = t as int;
    let l = lay[ti]->Some_0;
    assert(same_shapes(a.tiles@, b.tiles@));
    lemma_same_geometry(a, b);
    assert forall|c: int| #[trigger] a.covers(ti, q, c) == a.covers(ti, l, c) by {
        if a.covers(ti, q, c) {
            let j = choose|j: int| 0 <= j < a.tile_len(ti) && a.index_of(#[trigger] a.covered(ti, q, j)) == c;
            assert(a.covered(ti, q, j) == a.covered(ti, l, j));
        }
        if a.covers(ti, l, c) {
            let j = choose|j: int| 0 <= j < a.tile_len(ti) && a.index_of(#[trigger] a.covered(ti, l, j)) == c;
            assert(a.covered(ti, q, j) == a.covered(ti, l, j));
        }
    }
    assert forall|u: int| 0 <= u < b.tiles@.len() && !b.tiles@[u].placed implies {
        &&& (#[trigger] lay[u]) is Some
        &&& b.on_field_ok(u, lay[u]->Some_0)
        &&& b.fits(u, (lay[u]->Some_0).square_id as int, (lay[u]->Some_0).rotation as int,
            (lay[u]->Some_0).x as int, (lay[u]->Some_0).y as int)
    } by {
        assert(u != ti);
        assert(!a.tiles@[u].placed);
        let lu = lay[u]->Some_0;
        assert forall|i: int| 0 <= i < b.tile_len(u) implies
            #[trigger] b.lands_open(u, lu.square_id as int, lu.rotation as int, lu.x as int, lu.y as int, i) by {
            assert(a.lands_open(u, lu.square_id as int, lu.rotation as int, lu.x as int, lu.y as int, i));
            let p = a.covered(u, lu, i);
            lemma_cell_index(p.0, p.1, a.width as int, a.height as int);
            let k = a.index_of(p);
            assert(a.covers(u, lu, k));
            assert(!a.covers(ti, l, k));
            assert(b.field@[k] == a.field@[k]);
        }
    }
    assert forall|c: int| 0 <= c < b.cells() && b.is_open(c) implies exists|u: int|
        0 <= u < b.tiles@.len() && !b.tiles@[u].placed && #[trigger] b.covers(u, lay[u]->Some_0, c) by {
        assert(b.field@[c] == if a.covers(ti, q, c) { None } else { a.field@[c] });
        assert(a.is_open(c));
        let u = choose|u: int| 0 <= u < a.tiles@.len() && !a.tiles@[u].placed && #[trigger] a.covers(u, lay[u]->Some_0, c);
        assert(u != ti);
        assert(b.covers(u, lay[u]->Some_0, c));
    }
    assert forall|t1: int, t2: int, c: int|
        0 <= t1 < b.tiles@.len() && 0 <= t2 < b.tiles@.len() && t1 != t2
            && !b.tiles@[t1].placed && !b.tiles@[t2].placed
            && #[trigger] b.covers(t1, lay[t1]->Some_0, c) implies !#[trigger] b.covers(t2, lay[t2]->Some_0, c) by {
        assert(t1 != ti && t2 != ti);
        assert(a.covers(t1, lay[t1]->Some_0, c));
    }
}

/// Where a layout exists, the candidates of an open cell, rebuilt, include one
/// that puts its tile where the layout does.
proof fn lemma_cell_witness(pre: Packing, lay: Seq<Option<TilePlacementOnField>>, x: int, y: int)
    requires
        pre.wf(),
        pre.lays_out(lay),
        0 <= x < pre.width,
        0 <= y < pre.height,
        pre.is_open(pre.index_of((x, y))),
        pre.rebuilt_at(x, y),
    ensures
        exists|e: SquareAllocation| #[trigger] pre.list_at(pre.index_of((x, y))).contains(e)
            && e.id < pre.tiles@.len() && !pre.tiles@[e.id as int].placed
            && same_cells(pre.tiles@[e.id as int], Packing::anchored(e, x as usize, y as usize), lay[e.id as int]->Some_0),
{
    let c = pre.index_of((x, y));
    lemma_cell_index(x, y, pre.width as int, pre.height as int);
    let u = choose|u: int| 0 <= u < pre.tiles@.len() && !pre.tiles@[u].placed && #[trigger] pre.covers(u, lay[u]->Some_0, c);
    let l = lay[u]->Some_0;
    let i = choose|i: int| 0 <= i < pre.tile_len(u) && pre.index_of(#[trigger] pre.covered(u, l, i)) == c;
    let tile = pre.tiles@[u];
    let a = l.square_id as int;
    let r = l.rotation as int;
    let p = pre.covered(u, l, i);
    assert(pre.lands_open(u, a, r, l.x as int, l.y as int, i));
    lemma_cell_index_injective(p, (x, y), pre.width as int);
    assert forall|j: int| 0 <= j < pre.tile_len(u) implies #[trigger] pre.lands_open(u, i, r, x, y, j) by {
        lemma_shift_anchor(tile, a, r, l.x as int, l.y as int, i, j);
        assert(pre.lands_open(u, a, r, l.x as int, l.y as int, j));
    }
    assert(pre.fits_unplaced(u, i, r, x, y));
    let e = SquareAllocation { id: u as usize, square_id: i as usize, rotation: r as u8 };
    assert(tile.squares.len() == tile.squares@.len());
    assert(e.id as int == u && e.square_id as int == i && e.rotation as int == r);
    assert(pre.list_at(pre.index_of((x, y))).contains(e));
    assert forall|j: int| 0 <= j < tile.squares@.len() implies
        #[trigger] target(tile, i, r, x, y, j) == target(tile, a, r, l.x as int, l.y as int, j) by {
        lemma_shift_anchor(tile, a, r, l.x as int, l.y as int, i, j);
    }
    assert(same_cells(pre.tiles@[e.id as int], Packing::anchored(e, x as usize, y as usize), lay[e.id as int]->Some_0));
}

/// Where a layout exists, every unplaced tile has, once candidates are
/// rebuilt, an option that puts it where the layout does.
proof fn lemma_tile_witness(pre: Packing, lay: Seq<Option<TilePlacementOnField>>, t: int)
    requires
        pre.wf(),
        pre.lays_out(lay),
        0 <= t < pre.tiles@.len(),
        !pre.tiles@[t].placed,
        forall|x: int, y: int| 0 <= x < pre.width && 0 <= y < pre.height
            && pre.is_open(pre.index_of((x, y))) ==> #[trigger] pre.rebuilt_at(x, y),
        forall|x: int, y: int| 0 <= x < pre.width && 0 <= y < pre.height
            && pre.is_open(pre.index_of((x, y))) ==> #[trigger] pre.optioned_at(x, y),
    ensures
        exists|k: int| 0 <= k < pre.options@[t]@.len() && (#[trigger] pre.options@[t]@[k]) is OnField
            && same_cells(pre.tiles@[t], pre.options@[t]@[k]->OnField_0, lay[t]->Some_0),
{
    let l = lay[t]->Some_0;
    let a = l.square_id as int;
    let r = l.rotation as int;
    let x = l.x as int;
    let y = l.y as int;
    assert(pre.lands_open(t, a, r, x, y, a));
    assert(pre.covered(t, l, a) == (x, y));
    assert(pre.is_open(pre.index_of((x, y))));
    assert(pre.rebuilt_at(x, y));
    assert(pre.optioned_at(x, y));
    assert(pre.fits_unplaced(t, a, r, x, y));
    let e = SquareAllocation { id: t as usize, square_id: a as usize, rotation: r as u8 };
    assert(pre.list_at(pre.index_of((x, y))).contains(e));
    assert(Packing::anchored(e, x as usize, y as usize) == l);
    assert(pre.has_option(t, l));
    let k = choose|k: int| 0 <= k < pre.options@[t]@.len() && (#[trigger] pre.options@[t]@[k]) is OnField
        && same_cells(pre.tiles@[t], l, pre.options@[t]@[k]->OnField_0);
    lemma_same_cells_sym(pre.tiles@[t], l, pre.options@[t]@[k]->OnField_0);
}

/// `b` has a matching option for every candidate it lists at cell `(x, y)`
/// of `a`'s grid.
pub open spec fn optioned_in(a: Packing, b: Packing, x: int, y: int) -> bool {
    forall|e: SquareAllocation| #[trigger] b.list_at(a.index_of((x, y))).contains(e)
        ==> b.has_option(e.id as int, Packing::anchored(e, x as usize, y as usize))
}

/// Clearing cell `(x, y)` and filling it again leaves it, and every cell
/// rebuilt before it, with a matching option for every candidate.
proof fn lemma_optioned_step(pre: Packing, s0: Packing, s1: Packing, s2: Packing, x: int, y: int)
    requires
        pre.wf(),
        s0.wf(),
        s1.wf(),
        0 <= x < pre.width,
        0 <= y < pre.height,
        pre.width == s0.width && s0.width == s1.width,
        pre.height == s0.height && s0.height == s1.height,
        pre.tiles@ == s0.tiles@ && s0.tiles@ == s1.tiles@ && s1.tiles@ == s2.tiles@,
        forall|c: int| 0 <= c < pre.cells() ==> #[trigger] pre.is_open(c) == s1.is_open(c),
        pre.is_open(pre.index_of((x, y))),
        s1.field@.len() == s0.field@.len(),
        s1.field@[pre.index_of((x, y))] is Some,
        s1.list_at(pre.index_of((x, y))).len() == 0,
        forall|k: int| 0 <= k < s0.field@.len() && k != pre.index_of((x, y)) ==> #[trigger] s1.field@[k] == s0.field@[k],
        s1.options@ == s0.options@,
        options_grow(s1, s2),
        new_entries_optioned(s1, s2),
        forall|k: int, e: SquareAllocation|
            0 <= k < s1.cells() && s1.is_open(k) && s1.list_at(k).contains(e) ==> #[trigger] s2.list_at(k).contains(e),
        forall|x2: int, y2: int| 0 <= x2 < pre.width && 0 <= y2 < pre.height
            && (y2 < y || (y2 == y && x2 < x))
            && pre.is_open(pre.index_of((x2, y2))) ==> #[trigger] optioned_in(pre, s0, x2, y2),
    ensures
        forall|x2: int, y2: int| 0 <= x2 < pre.width && 0 <= y2 < pre.height
            && (y2 < y || (y2 == y && x2 < x + 1))
            && pre.is_open(pre.index_of((x2, y2))) ==> #[trigger] optioned_in(pre, s2, x2, y2),
{
    let c = pre.index_of((x, y));
    lemma_cell_index(x, y, pre.width as int, pre.height as int);
    assert(options_grow(s0, s1));
    assert forall|x2: int, y2: int| 0 <= x2 < pre.width && 0 <= y2 < pre.height
        && (y2 < y || (y2 == y && x2 < x + 1))
        && pre.is_open(pre.index_of((x2, y2))) implies #[trigger] optioned_in(pre, s2, x2, y2) by {
        let k = pre.index_of((x2, y2));
        lemma_cell_index(x2, y2, pre.width as int, pre.height as int);
        assert(s1.is_open(k));
        assert(s1.index_of((x2, y2)) == k);
        assert forall|e: SquareAllocation| #[trigger] s2.list_at(pre.index_of((x2, y2))).contains(e)
            implies s2.has_option(e.id as int, Packing::anchored(e, x2 as usize, y2 as usize)) by {
            assert(s2.list_at(s1.index_of((x2, y2))).contains(e));
            if s1.list_at(k).contains(e) {
                // The cleared cell lists nothing, so this is an earlier cell.
                assert(k != c);
                assert(s1.list_at(k) == s0.list_at(k));
                assert(optioned_in(pre, s0, x2, y2));
                assert(s0.list_at(pre.index_of((x2, y2))).contains(e));
                assert(s0.has_option(e.id as int, Packing::anchored(e, x2 as usize, y2 as usize)));
                assert(s0.options@.len() == s0.tiles@.len());
                let m = choose|m: int| 0 <= m < s0.list_at(k).len() && s0.list_at(k)[m] == e;
                assert(s0.allocation_ok(s0.list_at(k)[m]));
                lemma_options_grow_trans(s0, s1, s2);
                lemma_has_option_grow(s0, s2, e.id as int, Packing::anchored(e, x2 as usize, y2 as usize));
            } else {
                assert(!s1.list_at(s1.index_of((x2, y2))).contains(e));
            }
        }
    }
}

/// One call of `try_place` keeps options growing and new candidates matched
/// by options.
proof fn lemma_option_step(pre: Packing, mid: Packing, post: Packing, s: SquareAllocation, x: usize, y: usize)
    requires
        pre.wf(),
        mid.wf(),
        pre.width == mid.width,
        pre.height == mid.height,
        pre.tiles@ == mid.tiles@ && mid.tiles@ == post.tiles@,
        forall|c: int| 0 <= c < pre.cells() ==> #[trigger] pre.is_open(c) == mid.is_open(c),
        options_grow(pre, mid),
        new_entries_optioned(pre, mid),
        options_grow(mid, post),
        forall|k: int, e: SquareAllocation|
            0 <= k < mid.cells() && mid.is_open(k) && mid.list_at(k).contains(e) ==> #[trigger] post.list_at(k).contains(e),
        forall|x2: int, y2: int, e: SquareAllocation|
            0 <= x2 < mid.width && 0 <= y2 < mid.height && mid.is_open(mid.index_of((x2, y2)))
                && #[trigger] post.list_at(mid.index_of((x2, y2))).contains(e)
                && !mid.list_at(mid.index_of((x2, y2))).contains(e)
                ==> post.has_option(e.id as int, Packing::anchored(e, x2 as usize, y2 as usize)),
    ensures
        options_grow(pre, post),
        new_entries_optioned(pre, post),
{
    lemma_options_grow_trans(pre, mid, post);
    assert forall|x2: int, y2: int, e: SquareAllocation|
        0 <= x2 < pre.width && 0 <= y2 < pre.height && pre.is_open(pre.index_of((x2, y2)))
            && #[trigger] post.list_at(pre.index_of((x2, y2))).contains(e) && !pre.list_at(pre.index_of((x2, y2))).contains(e)
            implies post.has_option(e.id as int, Packing::anchored(e, x2 as usize, y2 as usize)) by {
        let k = pre.index_of((x2, y2));
        lemma_cell_index(x2, y2, pre.width as int, pre.height as int);
        assert(mid.index_of((x2, y2)) == k);
        assert(mid.is_open(k));
        assert(post.list_at(mid.index_of((x2, y2))).contains(e));
        if mid.list_at(k).contains(e) {
            assert(mid.list_at(pre.index_of((x2, y2))).contains(e));
            assert(mid.has_option(e.id as int, Packing::anchored(e, x2 as usize, y2 as usize)));
            let m = choose|m: int| 0 <= m < mid.list_at(k).len() && mid.list_at(k)[m] == e;
            assert(mid.allocation_ok(mid.list_at(k)[m]));
            lemma_has_option_grow(mid, post, e.id as int, Packing::anchored(e, x2 as usize, y2 as usize));
        } else {
            assert(!mid.list_at(mid.index_of((x2, y2))).contains(e));
        }
    }
}

proof fn lemma_grows_refl(a: Packing)
    ensures
        grows_soundly(a, a),
{
}

/// Whether a placement fits depends on the size, the tiles and which cells
/// are occupied alone.
proof fn lemma_fits_frame(a: Packing, b: Packing)
    requires
        a.wf(),
        b.wf(),
        a.width == b.width,
        a.height == b.height,
        a.tiles@ == b.tiles@,
        a.occupancy@ == b.occupancy@,
    ensures
        forall|c: int| 0 <= c < a.cells() ==> #[trigger] a.is_open(c) == b.is_open(c),
        forall|t: int, s: int, r: int, x: int, y: int| #[trigger] a.fits(t, s, r, x, y) == b.fits(t, s, r, x, y),
        forall|t: int, s: int, r: int, x: int, y: int| #[trigger] a.fits_unplaced(t, s, r, x, y) == b.fits_unplaced(t, s, r, x, y),
{
    assert forall|c: int| 0 <= c < a.cells() implies #[trigger] a.is_open(c) == b.is_open(c) by {
        assert(a.field@[c] is None <==> a.occupancy@[c] is Some);
        assert(b.field@[c] is None <==> b.occupancy@[c] is Some);
    }
    assert forall|t: int, s: int, r: int, x: int, y: int, i: int|
        #[trigger] a.lands_open(t, s, r, x, y, i) == b.lands_open(t, s, r, x, y, i) by {
        let p = target(a.tiles@[t], s, r, x, y, i);
        if a.in_field(p) {
            lemma_cell_index(p.0, p.1, a.width as int, a.height as int);
            assert(a.is_open(a.index_of(p)) == b.is_open(b.index_of(p)));
        }
    }
    assert forall|t: int, s: int, r: int, x: int, y: int| #[trigger] a.fits(t, s, r, x, y) == b.fits(t, s, r, x, y) by {
        if a.fits(t, s, r, x, y) {
            assert forall|i: int| 0 <= i < b.tile_len(t) implies #[trigger] b.lands_open(t, s, r, x, y, i) by {
                assert(a.lands_open(t, s, r, x, y, i));
            }
        }
        if b.fits(t, s, r, x, y) {
            assert forall|i: int| 0 <= i < a.tile_len(t) implies #[trigger] a.lands_open(t, s, r, x, y, i) by {
                assert(b.lands_open(t, s, r, x, y, i));
            }
        }
    }
}

/// One call of `try_place` for an unplaced tile keeps the lists growing
/// soundly.
proof fn lemma_grows_step(pre: Packing, mid: Packing, post: Packing, s: SquareAllocation)
    requires
        pre.wf(),
        mid.wf(),
        post.wf(),
        pre.width == mid.width && mid.width == post.width,
        pre.height == mid.height && mid.height == post.height,
        pre.tiles@ == mid.tiles@ && mid.tiles@ == post.tiles@,
        pre.occupancy@ == mid.occupancy@ && mid.occupancy@ == post.occupancy@,
        s.id < pre.tiles@.len(),
        !pre.tiles@[s.id as int].placed,
        forall|t: int, a: int, r: int, x: int, y: int| #[trigger] pre.fits(t, a, r, x, y) == mid.fits(t, a, r, x, y),
        forall|c: int| 0 <= c < pre.cells() ==> #[trigger] pre.is_open(c) == mid.is_open(c),
        grows_soundly(pre, mid),
        forall|k: int, e: SquareAllocation|
            0 <= k < mid.cells() && mid.is_open(k) && mid.list_at(k).contains(e) ==> #[trigger] post.list_at(k).contains(e),
        forall|x2: int, y2: int, e: SquareAllocation|
            0 <= x2 < mid.width && 0 <= y2 < mid.height && mid.is_open(mid.index_of((x2, y2)))
                && #[trigger] post.list_at(mid.index_of((x2, y2))).contains(e)
                && !mid.list_at(mid.index_of((x2, y2))).contains(e)
                ==> e.id == s.id && mid.fits(e.id as int, e.square_id as int, e.rotation as int, x2, y2),
    ensures
        grows_soundly(pre, post),
{
    assert forall|x: int, y: int, e: SquareAllocation|
        0 <= x < pre.width && 0 <= y < pre.height && pre.is_open(pre.index_of((x, y)))
            && #[trigger] post.list_at(pre.index_of((x, y))).contains(e) && !pre.list_at(pre.index_of((x, y))).contains(e)
            implies pre.fits_unplaced(e.id as int, e.square_id as int, e.rotation as int, x, y) by {
        let k = pre.index_of((x, y));
        lemma_cell_index(x, y, pre.width as int, pre.height as int);
        assert(mid.is_open(k));
        assert(mid.index_of((x, y)) == k);
        assert(post.list_at(mid.index_of((x, y))).contains(e));
        if mid.list_at(k).contains(e) {
        } else {
            assert(!mid.list_at(mid.index_of((x, y))).contains(e));
            assert(e.id == s.id);
            assert(mid.fits(e.id as int, e.square_id as int, e.rotation as int, x, y));
            let m = choose|m: int| 0 <= m < post.list_at(k).len() && post.list_at(k)[m] == e;
            assert(post.allocation_ok(post.list_at(k)[m]));
        }
    }
}

/// Clearing cell `(x, y)` and filling it again leaves it, and every cell
/// rebuilt before it, holding exactly the placements that fit.
proof fn lemma_rebuilt_step(pre: Packing, s0: Packing, s1: Packing, s2: Packing, x: int, y: int)
    requires
        pre.wf(),
        s0.wf(),
        s1.wf(),
        s2.wf(),
        0 <= x < pre.width,
        0 <= y < pre.height,
        pre.width == s0.width && s0.width == s1.width,
        pre.height == s0.height && s0.height == s1.height,
        pre.tiles@ == s0.tiles@ && s0.tiles@ == s1.tiles@,
        pre.occupancy@ == s0.occupancy@ && s0.occupancy@ == s1.occupancy@,
        forall|t: int, a: int, r: int, u: int, v: int| #[trigger] pre.fits(t, a, r, u, v) == s1.fits(t, a, r, u, v),
        forall|t: int, a: int, r: int, u: int, v: int| #[trigger] pre.fits_unplaced(t, a, r, u, v) == s1.fits_unplaced(t, a, r, u, v),
        forall|c: int| 0 <= c < pre.cells() ==> #[trigger] pre.is_open(c) == s1.is_open(c),
        pre.is_open(pre.index_of((x, y))),
        s1.field@.len() == s0.field@.len(),
        s1.field@[pre.index_of((x, y))] is Some,
        s1.list_at(pre.index_of((x, y))).len() == 0,
        forall|k: int| 0 <= k < s0.field@.len() && k != pre.index_of((x, y)) ==> #[trigger] s1.field@[k] == s0.field@[k],
        grows_soundly(s1, s2),
        s1.lists_all(s2, x, y),
        forall|x2: int, y2: int| 0 <= x2 < pre.width && 0 <= y2 < pre.height
            && (y2 < y || (y2 == y && x2 < x))
            && pre.is_open(pre.index_of((x2, y2))) ==> #[trigger] pre.rebuilt_in(s0, x2, y2),
    ensures
        forall|x2: int, y2: int| 0 <= x2 < pre.width && 0 <= y2 < pre.height
            && (y2 < y || (y2 == y && x2 < x + 1))
            && pre.is_open(pre.index_of((x2, y2))) ==> #[trigger] pre.rebuilt_in(s2, x2, y2),
{
    let c = pre.index_of((x, y));
    lemma_cell_index(x, y, pre.width as int, pre.height as int);
    assert forall|x2: int, y2: int| 0 <= x2 < pre.width && 0 <= y2 < pre.height
        && (y2 < y || (y2 == y && x2 < x + 1))
        && pre.is_open(pre.index_of((x2, y2))) implies #[trigger] pre.rebuilt_in(s2, x2, y2) by {
        let k = pre.index_of((x2, y2));
        lemma_cell_index(x2, y2, pre.width as int, pre.height as int);
        assert(s1.is_open(k));
        assert(s1.index_of((x2, y2)) == k);
        if x2 == x && y2 == y {
            assert(s1.list_at(c).len() == 0);
            assert forall|e: SquareAllocation| #[trigger] s2.list_at(k).contains(e)
                implies pre.fits_unplaced(e.id as int, e.square_id as int, e.rotation as int, x2, y2) by {
                assert(!s1.list_at(k).contains(e));
                assert(s2.list_at(s1.index_of((x2, y2))).contains(e));
                assert(!s1.list_at(s1.index_of((x2, y2))).contains(e));
                assert(s1.fits_unplaced(e.id as int, e.square_id as int, e.rotation as int, x2, y2));
            }
            assert forall|t: int, a: int, r: int| #[trigger] pre.fits_unplaced(t, a, r, x2, y2)
                implies s2.list_at(k).contains(SquareAllocation { id: t as usize, square_id: a as usize, rotation: r as u8 }) by {
                assert(s1.fits_unplaced(t, a, r, x2, y2));
            }
        } else {
            if k == c {
                lemma_cell_index_injective((x2, y2), (x, y), pre.width as int);
            }
            assert(pre.rebuilt_in(s0, x2, y2));
            assert(s1.list_at(k) == s0.list_at(k));
            assert forall|e: SquareAllocation| #[trigger] s2.list_at(k).contains(e)
                implies pre.fits_unplaced(e.id as int, e.square_id as int, e.rotation as int, x2, y2) by {
                if !s1.list_at(k).contains(e) {
                    assert(s2.list_at(s1.index_of((x2, y2))).contains(e));
                    assert(!s1.list_at(s1.index_of((x2, y2))).contains(e));
                    assert(s1.fits_unplaced(e.id as int, e.square_id as int, e.rotation as int, x2, y2));
                } else {
                    assert(s0.list_at(k).contains(e));
                }
            }
            assert forall|t: int, a: int, r: int| #[trigger] pre.fits_unplaced(t, a, r, x2, y2)
                implies s2.list_at(k).contains(SquareAllocation { id: t as usize, square_id: a as usize, rotation: r as u8 }) by {
                assert(s0.list_at(k).contains(SquareAllocation { id: t as usize, square_id: a as usize, rotation: r as u8 }));
                assert(s1.list_at(k).contains(SquareAllocation { id: t as usize, square_id: a as usize, rotation: r as u8 }));
            }
        }
    }
}

/// Whether the search branches on the best cell, with `cell_count`
/// candidates, rather than on the best tile: it does unless a tile is
/// unplaced with strictly fewer options; on equal counts the cell wins.
pub fn branch_on_cell(cell_count: usize, tile: Option<(usize, usize)>) -> (r: bool)
    ensures
        r == match tile {
            None => true,
            Some((_, k)) => cell_count <= k,
        },
{
    match tile {
        None => true,
        Some((_, k)) => cell_count <= k,
    }
}

/// The number of rotations worth trying for a symmetry class.
pub fn rotations_of(s: RotSym) -> (r: u8)
    ensures
        r as nat == crate::tile::rotation_count(s),
{
    match s {
        RotSym::QuarterTurns => 1,
        RotSym::HalfTurns => 2,
        RotSym::FullTurns => 4,
    }
}

} // verus!
