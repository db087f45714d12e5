use vstd::prelude::*;

verus! {

/// How a tile maps onto itself under rotation, and so which rotations of it
/// are worth trying.
#[derive(Clone, Copy, PartialEq, Eq, Debug, Structural)]
pub enum RotSym {
    /// Maps onto itself under a quarter turn: only rotation 0 is meaningful.
    QuarterTurns,
    /// Maps onto itself under a half turn: rotation 1 is a half turn.
    HalfTurns,
    /// No rotational self-symmetry: rotations 0..4 are quarter-turn steps.
    FullTurns,
}

/// One polyomino: the offsets of its unit squares, its symmetry class, and
/// whether it is committed to the current partial solution.
#[derive(Clone, Debug)]
pub struct Tile {
    pub squares: Vec<(i8, i8)>,
    pub rot_sym: RotSym,
    pub placed: bool,
}

/// A square offset as a point of the integer plane.
pub open spec fn point(p: (i8, i8)) -> (int, int) {
    (p.0 as int, p.1 as int)
}

/// A quarter turn counter-clockwise about the origin.
pub open spec fn quarter_turn(p: (int, int)) -> (int, int) {
    (-p.1, p.0)
}

/// `k` quarter turns counter-clockwise about the origin.
pub open spec fn turn(p: (int, int), k: nat) -> (int, int)
    decreases k,
{
    if k == 0 {
        p
    } else {
        quarter_turn(turn(p, (k - 1) as nat))
    }
}

/// How many distinct rotations a tile of this class has.
pub open spec fn rotation_count(s: RotSym) -> nat {
    match s {
        RotSym::QuarterTurns => 1,
        RotSym::HalfTurns => 2,
        RotSym::FullTurns => 4,
    }
}

/// The number of quarter turns that rotation `r` stands for in this class:
/// for a half-turn symmetric tile each step is a half turn.
pub open spec fn quarter_turns_of(s: RotSym, r: int) -> nat {
    if s == RotSym::HalfTurns {
        (2 * r) as nat
    } else {
        r as nat
    }
}

/// No two squares of the shape share an offset.
pub open spec fn distinct_squares(s: Seq<(i8, i8)>) -> bool {
    forall|i: int, j: int| 0 <= i < j < s.len() ==> #[trigger] s[i] != #[trigger] s[j]
}

/// Turning is one to one.
pub proof fn lemma_turn_injective(p: (int, int), q: (int, int), k: nat)
    requires
        turn(p, k) == turn(q, k),
    ensures
        p == q,
    decreases k,
{
    if k > 0 {
        lemma_turn_injective(p, q, (k - 1) as nat);
    }
}

/// An offset whose negation is still an `i8`.
pub open spec fn coord_ok(p: (i8, i8)) -> bool {
    p.0 > -128 && p.1 > -128
}

impl Tile {
    /// A tile has at least one square, no two squares alike, and every offset
    /// can be negated.
    pub open spec fn wf(&self) -> bool {
        &&& self.squares@.len() > 0
        &&& forall|i: int| 0 <= i < self.squares@.len() ==> coord_ok(#[trigger] self.squares@[i])
        &&& distinct_squares(self.squares@)
    }

    pub open spec fn valid_rotation(&self, r: int) -> bool {
        0 <= r < rotation_count(self.rot_sym)
    }

    /// Where square `i` lies under rotation `r`.
    pub open spec fn rotated(&self, i: int, r: int) -> (int, int) {
        turn(point(self.squares@[i]), quarter_turns_of(self.rot_sym, r))
    }

    /// The offset of square `square_id` under `rotation`: rotation 0 is the
    /// identity, and each further step is a quarter turn counter-clockwise
    /// (a half turn for a half-turn symmetric tile).
    pub fn get_square_rotated(&self, square_id: usize, rotation: u8) -> (r: (i8, i8))
        requires
            self.wf(),
            square_id < self.squares.len(),
            self.valid_rotation(rotation as int),
        ensures
            point(r) == self.rotated(square_id as int, rotation as int),
    {
        let p = self.squares[square_id];
        assert(coord_ok(self.squares@[square_id as int]));
        reveal_with_fuel(turn, 4);
        match (self.rot_sym, rotation) {
            (_, 0) => p,
            (RotSym::FullTurns, 1) => (-p.1, p.0),
            (RotSym::FullTurns, 2) | (RotSym::HalfTurns, 1) => (-p.0, -p.1),
            _ => (p.1, -p.0),
        }
    }
}


/// The shape holds point `p`.
pub open spec fn contains_point(s: Seq<(i8, i8)>, p: (int, int)) -> bool {
    exists|j: int| 0 <= j < s.len() && point(#[trigger] s[j]) == p
}

/// Turning every square by `k` quarter turns and shifting by `(tx, ty)` lands
/// each square on a square of the shape; the map being one to one, the shape
/// is reproduced.
pub open spec fn maps_onto(s: Seq<(i8, i8)>, k: nat, tx: int, ty: int) -> bool {
    forall|i: int|
        0 <= i < s.len() ==> contains_point(
            s,
            (turn(point(#[trigger] s[i]), k).0 + tx, turn(point(s[i]), k).1 + ty),
        )
}

/// Some shift in the window `[0, 10) x [0, 10)` makes `k` quarter turns
/// reproduce the shape.
pub open spec fn symmetric_under(s: Seq<(i8, i8)>, k: nat) -> bool {
    exists|tx: int, ty: int| 0 <= tx < 10 && 0 <= ty < 10 && #[trigger] maps_onto(s, k, tx, ty)
}

/// The symmetry class detected for a shape.
pub open spec fn symmetry_class(s: Seq<(i8, i8)>) -> RotSym {
    if symmetric_under(s, 1) {
        RotSym::QuarterTurns
    } else if symmetric_under(s, 2) {
        RotSym::HalfTurns
    } else {
        RotSym::FullTurns
    }
}

/// The squares of one row of a shape glyph block, left to right: one for each
/// character that is not a space.
pub open spec fn row_squares(row: Seq<char>, y: int) -> Seq<(int, int)>
    decreases row.len(),
{
    if row.len() == 0 {
        seq![]
    } else {
        row_squares(row.drop_last(), y) + if row.last() != ' ' {
            seq![((row.len() - 1) as int, y)]
        } else {
            seq![]
        }
    }
}

/// The squares of a shape glyph block, row by row.
pub open spec fn shape_squares(lines: Seq<Seq<char>>) -> Seq<(int, int)>
    decreases lines.len(),
{
    if lines.len() == 0 {
        seq![]
    } else {
        shape_squares(lines.drop_last()) + row_squares(lines.last(), lines.len() - 1)
    }
}

pub open spec fn points_of(s: Seq<(i8, i8)>) -> Seq<(int, int)> {
    s.map_values(|p: (i8, i8)| point(p))
}

pub open spec fn lines_view(lines: Seq<String>) -> Seq<Seq<char>> {
    lines.map_values(|l: String| l@)
}

/// Whether the shape holds `p`.
fn contains(s: &Vec<(i8, i8)>, p: (i32, i32)) -> (r: bool)
    ensures
        r == contains_point(s@, (p.0 as int, p.1 as int)),
{
    let mut j: usize = 0;
    while j < s.len()
        invariant
            j <= s.len(),
            forall|k: int| 0 <= k < j ==> point(#[trigger] s@[k]) != (p.0 as int, p.1 as int),
        decreases s.len() - j,
    {
        if s[j].0 as i32 == p.0 && s[j].1 as i32 == p.1 {
            return true;
        }
        j += 1;
    }
    false
}

/// Whether `k` quarter turns (1 or 2) and the shift `(tx, ty)` map the shape
/// onto itself.
fn maps_onto_by(s: &Vec<(i8, i8)>, k: u8, tx: i32, ty: i32) -> (r: bool)
    requires
        k == 1 || k == 2,
        0 <= tx < 10,
        0 <= ty < 10,
    ensures
        r == maps_onto(s@, k as nat, tx as int, ty as int),
{
    reveal_with_fuel(turn, 3);
    let mut i: usize = 0;
    while i < s.len()
        invariant
            k == 1 || k == 2,
            0 <= tx < 10,
            0 <= ty < 10,
            i <= s.len(),
            forall|m: int|
                0 <= m < i ==> contains_point(
                    s@,
                    (
                        turn(point(#[trigger] s@[m]), k as nat).0 + tx,
                        turn(point(s@[m]), k as nat).1 + ty,
                    ),
                ),
        decreases s.len() - i,
    {
        let q = s[i];
        let image: (i32, i32) = if k == 1 {
            (-(q.1 as i32) + tx, q.0 as i32 + ty)
        } else {
            (-(q.0 as i32) + tx, -(q.1 as i32) + ty)
        };
        reveal_with_fuel(turn, 3);
        assert((image.0 as int, image.1 as int) == (
            turn(point(s@[i as int]), k as nat).0 + tx,
            turn(point(s@[i as int]), k as nat).1 + ty,
        ));
        if !contains(s, image) {
            return false;
        }
        i += 1;
    }
    true
}

/// Whether some shift in the window makes `k` quarter turns reproduce the
/// shape.
fn symmetric_by(s: &Vec<(i8, i8)>, k: u8) -> (r: bool)
    requires
        k == 1 || k == 2,
    ensures
        r == symmetric_under(s@, k as nat),
{
    let mut ty: i32 = 0;
    while ty < 10
        invariant
            k == 1 || k == 2,
            0 <= ty <= 10,
            forall|a: int, b: int| 0 <= a < 10 && 0 <= b < ty ==> !#[trigger] maps_onto(s@, k as nat, a, b),
        decreases 10 - ty,
    {
        let mut tx: i32 = 0;
        while tx < 10
            invariant
                k == 1 || k == 2,
                0 <= ty < 10,
                0 <= tx <= 10,
                forall|a: int, b: int| 0 <= a < 10 && 0 <= b < ty ==> !#[trigger] maps_onto(s@, k as nat, a, b),
                forall|a: int| 0 <= a < tx ==> !#[trigger] maps_onto(s@, k as nat, a, ty as int),
            decreases 10 - tx,
        {
            if maps_onto_by(s, k, tx, ty) {
                return true;
            }
            tx += 1;
        }
        ty += 1;
    }
    false
}

impl Tile {
    /// A tile of the given squares, unplaced, with its symmetry class detected.
    pub fn new(squares: Vec<(i8, i8)>) -> (t: Tile)
        requires
            squares@.len() > 0,
            forall|i: int| 0 <= i < squares@.len() ==> coord_ok(#[trigger] squares@[i]),
            distinct_squares(squares@),
        ensures
            t.wf(),
            t.squares@ == squares@,
            t.rot_sym == symmetry_class(squares@),
            !t.placed,
    {
        let rot_sym = if symmetric_by(&squares, 1) {
            RotSym::QuarterTurns
        } else if symmetric_by(&squares, 2) {
            RotSym::HalfTurns
        } else {
            RotSym::FullTurns
        };
        Tile { squares, rot_sym, placed: false }
    }

    /// The tile drawn by a block of lines, where every character that is not a
    /// space marks a square at its (column, row) offset; `None` where no line
    /// marks any square.
    pub fn from_shape(lines: &Vec<String>) -> (r: Option<Tile>)
        requires
            lines@.len() <= 127,
            forall|y: int| 0 <= y < lines@.len() ==> (#[trigger] lines@[y])@.len() <= 127,
        ensures
            r is None <==> shape_squares(lines_view(lines@)).len() == 0,
            r matches Some(t) ==> {
                &&& t.wf()
                &&& points_of(t.squares@) == shape_squares(lines_view(lines@))
                &&& t.rot_sym == symmetry_class(t.squares@)
                &&& !t.placed
            },
    {
        let ghost lv = lines_view(lines@);
        let mut squares: Vec<(i8, i8)> = Vec::new();
        let mut y: usize = 0;
        while y < lines.len()
            invariant
                lv == lines_view(lines@),
                lines@.len() <= 127,
                forall|v: int| 0 <= v < lines@.len() ==> (#[trigger] lines@[v])@.len() <= 127,
                y <= lines.len(),
                points_of(squares@) == shape_squares(lv.take(y as int)),
                forall|i: int| 0 <= i < squares@.len() ==> (#[trigger] squares@[i]).0 >= 0 && squares@[i].1 >= 0,
                forall|i: int| 0 <= i < squares@.len() ==> ((#[trigger] squares@[i]).1 as int) < y,
                distinct_squares(squares@),
            decreases lines.len() - y,
        {
            let line = lines[y].as_str();
            let n = line.unicode_len();
            assert(lv.take(y as int + 1).drop_last() =~= lv.take(y as int));
            assert(lv.take(y as int + 1).last() == line@);
            let ghost before = squares@;
            let mut x: usize = 0;
            while x < n
                invariant
                    lv == lines_view(lines@),
                    y < lines@.len() <= 127,
                    n == line@.len() <= 127,
                    line@ == lines@[y as int]@,
                    x <= n,
                    points_of(squares@) == points_of(before) + row_squares(line@.take(x as int), y as int),
                    forall|i: int| 0 <= i < squares@.len() ==> (#[trigger] squares@[i]).0 >= 0 && squares@[i].1 >= 0,
                    forall|i: int| 0 <= i < squares@.len() ==> ((#[trigger] squares@[i]).1 as int) < y
                        || (squares@[i].1 as int == y && (squares@[i].0 as int) < x),
                    distinct_squares(squares@),
                decreases n - x,
            {
                let c = line.get_char(x);
                assert(line@.take(x as int + 1).drop_last() =~= line@.take(x as int));
                let ghost prev = squares@;
                if c != ' ' {
                    squares.push((x as i8, y as i8));
                    assert(points_of(squares@) =~= points_of(prev) + seq![(x as int, y as int)]);
                }
                x += 1;
            }
            assert(line@.take(n as int) =~= line@);
            y += 1;
        }
        assert(lv.take(lines@.len() as int) =~= lv);
        if squares.len() == 0 {
            None
        } else {
            Some(Tile::new(squares))
        }
    }
}

/// What rotation 1 of a tile of class `s` does to a point.
pub open spec fn step(s: RotSym, p: (int, int)) -> (int, int) {
    turn(p, quarter_turns_of(s, 1))
}

/// Rotation 1 applied four times brings every square of a tile without
/// symmetry back to its offset, and rotations 2 and 3 are rotation 1 applied
/// twice and three times; for a half-turn symmetric tile two applications
/// of rotation 1 bring every square back. Rotation 0 leaves every square
/// where it is, and a quarter-turn symmetric tile has rotation 0 alone
/// (`get_square_rotated` requires a valid rotation).
pub proof fn lemma_rotation_round_trip(t: Tile, i: int)
    requires
        t.wf(),
        0 <= i < t.squares@.len(),
    ensures
        t.rotated(i, 0) == point(t.squares@[i]),
        t.rot_sym == RotSym::FullTurns ==> {
            let s = t.rot_sym;
            &&& step(s, step(s, step(s, t.rotated(i, 1)))) == point(t.squares@[i])
            &&& t.rotated(i, 2) == step(s, t.rotated(i, 1))
            &&& t.rotated(i, 3) == step(s, t.rotated(i, 2))
        },
        t.rot_sym == RotSym::HalfTurns ==> step(t.rot_sym, t.rotated(i, 1)) == point(t.squares@[i]),
        t.rot_sym == RotSym::QuarterTurns ==> forall|r: int| #[trigger] t.valid_rotation(r) ==> r == 0,
{
    reveal_with_fuel(turn, 5);
}

} // verus!
