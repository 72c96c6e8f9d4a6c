//! Axial hex coordinates `(q, r)` for a pointy-topped board; the implicit
//! third axis is `s = -q - r`.

use vstd::prelude::*;

verus! {

/// The base terrain category of a hex tile.
#[derive(Debug, Clone, Copy, PartialEq, Eq, Structural)]
pub enum HexTileType {
    Grass,
    Water,
    Mountain,
    DataCenterCenter,
}

/// A 2D axial coordinate on the hex grid.
#[derive(Debug, Clone, Copy, PartialEq, Eq, Hash, Structural)]
pub struct HexCoord {
    pub q: i32,
    pub r: i32,
}

/// A single tile of the playing field.
#[derive(Debug, Clone, Copy, PartialEq, Eq, Structural)]
pub struct HexTile {
    pub coord: HexCoord,
    pub tile_type: HexTileType,
}

pub open spec fn abs_int(x: int) -> int {
    if x < 0 {
        -x
    } else {
        x
    }
}

pub open spec fn fits_i32(x: int) -> bool {
    i32::MIN <= x <= i32::MAX
}

/// The number of steps between two cells: half the L1 norm of their cube
/// coordinate difference.
pub open spec fn hex_distance(a: HexCoord, b: HexCoord) -> int {
    (abs_int(a.q - b.q) + abs_int(a.q + a.r - b.q - b.r) + abs_int(a.r - b.r)) / 2
}

/// Every intermediate value of the 32-bit distance computation, taken in the
/// order `|a.q - b.q| + |a.q + a.r - b.q - b.r| + |a.r - b.r|`, is a
/// representable `i32` whose absolute value is representable too.
pub open spec fn distance_fits(a: HexCoord, b: HexCoord) -> bool {
    let dq = a.q - b.q;
    let s1 = a.q + a.r;
    let s2 = s1 - b.q;
    let ds = s2 - b.r;
    let dr = a.r - b.r;
    &&& fits_i32(dq) && dq != i32::MIN
    &&& fits_i32(s1) && fits_i32(s2)
    &&& fits_i32(ds) && ds != i32::MIN
    &&& fits_i32(dr) && dr != i32::MIN
    &&& fits_i32(abs_int(dq) + abs_int(ds))
    &&& fits_i32(abs_int(dq) + abs_int(ds) + abs_int(dr))
}

/// The cells at most two steps from the origin: a board of 19 cells.
pub open spec fn on_board(c: HexCoord) -> bool {
    abs_int(c.q as int) <= 2 && abs_int(c.r as int) <= 2 && abs_int(c.q + c.r) <= 2
}

fn abs_i32(x: i32) -> (y: i32)
    requires
        x != i32::MIN,
    ensures
        y == abs_int(x as int),
{
    if x < 0 {
        -x
    } else {
        x
    }
}

impl HexCoord {
    /// Creates a new hex coordinate pair.
    pub fn new(q: i32, r: i32) -> (c: Self)
        ensures
            c.q == q,
            c.r == r,
    {
        HexCoord { q, r }
    }

    /// The minimum number of steps between two hex coordinates.
    pub fn distance(&self, other: &Self) -> (d: i32)
        requires
            distance_fits(*self, *other),
        ensures
            d == hex_distance(*self, *other),
    {
        let a = abs_i32(self.q - other.q);
        let b = abs_i32(self.q + self.r - other.q - other.r);
        let c = abs_i32(self.r - other.r);
        (a + b + c) / 2
    }

    /// Whether the coordinate lies on the 19-cell board around the origin.
    pub fn is_on_board(&self) -> (b: bool)
        requires
            self.q != i32::MIN,
            abs_int(self.q as int) <= 2 ==> self.r != i32::MIN,
        ensures
            b == on_board(*self),
    {
        abs_i32(self.q) <= 2 && abs_i32(self.r) <= 2 && abs_i32(self.q + self.r) <= 2
    }

    /// Whether the two cells are neighbours: exactly one step apart. Works
    /// for every pair of coordinates (the arithmetic is done in 64 bits).
    pub fn is_adjacent(&self, other: &Self) -> (b: bool)
        ensures
            b == (hex_distance(*self, *other) == 1),
    {
        let dq: i64 = self.q as i64 - other.q as i64;
        let dr: i64 = self.r as i64 - other.r as i64;
        let ds: i64 = dq + dr;
        let aq: i64 = if dq < 0 { -dq } else { dq };
        let ar: i64 = if dr < 0 { -dr } else { dr };
        let as_: i64 = if ds < 0 { -ds } else { ds };
        assert(ds == self.q + self.r - other.q - other.r);
        (aq + as_ + ar) / 2 == 1
    }
}

pub open spec fn max3(x: int, y: int, z: int) -> int {
    if x >= y && x >= z {
        x
    } else if y >= z {
        y
    } else {
        z
    }
}

/// The distance is the largest of the three cube-axis differences.
proof fn lemma_distance_is_max(a: HexCoord, b: HexCoord)
    ensures
        hex_distance(a, b) == max3(
            abs_int(a.q - b.q),
            abs_int(a.r - b.r),
            abs_int(a.q + a.r - b.q - b.r),
        ),
{
}

/// The distance is symmetric.
pub proof fn law_distance_symmetric(a: HexCoord, b: HexCoord)
    ensures
        hex_distance(a, b) == hex_distance(b, a),
{
    lemma_distance_is_max(a, b);
    lemma_distance_is_max(b, a);
}

/// The distance from a cell to another is zero exactly when they are the
/// same cell, and positive otherwise.
pub proof fn law_distance_zero(a: HexCoord, b: HexCoord)
    ensures
        hex_distance(a, b) >= 0,
        hex_distance(a, b) == 0 <==> a == b,
{
    lemma_distance_is_max(a, b);
}

/// Going through a third cell is never shorter.
pub proof fn law_distance_triangle(a: HexCoord, b: HexCoord, c: HexCoord)
    ensures
        hex_distance(a, c) <= hex_distance(a, b) + hex_distance(b, c),
{
    lemma_distance_is_max(a, b);
    lemma_distance_is_max(b, c);
    lemma_distance_is_max(a, c);
}

/// A cell is on the board exactly when it is at most two steps from the
/// origin.
pub proof fn law_board_is_radius_two(c: HexCoord)
    ensures
        on_board(c) <==> hex_distance(c, HexCoord { q: 0, r: 0 }) <= 2,
{
    lemma_distance_is_max(c, HexCoord { q: 0, r: 0 });
}

/// The cells of the board, column by column.
pub open spec fn board_cells() -> Seq<HexCoord> {
    seq![
        HexCoord { q: -2i32, r: 0i32 },
        HexCoord { q: -2i32, r: 1i32 },
        HexCoord { q: -2i32, r: 2i32 },
        HexCoord { q: -1i32, r: -1i32 },
        HexCoord { q: -1i32, r: 0i32 },
        HexCoord { q: -1i32, r: 1i32 },
        HexCoord { q: -1i32, r: 2i32 },
        HexCoord { q: 0i32, r: -2i32 },
        HexCoord { q: 0i32, r: -1i32 },
        HexCoord { q: 0i32, r: 0i32 },
        HexCoord { q: 0i32, r: 1i32 },
        HexCoord { q: 0i32, r: 2i32 },
        HexCoord { q: 1i32, r: -2i32 },
        HexCoord { q: 1i32, r: -1i32 },
        HexCoord { q: 1i32, r: 0i32 },
        HexCoord { q: 1i32, r: 1i32 },
        HexCoord { q: 2i32, r: -2i32 },
        HexCoord { q: 2i32, r: -1i32 },
        HexCoord { q: 2i32, r: 0i32 },
    ]
}

/// The board has exactly 19 cells: those listed by `board_cells`, each
/// once.
pub proof fn law_board_has_19_cells()
    ensures
        board_cells().len() == 19,
        board_cells().no_duplicates(),
        forall|c: HexCoord| #[trigger] on_board(c) <==> board_cells().contains(c),
        Set::new(|c: HexCoord| on_board(c)) == board_cells().to_set(),
        Set::new(|c: HexCoord| on_board(c)).len() == 19,
{
    let s = board_cells();
    assert(s.len() == 19);
    assert forall|i: int, j: int| 0 <= i < s.len() && 0 <= j < s.len() && i != j implies s[i] != s[j] by {
        assert(0 <= i < 19 && 0 <= j < 19);
    }
    assert forall|c: HexCoord| #[trigger] on_board(c) <==> s.contains(c) by {
        if on_board(c) {
            lemma_board_cell_listed(c);
        }
        if s.contains(c) {
            let i = choose|i: int| 0 <= i < s.len() && s[i] == c;
            assert(0 <= i < 19);
        }
    }
    assert(Set::new(|c: HexCoord| on_board(c)) =~= s.to_set());
    s.unique_seq_to_set();
}

proof fn lemma_board_cell_listed(c: HexCoord)
    requires
        on_board(c),
    ensures
        board_cells().contains(c),
{
    let s = board_cells();
    if c.q == -2 && c.r == 0 {
        assert(s[0] == c);
    } else if c.q == -2 && c.r == 1 {
        assert(s[1] == c);
    } else if c.q == -2 && c.r == 2 {
        assert(s[2] == c);
    } else if c.q == -1 && c.r == -1 {
        assert(s[3] == c);
    } else if c.q == -1 && c.r == 0 {
        assert(s[4] == c);
    } else if c.q == -1 && c.r == 1 {
        assert(s[5] == c);
    } else if c.q == -1 && c.r == 2 {
        assert(s[6] == c);
    } else if c.q == 0 && c.r == -2 {
        assert(s[7] == c);
    } else if c.q == 0 && c.r == -1 {
        assert(s[8] == c);
    } else if c.q == 0 && c.r == 0 {
        assert(s[9] == c);
    } else if c.q == 0 && c.r == 1 {
        assert(s[10] == c);
    } else if c.q == 0 && c.r == 2 {
        assert(s[11] == c);
    } else if c.q == 1 && c.r == -2 {
        assert(s[12] == c);
    } else if c.q == 1 && c.r == -1 {
        assert(s[13] == c);
    } else if c.q == 1 && c.r == 0 {
        assert(s[14] == c);
    } else if c.q == 1 && c.r == 1 {
        assert(s[15] == c);
    } else if c.q == 2 && c.r == -2 {
        assert(s[16] == c);
    } else if c.q == 2 && c.r == -1 {
        assert(s[17] == c);
    } else if c.q == 2 && c.r == 0 {
        assert(s[18] == c);
    }
}

} // verus!
