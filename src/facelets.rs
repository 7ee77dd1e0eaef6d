//! The 54 stickers of the cube's net and their colors.
use vstd::prelude::*;

use crate::cube::{Cube, CubeState};

verus! {

/// The six sticker colors.
#[derive(Clone, Copy, Debug, PartialEq, Eq, Structural)]
pub enum Color {
    White,
    Yellow,
    Red,
    Orange,
    Blue,
    Green,
}

/// What a facelet shows: a center of a fixed color, or one sticker of the
/// edge or corner piece at a position (position, sticker index).
#[derive(Clone, Copy, Debug, PartialEq, Eq, Structural)]
pub enum FaceletAssociation {
    Center(Color),
    Edge(u8, u8),
    Corner(u8, u8),
}

/// The two colors of each edge piece, sticker by sticker.
pub open spec fn edge_color_table(p: int) -> Seq<Color> {
    if p == 0 {
        seq![Color::White, Color::Blue]
    } else if p == 1 {
        seq![Color::White, Color::Red]
    } else if p == 2 {
        seq![Color::White, Color::Green]
    } else if p == 3 {
        seq![Color::White, Color::Orange]
    } else if p == 4 {
        seq![Color::Blue, Color::Orange]
    } else if p == 5 {
        seq![Color::Blue, Color::Red]
    } else if p == 6 {
        seq![Color::Green, Color::Red]
    } else if p == 7 {
        seq![Color::Green, Color::Orange]
    } else if p == 8 {
        seq![Color::Yellow, Color::Blue]
    } else if p == 9 {
        seq![Color::Yellow, Color::Red]
    } else if p == 10 {
        seq![Color::Yellow, Color::Green]
    } else {
        seq![Color::Yellow, Color::Orange]
    }
}

/// The three colors of each corner piece, sticker by sticker.
pub open spec fn corner_color_table(p: int) -> Seq<Color> {
    if p == 0 {
        seq![Color::White, Color::Orange, Color::Blue]
    } else if p == 1 {
        seq![Color::White, Color::Blue, Color::Red]
    } else if p == 2 {
        seq![Color::White, Color::Red, Color::Green]
    } else if p == 3 {
        seq![Color::White, Color::Green, Color::Orange]
    } else if p == 4 {
        seq![Color::Yellow, Color::Blue, Color::Orange]
    } else if p == 5 {
        seq![Color::Yellow, Color::Red, Color::Blue]
    } else if p == 6 {
        seq![Color::Yellow, Color::Green, Color::Red]
    } else {
        seq![Color::Yellow, Color::Orange, Color::Green]
    }
}

/// Which piece and which of its stickers each of the 54 facelets shows
/// on the solved cube.
pub open spec fn facelet_assoc(f: int) -> FaceletAssociation {
    if f == 0 {
        FaceletAssociation::Corner(0, 0)
    } else if f == 1 {
        FaceletAssociation::Edge(0, 0)
    } else if f == 2 {
        FaceletAssociation::Corner(1, 0)
    } else if f == 3 {
        FaceletAssociation::Edge(3, 0)
    } else if f == 4 {
        FaceletAssociation::Center(Color::White)
    } else if f == 5 {
        FaceletAssociation::Edge(1, 0)
    } else if f == 6 {
        FaceletAssociation::Corner(3, 0)
    } else if f == 7 {
        FaceletAssociation::Edge(2, 0)
    } else if f == 8 {
        FaceletAssociation::Corner(2, 0)
    } else if f == 9 {
        FaceletAssociation::Corner(0, 1)
    } else if f == 10 {
        FaceletAssociation::Edge(3, 1)
    } else if f == 11 {
        FaceletAssociation::Corner(3, 2)
    } else if f == 12 {
        FaceletAssociation::Corner(3, 1)
    } else if f == 13 {
        FaceletAssociation::Edge(2, 1)
    } else if f == 14 {
        FaceletAssociation::Corner(2, 2)
    } else if f == 15 {
        FaceletAssociation::Corner(2, 1)
    } else if f == 16 {
        FaceletAssociation::Edge(1, 1)
    } else if f == 17 {
        FaceletAssociation::Corner(1, 2)
    } else if f == 18 {
        FaceletAssociation::Corner(1, 1)
    } else if f == 19 {
        FaceletAssociation::Edge(0, 1)
    } else if f == 20 {
        FaceletAssociation::Corner(0, 2)
    } else if f == 21 {
        FaceletAssociation::Edge(4, 1)
    } else if f == 22 {
        FaceletAssociation::Center(Color::Orange)
    } else if f == 23 {
        FaceletAssociation::Edge(7, 1)
    } else if f == 24 {
        FaceletAssociation::Edge(7, 0)
    } else if f == 25 {
        FaceletAssociation::Center(Color::Green)
    } else if f == 26 {
        FaceletAssociation::Edge(6, 0)
    } else if f == 27 {
        FaceletAssociation::Edge(6, 1)
    } else if f == 28 {
        FaceletAssociation::Center(Color::Red)
    } else if f == 29 {
        FaceletAssociation::Edge(5, 1)
    } else if f == 30 {
        FaceletAssociation::Edge(5, 0)
    } else if f == 31 {
        FaceletAssociation::Center(Color::Blue)
    } else if f == 32 {
        FaceletAssociation::Edge(4, 0)
    } else if f == 33 {
        FaceletAssociation::Corner(4, 2)
    } else if f == 34 {
        FaceletAssociation::Edge(11, 1)
    } else if f == 35 {
        FaceletAssociation::Corner(7, 1)
    } else if f == 36 {
        FaceletAssociation::Corner(7, 2)
    } else if f == 37 {
        FaceletAssociation::Edge(10, 1)
    } else if f == 38 {
        FaceletAssociation::Corner(6, 1)
    } else if f == 39 {
        FaceletAssociation::Corner(6, 2)
    } else if f == 40 {
        FaceletAssociation::Edge(9, 1)
    } else if f == 41 {
        FaceletAssociation::Corner(5, 1)
    } else if f == 42 {
        FaceletAssociation::Corner(5, 2)
    } else if f == 43 {
        FaceletAssociation::Edge(8, 1)
    } else if f == 44 {
        FaceletAssociation::Corner(4, 1)
    } else if f == 45 {
        FaceletAssociation::Corner(7, 0)
    } else if f == 46 {
        FaceletAssociation::Edge(10, 0)
    } else if f == 47 {
        FaceletAssociation::Corner(6, 0)
    } else if f == 48 {
        FaceletAssociation::Edge(11, 0)
    } else if f == 49 {
        FaceletAssociation::Center(Color::Yellow)
    } else if f == 50 {
        FaceletAssociation::Edge(9, 0)
    } else if f == 51 {
        FaceletAssociation::Corner(4, 0)
    } else if f == 52 {
        FaceletAssociation::Edge(8, 0)
    } else {
        FaceletAssociation::Corner(5, 0)
    }
}

/// The positions and sticker indices of an association are in range.
pub open spec fn assoc_in_range(a: FaceletAssociation) -> bool {
    match a {
        FaceletAssociation::Center(_) => true,
        FaceletAssociation::Edge(p, o) => p < 12 && o < 2,
        FaceletAssociation::Corner(p, o) => p < 8 && o < 3,
    }
}

/// The color that an association shows on state `s`: the sticker of the
/// piece now at that position, shifted by the piece's twist or flip.
pub open spec fn assoc_color(a: FaceletAssociation, s: CubeState) -> Color {
    match a {
        FaceletAssociation::Corner(p, o) => corner_color_table(s.cp[p as int] as int)[(o + s.co[p as int]) % 3],
        FaceletAssociation::Edge(p, o) => edge_color_table(s.ep[p as int] as int)[(o + s.eo[p as int]) % 2],
        FaceletAssociation::Center(c) => c,
    }
}

/// The color of facelet `f` on state `s`.
pub open spec fn facelet_color(s: CubeState, f: int) -> Color {
    assoc_color(facelet_assoc(f), s)
}

/// The two colors of an edge piece.
pub fn edge_colors(edge: u8) -> (r: [Color; 2])
    requires
        edge < 12,
    ensures
        r@ == edge_color_table(edge as int),
{
    let r = match edge {
        0 => [Color::White, Color::Blue],
        1 => [Color::White, Color::Red],
        2 => [Color::White, Color::Green],
        3 => [Color::White, Color::Orange],
        4 => [Color::Blue, Color::Orange],
        5 => [Color::Blue, Color::Red],
        6 => [Color::Green, Color::Red],
        7 => [Color::Green, Color::Orange],
        8 => [Color::Yellow, Color::Blue],
        9 => [Color::Yellow, Color::Red],
        10 => [Color::Yellow, Color::Green],
        _ => [Color::Yellow, Color::Orange],
    };
    proof {
        assert(r@ =~= edge_color_table(edge as int));
    }
    r
}

/// The three colors of a corner piece.
pub fn corner_colors(corner: u8) -> (r: [Color; 3])
    requires
        corner < 8,
    ensures
        r@ == corner_color_table(corner as int),
{
    let r = match corner {
        0 => [Color::White, Color::Orange, Color::Blue],
        1 => [Color::White, Color::Blue, Color::Red],
        2 => [Color::White, Color::Red, Color::Green],
        3 => [Color::White, Color::Green, Color::Orange],
        4 => [Color::Yellow, Color::Blue, Color::Orange],
        5 => [Color::Yellow, Color::Red, Color::Blue],
        6 => [Color::Yellow, Color::Green, Color::Red],
        _ => [Color::Yellow, Color::Orange, Color::Green],
    };
    proof {
        assert(r@ =~= corner_color_table(corner as int));
    }
    r
}

/// Which piece and sticker a facelet shows.
pub fn associate_facelet(facelet: u8) -> (r: FaceletAssociation)
    requires
        facelet < 54,
    ensures
        r == facelet_assoc(facelet as int),
        assoc_in_range(r),
{
    match facelet {
        0 => FaceletAssociation::Corner(0, 0),
        1 => FaceletAssociation::Edge(0, 0),
        2 => FaceletAssociation::Corner(1, 0),
        3 => FaceletAssociation::Edge(3, 0),
        4 => FaceletAssociation::Center(Color::White),
        5 => FaceletAssociation::Edge(1, 0),
        6 => FaceletAssociation::Corner(3, 0),
        7 => FaceletAssociation::Edge(2, 0),
        8 => FaceletAssociation::Corner(2, 0),
        9 => FaceletAssociation::Corner(0, 1),
        10 => FaceletAssociation::Edge(3, 1),
        11 => FaceletAssociation::Corner(3, 2),
        12 => FaceletAssociation::Corner(3, 1),
        13 => FaceletAssociation::Edge(2, 1),
        14 => FaceletAssociation::Corner(2, 2),
        15 => FaceletAssociation::Corner(2, 1),
        16 => FaceletAssociation::Edge(1, 1),
        17 => FaceletAssociation::Corner(1, 2),
        18 => FaceletAssociation::Corner(1, 1),
        19 => FaceletAssociation::Edge(0, 1),
        20 => FaceletAssociation::Corner(0, 2),
        21 => FaceletAssociation::Edge(4, 1),
        22 => FaceletAssociation::Center(Color::Orange),
        23 => FaceletAssociation::Edge(7, 1),
        24 => FaceletAssociation::Edge(7, 0),
        25 => FaceletAssociation::Center(Color::Green),
        26 => FaceletAssociation::Edge(6, 0),
        27 => FaceletAssociation::Edge(6, 1),
        28 => FaceletAssociation::Center(Color::Red),
        29 => FaceletAssociation::Edge(5, 1),
        30 => FaceletAssociation::Edge(5, 0),
        31 => FaceletAssociation::Center(Color::Blue),
        32 => FaceletAssociation::Edge(4, 0),
        33 => FaceletAssociation::Corner(4, 2),
        34 => FaceletAssociation::Edge(11, 1),
        35 => FaceletAssociation::Corner(7, 1),
        36 => FaceletAssociation::Corner(7, 2),
        37 => FaceletAssociation::Edge(10, 1),
        38 => FaceletAssociation::Corner(6, 1),
        39 => FaceletAssociation::Corner(6, 2),
        40 => FaceletAssociation::Edge(9, 1),
        41 => FaceletAssociation::Corner(5, 1),
        42 => FaceletAssociation::Corner(5, 2),
        43 => FaceletAssociation::Edge(8, 1),
        44 => FaceletAssociation::Corner(4, 1),
        45 => FaceletAssociation::Corner(7, 0),
        46 => FaceletAssociation::Edge(10, 0),
        47 => FaceletAssociation::Corner(6, 0),
        48 => FaceletAssociation::Edge(11, 0),
        49 => FaceletAssociation::Center(Color::Yellow),
        50 => FaceletAssociation::Edge(9, 0),
        51 => FaceletAssociation::Corner(4, 0),
        52 => FaceletAssociation::Edge(8, 0),
        _ => FaceletAssociation::Corner(5, 0),
    }
}

impl FaceletAssociation {
    /// The color this association shows on `cube`.
    pub fn to_color(&self, cube: &Cube) -> (r: Color)
        requires
            cube.valid(),
            assoc_in_range(*self),
        ensures
            r == assoc_color(*self, cube@),
    {
        match *self {
            FaceletAssociation::Corner(cp, co) => {
                let cpi = cube.cp[cp as usize];
                let coi = ((co + cube.co[cp as usize]) % 3) as usize;
                corner_colors(cpi)[coi]
            },
            FaceletAssociation::Edge(ep, eo) => {
                let epi = cube.ep[ep as usize];
                let eoi = ((eo + cube.eo[ep as usize]) % 2) as usize;
                edge_colors(epi)[eoi]
            },
            FaceletAssociation::Center(color) => color,
        }
    }
}

impl Cube {
    /// The colors of the 54 facelets of the cube's net.
    pub fn to_facelets(&self) -> (r: [Color; 54])
        requires
            self.valid(),
        ensures
            forall|i: int| 0 <= i < 54 ==> r@[i] == facelet_color(self@, i),
    {
        let mut r = [Color::White; 54];
        let mut i: usize = 0;
        while i < 54
            invariant
                i <= 54,
                self.valid(),
                forall|k: int| 0 <= k < i ==> r@[k] == facelet_color(self@, k),
            decreases 54 - i,
        {
            r[i] = associate_facelet(i as u8).to_color(self);
            i += 1;
        }
        r
    }
}

/// A corner piece and its twist are determined by the colors its three
/// stickers show.
#[verifier::rlimit(100)]
pub proof fn lemma_corner_colors_determine(c1: int, t1: int, c2: int, t2: int)
    requires
        0 <= c1 < 8,
        0 <= c2 < 8,
        0 <= t1 < 3,
        0 <= t2 < 3,
        corner_color_table(c1)[t1 % 3] == corner_color_table(c2)[t2 % 3],
        corner_color_table(c1)[(1 + t1) % 3] == corner_color_table(c2)[(1 + t2) % 3],
        corner_color_table(c1)[(2 + t1) % 3] == corner_color_table(c2)[(2 + t2) % 3],
    ensures
        c1 == c2,
        t1 == t2,
{
    assert(c1 == 0 || c1 == 1 || c1 == 2 || c1 == 3 || c1 == 4 || c1 == 5 || c1 == 6 || c1 == 7);
    assert(t1 == 0 || t1 == 1 || t1 == 2);
}

/// An edge piece and its flip are determined by the colors its two stickers
/// show.
#[verifier::rlimit(100)]
pub proof fn lemma_edge_colors_determine(e1: int, f1: int, e2: int, f2: int)
    requires
        0 <= e1 < 12,
        0 <= e2 < 12,
        0 <= f1 < 2,
        0 <= f2 < 2,
        edge_color_table(e1)[f1 % 2] == edge_color_table(e2)[f2 % 2],
        edge_color_table(e1)[(1 + f1) % 2] == edge_color_table(e2)[(1 + f2) % 2],
    ensures
        e1 == e2,
        f1 == f2,
{
    assert(e1 == 0 || e1 == 1 || e1 == 2 || e1 == 3 || e1 == 4 || e1 == 5 || e1 == 6 || e1 == 7 || e1 == 8
        || e1 == 9 || e1 == 10 || e1 == 11);
    assert(f1 == 0 || f1 == 1);
}

/// The facelet that shows sticker `o` of the corner at position `p`.
pub open spec fn corner_facelet(p: int, o: int) -> int {
    if p == 0 && o == 0 {
        0
    } else if p == 0 && o == 1 {
        9
    } else if p == 0 && o == 2 {
        20
    } else if p == 1 && o == 0 {
        2
    } else if p == 1 && o == 1 {
        18
    } else if p == 1 && o == 2 {
        17
    } else if p == 2 && o == 0 {
        8
    } else if p == 2 && o == 1 {
        15
    } else if p == 2 && o == 2 {
        14
    } else if p == 3 && o == 0 {
        6
    } else if p == 3 && o == 1 {
        12
    } else if p == 3 && o == 2 {
        11
    } else if p == 4 && o == 0 {
        51
    } else if p == 4 && o == 1 {
        44
    } else if p == 4 && o == 2 {
        33
    } else if p == 5 && o == 0 {
        53
    } else if p == 5 && o == 1 {
        41
    } else if p == 5 && o == 2 {
        42
    } else if p == 6 && o == 0 {
        47
    } else if p == 6 && o == 1 {
        38
    } else if p == 6 && o == 2 {
        39
    } else if p == 7 && o == 0 {
        45
    } else if p == 7 && o == 1 {
        35
    } else {
        36
    }
}

/// The facelet that shows sticker `o` of the edge at position `p`.
pub open spec fn edge_facelet(p: int, o: int) -> int {
    if p == 0 && o == 0 {
        1
    } else if p == 0 && o == 1 {
        19
    } else if p == 1 && o == 0 {
        5
    } else if p == 1 && o == 1 {
        16
    } else if p == 2 && o == 0 {
        7
    } else if p == 2 && o == 1 {
        13
    } else if p == 3 && o == 0 {
        3
    } else if p == 3 && o == 1 {
        10
    } else if p == 4 && o == 0 {
        32
    } else if p == 4 && o == 1 {
        21
    } else if p == 5 && o == 0 {
        30
    } else if p == 5 && o == 1 {
        29
    } else if p == 6 && o == 0 {
        26
    } else if p == 6 && o == 1 {
        27
    } else if p == 7 && o == 0 {
        24
    } else if p == 7 && o == 1 {
        23
    } else if p == 8 && o == 0 {
        52
    } else if p == 8 && o == 1 {
        43
    } else if p == 9 && o == 0 {
        50
    } else if p == 9 && o == 1 {
        40
    } else if p == 10 && o == 0 {
        46
    } else if p == 10 && o == 1 {
        37
    } else if p == 11 && o == 0 {
        48
    } else {
        34
    }
}

/// The facelet tables of the pieces agree with the facelet associations.
pub proof fn lemma_piece_facelets(p: int, o: int)
    ensures
        0 <= p < 8 && 0 <= o < 3 ==> 0 <= corner_facelet(p, o) < 54 && facelet_assoc(corner_facelet(p, o))
            == FaceletAssociation::Corner(p as u8, o as u8),
        0 <= p < 12 && 0 <= o < 2 ==> 0 <= edge_facelet(p, o) < 54 && facelet_assoc(edge_facelet(p, o))
            == FaceletAssociation::Edge(p as u8, o as u8),
{
}

/// The 54 colors of the net determine the state: two valid states with the
/// same net are the same state.
pub proof fn lemma_facelets_determine(a: CubeState, b: CubeState)
    requires
        a.valid(),
        b.valid(),
        forall|f: int| 0 <= f < 54 ==> #[trigger] facelet_color(a, f) == facelet_color(b, f),
    ensures
        a == b,
{
    assert forall|p: int| 0 <= p < 8 implies a.cp[p] == b.cp[p] && a.co[p] == b.co[p] by {
        lemma_piece_facelets(p, 0);
        lemma_piece_facelets(p, 1);
        lemma_piece_facelets(p, 2);
        assert(facelet_color(a, corner_facelet(p, 0)) == facelet_color(b, corner_facelet(p, 0)));
        assert(facelet_color(a, corner_facelet(p, 1)) == facelet_color(b, corner_facelet(p, 1)));
        assert(facelet_color(a, corner_facelet(p, 2)) == facelet_color(b, corner_facelet(p, 2)));
        lemma_corner_colors_determine(a.cp[p] as int, a.co[p] as int, b.cp[p] as int, b.co[p] as int);
    }
    assert forall|p: int| 0 <= p < 12 implies a.ep[p] == b.ep[p] && a.eo[p] == b.eo[p] by {
        lemma_piece_facelets(p, 0);
        lemma_piece_facelets(p, 1);
        assert(facelet_color(a, edge_facelet(p, 0)) == facelet_color(b, edge_facelet(p, 0)));
        assert(facelet_color(a, edge_facelet(p, 1)) == facelet_color(b, edge_facelet(p, 1)));
        lemma_edge_colors_determine(a.ep[p] as int, a.eo[p] as int, b.ep[p] as int, b.eo[p] as int);
    }
    assert(a.cp =~= b.cp && a.co =~= b.co && a.ep =~= b.ep && a.eo =~= b.eo);
}

} // verus!
