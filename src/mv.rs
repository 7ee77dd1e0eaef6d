//! The eighteen face turns and what each does to the cube.
use vstd::prelude::*;

use crate::cube::{
    apply_moves, balanced, compose, lemma_compose_assoc, lemma_compose_balanced, lemma_compose_valid,
    lemma_solved_valid, solved_state, Cube, CubeState,
};
use crate::radix::sum_of;

verus! {

/// One of the six faces of the cube.
#[derive(Clone, Copy, Debug, PartialEq, Eq, Structural)]
pub enum Face {
    U,
    D,
    L,
    R,
    F,
    B,
}

/// One of the eighteen face turns: `X` is a clockwise quarter turn of face
/// `X`, `X2` a half turn and `X3` a counter-clockwise quarter turn (`X'`).
#[derive(Clone, Copy, Debug, PartialEq, Eq, Structural, PartialOrd, Ord)]
pub enum Move {
    U,
    U2,
    U3,
    D,
    D2,
    D3,
    L,
    L2,
    L3,
    R,
    R2,
    R3,
    F,
    F2,
    F3,
    B,
    B2,
    B3,
}

/// The face that a move turns.
pub open spec fn face_of(m: Move) -> Face {
    match m {
        Move::U | Move::U2 | Move::U3 => Face::U,
        Move::D | Move::D2 | Move::D3 => Face::D,
        Move::L | Move::L2 | Move::L3 => Face::L,
        Move::R | Move::R2 | Move::R3 => Face::R,
        Move::F | Move::F2 | Move::F3 => Face::F,
        Move::B | Move::B2 | Move::B3 => Face::B,
    }
}

/// How many clockwise quarter turns a move makes.
pub open spec fn turns_of(m: Move) -> nat {
    match m {
        Move::U => 1,
        Move::U2 => 2,
        Move::U3 => 3,
        Move::D => 1,
        Move::D2 => 2,
        Move::D3 => 3,
        Move::L => 1,
        Move::L2 => 2,
        Move::L3 => 3,
        Move::R => 1,
        Move::R2 => 2,
        Move::R3 => 3,
        Move::F => 1,
        Move::F2 => 2,
        Move::F3 => 3,
        Move::B => 1,
        Move::B2 => 2,
        Move::B3 => 3,
    }
}

/// The position of a move in the fixed order of all moves.
pub open spec fn move_index(m: Move) -> nat {
    match m {
        Move::U => 0,
        Move::U2 => 1,
        Move::U3 => 2,
        Move::D => 3,
        Move::D2 => 4,
        Move::D3 => 5,
        Move::L => 6,
        Move::L2 => 7,
        Move::L3 => 8,
        Move::R => 9,
        Move::R2 => 10,
        Move::R3 => 11,
        Move::F => 12,
        Move::F2 => 13,
        Move::F3 => 14,
        Move::B => 15,
        Move::B2 => 16,
        Move::B3 => 17,
    }
}

/// The move at position `i` of the fixed order.
pub open spec fn move_at(i: int) -> Move {
    let f = if i < 3 {
        Face::U
    } else if i < 6 {
        Face::D
    } else if i < 9 {
        Face::L
    } else if i < 12 {
        Face::R
    } else if i < 15 {
        Face::F
    } else {
        Face::B
    };
    face_move(f, (i % 3 + 1) as nat)
}

/// The move that turns face `f` clockwise by `n` quarter turns.
pub open spec fn face_move(f: Face, n: nat) -> Move {
    match f {
        Face::U => if n == 1 {
            Move::U
        } else if n == 2 {
            Move::U2
        } else {
            Move::U3
        },
        Face::D => if n == 1 {
            Move::D
        } else if n == 2 {
            Move::D2
        } else {
            Move::D3
        },
        Face::L => if n == 1 {
            Move::L
        } else if n == 2 {
            Move::L2
        } else {
            Move::L3
        },
        Face::R => if n == 1 {
            Move::R
        } else if n == 2 {
            Move::R2
        } else {
            Move::R3
        },
        Face::F => if n == 1 {
            Move::F
        } else if n == 2 {
            Move::F2
        } else {
            Move::F3
        },
        Face::B => if n == 1 {
            Move::B
        } else if n == 2 {
            Move::B2
        } else {
            Move::B3
        },
    }
}

/// A move is the move of its face and its number of turns.
pub proof fn lemma_face_move(m: Move)
    ensures
        face_move(face_of(m), turns_of(m)) == m,
{
}

/// The canonical label of a move.
pub open spec fn label_of(m: Move) -> Seq<char> {
    match m {
        Move::U => seq!['U'],
        Move::U2 => seq!['U', '2'],
        Move::U3 => seq!['U', '\''],
        Move::D => seq!['D'],
        Move::D2 => seq!['D', '2'],
        Move::D3 => seq!['D', '\''],
        Move::L => seq!['L'],
        Move::L2 => seq!['L', '2'],
        Move::L3 => seq!['L', '\''],
        Move::R => seq!['R'],
        Move::R2 => seq!['R', '2'],
        Move::R3 => seq!['R', '\''],
        Move::F => seq!['F'],
        Move::F2 => seq!['F', '2'],
        Move::F3 => seq!['F', '\''],
        Move::B => seq!['B'],
        Move::B2 => seq!['B', '2'],
        Move::B3 => seq!['B', '\''],
    }
}

/// The clockwise quarter turn of a face.
pub open spec fn quarter_turn(f: Face) -> CubeState {
    match f {
        Face::U => CubeState {
            ep: seq![3u8, 0, 1, 2, 4, 5, 6, 7, 8, 9, 10, 11],
            eo: seq![0u8, 0, 0, 0, 0, 0, 0, 0, 0, 0, 0, 0],
            cp: seq![3u8, 0, 1, 2, 4, 5, 6, 7],
            co: seq![0u8, 0, 0, 0, 0, 0, 0, 0],
        },
        Face::D => CubeState {
            ep: seq![0u8, 1, 2, 3, 4, 5, 6, 7, 9, 10, 11, 8],
            eo: seq![0u8, 0, 0, 0, 0, 0, 0, 0, 0, 0, 0, 0],
            cp: seq![0u8, 1, 2, 3, 5, 6, 7, 4],
            co: seq![0u8, 0, 0, 0, 0, 0, 0, 0],
        },
        Face::L => CubeState {
            ep: seq![0u8, 1, 2, 4, 11, 5, 6, 3, 8, 9, 10, 7],
            eo: seq![0u8, 0, 0, 0, 0, 0, 0, 0, 0, 0, 0, 0],
            cp: seq![4u8, 1, 2, 0, 7, 5, 6, 3],
            co: seq![1u8, 0, 0, 2, 2, 0, 0, 1],
        },
        Face::R => CubeState {
            ep: seq![0u8, 6, 2, 3, 4, 1, 9, 7, 8, 5, 10, 11],
            eo: seq![0u8, 0, 0, 0, 0, 0, 0, 0, 0, 0, 0, 0],
            cp: seq![0u8, 2, 6, 3, 4, 1, 5, 7],
            co: seq![0u8, 2, 1, 0, 0, 1, 2, 0],
        },
        Face::F => CubeState {
            ep: seq![0u8, 1, 7, 3, 4, 5, 2, 10, 8, 9, 6, 11],
            eo: seq![0u8, 0, 1, 0, 0, 0, 1, 1, 0, 0, 1, 0],
            cp: seq![0u8, 1, 3, 7, 4, 5, 2, 6],
            co: seq![0u8, 0, 2, 1, 0, 0, 1, 2],
        },
        Face::B => CubeState {
            ep: seq![5u8, 1, 2, 3, 0, 8, 6, 7, 4, 9, 10, 11],
            eo: seq![1u8, 0, 0, 0, 1, 1, 0, 0, 1, 0, 0, 0],
            cp: seq![1u8, 5, 2, 3, 0, 4, 6, 7],
            co: seq![2u8, 1, 0, 0, 1, 2, 0, 0],
        },
    }
}

/// What a move does to the solved cube: its face's quarter turn, repeated.
#[verifier::opaque]
pub open spec fn move_state(m: Move) -> CubeState {
    let q = quarter_turn(face_of(m));
    if turns_of(m) == 1 {
        q
    } else if turns_of(m) == 2 {
        compose(q, q)
    } else {
        compose(compose(q, q), q)
    }
}

/// Each quarter turn is a valid cube state.
pub proof fn lemma_quarter_turn_valid(f: Face)
    ensures
        quarter_turn(f).valid(),
{
}

/// Each move is a valid cube state.
pub proof fn lemma_move_valid(m: Move)
    ensures
        move_state(m).valid(),
{
    reveal(move_state);
    let q = quarter_turn(face_of(m));
    lemma_quarter_turn_valid(face_of(m));
    lemma_compose_valid(q, q);
    lemma_compose_valid(compose(q, q), q);
}

impl Move {
    /// The face this move turns.
    pub fn face(self) -> (r: Face)
        ensures
            r == face_of(self),
    {
        match self {
            Move::U | Move::U2 | Move::U3 => Face::U,
            Move::D | Move::D2 | Move::D3 => Face::D,
            Move::L | Move::L2 | Move::L3 => Face::L,
            Move::R | Move::R2 | Move::R3 => Face::R,
            Move::F | Move::F2 | Move::F3 => Face::F,
            Move::B | Move::B2 | Move::B3 => Face::B,
        }
    }

    /// How many clockwise quarter turns this move makes (1, 2 or 3).
    pub fn turns(self) -> (r: u8)
        ensures
            r == turns_of(self),
    {
        match self {
            Move::U => 1,
            Move::U2 => 2,
            Move::U3 => 3,
            Move::D => 1,
            Move::D2 => 2,
            Move::D3 => 3,
            Move::L => 1,
            Move::L2 => 2,
            Move::L3 => 3,
            Move::R => 1,
            Move::R2 => 2,
            Move::R3 => 3,
            Move::F => 1,
            Move::F2 => 2,
            Move::F3 => 3,
            Move::B => 1,
            Move::B2 => 2,
            Move::B3 => 3,
        }
    }

    /// The cube that this move makes of the solved cube.
    pub fn to_cube(self) -> (r: Cube)
        ensures
            r@ == move_state(self),
            r.valid(),
    {
        let r = match self {
            Move::U => Cube {
                eo: [0, 0, 0, 0, 0, 0, 0, 0, 0, 0, 0, 0],
                ep: [3, 0, 1, 2, 4, 5, 6, 7, 8, 9, 10, 11],
                co: [0, 0, 0, 0, 0, 0, 0, 0],
                cp: [3, 0, 1, 2, 4, 5, 6, 7],
            },
            Move::U2 => Cube {
                eo: [0, 0, 0, 0, 0, 0, 0, 0, 0, 0, 0, 0],
                ep: [2, 3, 0, 1, 4, 5, 6, 7, 8, 9, 10, 11],
                co: [0, 0, 0, 0, 0, 0, 0, 0],
                cp: [2, 3, 0, 1, 4, 5, 6, 7],
            },
            Move::U3 => Cube {
                eo: [0, 0, 0, 0, 0, 0, 0, 0, 0, 0, 0, 0],
                ep: [1, 2, 3, 0, 4, 5, 6, 7, 8, 9, 10, 11],
                co: [0, 0, 0, 0, 0, 0, 0, 0],
                cp: [1, 2, 3, 0, 4, 5, 6, 7],
            },
            Move::D => Cube {
                eo: [0, 0, 0, 0, 0, 0, 0, 0, 0, 0, 0, 0],
                ep: [0, 1, 2, 3, 4, 5, 6, 7, 9, 10, 11, 8],
                co: [0, 0, 0, 0, 0, 0, 0, 0],
                cp: [0, 1, 2, 3, 5, 6, 7, 4],
            },
            Move::D2 => Cube {
                eo: [0, 0, 0, 0, 0, 0, 0, 0, 0, 0, 0, 0],
                ep: [0, 1, 2, 3, 4, 5, 6, 7, 10, 11, 8, 9],
                co: [0, 0, 0, 0, 0, 0, 0, 0],
                cp: [0, 1, 2, 3, 6, 7, 4, 5],
            },
            Move::D3 => Cube {
                eo: [0, 0, 0, 0, 0, 0, 0, 0, 0, 0, 0, 0],
                ep: [0, 1, 2, 3, 4, 5, 6, 7, 11, 8, 9, 10],
                co: [0, 0, 0, 0, 0, 0, 0, 0],
                cp: [0, 1, 2, 3, 7, 4, 5, 6],
            },
            Move::L => Cube {
                eo: [0, 0, 0, 0, 0, 0, 0, 0, 0, 0, 0, 0],
                ep: [0, 1, 2, 4, 11, 5, 6, 3, 8, 9, 10, 7],
                co: [1, 0, 0, 2, 2, 0, 0, 1],
                cp: [4, 1, 2, 0, 7, 5, 6, 3],
            },
            Move::L2 => Cube {
                eo: [0, 0, 0, 0, 0, 0, 0, 0, 0, 0, 0, 0],
                ep: [0, 1, 2, 11, 7, 5, 6, 4, 8, 9, 10, 3],
                co: [0, 0, 0, 0, 0, 0, 0, 0],
                cp: [7, 1, 2, 4, 3, 5, 6, 0],
            },
            Move::L3 => Cube {
                eo: [0, 0, 0, 0, 0, 0, 0, 0, 0, 0, 0, 0],
                ep: [0, 1, 2, 7, 3, 5, 6, 11, 8, 9, 10, 4],
                co: [1, 0, 0, 2, 2, 0, 0, 1],
                cp: [3, 1, 2, 7, 0, 5, 6, 4],
            },
            Move::R => Cube {
                eo: [0, 0, 0, 0, 0, 0, 0, 0, 0, 0, 0, 0],
                ep: [0, 6, 2, 3, 4, 1, 9, 7, 8, 5, 10, 11],
                co: [0, 2, 1, 0, 0, 1, 2, 0],
                cp: [0, 2, 6, 3, 4, 1, 5, 7],
            },
            Move::R2 => Cube {
                eo: [0, 0, 0, 0, 0, 0, 0, 0, 0, 0, 0, 0],
                ep: [0, 9, 2, 3, 4, 6, 5, 7, 8, 1, 10, 11],
                co: [0, 0, 0, 0, 0, 0, 0, 0],
                cp: [0, 6, 5, 3, 4, 2, 1, 7],
            },
            Move::R3 => Cube {
                eo: [0, 0, 0, 0, 0, 0, 0, 0, 0, 0, 0, 0],
                ep: [0, 5, 2, 3, 4, 9, 1, 7, 8, 6, 10, 11],
                co: [0, 2, 1, 0, 0, 1, 2, 0],
                cp: [0, 5, 1, 3, 4, 6, 2, 7],
            },
            Move::F => Cube {
                eo: [0, 0, 1, 0, 0, 0, 1, 1, 0, 0, 1, 0],
                ep: [0, 1, 7, 3, 4, 5, 2, 10, 8, 9, 6, 11],
                co: [0, 0, 2, 1, 0, 0, 1, 2],
                cp: [0, 1, 3, 7, 4, 5, 2, 6],
            },
            Move::F2 => Cube {
                eo: [0, 0, 0, 0, 0, 0, 0, 0, 0, 0, 0, 0],
                ep: [0, 1, 10, 3, 4, 5, 7, 6, 8, 9, 2, 11],
                co: [0, 0, 0, 0, 0, 0, 0, 0],
                cp: [0, 1, 7, 6, 4, 5, 3, 2],
            },
            Move::F3 => Cube {
                eo: [0, 0, 1, 0, 0, 0, 1, 1, 0, 0, 1, 0],
                ep: [0, 1, 6, 3, 4, 5, 10, 2, 8, 9, 7, 11],
                co: [0, 0, 2, 1, 0, 0, 1, 2],
                cp: [0, 1, 6, 2, 4, 5, 7, 3],
            },
            Move::B => Cube {
                eo: [1, 0, 0, 0, 1, 1, 0, 0, 1, 0, 0, 0],
                ep: [5, 1, 2, 3, 0, 8, 6, 7, 4, 9, 10, 11],
                co: [2, 1, 0, 0, 1, 2, 0, 0],
                cp: [1, 5, 2, 3, 0, 4, 6, 7],
            },
            Move::B2 => Cube {
                eo: [0, 0, 0, 0, 0, 0, 0, 0, 0, 0, 0, 0],
                ep: [8, 1, 2, 3, 5, 4, 6, 7, 0, 9, 10, 11],
                co: [0, 0, 0, 0, 0, 0, 0, 0],
                cp: [5, 4, 2, 3, 1, 0, 6, 7],
            },
            Move::B3 => Cube {
                eo: [1, 0, 0, 0, 1, 1, 0, 0, 1, 0, 0, 0],
                ep: [4, 1, 2, 3, 8, 0, 6, 7, 5, 9, 10, 11],
                co: [2, 1, 0, 0, 1, 2, 0, 0],
                cp: [4, 0, 2, 3, 5, 1, 6, 7],
            },
        };
        proof {
            reveal(move_state);
            assert(r@.ep =~= move_state(self).ep);
            assert(r@.eo =~= move_state(self).eo);
            assert(r@.cp =~= move_state(self).cp);
            assert(r@.co =~= move_state(self).co);
            lemma_move_valid(self);
        }
        r
    }
    /// The canonical label of this move (`"U"`, `"U2"`, `"U'"`, ...).
    pub fn to_str(self) -> (r: &'static str)
        ensures
            r@ == label_of(self),
    {
        proof {
            reveal_strlit("U");
            reveal_strlit("U2");
            reveal_strlit("U'");
            reveal_strlit("D");
            reveal_strlit("D2");
            reveal_strlit("D'");
            reveal_strlit("L");
            reveal_strlit("L2");
            reveal_strlit("L'");
            reveal_strlit("R");
            reveal_strlit("R2");
            reveal_strlit("R'");
            reveal_strlit("F");
            reveal_strlit("F2");
            reveal_strlit("F'");
            reveal_strlit("B");
            reveal_strlit("B2");
            reveal_strlit("B'");
        }
        match self {
            Move::U => "U",
            Move::U2 => "U2",
            Move::U3 => "U'",
            Move::D => "D",
            Move::D2 => "D2",
            Move::D3 => "D'",
            Move::L => "L",
            Move::L2 => "L2",
            Move::L3 => "L'",
            Move::R => "R",
            Move::R2 => "R2",
            Move::R3 => "R'",
            Move::F => "F",
            Move::F2 => "F2",
            Move::F3 => "F'",
            Move::B => "B",
            Move::B2 => "B2",
            Move::B3 => "B'",
        }
    }

    /// Whether `other` undoes `self`: the two turn the same face and
    /// together make a whole number of full turns.
    pub fn cancels(self, other: Self) -> (r: bool)
        ensures
            r == (face_of(self) == face_of(other) && turns_of(self) + turns_of(other) == 4),
    {
        self.face() == other.face() && self.turns() + other.turns() == 4
    }

    /// Whether `other` turns the same face as `self`: two such turns in a
    /// row can always be written as one turn or none, so a search skips them.
    pub fn redundant(self, other: Self) -> (r: bool)
        ensures
            r == (face_of(self) == face_of(other)),
    {
        self.face() == other.face()
    }

    /// The move at position `i` of the fixed order of all moves.
    pub fn nth(i: usize) -> (r: Move)
        requires
            i < 18,
        ensures
            move_index(r) == i,
            r == move_at(i as int),
    {
        match i {
            0 => Move::U,
            1 => Move::U2,
            2 => Move::U3,
            3 => Move::D,
            4 => Move::D2,
            5 => Move::D3,
            6 => Move::L,
            7 => Move::L2,
            8 => Move::L3,
            9 => Move::R,
            10 => Move::R2,
            11 => Move::R3,
            12 => Move::F,
            13 => Move::F2,
            14 => Move::F3,
            15 => Move::B,
            16 => Move::B2,
            _ => Move::B3,
        }
    }

    /// All eighteen moves, in the fixed order that searches and table
    /// generation follow.
    pub fn all() -> (r: Vec<Move>)
        ensures
            r@.len() == 18,
            forall|i: int| 0 <= i < 18 ==> move_index(#[trigger] r@[i]) == i,
            forall|i: int| 0 <= i < 18 ==> #[trigger] r@[i] == move_at(i),
    {
        let mut r: Vec<Move> = Vec::new();
        let mut i: usize = 0;
        while i < 18
            invariant
                i <= 18,
                r@.len() == i,
                forall|k: int| 0 <= k < i ==> move_index(#[trigger] r@[k]) == k,
                forall|k: int| 0 <= k < i ==> #[trigger] r@[k] == move_at(k),
            decreases 18 - i,
        {
            r.push(Move::nth(i));
            i += 1;
        }
        r
    }
}

/// Four clockwise quarter turns of a face give the solved cube.
#[verifier::rlimit(100)]
pub proof fn lemma_four_quarter_turns(f: Face)
    ensures
        compose(compose(compose(quarter_turn(f), quarter_turn(f)), quarter_turn(f)), quarter_turn(f))
            == solved_state(),
{
    let q = quarter_turn(f);
    let q4 = compose(compose(compose(q, q), q), q);
    let z = solved_state();
    assert forall|i: int| 0 <= i < 12 implies q4.ep[i] == z.ep[i] && q4.eo[i] == z.eo[i] by {
        assert(i == 0 || i == 1 || i == 2 || i == 3 || i == 4 || i == 5 || i == 6 || i == 7
            || i == 8 || i == 9 || i == 10 || i == 11);
    }
    assert forall|i: int| 0 <= i < 8 implies q4.cp[i] == z.cp[i] && q4.co[i] == z.co[i] by {
        assert(i == 0 || i == 1 || i == 2 || i == 3 || i == 4 || i == 5 || i == 6 || i == 7);
    }
    assert(q4.ep =~= z.ep && q4.eo =~= z.eo && q4.cp =~= z.cp && q4.co =~= z.co);
}

/// For every face `X`: `X ∘ X' == SOLVED`, `X2 ∘ X2 == SOLVED` and
/// `X ∘ X ∘ X ∘ X == SOLVED`.
pub proof fn lemma_move_inverses(f: Face)
    ensures
        compose(move_state(face_move(f, 1)), move_state(face_move(f, 3))) == solved_state(),
        compose(move_state(face_move(f, 2)), move_state(face_move(f, 2))) == solved_state(),
        compose(
            compose(compose(move_state(face_move(f, 1)), move_state(face_move(f, 1))), move_state(face_move(f, 1))),
            move_state(face_move(f, 1)),
        ) == solved_state(),
{
    reveal(move_state);
    let q = quarter_turn(f);
    lemma_four_quarter_turns(f);
    lemma_quarter_turn_valid(f);
    lemma_compose_valid(q, q);
    lemma_compose_valid(compose(q, q), q);
    lemma_compose_assoc(q, compose(q, q), q);
    lemma_compose_assoc(q, q, q);
    lemma_compose_assoc(compose(q, q), q, q);
}

/// Whenever `cancels` holds of two moves, applying both leaves the state
/// as it was.
pub proof fn lemma_cancels_is_identity(a: Move, b: Move)
    requires
        face_of(a) == face_of(b),
        turns_of(a) + turns_of(b) == 4,
    ensures
        compose(move_state(a), move_state(b)) == solved_state(),
{
    reveal(move_state);
    lemma_move_inverses(face_of(a));
    lemma_face_move(a);
    lemma_face_move(b);
}

/// Each quarter turn flips an even number of edges and twists the corners
/// by a multiple of three.
pub proof fn lemma_quarter_turn_balanced(f: Face)
    ensures
        balanced(quarter_turn(f)),
{
    reveal_with_fuel(sum_of, 13);
}

/// Each move is balanced.
pub proof fn lemma_move_balanced(m: Move)
    ensures
        balanced(move_state(m)),
{
    reveal(move_state);
    let q = quarter_turn(face_of(m));
    lemma_quarter_turn_valid(face_of(m));
    lemma_quarter_turn_balanced(face_of(m));
    lemma_compose_valid(q, q);
    lemma_compose_balanced(q, q);
    lemma_compose_balanced(compose(q, q), q);
}

/// Any sequence of moves applied to a valid, balanced state keeps it valid
/// and balanced: the edge and corner permutations stay permutations, the
/// flips add up to an even number and the twists to a multiple of three.
pub proof fn lemma_moves_keep_invariants(s: CubeState, moves: Seq<Move>)
    requires
        s.valid(),
        balanced(s),
    ensures
        apply_moves(s, moves).valid(),
        balanced(apply_moves(s, moves)),
    decreases moves.len(),
{
    if moves.len() > 0 {
        let m = move_state(moves[0]);
        lemma_move_valid(moves[0]);
        lemma_move_balanced(moves[0]);
        lemma_compose_valid(s, m);
        lemma_compose_balanced(s, m);
        lemma_moves_keep_invariants(compose(s, m), moves.subrange(1, moves.len() as int));
    }
}

/// Every scramble of the solved cube is valid and balanced.
pub proof fn lemma_scramble_invariants(moves: Seq<Move>)
    ensures
        apply_moves(solved_state(), moves).valid(),
        balanced(apply_moves(solved_state(), moves)),
{
    lemma_solved_valid();
    crate::cube::lemma_solved_balanced();
    lemma_moves_keep_invariants(solved_state(), moves);
}

/// The move that undoes `m`: the same face, turned the other way.
pub open spec fn inverse_of(m: Move) -> Move {
    face_move(face_of(m), (4 - turns_of(m)) as nat)
}

/// A move followed by its inverse leaves every valid state as it was.
pub proof fn lemma_inverse_undoes(s: CubeState, m: Move)
    requires
        s.valid(),
    ensures
        compose(compose(s, move_state(m)), move_state(inverse_of(m))) == s,
        move_state(inverse_of(m)).valid(),
{
    let inv = inverse_of(m);
    assert(face_of(inv) == face_of(m) && turns_of(inv) == 4 - turns_of(m));
    lemma_move_valid(m);
    lemma_move_valid(inv);
    lemma_cancels_is_identity(m, inv);
    crate::cube::lemma_compose_assoc(s, move_state(m), move_state(inv));
    crate::cube::lemma_compose_identity(s);
}

/// Positions in the fixed order are below 18.
pub proof fn lemma_move_index_bound(m: Move)
    ensures
        move_index(m) < 18,
{
}

/// Different moves have different positions in the fixed order.
pub proof fn lemma_move_index_injective(a: Move, b: Move)
    requires
        move_index(a) == move_index(b),
    ensures
        a == b,
{
}

/// `q` applied `n` times to the solved state.
pub open spec fn power(q: CubeState, n: nat) -> CubeState
    decreases n,
{
    if n == 0 {
        solved_state()
    } else {
        compose(power(q, (n - 1) as nat), q)
    }
}

/// Powers of a valid state are valid.
pub proof fn lemma_power_valid(q: CubeState, n: nat)
    requires
        q.valid(),
    ensures
        power(q, n).valid(),
    decreases n,
{
    if n == 0 {
        lemma_solved_valid();
    } else {
        lemma_power_valid(q, (n - 1) as nat);
        lemma_compose_valid(power(q, (n - 1) as nat), q);
    }
}

/// `q^a ∘ q^b == q^(a + b)`.
pub proof fn lemma_power_add(q: CubeState, a: nat, b: nat)
    requires
        q.valid(),
    ensures
        compose(power(q, a), power(q, b)) == power(q, a + b),
    decreases b,
{
    lemma_power_valid(q, a);
    if b == 0 {
        crate::cube::lemma_compose_identity(power(q, a));
    } else {
        lemma_power_add(q, a, (b - 1) as nat);
        lemma_power_valid(q, (b - 1) as nat);
        lemma_compose_assoc(power(q, a), power(q, (b - 1) as nat), q);
        assert(power(q, a + b) == compose(power(q, (a + b - 1) as nat), q));
    }
}

/// A move is its face's quarter turn raised to its number of turns.
pub proof fn lemma_move_is_power(m: Move)
    ensures
        move_state(m) == power(quarter_turn(face_of(m)), turns_of(m)),
{
    reveal(move_state);
    let q = quarter_turn(face_of(m));
    lemma_quarter_turn_valid(face_of(m));
    lemma_power_small(q);
}

/// The first powers of a valid state, written out.
pub proof fn lemma_power_small(q: CubeState)
    requires
        q.valid(),
    ensures
        power(q, 1) == q,
        power(q, 2) == compose(q, q),
        power(q, 3) == compose(compose(q, q), q),
        power(q, 4) == compose(compose(compose(q, q), q), q),
{
    crate::cube::lemma_compose_identity(q);
    assert(power(q, 0) == solved_state());
    assert(power(q, 1) == compose(power(q, 0), q));
    assert(power(q, 2) == compose(power(q, 1), q));
    assert(power(q, 3) == compose(power(q, 2), q));
    assert(power(q, 4) == compose(power(q, 3), q));
}

/// Powers of a state of order 4 add modulo 4.
pub proof fn lemma_power_mod4(q: CubeState, a: nat, b: nat)
    requires
        q.valid(),
        power(q, 4) == solved_state(),
        a <= 3,
        b <= 3,
    ensures
        compose(power(q, a), power(q, b)) == power(q, (a + b) % 4),
{
    lemma_power_add(q, a, b);
    if a + b >= 4 {
        lemma_power_add(q, 4, (a + b - 4) as nat);
        lemma_power_valid(q, (a + b - 4) as nat);
        crate::cube::lemma_compose_identity(power(q, (a + b - 4) as nat));
    }
}

/// Two turns of the same face make one turn of it, or none.
pub proof fn lemma_merge_turns(s: CubeState, a: Move, b: Move)
    requires
        s.valid(),
        face_of(a) == face_of(b),
    ensures
        (turns_of(a) + turns_of(b)) % 4 == 0 ==> compose(compose(s, move_state(a)), move_state(b)) == s,
        (turns_of(a) + turns_of(b)) % 4 != 0 ==> compose(compose(s, move_state(a)), move_state(b))
            == compose(s, move_state(face_move(face_of(a), (turns_of(a) + turns_of(b)) % 4))),
{
    let f = face_of(a);
    let q = quarter_turn(f);
    let ta = turns_of(a);
    let tb = turns_of(b);
    let c = (ta + tb) % 4;
    lemma_quarter_turn_valid(f);
    lemma_move_is_power(a);
    lemma_move_is_power(b);
    lemma_move_valid(a);
    lemma_move_valid(b);
    lemma_compose_assoc(s, move_state(a), move_state(b));
    lemma_four_quarter_turns(f);
    lemma_power_small(q);
    lemma_power_mod4(q, ta, tb);
    if c == 0 {
        crate::cube::lemma_compose_identity(s);
    } else {
        let mc = face_move(f, c as nat);
        assert(face_of(mc) == f && turns_of(mc) == c);
        lemma_move_is_power(mc);
    }
}

/// The move of face `f` with `n` turns turns face `f`, `n` times.
pub proof fn lemma_face_move_parts(f: Face, n: nat)
    requires
        1 <= n <= 3,
    ensures
        face_of(face_move(f, n)) == f,
        turns_of(face_move(f, n)) == n,
{
}

/// Each move sits at its own position of the fixed order.
pub proof fn lemma_move_at_index(m: Move)
    ensures
        move_index(m) < 18,
        move_at(move_index(m) as int) == m,
{
}

/// A valid state that some sequence of moves solves is balanced.
pub proof fn lemma_solvable_is_balanced(s: CubeState, moves: Seq<Move>)
    requires
        s.valid(),
        apply_moves(s, moves) == solved_state(),
    ensures
        balanced(s),
    decreases moves.len(),
{
    if moves.len() == 0 {
        crate::cube::lemma_solved_balanced();
    } else {
        let m = move_state(moves[0]);
        lemma_move_valid(moves[0]);
        lemma_move_balanced(moves[0]);
        lemma_compose_valid(s, m);
        lemma_solvable_is_balanced(compose(s, m), moves.subrange(1, moves.len() as int));
        crate::cube::lemma_compose_sums(s, m);
        let e = sum_of(s.eo) as int;
        let c = sum_of(s.co) as int;
        vstd::arithmetic::div_mod::lemma_add_mod_noop(e, sum_of(m.eo) as int, 2);
        vstd::arithmetic::div_mod::lemma_add_mod_noop(c, sum_of(m.co) as int, 3);
    }
}

/// A sequence of zeros sums to zero.
proof fn lemma_sum_zeros(e: Seq<u8>)
    requires
        forall|i: int| 0 <= i < e.len() ==> e[i] == 0,
    ensures
        sum_of(e) == 0,
    decreases e.len(),
{
    if e.len() > 0 {
        lemma_sum_zeros(e.drop_last());
    }
}

/// The turns of a face that flips no edge flip no edge.
proof fn lemma_unflipping_turns(q: CubeState)
    requires
        q.valid(),
        forall|i: int| 0 <= i < 12 ==> q.eo[i] == 0,
    ensures
        sum_of(q.eo) == 0,
        sum_of(compose(q, q).eo) == 0,
        sum_of(compose(compose(q, q), q).eo) == 0,
{
    lemma_compose_valid(q, q);
    lemma_sum_zeros(q.eo);
    lemma_sum_zeros(compose(q, q).eo);
    lemma_sum_zeros(compose(compose(q, q), q).eo);
}

/// The turns of a face that flips edges flip four or none.
proof fn lemma_flipping_turns(f: Face)
    requires
        f == Face::F || f == Face::B,
    ensures
        sum_of(quarter_turn(f).eo) % 4 == 0,
        sum_of(compose(quarter_turn(f), quarter_turn(f)).eo) % 4 == 0,
        sum_of(compose(compose(quarter_turn(f), quarter_turn(f)), quarter_turn(f)).eo) % 4 == 0,
{
    reveal_with_fuel(sum_of, 13);
    let q = quarter_turn(f);
    let e = compose(q, q).eo;
    let e3 = compose(compose(q, q), q).eo;
    if f == Face::F {
        assert(e =~= seq![0u8, 0, 0, 0, 0, 0, 0, 0, 0, 0, 0, 0]);
        assert(e3 =~= seq![0u8, 0, 1, 0, 0, 0, 1, 1, 0, 0, 1, 0]);
    } else {
        assert(e =~= seq![0u8, 0, 0, 0, 0, 0, 0, 0, 0, 0, 0, 0]);
        assert(e3 =~= seq![1u8, 0, 0, 0, 1, 1, 0, 0, 1, 0, 0, 0]);
    }
}

/// Every move flips a multiple of four edges.
pub proof fn lemma_move_flips(m: Move)
    ensures
        sum_of(move_state(m).eo) % 4 == 0,
{
    reveal(move_state);
    let f = face_of(m);
    lemma_quarter_turn_valid(f);
    if f == Face::F || f == Face::B {
        lemma_flipping_turns(f);
    } else {
        lemma_unflipping_turns(quarter_turn(f));
    }
}

} // verus!
