use rubiks_solver::cube::{co_from_coord, cp_from_coord, Cube};
use rubiks_solver::facelets::Color;
use rubiks_solver::facelets::Color::{Blue, Green, Orange, Red, White, Yellow};
use rubiks_solver::heuristics::Corners;
use rubiks_solver::mv::Move;
use rubiks_solver::mv::Move::{B, B2, B3, D, D2, D3, F, F2, F3, L, L2, L3, R, R2, R3, U, U2, U3};

const SOLVED_COLORS: [Color; 54] = [
    White, White, White, White, White, White, White, White, White,
    Orange, Orange, Orange, Green, Green, Green, Red, Red, Red,
    Blue, Blue, Blue, Orange, Orange, Orange, Green, Green, Green,
    Red, Red, Red, Blue, Blue, Blue, Orange, Orange, Orange,
    Green, Green, Green, Red, Red, Red, Blue, Blue, Blue,
    Yellow, Yellow, Yellow, Yellow, Yellow, Yellow, Yellow, Yellow, Yellow,
];

const L_COLORS: [Color; 54] = [
    Blue, White, White, Blue, White, White, Blue, White, White,
    Orange, Orange, Orange, White, Green, Green, Red, Red, Red,
    Blue, Blue, Yellow, Orange, Orange, Orange, White, Green, Green,
    Red, Red, Red, Blue, Blue, Yellow, Orange, Orange, Orange,
    White, Green, Green, Red, Red, Red, Blue, Blue, Yellow,
    Green, Yellow, Yellow, Green, Yellow, Yellow, Green, Yellow, Yellow,
];

const R_COLORS: [Color; 54] = [
    White, White, Green, White, White, Green, White, White, Green,
    Orange, Orange, Orange, Green, Green, Yellow, Red, Red, Red,
    White, Blue, Blue, Orange, Orange, Orange, Green, Green, Yellow,
    Red, Red, Red, White, Blue, Blue, Orange, Orange, Orange,
    Green, Green, Yellow, Red, Red, Red, White, Blue, Blue,
    Yellow, Yellow, Blue, Yellow, Yellow, Blue, Yellow, Yellow, Blue,
];

const U_COLORS: [Color; 54] = [
    White, White, White, White, White, White, White, White, White,
    Green, Green, Green, Red, Red, Red, Blue, Blue, Blue,
    Orange, Orange, Orange, Orange, Orange, Orange, Green, Green, Green,
    Red, Red, Red, Blue, Blue, Blue, Orange, Orange, Orange,
    Green, Green, Green, Red, Red, Red, Blue, Blue, Blue,
    Yellow, Yellow, Yellow, Yellow, Yellow, Yellow, Yellow, Yellow, Yellow,
];

const D_COLORS: [Color; 54] = [
    White, White, White, White, White, White, White, White, White,
    Orange, Orange, Orange, Green, Green, Green, Red, Red, Red,
    Blue, Blue, Blue, Orange, Orange, Orange, Green, Green, Green,
    Red, Red, Red, Blue, Blue, Blue, Blue, Blue, Blue,
    Orange, Orange, Orange, Green, Green, Green, Red, Red, Red,
    Yellow, Yellow, Yellow, Yellow, Yellow, Yellow, Yellow, Yellow, Yellow,
];

const F_COLORS: [Color; 54] = [
    White, White, White, White, White, White, Orange, Orange, Orange,
    Orange, Orange, Yellow, Green, Green, Green, White, Red, Red,
    Blue, Blue, Blue, Orange, Orange, Yellow, Green, Green, Green,
    White, Red, Red, Blue, Blue, Blue, Orange, Orange, Yellow,
    Green, Green, Green, White, Red, Red, Blue, Blue, Blue,
    Red, Red, Red, Yellow, Yellow, Yellow, Yellow, Yellow, Yellow,
];

const B_COLORS: [Color; 54] = [
    Red, Red, Red, White, White, White, White, White, White,
    White, Orange, Orange, Green, Green, Green, Red, Red, Yellow,
    Blue, Blue, Blue, White, Orange, Orange, Green, Green, Green,
    Red, Red, Yellow, Blue, Blue, Blue, White, Orange, Orange,
    Green, Green, Green, Red, Red, Yellow, Blue, Blue, Blue,
    Yellow, Yellow, Yellow, Yellow, Yellow, Yellow, Orange, Orange, Orange,
];

/// Applies the moves in order to the solved cube.
fn scramble_of(moves: &[Move]) -> Cube {
    let mut cube = Cube::solved();
    for &m in moves {
        cube = cube.turn(m);
    }
    cube
}

/// The scramble `R U U F L B`.
fn fixed_scramble() -> Cube {
    scramble_of(&[R, U, U, F, L, B])
}

#[test]
fn solved() {
    assert_eq!(Cube::solved().to_facelets(), SOLVED_COLORS);
}

#[test]
fn identity() {
    assert_eq!(Cube::solved().turn(R), R.to_cube());
}

#[test]
fn move_colors() {
    let pairs = [
        (U, U_COLORS),
        (D, D_COLORS),
        (L, L_COLORS),
        (R, R_COLORS),
        (F, F_COLORS),
        (B, B_COLORS),
    ];

    for (mv, colors) in pairs {
        assert_eq!(mv.to_cube().to_facelets(), colors);
    }
}

#[test]
fn move_inversions() {
    let pairs = [(U, U3), (D, D3), (L, L3), (R, R3), (F, F3), (B, B3)];
    for (mv, mv3) in pairs {
        assert_eq!(mv.to_cube(), mv3.to_cube().turn(mv3).turn(mv3));
    }
}

#[test]
fn full_r_rotation() {
    assert_eq!(Cube::solved().turn(R).turn(R2).turn(R), Cube::solved())
}

#[test]
fn superflip() {
    let superflip_moves = scramble_of(&[
        U, R2, F, B, R, B2, R, U2, L, B2, R, U3, D3, R2, F, R3, L, B2, U2, F2,
    ]);

    assert_eq!(superflip_moves.to_facelets(), Cube::superflip().to_facelets())
}

#[test]
fn corner_perms_solved() {
    let solved = Cube::solved();
    assert_eq!(
        (
            solved.corner_perm_coordinate(),
            solved.corner_orientation_coordinate()
        ),
        (0, 0)
    );
}

#[test]
fn cube_corner_coordinates() {
    let scramble = fixed_scramble();

    assert_eq!(
        (
            scramble.corner_perm_coordinate(),
            scramble.corner_orientation_coordinate()
        ),
        (4467, 2050)
    );
}

#[test]
fn index_to_coords() {
    let scramble = fixed_scramble();
    let coords = (
        scramble.corner_orientation_coordinate(),
        scramble.corner_perm_coordinate(),
    );

    let index = Corners::coord(&scramble);

    assert_eq!(coords, Corners::index_to_coords(index));
}

#[test]
fn coord_to_co() {
    let scramble = fixed_scramble();

    assert_eq!(
        scramble.co,
        co_from_coord(scramble.corner_orientation_coordinate())
    );
}

#[test]
fn cube_corner_permutation_round_trip() {
    let scramble = fixed_scramble();

    let index = Corners::coord(&scramble);

    let (_, cpcoord) = Corners::index_to_coords(index);
    let cp_state: [u8; 8] = cp_from_coord(cpcoord);

    assert_eq!(cp_state, scramble.cp);
}

#[test]
fn cube_corner_orientation_round_trip() {
    let scramble = fixed_scramble();

    let index = Corners::coord(&scramble);

    let (cocoord, _) = Corners::index_to_coords(index);
    let co_state: [u8; 8] = co_from_coord(cocoord);

    assert_eq!(co_state, scramble.co);
}

#[test]
fn compose_identity_and_associativity() {
    let solved = Cube::solved();
    let a = fixed_scramble();
    assert_eq!(solved.apply(&a), a);
    assert_eq!(a.apply(&solved), a);
    let all = Move::all();
    for &x in &all {
        for &y in &all {
            for &z in &[U, R3, F2, B, L2, D3] {
                let (x, y, z) = (x.to_cube(), y.to_cube(), z.to_cube());
                assert_eq!(x.apply(&y).apply(&z), x.apply(&y.apply(&z)));
            }
        }
    }
}

#[test]
fn every_face_turn_has_its_inverse() {
    let solved = Cube::solved();
    for (x, x2, x3) in [(U, U2, U3), (D, D2, D3), (L, L2, L3), (R, R2, R3), (F, F2, F3), (B, B2, B3)] {
        assert_eq!(x.to_cube().apply(&x3.to_cube()), solved);
        assert_eq!(x2.to_cube().apply(&x2.to_cube()), solved);
        assert_eq!(solved.turn(x).turn(x).turn(x).turn(x), solved);
        assert_eq!(x.to_cube().apply(&x.to_cube()), x2.to_cube());
    }
}

#[test]
fn scrambles_keep_the_invariants() {
    let all = Move::all();
    let mut cube = Cube::solved();
    for step in 0..200usize {
        cube = cube.turn(all[(step * 7 + 3) % 18]);
        let mut seen_e = [false; 12];
        for &e in &cube.ep {
            assert!(!seen_e[e as usize]);
            seen_e[e as usize] = true;
        }
        let mut seen_c = [false; 8];
        for &c in &cube.cp {
            assert!(!seen_c[c as usize]);
            seen_c[c as usize] = true;
        }
        assert!(cube.eo.iter().all(|&x| x < 2));
        assert!(cube.co.iter().all(|&x| x < 3));
        assert_eq!(cube.eo.iter().map(|&x| x as u32).sum::<u32>() % 2, 0);
        assert_eq!(cube.co.iter().map(|&x| x as u32).sum::<u32>() % 3, 0);
        let parity = |p: &[u8]| {
            let mut inversions = 0;
            for i in 0..p.len() {
                for j in 0..i {
                    if p[j] > p[i] {
                        inversions += 1;
                    }
                }
            }
            inversions % 2
        };
        assert_eq!(parity(&cube.ep), parity(&cube.cp));
    }
}

#[test]
fn facelet_colors_follow_pieces() {
    let colors = R.to_cube().to_facelets();
    assert_eq!(colors[2], Green);
    assert_eq!(colors[20], Blue);
    let solved = Cube::solved().to_facelets();
    assert_eq!(solved[4], White);
    assert_eq!(solved[49], Yellow);
    assert_eq!(solved[22], Orange);
    assert_eq!(solved[28], Red);
}

#[test]
fn cancelling_and_redundant_moves() {
    assert!(U.cancels(U3));
    assert!(U3.cancels(U));
    assert!(U2.cancels(U2));
    assert!(!U.cancels(U));
    assert!(!U.cancels(D3));
    assert!(R.redundant(R2));
    assert!(!R.redundant(L));
    assert_eq!(R3.to_str(), "R'");
    assert_eq!(B2.to_str(), "B2");
    assert_eq!(F.to_str(), "F");
    assert_eq!(F2.turns(), 2);
    assert_eq!(Move::nth(9), R);
    let all = Move::all();
    assert_eq!(all.len(), 18);
    assert_eq!(all[0], U);
    assert_eq!(all[17], B3);
    for &a in &all {
        for &b in &all {
            if a.cancels(b) {
                assert_eq!(a.to_cube().apply(&b.to_cube()), Cube::solved());
            }
        }
    }
}
