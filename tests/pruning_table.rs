use rubiks_solver::cube::Cube;
use rubiks_solver::heuristics::{Corners, EOBound, Heuristic, ZeroBound};
use rubiks_solver::mv::Move;
use rubiks_solver::mv::Move::{B, F, L, R, U};
use rubiks_solver::pruning_table::{
    binomial, factorial, greatest_combination, Coordinate, CornerOrientation, CornerPermutation,
    PartialEdgeOrientation, PartialEdgePermutation, PartialEdges, PruningTable, EO,
};

fn fixed_scramble() -> Cube {
    let mut cube = Cube::solved();
    for m in [R, U, U, F, L, B] {
        cube = cube.turn(m);
    }
    cube
}

/// A deterministic spread of states reached from the solved cube.
fn sample_states() -> Vec<Cube> {
    let all = Move::all();
    let mut states = vec![Cube::solved()];
    let mut cube = Cube::solved();
    for step in 0..60usize {
        cube = cube.turn(all[(step * 11 + 5) % 18]);
        states.push(cube);
    }
    states
}

#[test]
fn corners_solved() {
    let solved = Cube::solved();
    assert_eq!(
        (
            CornerPermutation::to_coord(&solved),
            CornerOrientation::to_coord(&solved)
        ),
        (0, 0)
    );
}

#[test]
fn pruning_table_corner_coordinates() {
    let scramble = fixed_scramble();

    assert_eq!(
        (
            CornerPermutation::to_coord(&scramble),
            CornerOrientation::to_coord(&scramble)
        ),
        (4467, 2050)
    );
}

#[test]
fn pruning_table_corner_permutation_round_trip() {
    let scramble = fixed_scramble();

    let index = CornerPermutation::to_coord(&scramble);
    let reconstructed_cube = CornerPermutation::from_coord(index);

    assert_eq!(reconstructed_cube.cp, scramble.cp);
}

#[test]
fn pruning_table_corner_orientation_round_trip() {
    let scramble = fixed_scramble();

    let index = CornerOrientation::to_coord(&scramble);
    let reconstructed_cube = CornerOrientation::from_coord(index);

    assert_eq!(reconstructed_cube.co, scramble.co);
}

#[test]
fn choose_test() {
    for (n, expected) in (4..11).zip([0, 1, 6, 21, 56, 126, 252]) {
        assert_eq!(binomial(n, 5), expected)
    }
}

#[test]
fn test_greatest_combination_k5_n72() {
    // For k = 5, n = 72, find the largest x such that choose(x, 5) <= 72
    let (x, value) = greatest_combination(72, 5);
    // choose(7, 5) = 21, choose(8, 5) = 56, choose(9, 5) = 126
    // So, choose(8, 5) = 56 is the largest <= 72, so x should be 8, value 56
    assert_eq!(x, 8);
    assert_eq!(value, 56);
}

#[test]
fn partial_edge_orientation_round_trip() {
    let scramble = fixed_scramble();
    {
        let index = PartialEdgeOrientation::<0, 6>::to_coord(&scramble);
        let reconstructed_cube = PartialEdgeOrientation::<0, 6>::from_coord(index);

        assert_eq!(reconstructed_cube.eo[0..6], scramble.eo[0..6]);
    }

    {
        let index = PartialEdgeOrientation::<6, 12>::to_coord(&scramble);
        let reconstructed_cube = PartialEdgeOrientation::<6, 12>::from_coord(index);

        assert_eq!(reconstructed_cube.eo[6..12], scramble.eo[6..12]);
    }
}

#[test]
fn partial_edge_permutation_round_trip() {
    let scramble = fixed_scramble();

    {
        let index = PartialEdgePermutation::<0, 6>::to_coord(&scramble);

        let reconstructed_cube = PartialEdgePermutation::<0, 6>::from_coord(index);

        assert_eq!(reconstructed_cube.ep[0..6], scramble.ep[0..6]);
    }
    {
        let index = PartialEdgePermutation::<6, 12>::to_coord(&scramble);
        let reconstructed_cube = PartialEdgePermutation::<6, 12>::from_coord(index);

        assert_eq!(reconstructed_cube.ep[6..12], scramble.ep[6..12]);
    }
}

#[test]
fn partial_edges_round_trip() {
    {
        const COORDINATE: usize = 6969420;
        let state = PartialEdges::<0, 6>::from_coord(COORDINATE);

        let reconstructed_coordinate = PartialEdges::<0, 6>::to_coord(&state);

        assert_eq!(COORDINATE, reconstructed_coordinate);
    }
}

fn check_round_trips<C: Coordinate>(samples: usize) {
    let max = C::max();
    let mut points = vec![0, 1, max - 1];
    let step = max / samples + 1;
    let mut i = 7;
    while i < max {
        points.push(i);
        i += step;
    }
    for i in points {
        assert_eq!(C::to_coord(&C::from_coord(i)), i, "coordinate {}", i);
    }
}

#[test]
fn coordinates_round_trip() {
    check_round_trips::<EO>(500);
    check_round_trips::<CornerOrientation>(500);
    check_round_trips::<CornerPermutation>(2000);
    check_round_trips::<(CornerOrientation, CornerPermutation)>(2000);
    check_round_trips::<PartialEdgeOrientation<0, 6>>(64);
    check_round_trips::<PartialEdgeOrientation<3, 12>>(200);
    check_round_trips::<PartialEdgePermutation<0, 6>>(2000);
    check_round_trips::<PartialEdgePermutation<6, 12>>(2000);
    check_round_trips::<PartialEdgePermutation<2, 3>>(12);
    check_round_trips::<PartialEdges<0, 6>>(2000);
    check_round_trips::<PartialEdges<5, 12>>(2000);
    check_round_trips::<PartialEdges<11, 12>>(24);
}

#[test]
fn coordinate_sizes() {
    assert_eq!(EO::max(), 2048);
    assert_eq!(CornerOrientation::max(), 2187);
    assert_eq!(CornerPermutation::max(), 40320);
    assert_eq!(<(CornerOrientation, CornerPermutation)>::max(), 88179840);
    assert_eq!(PartialEdgeOrientation::<0, 6>::max(), 64);
    assert_eq!(PartialEdgePermutation::<0, 6>::max(), 665280);
    assert_eq!(PartialEdges::<0, 6>::max(), 64 * 665280);
    assert_eq!(factorial(0), 1);
    assert_eq!(factorial(8), 40320);
    assert_eq!(binomial(12, 6), 924);
    assert_eq!(binomial(3, 7), 0);
}

fn check_closure<C: Coordinate>() {
    let states = sample_states();
    for s in &states {
        let c = C::to_coord(s);
        let canonical = C::from_coord(c);
        for m in Move::all() {
            assert_eq!(C::to_coord(&s.turn(m)), C::to_coord(&canonical.turn(m)));
        }
    }
}

#[test]
fn coordinates_depend_only_on_what_they_observe() {
    check_closure::<EO>();
    check_closure::<CornerOrientation>();
    check_closure::<CornerPermutation>();
    check_closure::<(CornerOrientation, CornerPermutation)>();
    check_closure::<PartialEdges<0, 4>>();
}

#[test]
fn eo_table_is_a_distance_table() {
    let table = PruningTable::<EO>::generate();
    let bytes = table.as_ref();
    assert_eq!(bytes.len(), 2048);
    assert_eq!(bytes[0], 0);
    for i in 1..2048 {
        let d = bytes[i];
        assert!(d >= 1 && d <= 20, "entry {} is {}", i, d);
        let state = EO::from_coord(i);
        let stepped_down = Move::all()
            .into_iter()
            .any(|m| bytes[EO::to_coord(&state.turn(m))] == d - 1);
        assert!(stepped_down, "entry {} has no neighbour one closer", i);
    }
    assert_eq!(*bytes.iter().max().unwrap(), 7);
}

#[test]
fn small_partial_table_is_a_distance_table() {
    let table = PruningTable::<PartialEdges<0, 2>>::generate();
    let bytes = table.as_ref();
    assert_eq!(bytes.len(), 4 * 132);
    assert_eq!(bytes[0], 0);
    for i in 1..bytes.len() {
        let d = bytes[i];
        assert!(d >= 1, "entry {} unreached", i);
        let state = PartialEdges::<0, 2>::from_coord(i);
        let stepped_down = Move::all()
            .into_iter()
            .any(|m| bytes[PartialEdges::<0, 2>::to_coord(&state.turn(m))] == d - 1);
        assert!(stepped_down, "entry {} has no neighbour one closer", i);
    }
}

#[test]
fn heuristics_bound_known_distances() {
    let table = PruningTable::<EO>::generate();
    let one = R.to_cube();
    let f = F.to_cube();
    assert_eq!(ZeroBound.lower_bound(&one), 0);
    assert_eq!(EOBound.lower_bound(&Cube::solved()), 0);
    assert_eq!(EOBound.lower_bound(&f), 0);
    assert_eq!(EOBound.lower_bound(&Cube::superflip()), 0);
    assert_eq!(EOBound.lower_bound(&f.turn(R).turn(F)), 2);
    assert_eq!(table.lower_bound(&f), 1);
    assert_eq!(table.lower_bound(&one), 0);
    assert!(table.lower_bound(&f.turn(R).turn(B)) <= 3);
    assert_eq!((ZeroBound, &table).lower_bound(&f), 1);
    assert_eq!((EOBound, ZeroBound, &table).lower_bound(&f), 1);
    assert_eq!((ZeroBound, ZeroBound, EOBound, &table).lower_bound(&f), 1);
}

#[test]
fn corner_table_bytes_round_trip() {
    let bytes = vec![0u8; 88179840];
    let corners = Corners::new(bytes);
    assert_eq!(corners.bytes().len(), 88179840);
    assert_eq!(Corners::coord(&Cube::solved()), 0);
    assert_eq!(Corners::index_to_coords(88179839), (2186, 40319));
}

#[test]
fn partial_edges_decoding_keeps_selected_edges_and_clears_the_rest() {
    let scramble = fixed_scramble();
    let index = PartialEdges::<0, 6>::to_coord(&scramble);
    let decoded = PartialEdges::<0, 6>::from_coord(index);
    for p in 0..12 {
        if scramble.ep[p] < 6 {
            assert_eq!(decoded.ep[p], scramble.ep[p]);
            assert_eq!(decoded.eo[p], scramble.eo[p]);
        }
        if decoded.ep[p] >= 6 {
            assert_eq!(decoded.eo[p], 0);
        }
    }
    assert_eq!(decoded.cp, Cube::solved().cp);
    assert_eq!(decoded.co, Cube::solved().co);
}
