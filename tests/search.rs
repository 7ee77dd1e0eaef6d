use rubiks_solver::cube::{dfs, ida, Cube};
use rubiks_solver::heuristics::{EOBound, ZeroBound};
use rubiks_solver::mv::Move;
use rubiks_solver::mv::Move::{F, R, R3, U, U3};
use rubiks_solver::heuristics::Heuristic;
use rubiks_solver::pruning_table::{Coordinate, PruningTable, EO};

fn apply_all(cube: Cube, path: &[Move]) -> Cube {
    let mut c = cube;
    for &m in path {
        c = c.turn(m);
    }
    c
}

#[test]
fn solving_the_solved_cube_needs_no_moves() {
    assert_eq!(ida(Cube::solved(), 0, &ZeroBound), Some(vec![]));
    assert_eq!(ida(Cube::solved(), 5, &EOBound), Some(vec![]));
}

#[test]
fn one_move_scramble() {
    let scramble = R.to_cube();
    assert_eq!(ida(scramble, 1, &ZeroBound), Some(vec![R3]));
    assert_eq!(ida(scramble, 0, &ZeroBound), None);
}

#[test]
fn two_move_scramble() {
    let scramble = R.to_cube().turn(U);
    assert_eq!(ida(scramble, 2, &ZeroBound), Some(vec![U3, R3]));
    assert_eq!(ida(scramble, 1, &ZeroBound), None);
}

#[test]
fn deeper_budgets_still_find_the_shortest() {
    let scramble = R.to_cube().turn(U).turn(F);
    let table = PruningTable::<EO>::generate();
    let path = ida(scramble, 6, &(&table, EOBound)).unwrap();
    assert_eq!(path.len(), 3);
    assert_eq!(apply_all(scramble, &path), Cube::solved());
    assert_eq!(ida(scramble, 2, &ZeroBound), None);
}

#[test]
fn heuristic_is_below_solution_length() {
    let table = PruningTable::<EO>::generate();
    for scramble in [
        R.to_cube(),
        F.to_cube(),
        F.to_cube().turn(R),
        F.to_cube().turn(U).turn(R),
    ] {
        let path = ida(scramble, 4, &ZeroBound).unwrap();
        assert_eq!(table.as_ref()[EO::to_coord(&scramble)], table.lower_bound(&scramble));
        assert!(table.lower_bound(&scramble) as usize <= path.len());
        assert!(EOBound.lower_bound(&scramble) as usize <= path.len());
    }
}

#[test]
fn dfs_counts_nodes_and_keeps_the_path() {
    let mut nodes = (0u64, 0u64);
    let found = dfs(1, vec![U], 2, R.to_cube(), &mut nodes, &ZeroBound);
    assert_eq!(found, Some(vec![U, R3]));
    assert!(nodes.0 >= 1 && nodes.1 >= 1);
}

#[test]
fn dfs_skips_a_second_turn_of_the_same_face() {
    let mut nodes = (0u64, 0u64);
    assert_eq!(dfs(1, vec![R], 2, R.to_cube(), &mut nodes, &ZeroBound), None);
}

#[test]
fn search_reports_node_counts_per_depth() {
    let scramble = R.to_cube().turn(U);
    let (path, counts) = rubiks_solver::cube::ida_with_counts(scramble, 4, &ZeroBound);
    assert_eq!(path, Some(vec![U3, R3]));
    assert_eq!(counts.len(), 3);
    assert_eq!(counts[0], (0, 1));
    assert_eq!(counts[1], (1, 18));
    let (none, all) = rubiks_solver::cube::ida_with_counts(scramble, 1, &ZeroBound);
    assert_eq!(none, None);
    assert_eq!(all.len(), 2);
}
