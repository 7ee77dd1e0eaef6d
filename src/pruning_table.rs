//! Coordinates over cube states and the distance tables built on them.
use vstd::arithmetic::power::pow;
use vstd::prelude::*;

use crate::cube::{
    co_coord, co_from_coord, compose, cp_coord, cp_from_coord, solved_state, Cube, CubeState,
};
use crate::mv::{lemma_solvable_is_balanced, lemma_move_at_index, move_at, move_index, inverse_of, lemma_inverse_undoes, lemma_move_balanced, lemma_move_valid, move_state, Move};
use crate::cube::{apply_moves, balanced, is_perm, lemma_perm_has_all};
use crate::radix::{lemma_comb_sum_small, lemma_combo_injective, lemma_horner_zeros, lemma_rank_increasing, lemma_digits_determine, lemma_horner_injective, lemma_rank_bound, lemma_rank_digits};
use crate::radix::{
    binom, combo, count_members, lemma_arrangements_bound, lemma_binom_le_fact, lemma_combo_bound,
    lemma_combo_below_max, lehmer_rank, read_lehmer, window_contains, comb_sum_from,
    count_above_in, count_greater, increasing, lehmer_digit, lemma_comb_sum_from_agree,
    lemma_comb_sum_is_from, lemma_combo_increasing, lemma_combo_same_members,
    lemma_count_above_in_front, lemma_count_above_in_start, lemma_count_above_in_update,
    lemma_count_greater_increasing, lemma_count_greater_remove, lemma_increasing_no_dup,
    lemma_rank_is_weighted, lemma_rank_prefix, lemma_weighted_update_below, weighted_from,
    lemma_binom_above, lemma_binom_fact, lemma_binom_mono, digits_below, digits_value, fact, lemma_fact_mono, lemma_fact_values, lemma_pow_values,
    read_digits, sum_of, sum_prefix, write_digits,
};

verus! {

/// `n!`, for `n <= 12`.
pub fn factorial(n: usize) -> (r: usize)
    requires
        n <= 12,
    ensures
        r == fact(n as nat),
{
    let mut total: usize = 1;
    let mut m: usize = 0;
    proof {
        lemma_fact_values();
    }
    while m < n
        invariant
            m <= n <= 12,
            total == fact(m as nat),
        decreases n - m,
    {
        proof {
            lemma_fact_values();
            lemma_fact_mono((m + 1) as nat, 12);
            assert(fact((m + 1) as nat) == (m + 1) * fact(m as nat));
            let fm = fact(m as nat) as int;
            assert((total as int) * (m + 1) == (m + 1) * fm) by (nonlinear_arith)
                requires
                    total == fm,
            ;
        }
        m += 1;
        total = total * m;
    }
    total
}

/// The number of ways to choose `k` things from a set of `n`.
pub fn binomial(n: usize, k: usize) -> (r: usize)
    requires
        n <= 12,
    ensures
        r == binom(n as nat, k as nat),
{
    if k > n {
        proof {
            lemma_binom_above(n as nat, k as nat);
        }
        0
    } else {
        proof {
            lemma_binom_fact(n as nat, k as nat);
            lemma_fact_values();
            lemma_fact_mono(n as nat, 12);
        }
        let fk = factorial(k);
        let fnk = factorial(n - k);
        proof {
            let b = binom(n as nat, k as nat) as int;
            assert(fk * fnk <= b * fk * fnk) by (nonlinear_arith)
                requires
                    b >= 1,
                    fk >= 0,
                    fnk >= 0,
            ;
        }
        let d = fk * fnk;
        proof {
            let b = binom(n as nat, k as nat) as int;
            assert(b * d == fact(n as nat)) by (nonlinear_arith)
                requires
                    b * fk * fnk == fact(n as nat),
                    d == fk * fnk,
            ;
            vstd::arithmetic::div_mod::lemma_div_by_multiple(b, d as int);
        }
        factorial(n) / d
    }
}

/// The largest `x` with `C(x, k) <= n`, and `C(x, k)`.
pub fn greatest_combination(n: usize, k: usize) -> (r: (u8, usize))
    requires
        1 <= k <= 12,
        n < binom(12, k as nat),
    ensures
        r.0 < 12,
        r.1 == binom(r.0 as nat, k as nat),
        r.1 <= n,
        n < binom(r.0 as nat + 1, k as nat),
{
    let mut prev: usize = 0;
    let mut x: usize = 0;
    loop
        invariant
            x <= 12,
            1 <= k <= 12,
            n < binom(12, k as nat),
            x > 0 ==> prev == binom((x - 1) as nat, k as nat) && prev <= n,
        decreases 12 - x,
    {
        let choice = binomial(x, k);
        if choice > n {
            proof {
                if x == 0 {
                    assert(binom(0, k as nat) == 0);
                }
            }
            return ((x - 1) as u8, prev);
        }
        prev = choice;
        x += 1;
    }
}

/// A coordinate: a map from cube states onto `[0, max)` that observes
/// only part of the state, with a way back to a state that is solved in
/// every part that the coordinate does not observe.
pub trait Coordinate {
    /// Whether the coordinate's parameters are usable.
    spec fn valid_params() -> bool;

    /// How many values the coordinate takes.
    spec fn spec_max() -> nat;

    /// The coordinate of a state.
    spec fn spec_coord(s: CubeState) -> nat;

    /// Whether `from_coord` gives balanced states (see `balanced`).
    spec fn gives_balanced() -> bool;

    /// How many values the coordinate takes.
    fn max() -> (r: usize)
        requires
            Self::valid_params(),
        ensures
            r == Self::spec_max(),
            r > 0,
    ;

    /// The coordinate of `state`.
    fn to_coord(state: &Cube) -> (r: usize)
        requires
            Self::valid_params(),
            state.valid(),
        ensures
            r == Self::spec_coord(state@),
            r < Self::spec_max(),
    ;

    /// A state whose coordinate is `coord`, solved where the coordinate
    /// does not look.
    fn from_coord(coord: usize) -> (r: Cube)
        requires
            Self::valid_params(),
            coord < Self::spec_max(),
        ensures
            r.valid(),
            Self::spec_coord(r@) == coord,
            Self::gives_balanced() ==> balanced(r@),
    ;
}

/// The orientation of all edges: `eo[0..11]` in base 2 (the last flip
/// follows from the others).
pub struct EO;

/// The edge orientation coordinate.
pub open spec fn eo_coord(s: CubeState) -> nat {
    digits_value(s.eo, 0, 11, 2)
}

impl Coordinate for EO {
    open spec fn valid_params() -> bool {
        true
    }

    open spec fn gives_balanced() -> bool {
        true
    }

    open spec fn spec_max() -> nat {
        2048
    }

    open spec fn spec_coord(s: CubeState) -> nat {
        eo_coord(s)
    }

    fn max() -> (r: usize) {
        2048
    }

    fn to_coord(state: &Cube) -> (r: usize) {
        proof {
            lemma_pow_values();
            let w = state.eo@.subrange(0, 11);
            assert forall|i: int| 0 <= i < w.len() implies (#[trigger] w[i] as nat) < 2 by {
                assert(w[i] == state.eo@[i]);
            }
        }
        read_digits(&state.eo, 0, 11, 2)
    }

    fn from_coord(coord: usize) -> (r: Cube)
        ensures
            eo_coord(r@) == coord,
            sum_of(r.eo@) % 2 == 0,
            r@.ep == solved_state().ep,
            r@.cp == solved_state().cp,
            r@.co == solved_state().co,
    {
        proof {
            lemma_pow_values();
        }
        let mut digits = [0u8; 12];
        write_digits(&mut digits, 0, 11, 2, coord);
        let sum = sum_prefix(&digits, 11);
        let ghost before = digits@;
        digits[11] = ((2 - sum % 2) % 2) as u8;
        proof {
            assert(digits@.subrange(0, 11) =~= before.subrange(0, 11));
            assert(digits@.drop_last() =~= before.subrange(0, 11));
            assert forall|i: int| 0 <= i < 11 implies digits@[i] < 2 by {
                assert(digits@[i] == before.subrange(0, 11)[i]);
            }
        }
        let mut cube = Cube::solved();
        proof {
            crate::cube::lemma_solved_balanced();
        }
        cube.eo = digits;
        cube
    }
}

/// Equal edge orientation coordinates of balanced states mean equal flips.
pub proof fn lemma_eo_coord_determines(a: CubeState, b: CubeState)
    requires
        a.valid(),
        b.valid(),
        balanced(a),
        balanced(b),
        eo_coord(a) == eo_coord(b),
    ensures
        a.eo == b.eo,
{
    let sa = a.eo.subrange(0, 11);
    let sb = b.eo.subrange(0, 11);
    assert forall|i: int| 0 <= i < 11 implies (#[trigger] sa[i] as nat) < 2 && (sb[i] as nat) < 2 by {
        assert(sa[i] == a.eo[i] && sb[i] == b.eo[i]);
    }
    lemma_horner_injective(sa, sb, 2);
    assert(a.eo.drop_last() =~= sa);
    assert(b.eo.drop_last() =~= sb);
    assert(a.eo =~= b.eo) by {
        assert forall|i: int| 0 <= i < 12 implies a.eo[i] == b.eo[i] by {
            if i < 11 {
                assert(sa[i] == sb[i]);
            }
        }
    }
}

/// The edge orientation coordinate after a move depends only on the
/// coordinate before it.
pub proof fn lemma_eo_coord_closed(a: CubeState, b: CubeState, m: Move)
    requires
        a.valid(),
        b.valid(),
        balanced(a),
        balanced(b),
        eo_coord(a) == eo_coord(b),
    ensures
        eo_coord(compose(a, move_state(m))) == eo_coord(compose(b, move_state(m))),
{
    lemma_eo_coord_determines(a, b);
    lemma_move_valid(m);
    assert(compose(a, move_state(m)).eo =~= compose(b, move_state(m)).eo);
}

/// Equal corner orientation coordinates of balanced states mean equal
/// twists.
pub proof fn lemma_co_coord_determines(a: CubeState, b: CubeState)
    requires
        a.valid(),
        b.valid(),
        balanced(a),
        balanced(b),
        co_coord(a) == co_coord(b),
    ensures
        a.co == b.co,
{
    let sa = a.co.subrange(0, 7);
    let sb = b.co.subrange(0, 7);
    assert forall|i: int| 0 <= i < 7 implies (#[trigger] sa[i] as nat) < 3 && (sb[i] as nat) < 3 by {
        assert(sa[i] == a.co[i] && sb[i] == b.co[i]);
    }
    lemma_horner_injective(sa, sb, 3);
    assert(a.co.drop_last() =~= sa);
    assert(b.co.drop_last() =~= sb);
    assert(a.co =~= b.co) by {
        assert forall|i: int| 0 <= i < 8 implies a.co[i] == b.co[i] by {
            if i < 7 {
                assert(sa[i] == sb[i]);
            }
        }
    }
}

/// The corner orientation coordinate after a move depends only on the
/// coordinate before it.
pub proof fn lemma_co_coord_closed(a: CubeState, b: CubeState, m: Move)
    requires
        a.valid(),
        b.valid(),
        balanced(a),
        balanced(b),
        co_coord(a) == co_coord(b),
    ensures
        co_coord(compose(a, move_state(m))) == co_coord(compose(b, move_state(m))),
{
    lemma_co_coord_determines(a, b);
    lemma_move_valid(m);
    assert(compose(a, move_state(m)).co =~= compose(b, move_state(m)).co);
}

/// Equal corner permutation coordinates of valid states mean equal corner
/// permutations.
pub proof fn lemma_cp_coord_determines(a: CubeState, b: CubeState)
    requires
        a.valid(),
        b.valid(),
        cp_coord(a) == cp_coord(b),
    ensures
        a.cp == b.cp,
{
    lemma_perm_has_all(a.cp, 8);
    lemma_perm_has_all(b.cp, 8);
    assert(a.cp.subrange(0, 8) =~= a.cp);
    assert(b.cp.subrange(0, 8) =~= b.cp);
    assert(a.cp.no_duplicates());
    assert(b.cp.no_duplicates());
    assert forall|v: u8| a.cp.contains(v) <==> b.cp.contains(v) by {
        if a.cp.contains(v) {
            let j = choose|j: int| 0 <= j < a.cp.len() && a.cp[j] == v;
            assert(v < 8);
        }
        if b.cp.contains(v) {
            let j = choose|j: int| 0 <= j < b.cp.len() && b.cp[j] == v;
            assert(v < 8);
        }
    }
    lemma_rank_digits(a.cp, b.cp, 8);
    lemma_digits_determine(a.cp, b.cp, 8);
}

/// The corner permutation coordinate after a move depends only on the
/// coordinate before it.
pub proof fn lemma_cp_coord_closed(a: CubeState, b: CubeState, m: Move)
    requires
        a.valid(),
        b.valid(),
        cp_coord(a) == cp_coord(b),
    ensures
        cp_coord(compose(a, move_state(m))) == cp_coord(compose(b, move_state(m))),
{
    lemma_cp_coord_determines(a, b);
    lemma_move_valid(m);
    assert(compose(a, move_state(m)).cp =~= compose(b, move_state(m)).cp);
}

/// The corner coordinate after a move depends only on the coordinate
/// before it.
pub proof fn lemma_corners_coord_closed(a: CubeState, b: CubeState, m: Move)
    requires
        a.valid(),
        b.valid(),
        balanced(a),
        balanced(b),
        corners_coord(a) == corners_coord(b),
    ensures
        corners_coord(compose(a, move_state(m))) == corners_coord(compose(b, move_state(m))),
{
    lemma_rank_bound(a.cp, 8);
    lemma_rank_bound(b.cp, 8);
    lemma_fact_values();
    let x = corners_coord(a) as int;
    vstd::arithmetic::div_mod::lemma_fundamental_div_mod_converse(x, 40320, co_coord(a) as int, cp_coord(a) as int);
    vstd::arithmetic::div_mod::lemma_fundamental_div_mod_converse(x, 40320, co_coord(b) as int, cp_coord(b) as int);
    lemma_co_coord_closed(a, b, m);
    lemma_cp_coord_closed(a, b, m);
}

/// The orientation of the corners: `co[0..7]` in base 3.
pub struct CornerOrientation;

/// The permutation of the corners, as its Lehmer rank.
pub struct CornerPermutation;

impl Coordinate for CornerOrientation {
    open spec fn valid_params() -> bool {
        true
    }

    open spec fn gives_balanced() -> bool {
        true
    }

    open spec fn spec_max() -> nat {
        2187
    }

    open spec fn spec_coord(s: CubeState) -> nat {
        co_coord(s)
    }

    fn max() -> (r: usize) {
        2187
    }

    fn to_coord(state: &Cube) -> (r: usize) {
        state.corner_orientation_coordinate()
    }

    fn from_coord(coord: usize) -> (r: Cube)
        ensures
            co_coord(r@) == coord,
            sum_of(r.co@) % 3 == 0,
            r@.ep == solved_state().ep,
            r@.eo == solved_state().eo,
            r@.cp == solved_state().cp,
    {
        let mut cube = Cube::solved();
        proof {
            crate::cube::lemma_solved_balanced();
        }
        cube.co = co_from_coord(coord);
        cube
    }
}

impl Coordinate for CornerPermutation {
    open spec fn valid_params() -> bool {
        true
    }

    open spec fn gives_balanced() -> bool {
        true
    }

    open spec fn spec_max() -> nat {
        40320
    }

    open spec fn spec_coord(s: CubeState) -> nat {
        cp_coord(s)
    }

    fn max() -> (r: usize) {
        40320
    }

    fn to_coord(state: &Cube) -> (r: usize) {
        state.corner_perm_coordinate()
    }

    fn from_coord(coord: usize) -> (r: Cube)
        ensures
            cp_coord(r@) == coord,
            r@.ep == solved_state().ep,
            r@.eo == solved_state().eo,
            r@.co == solved_state().co,
    {
        let mut cube = Cube::solved();
        proof {
            crate::cube::lemma_solved_balanced();
        }
        cube.cp = cp_from_coord(coord);
        cube
    }
}

/// Corner orientation and permutation together.
pub open spec fn corners_coord(s: CubeState) -> nat {
    co_coord(s) * 40320 + cp_coord(s)
}

impl Coordinate for (CornerOrientation, CornerPermutation) {
    open spec fn valid_params() -> bool {
        true
    }

    open spec fn gives_balanced() -> bool {
        true
    }

    open spec fn spec_max() -> nat {
        88179840
    }

    open spec fn spec_coord(s: CubeState) -> nat {
        corners_coord(s)
    }

    fn max() -> (r: usize) {
        88179840
    }

    fn to_coord(state: &Cube) -> (r: usize) {
        CornerOrientation::to_coord(state) * 40320 + CornerPermutation::to_coord(state)
    }

    fn from_coord(coord: usize) -> (r: Cube)
        ensures
            corners_coord(r@) == coord,
            co_coord(r@) == coord / 40320,
            cp_coord(r@) == coord % 40320,
            r@.ep == solved_state().ep,
            r@.eo == solved_state().eo,
    {
        let c0 = coord / 40320;
        let c1 = coord % 40320;
        let mut cube = CornerOrientation::from_coord(c0);
        let cp = CornerPermutation::from_coord(c1);
        cube.cp = cp.cp;
        cube
    }
}

/// The flips of the edges at positions `LOW..HIGH`, in base 2.
pub struct PartialEdgeOrientation<const LOW: usize, const HIGH: usize>;

/// `2^k`, for `k <= 12`.
fn two_to_the(k: usize) -> (r: usize)
    requires
        k <= 12,
    ensures
        r == pow(2, k as nat),
{
    let mut r: usize = 1;
    let mut i: usize = 0;
    proof {
        reveal(pow);
    }
    while i < k
        invariant
            i <= k <= 12,
            r == pow(2, i as nat),
        decreases k - i,
    {
        proof {
            reveal(pow);
            lemma_pow_values();
            vstd::arithmetic::power::lemma_pow_increases(2, (i + 1) as nat, 12);
        }
        r = r * 2;
        i += 1;
    }
    r
}

impl<const LOW: usize, const HIGH: usize> Coordinate for PartialEdgeOrientation<LOW, HIGH> {
    open spec fn valid_params() -> bool {
        LOW < HIGH <= 12
    }

    open spec fn gives_balanced() -> bool {
        false
    }

    open spec fn spec_max() -> nat {
        pow(2, (HIGH - LOW) as nat) as nat
    }

    open spec fn spec_coord(s: CubeState) -> nat {
        digits_value(s.eo, LOW as int, HIGH as int, 2)
    }

    fn max() -> (r: usize) {
        proof {
            vstd::arithmetic::power::lemma_pow_positive(2, (HIGH - LOW) as nat);
        }
        two_to_the(HIGH - LOW)
    }

    fn to_coord(state: &Cube) -> (r: usize) {
        proof {
            lemma_pow_values();
            vstd::arithmetic::power::lemma_pow_increases(2, (HIGH - LOW) as nat, 12);
            let w = state.eo@.subrange(LOW as int, HIGH as int);
            assert forall|i: int| 0 <= i < w.len() implies (#[trigger] w[i] as nat) < 2 by {
                assert(w[i] == state.eo@[LOW + i]);
            }
        }
        read_digits(&state.eo, LOW, HIGH, 2)
    }

    fn from_coord(coord: usize) -> (r: Cube)
        ensures
            digits_value(r.eo@, LOW as int, HIGH as int, 2) == coord,
            forall|i: int| 0 <= i < 12 && !(LOW <= i < HIGH) ==> r.eo@[i] == 0,
            r@.ep == solved_state().ep,
            r@.cp == solved_state().cp,
            r@.co == solved_state().co,
    {
        let mut orientation = [0u8; 12];
        proof {
            vstd::arithmetic::power::lemma_pow_positive(2, (HIGH - LOW) as nat);
        }
        write_digits(&mut orientation, LOW, HIGH, 2, coord);
        proof {
            assert forall|i: int| 0 <= i < 12 implies orientation@[i] < 2 by {
                if LOW <= i < HIGH {
                    assert(orientation@[i] == orientation@.subrange(LOW as int, HIGH as int)[i - LOW]);
                }
            }
        }
        let mut cube = Cube::solved();
        cube.eo = orientation;
        cube
    }
}

/// State `s` and move `m` lead to coordinate `j`, and the entry of `s` is
/// one less than that of `j` (or `s` is solved, where `j` has entry 1).
pub open spec fn steps_up<C: Coordinate>(t: Seq<u8>, j: int, s: CubeState, m: Move) -> bool {
    &&& s.valid()
    &&& C::gives_balanced() ==> balanced(s)
    &&& C::spec_coord(compose(s, move_state(m))) == j
    &&& if t[j] == 1 {
        s == solved_state()
    } else {
        C::spec_coord(s) < t.len() && t[C::spec_coord(s) as int] == t[j] - 1
    }
}

/// Entry `j` of table `t` is zero, or is one move away from a state whose
/// entry is one less: the solved state when the entry is 1.
pub open spec fn reached_from_below<C: Coordinate>(t: Seq<u8>, j: int) -> bool {
    t[j] == 0 || exists|s: CubeState, m: Move| #[trigger] steps_up::<C>(t, j, s, m)
}

/// Setting a zero entry to `d`, given a witness for it, keeps every entry
/// reached from below.
pub proof fn lemma_reached_after_set<C: Coordinate>(t: Seq<u8>, j: int, d: u8, s: CubeState, m: Move)
    requires
        0 <= j < t.len(),
        t[j] == 0,
        d >= 1,
        forall|x: int| 0 <= x < t.len() ==> #[trigger] reached_from_below::<C>(t, x),
        s.valid(),
        C::gives_balanced() ==> balanced(s),
        C::spec_coord(compose(s, move_state(m))) == j,
        d == 1 ==> s == solved_state(),
        d > 1 ==> C::spec_coord(s) < t.len() && t[C::spec_coord(s) as int] == d - 1,
    ensures
        forall|x: int| 0 <= x < t.len() ==> #[trigger] reached_from_below::<C>(t.update(j, d), x),
{
    let u = t.update(j, d);
    assert forall|x: int| 0 <= x < t.len() implies #[trigger] reached_from_below::<C>(u, x) by {
        if x == j {
            assert(steps_up::<C>(u, x, s, m));
        } else if t[x] != 0 {
            assert(reached_from_below::<C>(t, x));
            let (s2, m2) = choose|s2: CubeState, m2: Move| #[trigger] steps_up::<C>(t, x, s2, m2);
            if t[x] != 1 {
                assert(C::spec_coord(s2) != j);
            }
            assert(steps_up::<C>(u, x, s2, m2));
        }
    }
}

/// Every entry that a table's generator reached, other than entry 0, has a
/// move down to an entry one less: from any valid, balanced state `s` with
/// that coordinate, some move leads to a state whose entry is one less.
/// This holds for a coordinate that is 0 on the solved state and whose
/// value after a move depends only on its value before (for balanced
/// states, where its `from_coord` gives balanced states).
pub proof fn lemma_table_descends<C: Coordinate>(t: Seq<u8>, s: CubeState)
    requires
        C::spec_coord(solved_state()) == 0,
        forall|a: CubeState, b: CubeState, m: Move|
            a.valid() && b.valid() && (C::gives_balanced() ==> balanced(a) && balanced(b)) && C::spec_coord(a)
                == C::spec_coord(b) ==> #[trigger] C::spec_coord(compose(a, move_state(m)))
                == #[trigger] C::spec_coord(compose(b, move_state(m))),
        0 < t.len(),
        t[0] == 0,
        forall|j: int| 0 <= j < t.len() ==> #[trigger] reached_from_below::<C>(t, j),
        s.valid(),
        balanced(s),
        C::spec_coord(s) < t.len(),
        t[C::spec_coord(s) as int] != 0,
    ensures
        exists|m: Move|
            C::spec_coord(compose(s, move_state(m))) < t.len() && t[C::spec_coord(compose(s, move_state(m)))
                as int] == t[C::spec_coord(s) as int] - 1,
{
    let i = C::spec_coord(s) as int;
    assert(reached_from_below::<C>(t, i));
    let (s0, m0) = choose|s0: CubeState, m0: Move| #[trigger] steps_up::<C>(t, i, s0, m0);
    let m1 = inverse_of(m0);
    let b = compose(s0, move_state(m0));
    lemma_move_valid(m0);
    lemma_move_balanced(m0);
    crate::cube::lemma_compose_valid(s0, move_state(m0));
    if C::gives_balanced() {
        crate::cube::lemma_compose_balanced(s0, move_state(m0));
    }
    lemma_inverse_undoes(s0, m0);
    assert(C::spec_coord(compose(s, move_state(m1))) == C::spec_coord(compose(b, move_state(m1))));
    assert(C::spec_coord(compose(s, move_state(m1))) == C::spec_coord(s0));
}

/// The corner coordinate of the solved state is 0.
pub proof fn lemma_corners_coord_solved()
    ensures
        corners_coord(solved_state()) == 0,
        eo_coord(solved_state()) == 0,
{
    let z = solved_state();
    lemma_horner_zeros(z.co.subrange(0, 7), 3);
    lemma_horner_zeros(z.eo.subrange(0, 11), 2);
    lemma_rank_increasing(z.cp, 8);
}

/// In the corner table that `generate` builds, every reached entry other
/// than entry 0 has a move down to an entry one less, from any valid,
/// balanced state with that index.
pub proof fn lemma_corner_table_descends(t: Seq<u8>, s: CubeState)
    requires
        t.len() == 88179840,
        t[0] == 0,
        forall|j: int|
            0 <= j < t.len() ==> #[trigger] reached_from_below::<(CornerOrientation, CornerPermutation)>(
                t,
                j,
            ),
        s.valid(),
        balanced(s),
        t[corners_coord(s) as int] != 0,
    ensures
        exists|m: Move|
            t[corners_coord(compose(s, move_state(m))) as int] == t[corners_coord(s) as int] - 1,
{
    lemma_corners_coord_solved();
    assert forall|a: CubeState, b: CubeState, m: Move|
        a.valid() && b.valid() && balanced(a) && balanced(b) && corners_coord(a) == corners_coord(b)
            implies #[trigger] corners_coord(compose(a, move_state(m))) == #[trigger] corners_coord(
            compose(b, move_state(m)),
        ) by {
        lemma_corners_coord_closed(a, b, m);
    }
    lemma_corners_coord_bound(s);
    lemma_table_descends::<(CornerOrientation, CornerPermutation)>(t, s);
}

/// The corner coordinate is below `3^7 * 8!`.
pub proof fn lemma_corners_coord_bound(s: CubeState)
    requires
        s.valid(),
    ensures
        corners_coord(s) < 88179840,
{
    lemma_rank_bound(s.cp, 8);
    lemma_fact_values();
    lemma_pow_values();
    let w = s.co.subrange(0, 7);
    assert forall|i: int| 0 <= i < w.len() implies (#[trigger] w[i] as nat) < 3 by {
        assert(w[i] == s.co[i]);
    }
    crate::radix::lemma_horner_bound(w, 3);
}

/// In the edge orientation table that `generate` builds, every reached
/// entry other than entry 0 has a move down to an entry one less, from any
/// valid, balanced state with that index.
pub proof fn lemma_eo_table_descends(t: Seq<u8>, s: CubeState)
    requires
        t.len() == 2048,
        t[0] == 0,
        forall|j: int| 0 <= j < t.len() ==> #[trigger] reached_from_below::<EO>(t, j),
        s.valid(),
        balanced(s),
        t[eo_coord(s) as int] != 0,
    ensures
        exists|m: Move| t[eo_coord(compose(s, move_state(m))) as int] == t[eo_coord(s) as int] - 1,
{
    lemma_corners_coord_solved();
    assert forall|a: CubeState, b: CubeState, m: Move|
        a.valid() && b.valid() && balanced(a) && balanced(b) && eo_coord(a) == eo_coord(b)
            implies #[trigger] eo_coord(compose(a, move_state(m))) == #[trigger] eo_coord(
            compose(b, move_state(m)),
        ) by {
        lemma_eo_coord_closed(a, b, m);
    }
    lemma_pow_values();
    let w = s.eo.subrange(0, 11);
    assert forall|i: int| 0 <= i < w.len() implies (#[trigger] w[i] as nat) < 2 by {
        assert(w[i] == s.eo[i]);
    }
    crate::radix::lemma_horner_bound(w, 2);
    lemma_table_descends::<EO>(t, s);
}

/// Coordinate `j` is 0, or has a non-zero entry at most one more than
/// entry `i`.
pub open spec fn neighbour_ok(t: Seq<u8>, i: int, j: nat) -> bool {
    j == 0 || (j < t.len() && t[j as int] != 0 && t[j as int] <= t[i] + 1)
}

/// Entry `i` was expanded: some state with coordinate `i` (balanced where
/// the coordinate's states are) has, after each move, a coordinate that is
/// 0 or has a non-zero entry at most one more than entry `i`.
pub open spec fn expanded<C: Coordinate>(t: Seq<u8>, i: int) -> bool {
    exists|x: CubeState| #[trigger] expands::<C>(t, i, x)
}

/// `x` witnesses that entry `i` was expanded.
pub open spec fn expands<C: Coordinate>(t: Seq<u8>, i: int, x: CubeState) -> bool {
    &&& x.valid()
    &&& C::gives_balanced() ==> balanced(x)
    &&& C::spec_coord(x) == i
    &&& forall|m: Move| #[trigger] neighbour_ok(t, i, C::spec_coord(compose(x, move_state(m))))
}

/// Every reached entry was expanded, and so was entry 0 where the solved
/// state has coordinate 0.
pub open spec fn complete<C: Coordinate>(t: Seq<u8>) -> bool {
    &&& C::spec_coord(solved_state()) == 0 ==> expanded::<C>(t, 0)
    &&& forall|i: int| 0 < i < t.len() && t[i] != 0 ==> #[trigger] expanded::<C>(t, i)
}

/// Filling a zero entry keeps an expansion witness valid.
pub proof fn lemma_expands_after_set<C: Coordinate>(t: Seq<u8>, i: int, x: CubeState, j: int, d: u8)
    requires
        0 <= i < t.len(),
        0 < j < t.len(),
        t[j] == 0,
        i != j,
        expands::<C>(t, i, x),
    ensures
        expands::<C>(t.update(j, d), i, x),
{
    let u = t.update(j, d);
    assert forall|m: Move| #[trigger] neighbour_ok(u, i, C::spec_coord(compose(x, move_state(m)))) by {
        assert(neighbour_ok(t, i, C::spec_coord(compose(x, move_state(m)))));
    }
}

/// Filling a zero entry keeps every expanded entry expanded.
pub proof fn lemma_expanded_after_set<C: Coordinate>(t: Seq<u8>, i: int, j: int, d: u8)
    requires
        0 <= i < t.len(),
        0 < j < t.len(),
        t[j] == 0,
        i != j,
        expanded::<C>(t, i),
    ensures
        expanded::<C>(t.update(j, d), i),
{
    let x = choose|x: CubeState| #[trigger] expands::<C>(t, i, x);
    lemma_expands_after_set::<C>(t, i, x, j, d);
}

/// In a complete table over a coordinate that is 0 on the solved state and
/// whose value after a move depends only on its value before (for balanced
/// states, where its `from_coord` gives balanced states), the entry of a
/// valid, balanced state is at most the length of any sequence of moves
/// that solves it.
pub proof fn lemma_table_admissible<C: Coordinate>(t: Seq<u8>, s: CubeState, ms: Seq<Move>)
    requires
        C::spec_coord(solved_state()) == 0,
        forall|a: CubeState, b: CubeState, m: Move|
            a.valid() && b.valid() && (C::gives_balanced() ==> balanced(a) && balanced(b)) && C::spec_coord(a)
                == C::spec_coord(b) ==> #[trigger] C::spec_coord(compose(a, move_state(m)))
                == #[trigger] C::spec_coord(compose(b, move_state(m))),
        forall|a: CubeState| a.valid() ==> #[trigger] C::spec_coord(a) < t.len(),
        t[0] == 0,
        complete::<C>(t),
        s.valid(),
        balanced(s),
        apply_moves(s, ms) == solved_state(),
    ensures
        t[C::spec_coord(s) as int] <= ms.len(),
    decreases ms.len(),
{
    if ms.len() > 0 {
        let m = ms[0];
        let s1 = compose(s, move_state(m));
        lemma_move_valid(m);
        lemma_move_balanced(m);
        crate::cube::lemma_compose_valid(s, move_state(m));
        crate::cube::lemma_compose_balanced(s, move_state(m));
        lemma_table_admissible::<C>(t, s1, ms.subrange(1, ms.len() as int));
        let i = C::spec_coord(s) as int;
        let j = C::spec_coord(s1) as int;
        assert(i < t.len() && j < t.len());
        if j == 0 || t[j] != 0 {
            assert(expanded::<C>(t, j));
            let y = choose|y: CubeState| #[trigger] expands::<C>(t, j, y);
            let m1 = inverse_of(m);
            lemma_inverse_undoes(s, m);
            assert(C::spec_coord(compose(y, move_state(m1))) == C::spec_coord(compose(s1, move_state(m1))));
            assert(neighbour_ok(t, j, C::spec_coord(compose(y, move_state(m1)))));
        } else if i != 0 && t[i] != 0 {
            assert(expanded::<C>(t, i));
            let x = choose|x: CubeState| #[trigger] expands::<C>(t, i, x);
            assert(C::spec_coord(compose(x, move_state(m))) == C::spec_coord(s1));
            assert(neighbour_ok(t, i, C::spec_coord(compose(x, move_state(m)))));
        }
    } else {
        assert(C::spec_coord(s) == 0);
    }
}

/// A table of distances, one byte per value of the coordinate `C`: entry
/// `i` is the number of moves that the generator needed to reach `i` from
/// the solved coordinate.
pub struct PruningTable<C: Coordinate> {
    table: Vec<u8>,
    coordinate: core::marker::PhantomData<C>,
}

impl<C: Coordinate> View for PruningTable<C> {
    type V = Seq<u8>;

    closed spec fn view(&self) -> Seq<u8> {
        self.table@
    }
}

impl<C: Coordinate> PruningTable<C> {
    /// The table has one entry per value of its coordinate.
    pub open spec fn wf(&self) -> bool {
        C::valid_params() && self@.len() == C::spec_max()
    }

    /// A table made of given bytes, one per value of the coordinate.
    pub fn new(table: Vec<u8>) -> (r: Self)
        requires
            C::valid_params(),
            table@.len() == C::spec_max(),
        ensures
            r.wf(),
            r@ == table@,
    {
        PruningTable { table, coordinate: core::marker::PhantomData }
    }

    /// The entries as bytes, in coordinate order.
    pub fn as_ref(&self) -> (r: &[u8])
        ensures
            r@ == self@,
    {
        self.table.as_slice()
    }

    /// The entries, handed over.
    pub fn into_bytes(self) -> (r: Vec<u8>)
        ensures
            r@ == self@,
    {
        self.table
    }

    /// The entry for coordinate value `i`.
    pub fn get(&self, i: usize) -> (r: u8)
        requires
            i < self@.len(),
        ensures
            r == self@[i as int],
    {
        self.table[i]
    }

    /// Builds the table breadth-first from the solved coordinate: entry 0
    /// stays 0, each other value reached gets the depth at which it was first
    /// reached, and values never reached stay 0. Level `d` expands, in index
    /// order and with the moves in their fixed order, every entry of level
    /// `d - 1`; generation stops after a level that reaches nothing new, or
    /// at depth 254.
    pub fn generate() -> (r: Self)
        requires
            C::valid_params(),
        ensures
            r.wf(),
            r@[0] == 0,
            forall|j: int| 0 <= j < r@.len() ==> #[trigger] reached_from_below::<C>(r@, j),
            (forall|j: int| 0 <= j < r@.len() ==> r@[j] < 254) ==> complete::<C>(r@),
    {
        let max = C::max();
        let mut table: Vec<u8> = vec![0u8; max];
        proof {
            assert forall|i: int| 0 <= i < max implies table@[i] == 0 by {
                assert(cloned(0u8, table@[i]));
            }
        }
        let solved = Cube::solved();
        proof {
            crate::cube::lemma_solved_valid();
            crate::cube::lemma_solved_balanced();
            assert forall|x: int| 0 <= x < table@.len() implies #[trigger] reached_from_below::<C>(table@, x) by {}
        }
        let mut progress = false;
        let mut k: usize = 0;
        while k < 18
            invariant
                C::valid_params(),
                max == C::spec_max(),
                table@.len() == max,
                table@[0] == 0,
                solved@ == solved_state(),
                solved@.valid(),
                balanced(solved@),
                k <= 18,
                forall|x: int| 0 <= x < table@.len() ==> #[trigger] reached_from_below::<C>(table@, x),
                forall|x: int| 0 <= x < table@.len() ==> table@[x] <= 1,
                progress ==> exists|x: int| 0 <= x < table@.len() && table@[x] == 1,
                !progress ==> forall|x: int| 0 <= x < table@.len() ==> table@[x] == 0,
                forall|q: int|
                    0 <= q < k ==> #[trigger] neighbour_ok(
                        table@,
                        0,
                        C::spec_coord(compose(solved_state(), move_state(move_at(q)))),
                    ),
            decreases 18 - k,
        {
            let the_move = Move::nth(k);
            let mv = the_move.to_cube();
            let next = solved.apply(&mv);
            proof {
                crate::cube::lemma_compose_valid(solved@, mv@);
            }
            let index = C::to_coord(&next);
            if index != 0 && table[index] == 0 {
                proof {
                    lemma_reached_after_set::<C>(table@, index as int, 1, solved@, the_move);
                }
                let ghost before = table@;
                table.set(index, 1);
                progress = true;
                proof {
                    assert forall|q: int| 0 <= q < k implies #[trigger] neighbour_ok(
                        table@,
                        0,
                        C::spec_coord(compose(solved_state(), move_state(move_at(q)))),
                    ) by {
                        assert(neighbour_ok(before, 0, C::spec_coord(compose(solved_state(), move_state(move_at(q))))));
                    }
                    assert(table@[index as int] == 1);
                }
            }
            proof {
                assert(neighbour_ok(table@, 0, C::spec_coord(compose(solved_state(), move_state(move_at(k as int))))));
            }
            k += 1;
        }
        proof {
            if C::spec_coord(solved_state()) == 0 {
                assert forall|m: Move| #[trigger] neighbour_ok(table@, 0, C::spec_coord(compose(solved_state(), move_state(m)))) by {
                    lemma_move_at_index(m);
                    assert(neighbour_ok(table@, 0, C::spec_coord(compose(solved_state(), move_state(move_at(move_index(m) as int))))));
                }
                assert(expands::<C>(table@, 0, solved_state()));
            }
        }
        let mut depth: u8 = 2;
        while progress && depth < 255
            invariant
                C::valid_params(),
                max == C::spec_max(),
                table@.len() == max,
                table@[0] == 0,
                2 <= depth <= 255,
                forall|x: int| 0 <= x < table@.len() ==> #[trigger] reached_from_below::<C>(table@, x),
                forall|x: int| 0 <= x < table@.len() ==> table@[x] <= depth - 1,
                C::spec_coord(solved_state()) == 0 ==> expanded::<C>(table@, 0),
                forall|x: int|
                    0 < x < table@.len() && table@[x] != 0 && table@[x] < depth - 1 ==> #[trigger] expanded::<C>(
                        table@,
                        x,
                    ),
                progress ==> exists|x: int| 0 <= x < table@.len() && table@[x] == depth - 1,
                !progress ==> forall|x: int|
                    0 < x < table@.len() && table@[x] != 0 ==> #[trigger] expanded::<C>(table@, x),
            decreases 255 - depth,
        {
            progress = false;
            let mut index: usize = 1;
            while index < max
                invariant
                    C::valid_params(),
                    max == C::spec_max(),
                    table@.len() == max,
                    table@[0] == 0,
                    2 <= depth < 255,
                    1 <= index <= max,
                    forall|x: int| 0 <= x < table@.len() ==> #[trigger] reached_from_below::<C>(table@, x),
                    forall|x: int| 0 <= x < table@.len() ==> table@[x] <= depth,
                    C::spec_coord(solved_state()) == 0 ==> expanded::<C>(table@, 0),
                    forall|x: int|
                        0 < x < table@.len() && table@[x] != 0 && table@[x] < depth - 1 ==> #[trigger] expanded::<C>(
                            table@,
                            x,
                        ),
                    forall|x: int|
                        0 < x < index && table@[x] == depth - 1 ==> #[trigger] expanded::<C>(table@, x),
                    progress ==> exists|x: int| 0 <= x < table@.len() && table@[x] == depth,
                    !progress ==> forall|x: int| 0 <= x < table@.len() ==> table@[x] <= depth - 1,
                decreases max - index,
            {
                if table[index] == depth - 1 {
                    let state = C::from_coord(index);
                    let mut k: usize = 0;
                    while k < 18
                        invariant
                            C::valid_params(),
                            max == C::spec_max(),
                            table@.len() == max,
                            table@[0] == 0,
                            2 <= depth < 255,
                            1 <= index < max,
                            k <= 18,
                            state.valid(),
                            C::spec_coord(state@) == index,
                            table@[index as int] == depth - 1,
                            C::gives_balanced() ==> balanced(state@),
                            forall|x: int| 0 <= x < table@.len() ==> #[trigger] reached_from_below::<C>(table@, x),
                            forall|x: int| 0 <= x < table@.len() ==> table@[x] <= depth,
                            C::spec_coord(solved_state()) == 0 ==> expanded::<C>(table@, 0),
                            forall|x: int|
                                0 < x < table@.len() && table@[x] != 0 && table@[x] < depth - 1
                                    ==> #[trigger] expanded::<C>(table@, x),
                            forall|x: int|
                                0 < x < index && table@[x] == depth - 1 ==> #[trigger] expanded::<C>(table@, x),
                            progress ==> exists|x: int| 0 <= x < table@.len() && table@[x] == depth,
                            !progress ==> forall|x: int| 0 <= x < table@.len() ==> table@[x] <= depth - 1,
                            forall|q: int|
                                0 <= q < k ==> #[trigger] neighbour_ok(
                                    table@,
                                    index as int,
                                    C::spec_coord(compose(state@, move_state(move_at(q)))),
                                ),
                        decreases 18 - k,
                    {
                        let the_move = Move::nth(k);
                        let mv = the_move.to_cube();
                        let next = state.apply(&mv);
                        proof {
                            crate::cube::lemma_compose_valid(state@, mv@);
                        }
                        let j = C::to_coord(&next);
                        if j != 0 && table[j] == 0 {
                            let ghost before = table@;
                            proof {
                                lemma_reached_after_set::<C>(table@, j as int, depth, state@, the_move);
                                if C::spec_coord(solved_state()) == 0 {
                                    lemma_expanded_after_set::<C>(before, 0, j as int, depth);
                                }
                                assert forall|x: int|
                                    0 < x < before.len() && before[x] != 0 && before[x] < depth - 1
                                        implies #[trigger] expanded::<C>(before.update(j as int, depth), x) by {
                                    lemma_expanded_after_set::<C>(before, x, j as int, depth);
                                }
                                assert forall|x: int| 0 < x < index && before[x] == depth - 1
                                        implies #[trigger] expanded::<C>(before.update(j as int, depth), x) by {
                                    lemma_expanded_after_set::<C>(before, x, j as int, depth);
                                }
                            }
                            table.set(j, depth);
                            progress = true;
                            proof {
                                assert(table@ == before.update(j as int, depth));
                                assert forall|x: int|
                                    0 < x < table@.len() && table@[x] != 0 && table@[x] < depth - 1
                                        implies #[trigger] expanded::<C>(table@, x) by {
                                    assert(before[x] == table@[x]);
                                }
                                assert forall|x: int| 0 < x < index && table@[x] == depth - 1
                                        implies #[trigger] expanded::<C>(table@, x) by {
                                    assert(before[x] == table@[x]);
                                }
                                assert forall|q: int| 0 <= q < k implies #[trigger] neighbour_ok(
                                    table@,
                                    index as int,
                                    C::spec_coord(compose(state@, move_state(move_at(q)))),
                                ) by {
                                    assert(neighbour_ok(before, index as int, C::spec_coord(compose(state@, move_state(move_at(q))))));
                                }
                                assert(table@[j as int] == depth);
                            }
                        }
                        proof {
                            assert(neighbour_ok(table@, index as int, C::spec_coord(compose(state@, move_state(move_at(k as int))))));
                        }
                        k += 1;
                    }
                    proof {
                        assert forall|m: Move| #[trigger] neighbour_ok(table@, index as int, C::spec_coord(compose(state@, move_state(m)))) by {
                            lemma_move_at_index(m);
                            assert(neighbour_ok(table@, index as int, C::spec_coord(compose(state@, move_state(move_at(move_index(m) as int))))));
                        }
                        assert(expands::<C>(table@, index as int, state@));
                    }
                }
                index += 1;
            }
            depth += 1;
        }
        Self::new(table)
    }
}

/// The combinadic index of the distinct values `a[lo..lo + n]`, all
/// below 12.
fn combination_index<const N: usize>(a: &[u8; N], lo: usize, n: usize) -> (r: usize)
    requires
        lo + n <= N,
        a@.subrange(lo as int, lo + n).no_duplicates(),
        forall|i: int| lo <= i < lo + n ==> a@[i] < 12,
    ensures
        r == combo(a@.subrange(lo as int, lo + n), 12),
        r < binom(12, n as nat),
{
    let ghost w = a@.subrange(lo as int, lo + n);
    proof {
        lemma_combo_below_max(w);
    }
    let mut total: usize = 0;
    let mut j: usize = 0;
    let mut x: usize = 0;
    while x < 12
        invariant
            x <= 12,
            j <= x,
            lo + n <= N,
            w == a@.subrange(lo as int, lo + n),
            total == combo(w, x as nat),
            j == count_members(w, x as nat),
            total + 1 <= binom(x as nat, j as nat),
        decreases 12 - x,
    {
        if window_contains(a, lo, n, x as u8) {
            proof {
                lemma_combo_bound(w, (x + 1) as nat);
                lemma_binom_le_fact((x + 1) as nat, (j + 1) as nat);
                lemma_fact_mono((x + 1) as nat, 12);
                lemma_fact_values();
                assert(combo(w, (x + 1) as nat) == total + binom(x as nat, (j + 1) as nat));
            }
            total = total + binomial(x, j + 1);
            j += 1;
        } else {
            proof {
                lemma_combo_bound(w, (x + 1) as nat);
            }
        }
        x += 1;
    }
    total
}

/// `k` distinct values below 12 whose set has combinadic index
/// `ep_coord % C(12, k)` and whose order has Lehmer rank
/// `ep_coord / C(12, k)`.
fn decode_values(ep_coord: usize, k: usize) -> (r: [u8; 12])
    requires
        1 <= k <= 12,
        ep_coord < fact(k as nat) * binom(12, k as nat),
    ensures
        forall|i: int| 0 <= i < k ==> r@[i] < 12,
        forall|i: int, j: int| 0 <= i < k && 0 <= j < k && i != j ==> r@[i] != r@[j],
        lehmer_rank(r@, k as int) == (ep_coord as nat) / binom(12, k as nat),
        combo(r@.subrange(0, k as int), 12) == (ep_coord as nat) % binom(12, k as nat),
{
    proof {
        lemma_arrangements_bound(k as nat);
        lemma_binom_fact(12, k as nat);
    }
    let c = binomial(12, k);
    let arrangement = ep_coord / c;
    let mut choice = ep_coord % c;
    proof {
        let f = fact(k as nat) as int;
        assert(arrangement < f) by (nonlinear_arith)
            requires
                ep_coord < f * c,
                arrangement == ep_coord / c,
                c >= 1,
        ;
    }
    let ghost choice0 = choice;
    let mut chosen = [0u8; 12];
    let mut kk: usize = k;
    let ghost mut top: nat = 12;
    while kk > 0
        invariant
            kk <= k <= 12,
            top <= 12,
            kk < k ==> top == chosen@[kk as int],
            choice < binom(top, kk as nat),
            choice0 == choice + comb_sum_from(chosen@, kk as int, k as int),
            forall|t: int| kk <= t < k ==> chosen@[t] < 12,
            forall|t1: int, t2: int| kk <= t1 < t2 < k ==> chosen@[t1] < chosen@[t2],
        decreases kk,
    {
        proof {
            lemma_binom_mono(top, 12, kk as nat);
        }
        let (i, x) = greatest_combination(choice, kk);
        proof {
            if i as nat >= top {
                lemma_binom_mono(top, i as nat, kk as nat);
            }
            assert(binom(i as nat + 1, kk as nat) == binom(i as nat, (kk - 1) as nat) + binom(
                i as nat,
                kk as nat,
            ));
        }
        let ghost before = chosen@;
        chosen[kk - 1] = i;
        proof {
            lemma_comb_sum_from_agree(chosen@, before, kk as int, k as int);
        }
        choice = choice - x;
        kk -= 1;
        proof {
            top = i as nat;
        }
    }
    let ghost w = chosen@.subrange(0, k as int);
    proof {
        assert(choice == 0);
        assert(increasing(w));
        lemma_increasing_no_dup(w);
        assert forall|t: int| 0 <= t < w.len() implies w[t] < 12 by {}
        lemma_combo_below_max(w);
        lemma_combo_increasing(w, 12);
        lemma_comb_sum_is_from(w, k as int);
        lemma_comb_sum_from_agree(w, chosen@, 0, k as int);
        assert(combo(w, 12) == choice0);
    }
    let mut lehmer_code = [0u8; 12];
    let mut n: usize = arrangement;
    let mut i: usize = k - 1;
    proof {
        lemma_fact_values();
    }
    while i >= 1
        invariant
            i < k <= 12,
            n < fact((i + 1) as nat),
            lehmer_code[0] == 0,
            forall|q: int| i < q < k ==> lehmer_code@[q] <= q,
            arrangement == n + weighted_from(lehmer_code@, i + 1, k as int),
        decreases i,
    {
        let f = factorial(i);
        let digit = n / f;
        proof {
            lemma_fact_mono(0, i as nat);
            assert(fact((i + 1) as nat) == (i + 1) * fact(i as nat));
            assert(digit <= i) by (nonlinear_arith)
                requires
                    n < (i + 1) * f,
                    digit == n / f,
                    f > 0,
            ;
            assert(n == digit * f + n % f) by (nonlinear_arith)
                requires
                    digit == n / f,
                    f > 0,
            ;
        }
        let ghost before = lehmer_code@;
        lehmer_code[i] = digit as u8;
        proof {
            lemma_weighted_update_below(before, i as int + 1, k as int, i as int, digit as u8);
            assert(lehmer_code@ == before.update(i as int, digit as u8));
        }
        n = n % f;
        i -= 1;
    }
    proof {
        assert(fact(1) == 1);
        assert(n == 0);
    }
    let mut remaining: Vec<u8> = Vec::new();
    let mut t: usize = 0;
    while t < k
        invariant
            t <= k <= 12,
            w == chosen@.subrange(0, k as int),
            remaining@ == w.subrange(0, t as int),
        decreases k - t,
    {
        remaining.push(chosen[t]);
        t += 1;
        proof {
            assert(remaining@ =~= w.subrange(0, t as int));
        }
    }
    proof {
        assert(remaining@ =~= w);
    }
    let mut values = [0u8; 12];
    let mut m: usize = k;
    while m > 0
        invariant
            m <= k <= 12,
            remaining@.len() == m,
            lehmer_code[0] == 0,
            forall|q: int| 0 < q < k ==> lehmer_code@[q] <= q,
            arrangement == weighted_from(lehmer_code@, 1, k as int),
            increasing(remaining@),
            forall|x: int| 0 <= x < m ==> remaining@[x] < 12,
            forall|q: int| m <= q < k ==> values@[q] < 12,
            forall|q: int, p: int| m <= q < k && m <= p < k && q != p ==> values@[q] != values@[p],
            forall|q: int, x: int| m <= q < k && 0 <= x < m ==> values@[q] != remaining@[x],
            forall|q: int|
                m <= q < k ==> lehmer_code@[q] == count_greater(remaining@, #[trigger] values@[q])
                    + count_above_in(values@, m as int, q, values@[q]),
            forall|v: u8| w.contains(v) ==> remaining@.contains(v) || values@.subrange(m as int, k as int).contains(v),
            forall|x: int| 0 <= x < m ==> w.contains(#[trigger] remaining@[x]),
            forall|q: int| m <= q < k ==> w.contains(#[trigger] values@[q]),
        decreases m,
    {
        let i = m - 1;
        let digit = lehmer_code[i];
        let idx = i - digit as usize;
        let ghost old_rem = remaining@;
        let ghost old_vals = values@;
        let v = remaining.remove(idx);
        values[i] = v;
        m -= 1;
        proof {
            assert forall|x: int| 0 <= x < m implies remaining@[x] == old_rem[if x < idx {
                x
            } else {
                x + 1
            }] by {}
            assert(values@ == old_vals.update(i as int, v));
            lemma_count_greater_increasing(old_rem, idx as int);
            lemma_count_greater_remove(old_rem, idx as int, v);
            assert forall|q: int| m <= q < k implies lehmer_code@[q] == count_greater(
                remaining@,
                #[trigger] values@[q],
            ) + count_above_in(values@, m as int, q, values@[q]) by {
                if q > i {
                    let u = values@[q];
                    assert(u == old_vals[q]);
                    lemma_count_greater_remove(old_rem, idx as int, u);
                    lemma_count_above_in_front(values@, i as int + 1, q, u);
                    lemma_count_above_in_update(old_vals, i as int + 1, q, u, i as int, v);
                } else {
                    assert(count_above_in(values@, m as int, m as int, v) == 0);
                }
            }
            assert forall|u: u8| w.contains(u) implies remaining@.contains(u) || values@.subrange(
                m as int,
                k as int,
            ).contains(u) by {
                if old_rem.contains(u) {
                    let y = choose|y: int| 0 <= y < old_rem.len() && old_rem[y] == u;
                    if y == idx {
                        assert(values@.subrange(m as int, k as int)[0] == u);
                    } else if y < idx {
                        assert(remaining@[y] == u);
                    } else {
                        assert(remaining@[y - 1] == u);
                    }
                } else {
                    let sub = old_vals.subrange(m as int + 1, k as int);
                    assert(sub.contains(u));
                    let y = choose|y: int| 0 <= y < sub.len() && sub[y] == u;
                    assert(values@.subrange(m as int, k as int)[y + 1] == u);
                }
            }
            assert forall|x: int| 0 <= x < m implies w.contains(#[trigger] remaining@[x]) by {
                let src = if x < idx {
                    x
                } else {
                    x + 1
                };
                assert(remaining@[x] == old_rem[src]);
            }
        }
    }
    proof {
        assert forall|q: int| 1 <= q < k implies lehmer_digit(values@, q) == lehmer_code@[q] as nat by {
            assert(count_greater(remaining@, values@[q]) == 0);
            lemma_count_above_in_start(values@, q, values@[q]);
        }
        lemma_rank_is_weighted(values@, lehmer_code@, k as int);
        let vs = values@.subrange(0, k as int);
        assert forall|u: u8| vs.contains(u) <==> w.contains(u) by {
            if vs.contains(u) {
                let y = choose|y: int| 0 <= y < vs.len() && vs[y] == u;
                assert(values@[y] == u);
            }
            if w.contains(u) {
                assert(values@.subrange(0, k as int) =~= vs);
            }
        }
        lemma_combo_same_members(vs, w, 12);
    }
    values
}

/// Moves edge `id` to position `pos` by swapping it with what is there.
fn place_edge(ep: &mut [u8; 12], id: u8, pos: usize)
    requires
        is_perm(old(ep)@, 12),
        id < 12,
        pos < 12,
    ensures
        is_perm(final(ep)@, 12),
        final(ep)@[pos as int] == id,
        forall|t: int| 0 <= t < 12 && t != pos && old(ep)@[t] != id ==> final(ep)@[t] == old(ep)@[t],
{
    proof {
        lemma_perm_has_all(ep@, 12);
        assert(ep@.contains(id));
    }
    let mut q: usize = 0;
    while ep[q] != id
        invariant
            q < 12,
            ep@.contains(id),
            forall|t: int| 0 <= t < q ==> ep@[t] != id,
            is_perm(ep@, 12),
        decreases 12 - q,
    {
        q += 1;
        proof {
            if q == 12 {
                let w = choose|w: int| 0 <= w < ep@.len() && ep@[w] == id;
                assert(ep@[w] == id);
            }
        }
    }
    let other = ep[pos];
    ep[q] = other;
    ep[pos] = id;
}

/// The ordered edges at positions `LOW..HIGH`: the Lehmer rank of their
/// order, times `C(12, HIGH - LOW)`, plus the combinadic index of their set.
pub struct PartialEdgePermutation<const LOW: usize, const HIGH: usize>;

/// The partial edge permutation coordinate over `ep[low..high]`.
pub open spec fn pep_coord(s: CubeState, low: nat, high: nat) -> nat {
    lehmer_rank(s.ep.subrange(low as int, 12), (high - low) as int) * binom(12, (high - low) as nat)
        + combo(s.ep.subrange(low as int, high as int), 12)
}

/// The entries of `a[lo..hi]` are distinct and below 12.
pub proof fn lemma_window_of_perm(a: Seq<u8>, lo: int, hi: int)
    requires
        is_perm(a, 12),
        0 <= lo <= hi <= 12,
    ensures
        a.subrange(lo, hi).no_duplicates(),
        forall|i: int| lo <= i < hi ==> a[i] < 12,
{
    let w = a.subrange(lo, hi);
    assert forall|i: int, j: int| 0 <= i < w.len() && 0 <= j < w.len() && i != j implies w[i] != w[j] by {
        assert(w[i] == a[lo + i] && w[j] == a[lo + j]);
    }
}

impl<const LOW: usize, const HIGH: usize> Coordinate for PartialEdgePermutation<LOW, HIGH> {
    open spec fn valid_params() -> bool {
        LOW < HIGH <= 12
    }

    open spec fn gives_balanced() -> bool {
        false
    }

    open spec fn spec_max() -> nat {
        fact((HIGH - LOW) as nat) * binom(12, (HIGH - LOW) as nat)
    }

    open spec fn spec_coord(s: CubeState) -> nat {
        pep_coord(s, LOW as nat, HIGH as nat)
    }

    fn max() -> (r: usize) {
        proof {
            lemma_arrangements_bound((HIGH - LOW) as nat);
            lemma_fact_values();
            lemma_fact_mono((HIGH - LOW) as nat, 12);
        }
        factorial(HIGH - LOW) * binomial(12, HIGH - LOW)
    }

    fn to_coord(state: &Cube) -> (r: usize) {
        let k = HIGH - LOW;
        proof {
            lemma_window_of_perm(state.ep@, LOW as int, HIGH as int);
            lemma_arrangements_bound(k as nat);
        }
        let arrangement = read_lehmer(&state.ep, LOW, k);
        let c = binomial(12, k);
        let choice = combination_index(&state.ep, LOW, k);
        proof {
            let f = fact(k as nat) as int;
            assert(arrangement * c + choice < f * c) by (nonlinear_arith)
                requires
                    arrangement < f,
                    choice < c,
            ;
            assert(f * c <= 479001600);
        }
        arrangement * c + choice
    }

    fn from_coord(coord: usize) -> (r: Cube)
        ensures
            pep_coord(r@, LOW as nat, HIGH as nat) == coord,
            r@.eo == solved_state().eo,
            r@.cp == solved_state().cp,
            r@.co == solved_state().co,
    {
        let k = HIGH - LOW;
        let values = decode_values(coord, k);
        let mut cube = Cube::solved();
        let mut i: usize = 0;
        while i < k
            invariant
                k == HIGH - LOW,
                LOW < HIGH <= 12,
                i <= k,
                cube.valid(),
                forall|t: int| 0 <= t < k ==> values@[t] < 12,
                forall|t: int, u: int| 0 <= t < k && 0 <= u < k && t != u ==> values@[t] != values@[u],
                forall|t: int| 0 <= t < i ==> cube.ep@[LOW + t] == values@[t],
                cube@.eo == solved_state().eo,
                cube@.cp == solved_state().cp,
                cube@.co == solved_state().co,
            decreases k - i,
        {
            let ghost before = cube.ep@;
            place_edge(&mut cube.ep, values[i], LOW + i);
            proof {
                assert forall|t: int| 0 <= t < i implies cube.ep@[LOW + t] == values@[t] by {
                    assert(before[LOW + t] == values@[t]);
                    assert(values@[t] != values@[i as int]);
                }
            }
            i += 1;
        }
        proof {
            let c = binom(12, k as nat);
            let win = cube.ep@.subrange(LOW as int, 12);
            assert forall|t: int| 0 <= t < k implies win[t] == values@[t] by {}
            lemma_rank_prefix(win, values@, k as int);
            assert(cube.ep@.subrange(LOW as int, HIGH as int) =~= values@.subrange(0, k as int));
            lemma_arrangements_bound(k as nat);
            lemma_binom_fact(12, k as nat);
            vstd::arithmetic::div_mod::lemma_fundamental_div_mod(coord as int, c as int);
        }
        cube
    }
}

/// The edges `LOW..HIGH` wherever they are: the flips at their positions
/// in base 2, then the Lehmer rank of their positions in edge order, then
/// the combinadic index of the set of their positions.
pub struct PartialEdges<const LOW: usize, const HIGH: usize>;

/// The last position below `n` that holds edge `e` (0 if none does).
pub open spec fn edge_position(ep: Seq<u8>, n: int, e: nat) -> nat
    decreases n,
{
    if n <= 0 {
        0
    } else if ep[n - 1] as nat == e {
        (n - 1) as nat
    } else {
        edge_position(ep, n - 1, e)
    }
}

/// Where an edge that occurs below `n` is found.
pub proof fn lemma_edge_position_found(ep: Seq<u8>, n: int, e: nat, i: int)
    requires
        0 <= i < n <= ep.len(),
        ep[i] as nat == e,
    ensures
        edge_position(ep, n, e) < n,
        ep[edge_position(ep, n, e) as int] as nat == e,
    decreases n,
{
    if ep[n - 1] as nat != e {
        lemma_edge_position_found(ep, n - 1, e, i);
    }
}

/// The positions of the edges `low..low + k`, padded with zeros to 12.
pub open spec fn positions_of(s: CubeState, low: nat, k: nat) -> Seq<u8> {
    Seq::new(12, |j: int| if j < k { edge_position(s.ep, 12, (low + j) as nat) as u8 } else { 0u8 })
}

/// The flips at the first `k` of `ps`, padded with zeros to 12.
pub open spec fn flips_at(s: CubeState, ps: Seq<u8>, k: nat) -> Seq<u8> {
    Seq::new(12, |j: int| if j < k { s.eo[ps[j] as int] } else { 0u8 })
}

/// The partial edges coordinate of `s` over edges `low..high`.
pub open spec fn pe_coord(s: CubeState, low: nat, high: nat) -> nat {
    let k = (high - low) as nat;
    let ps = positions_of(s, low, k);
    digits_value(flips_at(s, ps, k), 0, k as int, 2) * (fact(k) * binom(12, k)) + lehmer_rank(ps, k as int)
        * binom(12, k) + combo(ps.subrange(0, k as int), 12)
}

/// In a valid state the positions of edges `low..high` are distinct,
/// below 12, and hold those edges.
pub proof fn lemma_positions_of(s: CubeState, low: nat, high: nat)
    requires
        s.valid(),
        low < high <= 12,
    ensures
        forall|j: int|
            0 <= j < high - low ==> #[trigger] positions_of(s, low, (high - low) as nat)[j] < 12
                && s.ep[positions_of(s, low, (high - low) as nat)[j] as int] == low + j,
        positions_of(s, low, (high - low) as nat).subrange(0, high - low).no_duplicates(),
        forall|p: int|
            0 <= p < 12 && low <= #[trigger] s.ep[p] < high ==> positions_of(s, low, (high - low) as nat)[s.ep[p]
                - low] == p,
{
    let k = (high - low) as nat;
    let ps = positions_of(s, low, k);
    lemma_perm_has_all(s.ep, 12);
    assert forall|j: int| 0 <= j < k implies ps[j] < 12 && s.ep[ps[j] as int] == low + j by {
        let e = (low + j) as u8;
        assert(s.ep.contains(e));
        let w = choose|w: int| 0 <= w < s.ep.len() && s.ep[w] == e;
        lemma_edge_position_found(s.ep, 12, (low + j) as nat, w);
    }
    let sub = ps.subrange(0, k as int);
    assert forall|a: int, b: int| 0 <= a < sub.len() && 0 <= b < sub.len() && a != b implies sub[a] != sub[b] by {
        assert(s.ep[sub[a] as int] == low + a);
        assert(s.ep[sub[b] as int] == low + b);
    }
    assert forall|p: int| 0 <= p < 12 && low <= #[trigger] s.ep[p] < high implies ps[s.ep[p] - low] == p by {
        let j = s.ep[p] - low;
        let q = ps[j] as int;
        assert(s.ep[q] == s.ep[p]);
    }
}

/// Two valid states with the same partial edges coordinate hold the edges
/// `low..high` at the same positions, with the same flips.
pub proof fn lemma_pe_coord_determines(a: CubeState, b: CubeState, low: nat, high: nat)
    requires
        a.valid(),
        b.valid(),
        low < high <= 12,
        pe_coord(a, low, high) == pe_coord(b, low, high),
    ensures
        forall|p: int|
            0 <= p < 12 && low <= #[trigger] a.ep[p] < high ==> b.ep[p] == a.ep[p] && b.eo[p] == a.eo[p],
{
    let k = (high - low) as nat;
    let pa = positions_of(a, low, k);
    let pb = positions_of(b, low, k);
    let fa = flips_at(a, pa, k);
    let fb = flips_at(b, pb, k);
    lemma_positions_of(a, low, high);
    lemma_positions_of(b, low, high);
    let wa = pa.subrange(0, k as int);
    let wb = pb.subrange(0, k as int);
    assert forall|t: int| 0 <= t < wa.len() implies wa[t] < 12 by {}
    assert forall|t: int| 0 <= t < wb.len() implies wb[t] < 12 by {}
    lemma_combo_below_max(wa);
    lemma_combo_below_max(wb);
    lemma_rank_bound(pa, k as int);
    lemma_rank_bound(pb, k as int);
    let sa = fa.subrange(0, k as int);
    let sb = fb.subrange(0, k as int);
    assert forall|t: int| 0 <= t < sa.len() implies (#[trigger] sa[t] as nat) < 2 by {
        assert(sa[t] == a.eo[pa[t] as int]);
    }
    assert forall|t: int| 0 <= t < sb.len() implies (#[trigger] sb[t] as nat) < 2 by {
        assert(sb[t] == b.eo[pb[t] as int]);
    }
    crate::radix::lemma_horner_bound(sa, 2);
    crate::radix::lemma_horner_bound(sb, 2);
    let c = binom(12, k) as int;
    let f = fact(k) as int;
    lemma_arrangements_bound(k);
    let ra = lehmer_rank(pa, k as int) as int;
    let rb = lehmer_rank(pb, k as int) as int;
    let ca = combo(wa, 12) as int;
    let cb = combo(wb, 12) as int;
    let ea = ra * c + ca;
    let eb = rb * c + cb;
    assert(ea < f * c) by (nonlinear_arith)
        requires
            ea == ra * c + ca,
            ra < f,
            ca < c,
            ra >= 0,
            ca >= 0,
    ;
    assert(eb < f * c) by (nonlinear_arith)
        requires
            eb == rb * c + cb,
            rb < f,
            cb < c,
            rb >= 0,
            cb >= 0,
    ;
    let x = pe_coord(a, low, high) as int;
    let da = digits_value(fa, 0, k as int, 2) as int;
    let db = digits_value(fb, 0, k as int, 2) as int;
    assert(x == da * (f * c) + ea);
    assert(x == db * (f * c) + eb);
    vstd::arithmetic::div_mod::lemma_fundamental_div_mod_converse(x, f * c, da, ea);
    vstd::arithmetic::div_mod::lemma_fundamental_div_mod_converse(x, f * c, db, eb);
    vstd::arithmetic::div_mod::lemma_fundamental_div_mod_converse(ea, c, ra, ca);
    vstd::arithmetic::div_mod::lemma_fundamental_div_mod_converse(ea, c, rb, cb);
    lemma_combo_injective(wa, wb, 12);
    assert forall|v: u8| wa.contains(v) <==> wb.contains(v) by {
        if wa.contains(v) {
            let t = choose|t: int| 0 <= t < wa.len() && wa[t] == v;
            assert(v < 12);
        }
        if wb.contains(v) {
            let t = choose|t: int| 0 <= t < wb.len() && wb[t] == v;
            assert(v < 12);
        }
    }
    lemma_rank_digits(pa, pb, k as int);
    assert(wa.no_duplicates() && wb.no_duplicates());
    lemma_digits_determine(pa, pb, k as int);
    lemma_horner_injective(sa, sb, 2);
    assert forall|p: int| 0 <= p < 12 && low <= #[trigger] a.ep[p] < high implies b.ep[p] == a.ep[p] && b.eo[p]
        == a.eo[p] by {
        let j = a.ep[p] - low;
        assert(pa[j] == p);
        assert(wa[j] == wb[j]);
        assert(pb[j] == p);
        assert(sa[j] == sb[j]);
    }
}

/// The partial edges coordinate after a move depends only on the
/// coordinate before it.
pub proof fn lemma_pe_coord_closed(a: CubeState, b: CubeState, m: Move, low: nat, high: nat)
    requires
        a.valid(),
        b.valid(),
        low < high <= 12,
        pe_coord(a, low, high) == pe_coord(b, low, high),
    ensures
        pe_coord(compose(a, move_state(m)), low, high) == pe_coord(compose(b, move_state(m)), low, high),
{
    let k = (high - low) as nat;
    let mm = move_state(m);
    lemma_move_valid(m);
    let a2 = compose(a, mm);
    let b2 = compose(b, mm);
    crate::cube::lemma_compose_valid(a, mm);
    crate::cube::lemma_compose_valid(b, mm);
    lemma_pe_coord_determines(a, b, low, high);
    lemma_pe_coord_determines(b, a, low, high);
    assert forall|i: int| 0 <= i < 12 && low <= #[trigger] a2.ep[i] < high implies b2.ep[i] == a2.ep[i]
        && b2.eo[i] == a2.eo[i] by {
        let q = mm.ep[i] as int;
        assert(a2.ep[i] == a.ep[q]);
    }
    assert forall|i: int| 0 <= i < 12 && low <= #[trigger] b2.ep[i] < high implies a2.ep[i] == b2.ep[i] by {
        let q = mm.ep[i] as int;
        assert(b2.ep[i] == b.ep[q]);
    }
    lemma_positions_of(a2, low, high);
    lemma_positions_of(b2, low, high);
    let pa = positions_of(a2, low, k);
    let pb = positions_of(b2, low, k);
    assert forall|j: int| 0 <= j < 12 implies pa[j] == pb[j] by {
        if j < k {
            let p = pa[j] as int;
            assert(a2.ep[p] == low + j);
            assert(b2.ep[p] == a2.ep[p]);
        }
    }
    assert(pa =~= pb);
    assert forall|j: int| 0 <= j < 12 implies flips_at(a2, pa, k)[j] == flips_at(b2, pb, k)[j] by {
        if j < k {
            let p = pa[j] as int;
            assert(a2.ep[p] == low + j);
        }
    }
    assert(flips_at(a2, pa, k) =~= flips_at(b2, pb, k));
}

/// The partial edges coordinate of a valid state is below its maximum.
pub proof fn lemma_pe_coord_bound(a: CubeState, low: nat, high: nat)
    requires
        a.valid(),
        low < high <= 12,
    ensures
        pe_coord(a, low, high) < pow(2, (high - low) as nat) * (fact((high - low) as nat) * binom(
            12,
            (high - low) as nat,
        )),
{
    let k = (high - low) as nat;
    let pa = positions_of(a, low, k);
    let fa = flips_at(a, pa, k);
    lemma_positions_of(a, low, high);
    let wa = pa.subrange(0, k as int);
    assert forall|t: int| 0 <= t < wa.len() implies wa[t] < 12 by {}
    lemma_combo_below_max(wa);
    lemma_rank_bound(pa, k as int);
    let sa = fa.subrange(0, k as int);
    assert forall|t: int| 0 <= t < sa.len() implies (#[trigger] sa[t] as nat) < 2 by {
        assert(sa[t] == a.eo[pa[t] as int]);
    }
    crate::radix::lemma_horner_bound(sa, 2);
    let c = binom(12, k) as int;
    let f = fact(k) as int;
    let r = lehmer_rank(pa, k as int) as int;
    let cm = combo(wa, 12) as int;
    let d = digits_value(fa, 0, k as int, 2) as int;
    let p2 = pow(2, k);
    assert(d * (f * c) + r * c + cm < p2 * (f * c)) by (nonlinear_arith)
        requires
            r < f,
            cm < c,
            d < p2,
            r >= 0,
            cm >= 0,
            d >= 0,
            c >= 0,
    ;
}

/// With the window starting at edge 0, the solved state has partial edges
/// coordinate 0.
pub proof fn lemma_pe_coord_solved(high: nat)
    requires
        0 < high <= 12,
    ensures
        pe_coord(solved_state(), 0, high) == 0,
{
    let z = solved_state();
    let ps = positions_of(z, 0, high);
    crate::cube::lemma_solved_valid();
    assert forall|j: int| 0 <= j < high implies ps[j] == j by {
        lemma_edge_position_found(z.ep, 12, j as nat, j);
        let e = edge_position(z.ep, 12, j as nat) as int;
        assert(z.ep[e] == z.ep[j]);
    }
    let fl = flips_at(z, ps, high);
    lemma_horner_zeros(fl.subrange(0, high as int), 2);
    lemma_rank_increasing(ps, high as int);
    let w = ps.subrange(0, high as int);
    assert(increasing(w));
    lemma_combo_increasing(w, 12);
    assert forall|t: int| 0 <= t < w.len() implies w[t] < 12 by {}
    lemma_increasing_no_dup(w);
    lemma_combo_below_max(w);
    lemma_comb_sum_small(w, high as int);
}

/// The partial edges table, with the window starting at edge 0, never
/// overestimates once complete: the entry of a valid state is at most the
/// length of any sequence of moves that solves it.
pub proof fn lemma_partial_edges_table_admissible<const HIGH: usize>(t: Seq<u8>, s: CubeState, ms: Seq<Move>)
    requires
        0 < HIGH <= 7,
        t.len() == PartialEdges::<0, HIGH>::spec_max(),
        t[0] == 0,
        complete::<PartialEdges<0, HIGH>>(t),
        s.valid(),
        apply_moves(s, ms) == solved_state(),
    ensures
        t[pe_coord(s, 0, HIGH as nat) as int] <= ms.len(),
{
    lemma_pe_coord_solved(HIGH as nat);
    assert forall|a: CubeState, b: CubeState, m: Move|
        a.valid() && b.valid() && pe_coord(a, 0, HIGH as nat) == pe_coord(b, 0, HIGH as nat)
            implies #[trigger] pe_coord(compose(a, move_state(m)), 0, HIGH as nat) == #[trigger] pe_coord(
            compose(b, move_state(m)),
            0,
            HIGH as nat,
        ) by {
        lemma_pe_coord_closed(a, b, m, 0, HIGH as nat);
    }
    assert forall|a: CubeState| a.valid() implies #[trigger] pe_coord(a, 0, HIGH as nat) < t.len() by {
        lemma_pe_coord_bound(a, 0, HIGH as nat);
        vstd::arithmetic::power::lemma_pow_positive(2, HIGH as nat);
    }
    lemma_solvable_is_balanced(s, ms);
    lemma_table_admissible::<PartialEdges<0, HIGH>>(t, s, ms);
}

/// In the partial edges table with the window starting at edge 0, every
/// reached entry other than entry 0 has a move down to an entry one less,
/// from any valid, balanced state with that index.
pub proof fn lemma_partial_edges_table_descends<const HIGH: usize>(t: Seq<u8>, s: CubeState)
    requires
        0 < HIGH <= 7,
        t.len() == PartialEdges::<0, HIGH>::spec_max(),
        t[0] == 0,
        forall|j: int| 0 <= j < t.len() ==> #[trigger] reached_from_below::<PartialEdges<0, HIGH>>(t, j),
        s.valid(),
        balanced(s),
        t[pe_coord(s, 0, HIGH as nat) as int] != 0,
    ensures
        exists|m: Move|
            t[pe_coord(compose(s, move_state(m)), 0, HIGH as nat) as int] == t[pe_coord(s, 0, HIGH as nat) as int]
                - 1,
{
    lemma_pe_coord_solved(HIGH as nat);
    assert forall|a: CubeState, b: CubeState, m: Move|
        a.valid() && b.valid() && pe_coord(a, 0, HIGH as nat) == pe_coord(b, 0, HIGH as nat)
            implies #[trigger] pe_coord(compose(a, move_state(m)), 0, HIGH as nat) == #[trigger] pe_coord(
            compose(b, move_state(m)),
            0,
            HIGH as nat,
        ) by {
        lemma_pe_coord_closed(a, b, m, 0, HIGH as nat);
    }
    lemma_pe_coord_bound(s, 0, HIGH as nat);
    vstd::arithmetic::power::lemma_pow_positive(2, HIGH as nat);
    assert(0 < t.len()) by {
        lemma_arrangements_bound(HIGH as nat);
        let p2 = pow(2, HIGH as nat);
        let x = fact(HIGH as nat) * binom(12, HIGH as nat);
        assert(p2 * x >= 1) by (nonlinear_arith)
            requires
                p2 >= 1,
                x >= 1,
        ;
    }
    lemma_table_descends::<PartialEdges<0, HIGH>>(t, s);
}

/// The positions of edges `low..high` in `cube`.
fn edge_positions(cube: &Cube, low: usize, high: usize) -> (r: [u8; 12])
    requires
        cube.valid(),
        low < high <= 12,
    ensures
        r@ == positions_of(cube@, low as nat, (high - low) as nat),
        forall|j: int| 0 <= j < high - low ==> r@[j] < 12,
        r@.subrange(0, high - low).no_duplicates(),
{
    let k = high - low;
    let mut positions = [0u8; 12];
    let mut i: usize = 0;
    while i < 12
        invariant
            i <= 12,
            low < high <= 12,
            k == high - low,
            forall|j: int| 0 <= j < k ==> positions@[j] as nat == edge_position(cube.ep@, i as int, (low + j) as nat),
            forall|j: int| k <= j < 12 ==> positions@[j] == 0,
        decreases 12 - i,
    {
        let e = cube.ep[i];
        if low <= e as usize && (e as usize) < high {
            positions[e as usize - low] = i as u8;
        }
        i += 1;
    }
    proof {
        let ps = positions_of(cube@, low as nat, k as nat);
        lemma_positions_of(cube@, low as nat, high as nat);
        assert(positions@ =~= ps);
    }
    positions
}

impl<const LOW: usize, const HIGH: usize> Coordinate for PartialEdges<LOW, HIGH> {
    open spec fn valid_params() -> bool {
        LOW < HIGH <= 12 && HIGH - LOW <= 7
    }

    open spec fn gives_balanced() -> bool {
        false
    }

    open spec fn spec_max() -> nat {
        (pow(2, (HIGH - LOW) as nat) * (fact((HIGH - LOW) as nat) * binom(12, (HIGH - LOW) as nat))) as nat
    }

    open spec fn spec_coord(s: CubeState) -> nat {
        pe_coord(s, LOW as nat, HIGH as nat)
    }

    fn max() -> (r: usize) {
        let k = HIGH - LOW;
        proof {
            lemma_arrangements_bound(k as nat);
            lemma_fact_values();
            lemma_fact_mono(k as nat, 12);
            lemma_pow_values();
            vstd::arithmetic::power::lemma_pow_increases(2, k as nat, 7);
            vstd::arithmetic::power::lemma_pow_positive(2, k as nat);
            lemma_pow_values();
        }
        let p = two_to_the(k);
        let a = factorial(k) * binomial(12, k);
        proof {
            assert(p * a <= 128 * 3991680) by (nonlinear_arith)
                requires
                    p <= 128,
                    a <= 3991680,
            ;
            assert(p * a > 0) by (nonlinear_arith)
                requires
                    p >= 1,
                    a >= 1,
            ;
        }
        p * a
    }

    fn to_coord(state: &Cube) -> (r: usize) {
        let k = HIGH - LOW;
        let positions = edge_positions(state, LOW, HIGH);
        let mut bits = [0u8; 12];
        let mut j: usize = 0;
        while j < k
            invariant
                j <= k == HIGH - LOW,
                LOW < HIGH <= 12,
                state.valid(),
                forall|t: int| 0 <= t < k ==> positions@[t] < 12,
                forall|t: int| 0 <= t < j ==> bits@[t] == state.eo@[positions@[t] as int],
                forall|t: int| j <= t < 12 ==> bits@[t] == 0,
            decreases k - j,
        {
            bits[j] = state.eo[positions[j] as usize];
            j += 1;
        }
        let ghost ps = positions_of(state@, LOW as nat, k as nat);
        proof {
            assert(bits@ =~= flips_at(state@, ps, k as nat));
            lemma_pow_values();
            vstd::arithmetic::power::lemma_pow_increases(2, k as nat, 12);
            let w = bits@.subrange(0, k as int);
            assert forall|t: int| 0 <= t < w.len() implies (#[trigger] w[t] as nat) < 2 by {
                assert(w[t] == bits@[t]);
            }
            assert forall|t: int| 0 <= t < k implies positions@[t] < 12 by {}
            lemma_arrangements_bound(k as nat);
            assert(positions@.subrange(0, 12) =~= positions@);
        }
        let flips = read_digits(&bits, 0, k, 2);
        let arrangement = read_lehmer(&positions, 0, k);
        let c = binomial(12, k);
        let choice = combination_index(&positions, 0, k);
        proof {
            let f = fact(k as nat) as int;
            let p = pow(2, k as nat);
            vstd::arithmetic::power::lemma_pow_increases(2, k as nat, 7);
            lemma_pow_values();
            assert(arrangement * c + choice < f * c) by (nonlinear_arith)
                requires
                    arrangement < f,
                    choice < c,
            ;
            assert(flips * (f * c) + (arrangement * c + choice) < p * (f * c)) by (nonlinear_arith)
                requires
                    flips < p,
                    arrangement * c + choice < f * c,
            ;
            assert(p * (f * c) <= 128 * 3991680) by (nonlinear_arith)
                requires
                    p <= 128,
                    f * c <= 3991680,
                    p >= 0,
                    f * c >= 0,
            ;
        }
        let size = factorial(k) * c;
        flips * size + (arrangement * c + choice)
    }

    fn from_coord(coord: usize) -> (r: Cube)
        ensures
            pe_coord(r@, LOW as nat, HIGH as nat) == coord,
            r@.cp == solved_state().cp,
            r@.co == solved_state().co,
            forall|p: int| 0 <= p < 12 && !(LOW <= #[trigger] r@.ep[p] < HIGH) ==> r@.eo[p] == 0,
            forall|s: CubeState, p: int|
                #![trigger pe_coord(s, LOW as nat, HIGH as nat), s.ep[p]]
                s.valid() && pe_coord(s, LOW as nat, HIGH as nat) == coord && 0 <= p < 12 && LOW <= s.ep[p]
                    < HIGH ==> r@.ep[p] == s.ep[p] && r@.eo[p] == s.eo[p],
    {
        let k = HIGH - LOW;
        proof {
            lemma_arrangements_bound(k as nat);
            lemma_fact_values();
            lemma_fact_mono(k as nat, 12);
        }
        let size = factorial(k) * binomial(12, k);
        let flips = coord / size;
        let ep_coord = coord % size;
        proof {
            let p = pow(2, k as nat);
            vstd::arithmetic::power::lemma_pow_positive(2, k as nat);
            assert(flips < p) by (nonlinear_arith)
                requires
                    coord < p * size,
                    flips == coord / size,
                    size >= 1,
            ;
        }
        let values = decode_values(ep_coord, k);
        let mut cube = Cube::solved();
        let mut i: usize = 0;
        while i < k
            invariant
                k == HIGH - LOW,
                LOW < HIGH <= 12,
                i <= k,
                cube.valid(),
                forall|t: int| 0 <= t < k ==> values@[t] < 12,
                forall|t: int, u: int| 0 <= t < k && 0 <= u < k && t != u ==> values@[t] != values@[u],
                forall|t: int| 0 <= t < i ==> cube.ep@[values@[t] as int] == LOW + t,
                cube@.cp == solved_state().cp,
                cube@.co == solved_state().co,
            decreases k - i,
        {
            let ghost before = cube.ep@;
            place_edge(&mut cube.ep, (LOW + i) as u8, values[i] as usize);
            proof {
                assert forall|t: int| 0 <= t < i implies cube.ep@[values@[t] as int] == LOW + t by {
                    assert(before[values@[t] as int] == LOW + t);
                    assert(values@[t] != values@[i as int]);
                }
            }
            i += 1;
        }
        let mut bits = [0u8; 12];
        write_digits(&mut bits, 0, k, 2, flips);
        let mut eo = [0u8; 12];
        let mut j: usize = 0;
        while j < k
            invariant
                j <= k == HIGH - LOW,
                LOW < HIGH <= 12,
                forall|t: int| 0 <= t < k ==> values@[t] < 12,
                forall|t: int, u: int| 0 <= t < k && 0 <= u < k && t != u ==> values@[t] != values@[u],
                digits_below(bits@.subrange(0, k as int), 2),
                forall|t: int| 0 <= t < 12 ==> eo@[t] < 2,
                forall|t: int| 0 <= t < j ==> eo@[values@[t] as int] == bits@[t],
                forall|p: int| 0 <= p < 12 && eo@[p] != 0 ==> exists|t: int| 0 <= t < j && values@[t] == p,
            decreases k - j,
        {
            proof {
                assert(bits@.subrange(0, k as int)[j as int] == bits@[j as int]);
            }
            let ghost before = eo@;
            eo[values[j] as usize] = bits[j];
            proof {
                assert forall|t: int| 0 <= t < j implies eo@[values@[t] as int] == bits@[t] by {
                    assert(values@[t] != values@[j as int]);
                }
                assert forall|p: int| 0 <= p < 12 && eo@[p] != 0 implies exists|t: int|
                    0 <= t < j + 1 && values@[t] == p by {
                    if p == values@[j as int] {
                        assert(values@[j as int] == p);
                    } else {
                        assert(before[p] != 0);
                        let t = choose|t: int| 0 <= t < j && values@[t] == p;
                        assert(values@[t] == p);
                    }
                }
            }
            j += 1;
        }
        cube.eo = eo;
        proof {
            assert forall|p: int| 0 <= p < 12 && !(LOW <= #[trigger] cube@.ep[p] < HIGH) implies cube@.eo[p] == 0 by {
                if cube@.eo[p] != 0 {
                    let t = choose|t: int| 0 <= t < k && values@[t] == p;
                    assert(cube.ep@[values@[t] as int] == LOW + t);
                }
            }
            let ps = positions_of(cube@, LOW as nat, k as nat);
            assert forall|t: int| 0 <= t < k implies ps[t] == values@[t] by {
                lemma_edge_position_found(cube.ep@, 12, (LOW + t) as nat, values@[t] as int);
                let e = edge_position(cube.ep@, 12, (LOW + t) as nat) as int;
                if e != values@[t] as int {
                    assert(cube.ep@[e] == cube.ep@[values@[t] as int]);
                }
            }
            lemma_rank_prefix(ps, values@, k as int);
            assert(ps.subrange(0, k as int) =~= values@.subrange(0, k as int));
            let fl = flips_at(cube@, ps, k as nat);
            assert(fl.subrange(0, k as int) =~= bits@.subrange(0, k as int)) by {
                assert forall|t: int| 0 <= t < k implies fl[t] == bits@[t] by {
                    assert(ps[t] == values@[t]);
                }
            }
            let c = binom(12, k as nat) as int;
            let f = fact(k as nat) as int;
            lemma_binom_fact(12, k as nat);
            vstd::arithmetic::div_mod::lemma_fundamental_div_mod(ep_coord as int, c);
            vstd::arithmetic::div_mod::lemma_fundamental_div_mod(coord as int, size as int);
            let d = (ep_coord as int) / c;
            let m = (ep_coord as int) % c;
            assert(flips * (f * c) + d * c + m == coord) by (nonlinear_arith)
                requires
                    size == f * c,
                    ep_coord == d * c + m,
                    coord == size * flips + ep_coord,
            ;
            assert forall|st: CubeState, p: int|
                #![trigger pe_coord(st, LOW as nat, HIGH as nat), st.ep[p]]
                st.valid() && pe_coord(st, LOW as nat, HIGH as nat) == coord && 0 <= p < 12 && LOW <= st.ep[p]
                    < HIGH implies cube@.ep[p] == st.ep[p] && cube@.eo[p] == st.eo[p] by {
                lemma_pe_coord_determines(st, cube@, LOW as nat, HIGH as nat);
            }
        }
        cube
    }
}

} // verus!
