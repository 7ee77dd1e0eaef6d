//! Lower bounds on the number of moves a state needs.
use vstd::prelude::*;

use crate::cube::{admissible, apply_moves, balanced, compose, solved_state, Cube, CubeState};
use crate::mv::{
    inverse_of, lemma_inverse_undoes, lemma_move_flips, lemma_move_valid, lemma_solvable_is_balanced,
    move_state, Move,
};
use crate::radix::{lemma_horner_bound, lemma_pow_values};
use crate::pruning_table::{
    complete, corners_coord, eo_coord, lemma_corners_coord_bound, lemma_corners_coord_closed,
    lemma_corners_coord_solved, lemma_eo_coord_closed, lemma_partial_edges_table_admissible,
    lemma_table_admissible, reached_from_below, PartialEdges,
    Coordinate, CornerOrientation, CornerPermutation, PruningTable, EO,
};
use crate::radix::{sum_of, sum_prefix};

verus! {

/// A lower bound on the number of moves that a state needs.
pub trait Heuristic {
    /// Whether the heuristic is ready for use.
    spec fn wf(&self) -> bool;

    /// The bound that the heuristic gives for a state.
    spec fn spec_lower_bound(&self, s: CubeState) -> nat;

    /// The bound for `state`.
    fn lower_bound(&self, state: &Cube) -> (r: u8)
        requires
            self.wf(),
            state.valid(),
        ensures
            r == self.spec_lower_bound(state@),
    ;
}

/// The bound that is always zero.
#[derive(Clone, Copy)]
pub struct ZeroBound;

impl Heuristic for ZeroBound {
    open spec fn wf(&self) -> bool {
        true
    }

    open spec fn spec_lower_bound(&self, s: CubeState) -> nat {
        0
    }

    fn lower_bound(&self, state: &Cube) -> (r: u8) {
        0
    }
}

/// The number of flipped edges, modulo 4.
#[derive(Clone, Copy)]
pub struct EOBound;

impl Heuristic for EOBound {
    open spec fn wf(&self) -> bool {
        true
    }

    open spec fn spec_lower_bound(&self, s: CubeState) -> nat {
        sum_of(s.eo) % 4
    }

    fn lower_bound(&self, state: &Cube) -> (r: u8) {
        let s = sum_prefix(&state.eo, 12);
        proof {
            assert(state.eo@.subrange(0, 12) =~= state.eo@);
        }
        (s % 4) as u8
    }
}

impl<C: Coordinate> Heuristic for PruningTable<C> {
    open spec fn wf(&self) -> bool {
        PruningTable::<C>::wf(self)
    }

    open spec fn spec_lower_bound(&self, s: CubeState) -> nat {
        self@[C::spec_coord(s) as int] as nat
    }

    fn lower_bound(&self, state: &Cube) -> (r: u8) {
        let index = C::to_coord(state);
        self.get(index)
    }
}

/// Number of entries of the corner table: `3^7 * 8!`.
pub const CORNER_SIZE: usize = 88179840;

/// The distance table over corner orientation and permutation together.
pub struct Corners {
    table: Vec<u8>,
}

impl View for Corners {
    type V = Seq<u8>;

    closed spec fn view(&self) -> Seq<u8> {
        self.table@
    }
}

impl Corners {
    /// The table has one entry per corner state.
    pub open spec fn wf(&self) -> bool {
        self@.len() == CORNER_SIZE
    }

    /// The index of a cube's corners in the table.
    pub fn coord(cube: &Cube) -> (r: usize)
        requires
            cube.valid(),
        ensures
            r == corners_coord(cube@),
            r < CORNER_SIZE,
    {
        cube.corner_orientation_coordinate() * 40320 + cube.corner_perm_coordinate()
    }

    /// The entries as bytes, in index order.
    pub fn bytes(&self) -> (r: &[u8])
        ensures
            r@ == self@,
    {
        self.table.as_slice()
    }

    /// A table made of given bytes, one per corner state.
    pub fn new(table: Vec<u8>) -> (r: Corners)
        requires
            table@.len() == CORNER_SIZE,
        ensures
            r.wf(),
            r@ == table@,
    {
        Corners { table }
    }

    /// Builds the table breadth-first from the solved corners: entry 0 is
    /// 0, and every other non-zero entry is one move away from a state
    /// whose entry is one less.
    pub fn generate() -> (r: Corners)
        ensures
            r.wf(),
            r@[0] == 0,
            forall|j: int|
                0 <= j < r@.len() ==> #[trigger] reached_from_below::<
                    (CornerOrientation, CornerPermutation),
                >(r@, j),
            (forall|j: int| 0 <= j < r@.len() ==> r@[j] < 254) ==> complete::<
                (CornerOrientation, CornerPermutation),
            >(r@),
    {
        let t = PruningTable::<(CornerOrientation, CornerPermutation)>::generate();
        Corners { table: t.into_bytes() }
    }

    /// Splits a table index into the orientation and permutation
    /// coordinates.
    pub fn index_to_coords(index: usize) -> (r: (usize, usize))
        requires
            index < CORNER_SIZE,
        ensures
            r == (index / 40320, index % 40320),
            r.0 < 2187,
    {
        let orientation = index / 40320;
        let permutation = index % 40320;
        (orientation, permutation)
    }
}

impl Heuristic for Corners {
    open spec fn wf(&self) -> bool {
        Corners::wf(self)
    }

    open spec fn spec_lower_bound(&self, s: CubeState) -> nat {
        self@[corners_coord(s) as int] as nat
    }

    fn lower_bound(&self, state: &Cube) -> (r: u8) {
        let index = Corners::coord(state);
        self.table[index]
    }
}

impl<'a, H: Heuristic> Heuristic for &'a H {
    open spec fn wf(&self) -> bool {
        (**self).wf()
    }

    open spec fn spec_lower_bound(&self, s: CubeState) -> nat {
        (**self).spec_lower_bound(s)
    }

    fn lower_bound(&self, state: &Cube) -> (r: u8) {
        (**self).lower_bound(state)
    }
}

/// The larger of two numbers.
pub open spec fn max2(a: nat, b: nat) -> nat {
    if a >= b {
        a
    } else {
        b
    }
}

impl<H0: Heuristic, H1: Heuristic> Heuristic for (H0, H1) {
    open spec fn wf(&self) -> bool {
        self.0.wf() && self.1.wf()
    }

    open spec fn spec_lower_bound(&self, s: CubeState) -> nat {
        max2(self.0.spec_lower_bound(s), self.1.spec_lower_bound(s))
    }

    fn lower_bound(&self, state: &Cube) -> (r: u8) {
        let a = self.0.lower_bound(state);
        let b = self.1.lower_bound(state);
        if a >= b {
            a
        } else {
            b
        }
    }
}

impl<H0: Heuristic, H1: Heuristic, H2: Heuristic> Heuristic for (H0, H1, H2) {
    open spec fn wf(&self) -> bool {
        self.0.wf() && self.1.wf() && self.2.wf()
    }

    open spec fn spec_lower_bound(&self, s: CubeState) -> nat {
        max2(
            max2(self.0.spec_lower_bound(s), self.1.spec_lower_bound(s)),
            self.2.spec_lower_bound(s),
        )
    }

    fn lower_bound(&self, state: &Cube) -> (r: u8) {
        let a = self.0.lower_bound(state);
        let b = self.1.lower_bound(state);
        let c = self.2.lower_bound(state);
        let ab = if a >= b {
            a
        } else {
            b
        };
        if ab >= c {
            ab
        } else {
            c
        }
    }
}

impl<H0: Heuristic, H1: Heuristic, H2: Heuristic, H3: Heuristic> Heuristic for (H0, H1, H2, H3) {
    open spec fn wf(&self) -> bool {
        self.0.wf() && self.1.wf() && self.2.wf() && self.3.wf()
    }

    open spec fn spec_lower_bound(&self, s: CubeState) -> nat {
        max2(
            max2(self.0.spec_lower_bound(s), self.1.spec_lower_bound(s)),
            max2(self.2.spec_lower_bound(s), self.3.spec_lower_bound(s)),
        )
    }

    fn lower_bound(&self, state: &Cube) -> (r: u8) {
        let a = self.0.lower_bound(state);
        let b = self.1.lower_bound(state);
        let c = self.2.lower_bound(state);
        let d = self.3.lower_bound(state);
        let ab = if a >= b {
            a
        } else {
            b
        };
        let cd = if c >= d {
            c
        } else {
            d
        };
        if ab >= cd {
            ab
        } else {
            cd
        }
    }
}

/// In a complete corner table, the entry of a valid state is at most the
/// length of any sequence of moves that solves it.
pub proof fn lemma_corner_entries_admissible(t: Seq<u8>, s: CubeState, ms: Seq<Move>)
    requires
        t.len() == CORNER_SIZE,
        t[0] == 0,
        complete::<(CornerOrientation, CornerPermutation)>(t),
        s.valid(),
        apply_moves(s, ms) == solved_state(),
    ensures
        t[corners_coord(s) as int] <= ms.len(),
{
    lemma_corners_coord_solved();
    assert forall|a: CubeState, b: CubeState, m: Move|
        a.valid() && b.valid() && balanced(a) && balanced(b) && corners_coord(a) == corners_coord(b)
            implies #[trigger] corners_coord(compose(a, move_state(m))) == #[trigger] corners_coord(
            compose(b, move_state(m)),
        ) by {
        lemma_corners_coord_closed(a, b, m);
    }
    assert forall|a: CubeState| a.valid() implies #[trigger] corners_coord(a) < t.len() by {
        lemma_corners_coord_bound(a);
    }
    lemma_solvable_is_balanced(s, ms);
    lemma_table_admissible::<(CornerOrientation, CornerPermutation)>(t, s, ms);
}

/// A corner table whose generation completed never overestimates: its
/// entry for a valid state is at most the length of any solution.
pub proof fn lemma_corner_table_admissible(t: PruningTable<(CornerOrientation, CornerPermutation)>)
    requires
        t.wf(),
        t@[0] == 0,
        complete::<(CornerOrientation, CornerPermutation)>(t@),
    ensures
        admissible(t),
{
    assert forall|s: CubeState, ms: Seq<Move>|
        #![trigger t.spec_lower_bound(s), apply_moves(s, ms)]
        s.valid() && apply_moves(s, ms) == solved_state() implies t.spec_lower_bound(s) <= ms.len() by {
        lemma_corner_entries_admissible(t@, s, ms);
    }
}

/// An edge orientation table whose generation completed never
/// overestimates.
pub proof fn lemma_eo_table_admissible(t: PruningTable<EO>)
    requires
        t.wf(),
        t@[0] == 0,
        complete::<EO>(t@),
    ensures
        admissible(t),
{
    lemma_corners_coord_solved();
    lemma_pow_values();
    assert forall|a: CubeState, b: CubeState, m: Move|
        a.valid() && b.valid() && balanced(a) && balanced(b) && eo_coord(a) == eo_coord(b)
            implies #[trigger] eo_coord(compose(a, move_state(m))) == #[trigger] eo_coord(
            compose(b, move_state(m)),
        ) by {
        lemma_eo_coord_closed(a, b, m);
    }
    assert forall|a: CubeState| a.valid() implies #[trigger] eo_coord(a) < t@.len() by {
        let w = a.eo.subrange(0, 11);
        assert forall|i: int| 0 <= i < w.len() implies (#[trigger] w[i] as nat) < 2 by {
            assert(w[i] == a.eo[i]);
        }
        lemma_horner_bound(w, 2);
    }
    assert forall|s: CubeState, ms: Seq<Move>|
        #![trigger t.spec_lower_bound(s), apply_moves(s, ms)]
        s.valid() && apply_moves(s, ms) == solved_state() implies t.spec_lower_bound(s) <= ms.len() by {
        lemma_solvable_is_balanced(s, ms);
        lemma_table_admissible::<EO>(t@, s, ms);
    }
}

/// The larger of two admissible bounds is admissible.
pub proof fn lemma_pair_admissible<H0: Heuristic, H1: Heuristic>(h0: H0, h1: H1)
    requires
        admissible(h0),
        admissible(h1),
    ensures
        admissible((h0, h1)),
{
    assert forall|s: CubeState, ms: Seq<Move>|
        #![trigger (h0, h1).spec_lower_bound(s), apply_moves(s, ms)]
        s.valid() && apply_moves(s, ms) == solved_state() implies (h0, h1).spec_lower_bound(s) <= ms.len() by {
        assert(h0.spec_lower_bound(s) <= ms.len());
        assert(h1.spec_lower_bound(s) <= ms.len());
    }
}

/// A corner table whose generation completed never overestimates.
pub proof fn lemma_corners_admissible(c: Corners)
    requires
        c.wf(),
        c@[0] == 0,
        complete::<(CornerOrientation, CornerPermutation)>(c@),
    ensures
        admissible(c),
{
    assert forall|s: CubeState, ms: Seq<Move>|
        #![trigger c.spec_lower_bound(s), apply_moves(s, ms)]
        s.valid() && apply_moves(s, ms) == solved_state() implies c.spec_lower_bound(s) <= ms.len() by {
        lemma_corner_entries_admissible(c@, s, ms);
    }
}

/// A bound used through a reference is as admissible as the bound itself.
pub proof fn lemma_ref_admissible<H: Heuristic>(h: &H)
    requires
        admissible(*h),
    ensures
        admissible(h),
{
    assert forall|s: CubeState, ms: Seq<Move>|
        #![trigger h.spec_lower_bound(s), apply_moves(s, ms)]
        s.valid() && apply_moves(s, ms) == solved_state() implies h.spec_lower_bound(s) <= ms.len() by {
        assert((*h).spec_lower_bound(s) <= ms.len());
    }
}

/// A partial edges table, with the window starting at edge 0, whose
/// generation completed never overestimates.
pub proof fn lemma_partial_edges_heuristic_admissible<const HIGH: usize>(t: PruningTable<PartialEdges<0, HIGH>>)
    requires
        0 < HIGH <= 7,
        t.wf(),
        t@[0] == 0,
        complete::<PartialEdges<0, HIGH>>(t@),
    ensures
        admissible(t),
{
    assert forall|s: CubeState, ms: Seq<Move>|
        #![trigger t.spec_lower_bound(s), apply_moves(s, ms)]
        s.valid() && apply_moves(s, ms) == solved_state() implies t.spec_lower_bound(s) <= ms.len() by {
        lemma_partial_edges_table_admissible::<HIGH>(t@, s, ms);
    }
}

/// The count of flipped edges modulo 4 never overestimates: a solvable
/// state has an even count, and a count of 2 modulo 4 cannot be solved in
/// fewer than two moves, since every move flips a multiple of four edges.
pub proof fn lemma_eo_bound_admissible()
    ensures
        admissible(EOBound),
{
    assert forall|s: CubeState, ms: Seq<Move>|
        #![trigger EOBound.spec_lower_bound(s), apply_moves(s, ms)]
        s.valid() && apply_moves(s, ms) == solved_state() implies EOBound.spec_lower_bound(s) <= ms.len() by {
        lemma_solvable_is_balanced(s, ms);
        let n = sum_of(s.eo);
        assert(n % 4 == 0 || n % 4 == 2);
        if n % 4 == 2 {
            crate::cube::lemma_solved_balanced();
            reveal_with_fuel(sum_of, 13);
            if ms.len() == 0 {
                assert(s == solved_state());
                assert(sum_of(solved_state().eo) == 0);
            } else if ms.len() == 1 {
                let m = ms[0];
                let inv = inverse_of(m);
                lemma_inverse_undoes(s, m);
                assert(ms.subrange(1, 1) =~= Seq::<Move>::empty());
                assert(apply_moves(s, ms) == apply_moves(compose(s, move_state(m)), ms.subrange(1, 1)));
                assert(apply_moves(compose(s, move_state(m)), Seq::<Move>::empty()) == compose(s, move_state(m)));
                assert(compose(s, move_state(m)) == solved_state());
                lemma_move_valid(inv);
                crate::cube::lemma_compose_identity(move_state(inv));
                assert(s == move_state(inv));
                lemma_move_flips(inv);
            }
        }
    }
}

} // verus!
