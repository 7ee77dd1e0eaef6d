//! Cube states, their composition, the corner coordinates on them, and the
//! iterative-deepening search.
use vstd::arithmetic::power::pow;
use vstd::prelude::*;

use crate::heuristics::{Heuristic, ZeroBound};
use crate::mv::{face_move, lemma_face_move_parts, lemma_merge_turns, lemma_move_valid, turns_of, face_of, lemma_move_index_bound, lemma_move_index_injective, move_index, move_state, Move};
use crate::pruning_table::factorial;
use crate::radix::{
    count_above_in, count_greater, increasing, lehmer_digit, lemma_count_above_in_front,
    lemma_count_above_in_start, lemma_count_above_in_update, lemma_count_greater_increasing,
    lemma_count_greater_remove, lemma_rank_is_weighted, lemma_weighted_update_below,
    weighted_from, digits_below, digits_value, fact, lehmer_rank, lemma_fact_values, lemma_pow_values,
    read_digits, read_lehmer, sum_of, sum_prefix, write_digits,
};

verus! {

/// The mathematical value of a cube: its four arrays as sequences.
pub struct CubeState {
    pub ep: Seq<u8>,
    pub eo: Seq<u8>,
    pub cp: Seq<u8>,
    pub co: Seq<u8>,
}

/// A sequence of `n` values that holds each of `0..n` exactly once.
pub open spec fn is_perm(s: Seq<u8>, n: nat) -> bool {
    &&& s.len() == n
    &&& forall|i: int| 0 <= i < n ==> s[i] < n
    &&& forall|i: int, j: int| 0 <= i < n && 0 <= j < n && i != j ==> s[i] != s[j]
}

/// A permutation of `0..n` holds every value below `n`.
pub proof fn lemma_perm_has_all(s: Seq<u8>, n: nat)
    requires
        is_perm(s, n),
        n <= 256,
    ensures
        forall|v: u8| (v as nat) < n ==> #[trigger] s.contains(v),
{
    assert(s.no_duplicates()) by {
        assert forall|i: int, j: int| 0 <= i < s.len() && 0 <= j < s.len() && i != j implies s[i] != s[j] by {}
    }
    crate::radix::lemma_count_members_below(s, n);
    crate::radix::lemma_count_below_all(s, n);
    crate::radix::lemma_count_members_full(s, n);
}

/// Every entry of `s` is below `bound`.
pub open spec fn all_below(s: Seq<u8>, n: nat, bound: u8) -> bool {
    &&& s.len() == n
    &&& forall|i: int| 0 <= i < n ==> s[i] < bound
}

impl CubeState {
    /// Permutations are permutations and orientations are in range.
    pub open spec fn valid(self) -> bool {
        &&& is_perm(self.ep, 12)
        &&& all_below(self.eo, 12, 2)
        &&& is_perm(self.cp, 8)
        &&& all_below(self.co, 8, 3)
    }
}

/// `a ∘ b`: apply `a` first, then `b`.
pub open spec fn compose(a: CubeState, b: CubeState) -> CubeState {
    CubeState {
        ep: Seq::new(12, |i: int| a.ep[b.ep[i] as int]),
        eo: Seq::new(12, |i: int| ((a.eo[b.ep[i] as int] + b.eo[i]) % 2) as u8),
        cp: Seq::new(8, |i: int| a.cp[b.cp[i] as int]),
        co: Seq::new(8, |i: int| ((a.co[b.cp[i] as int] + b.co[i]) % 3) as u8),
    }
}

/// The solved state.
pub open spec fn solved_state() -> CubeState {
    CubeState {
        ep: Seq::new(12, |i: int| i as u8),
        eo: Seq::new(12, |i: int| 0u8),
        cp: Seq::new(8, |i: int| i as u8),
        co: Seq::new(8, |i: int| 0u8),
    }
}

/// Composing two valid states gives a valid state.
pub proof fn lemma_compose_valid(a: CubeState, b: CubeState)
    requires
        a.valid(),
        b.valid(),
    ensures
        compose(a, b).valid(),
{
    let c = compose(a, b);
    assert forall|i: int, j: int| 0 <= i < 12 && 0 <= j < 12 && i != j implies c.ep[i] != c.ep[j] by {
        assert(b.ep[i] != b.ep[j]);
    }
    assert forall|i: int, j: int| 0 <= i < 8 && 0 <= j < 8 && i != j implies c.cp[i] != c.cp[j] by {
        assert(b.cp[i] != b.cp[j]);
    }
}

/// The solved state is valid.
pub proof fn lemma_solved_valid()
    ensures
        solved_state().valid(),
{
}

/// The solved state is a two-sided identity of composition.
pub proof fn lemma_compose_identity(a: CubeState)
    requires
        a.valid(),
    ensures
        compose(solved_state(), a) == a,
        compose(a, solved_state()) == a,
{
    let l = compose(solved_state(), a);
    let r = compose(a, solved_state());
    assert(l.ep =~= a.ep && l.eo =~= a.eo && l.cp =~= a.cp && l.co =~= a.co);
    assert(r.ep =~= a.ep && r.eo =~= a.eo && r.cp =~= a.cp && r.co =~= a.co);
}

/// Composition is associative: `(a ∘ b) ∘ c == a ∘ (b ∘ c)`.
pub proof fn lemma_compose_assoc(a: CubeState, b: CubeState, c: CubeState)
    requires
        a.valid(),
        b.valid(),
        c.valid(),
    ensures
        compose(compose(a, b), c) == compose(a, compose(b, c)),
{
    let l = compose(compose(a, b), c);
    let r = compose(a, compose(b, c));
    assert forall|i: int| 0 <= i < 12 implies l.eo[i] == r.eo[i] by {
        let x = a.eo[b.ep[c.ep[i] as int] as int];
        let y = b.eo[c.ep[i] as int];
        let z = c.eo[i];
        assert(x < 2 && y < 2 && z < 2);
        assert(((x + y) % 2 + z) % 2 == (x + (y + z) % 2) % 2) by (nonlinear_arith)
            requires
                x < 2,
                y < 2,
                z < 2,
        ;
    }
    assert forall|i: int| 0 <= i < 8 implies l.co[i] == r.co[i] by {
        let x = a.co[b.cp[c.cp[i] as int] as int];
        let y = b.co[c.cp[i] as int];
        let z = c.co[i];
        assert(x < 3 && y < 3 && z < 3);
        assert(((x + y) % 3 + z) % 3 == (x + (y + z) % 3) % 3) by (nonlinear_arith)
            requires
                x < 3,
                y < 3,
                z < 3,
        ;
    }
    assert(l.ep =~= r.ep && l.eo =~= r.eo && l.cp =~= r.cp && l.co =~= r.co);
}

/// The edge flips add up to an even number and the corner twists to a
/// multiple of three.
pub open spec fn balanced(s: CubeState) -> bool {
    &&& sum_of(s.eo) % 2 == 0
    &&& sum_of(s.co) % 3 == 0
}

/// The solved state is balanced.
pub proof fn lemma_solved_balanced()
    ensures
        balanced(solved_state()),
{
    reveal_with_fuel(sum_of, 13);
}

/// Taking an entry out of a sum.
pub proof fn lemma_sum_remove(s: Seq<u8>, j: int)
    requires
        0 <= j < s.len(),
    ensures
        sum_of(s) == sum_of(s.remove(j)) + s[j],
    decreases s.len(),
{
    let r = s.remove(j);
    if j == s.len() - 1 {
        assert(r =~= s.drop_last());
    } else {
        assert(r.drop_last() =~= s.drop_last().remove(j));
        assert(r.last() == s.last());
        lemma_sum_remove(s.drop_last(), j);
    }
}

/// Reading a sequence through a permutation keeps its sum.
pub proof fn lemma_sum_permuted(a: Seq<u8>, p: Seq<u8>)
    requires
        a.len() <= 256,
        is_perm(p, a.len()),
    ensures
        sum_of(Seq::new(a.len(), |i: int| a[p[i] as int])) == sum_of(a),
    decreases a.len(),
{
    let n = a.len();
    if n > 0 {
        lemma_perm_has_all(p, n);
        let top = (n - 1) as u8;
        assert(p.contains(top));
        let j = choose|j: int| 0 <= j < p.len() && p[j] == top;
        let q = p.remove(j);
        let a2 = a.drop_last();
        assert forall|i: int| 0 <= i < n - 1 implies q[i] < n - 1 by {
            let src = if i < j {
                i
            } else {
                i + 1
            };
            assert(q[i] == p[src]);
            assert(p[src] != p[j]);
        }
        assert forall|i: int, k: int| 0 <= i < n - 1 && 0 <= k < n - 1 && i != k implies q[i] != q[k] by {
            let si = if i < j {
                i
            } else {
                i + 1
            };
            let sk = if k < j {
                k
            } else {
                k + 1
            };
            assert(q[i] == p[si] && q[k] == p[sk]);
        }
        lemma_sum_permuted(a2, q);
        let m = Seq::new(n, |i: int| a[p[i] as int]);
        assert(m.remove(j) =~= Seq::new(a2.len(), |i: int| a2[q[i] as int]));
        lemma_sum_remove(m, j);
        assert(m[j] == a[n - 1]);
    }
}

/// The sum of entry-wise sums modulo `m`.
pub proof fn lemma_sum_mod(x: Seq<u8>, y: Seq<u8>, z: Seq<u8>, m: int)
    requires
        x.len() == y.len() == z.len(),
        m > 0,
        forall|i: int| 0 <= i < z.len() ==> z[i] as int == (x[i] + y[i]) % m,
    ensures
        (sum_of(z) as int) % m == (sum_of(x) + sum_of(y)) as int % m,
    decreases z.len(),
{
    if z.len() > 0 {
        let n = z.len() - 1;
        lemma_sum_mod(x.drop_last(), y.drop_last(), z.drop_last(), m);
        let s = sum_of(z.drop_last()) as int;
        let xy = (sum_of(x.drop_last()) + sum_of(y.drop_last())) as int;
        let t = x[n] + y[n];
        vstd::arithmetic::div_mod::lemma_add_mod_noop_right(s, t, m);
        vstd::arithmetic::div_mod::lemma_add_mod_noop_right(t, s, m);
        vstd::arithmetic::div_mod::lemma_add_mod_noop_right(t, xy, m);
        assert(sum_of(z) == s + z[n]);
        assert(sum_of(x) + sum_of(y) == xy + t);
    }
}

/// The flips and twists of a composition add up modulo 2 and 3.
pub proof fn lemma_compose_sums(a: CubeState, b: CubeState)
    requires
        a.valid(),
        b.valid(),
    ensures
        (sum_of(compose(a, b).eo) as int) % 2 == (sum_of(a.eo) + sum_of(b.eo)) as int % 2,
        (sum_of(compose(a, b).co) as int) % 3 == (sum_of(a.co) + sum_of(b.co)) as int % 3,
{
    let c = compose(a, b);
    let x = Seq::new(12, |i: int| a.eo[b.ep[i] as int]);
    lemma_sum_permuted(a.eo, b.ep);
    lemma_sum_mod(x, b.eo, c.eo, 2);
    let y = Seq::new(8, |i: int| a.co[b.cp[i] as int]);
    lemma_sum_permuted(a.co, b.cp);
    lemma_sum_mod(y, b.co, c.co, 3);
}

/// Composing two balanced valid states gives a balanced state.
pub proof fn lemma_compose_balanced(a: CubeState, b: CubeState)
    requires
        a.valid(),
        b.valid(),
        balanced(a),
        balanced(b),
    ensures
        balanced(compose(a, b)),
{
    lemma_compose_sums(a, b);
    vstd::arithmetic::div_mod::lemma_add_mod_noop(sum_of(a.eo) as int, sum_of(b.eo) as int, 2);
    vstd::arithmetic::div_mod::lemma_add_mod_noop(sum_of(a.co) as int, sum_of(b.co) as int, 3);
}

/// Every edge flipped, every piece in place.
pub open spec fn superflip_state() -> CubeState {
    CubeState {
        ep: Seq::new(12, |i: int| i as u8),
        eo: Seq::new(12, |i: int| 1u8),
        cp: Seq::new(8, |i: int| i as u8),
        co: Seq::new(8, |i: int| 0u8),
    }
}

/// A cube state: for each edge and corner position, where its piece came
/// from and how it is turned.
#[derive(Clone, Copy, Debug)]
pub struct Cube {
    pub eo: [u8; 12],
    pub ep: [u8; 12],
    pub co: [u8; 8],
    pub cp: [u8; 8],
}

impl View for Cube {
    type V = CubeState;

    open spec fn view(&self) -> CubeState {
        CubeState { ep: self.ep@, eo: self.eo@, cp: self.cp@, co: self.co@ }
    }
}

impl Cube {
    pub open spec fn valid(&self) -> bool {
        self@.valid()
    }

    /// The solved cube.
    pub fn solved() -> (r: Cube)
        ensures
            r@ == solved_state(),
    {
        let r = Cube {
            eo: [0u8; 12],
            ep: [0, 1, 2, 3, 4, 5, 6, 7, 8, 9, 10, 11],
            co: [0u8; 8],
            cp: [0, 1, 2, 3, 4, 5, 6, 7],
        };
        assert(r@.ep =~= solved_state().ep);
        assert(r@.eo =~= solved_state().eo);
        assert(r@.cp =~= solved_state().cp);
        assert(r@.co =~= solved_state().co);
        r
    }

    /// The cube with every edge flipped and every piece in place.
    pub fn superflip() -> (r: Cube)
        ensures
            r@ == superflip_state(),
            r.valid(),
    {
        let r = Cube {
            eo: [1u8; 12],
            ep: [0, 1, 2, 3, 4, 5, 6, 7, 8, 9, 10, 11],
            co: [0u8; 8],
            cp: [0, 1, 2, 3, 4, 5, 6, 7],
        };
        assert(r@.ep =~= superflip_state().ep);
        assert(r@.eo =~= superflip_state().eo);
        assert(r@.cp =~= superflip_state().cp);
        assert(r@.co =~= superflip_state().co);
        r
    }

    /// The state reached by turning `m` after `self`.
    pub fn turn(&self, m: Move) -> (r: Cube)
        requires
            self.valid(),
        ensures
            r@ == compose(self@, move_state(m)),
            r.valid(),
    {
        let c = m.to_cube();
        proof {
            lemma_compose_valid(self@, c@);
        }
        self.apply(&c)
    }

    /// `self ∘ mv`: the state reached by applying `mv` after `self`.
    pub fn apply(&self, mv: &Self) -> (r: Self)
        requires
            self.valid(),
            mv.valid(),
        ensures
            r@ == compose(self@, mv@),
    {
        let mut ep = [0u8; 12];
        let mut eo = [0u8; 12];
        let mut i: usize = 0;
        while i < 12
            invariant
                i <= 12,
                self.valid(),
                mv.valid(),
                forall|k: int| 0 <= k < i ==> ep[k] == compose(self@, mv@).ep[k],
                forall|k: int| 0 <= k < i ==> eo[k] == compose(self@, mv@).eo[k],
            decreases 12 - i,
        {
            let p = mv.ep[i] as usize;
            ep[i] = self.ep[p];
            eo[i] = (self.eo[p] + mv.eo[i]) % 2;
            i += 1;
        }
        let mut cp = [0u8; 8];
        let mut co = [0u8; 8];
        let mut i: usize = 0;
        while i < 8
            invariant
                i <= 8,
                self.valid(),
                mv.valid(),
                forall|k: int| 0 <= k < i ==> cp[k] == compose(self@, mv@).cp[k],
                forall|k: int| 0 <= k < i ==> co[k] == compose(self@, mv@).co[k],
            decreases 8 - i,
        {
            let p = mv.cp[i] as usize;
            cp[i] = self.cp[p];
            co[i] = (self.co[p] + mv.co[i]) % 3;
            i += 1;
        }
        let r = Cube { eo, ep, co, cp };
        assert(r@.ep =~= compose(self@, mv@).ep);
        assert(r@.eo =~= compose(self@, mv@).eo);
        assert(r@.cp =~= compose(self@, mv@).cp);
        assert(r@.co =~= compose(self@, mv@).co);
        r
    }

    /// Whether this is the solved cube.
    pub fn is_solved(&self) -> (r: bool)
        ensures
            r == (self@ == solved_state()),
    {
        *self == Cube::solved()
    }
}

/// Whether the first `n` entries of two arrays agree.
fn same_prefix<const N: usize>(a: &[u8; N], b: &[u8; N], n: usize) -> (r: bool)
    requires
        n <= N,
    ensures
        r == (a@.subrange(0, n as int) == b@.subrange(0, n as int)),
{
    let mut i: usize = 0;
    while i < n
        invariant
            i <= n <= N,
            forall|k: int| 0 <= k < i ==> a@[k] == b@[k],
        decreases n - i,
    {
        if a[i] != b[i] {
            assert(a@.subrange(0, n as int)[i as int] != b@.subrange(0, n as int)[i as int]);
            return false;
        }
        i += 1;
    }
    assert(a@.subrange(0, n as int) =~= b@.subrange(0, n as int));
    true
}

impl PartialEq for Cube {
    fn eq(&self, o: &Cube) -> (r: bool) {
        let r = same_prefix(&self.ep, &o.ep, 12) && same_prefix(&self.eo, &o.eo, 12)
            && same_prefix(&self.cp, &o.cp, 8) && same_prefix(&self.co, &o.co, 8);
        proof {
            assert(self.ep@.subrange(0, 12) =~= self.ep@);
            assert(o.ep@.subrange(0, 12) =~= o.ep@);
            assert(self.eo@.subrange(0, 12) =~= self.eo@);
            assert(o.eo@.subrange(0, 12) =~= o.eo@);
            assert(self.cp@.subrange(0, 8) =~= self.cp@);
            assert(o.cp@.subrange(0, 8) =~= o.cp@);
            assert(self.co@.subrange(0, 8) =~= self.co@);
            assert(o.co@.subrange(0, 8) =~= o.co@);
        }
        r
    }
}

impl vstd::std_specs::cmp::PartialEqSpecImpl for Cube {
    open spec fn obeys_eq_spec() -> bool {
        true
    }

    open spec fn eq_spec(&self, o: &Cube) -> bool {
        self@ == o@
    }
}

/// The corner orientation coordinate: `co[0..7]` read in base 3.
pub open spec fn co_coord(s: CubeState) -> nat {
    digits_value(s.co, 0, 7, 3)
}

/// The corner permutation coordinate: the Lehmer rank of `cp`.
pub open spec fn cp_coord(s: CubeState) -> nat {
    lehmer_rank(s.cp, 8)
}

impl Cube {
    /// The corner permutation coordinate, in `[0, 8!)`.
    pub fn corner_perm_coordinate(&self) -> (r: usize)
        ensures
            r == cp_coord(self@),
            r < 40320,
    {
        proof {
            lemma_fact_values();
            assert(self.cp@.subrange(0, 8) =~= self.cp@);
        }
        read_lehmer(&self.cp, 0, 8)
    }

    /// The corner orientation coordinate, in `[0, 3^7)`.
    pub fn corner_orientation_coordinate(&self) -> (r: usize)
        requires
            self.valid(),
        ensures
            r == co_coord(self@),
            r < 2187,
    {
        proof {
            lemma_pow_values();
            let w = self.co@.subrange(0, 7);
            assert forall|i: int| 0 <= i < w.len() implies (#[trigger] w[i] as nat) < 3 by {
                assert(w[i] == self.co@[i]);
            }
        }
        read_digits(&self.co, 0, 7, 3)
    }
}

/// The corner orientations whose coordinate is `number`: seven base-3
/// digits, and a last one that makes the sum a multiple of 3.
pub fn co_from_coord(number: usize) -> (r: [u8; 8])
    requires
        number < 2187,
    ensures
        digits_value(r@, 0, 7, 3) == number,
        forall|i: int| 0 <= i < 8 ==> r@[i] < 3,
        sum_of(r@) % 3 == 0,
{
    proof {
        lemma_pow_values();
    }
    let mut digits = [0u8; 8];
    write_digits(&mut digits, 0, 7, 3, number);
    let sum = sum_prefix(&digits, 7);
    let ghost before = digits@;
    digits[7] = ((3 - sum % 3) % 3) as u8;
    proof {
        assert(digits@.subrange(0, 7) =~= before.subrange(0, 7));
        assert(digits@.drop_last() =~= before.subrange(0, 7));
        assert forall|i: int| 0 <= i < 7 implies digits@[i] < 3 by {
            assert(digits@[i] == before.subrange(0, 7)[i]);
        }
        assert((sum + (3 - sum % 3) % 3) % 3 == 0);
    }
    digits
}

/// The corner permutation whose Lehmer rank is `number`.
pub fn cp_from_coord(number: usize) -> (r: [u8; 8])
    requires
        number < 40320,
    ensures
        is_perm(r@, 8),
        lehmer_rank(r@, 8) == number,
{
    let mut lehmer_code = [0u8; 8];
    let mut n: usize = number;
    let mut i: usize = 7;
    proof {
        lemma_fact_values();
    }
    while i >= 1
        invariant
            i <= 7,
            n < fact((i + 1) as nat),
            lehmer_code[0] == 0,
            forall|k: int| i < k < 8 ==> lehmer_code@[k] <= k,
            number == n + weighted_from(lehmer_code@, i + 1, 8),
        decreases i,
    {
        let f = factorial(i);
        let digit = n / f;
        proof {
            assert(fact((i + 1) as nat) == (i + 1) * fact(i as nat));
            assert(digit <= i) by (nonlinear_arith)
                requires
                    n < (i + 1) * f,
                    digit == n / f,
                    f > 0,
            ;
            assert(n == digit * f + n % f) by (nonlinear_arith)
                requires
                    digit == n / f,
                    f > 0,
            ;
        }
        let ghost before = lehmer_code@;
        lehmer_code[i] = digit as u8;
        proof {
            lemma_weighted_update_below(before, i as int + 1, 8, i as int, digit as u8);
            assert(lehmer_code@ == before.update(i as int, digit as u8));
        }
        n = n % f;
        i -= 1;
    }
    proof {
        assert(fact(1) == 1);
        assert(n == 0);
    }
    let mut cp = [0u8; 8];
    let mut remaining: Vec<u8> = vec![0, 1, 2, 3, 4, 5, 6, 7];
    let mut k: usize = 8;
    while k > 0
        invariant
            k <= 8,
            remaining@.len() == k,
            lehmer_code[0] == 0,
            forall|q: int| 0 < q < 8 ==> lehmer_code@[q] <= q,
            number == weighted_from(lehmer_code@, 1, 8),
            increasing(remaining@),
            forall|x: int| 0 <= x < k ==> remaining@[x] < 8,
            forall|q: int| k <= q < 8 ==> cp@[q] < 8,
            forall|q: int, t: int| k <= q < 8 && k <= t < 8 && q != t ==> cp@[q] != cp@[t],
            forall|q: int, x: int| k <= q < 8 && 0 <= x < k ==> cp@[q] != remaining@[x],
            forall|q: int|
                k <= q < 8 ==> lehmer_code@[q] == count_greater(remaining@, #[trigger] cp@[q])
                    + count_above_in(cp@, k as int, q, cp@[q]),
        decreases k,
    {
        let i = k - 1;
        let digit = lehmer_code[i];
        let idx = i - digit as usize;
        let ghost old_rem = remaining@;
        let ghost old_cp = cp@;
        let v = remaining.remove(idx);
        cp[i] = v;
        k -= 1;
        proof {
            assert forall|x: int| 0 <= x < k implies remaining@[x] == old_rem[if x < idx {
                x
            } else {
                x + 1
            }] by {}
            assert(cp@ == old_cp.update(i as int, v));
            lemma_count_greater_increasing(old_rem, idx as int);
            lemma_count_greater_remove(old_rem, idx as int, v);
            assert forall|q: int| k <= q < 8 implies lehmer_code@[q] == count_greater(
                remaining@,
                #[trigger] cp@[q],
            ) + count_above_in(cp@, k as int, q, cp@[q]) by {
                if q > i {
                    let w = cp@[q];
                    assert(w == old_cp[q]);
                    lemma_count_greater_remove(old_rem, idx as int, w);
                    lemma_count_above_in_front(cp@, i as int + 1, q, w);
                    lemma_count_above_in_update(old_cp, i as int + 1, q, w, i as int, v);
                } else {
                    assert(count_above_in(cp@, k as int, k as int, v) == 0);
                }
            }
        }
    }
    proof {
        assert forall|q: int| 1 <= q < 8 implies lehmer_digit(cp@, q) == lehmer_code@[q] as nat by {
            assert(count_greater(remaining@, cp@[q]) == 0);
            lemma_count_above_in_start(cp@, q, cp@[q]);
        }
        lemma_rank_is_weighted(cp@, lehmer_code@, 8);
    }
    cp
}

/// The state reached from `s` by applying `moves` in order.
pub open spec fn apply_moves(s: CubeState, moves: Seq<Move>) -> CubeState
    decreases moves.len(),
{
    if moves.len() == 0 {
        s
    } else {
        apply_moves(compose(s, move_state(moves[0])), moves.subrange(1, moves.len() as int))
    }
}

/// `path` followed by a run of moves that takes `from` to the solved state.
pub open spec fn solves_after(r: Seq<Move>, path: Seq<Move>, from: CubeState) -> bool {
    &&& r.len() >= path.len()
    &&& r.subrange(0, path.len() as int) == path
    &&& apply_moves(from, r.subrange(path.len() as int, r.len() as int)) == solved_state()
}

/// The last move of a path, if any.
pub open spec fn last_move(path: Seq<Move>) -> Option<Move> {
    if path.len() > 0 {
        Some(path.last())
    } else {
        None
    }
}

/// `ms` takes `s` to the solved state, never turns the face that the move
/// before it turned (`last` before the first), and `h` never claims more
/// moves than are left along the way.
pub open spec fn good_path<H: Heuristic>(h: H, s: CubeState, ms: Seq<Move>, last: Option<Move>) -> bool
    decreases ms.len(),
{
    if ms.len() == 0 {
        s == solved_state()
    } else {
        &&& h.spec_lower_bound(s) <= ms.len()
        &&& (last matches Some(l) ==> face_of(l) != face_of(ms[0]))
        &&& good_path(h, compose(s, move_state(ms[0])), ms.subrange(1, ms.len() as int), Some(ms[0]))
    }
}

/// No move of `ms` turns the face that the move before it turned.
pub open spec fn no_repeated_face(ms: Seq<Move>) -> bool {
    forall|i: int| 0 < i < ms.len() ==> face_of(#[trigger] ms[i]) != face_of(ms[i - 1])
}

/// `h` never claims more moves than a valid state needs.
pub open spec fn admissible<H: Heuristic>(h: H) -> bool {
    forall|s: CubeState, ms: Seq<Move>|
        #![trigger h.spec_lower_bound(s), apply_moves(s, ms)]
        s.valid() && apply_moves(s, ms) == solved_state() ==> h.spec_lower_bound(s) <= ms.len()
}

/// Applying a first move, then the rest.
pub proof fn lemma_apply_moves_cons(s: CubeState, a: Move, t: Seq<Move>)
    ensures
        apply_moves(s, seq![a] + t) == apply_moves(compose(s, move_state(a)), t),
{
    let x = seq![a] + t;
    assert(x[0] == a);
    assert(x.subrange(1, x.len() as int) =~= t);
}

/// Adding a move of another face at the end keeps a sequence free of
/// repeated faces.
pub proof fn lemma_no_repeat_push(t: Seq<Move>, a: Move)
    requires
        no_repeated_face(t),
        t.len() > 0 ==> face_of(t.last()) != face_of(a),
    ensures
        no_repeated_face(t.push(a)),
{
    let r = t.push(a);
    assert forall|i: int| 0 < i < r.len() implies face_of(#[trigger] r[i]) != face_of(r[i - 1]) by {
        if i == t.len() {
            assert(r[i] == a && r[i - 1] == t.last());
        } else {
            assert(r[i] == t[i] && r[i - 1] == t[i - 1]);
        }
    }
}

/// Putting a move of another face in front keeps a sequence free of
/// repeated faces.
pub proof fn lemma_no_repeat_cons(a: Move, t: Seq<Move>)
    requires
        no_repeated_face(t),
        t.len() > 0 ==> face_of(t[0]) != face_of(a),
    ensures
        no_repeated_face(seq![a] + t),
{
    let r = seq![a] + t;
    assert forall|i: int| 0 < i < r.len() implies face_of(#[trigger] r[i]) != face_of(r[i - 1]) by {
        assert(r[i] == t[i - 1]);
        if i > 1 {
            assert(r[i - 1] == t[i - 2]);
        }
    }
}

/// Dropping the first move keeps a sequence free of repeated faces.
pub proof fn lemma_no_repeat_tail(t: Seq<Move>)
    requires
        no_repeated_face(t),
        t.len() > 0,
    ensures
        no_repeated_face(t.subrange(1, t.len() as int)),
{
    let rest = t.subrange(1, t.len() as int);
    assert forall|i: int| 0 < i < rest.len() implies face_of(#[trigger] rest[i]) != face_of(rest[i - 1]) by {
        assert(rest[i] == t[i + 1] && rest[i - 1] == t[i]);
    }
}

/// Merges move `a` into the front of `t` when both turn the same face.
#[verifier::rlimit(60)]
proof fn lemma_merge_front(s: CubeState, a: Move, t: Seq<Move>) -> (r: Seq<Move>)
    requires
        s.valid(),
        no_repeated_face(t),
        t.len() > 0,
        face_of(t[0]) == face_of(a),
    ensures
        r.len() < t.len() + 1,
        no_repeated_face(r),
        apply_moves(s, r) == apply_moves(compose(s, move_state(a)), t),
{
    let b = t[0];
    let rest = t.subrange(1, t.len() as int);
    assert(t =~= seq![b] + rest);
    lemma_apply_moves_cons(compose(s, move_state(a)), b, rest);
    lemma_merge_turns(s, a, b);
    lemma_no_repeat_tail(t);
    let n = (turns_of(a) + turns_of(b)) % 4;
    if n == 0 {
        rest
    } else {
        let c = face_move(face_of(a), n);
        lemma_face_move_parts(face_of(a), n);
        lemma_apply_moves_cons(s, c, rest);
        if rest.len() > 0 {
            assert(rest[0] == t[1]);
            assert(face_of(t[1]) != face_of(t[0]));
        }
        lemma_no_repeat_cons(c, rest);
        seq![c] + rest
    }
}

/// Any sequence of moves can be shortened to one that never turns the same
/// face twice in a row and reaches the same state.
#[verifier::rlimit(60)]
pub proof fn lemma_remove_repeated_faces(s: CubeState, ms: Seq<Move>) -> (r: Seq<Move>)
    requires
        s.valid(),
    ensures
        r.len() <= ms.len(),
        no_repeated_face(r),
        apply_moves(s, r) == apply_moves(s, ms),
    decreases ms.len(),
{
    if ms.len() == 0 {
        ms
    } else {
        let a = ms[0];
        let next = compose(s, move_state(a));
        lemma_move_valid(a);
        lemma_compose_valid(s, move_state(a));
        let t = lemma_remove_repeated_faces(next, ms.subrange(1, ms.len() as int));
        if t.len() == 0 || face_of(t[0]) != face_of(a) {
            lemma_apply_moves_cons(s, a, t);
            lemma_no_repeat_cons(a, t);
            seq![a] + t
        } else {
            lemma_merge_front(s, a, t)
        }
    }
}

/// A solution that never turns the same face twice in a row (nor the face
/// of `last` first) is a path that an admissible heuristic lets the search
/// follow.
pub proof fn lemma_good_from_solution<H: Heuristic>(h: H, s: CubeState, ms: Seq<Move>, last: Option<Move>)
    requires
        admissible(h),
        s.valid(),
        no_repeated_face(ms),
        last matches Some(l) ==> ms.len() > 0 ==> face_of(l) != face_of(ms[0]),
        apply_moves(s, ms) == solved_state(),
    ensures
        good_path(h, s, ms, last),
    decreases ms.len(),
{
    if ms.len() > 0 {
        let a = ms[0];
        let rest = ms.subrange(1, ms.len() as int);
        assert(h.spec_lower_bound(s) <= ms.len());
        lemma_move_valid(a);
        lemma_compose_valid(s, move_state(a));
        assert forall|i: int| 0 < i < rest.len() implies face_of(#[trigger] rest[i]) != face_of(rest[i - 1]) by {
            assert(rest[i] == ms[i + 1] && rest[i - 1] == ms[i]);
        }
        if rest.len() > 0 {
            assert(rest[0] == ms[1]);
        }
        lemma_good_from_solution(h, compose(s, move_state(a)), rest, Some(a));
    }
}

/// With an admissible heuristic, a state that no path the search follows
/// solves in fewer than `len` moves has no solution of fewer than `len`
/// moves at all.
pub proof fn lemma_search_optimal<H: Heuristic>(h: H, s: CubeState, len: nat, ms: Seq<Move>)
    requires
        admissible(h),
        s.valid(),
        forall|x: Seq<Move>| x.len() < len ==> !#[trigger] good_path(h, s, x, None),
        apply_moves(s, ms) == solved_state(),
    ensures
        ms.len() >= len,
{
    let r = lemma_remove_repeated_faces(s, ms);
    lemma_good_from_solution(h, s, r, None);
}

/// The zero bound is admissible.
pub proof fn lemma_zero_bound_admissible()
    ensures
        admissible(ZeroBound),
{
}

/// A solution after `path` followed by `m`, from the state after `m`, is a
/// solution after `path` from the state before it.
proof fn lemma_solution_extends(found: Seq<Move>, path: Seq<Move>, m: Move, s: CubeState)
    requires
        solves_after(found, path.push(m), compose(s, move_state(m))),
    ensures
        solves_after(found, path, s),
{
    let n = path.len() as int;
    let pv = path.push(m);
    let rest = found.subrange(n, found.len() as int);
    assert(found.subrange(0, n) =~= path) by {
        assert(found.subrange(0, n) =~= pv.subrange(0, n));
    }
    assert(rest[0] == m) by {
        assert(found.subrange(0, n + 1)[n] == pv[n]);
    }
    assert(rest.subrange(1, rest.len() as int) =~= found.subrange(n + 1, found.len() as int));
}

/// Depth-first search below a node at `depth` moves from the root, whose
/// state is `puzzle` and whose moves so far are `path`. At `max_depth` it
/// succeeds only on the solved state; above that it gives up where
/// `depth` plus the heuristic's bound exceeds `max_depth`, and otherwise
/// tries each move in the fixed order, skipping a move that turns the same
/// face as the last one. `nodes` counts the inner nodes and the leaves
/// visited.
#[verifier::rlimit(80)]
pub fn dfs<H: Heuristic>(
    depth: u8,
    path: Vec<Move>,
    max_depth: u8,
    puzzle: Cube,
    nodes: &mut (u64, u64),
    h: &H,
) -> (r: Option<Vec<Move>>)
    requires
        puzzle.valid(),
        h.wf(),
    ensures
        r matches Some(p) ==> solves_after(p@, path@, puzzle@),
        r matches Some(p) ==> depth <= max_depth ==> p@.len() == path@.len() + (max_depth - depth),
        depth >= max_depth ==> (r is Some <==> puzzle@ == solved_state()),
        depth >= max_depth ==> (r matches Some(p) ==> p@ == path@),
        r is None ==> depth <= max_depth ==> forall|ms: Seq<Move>|
            ms.len() == max_depth - depth ==> !#[trigger] good_path(*h, puzzle@, ms, last_move(path@)),
        no_repeated_face(path@) ==> (r matches Some(p) ==> no_repeated_face(p@)),
        final(nodes).0 >= old(nodes).0,
        final(nodes).1 >= old(nodes).1,
    decreases max_depth - depth,
{
    if depth >= max_depth {
        if nodes.1 < u64::MAX {
            nodes.1 = nodes.1 + 1;
        }
        if puzzle.is_solved() {
            proof {
                assert(path@.subrange(0, path@.len() as int) =~= path@);
                assert(path@.subrange(path@.len() as int, path@.len() as int) =~= Seq::<Move>::empty());
            }
            Some(path)
        } else {
            None
        }
    } else if depth as u16 + h.lower_bound(&puzzle) as u16 > max_depth as u16 {
        None
    } else {
        let ghost last = last_move(path@);
        if nodes.0 < u64::MAX {
            nodes.0 = nodes.0 + 1;
        }
        let n = path.len();
        let mut k: usize = 0;
        while k < 18
            invariant
                depth < max_depth,
                puzzle.valid(),
                h.wf(),
                n == path@.len(),
                nodes.0 >= old(nodes).0,
                nodes.1 >= old(nodes).1,
                k <= 18,
                last == last_move(path@),
                forall|ms: Seq<Move>|
                    ms.len() == max_depth - depth && #[trigger] good_path(*h, puzzle@, ms, last)
                        ==> move_index(ms[0]) >= k,
            decreases 18 - k,
        {
            let m = Move::nth(k);
            if n == 0 || !path[n - 1].redundant(m) {
                let mut p = path.clone();
                proof {
                    assert(p@ =~= path@);
                }
                p.push(m);
                let cube = m.to_cube();
                let next = puzzle.apply(&cube);
                proof {
                    crate::cube::lemma_compose_valid(puzzle@, cube@);
                }
                let ghost pv = p@;
                proof {
                    assert(last_move(pv) == Some(m));
                    if no_repeated_face(path@) {
                        lemma_no_repeat_push(path@, m);
                    }
                }
                match dfs(depth + 1, p, max_depth, next, nodes, h) {
                    Some(found) => {
                        proof {
                            lemma_solution_extends(found@, path@, m, puzzle@);
                        }
                        return Some(found);
                    },
                    None => {
                        proof {
                            assert forall|ms: Seq<Move>|
                                ms.len() == max_depth - depth && #[trigger] good_path(*h, puzzle@, ms, last)
                                    implies move_index(ms[0]) >= k + 1 by {
                                if move_index(ms[0]) == k {
                                    lemma_move_index_injective(ms[0], m);
                                    let rest = ms.subrange(1, ms.len() as int);
                                    assert(good_path(*h, next@, rest, Some(m)));
                                    assert(rest.len() == max_depth - (depth + 1));
                                }
                            }
                        }
                    },
                }
            } else {
                proof {
                    assert forall|ms: Seq<Move>|
                        ms.len() == max_depth - depth && #[trigger] good_path(*h, puzzle@, ms, last)
                            implies move_index(ms[0]) >= k + 1 by {
                        if move_index(ms[0]) == k {
                            lemma_move_index_injective(ms[0], m);
                        }
                    }
                }
            }
            k += 1;
        }
        proof {
            assert forall|ms: Seq<Move>| ms.len() == max_depth - depth implies !#[trigger] good_path(
                *h,
                puzzle@,
                ms,
                last,
            ) by {
                lemma_move_index_bound(ms[0]);
            }
        }
        None
    }
}

/// Iterative deepening: a depth-first search with each depth limit from 0
/// to `max_depth` in turn, until one finds a solution. Also returns, for
/// each depth limit tried, the inner nodes and the leaves that its search
/// visited.
#[verifier::rlimit(80)]
pub fn ida_with_counts<H: Heuristic>(puzzle: Cube, max_depth: u8, h: &H) -> (r: (
    Option<Vec<Move>>,
    Vec<(u64, u64)>,
))
    requires
        puzzle.valid(),
        h.wf(),
    ensures
        r.0 matches Some(p) ==> p@.len() <= max_depth && apply_moves(puzzle@, p@) == solved_state(),
        puzzle@ == solved_state() ==> (r.0 matches Some(p) && p@.len() == 0),
        r.0 matches Some(p) ==> forall|ms: Seq<Move>|
            ms.len() < p@.len() ==> !#[trigger] good_path(*h, puzzle@, ms, None),
        r.0 is None ==> forall|ms: Seq<Move>|
            ms.len() <= max_depth ==> !#[trigger] good_path(*h, puzzle@, ms, None),
        admissible(*h) ==> (r.0 matches Some(p) ==> forall|ms: Seq<Move>|
            #[trigger] apply_moves(puzzle@, ms) == solved_state() ==> ms.len() >= p@.len()),
        admissible(*h) ==> (r.0 is None ==> forall|ms: Seq<Move>|
            #[trigger] apply_moves(puzzle@, ms) == solved_state() ==> ms.len() > max_depth),
        r.0 matches Some(p) ==> r.1@.len() == p@.len() + 1,
        r.0 is None ==> r.1@.len() == max_depth + 1,
{
    let mut counts: Vec<(u64, u64)> = Vec::new();
    let mut depth: u8 = 0;
    loop
        invariant
            depth <= max_depth,
            counts@.len() == depth,
            puzzle.valid(),
            h.wf(),
            depth > 0 ==> puzzle@ != solved_state(),
            forall|ms: Seq<Move>| ms.len() < depth ==> !#[trigger] good_path(*h, puzzle@, ms, None),
        decreases max_depth - depth,
    {
        let empty: Vec<Move> = Vec::new();
        proof {
            assert(last_move(empty@) == None::<Move>);
        }
        let mut nodes: (u64, u64) = (0, 0);
        let path = dfs(0, empty, depth, puzzle, &mut nodes, h);
        counts.push(nodes);
        match path {
            Some(p) => {
                proof {
                    assert(p@.subrange(0, p@.len() as int) =~= p@);
                    if admissible(*h) {
                        assert forall|ms: Seq<Move>| #[trigger] apply_moves(puzzle@, ms) == solved_state()
                            implies ms.len() >= p@.len() by {
                            lemma_search_optimal(*h, puzzle@, p@.len(), ms);
                        }
                    }
                }
                return (Some(p), counts);
            },
            None => {},
        }
        if depth == max_depth {
            proof {
                if admissible(*h) {
                    assert forall|ms: Seq<Move>| #[trigger] apply_moves(puzzle@, ms) == solved_state()
                        implies ms.len() > max_depth by {
                        lemma_search_optimal(*h, puzzle@, (max_depth + 1) as nat, ms);
                    }
                }
            }
            return (None, counts);
        }
        depth += 1;
    }
}


/// Iterative deepening: a depth-first search with each depth limit from 0
/// to `max_depth` in turn, until one finds a solution.
pub fn ida<H: Heuristic>(puzzle: Cube, max_depth: u8, h: &H) -> (r: Option<Vec<Move>>)
    requires
        puzzle.valid(),
        h.wf(),
    ensures
        r matches Some(p) ==> p@.len() <= max_depth && apply_moves(puzzle@, p@) == solved_state(),
        puzzle@ == solved_state() ==> (r matches Some(p) && p@.len() == 0),
        r matches Some(p) ==> forall|ms: Seq<Move>|
            ms.len() < p@.len() ==> !#[trigger] good_path(*h, puzzle@, ms, None),
        r is None ==> forall|ms: Seq<Move>|
            ms.len() <= max_depth ==> !#[trigger] good_path(*h, puzzle@, ms, None),
        admissible(*h) ==> (r matches Some(p) ==> forall|ms: Seq<Move>|
            #[trigger] apply_moves(puzzle@, ms) == solved_state() ==> ms.len() >= p@.len()),
        admissible(*h) ==> (r is None ==> forall|ms: Seq<Move>|
            #[trigger] apply_moves(puzzle@, ms) == solved_state() ==> ms.len() > max_depth),
{
    ida_with_counts(puzzle, max_depth, h).0
}

} // verus!
