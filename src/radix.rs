//! Numbers written as digit sequences, most significant digit first.
use vstd::arithmetic::power::pow;
use vstd::prelude::*;

verus! {

/// The value of the digits `s` in base `b`, most significant first.
pub open spec fn horner(s: Seq<u8>, b: nat) -> nat
    decreases s.len(),
{
    if s.len() == 0 {
        0
    } else {
        horner(s.drop_last(), b) * b + s.last() as nat
    }
}

/// Every digit of `s` is below `b`.
pub open spec fn digits_below(s: Seq<u8>, b: nat) -> bool {
    forall|i: int| 0 <= i < s.len() ==> (s[i] as nat) < b
}

/// The sum of the entries of `s`.
pub open spec fn sum_of(s: Seq<u8>) -> nat
    decreases s.len(),
{
    if s.len() == 0 {
        0
    } else {
        sum_of(s.drop_last()) + s.last() as nat
    }
}

/// A number with `n` digits below `b` is below `b^n`.
pub proof fn lemma_horner_bound(s: Seq<u8>, b: nat)
    requires
        digits_below(s, b),
    ensures
        horner(s, b) < pow(b as int, s.len()),
    decreases s.len(),
{
    reveal(pow);
    if s.len() > 0 {
        let t = s.drop_last();
        assert(digits_below(t, b));
        lemma_horner_bound(t, b);
        let h = horner(t, b) as int;
        let p = pow(b as int, t.len());
        let d = s.last() as int;
        assert(d < b);
        assert(h * b + d < b * p) by (nonlinear_arith)
            requires
                h < p,
                d < b,
                0 <= h,
        ;
    }
}

/// Putting a digit in front adds it times `b` to the power of the length.
pub proof fn lemma_horner_prepend(d: u8, s: Seq<u8>, b: nat)
    ensures
        horner(seq![d] + s, b) == d * pow(b as int, s.len()) + horner(s, b),
    decreases s.len(),
{
    reveal(pow);
    if s.len() == 0 {
        let t = seq![d] + s;
        assert(t.drop_last() =~= Seq::<u8>::empty());
        assert(t.last() == d);
        assert(horner(Seq::<u8>::empty(), b) == 0);
        assert(horner(t, b) == horner(t.drop_last(), b) * b + t.last() as nat);
        assert(pow(b as int, 0) == 1);
        assert(d * pow(b as int, 0) == d);
    } else {
        let t = s.drop_last();
        assert((seq![d] + s).drop_last() =~= seq![d] + t);
        assert((seq![d] + s).last() == s.last());
        lemma_horner_prepend(d, t, b);
        let p = pow(b as int, t.len());
        assert(pow(b as int, s.len()) == b * p);
        let h = horner(t, b) as int;
        let x = s.last() as int;
        assert((d * p + h) * b + x == d * (b * p) + (h * b + x)) by (nonlinear_arith);
        assert(horner(seq![d] + s, b) == horner(seq![d] + t, b) * b + x);
        assert(horner(s, b) == h * b + x);
    }
}

/// Digits `lo..hi` of `s` as one number.
pub open spec fn digits_value(s: Seq<u8>, lo: int, hi: int, b: nat) -> nat {
    horner(s.subrange(lo, hi), b)
}

/// Adding the next digit after a prefix.
pub proof fn lemma_digits_extend(s: Seq<u8>, lo: int, hi: int, b: nat)
    requires
        0 <= lo <= hi < s.len(),
    ensures
        digits_value(s, lo, hi + 1, b) == digits_value(s, lo, hi, b) * b + s[hi] as nat,
{
    assert(s.subrange(lo, hi + 1).drop_last() =~= s.subrange(lo, hi));
}

/// Adding a digit in front of a range.
pub proof fn lemma_digits_front(s: Seq<u8>, lo: int, hi: int, b: nat)
    requires
        0 < lo <= hi <= s.len(),
    ensures
        digits_value(s, lo - 1, hi, b) == s[lo - 1] * pow(b as int, (hi - lo) as nat)
            + digits_value(s, lo, hi, b),
{
    assert(s.subrange(lo - 1, hi) =~= seq![s[lo - 1]] + s.subrange(lo, hi));
    lemma_horner_prepend(s[lo - 1], s.subrange(lo, hi), b);
}

/// Reads digits `lo..hi` of `a` as a number in base `b`.
pub fn read_digits<const N: usize>(a: &[u8; N], lo: usize, hi: usize, b: usize) -> (r: usize)
    requires
        lo <= hi <= N,
        2 <= b,
        digits_below(a@.subrange(lo as int, hi as int), b as nat),
        pow(b as int, (hi - lo) as nat) <= usize::MAX,
    ensures
        r == digits_value(a@, lo as int, hi as int, b as nat),
        r < pow(b as int, (hi - lo) as nat),
{
    let mut acc: usize = 0;
    let mut i: usize = lo;
    while i < hi
        invariant
            lo <= i <= hi <= N,
            2 <= b,
            digits_below(a@.subrange(lo as int, hi as int), b as nat),
            pow(b as int, (hi - lo) as nat) <= usize::MAX,
            acc == digits_value(a@, lo as int, i as int, b as nat),
        decreases hi - i,
    {
        proof {
            let sub = a@.subrange(lo as int, i as int + 1);
            let full = a@.subrange(lo as int, hi as int);
            assert forall|k: int| 0 <= k < sub.len() implies (#[trigger] sub[k] as nat) < b by {
                assert(sub[k] == full[k]);
            }
            lemma_horner_bound(a@.subrange(lo as int, i as int + 1), b as nat);
            lemma_digits_extend(a@, lo as int, i as int, b as nat);
            vstd::arithmetic::power::lemma_pow_increases(b as nat, (i + 1 - lo) as nat, (hi - lo) as nat);
            assert(a@.subrange(lo as int, hi as int)[i - lo] == a[i as int]);
        }
        acc = acc * b + a[i] as usize;
        i += 1;
    }
    proof {
        lemma_horner_bound(a@.subrange(lo as int, hi as int), b as nat);
    }
    acc
}

/// Writes `n` into positions `lo..hi` of `a` as digits in base `b`,
/// leaving the other positions as they were.
pub fn write_digits<const N: usize>(a: &mut [u8; N], lo: usize, hi: usize, b: usize, n: usize)
    requires
        lo <= hi <= N,
        2 <= b <= 256,
        n < pow(b as int, (hi - lo) as nat),
    ensures
        digits_value(final(a)@, lo as int, hi as int, b as nat) == n,
        digits_below(final(a)@.subrange(lo as int, hi as int), b as nat),
        forall|k: int| 0 <= k < N && !(lo <= k < hi) ==> final(a)@[k] == old(a)@[k],
{
    let mut m: usize = n;
    let mut i: usize = hi;
    proof {
        reveal(pow);
        assert(a@.subrange(hi as int, hi as int) =~= Seq::<u8>::empty());
    }
    while i > lo
        invariant
            lo <= i <= hi <= N,
            2 <= b <= 256,
            n == m * pow(b as int, (hi - i) as nat) + digits_value(a@, i as int, hi as int, b as nat),
            digits_below(a@.subrange(i as int, hi as int), b as nat),
            forall|k: int| 0 <= k < N && !(i <= k < hi) ==> a@[k] == old(a)@[k],
        decreases i,
    {
        let d = m % b;
        let ghost m0 = m;
        let ghost prev = a@;
        a[i - 1] = d as u8;
        proof {
            assert(a@.subrange(i as int, hi as int) =~= prev.subrange(i as int, hi as int));
            assert(d < b);
        }
        m = m / b;
        i -= 1;
        proof {
            reveal(pow);
            lemma_digits_front(a@, i as int + 1, hi as int, b as nat);
            let p = pow(b as int, (hi - i - 1) as nat);
            assert(pow(b as int, (hi - i) as nat) == b * p);
            assert(m0 == m * b + d) by (nonlinear_arith)
                requires
                    m == m0 / b,
                    d == m0 % b,
                    b > 0,
            ;
            assert(m0 * p == m * (b * p) + d * p) by (nonlinear_arith)
                requires
                    m0 == m * b + d,
            ;
            let sub = a@.subrange(i as int, hi as int);
            let rest = a@.subrange(i as int + 1, hi as int);
            assert forall|k: int| 0 <= k < sub.len() implies (#[trigger] sub[k] as nat) < b by {
                if k > 0 {
                    assert(sub[k] == rest[k - 1]);
                    assert(rest[k - 1] == prev.subrange(i as int + 1, hi as int)[k - 1]);
                } else {
                    assert(sub[k] == d);
                }
            }
        }
    }
    proof {
        let p = pow(b as int, (hi - lo) as nat);
        lemma_horner_bound(a@.subrange(lo as int, hi as int), b as nat);
        if m > 0 {
            assert(m * p >= p) by (nonlinear_arith)
                requires
                    m > 0,
                    p > 0,
            ;
        }
        vstd::arithmetic::power::lemma_pow_positive(b as int, (hi - lo) as nat);
    }
}

/// `n!`.
pub open spec fn fact(n: nat) -> nat
    decreases n,
{
    if n == 0 {
        1
    } else {
        n * fact((n - 1) as nat)
    }
}

/// Factorials are positive and grow with their argument.
pub proof fn lemma_fact_mono(a: nat, b: nat)
    requires
        a <= b,
    ensures
        1 <= fact(a) <= fact(b),
    decreases b,
{
    if b > 0 {
        lemma_fact_mono(if a < b {
            a
        } else {
            0
        }, (b - 1) as nat);
        assert(fact((b - 1) as nat) <= b * fact((b - 1) as nat)) by (nonlinear_arith)
            requires
                b >= 1,
        ;
    }
}

/// The factorials up to `12!`.
pub proof fn lemma_fact_values()
    ensures
        fact(0) == 1,
        fact(1) == 1,
        fact(2) == 2,
        fact(3) == 6,
        fact(4) == 24,
        fact(5) == 120,
        fact(6) == 720,
        fact(7) == 5040,
        fact(8) == 40320,
        fact(9) == 362880,
        fact(10) == 3628800,
        fact(11) == 39916800,
        fact(12) == 479001600,
{
    assert(fact(0) == 1);
    assert(fact(1) == 1);
    assert(fact(2) == 2);
    assert(fact(3) == 6);
    assert(fact(4) == 24);
    assert(fact(5) == 120);
    assert(fact(6) == 720);
    assert(fact(7) == 5040);
    assert(fact(8) == 40320);
    assert(fact(9) == 362880);
    assert(fact(10) == 3628800);
    assert(fact(11) == 39916800);
    assert(fact(12) == 479001600);
}

/// How many of the first `n` entries of `p` are above `v`.
pub open spec fn count_above(p: Seq<u8>, n: int, v: u8) -> nat
    decreases n,
{
    if n <= 0 {
        0
    } else {
        count_above(p, n - 1, v) + (if p[n - 1] > v {
            1nat
        } else {
            0nat
        })
    }
}

/// The `i`-th Lehmer digit of `p`: how many earlier entries are larger.
pub open spec fn lehmer_digit(p: Seq<u8>, i: int) -> nat {
    count_above(p, i, p[i])
}

/// The Lehmer rank of the first `n` entries of `p`: the sum over
/// `1 <= i < n` of the `i`-th Lehmer digit times `i!`.
pub open spec fn lehmer_rank(p: Seq<u8>, n: int) -> nat
    decreases n,
{
    if n <= 1 {
        0
    } else {
        lehmer_rank(p, n - 1) + lehmer_digit(p, n - 1) * fact((n - 1) as nat)
    }
}

/// A count over `n` entries is at most `n`.
pub proof fn lemma_count_above_le(p: Seq<u8>, n: int, v: u8)
    requires
        0 <= n,
    ensures
        count_above(p, n, v) <= n,
    decreases n,
{
    if n > 0 {
        lemma_count_above_le(p, n - 1, v);
    }
}

/// Counts how many of `a[lo..lo + i]` are above `a[lo + i]`.
fn count_larger_before<const N: usize>(a: &[u8; N], lo: usize, i: usize) -> (r: usize)
    requires
        lo + i < N,
    ensures
        r == lehmer_digit(a@.subrange(lo as int, N as int), i as int),
        r <= i,
{
    let ghost w = a@.subrange(lo as int, N as int);
    let v = a[lo + i];
    let mut s: usize = 0;
    let mut j: usize = 0;
    while j < i
        invariant
            j <= i,
            lo + i < N,
            w == a@.subrange(lo as int, N as int),
            v == w[i as int],
            s == count_above(w, j as int, v),
            s <= j,
        decreases i - j,
    {
        if a[lo + j] > v {
            s += 1;
        }
        j += 1;
    }
    s
}

/// The Lehmer rank of `a[lo..lo + n]`.
pub fn read_lehmer<const N: usize>(a: &[u8; N], lo: usize, n: usize) -> (r: usize)
    requires
        lo + n <= N,
        n <= 12,
    ensures
        r == lehmer_rank(a@.subrange(lo as int, N as int), n as int),
        r < fact(n as nat),
{
    let ghost w = a@.subrange(lo as int, N as int);
    if n == 0 {
        return 0;
    }
    let mut x: usize = 0;
    let mut f: usize = 1;
    let mut i: usize = 1;
    proof {
        reveal_with_fuel(fact, 2);
    }
    while i < n
        invariant
            1 <= i <= n <= 12,
            lo + n <= N,
            w == a@.subrange(lo as int, N as int),
            x == lehmer_rank(w, i as int),
            f == fact((i - 1) as nat),
            x < fact(i as nat),
        decreases n - i,
    {
        let s = count_larger_before(a, lo, i);
        proof {
            lemma_fact_mono(i as nat, 12);
            lemma_fact_mono((i + 1) as nat, 12);
            lemma_fact_values();
            assert(fact(i as nat) == i * fact((i - 1) as nat));
            assert(fact((i + 1) as nat) == (i + 1) * fact(i as nat));
            let fi = fact(i as nat) as int;
            let fp = fact((i - 1) as nat) as int;
            assert((f as int) * (i as int) == fi) by (nonlinear_arith)
                requires
                    f == fp,
                    fi == i * fp,
            ;
            assert(x + s * fi < (i + 1) * fi) by (nonlinear_arith)
                requires
                    x < fi,
                    s <= i,
            ;
        }
        f = f * i;
        x = x + s * f;
        i += 1;
    }
    x
}

/// The powers that the coordinates use.
pub proof fn lemma_pow_values()
    ensures
        pow(3, 7) == 2187,
        pow(2, 7) == 128,
        pow(2, 11) == 2048,
        pow(2, 12) == 4096,
{
    reveal(pow);
    assert(pow(3, 0) == 1);
    assert(pow(3, 1) == 3);
    assert(pow(3, 2) == 9);
    assert(pow(3, 3) == 27);
    assert(pow(3, 4) == 81);
    assert(pow(3, 5) == 243);
    assert(pow(3, 6) == 729);
    assert(pow(3, 7) == 2187);
    assert(pow(2, 0) == 1);
    assert(pow(2, 1) == 2);
    assert(pow(2, 2) == 4);
    assert(pow(2, 3) == 8);
    assert(pow(2, 4) == 16);
    assert(pow(2, 5) == 32);
    assert(pow(2, 6) == 64);
    assert(pow(2, 7) == 128);
    assert(pow(2, 8) == 256);
    assert(pow(2, 9) == 512);
    assert(pow(2, 10) == 1024);
    assert(pow(2, 11) == 2048);
    assert(pow(2, 12) == 4096);
}

/// The sum of `a[0..n]`.
pub fn sum_prefix<const N: usize>(a: &[u8; N], n: usize) -> (r: usize)
    requires
        n <= N,
        n <= 16,
    ensures
        r == sum_of(a@.subrange(0, n as int)),
        r <= 255 * n,
{
    let mut acc: usize = 0;
    let mut i: usize = 0;
    while i < n
        invariant
            i <= n <= N,
            n <= 16,
            acc == sum_of(a@.subrange(0, i as int)),
            acc <= 255 * i,
        decreases n - i,
    {
        proof {
            assert(a@.subrange(0, i as int + 1).drop_last() =~= a@.subrange(0, i as int));
        }
        acc = acc + a[i] as usize;
        i += 1;
    }
    acc
}

/// The number of ways to choose `k` things out of `n`, by Pascal's rule.
pub open spec fn binom(n: nat, k: nat) -> nat
    decreases n,
{
    if k == 0 {
        1
    } else if n == 0 {
        0
    } else {
        binom((n - 1) as nat, (k - 1) as nat) + binom((n - 1) as nat, k)
    }
}

/// There is no way to choose more things than there are.
pub proof fn lemma_binom_above(n: nat, k: nat)
    requires
        k > n,
    ensures
        binom(n, k) == 0,
    decreases n,
{
    if n > 0 {
        lemma_binom_above((n - 1) as nat, (k - 1) as nat);
        lemma_binom_above((n - 1) as nat, k);
    }
}

/// Choosing from more things gives at least as many ways.
pub proof fn lemma_binom_grows(n: nat, k: nat)
    ensures
        binom(n, k) <= binom(n + 1, k),
{
}

/// Choosing from `m` things gives at least as many ways as from `n <= m`.
pub proof fn lemma_binom_mono(n: nat, m: nat, k: nat)
    requires
        n <= m,
    ensures
        binom(n, k) <= binom(m, k),
    decreases m - n,
{
    if n < m {
        lemma_binom_mono(n, (m - 1) as nat, k);
        lemma_binom_grows((m - 1) as nat, k);
    }
}

/// There is one way to choose everything.
pub proof fn lemma_binom_all(n: nat)
    ensures
        binom(n, n) == 1,
    decreases n,
{
    if n > 0 {
        lemma_binom_all((n - 1) as nat);
        lemma_binom_above((n - 1) as nat, n);
    }
}

/// `C(n, k) * k! * (n - k)! == n!` for `k <= n`.
pub proof fn lemma_binom_fact(n: nat, k: nat)
    requires
        k <= n,
    ensures
        binom(n, k) * fact(k) * fact((n - k) as nat) == fact(n),
        binom(n, k) >= 1,
    decreases n,
{
    if n == 0 {
        assert(binom(0, 0) == 1 && fact(0) == 1);
    } else if k == 0 {
        assert(binom(n, k) == 1);
        assert(fact(k) == 1);
        assert((n - k) as nat == n);
        let f = fact(n) as int;
        assert(1 * 1 * f == f);
    } else if k == n {
        lemma_binom_all(n);
        assert(fact(0) == 1);
        assert((n - k) as nat == 0);
        let f = fact(n) as int;
        assert(1 * f * 1 == f);
    } else {
        lemma_binom_fact((n - 1) as nat, (k - 1) as nat);
        lemma_binom_fact((n - 1) as nat, k);
        let a = binom((n - 1) as nat, (k - 1) as nat) as int;
        let b = binom((n - 1) as nat, k) as int;
        let fk = fact(k) as int;
        let fk1 = fact((k - 1) as nat) as int;
        let fnk = fact((n - k) as nat) as int;
        let fnk1 = fact((n - k - 1) as nat) as int;
        let fn1 = fact((n - 1) as nat) as int;
        assert(fk == k * fk1);
        assert(fnk == (n - k) * fnk1);
        assert(fact(n) == n * fn1);
        assert(((n - 1) - (k - 1)) as nat == (n - k) as nat);
        assert(a * fk1 * fnk == fn1);
        assert(b * fk * fnk1 == fn1);
        assert((a + b) * fk * fnk == n * fn1) by (nonlinear_arith)
            requires
                fk == k * fk1,
                fnk == (n - k) * fnk1,
                a * fk1 * fnk == fn1,
                b * fk * fnk1 == fn1,
                0 < k < n,
        ;
    }
}

/// How many of the values `0..x` occur in `w`.
pub open spec fn count_members(w: Seq<u8>, x: nat) -> nat
    decreases x,
{
    if x == 0 {
        0
    } else {
        count_members(w, (x - 1) as nat) + (if w.contains((x - 1) as u8) {
            1nat
        } else {
            0nat
        })
    }
}

/// The combinadic index of the values of `w` below `x`: with those values
/// in increasing order `c_0 < c_1 < ...`, the sum of `C(c_j, j + 1)`.
pub open spec fn combo(w: Seq<u8>, x: nat) -> nat
    decreases x,
{
    if x == 0 {
        0
    } else {
        combo(w, (x - 1) as nat) + (if w.contains((x - 1) as u8) {
            binom((x - 1) as nat, count_members(w, (x - 1) as nat) + 1)
        } else {
            0nat
        })
    }
}

/// The combinadic index of `j` values below `x` is below `C(x, j)`.
pub proof fn lemma_combo_bound(w: Seq<u8>, x: nat)
    ensures
        combo(w, x) + 1 <= binom(x, count_members(w, x)),
    decreases x,
{
    if x > 0 {
        let c = count_members(w, (x - 1) as nat);
        lemma_combo_bound(w, (x - 1) as nat);
        lemma_binom_grows((x - 1) as nat, c);
    }
}

/// How many entries of `w` are below `x`.
pub open spec fn count_below(w: Seq<u8>, x: nat) -> nat
    decreases w.len(),
{
    if w.len() == 0 {
        0
    } else {
        count_below(w.drop_last(), x) + (if (w.last() as nat) < x {
            1nat
        } else {
            0nat
        })
    }
}

/// Raising the limit by one counts the entries equal to the old limit.
pub proof fn lemma_count_below_step(w: Seq<u8>, x: u8)
    requires
        w.no_duplicates(),
    ensures
        count_below(w, x as nat + 1) == count_below(w, x as nat) + (if w.contains(x) {
            1nat
        } else {
            0nat
        }),
    decreases w.len(),
{
    if w.len() > 0 {
        let t = w.drop_last();
        let l = w.last();
        assert(t.no_duplicates());
        lemma_count_below_step(t, x);
        if w.contains(x) {
            let i = choose|i: int| 0 <= i < w.len() && w[i] == x;
            if l != x {
                assert(t[i] == x);
            }
        }
        if t.contains(x) {
            let i = choose|i: int| 0 <= i < t.len() && t[i] == x;
            assert(w[i] == x);
            if l == x {
                assert(w[i] == w[w.len() - 1]);
            }
        }
        if l == x {
            assert(w[w.len() - 1] == x);
        }
    }
}

/// For distinct values, counting members and counting entries agree.
pub proof fn lemma_count_members_below(w: Seq<u8>, x: nat)
    requires
        w.no_duplicates(),
        x <= 256,
    ensures
        count_members(w, x) == count_below(w, x),
    decreases x,
{
    if x == 0 {
        lemma_count_below_zero(w);
    } else {
        lemma_count_members_below(w, (x - 1) as nat);
        lemma_count_below_step(w, (x - 1) as u8);
    }
}

/// No entry is below zero.
pub proof fn lemma_count_below_zero(w: Seq<u8>)
    ensures
        count_below(w, 0) == 0,
    decreases w.len(),
{
    if w.len() > 0 {
        lemma_count_below_zero(w.drop_last());
    }
}

/// Every entry is below a bound above all of them.
pub proof fn lemma_count_below_all(w: Seq<u8>, x: nat)
    requires
        forall|i: int| 0 <= i < w.len() ==> (w[i] as nat) < x,
    ensures
        count_below(w, x) == w.len(),
    decreases w.len(),
{
    if w.len() > 0 {
        lemma_count_below_all(w.drop_last(), x);
    }
}

/// `n` distinct values below 12 make a combinadic index below `C(12, n)`.
pub proof fn lemma_combo_below_max(w: Seq<u8>)
    requires
        w.no_duplicates(),
        forall|i: int| 0 <= i < w.len() ==> w[i] < 12,
    ensures
        count_members(w, 12) == w.len(),
        combo(w, 12) < binom(12, w.len()),
{
    lemma_count_members_below(w, 12);
    lemma_count_below_all(w, 12);
    lemma_combo_bound(w, 12);
}

/// Whether `v` is among `a[lo..lo + n]`.
pub fn window_contains<const N: usize>(a: &[u8; N], lo: usize, n: usize, v: u8) -> (r: bool)
    requires
        lo + n <= N,
    ensures
        r == a@.subrange(lo as int, lo + n).contains(v),
{
    let ghost w = a@.subrange(lo as int, lo + n);
    let mut i: usize = 0;
    while i < n
        invariant
            i <= n,
            lo + n <= N,
            w == a@.subrange(lo as int, lo + n),
            forall|k: int| 0 <= k < i ==> w[k] != v,
        decreases n - i,
    {
        if a[lo + i] == v {
            proof {
                assert(w[i as int] == v);
            }
            return true;
        }
        i += 1;
    }
    false
}

/// At most `x` of the values `0..x` occur.
pub proof fn lemma_count_members_le(w: Seq<u8>, x: nat)
    ensures
        count_members(w, x) <= x,
    decreases x,
{
    if x > 0 {
        lemma_count_members_le(w, (x - 1) as nat);
    }
}

/// If all of `0..x` are counted, each of them occurs.
pub proof fn lemma_count_members_full(w: Seq<u8>, x: nat)
    requires
        count_members(w, x) == x,
    ensures
        forall|v: u8| (v as nat) < x ==> #[trigger] w.contains(v),
    decreases x,
{
    if x > 0 {
        lemma_count_members_le(w, (x - 1) as nat);
        lemma_count_members_full(w, (x - 1) as nat);
    }
}

/// `C(n, k) <= n!`.
pub proof fn lemma_binom_le_fact(n: nat, k: nat)
    ensures
        binom(n, k) <= fact(n),
{
    lemma_fact_mono(0, n);
    if k <= n {
        lemma_binom_fact(n, k);
        lemma_fact_mono(0, k);
        lemma_fact_mono(0, (n - k) as nat);
        let b = binom(n, k) as int;
        let f1 = fact(k) as int;
        let f2 = fact((n - k) as nat) as int;
        assert(b <= b * f1 * f2) by (nonlinear_arith)
            requires
                f1 >= 1,
                f2 >= 1,
                b >= 0,
        ;
    } else {
        lemma_binom_above(n, k);
    }
}

/// `k! * C(12, k) * (12 - k)! == 12!`, so `k! * C(12, k)` is at most
/// `12! / (12 - k)!`.
pub proof fn lemma_arrangements_bound(k: nat)
    requires
        k <= 12,
    ensures
        fact(k) * binom(12, k) <= 479001600,
        k <= 7 ==> fact(k) * binom(12, k) <= 3991680,
        fact(k) * binom(12, k) >= 1,
{
    lemma_binom_fact(12, k);
    lemma_fact_values();
    lemma_fact_mono(0, k);
    lemma_fact_mono(0, (12 - k) as nat);
    let x = (fact(k) * binom(12, k)) as int;
    let f = fact((12 - k) as nat) as int;
    assert(x * f == 479001600) by (nonlinear_arith)
        requires
            binom(12, k) * fact(k) * f == 479001600,
            x == fact(k) * binom(12, k),
    ;
    assert(x <= 479001600) by (nonlinear_arith)
        requires
            x * f == 479001600,
            f >= 1,
    ;
    if k <= 7 {
        lemma_fact_mono(5, (12 - k) as nat);
        assert(x <= 3991680) by (nonlinear_arith)
            requires
                x * f == 479001600,
                f >= 120,
        ;
    }
    assert(x >= 1) by (nonlinear_arith)
        requires
            x * f == 479001600,
            x >= 0,
    ;
}

/// `sum of d[j] * j!` over `lo <= j < n`.
pub open spec fn weighted_from(d: Seq<u8>, lo: int, n: int) -> nat
    decreases n - lo,
{
    if lo >= n {
        0
    } else {
        (d[lo] as nat) * fact(lo as nat) + weighted_from(d, lo + 1, n)
    }
}

/// Extending the range at the top adds its last term.
pub proof fn lemma_weighted_extend(d: Seq<u8>, lo: int, n: int)
    requires
        lo <= n,
    ensures
        weighted_from(d, lo, n + 1) == weighted_from(d, lo, n) + d[n] * fact(n as nat),
    decreases n - lo,
{
    if lo < n {
        lemma_weighted_extend(d, lo + 1, n);
    } else {
        assert(weighted_from(d, n + 1, n + 1) == 0);
        assert(weighted_from(d, lo, n) == 0);
    }
}

/// Entries below the range do not matter.
pub proof fn lemma_weighted_update_below(d: Seq<u8>, lo: int, n: int, i: int, v: u8)
    requires
        0 <= i < lo,
        n <= d.len(),
    ensures
        weighted_from(d.update(i, v), lo, n) == weighted_from(d, lo, n),
    decreases n - lo,
{
    if lo < n {
        lemma_weighted_update_below(d, lo + 1, n, i, v);
    }
}

/// The Lehmer rank is the weighted sum of the Lehmer digits.
pub proof fn lemma_rank_is_weighted(p: Seq<u8>, d: Seq<u8>, n: int)
    requires
        1 <= n,
        forall|i: int| 1 <= i < n ==> lehmer_digit(p, i) == d[i] as nat,
    ensures
        lehmer_rank(p, n) == weighted_from(d, 1, n),
    decreases n,
{
    if n > 1 {
        lemma_rank_is_weighted(p, d, n - 1);
        lemma_weighted_extend(d, 1, n - 1);
    }
}

/// How many entries of `s[lo..hi]` are above `v`.
pub open spec fn count_above_in(s: Seq<u8>, lo: int, hi: int, v: u8) -> nat
    decreases hi - lo,
{
    if hi <= lo {
        0
    } else {
        count_above_in(s, lo, hi - 1, v) + (if s[hi - 1] > v {
            1nat
        } else {
            0nat
        })
    }
}

/// From the start, the two counts agree.
pub proof fn lemma_count_above_in_start(s: Seq<u8>, hi: int, v: u8)
    requires
        0 <= hi,
    ensures
        count_above_in(s, 0, hi, v) == count_above(s, hi, v),
    decreases hi,
{
    if hi > 0 {
        lemma_count_above_in_start(s, hi - 1, v);
    }
}

/// Taking one more entry at the bottom of the range.
pub proof fn lemma_count_above_in_front(s: Seq<u8>, lo: int, hi: int, v: u8)
    requires
        0 < lo <= hi <= s.len(),
    ensures
        count_above_in(s, lo - 1, hi, v) == count_above_in(s, lo, hi, v) + (if s[lo - 1] > v {
            1nat
        } else {
            0nat
        }),
    decreases hi - lo,
{
    if hi > lo {
        lemma_count_above_in_front(s, lo, hi - 1, v);
    } else {
        assert(count_above_in(s, lo - 1, lo - 1, v) == 0);
    }
}

/// Entries below the range do not matter.
pub proof fn lemma_count_above_in_update(s: Seq<u8>, lo: int, hi: int, v: u8, i: int, x: u8)
    requires
        0 <= i < lo,
        hi <= s.len(),
    ensures
        count_above_in(s.update(i, x), lo, hi, v) == count_above_in(s, lo, hi, v),
    decreases hi - lo,
{
    if hi > lo {
        lemma_count_above_in_update(s, lo, hi - 1, v, i, x);
    }
}

/// How many entries of `s` are above `v`.
pub open spec fn count_greater(s: Seq<u8>, v: u8) -> nat
    decreases s.len(),
{
    if s.len() == 0 {
        0
    } else {
        count_greater(s.drop_last(), v) + (if s.last() > v {
            1nat
        } else {
            0nat
        })
    }
}

/// Removing an entry removes it from the count.
pub proof fn lemma_count_greater_remove(s: Seq<u8>, idx: int, v: u8)
    requires
        0 <= idx < s.len(),
    ensures
        count_greater(s, v) == count_greater(s.remove(idx), v) + (if s[idx] > v {
            1nat
        } else {
            0nat
        }),
    decreases s.len(),
{
    let r = s.remove(idx);
    if idx == s.len() - 1 {
        assert(r =~= s.drop_last());
    } else {
        assert(r.drop_last() =~= s.drop_last().remove(idx));
        assert(r.last() == s.last());
        lemma_count_greater_remove(s.drop_last(), idx, v);
    }
}

/// Nothing is above a value larger than every entry.
pub proof fn lemma_count_greater_none(s: Seq<u8>, v: u8)
    requires
        forall|i: int| 0 <= i < s.len() ==> s[i] < v,
    ensures
        count_greater(s, v) == 0,
    decreases s.len(),
{
    if s.len() > 0 {
        lemma_count_greater_none(s.drop_last(), v);
    }
}

/// `s` is strictly increasing.
pub open spec fn increasing(s: Seq<u8>) -> bool {
    forall|i: int, j: int| 0 <= i < j < s.len() ==> s[i] < s[j]
}

/// In an increasing sequence, the entries above the one at `idx` are those
/// after it.
pub proof fn lemma_count_greater_increasing(s: Seq<u8>, idx: int)
    requires
        increasing(s),
        0 <= idx < s.len(),
    ensures
        count_greater(s, s[idx]) == s.len() - 1 - idx,
    decreases s.len(),
{
    let t = s.drop_last();
    if idx == s.len() - 1 {
        lemma_count_greater_none(t, s[idx]);
    } else {
        assert(increasing(t));
        assert(t[idx] == s[idx]);
        lemma_count_greater_increasing(t, idx);
    }
}

/// Digits below `b` are determined by their value.
pub proof fn lemma_horner_injective(s: Seq<u8>, t: Seq<u8>, b: nat)
    requires
        s.len() == t.len(),
        b > 0,
        digits_below(s, b),
        digits_below(t, b),
        horner(s, b) == horner(t, b),
    ensures
        s == t,
    decreases s.len(),
{
    if s.len() > 0 {
        let hs = horner(s.drop_last(), b) as int;
        let ht = horner(t.drop_last(), b) as int;
        let x = horner(s, b) as int;
        vstd::arithmetic::div_mod::lemma_fundamental_div_mod_converse(x, b as int, hs, s.last() as int);
        vstd::arithmetic::div_mod::lemma_fundamental_div_mod_converse(x, b as int, ht, t.last() as int);
        assert(digits_below(s.drop_last(), b));
        assert(digits_below(t.drop_last(), b));
        lemma_horner_injective(s.drop_last(), t.drop_last(), b);
        assert(s =~= t) by {
            assert forall|i: int| 0 <= i < s.len() implies s[i] == t[i] by {
                if i < s.len() - 1 {
                    assert(s.drop_last()[i] == t.drop_last()[i]);
                }
            }
        }
    }
}

/// `sum of C(c[t], t + 1)` over `t < n`.
pub open spec fn comb_sum(c: Seq<u8>, n: int) -> nat
    decreases n,
{
    if n <= 0 {
        0
    } else {
        comb_sum(c, n - 1) + binom(c[n - 1] as nat, n as nat)
    }
}

/// In an increasing sequence, the entries below the one at `t` are the
/// first `t`.
pub proof fn lemma_count_below_increasing(w: Seq<u8>, t: int)
    requires
        increasing(w),
        0 <= t < w.len(),
    ensures
        count_below(w, w[t] as nat) == t,
    decreases w.len(),
{
    let d = w.drop_last();
    if t == w.len() - 1 {
        assert forall|i: int| 0 <= i < d.len() implies (d[i] as nat) < w[t] as nat by {
            assert(d[i] == w[i]);
        }
        lemma_count_below_all(d, w[t] as nat);
    } else {
        assert(increasing(d));
        assert(d[t] == w[t]);
        lemma_count_below_increasing(d, t);
    }
}

/// An increasing sequence has no repeated entry.
pub proof fn lemma_increasing_no_dup(w: Seq<u8>)
    requires
        increasing(w),
    ensures
        w.no_duplicates(),
{
    assert forall|i: int, j: int| 0 <= i < w.len() && 0 <= j < w.len() && i != j implies w[i] != w[j] by {
        if i < j {
            assert(w[i] < w[j]);
        } else {
            assert(w[j] < w[i]);
        }
    }
}

/// For an increasing sequence, the combinadic index counts each entry at
/// its own place.
pub proof fn lemma_combo_increasing(w: Seq<u8>, x: nat)
    requires
        increasing(w),
        x <= 256,
    ensures
        combo(w, x) == comb_sum(w, count_members(w, x) as int),
    decreases x,
{
    if x > 0 {
        lemma_combo_increasing(w, (x - 1) as nat);
        let v = (x - 1) as u8;
        if w.contains(v) {
            let t = choose|t: int| 0 <= t < w.len() && w[t] == v;
            lemma_increasing_no_dup(w);
            lemma_count_members_below(w, (x - 1) as nat);
            lemma_count_below_increasing(w, t);
            assert(count_members(w, (x - 1) as nat) == t);
        }
    }
}

/// Two sequences with the same members have the same combinadic index.
pub proof fn lemma_combo_same_members(w1: Seq<u8>, w2: Seq<u8>, x: nat)
    requires
        forall|v: u8| w1.contains(v) <==> w2.contains(v),
    ensures
        combo(w1, x) == combo(w2, x),
        count_members(w1, x) == count_members(w2, x),
    decreases x,
{
    if x > 0 {
        lemma_combo_same_members(w1, w2, (x - 1) as nat);
    }
}

/// The Lehmer rank reads only the first `n` entries.
pub proof fn lemma_rank_prefix(p1: Seq<u8>, p2: Seq<u8>, n: int)
    requires
        0 <= n <= p1.len(),
        n <= p2.len(),
        forall|i: int| 0 <= i < n ==> p1[i] == p2[i],
    ensures
        lehmer_rank(p1, n) == lehmer_rank(p2, n),
    decreases n,
{
    if n > 1 {
        lemma_rank_prefix(p1, p2, n - 1);
        lemma_count_above_prefix(p1, p2, n - 1, p1[n - 1]);
    }
}

/// A count reads only the first `n` entries.
pub proof fn lemma_count_above_prefix(p1: Seq<u8>, p2: Seq<u8>, n: int, v: u8)
    requires
        0 <= n,
        forall|i: int| 0 <= i < n ==> p1[i] == p2[i],
    ensures
        count_above(p1, n, v) == count_above(p2, n, v),
    decreases n,
{
    if n > 0 {
        lemma_count_above_prefix(p1, p2, n - 1, v);
    }
}

/// `sum of C(c[t], t + 1)` over `lo <= t < hi`.
pub open spec fn comb_sum_from(c: Seq<u8>, lo: int, hi: int) -> nat
    decreases hi - lo,
{
    if lo >= hi {
        0
    } else {
        binom(c[lo] as nat, (lo + 1) as nat) + comb_sum_from(c, lo + 1, hi)
    }
}

/// Entries outside the range do not matter.
pub proof fn lemma_comb_sum_from_agree(c1: Seq<u8>, c2: Seq<u8>, lo: int, hi: int)
    requires
        forall|t: int| lo <= t < hi ==> c1[t] == c2[t],
    ensures
        comb_sum_from(c1, lo, hi) == comb_sum_from(c2, lo, hi),
    decreases hi - lo,
{
    if lo < hi {
        lemma_comb_sum_from_agree(c1, c2, lo + 1, hi);
    }
}

/// Extending the range at the top adds its last term.
pub proof fn lemma_comb_sum_from_extend(c: Seq<u8>, lo: int, n: int)
    requires
        0 <= lo <= n,
    ensures
        comb_sum_from(c, lo, n + 1) == comb_sum_from(c, lo, n) + binom(c[n] as nat, (n + 1) as nat),
    decreases n - lo,
{
    if lo < n {
        lemma_comb_sum_from_extend(c, lo + 1, n);
    } else {
        assert(comb_sum_from(c, n + 1, n + 1) == 0);
    }
}

/// The two ways of summing agree.
pub proof fn lemma_comb_sum_is_from(c: Seq<u8>, n: int)
    requires
        0 <= n,
    ensures
        comb_sum(c, n) == comb_sum_from(c, 0, n),
    decreases n,
{
    if n > 0 {
        lemma_comb_sum_is_from(c, n - 1);
        lemma_comb_sum_from_extend(c, 0, n - 1);
    }
}

/// The Lehmer rank of `n` entries is below `n!`.
pub proof fn lemma_rank_bound(p: Seq<u8>, n: int)
    requires
        1 <= n,
    ensures
        lehmer_rank(p, n) < fact(n as nat),
    decreases n,
{
    if n > 1 {
        lemma_rank_bound(p, n - 1);
        lemma_count_above_le(p, n - 1, p[n - 1]);
        let r = lehmer_rank(p, n - 1) as int;
        let d = lehmer_digit(p, n - 1) as int;
        let f = fact((n - 1) as nat) as int;
        assert(fact(n as nat) == n * f);
        assert(r + d * f < n * f) by (nonlinear_arith)
            requires
                r < f,
                d <= n - 1,
                d >= 0,
                f >= 0,
        ;
    } else {
        assert(fact(1) == 1 * fact(0));
    }
}

/// Equal Lehmer ranks mean equal Lehmer digits.
pub proof fn lemma_rank_digits(p: Seq<u8>, q: Seq<u8>, n: int)
    requires
        1 <= n,
        lehmer_rank(p, n) == lehmer_rank(q, n),
    ensures
        forall|i: int| 1 <= i < n ==> lehmer_digit(p, i) == lehmer_digit(q, i),
    decreases n,
{
    if n > 1 {
        lemma_rank_bound(p, n - 1);
        lemma_rank_bound(q, n - 1);
        let f = fact((n - 1) as nat) as int;
        let x = lehmer_rank(p, n) as int;
        vstd::arithmetic::div_mod::lemma_fundamental_div_mod_converse(
            x,
            f,
            lehmer_digit(p, n - 1) as int,
            lehmer_rank(p, n - 1) as int,
        );
        vstd::arithmetic::div_mod::lemma_fundamental_div_mod_converse(
            x,
            f,
            lehmer_digit(q, n - 1) as int,
            lehmer_rank(q, n - 1) as int,
        );
        lemma_rank_digits(p, q, n - 1);
    }
}

/// Counting members below `t` depends only on which values below `t` occur.
pub proof fn lemma_count_members_agree(w1: Seq<u8>, w2: Seq<u8>, t: nat)
    requires
        t <= 256,
        forall|v: u8| (v as nat) < t ==> (w1.contains(v) <==> w2.contains(v)),
    ensures
        count_members(w1, t) == count_members(w2, t),
    decreases t,
{
    if t > 0 {
        lemma_count_members_agree(w1, w2, (t - 1) as nat);
    }
}

/// Counting members grows with the limit.
pub proof fn lemma_count_members_mono(w: Seq<u8>, t1: nat, t2: nat)
    requires
        t1 <= t2,
    ensures
        count_members(w, t1) <= count_members(w, t2),
    decreases t2,
{
    if t1 < t2 {
        lemma_count_members_mono(w, t1, (t2 - 1) as nat);
    }
}

/// Entries above `v` and entries below `v + 1` make up all entries.
pub proof fn lemma_above_below(w: Seq<u8>, v: u8)
    ensures
        count_above(w, w.len() as int, v) + count_below(w, v as nat + 1) == w.len(),
    decreases w.len(),
{
    if w.len() > 0 {
        let d = w.drop_last();
        lemma_above_below(d, v);
        lemma_count_above_prefix(w, d, d.len() as int, v);
    }
}

/// Distinct entries with the same Lehmer digits and the same members are
/// the same sequence.
pub proof fn lemma_digits_determine(p: Seq<u8>, q: Seq<u8>, m: int)
    requires
        0 <= m <= p.len(),
        m <= q.len(),
        p.subrange(0, m).no_duplicates(),
        q.subrange(0, m).no_duplicates(),
        forall|v: u8| p.subrange(0, m).contains(v) <==> q.subrange(0, m).contains(v),
        forall|i: int| 0 <= i < m ==> lehmer_digit(p, i) == lehmer_digit(q, i),
    ensures
        p.subrange(0, m) == q.subrange(0, m),
    decreases m,
{
    if m > 0 {
        let pm = p.subrange(0, m);
        let qm = q.subrange(0, m);
        let a = p.subrange(0, m - 1);
        let b = q.subrange(0, m - 1);
        let x = p[m - 1];
        let y = q[m - 1];
        assert(a.no_duplicates());
        assert(b.no_duplicates());
        assert(pm[m - 1] == x && qm[m - 1] == y);
        assert(!a.contains(x)) by {
            if a.contains(x) {
                let j = choose|j: int| 0 <= j < a.len() && a[j] == x;
                assert(pm[j] == pm[m - 1]);
            }
        }
        assert(!b.contains(y)) by {
            if b.contains(y) {
                let j = choose|j: int| 0 <= j < b.len() && b[j] == y;
                assert(qm[j] == qm[m - 1]);
            }
        }
        assert forall|v: u8| v != x implies (a.contains(v) <==> pm.contains(v)) by {
            if pm.contains(v) {
                let j = choose|j: int| 0 <= j < pm.len() && pm[j] == v;
                assert(j != m - 1);
                assert(a[j] == v);
            }
            if a.contains(v) {
                let j = choose|j: int| 0 <= j < a.len() && a[j] == v;
                assert(pm[j] == v);
            }
        }
        assert forall|v: u8| v != y implies (b.contains(v) <==> qm.contains(v)) by {
            if qm.contains(v) {
                let j = choose|j: int| 0 <= j < qm.len() && qm[j] == v;
                assert(j != m - 1);
                assert(b[j] == v);
            }
            if b.contains(v) {
                let j = choose|j: int| 0 <= j < b.len() && b[j] == v;
                assert(qm[j] == v);
            }
        }
        assert(pm.contains(x) && qm.contains(y)) by {
            assert(pm[m - 1] == x);
            assert(qm[m - 1] == y);
        }
        // The last digit counts the members above the last entry.
        lemma_count_above_prefix(p, a, m - 1, x);
        lemma_count_above_prefix(q, b, m - 1, y);
        lemma_above_below(a, x);
        lemma_above_below(b, y);
        lemma_count_members_below(a, x as nat + 1);
        lemma_count_members_below(b, y as nat + 1);
        assert(lehmer_digit(p, m - 1) == lehmer_digit(q, m - 1));
        assert(lehmer_digit(p, m - 1) == count_above(p, m - 1, x));
        assert(lehmer_digit(q, m - 1) == count_above(q, m - 1, y));
        assert(a.len() == m - 1 && b.len() == m - 1);
        assert(count_members(a, x as nat + 1) == count_members(b, y as nat + 1));
        if x != y {
            lemma_count_members_agree(a, pm, x as nat);
            lemma_count_members_agree(b, qm, y as nat);
            lemma_count_members_agree(pm, qm, 256);
            lemma_count_members_agree(pm, qm, x as nat);
            lemma_count_members_agree(pm, qm, y as nat);
            if x < y {
                lemma_count_members_mono(pm, x as nat + 1, y as nat);
                assert(false);
            } else {
                lemma_count_members_mono(qm, y as nat + 1, x as nat);
                assert(false);
            }
        }
        assert forall|v: u8| a.contains(v) <==> b.contains(v) by {}
        assert forall|i: int| 0 <= i < m - 1 implies lehmer_digit(p, i) == lehmer_digit(q, i) by {}
        assert(p.subrange(0, m - 1) =~= a);
        lemma_digits_determine(p, q, m - 1);
        assert(pm =~= qm) by {
            assert forall|i: int| 0 <= i < m implies pm[i] == qm[i] by {
                if i < m - 1 {
                    assert(a[i] == b[i]);
                }
            }
        }
    }
}

/// Zero digits have value zero.
pub proof fn lemma_horner_zeros(s: Seq<u8>, b: nat)
    requires
        forall|i: int| 0 <= i < s.len() ==> s[i] == 0,
    ensures
        horner(s, b) == 0,
    decreases s.len(),
{
    if s.len() > 0 {
        lemma_horner_zeros(s.drop_last(), b);
        let h = horner(s.drop_last(), b) as int;
        assert(h * b == 0) by (nonlinear_arith)
            requires
                h == 0,
        ;
    }
}

/// An increasing sequence has Lehmer rank zero.
pub proof fn lemma_rank_increasing(p: Seq<u8>, n: int)
    requires
        0 <= n <= p.len(),
        forall|i: int, j: int| 0 <= i < j < n ==> p[i] < p[j],
    ensures
        lehmer_rank(p, n) == 0,
    decreases n,
{
    if n > 1 {
        lemma_rank_increasing(p, n - 1);
        lemma_count_above_none(p, n - 1, p[n - 1]);
        let d = lehmer_digit(p, n - 1) as int;
        let f = fact((n - 1) as nat) as int;
        assert(d * f == 0) by (nonlinear_arith)
            requires
                d == 0,
        ;
    }
}

/// Nothing counts when no entry is above `v`.
pub proof fn lemma_count_above_none(p: Seq<u8>, n: int, v: u8)
    requires
        0 <= n <= p.len(),
        forall|i: int| 0 <= i < n ==> p[i] <= v,
    ensures
        count_above(p, n, v) == 0,
    decreases n,
{
    if n > 0 {
        lemma_count_above_none(p, n - 1, v);
    }
}

/// Two sets with as many members below `n` and the same combinadic index
/// below `n` have the same members below `n`.
pub proof fn lemma_combo_injective(w1: Seq<u8>, w2: Seq<u8>, n: nat)
    requires
        n <= 256,
        count_members(w1, n) == count_members(w2, n),
        combo(w1, n) == combo(w2, n),
    ensures
        forall|v: u8| (v as nat) < n ==> (w1.contains(v) <==> w2.contains(v)),
    decreases n,
{
    if n > 0 {
        let x = (n - 1) as nat;
        let v = x as u8;
        let c1 = count_members(w1, x);
        let c2 = count_members(w2, x);
        lemma_combo_bound(w1, x);
        lemma_combo_bound(w2, x);
        if w1.contains(v) && !w2.contains(v) {
            assert(c1 + 1 == c2);
            assert(false);
        } else if !w1.contains(v) && w2.contains(v) {
            assert(c2 + 1 == c1);
            assert(false);
        }
        lemma_combo_injective(w1, w2, x);
        assert forall|u: u8| (u as nat) < n implies (w1.contains(u) <==> w2.contains(u)) by {
            if (u as nat) < x {
            } else {
                assert(u == v);
            }
        }
    }
}

/// With `w[t] <= t` for each `t < n`, every term of the sum is zero.
pub proof fn lemma_comb_sum_small(w: Seq<u8>, n: int)
    requires
        forall|t: int| 0 <= t < n ==> (w[t] as int) <= t,
    ensures
        comb_sum(w, n) == 0,
    decreases n,
{
    if n > 0 {
        lemma_comb_sum_small(w, n - 1);
        lemma_binom_above(w[n - 1] as nat, n as nat);
    }
}

} // verus!
