//! Lattices spanned by the columns of an integer matrix.
//!
//! A matrix is a sequence of columns, each a sequence of integers.
//! The lattice of a matrix is the set of integer combinations of
//! its columns.  Two matrices describe the same temperament class
//! exactly when their lattices agree.
use vstd::prelude::*;

verus! {

/// Every column of `m` has `d` entries.
pub open spec fn rectangular(m: Seq<Seq<int>>, d: nat) -> bool {
    forall|j: int| 0 <= j < m.len() ==> (#[trigger] m[j]).len() == d
}

/// Row `i` of the combination of the first `n` columns of `m`
/// with coefficients `c`.
pub open spec fn weighted_sum(m: Seq<Seq<int>>, c: Seq<int>, i: int, n: nat) -> int
    decreases n,
{
    if n == 0 {
        0
    } else {
        weighted_sum(m, c, i, (n - 1) as nat) + c[n - 1] * m[n - 1][i]
    }
}

/// The integer combination of the columns of `m` with coefficients `c`,
/// as a vector of `d` entries.
pub open spec fn combination(m: Seq<Seq<int>>, c: Seq<int>, d: nat) -> Seq<int> {
    Seq::new(d, |i: int| weighted_sum(m, c, i, m.len()))
}

/// `x` lies in the lattice of `m`.
pub open spec fn generates(m: Seq<Seq<int>>, x: Seq<int>) -> bool {
    exists|c: Seq<int>| c.len() == m.len() && #[trigger] combination(m, c, x.len()) == x
}

/// Every column of `b` lies in the lattice of `a`.
pub open spec fn spans(a: Seq<Seq<int>>, b: Seq<Seq<int>>) -> bool {
    forall|j: int| 0 <= j < b.len() ==> generates(a, #[trigger] b[j])
}

/// The lattices of `a` and `b` agree.
pub open spec fn same_lattice(a: Seq<Seq<int>>, b: Seq<Seq<int>>) -> bool {
    spans(a, b) && spans(b, a)
}

/// `a·x + b·y`, entry by entry.
pub open spec fn axpy(a: int, x: Seq<int>, b: int, y: Seq<int>) -> Seq<int> {
    Seq::new(x.len(), |i: int| a * x[i] + b * y[i])
}

/// The vector with a one at `j` and zeros elsewhere.
pub open spec fn unit(n: nat, j: int) -> Seq<int> {
    Seq::new(n, |k: int| if k == j { 1int } else { 0int })
}

proof fn lemma_weighted_sum_axpy(
    m: Seq<Seq<int>>,
    a: int,
    c1: Seq<int>,
    b: int,
    c2: Seq<int>,
    i: int,
    n: nat,
)
    requires
        n <= c1.len(),
        c1.len() == c2.len(),
    ensures
        weighted_sum(m, axpy(a, c1, b, c2), i, n) == a * weighted_sum(m, c1, i, n) + b
            * weighted_sum(m, c2, i, n),
    decreases n,
{
    if n > 0 {
        lemma_weighted_sum_axpy(m, a, c1, b, c2, i, (n - 1) as nat);
        let k = n - 1;
        let e = m[k][i];
        let s1 = weighted_sum(m, c1, i, (n - 1) as nat);
        let s2 = weighted_sum(m, c2, i, (n - 1) as nat);
        assert(axpy(a, c1, b, c2)[k] == a * c1[k] + b * c2[k]);
        assert((a * c1[k] + b * c2[k]) * e == a * (c1[k] * e) + b * (c2[k] * e))
            by (nonlinear_arith);
        assert(a * (s1 + c1[k] * e) + b * (s2 + c2[k] * e) == a * s1 + b * s2 + a * (c1[k] * e)
            + b * (c2[k] * e)) by (nonlinear_arith);
    }
}

proof fn lemma_weighted_sum_unit(m: Seq<Seq<int>>, j: int, i: int, n: nat)
    requires
        n <= m.len(),
        0 <= j < m.len(),
    ensures
        weighted_sum(m, unit(m.len(), j), i, n) == if j < n { m[j][i] } else { 0 },
    decreases n,
{
    if n > 0 {
        lemma_weighted_sum_unit(m, j, i, (n - 1) as nat);
    }
}

/// The sum over a prefix depends only on that prefix.
pub proof fn lemma_weighted_sum_agree(
    m1: Seq<Seq<int>>,
    c1: Seq<int>,
    m2: Seq<Seq<int>>,
    c2: Seq<int>,
    i: int,
    n: nat,
)
    requires
        forall|j: int| 0 <= j < n ==> c1[j] * m1[j][i] == c2[j] * m2[j][i],
    ensures
        weighted_sum(m1, c1, i, n) == weighted_sum(m2, c2, i, n),
    decreases n,
{
    if n > 0 {
        lemma_weighted_sum_agree(m1, c1, m2, c2, i, (n - 1) as nat);
    }
}

/// Each column lies in the lattice of its matrix.
pub proof fn lemma_generates_column(m: Seq<Seq<int>>, j: int)
    requires
        0 <= j < m.len(),
    ensures
        generates(m, m[j]),
{
    let c = unit(m.len(), j);
    let d = m[j].len();
    assert forall|i: int| 0 <= i < d implies weighted_sum(m, c, i, m.len()) == m[j][i] by {
        lemma_weighted_sum_unit(m, j, i, m.len());
    }
    assert(combination(m, c, d) =~= m[j]);
}

/// A lattice is closed under integer combinations of two of its members.
pub proof fn lemma_generates_axpy(m: Seq<Seq<int>>, a: int, x: Seq<int>, b: int, y: Seq<int>)
    requires
        generates(m, x),
        generates(m, y),
        x.len() == y.len(),
    ensures
        generates(m, axpy(a, x, b, y)),
{
    let cx = choose|c: Seq<int>| c.len() == m.len() && #[trigger] combination(m, c, x.len()) == x;
    let cy = choose|c: Seq<int>| c.len() == m.len() && #[trigger] combination(m, c, y.len()) == y;
    let c = axpy(a, cx, b, cy);
    let d = x.len();
    assert forall|i: int| 0 <= i < d implies weighted_sum(m, c, i, m.len()) == a * x[i] + b
        * y[i] by {
        lemma_weighted_sum_axpy(m, a, cx, b, cy, i, m.len());
        assert(combination(m, cx, d)[i] == x[i]);
        assert(combination(m, cy, d)[i] == y[i]);
    }
    assert(combination(m, c, d) =~= axpy(a, x, b, y));
}

proof fn lemma_weighted_sum_zero(m: Seq<Seq<int>>, c: Seq<int>, i: int, n: nat)
    requires
        forall|j: int| 0 <= j < n ==> c[j] * m[j][i] == 0,
    ensures
        weighted_sum(m, c, i, n) == 0,
    decreases n,
{
    if n > 0 {
        lemma_weighted_sum_zero(m, c, i, (n - 1) as nat);
    }
}

/// The zero vector lies in every lattice.
pub proof fn lemma_generates_zero(m: Seq<Seq<int>>, d: nat)
    ensures
        generates(m, Seq::new(d, |i: int| 0int)),
{
    let c = Seq::new(m.len(), |j: int| 0int);
    let z = Seq::new(d, |i: int| 0int);
    assert forall|i: int| 0 <= i < d implies weighted_sum(m, c, i, m.len()) == 0 by {
        assert forall|j: int| 0 <= j < m.len() implies c[j] * m[j][i] == 0 by {
            assert(0 * m[j][i] == 0);
        }
        lemma_weighted_sum_zero(m, c, i, m.len());
    }
    assert(combination(m, c, d) =~= z);
}

/// The combination of the first `n` columns of `m`.
spec fn partial_combination(m: Seq<Seq<int>>, c: Seq<int>, d: nat, n: nat) -> Seq<int> {
    Seq::new(d, |i: int| weighted_sum(m, c, i, n))
}

proof fn lemma_partial_combination(a: Seq<Seq<int>>, b: Seq<Seq<int>>, c: Seq<int>, d: nat, n: nat)
    requires
        spans(a, b),
        rectangular(b, d),
        n <= b.len(),
    ensures
        generates(a, partial_combination(b, c, d, n)),
    decreases n,
{
    if n == 0 {
        lemma_generates_zero(a, d);
        assert(partial_combination(b, c, d, 0) =~= Seq::new(d, |i: int| 0int));
    } else {
        let k = (n - 1) as nat;
        lemma_partial_combination(a, b, c, d, k);
        let prev = partial_combination(b, c, d, k);
        assert(generates(a, b[k as int]));
        lemma_generates_axpy(a, 1, prev, c[k as int], b[k as int]);
        assert(partial_combination(b, c, d, n) =~= axpy(1, prev, c[k as int], b[k as int]));
    }
}

/// What the columns of `b` generate lies in every lattice that holds them.
pub proof fn lemma_generates_through(a: Seq<Seq<int>>, b: Seq<Seq<int>>, x: Seq<int>)
    requires
        spans(a, b),
        generates(b, x),
        rectangular(b, x.len()),
    ensures
        generates(a, x),
{
    let c = choose|c: Seq<int>| c.len() == b.len() && #[trigger] combination(b, c, x.len()) == x;
    lemma_partial_combination(a, b, c, x.len(), b.len());
    assert(partial_combination(b, c, x.len(), b.len()) =~= combination(b, c, x.len()));
}

/// Spanning is transitive.
pub proof fn lemma_spans_transitive(a: Seq<Seq<int>>, b: Seq<Seq<int>>, c: Seq<Seq<int>>, d: nat)
    requires
        spans(a, b),
        spans(b, c),
        rectangular(b, d),
        rectangular(c, d),
    ensures
        spans(a, c),
{
    assert forall|j: int| 0 <= j < c.len() implies generates(a, #[trigger] c[j]) by {
        lemma_generates_through(a, b, c[j]);
    }
}

/// Having the same lattice is transitive.
pub proof fn lemma_same_lattice_transitive(
    a: Seq<Seq<int>>,
    b: Seq<Seq<int>>,
    c: Seq<Seq<int>>,
    d: nat,
)
    requires
        same_lattice(a, b),
        same_lattice(b, c),
        rectangular(a, d),
        rectangular(b, d),
        rectangular(c, d),
    ensures
        same_lattice(a, c),
{
    lemma_spans_transitive(a, b, c, d);
    lemma_spans_transitive(c, b, a, d);
}

/// Every matrix has its own lattice.
pub proof fn lemma_same_lattice_reflexive(a: Seq<Seq<int>>)
    ensures
        same_lattice(a, a),
{
    assert forall|j: int| 0 <= j < a.len() implies generates(a, #[trigger] a[j]) by {
        lemma_generates_column(a, j);
    }
}

/// Replacing column `k` by `a·m[k] + b·m[p]` with `a = ±1` and `p != k`
/// keeps the lattice.
pub proof fn lemma_column_operation(m: Seq<Seq<int>>, d: nat, k: int, a: int, b: int, p: int)
    requires
        rectangular(m, d),
        0 <= k < m.len(),
        0 <= p < m.len(),
        a == 1 || a == -1,
        p != k || b == 0,
    ensures
        same_lattice(m, m.update(k, axpy(a, m[k], b, m[p]))),
{
    let v = axpy(a, m[k], b, m[p]);
    let m2 = m.update(k, v);
    lemma_generates_column(m, k);
    lemma_generates_column(m, p);
    lemma_generates_axpy(m, a, m[k], b, m[p]);
    assert forall|j: int| 0 <= j < m2.len() implies generates(m, #[trigger] m2[j]) by {
        if j != k {
            lemma_generates_column(m, j);
        }
    }
    lemma_generates_column(m2, k);
    lemma_generates_column(m2, p);
    // m[k] == a·v − a·b·m[p]
    let back = if p == k { axpy(a, v, 0, v) } else { axpy(a, m2[k], -(a * b), m2[p]) };
    if p == k {
        lemma_generates_axpy(m2, a, v, 0, v);
    } else {
        lemma_generates_axpy(m2, a, m2[k], -(a * b), m2[p]);
    }
    assert(back =~= m[k]) by {
        assert forall|i: int| 0 <= i < d implies back[i] == m[k][i] by {
            let x = m[k][i];
            let y = m[p][i];
            if p == k {
                assert(a * (a * x + 0 * y) + 0 * (a * x + 0 * y) == x) by (nonlinear_arith)
                    requires
                        a == 1 || a == -1,
                ;
            } else {
                assert(a * (a * x + b * y) + (-(a * b)) * y == x) by (nonlinear_arith)
                    requires
                        a == 1 || a == -1,
                ;
            }
        }
    }
    assert forall|j: int| 0 <= j < m.len() implies generates(m2, #[trigger] m[j]) by {
        if j != k {
            lemma_generates_column(m2, j);
        }
    }
}

/// Exchanging two columns keeps the lattice.
pub proof fn lemma_column_swap(m: Seq<Seq<int>>, j: int, k: int)
    requires
        0 <= j < m.len(),
        0 <= k < m.len(),
    ensures
        same_lattice(m, m.update(j, m[k]).update(k, m[j])),
{
    let m2 = m.update(j, m[k]).update(k, m[j]);
    assert forall|i: int| 0 <= i < m2.len() implies generates(m, #[trigger] m2[i]) by {
        if i == j {
            lemma_generates_column(m, k);
        } else if i == k {
            lemma_generates_column(m, j);
        } else {
            lemma_generates_column(m, i);
        }
    }
    assert forall|i: int| 0 <= i < m.len() implies generates(m2, #[trigger] m[i]) by {
        if i == j {
            lemma_generates_column(m2, k);
        } else if i == k {
            lemma_generates_column(m2, j);
        } else {
            lemma_generates_column(m2, i);
        }
    }
}

/// The matrix times a matrix of coefficients: column `k` of the
/// product is the combination of the columns of `m` with the
/// coefficients `u[k]`.
pub open spec fn product(m: Seq<Seq<int>>, u: Seq<Seq<int>>, d: nat) -> Seq<Seq<int>> {
    Seq::new(u.len(), |k: int| combination(m, u[k], d))
}

/// The matrix of `n` unit vectors.
pub open spec fn identity(n: nat) -> Seq<Seq<int>> {
    Seq::new(n, |k: int| unit(n, k))
}

/// `u` is a column operation on `n` columns with the inverse `v`:
/// both are square matrices of integers, and `u` times `v` is the
/// identity.
pub open spec fn is_inverse(u: Seq<Seq<int>>, v: Seq<Seq<int>>, n: nat) -> bool {
    &&& u.len() == n
    &&& v.len() == n
    &&& rectangular(u, n)
    &&& rectangular(v, n)
    &&& product(u, v, n) == identity(n)
}

/// The combination with a combination of coefficients is the
/// combination of the combinations, for the first `t` of them.
proof fn lemma_combination_of_partial(
    m: Seq<Seq<int>>,
    u: Seq<Seq<int>>,
    c: Seq<int>,
    d: nat,
    t: nat,
)
    requires
        rectangular(u, m.len()),
        t <= u.len(),
    ensures
        combination(m, partial_combination(u, c, m.len(), t), d) == partial_combination(
            product(m, u, d),
            c,
            d,
            t,
        ),
    decreases t,
{
    let n = m.len();
    let mu = product(m, u, d);
    if t == 0 {
        let zero = partial_combination(u, c, n, 0);
        assert forall|i: int| 0 <= i < d implies weighted_sum(m, zero, i, n) == 0 by {
            assert forall|j: int| 0 <= j < n implies zero[j] * m[j][i] == 0 by {
                assert(zero[j] == 0);
                assert(0 * m[j][i] == 0);
            }
            lemma_weighted_sum_zero(m, zero, i, n);
        }
        assert(combination(m, zero, d) =~= partial_combination(mu, c, d, 0));
    } else {
        let k = (t - 1) as nat;
        lemma_combination_of_partial(m, u, c, d, k);
        let before = partial_combination(u, c, n, k);
        let here = partial_combination(u, c, n, t);
        assert(here =~= axpy(1, before, c[k as int], u[k as int]));
        assert forall|i: int| 0 <= i < d implies weighted_sum(m, here, i, n) == weighted_sum(
            mu,
            c,
            i,
            t,
        ) by {
            lemma_weighted_sum_axpy(m, 1, before, c[k as int], u[k as int], i, n);
            assert(combination(m, before, d)[i] == partial_combination(mu, c, d, k)[i]);
            assert(mu[k as int][i] == weighted_sum(m, u[k as int], i, n));
        }
        assert(combination(m, here, d) =~= partial_combination(mu, c, d, t));
    }
}

/// A column operation with an integer inverse keeps the lattice.
pub proof fn lemma_column_operation_keeps_lattice(
    m: Seq<Seq<int>>,
    u: Seq<Seq<int>>,
    v: Seq<Seq<int>>,
    d: nat,
)
    requires
        rectangular(m, d),
        is_inverse(u, v, m.len()),
    ensures
        same_lattice(m, product(m, u, d)),
        product(m, u, d).len() == m.len(),
        rectangular(product(m, u, d), d),
{
    let n = m.len();
    let mu = product(m, u, d);
    assert forall|k: int| 0 <= k < mu.len() implies generates(m, #[trigger] mu[k]) by {
        assert(combination(m, u[k], mu[k].len()) == mu[k]);
    }
    assert forall|j: int| 0 <= j < m.len() implies generates(mu, #[trigger] m[j]) by {
        // the unit vector is a combination of the columns of u
        let c = v[j];
        lemma_combination_of_partial(m, u, c, d, n);
        assert(partial_combination(u, c, n, n) =~= combination(u, c, n));
        assert(product(u, v, n)[j] == combination(u, c, n));
        assert(identity(n)[j] == unit(n, j));
        assert forall|i: int| 0 <= i < d implies weighted_sum(m, unit(n, j), i, n) == m[j][i] by {
            lemma_weighted_sum_unit(m, j, i, n);
        }
        assert(combination(m, unit(n, j), d) =~= m[j]);
        assert(partial_combination(mu, c, d, n) =~= combination(mu, c, d));
        assert(combination(mu, c, m[j].len()) == m[j]);
    }
}

} // verus!
