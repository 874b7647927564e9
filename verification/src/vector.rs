//! Coordinate vectors and their componentwise arithmetic.
//!
//! A position on the lattice is a fixed-length vector of `i64` coordinates.
//! Contracts speak of its mathematical value: a `Seq<int>` of unbounded
//! integers, obtained through [`int_view`].

use vstd::prelude::*;

verus! {

/// The mathematical value of a coordinate vector: its components as
/// unbounded integers.
pub open spec fn int_view(v: Seq<i64>) -> Seq<int> {
    v.map_values(|x: i64| x as int)
}

/// Componentwise sum of two vectors of equal length.
pub open spec fn sadd(a: Seq<int>, b: Seq<int>) -> Seq<int> {
    Seq::new(a.len(), |i: int| a[i] + b[i])
}

/// Componentwise difference of two vectors of equal length.
pub open spec fn ssub(a: Seq<int>, b: Seq<int>) -> Seq<int> {
    Seq::new(a.len(), |i: int| a[i] - b[i])
}

/// Componentwise negation.
pub open spec fn sneg(a: Seq<int>) -> Seq<int> {
    Seq::new(a.len(), |i: int| -a[i])
}

/// The all-zero vector of dimension `n`.
pub open spec fn zero_vec(n: nat) -> Seq<int> {
    Seq::new(n, |i: int| 0)
}

/// Every component sits at least `slack` inside both ends of the `i64`
/// range, so `slack` further unit steps along each axis cannot overflow.
pub open spec fn in_range(v: Seq<int>, slack: int) -> bool {
    forall|i: int| 0 <= i < v.len() ==> i64::MIN + slack <= #[trigger] v[i] <= i64::MAX - slack
}

/// Adding the same vector to two vectors gives equal results only when the
/// two were already equal.
pub proof fn lemma_sadd_cancel(p: Seq<int>, a: Seq<int>, b: Seq<int>)
    requires
        a.len() == p.len(),
        b.len() == p.len(),
        sadd(p, a) == sadd(p, b),
    ensures
        a == b,
{
    assert forall|i: int| 0 <= i < a.len() implies a[i] == b[i] by {
        assert(sadd(p, a)[i] == p[i] + a[i]);
        assert(sadd(p, b)[i] == p[i] + b[i]);
    }
    assert(a =~= b);
}

/// Adding the difference `c - p` to `p` yields `c`.
pub proof fn lemma_sadd_ssub(p: Seq<int>, c: Seq<int>)
    requires
        c.len() == p.len(),
    ensures
        sadd(p, ssub(c, p)) == c,
{
    assert(sadd(p, ssub(c, p)) =~= c);
}

/// Componentwise addition is commutative.
pub proof fn lemma_sadd_comm(a: Seq<int>, b: Seq<int>)
    requires
        a.len() == b.len(),
    ensures
        sadd(a, b) == sadd(b, a),
{
    assert(sadd(a, b) =~= sadd(b, a));
}

/// The order of two successive translations does not matter.
pub proof fn lemma_sadd_exchange(p: Seq<int>, t: Seq<int>, o: Seq<int>)
    requires
        t.len() == p.len(),
        o.len() == p.len(),
    ensures
        sadd(sadd(p, t), o) == sadd(sadd(p, o), t),
{
    assert(sadd(sadd(p, t), o) =~= sadd(sadd(p, o), t));
}

/// Adding an offset and then its negation returns to the starting point.
pub proof fn lemma_sadd_neg(p: Seq<int>, o: Seq<int>)
    requires
        o.len() == p.len(),
    ensures
        sadd(sadd(p, o), sneg(o)) == p,
{
    assert(sadd(sadd(p, o), sneg(o)) =~= p);
}

/// Componentwise sum of two coordinate vectors of equal length. The caller
/// must rule out overflow; the result is exactly the mathematical sum.
pub fn vec_add(a: &Vec<i64>, b: &Vec<i64>) -> (r: Vec<i64>)
    requires
        a@.len() == b@.len(),
        forall|i: int| 0 <= i < a@.len() ==> i64::MIN <= #[trigger] (a@[i] + b@[i]) <= i64::MAX,
    ensures
        int_view(r@) == sadd(int_view(a@), int_view(b@)),
        r@.len() == a@.len(),
{
    let n: usize = a.len();
    let mut r: Vec<i64> = Vec::new();
    let mut i: usize = 0;
    while i < n
        invariant
            n == a@.len() == b@.len(),
            0 <= i <= n,
            r@.len() == i,
            forall|j: int| 0 <= j < a@.len() ==> i64::MIN <= #[trigger] (a@[j] + b@[j])
                <= i64::MAX,
            forall|j: int| 0 <= j < i ==> #[trigger] (r@[j]) == a@[j] + b@[j],
        decreases n - i,
    {
        let s: i64 = a[i] + b[i];
        r.push(s);
        i += 1;
    }
    proof {
        assert(int_view(r@) =~= sadd(int_view(a@), int_view(b@)));
    }
    r
}

/// Exact equality test of two coordinate vectors, stated over their
/// mathematical values.
pub fn vec_eq(a: &Vec<i64>, b: &Vec<i64>) -> (r: bool)
    ensures
        r == (int_view(a@) == int_view(b@)),
{
    if a.len() != b.len() {
        proof {
            assert(int_view(a@).len() != int_view(b@).len());
        }
        return false;
    }
    let n: usize = a.len();
    let mut i: usize = 0;
    while i < n
        invariant
            n == a@.len() == b@.len(),
            0 <= i <= n,
            forall|j: int| 0 <= j < i ==> #[trigger] (a@[j]) == b@[j],
        decreases n - i,
    {
        if a[i] != b[i] {
            proof {
                assert(int_view(a@)[i as int] != int_view(b@)[i as int]);
            }
            return false;
        }
        i += 1;
    }
    proof {
        assert(int_view(a@) =~= int_view(b@));
    }
    true
}

/// True exactly when the vector is all zeros.
pub fn vec_is_zero(v: &Vec<i64>) -> (r: bool)
    ensures
        r == (int_view(v@) == zero_vec(v@.len())),
{
    let n: usize = v.len();
    let mut i: usize = 0;
    while i < n
        invariant
            n == v@.len(),
            0 <= i <= n,
            forall|j: int| 0 <= j < i ==> #[trigger] (v@[j]) == 0,
        decreases n - i,
    {
        if v[i] != 0 {
            proof {
                assert(int_view(v@)[i as int] != zero_vec(v@.len())[i as int]);
            }
            return false;
        }
        i += 1;
    }
    proof {
        assert(int_view(v@) =~= zero_vec(v@.len()));
    }
    true
}

/// An element-for-element copy of a coordinate vector.
pub fn vec_copy(v: &Vec<i64>) -> (r: Vec<i64>)
    ensures
        r@ == v@,
{
    let n: usize = v.len();
    let mut r: Vec<i64> = Vec::new();
    let mut i: usize = 0;
    while i < n
        invariant
            n == v@.len(),
            0 <= i <= n,
            r@ == v@.take(i as int),
        decreases n - i,
    {
        r.push(v[i]);
        proof {
            assert(r@ =~= v@.take(i + 1));
        }
        i += 1;
    }
    proof {
        assert(v@.take(n as int) =~= v@);
    }
    r
}

} // verus!
