//! The Moore neighborhood of dimension `n`: every vector of length `n` with
//! components in `{-1, 0, 1}`, except the all-zero vector. There are exactly
//! `3^n - 1` of them; [`generate_offsets`] enumerates them all, each once.

use vstd::prelude::*;
use crate::vector::{int_view, sneg, vec_copy, vec_is_zero, zero_vec};

verus! {

/// A vector of length `n` whose components all lie in `{-1, 0, 1}`.
pub open spec fn in_cube(n: nat, v: Seq<int>) -> bool {
    &&& v.len() == n
    &&& forall|i: int| 0 <= i < v.len() ==> -1 <= #[trigger] v[i] <= 1
}

/// A Moore-neighborhood offset for dimension `n`: in the cube, but not the
/// zero vector.
pub open spec fn is_offset(n: nat, v: Seq<int>) -> bool {
    in_cube(n, v) && v != zero_vec(n)
}

/// `3^n`, the size of the cube of dimension `n`.
pub open spec fn pow3(n: nat) -> nat
    decreases n,
{
    if n == 0 {
        1
    } else {
        3 * pow3((n - 1) as nat)
    }
}

/// The mathematical values of a sequence of coordinate vectors.
pub open spec fn seq_of_views(r: Seq<Vec<i64>>) -> Seq<Seq<int>> {
    r.map_values(|v: Vec<i64>| int_view(v@))
}

/// Some vector among the first `upto` of `vs` is the zero vector of
/// dimension `n`.
pub open spec fn has_zero(vs: Seq<Seq<int>>, upto: int, n: nat) -> bool {
    exists|s: int| 0 <= s < upto && vs[s] == zero_vec(n)
}

pub proof fn lemma_pow3_pos(n: nat)
    ensures
        pow3(n) >= 1,
    decreases n,
{
    if n > 0 {
        lemma_pow3_pos((n - 1) as nat);
    }
}

pub proof fn lemma_pow3_mono(a: nat, b: nat)
    requires
        a <= b,
    ensures
        pow3(a) <= pow3(b),
    decreases b,
{
    if a < b {
        lemma_pow3_mono(a, (b - 1) as nat);
        lemma_pow3_pos((b - 1) as nat);
    }
}

/// The offset set is closed under negation: the mirror image of an offset is
/// an offset.
pub proof fn lemma_offset_neg(n: nat, o: Seq<int>)
    requires
        is_offset(n, o),
    ensures
        is_offset(n, sneg(o)),
        sneg(o).len() == n,
    {
    assert(sneg(o).len() == n);
    assert forall|i: int| 0 <= i < sneg(o).len() implies -1 <= #[trigger] sneg(o)[i] <= 1 by {
        assert(sneg(o)[i] == -o[i]);
    }
    if sneg(o) == zero_vec(n) {
        assert forall|i: int| 0 <= i < o.len() implies o[i] == 0 by {
            assert(sneg(o)[i] == zero_vec(n)[i]);
        }
        assert(o =~= zero_vec(n));
    }
}

/// Pushing a component commutes with taking mathematical values.
pub proof fn lemma_int_view_push(v: Seq<i64>, x: i64)
    ensures
        int_view(v.push(x)) == int_view(v).push(x as int),
{
    assert(int_view(v.push(x)) =~= int_view(v).push(x as int));
}

/// Enumerates the Moore neighborhood of dimension `n`: all `3^n - 1` offset
/// vectors, each exactly once.
///
/// Starting from the one-dimensional cube `{[-1], [0], [1]}`, each further
/// dimension extends every vector by each of `{-1, 0, 1}`; at the end the
/// single all-zero vector is filtered out.
#[verifier::loop_isolation(false)]
pub fn generate_offsets(n: usize) -> (r: Vec<Vec<i64>>)
    requires
        1 <= n,
        pow3(n as nat) <= usize::MAX,
    ensures
        r@.len() == pow3(n as nat) - 1,
        forall|a: int| 0 <= a < r@.len() ==> is_offset(n as nat, #[trigger] seq_of_views(r@)[a]),
        forall|a: int, b: int|
            0 <= a < b < r@.len() ==> seq_of_views(r@)[a] != seq_of_views(r@)[b],
        forall|o: Seq<int>| is_offset(n as nat, o) ==> seq_of_views(r@).contains(o),
{
    let mut ns: Vec<Vec<i64>> = Vec::new();
    let mut v0: Vec<i64> = Vec::new();
    v0.push(-1);
    ns.push(v0);
    let mut v1: Vec<i64> = Vec::new();
    v1.push(0);
    ns.push(v1);
    let mut v2: Vec<i64> = Vec::new();
    v2.push(1);
    ns.push(v2);
    proof {
        assert(pow3(0) == 1);
        assert(pow3(1) == 3);
        assert(seq_of_views(ns@)[0] =~= seq![-1int]);
        assert(seq_of_views(ns@)[1] =~= seq![0int]);
        assert(seq_of_views(ns@)[2] =~= seq![1int]);
        assert(seq_of_views(ns@)[0][0] == -1);
        assert(seq_of_views(ns@)[1][0] == 0);
        assert(seq_of_views(ns@)[2][0] == 1);
        assert forall|v: Seq<int>| in_cube(1, v) implies seq_of_views(ns@).contains(v) by {
            if v[0] == -1 {
                assert(v =~= seq_of_views(ns@)[0]);
            } else if v[0] == 0 {
                assert(v =~= seq_of_views(ns@)[1]);
            } else {
                assert(v =~= seq_of_views(ns@)[2]);
            }
            assert(seq_of_views(ns@).contains(v));
        }
    }
    let mut k: usize = 1;
    while k < n
        invariant
            1 <= k <= n,
            ns@.len() == pow3(k as nat),
            forall|a: int|
                0 <= a < ns@.len() ==> in_cube(k as nat, #[trigger] seq_of_views(ns@)[a]),
            forall|a: int, b: int|
                0 <= a < b < ns@.len() ==> seq_of_views(ns@)[a] != seq_of_views(ns@)[b],
            forall|v: Seq<int>| in_cube(k as nat, v) ==> seq_of_views(ns@).contains(v),
        decreases n - k,
    {
        proof {
            lemma_pow3_mono((k + 1) as nat, n as nat);
        }
        let m: usize = ns.len();
        let mut nxt: Vec<Vec<i64>> = Vec::new();
        let mut i: usize = 0;
        while i < m
            invariant
                0 <= i <= m,
                nxt@.len() == 3 * i,
                forall|j: int|
                    0 <= j < nxt@.len() ==> #[trigger] seq_of_views(nxt@)[j] == seq_of_views(
                        ns@,
                    )[j / 3].push(j % 3 - 1),
            decreases m - i,
        {
            let ghost nxt0 = nxt@;
            let base = &ns[i];
            let mut ea = vec_copy(base);
            ea.push(-1);
            nxt.push(ea);
            let mut eb = vec_copy(base);
            eb.push(0);
            nxt.push(eb);
            let mut ec = vec_copy(base);
            ec.push(1);
            nxt.push(ec);
            proof {
                lemma_int_view_push(ns@[i as int]@, -1i64);
                lemma_int_view_push(ns@[i as int]@, 0i64);
                lemma_int_view_push(ns@[i as int]@, 1i64);
                assert forall|j: int| 0 <= j < nxt@.len() implies #[trigger] seq_of_views(
                    nxt@,
                )[j] == seq_of_views(ns@)[j / 3].push(j % 3 - 1) by {
                    if j < 3 * i {
                        assert(nxt@[j] == nxt0[j]);
                        assert(seq_of_views(nxt@)[j] == seq_of_views(nxt0)[j]);
                    } else {
                        assert(j / 3 == i && (j == 3 * i || j == 3 * i + 1 || j == 3 * i + 2));
                    }
                }
            }
            i += 1;
        }
        proof {
            let vs = seq_of_views(ns@);
            let ws = seq_of_views(nxt@);
            let kk = (k + 1) as nat;
            assert(nxt@.len() == 3 * pow3(k as nat) == pow3(kk));
            assert forall|a: int| 0 <= a < nxt@.len() implies in_cube(kk, #[trigger] ws[a]) by {
                assert(0 <= a / 3 < ns@.len());
                let w = vs[a / 3];
                assert(in_cube(k as nat, w));
                assert(ws[a] == w.push(a % 3 - 1));
                assert forall|i2: int| 0 <= i2 < ws[a].len() implies -1 <= #[trigger] ws[a][i2]
                    <= 1 by {
                    if i2 < w.len() {
                        assert(ws[a][i2] == w[i2]);
                    } else {
                        assert(ws[a][i2] == a % 3 - 1);
                    }
                }
            }
            assert forall|a: int, b: int| 0 <= a < b < nxt@.len() implies ws[a] != ws[b] by {
                assert(ws[a] == vs[a / 3].push(a % 3 - 1));
                assert(ws[b] == vs[b / 3].push(b % 3 - 1));
                if ws[a] == ws[b] {
                    assert(ws[a].drop_last() =~= vs[a / 3]);
                    assert(ws[b].drop_last() =~= vs[b / 3]);
                    assert(vs[a / 3] == vs[b / 3]);
                    assert(in_cube(k as nat, vs[a / 3]));
                    assert(ws[a].last() == a % 3 - 1);
                    assert(ws[b].last() == b % 3 - 1);
                    if a / 3 < b / 3 {
                        assert(vs[a / 3] != vs[b / 3]);
                    } else if b / 3 < a / 3 {
                        assert(vs[b / 3] != vs[a / 3]);
                    }
                    assert(a / 3 == b / 3 && a % 3 == b % 3);
                    assert(a == b);
                }
            }
            assert forall|v: Seq<int>| in_cube(kk, v) implies ws.contains(v) by {
                let w = v.drop_last();
                let d = v.last();
                assert(v[v.len() - 1] == d && -1 <= d <= 1);
                assert forall|i2: int| 0 <= i2 < w.len() implies -1 <= #[trigger] w[i2] <= 1 by {
                    assert(w[i2] == v[i2]);
                }
                assert(in_cube(k as nat, w));
                assert(vs.contains(w));
                let p = choose|p: int| 0 <= p < vs.len() && vs[p] == w;
                let j = 3 * p + (d + 1);
                assert(0 <= j < 3 * ns@.len());
                assert(j / 3 == p && j % 3 == d + 1);
                assert(ws[j] == w.push(d));
                assert(v =~= w.push(d));
                assert(ws.contains(v));
            }
        }
        ns = nxt;
        k += 1;
    }
    let m: usize = ns.len();
    let mut out: Vec<Vec<i64>> = Vec::new();
    let mut i: usize = 0;
    while i < m
        invariant
            0 <= i <= m,
            out@.len() == i - (if has_zero(seq_of_views(ns@), i as int, n as nat) {
                1int
            } else {
                0int
            }),
            forall|a: int|
                0 <= a < out@.len() ==> is_offset(n as nat, #[trigger] seq_of_views(out@)[a]),
            forall|a: int|
                0 <= a < out@.len() ==> seq_of_views(ns@).take(i as int).contains(
                    #[trigger] seq_of_views(out@)[a],
                ),
            forall|a: int, b: int|
                0 <= a < b < out@.len() ==> seq_of_views(out@)[a] != seq_of_views(out@)[b],
            forall|s: int|
                0 <= s < i ==> (#[trigger] seq_of_views(ns@)[s] == zero_vec(n as nat)
                    || seq_of_views(out@).contains(seq_of_views(ns@)[s])),
        decreases m - i,
    {
        let ghost old_out = out@;
        let ghost vs = seq_of_views(ns@);
        let z = vec_is_zero(&ns[i]);
        if !z {
            let e = vec_copy(&ns[i]);
            out.push(e);
            proof {
                assert(seq_of_views(out@) =~= seq_of_views(old_out).push(vs[i as int]));
                assert(in_cube(n as nat, vs[i as int]));
                assert(is_offset(n as nat, vs[i as int]));
                assert forall|a: int| 0 <= a < out@.len() implies vs.take(i + 1).contains(
                    #[trigger] seq_of_views(out@)[a],
                ) by {
                    if a < old_out.len() {
                        let s = choose|s: int|
                            0 <= s < i && vs.take(i as int)[s] == seq_of_views(old_out)[a];
                        assert(vs.take(i + 1)[s] == seq_of_views(out@)[a]);
                    } else {
                        assert(vs.take(i + 1)[i as int] == seq_of_views(out@)[a]);
                    }
                }
                assert forall|a: int, b: int| 0 <= a < b < out@.len() implies seq_of_views(
                    out@,
                )[a] != seq_of_views(out@)[b] by {
                    if b == old_out.len() {
                        let s = choose|s: int|
                            0 <= s < i && vs.take(i as int)[s] == seq_of_views(old_out)[a];
                        assert(vs[s] == seq_of_views(out@)[a]);
                        assert(vs[s] != vs[i as int]);
                    }
                }
                assert(!has_zero(vs, i as int, n as nat) ==> !has_zero(
                    vs,
                    i + 1,
                    n as nat,
                ));
                assert forall|s: int|
                    0 <= s < i + 1 && !(seq_of_views(ns@)[s] == zero_vec(
                        n as nat,
                    )) implies seq_of_views(out@).contains(#[trigger] seq_of_views(ns@)[s]) by {
                    if s < i {
                        let t = choose|t: int|
                            0 <= t < seq_of_views(old_out).len() && seq_of_views(old_out)[t]
                                == vs[s];
                        assert(seq_of_views(out@)[t] == vs[s]);
                    } else {
                        assert(seq_of_views(out@)[old_out.len() as int] == vs[i as int]);
                    }
                }
            }
        } else {
            proof {
                assert(vs[i as int] == zero_vec(n as nat));
                assert(has_zero(vs, i + 1, n as nat));
            }
        }
        i += 1;
    }
    proof {
        let vs = seq_of_views(ns@);
        assert(in_cube(n as nat, zero_vec(n as nat)));
        assert(vs.contains(zero_vec(n as nat)));
        let s = choose|s: int| 0 <= s < vs.len() && vs[s] == zero_vec(n as nat);
        assert(has_zero(vs, m as int, n as nat));
        assert(out@.len() == pow3(n as nat) - 1);
        assert forall|o: Seq<int>| is_offset(n as nat, o) implies seq_of_views(out@).contains(
            o,
        ) by {
            assert(vs.contains(o));
            let t = choose|t: int| 0 <= t < vs.len() && vs[t] == o;
            assert(vs[t] != zero_vec(n as nat));
            assert(seq_of_views(out@).contains(vs[t]));
        }
    }
    out
}

} // verus!
