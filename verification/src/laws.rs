//! General properties of the engine, stated and proved over the same
//! mathematical model that the board's contracts use: the live set as a
//! `Set<Seq<int>>`, [`nbr_count`], and [`next_gen`].

use vstd::prelude::*;
use crate::life::{nbr_count, nbr_hits, next_gen};
use crate::offsets::is_offset;
use crate::vector::{
    lemma_sadd_cancel, lemma_sadd_comm, lemma_sadd_exchange, lemma_sadd_ssub, sadd, ssub,
};

verus! {

/// Every live cell moved by the same vector `t`.
pub open spec fn translate(live: Set<Seq<int>>, t: Seq<int>) -> Set<Seq<int>> {
    live.map(|c: Seq<int>| sadd(c, t))
}

/// Neighbor counting is translation-invariant: moving every live cell and
/// the query position by the same vector leaves the count unchanged.
pub proof fn lemma_count_translation_invariant(
    live: Set<Seq<int>>,
    n: nat,
    p: Seq<int>,
    t: Seq<int>,
)
    requires
        p.len() == n,
        t.len() == n,
        forall|c: Seq<int>| live.contains(c) ==> c.len() == n,
    ensures
        nbr_count(translate(live, t), n, sadd(p, t)) == nbr_count(live, n, p),
{
    let h1 = nbr_hits(translate(live, t), n, sadd(p, t));
    let h2 = nbr_hits(live, n, p);
    assert forall|o: Seq<int>| h1.contains(o) <==> h2.contains(o) by {
        if is_offset(n, o) {
            lemma_sadd_exchange(p, t, o);
            if h2.contains(o) {
                let c = sadd(p, o);
                assert(live.contains(c));
                assert(sadd(sadd(p, t), o) == sadd(c, t));
                assert(translate(live, t).contains(sadd(sadd(p, t), o)));
            }
            if h1.contains(o) {
                let c = choose|c: Seq<int>|
                    live.contains(c) && sadd(sadd(p, t), o) == sadd(c, t);
                lemma_sadd_comm(c, t);
                lemma_sadd_comm(sadd(p, o), t);
                assert(sadd(t, c) == sadd(t, sadd(p, o)));
                lemma_sadd_cancel(t, c, sadd(p, o));
                assert(live.contains(sadd(p, o)));
            }
        }
    }
    assert(h1 =~= h2);
}

/// Advancing a generation is deterministic: the successor state is a
/// function of the current live set alone, so identical board states yield
/// identical results.
pub proof fn lemma_advance_deterministic(live1: Set<Seq<int>>, live2: Set<Seq<int>>, n: nat)
    requires
        live1 == live2,
    ensures
        next_gen(live1, n) == next_gen(live2, n),
{
}

/// Mutation and query fit together: after inserting `p` the cell at `p` is
/// live; after inserting and then removing it, it is dead; and both
/// mutations are idempotent. These are the live-set effects that `create`,
/// `kill` and `get` are specified by.
pub proof fn lemma_mutation_idempotent(live: Set<Seq<int>>, p: Seq<int>)
    ensures
        live.insert(p).contains(p),
        !live.insert(p).remove(p).contains(p),
        live.insert(p).insert(p) == live.insert(p),
        live.insert(p).remove(p).remove(p) == live.insert(p).remove(p),
{
    broadcast use vstd::set::group_set_axioms;

    assert(live.insert(p).insert(p) =~= live.insert(p));
    assert(live.insert(p).remove(p).remove(p) =~= live.insert(p).remove(p));
}

/// Isolation extinction: a board whose only live cell is `c` is empty after
/// one generation. The lone cell has no live neighbors, and no dead
/// position can see more than the one live cell, so nothing survives and
/// nothing is born.
pub proof fn lemma_isolated_cell_dies(c: Seq<int>, n: nat)
    requires
        c.len() == n,
    ensures
        next_gen(Set::<Seq<int>>::empty().insert(c), n) == Set::<Seq<int>>::empty(),
{
    broadcast use vstd::set::group_set_axioms;

    let live = Set::<Seq<int>>::empty().insert(c);
    assert forall|x: Seq<int>| !(#[trigger] next_gen(live, n).contains(x)) by {
        if x.len() == n {
            let hs = nbr_hits(live, n, x);
            let single = Set::<Seq<int>>::empty().insert(ssub(c, x));
            assert forall|o: Seq<int>| hs.contains(o) implies single.contains(o) by {
                assert(sadd(x, o) == c);
                lemma_sadd_ssub(x, c);
                lemma_sadd_cancel(x, o, ssub(c, x));
            }
            assert(hs.subset_of(single));
            assert(single.len() == 1);
            vstd::set_lib::lemma_len_subset(hs, single);
            assert(nbr_count(live, n, x) <= 1);
        }
    }
    assert(next_gen(live, n) =~= Set::<Seq<int>>::empty());
}

} // verus!
