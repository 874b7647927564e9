//! The sparse board and its engine.
//!
//! A [`Life`] value holds the set of live cells of an `n`-dimensional Game
//! of Life, together with the cached Moore-neighborhood offsets for `n`.
//! Contracts speak of the board through its mathematical model: the set of
//! live positions as `Seq<int>` values ([`Life::live`]), the neighbor count
//! [`nbr_count`], and the one-generation successor [`next_gen`].

use vstd::prelude::*;
use crate::offsets::{generate_offsets, is_offset, pow3, seq_of_views};
use crate::vector::{
    in_range, int_view, lemma_sadd_comm, lemma_sadd_neg, sadd, sneg, vec_add, vec_copy, vec_eq,
};
use crate::offsets::lemma_offset_neg;

verus! {

/// The offsets whose application to `p` lands on a live cell: one per live
/// neighbor of `p`.
pub open spec fn nbr_hits(live: Set<Seq<int>>, n: nat, p: Seq<int>) -> Set<Seq<int>> {
    Set::new(|o: Seq<int>| is_offset(n, o) && live.contains(sadd(p, o)))
}

/// How many live neighbors position `p` has on a board with live set `live`.
pub open spec fn nbr_count(live: Set<Seq<int>>, n: nat, p: Seq<int>) -> nat {
    nbr_hits(live, n, p).len()
}

/// The live set after one synchronous generation: a live cell survives with
/// 2 or 3 live neighbors, a dead cell is born with exactly 3, everything
/// else dies or stays dead.
pub open spec fn next_gen(live: Set<Seq<int>>, n: nat) -> Set<Seq<int>> {
    Set::new(
        |c: Seq<int>|
            c.len() == n && (if live.contains(c) {
                nbr_count(live, n, c) == 2 || nbr_count(live, n, c) == 3
            } else {
                nbr_count(live, n, c) == 3
            }),
    )
}

/// The offsets among the first `upto` entries of `offs` that land on a live
/// cell from `p`.
pub open spec fn hits_upto(
    live: Set<Seq<int>>,
    offs: Seq<Seq<int>>,
    p: Seq<int>,
    upto: int,
) -> Set<Seq<int>> {
    Set::new(
        |o: Seq<int>|
            exists|j: int| 0 <= j < upto && offs[j] == o && live.contains(sadd(p, o)),
    )
}

/// The mathematical keys of a neighbor-count list: the recorded positions.
pub open spec fn keys_of(r: Seq<(Vec<i64>, usize)>) -> Seq<Seq<int>> {
    r.map_values(|e: (Vec<i64>, usize)| int_view(e.0@))
}

/// A well-formed neighbor-count list for a board with live set `live` and
/// dimension `n`: every entry is a dead position of dimension `n` with at
/// least one live neighbor, recorded once, with its exact neighbor count.
pub open spec fn ewn_inv(live: Set<Seq<int>>, n: nat, r: Seq<(Vec<i64>, usize)>) -> bool {
    &&& forall|a: int| 0 <= a < r.len() ==> (#[trigger] keys_of(r)[a]).len() == n
    &&& forall|a: int| 0 <= a < r.len() ==> !live.contains(#[trigger] keys_of(r)[a])
    &&& forall|a: int| 0 <= a < r.len() ==> in_range(#[trigger] keys_of(r)[a], 1)
    &&& forall|a: int| 0 <= a < r.len() ==> (#[trigger] r[a]).1 == nbr_count(live, n, keys_of(r)[a])
    &&& forall|a: int| 0 <= a < r.len() ==> nbr_count(live, n, #[trigger] keys_of(r)[a]) >= 1
    &&& keys_of(r).no_duplicates()
}

/// Position `q` needs no further attention during the candidate scan: it is
/// live, or it is already recorded under the keys `ks`.
spec fn covered(live: Set<Seq<int>>, ks: Seq<Seq<int>>, q: Seq<int>) -> bool {
    live.contains(q) || ks.contains(q)
}

/// Whether the candidate list already records position `p`.
#[verifier::loop_isolation(false)]
fn ewn_has_key(list: &Vec<(Vec<i64>, usize)>, p: &Vec<i64>) -> (r: bool)
    ensures
        r == keys_of(list@).contains(int_view(p@)),
{
    let m: usize = list.len();
    let mut i: usize = 0;
    while i < m
        invariant
            0 <= i <= m,
            forall|j: int| 0 <= j < i ==> #[trigger] keys_of(list@)[j] != int_view(p@),
        decreases m - i,
    {
        let e = &list[i];
        if vec_eq(&e.0, p) {
            proof {
                assert(keys_of(list@)[i as int] == int_view(p@));
                assert(keys_of(list@).contains(int_view(p@)));
            }
            return true;
        }
        i += 1;
    }
    proof {
        if keys_of(list@).contains(int_view(p@)) {
            let j = choose|j: int|
                0 <= j < keys_of(list@).len() && keys_of(list@)[j] == int_view(p@);
            assert(keys_of(list@)[j] != int_view(p@));
        }
    }
    false
}

/// An `n`-dimensional Game of Life board: the set of live cells, sparse and
/// unbounded, plus the cached offset vectors of the Moore neighborhood.
#[derive(Clone)]
pub struct Life {
    n: usize,
    cells: Vec<Vec<i64>>,
    neighbors: Vec<Vec<i64>>,
}

impl Life {
    /// The board's dimension.
    pub closed spec fn dim(self) -> nat {
        self.n as nat
    }

    /// The live cells in storage order.
    pub closed spec fn cells_seq(self) -> Seq<Seq<int>> {
        seq_of_views(self.cells@)
    }

    /// The set of live cells: the board's mathematical state.
    pub closed spec fn live(self) -> Set<Seq<int>> {
        self.cells_seq().to_set()
    }

    /// The cached offsets in storage order.
    pub closed spec fn offs_seq(self) -> Seq<Seq<int>> {
        seq_of_views(self.neighbors@)
    }

    /// Well-formedness: every stored cell has exactly `dim` components and
    /// occurs once, and the cache holds every Moore-neighborhood offset of
    /// dimension `dim` exactly once.
    pub closed spec fn wf(self) -> bool {
        &&& self.n >= 1
        &&& forall|a: int|
            0 <= a < self.cells_seq().len() ==> (#[trigger] self.cells_seq()[a]).len()
                == self.dim()
        &&& self.cells_seq().no_duplicates()
        &&& self.offs_seq().len() == pow3(self.dim()) - 1
        &&& forall|a: int|
            0 <= a < self.offs_seq().len() ==> is_offset(self.dim(), #[trigger] self.offs_seq()[a])
        &&& self.offs_seq().no_duplicates()
        &&& forall|o: Seq<int>| is_offset(self.dim(), o) ==> self.offs_seq().contains(o)
    }

    /// All Moore-neighborhood offsets for dimension `n`: exactly `3^n - 1`
    /// vectors, each exactly once, none of them the zero vector.
    pub fn gen_offsets(n: usize) -> (r: Vec<Vec<i64>>)
        requires
            1 <= n,
            pow3(n as nat) <= usize::MAX,
        ensures
            r@.len() == pow3(n as nat) - 1,
            forall|a: int|
                0 <= a < r@.len() ==> is_offset(n as nat, #[trigger] seq_of_views(r@)[a]),
            seq_of_views(r@).no_duplicates(),
            forall|o: Seq<int>| is_offset(n as nat, o) ==> seq_of_views(r@).contains(o),
    {
        let r = generate_offsets(n);
        proof {
            assert forall|a: int, b: int|
                0 <= a < seq_of_views(r@).len() && 0 <= b < seq_of_views(r@).len() && a != b
                implies seq_of_views(r@)[a] != seq_of_views(r@)[b] by {
                if a < b {
                    assert(seq_of_views(r@)[a] != seq_of_views(r@)[b]);
                } else {
                    assert(seq_of_views(r@)[b] != seq_of_views(r@)[a]);
                }
            }
        }
        r
    }

    /// A fresh, empty board of dimension `n`. Generates and caches the
    /// `3^n - 1` neighbor offsets once.
    pub fn new(n: usize) -> (r: Life)
        requires
            1 <= n,
            pow3(n as nat) <= usize::MAX,
        ensures
            r.wf(),
            r.dim() == n as nat,
            r.live() == Set::<Seq<int>>::empty(),
    {
        let neighbors = generate_offsets(n);
        let r = Life { n, cells: Vec::new(), neighbors };
        proof {
            assert(r.cells_seq().len() == 0);
            assert(r.live() =~= Set::<Seq<int>>::empty());
            assert forall|a: int, b: int|
                0 <= a < r.offs_seq().len() && 0 <= b < r.offs_seq().len() && a != b implies
                r.offs_seq()[a] != r.offs_seq()[b] by {
                if a < b {
                    assert(seq_of_views(r.neighbors@)[a] != seq_of_views(r.neighbors@)[b]);
                } else {
                    assert(seq_of_views(r.neighbors@)[b] != seq_of_views(r.neighbors@)[a]);
                }
            }
        }
        r
    }

    /// True exactly when there is a live cell at `pos`.
    #[verifier::loop_isolation(false)]
    pub fn get(&self, pos: &Vec<i64>) -> (r: bool)
        requires
            self.wf(),
            pos@.len() == self.dim(),
        ensures
            r == self.live().contains(int_view(pos@)),
    {
        let m: usize = self.cells.len();
        let mut i: usize = 0;
        while i < m
            invariant
                0 <= i <= m,
                forall|j: int| 0 <= j < i ==> #[trigger] self.cells_seq()[j] != int_view(pos@),
            decreases m - i,
        {
            if vec_eq(&self.cells[i], pos) {
                proof {
                    assert(self.cells_seq()[i as int] == int_view(pos@));
                    assert(self.cells_seq().contains(int_view(pos@)));
                }
                return true;
            }
            i += 1;
        }
        proof {
            if self.cells_seq().contains(int_view(pos@)) {
                let j = choose|j: int|
                    0 <= j < self.cells_seq().len() && self.cells_seq()[j] == int_view(pos@);
                assert(self.cells_seq()[j] != int_view(pos@));
            }
        }
        false
    }

    /// Makes the cell at `pos` live. Inserting an already-live cell is a
    /// no-op: the live set gains at most the one position.
    pub fn create(&mut self, pos: Vec<i64>)
        requires
            old(self).wf(),
            pos@.len() == old(self).dim(),
        ensures
            final(self).wf(),
            final(self).dim() == old(self).dim(),
            final(self).live() == old(self).live().insert(int_view(pos@)),
    {
        let present = self.get(&pos);
        if !present {
            let ghost before = self.cells@;
            self.cells.push(pos);
            proof {
                assert(self.cells_seq() =~= old(self).cells_seq().push(int_view(pos@)));
                assert forall|x: Seq<int>| self.cells_seq().contains(x) <==> (old(
                    self,
                ).cells_seq().contains(x) || x == int_view(pos@)) by {
                    if self.cells_seq().contains(x) {
                        let j = choose|j: int|
                            0 <= j < self.cells_seq().len() && self.cells_seq()[j] == x;
                        if j < old(self).cells_seq().len() {
                            assert(old(self).cells_seq()[j] == x);
                        }
                    }
                    if old(self).cells_seq().contains(x) {
                        let j = choose|j: int|
                            0 <= j < old(self).cells_seq().len() && old(self).cells_seq()[j]
                                == x;
                        assert(self.cells_seq()[j] == x);
                    }
                    if x == int_view(pos@) {
                        assert(self.cells_seq()[old(self).cells_seq().len() as int] == x);
                    }
                }
                assert(self.live() =~= old(self).live().insert(int_view(pos@)));
                assert forall|a: int, b: int|
                    0 <= a < self.cells_seq().len() && 0 <= b < self.cells_seq().len() && a != b
                    implies self.cells_seq()[a] != self.cells_seq()[b] by {
                    let last = old(self).cells_seq().len() as int;
                    if a == last {
                        assert(old(self).cells_seq()[b] != int_view(pos@));
                    } else if b == last {
                        assert(old(self).cells_seq()[a] != int_view(pos@));
                    }
                }
            }
        } else {
            proof {
                assert(old(self).live().insert(int_view(pos@)) =~= old(self).live());
            }
        }
    }

    /// Kills the cell at `pos`. Removing an already-dead cell is a no-op:
    /// the live set loses at most the one position.
    #[verifier::loop_isolation(false)]
    pub fn kill(&mut self, pos: &Vec<i64>)
        requires
            old(self).wf(),
            pos@.len() == old(self).dim(),
        ensures
            final(self).wf(),
            final(self).dim() == old(self).dim(),
            final(self).live() == old(self).live().remove(int_view(pos@)),
    {
        let m: usize = self.cells.len();
        let mut i: usize = 0;
        while i < m
            invariant
                0 <= i <= m,
                *self == *old(self),
                forall|j: int| 0 <= j < i ==> #[trigger] self.cells_seq()[j] != int_view(pos@),
            decreases m - i,
        {
            if vec_eq(&self.cells[i], pos) {
                self.cells.remove(i);
                proof {
                    let pv = int_view(pos@);
                    let oldc = old(self).cells_seq();
                    assert(oldc[i as int] == pv);
                    assert(self.cells_seq() =~= oldc.remove(i as int));
                    assert forall|x: Seq<int>| self.cells_seq().contains(x) <==> (oldc.contains(
                        x,
                    ) && x != pv) by {
                        if self.cells_seq().contains(x) {
                            let j = choose|j: int|
                                0 <= j < self.cells_seq().len() && self.cells_seq()[j] == x;
                            if j < i {
                                assert(oldc[j] == x);
                                assert(oldc[j] != oldc[i as int]);
                            } else {
                                assert(oldc[j + 1] == x);
                                assert(oldc[j + 1] != oldc[i as int]);
                            }
                        }
                        if oldc.contains(x) && x != pv {
                            let j = choose|j: int| 0 <= j < oldc.len() && oldc[j] == x;
                            if j < i {
                                assert(self.cells_seq()[j] == x);
                            } else {
                                assert(j != i);
                                assert(self.cells_seq()[j - 1] == x);
                            }
                        }
                    }
                    assert(self.live() =~= old(self).live().remove(pv));
                    assert forall|a: int, b: int|
                        0 <= a < self.cells_seq().len() && 0 <= b < self.cells_seq().len() && a
                        != b implies self.cells_seq()[a] != self.cells_seq()[b] by {
                        let a2: int = if a < i { a } else { a + 1 };
                        let b2: int = if b < i { b } else { b + 1 };
                        assert(self.cells_seq()[a] == oldc[a2]);
                        assert(self.cells_seq()[b] == oldc[b2]);
                    }
                }
                return ;
            }
            i += 1;
        }
        proof {
            if old(self).cells_seq().contains(int_view(pos@)) {
                let j = choose|j: int|
                    0 <= j < old(self).cells_seq().len() && old(self).cells_seq()[j] == int_view(
                        pos@,
                    );
                assert(old(self).cells_seq()[j] != int_view(pos@));
            }
            assert(self.live() =~= old(self).live().remove(int_view(pos@)));
        }
    }

    /// How many cells are currently live.
    pub fn live_count(&self) -> (r: usize)
        requires
            self.wf(),
        ensures
            r == self.live().len(),
            self.live().finite(),
    {
        proof {
            self.cells_seq().unique_seq_to_set();
            vstd::seq_lib::seq_to_set_is_finite(self.cells_seq());
        }
        self.cells.len()
    }

    /// The live cells, one copy of each, in unspecified order.
    #[verifier::loop_isolation(false)]
    pub fn live_cells(&self) -> (r: Vec<Vec<i64>>)
        requires
            self.wf(),
        ensures
            seq_of_views(r@).no_duplicates(),
            forall|a: int|
                0 <= a < r@.len() ==> self.live().contains(#[trigger] seq_of_views(r@)[a]),
            forall|c: Seq<int>| self.live().contains(c) ==> seq_of_views(r@).contains(c),
    {
        let m: usize = self.cells.len();
        let mut r: Vec<Vec<i64>> = Vec::new();
        let mut i: usize = 0;
        while i < m
            invariant
                0 <= i <= m,
                r@.len() == i,
                forall|j: int| 0 <= j < i ==> #[trigger] seq_of_views(r@)[j]
                    == self.cells_seq()[j],
            decreases m - i,
        {
            let ghost r0 = r@;
            let e = vec_copy(&self.cells[i]);
            r.push(e);
            proof {
                assert forall|j: int| 0 <= j < i + 1 implies #[trigger] seq_of_views(r@)[j]
                    == self.cells_seq()[j] by {
                    if j < i {
                        assert(r@[j] == r0[j]);
                        assert(seq_of_views(r0)[j] == self.cells_seq()[j]);
                    } else {
                        assert(r@[j]@ == self.cells@[j]@);
                    }
                }
            }
            i += 1;
        }
        proof {
            assert(seq_of_views(r@) =~= self.cells_seq());
        }
        r
    }

    /// How many live neighbors `pos` has: one for every Moore-neighborhood
    /// offset that lands on a live cell. Between 0 and `3^dim - 1`.
    ///
    /// Overflow is ruled out by contract rather than wrapped: the query
    /// position must leave one unit of headroom inside the `i64` range on
    /// every axis, so stepping to each neighbor stays representable.
    #[verifier::loop_isolation(false)]
    pub fn count_neighbors(&self, pos: &Vec<i64>) -> (r: usize)
        requires
            self.wf(),
            pos@.len() == self.dim(),
            in_range(int_view(pos@), 1),
        ensures
            r == nbr_count(self.live(), self.dim(), int_view(pos@)),
            nbr_hits(self.live(), self.dim(), int_view(pos@)).finite(),
            r <= pow3(self.dim()) - 1,
    {
        let ghost pv = int_view(pos@);
        let ghost offs = self.offs_seq();
        let m: usize = self.neighbors.len();
        let mut cnt: usize = 0;
        let mut i: usize = 0;
        proof {
            broadcast use vstd::set::group_set_axioms;

            assert(hits_upto(self.live(), offs, pv, 0) =~= Set::<Seq<int>>::empty());
        }
        while i < m
            invariant
                0 <= i <= m,
                cnt <= i,
                hits_upto(self.live(), offs, pv, i as int).finite(),
                cnt == hits_upto(self.live(), offs, pv, i as int).len(),
            decreases m - i,
        {
            proof {
                assert(offs[i as int] == int_view(self.neighbors@[i as int]@));
                assert(is_offset(self.dim(), offs[i as int]));
                assert(self.neighbors@[i as int]@.len() == offs[i as int].len());
                assert forall|j: int| 0 <= j < self.neighbors@[i as int]@.len() implies i64::MIN
                    <= #[trigger] (self.neighbors@[i as int]@[j] + pos@[j]) <= i64::MAX by {
                    assert(offs[i as int][j] == self.neighbors@[i as int]@[j] as int);
                    assert(-1 <= offs[i as int][j] <= 1);
                    assert(int_view(pos@)[j] == pos@[j] as int);
                    assert(i64::MIN + 1 <= int_view(pos@)[j] <= i64::MAX - 1);
                }
            }
            let q = vec_add(&self.neighbors[i], pos);
            let hit = self.get(&q);
            proof {
                broadcast use vstd::set::group_set_axioms;

                lemma_sadd_comm(offs[i as int], pv);
                assert(int_view(q@) == sadd(pv, offs[i as int]));
                let h0 = hits_upto(self.live(), offs, pv, i as int);
                let h1 = hits_upto(self.live(), offs, pv, i + 1);
                if hit {
                    assert(self.live().contains(sadd(pv, offs[i as int])));
                    if h0.contains(offs[i as int]) {
                        let j = choose|j: int|
                            0 <= j < i && offs[j] == offs[i as int] && self.live().contains(
                                sadd(pv, offs[j]),
                            );
                        assert(offs[j] != offs[i as int]);
                    }
                    assert forall|o: Seq<int>| h1.contains(o) implies h0.insert(
                        offs[i as int],
                    ).contains(o) by {
                        let j = choose|j: int|
                            0 <= j < i + 1 && offs[j] == o && self.live().contains(sadd(pv, o));
                        if j < i {
                            assert(h0.contains(o));
                        }
                    }
                    assert forall|o: Seq<int>| h0.insert(offs[i as int]).contains(o) implies
                        h1.contains(o) by {
                        if h0.contains(o) {
                            let j = choose|j: int|
                                0 <= j < i && offs[j] == o && self.live().contains(sadd(pv, o));
                            assert(0 <= j < i + 1 && offs[j] == o);
                        } else {
                            assert(o == offs[i as int]);
                            assert(0 <= i < i + 1 && offs[i as int] == o
                                && self.live().contains(sadd(pv, o)));
                        }
                    }
                    assert(h1 =~= h0.insert(offs[i as int]));
                    assert(h1.len() == h0.len() + 1);
                } else {
                    assert forall|o: Seq<int>| h1.contains(o) implies h0.contains(o) by {
                        let j = choose|j: int|
                            0 <= j < i + 1 && offs[j] == o && self.live().contains(sadd(pv, o));
                        if j == i {
                            assert(self.live().contains(sadd(pv, offs[i as int])));
                        }
                    }
                    assert(h1 =~= h0);
                }
            }
            if hit {
                cnt += 1;
            }
            i += 1;
        }
        proof {
            let hfull = hits_upto(self.live(), offs, pv, m as int);
            let hs = nbr_hits(self.live(), self.dim(), pv);
            assert forall|o: Seq<int>| hs.contains(o) implies hfull.contains(o) by {
                assert(offs.contains(o));
                let j = choose|j: int| 0 <= j < offs.len() && offs[j] == o;
                assert(0 <= j < m && offs[j] == o && self.live().contains(sadd(pv, o)));
            }
            assert forall|o: Seq<int>| hfull.contains(o) implies hs.contains(o) by {
                let j = choose|j: int|
                    0 <= j < m && offs[j] == o && self.live().contains(sadd(pv, o));
                assert(is_offset(self.dim(), offs[j]));
            }
            assert(hfull =~= hs);
        }
        cnt
    }

    /// Every dead position with at least one live neighbor, paired with its
    /// exact live-neighbor count; each such position recorded exactly once.
    #[verifier::loop_isolation(false)]
    pub fn empty_with_neighbors(&self) -> (r: Vec<(Vec<i64>, usize)>)
        requires
            self.wf(),
            forall|c: Seq<int>| self.live().contains(c) ==> in_range(c, 2),
        ensures
            ewn_inv(self.live(), self.dim(), r@),
            forall|p: Seq<int>|
                #![trigger nbr_count(self.live(), self.dim(), p)]
                (p.len() == self.dim() && !self.live().contains(p) && nbr_count(
                    self.live(),
                    self.dim(),
                    p,
                ) >= 1) ==> keys_of(r@).contains(p),
    {
        let mc: usize = self.cells.len();
        let mo: usize = self.neighbors.len();
        let mut out: Vec<(Vec<i64>, usize)> = Vec::new();
        let mut ci: usize = 0;
        while ci < mc
            invariant
                0 <= ci <= mc,
                ewn_inv(self.live(), self.dim(), out@),
                forall|c2: int, o2: int|
                    #![trigger self.cells_seq()[c2], self.offs_seq()[o2]]
                    0 <= c2 < ci && 0 <= o2 < mo ==> covered(
                        self.live(),
                        keys_of(out@),
                        sadd(self.cells_seq()[c2], self.offs_seq()[o2]),
                    ),
            decreases mc - ci,
        {
            let mut oi: usize = 0;
            while oi < mo
                invariant
                    0 <= oi <= mo,
                    ewn_inv(self.live(), self.dim(), out@),
                    forall|c2: int, o2: int|
                        #![trigger self.cells_seq()[c2], self.offs_seq()[o2]]
                        0 <= c2 < ci && 0 <= o2 < mo ==> covered(
                            self.live(),
                            keys_of(out@),
                            sadd(self.cells_seq()[c2], self.offs_seq()[o2]),
                        ),
                    forall|o2: int|
                        0 <= o2 < oi ==> covered(
                            self.live(),
                            keys_of(out@),
                            sadd(self.cells_seq()[ci as int], #[trigger] self.offs_seq()[o2]),
                        ),
                decreases mo - oi,
            {
                let ghost cv = self.cells_seq()[ci as int];
                let ghost ov = self.offs_seq()[oi as int];
                proof {
                    assert(cv == int_view(self.cells@[ci as int]@));
                    assert(ov == int_view(self.neighbors@[oi as int]@));
                    assert(self.live().contains(cv));
                    assert(in_range(cv, 2));
                    assert(is_offset(self.dim(), ov));
                    assert forall|j: int| 0 <= j < self.neighbors@[oi as int]@.len() implies
                        i64::MIN <= #[trigger] (self.neighbors@[oi as int]@[j]
                        + self.cells@[ci as int]@[j]) <= i64::MAX by {
                        assert(ov[j] == self.neighbors@[oi as int]@[j] as int);
                        assert(-1 <= ov[j] <= 1);
                        assert(cv[j] == self.cells@[ci as int]@[j] as int);
                        assert(i64::MIN + 2 <= cv[j] <= i64::MAX - 2);
                    }
                }
                let q = vec_add(&self.neighbors[oi], &self.cells[ci]);
                let ghost qv = int_view(q@);
                proof {
                    lemma_sadd_comm(ov, cv);
                    assert(qv == sadd(cv, ov));
                    assert forall|j: int| 0 <= j < qv.len() implies i64::MIN + 1
                        <= #[trigger] qv[j] <= i64::MAX - 1 by {
                        assert(qv[j] == cv[j] + ov[j]);
                        assert(-1 <= ov[j] <= 1);
                        assert(i64::MIN + 2 <= cv[j] <= i64::MAX - 2);
                    }
                    assert(in_range(qv, 1));
                }
                let is_live = self.get(&q);
                if !is_live {
                    let already = ewn_has_key(&out, &q);
                    if !already {
                        let cnt = self.count_neighbors(&q);
                        proof {
                            broadcast use vstd::set::group_set_axioms;

                            lemma_offset_neg(self.dim(), ov);
                            lemma_sadd_neg(cv, ov);
                            assert(sadd(qv, sneg(ov)) == cv);
                            assert(nbr_hits(self.live(), self.dim(), qv).contains(sneg(ov)));
                            if cnt == 0 {
                                nbr_hits(self.live(), self.dim(), qv).lemma_len0_is_empty();
                            }
                            assert(cnt >= 1);
                        }
                        let ghost old_out = out@;
                        let e = vec_copy(&q);
                        out.push((e, cnt));
                        proof {
                            assert forall|a: int| 0 <= a < out@.len() implies #[trigger] keys_of(
                                out@,
                            )[a] == (if a < old_out.len() {
                                keys_of(old_out)[a]
                            } else {
                                qv
                            }) && out@[a].1 == (if a < old_out.len() {
                                old_out[a].1
                            } else {
                                cnt
                            }) by {
                                if a < old_out.len() {
                                    assert(out@[a] == old_out[a]);
                                } else {
                                    assert(out@[a].0@ == q@);
                                }
                            }
                            assert forall|a: int, b: int|
                                0 <= a < out@.len() && 0 <= b < out@.len() && a != b implies
                                keys_of(out@)[a] != keys_of(out@)[b] by {
                                if a < old_out.len() && b < old_out.len() {
                                    assert(keys_of(old_out)[a] != keys_of(old_out)[b]);
                                } else if a < old_out.len() {
                                    assert(keys_of(old_out).contains(keys_of(old_out)[a]));
                                } else if b < old_out.len() {
                                    assert(keys_of(old_out).contains(keys_of(old_out)[b]));
                                }
                            }
                            assert(ewn_inv(self.live(), self.dim(), out@));
                            assert forall|x: Seq<int>| keys_of(old_out).contains(x) implies
                                keys_of(out@).contains(x) by {
                                let t = choose|t: int|
                                    0 <= t < keys_of(old_out).len() && keys_of(old_out)[t] == x;
                                assert(keys_of(out@)[t] == x);
                            }
                            assert(keys_of(out@)[old_out.len() as int] == qv);
                            assert(keys_of(out@).contains(qv));
                        }
                    }
                }
                proof {
                    assert(covered(self.live(), keys_of(out@), sadd(cv, ov)));
                    assert forall|o2: int| 0 <= o2 < oi + 1 implies covered(
                        self.live(),
                        keys_of(out@),
                        sadd(self.cells_seq()[ci as int], #[trigger] self.offs_seq()[o2]),
                    ) by {}
                }
                oi += 1;
            }
            ci += 1;
        }
        proof {
            assert forall|p: Seq<int>|
                #![trigger nbr_count(self.live(), self.dim(), p)]
                (p.len() == self.dim() && !self.live().contains(p) && nbr_count(
                    self.live(),
                    self.dim(),
                    p,
                ) >= 1) implies keys_of(out@).contains(p) by {
                let hs = nbr_hits(self.live(), self.dim(), p);
                assert(Set::<Seq<int>>::empty().len() == 0) by {
                    broadcast use vstd::set::group_set_axioms;

                }
                assert(exists|o: Seq<int>| hs.contains(o)) by {
                    if !(exists|o: Seq<int>| hs.contains(o)) {
                        assert(hs =~= Set::<Seq<int>>::empty());
                    }
                }
                let o = choose|o: Seq<int>| hs.contains(o);
                assert(is_offset(self.dim(), o) && self.live().contains(sadd(p, o)));
                let c = sadd(p, o);
                lemma_offset_neg(self.dim(), o);
                lemma_sadd_neg(p, o);
                assert(sadd(c, sneg(o)) == p);
                let ci2 = choose|j: int|
                    0 <= j < self.cells_seq().len() && self.cells_seq()[j] == c;
                assert(self.offs_seq().contains(sneg(o)));
                let oi2 = choose|j: int|
                    0 <= j < self.offs_seq().len() && self.offs_seq()[j] == sneg(o);
                assert(covered(
                    self.live(),
                    keys_of(out@),
                    sadd(self.cells_seq()[ci2], self.offs_seq()[oi2]),
                ));
            }
        }
        out
    }

    /// One synchronous generation: every live cell's and every candidate
    /// dead cell's neighbor count is taken against the old state, and the
    /// live set is replaced wholesale by the union of survivors and births.
    /// No update observes another cell's already-updated state.
    ///
    /// Overflow is ruled out by contract rather than wrapped: every live
    /// cell must leave two units of headroom inside the `i64` range on
    /// every axis, since the scan looks one step beyond each dead neighbor.
    #[verifier::loop_isolation(false)]
    pub fn cycle(&mut self)
        requires
            old(self).wf(),
            forall|c: Seq<int>| old(self).live().contains(c) ==> in_range(c, 2),
        ensures
            final(self).wf(),
            final(self).dim() == old(self).dim(),
            final(self).live() == next_gen(old(self).live(), old(self).dim()),
    {
        let ghost live0 = self.live();
        let ghost n = self.dim();
        let ns = self.empty_with_neighbors();
        let mc: usize = self.cells.len();
        let mut new_cells: Vec<Vec<i64>> = Vec::new();
        let mut i: usize = 0;
        while i < mc
            invariant
                0 <= i <= mc,
                forall|a: int|
                    0 <= a < new_cells@.len() ==> next_gen(live0, n).contains(
                        #[trigger] seq_of_views(new_cells@)[a],
                    ),
                forall|a: int|
                    0 <= a < new_cells@.len() ==> live0.contains(
                        #[trigger] seq_of_views(new_cells@)[a],
                    ),
                forall|a: int|
                    0 <= a < new_cells@.len() ==> self.cells_seq().take(i as int).contains(
                        #[trigger] seq_of_views(new_cells@)[a],
                    ),
                forall|a: int, b: int|
                    0 <= a < new_cells@.len() && 0 <= b < new_cells@.len() && a != b
                        ==> seq_of_views(new_cells@)[a] != seq_of_views(new_cells@)[b],
                forall|j: int|
                    0 <= j < i && next_gen(live0, n).contains(#[trigger] self.cells_seq()[j])
                        ==> seq_of_views(new_cells@).contains(self.cells_seq()[j]),
            decreases mc - i,
        {
            let ghost cv = self.cells_seq()[i as int];
            proof {
                assert(cv == int_view(self.cells@[i as int]@));
                assert(cv.len() == n);
                assert(self.live().contains(cv));
                assert(in_range(cv, 2));
                assert forall|j: int| 0 <= j < cv.len() implies i64::MIN + 1 <= #[trigger] cv[j]
                    <= i64::MAX - 1 by {
                    assert(i64::MIN + 2 <= cv[j] <= i64::MAX - 2);
                }
                assert(in_range(cv, 1));
            }
            let ghost before = new_cells@;
            let cnt = self.count_neighbors(&self.cells[i]);
            if cnt == 2 || cnt == 3 {
                let e = vec_copy(&self.cells[i]);
                new_cells.push(e);
                proof {
                    assert forall|a: int| 0 <= a < new_cells@.len() implies #[trigger] seq_of_views(
                        new_cells@,
                    )[a] == (if a < before.len() {
                        seq_of_views(before)[a]
                    } else {
                        cv
                    }) by {
                        if a < before.len() {
                            assert(new_cells@[a] == before[a]);
                        } else {
                            assert(new_cells@[a]@ == self.cells@[i as int]@);
                        }
                    }
                    assert(next_gen(live0, n).contains(cv));
                    assert forall|a: int| 0 <= a < new_cells@.len() implies self.cells_seq().take(
                        i + 1,
                    ).contains(#[trigger] seq_of_views(new_cells@)[a]) by {
                        if a < before.len() {
                            let t = choose|t: int|
                                0 <= t < i && self.cells_seq().take(i as int)[t]
                                    == seq_of_views(before)[a];
                            assert(self.cells_seq().take(i + 1)[t] == seq_of_views(
                                new_cells@,
                            )[a]);
                        } else {
                            assert(self.cells_seq().take(i + 1)[i as int] == cv);
                        }
                    }
                    assert forall|a: int, b: int|
                        0 <= a < new_cells@.len() && 0 <= b < new_cells@.len() && a != b implies
                        seq_of_views(new_cells@)[a] != seq_of_views(new_cells@)[b] by {
                        let last = before.len() as int;
                        if a == last || b == last {
                            let other: int = if a == last {
                                b
                            } else {
                                a
                            };
                            let t = choose|t: int|
                                0 <= t < i && self.cells_seq().take(i as int)[t]
                                    == seq_of_views(before)[other];
                            assert(self.cells_seq()[t] == seq_of_views(before)[other]);
                            assert(self.cells_seq()[t] != self.cells_seq()[i as int]);
                        }
                    }
                }
            }
            proof {
                assert forall|j: int|
                    0 <= j < i + 1 && next_gen(live0, n).contains(
                        #[trigger] self.cells_seq()[j],
                    ) implies seq_of_views(new_cells@).contains(self.cells_seq()[j]) by {
                    if cnt == 2 || cnt == 3 {
                        if j == i {
                            assert(seq_of_views(new_cells@)[before.len() as int] == cv);
                        } else {
                            let t = choose|t: int|
                                0 <= t < before.len() && seq_of_views(before)[t]
                                    == self.cells_seq()[j];
                            assert(seq_of_views(new_cells@)[t] == self.cells_seq()[j]);
                        }
                    } else {
                        if j == i {
                            assert(live0.contains(cv));
                            assert(nbr_count(live0, n, cv) == 2 || nbr_count(live0, n, cv)
                                == 3);
                            assert(cnt == nbr_count(live0, n, cv));
                        }
                    }
                }
            }
            i += 1;
        }
        let ghost nsurv = new_cells@.len() as int;
        let mb: usize = ns.len();
        let mut b: usize = 0;
        while b < mb
            invariant
                0 <= b <= mb,
                nsurv <= new_cells@.len(),
                forall|a: int|
                    0 <= a < new_cells@.len() ==> next_gen(live0, n).contains(
                        #[trigger] seq_of_views(new_cells@)[a],
                    ),
                forall|a: int|
                    0 <= a < nsurv ==> live0.contains(#[trigger] seq_of_views(new_cells@)[a]),
                forall|a: int|
                    nsurv <= a < new_cells@.len() ==> keys_of(ns@).take(b as int).contains(
                        #[trigger] seq_of_views(new_cells@)[a],
                    ),
                forall|a: int, b2: int|
                    0 <= a < new_cells@.len() && 0 <= b2 < new_cells@.len() && a != b2
                        ==> seq_of_views(new_cells@)[a] != seq_of_views(new_cells@)[b2],
                forall|j: int|
                    0 <= j < mc && next_gen(live0, n).contains(#[trigger] self.cells_seq()[j])
                        ==> seq_of_views(new_cells@).contains(self.cells_seq()[j]),
                forall|t: int|
                    0 <= t < b && (#[trigger] ns@[t]).1 == 3 ==> seq_of_views(
                        new_cells@,
                    ).contains(keys_of(ns@)[t]),
            decreases mb - b,
        {
            let pair = &ns[b];
            let is_birth = pair.1 == 3;
            if is_birth {
                let ghost before = new_cells@;
                let ghost bv = keys_of(ns@)[b as int];
                let e = vec_copy(&pair.0);
                new_cells.push(e);
                proof {
                    assert(bv == int_view(ns@[b as int].0@));
                    assert forall|a: int| 0 <= a < new_cells@.len() implies #[trigger] seq_of_views(
                        new_cells@,
                    )[a] == (if a < before.len() {
                        seq_of_views(before)[a]
                    } else {
                        bv
                    }) by {
                        if a < before.len() {
                            assert(new_cells@[a] == before[a]);
                        } else {
                            assert(new_cells@[a]@ == ns@[b as int].0@);
                        }
                    }
                    assert(!live0.contains(bv));
                    assert(nbr_count(live0, n, bv) == ns@[b as int].1);
                    assert(bv.len() == n);
                    assert(next_gen(live0, n).contains(bv));
                    assert forall|a: int| nsurv <= a < new_cells@.len() implies keys_of(
                        ns@,
                    ).take(b + 1).contains(#[trigger] seq_of_views(new_cells@)[a]) by {
                        if a < before.len() {
                            let t = choose|t: int|
                                0 <= t < b && keys_of(ns@).take(b as int)[t] == seq_of_views(
                                    before,
                                )[a];
                            assert(keys_of(ns@).take(b + 1)[t] == seq_of_views(new_cells@)[a]);
                        } else {
                            assert(keys_of(ns@).take(b + 1)[b as int] == bv);
                        }
                    }
                    assert forall|a: int, b2: int|
                        0 <= a < new_cells@.len() && 0 <= b2 < new_cells@.len() && a != b2
                        implies seq_of_views(new_cells@)[a] != seq_of_views(new_cells@)[b2] by {
                        let last = before.len() as int;
                        if a == last || b2 == last {
                            let other: int = if a == last {
                                b2
                            } else {
                                a
                            };
                            if other < nsurv {
                                assert(live0.contains(seq_of_views(before)[other]));
                            } else {
                                let t = choose|t: int|
                                    0 <= t < b && keys_of(ns@).take(b as int)[t] == seq_of_views(
                                        before,
                                    )[other];
                                assert(keys_of(ns@)[t] == seq_of_views(before)[other]);
                                assert(keys_of(ns@)[t] != keys_of(ns@)[b as int]);
                            }
                        }
                    }
                    assert forall|j: int|
                        0 <= j < mc && next_gen(live0, n).contains(
                            #[trigger] self.cells_seq()[j],
                        ) implies seq_of_views(new_cells@).contains(self.cells_seq()[j]) by {
                        let t = choose|t: int|
                            0 <= t < before.len() && seq_of_views(before)[t]
                                == self.cells_seq()[j];
                        assert(seq_of_views(new_cells@)[t] == self.cells_seq()[j]);
                    }
                    assert forall|t: int|
                        0 <= t < b + 1 && (#[trigger] ns@[t]).1 == 3 implies seq_of_views(
                            new_cells@,
                        ).contains(keys_of(ns@)[t]) by {
                        if t < b {
                            let u = choose|u: int|
                                0 <= u < before.len() && seq_of_views(before)[u] == keys_of(
                                    ns@,
                                )[t];
                            assert(seq_of_views(new_cells@)[u] == keys_of(ns@)[t]);
                        } else {
                            assert(seq_of_views(new_cells@)[new_cells@.len() - 1] == bv);
                        }
                    }
                }
            }
            b += 1;
        }
        let ghost offs0 = self.offs_seq();
        self.cells = new_cells;
        proof {
            assert(self.offs_seq() == offs0);
            assert(self.dim() == n);
            assert forall|x: Seq<int>| self.live().contains(x) implies next_gen(
                live0,
                n,
            ).contains(x) by {
                let a = choose|a: int|
                    0 <= a < self.cells_seq().len() && self.cells_seq()[a] == x;
                assert(next_gen(live0, n).contains(seq_of_views(self.cells@)[a]));
            }
            assert forall|x: Seq<int>| next_gen(live0, n).contains(x) implies
                self.live().contains(x) by {
                if live0.contains(x) {
                    let j = choose|j: int|
                        0 <= j < old(self).cells_seq().len() && old(self).cells_seq()[j] == x;
                    assert(seq_of_views(self.cells@).contains(old(self).cells_seq()[j]));
                } else {
                    assert(nbr_count(live0, n, x) == 3);
                    assert(keys_of(ns@).contains(x));
                    let t = choose|t: int|
                        0 <= t < keys_of(ns@).len() && keys_of(ns@)[t] == x;
                    assert(ns@[t].1 == nbr_count(live0, n, keys_of(ns@)[t]));
                    assert(ns@[t].1 == 3);
                    assert(seq_of_views(self.cells@).contains(keys_of(ns@)[t]));
                }
            }
            assert(self.live() =~= next_gen(live0, n));
            assert forall|a: int| 0 <= a < self.cells_seq().len() implies (
            #[trigger] self.cells_seq()[a]).len() == self.dim() by {
                assert(next_gen(live0, n).contains(self.cells_seq()[a]));
            }
        }
    }

    /// True exactly when the two boards have the same live cells.
    #[verifier::loop_isolation(false)]
    pub fn same_live(&self, other: &Life) -> (r: bool)
        requires
            self.wf(),
            other.wf(),
            self.dim() == other.dim(),
        ensures
            r == (self.live() == other.live()),
    {
        let m: usize = self.cells.len();
        let mut i: usize = 0;
        while i < m
            invariant
                0 <= i <= m,
                forall|j: int| 0 <= j < i ==> other.live().contains(
                    #[trigger] self.cells_seq()[j],
                ),
            decreases m - i,
        {
            proof {
                assert(self.cells_seq()[i as int] == int_view(self.cells@[i as int]@));
                assert(self.cells_seq()[i as int].len() == self.dim());
            }
            if !other.get(&self.cells[i]) {
                proof {
                    assert(self.cells_seq()[i as int] == int_view(self.cells@[i as int]@));
                    assert(self.live().contains(self.cells_seq()[i as int]));
                }
                return false;
            }
            i += 1;
        }
        let m2: usize = other.cells.len();
        let mut i2: usize = 0;
        while i2 < m2
            invariant
                0 <= i2 <= m2,
                forall|j: int| 0 <= j < m ==> other.live().contains(
                    #[trigger] self.cells_seq()[j],
                ),
                forall|j: int| 0 <= j < i2 ==> self.live().contains(
                    #[trigger] other.cells_seq()[j],
                ),
            decreases m2 - i2,
        {
            proof {
                assert(other.cells_seq()[i2 as int] == int_view(other.cells@[i2 as int]@));
                assert(other.cells_seq()[i2 as int].len() == other.dim());
            }
            if !self.get(&other.cells[i2]) {
                proof {
                    assert(other.live().contains(other.cells_seq()[i2 as int]));
                }
                return false;
            }
            i2 += 1;
        }
        proof {
            assert forall|x: Seq<int>| self.live().contains(x) implies other.live().contains(
                x,
            ) by {
                let j = choose|j: int|
                    0 <= j < self.cells_seq().len() && self.cells_seq()[j] == x;
                assert(other.live().contains(self.cells_seq()[j]));
            }
            assert forall|x: Seq<int>| other.live().contains(x) implies self.live().contains(
                x,
            ) by {
                let j = choose|j: int|
                    0 <= j < other.cells_seq().len() && other.cells_seq()[j] == x;
                assert(self.live().contains(other.cells_seq()[j]));
            }
            assert(self.live() =~= other.live());
        }
        true
    }
}

} // verus!
