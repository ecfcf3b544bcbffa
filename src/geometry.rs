use crate::graph::Graph;
use crate::pattern::{copy_edge, edges_view, position};
use vstd::prelude::*;

verus! {

/// Some vertex of `edge` lies in `s`.
pub open spec fn touches(edge: Seq<usize>, s: Set<usize>) -> bool {
    exists|j: int| 0 <= j < edge.len() && s.contains(#[trigger] edge[j])
}

/// `s` and the vertices that share one of the first `n` edges with a vertex of `s`.
pub open spec fn grow_prefix(e: Seq<Seq<usize>>, s: Set<usize>, n: int) -> Set<usize> {
    s.union(
        Set::new(
            |w: usize| exists|k: int| 0 <= k < n && touches(#[trigger] e[k], s) && e[k].contains(w),
        ),
    )
}

/// `s` and every vertex one hop away from it: a hop joins two vertices of one edge.
pub open spec fn grow(e: Seq<Seq<usize>>, s: Set<usize>) -> Set<usize> {
    grow_prefix(e, s, e.len() as int)
}

/// The vertices within `r` hops of `x`, `x` included.
pub open spec fn reach(e: Seq<Seq<usize>>, x: usize, r: nat) -> Set<usize>
    decreases r,
{
    if r == 0 {
        set![x]
    } else {
        grow(e, reach(e, x, (r - 1) as nat))
    }
}

/// The ball volume: how many vertices other than `x` lie within `r` hops of `x`.
pub open spec fn ball_volume(e: Seq<Seq<usize>>, x: usize, r: nat) -> int {
    reach(e, x, r).len() - 1
}

/// Once a radius adds nothing, no larger radius does.
pub proof fn lemma_reach_stable(e: Seq<Seq<usize>>, x: usize, d: nat, m: nat)
    requires
        reach(e, x, d + 1) == reach(e, x, d),
        d <= m,
    ensures
        reach(e, x, m) == reach(e, x, d),
    decreases m - d,
{
    if m > d {
        lemma_reach_stable(e, x, d, (m - 1) as nat);
        assert(reach(e, x, m) == grow(e, reach(e, x, (m - 1) as nat)));
    }
}

/// Whether some vertex of `edge` is in `s`.
fn touches_any(edge: &Vec<usize>, s: &Vec<usize>) -> (r: bool)
    ensures
        r == touches(edge@, s@.to_set()),
{
    let mut j: usize = 0;
    while j < edge.len()
        invariant
            j <= edge@.len(),
            forall|q: int| 0 <= q < j ==> !s@.contains(#[trigger] edge@[q]),
        decreases edge@.len() - j,
    {
        if position(s, edge[j]).is_some() {
            assert(s@.to_set().contains(edge@[j as int]));
            return true;
        }
        j = j + 1;
    }
    false
}

impl Graph {
    /// The ball volume `V_r(x)`: how many vertices other than `x` can be
    /// reached from `x` in at most `r` hops, a hop joining two vertices of one edge.
    pub fn v_r(&self, x: usize, r: usize) -> (n: usize)
        ensures
            n == ball_volume(self@, x, r as nat),
    {
        let edges = self.edges();
        let ghost e = self@;
        let mut visited: Vec<usize> = Vec::new();
        visited.push(x);
        proof {
            assert(visited@[0] == x);
            assert(visited@.contains(x));
            assert(visited@.to_set() =~= set![x]);
        }
        let mut d: usize = 0;
        while d < r
            invariant
                e == self@,
                e == edges_view(edges@),
                d <= r,
                visited@.no_duplicates(),
                visited@.len() >= 1,
                visited@.to_set() == reach(e, x, d as nat),
            decreases r - d,
        {
            let snap = copy_edge(&visited);
            let ghost s = snap@.to_set();
            let mut i: usize = 0;
            while i < edges.len()
                invariant
                    e == edges_view(edges@),
                    i <= e.len(),
                    s == snap@.to_set(),
                    visited@.no_duplicates(),
                    visited@.len() >= snap@.len(),
                    visited@.take(snap@.len() as int) == snap@,
                    visited@.to_set() == grow_prefix(e, s, i as int),
                decreases e.len() - i,
            {
                let edge = &edges[i];
                assert(edge@ == e[i as int]);
                if touches_any(edge, &snap) {
                    let mut j: usize = 0;
                    while j < edge.len()
                        invariant
                            i < e.len(),
                            edge@ == e[i as int],
                            touches(e[i as int], s),
                            j <= edge@.len(),
                            visited@.no_duplicates(),
                            visited@.len() >= snap@.len(),
                            visited@.take(snap@.len() as int) == snap@,
                            forall|v: usize|
                                #![trigger visited@.contains(v)]
                                visited@.contains(v) <==> (grow_prefix(e, s, i as int).contains(v)
                                    || edge@.take(j as int).contains(v)),
                        decreases edge@.len() - j,
                    {
                        let w = edge[j];
                        let ghost before = visited@;
                        if position(&visited, w).is_none() {
                            visited.push(w);
                            proof {
                                assert(visited@.take(snap@.len() as int) =~= before.take(
                                    snap@.len() as int,
                                ));
                            }
                        }
                        proof {
                            let nx = edge@.take(j + 1);
                            let cur = edge@.take(j as int);
                            assert forall|v: usize|
                                #![trigger visited@.contains(v)]
                                visited@.contains(v) <==> (grow_prefix(e, s, i as int).contains(v)
                                    || nx.contains(v)) by {
                                if visited@.contains(v) {
                                    let t = choose|t: int| 0 <= t < visited@.len() && visited@[t] == v;
                                    if t < before.len() {
                                        assert(before[t] == v);
                                        assert(before.contains(v));
                                        if cur.contains(v) {
                                            let q = choose|q: int|
                                                0 <= q < j && cur[q] == v;
                                            assert(nx[q] == v);
                                        }
                                    } else {
                                        assert(nx[j as int] == v);
                                    }
                                }
                                if nx.contains(v) {
                                    let q = choose|q: int| 0 <= q < j + 1 && nx[q] == v;
                                    if q < j {
                                        assert(cur[q] == v);
                                        assert(before.contains(v));
                                        let t = choose|t: int| 0 <= t < before.len() && before[t] == v;
                                        assert(visited@[t] == v);
                                    } else if before.contains(v) {
                                        let t = choose|t: int| 0 <= t < before.len() && before[t] == v;
                                        assert(visited@[t] == v);
                                    } else {
                                        assert(visited@[visited@.len() - 1] == v);
                                    }
                                }
                                if grow_prefix(e, s, i as int).contains(v) {
                                    assert(before.contains(v));
                                    let t = choose|t: int| 0 <= t < before.len() && before[t] == v;
                                    assert(visited@[t] == v);
                                }
                            }
                        }
                        j = j + 1;
                    }
                    proof {
                        assert(edge@.take(j as int) =~= edge@);
                        assert(visited@.to_set() =~= grow_prefix(e, s, i + 1)) by {
                            assert forall|v: usize| grow_prefix(e, s, i + 1).contains(v)
                                implies #[trigger] visited@.contains(v) by {
                                if !s.contains(v) {
                                    let k = choose|k: int|
                                        0 <= k < i + 1 && touches(#[trigger] e[k], s)
                                            && e[k].contains(v);
                                    if k < i {
                                        assert(grow_prefix(e, s, i as int).contains(v));
                                    }
                                }
                            }
                            assert forall|v: usize| #[trigger] visited@.contains(v) implies grow_prefix(
                                e,
                                s,
                                i + 1,
                            ).contains(v) by {
                                if grow_prefix(e, s, i as int).contains(v) && !s.contains(v) {
                                    let k = choose|k: int|
                                        0 <= k < i && touches(#[trigger] e[k], s) && e[k].contains(
                                            v,
                                        );
                                    assert(0 <= k < i + 1 && touches(e[k], s) && e[k].contains(v));
                                }
                            }
                        }
                    }
                } else {
                    proof {
                        assert(visited@.to_set() =~= grow_prefix(e, s, i + 1)) by {
                            assert forall|v: usize| grow_prefix(e, s, i + 1).contains(v)
                                implies #[trigger] visited@.to_set().contains(v) by {
                                if !s.contains(v) {
                                    let k = choose|k: int|
                                        0 <= k < i + 1 && touches(#[trigger] e[k], s)
                                            && e[k].contains(v);
                                    assert(k < i);
                                    assert(grow_prefix(e, s, i as int).contains(v));
                                }
                            }
                            assert forall|v: usize| #[trigger] visited@.to_set().contains(v) implies grow_prefix(
                                e,
                                s,
                                i + 1,
                            ).contains(v) by {
                                assert(grow_prefix(e, s, i as int).contains(v));
                                if !s.contains(v) {
                                    let k = choose|k: int|
                                        0 <= k < i && touches(#[trigger] e[k], s) && e[k].contains(
                                            v,
                                        );
                                    assert(0 <= k < i + 1 && touches(e[k], s) && e[k].contains(v));
                                }
                            }
                        }
                    }
                }
                i = i + 1;
            }
            let ghost dd = d as nat;
            proof {
                assert(reach(e, x, dd + 1) == grow(e, reach(e, x, dd)));
            }
            if visited.len() == snap.len() {
                proof {
                    assert(visited@ =~= snap@);
                    lemma_reach_stable(e, x, dd, r as nat);
                }
                d = r;
            } else {
                d = d + 1;
            }
        }
        proof {
            visited@.unique_seq_to_set();
        }
        visited.len() - 1
    }
}

} // verus!
