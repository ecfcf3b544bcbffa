use crate::pattern::{
    agree, agrees, consistent, copy_edge, copy_edges, edges_view, flat, flatten, flatten_take,
    lemma_consistent_take, lemma_flat_index, lemma_new_slots_facts, new_slots, position, same_shape,
    shape_fits, Rule,
};
use vstd::prelude::*;

verus! {

/// One more than the largest entry, or 0 for no entry.
pub open spec fn id_bound(s: Seq<usize>) -> int
    decreases s.len(),
{
    if s.len() == 0 {
        0
    } else {
        let b = id_bound(s.drop_last());
        if s.last() + 1 > b {
            s.last() + 1
        } else {
            b
        }
    }
}

/// The counter held by an allocator: `None` once every id has been issued.
pub open spec fn counter_value(next: Option<usize>) -> int {
    match next {
        Some(n) => n as int,
        None => usize::MAX + 1,
    }
}

/// The edges of `e` at the indices `idx`, in the order of `idx`.
pub open spec fn pick(e: Seq<Seq<usize>>, idx: Seq<usize>) -> Seq<Seq<usize>> {
    idx.map_values(|i: usize| e[i as int])
}

/// Indices that are all below `n`, none repeated.
pub open spec fn valid_indices(idx: Seq<usize>, n: int) -> bool {
    &&& idx.no_duplicates()
    &&& forall|k: int| 0 <= k < idx.len() ==> #[trigger] idx[k] < n
}

/// `idx` picks distinct edges of `e`, one per edge of the pattern `p`, that fit it.
pub open spec fn is_match(p: Seq<Seq<usize>>, e: Seq<Seq<usize>>, idx: Seq<usize>) -> bool {
    &&& idx.len() == p.len()
    &&& valid_indices(idx, e.len() as int)
    &&& consistent(p, pick(e, idx))
}

pub open spec fn has_match(p: Seq<Seq<usize>>, e: Seq<Seq<usize>>) -> bool {
    exists|idx: Seq<usize>| is_match(p, e, idx)
}

/// The edges of `e` below index `n` whose index is not in `rm`, in order.
pub open spec fn kept_prefix(e: Seq<Seq<usize>>, rm: Seq<usize>, n: int) -> Seq<Seq<usize>>
    decreases n,
{
    if n <= 0 {
        Seq::empty()
    } else {
        kept_prefix(e, rm, n - 1) + if rm.contains((n - 1) as usize) {
            Seq::empty()
        } else {
            seq![e[n - 1]]
        }
    }
}

/// The edges of `e` whose index is not in `rm`, in order.
pub open spec fn kept(e: Seq<Seq<usize>>, rm: Seq<usize>) -> Seq<Seq<usize>> {
    kept_prefix(e, rm, e.len() as int)
}

/// `v` is the vertex that slot `s` stands for, where the input slots `fp` are
/// bound to the vertices `fc` and the `k`-th fresh slot to `next + k`.
pub open spec fn slot_value_ok(
    fp: Seq<usize>,
    fc: Seq<usize>,
    fresh: Seq<usize>,
    next: int,
    s: usize,
    v: usize,
) -> bool {
    &&& forall|k: int| 0 <= k < fp.len() && fp[k] == s ==> v == #[trigger] fc[k]
    &&& forall|k: int| 0 <= k < fresh.len() && #[trigger] fresh[k] == s ==> v == next + k
    &&& (fp.contains(s) || fresh.contains(s))
}

/// `out` is the output pattern `o` with every slot replaced by its vertex.
pub open spec fn instantiates(
    out: Seq<Seq<usize>>,
    o: Seq<Seq<usize>>,
    fp: Seq<usize>,
    fc: Seq<usize>,
    next: int,
) -> bool {
    &&& same_shape(o, out)
    &&& forall|i: int, j: int|
        0 <= i < o.len() && 0 <= j < o[i].len() ==> slot_value_ok(
            fp,
            fc,
            new_slots(fp, flat(o)),
            next,
            o[i][j],
            #[trigger] out[i][j],
        )
}

/// `after` is `before` with the edges at `idx` removed and, after the
/// remaining ones, the instantiated output pattern appended.
pub open spec fn rewritten(
    after: Seq<Seq<usize>>,
    before: Seq<Seq<usize>>,
    idx: Seq<usize>,
    o: Seq<Seq<usize>>,
    fp: Seq<usize>,
    fc: Seq<usize>,
    next: int,
) -> bool {
    let k = kept(before, idx);
    &&& after.len() >= k.len()
    &&& after.take(k.len() as int) == k
    &&& instantiates(after.skip(k.len() as int), o, fp, fc, next)
}

/// Every edge non-empty and every vertex below the allocator's counter.
pub open spec fn graph_wf(e: Seq<Seq<usize>>, next: int) -> bool {
    &&& 0 <= next <= usize::MAX + 1
    &&& forall|i: int| 0 <= i < e.len() ==> #[trigger] e[i].len() > 0
    &&& forall|i: int, j: int| 0 <= i < e.len() && 0 <= j < e[i].len() ==> #[trigger] e[i][j] < next
}

/// `binding` maps each slot of `fp` once, in order of first appearance, to its vertex in `fc`.
pub open spec fn binding_fits(binding: Seq<(usize, usize)>, fp: Seq<usize>, fc: Seq<usize>) -> bool {
    &&& binding.map_values(|b: (usize, usize)| b.0) == new_slots(Seq::empty(), fp)
    &&& forall|t: int, k: int|
        0 <= t < binding.len() && 0 <= k < fp.len() && #[trigger] binding[t].0 == #[trigger] fp[k]
            ==> binding[t].1 == fc[k]
}

/// A failed rewrite or store update.
#[derive(Debug, Clone, Copy, PartialEq, Eq, Structural)]
pub enum RewriteError {
    /// An edge index is out of range or repeated.
    InvalidIndex,
    /// The selected edges do not fit the rule's input pattern.
    ArityMismatch,
    /// Not enough vertex ids are left for the new vertices.
    IdentifierExhausted,
}

/// A selection of store edges, one per input edge of a rule, with the vertex
/// bound to each input slot.
pub struct Match {
    /// Store indices, one per input pattern edge, in pattern order.
    pub edges: Vec<usize>,
    /// `(slot, vertex)` pairs, one per input slot, in order of first appearance.
    pub binding: Vec<(usize, usize)>,
}

impl Match {
    pub open spec fn fits(&self, p: Seq<Seq<usize>>, e: Seq<Seq<usize>>) -> bool {
        &&& is_match(p, e, self.edges@)
        &&& binding_fits(self.binding@, flat(p), flat(pick(e, self.edges@)))
    }
}

/// A hypergraph: an ordered list of hyperedges and the allocator of vertex ids.
pub struct Graph {
    edges: Vec<Vec<usize>>,
    next: Option<usize>,
}

impl View for Graph {
    type V = Seq<Seq<usize>>;

    closed spec fn view(&self) -> Seq<Seq<usize>> {
        edges_view(self.edges@)
    }
}

/// `after` is reachable from `before`: the allocator never goes back.
pub open spec fn advances(before: Graph, after: Graph) -> bool {
    &&& after.wf()
    &&& before.next_id() <= after.next_id()
}

pub proof fn lemma_id_bound(s: Seq<usize>)
    ensures
        0 <= id_bound(s) <= usize::MAX + 1,
        forall|k: int| 0 <= k < s.len() ==> #[trigger] s[k] < id_bound(s),
    decreases s.len(),
{
    if s.len() > 0 {
        lemma_id_bound(s.drop_last());
        assert forall|k: int| 0 <= k < s.len() implies #[trigger] s[k] < id_bound(s) by {
            if k < s.len() - 1 {
                assert(s.drop_last()[k] == s[k]);
            }
        }
    }
}

/// Every entry of a flattened list is an entry of one of its edges.
pub proof fn lemma_flat_bounded(s: Seq<Seq<usize>>, b: int)
    requires
        forall|i: int, j: int| 0 <= i < s.len() && 0 <= j < s[i].len() ==> #[trigger] s[i][j] < b,
    ensures
        forall|k: int| 0 <= k < flat(s).len() ==> #[trigger] flat(s)[k] < b,
    decreases s.len(),
{
    if s.len() > 0 {
        let r = s.drop_last();
        assert forall|i: int, j: int| 0 <= i < r.len() && 0 <= j < r[i].len() implies #[trigger] r[i][j]
            < b by {
            assert(r[i][j] == s[i][j]);
        }
        lemma_flat_bounded(r, b);
        assert forall|k: int| 0 <= k < flat(s).len() implies #[trigger] flat(s)[k] < b by {
            if k >= flat(r).len() {
                assert(flat(s)[k] == s.last()[k - flat(r).len()]);
                assert(s[s.len() - 1][k - flat(r).len()] < b);
            }
        }
    }
}

proof fn lemma_kept_step(e: Seq<Seq<usize>>, rm: Seq<usize>, n: int)
    requires
        0 <= n,
    ensures
        kept_prefix(e, rm, n + 1) == kept_prefix(e, rm, n) + if rm.contains(n as usize) {
            Seq::<Seq<usize>>::empty()
        } else {
            seq![e[n]]
        },
{
}

impl Graph {
    /// The allocator's counter: every id below it may be in use, none at or above it.
    pub closed spec fn next_id(&self) -> int {
        counter_value(self.next)
    }

    pub open spec fn wf(&self) -> bool {
        graph_wf(self@, self.next_id())
    }

    /// Builds a graph from its seed edges; the allocator starts just above the
    /// largest vertex of the seed.
    pub fn new(edges: Vec<Vec<usize>>) -> (r: Graph)
        requires
            forall|i: int| 0 <= i < edges@.len() ==> #[trigger] edges@[i]@.len() > 0,
        ensures
            r@ == edges_view(edges@),
            r.next_id() == id_bound(flat(edges_view(edges@))),
            r.wf(),
    {
        let fs = flatten(edges.as_slice());
        let mut next: Option<usize> = Some(0);
        let mut k: usize = 0;
        while k < fs.len()
            invariant
                k <= fs@.len(),
                counter_value(next) == id_bound(fs@.take(k as int)),
            decreases fs@.len() - k,
        {
            proof {
                assert(fs@.take(k + 1).drop_last() =~= fs@.take(k as int));
            }
            let x = fs[k];
            next = match next {
                None => None,
                Some(b) => if x == usize::MAX {
                    None
                } else if x + 1 > b {
                    Some(x + 1)
                } else {
                    Some(b)
                },
            };
            k = k + 1;
        }
        let g = Graph { edges, next };
        proof {
            let ev = edges_view(edges@);
            assert(fs@.take(k as int) =~= fs@);
            lemma_id_bound(fs@);
            assert forall|i: int| 0 <= i < g@.len() implies #[trigger] g@[i].len() > 0 by {
                assert(edges@[i]@.len() > 0);
            }
            assert forall|i: int, j: int| 0 <= i < g@.len() && 0 <= j < g@[i].len() implies #[trigger] g@[i][j]
                < g.next_id() by {
                lemma_flat_index(ev, i, j);
            }
        }
        g
    }

    /// The edges, in order.
    pub fn edges(&self) -> (r: &Vec<Vec<usize>>)
        ensures
            edges_view(r@) == self@,
    {
        &self.edges
    }

    /// A snapshot of the edges for a renderer to draw; the library draws nothing itself.
    pub fn visualize(&self) -> (r: Vec<Vec<usize>>)
        ensures
            edges_view(r@) == self@,
    {
        copy_edges(self.edges.as_slice())
    }

    /// The allocator's counter, `None` once every id has been issued.
    pub fn next_vertex(&self) -> (r: Option<usize>)
        ensures
            counter_value(r) == self.next_id(),
    {
        self.next
    }

    /// The indices of the edges that hold `v`, in increasing order.
    pub fn edges_touching(&self, v: usize) -> (r: Vec<usize>)
        ensures
            forall|a: int, b: int| 0 <= a < b < r@.len() ==> r@[a] < r@[b],
            forall|i: usize| #[trigger]
                r@.contains(i) <==> (i < self@.len() && self@[i as int].contains(v)),
    {
        let mut r: Vec<usize> = Vec::new();
        let mut i: usize = 0;
        while i < self.edges.len()
            invariant
                i <= self@.len(),
                self@ == edges_view(self.edges@),
                forall|a: int, b: int| 0 <= a < b < r@.len() ==> r@[a] < r@[b],
                forall|a: int| 0 <= a < r@.len() ==> r@[a] < i,
                forall|x: usize| #[trigger]
                    r@.contains(x) <==> (x < i && self@[x as int].contains(v)),
            decreases self@.len() - i,
        {
            let ghost before = r@;
            let hit = position(&self.edges[i], v);
            if hit.is_some() {
                r.push(i);
            }
            proof {
                assert(self.edges@[i as int]@ == self@[i as int]);
                if let Some(t) = hit {
                    assert(self@[i as int][t as int] == v);
                    assert(self@[i as int].contains(v));
                }
                assert(hit.is_some() <==> self@[i as int].contains(v));
                assert forall|x: usize| #[trigger] r@.contains(x) <==> (x < i + 1
                    && self@[x as int].contains(v)) by {
                    if r@.contains(x) {
                        let t = choose|t: int| 0 <= t < r@.len() && r@[t] == x;
                        if t < before.len() {
                            assert(before[t] == x);
                            assert(before.contains(x));
                        } else {
                            assert(hit.is_some() && x == i);
                        }
                    }
                    if x < i && self@[x as int].contains(v) {
                        assert(before.contains(x));
                        let t = choose|t: int| 0 <= t < before.len() && before[t] == x;
                        assert(r@[t] == x);
                    }
                    if x == i && self@[x as int].contains(v) {
                        assert(r@[r@.len() - 1] == x);
                    }
                }
            }
            i = i + 1;
        }
        r
    }

    /// The edges at the indices `idx`, in the order of `idx`.
    fn pick_edges(&self, idx: &Vec<usize>) -> (r: Vec<Vec<usize>>)
        requires
            forall|k: int| 0 <= k < idx@.len() ==> #[trigger] idx@[k] < self@.len(),
        ensures
            edges_view(r@) == pick(self@, idx@),
    {
        let mut r: Vec<Vec<usize>> = Vec::new();
        let mut k: usize = 0;
        while k < idx.len()
            invariant
                k <= idx@.len(),
                self@ == edges_view(self.edges@),
                forall|t: int| 0 <= t < idx@.len() ==> #[trigger] idx@[t] < self@.len(),
                edges_view(r@) == pick(self@, idx@).take(k as int),
            decreases idx@.len() - k,
        {
            let e = copy_edge(&self.edges[idx[k]]);
            let ghost before = r@;
            r.push(e);
            proof {
                assert(edges_view(r@) =~= edges_view(before).push(e@));
                assert(pick(self@, idx@).take(k + 1) =~= pick(self@, idx@).take(k as int).push(
                    self@[idx@[k as int] as int],
                ));
            }
            k = k + 1;
        }
        assert(pick(self@, idx@).take(k as int) =~= pick(self@, idx@));
        r
    }
}

/// Whether `idx` holds indices below `n`, none repeated.
pub fn check_indices(idx: &Vec<usize>, n: usize) -> (r: bool)
    ensures
        r == valid_indices(idx@, n as int),
{
    let mut a: usize = 0;
    while a < idx.len()
        invariant
            a <= idx@.len(),
            forall|k: int| 0 <= k < a ==> #[trigger] idx@[k] < n,
            forall|x: int, y: int| 0 <= x < a && 0 <= y < a && x != y ==> idx@[x] != idx@[y],
        decreases idx@.len() - a,
    {
        if idx[a] >= n {
            return false;
        }
        let mut b: usize = 0;
        while b < a
            invariant
                a < idx@.len(),
                b <= a,
                forall|y: int| 0 <= y < b ==> idx@[y] != idx@[a as int],
            decreases a - b,
        {
            if idx[b] == idx[a] {
                return false;
            }
            b = b + 1;
        }
        a = a + 1;
    }
    true
}


/// The entries of `s` that are not in `known`, each once, in order of first appearance.
pub fn collect_new_slots(known: &Vec<usize>, s: &Vec<usize>) -> (r: Vec<usize>)
    ensures
        r@ == new_slots(known@, s@),
{
    let mut r: Vec<usize> = Vec::new();
    let mut k: usize = 0;
    while k < s.len()
        invariant
            k <= s@.len(),
            r@ == new_slots(known@, s@.take(k as int)),
        decreases s@.len() - k,
    {
        proof {
            assert(s@.take(k + 1).drop_last() =~= s@.take(k as int));
        }
        let x = s[k];
        if position(known, x).is_none() && position(&r, x).is_none() {
            r.push(x);
        }
        k = k + 1;
    }
    assert(s@.take(k as int) =~= s@);
    r
}

/// Each slot of `fp` once, in order of first appearance, with its vertex in `fc`.
pub fn binding_of(fp: &Vec<usize>, fc: &Vec<usize>) -> (r: Vec<(usize, usize)>)
    requires
        agrees(fp@, fc@),
    ensures
        binding_fits(r@, fp@, fc@),
{
    let empty: Vec<usize> = Vec::new();
    let mut slots: Vec<usize> = Vec::new();
    let mut r: Vec<(usize, usize)> = Vec::new();
    let mut k: usize = 0;
    while k < fp.len()
        invariant
            k <= fp@.len(),
            agrees(fp@, fc@),
            empty@ == Seq::<usize>::empty(),
            slots@ == new_slots(empty@, fp@.take(k as int)),
            r@.map_values(|b: (usize, usize)| b.0) == slots@,
            forall|t: int, q: int|
                0 <= t < r@.len() && 0 <= q < fp@.len() && #[trigger] r@[t].0 == #[trigger] fp@[q]
                    ==> r@[t].1 == fc@[q],
        decreases fp@.len() - k,
    {
        proof {
            assert(fp@.take(k + 1).drop_last() =~= fp@.take(k as int));
        }
        let x = fp[k];
        if position(&slots, x).is_none() {
            slots.push(x);
            let ghost before = r@;
            r.push((x, fc[k]));
            proof {
                assert(r@.map_values(|b: (usize, usize)| b.0) =~= before.map_values(
                    |b: (usize, usize)| b.0,
                ).push(x));
            }
        }
        k = k + 1;
    }
    assert(fp@.take(k as int) =~= fp@);
    r
}

/// The output pattern `o` with input slots replaced through `fp`/`fc` and the
/// fresh slots numbered from `next`, with the counter after allocation; `None`
/// when the ids left do not suffice.
pub fn instantiate(o: &Vec<Vec<usize>>, fp: &Vec<usize>, fc: &Vec<usize>, next: Option<usize>) -> (r:
    Option<(Vec<Vec<usize>>, Option<usize>)>)
    requires
        agrees(fp@, fc@),
    ensures
        r is None <==> counter_value(next) + new_slots(fp@, flat(edges_view(o@))).len() > usize::MAX
            + 1,
        r matches Some((out, after)) ==> instantiates(
            edges_view(out@),
            edges_view(o@),
            fp@,
            fc@,
            counter_value(next),
        ) && counter_value(after) == counter_value(next) + new_slots(
            fp@,
            flat(edges_view(o@)),
        ).len(),
{
    let ov = Ghost(edges_view(o@));
    let fo = flatten(o.as_slice());
    let fresh = collect_new_slots(fp, &fo);
    let f = fresh.len();
    let after: Option<usize>;
    let base: usize;
    match next {
        None => {
            if f > 0 {
                return None;
            }
            after = None;
            base = 0;
        },
        Some(n) => {
            if f > 0 && f - 1 > usize::MAX - n {
                return None;
            }
            base = n;
            after = if f == 0 {
                Some(n)
            } else if f - 1 == usize::MAX - n {
                None
            } else {
                Some(n + f)
            };
        },
    }
    proof {
        lemma_new_slots_facts(fp@, fo@);
    }
    let mut out: Vec<Vec<usize>> = Vec::new();
    let mut i: usize = 0;
    while i < o.len()
        invariant
            i <= o@.len(),
            ov@ == edges_view(o@),
            fo@ == flat(ov@),
            agrees(fp@, fc@),
            fresh@ == new_slots(fp@, fo@),
            fresh@.no_duplicates(),
            forall|x: usize| #[trigger] fresh@.contains(x) <==> (fo@.contains(x) && !fp@.contains(x)),
            f == fresh@.len(),
            f > 0 ==> counter_value(next) == base,
            counter_value(next) + f <= usize::MAX + 1,
            out@.len() == i,
            forall|a: int| 0 <= a < i ==> (#[trigger] out@[a])@.len() == ov@[a].len(),
            forall|a: int, b: int|
                0 <= a < i && 0 <= b < ov@[a].len() ==> slot_value_ok(
                    fp@,
                    fc@,
                    fresh@,
                    counter_value(next),
                    ov@[a][b],
                    #[trigger] out@[a]@[b],
                ),
        decreases o@.len() - i,
    {
        let e = &o[i];
        let mut cur: Vec<usize> = Vec::new();
        let mut j: usize = 0;
        while j < e.len()
            invariant
                i < o@.len(),
                *e == o@[i as int],
                ov@ == edges_view(o@),
                fo@ == flat(ov@),
                j <= e@.len(),
                agrees(fp@, fc@),
                fresh@.no_duplicates(),
                forall|x: usize| #[trigger] fresh@.contains(x) <==> (fo@.contains(x) && !fp@.contains(
                    x,
                )),
                f == fresh@.len(),
                f > 0 ==> counter_value(next) == base,
                counter_value(next) + f <= usize::MAX + 1,
                cur@.len() == j,
                forall|b: int| 0 <= b < j ==> slot_value_ok(
                    fp@,
                    fc@,
                    fresh@,
                    counter_value(next),
                    e@[b],
                    #[trigger] cur@[b],
                ),
            decreases e@.len() - j,
        {
            let s = e[j];
            proof {
                lemma_flat_index(ov@, i as int, j as int);
                assert(ov@[i as int][j as int] == s);
                assert(fo@.contains(s));
            }
            let v: usize;
            match position(fp, s) {
                Some(k) => {
                    v = fc[k];
                    proof {
                        assert(fp@.contains(s));
                        assert forall|q: int| 0 <= q < fp@.len() && fp@[q] == s implies v
                            == #[trigger] fc@[q] by {
                            assert(fp@[k as int] == fp@[q]);
                        }
                        assert forall|q: int| 0 <= q < fresh@.len() && #[trigger] fresh@[q]
                            == s implies v == counter_value(next) + q by {
                            assert(fresh@.contains(s));
                        }
                    }
                },
                None => {
                    let k = position(&fresh, s);
                    assert(fresh@.contains(s));
                    match k {
                        Some(k) => {
                            v = base + k;
                            proof {
                                assert forall|q: int| 0 <= q < fresh@.len() && #[trigger] fresh@[q]
                                    == s implies v == counter_value(next) + q by {
                                    assert(fresh@[q] == fresh@[k as int]);
                                }
                                assert forall|q: int| 0 <= q < fp@.len() && fp@[q] == s implies v
                                    == #[trigger] fc@[q] by {
                                    assert(fp@.contains(s));
                                }
                            }
                        },
                        None => {
                            v = 0;
                        },
                    }
                },
            }
            assert(slot_value_ok(fp@, fc@, fresh@, counter_value(next), s, v));
            let ghost before = cur@;
            cur.push(v);
            assert forall|b: int| 0 <= b < j + 1 implies slot_value_ok(
                fp@,
                fc@,
                fresh@,
                counter_value(next),
                e@[b],
                #[trigger] cur@[b],
            ) by {
                if b < j {
                    assert(cur@[b] == before[b]);
                }
            }
            j = j + 1;
        }
        proof {
            assert(cur@.len() == ov@[i as int].len());
        }
        out.push(cur);
        i = i + 1;
    }
    proof {
        assert(same_shape(ov@, edges_view(out@)));
        assert forall|a: int, b: int| 0 <= a < ov@.len() && 0 <= b < ov@[a].len() implies slot_value_ok(
            fp@,
            fc@,
            new_slots(fp@, flat(ov@)),
            counter_value(next),
            ov@[a][b],
            #[trigger] edges_view(out@)[a][b],
        ) by {
            assert(edges_view(out@)[a] == out@[a]@);
        }
    }
    Some((out, after))
}

impl Graph {
    /// Removes the edges at the indices `remove` and appends `insert`, keeping
    /// the order of the edges that stay; refuses an index out of range or repeated.
    pub fn replace(&mut self, remove: &Vec<usize>, insert: Vec<Vec<usize>>) -> (r: Result<
        (),
        RewriteError,
    >)
        requires
            old(self).wf(),
            forall|i: int| 0 <= i < insert@.len() ==> #[trigger] insert@[i]@.len() > 0,
            forall|i: int, j: int|
                0 <= i < insert@.len() && 0 <= j < insert@[i]@.len() ==> #[trigger] insert@[i]@[j]
                    < old(self).next_id(),
        ensures
            r is Err <==> !valid_indices(remove@, old(self)@.len() as int),
            r is Err ==> r == Err::<(), RewriteError>(RewriteError::InvalidIndex) && *final(self)
                == *old(self),
            r is Ok ==> final(self)@ == kept(old(self)@, remove@) + edges_view(insert@),
            final(self).next_id() == old(self).next_id(),
            final(self).wf(),
    {
        if !check_indices(remove, self.edges.len()) {
            return Err(RewriteError::InvalidIndex);
        }
        let ghost e = self@;
        let mut r: Vec<Vec<usize>> = Vec::new();
        let mut i: usize = 0;
        while i < self.edges.len()
            invariant
                i <= e.len(),
                e == self@,
                self@ == edges_view(self.edges@),
                edges_view(r@) == kept_prefix(e, remove@, i as int),
            decreases e.len() - i,
        {
            proof {
                lemma_kept_step(e, remove@, i as int);
            }
            let ghost before = r@;
            if position(remove, i).is_none() {
                let c = copy_edge(&self.edges[i]);
                r.push(c);
                proof {
                    assert(edges_view(r@) =~= edges_view(before).push(c@));
                    assert(seq![e[i as int]] =~= Seq::empty().push(e[i as int]));
                }
            } else {
                assert(kept_prefix(e, remove@, i + 1) =~= kept_prefix(e, remove@, i as int));
            }
            i = i + 1;
        }
        let ghost k = r@;
        let mut t: usize = 0;
        while t < insert.len()
            invariant
                t <= insert@.len(),
                edges_view(r@) == edges_view(k) + edges_view(insert@).take(t as int),
            decreases insert@.len() - t,
        {
            let c = copy_edge(&insert[t]);
            let ghost before = r@;
            r.push(c);
            proof {
                assert(edges_view(r@) =~= edges_view(before).push(c@));
                assert(edges_view(insert@).take(t + 1) =~= edges_view(insert@).take(t as int).push(
                    insert@[t as int]@,
                ));
            }
            t = t + 1;
        }
        assert(edges_view(insert@).take(t as int) =~= edges_view(insert@));
        proof {
            lemma_kept_wf(e, remove@, e.len() as int, self.next_id());
        }
        self.edges = r;
        proof {
            let n = self@;
            let kk = kept(e, remove@);
            assert forall|i: int| 0 <= i < n.len() implies #[trigger] n[i].len() > 0 by {
                if i >= kk.len() {
                    assert(n[i] == insert@[i - kk.len()]@);
                }
            }
            assert forall|i: int, j: int| 0 <= i < n.len() && 0 <= j < n[i].len() implies #[trigger] n[i][j]
                < self.next_id() by {
                if i >= kk.len() {
                    assert(n[i] == insert@[i - kk.len()]@);
                }
            }
        }
        Ok(())
    }
}

proof fn lemma_kept_wf(e: Seq<Seq<usize>>, rm: Seq<usize>, n: int, next: int)
    requires
        graph_wf(e, next),
        0 <= n <= e.len(),
    ensures
        graph_wf(kept_prefix(e, rm, n), next),
    decreases n,
{
    if n > 0 {
        lemma_kept_wf(e, rm, n - 1, next);
        let a = kept_prefix(e, rm, n - 1);
        let b = kept_prefix(e, rm, n);
        if !rm.contains((n - 1) as usize) {
            assert forall|i: int| 0 <= i < b.len() implies #[trigger] b[i].len() > 0 by {
                if i < a.len() {
                    assert(b[i] == a[i]);
                } else {
                    assert(b[i] == e[n - 1]);
                }
            }
            assert forall|i: int, j: int| 0 <= i < b.len() && 0 <= j < b[i].len() implies #[trigger] b[i][j]
                < next by {
                if i < a.len() {
                    assert(b[i] == a[i]);
                } else {
                    assert(b[i] == e[n - 1]);
                }
            }
        } else {
            assert(b =~= a);
        }
    }
}


impl Graph {
    /// Rewrites by `rule` at the store edges `m.edges`: removes them and appends
    /// the output pattern, with the vertices bound by those edges and fresh ids
    /// for the other output slots. The binding is derived anew from the current
    /// edges, so a stale match is refused rather than applied.
    pub fn apply(&mut self, rule: &Rule, m: &Match) -> (r: Result<(), RewriteError>)
        requires
            old(self).wf(),
            rule.wf(),
        ensures
            r == Err::<(), RewriteError>(RewriteError::InvalidIndex) <==> !valid_indices(
                m.edges@,
                old(self)@.len() as int,
            ),
            r == Err::<(), RewriteError>(RewriteError::ArityMismatch) <==> valid_indices(
                m.edges@,
                old(self)@.len() as int,
            ) && !consistent(rule.input_view(), pick(old(self)@, m.edges@)),
            r == Err::<(), RewriteError>(RewriteError::IdentifierExhausted) <==> valid_indices(
                m.edges@,
                old(self)@.len() as int,
            ) && consistent(rule.input_view(), pick(old(self)@, m.edges@)) && old(self).next_id()
                + rule.fresh_slots().len() > usize::MAX + 1,
            r is Err ==> *final(self) == *old(self),
            r is Ok ==> rewritten(
                final(self)@,
                old(self)@,
                m.edges@,
                rule.output_view(),
                flat(rule.input_view()),
                flat(pick(old(self)@, m.edges@)),
                old(self).next_id(),
            ),
            r is Ok ==> final(self).next_id() == old(self).next_id() + rule.fresh_slots().len(),
            advances(*old(self), *final(self)),
    {
        if !check_indices(&m.edges, self.edges.len()) {
            return Err(RewriteError::InvalidIndex);
        }
        let chosen = self.pick_edges(&m.edges);
        if !rule.matches(chosen.as_slice()) {
            return Err(RewriteError::ArityMismatch);
        }
        let fp = flatten(rule.input().as_slice());
        let fc = flatten(chosen.as_slice());
        let ghost e = self@;
        let ghost n0 = self.next_id();
        let ghost pk = pick(e, m.edges@);
        match instantiate(rule.output(), &fp, &fc, self.next) {
            None => Err(RewriteError::IdentifierExhausted),
            Some((out, after)) => {
                let ghost ov = edges_view(out@);
                let ghost o = rule.output_view();
                let ghost fresh = rule.fresh_slots();
                proof {
                    assert forall|i: int, j: int| 0 <= i < pk.len() && 0 <= j < pk[i].len() implies #[trigger] pk[i][j]
                        < n0 by {
                        assert(pk[i] == e[m.edges@[i] as int]);
                    }
                    lemma_flat_bounded(pk, n0);
                    assert forall|i: int| 0 <= i < out@.len() implies #[trigger] out@[i]@.len() > 0 by {
                        assert(ov[i] == out@[i]@);
                        assert(o[i].len() > 0);
                    }
                    assert forall|i: int, j: int| 0 <= i < out@.len() && 0 <= j < out@[i]@.len() implies #[trigger] out@[i]@[j]
                        < counter_value(after) by {
                        assert(ov[i] == out@[i]@);
                        assert(slot_value_ok(fp@, fc@, fresh, n0, o[i][j], ov[i][j]));
                        if fp@.contains(o[i][j]) {
                            let k = choose|k: int| 0 <= k < fp@.len() && fp@[k] == o[i][j];
                            assert(fc@[k] < n0);
                        } else {
                            let k = choose|k: int| 0 <= k < fresh.len() && fresh[k] == o[i][j];
                            assert(ov[i][j] == n0 + k);
                        }
                    }
                }
                self.next = after;
                let res = self.replace(&m.edges, out);
                proof {
                    let k = kept(e, m.edges@);
                    assert(res is Ok);
                    assert(self@.take(k.len() as int) =~= k);
                    assert(self@.skip(k.len() as int) =~= ov);
                }
                Ok(())
            },
        }
    }

    /// Appends to `out` every match of the pattern `p` whose first indices are `prefix`.
    fn extend(&self, p: &Vec<Vec<usize>>, prefix: &mut Vec<usize>, out: &mut Vec<Match>)
        requires
            old(prefix)@.len() <= p@.len(),
            valid_indices(old(prefix)@, self@.len() as int),
        ensures
            final(prefix)@ == old(prefix)@,
            final(out)@.len() >= old(out)@.len(),
            forall|t: int| 0 <= t < old(out)@.len() ==> final(out)@[t] == old(out)@[t],
            forall|t: int|
                old(out)@.len() <= t < final(out)@.len() ==> (#[trigger] final(out)@[t]).fits(
                    edges_view(p@),
                    self@,
                ),
            forall|idx: Seq<usize>| #[trigger]
                is_match(edges_view(p@), self@, idx) && idx.take(old(prefix)@.len() as int)
                    == old(prefix)@ ==> exists|t: int|
                    0 <= t < final(out)@.len() && (#[trigger] final(out)@[t]).edges@ == idx,
        decreases p@.len() - prefix@.len(),
    {
        let ghost pv = edges_view(p@);
        let ghost pre = prefix@;
        let ghost out0 = out@;
        let plen = prefix.len();
        if plen == p.len() {
            let chosen = self.pick_edges(prefix);
            if shape_fits(p.as_slice(), chosen.as_slice()) {
                let fp = flatten(p.as_slice());
                let fc = flatten(chosen.as_slice());
                if agree(&fp, &fc) {
                    let binding = binding_of(&fp, &fc);
                    let edges = copy_edge(prefix);
                    out.push(Match { edges, binding });
                    proof {
                        let t = out@.len() - 1;
                        assert(out@[t].edges@ == pre);
                    }
                }
            }
            proof {
                assert forall|idx: Seq<usize>| #[trigger]
                    is_match(pv, self@, idx) && idx.take(plen as int) == pre implies exists|t: int|
                    0 <= t < out@.len() && (#[trigger] out@[t]).edges@ == idx by {
                    assert(idx =~= idx.take(plen as int));
                    let t = out@.len() - 1;
                    assert(out@[t].edges@ == idx);
                }
            }
            return;
        }
        let n = self.edges.len();
        let mut c: usize = 0;
        while c < n
            invariant
                n == self@.len(),
                plen == pre.len(),
                plen < p@.len(),
                pv == edges_view(p@),
                pre == old(prefix)@,
                prefix@ == pre,
                valid_indices(pre, self@.len() as int),
                out@.len() >= out0.len(),
                forall|t: int| 0 <= t < out0.len() ==> out@[t] == out0[t],
                forall|t: int| out0.len() <= t < out@.len() ==> (#[trigger] out@[t]).fits(pv, self@),
                forall|idx: Seq<usize>| #[trigger]
                    is_match(pv, self@, idx) && idx.take(plen as int) == pre && idx[plen as int] < c
                        ==> exists|t: int| 0 <= t < out@.len() && (#[trigger] out@[t]).edges@ == idx,
            decreases n - c,
        {
            let ghost out1 = out@;
            let fits_arity = self.edges[c].len() == p[plen].len();
            let fresh_edge = position(prefix, c).is_none();
            let mut partial = false;
            if fresh_edge && fits_arity {
                prefix.push(c);
                proof {
                    assert forall|a: int, b: int| 0 <= a < prefix@.len() && 0 <= b < prefix@.len()
                        && a != b implies prefix@[a] != prefix@[b] by {
                        if a < plen && b < plen {
                            assert(pre[a] != pre[b]);
                        } else if a < plen {
                            assert(pre.contains(prefix@[a]));
                        } else if b < plen {
                            assert(pre.contains(prefix@[b]));
                        }
                    }
                }
                let chosen = self.pick_edges(prefix);
                let fp = flatten_take(p.as_slice(), prefix.len());
                let fc = flatten(chosen.as_slice());
                partial = agree(&fp, &fc);
                if partial {
                    self.extend(p, prefix, out);
                }
                prefix.pop();
                assert(prefix@ =~= pre);
                proof {
                    if !partial {
                        assert forall|idx: Seq<usize>| #[trigger]
                            is_match(pv, self@, idx) && idx.take(plen as int) == pre implies idx[plen as int]
                            != c by {
                            if idx[plen as int] == c {
                                lemma_consistent_take(pv, pick(self@, idx), plen + 1);
                                assert(idx.take(plen + 1) =~= pre.push(c));
                                assert(pick(self@, idx).take(plen + 1) =~= pick(self@, pre.push(c)));
                                assert(p@.take(plen + 1).map_values(|e: Vec<usize>| e@) =~= pv.take(plen + 1));
                            }
                        }
                    }
                }
            }
            proof {
                assert forall|idx: Seq<usize>| #[trigger]
                    is_match(pv, self@, idx) && idx.take(plen as int) == pre && idx[plen as int] < c
                        + 1 implies exists|t: int|
                    0 <= t < out@.len() && (#[trigger] out@[t]).edges@ == idx by {
                    if idx[plen as int] < c {
                        let t = choose|t: int| 0 <= t < out1.len() && (#[trigger] out1[t]).edges@ == idx;
                        if t < out0.len() {
                            assert(out@[t] == out0[t]);
                        } else {
                            assert(out@[t] == out1[t]);
                        }
                    } else {
                        if !fresh_edge {
                            let q = choose|q: int| 0 <= q < pre.len() && pre[q] == c;
                            assert(idx[q] == pre[q]);
                            assert(idx[q] == idx[plen as int]);
                        } else if !fits_arity {
                            assert(pick(self@, idx)[plen as int] == self@[c as int]);
                            assert(self.edges@[c as int]@ == self@[c as int]);
                            assert(pv[plen as int] == p@[plen as int]@);
                        } else if partial {
                            assert(idx.take(plen + 1) =~= pre.push(c));
                        }
                    }
                }
            }
            c = c + 1;
        }
        proof {
            assert forall|idx: Seq<usize>| #[trigger]
                is_match(pv, self@, idx) && idx.take(plen as int) == pre implies exists|t: int|
                0 <= t < out@.len() && (#[trigger] out@[t]).edges@ == idx by {
                assert(idx[plen as int] < n);
            }
        }
    }

    /// Every match of the rule's input pattern: each selection of distinct edges,
    /// one per input edge, that fits the pattern, with its binding.
    pub fn find_matches(&self, rule: &Rule) -> (r: Vec<Match>)
        ensures
            forall|t: int| 0 <= t < r@.len() ==> (#[trigger] r@[t]).fits(rule.input_view(), self@),
            forall|idx: Seq<usize>| #[trigger]
                is_match(rule.input_view(), self@, idx) ==> exists|t: int|
                    0 <= t < r@.len() && (#[trigger] r@[t]).edges@ == idx,
            r@.len() == 0 <==> !has_match(rule.input_view(), self@),
    {
        let mut prefix: Vec<usize> = Vec::new();
        let mut out: Vec<Match> = Vec::new();
        self.extend(rule.input(), &mut prefix, &mut out);
        proof {
            assert forall|idx: Seq<usize>| #[trigger]
                is_match(rule.input_view(), self@, idx) implies exists|t: int|
                0 <= t < out@.len() && (#[trigger] out@[t]).edges@ == idx by {
                assert(idx.take(0) =~= Seq::<usize>::empty());
            }
            if out@.len() > 0 {
                assert(out@[0].fits(rule.input_view(), self@));
                assert(is_match(rule.input_view(), self@, out@[0].edges@));
            }
        }
        out
    }

    /// One rewrite step under the first-match policy: applies the rule at the
    /// first match, if there is one, and returns it.
    pub fn apply_rule(&mut self, rule: &Rule) -> (r: Result<Option<Match>, RewriteError>)
        requires
            old(self).wf(),
            rule.wf(),
        ensures
            r == Ok::<Option<Match>, RewriteError>(None) <==> !has_match(
                rule.input_view(),
                old(self)@,
            ),
            r is Ok && r->Ok_0 is None ==> *final(self) == *old(self),
            r is Err <==> has_match(rule.input_view(), old(self)@) && old(self).next_id()
                + rule.fresh_slots().len() > usize::MAX + 1,
            r is Err ==> r == Err::<Option<Match>, RewriteError>(RewriteError::IdentifierExhausted)
                && *final(self) == *old(self),
            r matches Ok(Some(m)) ==> m.fits(rule.input_view(), old(self)@) && rewritten(
                final(self)@,
                old(self)@,
                m.edges@,
                rule.output_view(),
                flat(rule.input_view()),
                flat(pick(old(self)@, m.edges@)),
                old(self).next_id(),
            ) && final(self).next_id() == old(self).next_id() + rule.fresh_slots().len(),
            advances(*old(self), *final(self)),
    {
        let mut ms = self.find_matches(rule);
        if ms.len() == 0 {
            return Ok(None);
        }
        let m = ms.remove(0);
        match self.apply(rule, &m) {
            Ok(()) => Ok(Some(m)),
            Err(e) => Err(e),
        }
    }
}

} // verus!
