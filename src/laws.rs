//! Properties that relate several operations, or hold of every input.
use crate::geometry::{ball_volume, reach};
use crate::graph::{advances, is_match, kept, kept_prefix, pick, rewritten, valid_indices, Graph};
use crate::pattern::{flat, lemma_flat_index, lemma_flat_take_len_same_shape, same_shape};
use vstd::prelude::*;

verus! {

/// How many indices below `n` occur in `rm`.
pub open spec fn removed_count(rm: Seq<usize>, n: int) -> int
    decreases n,
{
    if n <= 0 {
        0
    } else {
        removed_count(rm, n - 1) + if rm.contains((n - 1) as usize) {
            1int
        } else {
            0int
        }
    }
}

proof fn lemma_kept_prefix_len(e: Seq<Seq<usize>>, rm: Seq<usize>, n: int)
    requires
        0 <= n,
    ensures
        kept_prefix(e, rm, n).len() == n - removed_count(rm, n),
    decreases n,
{
    if n > 0 {
        lemma_kept_prefix_len(e, rm, n - 1);
    }
}

proof fn lemma_removed_count_push(rm: Seq<usize>, x: usize, n: int)
    requires
        0 <= n <= usize::MAX + 1,
    ensures
        removed_count(rm.push(x), n) == removed_count(rm, n) + if x < n && !rm.contains(x) {
            1int
        } else {
            0int
        },
    decreases n,
{
    if n > 0 {
        lemma_removed_count_push(rm, x, n - 1);
        let y = (n - 1) as usize;
        assert(rm.push(x).contains(y) <==> rm.contains(y) || y == x) by {
            if rm.push(x).contains(y) {
                let k = choose|k: int| 0 <= k < rm.len() + 1 && rm.push(x)[k] == y;
                if k < rm.len() {
                    assert(rm[k] == y);
                }
            }
            if rm.contains(y) {
                let k = choose|k: int| 0 <= k < rm.len() && rm[k] == y;
                assert(rm.push(x)[k] == y);
            }
            if y == x {
                assert(rm.push(x)[rm.len() as int] == y);
            }
        }
    }
}

proof fn lemma_removed_count_empty(rm: Seq<usize>, n: int)
    requires
        rm.len() == 0,
    ensures
        removed_count(rm, n) == 0,
    decreases n,
{
    if n > 0 {
        lemma_removed_count_empty(rm, n - 1);
    }
}

proof fn lemma_removed_count_valid(rm: Seq<usize>, n: int)
    requires
        0 <= n <= usize::MAX + 1,
        valid_indices(rm, n),
    ensures
        removed_count(rm, n) == rm.len(),
    decreases rm.len(),
{
    if rm.len() > 0 {
        let r = rm.drop_last();
        let x = rm.last();
        assert(valid_indices(r, n)) by {
            assert forall|k: int| 0 <= k < r.len() implies #[trigger] r[k] < n by {
                assert(r[k] == rm[k]);
            }
            assert forall|a: int, b: int| 0 <= a < r.len() && 0 <= b < r.len() && a != b implies r[a]
                != r[b] by {
                assert(r[a] == rm[a] && r[b] == rm[b]);
            }
        }
        lemma_removed_count_valid(r, n);
        assert(!r.contains(x)) by {
            if r.contains(x) {
                let k = choose|k: int| 0 <= k < r.len() && r[k] == x;
                assert(rm[k] == rm[rm.len() - 1]);
            }
        }
        assert(x < n);
        assert(r.push(x) =~= rm);
        lemma_removed_count_push(r, x, n);
    } else {
        lemma_removed_count_empty(rm, n);
    }
}

/// Removing the edges of a match and adding the output pattern leaves
/// `before - |input| + |output|` edges.
pub proof fn lemma_rewrite_edge_count(
    after: Seq<Seq<usize>>,
    before: Seq<Seq<usize>>,
    idx: Seq<usize>,
    p: Seq<Seq<usize>>,
    o: Seq<Seq<usize>>,
    fp: Seq<usize>,
    fc: Seq<usize>,
    next: int,
)
    requires
        before.len() <= usize::MAX,
        is_match(p, before, idx),
        rewritten(after, before, idx, o, fp, fc, next),
    ensures
        after.len() == before.len() - p.len() + o.len(),
{
    lemma_kept_prefix_len(before, idx, before.len() as int);
    lemma_removed_count_valid(idx, before.len() as int);
    let k = kept(before, idx);
    assert(after =~= after.take(k.len() as int) + after.skip(k.len() as int));
}

/// Along any run of steps the allocator's counter never goes back, so the ids
/// handed out at one step lie above every vertex present before it, and no id
/// is handed out twice.
pub proof fn lemma_allocator_monotone(states: Seq<Graph>)
    requires
        states.len() > 0,
        states[0].wf(),
        forall|i: int| 0 <= i < states.len() - 1 ==> advances(#[trigger] states[i], states[i + 1]),
    ensures
        forall|i: int, j: int|
            0 <= i <= j < states.len() ==> #[trigger] states[i].next_id() <= #[trigger] states[j].next_id(),
        forall|i: int, j: int, a: int, b: int|
            0 <= i <= j < states.len() && 0 <= a < states[i]@.len() && 0 <= b < states[i]@[a].len()
                ==> #[trigger] states[i]@[a][b] < #[trigger] states[j].next_id(),
    decreases states.len(),
{
    if states.len() > 1 {
        let r = states.drop_last();
        assert forall|i: int| 0 <= i < r.len() - 1 implies advances(#[trigger] r[i], r[i + 1]) by {
            assert(advances(states[i], states[i + 1]));
        }
        lemma_allocator_monotone(r);
        let last = states.len() - 1;
        assert(advances(states[last - 1], states[last]));
        assert forall|i: int, j: int| 0 <= i <= j < states.len() implies #[trigger] states[i].next_id()
            <= #[trigger] states[j].next_id() by {
            if j < last {
                assert(r[i] == states[i] && r[j] == states[j]);
            } else if i < last {
                assert(r[i] == states[i] && r[last - 1] == states[last - 1]);
                assert(r[i].next_id() <= r[last - 1].next_id());
            }
        }
        assert forall|i: int, j: int, a: int, b: int|
            0 <= i <= j < states.len() && 0 <= a < states[i]@.len() && 0 <= b < states[i]@[a].len()
                implies #[trigger] states[i]@[a][b] < #[trigger] states[j].next_id() by {
            assert(states[i].wf()) by {
                if i > 0 {
                    assert(advances(states[i - 1], states[i]));
                }
            }
            assert(states[i].next_id() <= states[j].next_id());
        }
    }
}

/// A slot repeated in the input pattern binds one vertex: wherever pattern
/// position `(i, j)` and `(k, l)` hold the same slot, the matched edges hold the
/// same vertex there.
pub proof fn lemma_repeated_slot_same_vertex(
    p: Seq<Seq<usize>>,
    e: Seq<Seq<usize>>,
    idx: Seq<usize>,
    i: int,
    j: int,
    k: int,
    l: int,
)
    requires
        is_match(p, e, idx),
        0 <= i < p.len(),
        0 <= j < p[i].len(),
        0 <= k < p.len(),
        0 <= l < p[k].len(),
        p[i][j] == p[k][l],
    ensures
        e[idx[i] as int][j] == e[idx[k] as int][l],
{
    let c = pick(e, idx);
    assert(same_shape(p, c));
    assert(p[i].len() == c[i].len() && p[k].len() == c[k].len());
    lemma_flat_index(p, i, j);
    lemma_flat_index(p, k, l);
    lemma_flat_index(c, i, j);
    lemma_flat_index(c, k, l);
    lemma_flat_take_len_same_shape(p, c, i);
    lemma_flat_take_len_same_shape(p, c, k);
    let a = flat(p.take(i)).len() + j;
    let b = flat(p.take(k)).len() + l;
    assert(flat(p)[a] == flat(p)[b]);
    assert(flat(c)[a] == flat(c)[b]);
}

/// A match never uses one store edge for two pattern edges.
pub proof fn lemma_match_edges_distinct(
    p: Seq<Seq<usize>>,
    e: Seq<Seq<usize>>,
    idx: Seq<usize>,
    a: int,
    b: int,
)
    requires
        is_match(p, e, idx),
        0 <= a < idx.len(),
        0 <= b < idx.len(),
        a != b,
    ensures
        idx[a] != idx[b],
{
}

/// Within radius zero no vertex but the centre lies, so the ball volume is 0.
pub proof fn lemma_ball_radius_zero(e: Seq<Seq<usize>>, x: usize)
    ensures
        ball_volume(e, x, 0) == 0,
{
    assert(reach(e, x, 0) == set![x]);
    assert(set![x].len() == 1) by {
        assert(Set::<usize>::empty().insert(x).len() == 1);
    }
}

} // verus!
