use vstd::prelude::*;

verus! {

/// The vertex sequences of a list of edges.
pub open spec fn edges_view(s: Seq<Vec<usize>>) -> Seq<Seq<usize>> {
    s.map_values(|e: Vec<usize>| e@)
}

/// All entries of a list of edges, edge after edge.
pub open spec fn flat(s: Seq<Seq<usize>>) -> Seq<usize>
    decreases s.len(),
{
    if s.len() == 0 {
        Seq::empty()
    } else {
        flat(s.drop_last()) + s.last()
    }
}

/// Two edge lists with the same number of edges, edge by edge of the same arity.
pub open spec fn same_shape(p: Seq<Seq<usize>>, c: Seq<Seq<usize>>) -> bool {
    &&& p.len() == c.len()
    &&& forall|i: int| 0 <= i < p.len() ==> #[trigger] p[i].len() == c[i].len()
}

/// Wherever `p` holds one slot twice, `c` holds one vertex twice.
pub open spec fn agrees(p: Seq<usize>, c: Seq<usize>) -> bool {
    &&& p.len() == c.len()
    &&& forall|a: int, b: int|
        0 <= a < p.len() && 0 <= b < p.len() && #[trigger] p[a] == #[trigger] p[b] ==> c[a] == c[b]
}

/// The concrete edges `c` fit the pattern `p`: one concrete edge per pattern
/// edge, arities equal, and one vertex for each slot.
pub open spec fn consistent(p: Seq<Seq<usize>>, c: Seq<Seq<usize>>) -> bool {
    same_shape(p, c) && agrees(flat(p), flat(c))
}

/// The entries of `s` that are not in `known`, each once, in order of first appearance.
pub open spec fn new_slots(known: Seq<usize>, s: Seq<usize>) -> Seq<usize>
    decreases s.len(),
{
    if s.len() == 0 {
        Seq::empty()
    } else {
        let f = new_slots(known, s.drop_last());
        if known.contains(s.last()) || f.contains(s.last()) {
            f
        } else {
            f.push(s.last())
        }
    }
}

/// A rule is well formed when it consumes at least one edge and no edge is empty.
pub open spec fn rule_edges_wf(input: Seq<Seq<usize>>, output: Seq<Seq<usize>>) -> bool {
    &&& input.len() > 0
    &&& forall|i: int| 0 <= i < input.len() ==> #[trigger] input[i].len() > 0
    &&& forall|i: int| 0 <= i < output.len() ==> #[trigger] output[i].len() > 0
}

pub proof fn lemma_flat_take_step(s: Seq<Seq<usize>>, i: int)
    requires
        0 <= i < s.len(),
    ensures
        flat(s.take(i + 1)) == flat(s.take(i)) + s[i],
{
    assert(s.take(i + 1).drop_last() =~= s.take(i));
}

pub proof fn lemma_flat_len_same_shape(p: Seq<Seq<usize>>, c: Seq<Seq<usize>>)
    requires
        same_shape(p, c),
    ensures
        flat(p).len() == flat(c).len(),
    decreases p.len(),
{
    if p.len() > 0 {
        lemma_flat_len_same_shape(p.drop_last(), c.drop_last());
        assert(p.last().len() == c.last().len());
    }
}

/// Where the entry at position `j` of edge `i` stands in the flattened list.
pub proof fn lemma_flat_index(s: Seq<Seq<usize>>, i: int, j: int)
    requires
        0 <= i < s.len(),
        0 <= j < s[i].len(),
    ensures
        flat(s.take(i)).len() + j < flat(s).len(),
        flat(s)[flat(s.take(i)).len() + j] == s[i][j],
    decreases s.len(),
{
    if i == s.len() - 1 {
        assert(s.take(i) =~= s.drop_last());
    } else {
        assert(s.drop_last().take(i) =~= s.take(i));
        lemma_flat_index(s.drop_last(), i, j);
    }
}

/// The entries of the first `m` edges come first in the flattened list.
pub proof fn lemma_flat_take_prefix(s: Seq<Seq<usize>>, m: int)
    requires
        0 <= m <= s.len(),
    ensures
        flat(s.take(m)).len() <= flat(s).len(),
        flat(s.take(m)) == flat(s).take(flat(s.take(m)).len() as int),
    decreases s.len(),
{
    if m == s.len() {
        assert(s.take(m) =~= s);
        assert(flat(s).take(flat(s).len() as int) =~= flat(s));
    } else {
        assert(s.drop_last().take(m) =~= s.take(m));
        lemma_flat_take_prefix(s.drop_last(), m);
        let a = flat(s.drop_last());
        let l = flat(s.take(m)).len() as int;
        assert((a + s.last()).take(l) =~= a.take(l));
    }
}

/// Edges that fit a pattern fit each of its prefixes.
pub proof fn lemma_consistent_take(p: Seq<Seq<usize>>, c: Seq<Seq<usize>>, m: int)
    requires
        consistent(p, c),
        0 <= m <= p.len(),
    ensures
        agrees(flat(p.take(m)), flat(c.take(m))),
{
    lemma_flat_take_prefix(p, m);
    lemma_flat_take_prefix(c, m);
    lemma_flat_take_len_same_shape(p, c, m);
    lemma_flat_len_same_shape(p, c);
    let fp = flat(p.take(m));
    let fc = flat(c.take(m));
    assert forall|a: int, b: int|
        0 <= a < fp.len() && 0 <= b < fp.len() && #[trigger] fp[a] == #[trigger] fp[b] implies fc[a]
        == fc[b] by {
        assert(fp[a] == flat(p)[a] && fp[b] == flat(p)[b]);
        assert(fc[a] == flat(c)[a] && fc[b] == flat(c)[b]);
    }
}

/// Two lists of the same shape put the entry of a position at the same place.
pub proof fn lemma_flat_take_len_same_shape(p: Seq<Seq<usize>>, c: Seq<Seq<usize>>, i: int)
    requires
        same_shape(p, c),
        0 <= i <= p.len(),
    ensures
        flat(p.take(i)).len() == flat(c.take(i)).len(),
{
    assert(same_shape(p.take(i), c.take(i))) by {
        assert forall|k: int| 0 <= k < i implies #[trigger] p.take(i)[k].len() == c.take(
            i,
        )[k].len() by {
            assert(p[k].len() == c[k].len());
        }
    }
    lemma_flat_len_same_shape(p.take(i), c.take(i));
}

pub proof fn lemma_new_slots_facts(known: Seq<usize>, s: Seq<usize>)
    ensures
        new_slots(known, s).no_duplicates(),
        forall|x: usize| #[trigger]
            new_slots(known, s).contains(x) <==> (s.contains(x) && !known.contains(x)),
    decreases s.len(),
{
    if s.len() > 0 {
        let r = s.drop_last();
        lemma_new_slots_facts(known, r);
        let f = new_slots(known, r);
        assert forall|x: usize| #[trigger] s.contains(x) <==> (r.contains(x) || x == s.last()) by {
            if s.contains(x) {
                let k = choose|k: int| 0 <= k < s.len() && s[k] == x;
                if k < s.len() - 1 {
                    assert(r[k] == x);
                }
            }
            if r.contains(x) {
                let k = choose|k: int| 0 <= k < r.len() && r[k] == x;
                assert(s[k] == x);
            }
            if x == s.last() {
                assert(s[s.len() - 1] == x);
            }
        }
        if !(known.contains(s.last()) || f.contains(s.last())) {
            assert forall|x: usize| #[trigger] f.push(s.last()).contains(x) <==> (f.contains(x)
                || x == s.last()) by {
                if f.push(s.last()).contains(x) {
                    let k = choose|k: int| 0 <= k < f.len() + 1 && f.push(s.last())[k] == x;
                    if k < f.len() {
                        assert(f[k] == x);
                    }
                }
                if f.contains(x) {
                    let k = choose|k: int| 0 <= k < f.len() && f[k] == x;
                    assert(f.push(s.last())[k] == x);
                }
                if x == s.last() {
                    assert(f.push(s.last())[f.len() as int] == x);
                }
            }
        }
    }
}

/// The position of the first `x` in `v`.
pub fn position(v: &Vec<usize>, x: usize) -> (r: Option<usize>)
    ensures
        r matches Some(k) ==> k < v@.len() && v@[k as int] == x && forall|t: int|
            0 <= t < k ==> v@[t] != x,
        r is None ==> !v@.contains(x),
{
    let mut k: usize = 0;
    while k < v.len()
        invariant
            k <= v@.len(),
            forall|t: int| 0 <= t < k ==> v@[t] != x,
        decreases v@.len() - k,
    {
        if v[k] == x {
            return Some(k);
        }
        k = k + 1;
    }
    None
}

/// A copy of one edge.
pub fn copy_edge(e: &Vec<usize>) -> (r: Vec<usize>)
    ensures
        r@ == e@,
{
    let mut r: Vec<usize> = Vec::new();
    let mut k: usize = 0;
    while k < e.len()
        invariant
            k <= e@.len(),
            r@ == e@.take(k as int),
        decreases e@.len() - k,
    {
        r.push(e[k]);
        k = k + 1;
        assert(r@ =~= e@.take(k as int));
    }
    assert(e@.take(k as int) =~= e@);
    r
}

/// A copy of a list of edges.
pub fn copy_edges(s: &[Vec<usize>]) -> (r: Vec<Vec<usize>>)
    ensures
        edges_view(r@) == edges_view(s@),
{
    let mut r: Vec<Vec<usize>> = Vec::new();
    let mut i: usize = 0;
    while i < s.len()
        invariant
            i <= s@.len(),
            edges_view(r@) == edges_view(s@).take(i as int),
        decreases s@.len() - i,
    {
        let e = copy_edge(&s[i]);
        let ghost before = r@;
        r.push(e);
        proof {
            assert(r@ == before.push(e));
            assert(edges_view(r@) =~= edges_view(before).push(e@));
            assert(edges_view(s@).take(i + 1) =~= edges_view(s@).take(i as int).push(s@[i as int]@));
        }
        i = i + 1;
    }
    assert(edges_view(s@).take(i as int) =~= edges_view(s@));
    r
}

/// All entries of a list of edges, edge after edge.
pub fn flatten(s: &[Vec<usize>]) -> (r: Vec<usize>)
    ensures
        r@ == flat(edges_view(s@)),
{
    let r = flatten_take(s, s.len());
    assert(edges_view(s@).take(s@.len() as int) =~= edges_view(s@));
    r
}

/// All entries of the first `n` edges, edge after edge.
pub fn flatten_take(s: &[Vec<usize>], n: usize) -> (r: Vec<usize>)
    requires
        n <= s@.len(),
    ensures
        r@ == flat(edges_view(s@).take(n as int)),
{
    let ghost sv = edges_view(s@);
    let mut r: Vec<usize> = Vec::new();
    let mut i: usize = 0;
    while i < n
        invariant
            i <= n,
            n <= s@.len(),
            sv == edges_view(s@),
            r@ == flat(sv.take(i as int)),
        decreases n - i,
    {
        let e = &s[i];
        let mut j: usize = 0;
        while j < e.len()
            invariant
                i < s@.len(),
                *e == s@[i as int],
                j <= e@.len(),
                sv == edges_view(s@),
                r@ == flat(sv.take(i as int)) + e@.take(j as int),
            decreases e@.len() - j,
        {
            r.push(e[j]);
            j = j + 1;
            assert(r@ =~= flat(sv.take(i as int)) + e@.take(j as int));
        }
        proof {
            lemma_flat_take_step(sv, i as int);
            assert(e@.take(j as int) =~= sv[i as int]);
        }
        i = i + 1;
    }
    r
}

/// Whether two edge lists have the same shape.
pub fn shape_fits(p: &[Vec<usize>], c: &[Vec<usize>]) -> (r: bool)
    ensures
        r == same_shape(edges_view(p@), edges_view(c@)),
{
    if p.len() != c.len() {
        return false;
    }
    let mut i: usize = 0;
    while i < p.len()
        invariant
            p@.len() == c@.len(),
            i <= p@.len(),
            forall|k: int| 0 <= k < i ==> #[trigger] p@[k]@.len() == c@[k]@.len(),
        decreases p@.len() - i,
    {
        if p[i].len() != c[i].len() {
            assert(edges_view(p@)[i as int].len() != edges_view(c@)[i as int].len());
            return false;
        }
        i = i + 1;
    }
    assert forall|k: int| 0 <= k < edges_view(p@).len() implies #[trigger] edges_view(p@)[k].len()
        == edges_view(c@)[k].len() by {
        assert(p@[k]@.len() == c@[k]@.len());
    }
    true
}

/// Whether `c` holds one vertex wherever `p` holds one slot.
pub fn agree(p: &Vec<usize>, c: &Vec<usize>) -> (r: bool)
    ensures
        r == agrees(p@, c@),
{
    if p.len() != c.len() {
        return false;
    }
    let mut a: usize = 0;
    while a < p.len()
        invariant
            p@.len() == c@.len(),
            a <= p@.len(),
            forall|x: int, y: int|
                0 <= x < a && 0 <= y < a && #[trigger] p@[x] == #[trigger] p@[y] ==> c@[x] == c@[y],
        decreases p@.len() - a,
    {
        let mut b: usize = 0;
        while b < a
            invariant
                p@.len() == c@.len(),
                a < p@.len(),
                b <= a,
                forall|x: int, y: int|
                    0 <= x < a && 0 <= y < a && #[trigger] p@[x] == #[trigger] p@[y] ==> c@[x]
                        == c@[y],
                forall|y: int| 0 <= y < b && p@[a as int] == #[trigger] p@[y] ==> c@[a as int] == c@[y],
            decreases a - b,
        {
            if p[a] == p[b] && c[a] != c[b] {
                return false;
            }
            b = b + 1;
        }
        a = a + 1;
    }
    true
}

/// A malformed rule.
#[derive(Debug, Clone, Copy, PartialEq, Eq, Structural)]
pub enum RuleError {
    /// The input pattern has no edge: a rule must consume at least one edge.
    EmptyInput,
    /// Some input or output edge has arity zero.
    EmptyEdge,
}

/// A rewriting rule: edges fitting `input` are replaced by edges built from `output`.
///
/// Entries of both patterns are slots, local to the rule. A slot repeated in the
/// input stands for one vertex; an output slot absent from the input stands for
/// a vertex created by the rewrite.
pub struct Rule {
    input: Vec<Vec<usize>>,
    output: Vec<Vec<usize>>,
}

impl Rule {
    pub closed spec fn input_view(&self) -> Seq<Seq<usize>> {
        edges_view(self.input@)
    }

    pub closed spec fn output_view(&self) -> Seq<Seq<usize>> {
        edges_view(self.output@)
    }

    pub open spec fn wf(&self) -> bool {
        rule_edges_wf(self.input_view(), self.output_view())
    }

    /// The output slots absent from the input, each once, in order of first
    /// appearance: each stands for a vertex that a rewrite creates.
    pub open spec fn fresh_slots(&self) -> Seq<usize> {
        new_slots(flat(self.input_view()), flat(self.output_view()))
    }

    /// Builds a rule, refusing an empty input and any edge of arity zero.
    pub fn new(input: Vec<Vec<usize>>, output: Vec<Vec<usize>>) -> (r: Result<Rule, RuleError>)
        ensures
            r is Err <==> !rule_edges_wf(edges_view(input@), edges_view(output@)),
            r == Err::<Rule, RuleError>(RuleError::EmptyInput) <==> input@.len() == 0,
            r matches Ok(rule) ==> rule.input_view() == edges_view(input@) && rule.output_view()
                == edges_view(output@),
    {
        if input.len() == 0 {
            return Err(RuleError::EmptyInput);
        }
        let mut i: usize = 0;
        while i < input.len()
            invariant
                i <= input@.len(),
                forall|k: int| 0 <= k < i ==> #[trigger] input@[k]@.len() > 0,
            decreases input@.len() - i,
        {
            if input[i].len() == 0 {
                assert(edges_view(input@)[i as int].len() == 0);
                return Err(RuleError::EmptyEdge);
            }
            i = i + 1;
        }
        let mut i: usize = 0;
        while i < output.len()
            invariant
                input@.len() > 0,
                i <= output@.len(),
                forall|k: int| 0 <= k < i ==> #[trigger] output@[k]@.len() > 0,
            decreases output@.len() - i,
        {
            if output[i].len() == 0 {
                assert(edges_view(output@)[i as int].len() == 0);
                return Err(RuleError::EmptyEdge);
            }
            i = i + 1;
        }
        proof {
            assert forall|k: int| 0 <= k < edges_view(input@).len() implies #[trigger] edges_view(
                input@,
            )[k].len() > 0 by {
                assert(input@[k]@.len() > 0);
            }
            assert forall|k: int| 0 <= k < edges_view(output@).len() implies #[trigger] edges_view(
                output@,
            )[k].len() > 0 by {
                assert(output@[k]@.len() > 0);
            }
        }
        Ok(Rule { input, output })
    }

    /// The input pattern.
    pub fn input(&self) -> (r: &Vec<Vec<usize>>)
        ensures
            edges_view(r@) == self.input_view(),
    {
        &self.input
    }

    /// The output pattern.
    pub fn output(&self) -> (r: &Vec<Vec<usize>>)
        ensures
            edges_view(r@) == self.output_view(),
    {
        &self.output
    }

    /// Whether `edges`, taken in order, fit the input pattern: one edge per
    /// pattern edge, equal arities, and one vertex for each slot.
    pub fn matches(&self, edges: &[Vec<usize>]) -> (r: bool)
        ensures
            r == consistent(self.input_view(), edges_view(edges@)),
    {
        if !shape_fits(self.input.as_slice(), edges) {
            return false;
        }
        let fp = flatten(self.input.as_slice());
        let fc = flatten(edges);
        agree(&fp, &fc)
    }
}

} // verus!
