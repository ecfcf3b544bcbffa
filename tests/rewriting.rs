use spatial_hypergraph::{Graph, Match, RewriteError, Rule, RuleError};

fn plane_rule() -> Rule {
    Rule::new(
        vec![vec![0, 1, 1], vec![2, 0, 3]],
        vec![vec![1, 4, 1], vec![1, 2, 4], vec![3, 4, 4]],
    )
    .unwrap()
}

#[test]
fn plane_rule_rewrites_seed() {
    // a, b, c, d, e are the slots 0, 1, 2, 3, 4
    let rule = Rule::new(
        vec![vec![0, 1, 1], vec![2, 0, 3]],
        vec![vec![1, 4, 1], vec![1, 0, 4], vec![3, 4, 4]],
    )
    .unwrap();
    let mut g = Graph::new(vec![vec![0, 1, 1], vec![2, 0, 3]]);
    assert_eq!(g.next_vertex(), Some(4));
    let m = g.apply_rule(&rule).unwrap().unwrap();
    assert_eq!(m.edges, vec![0, 1]);
    assert_eq!(m.binding, vec![(0, 0), (1, 1), (2, 2), (3, 3)]);
    assert_eq!(
        g.edges(),
        &vec![vec![1, 4, 1], vec![1, 0, 4], vec![3, 4, 4]]
    );
    assert_eq!(g.next_vertex(), Some(5));
}

#[test]
fn plane_rule_second_step() {
    let rule = plane_rule();
    let mut g = Graph::new(vec![vec![0, 1, 1], vec![2, 0, 3]]);
    g.apply_rule(&rule).unwrap().unwrap();
    // The only edge of shape (a, b, b) is [3, 4, 4], and no edge holds 3 in
    // its middle position.
    let r = g.apply_rule(&rule).unwrap();
    assert!(r.is_none());
    assert_eq!(g.edges().len(), 3);
    assert_eq!(g.next_vertex(), Some(5));
}

#[test]
fn edge_count_after_rewrite() {
    let rule = plane_rule();
    let mut g = Graph::new(vec![vec![7, 1, 1], vec![0, 1, 1], vec![2, 0, 3], vec![9, 9]]);
    let before = g.edges().len();
    let m = g.apply_rule(&rule).unwrap().unwrap();
    assert_eq!(m.edges, vec![1, 2]);
    assert_eq!(g.edges().len(), before - 2 + 3);
    assert_eq!(
        g.edges(),
        &vec![
            vec![7, 1, 1],
            vec![9, 9],
            vec![1, 10, 1],
            vec![1, 2, 10],
            vec![3, 10, 10]
        ]
    );
}

#[test]
fn no_match_leaves_graph_alone() {
    let rule = plane_rule();
    let mut g = Graph::new(vec![vec![0, 1, 2], vec![3, 0, 4]]);
    assert!(g.find_matches(&rule).is_empty());
    let r = g.apply_rule(&rule);
    assert_eq!(r.unwrap().map(|m| m.edges), None);
    assert_eq!(g.edges(), &vec![vec![0, 1, 2], vec![3, 0, 4]]);
    assert_eq!(g.next_vertex(), Some(5));
}

#[test]
fn repeated_slot_must_bind_one_vertex() {
    let rule = plane_rule();
    let g = Graph::new(vec![vec![0, 1, 2], vec![3, 0, 4]]);
    assert!(!rule.matches(&[vec![0, 1, 2], vec![3, 0, 4]]));
    assert!(rule.matches(&[vec![0, 1, 1], vec![3, 0, 4]]));
    assert!(g.find_matches(&rule).is_empty());
}

#[test]
fn matches_checks_count_and_arity() {
    let rule = plane_rule();
    assert!(!rule.matches(&[vec![0, 1, 1]]));
    assert!(!rule.matches(&[vec![0, 1, 1], vec![3, 0]]));
    assert!(!rule.matches(&[vec![0, 1, 1], vec![3, 5, 4]]));
    assert!(rule.matches(&[vec![5, 5, 5], vec![5, 5, 5]]));
}

#[test]
fn match_never_reuses_an_edge() {
    let rule = Rule::new(vec![vec![0, 1], vec![1, 0]], vec![vec![0]]).unwrap();
    let single = Graph::new(vec![vec![5, 5]]);
    assert!(single.find_matches(&rule).is_empty());
    let twin = Graph::new(vec![vec![5, 5], vec![5, 5]]);
    let ms = twin.find_matches(&rule);
    let found: Vec<Vec<usize>> = ms.iter().map(|m| m.edges.clone()).collect();
    assert_eq!(found, vec![vec![0, 1], vec![1, 0]]);
    for m in &ms {
        assert_ne!(m.edges[0], m.edges[1]);
    }
}

#[test]
fn find_matches_lists_all() {
    let rule = Rule::new(vec![vec![0, 1]], vec![vec![1, 0]]).unwrap();
    let g = Graph::new(vec![vec![1, 2], vec![3], vec![2, 3]]);
    let ms = g.find_matches(&rule);
    let found: Vec<Vec<usize>> = ms.iter().map(|m| m.edges.clone()).collect();
    assert_eq!(found, vec![vec![0], vec![2]]);
    assert_eq!(ms[1].binding, vec![(0, 2), (1, 3)]);
}

#[test]
fn fresh_ids_are_never_reused() {
    let rule = Rule::new(vec![vec![0]], vec![vec![0, 1], vec![1, 2]]).unwrap();
    let mut g = Graph::new(vec![vec![3]]);
    assert_eq!(g.next_vertex(), Some(4));
    g.apply_rule(&rule).unwrap().unwrap();
    assert_eq!(g.edges(), &vec![vec![3, 4], vec![4, 5]]);
    assert_eq!(g.next_vertex(), Some(6));
}

#[test]
fn rule_new_refuses_malformed() {
    assert_eq!(
        Rule::new(vec![], vec![vec![0]]).err(),
        Some(RuleError::EmptyInput)
    );
    assert_eq!(
        Rule::new(vec![vec![0], vec![]], vec![vec![0]]).err(),
        Some(RuleError::EmptyEdge)
    );
    assert_eq!(
        Rule::new(vec![vec![0]], vec![vec![]]).err(),
        Some(RuleError::EmptyEdge)
    );
    let r = Rule::new(vec![vec![0]], vec![]).unwrap();
    assert_eq!(r.input(), &vec![vec![0]]);
    assert!(r.output().is_empty());
}

#[test]
fn apply_refuses_bad_indices() {
    let rule = plane_rule();
    let mut g = Graph::new(vec![vec![0, 1, 1], vec![2, 0, 3]]);
    let out_of_range = Match { edges: vec![0, 2], binding: vec![] };
    assert_eq!(g.apply(&rule, &out_of_range), Err(RewriteError::InvalidIndex));
    let repeated = Match { edges: vec![0, 0], binding: vec![] };
    assert_eq!(g.apply(&rule, &repeated), Err(RewriteError::InvalidIndex));
    let swapped = Match { edges: vec![1, 0], binding: vec![] };
    assert_eq!(g.apply(&rule, &swapped), Err(RewriteError::ArityMismatch));
    let short = Match { edges: vec![0], binding: vec![] };
    assert_eq!(g.apply(&rule, &short), Err(RewriteError::ArityMismatch));
    assert_eq!(g.edges(), &vec![vec![0, 1, 1], vec![2, 0, 3]]);
    assert_eq!(g.next_vertex(), Some(4));
    let right = Match { edges: vec![0, 1], binding: vec![] };
    assert_eq!(g.apply(&rule, &right), Ok(()));
    assert_eq!(g.edges().len(), 3);
}

#[test]
fn identifiers_can_run_out() {
    let rule = plane_rule();
    let mut g = Graph::new(vec![vec![0, 1, 1], vec![2, 0, usize::MAX]]);
    assert_eq!(g.next_vertex(), None);
    assert_eq!(g.apply_rule(&rule).err(), Some(RewriteError::IdentifierExhausted));
    assert_eq!(g.edges(), &vec![vec![0, 1, 1], vec![2, 0, usize::MAX]]);

    let mut h = Graph::new(vec![vec![0, 1, 1], vec![2, 0, usize::MAX - 1]]);
    assert_eq!(h.next_vertex(), Some(usize::MAX));
    assert!(h.apply_rule(&rule).unwrap().is_some());
    assert_eq!(h.next_vertex(), None);
    assert_eq!(h.edges()[0], vec![1, usize::MAX, 1]);

    let keep = Rule::new(vec![vec![0, 1, 1]], vec![vec![1, 0]]).unwrap();
    let mut k = Graph::new(vec![vec![0, 1, 1], vec![usize::MAX]]);
    assert!(k.apply_rule(&keep).unwrap().is_some());
    assert_eq!(k.edges(), &vec![vec![usize::MAX], vec![1, 0]]);
}

#[test]
fn new_sets_counter_above_seed() {
    assert_eq!(Graph::new(vec![]).next_vertex(), Some(0));
    assert_eq!(Graph::new(vec![vec![9, 2], vec![4]]).next_vertex(), Some(10));
}

#[test]
fn replace_keeps_order() {
    let mut g = Graph::new(vec![vec![0], vec![1], vec![2], vec![3]]);
    assert_eq!(g.replace(&vec![2, 0], vec![vec![1, 3]]), Ok(()));
    assert_eq!(g.edges(), &vec![vec![1], vec![3], vec![1, 3]]);
    assert_eq!(g.replace(&vec![3], vec![]), Err(RewriteError::InvalidIndex));
    assert_eq!(g.replace(&vec![1, 1], vec![]), Err(RewriteError::InvalidIndex));
    assert_eq!(g.edges(), &vec![vec![1], vec![3], vec![1, 3]]);
}

#[test]
fn edges_touching_lists_indices() {
    let g = Graph::new(vec![vec![0, 1], vec![2], vec![1, 1, 3]]);
    assert_eq!(g.edges_touching(1), vec![0, 2]);
    assert_eq!(g.edges_touching(2), vec![1]);
    assert_eq!(g.edges_touching(7), Vec::<usize>::new());
}

#[test]
fn visualize_gives_snapshot() {
    let g = Graph::new(vec![vec![0, 1], vec![2]]);
    assert_eq!(g.visualize(), vec![vec![0, 1], vec![2]]);
}

#[test]
fn find_matches_in_order_with_pruning() {
    let rule = plane_rule();
    let g = Graph::new(vec![vec![0, 1, 1], vec![2, 0, 3], vec![0, 5, 5], vec![6, 0, 7]]);
    let found: Vec<Vec<usize>> = g.find_matches(&rule).iter().map(|m| m.edges.clone()).collect();
    assert_eq!(found, vec![vec![0, 1], vec![0, 3], vec![2, 1], vec![2, 3]]);
}
