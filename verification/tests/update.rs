use placements_tree::{Node, PlacementsTree, PreconditionViolation};

#[test]
fn update_test() {
    let mut ptree: PlacementsTree<i64, i64, i64> = PlacementsTree::new(2, 2, 0, 0).unwrap();
    assert_eq!(ptree.update_vertex(1, 1).unwrap().unwrap(), 1);
    assert_eq!(ptree.update_vertex(2, 1).unwrap().unwrap(), 2);
    assert_eq!(ptree.update_edge(0, 1, 1).unwrap().unwrap(), 3);
    assert_eq!(ptree.update_edge(0, 2, 2).unwrap().unwrap(), 4);
    assert_eq!(ptree.update_edge(1, 0, 3).unwrap().unwrap(), 7);
    assert_eq!(ptree.update_edge(1, 2, 4).unwrap().unwrap(), 7);
    assert_eq!(ptree.update_edge(2, 0, 5).unwrap().unwrap(), 12);
    assert_eq!(ptree.update_edge(2, 1, 6).unwrap().unwrap(), 13);
    assert_eq!(ptree.update_vertex(0, 1).unwrap().unwrap(), 13);
}

#[test]
fn recalc_test() {
    let mut root = Node::<i64>::root(2, 2, 0, 0);

    let vertices = vec![0, 0, 0];

    let edges = vec![vec![0, 1, 2], vec![3, 0, 4], vec![5, 6, 0]];

    assert_eq!(root.recalc(&vertices, &edges), 10);
}

#[test]
fn new_rejected_test() {
    let r = PlacementsTree::<i64, i64, i64>::new(2, 2, 3, 0);
    assert_eq!(r.err(), Some(PreconditionViolation));
}

#[test]
fn update_vertex_rejected_test() {
    let mut ptree: PlacementsTree<i64, i64, i64> = PlacementsTree::new(2, 2, 0, 0).unwrap();
    assert_eq!(ptree.update_vertex(3, 0), Err(PreconditionViolation));
    // a rejected call changes nothing
    assert_eq!(ptree.update_vertex(1, 1).unwrap().unwrap(), 1);
}

#[test]
fn update_edge_rejected_test() {
    let mut ptree: PlacementsTree<i64, i64, i64> = PlacementsTree::new(2, 2, 0, 0).unwrap();
    assert_eq!(ptree.update_edge(3, 0, 0), Err(PreconditionViolation));
    assert_eq!(ptree.update_edge(0, 3, 0), Err(PreconditionViolation));
    assert_eq!(ptree.update_edge(0, 0, 0), Err(PreconditionViolation));
    assert_eq!(ptree.update_edge(0, 1, 1).unwrap().unwrap(), 1);
}

// A slot or transition that occurs on no placement reports no effect.
#[test]
fn no_effect_test() {
    // with the depth bound at zero the only placement is anchor, anchor
    let mut ptree: PlacementsTree<i64, i64, i64> = PlacementsTree::new(2, 0, 0, 0).unwrap();
    assert_eq!(ptree.update_vertex(1, 5).unwrap(), None);
    assert_eq!(ptree.update_edge(1, 2, 5).unwrap(), None);
    // the self-transition of the anchor is still rejected
    assert_eq!(ptree.update_edge(0, 0, 7), Err(PreconditionViolation));
    assert_eq!(ptree.update_vertex(0, 7).unwrap().unwrap(), 7);
}

// Applying a diff that leaves a weight unchanged leaves every aggregate, and
// so every reported minimum, unchanged.
#[test]
fn idempotent_update_test() {
    let mut ptree: PlacementsTree<i64, i64, i64> = PlacementsTree::new(3, 2, 1, 2).unwrap();
    assert_eq!(ptree.update_vertex(0, 4).unwrap().unwrap(), 6);
    assert_eq!(ptree.update_edge(0, 2, 9).unwrap().unwrap(), 15);
    let first = ptree.update_vertex(0, 4).unwrap().unwrap();
    let second = ptree.update_vertex(0, 4).unwrap().unwrap();
    assert_eq!(first, second);
    let e1 = ptree.update_edge(0, 2, 9).unwrap().unwrap();
    let e2 = ptree.update_edge(0, 2, 9).unwrap().unwrap();
    assert_eq!(e1, e2);
}

// The one placement of the smallest universe folds the anchor's own weight
// and the self-loop transition weight.
#[test]
fn single_slot_test() {
    let mut ptree: PlacementsTree<i64, i64, i64> = PlacementsTree::new(0, 3, 0, 1).unwrap();
    assert_eq!(ptree.update_vertex(0, 10).unwrap().unwrap(), 11);
    assert_eq!(ptree.update_edge(0, 1, 1), Err(PreconditionViolation));
}

// After a sequence of updates, the incrementally maintained aggregates agree
// with a from-scratch recomputation: updating the anchor's weight with its
// current value recomputes every complete placement from the root, and the
// reported minimum equals the minimum fold computed directly from the weights.
#[test]
fn incremental_matches_scratch_test() {
    let n = 3usize;
    let k = 2usize;
    let anchor = 1usize;
    let mut ptree: PlacementsTree<i64, i64, i64> = PlacementsTree::new(n, k, anchor, 5).unwrap();
    let mut vs = vec![0i64; n + 1];
    let mut es = vec![vec![0i64; n + 1]; n + 1];
    let steps: Vec<(usize, usize, i64)> = vec![
        (0, usize::MAX, 4),
        (2, usize::MAX, -3),
        (0, 2, 9),
        (2, 1, -2),
        (3, 0, 11),
        (1, 3, 1),
    ];
    for (a, b, w) in steps {
        if b == usize::MAX {
            vs[a] = w;
            ptree.update_vertex(a, w).unwrap();
        } else {
            es[a][b] = w;
            ptree.update_edge(a, b, w).unwrap();
        }
    }
    // force a recomputation of every placement, changing no weight
    let reported = ptree.update_vertex(anchor, vs[anchor]).unwrap().unwrap();
    let mut scratch_min: Option<i64> = None;
    for placement in Node::<i64>::root(n, k, anchor, 5).placements() {
        let mut agg = 5i64;
        for t in 1..placement.len() {
            agg += vs[placement[t - 1]] + es[placement[t - 1]][placement[t]];
        }
        scratch_min = match scratch_min {
            None => Some(agg),
            Some(m) => Some(if agg < m { agg } else { m }),
        };
    }
    assert_eq!(reported, scratch_min.unwrap());
}

// The saturating integer combine rule clamps instead of wrapping.
#[test]
fn saturating_combine_test() {
    let mut ptree: PlacementsTree<i64, i64, i64> = PlacementsTree::new(1, 1, 0, 0).unwrap();
    assert_eq!(
        ptree.update_vertex(1, i64::MAX).unwrap().unwrap(),
        i64::MAX
    );
    assert_eq!(
        ptree.update_edge(0, 1, i64::MAX).unwrap().unwrap(),
        i64::MAX
    );
    // the aggregate at the start of that transition is already saturated
    assert_eq!(ptree.update_edge(1, 0, -1).unwrap().unwrap(), i64::MAX);
}
