use placements_tree::Node;

#[test]
fn permutations_test() {
    let root = Node::<i64>::root(0, 0, 0, 0);

    assert_eq!(root.placements(), vec![vec![0, 0]]);

    let root = Node::<i64>::root(1, 1, 0, 0);

    assert_eq!(root.placements(), vec![vec![0, 1, 0]]);

    let root = Node::<i64>::root(2, 2, 0, 0);

    assert_eq!(root.placements(), vec![vec![0, 1, 2, 0], vec![0, 2, 1, 0]]);

    let root = Node::<i64>::root(3, 3, 0, 0);

    assert_eq!(
        root.placements(),
        vec![
            vec![0, 1, 2, 3, 0],
            vec![0, 1, 3, 2, 0],
            vec![0, 2, 1, 3, 0],
            vec![0, 2, 3, 1, 0],
            vec![0, 3, 1, 2, 0],
            vec![0, 3, 2, 1, 0],
        ]
    );

    let root = Node::<i64>::root(4, 4, 0, 0);

    assert_eq!(
        root.placements(),
        vec![
            vec![0, 1, 2, 3, 4, 0],
            vec![0, 1, 2, 4, 3, 0],
            vec![0, 1, 3, 2, 4, 0],
            vec![0, 1, 3, 4, 2, 0],
            vec![0, 1, 4, 2, 3, 0],
            vec![0, 1, 4, 3, 2, 0],
            vec![0, 2, 1, 3, 4, 0],
            vec![0, 2, 1, 4, 3, 0],
            vec![0, 2, 3, 1, 4, 0],
            vec![0, 2, 3, 4, 1, 0],
            vec![0, 2, 4, 1, 3, 0],
            vec![0, 2, 4, 3, 1, 0],
            vec![0, 3, 1, 2, 4, 0],
            vec![0, 3, 1, 4, 2, 0],
            vec![0, 3, 2, 1, 4, 0],
            vec![0, 3, 2, 4, 1, 0],
            vec![0, 3, 4, 1, 2, 0],
            vec![0, 3, 4, 2, 1, 0],
            vec![0, 4, 1, 2, 3, 0],
            vec![0, 4, 1, 3, 2, 0],
            vec![0, 4, 2, 1, 3, 0],
            vec![0, 4, 2, 3, 1, 0],
            vec![0, 4, 3, 1, 2, 0],
            vec![0, 4, 3, 2, 1, 0],
        ]
    );
}

#[test]
fn placements_test() {
    let root = Node::<i64>::root(4, 0, 0, 0);

    assert_eq!(root.placements(), vec![vec![0, 0]]);

    let root = Node::<i64>::root(4, 1, 0, 0);

    assert_eq!(
        root.placements(),
        vec![vec![0, 1, 0], vec![0, 2, 0], vec![0, 3, 0], vec![0, 4, 0]]
    );

    let root = Node::<i64>::root(4, 2, 0, 0);

    assert_eq!(
        root.placements(),
        vec![
            vec![0, 1, 2, 0],
            vec![0, 1, 3, 0],
            vec![0, 1, 4, 0],
            vec![0, 2, 1, 0],
            vec![0, 2, 3, 0],
            vec![0, 2, 4, 0],
            vec![0, 3, 1, 0],
            vec![0, 3, 2, 0],
            vec![0, 3, 4, 0],
            vec![0, 4, 1, 0],
            vec![0, 4, 2, 0],
            vec![0, 4, 3, 0],
        ]
    );

    let root = Node::<i64>::root(4, 3, 0, 0);

    assert_eq!(
        root.placements(),
        vec![
            vec![0, 1, 2, 3, 0],
            vec![0, 1, 2, 4, 0],
            vec![0, 1, 3, 2, 0],
            vec![0, 1, 3, 4, 0],
            vec![0, 1, 4, 2, 0],
            vec![0, 1, 4, 3, 0],
            vec![0, 2, 1, 3, 0],
            vec![0, 2, 1, 4, 0],
            vec![0, 2, 3, 1, 0],
            vec![0, 2, 3, 4, 0],
            vec![0, 2, 4, 1, 0],
            vec![0, 2, 4, 3, 0],
            vec![0, 3, 1, 2, 0],
            vec![0, 3, 1, 4, 0],
            vec![0, 3, 2, 1, 0],
            vec![0, 3, 2, 4, 0],
            vec![0, 3, 4, 1, 0],
            vec![0, 3, 4, 2, 0],
            vec![0, 4, 1, 2, 0],
            vec![0, 4, 1, 3, 0],
            vec![0, 4, 2, 1, 0],
            vec![0, 4, 2, 3, 0],
            vec![0, 4, 3, 1, 0],
            vec![0, 4, 3, 2, 0],
        ]
    );
}

#[test]
fn placements_keyed_test() {
    let root = Node::<i64>::root(2, 2, 1, 0);

    assert_eq!(root.placements(), vec![vec![1, 0, 2, 1], vec![1, 2, 0, 1]]);

    let root = Node::<i64>::root(2, 2, 2, 0);

    assert_eq!(root.placements(), vec![vec![2, 0, 1, 2], vec![2, 1, 0, 2]]);
}

// The paths of a tree built with anchor `a` are exactly the paths of the tree
// built with anchor 0, with the labels 0 and `a` swapped throughout.
#[test]
fn anchor_relabel_test() {
    for a in 0..4usize {
        let base = Node::<i64>::root(3, 2, 0, 0);
        let keyed = Node::<i64>::root(3, 2, a, 0);
        let mut relabeled: Vec<Vec<usize>> = base
            .placements()
            .into_iter()
            .map(|p| {
                p.into_iter()
                    .map(|x| if x == 0 { a } else if x == a { 0 } else { x })
                    .collect()
            })
            .collect();
        relabeled.sort();
        let mut got = keyed.placements();
        got.sort();
        assert_eq!(got, relabeled);
    }
}

// The number of distinct placements is the falling factorial n!/(n-k')!.
#[test]
fn placement_count_test() {
    let cases = [
        (4usize, 0usize, 1usize),
        (4, 1, 4),
        (4, 2, 12),
        (4, 3, 24),
        (4, 4, 24),
        (4, 9, 24),
        (5, 3, 60),
        (3, 3, 6),
    ];
    for (n, k, want) in cases {
        let root = Node::<i64>::root(n, k, 0, 0);
        let ps = root.placements();
        assert_eq!(ps.len(), want);
        for w in 0..ps.len() {
            for w2 in 0..w {
                assert_ne!(ps[w], ps[w2]);
            }
        }
    }
}
