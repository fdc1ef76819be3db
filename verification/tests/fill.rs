use placements_tree::Node;

fn node_by_path<'a>(root: &'a Node<i64>, path: &[usize]) -> &'a Node<i64> {
    let mut cur = root;
    for &i in path {
        cur = &cur.children[i];
    }
    cur
}

#[test]
fn fill_vertices_test() {
    let root = Node::<i64>::root(4, 2, 0, 0);

    let mut vertices: Vec<Vec<Vec<usize>>> = vec![Vec::new(); 5];
    root.fill_vertices(&mut vertices);

    assert_eq!(vertices[0].len(), 1);
    assert_eq!(vertices[1].len(), 4);
    assert_eq!(vertices[2].len(), 4);
    assert_eq!(vertices[3].len(), 4);
    assert_eq!(vertices[4].len(), 4);

    for key in 0..vertices.len() {
        for vertex in vertices[key].iter() {
            assert_eq!(node_by_path(&root, vertex).key, key);
        }
    }
}

#[test]
fn fill_edges_test() {
    let root = Node::<i64>::root(4, 2, 0, 0);

    let mut edges: Vec<Vec<Vec<Vec<usize>>>> = vec![vec![Vec::new(); 5]; 5];
    root.fill_edges(&mut edges);

    assert_eq!(edges[0][0].len(), 0);
    assert_eq!(edges[0][1].len(), 1);
    assert_eq!(edges[0][2].len(), 1);
    assert_eq!(edges[0][3].len(), 1);
    assert_eq!(edges[0][4].len(), 1);
    assert_eq!(edges[1][0].len(), 3);
    assert_eq!(edges[1][1].len(), 0);
    assert_eq!(edges[1][2].len(), 1);
    assert_eq!(edges[1][3].len(), 1);
    assert_eq!(edges[1][4].len(), 1);
    assert_eq!(edges[2][0].len(), 3);
    assert_eq!(edges[2][1].len(), 1);
    assert_eq!(edges[2][2].len(), 0);
    assert_eq!(edges[2][3].len(), 1);
    assert_eq!(edges[2][4].len(), 1);
    assert_eq!(edges[3][0].len(), 3);
    assert_eq!(edges[3][1].len(), 1);
    assert_eq!(edges[3][2].len(), 1);
    assert_eq!(edges[3][3].len(), 0);
    assert_eq!(edges[3][4].len(), 1);
    assert_eq!(edges[4][0].len(), 3);
    assert_eq!(edges[4][1].len(), 1);
    assert_eq!(edges[4][2].len(), 1);
    assert_eq!(edges[4][3].len(), 1);
    assert_eq!(edges[4][4].len(), 0);

    for i in 0..edges.len() {
        for key in 0..edges[i].len() {
            for edge in edges[i][key].iter() {
                let node = node_by_path(&root, edge);
                assert_eq!(node.key, key);
                let parent = node_by_path(&root, &edge[..edge.len() - 1]);
                assert_eq!(parent.key, i);
            }
        }
    }
}
