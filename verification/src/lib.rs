//! A shared-prefix tree of bounded, duplicate-free slot sequences with
//! incrementally maintained path aggregates.
//!
//! For a universe of `n + 1` labeled slots, one of which is the anchor, the
//! tree enumerates every duplicate-free ordered sequence of at most `k`
//! non-anchor slots, closed at both ends by the anchor. Every node caches the
//! fold of a caller-supplied combine rule over the slot and transition
//! weights along its root path. When one weight changes, only the subtrees
//! that weight can reach are recomputed, and the minimum over the recomputed
//! complete paths is reported.

mod apply;
pub mod index;
pub mod laws;
mod max;
pub mod model;
mod node;
pub mod perm;
mod recalc;
mod recalculate;

pub use crate::apply::Apply;
pub use crate::max::Max;
pub use crate::node::Node;
pub use crate::recalc::Recalc;
pub use crate::recalculate::Recalculate;

use crate::index::{
    anchor_leaves, lemma_closed_once, lemma_epaths_complete, lemma_epaths_nonnest,
    lemma_epaths_sound, lemma_vpaths_complete, lemma_vpaths_nonnest, lemma_vpaths_sound,
    no_repeat_but,
};
use crate::laws::{lemma_epaths_shape, lemma_valid_drop_last, lemma_vpaths_shape};
use crate::model::{
    avail_of, consistent, covered_by, epaths, idx_min, is_closed, is_matrix, key_at, keys_below,
    lemma_idx_min_congr, mat_view, node_at, ok_at, paths_view, shape_eq, tree_min, val_at,
    valid_path, vpaths, width_at,
};
use vstd::prelude::*;
use vstd::std_specs::cmp::PartialOrdSpec;

verus! {

/// The error of every rejected operation: a slot argument lay outside the
/// universe, or a transition named one slot twice.
#[derive(Clone, Copy, Debug, PartialEq, Eq, Structural)]
pub struct PreconditionViolation;

/// The placement tree together with its weights and its indices: the slot
/// weights, the transition weight matrix, and, for every slot and every
/// transition, the paths of the tree nodes it can affect.
pub struct PlacementsTree<V, E, D> {
    root: Node<D>,
    vertices: Vec<V>,
    vertices_idx: Vec<Vec<Vec<usize>>>,
    edges: Vec<Vec<E>>,
    edges_idx: Vec<Vec<Vec<Vec<usize>>>>,
    n: usize,
}

impl<V, E, D> PlacementsTree<V, E, D> {
    /// The largest slot of the universe.
    pub closed spec fn spec_n(&self) -> int {
        self.n as int
    }

    /// The tree of placements.
    pub closed spec fn spec_root(&self) -> Node<D> {
        self.root
    }

    /// The slot weights.
    pub closed spec fn spec_vertices(&self) -> Seq<V> {
        self.vertices@
    }

    /// The transition weights.
    pub closed spec fn spec_edges(&self) -> Seq<Seq<E>> {
        mat_view(self.edges)
    }

    /// The whole structure is well formed: the weight containers span the
    /// universe, the indices list exactly the paths of the affected nodes,
    /// and every cached aggregate is the combination of its parent's.
    pub closed spec fn wf(&self) -> bool where D: Recalc<V, E> {
        let m = self.n as int + 1;
        &&& self.vertices@.len() == m
        &&& is_matrix(mat_view(self.edges), m)
        &&& self.vertices_idx@.len() == m
        &&& self.edges_idx@.len() == m
        &&& forall|a: int| 0 <= a < m ==> (#[trigger] self.edges_idx@[a])@.len() == m
        &&& keys_below(self.root, m)
        &&& self.root.children@.len() > 0
        &&& anchor_leaves(self.root, self.root.key as int)
        &&& no_repeat_but(self.root, self.root.key as int)
        &&& forall|s: int|
            0 <= s < m ==> paths_view((#[trigger] self.vertices_idx@[s])@) == vpaths(self.root, s)
        &&& forall|a: int, b: int|
            0 <= a < m && 0 <= b < m ==> paths_view((#[trigger] self.edges_idx@[a]@[b])@) == epaths(
                self.root,
                a,
                b,
            )
        &&& consistent(self.root, self.vertices@, mat_view(self.edges))
    }

    /// Build the tree for a universe of `n + 1` slots anchored at `key`, with
    /// depth bound `k` and initial root aggregate `val`; give every slot and
    /// transition weight its default value, build both indices, and derive
    /// every node's aggregate from the root's. Rejected when the anchor lies
    /// outside the universe.
    pub fn new(n: usize, k: usize, key: usize, val: D) -> (r: Result<
        Self,
        PreconditionViolation,
    >) where V: Default + Clone, E: Default + Clone, D: Max + Recalc<V, E> + PartialOrd
        requires
            n < usize::MAX,
        ensures
            key > n <==> r is Err,
            r is Ok ==> {
                let t = r->Ok_0;
                &&& t.wf()
                &&& t.spec_n() == n
                &&& t.spec_vertices().len() == n + 1
                &&& is_matrix(t.spec_edges(), n + 1)
                &&& is_closed(
                    t.spec_root(),
                    avail_of(n as int, key as int),
                    (if k <= n { k } else { n }) as nat,
                    key as int,
                )
                &&& t.spec_root().key == key
                &&& t.spec_root().val == val
            },
    {
        if key > n {
            return Err(PreconditionViolation);
        }
        let m = n + 1;
        let mut root = Node::<D>::root(n, k, key, val);
        let ghost kp = (if k <= n { k } else { n }) as nat;
        let ghost av = avail_of(n as int, key as int);
        proof {
            crate::model::lemma_avail_facts(n as int, key as int);
            assert(root.children@.len() > 0);
            lemma_closed_once(root, av, kp, key as int);
            assert(keys_below(root, m as int)) by {
                assert forall|p: Seq<int>| #[trigger] valid_path(root, p) implies key_at(
                    root,
                    p,
                ) < m as int by {
                    if p.len() == 0 {
                        assert(node_at(root, p) == root);
                    } else {
                        assert(av.contains(key_at(root, p)) || key_at(root, p) == key as int);
                    }
                }
            }
        }
        let mut vertices: Vec<V> = Vec::new();
        while vertices.len() < m
            invariant
                vertices@.len() <= m,
            decreases m - vertices@.len(),
        {
            vertices.push(V::default());
        }
        let mut edges: Vec<Vec<E>> = Vec::new();
        while edges.len() < m
            invariant
                edges@.len() <= m,
                forall|a: int| 0 <= a < edges@.len() ==> (#[trigger] edges@[a])@.len() == m,
            decreases m - edges@.len(),
        {
            let mut row: Vec<E> = Vec::new();
            while row.len() < m
                invariant
                    row@.len() <= m,
                decreases m - row@.len(),
            {
                row.push(E::default());
            }
            edges.push(row);
        }
        proof {
            assert(is_matrix(mat_view(edges), vertices@.len() as int)) by {
                assert forall|a: int| 0 <= a < m as int implies (#[trigger] mat_view(edges)[a]).len()
                    == m as int by {
                    assert(mat_view(edges)[a] == edges@[a]@);
                }
            }
        }
        // derive every aggregate from the root's before indexing
        let ghost shaped = root;
        let _ = root.recalc_children(&vertices, &edges);
        proof {
            crate::laws::lemma_discipline_shape(root, shaped, key as int, m as int);
            crate::laws::lemma_is_closed_shape(root, shaped, av, kp, key as int);
            crate::model::lemma_shape_same_key(root, shaped);
        }
        let mut vertices_idx: Vec<Vec<Vec<usize>>> = Vec::new();
        while vertices_idx.len() < m
            invariant
                vertices_idx@.len() <= m,
                forall|s: int|
                    0 <= s < vertices_idx@.len() ==> (#[trigger] vertices_idx@[s])@.len() == 0,
            decreases m - vertices_idx@.len(),
        {
            vertices_idx.push(Vec::new());
        }
        let mut edges_idx: Vec<Vec<Vec<Vec<usize>>>> = Vec::new();
        while edges_idx.len() < m
            invariant
                edges_idx@.len() <= m,
                forall|a: int|
                    0 <= a < edges_idx@.len() ==> (#[trigger] edges_idx@[a])@.len() == m && forall|
                        b: int,
                    |
                        0 <= b < m ==> (#[trigger] edges_idx@[a]@[b])@.len() == 0,
            decreases m - edges_idx@.len(),
        {
            let mut row: Vec<Vec<Vec<usize>>> = Vec::new();
            while row.len() < m
                invariant
                    row@.len() <= m,
                    forall|b: int| 0 <= b < row@.len() ==> (#[trigger] row@[b])@.len() == 0,
                decreases m - row@.len(),
            {
                row.push(Vec::new());
            }
            edges_idx.push(row);
        }
        proof {
            assert(keys_below(root, vertices@.len() as int));
        }
        root.fill_vertices(&mut vertices_idx);
        root.fill_edges(&mut edges_idx);
        proof {
            assert forall|s: int| 0 <= s < m as int implies paths_view(
                (#[trigger] vertices_idx@[s])@,
            ) == vpaths(root, s) by {
                assert(paths_view(Seq::<Vec<usize>>::empty()) =~= Seq::<Seq<int>>::empty());
                assert(Seq::<Seq<int>>::empty() + vpaths(root, s) =~= vpaths(root, s));
            }
            assert forall|a: int, b: int| 0 <= a < m as int && 0 <= b < m as int implies paths_view(
                (#[trigger] edges_idx@[a]@[b])@,
            ) == epaths(root, a, b) by {
                assert(paths_view(Seq::<Vec<usize>>::empty()) =~= Seq::<Seq<int>>::empty());
                assert(Seq::<Seq<int>>::empty() + epaths(root, a, b) =~= epaths(root, a, b));
            }
        }
        Ok(PlacementsTree { root, vertices, vertices_idx, edges, edges_idx, n })
    }
}

impl<V, E, D> PlacementsTree<V, E, D> {
    /// Apply `diff` to the weight of `v`, recompute every subtree whose
    /// aggregates that weight can reach, and report the minimum over the
    /// recomputed complete placements: `Ok(None)` when no placement passes
    /// through `v`, the violation when `v` lies outside the universe, in
    /// which case nothing changes.
    #[verifier::loop_isolation(false)]
    pub fn update_vertex<Diff>(&mut self, v: usize, diff: Diff) -> (r: Result<
        Option<D>,
        PreconditionViolation,
    >) where V: Apply<Diff>, D: Recalc<V, E> + PartialOrd
        requires
            old(self).wf(),
        ensures
            final(self).wf(),
            final(self).spec_n() == old(self).spec_n(),
            v > old(self).spec_n() ==> r == Err::<Option<D>, PreconditionViolation>(
                PreconditionViolation,
            ) && *final(self) == *old(self),
            v <= old(self).spec_n() ==> {
                &&& final(self).spec_vertices() == old(self).spec_vertices().update(
                    v as int,
                    old(self).spec_vertices()[v as int].spec_apply(diff),
                )
                &&& final(self).spec_edges() == old(self).spec_edges()
                &&& crate::model::shape_eq(final(self).spec_root(), old(self).spec_root())
                &&& final(self).spec_root().val == old(self).spec_root().val
                &&& final(self).spec_root().key == old(self).spec_root().key
                &&& consistent(
                    final(self).spec_root(),
                    final(self).spec_vertices(),
                    final(self).spec_edges(),
                )
                &&& (vpaths(old(self).spec_root(), v as int).len() == 0 <==> r == Ok::<
                    Option<D>,
                    PreconditionViolation,
                >(None))
                &&& (vpaths(old(self).spec_root(), v as int).len() > 0 ==> r is Ok && r->Ok_0
                    is Some)
                &&& (vpaths(old(self).spec_root(), v as int).len() > 0 ==> exists|t: int|
                    0 <= t < vpaths(old(self).spec_root(), v as int).len()
                        && crate::model::is_leaf_val(
                        node_at(
                            final(self).spec_root(),
                            #[trigger] vpaths(old(self).spec_root(), v as int)[t],
                        ),
                        r->Ok_0->Some_0,
                    ))
                &&& (vpaths(old(self).spec_root(), v as int).len() > 0
                    && D::obeys_partial_cmp_spec() ==> r == Ok::<Option<D>, PreconditionViolation>(
                    Some(
                        idx_min(
                            final(self).spec_root(),
                            vpaths(old(self).spec_root(), v as int),
                        ),
                    ),
                ))
            },
    {
        if v > self.n {
            return Err(PreconditionViolation);
        }
        let ghost m = self.n as int + 1;
        let ghost r0 = self.root;
        let ghost vs0 = self.vertices@;
        let ghost es = mat_view(self.edges);
        let ghost anchor = self.root.key as int;
        self.vertices[v].apply(diff);
        let ghost vs1 = self.vertices@;
        let ghost bl = vpaths(r0, v as int);
        proof {
            assert(vs1 =~= vs0.update(v as int, vs0[v as int].spec_apply(diff)));
            lemma_vpaths_sound(r0, v as int);
            lemma_vpaths_nonnest(r0, v as int, anchor);
            assert(bl == paths_view(self.vertices_idx@[v as int]@));
        }
        let cnt = self.vertices_idx[v].len();
        let mut acc: Option<D> = None;
        let mut j: usize = 0;
        while j < cnt
            invariant
                0 <= j <= cnt,
                self.n == old(self).n,
                self.vertices@ == vs1,
                self.edges == old(self).edges,
                self.vertices_idx == old(self).vertices_idx,
                self.edges_idx == old(self).edges_idx,
                shape_eq(self.root, r0),
                self.root.val == r0.val,
                self.root.key == r0.key,
                forall|p: Seq<int>|
                    #[trigger] valid_path(r0, p) && p.len() > 0 && covered_by(bl, j as int, p)
                        ==> ok_at(self.root, p, vs1, es),
                forall|p: Seq<int>|
                    #[trigger] valid_path(r0, p) && !covered_by(bl, j as int, p) ==> val_at(
                        self.root,
                        p,
                    ) == val_at(r0, p),
                j == 0 <==> acc is None,
                acc is Some ==> exists|t: int|
                    0 <= t < j && crate::model::is_leaf_val(
                        node_at(self.root, #[trigger] bl[t]),
                        acc->Some_0,
                    ),
                D::obeys_partial_cmp_spec() && j > 0 ==> acc == Some(
                    idx_min(self.root, bl.take(j as int)),
                ),
            decreases cnt - j,
        {
            let ghost jj = j as int;
            let ghost q = bl[jj];
            let ghost pre = self.root;
            proof {
                assert(valid_path(r0, q) && key_at(r0, q) == v as int && width_at(r0, q) > 0);
                assert(valid_path(pre, q) && width_at(pre, q) > 0) by {
                    lemma_shape_transfer_facts(pre, r0, q);
                }
                assert(keys_below(pre, vs1.len() as int)) by {
                    assert forall|p: Seq<int>| #[trigger] valid_path(pre, p) implies key_at(
                        pre,
                        p,
                    ) < vs1.len() as int by {
                        assert(valid_path(r0, p));
                    }
                }
            }
            let path = &self.vertices_idx[v][j];
            proof {
                assert(crate::model::iseq(path@) == q);
            }
            let x: D;
            if path.len() == 0 {
                proof {
                    assert(q =~= Seq::<int>::empty());
                    assert(node_at(pre, q) == pre);
                    assert(pre.children@.len() > 0);
                }
                x = self.root.recalc_children(&self.vertices, &self.edges);
                proof {
                    assert forall|p: Seq<int>|
                        #[trigger] valid_path(pre, p) && !q.is_prefix_of(p) implies val_at(
                        self.root,
                        p,
                    ) == val_at(pre, p) by {
                        assert(q =~= p.subrange(0, 0));
                    }
                    assert forall|p: Seq<int>|
                        #[trigger] valid_path(pre, p) && !q.is_prefix_of(p) && !p.is_prefix_of(
                        q,
                    ) implies node_at(self.root, p) == node_at(pre, p) by {
                        assert(q =~= p.subrange(0, 0));
                    }
                    assert forall|p: Seq<int>|
                        #[trigger] valid_path(self.root, p) && q.is_prefix_of(p) && p.len()
                            > 0 implies ok_at(self.root, p, vs1, es) by {}
                    if D::obeys_partial_cmp_spec() {
                        assert(x == tree_min(node_at(self.root, q)));
                    }
                }
            } else {
                proof {
                    assert(crate::model::iseq(path@).skip(0) =~= q);
                }
                x = self.root.recalc_at(path, 0, &self.vertices, &self.edges);
            }
            proof {
                // the walked-to subtree is consistent; everything else kept
                // its aggregate, and disjoint subtrees their whole nodes
                lemma_step_frame(self.root, pre, r0, bl, jj, vs1, es);
                assert forall|t: int| 0 <= t < jj implies node_at(self.root, #[trigger] bl[t])
                    == node_at(pre, bl[t]) by {
                    assert(!q.is_prefix_of(bl[t]) && !bl[t].is_prefix_of(q));
                    lemma_shape_transfer_facts(pre, r0, bl[t]);
                }
                if D::obeys_partial_cmp_spec() {
                    if j > 0 {
                        assert forall|t: int| 0 <= t < jj implies node_at(
                            self.root,
                            #[trigger] bl.take(jj)[t],
                        ) == node_at(pre, bl.take(jj)[t]) by {
                            assert(bl.take(jj)[t] == bl[t]);
                        }
                        lemma_idx_min_congr(self.root, pre, bl.take(jj));
                    }
                    assert(bl.take(jj + 1).drop_last() =~= bl.take(jj));
                    assert(bl.take(jj + 1).last() == q);
                }
            }
            let prev = acc;
            match prev {
                None => {
                    acc = Some(x);
                },
                Some(a) => {
                    if x.lt(&a) {
                        acc = Some(x);
                    } else {
                        acc = Some(a);
                    }
                },
            }
            j = j + 1;
        }
        proof {
            assert(bl.take(cnt as int) =~= bl);
            assert(cnt == bl.len());
            lemma_post_frame(self.root, r0, bl, v as int, vs0, vs1, es);
            lemma_wf_restore(*self, *old(self));
        }
        Ok(acc)
    }

    /// Apply `diff` to the weight of the transition from `v` to `u`,
    /// recompute every subtree whose aggregates that weight can reach, and
    /// report the minimum over the recomputed complete placements: `Ok(None)`
    /// when no placement takes that transition, the violation when a slot
    /// lies outside the universe or the two slots coincide, in which case
    /// nothing changes.
    #[verifier::loop_isolation(false)]
    pub fn update_edge<Diff>(&mut self, v: usize, u: usize, diff: Diff) -> (r: Result<
        Option<D>,
        PreconditionViolation,
    >) where E: Apply<Diff>, D: Recalc<V, E> + PartialOrd
        requires
            old(self).wf(),
        ensures
            final(self).wf(),
            final(self).spec_n() == old(self).spec_n(),
            v > old(self).spec_n() || u > old(self).spec_n() || v == u ==> r == Err::<
                Option<D>,
                PreconditionViolation,
            >(PreconditionViolation) && *final(self) == *old(self),
            v <= old(self).spec_n() && u <= old(self).spec_n() && v != u ==> {
                &&& final(self).spec_vertices() == old(self).spec_vertices()
                &&& final(self).spec_edges() == old(self).spec_edges().update(
                    v as int,
                    old(self).spec_edges()[v as int].update(
                        u as int,
                        old(self).spec_edges()[v as int][u as int].spec_apply(diff),
                    ),
                )
                &&& shape_eq(final(self).spec_root(), old(self).spec_root())
                &&& final(self).spec_root().val == old(self).spec_root().val
                &&& final(self).spec_root().key == old(self).spec_root().key
                &&& consistent(
                    final(self).spec_root(),
                    final(self).spec_vertices(),
                    final(self).spec_edges(),
                )
                &&& (epaths(old(self).spec_root(), v as int, u as int).len() == 0 <==> r == Ok::<
                    Option<D>,
                    PreconditionViolation,
                >(None))
                &&& (epaths(old(self).spec_root(), v as int, u as int).len() > 0 ==> r is Ok
                    && r->Ok_0 is Some)
                &&& (epaths(old(self).spec_root(), v as int, u as int).len() > 0 ==> exists|t: int|
                    0 <= t < epaths(old(self).spec_root(), v as int, u as int).len()
                        && crate::model::is_leaf_val(
                        node_at(
                            final(self).spec_root(),
                            #[trigger] epaths(old(self).spec_root(), v as int, u as int)[t],
                        ),
                        r->Ok_0->Some_0,
                    ))
                &&& (epaths(old(self).spec_root(), v as int, u as int).len() > 0
                    && D::obeys_partial_cmp_spec() ==> r == Ok::<Option<D>, PreconditionViolation>(
                    Some(
                        idx_min(
                            final(self).spec_root(),
                            epaths(old(self).spec_root(), v as int, u as int),
                        ),
                    ),
                ))
            },
    {
        if v > self.n {
            return Err(PreconditionViolation);
        }
        if u > self.n {
            return Err(PreconditionViolation);
        }
        if v == u {
            return Err(PreconditionViolation);
        }
        let ghost m = self.n as int + 1;
        let ghost r0 = self.root;
        let ghost vs = self.vertices@;
        let ghost es0 = mat_view(self.edges);
        let ghost anchor = self.root.key as int;
        proof {
            assert(self.edges@.len() == m);
            assert(self.edges@[v as int]@.len() == m) by {
                assert(mat_view(self.edges)[v as int] == self.edges@[v as int]@);
            }
        }
        self.edges[v][u].apply(diff);
        let ghost es1 = mat_view(self.edges);
        let ghost bl = epaths(r0, v as int, u as int);
        proof {
            assert(es1 =~~= es0.update(
                v as int,
                es0[v as int].update(u as int, es0[v as int][u as int].spec_apply(diff)),
            ));
            assert(is_matrix(es1, m)) by {
                assert forall|a: int| 0 <= a < m implies (#[trigger] es1[a]).len() == m by {
                    assert(es1[a] == mat_view(self.edges)[a]);
                    assert(es1[a] == self.edges@[a]@);
                }
            }
            lemma_epaths_sound(r0, v as int, u as int);
            lemma_epaths_nonnest(r0, v as int, u as int, anchor);
            assert(bl == paths_view(self.edges_idx@[v as int]@[u as int]@));
        }
        let cnt = self.edges_idx[v][u].len();
        let mut acc: Option<D> = None;
        let mut j: usize = 0;
        while j < cnt
            invariant
                0 <= j <= cnt,
                self.n == old(self).n,
                self.vertices@ == vs,
                mat_view(self.edges) == es1,
                self.edges@.len() == m,
                self.vertices_idx == old(self).vertices_idx,
                self.edges_idx == old(self).edges_idx,
                shape_eq(self.root, r0),
                self.root.val == r0.val,
                self.root.key == r0.key,
                forall|p: Seq<int>|
                    #[trigger] valid_path(r0, p) && p.len() > 0 && covered_by(bl, j as int, p)
                        ==> ok_at(self.root, p, vs, es1),
                forall|p: Seq<int>|
                    #[trigger] valid_path(r0, p) && !covered_by(bl, j as int, p) ==> val_at(
                        self.root,
                        p,
                    ) == val_at(r0, p),
                j == 0 <==> acc is None,
                acc is Some ==> exists|t: int|
                    0 <= t < j && crate::model::is_leaf_val(
                        node_at(self.root, #[trigger] bl[t]),
                        acc->Some_0,
                    ),
                D::obeys_partial_cmp_spec() && j > 0 ==> acc == Some(
                    idx_min(self.root, bl.take(j as int)),
                ),
            decreases cnt - j,
        {
            let ghost jj = j as int;
            let ghost q = bl[jj];
            let ghost pre = self.root;
            proof {
                assert(valid_path(r0, q) && q.len() > 0);
                lemma_shape_transfer_facts(pre, r0, q);
                assert(keys_below(pre, vs.len() as int)) by {
                    assert forall|p: Seq<int>| #[trigger] valid_path(pre, p) implies key_at(
                        pre,
                        p,
                    ) < vs.len() as int by {
                        assert(valid_path(r0, p));
                    }
                }
            }
            let path = &self.edges_idx[v][u][j];
            proof {
                assert(crate::model::iseq(path@) == q);
                assert(crate::model::iseq(path@).skip(0) =~= q);
            }
            let x = self.root.recalc_at(path, 0, &self.vertices, &self.edges);
            proof {
                lemma_step_frame(self.root, pre, r0, bl, jj, vs, es1);
                assert forall|t: int| 0 <= t < jj implies node_at(self.root, #[trigger] bl[t])
                    == node_at(pre, bl[t]) by {
                    assert(!q.is_prefix_of(bl[t]) && !bl[t].is_prefix_of(q));
                    lemma_shape_transfer_facts(pre, r0, bl[t]);
                }
                if D::obeys_partial_cmp_spec() {
                    if j > 0 {
                        assert forall|t: int| 0 <= t < jj implies node_at(
                            self.root,
                            #[trigger] bl.take(jj)[t],
                        ) == node_at(pre, bl.take(jj)[t]) by {
                            assert(bl.take(jj)[t] == bl[t]);
                        }
                        lemma_idx_min_congr(self.root, pre, bl.take(jj));
                    }
                    assert(bl.take(jj + 1).drop_last() =~= bl.take(jj));
                    assert(bl.take(jj + 1).last() == q);
                }
            }
            let prev = acc;
            match prev {
                None => {
                    acc = Some(x);
                },
                Some(a) => {
                    if x.lt(&a) {
                        acc = Some(x);
                    } else {
                        acc = Some(a);
                    }
                },
            }
            j = j + 1;
        }
        proof {
            assert(bl.take(cnt as int) =~= bl);
            assert(cnt == bl.len());
            assert forall|a: int, b: int|
                0 <= a < vs.len() && 0 <= b < vs.len() && !(a == v as int && b == u as int) implies es1[a][b]
                    == es0[a][b] by {
                assert(es0[a] == old(self).edges@[a]@);
                assert(es1[a] == self.edges@[a]@);
            }
            lemma_post_frame_edge(self.root, r0, bl, v as int, u as int, vs, es0, es1);
            lemma_wf_restore(*self, *old(self));
        }
        Ok(acc)
    }
}

/// A diff that leaves the weights as they were leaves every aggregate as it
/// was: two well-formed trees over the same weights, of the same shape and
/// with the same root aggregate, agree on the aggregate of every node. The
/// update operations keep the shape, the root aggregate, and consistency, so
/// an update whose diff does not change its weight cell changes no aggregate.
pub proof fn lemma_unchanged_weights_unchanged_aggregates<V, E, D: Recalc<V, E>>(
    t1: PlacementsTree<V, E, D>,
    t2: PlacementsTree<V, E, D>,
)
    requires
        t1.wf(),
        t2.wf(),
        t1.spec_vertices() == t2.spec_vertices(),
        t1.spec_edges() == t2.spec_edges(),
        shape_eq(t1.spec_root(), t2.spec_root()),
        t1.spec_root().val == t2.spec_root().val,
    ensures
        forall|p: Seq<int>|
            #[trigger] valid_path(t1.spec_root(), p) ==> val_at(t1.spec_root(), p) == val_at(
                t2.spec_root(),
                p,
            ),
{
    crate::laws::lemma_same_weights_same_vals(
        t1.spec_root(),
        t2.spec_root(),
        t1.spec_vertices(),
        t1.spec_edges(),
    );
}

/// After a recomputation pass that changed aggregates only, well-formedness
/// carries over: every structural part of the invariant reads only the shape.
proof fn lemma_wf_restore<V, E, D: Recalc<V, E>>(
    cur: PlacementsTree<V, E, D>,
    prev: PlacementsTree<V, E, D>,
)
    requires
        prev.wf(),
        cur.n == prev.n,
        cur.vertices@.len() == prev.vertices@.len(),
        is_matrix(mat_view(cur.edges), cur.n as int + 1),
        cur.vertices_idx == prev.vertices_idx,
        cur.edges_idx == prev.edges_idx,
        shape_eq(cur.root, prev.root),
        consistent(cur.root, cur.vertices@, mat_view(cur.edges)),
    ensures
        cur.wf(),
{
    let m = cur.n as int + 1;
    crate::model::lemma_shape_same_key(cur.root, prev.root);
    assert(keys_below(cur.root, m)) by {
        assert forall|p: Seq<int>| #[trigger] valid_path(cur.root, p) implies key_at(cur.root, p)
            < m by {
            assert(valid_path(prev.root, p));
        }
    }
    crate::laws::lemma_discipline_shape(cur.root, prev.root, prev.root.key as int, m);
    assert forall|s: int| 0 <= s < m implies paths_view((#[trigger] cur.vertices_idx@[s])@)
        == vpaths(cur.root, s) by {
        lemma_vpaths_shape(cur.root, prev.root, s);
    }
    assert forall|a: int, b: int| 0 <= a < m && 0 <= b < m implies paths_view(
        (#[trigger] cur.edges_idx@[a]@[b])@,
    ) == epaths(cur.root, a, b) by {
        lemma_epaths_shape(cur.root, prev.root, a, b);
    }
}

/// Shape equality carries reachability, slots and arity from one tree to the
/// other.
proof fn lemma_shape_transfer_facts<D>(a: Node<D>, b: Node<D>, p: Seq<int>)
    requires
        shape_eq(a, b),
        valid_path(b, p),
    ensures
        valid_path(a, p),
        key_at(a, p) == key_at(b, p),
        width_at(a, p) == width_at(b, p),
{
}

/// One recomputation step keeps the frame invariant of the update loop: the
/// subtrees already recomputed stay consistent, everything still untouched
/// keeps its aggregate.
proof fn lemma_step_frame<V, E, D: Recalc<V, E>>(
    cur: Node<D>,
    pre: Node<D>,
    r0: Node<D>,
    bl: Seq<Seq<int>>,
    jj: int,
    vs1: Seq<V>,
    es: Seq<Seq<E>>,
)
    requires
        0 <= jj < bl.len(),
        shape_eq(pre, r0),
        shape_eq(cur, pre),
        forall|t: int| 0 <= t < bl.len() ==> valid_path(r0, #[trigger] bl[t]),
        forall|t1: int, t2: int|
            0 <= t1 < bl.len() && 0 <= t2 < bl.len() && t1 != t2 ==> !(
            #[trigger] bl[t1]).is_prefix_of(#[trigger] bl[t2]),
        forall|p: Seq<int>|
            #[trigger] valid_path(r0, p) && p.len() > 0 && covered_by(bl, jj, p) ==> ok_at(
                pre,
                p,
                vs1,
                es,
            ),
        forall|p: Seq<int>|
            #[trigger] valid_path(r0, p) && !covered_by(bl, jj, p) ==> val_at(pre, p) == val_at(
                r0,
                p,
            ),
        forall|p: Seq<int>|
            #[trigger] valid_path(pre, p) && !bl[jj].is_prefix_of(p) ==> val_at(cur, p) == val_at(
                pre,
                p,
            ),
        forall|p: Seq<int>|
            #[trigger] valid_path(cur, p) && bl[jj].is_prefix_of(p) && p.len() > 0 ==> ok_at(
                cur,
                p,
                vs1,
                es,
            ),
    ensures
        shape_eq(cur, r0),
        forall|p: Seq<int>|
            #[trigger] valid_path(r0, p) && p.len() > 0 && covered_by(bl, jj + 1, p) ==> ok_at(
                cur,
                p,
                vs1,
                es,
            ),
        forall|p: Seq<int>|
            #[trigger] valid_path(r0, p) && !covered_by(bl, jj + 1, p) ==> val_at(cur, p) == val_at(
                r0,
                p,
            ),
{
    let q = bl[jj];
    assert(shape_eq(cur, r0)) by {
        assert forall|p: Seq<int>| #[trigger] valid_path(cur, p) implies valid_path(r0, p) by {}
        assert forall|p: Seq<int>| #[trigger] valid_path(r0, p) implies valid_path(cur, p) by {
            assert(valid_path(pre, p));
        }
        assert forall|p: Seq<int>| #[trigger] valid_path(cur, p) implies key_at(cur, p) == key_at(
            r0,
            p,
        ) && width_at(cur, p) == width_at(r0, p) by {
            assert(valid_path(pre, p));
        }
    }
    assert forall|p: Seq<int>|
        #[trigger] valid_path(r0, p) && p.len() > 0 && covered_by(bl, jj + 1, p) implies ok_at(
        cur,
        p,
        vs1,
        es,
    ) by {
        if q.is_prefix_of(p) {
            assert(valid_path(cur, p));
        } else {
            let t = choose|t: int| 0 <= t < jj + 1 && (#[trigger] bl[t]).is_prefix_of(p);
            assert(t < jj);
            assert(covered_by(bl, jj, p));
            assert(ok_at(pre, p, vs1, es));
            let parent = p.drop_last();
            crate::laws::lemma_valid_drop_last(r0, p);
            assert(valid_path(pre, p) && valid_path(pre, parent));
            assert(!q.is_prefix_of(parent)) by {
                if q.is_prefix_of(parent) {
                    assert(parent.is_prefix_of(p)) by {
                        assert(parent =~= p.subrange(0, parent.len() as int));
                    }
                    crate::model::lemma_prefix_trans(q, parent, p);
                }
            }
            assert(val_at(cur, p) == val_at(pre, p));
            assert(val_at(cur, parent) == val_at(pre, parent));
            assert(key_at(cur, p) == key_at(pre, p) && key_at(cur, parent) == key_at(
                pre,
                parent,
            )) by {
                assert(valid_path(cur, p) && valid_path(cur, parent));
            }
        }
    }
    assert forall|p: Seq<int>|
        #[trigger] valid_path(r0, p) && !covered_by(bl, jj + 1, p) implies val_at(cur, p) == val_at(
        r0,
        p,
    ) by {
        assert(!covered_by(bl, jj, p));
        assert(!q.is_prefix_of(p));
        assert(valid_path(pre, p));
    }
}

/// After every listed subtree is recomputed, the whole tree is consistent
/// with the updated slot weights: what was recomputed is consistent by
/// construction, and what was not never reads the changed weight.
proof fn lemma_post_frame<V, E, D: Recalc<V, E>>(
    cur: Node<D>,
    r0: Node<D>,
    bl: Seq<Seq<int>>,
    v: int,
    vs0: Seq<V>,
    vs1: Seq<V>,
    es: Seq<Seq<E>>,
)
    requires
        shape_eq(cur, r0),
        consistent(r0, vs0, es),
        keys_below(r0, vs0.len() as int),
        bl == vpaths(r0, v),
        vs1.len() == vs0.len(),
        forall|i: int| 0 <= i < vs0.len() && i != v ==> vs1[i] == vs0[i],
        forall|p: Seq<int>|
            #[trigger] valid_path(r0, p) && p.len() > 0 && covered_by(bl, bl.len() as int, p)
                ==> ok_at(cur, p, vs1, es),
        forall|p: Seq<int>|
            #[trigger] valid_path(r0, p) && !covered_by(bl, bl.len() as int, p) ==> val_at(cur, p)
                == val_at(r0, p),
    ensures
        consistent(cur, vs1, es),
{
    assert forall|p: Seq<int>| #[trigger] valid_path(cur, p) && p.len() > 0 implies ok_at(
        cur,
        p,
        vs1,
        es,
    ) by {
        assert(valid_path(r0, p));
        if !covered_by(bl, bl.len() as int, p) {
            let parent = p.drop_last();
            crate::laws::lemma_valid_drop_last(r0, p);
            assert(parent.is_prefix_of(p)) by {
                assert(parent =~= p.subrange(0, parent.len() as int));
            }
            assert(!covered_by(bl, bl.len() as int, parent)) by {
                if covered_by(bl, bl.len() as int, parent) {
                    let t = choose|t: int|
                        0 <= t < bl.len() && (#[trigger] bl[t]).is_prefix_of(parent);
                    crate::model::lemma_prefix_trans(bl[t], parent, p);
                }
            }
            assert(val_at(cur, p) == val_at(r0, p));
            assert(val_at(cur, parent) == val_at(r0, parent));
            assert(ok_at(r0, p, vs0, es));
            assert(key_at(r0, parent) != v) by {
                if key_at(r0, parent) == v {
                    crate::index::lemma_prefix_width(r0, parent, p);
                    lemma_vpaths_complete(r0, v, parent);
                    let t = choose|t: int| 0 <= t < bl.len() && bl[t] == parent;
                    assert(bl[t].is_prefix_of(parent));
                    crate::model::lemma_prefix_trans(bl[t], parent, p);
                    assert(covered_by(bl, bl.len() as int, p));
                }
            }
            assert(vs1[key_at(r0, parent)] == vs0[key_at(r0, parent)]);
            assert(key_at(cur, p) == key_at(r0, p) && key_at(cur, parent) == key_at(r0, parent))
                by {
                assert(valid_path(cur, parent));
            }
        }
    }
}

/// After every listed subtree is recomputed, the whole tree is consistent
/// with the updated transition weights: what was recomputed is consistent by
/// construction, and what was not never reads the changed weight.
proof fn lemma_post_frame_edge<V, E, D: Recalc<V, E>>(
    cur: Node<D>,
    r0: Node<D>,
    bl: Seq<Seq<int>>,
    v: int,
    u: int,
    vs: Seq<V>,
    es0: Seq<Seq<E>>,
    es1: Seq<Seq<E>>,
)
    requires
        shape_eq(cur, r0),
        consistent(r0, vs, es0),
        keys_below(r0, vs.len() as int),
        is_matrix(es0, vs.len() as int),
        forall|a: int, b: int|
            0 <= a < vs.len() && 0 <= b < vs.len() && !(a == v && b == u) ==> es1[a][b] == es0[a][b],
        bl == epaths(r0, v, u),
        forall|p: Seq<int>|
            #[trigger] valid_path(r0, p) && p.len() > 0 && covered_by(bl, bl.len() as int, p)
                ==> ok_at(cur, p, vs, es1),
        forall|p: Seq<int>|
            #[trigger] valid_path(r0, p) && !covered_by(bl, bl.len() as int, p) ==> val_at(cur, p)
                == val_at(r0, p),
    ensures
        consistent(cur, vs, es1),
{
    assert forall|p: Seq<int>| #[trigger] valid_path(cur, p) && p.len() > 0 implies ok_at(
        cur,
        p,
        vs,
        es1,
    ) by {
        assert(valid_path(r0, p));
        if !covered_by(bl, bl.len() as int, p) {
            let parent = p.drop_last();
            crate::laws::lemma_valid_drop_last(r0, p);
            assert(parent.is_prefix_of(p)) by {
                assert(parent =~= p.subrange(0, parent.len() as int));
            }
            assert(!covered_by(bl, bl.len() as int, parent)) by {
                if covered_by(bl, bl.len() as int, parent) {
                    let t = choose|t: int|
                        0 <= t < bl.len() && (#[trigger] bl[t]).is_prefix_of(parent);
                    crate::model::lemma_prefix_trans(bl[t], parent, p);
                }
            }
            assert(val_at(cur, p) == val_at(r0, p));
            assert(val_at(cur, parent) == val_at(r0, parent));
            assert(ok_at(r0, p, vs, es0));
            assert(!(key_at(r0, parent) == v && key_at(r0, p) == u)) by {
                if key_at(r0, parent) == v && key_at(r0, p) == u {
                    lemma_epaths_complete(r0, v, u, p);
                    let t = choose|t: int| 0 <= t < bl.len() && bl[t] == p;
                    assert(bl[t].is_prefix_of(p)) by {
                        assert(bl[t] =~= p.subrange(0, bl[t].len() as int));
                    }
                    assert(covered_by(bl, bl.len() as int, p));
                }
            }
            assert(0 <= key_at(r0, parent) < vs.len() && 0 <= key_at(r0, p) < vs.len()) by {
                assert(node_at(r0, parent).key as int >= 0);
                assert(node_at(r0, p).key as int >= 0);
            }
            assert(es1[key_at(r0, parent)][key_at(r0, p)] == es0[key_at(r0, parent)][key_at(
                r0,
                p,
            )]);
            assert(key_at(cur, p) == key_at(r0, p) && key_at(cur, parent) == key_at(r0, parent))
                by {
                assert(valid_path(cur, parent));
            }
        }
    }
}

} // verus!
