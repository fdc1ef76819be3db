//! The global laws of the aggregate cache: a locally consistent tree carries
//! exactly the aggregates a from-scratch recomputation would produce, and
//! those aggregates are determined by the shape, the root aggregate, and the
//! weights alone.

use vstd::prelude::*;

use crate::model::{
    consistent, epaths, key_at, kids_epaths, kids_vpaths, lemma_nav, ok_at, scratch, shape_eq,
    val_at, valid_path, vpaths, width_at,
};
use crate::node::Node;
use crate::recalc::Recalc;

verus! {

/// A path stays reachable when its last step is dropped.
pub proof fn lemma_valid_drop_last<D>(n: Node<D>, p: Seq<int>)
    requires
        valid_path(n, p),
        p.len() > 0,
    ensures
        valid_path(n, p.drop_last()),
{
    let q = p.drop_last();
    assert(p =~= q + seq![p.last()]);
    lemma_nav(n, q, seq![p.last()]);
}

/// In a locally consistent tree, every node's aggregate equals the fold of
/// the combine rule along its root path.
pub proof fn lemma_consistent_scratch<V, E, D: Recalc<V, E>>(
    n: Node<D>,
    p: Seq<int>,
    vs: Seq<V>,
    es: Seq<Seq<E>>,
)
    requires
        consistent(n, vs, es),
        valid_path(n, p),
    ensures
        val_at(n, p) == scratch(n, p, vs, es),
    decreases p.len(),
{
    if p.len() > 0 {
        lemma_valid_drop_last(n, p);
        lemma_consistent_scratch(n, p.drop_last(), vs, es);
        assert(ok_at(n, p, vs, es));
    }
}

/// Incremental and from-scratch recomputation agree: a tree is locally
/// consistent exactly when every node's aggregate is the full fold of the
/// combine rule over the current weights along its root path.
pub proof fn lemma_scratch_agrees<V, E, D: Recalc<V, E>>(n: Node<D>, vs: Seq<V>, es: Seq<Seq<E>>)
    ensures
        consistent(n, vs, es) <==> (forall|p: Seq<int>|
            #[trigger] valid_path(n, p) ==> val_at(n, p) == scratch(n, p, vs, es)),
{
    if consistent(n, vs, es) {
        assert forall|p: Seq<int>| #[trigger] valid_path(n, p) implies val_at(n, p) == scratch(
            n,
            p,
            vs,
            es,
        ) by {
            lemma_consistent_scratch(n, p, vs, es);
        }
    }
    if forall|p: Seq<int>| #[trigger] valid_path(n, p) ==> val_at(n, p) == scratch(n, p, vs, es) {
        assert forall|p: Seq<int>| #[trigger] valid_path(n, p) && p.len() > 0 implies ok_at(
            n,
            p,
            vs,
            es,
        ) by {
            lemma_valid_drop_last(n, p);
        }
    }
}

/// The fold along a path reads only the keys along it and the root aggregate.
pub proof fn lemma_scratch_shape<V, E, D: Recalc<V, E>>(
    a: Node<D>,
    b: Node<D>,
    p: Seq<int>,
    vs: Seq<V>,
    es: Seq<Seq<E>>,
)
    requires
        shape_eq(a, b),
        a.val == b.val,
        valid_path(a, p),
    ensures
        scratch(a, p, vs, es) == scratch(b, p, vs, es),
    decreases p.len(),
{
    if p.len() > 0 {
        lemma_valid_drop_last(a, p);
        lemma_scratch_shape(a, b, p.drop_last(), vs, es);
    }
}

/// Equal weights give equal aggregates: two locally consistent trees of the
/// same shape, with the same root aggregate, under the same weights, carry
/// the same aggregate at every node. In particular, applying a diff that
/// leaves a weight unchanged leaves every aggregate unchanged.
pub proof fn lemma_same_weights_same_vals<V, E, D: Recalc<V, E>>(
    a: Node<D>,
    b: Node<D>,
    vs: Seq<V>,
    es: Seq<Seq<E>>,
)
    requires
        shape_eq(a, b),
        a.val == b.val,
        consistent(a, vs, es),
        consistent(b, vs, es),
    ensures
        forall|p: Seq<int>| #[trigger] valid_path(a, p) ==> val_at(a, p) == val_at(b, p),
{
    assert forall|p: Seq<int>| #[trigger] valid_path(a, p) implies val_at(a, p) == val_at(
        b,
        p,
    ) by {
        lemma_consistent_scratch(a, p, vs, es);
        lemma_consistent_scratch(b, p, vs, es);
        lemma_scratch_shape(a, b, p, vs, es);
    }
}

/// Shape equality descends to matching children.
pub proof fn lemma_shape_eq_child<D>(a: Node<D>, b: Node<D>, j: int)
    requires
        shape_eq(a, b),
        0 <= j < a.children@.len(),
    ensures
        0 <= j < b.children@.len(),
        shape_eq(a.children@[j], b.children@[j]),
{
    crate::model::lemma_shape_same_key(a, b);
    let ca = a.children@[j];
    let cb = b.children@[j];
    assert forall|p: Seq<int>| #[trigger] valid_path(ca, p) implies valid_path(cb, p) by {
        crate::model::lemma_node_at_one(a, j);
        crate::model::lemma_node_at_one(b, j);
        lemma_nav(a, seq![j], p);
        lemma_nav(b, seq![j], p);
    }
    assert forall|p: Seq<int>| #[trigger] valid_path(cb, p) implies valid_path(ca, p) by {
        crate::model::lemma_node_at_one(a, j);
        crate::model::lemma_node_at_one(b, j);
        lemma_nav(a, seq![j], p);
        lemma_nav(b, seq![j], p);
    }
    assert forall|p: Seq<int>| #[trigger] valid_path(ca, p) implies key_at(ca, p) == key_at(cb, p)
        && width_at(ca, p) == width_at(cb, p) by {
        crate::model::lemma_node_at_one(a, j);
        crate::model::lemma_node_at_one(b, j);
        lemma_nav(a, seq![j], p);
        lemma_nav(b, seq![j], p);
        assert(valid_path(a, seq![j] + p));
    }
}

/// Key discipline and key bounds read only the shape.
pub proof fn lemma_discipline_shape<D>(a: Node<D>, b: Node<D>, anchor: int, m: int)
    requires
        shape_eq(a, b),
        crate::model::keys_below(b, m),
        crate::index::anchor_leaves(b, anchor),
        crate::index::no_repeat_but(b, anchor),
    ensures
        crate::model::keys_below(a, m),
        crate::index::anchor_leaves(a, anchor),
        crate::index::no_repeat_but(a, anchor),
{
    assert forall|p: Seq<int>| #[trigger] valid_path(a, p) implies key_at(a, p) < m by {
        assert(valid_path(b, p));
    }
    assert forall|p: Seq<int>|
        #[trigger] valid_path(a, p) && p.len() > 0 && key_at(a, p) == anchor implies width_at(
        a,
        p,
    ) == 0 by {
        assert(valid_path(b, p));
    }
    assert forall|p1: Seq<int>, p2: Seq<int>|
        #[trigger] valid_path(a, p2) && #[trigger] p1.is_prefix_of(p2) && p1 != p2 && key_at(
            a,
            p1,
        ) == key_at(a, p2) implies key_at(a, p1) == anchor by {
        assert(valid_path(b, p2));
        crate::index::lemma_prefix_width(a, p1, p2);
        assert(valid_path(b, p1));
    }
}

/// The closed permutation shape reads only the shape.
pub proof fn lemma_is_closed_shape<D>(a: Node<D>, b: Node<D>, avail: Seq<int>, d: nat, anchor: int)
    requires
        shape_eq(a, b),
        crate::model::is_closed(b, avail, d, anchor),
    ensures
        crate::model::is_closed(a, avail, d, anchor),
    decreases d, avail.len(),
{
    crate::model::lemma_shape_same_key(a, b);
    if d == 0 || avail.len() == 0 {
        lemma_shape_eq_child(a, b, 0);
        crate::model::lemma_shape_same_key(a.children@[0], b.children@[0]);
    } else {
        assert forall|i: int|
            0 <= i < avail.len() implies (#[trigger] a.children@[i]).key as int == avail[i]
                && crate::model::is_closed(
                a.children@[i],
                avail.remove(i),
                (d - 1) as nat,
                anchor,
            ) by {
            lemma_shape_eq_child(a, b, i);
            crate::model::lemma_shape_same_key(a.children@[i], b.children@[i]);
            lemma_is_closed_shape(
                a.children@[i],
                b.children@[i],
                avail.remove(i),
                (d - 1) as nat,
                anchor,
            );
        }
    }
}

/// Slot listings read only the shape.
pub proof fn lemma_vpaths_shape<D>(a: Node<D>, b: Node<D>, s: int)
    requires
        shape_eq(a, b),
    ensures
        vpaths(a, s) == vpaths(b, s),
    decreases a, 1nat, 0nat,
{
    crate::model::lemma_shape_same_key(a, b);
    lemma_kids_vpaths_shape(a, b, s, 0);
}

proof fn lemma_kids_vpaths_shape<D>(a: Node<D>, b: Node<D>, s: int, i: int)
    requires
        shape_eq(a, b),
    ensures
        kids_vpaths(a.children@, s, i) == kids_vpaths(b.children@, s, i),
    decreases a, 0nat, a.children@.len() - i,
{
    crate::model::lemma_shape_same_key(a, b);
    if i < 0 || i >= a.children@.len() {
    } else {
        lemma_shape_eq_child(a, b, i);
        assert(decreases_to!(a => a.children));
        assert(decreases_to!(a.children => a.children@));
        assert(decreases_to!(a.children@ => a.children@[i]));
        lemma_vpaths_shape(a.children@[i], b.children@[i], s);
        lemma_kids_vpaths_shape(a, b, s, i + 1);
        crate::model::lemma_shape_same_key(a.children@[i], b.children@[i]);
    }
}

/// Transition listings read only the shape.
pub proof fn lemma_epaths_shape<D>(a: Node<D>, b: Node<D>, x: int, y: int)
    requires
        shape_eq(a, b),
    ensures
        epaths(a, x, y) == epaths(b, x, y),
    decreases a, 1nat, 0nat,
{
    crate::model::lemma_shape_same_key(a, b);
    lemma_kids_epaths_shape(a, b, x, y, 0);
}

proof fn lemma_kids_epaths_shape<D>(a: Node<D>, b: Node<D>, x: int, y: int, i: int)
    requires
        shape_eq(a, b),
    ensures
        kids_epaths(a.key as int, a.children@, x, y, i) == kids_epaths(
            b.key as int,
            b.children@,
            x,
            y,
            i,
        ),
    decreases a, 0nat, a.children@.len() - i,
{
    crate::model::lemma_shape_same_key(a, b);
    if i < 0 || i >= a.children@.len() {
    } else {
        lemma_shape_eq_child(a, b, i);
        assert(decreases_to!(a => a.children));
        assert(decreases_to!(a.children => a.children@));
        assert(decreases_to!(a.children@ => a.children@[i]));
        lemma_epaths_shape(a.children@[i], b.children@[i], x, y);
        lemma_kids_epaths_shape(a, b, x, y, i + 1);
        crate::model::lemma_shape_same_key(a.children@[i], b.children@[i]);
    }
}

} // verus!
