//! The mathematical model of a placement tree: nodes are addressed by paths
//! (sequences of child positions), and every statement about the tree is a
//! statement about the nodes its paths reach.

use vstd::prelude::*;

use crate::node::Node;
use crate::recalc::Recalc;
use core::cmp::Ordering;
use vstd::std_specs::cmp::PartialOrdSpec;

verus! {

// ---------------------------------------------------------------------------
// Navigation by path.

/// Does `p` address a node of `n`?
pub open spec fn valid_path<D>(n: Node<D>, p: Seq<int>) -> bool
    decreases p.len(),
{
    p.len() == 0 || (0 <= p[0] < n.children@.len() && valid_path(n.children@[p[0]], p.drop_first()))
}

/// The node of `n` addressed by `p`.
pub open spec fn node_at<D>(n: Node<D>, p: Seq<int>) -> Node<D>
    decreases p.len(),
{
    if p.len() == 0 {
        n
    } else {
        node_at(n.children@[p[0]], p.drop_first())
    }
}

/// The slot of the node addressed by `p`.
pub open spec fn key_at<D>(n: Node<D>, p: Seq<int>) -> int {
    node_at(n, p).key as int
}

/// The aggregate of the node addressed by `p`.
pub open spec fn val_at<D>(n: Node<D>, p: Seq<int>) -> D {
    node_at(n, p).val
}

/// How many children the node addressed by `p` has.
pub open spec fn width_at<D>(n: Node<D>, p: Seq<int>) -> int {
    node_at(n, p).children@.len() as int
}

/// Navigation concatenates: walking `q + p` is walking `q`, then `p`.
pub proof fn lemma_nav<D>(n: Node<D>, q: Seq<int>, p: Seq<int>)
    ensures
        node_at(n, q + p) == node_at(node_at(n, q), p),
        valid_path(n, q + p) <==> (valid_path(n, q) && valid_path(node_at(n, q), p)),
    decreases q.len(),
{
    if q.len() == 0 {
        assert(q + p =~= p);
    } else {
        assert((q + p).drop_first() =~= q.drop_first() + p);
        lemma_nav(n.children@[q[0]], q.drop_first(), p);
    }
}

/// A one-step path reaches the child it names.
pub proof fn lemma_node_at_one<D>(n: Node<D>, i: int)
    requires
        0 <= i < n.children@.len(),
    ensures
        node_at(n, seq![i]) == n.children@[i],
        valid_path(n, seq![i]),
{
    let s = seq![i];
    assert(s.drop_first() =~= Seq::<int>::empty());
    assert(node_at(n, s) == node_at(n.children@[i], s.drop_first()));
    assert(valid_path(n.children@[i], s.drop_first()));
}

/// Every key in the tree lies below `bound`.
pub open spec fn keys_below<D>(n: Node<D>, bound: int) -> bool {
    forall|p: Seq<int>| #[trigger] valid_path(n, p) ==> key_at(n, p) < bound
}

/// Two trees have the same shape: the same paths are valid, and matching
/// nodes carry the same slot and the same number of children.
pub open spec fn shape_eq<D>(a: Node<D>, b: Node<D>) -> bool {
    &&& forall|p: Seq<int>|
        #![trigger valid_path(a, p)]
        #![trigger valid_path(b, p)]
        valid_path(a, p) <==> valid_path(b, p)
    &&& forall|p: Seq<int>|
        #[trigger] valid_path(a, p) ==> key_at(a, p) == key_at(b, p) && width_at(a, p) == width_at(
            b,
            p,
        )
}

// ---------------------------------------------------------------------------
// Aggregate consistency.

/// The view of a weight matrix.
pub open spec fn mat_view<E>(es: Vec<Vec<E>>) -> Seq<Seq<E>> {
    es@.map_values(|row: Vec<E>| row@)
}

/// A square matrix of side `m`.
pub open spec fn is_matrix<E>(es: Seq<Seq<E>>, m: int) -> bool {
    es.len() == m && forall|i: int| 0 <= i < m ==> (#[trigger] es[i]).len() == m
}

/// Local consistency at the node addressed by the non-empty path `p`: its
/// aggregate is the combination of its parent's aggregate, the parent slot's
/// weight, and the weight of the transition from the parent slot to its own.
pub open spec fn ok_at<V, E, D: Recalc<V, E>>(
    n: Node<D>,
    p: Seq<int>,
    vs: Seq<V>,
    es: Seq<Seq<E>>,
) -> bool {
    val_at(n, p) == val_at(n, p.drop_last()).spec_recalc(
        vs[key_at(n, p.drop_last())],
        es[key_at(n, p.drop_last())][key_at(n, p)],
    )
}

/// Global consistency: every non-root node is locally consistent.
pub open spec fn consistent<V, E, D: Recalc<V, E>>(
    n: Node<D>,
    vs: Seq<V>,
    es: Seq<Seq<E>>,
) -> bool {
    forall|p: Seq<int>| #[trigger] valid_path(n, p) && p.len() > 0 ==> ok_at(n, p, vs, es)
}

/// The aggregate a from-scratch recomputation assigns to the node addressed
/// by `p`: the fold of the combine rule along the root path, seeded with the
/// root's own aggregate.
pub open spec fn scratch<V, E, D: Recalc<V, E>>(
    n: Node<D>,
    p: Seq<int>,
    vs: Seq<V>,
    es: Seq<Seq<E>>,
) -> D
    decreases p.len(),
{
    if p.len() == 0 {
        n.val
    } else {
        scratch(n, p.drop_last(), vs, es).spec_recalc(
            vs[key_at(n, p.drop_last())],
            es[key_at(n, p.drop_last())][key_at(n, p)],
        )
    }
}

// ---------------------------------------------------------------------------
// Minima over subtrees.

/// Is `a` strictly below `b` in the aggregate order?
pub open spec fn lt_spec<D: PartialOrd>(a: D, b: D) -> bool {
    a.partial_cmp_spec(&b) == Some(Ordering::Less)
}

/// The running minimum of the aggregates at the leaves of `n`, taken in leaf
/// order, replacing the candidate only on a strict decrease.
pub open spec fn tree_min<D: PartialOrd>(n: Node<D>) -> D
    decreases n, 1nat,
{
    if n.children@.len() == 0 {
        n.val
    } else {
        kids_min(n.children@)
    }
}

/// The running minimum over the subtree minima of `s`, left to right.
pub open spec fn kids_min<D: PartialOrd>(s: Seq<Node<D>>) -> D
    decreases s, 0nat,
{
    if s.len() == 0 {
        arbitrary()
    } else if s.len() == 1 {
        tree_min(s[0])
    } else {
        let m = kids_min(s.drop_last());
        let x = tree_min(s.last());
        if lt_spec(x, m) {
            x
        } else {
            m
        }
    }
}

/// The running minimum over the subtree minima at the paths `l`, left to
/// right.
pub open spec fn idx_min<D: PartialOrd>(n: Node<D>, l: Seq<Seq<int>>) -> D
    decreases l.len(),
{
    if l.len() == 0 {
        arbitrary()
    } else if l.len() == 1 {
        tree_min(node_at(n, l[0]))
    } else {
        let m = idx_min(n, l.drop_last());
        let x = tree_min(node_at(n, l.last()));
        if lt_spec(x, m) {
            x
        } else {
            m
        }
    }
}

/// Is `m` the aggregate of some leaf of `n`, that is, of some complete
/// placement through `n`?
pub open spec fn is_leaf_val<D>(n: Node<D>, m: D) -> bool {
    exists|p: Seq<int>| #[trigger] valid_path(n, p) && width_at(n, p) == 0 && val_at(n, p) == m
}

/// A leaf aggregate of a child is a leaf aggregate of its parent.
pub proof fn lemma_leaf_val_lift<D>(n: Node<D>, j: int, m: D)
    requires
        0 <= j < n.children@.len(),
        is_leaf_val(n.children@[j], m),
    ensures
        is_leaf_val(n, m),
{
    let p = choose|p: Seq<int>|
        #[trigger] valid_path(n.children@[j], p) && width_at(n.children@[j], p) == 0 && val_at(
            n.children@[j],
            p,
        ) == m;
    lemma_node_at_one(n, j);
    lemma_nav(n, seq![j], p);
    assert(valid_path(n, seq![j] + p) && width_at(n, seq![j] + p) == 0 && val_at(n, seq![j] + p)
        == m);
}

/// Does one of the first `j` paths of `l` lead to `p` or to one of its
/// ancestors?
pub open spec fn covered_by(l: Seq<Seq<int>>, j: int, p: Seq<int>) -> bool {
    exists|jj: int| 0 <= jj < j && (#[trigger] l[jj]).is_prefix_of(p)
}

/// The running minimum over listed subtrees reads only the nodes the list
/// addresses.
pub proof fn lemma_idx_min_congr<D: PartialOrd>(t1: Node<D>, t2: Node<D>, l: Seq<Seq<int>>)
    requires
        l.len() > 0,
        forall|j: int| 0 <= j < l.len() ==> node_at(t1, #[trigger] l[j]) == node_at(t2, l[j]),
    ensures
        idx_min(t1, l) == idx_min(t2, l),
    decreases l.len(),
{
    if l.len() > 1 {
        assert forall|j: int| 0 <= j < l.drop_last().len() implies node_at(
            t1,
            #[trigger] l.drop_last()[j],
        ) == node_at(t2, l.drop_last()[j]) by {
            assert(l.drop_last()[j] == l[j]);
        }
        lemma_idx_min_congr(t1, t2, l.drop_last());
    }
}

// ---------------------------------------------------------------------------
// The shape of the placement tree.

/// The keys of the children of `n`, in order.
pub open spec fn ckeys<D>(n: Node<D>) -> Seq<int> {
    n.children@.map_values(|c: Node<D>| c.key as int)
}

/// A strictly ascending sequence.
pub open spec fn sorted_lt(s: Seq<int>) -> bool {
    forall|i: int, j: int| 0 <= i < j < s.len() ==> s[i] < s[j]
}

/// The open permutation tree over the candidate slots `avail` with `d` levels
/// to go: one child per candidate, in the given order, and below each child
/// the permutation tree over the remaining candidates.
pub open spec fn is_perm_tree<D>(n: Node<D>, avail: Seq<int>, d: nat) -> bool
    decreases d,
{
    if d == 0 {
        n.children@.len() == 0
    } else {
        n.children@.len() == avail.len() && forall|i: int|
            0 <= i < avail.len() ==> (#[trigger] n.children@[i]).key as int == avail[i]
                && is_perm_tree(n.children@[i], avail.remove(i), (d - 1) as nat)
    }
}

/// The closed permutation tree: as the open one, but every path that has
/// exhausted its depth or its candidates ends in a single leaf at the anchor
/// slot.
pub open spec fn is_closed<D>(n: Node<D>, avail: Seq<int>, d: nat, anchor: int) -> bool
    decreases d, avail.len(),
{
    if d == 0 || avail.len() == 0 {
        n.children@.len() == 1 && n.children@[0].key as int == anchor && n.children@[0].children@.len() == 0
    } else {
        n.children@.len() == avail.len() && forall|i: int|
            0 <= i < avail.len() ==> (#[trigger] n.children@[i]).key as int == avail[i]
                && is_closed(n.children@[i], avail.remove(i), (d - 1) as nat, anchor)
    }
}

/// Every non-root node of `n` carries the aggregate `m`.
pub open spec fn all_vals<D>(n: Node<D>, m: D) -> bool {
    forall|p: Seq<int>| #[trigger] valid_path(n, p) && p.len() > 0 ==> val_at(n, p) == m
}

/// The integers `lo`, `lo + 1`, ..., `hi - 1` in order.
pub open spec fn range_seq(lo: int, hi: int) -> Seq<int> {
    Seq::new(if hi >= lo { (hi - lo) as nat } else { 0 }, |i: int| lo + i)
}

/// The candidate slots for a universe of `n + 1` slots anchored at `anchor`:
/// all slots except the anchor, ascending.
pub open spec fn avail_of(n: int, anchor: int) -> Seq<int> {
    range_seq(0, anchor) + range_seq(anchor + 1, n + 1)
}

/// The candidate list of a universe: strictly ascending, every slot of the
/// universe except the anchor, nothing else.
pub proof fn lemma_avail_facts(n: int, anchor: int)
    requires
        0 <= anchor <= n,
    ensures
        sorted_lt(avail_of(n, anchor)),
        forall|x: int|
            #[trigger] avail_of(n, anchor).contains(x) <==> 0 <= x <= n && x != anchor,
        avail_of(n, anchor).len() == n,
        !avail_of(n, anchor).contains(anchor),
{
    let av = avail_of(n, anchor);
    let lo = range_seq(0, anchor);
    let hi = range_seq(anchor + 1, n + 1);
    assert(av.len() == n);
    assert(forall|i: int| 0 <= i < lo.len() ==> lo[i] == i);
    assert(forall|i: int| 0 <= i < hi.len() ==> hi[i] == anchor + 1 + i);
    assert forall|x: int| 0 <= x <= n && x != anchor implies #[trigger] av.contains(x) by {
        if x < anchor {
            assert(av[x] == x);
        } else {
            assert(av[x - 1] == x);
        }
    }
    assert forall|x: int| #[trigger] av.contains(x) implies 0 <= x <= n && x != anchor by {
        let i = choose|i: int| 0 <= i < av.len() && av[i] == x;
    }
}

// ---------------------------------------------------------------------------
// Path listings.

/// A machine-word sequence, read as integers.
pub open spec fn iseq(p: Seq<usize>) -> Seq<int> {
    p.map_values(|x: usize| x as int)
}

/// A list of machine-word paths, read as integer paths.
pub open spec fn paths_view(v: Seq<Vec<usize>>) -> Seq<Seq<int>> {
    v.map_values(|p: Vec<usize>| iseq(p@))
}

/// Prepend `k` to every sequence of `ps`.
pub open spec fn with_head(k: int, ps: Seq<Seq<int>>) -> Seq<Seq<int>> {
    ps.map_values(|p: Seq<int>| seq![k] + p)
}

/// Prepend the prefix `pre` to every sequence of `ps`.
pub open spec fn with_prefix(pre: Seq<int>, ps: Seq<Seq<int>>) -> Seq<Seq<int>> {
    ps.map_values(|p: Seq<int>| pre + p)
}

/// The root-to-leaf key sequences of `n`, in child order.
pub open spec fn placements_of<D>(n: Node<D>) -> Seq<Seq<int>>
    decreases n, 1nat,
{
    if n.children@.len() == 0 {
        seq![seq![n.key as int]]
    } else {
        with_head(n.key as int, kids_placements(n.children@))
    }
}

/// The concatenation of the placements of the trees of `s`, in order.
pub open spec fn kids_placements<D>(s: Seq<Node<D>>) -> Seq<Seq<int>>
    decreases s, 0nat,
{
    if s.len() == 0 {
        Seq::empty()
    } else {
        placements_of(s[0]) + kids_placements(s.drop_first())
    }
}

/// The paths, in preorder, of the nodes of `n` that stand at slot `s` and
/// have at least one child.
pub open spec fn vpaths<D>(n: Node<D>, s: int) -> Seq<Seq<int>>
    decreases n, 1nat, 0nat,
{
    (if n.key as int == s && n.children@.len() > 0 {
        seq![Seq::<int>::empty()]
    } else {
        Seq::empty()
    }) + kids_vpaths(n.children@, s, 0)
}

/// The paths of slot-`s` inner nodes inside the subtrees `cs[i]`, `cs[i+1]`,
/// ..., each led by its child position.
pub open spec fn kids_vpaths<D>(cs: Seq<Node<D>>, s: int, i: int) -> Seq<Seq<int>>
    decreases cs, 0nat, cs.len() - i,
{
    if i < 0 || i >= cs.len() {
        Seq::empty()
    } else {
        with_head(i, vpaths(cs[i], s)) + kids_vpaths(cs, s, i + 1)
    }
}

/// The paths, in preorder, of the nodes of `n` whose parent stands at slot
/// `a` while they stand at slot `b`.
pub open spec fn epaths<D>(n: Node<D>, a: int, b: int) -> Seq<Seq<int>>
    decreases n, 1nat, 0nat,
{
    kids_epaths(n.key as int, n.children@, a, b, 0)
}

/// The edge paths contributed by the children `cs[i]`, `cs[i+1]`, ... of a
/// node at slot `pk`.
pub open spec fn kids_epaths<D>(pk: int, cs: Seq<Node<D>>, a: int, b: int, i: int) -> Seq<Seq<int>>
    decreases cs, 0nat, cs.len() - i,
{
    if i < 0 || i >= cs.len() {
        Seq::empty()
    } else {
        (if pk == a && cs[i].key as int == b {
            seq![seq![i]]
        } else {
            Seq::empty()
        }) + with_head(i, epaths(cs[i], a, b)) + kids_epaths(pk, cs, a, b, i + 1)
    }
}

// ---------------------------------------------------------------------------
// Prefixes of paths.

/// How a non-empty prefix decomposes: it constrains the first step and is a
/// prefix one level down.
pub proof fn lemma_prefix_step(q: Seq<int>, p: Seq<int>)
    requires
        q.len() > 0,
    ensures
        q.is_prefix_of(p) <==> p.len() > 0 && p[0] == q[0] && q.drop_first().is_prefix_of(
            p.drop_first(),
        ),
{
    if q.is_prefix_of(p) {
        assert(p[0] == q[0]);
        assert(q.drop_first() =~= p.drop_first().subrange(0, q.len() - 1));
    }
    if p.len() > 0 && p[0] == q[0] && q.drop_first().is_prefix_of(p.drop_first()) {
        assert(q.drop_first() =~= p.drop_first().subrange(0, q.len() - 1));
        assert forall|j: int| 0 <= j < q.len() implies q[j] == p.subrange(0, q.len() as int)[j] by {
            if j > 0 {
                assert(q[j] == q.drop_first()[j - 1]);
                assert(q.drop_first()[j - 1] == p.drop_first().subrange(0, q.len() - 1)[j - 1]);
            }
        }
        assert(q =~= p.subrange(0, q.len() as int));
    }
}

/// Prefixing is transitive.
pub proof fn lemma_prefix_trans(q: Seq<int>, r: Seq<int>, p: Seq<int>)
    requires
        q.is_prefix_of(r),
        r.is_prefix_of(p),
    ensures
        q.is_prefix_of(p),
{
    assert(q =~= p.subrange(0, q.len() as int)) by {
        assert forall|i: int| 0 <= i < q.len() implies q[i] == p[i] by {
            assert(q[i] == r.subrange(0, q.len() as int)[i]);
            assert(r[i] == p.subrange(0, r.len() as int)[i]);
        }
    }
}

// ---------------------------------------------------------------------------
// Composing per-child facts into facts about the parent.

/// Local consistency lifts from a child to its parent.
pub proof fn lemma_ok_at_lift<V, E, D: Recalc<V, E>>(
    n: Node<D>,
    j: int,
    p: Seq<int>,
    vs: Seq<V>,
    es: Seq<Seq<E>>,
)
    requires
        0 <= j < n.children@.len(),
        p.len() > 0,
        ok_at(n.children@[j], p, vs, es),
    ensures
        ok_at(n, seq![j] + p, vs, es),
{
    lemma_node_at_one(n, j);
    lemma_nav(n, seq![j], p);
    lemma_nav(n, seq![j], p.drop_last());
    assert((seq![j] + p).drop_last() =~= seq![j] + p.drop_last());
}

/// Same shape means, in particular, same slot and same arity.
pub proof fn lemma_shape_same_key<D>(a: Node<D>, b: Node<D>)
    requires
        shape_eq(a, b),
    ensures
        a.key == b.key,
        a.children@.len() == b.children@.len(),
{
    assert(valid_path(a, Seq::<int>::empty()));
    assert(node_at(a, Seq::<int>::empty()) == a);
    assert(node_at(b, Seq::<int>::empty()) == b);
    assert(key_at(a, Seq::<int>::empty()) == key_at(b, Seq::<int>::empty()));
}

/// Same slot, same arity, same-shaped children: same shape.
pub proof fn lemma_shape_compose<D>(a: Node<D>, b: Node<D>)
    requires
        a.key == b.key,
        a.children@.len() == b.children@.len(),
        forall|j: int|
            0 <= j < a.children@.len() ==> shape_eq(
                #[trigger] a.children@[j],
                b.children@[j],
            ),
    ensures
        shape_eq(a, b),
{
    assert forall|p: Seq<int>| #[trigger] valid_path(a, p) implies valid_path(b, p) by {
        if p.len() > 0 {
            assert(valid_path(a.children@[p[0]], p.drop_first()));
            assert(valid_path(b.children@[p[0]], p.drop_first()));
        }
    }
    assert forall|p: Seq<int>| #[trigger] valid_path(b, p) implies valid_path(a, p) by {
        if p.len() > 0 {
            assert(valid_path(b.children@[p[0]], p.drop_first()));
            assert(valid_path(a.children@[p[0]], p.drop_first()));
        }
    }
    assert forall|p: Seq<int>| #[trigger] valid_path(a, p) implies key_at(a, p) == key_at(b, p)
        && width_at(a, p) == width_at(b, p) by {
        if p.len() > 0 {
            let j = p[0];
            let rest = p.drop_first();
            assert(valid_path(a.children@[j], rest));
            assert(node_at(a, p) == node_at(a.children@[j], rest));
            assert(node_at(b, p) == node_at(b.children@[j], rest));
        }
    }
}

/// If every child's aggregate combines its parent's and every deeper node is
/// locally consistent inside its child subtree, then every non-root node of
/// the parent is locally consistent.
pub proof fn lemma_ok_compose<V, E, D: Recalc<V, E>>(a: Node<D>, vs: Seq<V>, es: Seq<Seq<E>>)
    requires
        forall|j: int|
            0 <= j < a.children@.len() ==> (#[trigger] a.children@[j]).val == a.val.spec_recalc(
                vs[a.key as int],
                es[a.key as int][a.children@[j].key as int],
            ),
        forall|j: int, p: Seq<int>|
            0 <= j < a.children@.len() && #[trigger] valid_path(#[trigger] a.children@[j], p)
                && p.len() > 0 ==> ok_at(a.children@[j], p, vs, es),
    ensures
        forall|p: Seq<int>| #[trigger] valid_path(a, p) && p.len() > 0 ==> ok_at(a, p, vs, es),
{
    assert forall|p: Seq<int>| #[trigger] valid_path(a, p) && p.len() > 0 implies ok_at(
        a,
        p,
        vs,
        es,
    ) by {
        let j = p[0];
        let rest = p.drop_first();
        assert(valid_path(a.children@[j], rest));
        if rest.len() == 0 {
            lemma_node_at_one(a, j);
            assert(p =~= seq![j]);
            assert(p.drop_last() =~= Seq::<int>::empty());
        } else {
            assert(ok_at(a.children@[j], rest, vs, es));
            lemma_ok_at_lift(a, j, rest, vs, es);
            assert(seq![j] + rest =~= p);
        }
    }
}

// ---------------------------------------------------------------------------
// Facts about prefixing path listings.

pub proof fn lemma_wp_concat(pre: Seq<int>, a: Seq<Seq<int>>, b: Seq<Seq<int>>)
    ensures
        with_prefix(pre, a + b) == with_prefix(pre, a) + with_prefix(pre, b),
{
    assert(with_prefix(pre, a + b) =~~= with_prefix(pre, a) + with_prefix(pre, b));
}

pub proof fn lemma_wp_head(pre: Seq<int>, i: int, a: Seq<Seq<int>>)
    ensures
        with_prefix(pre, with_head(i, a)) == with_prefix(pre.push(i), a),
{
    assert forall|j: int| 0 <= j < a.len() implies pre + (seq![i] + a[j]) =~= pre.push(i)
        + a[j] by {}
    assert(with_prefix(pre, with_head(i, a)) =~~= with_prefix(pre.push(i), a));
}

pub proof fn lemma_wp_nil(a: Seq<Seq<int>>)
    ensures
        with_prefix(Seq::<int>::empty(), a) == a,
        with_prefix(Seq::<int>::empty(), a) =~~= a,
{
    assert forall|j: int| 0 <= j < a.len() implies Seq::<int>::empty() + a[j] =~= a[j] by {}
    assert(with_prefix(Seq::<int>::empty(), a) =~~= a);
}

pub proof fn lemma_wp_one(pre: Seq<int>, p: Seq<int>)
    ensures
        with_prefix(pre, seq![p]) == seq![pre + p],
{
    assert(with_prefix(pre, seq![p]) =~~= seq![pre + p]);
}

pub proof fn lemma_wp_empty(pre: Seq<int>)
    ensures
        with_prefix(pre, Seq::<Seq<int>>::empty()) == Seq::<Seq<int>>::empty(),
{
    assert(with_prefix(pre, Seq::<Seq<int>>::empty()) =~~= Seq::<Seq<int>>::empty());
}

/// `kids_placements` grows one subtree at a time from the left.
pub proof fn lemma_kids_placements_snoc<D>(s: Seq<Node<D>>, i: int)
    requires
        0 <= i < s.len(),
    ensures
        kids_placements(s.take(i + 1)) == kids_placements(s.take(i)) + placements_of(s[i]),
    decreases i,
{
    if i == 0 {
        let t = s.take(1);
        assert(t.len() == 1 && t[0] == s[0]);
        assert(t.drop_first() =~= Seq::<Node<D>>::empty());
        assert(kids_placements(s.take(0)) =~= Seq::<Seq<int>>::empty());
        assert(kids_placements(t.drop_first()) =~= Seq::<Seq<int>>::empty());
        assert(kids_placements(t) == placements_of(s[0]) + kids_placements(t.drop_first()));
        assert(placements_of(s[0]) + Seq::<Seq<int>>::empty() =~= placements_of(s[0]));
        assert(Seq::<Seq<int>>::empty() + placements_of(s[0]) =~= placements_of(s[0]));
    } else {
        let d = s.drop_first();
        lemma_kids_placements_snoc(d, i - 1);
        assert(s.take(i + 1).drop_first() =~= d.take(i));
        assert(s.take(i).drop_first() =~= d.take(i - 1));
        assert(s.take(i + 1)[0] == s[0]);
        assert(s.take(i)[0] == s[0]);
        assert(s.take(i + 1).len() == i + 1);
        assert(s.take(i).len() == i);
        assert(kids_placements(s.take(i + 1)) == placements_of(s[0]) + kids_placements(d.take(i)));
        assert(kids_placements(s.take(i)) == placements_of(s[0]) + kids_placements(d.take(i - 1)));
        assert(d[i - 1] == s[i]);
        assert((placements_of(s[0]) + kids_placements(d.take(i - 1))) + placements_of(s[i])
            =~= placements_of(s[0]) + (kids_placements(d.take(i - 1)) + placements_of(s[i])));
    }
}

} // verus!
