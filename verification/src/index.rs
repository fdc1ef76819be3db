//! What the slot and transition indices list: exactly the paths of the nodes
//! they should, each once, none an ancestor of another.

use vstd::prelude::*;

use crate::model::{
    epaths, is_closed, key_at, kids_epaths, kids_vpaths, lemma_nav, lemma_node_at_one,
    lemma_prefix_step, node_at, sorted_lt, valid_path, vpaths, width_at, with_head,
};
use crate::node::Node;

verus! {

/// Below the root, the anchor slot occurs only at leaves.
pub open spec fn anchor_leaves<D>(n: Node<D>, anchor: int) -> bool {
    forall|p: Seq<int>|
        #[trigger] valid_path(n, p) && p.len() > 0 && key_at(n, p) == anchor ==> width_at(n, p)
            == 0
}

/// A slot repeats along a root-to-leaf path only if it is the anchor.
pub open spec fn no_repeat_but<D>(n: Node<D>, anchor: int) -> bool {
    forall|p1: Seq<int>, p2: Seq<int>|
        #[trigger] valid_path(n, p2) && #[trigger] p1.is_prefix_of(p2) && p1 != p2 && key_at(n, p1)
            == key_at(n, p2) ==> key_at(n, p1) == anchor
}

/// Below the root, every slot comes from the candidate list or is the anchor.
pub open spec fn keys_from<D>(n: Node<D>, avail: Seq<int>, anchor: int) -> bool {
    forall|p: Seq<int>|
        #[trigger] valid_path(n, p) && p.len() > 0 ==> avail.contains(key_at(n, p)) || key_at(n, p)
            == anchor
}

/// The key discipline of a closed permutation tree: candidates never repeat
/// along a path, and the anchor returns only as a leaf.
pub proof fn lemma_closed_once<D>(n: Node<D>, avail: Seq<int>, d: nat, anchor: int)
    requires
        is_closed(n, avail, d, anchor),
        sorted_lt(avail),
        !avail.contains(anchor),
        !avail.contains(n.key as int),
    ensures
        anchor_leaves(n, anchor),
        keys_from(n, avail, anchor),
        no_repeat_but(n, anchor),
    decreases d, avail.len(),
{
    let cs = n.children@;
    if d == 0 || avail.len() == 0 {
        // a single anchor leaf below
        assert forall|p: Seq<int>| #[trigger] valid_path(n, p) && p.len() > 0 implies key_at(
            n,
            p,
        ) == anchor && width_at(n, p) == 0 by {
            assert(p[0] == 0);
            assert(valid_path(cs[0], p.drop_first()));
            assert(p.drop_first().len() == 0);
            assert(node_at(n, p) == node_at(cs[0], p.drop_first()));
        }
        assert forall|p1: Seq<int>, p2: Seq<int>|
            #[trigger] valid_path(n, p2) && #[trigger] p1.is_prefix_of(p2) && p1 != p2 && key_at(
                n,
                p1,
            ) == key_at(n, p2) implies key_at(n, p1) == anchor by {
            if p2.len() == 0 {
                assert(p1 =~= p2);
            }
            assert(key_at(n, p2) == anchor);
        }
    } else {
        assert forall|i: int|
            0 <= i < cs.len() implies anchor_leaves(#[trigger] cs[i], anchor) && keys_from(
            cs[i],
            avail.remove(i),
            anchor,
        ) && no_repeat_but(cs[i], anchor) && cs[i].key as int == avail[i] by {
            assert(is_closed(cs[i], avail.remove(i), (d - 1) as nat, anchor));
            assert forall|x: int| avail.remove(i).contains(x) implies avail.contains(x) by {
                let j = choose|j: int| 0 <= j < avail.remove(i).len() && avail.remove(i)[j] == x;
            }
            assert(!avail.remove(i).contains(anchor));
            assert(!avail.remove(i).contains(avail[i])) by {
                if avail.remove(i).contains(avail[i]) {
                    let j = choose|j: int|
                        0 <= j < avail.remove(i).len() && avail.remove(i)[j] == avail[i];
                    if j < i {
                        assert(avail[j] == avail[i]);
                    } else {
                        assert(avail[j + 1] == avail[i]);
                    }
                }
            }
            lemma_closed_once(cs[i], avail.remove(i), (d - 1) as nat, anchor);
        }
        assert forall|p: Seq<int>| #[trigger] valid_path(n, p) && p.len() > 0 implies (
        avail.contains(key_at(n, p)) || key_at(n, p) == anchor) && (key_at(n, p) == anchor
            ==> width_at(n, p) == 0) by {
            let i = p[0];
            let rest = p.drop_first();
            assert(valid_path(cs[i], rest));
            assert(node_at(n, p) == node_at(cs[i], rest));
            if rest.len() == 0 {
                assert(key_at(n, p) == avail[i]);
                assert(avail.contains(avail[i]));
                assert(avail[i] != anchor);
            } else {
                assert(key_at(n, p) == key_at(cs[i], rest));
                if key_at(cs[i], rest) != anchor {
                    assert(avail.remove(i).contains(key_at(cs[i], rest)));
                    let j = choose|j: int|
                        0 <= j < avail.remove(i).len() && avail.remove(i)[j] == key_at(cs[i], rest);
                }
            }
        }
        assert forall|p1: Seq<int>, p2: Seq<int>|
            #[trigger] valid_path(n, p2) && #[trigger] p1.is_prefix_of(p2) && p1 != p2 && key_at(
                n,
                p1,
            ) == key_at(n, p2) implies key_at(n, p1) == anchor by {
            if p2.len() == 0 {
                assert(p1 =~= p2);
            }
            let i = p2[0];
            let r2 = p2.drop_first();
            assert(valid_path(cs[i], r2));
            assert(node_at(n, p2) == node_at(cs[i], r2));
            if p1.len() == 0 {
                // the root's own key returns below
                assert(key_at(n, p1) == n.key as int);
                assert(valid_path(n, p2));
                assert(avail.contains(key_at(n, p2)) || key_at(n, p2) == anchor);
                if key_at(n, p2) != anchor {
                    assert(avail.contains(n.key as int));
                }
            } else {
                lemma_prefix_step(p1, p2);
                let r1 = p1.drop_first();
                assert(node_at(n, p1) == node_at(cs[i], r1));
                if r1.len() == 0 {
                    // a child's key returns strictly below it
                    assert(key_at(n, p1) == avail[i]);
                    assert(r2.len() > 0);
                    assert(key_at(cs[i], r2) == avail[i]);
                    if key_at(cs[i], r2) != anchor {
                        assert(avail.remove(i).contains(key_at(cs[i], r2))) by {
                            assert(keys_from(cs[i], avail.remove(i), anchor));
                        }
                        assert(!avail.remove(i).contains(avail[i]));
                        assert(false);
                    }
                } else {
                    assert(r1.is_prefix_of(r2) && r1 != r2) by {
                        if r1 == r2 {
                            assert(p1 =~= p2);
                        }
                    }
                    assert(key_at(cs[i], r1) == key_at(cs[i], r2));
                    assert(no_repeat_but(cs[i], anchor));
                }
            }
        }
    }
}

/// A proper ancestor of a reachable node has children.
pub proof fn lemma_prefix_width<D>(n: Node<D>, q: Seq<int>, p: Seq<int>)
    requires
        valid_path(n, p),
        q.is_prefix_of(p),
        q != p,
    ensures
        valid_path(n, q),
        width_at(n, q) > 0,
{
    let rest = p.skip(q.len() as int);
    assert(p =~= q + rest);
    lemma_nav(n, q, rest);
    assert(rest.len() > 0) by {
        if rest.len() == 0 {
            assert(q =~= p);
        }
    }
    assert(valid_path(node_at(n, q), rest));
    assert(0 <= rest[0] < node_at(n, q).children@.len());
}

/// Everything the slot listing holds is a distinct inner node at that slot.
pub proof fn lemma_vpaths_sound<D>(n: Node<D>, s: int)
    ensures
        forall|j: int|
            0 <= j < vpaths(n, s).len() ==> valid_path(n, #[trigger] vpaths(n, s)[j]) && key_at(
                n,
                vpaths(n, s)[j],
            ) == s && width_at(n, vpaths(n, s)[j]) > 0,
        vpaths(n, s).no_duplicates(),
    decreases n, 1nat, 0nat,
{
    let cs = n.children@;
    let hit: Seq<Seq<int>> = if n.key as int == s && cs.len() > 0 {
        seq![Seq::<int>::empty()]
    } else {
        Seq::empty()
    };
    lemma_kids_vpaths_sound(n, s, 0);
    let kv = kids_vpaths(cs, s, 0);
    assert(vpaths(n, s) == hit + kv);
    assert forall|j: int| 0 <= j < vpaths(n, s).len() implies valid_path(
        n,
        #[trigger] vpaths(n, s)[j],
    ) && key_at(n, vpaths(n, s)[j]) == s && width_at(n, vpaths(n, s)[j]) > 0 by {
        if j < hit.len() {
            assert(vpaths(n, s)[j] == Seq::<int>::empty());
            assert(valid_path(n, Seq::<int>::empty()));
        } else {
            assert(vpaths(n, s)[j] == kv[j - hit.len()]);
        }
    }
    assert forall|j1: int, j2: int|
        0 <= j1 < vpaths(n, s).len() && 0 <= j2 < vpaths(n, s).len() && j1 != j2 implies vpaths(
        n,
        s,
    )[j1] != vpaths(n, s)[j2] by {
        if j1 >= hit.len() && j2 >= hit.len() {
            assert(kv[j1 - hit.len()] != kv[j2 - hit.len()]);
        } else if j1 < hit.len() {
            assert(kv[j2 - hit.len()].len() > 0);
        } else {
            assert(kv[j1 - hit.len()].len() > 0);
        }
    }
}

/// The slot listings of the children, lifted: distinct non-empty paths that
/// start at child position `i` or later.
proof fn lemma_kids_vpaths_sound<D>(n: Node<D>, s: int, i: int)
    ensures
        forall|j: int|
            0 <= j < kids_vpaths(n.children@, s, i).len() ==> {
                let e = #[trigger] kids_vpaths(n.children@, s, i)[j];
                e.len() > 0 && i <= e[0] < n.children@.len() && valid_path(n, e) && key_at(n, e)
                    == s && width_at(n, e) > 0
            },
        kids_vpaths(n.children@, s, i).no_duplicates(),
    decreases n, 0nat, n.children@.len() - i,
{
    let cs = n.children@;
    if i < 0 || i >= cs.len() {
    } else {
        assert(decreases_to!(n => n.children));
        assert(decreases_to!(n.children => cs));
        assert(decreases_to!(cs => cs[i]));
        lemma_vpaths_sound(cs[i], s);
        lemma_kids_vpaths_sound(n, s, i + 1);
        let left = with_head(i, vpaths(cs[i], s));
        let right = kids_vpaths(cs, s, i + 1);
        assert(kids_vpaths(cs, s, i) == left + right);
        lemma_node_at_one(n, i);
        assert forall|j: int| 0 <= j < left.len() implies {
            let e = #[trigger] left[j];
            e.len() > 0 && e[0] == i && valid_path(n, e) && key_at(n, e) == s && width_at(n, e) > 0
                && e.drop_first() == vpaths(cs[i], s)[j]
        } by {
            let x = vpaths(cs[i], s)[j];
            assert(left[j] == seq![i] + x);
            lemma_nav(n, seq![i], x);
            assert((seq![i] + x).drop_first() =~= x);
        }
        assert forall|j1: int, j2: int|
            0 <= j1 < kids_vpaths(cs, s, i).len() && 0 <= j2 < kids_vpaths(cs, s, i).len() && j1
                != j2 implies kids_vpaths(cs, s, i)[j1] != kids_vpaths(cs, s, i)[j2] by {
            let e1 = kids_vpaths(cs, s, i)[j1];
            let e2 = kids_vpaths(cs, s, i)[j2];
            if j1 < left.len() && j2 < left.len() {
                if e1 == e2 {
                    assert(vpaths(cs[i], s)[j1] == e1.drop_first());
                    assert(vpaths(cs[i], s)[j2] == e2.drop_first());
                }
            } else if j1 >= left.len() && j2 >= left.len() {
                assert(right[j1 - left.len()] != right[j2 - left.len()]);
            } else if j1 < left.len() {
                assert(e1[0] == i && e2[0] > i);
            } else {
                assert(e2[0] == i && e1[0] > i);
            }
        }
    }
}

/// Every inner node at slot `s` is in the slot listing.
pub proof fn lemma_vpaths_complete<D>(n: Node<D>, s: int, p: Seq<int>)
    requires
        valid_path(n, p),
        key_at(n, p) == s,
        width_at(n, p) > 0,
    ensures
        vpaths(n, s).contains(p),
    decreases n, 1nat, 0nat,
{
    let cs = n.children@;
    let hit: Seq<Seq<int>> = if n.key as int == s && cs.len() > 0 {
        seq![Seq::<int>::empty()]
    } else {
        Seq::empty()
    };
    let kv = kids_vpaths(cs, s, 0);
    assert(vpaths(n, s) == hit + kv);
    if p.len() == 0 {
        assert(node_at(n, p) == n);
        assert(hit.len() == 1);
        assert(vpaths(n, s)[0] == p);
    } else {
        lemma_kids_vpaths_complete(n, s, 0, p);
        let j = choose|j: int| 0 <= j < kv.len() && kv[j] == p;
        assert(vpaths(n, s)[hit.len() + j] == p);
    }
}

/// The lifting step behind `lemma_vpaths_complete`.
proof fn lemma_kids_vpaths_complete<D>(n: Node<D>, s: int, i: int, p: Seq<int>)
    requires
        valid_path(n, p),
        p.len() > 0,
        0 <= i <= p[0],
        key_at(n, p) == s,
        width_at(n, p) > 0,
    ensures
        kids_vpaths(n.children@, s, i).contains(p),
    decreases n, 0nat, n.children@.len() - i,
{
    let cs = n.children@;
    assert(0 <= p[0] < cs.len());
    let left = with_head(i, vpaths(cs[i], s));
    let right = kids_vpaths(cs, s, i + 1);
    assert(kids_vpaths(cs, s, i) == left + right);
    if i == p[0] {
        let rest = p.drop_first();
        assert(decreases_to!(n => n.children));
        assert(decreases_to!(n.children => cs));
        assert(decreases_to!(cs => cs[i]));
        lemma_node_at_one(n, i);
        lemma_nav(n, seq![i], rest);
        assert(seq![i] + rest =~= p);
        lemma_vpaths_complete(cs[i], s, rest);
        let j = choose|j: int| 0 <= j < vpaths(cs[i], s).len() && vpaths(cs[i], s)[j] == rest;
        assert(left[j] == seq![i] + rest);
        assert(kids_vpaths(cs, s, i)[j] == p);
    } else {
        lemma_kids_vpaths_complete(n, s, i + 1, p);
        let j = choose|j: int| 0 <= j < right.len() && right[j] == p;
        assert(kids_vpaths(cs, s, i)[left.len() + j] == p);
    }
}

/// Everything the transition listing holds is a distinct node reached over
/// that transition.
pub proof fn lemma_epaths_sound<D>(n: Node<D>, a: int, b: int)
    ensures
        forall|j: int|
            0 <= j < epaths(n, a, b).len() ==> {
                let e = #[trigger] epaths(n, a, b)[j];
                e.len() > 0 && valid_path(n, e) && key_at(n, e) == b && key_at(n, e.drop_last())
                    == a
            },
        epaths(n, a, b).no_duplicates(),
    decreases n, 1nat, 0nat,
{
    lemma_kids_epaths_sound(n, a, b, 0);
}

/// The transition listings of the children, lifted.
proof fn lemma_kids_epaths_sound<D>(n: Node<D>, a: int, b: int, i: int)
    ensures
        forall|j: int|
            0 <= j < kids_epaths(n.key as int, n.children@, a, b, i).len() ==> {
                let e = #[trigger] kids_epaths(n.key as int, n.children@, a, b, i)[j];
                e.len() > 0 && i <= e[0] < n.children@.len() && valid_path(n, e) && key_at(n, e)
                    == b && key_at(n, e.drop_last()) == a
            },
        kids_epaths(n.key as int, n.children@, a, b, i).no_duplicates(),
    decreases n, 0nat, n.children@.len() - i,
{
    let pk = n.key as int;
    let cs = n.children@;
    if i < 0 || i >= cs.len() {
    } else {
        assert(decreases_to!(n => n.children));
        assert(decreases_to!(n.children => cs));
        assert(decreases_to!(cs => cs[i]));
        lemma_epaths_sound(cs[i], a, b);
        lemma_kids_epaths_sound(n, a, b, i + 1);
        let hit: Seq<Seq<int>> = if pk == a && cs[i].key as int == b {
            seq![seq![i]]
        } else {
            Seq::empty()
        };
        let mid = with_head(i, epaths(cs[i], a, b));
        let right = kids_epaths(pk, cs, a, b, i + 1);
        assert(kids_epaths(pk, cs, a, b, i) == (hit + mid) + right);
        lemma_node_at_one(n, i);
        if pk == a && cs[i].key as int == b {
            assert(seq![i].drop_last() =~= Seq::<int>::empty());
            assert(node_at(n, Seq::<int>::empty()) == n);
        }
        assert forall|j: int| 0 <= j < mid.len() implies {
            let e = #[trigger] mid[j];
            e.len() > 1 && e[0] == i && valid_path(n, e) && key_at(n, e) == b && key_at(
                n,
                e.drop_last(),
            ) == a && e.drop_first() == epaths(cs[i], a, b)[j]
        } by {
            let x = epaths(cs[i], a, b)[j];
            assert(mid[j] == seq![i] + x);
            lemma_nav(n, seq![i], x);
            assert((seq![i] + x).drop_first() =~= x);
            assert((seq![i] + x).drop_last() =~= seq![i] + x.drop_last());
            lemma_nav(n, seq![i], x.drop_last());
        }
        assert forall|j1: int, j2: int|
            0 <= j1 < kids_epaths(pk, cs, a, b, i).len() && 0 <= j2 < kids_epaths(
                pk,
                cs,
                a,
                b,
                i,
            ).len() && j1 != j2 implies kids_epaths(pk, cs, a, b, i)[j1] != kids_epaths(
            pk,
            cs,
            a,
            b,
            i,
        )[j2] by {
            let whole = kids_epaths(pk, cs, a, b, i);
            let e1 = whole[j1];
            let e2 = whole[j2];
            let hl = hit.len();
            let ml = mid.len();
            if j1 < hl && j2 < hl {
            } else if j1 < hl || j2 < hl {
                // the direct hit has length 1; everything else is longer or
                // starts past i
                if e1 == e2 {
                    if j1 < hl {
                        if j2 < hl + ml {
                            assert(e2.len() > 1);
                        } else {
                            assert(e2[0] > i && e1[0] == i);
                        }
                    } else {
                        if j1 < hl + ml {
                            assert(e1.len() > 1);
                        } else {
                            assert(e1[0] > i && e2[0] == i);
                        }
                    }
                }
            } else if j1 < hl + ml && j2 < hl + ml {
                if e1 == e2 {
                    assert(epaths(cs[i], a, b)[j1 - hl] == e1.drop_first());
                    assert(epaths(cs[i], a, b)[j2 - hl] == e2.drop_first());
                }
            } else if j1 >= hl + ml && j2 >= hl + ml {
                assert(right[j1 - hl - ml] != right[j2 - hl - ml]);
            } else if j1 < hl + ml {
                assert(e1[0] == i && e2[0] > i);
            } else {
                assert(e2[0] == i && e1[0] > i);
            }
        }
    }
}

/// Every node reached over the transition `a -> b` is in its listing.
pub proof fn lemma_epaths_complete<D>(n: Node<D>, a: int, b: int, p: Seq<int>)
    requires
        valid_path(n, p),
        p.len() > 0,
        key_at(n, p) == b,
        key_at(n, p.drop_last()) == a,
    ensures
        epaths(n, a, b).contains(p),
    decreases n, 1nat, 0nat,
{
    lemma_kids_epaths_complete(n, a, b, 0, p);
}

/// The lifting step behind `lemma_epaths_complete`.
proof fn lemma_kids_epaths_complete<D>(n: Node<D>, a: int, b: int, i: int, p: Seq<int>)
    requires
        valid_path(n, p),
        p.len() > 0,
        0 <= i <= p[0],
        key_at(n, p) == b,
        key_at(n, p.drop_last()) == a,
    ensures
        kids_epaths(n.key as int, n.children@, a, b, i).contains(p),
    decreases n, 0nat, n.children@.len() - i,
{
    let pk = n.key as int;
    let cs = n.children@;
    assert(0 <= p[0] < cs.len());
    let hit: Seq<Seq<int>> = if pk == a && cs[i].key as int == b {
        seq![seq![i]]
    } else {
        Seq::empty()
    };
    let mid = with_head(i, epaths(cs[i], a, b));
    let right = kids_epaths(pk, cs, a, b, i + 1);
    assert(kids_epaths(pk, cs, a, b, i) == (hit + mid) + right);
    if i == p[0] {
        let rest = p.drop_first();
        assert(decreases_to!(n => n.children));
        assert(decreases_to!(n.children => cs));
        assert(decreases_to!(cs => cs[i]));
        lemma_node_at_one(n, i);
        lemma_nav(n, seq![i], rest);
        assert(seq![i] + rest =~= p);
        if rest.len() == 0 {
            assert(p =~= seq![i]);
            assert(p.drop_last() =~= Seq::<int>::empty());
            assert(node_at(n, p.drop_last()) == n);
            assert(pk == a && cs[i].key as int == b);
            assert(kids_epaths(pk, cs, a, b, i)[0] == p);
        } else {
            assert(p.drop_last() =~= seq![i] + rest.drop_last());
            lemma_nav(n, seq![i], rest.drop_last());
            lemma_epaths_complete(cs[i], a, b, rest);
            let j = choose|j: int|
                0 <= j < epaths(cs[i], a, b).len() && epaths(cs[i], a, b)[j] == rest;
            assert(mid[j] == seq![i] + rest);
            assert(kids_epaths(pk, cs, a, b, i)[hit.len() + j] == p);
        }
    } else {
        lemma_kids_epaths_complete(n, a, b, i + 1, p);
        let j = choose|j: int| 0 <= j < right.len() && right[j] == p;
        assert(kids_epaths(pk, cs, a, b, i)[hit.len() + mid.len() + j] == p);
    }
}

/// No listed inner slot node sits inside another's subtree.
pub proof fn lemma_vpaths_nonnest<D>(n: Node<D>, s: int, anchor: int)
    requires
        anchor_leaves(n, anchor),
        no_repeat_but(n, anchor),
    ensures
        forall|j1: int, j2: int|
            0 <= j1 < vpaths(n, s).len() && 0 <= j2 < vpaths(n, s).len() && j1 != j2 ==> !(
            #[trigger] vpaths(n, s)[j1]).is_prefix_of(#[trigger] vpaths(n, s)[j2]),
{
    lemma_vpaths_sound(n, s);
    assert forall|j1: int, j2: int|
        0 <= j1 < vpaths(n, s).len() && 0 <= j2 < vpaths(n, s).len() && j1 != j2 implies !(
    #[trigger] vpaths(n, s)[j1]).is_prefix_of(#[trigger] vpaths(n, s)[j2]) by {
        let e1 = vpaths(n, s)[j1];
        let e2 = vpaths(n, s)[j2];
        if e1.is_prefix_of(e2) {
            assert(e1 != e2);
            assert(key_at(n, e1) == key_at(n, e2));
            assert(key_at(n, e1) == anchor);
            if e1.len() == 0 {
                assert(e2.len() > 0) by {
                    if e2.len() == 0 {
                        assert(e1 =~= e2);
                    }
                }
                assert(width_at(n, e2) == 0);
            } else {
                assert(width_at(n, e1) == 0);
            }
        }
    }
}

/// No listed transition node sits inside another's subtree.
pub proof fn lemma_epaths_nonnest<D>(n: Node<D>, a: int, b: int, anchor: int)
    requires
        anchor_leaves(n, anchor),
        no_repeat_but(n, anchor),
    ensures
        forall|j1: int, j2: int|
            0 <= j1 < epaths(n, a, b).len() && 0 <= j2 < epaths(n, a, b).len() && j1 != j2 ==> !(
            #[trigger] epaths(n, a, b)[j1]).is_prefix_of(#[trigger] epaths(n, a, b)[j2]),
{
    lemma_epaths_sound(n, a, b);
    assert forall|j1: int, j2: int|
        0 <= j1 < epaths(n, a, b).len() && 0 <= j2 < epaths(n, a, b).len() && j1 != j2 implies !(
    #[trigger] epaths(n, a, b)[j1]).is_prefix_of(#[trigger] epaths(n, a, b)[j2]) by {
        let e1 = epaths(n, a, b)[j1];
        let e2 = epaths(n, a, b)[j2];
        if e1.is_prefix_of(e2) {
            assert(e1 != e2);
            assert(key_at(n, e1) == key_at(n, e2));
            assert(key_at(n, e1) == anchor);
            lemma_prefix_width(n, e1, e2);
            assert(width_at(n, e1) == 0);
        }
    }
}

} // verus!
