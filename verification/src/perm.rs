//! What the builder enumerates: the root-to-leaf paths of a closed
//! permutation tree are exactly the duplicate-free candidate sequences of the
//! bounded length, each wrapped in the anchor; their number is the falling
//! factorial.

use vstd::prelude::*;

use crate::model::{
    is_closed, kids_placements, placements_of, sorted_lt, with_head,
};
use crate::node::Node;

verus! {

/// Append `anchor` to every sequence of `ps`.
pub open spec fn with_tail(anchor: int, ps: Seq<Seq<int>>) -> Seq<Seq<int>> {
    ps.map_values(|w: Seq<int>| w.push(anchor))
}

/// Every duplicate-free sequence over the candidates `avail`, as long as the
/// depth budget `d` and the candidates allow, ordered by first use of the
/// candidates.
pub open spec fn perms(avail: Seq<int>, d: nat) -> Seq<Seq<int>>
    decreases d, avail.len(), 1nat, 0nat,
{
    if d == 0 || avail.len() == 0 {
        seq![Seq::<int>::empty()]
    } else {
        perms_from(avail, d, 0)
    }
}

/// The permutations led by the candidates `avail[i]`, `avail[i + 1]`, ...
pub open spec fn perms_from(avail: Seq<int>, d: nat, i: int) -> Seq<Seq<int>>
    decreases d, avail.len(), 0nat, avail.len() - i,
{
    if d == 0 || i < 0 || i >= avail.len() {
        Seq::empty()
    } else {
        with_head(avail[i], perms(avail.remove(i), (d - 1) as nat)) + perms_from(avail, d, i + 1)
    }
}

/// The falling factorial: `n * (n - 1) * ...`, for `d` factors or until the
/// factors run out, so `falling(n, n)` is `n` factorial.
pub open spec fn falling(n: nat, d: nat) -> nat
    decreases d,
{
    if d == 0 || n == 0 {
        1
    } else {
        n * falling((n - 1) as nat, (d - 1) as nat)
    }
}

/// The placements of a closed permutation tree are exactly its candidate
/// permutations, each led by the tree's own slot and closed by the anchor.
pub proof fn lemma_closed_placements<D>(n: Node<D>, avail: Seq<int>, d: nat, anchor: int)
    requires
        is_closed(n, avail, d, anchor),
    ensures
        placements_of(n) == with_head(n.key as int, with_tail(anchor, perms(avail, d))),
    decreases d, avail.len(), 1nat, 0nat,
{
    let cs = n.children@;
    if d == 0 || avail.len() == 0 {
        let leaf = cs[0];
        assert(placements_of(leaf) =~= seq![seq![anchor]]);
        assert(cs.drop_first() =~= Seq::<Node<D>>::empty());
        assert(kids_placements(cs.drop_first()) =~= Seq::<Seq<int>>::empty());
        assert(kids_placements(cs) == placements_of(leaf) + kids_placements(cs.drop_first()));
        assert(placements_of(leaf) + Seq::<Seq<int>>::empty() =~= placements_of(leaf));
        assert(placements_of(n) == with_head(n.key as int, seq![seq![anchor]]));
        assert(with_head(n.key as int, with_tail(anchor, seq![Seq::<int>::empty()])) =~~= with_head(
            n.key as int,
            seq![seq![anchor]],
        ));
    } else {
        lemma_closed_kids(n, avail, d, anchor, 0);
        assert(cs.skip(0) =~= cs);
        assert(placements_of(n) == with_head(n.key as int, kids_placements(cs)));
    }
}

/// The step behind `lemma_closed_placements`: the placements contributed by
/// the children from position `i` on.
proof fn lemma_closed_kids<D>(n: Node<D>, avail: Seq<int>, d: nat, anchor: int, i: int)
    requires
        is_closed(n, avail, d, anchor),
        d > 0,
        avail.len() > 0,
        0 <= i <= avail.len(),
    ensures
        kids_placements(n.children@.skip(i)) == with_tail(anchor, perms_from(avail, d, i)),
    decreases d, avail.len(), 0nat, avail.len() - i,
{
    let cs = n.children@;
    if i == avail.len() {
        assert(cs.skip(i) =~= Seq::<Node<D>>::empty());
        assert(with_tail(anchor, Seq::<Seq<int>>::empty()) =~= Seq::<Seq<int>>::empty());
    } else {
        assert(is_closed(cs[i], avail.remove(i), (d - 1) as nat, anchor));
        lemma_closed_placements(cs[i], avail.remove(i), (d - 1) as nat, anchor);
        lemma_closed_kids(n, avail, d, anchor, i + 1);
        assert(cs.skip(i)[0] == cs[i]);
        assert(cs.skip(i).drop_first() =~= cs.skip(i + 1));
        assert(kids_placements(cs.skip(i)) == placements_of(cs[i]) + kids_placements(
            cs.skip(i + 1),
        ));
        let sub = perms(avail.remove(i), (d - 1) as nat);
        assert(placements_of(cs[i]) == with_head(avail[i], with_tail(anchor, sub)));
        assert(with_head(avail[i], with_tail(anchor, sub)) =~~= with_tail(
            anchor,
            with_head(avail[i], sub),
        ));
        assert(with_tail(anchor, with_head(avail[i], sub)) + with_tail(
            anchor,
            perms_from(avail, d, i + 1),
        ) =~~= with_tail(anchor, with_head(avail[i], sub) + perms_from(avail, d, i + 1)));
    }
}

/// How many permutations there are: the falling factorial of the number of
/// candidates by the depth budget.
pub proof fn lemma_perms_len(avail: Seq<int>, d: nat)
    ensures
        perms(avail, d).len() == falling(avail.len(), d),
    decreases d, avail.len(), 1nat, 0nat,
{
    if d == 0 || avail.len() == 0 {
    } else {
        lemma_perms_from_len(avail, d, 0);
    }
}

proof fn lemma_perms_from_len(avail: Seq<int>, d: nat, i: int)
    requires
        d > 0,
        0 <= i <= avail.len(),
    ensures
        perms_from(avail, d, i).len() == (avail.len() - i) * falling(
            (avail.len() - 1) as nat,
            (d - 1) as nat,
        ),
    decreases d, avail.len(), 0nat, avail.len() - i,
{
    if i == avail.len() {
    } else {
        lemma_perms_len(avail.remove(i), (d - 1) as nat);
        lemma_perms_from_len(avail, d, i + 1);
        let f = falling((avail.len() - 1) as nat, (d - 1) as nat);
        assert(perms_from(avail, d, i).len() == f + (avail.len() - i - 1) * f);
        assert(f + (avail.len() - i - 1) * f == (avail.len() - i) * f) by (nonlinear_arith);
    }
}

/// The length every permutation of `perms(avail, d)` has.
pub open spec fn perm_len(avail: Seq<int>, d: nat) -> int {
    if d <= avail.len() {
        d as int
    } else {
        avail.len() as int
    }
}

/// Membership in a candidate list survives dropping a different candidate.
proof fn lemma_remove_membership(avail: Seq<int>, i: int, x: int)
    requires
        0 <= i < avail.len(),
        avail.contains(x),
        x != avail[i],
    ensures
        avail.remove(i).contains(x),
{
    let j = choose|j: int| 0 <= j < avail.len() && avail[j] == x;
    if j < i {
        assert(avail.remove(i)[j] == x);
    } else {
        assert(avail.remove(i)[j - 1] == x);
    }
}

/// What the permutation listing holds: exactly the duplicate-free candidate
/// sequences of the full available length.
pub proof fn lemma_perms_membership(avail: Seq<int>, d: nat, w: Seq<int>)
    requires
        sorted_lt(avail),
    ensures
        perms(avail, d).contains(w) <==> (w.len() == perm_len(avail, d) && w.no_duplicates()
            && forall|j: int| 0 <= j < w.len() ==> avail.contains(#[trigger] w[j])),
    decreases d, avail.len(), 1nat, 0nat,
{
    if d == 0 || avail.len() == 0 {
        if perms(avail, d).contains(w) {
            assert(w == perms(avail, d)[0]);
        }
        if w.len() == perm_len(avail, d) {
            assert(w =~= Seq::<int>::empty());
            assert(perms(avail, d)[0] == w);
        }
    } else {
        if perms(avail, d).contains(w) {
            lemma_perms_from_membership(avail, d, 0, w);
        }
        if w.len() == perm_len(avail, d) && w.no_duplicates() && forall|j: int|
            0 <= j < w.len() ==> avail.contains(#[trigger] w[j]) {
            assert(w.len() > 0);
            assert(avail.contains(w[0]));
            let i = choose|i: int| 0 <= i < avail.len() && avail[i] == w[0];
            let rest = w.drop_first();
            let sub = avail.remove(i);
            assert(sorted_lt(sub)) by {
                assert forall|j1: int, j2: int| 0 <= j1 < j2 < sub.len() implies sub[j1]
                    < sub[j2] by {
                    assert(sub[j1] == if j1 < i {
                        avail[j1]
                    } else {
                        avail[j1 + 1]
                    });
                    assert(sub[j2] == if j2 < i {
                        avail[j2]
                    } else {
                        avail[j2 + 1]
                    });
                }
            }
            assert forall|j: int| 0 <= j < rest.len() implies sub.contains(#[trigger] rest[j]) by {
                assert(rest[j] == w[j + 1]);
                assert(avail.contains(w[j + 1]));
                assert(w[j + 1] != w[0]);
                lemma_remove_membership(avail, i, w[j + 1]);
            }
            assert(rest.no_duplicates());
            assert(rest.len() == perm_len(sub, (d - 1) as nat));
            lemma_perms_membership(sub, (d - 1) as nat, rest);
            assert(perms(sub, (d - 1) as nat).contains(rest));
            let t = choose|t: int|
                0 <= t < perms(sub, (d - 1) as nat).len() && #[trigger] perms(
                    sub,
                    (d - 1) as nat,
                )[t] == rest;
            assert(with_head(avail[i], perms(sub, (d - 1) as nat))[t] == seq![avail[i]] + rest);
            assert(seq![avail[i]] + rest =~= w);
            lemma_perms_from_contains(avail, d, 0, i, w);
        }
    }
}

/// Everything listed from position `i` on is duplicate-free, over the
/// candidates, and of the full length.
proof fn lemma_perms_from_membership(avail: Seq<int>, d: nat, i: int, w: Seq<int>)
    requires
        sorted_lt(avail),
        d > 0,
        avail.len() > 0,
        0 <= i,
        perms_from(avail, d, i).contains(w),
    ensures
        w.len() == perm_len(avail, d),
        w.no_duplicates(),
        forall|j: int| 0 <= j < w.len() ==> avail.contains(#[trigger] w[j]),
    decreases d, avail.len(), 0nat, avail.len() - i,
{
    assert(i < avail.len());
    let sub = avail.remove(i);
    let block = with_head(avail[i], perms(sub, (d - 1) as nat));
    let t = choose|t: int| 0 <= t < perms_from(avail, d, i).len() && perms_from(avail, d, i)[t]
        == w;
    if t < block.len() {
        let rest = perms(sub, (d - 1) as nat)[t];
        assert(w == seq![avail[i]] + rest);
        assert(sorted_lt(sub)) by {
            assert forall|j1: int, j2: int| 0 <= j1 < j2 < sub.len() implies sub[j1] < sub[j2] by {
                assert(sub[j1] == if j1 < i {
                    avail[j1]
                } else {
                    avail[j1 + 1]
                });
                assert(sub[j2] == if j2 < i {
                    avail[j2]
                } else {
                    avail[j2 + 1]
                });
            }
        }
        lemma_perms_membership(sub, (d - 1) as nat, rest);
        assert(perms(sub, (d - 1) as nat).contains(rest));
        assert(rest.len() == perm_len(sub, (d - 1) as nat));
        assert(w.len() == perm_len(avail, d));
        assert forall|j: int| 0 <= j < w.len() implies avail.contains(#[trigger] w[j]) by {
            if j == 0 {
                assert(avail[i] == w[0]);
            } else {
                assert(w[j] == rest[j - 1]);
                assert(sub.contains(rest[j - 1]));
                let jx = choose|jx: int| 0 <= jx < sub.len() && sub[jx] == rest[j - 1];
                assert(sub[jx] == if jx < i {
                    avail[jx]
                } else {
                    avail[jx + 1]
                });
            }
        }
        assert(w.no_duplicates()) by {
            assert forall|j1: int, j2: int| 0 <= j1 < j2 < w.len() implies w[j1] != w[j2] by {
                if j1 == 0 {
                    assert(w[j2] == rest[j2 - 1]);
                    assert(sub.contains(rest[j2 - 1]));
                    assert(!sub.contains(avail[i])) by {
                        if sub.contains(avail[i]) {
                            let jx = choose|jx: int| 0 <= jx < sub.len() && sub[jx] == avail[i];
                            assert(sub[jx] == if jx < i {
                                avail[jx]
                            } else {
                                avail[jx + 1]
                            });
                        }
                    }
                } else {
                    assert(w[j1] == rest[j1 - 1] && w[j2] == rest[j2 - 1]);
                }
            }
        }
    } else {
        assert(perms_from(avail, d, i + 1)[t - block.len()] == w);
        assert(perms_from(avail, d, i + 1).contains(w));
        assert(i + 1 < avail.len()) by {
            if i + 1 >= avail.len() {
                assert(perms_from(avail, d, i + 1).len() == 0);
            }
        }
        lemma_perms_from_membership(avail, d, i + 1, w);
    }
}

/// A sequence found in one block is in the whole suffix listing.
proof fn lemma_perms_from_contains(avail: Seq<int>, d: nat, i0: int, i: int, w: Seq<int>)
    requires
        d > 0,
        0 <= i0 <= i < avail.len(),
        with_head(avail[i], perms(avail.remove(i), (d - 1) as nat)).contains(w),
    ensures
        perms_from(avail, d, i0).contains(w),
    decreases i - i0,
{
    let block = with_head(avail[i0], perms(avail.remove(i0), (d - 1) as nat));
    if i0 == i {
        let t = choose|t: int| 0 <= t < block.len() && block[t] == w;
        assert(perms_from(avail, d, i0)[t] == w);
    } else {
        lemma_perms_from_contains(avail, d, i0 + 1, i, w);
        let t = choose|t: int|
            0 <= t < perms_from(avail, d, i0 + 1).len() && #[trigger] perms_from(
                avail,
                d,
                i0 + 1,
            )[t] == w;
        assert(perms_from(avail, d, i0)[block.len() + t] == w);
    }
}

/// No permutation is listed twice.
pub proof fn lemma_perms_nodup(avail: Seq<int>, d: nat)
    requires
        sorted_lt(avail),
    ensures
        perms(avail, d).no_duplicates(),
    decreases d, avail.len(), 1nat, 0nat,
{
    if d == 0 || avail.len() == 0 {
    } else {
        lemma_perms_from_nodup(avail, d, 0);
    }
}

proof fn lemma_perms_from_nodup(avail: Seq<int>, d: nat, i: int)
    requires
        sorted_lt(avail),
        d > 0,
        0 <= i,
    ensures
        perms_from(avail, d, i).no_duplicates(),
        forall|t: int|
            0 <= t < perms_from(avail, d, i).len() ==> (#[trigger] perms_from(avail, d, i)[t]).len()
                > 0 && exists|h: int| i <= h < avail.len() && perms_from(avail, d, i)[t][0]
                == avail[h],
    decreases d, avail.len(), 0nat, avail.len() - i,
{
    if i >= avail.len() {
    } else {
        let sub = avail.remove(i);
        assert(sorted_lt(sub)) by {
            assert forall|j1: int, j2: int| 0 <= j1 < j2 < sub.len() implies sub[j1] < sub[j2] by {
                assert(sub[j1] == if j1 < i {
                    avail[j1]
                } else {
                    avail[j1 + 1]
                });
                assert(sub[j2] == if j2 < i {
                    avail[j2]
                } else {
                    avail[j2 + 1]
                });
            }
        }
        lemma_perms_nodup(sub, (d - 1) as nat);
        lemma_perms_from_nodup(avail, d, i + 1);
        let block = with_head(avail[i], perms(sub, (d - 1) as nat));
        let rest = perms_from(avail, d, i + 1);
        assert forall|t: int| 0 <= t < perms_from(avail, d, i).len() implies (
        #[trigger] perms_from(avail, d, i)[t]).len() > 0 && exists|h: int|
            i <= h < avail.len() && perms_from(avail, d, i)[t][0] == avail[h] by {
            if t < block.len() {
                assert(block[t] == seq![avail[i]] + perms(sub, (d - 1) as nat)[t]);
                assert(perms_from(avail, d, i)[t][0] == avail[i]);
            } else {
                assert(perms_from(avail, d, i)[t] == rest[t - block.len()]);
                let h = choose|h: int| i + 1 <= h < avail.len() && rest[t - block.len()][0]
                    == avail[h];
                assert(i <= h < avail.len());
            }
        }
        assert forall|t1: int, t2: int|
            0 <= t1 < t2 < perms_from(avail, d, i).len() implies perms_from(avail, d, i)[t1]
            != perms_from(avail, d, i)[t2] by {
            let e1 = perms_from(avail, d, i)[t1];
            let e2 = perms_from(avail, d, i)[t2];
            if t1 < block.len() && t2 < block.len() {
                if e1 == e2 {
                    assert(perms(sub, (d - 1) as nat)[t1] =~= e1.drop_first());
                    assert(perms(sub, (d - 1) as nat)[t2] =~= e2.drop_first());
                }
            } else if t1 < block.len() {
                assert(e1[0] == avail[i]);
                let h = choose|h: int| i + 1 <= h < avail.len() && rest[t2 - block.len()][0]
                    == avail[h];
                assert(e2[0] == avail[h]);
            } else {
                assert(rest[t1 - block.len()] != rest[t2 - block.len()]);
            }
        }
    }
}

/// Swap the labels `0` and `a`, leaving every other label alone.
pub open spec fn swap_label(a: int, x: int) -> int {
    if x == 0 {
        a
    } else if x == a {
        0
    } else {
        x
    }
}

/// Swap the labels `0` and `a` throughout a path.
pub open spec fn swap_path(a: int, p: Seq<int>) -> Seq<int> {
    p.map_values(|x: int| swap_label(a, x))
}

/// A wrapped listing holds a path exactly when the listing holds its middle.
proof fn lemma_wrap_contains(h: int, anchor: int, ps: Seq<Seq<int>>, p: Seq<int>)
    ensures
        with_head(h, with_tail(anchor, ps)).contains(p) <==> exists|w: Seq<int>|
            ps.contains(w) && p == seq![h] + #[trigger] w.push(anchor),
{
    if with_head(h, with_tail(anchor, ps)).contains(p) {
        let t = choose|t: int|
            0 <= t < with_head(h, with_tail(anchor, ps)).len() && with_head(
                h,
                with_tail(anchor, ps),
            )[t] == p;
        assert(ps.contains(ps[t]));
        assert(p == seq![h] + ps[t].push(anchor));
    }
    if exists|w: Seq<int>| ps.contains(w) && p == seq![h] + #[trigger] w.push(anchor) {
        let w = choose|w: Seq<int>| ps.contains(w) && p == seq![h] + w.push(anchor);
        let t = choose|t: int| 0 <= t < ps.len() && ps[t] == w;
        assert(with_head(h, with_tail(anchor, ps))[t] == seq![h] + w.push(anchor));
        assert(with_head(h, with_tail(anchor, ps)).contains(p));
    }
}

/// Anchor relabeling: the tree anchored at `a` has exactly the placements of
/// the tree anchored at `0` with the labels `0` and `a` swapped throughout.
pub proof fn lemma_anchor_relabel<D1, D2>(t0: Node<D1>, ta: Node<D2>, nn: int, d: nat, a: int)
    requires
        0 <= a <= nn,
        is_closed(t0, crate::model::avail_of(nn, 0), d, 0),
        t0.key == 0,
        is_closed(ta, crate::model::avail_of(nn, a), d, a),
        ta.key as int == a,
    ensures
        forall|p: Seq<int>|
            placements_of(ta).contains(p) <==> placements_of(t0).contains(
                #[trigger] swap_path(a, p),
            ),
{
    let av0 = crate::model::avail_of(nn, 0);
    let ava = crate::model::avail_of(nn, a);
    crate::model::lemma_avail_facts(nn, 0);
    crate::model::lemma_avail_facts(nn, a);
    lemma_closed_placements(t0, av0, d, 0);
    lemma_closed_placements(ta, ava, d, a);
    assert(av0.len() == ava.len());
    assert forall|p: Seq<int>| placements_of(ta).contains(p) <==> placements_of(t0).contains(
        #[trigger] swap_path(a, p),
    ) by {
        lemma_wrap_contains(a, a, perms(ava, d), p);
        lemma_wrap_contains(0, 0, perms(av0, d), swap_path(a, p));
        if placements_of(ta).contains(p) {
            let w = choose|w: Seq<int>| perms(ava, d).contains(w) && p == seq![a]
                + #[trigger] w.push(a);
            lemma_perms_membership(ava, d, w);
            let w0 = swap_path(a, w);
            lemma_swap_props(nn, a, w, w0);
            lemma_perms_membership(av0, d, w0);
            assert(perms(av0, d).contains(w0));
            assert(swap_path(a, p) =~= seq![0] + w0.push(0));
        }
        if placements_of(t0).contains(swap_path(a, p)) {
            let w0 = choose|w0: Seq<int>| perms(av0, d).contains(w0) && swap_path(a, p) == seq![0]
                + #[trigger] w0.push(0);
            lemma_perms_membership(av0, d, w0);
            let w = swap_path(a, w0);
            lemma_swap_props_back(nn, a, w0, w);
            lemma_perms_membership(ava, d, w);
            assert(perms(ava, d).contains(w));
            assert(p =~= swap_path(a, swap_path(a, p)));
            assert(p =~= seq![a] + w.push(a));
        }
    }
}

/// Swapping `0` and `a` carries a permutation over the candidates without `a`
/// to one over the candidates without `0`.
proof fn lemma_swap_props(nn: int, a: int, w: Seq<int>, w0: Seq<int>)
    requires
        0 <= a <= nn,
        w0 == swap_path(a, w),
        w.no_duplicates(),
        forall|j: int|
            0 <= j < w.len() ==> crate::model::avail_of(nn, a).contains(#[trigger] w[j]),
    ensures
        w0.len() == w.len(),
        w0.no_duplicates(),
        forall|j: int|
            0 <= j < w0.len() ==> crate::model::avail_of(nn, 0).contains(#[trigger] w0[j]),
{
    crate::model::lemma_avail_facts(nn, 0);
    crate::model::lemma_avail_facts(nn, a);
    assert forall|j: int| 0 <= j < w0.len() implies crate::model::avail_of(nn, 0).contains(
        #[trigger] w0[j],
    ) by {
        assert(crate::model::avail_of(nn, a).contains(w[j]));
        assert(w0[j] == swap_label(a, w[j]));
    }
    assert forall|j1: int, j2: int| 0 <= j1 < j2 < w0.len() implies w0[j1] != w0[j2] by {
        assert(w[j1] != w[j2]);
    }
}

/// The same, in the other direction.
proof fn lemma_swap_props_back(nn: int, a: int, w0: Seq<int>, w: Seq<int>)
    requires
        0 <= a <= nn,
        w == swap_path(a, w0),
        w0.no_duplicates(),
        forall|j: int|
            0 <= j < w0.len() ==> crate::model::avail_of(nn, 0).contains(#[trigger] w0[j]),
    ensures
        w.len() == w0.len(),
        w.no_duplicates(),
        forall|j: int|
            0 <= j < w.len() ==> crate::model::avail_of(nn, a).contains(#[trigger] w[j]),
{
    crate::model::lemma_avail_facts(nn, 0);
    crate::model::lemma_avail_facts(nn, a);
    assert forall|j: int| 0 <= j < w.len() implies crate::model::avail_of(nn, a).contains(
        #[trigger] w[j],
    ) by {
        assert(crate::model::avail_of(nn, 0).contains(w0[j]));
        assert(w[j] == swap_label(a, w0[j]));
    }
    assert forall|j1: int, j2: int| 0 <= j1 < j2 < w.len() implies w[j1] != w[j2] by {
        assert(w0[j1] != w0[j2]);
    }
}

/// What the placements of a closed permutation tree are, path by path: the
/// sequences that start and end at the anchor and carry, in between, some
/// duplicate-free candidate sequence of the full available length. With the
/// depth bound at the number of candidates, the middles are exactly the
/// permutations of the candidates.
pub proof fn lemma_placements_membership<D>(t: Node<D>, avail: Seq<int>, d: nat, anchor: int)
    requires
        is_closed(t, avail, d, anchor),
        sorted_lt(avail),
    ensures
        forall|p: Seq<int>|
            placements_of(t).contains(p) <==> exists|w: Seq<int>|
                {
                    &&& w.len() == perm_len(avail, d)
                    &&& w.no_duplicates()
                    &&& (forall|j: int| 0 <= j < w.len() ==> avail.contains(#[trigger] w[j]))
                    &&& p == seq![t.key as int] + #[trigger] w.push(anchor)
                },
{
    lemma_closed_placements(t, avail, d, anchor);
    assert forall|p: Seq<int>| placements_of(t).contains(p) <==> exists|w: Seq<int>|
        {
            &&& w.len() == perm_len(avail, d)
            &&& w.no_duplicates()
            &&& (forall|j: int| 0 <= j < w.len() ==> avail.contains(#[trigger] w[j]))
            &&& p == seq![t.key as int] + #[trigger] w.push(anchor)
        } by {
        lemma_wrap_contains(t.key as int, anchor, perms(avail, d), p);
        if placements_of(t).contains(p) {
            let w = choose|w: Seq<int>| perms(avail, d).contains(w) && p == seq![t.key as int]
                + #[trigger] w.push(anchor);
            lemma_perms_membership(avail, d, w);
        }
        if exists|w: Seq<int>|
            {
                &&& w.len() == perm_len(avail, d)
                &&& w.no_duplicates()
                &&& (forall|j: int| 0 <= j < w.len() ==> avail.contains(#[trigger] w[j]))
                &&& p == seq![t.key as int] + #[trigger] w.push(anchor)
            } {
            let w = choose|w: Seq<int>|
                {
                    &&& w.len() == perm_len(avail, d)
                    &&& w.no_duplicates()
                    &&& (forall|j: int| 0 <= j < w.len() ==> avail.contains(#[trigger] w[j]))
                    &&& p == seq![t.key as int] + #[trigger] w.push(anchor)
                };
            lemma_perms_membership(avail, d, w);
        }
    }
}

/// How many placements a closed permutation tree has: the falling factorial
/// of the number of candidates by the depth bound, each placement distinct.
/// With the depth bound at the number of candidates, that is its factorial.
pub proof fn lemma_placements_count<D>(t: Node<D>, avail: Seq<int>, d: nat, anchor: int)
    requires
        is_closed(t, avail, d, anchor),
        sorted_lt(avail),
    ensures
        placements_of(t).len() == falling(avail.len(), d),
        placements_of(t).no_duplicates(),
{
    lemma_closed_placements(t, avail, d, anchor);
    lemma_perms_len(avail, d);
    lemma_perms_nodup(avail, d);
    let ps = perms(avail, d);
    let wrapped = with_head(t.key as int, with_tail(anchor, ps));
    assert forall|t1: int, t2: int| 0 <= t1 < t2 < wrapped.len() implies wrapped[t1]
        != wrapped[t2] by {
        if wrapped[t1] == wrapped[t2] {
            assert(wrapped[t1] == seq![t.key as int] + ps[t1].push(anchor));
            assert(wrapped[t2] == seq![t.key as int] + ps[t2].push(anchor));
            assert(ps[t1].push(anchor) =~= wrapped[t1].drop_first());
            assert(ps[t2].push(anchor) =~= wrapped[t2].drop_first());
            assert(ps[t1] =~= ps[t1].push(anchor).drop_last());
            assert(ps[t2] =~= ps[t2].push(anchor).drop_last());
        }
    }
}

} // verus!
