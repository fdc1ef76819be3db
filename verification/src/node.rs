use vstd::prelude::*;

use crate::max::Max;
use crate::model::{
    all_vals, avail_of, ckeys, epaths, is_closed, is_leaf_val, is_matrix, is_perm_tree, iseq,
    key_at, keys_below, lemma_leaf_val_lift, kids_epaths, kids_min, kids_placements, kids_vpaths, lemma_kids_placements_snoc,
    lemma_nav, lemma_node_at_one, lemma_ok_at_lift, lemma_ok_compose, lemma_prefix_step,
    lemma_shape_compose, lemma_wp_concat,
    lemma_wp_empty, lemma_wp_head, lemma_wp_nil, lemma_wp_one, mat_view, node_at, ok_at,
    paths_view, placements_of, range_seq, shape_eq, sorted_lt, tree_min, val_at, valid_path,
    vpaths, with_head, with_prefix,
};
use crate::recalc::Recalc;
use vstd::std_specs::cmp::PartialOrdSpec;

verus! {

/// One node of the placement tree: an owned, ordered list of children, the
/// slot this node stands at, and the cached aggregate for the path from the
/// root down to this node.
pub struct Node<D> {
    pub children: Vec<Node<D>>,
    pub key: usize,
    pub val: D,
}

/// A fresh copy of a path.
fn copy_path(p: &Vec<usize>) -> (r: Vec<usize>)
    ensures
        r@ == p@,
{
    let mut r: Vec<usize> = Vec::new();
    let mut i: usize = 0;
    while i < p.len()
        invariant
            i <= p.len(),
            r@ == p@.take(i as int),
        decreases p.len() - i,
    {
        r.push(p[i]);
        proof {
            assert(p@.take(i as int).push(p@[i as int]) =~= p@.take(i as int + 1));
        }
        i = i + 1;
    }
    proof {
        assert(p@.take(p@.len() as int) =~= p@);
    }
    r
}

/// `all_vals` seen one level down: it holds exactly when every child carries
/// `m` and satisfies it in turn.
pub proof fn lemma_all_vals_unfold<D>(n: Node<D>, m: D)
    ensures
        all_vals(n, m) <==> forall|i: int|
            0 <= i < n.children@.len() ==> (#[trigger] n.children@[i]).val == m && all_vals(
                n.children@[i],
                m,
            ),
{
    if forall|i: int|
        0 <= i < n.children@.len() ==> (#[trigger] n.children@[i]).val == m && all_vals(
            n.children@[i],
            m,
        ) {
        assert forall|p: Seq<int>| #[trigger] valid_path(n, p) && p.len() > 0 implies val_at(
            n,
            p,
        ) == m by {
            let i = p[0];
            let rest = p.drop_first();
            assert(0 <= i < n.children@.len());
            assert(valid_path(n.children@[i], rest));
            assert(node_at(n, p) == node_at(n.children@[i], rest));
            if rest.len() > 0 {
                assert(val_at(n.children@[i], rest) == m);
            }
        }
        assert(all_vals(n, m));
    }
    if all_vals(n, m) {
        assert forall|i: int|
            0 <= i < n.children@.len() implies (#[trigger] n.children@[i]).val == m && all_vals(
            n.children@[i],
            m,
        ) by {
            lemma_node_at_one(n, i);
            assert(val_at(n, seq![i]) == m);
            assert forall|p: Seq<int>|
                #[trigger] valid_path(n.children@[i], p) && p.len() > 0 implies val_at(
                n.children@[i],
                p,
            ) == m by {
                lemma_nav(n, seq![i], p);
                assert(valid_path(n, seq![i] + p));
                assert((seq![i] + p).len() > 0);
                assert(val_at(n, seq![i] + p) == m);
            }
        }
    }
}

/// `keys_below` seen one level down.
pub proof fn lemma_keys_below_unfold<D>(n: Node<D>, bound: int)
    ensures
        keys_below(n, bound) <==> (n.key as int) < bound && forall|i: int|
            0 <= i < n.children@.len() ==> keys_below(#[trigger] n.children@[i], bound),
{
    if (n.key as int) < bound && forall|i: int|
        0 <= i < n.children@.len() ==> keys_below(#[trigger] n.children@[i], bound) {
        assert forall|p: Seq<int>| #[trigger] valid_path(n, p) implies key_at(n, p) < bound by {
            if p.len() > 0 {
                let i = p[0];
                let rest = p.drop_first();
                assert(0 <= i < n.children@.len());
                assert(valid_path(n.children@[i], rest));
                assert(node_at(n, p) == node_at(n.children@[i], rest));
            }
        }
    }
    if keys_below(n, bound) {
        assert(valid_path(n, Seq::<int>::empty()));
        assert forall|i: int| 0 <= i < n.children@.len() implies keys_below(
            #[trigger] n.children@[i],
            bound,
        ) by {
            assert forall|p: Seq<int>| #[trigger] valid_path(n.children@[i], p) implies key_at(
                n.children@[i],
                p,
            ) < bound by {
                lemma_node_at_one(n, i);
                lemma_nav(n, seq![i], p);
                assert(valid_path(n, seq![i] + p));
            }
        }
    }
}

/// A permutation tree determines its candidate list: it is the list of its
/// child keys (irrelevant when no levels remain).
pub proof fn lemma_perm_ckeys<D>(n: Node<D>, avail: Seq<int>, d: nat)
    requires
        is_perm_tree(n, avail, d),
    ensures
        is_perm_tree(n, ckeys(n), d),
        d > 0 ==> ckeys(n) == avail,
{
    if d > 0 {
        assert(ckeys(n) =~= avail);
    }
}

impl<D> Node<D> {
    /// A fresh childless node.
    fn new(key: usize, val: D) -> (t: Node<D>)
        ensures
            t.key == key,
            t.val == val,
            t.children@.len() == 0,
    {
        Node { children: Vec::new(), key, val }
    }

    /// A fresh childless node carrying the sentinel aggregate, destined to
    /// become a child of this node.
    fn child(&self, key: usize) -> (c: Node<D>) where D: Max
        ensures
            c.key == key,
            c.val == D::spec_max(),
            c.children@.len() == 0,
    {
        Node { children: Vec::new(), key, val: D::max() }
    }

    /// Insert the candidate slot `key` into every level of the tree down to
    /// depth `k`: every existing subtree learns the new candidate, and a new
    /// child for `key` adopts every previously known candidate, so that below
    /// any node exactly the candidates absent from its own path occur.
    ///
    /// Candidates must arrive in ascending order, so the new child lands at
    /// the end of the children list.
    fn insert(&mut self, key: usize, k: usize) where D: Max
        requires
            is_perm_tree(*old(self), ckeys(*old(self)), k as nat),
            sorted_lt(ckeys(*old(self))),
            forall|j: int| 0 <= j < ckeys(*old(self)).len() ==> ckeys(*old(self))[j] < key as int,
        ensures
            is_perm_tree(*final(self), ckeys(*old(self)).push(key as int), k as nat),
            final(self).key == old(self).key,
            final(self).val == old(self).val,
            all_vals(*old(self), D::spec_max()) ==> all_vals(*final(self), D::spec_max()),
        decreases k,
    {
        if k > 0 {
            let ghost a = ckeys(*old(self));
            let mut node = self.child(key);
            let n0 = self.children.len();
            proof {
                assert(n0 == a.len());
                assert forall|j: int| 0 <= j < n0 implies (#[trigger] self.children@[j]).key
                    as int == a[j] by {}
            }
            let mut i: usize = 0;
            while i < n0
                invariant
                    i <= n0,
                    n0 == self.children.len(),
                    n0 == a.len(),
                    a == ckeys(*old(self)),
                    is_perm_tree(*old(self), a, k as nat),
                    sorted_lt(a),
                    forall|j: int| 0 <= j < a.len() ==> a[j] < key as int,
                    self.key == old(self).key,
                    self.val == old(self).val,
                    k > 0,
                    forall|j: int|
                        i <= j < n0 ==> self.children@[j] == old(self).children@[j],
                    forall|j: int|
                        0 <= j < i ==> (#[trigger] self.children@[j]).key
                            == old(self).children@[j].key && self.children@[j].val == old(
                            self,
                        ).children@[j].val && is_perm_tree(
                            self.children@[j],
                            a.remove(j).push(key as int),
                            (k - 1) as nat,
                        ) && (all_vals(old(self).children@[j], D::spec_max()) ==> all_vals(
                            self.children@[j],
                            D::spec_max(),
                        )),
                    node.key == key,
                    node.val == D::spec_max(),
                    is_perm_tree(node, a.take(i as int), (k - 1) as nat),
                    all_vals(node, D::spec_max()),
                decreases n0 - i,
            {
                let ghost ii = i as int;
                proof {
                    assert(is_perm_tree(old(self).children@[ii], a.remove(ii), (k - 1) as nat));
                    lemma_perm_ckeys(old(self).children@[ii], a.remove(ii), (k - 1) as nat);
                    assert(decreases_to!(*old(self) => old(self).children));
                    assert(decreases_to!(old(self).children => old(self).children@));
                    assert(decreases_to!(old(self).children@ => old(self).children@[ii]));
                }
                self.children[i].insert(key, k - 1);
                let ck = self.children[i].key;
                proof {
                    assert(ck as int == a[ii]);
                    lemma_perm_ckeys(node, a.take(ii), (k - 1) as nat);
                    if k - 1 > 0 {
                        assert(ckeys(node) == a.take(ii));
                    } else {
                        assert(node.children@.len() == 0);
                        assert(ckeys(node) =~= Seq::<int>::empty());
                        assert(ckeys(node) =~= a.take(ii).take(0));
                        assert(is_perm_tree(node, ckeys(node), (k - 1) as nat));
                    }
                }
                node.insert(ck, k - 1);
                proof {
                    assert(a.take(ii).push(a[ii]) =~= a.take(ii + 1));
                    // the updated existing child
                    if k - 1 == 0 {
                        assert(is_perm_tree(
                            self.children@[ii],
                            a.remove(ii).push(key as int),
                            (k - 1) as nat,
                        ));
                    } else {
                        assert(ckeys(old(self).children@[ii]) == a.remove(ii));
                    }
                }
                i = i + 1;
            }
            self.children.push(node);
            proof {
                let af = a.push(key as int);
                assert(a.take(n0 as int) =~= a);
                assert(self.children@.len() == af.len());
                assert forall|j: int|
                    0 <= j < af.len() implies (#[trigger] self.children@[j]).key as int == af[j]
                        && is_perm_tree(self.children@[j], af.remove(j), (k - 1) as nat) by {
                    if j < n0 {
                        assert(af.remove(j) =~= a.remove(j).push(key as int));
                    } else {
                        assert(af.remove(j) =~= a);
                    }
                }
                assert(is_perm_tree(*self, af, k as nat));
                // aggregate sentinel preservation
                if all_vals(*old(self), D::spec_max()) {
                    lemma_all_vals_unfold(*old(self), D::spec_max());
                    assert forall|j: int|
                        0 <= j < self.children@.len() implies (#[trigger] self.children@[j]).val
                            == D::spec_max() && all_vals(self.children@[j], D::spec_max()) by {
                        if j < n0 {
                            assert(all_vals(old(self).children@[j], D::spec_max()));
                        }
                    }
                    lemma_all_vals_unfold(*self, D::spec_max());
                }
            }
        } else {
            proof {
                assert(old(self).children@.len() == 0);
                assert(is_perm_tree(*self, ckeys(*old(self)).push(key as int), 0));
                if all_vals(*old(self), D::spec_max()) {
                }
            }
        }
    }

    /// Close every open path of a permutation tree with a single leaf at the
    /// anchor slot `key`, so that every root-to-leaf path ends at the anchor.
    fn finish(&mut self, key: usize, Ghost(avail): Ghost<Seq<int>>, Ghost(d): Ghost<nat>) where
        D: Max,

        requires
            is_perm_tree(*old(self), avail, d),
        ensures
            is_closed(*final(self), avail, d, key as int),
            final(self).key == old(self).key,
            final(self).val == old(self).val,
            all_vals(*old(self), D::spec_max()) ==> all_vals(*final(self), D::spec_max()),
        decreases d,
    {
        if self.children.len() == 0 {
            let c = self.child(key);
            let ghost cg = c;
            self.children.push(c);
            proof {
                assert(d == 0 || avail.len() == 0);
                lemma_all_vals_unfold(cg, D::spec_max());
                lemma_all_vals_unfold(*self, D::spec_max());
            }
        } else {
            let ghost dd = (d - 1) as nat;
            let n0 = self.children.len();
            proof {
                assert(d > 0 && avail.len() == n0);
            }
            let mut i: usize = 0;
            while i < n0
                invariant
                    i <= n0,
                    n0 == self.children.len(),
                    n0 == avail.len(),
                    d > 0,
                    dd == (d - 1) as nat,
                    is_perm_tree(*old(self), avail, d),
                    self.key == old(self).key,
                    self.val == old(self).val,
                    forall|j: int| i <= j < n0 ==> self.children@[j] == old(self).children@[j],
                    forall|j: int|
                        0 <= j < i ==> (#[trigger] self.children@[j]).key == old(
                            self,
                        ).children@[j].key && self.children@[j].val == old(self).children@[j].val
                            && is_closed(self.children@[j], avail.remove(j), dd, key as int) && (
                        all_vals(old(self).children@[j], D::spec_max()) ==> all_vals(
                            self.children@[j],
                            D::spec_max(),
                        )),
                decreases n0 - i,
            {
                let ghost ii = i as int;
                proof {
                    assert(is_perm_tree(old(self).children@[ii], avail.remove(ii), dd));
                    assert(decreases_to!(*old(self) => old(self).children));
                }
                self.children[i].finish(key, Ghost(avail.remove(i as int)), Ghost(dd));
                i = i + 1;
            }
            proof {
                assert(is_closed(*self, avail, d, key as int));
                if all_vals(*old(self), D::spec_max()) {
                    lemma_all_vals_unfold(*old(self), D::spec_max());
                    lemma_all_vals_unfold(*self, D::spec_max());
                }
            }
        }
    }

    /// Build the whole placement tree for a universe of `n + 1` slots: below
    /// a root at the anchor slot `key`, one shared-prefix subtree for every
    /// duplicate-free sequence of at most `min(k, n)` non-anchor slots, each
    /// path closed by a trailing anchor leaf. The root carries `val`; every
    /// other node starts at the sentinel aggregate.
    pub fn root(n: usize, k: usize, key: usize, val: D) -> (t: Node<D>) where D: Max
        requires
            key <= n,
            n < usize::MAX,
        ensures
            is_closed(
                t,
                avail_of(n as int, key as int),
                (if k <= n { k } else { n }) as nat,
                key as int,
            ),
            t.key == key,
            t.val == val,
            all_vals(t, D::spec_max()),
    {
        let kp: usize = if k <= n { k } else { n };
        let mut t = Node::new(key, val);
        proof {
            assert(ckeys(t) =~= Seq::<int>::empty());
            assert(is_perm_tree(t, ckeys(t), kp as nat));
            lemma_all_vals_unfold(t, D::spec_max());
        }
        let mut c: usize = 0;
        while c < key
            invariant
                c <= key <= n < usize::MAX,
                t.key == key,
                t.val == val,
                is_perm_tree(t, ckeys(t), kp as nat),
                kp > 0 ==> ckeys(t) == range_seq(0, c as int),
                kp == 0 ==> ckeys(t).len() == 0,
                all_vals(t, D::spec_max()),
            decreases key - c,
        {
            let ghost pre = ckeys(t);
            t.insert(c, kp);
            proof {
                lemma_perm_ckeys(t, pre.push(c as int), kp as nat);
                if kp > 0 {
                    assert(range_seq(0, c as int).push(c as int) =~= range_seq(0, c as int + 1));
                }
            }
            c = c + 1;
        }
        let mut c: usize = key + 1;
        while c <= n
            invariant
                key < c <= n + 1,
                key <= n < usize::MAX,
                t.key == key,
                t.val == val,
                is_perm_tree(t, ckeys(t), kp as nat),
                kp > 0 ==> ckeys(t) == range_seq(0, key as int) + range_seq(
                    key as int + 1,
                    c as int,
                ),
                kp == 0 ==> ckeys(t).len() == 0,
                all_vals(t, D::spec_max()),
            decreases n + 1 - c,
        {
            let ghost pre = ckeys(t);
            t.insert(c, kp);
            proof {
                lemma_perm_ckeys(t, pre.push(c as int), kp as nat);
                if kp > 0 {
                    assert(pre.push(c as int) =~= range_seq(0, key as int) + range_seq(
                        key as int + 1,
                        c as int + 1,
                    ));
                }
            }
            c = c + 1;
        }
        proof {
            let av = avail_of(n as int, key as int);
            if kp > 0 {
                assert(ckeys(t) == av);
            }
            assert(is_perm_tree(t, av, kp as nat));
        }
        t.finish(key, Ghost(avail_of(n as int, key as int)), Ghost(kp as nat));
        t
    }

    /// Every root-to-leaf key sequence of this tree, in child order.
    pub fn placements(&self) -> (ps: Vec<Vec<usize>>)
        ensures
            paths_view(ps@) == placements_of(*self),
        decreases *self,
    {
        let mut ps: Vec<Vec<usize>> = Vec::new();
        if self.children.len() == 0 {
            let mut p: Vec<usize> = Vec::new();
            p.push(self.key);
            ps.push(p);
            proof {
                assert(paths_view(ps@) =~~= seq![seq![self.key as int]]);
            }
        } else {
            let kk = self.key;
            let n0 = self.children.len();
            proof {
                assert(self.children@.take(0) =~= Seq::<Node<D>>::empty());
                assert(kids_placements(self.children@.take(0)) =~= Seq::<Seq<int>>::empty());
                assert(paths_view(ps@) =~~= with_head(
                    kk as int,
                    kids_placements(self.children@.take(0)),
                ));
            }
            let mut i: usize = 0;
            while i < n0
                invariant
                    i <= n0,
                    n0 == self.children@.len(),
                    kk == self.key,
                    paths_view(ps@) == with_head(
                        kk as int,
                        kids_placements(self.children@.take(i as int)),
                    ),
                decreases n0 - i,
            {
                proof {
                    assert(decreases_to!(*self => self.children));
                    assert(decreases_to!(self.children => self.children@));
                    assert(decreases_to!(self.children@ => self.children@[i as int]));
                }
                let sub = self.children[i].placements();
                let ghost subv = placements_of(self.children@[i as int]);
                let ghost base = paths_view(ps@);
                let mut j: usize = 0;
                while j < sub.len()
                    invariant
                        j <= sub.len(),
                        paths_view(sub@) == subv,
                        kk == self.key,
                        paths_view(ps@) == base + with_head(kk as int, subv.take(j as int)),
                    decreases sub.len() - j,
                {
                    let ghost jj = j as int;
                    let mut p = copy_path(&sub[j]);
                    p.insert(0, kk);
                    proof {
                        assert(iseq(p@) =~= seq![kk as int] + iseq(sub@[jj]@));
                        assert(iseq(sub@[jj]@) == subv[jj]);
                    }
                    let ghost pre = ps@;
                    ps.push(p);
                    proof {
                        assert(paths_view(pre.push(p)) =~= paths_view(pre).push(iseq(p@)));
                        assert(subv.take(jj + 1) =~= subv.take(jj).push(subv[jj]));
                        assert(with_head(kk as int, subv.take(jj).push(subv[jj])) =~= with_head(
                            kk as int,
                            subv.take(jj),
                        ).push(seq![kk as int] + subv[jj]));
                        assert((base + with_head(kk as int, subv.take(jj))).push(
                            seq![kk as int] + subv[jj],
                        ) =~= base + with_head(kk as int, subv.take(jj)).push(
                            seq![kk as int] + subv[jj],
                        ));
                    }
                    j = j + 1;
                }
                proof {
                    assert(subv.take(subv.len() as int) =~= subv);
                    lemma_kids_placements_snoc(self.children@, i as int);
                    assert(with_head(
                        kk as int,
                        kids_placements(self.children@.take(i as int)) + subv,
                    ) =~~= with_head(kk as int, kids_placements(self.children@.take(i as int)))
                        + with_head(kk as int, subv));
                }
                i = i + 1;
            }
            proof {
                assert(self.children@.take(n0 as int) =~= self.children@);
            }
        }
        ps
    }

    /// Record, under each slot, the path of every node of this tree that
    /// stands at that slot and has children, appending to the given lists in
    /// preorder.
    pub fn fill_vertices(&self, idx: &mut Vec<Vec<Vec<usize>>>)
        requires
            keys_below(*self, old(idx)@.len() as int),
        ensures
            final(idx)@.len() == old(idx)@.len(),
            forall|s: int|
                0 <= s < old(idx)@.len() ==> paths_view((#[trigger] final(idx)@[s])@)
                    == paths_view(old(idx)@[s]@) + vpaths(*self, s),
    {
        let path: Vec<usize> = Vec::new();
        self.fill_vertices_from(idx, &path);
        proof {
            assert(iseq(path@) =~= Seq::<int>::empty());
            assert forall|s: int| 0 <= s < old(idx)@.len() implies paths_view(
                (#[trigger] idx@[s])@,
            ) == paths_view(old(idx)@[s]@) + vpaths(*self, s) by {
                lemma_wp_nil(vpaths(*self, s));
            }
        }
    }

    /// The recursive worker behind `fill_vertices`: `path` addresses this
    /// node from the root whose index is being built.
    fn fill_vertices_from(&self, idx: &mut Vec<Vec<Vec<usize>>>, path: &Vec<usize>)
        requires
            keys_below(*self, old(idx)@.len() as int),
        ensures
            final(idx)@.len() == old(idx)@.len(),
            forall|s: int|
                0 <= s < old(idx)@.len() ==> paths_view((#[trigger] final(idx)@[s])@)
                    == paths_view(old(idx)@[s]@) + with_prefix(iseq(path@), vpaths(*self, s)),
        decreases *self,
    {
        let ghost pa = iseq(path@);
        let ghost m = old(idx)@.len() as int;
        proof {
            assert(valid_path(*self, Seq::<int>::empty()));
        }
        if self.children.len() > 0 {
            let p = copy_path(path);
            idx[self.key].push(p);
        }
        let n0 = self.children.len();
        proof {
            assert forall|s: int| 0 <= s < m implies paths_view(old(idx)@[s]@) + with_prefix(
                pa,
                vpaths(*self, s),
            ) == paths_view(idx@[s]@) + with_prefix(
                pa,
                kids_vpaths(self.children@, s, 0),
            ) by {
                lemma_wp_concat(
                    pa,
                    if self.key as int == s && self.children@.len() > 0 {
                        seq![Seq::<int>::empty()]
                    } else {
                        Seq::empty()
                    },
                    kids_vpaths(self.children@, s, 0),
                );
                if self.key as int == s && n0 > 0 {
                    lemma_wp_one(pa, Seq::<int>::empty());
                    assert(pa + Seq::<int>::empty() =~= pa);
                    assert(paths_view(idx@[s]@) =~~= paths_view(old(idx)@[s]@).push(pa));
                    assert(paths_view(old(idx)@[s]@) + seq![pa] =~= paths_view(
                        old(idx)@[s]@,
                    ).push(pa));
                } else {
                    lemma_wp_empty(pa);
                }
            }
        }
        let mut i: usize = 0;
        while i < n0
            invariant
                i <= n0,
                n0 == self.children@.len(),
                idx@.len() == m,
                m == old(idx)@.len() as int,
                keys_below(*self, m),
                pa == iseq(path@),
                forall|s: int|
                    0 <= s < m ==> paths_view(old(idx)@[s]@) + with_prefix(pa, vpaths(*self, s))
                        == paths_view((#[trigger] idx@[s])@) + with_prefix(
                        pa,
                        kids_vpaths(self.children@, s, i as int),
                    ),
            decreases n0 - i,
        {
            let ghost ii = i as int;
            let mut p2 = copy_path(path);
            p2.push(i);
            proof {
                assert(iseq(p2@) =~= pa.push(ii));
                lemma_keys_below_unfold(*self, m);
                assert(decreases_to!(*self => self.children));
                assert(decreases_to!(self.children => self.children@));
                assert(decreases_to!(self.children@ => self.children@[ii]));
            }
            let ghost mid = *idx;
            self.children[i].fill_vertices_from(idx, &p2);
            proof {
                assert forall|s: int| 0 <= s < m implies paths_view(old(idx)@[s]@) + with_prefix(
                    pa,
                    vpaths(*self, s),
                ) == paths_view((#[trigger] idx@[s])@) + with_prefix(
                    pa,
                    kids_vpaths(self.children@, s, ii + 1),
                ) by {
                    assert(paths_view(idx@[s]@) == paths_view(mid@[s]@) + with_prefix(
                        pa.push(ii),
                        vpaths(self.children@[ii], s),
                    ));
                    assert(kids_vpaths(self.children@, s, ii) == with_head(
                        ii,
                        vpaths(self.children@[ii], s),
                    ) + kids_vpaths(self.children@, s, ii + 1));
                    lemma_wp_concat(
                        pa,
                        with_head(ii, vpaths(self.children@[ii], s)),
                        kids_vpaths(self.children@, s, ii + 1),
                    );
                    lemma_wp_head(pa, ii, vpaths(self.children@[ii], s));
                    assert(paths_view(mid@[s]@) + (with_prefix(
                        pa.push(ii),
                        vpaths(self.children@[ii], s),
                    ) + with_prefix(pa, kids_vpaths(self.children@, s, ii + 1))) =~= (paths_view(
                        mid@[s]@,
                    ) + with_prefix(pa.push(ii), vpaths(self.children@[ii], s))) + with_prefix(
                        pa,
                        kids_vpaths(self.children@, s, ii + 1),
                    ));
                }
            }
            i = i + 1;
        }
        proof {
            assert forall|s: int| 0 <= s < m implies paths_view((#[trigger] idx@[s])@)
                == paths_view(old(idx)@[s]@) + with_prefix(pa, vpaths(*self, s)) by {
                assert(kids_vpaths(self.children@, s, n0 as int) == Seq::<Seq<int>>::empty());
                lemma_wp_empty(pa);
                assert(paths_view(idx@[s]@) + Seq::<Seq<int>>::empty() =~= paths_view(idx@[s]@));
            }
        }
    }

    /// Record, under each ordered slot pair, the path of every node of this
    /// tree that takes that transition from its parent, appending to the
    /// given lists in preorder.
    pub fn fill_edges(&self, idx: &mut Vec<Vec<Vec<Vec<usize>>>>)
        requires
            keys_below(*self, old(idx)@.len() as int),
            forall|a: int|
                0 <= a < old(idx)@.len() ==> (#[trigger] old(idx)@[a])@.len() == old(idx)@.len(),
        ensures
            final(idx)@.len() == old(idx)@.len(),
            forall|a: int|
                0 <= a < old(idx)@.len() ==> (#[trigger] final(idx)@[a])@.len() == old(idx)@.len(),
            forall|a: int, b: int|
                0 <= a < old(idx)@.len() && 0 <= b < old(idx)@.len() ==> paths_view(
                    (#[trigger] final(idx)@[a]@[b])@,
                ) == paths_view(old(idx)@[a]@[b]@) + epaths(*self, a, b),
    {
        let path: Vec<usize> = Vec::new();
        self.fill_edges_from(idx, &path);
        proof {
            assert(iseq(path@) =~= Seq::<int>::empty());
            assert forall|a: int, b: int|
                0 <= a < old(idx)@.len() && 0 <= b < old(idx)@.len() implies paths_view(
                (#[trigger] idx@[a]@[b])@,
            ) == paths_view(old(idx)@[a]@[b]@) + epaths(*self, a, b) by {
                lemma_wp_nil(epaths(*self, a, b));
            }
        }
    }

    /// Recompute every subtree rooted in `cs` below a parent at slot `pk`
    /// carrying the aggregate `pv`, and return the running minimum of the
    /// recomputed leaf aggregates, left to right.
    fn recalc_vec<V, E>(
        cs: &mut Vec<Node<D>>,
        pk: usize,
        pv: &D,
        vertices: &Vec<V>,
        edges: &Vec<Vec<E>>,
    ) -> (m: D) where D: Recalc<V, E> + PartialOrd
        requires
            old(cs)@.len() > 0,
            (pk as int) < vertices@.len(),
            is_matrix(mat_view(*edges), vertices@.len() as int),
            forall|j: int|
                0 <= j < old(cs)@.len() ==> keys_below(
                    #[trigger] old(cs)@[j],
                    vertices@.len() as int,
                ),
        ensures
            final(cs)@.len() == old(cs)@.len(),
            forall|j: int|
                0 <= j < old(cs)@.len() ==> shape_eq(#[trigger] final(cs)@[j], old(cs)@[j]),
            forall|j: int|
                0 <= j < old(cs)@.len() ==> (#[trigger] final(cs)@[j]).val == pv.spec_recalc(
                    vertices@[pk as int],
                    mat_view(*edges)[pk as int][old(cs)@[j].key as int],
                ),
            forall|j: int, p: Seq<int>|
                0 <= j < old(cs)@.len() && #[trigger] valid_path(#[trigger] final(cs)@[j], p)
                    && p.len() > 0 ==> ok_at(final(cs)@[j], p, vertices@, mat_view(*edges)),
            D::obeys_partial_cmp_spec() ==> m == kids_min(final(cs)@),
            exists|j: int|
                0 <= j < old(cs)@.len() && #[trigger] is_leaf_val(final(cs)@[j], m),
        decreases *old(cs), 0nat,
    {
        let ghost n0 = old(cs)@.len();
        proof {
            assert(decreases_to!(*old(cs) => old(cs)@));
            assert(decreases_to!(old(cs)@ => old(cs)@[0]));
        }
        let mut m = cs[0].recalc_from(pk, pv, vertices, edges);
        let len = cs.len();
        let mut i: usize = 1;
        while i < len
            invariant
                1 <= i <= len,
                len == cs@.len(),
                n0 == old(cs)@.len(),
                len == n0,
                (pk as int) < vertices@.len(),
                is_matrix(mat_view(*edges), vertices@.len() as int),
                forall|j: int|
                    0 <= j < n0 ==> keys_below(#[trigger] old(cs)@[j], vertices@.len() as int),
                forall|j: int| i <= j < n0 ==> cs@[j] == old(cs)@[j],
                forall|j: int| 0 <= j < i ==> shape_eq(#[trigger] cs@[j], old(cs)@[j]),
                forall|j: int|
                    0 <= j < i ==> (#[trigger] cs@[j]).val == pv.spec_recalc(
                        vertices@[pk as int],
                        mat_view(*edges)[pk as int][old(cs)@[j].key as int],
                    ),
                forall|j: int, p: Seq<int>|
                    0 <= j < i && #[trigger] valid_path(#[trigger] cs@[j], p) && p.len() > 0
                        ==> ok_at(cs@[j], p, vertices@, mat_view(*edges)),
                D::obeys_partial_cmp_spec() ==> m == kids_min(cs@.take(i as int)),
                exists|j: int| 0 <= j < i && #[trigger] is_leaf_val(cs@[j], m),
            decreases len - i,
        {
            let ghost ii = i as int;
            let ghost snap = cs@;
            proof {
                assert(decreases_to!(*old(cs) => old(cs)@));
                assert(decreases_to!(old(cs)@ => old(cs)@[ii]));
            }
            let ghost mpre = m;
            let x = cs[i].recalc_from(pk, pv, vertices, edges);
            proof {
                assert(forall|j: int| 0 <= j < n0 && j != ii ==> cs@[j] == snap[j]);
                let w = choose|w: int| 0 <= w < ii && #[trigger] is_leaf_val(snap[w], mpre);
                assert(is_leaf_val(cs@[w], mpre));
                assert(is_leaf_val(cs@[ii], x));
                if D::obeys_partial_cmp_spec() {
                    assert(cs@.take(ii) =~= snap.take(ii));
                    assert(cs@.take(ii + 1).drop_last() =~= cs@.take(ii));
                    assert(cs@.take(ii + 1).last() == cs@[ii]);
                    assert(x == tree_min(cs@[ii]));
                }
            }
            if x.lt(&m) {
                m = x;
            }
            i = i + 1;
        }
        proof {
            assert(cs@.take(n0 as int) =~= cs@);
        }
        m
    }

    /// Recompute this node's aggregate from its parent's slot `pk` and
    /// aggregate `pv`, recompute its whole subtree the same way, and return
    /// the running minimum of the subtree's recomputed leaf aggregates.
    fn recalc_from<V, E>(
        &mut self,
        pk: usize,
        pv: &D,
        vertices: &Vec<V>,
        edges: &Vec<Vec<E>>,
    ) -> (m: D) where D: Recalc<V, E> + PartialOrd
        requires
            keys_below(*old(self), vertices@.len() as int),
            (pk as int) < vertices@.len(),
            is_matrix(mat_view(*edges), vertices@.len() as int),
        ensures
            shape_eq(*final(self), *old(self)),
            final(self).val == pv.spec_recalc(
                vertices@[pk as int],
                mat_view(*edges)[pk as int][old(self).key as int],
            ),
            forall|p: Seq<int>|
                #[trigger] valid_path(*final(self), p) && p.len() > 0 ==> ok_at(
                    *final(self),
                    p,
                    vertices@,
                    mat_view(*edges),
                ),
            D::obeys_partial_cmp_spec() ==> m == tree_min(*final(self)),
            is_leaf_val(*final(self), m),
        decreases *old(self), 1nat,
    {
        proof {
            assert(valid_path(*old(self), Seq::<int>::empty()));
            assert(mat_view(*edges)[pk as int] == edges@[pk as int]@);
        }
        let v = pv.recalc(&vertices[pk], &edges[pk][self.key]);
        self.val = v;
        if self.children.len() == 0 {
            let m = pv.recalc(&vertices[pk], &edges[pk][self.key]);
            proof {
                lemma_shape_compose(*self, *old(self));
                assert forall|p: Seq<int>|
                    #[trigger] valid_path(*self, p) && p.len() > 0 implies ok_at(
                    *self,
                    p,
                    vertices@,
                    mat_view(*edges),
                ) by {}
                assert(valid_path(*self, Seq::<int>::empty()));
                assert(is_leaf_val(*self, m));
            }
            m
        } else {
            let ghost before = *self;
            let k = self.key;
            proof {
                lemma_keys_below_unfold(*old(self), vertices@.len() as int);
                assert(decreases_to!(*old(self) => old(self).children));
                assert(old(self).children == before.children);
            }
            let m = Self::recalc_vec(&mut self.children, k, &self.val, vertices, edges);
            proof {
                lemma_shape_compose(*self, *old(self));
                assert forall|j: int| 0 <= j < self.children@.len() implies (
                #[trigger] self.children@[j]).val == self.val.spec_recalc(
                    vertices@[self.key as int],
                    mat_view(*edges)[self.key as int][self.children@[j].key as int],
                ) by {
                    crate::model::lemma_shape_same_key(self.children@[j], before.children@[j]);
                }
                lemma_ok_compose(*self, vertices@, mat_view(*edges));
                let w = choose|w: int|
                    0 <= w < self.children@.len() && #[trigger] is_leaf_val(self.children@[w], m);
                lemma_leaf_val_lift(*self, w, m);
            }
            m
        }
    }

    /// Walk down along `path` from position `at` and recompute the whole
    /// subtree of the node the path ends at, starting from its parent's
    /// aggregate; everything off that subtree keeps its aggregate.
    pub(crate) fn recalc_at<V, E>(
        &mut self,
        path: &Vec<usize>,
        at: usize,
        vertices: &Vec<V>,
        edges: &Vec<Vec<E>>,
    ) -> (m: D) where D: Recalc<V, E> + PartialOrd
        requires
            at < path@.len(),
            valid_path(*old(self), iseq(path@).skip(at as int)),
            keys_below(*old(self), vertices@.len() as int),
            is_matrix(mat_view(*edges), vertices@.len() as int),
        ensures
            shape_eq(*final(self), *old(self)),
            final(self).val == old(self).val,
            final(self).key == old(self).key,
            forall|p: Seq<int>|
                #[trigger] valid_path(*old(self), p) && !iseq(path@).skip(at as int).is_prefix_of(
                    p,
                ) ==> val_at(*final(self), p) == val_at(*old(self), p),
            forall|p: Seq<int>|
                #[trigger] valid_path(*old(self), p) && !iseq(path@).skip(at as int).is_prefix_of(
                    p,
                ) && !p.is_prefix_of(iseq(path@).skip(at as int)) ==> node_at(*final(self), p)
                    == node_at(*old(self), p),
            forall|p: Seq<int>|
                #[trigger] valid_path(*final(self), p) && iseq(path@).skip(at as int).is_prefix_of(
                    p,
                ) ==> ok_at(*final(self), p, vertices@, mat_view(*edges)),
            D::obeys_partial_cmp_spec() ==> m == tree_min(
                node_at(*final(self), iseq(path@).skip(at as int)),
            ),
            is_leaf_val(node_at(*final(self), iseq(path@).skip(at as int)), m),
        decreases path@.len() - at,
    {
        let ghost q = iseq(path@).skip(at as int);
        let ghost vs = vertices@;
        let ghost es = mat_view(*edges);
        let i = path[at];
        proof {
            assert(q[0] == i as int);
            assert(q.drop_first() =~= iseq(path@).skip(at as int + 1));
            assert(0 <= q[0] < old(self).children@.len());
            assert(valid_path(old(self).children@[i as int], q.drop_first()));
            lemma_keys_below_unfold(*old(self), vs.len() as int);
            assert(valid_path(*old(self), Seq::<int>::empty()));
            assert(decreases_to!(*old(self) => old(self).children));
            assert(decreases_to!(old(self).children => old(self).children@));
            assert(decreases_to!(old(self).children@ => old(self).children@[i as int]));
        }
        let plen = path.len();
        proof {
            assert(at < plen);
        }
        let m: D;
        if at + 1 == plen {
            proof {
                assert(q =~= seq![i as int]);
            }
            let k = self.key;
            m = self.children[i].recalc_from(k, &self.val, vertices, edges);
        } else {
            m = self.children[i].recalc_at(path, at + 1, vertices, edges);
        }
        proof {
            let a = *self;
            let b = *old(self);
            let ii = i as int;
            let fc = a.children@[ii];
            let oc = b.children@[ii];
            assert(a.children@.len() == b.children@.len());
            assert forall|j: int| 0 <= j < a.children@.len() implies shape_eq(
                #[trigger] a.children@[j],
                b.children@[j],
            ) by {
                if j != ii {
                    assert(a.children@[j] == b.children@[j]);
                }
            }
            lemma_shape_compose(a, b);
            crate::model::lemma_shape_same_key(fc, oc);
            // aggregates off the recomputed subtree are untouched
            assert forall|p: Seq<int>| #[trigger] valid_path(b, p) && !q.is_prefix_of(
                p,
            ) implies val_at(a, p) == val_at(b, p) by {
                lemma_prefix_step(q, p);
                if p.len() > 0 {
                    let rest = p.drop_first();
                    assert(valid_path(b.children@[p[0]], rest));
                    assert(node_at(a, p) == node_at(a.children@[p[0]], rest));
                    assert(node_at(b, p) == node_at(b.children@[p[0]], rest));
                    if p[0] != ii {
                        assert(a.children@[p[0]] == b.children@[p[0]]);
                    } else {
                        if at + 1 == path@.len() {
                            assert(q.is_prefix_of(p));
                        } else {
                            assert(!q.drop_first().is_prefix_of(rest));
                            assert(val_at(fc, rest) == val_at(oc, rest));
                        }
                    }
                }
            }
            // whole nodes off the walked-to subtree are untouched
            assert forall|p: Seq<int>| #[trigger] valid_path(b, p) && !q.is_prefix_of(p)
                && !p.is_prefix_of(q) implies node_at(a, p) == node_at(b, p) by {
                assert(p.len() > 0) by {
                    if p.len() == 0 {
                        assert(p =~= q.subrange(0, 0));
                        assert(p.is_prefix_of(q));
                    }
                }
                lemma_prefix_step(q, p);
                let rest = p.drop_first();
                assert(valid_path(b.children@[p[0]], rest));
                assert(node_at(a, p) == node_at(a.children@[p[0]], rest));
                assert(node_at(b, p) == node_at(b.children@[p[0]], rest));
                if p[0] == ii {
                    if at + 1 == path@.len() {
                        assert(q.drop_first() =~= Seq::<int>::empty());
                        assert(q.drop_first().is_prefix_of(rest)) by {
                            assert(q.drop_first() =~= rest.subrange(0, 0));
                        }
                        assert(false);
                    } else {
                        lemma_prefix_step(p, q);
                        assert(!rest.is_prefix_of(q.drop_first()));
                        assert(node_at(fc, rest) == node_at(oc, rest));
                    }
                }
            }
            // everything on the recomputed subtree is consistent
            assert forall|p: Seq<int>| #[trigger] valid_path(a, p) && q.is_prefix_of(
                p,
            ) implies ok_at(a, p, vs, es) by {
                lemma_prefix_step(q, p);
                let rest = p.drop_first();
                assert(valid_path(fc, rest));
                if at + 1 == path@.len() {
                    if rest.len() == 0 {
                        assert(p =~= seq![ii]);
                        lemma_node_at_one(a, ii);
                        assert(p.drop_last() =~= Seq::<int>::empty());
                        assert(fc.val == a.val.spec_recalc(vs[a.key as int], es[a.key as int][oc.key as int]));
                        assert(key_at(a, p) == fc.key as int);
                    } else {
                        assert(ok_at(fc, rest, vs, es));
                        lemma_ok_at_lift(a, ii, rest, vs, es);
                        assert(seq![ii] + rest =~= p);
                    }
                } else {
                    assert(rest.len() > 0);
                    assert(ok_at(fc, rest, vs, es));
                    lemma_ok_at_lift(a, ii, rest, vs, es);
                    assert(seq![ii] + rest =~= p);
                }
            }
            // the reported minimum speaks of the recomputed subtree
            if at + 1 == path@.len() {
                lemma_node_at_one(a, ii);
            } else {
                lemma_node_at_one(a, ii);
                lemma_nav(a, seq![ii], q.drop_first());
                assert(seq![ii] + q.drop_first() =~= q);
            }
        }
        m
    }

    /// Recompute the whole subtree of every child of this node, leaving this
    /// node's own aggregate untouched, and return the running minimum of the
    /// recomputed leaf aggregates below it.
    pub fn recalc_children<V, E>(&mut self, vertices: &Vec<V>, edges: &Vec<Vec<E>>) -> (m: D) where
        D: Recalc<V, E> + PartialOrd,

        requires
            old(self).children@.len() > 0,
            keys_below(*old(self), vertices@.len() as int),
            is_matrix(mat_view(*edges), vertices@.len() as int),
        ensures
            shape_eq(*final(self), *old(self)),
            final(self).val == old(self).val,
            final(self).key == old(self).key,
            forall|p: Seq<int>|
                #[trigger] valid_path(*final(self), p) && p.len() > 0 ==> ok_at(
                    *final(self),
                    p,
                    vertices@,
                    mat_view(*edges),
                ),
            D::obeys_partial_cmp_spec() ==> m == tree_min(*final(self)),
            is_leaf_val(*final(self), m),
    {
        proof {
            assert(valid_path(*old(self), Seq::<int>::empty()));
            lemma_keys_below_unfold(*old(self), vertices@.len() as int);
        }
        let k = self.key;
        let m = Self::recalc_vec(&mut self.children, k, &self.val, vertices, edges);
        proof {
            lemma_shape_compose(*self, *old(self));
            assert forall|j: int| 0 <= j < self.children@.len() implies (
            #[trigger] self.children@[j]).val == self.val.spec_recalc(
                vertices@[self.key as int],
                mat_view(*edges)[self.key as int][self.children@[j].key as int],
            ) by {
                crate::model::lemma_shape_same_key(self.children@[j], old(self).children@[j]);
            }
            lemma_ok_compose(*self, vertices@, mat_view(*edges));
            let w = choose|w: int|
                0 <= w < self.children@.len() && #[trigger] is_leaf_val(self.children@[w], m);
            lemma_leaf_val_lift(*self, w, m);
        }
        m
    }

    /// Recompute this node's whole subtree, treating this node as the fixed
    /// starting point whose own aggregate is not derived from anything, and
    /// return the running minimum of the recomputed leaf aggregates.
    pub fn recalc<V, E>(&mut self, vertices: &Vec<V>, edges: &Vec<Vec<E>>) -> (m: D) where
        D: Recalc<V, E> + PartialOrd,

        requires
            old(self).children@.len() > 0,
            keys_below(*old(self), vertices@.len() as int),
            is_matrix(mat_view(*edges), vertices@.len() as int),
        ensures
            shape_eq(*final(self), *old(self)),
            final(self).val == old(self).val,
            final(self).key == old(self).key,
            forall|p: Seq<int>|
                #[trigger] valid_path(*final(self), p) && p.len() > 0 ==> ok_at(
                    *final(self),
                    p,
                    vertices@,
                    mat_view(*edges),
                ),
            D::obeys_partial_cmp_spec() ==> m == tree_min(*final(self)),
            is_leaf_val(*final(self), m),
    {
        self.recalc_children(vertices, edges)
    }

    /// The recursive worker behind `fill_edges`.
    fn fill_edges_from(&self, idx: &mut Vec<Vec<Vec<Vec<usize>>>>, path: &Vec<usize>)
        requires
            keys_below(*self, old(idx)@.len() as int),
            forall|a: int|
                0 <= a < old(idx)@.len() ==> (#[trigger] old(idx)@[a])@.len() == old(idx)@.len(),
        ensures
            final(idx)@.len() == old(idx)@.len(),
            forall|a: int|
                0 <= a < old(idx)@.len() ==> (#[trigger] final(idx)@[a])@.len() == old(idx)@.len(),
            forall|a: int, b: int|
                0 <= a < old(idx)@.len() && 0 <= b < old(idx)@.len() ==> paths_view(
                    (#[trigger] final(idx)@[a]@[b])@,
                ) == paths_view(old(idx)@[a]@[b]@) + with_prefix(iseq(path@), epaths(*self, a, b)),
        decreases *self,
    {
        let ghost pa = iseq(path@);
        let ghost m = old(idx)@.len() as int;
        proof {
            assert(valid_path(*self, Seq::<int>::empty()));
        }
        let n0 = self.children.len();
        let mut i: usize = 0;
        while i < n0
            invariant
                i <= n0,
                n0 == self.children@.len(),
                idx@.len() == m,
                m == old(idx)@.len() as int,
                forall|a: int| 0 <= a < m ==> (#[trigger] idx@[a])@.len() == m,
                keys_below(*self, m),
                pa == iseq(path@),
                forall|a: int, b: int|
                    0 <= a < m && 0 <= b < m ==> paths_view(old(idx)@[a]@[b]@) + with_prefix(
                        pa,
                        epaths(*self, a, b),
                    ) == paths_view((#[trigger] idx@[a]@[b])@) + with_prefix(
                        pa,
                        kids_epaths(self.key as int, self.children@, a, b, i as int),
                    ),
            decreases n0 - i,
        {
            let ghost ii = i as int;
            let mut p2 = copy_path(path);
            p2.push(i);
            proof {
                assert(iseq(p2@) =~= pa.push(ii));
                lemma_keys_below_unfold(*self, m);
                lemma_node_at_one(*self, ii);
                assert(key_at(*self, seq![ii]) < m);
                assert(decreases_to!(*self => self.children));
                assert(decreases_to!(self.children => self.children@));
                assert(decreases_to!(self.children@ => self.children@[ii]));
            }
            let ck = self.children[i].key;
            let p3 = copy_path(&p2);
            let ghost before = *idx;
            idx[self.key][ck].push(p3);
            proof {
                assert forall|a: int, b: int| 0 <= a < m && 0 <= b < m implies paths_view(
                    (#[trigger] idx@[a]@[b])@,
                ) == paths_view(before@[a]@[b]@) + (if a == self.key as int && b == ck as int {
                    seq![pa.push(ii)]
                } else {
                    Seq::<Seq<int>>::empty()
                }) by {
                    if a == self.key as int && b == ck as int {
                        assert(paths_view(idx@[a]@[b]@) =~~= paths_view(before@[a]@[b]@).push(
                            pa.push(ii),
                        ));
                        assert(paths_view(before@[a]@[b]@) + seq![pa.push(ii)] =~= paths_view(
                            before@[a]@[b]@,
                        ).push(pa.push(ii)));
                    } else {
                        assert(paths_view(before@[a]@[b]@) + Seq::<Seq<int>>::empty()
                            =~= paths_view(before@[a]@[b]@));
                    }
                }
            }
            let ghost mid = *idx;
            self.children[i].fill_edges_from(idx, &p2);
            proof {
                assert forall|a: int, b: int| 0 <= a < m && 0 <= b < m implies paths_view(
                    old(idx)@[a]@[b]@,
                ) + with_prefix(pa, epaths(*self, a, b)) == paths_view(
                    (#[trigger] idx@[a]@[b])@,
                ) + with_prefix(
                    pa,
                    kids_epaths(self.key as int, self.children@, a, b, ii + 1),
                ) by {
                    let hit: Seq<Seq<int>> = if self.key as int == a && self.children@[ii].key
                        as int == b {
                        seq![seq![ii]]
                    } else {
                        Seq::empty()
                    };
                    let sub = epaths(self.children@[ii], a, b);
                    let rest = kids_epaths(self.key as int, self.children@, a, b, ii + 1);
                    assert(kids_epaths(self.key as int, self.children@, a, b, ii) == (hit
                        + with_head(ii, sub)) + rest);
                    lemma_wp_concat(pa, hit + with_head(ii, sub), rest);
                    lemma_wp_concat(pa, hit, with_head(ii, sub));
                    lemma_wp_head(pa, ii, sub);
                    if self.key as int == a && self.children@[ii].key as int == b {
                        lemma_wp_one(pa, seq![ii]);
                        assert(pa + seq![ii] =~= pa.push(ii));
                    } else {
                        lemma_wp_empty(pa);
                    }
                    assert(paths_view(idx@[a]@[b]@) == paths_view(mid@[a]@[b]@) + with_prefix(
                        pa.push(ii),
                        sub,
                    ));
                    assert(paths_view(mid@[a]@[b]@) == paths_view(before@[a]@[b]@) + with_prefix(
                        pa,
                        hit,
                    ));
                    assert((paths_view(before@[a]@[b]@) + with_prefix(pa, hit)) + (with_prefix(
                        pa.push(ii),
                        sub,
                    ) + with_prefix(pa, rest)) =~= paths_view(before@[a]@[b]@) + ((with_prefix(
                        pa,
                        hit,
                    ) + with_prefix(pa.push(ii), sub)) + with_prefix(pa, rest)));
                    assert((paths_view(before@[a]@[b]@) + with_prefix(pa, hit)) + with_prefix(
                        pa.push(ii),
                        sub,
                    ) =~= paths_view(before@[a]@[b]@) + (with_prefix(pa, hit) + with_prefix(
                        pa.push(ii),
                        sub,
                    )));
                }
            }
            i = i + 1;
        }
        proof {
            assert forall|a: int, b: int| 0 <= a < m && 0 <= b < m implies paths_view(
                (#[trigger] idx@[a]@[b])@,
            ) == paths_view(old(idx)@[a]@[b]@) + with_prefix(pa, epaths(*self, a, b)) by {
                assert(kids_epaths(self.key as int, self.children@, a, b, n0 as int) == Seq::<
                    Seq<int>,
                >::empty());
                lemma_wp_empty(pa);
                assert(paths_view(idx@[a]@[b]@) + Seq::<Seq<int>>::empty() =~= paths_view(
                    idx@[a]@[b]@,
                ));
                assert(epaths(*self, a, b) == kids_epaths(
                    self.key as int,
                    self.children@,
                    a,
                    b,
                    0,
                ));
            }
        }
    }
}

} // verus!
