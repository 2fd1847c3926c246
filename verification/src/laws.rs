//! The registry's tree laws, stated and proved against the public
//! specification functions: depth and terms invariance along lineages, the
//! fan-out and depth bounds, and the completeness of cursor-chained
//! pagination of the breadth-first tree listing.

use vstd::prelude::*;

use crate::registry::{root_from, LeaseRegistry};
use crate::traversal::{first_pos, lemma_first_pos, page_len, TreeRow};
use crate::types::{MAX_DEPTH, PAGE_CAP};

verus! {

/// Pairwise distinctness of a sequence of ids.
spec fn distinct_ids(s: Seq<u64>) -> bool {
    forall|i: int, j: int| 0 <= i < j < s.len() ==> s[i] != s[j]
}

impl LeaseRegistry {
    /// Depth invariant: every stored root has depth 0, and every stored
    /// node whose parent is stored sits exactly one level below it.
    pub proof fn lemma_depth_invariant(self)
        requires
            self.inv(),
        ensures
            forall|id: u64|
                self.has(id) && self.node_at(id).parent is None ==> #[trigger] self.node_at(
                    id,
                ).depth == 0,
            forall|id: u64|
                #![auto]
                self.has(id) && self.node_at(id).parent is Some && self.has(
                    self.node_at(id).parent.unwrap(),
                ) ==> self.node_at(id).depth == self.node_at(
                    self.node_at(id).parent.unwrap(),
                ).depth + 1,
    {
        assert forall|id: u64|
            self.has(id) && self.node_at(id).parent is None implies #[trigger] self.node_at(
            id,
        ).depth == 0 by {
            assert(self.node_ok(id));
        }
        assert forall|id: u64|
            #![auto]
            self.has(id) && self.node_at(id).parent is Some && self.has(
                self.node_at(id).parent.unwrap(),
            ) implies self.node_at(id).depth == self.node_at(
            self.node_at(id).parent.unwrap(),
        ).depth + 1 by {
            assert(self.node_ok(id));
        }
    }

    /// Terms invariance along a lineage: wherever the parent-link walk from
    /// a node reaches a root, the node carries the root's terms digest —
    /// one digest per tree, at every depth.
    pub proof fn lemma_terms_invariance(self, id: u64)
        requires
            self.inv(),
            self.root_of_spec(id) is Some,
        ensures
            self.has(id),
            self.has(self.root_of_spec(id).unwrap()),
            self.node_at(id).terms == self.node_at(self.root_of_spec(id).unwrap()).terms,
    {
        self.lemma_terms_along_walk(id, MAX_DEPTH as nat);
    }

    /// Generalization of terms invariance over the fuelled walk.
    proof fn lemma_terms_along_walk(self, id: u64, fuel: nat)
        requires
            self.inv(),
            root_from(self.leases@, id, fuel) is Some,
        ensures
            self.has(id),
            self.has(root_from(self.leases@, id, fuel).unwrap()),
            self.node_at(id).terms == self.node_at(
                root_from(self.leases@, id, fuel).unwrap(),
            ).terms,
        decreases fuel,
    {
        let m = self.leases@;
        assert(self.has(id));
        match m[id].parent {
            None => {},
            Some(p) => {
                self.lemma_terms_along_walk(p, (fuel - 1) as nat);
                assert(self.has(p));
                assert(self.node_ok(id));
            },
        }
    }

    /// The stepwise form of terms invariance, free of any condition on the
    /// lineage: a stored node whose parent is stored carries the parent's
    /// terms digest, whatever else happened to the tree.
    pub proof fn lemma_terms_match_parent(self, id: u64)
        requires
            self.inv(),
            self.has(id),
            self.node_at(id).parent is Some,
            self.has(self.node_at(id).parent.unwrap()),
        ensures
            self.node_at(id).terms == self.node_at(self.node_at(id).parent.unwrap()).terms,
    {
        assert(self.node_ok(id));
    }

    /// Fan-out bound: a stored parent never lists more children than its
    /// limit allows.
    pub proof fn lemma_fanout_bound(self, p: u64)
        requires
            self.inv(),
            self.has(p),
        ensures
            self.kids_at(p).len() <= self.node_at(p).limit,
    {
        assert(self.kids_ok(p));
    }

    /// Depth bound: no stored node sits below the depth cap's reach. (That
    /// an attempt to create one fails `MaxDepth` is part of the contract of
    /// `create_sublease`.)
    pub proof fn lemma_depth_bound(self)
        requires
            self.inv(),
        ensures
            forall|id: u64| self.has(id) ==> #[trigger] self.node_at(id).depth <= MAX_DEPTH,
    {
        assert forall|id: u64| self.has(id) implies #[trigger] self.node_at(id).depth
            <= MAX_DEPTH by {
            assert(self.node_ok(id));
        }
    }

    /// Concatenated child sequences of pairwise-distinct stored parents are
    /// pairwise distinct: each child has exactly one parent, so no id can
    /// occur twice.
    proof fn lemma_seq_children_distinct(self, ids: Seq<u64>)
        requires
            self.inv(),
            distinct_ids(ids),
        ensures
            distinct_ids(self.seq_children(ids)),
        decreases ids.len(),
    {
        if ids.len() > 0 {
            let t = ids.drop_first();
            assert forall|i: int, j: int| 0 <= i < j < t.len() implies t[i] != t[j] by {
                assert(t[i] == ids[i + 1]);
                assert(t[j] == ids[j + 1]);
            }
            self.lemma_seq_children_distinct(t);
            self.lemma_seq_children_membership(t);
            let head = self.kids_of_present(ids[0]);
            let rest = self.seq_children(t);
            let sc = self.seq_children(ids);
            assert(sc == head + rest);
            assert forall|u: int, v: int| 0 <= u < v < sc.len() implies sc[u] != sc[v] by {
                if v < head.len() {
                    assert(self.has(ids[0]));
                    assert(self.kids_ok(ids[0]));
                    assert(sc[u] == self.kids_at(ids[0])[u]);
                    assert(sc[v] == self.kids_at(ids[0])[v]);
                } else if u >= head.len() {
                    assert(sc[u] == rest[u - head.len()]);
                    assert(sc[v] == rest[v - head.len()]);
                } else {
                    let c = sc[u];
                    assert(self.has(ids[0]));
                    assert(self.kids_ok(ids[0]));
                    assert(c == self.kids_at(ids[0])[u]);
                    assert(self.node_at(c).parent == Some(ids[0]));
                    if sc[v] == c {
                        assert(rest[v - head.len()] == c);
                        let i = choose|i: int|
                            0 <= i < t.len() && self.kids_of_present(#[trigger] t[i]).contains(
                                #[trigger] self.seq_children(t)[v - head.len()],
                            );
                        assert(self.has(t[i]));
                        assert(self.kids_at(t[i]).contains(c));
                        assert(self.kids_ok(t[i]));
                        let ci = choose|ci: int|
                            0 <= ci < self.kids_at(t[i]).len() && self.kids_at(t[i])[ci] == c;
                        assert(self.node_at(c).parent == Some(t[i]));
                        assert(t[i] == ids[i + 1]);
                        assert(ids[0] != ids[i + 1]);
                        assert(false);
                    }
                }
            }
        }
    }

    /// Every layer of the breadth-first walk is pairwise distinct.
    proof fn lemma_layer_distinct(self, root: u64, maxd: u32, k: nat)
        requires
            self.inv(),
        ensures
            distinct_ids(self.bfs_layer(root, maxd, k)),
        decreases k,
    {
        if k == 0 {
        } else if maxd != 0 && k > maxd {
        } else {
            self.lemma_layer_distinct(root, maxd, (k - 1) as nat);
            self.lemma_seq_children_distinct(self.bfs_layer(root, maxd, (k - 1) as nat));
        }
    }

    /// The stored-nodes filter keeps only elements of its input and keeps
    /// pairwise-distinct input pairwise distinct.
    proof fn lemma_present_only_sub(self, ids: Seq<u64>)
        ensures
            forall|i: int|
                0 <= i < self.present_only(ids).len() ==> ids.contains(
                    #[trigger] self.present_only(ids)[i],
                ),
            distinct_ids(ids) ==> distinct_ids(self.present_only(ids)),
        decreases ids.len(),
    {
        if ids.len() > 0 {
            let t = ids.drop_first();
            self.lemma_present_only_sub(t);
            let head: Seq<u64> = if self.has(ids[0]) {
                seq![ids[0]]
            } else {
                Seq::empty()
            };
            let rest = self.present_only(t);
            let po = self.present_only(ids);
            assert(po == head + rest);
            assert forall|y: u64| t.contains(y) implies ids.contains(y) by {
                let i = choose|i: int| 0 <= i < t.len() && t[i] == y;
                assert(ids[i + 1] == y);
            }
            assert forall|i: int| 0 <= i < po.len() implies ids.contains(#[trigger] po[i]) by {
                if i < head.len() {
                    assert(po[i] == ids[0]);
                    assert(ids.contains(ids[0]));
                } else {
                    assert(po[i] == rest[i - head.len()]);
                    assert(t.contains(po[i]));
                }
            }
            if distinct_ids(ids) {
                assert forall|i: int, j: int| 0 <= i < j < t.len() implies t[i] != t[j] by {
                    assert(t[i] == ids[i + 1]);
                    assert(t[j] == ids[j + 1]);
                }
                assert forall|u: int, v: int| 0 <= u < v < po.len() implies po[u] != po[v] by {
                    if u >= head.len() {
                        assert(po[u] == rest[u - head.len()]);
                        assert(po[v] == rest[v - head.len()]);
                    } else {
                        assert(po[u] == ids[0]);
                        assert(po[v] == rest[v - head.len()]);
                        assert(t.contains(po[v]));
                        let i = choose|i: int| 0 <= i < t.len() && t[i] == po[v];
                        assert(ids[i + 1] == po[v]);
                    }
                }
            }
        }
    }

    /// The visit order of the breadth-first walk never repeats an id: the
    /// walk from a missing root visits nothing, and from a stored root each
    /// visited node's stored depth names its layer, layers are disjoint by
    /// depth, and each layer is distinct on its own.
    proof fn lemma_visit_distinct(self, root: u64, maxd: u32, l: nat)
        requires
            self.inv(),
        ensures
            distinct_ids(self.visit_upto(root, maxd, l)),
            !self.has(root) ==> self.visit_upto(root, maxd, l).len() == 0,
            self.has(root) ==> forall|i: int|
                0 <= i < self.visit_upto(root, maxd, l).len() ==> self.has(
                    #[trigger] self.visit_upto(root, maxd, l)[i],
                ) && self.node_at(self.visit_upto(root, maxd, l)[i]).depth < self.node_at(
                    root,
                ).depth + l,
        decreases l,
    {
        if l > 0 {
            self.lemma_visit_distinct(root, maxd, (l - 1) as nat);
            let prev = self.visit_upto(root, maxd, (l - 1) as nat);
            let layer = self.bfs_layer(root, maxd, (l - 1) as nat);
            let po = self.present_only(layer);
            let v = self.visit_upto(root, maxd, l);
            assert(v == prev + po);
            self.lemma_layer_distinct(root, maxd, (l - 1) as nat);
            self.lemma_present_only_sub(layer);
            self.lemma_present_only_present(layer);
            if l - 1 >= 1 {
                self.lemma_layer_elements(root, maxd, (l - 1) as nat);
            }
            if !self.has(root) {
                if l - 1 == 0 {
                    reveal_with_fuel(LeaseRegistry::present_only, 2);
                    assert(layer =~= seq![root]);
                    assert(layer.drop_first() =~= Seq::<u64>::empty());
                    assert(po =~= Seq::<u64>::empty());
                } else {
                    assert(layer.len() == 0);
                    assert(po =~= Seq::<u64>::empty());
                }
                assert(v =~= prev);
            } else {
                assert forall|i: int|
                    0 <= i < v.len() implies self.has(#[trigger] v[i]) && self.node_at(
                    v[i],
                ).depth < self.node_at(root).depth + l by {
                    if i < prev.len() {
                        assert(v[i] == prev[i]);
                    } else {
                        let x = po[i - prev.len()];
                        assert(v[i] == x);
                        assert(layer.contains(x));
                        if l - 1 == 0 {
                            assert(layer =~= seq![root]);
                            assert(x == root);
                        } else {
                            let xi = choose|xi: int| 0 <= xi < layer.len() && layer[xi] == x;
                            assert(self.node_at(x).depth == self.node_at(root).depth + (l - 1));
                        }
                    }
                }
                assert forall|u: int, v_i: int| 0 <= u < v_i < v.len() implies v[u] != v[v_i] by {
                    if u < prev.len() && v_i >= prev.len() {
                        let x = v[u];
                        let y = v[v_i];
                        assert(x == prev[u]);
                        assert(self.node_at(x).depth < self.node_at(root).depth + (l - 1));
                        assert(y == po[v_i - prev.len()]);
                        assert(layer.contains(y));
                        if l - 1 == 0 {
                            assert(prev.len() == 0);
                            assert(false);
                        } else {
                            let yi = choose|yi: int| 0 <= yi < layer.len() && layer[yi] == y;
                            assert(self.node_at(y).depth == self.node_at(root).depth + (l - 1));
                        }
                    } else if u >= prev.len() {
                        assert(v[u] == po[u - prev.len()]);
                        assert(v[v_i] == po[v_i - prev.len()]);
                    }
                }
            }
        }
    }

    /// The visit position that produced row `j` of an emission.
    spec fn emit_src(self, vs: Seq<u64>, include_inactive: bool, j: int) -> int
        decreases vs.len(),
    {
        if vs.len() == 0 {
            0
        } else if self.emits(vs[0], include_inactive) {
            if j == 0 {
                0
            } else {
                1 + self.emit_src(vs.drop_first(), include_inactive, j - 1)
            }
        } else {
            1 + self.emit_src(vs.drop_first(), include_inactive, j)
        }
    }

    /// Each emitted row comes from one visit position, and cutting the
    /// visit order right after that position cuts the emission right after
    /// the row.
    proof fn lemma_emit_src(self, vs: Seq<u64>, include_inactive: bool, j: int)
        requires
            0 <= j < self.emit_seq(vs, include_inactive).len(),
        ensures
            ({
                let i = self.emit_src(vs, include_inactive, j);
                &&& 0 <= i < vs.len()
                &&& self.emits(vs[i], include_inactive)
                &&& self.emit_seq(vs, include_inactive)[j] == self.row_of(vs[i])
                &&& self.emit_seq(vs.skip(i + 1), include_inactive) == self.emit_seq(
                    vs,
                    include_inactive,
                ).skip(j + 1)
            }),
        decreases vs.len(),
    {
        let t = vs.drop_first();
        let e = self.emit_seq(vs, include_inactive);
        if self.emits(vs[0], include_inactive) {
            if j == 0 {
                assert(e[0] == self.row_of(vs[0]));
                assert(vs.skip(1) =~= t);
                assert(e.skip(1) =~= self.emit_seq(t, include_inactive));
            } else {
                self.lemma_emit_src(t, include_inactive, j - 1);
                let i2 = self.emit_src(t, include_inactive, j - 1);
                assert(vs[1 + i2] == t[i2]);
                assert(e[j] == self.emit_seq(t, include_inactive)[j - 1]);
                assert(vs.skip(1 + i2 + 1) =~= t.skip(i2 + 1));
                assert(e.skip(j + 1) =~= self.emit_seq(t, include_inactive).skip(j));
            }
        } else {
            assert(e =~= self.emit_seq(t, include_inactive));
            self.lemma_emit_src(t, include_inactive, j);
            let i2 = self.emit_src(t, include_inactive, j);
            assert(vs[1 + i2] == t[i2]);
            assert(vs.skip(1 + i2 + 1) =~= t.skip(i2 + 1));
            assert(e.skip(j + 1) =~= self.emit_seq(t, include_inactive).skip(j + 1));
        }
    }

    /// Resuming the walk at the id of emitted row `j` yields exactly the
    /// rows after `j`.
    proof fn lemma_resume(self, root: u64, include_inactive: bool, maxd: u32, j: int)
        requires
            self.inv(),
            0 <= j < self.emit_seq(self.visit_all(root, maxd), include_inactive).len(),
        ensures
            ({
                let e = self.emit_seq(self.visit_all(root, maxd), include_inactive);
                &&& e[j].0 >= 1
                &&& self.tree_tail(root, include_inactive, maxd, e[j].0) == e.skip(j + 1)
            }),
    {
        let vs = self.visit_all(root, maxd);
        let e = self.emit_seq(vs, include_inactive);
        self.lemma_visit_present(root, maxd, (MAX_DEPTH + 2) as nat);
        self.lemma_visit_distinct(root, maxd, (MAX_DEPTH + 2) as nat);
        self.lemma_emit_src(vs, include_inactive, j);
        let i = self.emit_src(vs, include_inactive, j);
        let c = e[j].0;
        assert(self.has(vs[i]));
        assert(self.node_ok(vs[i]));
        assert(c == vs[i]);
        assert(c >= 1);
        lemma_first_pos(vs, c);
        assert(vs.contains(c));
        let fp = first_pos(vs, c);
        assert(vs[fp] == c);
        assert(fp == i);
    }

    /// The pages that successive `tree` calls hand out when each call's
    /// next cursor feeds the next call, concatenated, starting from
    /// `cursor`; `fuel` bounds the number of chained calls.
    pub open spec fn tree_pages_concat(
        self,
        root: u64,
        include_inactive: bool,
        maxd: u32,
        page_limit: u32,
        cursor: u64,
        fuel: nat,
    ) -> Seq<TreeRow>
        decreases fuel,
    {
        let pr = self.tree_page_spec(root, include_inactive, maxd, page_limit, cursor);
        if pr.1 == 0 || fuel == 0 {
            pr.0
        } else {
            pr.0 + self.tree_pages_concat(
                root,
                include_inactive,
                maxd,
                page_limit,
                pr.1,
                (fuel - 1) as nat,
            )
        }
    }

    /// Generalized pagination completeness: from any cursor whose remaining
    /// emission is a suffix of the full emission, the chained pages cover
    /// exactly that suffix.
    proof fn lemma_pages_cover(
        self,
        root: u64,
        include_inactive: bool,
        maxd: u32,
        page_limit: u32,
        cursor: u64,
        s: int,
        fuel: nat,
    )
        requires
            self.inv(),
            page_limit >= 1,
            0 <= s <= self.emit_seq(self.visit_all(root, maxd), include_inactive).len(),
            self.tree_tail(root, include_inactive, maxd, cursor) == self.emit_seq(
                self.visit_all(root, maxd),
                include_inactive,
            ).skip(s),
            fuel >= self.emit_seq(self.visit_all(root, maxd), include_inactive).len() - s,
        ensures
            self.tree_pages_concat(root, include_inactive, maxd, page_limit, cursor, fuel)
                == self.emit_seq(self.visit_all(root, maxd), include_inactive).skip(s),
        decreases fuel,
    {
        let e = self.emit_seq(self.visit_all(root, maxd), include_inactive);
        let tail = self.tree_tail(root, include_inactive, maxd, cursor);
        let pl2: u32 = if page_limit > PAGE_CAP {
            PAGE_CAP
        } else {
            page_limit
        };
        let rem = tail.len();
        let n = page_len(pl2, rem);
        let pr = self.tree_page_spec(root, include_inactive, maxd, page_limit, cursor);
        if n < pl2 as nat {
            assert(n == rem);
            assert(pr.1 == 0);
            assert(pr.0 =~= tail);
        } else {
            assert(n == pl2 as nat);
            assert(rem >= n);
            assert(n >= 1);
            assert(pr.0 == tail.take(n as int));
            assert(pr.0[n as int - 1] == e[s + n - 1]);
            self.lemma_resume(root, include_inactive, maxd, s + n - 1);
            assert(pr.1 == e[s + n - 1].0);
            assert(pr.1 >= 1);
            assert(self.tree_tail(root, include_inactive, maxd, pr.1) == e.skip(s + n));
            self.lemma_pages_cover(
                root,
                include_inactive,
                maxd,
                page_limit,
                pr.1,
                s + n,
                (fuel - 1) as nat,
            );
            assert(e.skip(s) =~= tail.take(n as int) + e.skip(s + n));
        }
    }

    /// Pagination completeness: for any tree and any positive page limit,
    /// chaining `tree` calls through their next cursors, starting from
    /// cursor 0, emits exactly the full breadth-first emission — the same
    /// rows, in the same order, as one unpaginated walk.
    pub proof fn lemma_tree_pagination_complete(
        self,
        root: u64,
        include_inactive: bool,
        maxd: u32,
        page_limit: u32,
    )
        requires
            self.inv(),
            page_limit >= 1,
        ensures
            self.tree_pages_concat(
                root,
                include_inactive,
                maxd,
                page_limit,
                0,
                self.emit_seq(self.visit_all(root, maxd), include_inactive).len(),
            ) == self.emit_seq(self.visit_all(root, maxd), include_inactive),
    {
        let e = self.emit_seq(self.visit_all(root, maxd), include_inactive);
        assert(self.tree_tail(root, include_inactive, maxd, 0) == e.skip(0)) by {
            assert(e.skip(0) =~= e);
        }
        self.lemma_pages_cover(root, include_inactive, maxd, page_limit, 0, 0, e.len());
        assert(e.skip(0) =~= e);
    }
}

} // verus!
