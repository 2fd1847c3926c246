//! Tree inspection: cursor-resumable pagination over a parent's child
//! sequence (`children`) and over a breadth-first flattening of a whole
//! subtree (`tree`).
//!
//! Both walks share one cursor convention: a cursor of 0 starts emission at
//! the beginning; otherwise elements are skipped until the one equal to the
//! cursor has been passed, and emission starts right after it. A page's next
//! cursor is the last emitted element when the page was filled, and 0 when
//! the walk is exhausted.

use vstd::prelude::*;

use crate::registry::LeaseRegistry;
use crate::types::{MAX_DEPTH, NO_PARENT, PAGE_CAP};

verus! {

broadcast use vstd::std_specs::hash::group_hash_axioms;

/// One flattened row of a tree listing: id, parent id (or `NO_PARENT`),
/// lessee, depth and activity.
pub type TreeRow = (u64, u64, u64, u32, bool);

/// The first index of `c` in `vs`, or -1 when `c` does not occur.
pub open spec fn first_pos(vs: Seq<u64>, c: u64) -> int
    decreases vs.len(),
{
    if vs.len() == 0 {
        -1
    } else if vs[0] == c {
        0
    } else {
        let r = first_pos(vs.drop_first(), c);
        if r < 0 {
            -1
        } else {
            r + 1
        }
    }
}

/// What `first_pos` means: -1 exactly when `c` is absent, else the first
/// index holding `c`.
pub proof fn lemma_first_pos(vs: Seq<u64>, c: u64)
    ensures
        first_pos(vs, c) == -1 <==> !vs.contains(c),
        first_pos(vs, c) >= 0 ==> {
            let p = first_pos(vs, c);
            &&& 0 <= p < vs.len()
            &&& vs[p] == c
            &&& forall|k: int| 0 <= k < p ==> vs[k] != c
        },
    decreases vs.len(),
{
    if vs.len() == 0 {
    } else {
        let t = vs.drop_first();
        lemma_first_pos(t, c);
        assert forall|y: u64| t.contains(y) implies vs.contains(y) by {
            let i = choose|i: int| 0 <= i < t.len() && t[i] == y;
            assert(vs[i + 1] == y);
        }
        if vs[0] != c {
            if vs.contains(c) {
                let i = choose|i: int| 0 <= i < vs.len() && vs[i] == c;
                assert(i != 0);
                assert(t[i - 1] == c);
                assert(t.contains(c));
            }
            if first_pos(t, c) >= 0 {
                let p = first_pos(t, c);
                assert forall|k: int| 0 <= k < p + 1 implies vs[k] != c by {
                    if k > 0 {
                        assert(t[k - 1] != c);
                    }
                }
            }
        }
    }
}

/// How many elements a page holds: the lesser of the remaining elements and
/// the page limit — except that a zero limit still lets one element through,
/// because the cut is only checked after each emission.
pub open spec fn page_len(limit: u32, rem: nat) -> nat {
    if rem == 0 {
        0
    } else if limit == 0 {
        1
    } else if rem < limit {
        rem
    } else {
        limit as nat
    }
}

impl LeaseRegistry {
    /// The child sequence of `id`, but only when `id` is a stored node: the
    /// traversal never follows the children of a record that is gone.
    pub open spec fn kids_of_present(self, id: u64) -> Seq<u64> {
        if self.has(id) {
            self.kids_at(id)
        } else {
            Seq::empty()
        }
    }

    /// The concatenated child sequences of the stored nodes among `ids`, in
    /// order.
    pub open spec fn seq_children(self, ids: Seq<u64>) -> Seq<u64>
        decreases ids.len(),
    {
        if ids.len() == 0 {
            Seq::empty()
        } else {
            self.kids_of_present(ids[0]) + self.seq_children(ids.drop_first())
        }
    }

    /// Layer `k` of the breadth-first walk from `root`: layer 0 is the root
    /// alone; each next layer concatenates the children of the previous
    /// layer's stored nodes, and `maxd` (0 meaning unbounded) cuts the walk
    /// after layer `maxd`.
    pub open spec fn bfs_layer(self, root: u64, maxd: u32, k: nat) -> Seq<u64>
        decreases k,
    {
        if k == 0 {
            seq![root]
        } else if maxd != 0 && k > maxd {
            Seq::empty()
        } else {
            self.seq_children(self.bfs_layer(root, maxd, (k - 1) as nat))
        }
    }

    /// The stored nodes among `ids`, in order.
    pub open spec fn present_only(self, ids: Seq<u64>) -> Seq<u64>
        decreases ids.len(),
    {
        if ids.len() == 0 {
            Seq::empty()
        } else {
            (if self.has(ids[0]) {
                seq![ids[0]]
            } else {
                Seq::empty()
            }) + self.present_only(ids.drop_first())
        }
    }

    /// The visit order of the breadth-first walk, restricted to stored
    /// nodes, over layers `0 .. l`.
    pub open spec fn visit_upto(self, root: u64, maxd: u32, l: nat) -> Seq<u64>
        decreases l,
    {
        if l == 0 {
            Seq::empty()
        } else {
            self.visit_upto(root, maxd, (l - 1) as nat) + self.present_only(
                self.bfs_layer(root, maxd, (l - 1) as nat),
            )
        }
    }

    /// The whole visit order: under the invariant the depth cap empties
    /// every layer past `MAX_DEPTH`, so this many layers cover the walk.
    pub open spec fn visit_all(self, root: u64, maxd: u32) -> Seq<u64> {
        self.visit_upto(root, maxd, (MAX_DEPTH + 2) as nat)
    }

    /// The flattened row emitted for the stored node `id`.
    pub open spec fn row_of(self, id: u64) -> TreeRow {
        let n = self.node_at(id);
        (
            n.id,
            match n.parent {
                Some(p) => p,
                None => NO_PARENT,
            },
            n.lessee,
            n.depth,
            n.active,
        )
    }

    /// Whether the stored node `id` is emitted by a walk that keeps only
    /// active nodes unless `include_inactive` is set.
    pub open spec fn emits(self, id: u64, include_inactive: bool) -> bool {
        include_inactive || self.node_at(id).active
    }

    /// The rows emitted for the visit order `vs`.
    pub open spec fn emit_seq(self, vs: Seq<u64>, include_inactive: bool) -> Seq<TreeRow>
        decreases vs.len(),
    {
        if vs.len() == 0 {
            Seq::empty()
        } else {
            (if self.emits(vs[0], include_inactive) {
                seq![self.row_of(vs[0])]
            } else {
                Seq::empty()
            }) + self.emit_seq(vs.drop_first(), include_inactive)
        }
    }

    /// The rows the walk from `root` still owes after the cursor: the whole
    /// emission for a cursor of 0, the emission after the cursor's visit
    /// position otherwise, and nothing when the cursor is never visited.
    pub open spec fn tree_tail(
        self,
        root: u64,
        include_inactive: bool,
        maxd: u32,
        cursor: u64,
    ) -> Seq<TreeRow> {
        let vs = self.visit_all(root, maxd);
        if cursor == 0 {
            self.emit_seq(vs, include_inactive)
        } else {
            let p = first_pos(vs, cursor);
            if p < 0 {
                Seq::empty()
            } else {
                self.emit_seq(vs.skip(p + 1), include_inactive)
            }
        }
    }

    /// One page of the breadth-first listing, and its next cursor.
    pub open spec fn tree_page_spec(
        self,
        root: u64,
        include_inactive: bool,
        maxd: u32,
        page_limit: u32,
        cursor: u64,
    ) -> (Seq<TreeRow>, u64) {
        let pl2: u32 = if page_limit > PAGE_CAP {
            PAGE_CAP
        } else {
            page_limit
        };
        let tail = self.tree_tail(root, include_inactive, maxd, cursor);
        let n = page_len(pl2, tail.len());
        let rows = tail.take(n as int);
        let next: u64 = if n < pl2 as nat {
            0
        } else if n == 0 {
            0
        } else {
            rows[n as int - 1].0
        };
        (rows, next)
    }

    /// One page of a parent's child listing, and its next cursor.
    pub open spec fn children_page_spec(self, parent_id: u64, limit: u32, cursor: u64) -> (
        Seq<u64>,
        u64,
    ) {
        let l = self.kids_at(parent_id);
        let tail = if cursor == 0 {
            l
        } else {
            let p = first_pos(l, cursor);
            if p < 0 {
                Seq::<u64>::empty()
            } else {
                l.skip(p + 1)
            }
        };
        let n = page_len(limit, tail.len());
        let rows = tail.take(n as int);
        let next: u64 = if n == tail.len() {
            0
        } else {
            rows[n as int - 1]
        };
        (rows, next)
    }

    /// Pages through the child sequence of `parent_id`: skips until the
    /// cursor, then emits up to `limit` child ids in stored order. The next
    /// cursor is the last emitted id when the page was filled and more
    /// children remain; a page that drains the sequence — even one filled
    /// exactly to `limit` — is terminal and hands back 0.
    pub fn children(&self, parent_id: u64, limit: u32, cursor: u64) -> (r: (Vec<u64>, u64))
        ensures
            r.0@ == self.children_page_spec(parent_id, limit, cursor).0,
            r.1 == self.children_page_spec(parent_id, limit, cursor).1,
    {
        let list = match self.kids.get(&parent_id) {
            Some(v) => v,
            None => {
                proof {
                    assert(self.kids_at(parent_id) =~= Seq::<u64>::empty());
                    if cursor != 0 {
                        lemma_first_pos(self.kids_at(parent_id), cursor);
                    }
                }
                return (Vec::new(), 0);
            },
        };
        let ghost l = self.kids_at(parent_id);
        assert(list@ == l);
        let mut start: usize = 0;
        let mut found: bool = cursor == 0;
        if cursor != 0 {
            let mut i: usize = 0;
            while i < list.len() && !found
                invariant
                    i <= list.len(),
                    list@ == l,
                    found ==> i >= 1 && l[i - 1] == cursor && (forall|k: int|
                        0 <= k < i - 1 ==> l[k] != cursor),
                    !found ==> forall|k: int| 0 <= k < i ==> l[k] != cursor,
                decreases list.len() - i,
            {
                if list[i] == cursor {
                    found = true;
                }
                i += 1;
            }
            start = i;
            proof {
                lemma_first_pos(l, cursor);
                if found {
                    assert(l[i - 1] == cursor);
                    assert(l.contains(cursor));
                    assert(first_pos(l, cursor) == i - 1);
                } else {
                    if l.contains(cursor) {
                        let k = choose|k: int| 0 <= k < l.len() && l[k] == cursor;
                        assert(l[k] != cursor);
                    }
                }
            }
        }
        let ghost tail = if found {
            l.skip(start as int)
        } else {
            Seq::<u64>::empty()
        };
        let cap: u32 = if limit == 0 {
            1
        } else {
            limit
        };
        let mut out: Vec<u64> = Vec::new();
        let mut next_cursor: u64 = 0;
        let mut emitted: u32 = 0;
        if found {
            let mut j: usize = start;
            while j < list.len() && emitted < cap
                invariant
                    list@ == l,
                    tail == l.skip(start as int),
                    start <= j <= list.len(),
                    emitted as nat == out@.len(),
                    emitted <= cap,
                    cap == (if limit == 0 { 1u32 } else { limit }),
                    out@ == tail.take(j - start as int),
                    next_cursor == (if out@.len() == 0 {
                        0u64
                    } else {
                        out@[out@.len() - 1]
                    }),
                decreases list.len() - j,
            {
                proof {
                    assert(tail.take((j + 1) - start as int) =~= tail.take(j - start as int).push(
                        l[j as int],
                    ));
                }
                out.push(list[j]);
                next_cursor = list[j];
                emitted += 1;
                j += 1;
            }
            proof {
                if j == list.len() {
                    assert(tail.take(j - start as int) =~= tail);
                }
            }
            let next = if emitted < limit {
                0
            } else if j >= list.len() {
                0
            } else {
                next_cursor
            };
            proof {
                let n = page_len(limit, tail.len());
                assert(out@.len() == n);
                assert(out@ =~= tail.take(n as int));
                assert(tail.len() == list@.len() - start);
            }
            return (out, next);
        }
        proof {
            assert(tail.len() == 0);
            assert(out@ =~= tail.take(page_len(limit, tail.len()) as int));
        }
        (out, 0)
    }

    /// Pages through a breadth-first flattening of the subtree under
    /// `root_id`.
    ///
    /// The page limit is clamped to `PAGE_CAP`. The walk always descends
    /// into a visited node's children (within `max_depth`, 0 meaning
    /// unbounded), whether or not the node itself is emitted, so that
    /// skipping up to the cursor keeps the breadth-first order intact; a
    /// node is emitted only once the cursor has been passed and only if it
    /// is active or `include_inactive` is set. The next cursor is the last
    /// emitted id when the page was filled, else 0.
    pub fn tree(
        &self,
        root_id: u64,
        include_inactive: bool,
        max_depth: u32,
        page_limit: u32,
        cursor: u64,
    ) -> (r: (Vec<TreeRow>, u64))
        requires
            self.inv(),
        ensures
            r.0@ == self.tree_page_spec(root_id, include_inactive, max_depth, page_limit, cursor).0,
            r.1 == self.tree_page_spec(root_id, include_inactive, max_depth, page_limit, cursor).1,
    {
        // Breadth-first visit order, grown one layer at a time.
        let mut visits: Vec<u64> = Vec::new();
        let mut layer: Vec<u64> = Vec::new();
        layer.push(root_id);
        let mut d: u32 = 0;
        proof {
            assert(layer@ =~= self.bfs_layer(root_id, max_depth, 0));
            assert(visits@ =~= self.visit_upto(root_id, max_depth, 0));
        }
        while layer.len() > 0
            invariant
                self.inv(),
                d <= MAX_DEPTH + 1,
                layer@ == self.bfs_layer(root_id, max_depth, d as nat),
                visits@ == self.visit_upto(root_id, max_depth, d as nat),
            decreases MAX_DEPTH + 2 - d,
        {
            proof {
                if d > MAX_DEPTH {
                    self.lemma_layer_empty_beyond(root_id, max_depth, d as nat);
                    assert(false);
                }
            }
            let gate = max_depth == 0 || d < max_depth;
            let mut next_layer: Vec<u64> = Vec::new();
            let mut j: usize = 0;
            while j < layer.len()
                invariant
                    self.inv(),
                    layer@ == self.bfs_layer(root_id, max_depth, d as nat),
                    j <= layer.len(),
                    visits@ == self.visit_upto(root_id, max_depth, d as nat) + self.present_only(
                        layer@.take(j as int),
                    ),
                    gate ==> next_layer@ == self.seq_children(layer@.take(j as int)),
                    !gate ==> next_layer@.len() == 0,
                decreases layer.len() - j,
            {
                let id = layer[j];
                proof {
                    assert(layer@.take(j as int + 1) =~= layer@.take(j as int).push(id));
                    self.lemma_present_only_push(layer@.take(j as int), id);
                    if gate {
                        self.lemma_seq_children_push(layer@.take(j as int), id);
                    }
                }
                match self.leases.get(&id) {
                    Some(_) => {
                        visits.push(id);
                        if gate {
                            match self.kids.get(&id) {
                                Some(ks) => {
                                    let ghost pre_next = next_layer@;
                                    let mut t: usize = 0;
                                    while t < ks.len()
                                        invariant
                                            t <= ks.len(),
                                            next_layer@ == pre_next + ks@.take(t as int),
                                        decreases ks.len() - t,
                                    {
                                        proof {
                                            assert(ks@.take(t as int + 1) =~= ks@.take(
                                                t as int,
                                            ).push(ks@[t as int]));
                                            assert(pre_next + ks@.take(t as int + 1) =~= (pre_next
                                                + ks@.take(t as int)).push(ks@[t as int]));
                                        }
                                        next_layer.push(ks[t]);
                                        t += 1;
                                    }
                                    proof {
                                        assert(ks@.take(ks@.len() as int) =~= ks@);
                                        assert(self.kids_of_present(id) == ks@);
                                    }
                                },
                                None => {
                                    proof {
                                        assert(self.kids_of_present(id) =~= Seq::<u64>::empty());
                                        assert(next_layer@ =~= self.seq_children(
                                            layer@.take(j as int),
                                        ) + self.kids_of_present(id));
                                    }
                                },
                            }
                        }
                    },
                    None => {
                        proof {
                            assert(self.kids_of_present(id) =~= Seq::<u64>::empty());
                            if gate {
                                assert(next_layer@ =~= self.seq_children(layer@.take(j as int))
                                    + self.kids_of_present(id));
                            }
                        }
                    },
                }
                j += 1;
            }
            proof {
                assert(layer@.take(layer@.len() as int) =~= layer@);
                if gate {
                    assert(self.bfs_layer(root_id, max_depth, (d + 1) as nat) == self.seq_children(
                        layer@,
                    ));
                } else {
                    assert(max_depth != 0 && d + 1 > max_depth);
                    assert(self.bfs_layer(root_id, max_depth, (d + 1) as nat) =~= Seq::<
                        u64,
                    >::empty());
                }
                assert(self.visit_upto(root_id, max_depth, (d + 1) as nat) == visits@);
            }
            layer = next_layer;
            d += 1;
        }
        let ghost vs = self.visit_all(root_id, max_depth);
        proof {
            self.lemma_visit_stops(root_id, max_depth, d as nat, (MAX_DEPTH + 2) as nat);
            assert(visits@ == vs);
            self.lemma_visit_present(root_id, max_depth, (MAX_DEPTH + 2) as nat);
        }
        // Cursor scan: find where emission starts.
        let mut start: usize = 0;
        let mut found: bool = cursor == 0;
        if cursor != 0 {
            let mut i: usize = 0;
            while i < visits.len() && !found
                invariant
                    i <= visits.len(),
                    visits@ == vs,
                    found ==> i >= 1 && vs[i - 1] == cursor && (forall|k: int|
                        0 <= k < i - 1 ==> vs[k] != cursor),
                    !found ==> forall|k: int| 0 <= k < i ==> vs[k] != cursor,
                decreases visits.len() - i,
            {
                if visits[i] == cursor {
                    found = true;
                }
                i += 1;
            }
            start = i;
            proof {
                lemma_first_pos(vs, cursor);
                if found {
                    assert(vs.contains(cursor));
                    assert(first_pos(vs, cursor) == i - 1);
                } else {
                    if vs.contains(cursor) {
                        let k = choose|k: int| 0 <= k < vs.len() && vs[k] == cursor;
                        assert(vs[k] != cursor);
                    }
                }
            }
        }
        let ghost vtail = if found {
            vs.skip(start as int)
        } else {
            Seq::<u64>::empty()
        };
        let ghost etail = self.tree_tail(root_id, include_inactive, max_depth, cursor);
        proof {
            if found {
                if cursor == 0 {
                    assert(vs.skip(0) =~= vs);
                }
                assert(etail == self.emit_seq(vtail, include_inactive));
            } else {
                assert(etail =~= Seq::<TreeRow>::empty());
            }
        }
        let pl2: u32 = if page_limit > PAGE_CAP {
            PAGE_CAP
        } else {
            page_limit
        };
        let cap: u32 = if pl2 == 0 {
            1
        } else {
            pl2
        };
        let mut rows: Vec<TreeRow> = Vec::new();
        let mut next_cursor: u64 = 0;
        let mut emitted: u32 = 0;
        if found {
            let mut j: usize = start;
            while j < visits.len() && emitted < cap
                invariant
                    self.inv(),
                    visits@ == vs,
                    vtail == vs.skip(start as int),
                    forall|i: int| 0 <= i < vs.len() ==> self.has(#[trigger] vs[i]),
                    start <= j <= visits.len(),
                    emitted as nat == rows@.len(),
                    emitted <= cap,
                    cap == (if pl2 == 0 { 1u32 } else { pl2 }),
                    rows@ == self.emit_seq(vtail.take(j - start as int), include_inactive),
                    next_cursor == (if rows@.len() == 0 {
                        0u64
                    } else {
                        rows@[rows@.len() - 1].0
                    }),
                decreases visits.len() - j,
            {
                let id = visits[j];
                proof {
                    assert(vs[j as int] == id);
                    assert(self.has(id));
                    assert(vtail[j - start as int] == id);
                    assert(vtail.take((j + 1) - start as int) =~= vtail.take(
                        j - start as int,
                    ).push(id));
                    self.lemma_emit_push(vtail.take(j - start as int), include_inactive, id);
                    assert(self.node_ok(id));
                }
                match self.leases.get(&id) {
                    Some(n) => {
                        if include_inactive || n.active {
                            rows.push(
                                (
                                    n.id,
                                    match n.parent {
                                        Some(p) => p,
                                        None => NO_PARENT,
                                    },
                                    n.lessee,
                                    n.depth,
                                    n.active,
                                ),
                            );
                            next_cursor = id;
                            emitted += 1;
                            proof {
                                assert(rows@[rows@.len() - 1] == self.row_of(id));
                                assert(rows@[rows@.len() - 1].0 == id);
                            }
                        }
                    },
                    None => {
                        proof {
                            assert(false);
                        }
                    },
                }
                j += 1;
            }
            proof {
                let full = self.emit_seq(vtail, include_inactive);
                let k = j - start as int;
                self.lemma_emit_split(vtail, include_inactive, k);
                assert(full == rows@ + self.emit_seq(vtail.skip(k), include_inactive));
                assert(full.take(rows@.len() as int) =~= rows@);
                if j == visits.len() {
                    assert(vtail.take(k) =~= vtail);
                    assert(rows@ == full);
                }
            }
        }
        let next = if emitted < pl2 {
            0
        } else {
            next_cursor
        };
        proof {
            let n = page_len(pl2, etail.len());
            assert(rows@.len() == n);
            assert(rows@ =~= etail.take(n as int));
        }
        (rows, next)
    }

    /// How the stored-nodes filter grows when one id is appended.
    proof fn lemma_present_only_push(self, s: Seq<u64>, z: u64)
        ensures
            self.present_only(s.push(z)) == self.present_only(s) + (if self.has(z) {
                seq![z]
            } else {
                Seq::<u64>::empty()
            }),
        decreases s.len(),
    {
        let sp = s.push(z);
        if s.len() == 0 {
            assert(sp.drop_first() =~= Seq::<u64>::empty());
            assert(self.present_only(sp.drop_first()) =~= Seq::<u64>::empty());
            assert(self.present_only(s) =~= Seq::<u64>::empty());
        } else {
            assert(sp[0] == s[0]);
            assert(sp.drop_first() =~= s.drop_first().push(z));
            self.lemma_present_only_push(s.drop_first(), z);
        }
        assert(self.present_only(sp) =~= self.present_only(s) + (if self.has(z) {
            seq![z]
        } else {
            Seq::<u64>::empty()
        }));
    }

    /// How the concatenated-children sequence grows when one id is appended.
    proof fn lemma_seq_children_push(self, s: Seq<u64>, z: u64)
        ensures
            self.seq_children(s.push(z)) == self.seq_children(s) + self.kids_of_present(z),
        decreases s.len(),
    {
        let sp = s.push(z);
        if s.len() == 0 {
            assert(sp.drop_first() =~= Seq::<u64>::empty());
            assert(self.seq_children(sp.drop_first()) =~= Seq::<u64>::empty());
            assert(self.seq_children(s) =~= Seq::<u64>::empty());
        } else {
            assert(sp[0] == s[0]);
            assert(sp.drop_first() =~= s.drop_first().push(z));
            self.lemma_seq_children_push(s.drop_first(), z);
        }
        assert(self.seq_children(sp) =~= self.seq_children(s) + self.kids_of_present(z));
    }

    /// How the emission grows when one visited id is appended.
    proof fn lemma_emit_push(self, s: Seq<u64>, include_inactive: bool, z: u64)
        ensures
            self.emit_seq(s.push(z), include_inactive) == self.emit_seq(s, include_inactive) + (
            if self.emits(z, include_inactive) {
                seq![self.row_of(z)]
            } else {
                Seq::<TreeRow>::empty()
            }),
        decreases s.len(),
    {
        let sp = s.push(z);
        if s.len() == 0 {
            assert(sp.drop_first() =~= Seq::<u64>::empty());
            assert(self.emit_seq(sp.drop_first(), include_inactive) =~= Seq::<TreeRow>::empty());
            assert(self.emit_seq(s, include_inactive) =~= Seq::<TreeRow>::empty());
        } else {
            assert(sp[0] == s[0]);
            assert(sp.drop_first() =~= s.drop_first().push(z));
            self.lemma_emit_push(s.drop_first(), include_inactive, z);
        }
        assert(self.emit_seq(sp, include_inactive) =~= self.emit_seq(s, include_inactive) + (
        if self.emits(z, include_inactive) {
            seq![self.row_of(z)]
        } else {
            Seq::<TreeRow>::empty()
        }));
    }

    /// The emission of a visit order splits at any point.
    proof fn lemma_emit_split(self, vs: Seq<u64>, include_inactive: bool, k: int)
        requires
            0 <= k <= vs.len(),
        ensures
            self.emit_seq(vs, include_inactive) == self.emit_seq(vs.take(k), include_inactive)
                + self.emit_seq(vs.skip(k), include_inactive),
        decreases vs.len(),
    {
        if k == 0 {
            assert(vs.take(0) =~= Seq::<u64>::empty());
            assert(vs.skip(0) =~= vs);
            assert(self.emit_seq(vs.take(0), include_inactive) =~= Seq::<TreeRow>::empty());
        } else {
            let t = vs.drop_first();
            self.lemma_emit_split(t, include_inactive, k - 1);
            assert(vs.take(k)[0] == vs[0]);
            assert(vs.take(k).drop_first() =~= t.take(k - 1));
            assert(vs.skip(k) =~= t.skip(k - 1));
            assert(self.emit_seq(vs, include_inactive) =~= self.emit_seq(
                vs.take(k),
                include_inactive,
            ) + self.emit_seq(vs.skip(k), include_inactive));
        }
    }

    /// Every element of a concatenated-children sequence comes from the
    /// child list of one of the given ids.
    pub proof fn lemma_seq_children_membership(self, ids: Seq<u64>)
        ensures
            forall|j: int|
                0 <= j < self.seq_children(ids).len() ==> exists|i: int|
                    0 <= i < ids.len() && self.kids_of_present(#[trigger] ids[i]).contains(
                        #[trigger] self.seq_children(ids)[j],
                    ),
        decreases ids.len(),
    {
        if ids.len() > 0 {
            let t = ids.drop_first();
            self.lemma_seq_children_membership(t);
            let head = self.kids_of_present(ids[0]);
            assert forall|j: int|
                0 <= j < self.seq_children(ids).len() implies exists|i: int|
                0 <= i < ids.len() && self.kids_of_present(#[trigger] ids[i]).contains(
                    #[trigger] self.seq_children(ids)[j],
                ) by {
                let c = self.seq_children(ids)[j];
                if j < head.len() {
                    assert(head[j] == c);
                    assert(head.contains(c));
                    assert(self.kids_of_present(ids[0]).contains(c));
                } else {
                    assert(self.seq_children(t)[j - head.len()] == c);
                    let i = choose|i: int|
                        0 <= i < t.len() && self.kids_of_present(#[trigger] t[i]).contains(
                            self.seq_children(t)[j - head.len()],
                        );
                    assert(ids[i + 1] == t[i]);
                    assert(self.kids_of_present(ids[i + 1]).contains(c));
                }
            }
        }
    }

    /// Past the root layer, every visited id is a stored node, and when the
    /// root itself is stored its layer index gives its exact depth below the
    /// root. A walk from a missing root has no deeper layers at all.
    pub proof fn lemma_layer_elements(self, root: u64, maxd: u32, k: nat)
        requires
            self.inv(),
            k >= 1,
        ensures
            !self.has(root) ==> self.bfs_layer(root, maxd, k).len() == 0,
            forall|i: int|
                0 <= i < self.bfs_layer(root, maxd, k).len() ==> self.has(
                    #[trigger] self.bfs_layer(root, maxd, k)[i],
                ) && (self.has(root) ==> self.node_at(self.bfs_layer(root, maxd, k)[i]).depth
                    == self.node_at(root).depth + k),
        decreases k,
    {
        let layer = self.bfs_layer(root, maxd, k);
        if maxd != 0 && k > maxd {
        } else {
            let prev = self.bfs_layer(root, maxd, (k - 1) as nat);
            if k == 1 {
                assert(prev =~= seq![root]);
                if !self.has(root) {
                    reveal_with_fuel(LeaseRegistry::seq_children, 2);
                    assert(self.kids_of_present(root) =~= Seq::<u64>::empty());
                    assert(prev.drop_first() =~= Seq::<u64>::empty());
                    assert(layer =~= Seq::<u64>::empty());
                }
            } else {
                self.lemma_layer_elements(root, maxd, (k - 1) as nat);
                if !self.has(root) {
                    assert(prev.len() == 0);
                    assert(layer =~= Seq::<u64>::empty());
                }
            }
            self.lemma_seq_children_membership(prev);
            assert forall|i: int|
                0 <= i < layer.len() implies self.has(#[trigger] layer[i]) && (self.has(root)
                ==> self.node_at(layer[i]).depth == self.node_at(root).depth + k) by {
                let c = layer[i];
                let p_i = choose|p_i: int|
                    0 <= p_i < prev.len() && self.kids_of_present(#[trigger] prev[p_i]).contains(c);
                let p = prev[p_i];
                assert(self.has(p));
                assert(self.kids_at(p).contains(c));
                assert(self.kids_ok(p));
                let ci = choose|ci: int| 0 <= ci < self.kids_at(p).len() && self.kids_at(p)[ci] == c;
                assert(self.has(c) && self.node_at(c).parent == Some(p));
                assert(self.node_ok(c));
            }
        }
    }

    /// Under the invariant, the depth cap empties every layer beyond it.
    proof fn lemma_layer_empty_beyond(self, root: u64, maxd: u32, k: nat)
        requires
            self.inv(),
            k > MAX_DEPTH,
        ensures
            self.bfs_layer(root, maxd, k).len() == 0,
    {
        self.lemma_layer_elements(root, maxd, k);
        let layer = self.bfs_layer(root, maxd, k);
        if layer.len() > 0 {
            if self.has(root) {
                assert(self.has(layer[0]));
                assert(self.node_ok(layer[0]));
                assert(self.node_at(layer[0]).depth <= MAX_DEPTH);
                assert(false);
            }
        }
    }

    /// An empty layer stays empty from there on.
    proof fn lemma_layer_empty_propagates(self, root: u64, maxd: u32, k: nat, l: nat)
        requires
            self.bfs_layer(root, maxd, k).len() == 0,
            k <= l,
        ensures
            self.bfs_layer(root, maxd, l).len() == 0,
        decreases l - k,
    {
        if l > k {
            self.lemma_layer_empty_propagates(root, maxd, k, (l - 1) as nat);
            let prev = self.bfs_layer(root, maxd, (l - 1) as nat);
            assert(prev =~= Seq::<u64>::empty());
            if !(maxd != 0 && l > maxd) {
                assert(self.bfs_layer(root, maxd, l) == self.seq_children(prev));
            }
        }
    }

    /// Once a layer is empty, the visit order has stopped growing.
    proof fn lemma_visit_stops(self, root: u64, maxd: u32, d: nat, l: nat)
        requires
            self.bfs_layer(root, maxd, d).len() == 0,
            d <= l,
        ensures
            self.visit_upto(root, maxd, l) == self.visit_upto(root, maxd, d),
        decreases l - d,
    {
        if l > d {
            self.lemma_visit_stops(root, maxd, d, (l - 1) as nat);
            self.lemma_layer_empty_propagates(root, maxd, d, (l - 1) as nat);
            let last = self.bfs_layer(root, maxd, (l - 1) as nat);
            assert(last =~= Seq::<u64>::empty());
            assert(self.present_only(last) =~= Seq::<u64>::empty());
            assert(self.visit_upto(root, maxd, l) =~= self.visit_upto(root, maxd, (l - 1) as nat));
        }
    }

    /// Every id in the visit order is a stored node.
    pub proof fn lemma_visit_present(self, root: u64, maxd: u32, l: nat)
        ensures
            forall|i: int|
                0 <= i < self.visit_upto(root, maxd, l).len() ==> self.has(
                    #[trigger] self.visit_upto(root, maxd, l)[i],
                ),
        decreases l,
    {
        if l > 0 {
            self.lemma_visit_present(root, maxd, (l - 1) as nat);
            self.lemma_present_only_present(self.bfs_layer(root, maxd, (l - 1) as nat));
            let a = self.visit_upto(root, maxd, (l - 1) as nat);
            let b = self.present_only(self.bfs_layer(root, maxd, (l - 1) as nat));
            assert forall|i: int|
                0 <= i < self.visit_upto(root, maxd, l).len() implies self.has(
                #[trigger] self.visit_upto(root, maxd, l)[i],
            ) by {
                if i < a.len() {
                    assert(self.visit_upto(root, maxd, l)[i] == a[i]);
                } else {
                    assert(self.visit_upto(root, maxd, l)[i] == b[i - a.len()]);
                }
            }
        }
    }

    /// The stored-nodes filter yields only stored nodes.
    pub proof fn lemma_present_only_present(self, ids: Seq<u64>)
        ensures
            forall|i: int|
                0 <= i < self.present_only(ids).len() ==> self.has(
                    #[trigger] self.present_only(ids)[i],
                ),
        decreases ids.len(),
    {
        if ids.len() > 0 {
            self.lemma_present_only_present(ids.drop_first());
            let head: Seq<u64> = if self.has(ids[0]) {
                seq![ids[0]]
            } else {
                Seq::empty()
            };
            let rest = self.present_only(ids.drop_first());
            assert forall|i: int|
                0 <= i < self.present_only(ids).len() implies self.has(
                #[trigger] self.present_only(ids)[i],
            ) by {
                if i < head.len() {
                    assert(self.present_only(ids)[i] == ids[0]);
                } else {
                    assert(self.present_only(ids)[i] == rest[i - head.len()]);
                }
            }
        }
    }
}

} // verus!
