//! The lease registry: node store, adjacency index, identifier allocator and
//! the tree engine's mutating and simple read operations.
//!
//! The registry's state is an explicit value. Every mutating operation takes
//! the authorization gate for the current call, returns a named error kind on
//! any violated rule with the whole state unchanged, and appends one event to
//! the log on success.

use std::collections::HashMap;
use vstd::prelude::*;

use crate::types::{AuthGate, Error, Event, Node, TermsDigest, MAX_DEPTH, NO_PARENT};

verus! {

broadcast use vstd::std_specs::hash::group_hash_axioms;

/// The whole persistent state of the lease registry.
pub struct LeaseRegistry {
    /// Identifier allocator: the last id handed out; 0 before any creation.
    pub next_id: u64,
    /// Node store: lease id to lease record.
    pub leases: HashMap<u64, Node>,
    /// Adjacency index: parent id to the ordered sequence of child ids.
    pub kids: HashMap<u64, Vec<u64>>,
    /// One entry per successful mutating call, oldest first.
    pub events: Vec<Event>,
}

impl LeaseRegistry {
    /// The node store as a mathematical map.
    pub open spec fn leases_map(self) -> Map<u64, Node> {
        self.leases@
    }

    /// Whether a lease with this id is present.
    pub open spec fn has(self, id: u64) -> bool {
        self.leases@.contains_key(id)
    }

    /// The lease record stored under `id`.
    pub open spec fn node_at(self, id: u64) -> Node {
        self.leases@[id]
    }

    /// The ordered child sequence of `p` (empty when `p` has no entry).
    pub open spec fn kids_at(self, p: u64) -> Seq<u64> {
        if self.kids@.contains_key(p) {
            self.kids@[p]@
        } else {
            Seq::empty()
        }
    }

    /// Well-formedness of one stored record, including its link to a present
    /// parent. A parent may be absent: cancelling an unaccepted lease leaves
    /// its already-created children in the store with a dangling parent id.
    pub open spec fn node_ok(self, id: u64) -> bool {
        let n = self.node_at(id);
        &&& n.id == id
        &&& 1 <= id && id <= self.next_id
        &&& n.limit > 0
        &&& n.expiry_ts > 0
        &&& n.depth <= MAX_DEPTH
        &&& (n.parent is None <==> n.depth == 0)
        &&& match n.parent {
            Some(p) => {
                &&& p < id
                &&& self.has(p) ==> {
                    let pa = self.node_at(p);
                    &&& n.depth == pa.depth + 1
                    &&& n.terms == pa.terms
                    &&& n.limit <= pa.limit
                    &&& n.expiry_ts <= pa.expiry_ts
                }
            },
            None => true,
        }
    }

    /// Well-formedness of one child sequence: every listed child is a stored
    /// node whose parent pointer names `p`, no child is listed twice, and a
    /// present parent's fan-out stays within its limit.
    pub open spec fn kids_ok(self, p: u64) -> bool {
        let ks = self.kids_at(p);
        &&& forall|i: int|
            0 <= i < ks.len() ==> self.has(#[trigger] ks[i]) && self.node_at(ks[i]).parent == Some(p)
        &&& forall|i: int, j: int| 0 <= i < j < ks.len() ==> ks[i] != ks[j]
        &&& self.has(p) ==> ks.len() <= self.node_at(p).limit
    }

    /// Every stored non-root node is listed among its parent's children.
    pub open spec fn linked(self) -> bool {
        forall|c: u64|
            #[trigger] self.has(c) && self.node_at(c).parent is Some ==> self.kids_at(
                self.node_at(c).parent.unwrap(),
            ).contains(c)
    }

    /// The registry invariant: established by `new`, preserved by every
    /// operation, and the ground on which all tree laws stand.
    pub open spec fn inv(self) -> bool {
        &&& forall|id: u64| #[trigger] self.has(id) ==> self.node_ok(id)
        &&& forall|p: u64| #![trigger self.kids_at(p)] self.kids_ok(p)
        &&& self.linked()
    }

    /// A fresh registry: no leases, no children, no events, counter at zero.
    pub fn new() -> (reg: LeaseRegistry)
        ensures
            reg.inv(),
            reg.next_id == 0,
            reg.leases_map() == Map::<u64, Node>::empty(),
            reg.kids@ == Map::<u64, Vec<u64>>::empty(),
            forall|p: u64| reg.kids_at(p) == Seq::<u64>::empty(),
            reg.events@ == Seq::<Event>::empty(),
    {
        LeaseRegistry {
            next_id: 0,
            leases: HashMap::new(),
            kids: HashMap::new(),
            events: Vec::new(),
        }
    }

    /// The record a successful `create_master` stores.
    pub open spec fn master_node(
        id: u64,
        unit: u64,
        landlord: u64,
        master: u64,
        terms: TermsDigest,
        limit: u32,
        expiry_ts: u64,
    ) -> Node {
        Node {
            id,
            parent: None,
            unit,
            lessor: landlord,
            lessee: master,
            depth: 0,
            terms,
            limit,
            expiry_ts,
            accepted: false,
            active: false,
        }
    }

    /// Creates a root ("master") lease granted by `landlord` to `master`.
    ///
    /// Requires approval by `landlord`; rejects a zero child limit and a zero
    /// expiry; on success allocates the next id, stores the root record and
    /// logs a creation event.
    pub fn create_master(
        &mut self,
        gate: &AuthGate,
        unit: u64,
        landlord: u64,
        master: u64,
        terms: TermsDigest,
        limit: u32,
        expiry_ts: u64,
    ) -> (r: Result<u64, Error>)
        requires
            old(self).inv(),
            old(self).next_id < u64::MAX,
        ensures
            final(self).inv(),
            r is Err ==> *final(self) == *old(self),
            !gate.approves(landlord) ==> r == Err::<u64, Error>(Error::NotAuthorized),
            gate.approves(landlord) && limit == 0 ==> r == Err::<u64, Error>(Error::LimitZero),
            gate.approves(landlord) && limit != 0 && expiry_ts == 0 ==> r == Err::<u64, Error>(
                Error::BadExpiry,
            ),
            gate.approves(landlord) && limit != 0 && expiry_ts != 0 ==> {
                let id = (old(self).next_id + 1) as u64;
                &&& r == Ok::<u64, Error>(id)
                &&& final(self).next_id == id
                &&& final(self).leases@ == old(self).leases@.insert(
                    id,
                    Self::master_node(id, unit, landlord, master, terms, limit, expiry_ts),
                )
                &&& final(self).kids == old(self).kids
                &&& final(self).events@ == old(self).events@.push(
                    Event::Created { unit, id, lessee: master },
                )
            },
    {
        if !gate.approve(landlord) {
            return Err(Error::NotAuthorized);
        }
        if limit == 0 {
            return Err(Error::LimitZero);
        }
        if expiry_ts == 0 {
            return Err(Error::BadExpiry);
        }
        let id = self.next_id + 1;
        self.next_id = id;
        let node = Node {
            id,
            parent: None,
            unit,
            lessor: landlord,
            lessee: master,
            depth: 0,
            terms,
            limit,
            expiry_ts,
            accepted: false,
            active: false,
        };
        self.leases.insert(id, node);
        self.events.push(Event::Created { unit, id, lessee: master });
        proof {
            self.lemma_inv_after_insert_fresh(*old(self), id);
        }
        Ok(id)
    }

    /// Whether two records agree on every field the tree invariant reads.
    /// The lifecycle flags and the principals may differ.
    pub open spec fn same_shape(a: Node, b: Node) -> bool {
        &&& a.id == b.id
        &&& a.parent == b.parent
        &&& a.depth == b.depth
        &&& a.terms == b.terms
        &&& a.limit == b.limit
        &&& a.expiry_ts == b.expiry_ts
    }

    /// Overwriting one stored record with one of the same shape preserves
    /// the invariant.
    proof fn lemma_inv_after_update_same_shape(self, pre: LeaseRegistry, id: u64)
        requires
            pre.inv(),
            pre.has(id),
            self.next_id == pre.next_id,
            self.kids == pre.kids,
            self.leases@ == pre.leases@.insert(id, self.leases@[id]),
            Self::same_shape(pre.node_at(id), self.node_at(id)),
        ensures
            self.inv(),
    {
        assert(self.leases@.dom() =~= pre.leases@.dom());
        assert forall|x: u64| #[trigger] self.has(x) implies self.node_ok(x) by {
            assert(pre.has(x));
            assert(pre.node_ok(x));
        }
        assert forall|p: u64| #![trigger self.kids_at(p)] self.kids_ok(p) by {
            assert(self.kids_at(p) == pre.kids_at(p));
            assert(pre.kids_ok(p));
        }
        assert forall|c: u64|
            #[trigger] self.has(c) && self.node_at(c).parent is Some implies self.kids_at(
            self.node_at(c).parent.unwrap(),
        ).contains(c) by {
            assert(pre.has(c) && pre.node_at(c).parent is Some);
            assert(pre.node_at(c).parent == self.node_at(c).parent);
            assert(pre.kids_at(pre.node_at(c).parent.unwrap()).contains(c));
        }
    }

    /// Accepts the lease `id`: flips its `accepted` flag, exactly once.
    ///
    /// Requires approval by the node's lessee; a repeated call is a no-op
    /// that emits nothing. Before flipping the flag it re-validates that the
    /// node's terms still equal its parent's (defense in depth against terms
    /// drift); under the invariant a present parent always matches, so with a
    /// present lineage acceptance is owed.
    pub fn accept(&mut self, gate: &AuthGate, id: u64) -> (r: Result<(), Error>)
        requires
            old(self).inv(),
        ensures
            final(self).inv(),
            r is Err ==> *final(self) == *old(self),
            !old(self).has(id) ==> r == Err::<(), Error>(Error::Unknown),
            old(self).has(id) ==> {
                let n = old(self).node_at(id);
                &&& !gate.approves(n.lessee) ==> r == Err::<(), Error>(Error::NotAuthorized)
                &&& gate.approves(n.lessee) && n.accepted ==> r == Ok::<(), Error>(())
                    && *final(self) == *old(self)
                &&& gate.approves(n.lessee) && !n.accepted ==> match n.parent {
                    Some(p) => {
                        &&& !old(self).has(p) ==> r == Err::<(), Error>(Error::Parent)
                        &&& old(self).has(p) ==> Self::accept_success(*old(self), *final(self), r, id)
                    },
                    None => Self::accept_success(*old(self), *final(self), r, id),
                }
            },
    {
        let n = match self.leases.get(&id) {
            Some(n) => *n,
            None => { return Err(Error::Unknown); },
        };
        if !gate.approve(n.lessee) {
            return Err(Error::NotAuthorized);
        }
        if n.accepted {
            return Ok(());
        }
        if let Some(parent_id) = n.parent {
            let pa = match self.leases.get(&parent_id) {
                Some(pa) => *pa,
                None => { return Err(Error::Parent); },
            };
            if !(n.terms == pa.terms) {
                return Err(Error::TermsDrift);
            }
        }
        let updated = Node { accepted: true, ..n };
        self.leases.insert(id, updated);
        self.events.push(Event::Accepted { id });
        proof {
            self.lemma_inv_after_update_same_shape(*old(self), id);
        }
        Ok(())
    }

    /// What a successful `accept` does to the registry.
    pub open spec fn accept_success(
        pre: LeaseRegistry,
        post: LeaseRegistry,
        r: Result<(), Error>,
        id: u64,
    ) -> bool {
        &&& r == Ok::<(), Error>(())
        &&& post.leases@ == pre.leases@.insert(id, Node { accepted: true, ..pre.node_at(id) })
        &&& post.next_id == pre.next_id
        &&& post.kids == pre.kids
        &&& post.events@ == pre.events@.push(Event::Accepted { id })
    }

    /// Activates the lease `id`.
    ///
    /// Requires approval by the node's lessor; fails `NotAccepted` exactly
    /// when the lease was never accepted, and `AlreadyActive` exactly when it
    /// is already active; otherwise sets `active` and logs the activation.
    pub fn set_active(&mut self, gate: &AuthGate, id: u64) -> (r: Result<(), Error>)
        requires
            old(self).inv(),
        ensures
            final(self).inv(),
            r is Err ==> *final(self) == *old(self),
            !old(self).has(id) ==> r == Err::<(), Error>(Error::Unknown),
            old(self).has(id) ==> {
                let n = old(self).node_at(id);
                &&& !gate.approves(n.lessor) ==> r == Err::<(), Error>(Error::NotAuthorized)
                &&& gate.approves(n.lessor) && !n.accepted ==> r == Err::<(), Error>(
                    Error::NotAccepted,
                )
                &&& gate.approves(n.lessor) && n.accepted && n.active ==> r == Err::<(), Error>(
                    Error::AlreadyActive,
                )
                &&& gate.approves(n.lessor) && n.accepted && !n.active ==> {
                    &&& r == Ok::<(), Error>(())
                    &&& final(self).leases@ == old(self).leases@.insert(
                        id,
                        Node { active: true, ..n },
                    )
                    &&& final(self).next_id == old(self).next_id
                    &&& final(self).kids == old(self).kids
                    &&& final(self).events@ == old(self).events@.push(Event::Activated { id })
                }
            },
    {
        let n = match self.leases.get(&id) {
            Some(n) => *n,
            None => { return Err(Error::Unknown); },
        };
        if !gate.approve(n.lessor) {
            return Err(Error::NotAuthorized);
        }
        if !n.accepted {
            return Err(Error::NotAccepted);
        }
        if n.active {
            return Err(Error::AlreadyActive);
        }
        let updated = Node { active: true, ..n };
        self.leases.insert(id, updated);
        self.events.push(Event::Activated { id });
        proof {
            self.lemma_inv_after_update_same_shape(*old(self), id);
        }
        Ok(())
    }

    /// Marks the lease `id` delinquent: unconditionally clears `active`.
    ///
    /// Requires approval by the node's lessor; succeeds whether or not the
    /// lease was active (the operation is idempotent).
    pub fn set_delinquent(&mut self, gate: &AuthGate, id: u64) -> (r: Result<(), Error>)
        requires
            old(self).inv(),
        ensures
            final(self).inv(),
            r is Err ==> *final(self) == *old(self),
            !old(self).has(id) ==> r == Err::<(), Error>(Error::Unknown),
            old(self).has(id) ==> {
                let n = old(self).node_at(id);
                &&& !gate.approves(n.lessor) ==> r == Err::<(), Error>(Error::NotAuthorized)
                &&& gate.approves(n.lessor) ==> {
                    &&& r == Ok::<(), Error>(())
                    &&& final(self).leases@ == old(self).leases@.insert(
                        id,
                        Node { active: false, ..n },
                    )
                    &&& final(self).next_id == old(self).next_id
                    &&& final(self).kids == old(self).kids
                    &&& final(self).events@ == old(self).events@.push(Event::Delinquent { id })
                }
            },
    {
        let n = match self.leases.get(&id) {
            Some(n) => *n,
            None => { return Err(Error::Unknown); },
        };
        if !gate.approve(n.lessor) {
            return Err(Error::NotAuthorized);
        }
        let updated = Node { active: false, ..n };
        self.leases.insert(id, updated);
        self.events.push(Event::Delinquent { id });
        proof {
            self.lemma_inv_after_update_same_shape(*old(self), id);
        }
        Ok(())
    }

    /// Replaces the lessee of the not-yet-accepted lease `id`.
    ///
    /// Requires approval by the node's lessor; fails `AlreadyAccepted`
    /// exactly when the lease was accepted, since acceptance freezes the
    /// lessee.
    pub fn replace_sublessee(&mut self, gate: &AuthGate, id: u64, new_lessee: u64) -> (r: Result<
        (),
        Error,
    >)
        requires
            old(self).inv(),
        ensures
            final(self).inv(),
            r is Err ==> *final(self) == *old(self),
            !old(self).has(id) ==> r == Err::<(), Error>(Error::Unknown),
            old(self).has(id) ==> {
                let n = old(self).node_at(id);
                &&& !gate.approves(n.lessor) ==> r == Err::<(), Error>(Error::NotAuthorized)
                &&& gate.approves(n.lessor) && n.accepted ==> r == Err::<(), Error>(
                    Error::AlreadyAccepted,
                )
                &&& gate.approves(n.lessor) && !n.accepted ==> {
                    &&& r == Ok::<(), Error>(())
                    &&& final(self).leases@ == old(self).leases@.insert(
                        id,
                        Node { lessee: new_lessee, ..n },
                    )
                    &&& final(self).next_id == old(self).next_id
                    &&& final(self).kids == old(self).kids
                    &&& final(self).events@ == old(self).events@.push(
                        Event::Reassigned { id, old_lessee: n.lessee, new_lessee },
                    )
                }
            },
    {
        let n = match self.leases.get(&id) {
            Some(n) => *n,
            None => { return Err(Error::Unknown); },
        };
        if !gate.approve(n.lessor) {
            return Err(Error::NotAuthorized);
        }
        if n.accepted {
            return Err(Error::AlreadyAccepted);
        }
        let updated = Node { lessee: new_lessee, ..n };
        self.leases.insert(id, updated);
        self.events.push(Event::Reassigned { id, old_lessee: n.lessee, new_lessee });
        proof {
            self.lemma_inv_after_update_same_shape(*old(self), id);
        }
        Ok(())
    }

    /// The first violated creation rule for a sublease under parent record
    /// `pa` with `kid_count` existing children, or `None` when the creation
    /// is owed. The checks run in this order.
    pub open spec fn sublease_error(
        pa: Node,
        kid_count: nat,
        sublessee: u64,
        terms: TermsDigest,
        limit: u32,
        expiry_ts: u64,
    ) -> Option<Error> {
        if terms != pa.terms {
            Some(Error::TermsMismatch)
        } else if limit > pa.limit {
            Some(Error::LimitExceedsParent)
        } else if limit == 0 {
            Some(Error::LimitZero)
        } else if expiry_ts == 0 {
            Some(Error::BadExpiry)
        } else if expiry_ts > pa.expiry_ts {
            Some(Error::ExpiryExceedsParent)
        } else if pa.depth >= MAX_DEPTH {
            Some(Error::MaxDepth)
        } else if sublessee == pa.lessee {
            Some(Error::SelfSublease)
        } else if kid_count >= pa.limit {
            Some(Error::Limit)
        } else {
            None
        }
    }

    /// The record a successful `create_sublease` stores: unit and terms are
    /// copied from the parent, the grantor is the parent's lessee, and the
    /// depth is one below the parent's.
    pub open spec fn child_node(
        pa: Node,
        parent_id: u64,
        id: u64,
        sublessee: u64,
        terms: TermsDigest,
        limit: u32,
        expiry_ts: u64,
    ) -> Node {
        Node {
            id,
            parent: Some(parent_id),
            unit: pa.unit,
            lessor: pa.lessee,
            lessee: sublessee,
            depth: (pa.depth + 1) as u32,
            terms,
            limit,
            expiry_ts,
            accepted: false,
            active: false,
        }
    }

    /// Creates a sublease of `parent_id` granted to `sublessee`.
    ///
    /// Requires approval by the parent's lessee, and enforces the narrowing
    /// rules in order: equal terms, child limit within the parent's and
    /// positive, expiry positive and within the parent's, parent below the
    /// depth cap, no self-delegation, and free fan-out capacity. On success
    /// it allocates the next id, stores the child, appends it to the
    /// parent's child sequence and logs the sub-grant.
    pub fn create_sublease(
        &mut self,
        gate: &AuthGate,
        parent_id: u64,
        sublessee: u64,
        terms: TermsDigest,
        limit: u32,
        expiry_ts: u64,
    ) -> (r: Result<u64, Error>)
        requires
            old(self).inv(),
            old(self).next_id < u64::MAX,
        ensures
            final(self).inv(),
            r is Err ==> *final(self) == *old(self),
            !old(self).has(parent_id) ==> r == Err::<u64, Error>(Error::Parent),
            old(self).has(parent_id) ==> {
                let pa = old(self).node_at(parent_id);
                &&& !gate.approves(pa.lessee) ==> r == Err::<u64, Error>(Error::NotAuthorized)
                &&& gate.approves(pa.lessee) ==> match Self::sublease_error(
                    pa,
                    old(self).kids_at(parent_id).len(),
                    sublessee,
                    terms,
                    limit,
                    expiry_ts,
                ) {
                    Some(e) => r == Err::<u64, Error>(e),
                    None => {
                        let id = (old(self).next_id + 1) as u64;
                        &&& r == Ok::<u64, Error>(id)
                        &&& final(self).next_id == id
                        &&& final(self).leases@ == old(self).leases@.insert(
                            id,
                            Self::child_node(pa, parent_id, id, sublessee, terms, limit, expiry_ts),
                        )
                        &&& final(self).kids_at(parent_id) == old(self).kids_at(parent_id).push(id)
                        &&& forall|q: u64|
                            q != parent_id ==> final(self).kids_at(q) == old(self).kids_at(q)
                        &&& final(self).events@ == old(self).events@.push(
                            Event::SubCreated { parent: parent_id, id, lessee: sublessee },
                        )
                    },
                }
            },
    {
        let pa = match self.leases.get(&parent_id) {
            Some(p) => *p,
            None => { return Err(Error::Parent); },
        };
        if !gate.approve(pa.lessee) {
            return Err(Error::NotAuthorized);
        }
        if !(terms == pa.terms) {
            return Err(Error::TermsMismatch);
        }
        if limit > pa.limit {
            return Err(Error::LimitExceedsParent);
        }
        if limit == 0 {
            return Err(Error::LimitZero);
        }
        if expiry_ts == 0 {
            return Err(Error::BadExpiry);
        }
        if expiry_ts > pa.expiry_ts {
            return Err(Error::ExpiryExceedsParent);
        }
        if pa.depth >= MAX_DEPTH {
            return Err(Error::MaxDepth);
        }
        if sublessee == pa.lessee {
            return Err(Error::SelfSublease);
        }
        let kid_count = match self.kids.get(&parent_id) {
            Some(v) => v.len(),
            None => 0,
        };
        if kid_count >= pa.limit as usize {
            return Err(Error::Limit);
        }
        let id = self.next_id + 1;
        self.next_id = id;
        let node = Node {
            id,
            parent: Some(parent_id),
            unit: pa.unit,
            lessor: pa.lessee,
            lessee: sublessee,
            depth: pa.depth + 1,
            terms,
            limit,
            expiry_ts,
            accepted: false,
            active: false,
        };
        self.leases.insert(id, node);
        let mut v = match self.kids.remove(&parent_id) {
            Some(v) => v,
            None => Vec::new(),
        };
        v.push(id);
        self.kids.insert(parent_id, v);
        self.events.push(Event::SubCreated { parent: parent_id, id, lessee: sublessee });
        proof {
            assert(self.kids_at(parent_id) =~= old(self).kids_at(parent_id).push(id));
            assert forall|q: u64| q != parent_id implies self.kids_at(q) == old(self).kids_at(
                q,
            ) by {
                assert(self.kids@.contains_key(q) == old(self).kids@.contains_key(q));
            }
            self.lemma_inv_after_sublease(*old(self), parent_id, id);
        }
        Ok(id)
    }

    /// Appending a freshly allocated, rule-abiding child record under a
    /// present parent preserves the invariant.
    proof fn lemma_inv_after_sublease(self, pre: LeaseRegistry, parent_id: u64, id: u64)
        requires
            pre.inv(),
            pre.has(parent_id),
            pre.next_id < u64::MAX,
            id == pre.next_id + 1,
            self.next_id == id,
            self.leases@ == pre.leases@.insert(id, self.leases@[id]),
            self.kids_at(parent_id) == pre.kids_at(parent_id).push(id),
            forall|q: u64| q != parent_id ==> self.kids_at(q) == pre.kids_at(q),
            ({
                let n = self.leases@[id];
                let pa = pre.node_at(parent_id);
                &&& n.id == id
                &&& n.parent == Some(parent_id)
                &&& n.depth == pa.depth + 1
                &&& n.terms == pa.terms
                &&& 0 < n.limit <= pa.limit
                &&& 0 < n.expiry_ts <= pa.expiry_ts
                &&& pa.depth < MAX_DEPTH
            }),
            pre.kids_at(parent_id).len() < pre.node_at(parent_id).limit,
        ensures
            self.inv(),
    {
        let pa = pre.node_at(parent_id);
        assert(parent_id <= pre.next_id) by {
            assert(pre.node_ok(parent_id));
        }
        assert forall|x: u64| #[trigger] self.has(x) implies self.node_ok(x) by {
            if x != id {
                assert(pre.has(x));
                assert(pre.node_ok(x));
                match self.node_at(x).parent {
                    Some(p) => {
                        assert(p < x);
                        assert(x <= pre.next_id);
                        assert(p != id);
                    },
                    None => {},
                }
            } else {
                assert(pre.node_ok(parent_id));
                assert(self.has(parent_id));
                assert(self.node_at(parent_id) == pa);
            }
        }
        assert forall|p: u64| #![trigger self.kids_at(p)] self.kids_ok(p) by {
            assert(pre.kids_ok(p));
            let ks = self.kids_at(p);
            let pks = pre.kids_at(p);
            if p == parent_id {
                assert(ks == pks.push(id));
                assert forall|i: int|
                    0 <= i < ks.len() implies self.has(#[trigger] ks[i]) && self.node_at(
                    ks[i],
                ).parent == Some(p) by {
                    if i < pks.len() {
                        assert(ks[i] == pks[i]);
                        assert(pre.has(pks[i]));
                        assert(pre.node_ok(pks[i]));
                        assert(pks[i] != id);
                    } else {
                        assert(ks[i] == id);
                    }
                }
                assert forall|i: int, j: int| 0 <= i < j < ks.len() implies ks[i] != ks[j] by {
                    if j == pks.len() {
                        assert(pre.has(pks[i]));
                        assert(pre.node_ok(pks[i]));
                        assert(pks[i] <= pre.next_id);
                    }
                }
                assert(ks.len() == pks.len() + 1 <= pa.limit);
            } else {
                assert(ks == pks);
                assert forall|i: int|
                    0 <= i < ks.len() implies self.has(#[trigger] ks[i]) && self.node_at(
                    ks[i],
                ).parent == Some(p) by {
                    assert(pre.has(pks[i]));
                    assert(pre.node_ok(pks[i]));
                    assert(pks[i] != id);
                }
                if self.has(p) {
                    if p == id {
                        if ks.len() > 0 {
                            assert(pre.has(pks[0]));
                            assert(pre.node_ok(pks[0]));
                            assert(pre.node_at(pks[0]).parent == Some(p));
                            assert(false);
                        }
                    } else {
                        assert(pre.has(p));
                    }
                }
            }
        }
        assert forall|c: u64|
            #[trigger] self.has(c) && self.node_at(c).parent is Some implies self.kids_at(
            self.node_at(c).parent.unwrap(),
        ).contains(c) by {
            let q = self.node_at(c).parent.unwrap();
            if c == id {
                let ks = self.kids_at(parent_id);
                assert(ks[ks.len() - 1] == id);
            } else {
                assert(pre.has(c) && pre.node_at(c).parent is Some);
                assert(pre.kids_at(q).contains(c));
                if q == parent_id {
                    let i = choose|i: int|
                        0 <= i < pre.kids_at(q).len() && pre.kids_at(q)[i] == c;
                    assert(self.kids_at(q)[i] == c);
                } else {
                    assert(self.kids_at(q) == pre.kids_at(q));
                }
            }
        }
    }

    /// Cancels the not-yet-accepted lease `id`: prunes it from its parent's
    /// child sequence (a linear filter that keeps the relative order of the
    /// remaining children) and deletes the record entirely.
    ///
    /// Requires approval by the node's lessor; fails `AlreadyAccepted`
    /// exactly when the lease was accepted. Afterwards the id is unknown and
    /// absent from its former parent's child sequence.
    pub fn cancel_unaccepted(&mut self, gate: &AuthGate, id: u64) -> (r: Result<(), Error>)
        requires
            old(self).inv(),
        ensures
            final(self).inv(),
            r is Err ==> *final(self) == *old(self),
            !old(self).has(id) ==> r == Err::<(), Error>(Error::Unknown),
            old(self).has(id) ==> {
                let n = old(self).node_at(id);
                &&& !gate.approves(n.lessor) ==> r == Err::<(), Error>(Error::NotAuthorized)
                &&& gate.approves(n.lessor) && n.accepted ==> r == Err::<(), Error>(
                    Error::AlreadyAccepted,
                )
                &&& gate.approves(n.lessor) && !n.accepted ==> {
                    &&& r == Ok::<(), Error>(())
                    &&& final(self).leases@ == old(self).leases@.remove(id)
                    &&& !final(self).has(id)
                    &&& final(self).next_id == old(self).next_id
                    &&& match n.parent {
                        Some(p) => {
                            &&& final(self).kids_at(p) == seq_without(old(self).kids_at(p), id)
                            &&& !final(self).kids_at(p).contains(id)
                            &&& forall|q: u64|
                                q != p ==> final(self).kids_at(q) == old(self).kids_at(q)
                        },
                        None => forall|q: u64| final(self).kids_at(q) == old(self).kids_at(q),
                    }
                    &&& final(self).events@ == old(self).events@.push(Event::Cancelled { id })
                }
            },
    {
        let n = match self.leases.get(&id) {
            Some(n) => *n,
            None => { return Err(Error::Unknown); },
        };
        if !gate.approve(n.lessor) {
            return Err(Error::NotAuthorized);
        }
        if n.accepted {
            return Err(Error::AlreadyAccepted);
        }
        if let Some(parent_id) = n.parent {
            let v = match self.kids.remove(&parent_id) {
                Some(v) => v,
                None => Vec::new(),
            };
            let ghost pre_list = if old(self).kids@.contains_key(parent_id) {
                old(self).kids@[parent_id]@
            } else {
                Seq::<u64>::empty()
            };
            let mut new_v: Vec<u64> = Vec::new();
            let mut i: usize = 0;
            while i < v.len()
                invariant
                    i <= v.len(),
                    v@ == pre_list,
                    new_v@ == seq_without(pre_list.take(i as int), id),
                decreases v.len() - i,
            {
                proof {
                    assert(pre_list.take(i as int + 1) == pre_list.take(i as int).push(
                        pre_list[i as int],
                    ));
                    lemma_seq_without_push(pre_list.take(i as int), id, pre_list[i as int]);
                }
                if v[i] != id {
                    new_v.push(v[i]);
                }
                i += 1;
            }
            proof {
                assert(pre_list.take(pre_list.len() as int) == pre_list);
            }
            self.kids.insert(parent_id, new_v);
        }
        self.leases.remove(&id);
        self.events.push(Event::Cancelled { id });
        proof {
            let pre = *old(self);
            match pre.node_at(id).parent {
                Some(p) => {
                    assert(self.kids_at(p) == seq_without(pre.kids_at(p), id));
                    lemma_seq_without_props(pre.kids_at(p), id);
                    assert forall|q: u64| q != p implies self.kids_at(q) == pre.kids_at(q) by {
                        assert(self.kids@.contains_key(q) == pre.kids@.contains_key(q));
                    }
                },
                None => {},
            }
            self.lemma_inv_after_cancel(pre, id);
        }
        Ok(())
    }

    /// Removing an unaccepted record and filtering it out of its parent's
    /// child sequence preserves the invariant.
    proof fn lemma_inv_after_cancel(self, pre: LeaseRegistry, id: u64)
        requires
            pre.inv(),
            pre.has(id),
            self.next_id == pre.next_id,
            self.leases@ == pre.leases@.remove(id),
            match pre.node_at(id).parent {
                Some(p) => {
                    &&& self.kids_at(p) == seq_without(pre.kids_at(p), id)
                    &&& forall|q: u64| q != p ==> self.kids_at(q) == pre.kids_at(q)
                },
                None => forall|q: u64| self.kids_at(q) == pre.kids_at(q),
            },
        ensures
            self.inv(),
    {
        let po = pre.node_at(id).parent;
        assert forall|x: u64| #[trigger] self.has(x) implies self.node_ok(x) by {
            assert(pre.has(x));
            assert(pre.node_ok(x));
        }
        assert forall|p: u64| #![trigger self.kids_at(p)] self.kids_ok(p) by {
            assert(pre.kids_ok(p));
            let ks = self.kids_at(p);
            let pks = pre.kids_at(p);
            if po == Some(p) {
                lemma_seq_without_props(pks, id);
                assert(ks == seq_without(pks, id));
                assert forall|i: int|
                    0 <= i < ks.len() implies self.has(#[trigger] ks[i]) && self.node_at(
                    ks[i],
                ).parent == Some(p) by {
                    assert(pks.contains(ks[i]));
                    let j = choose|j: int| 0 <= j < pks.len() && pks[j] == ks[i];
                    assert(pre.has(pks[j]));
                    assert(ks[i] != id);
                }
            } else {
                assert(ks == pks);
                assert forall|i: int|
                    0 <= i < ks.len() implies self.has(#[trigger] ks[i]) && self.node_at(
                    ks[i],
                ).parent == Some(p) by {
                    assert(pre.has(pks[i]));
                    // The cancelled node sat only in its own parent's list.
                    if pks[i] == id {
                        assert(pre.node_at(id).parent == Some(p));
                        assert(false);
                    }
                }
            }
            if self.has(p) {
                assert(pre.has(p));
                if po == Some(p) {
                    lemma_seq_without_props(pks, id);
                }
            }
        }
        assert forall|c: u64|
            #[trigger] self.has(c) && self.node_at(c).parent is Some implies self.kids_at(
            self.node_at(c).parent.unwrap(),
        ).contains(c) by {
            let q = self.node_at(c).parent.unwrap();
            assert(pre.has(c) && pre.node_at(c).parent is Some);
            assert(pre.kids_at(q).contains(c));
            if po == Some(q) {
                lemma_seq_without_props(pre.kids_at(q), id);
                assert(c != id);
            } else {
                assert(self.kids_at(q) == pre.kids_at(q));
            }
        }
    }

    /// Inserting a well-formed fresh record (and touching nothing else but
    /// the counter and the log) preserves the invariant.
    proof fn lemma_inv_after_insert_fresh(self, pre: LeaseRegistry, id: u64)
        requires
            pre.inv(),
            pre.next_id < u64::MAX,
            id == pre.next_id + 1,
            self.next_id == id,
            self.leases@ == pre.leases@.insert(id, self.leases@[id]),
            self.kids == pre.kids,
            self.node_ok(id),
            self.node_at(id).parent is Some ==> self.kids_at(
                self.node_at(id).parent.unwrap(),
            ).contains(id),
        ensures
            self.inv(),
    {
        assert forall|x: u64| #[trigger] self.has(x) implies self.node_ok(x) by {
            if x != id {
                assert(pre.has(x));
                assert(pre.node_ok(x));
                match self.node_at(x).parent {
                    Some(p) => {
                        assert(p < x);
                        assert(x <= pre.next_id);
                        assert(p != id);
                    },
                    None => {},
                }
            }
        }
        assert forall|p: u64| #![trigger self.kids_at(p)] self.kids_ok(p) by {
            assert(self.kids_at(p) == pre.kids_at(p));
            assert(pre.kids_ok(p));
            let ks = self.kids_at(p);
            assert forall|i: int|
                0 <= i < ks.len() implies self.has(#[trigger] ks[i]) && self.node_at(
                ks[i],
            ).parent == Some(p) by {
                assert(pre.has(ks[i]));
                assert(pre.node_ok(ks[i]));
                assert(ks[i] != id);
            }
            if self.has(p) {
                if p == id {
                    // Nothing can list the fresh id as its parent yet: a
                    // listed child would be an older node whose parent id
                    // exceeds its own, against the invariant.
                    if ks.len() > 0 {
                        let c = ks[0];
                        assert(pre.has(c));
                        assert(pre.node_ok(c));
                        assert(pre.node_at(c).parent == Some(p));
                        assert(false);
                    }
                } else {
                    assert(pre.has(p));
                }
            }
        }
        assert forall|c: u64|
            #[trigger] self.has(c) && self.node_at(c).parent is Some implies self.kids_at(
            self.node_at(c).parent.unwrap(),
        ).contains(c) by {
            if c != id {
                assert(pre.has(c) && pre.node_at(c).parent is Some);
                assert(pre.kids_at(pre.node_at(c).parent.unwrap()).contains(c));
            }
        }
    }
}

/// Where following parent links from `id` for at most `fuel` steps lands:
/// `Some(root)` when a parentless node is reached, `None` when the walk runs
/// into a missing record or out of fuel. Under the registry invariant a fuel
/// of `MAX_DEPTH` always suffices.
pub open spec fn root_from(m: Map<u64, Node>, id: u64, fuel: nat) -> Option<u64>
    decreases fuel,
{
    if !m.contains_key(id) {
        None
    } else {
        match m[id].parent {
            None => Some(id),
            Some(p) => if fuel == 0 {
                None
            } else {
                root_from(m, p, (fuel - 1) as nat)
            },
        }
    }
}

impl LeaseRegistry {
    /// The root that the parent-link walk from `id` reaches, if any.
    pub open spec fn root_of_spec(self, id: u64) -> Option<u64> {
        root_from(self.leases@, id, MAX_DEPTH as nat)
    }

    /// Looks up the lease record stored under `id`.
    pub fn get_lease(&self, id: u64) -> (r: Result<Node, Error>)
        ensures
            match r {
                Ok(n) => self.has(id) && n == self.node_at(id),
                Err(e) => e == Error::Unknown && !self.has(id),
            },
    {
        match self.leases.get(&id) {
            Some(n) => Ok(*n),
            None => Err(Error::Unknown),
        }
    }

    /// The terms digest of the lease `id`.
    pub fn terms_of(&self, id: u64) -> (r: Result<TermsDigest, Error>)
        ensures
            match r {
                Ok(t) => self.has(id) && t == self.node_at(id).terms,
                Err(e) => e == Error::Unknown && !self.has(id),
            },
    {
        match self.leases.get(&id) {
            Some(n) => Ok(n.terms),
            None => Err(Error::Unknown),
        }
    }

    /// The parent id of the lease `id`, `None` for a root.
    pub fn parent_of(&self, id: u64) -> (r: Result<Option<u64>, Error>)
        ensures
            match r {
                Ok(p) => self.has(id) && p == self.node_at(id).parent,
                Err(e) => e == Error::Unknown && !self.has(id),
            },
    {
        match self.leases.get(&id) {
            Some(n) => Ok(n.parent),
            None => Err(Error::Unknown),
        }
    }

    /// The full, unpaginated child sequence of `id` (empty when `id` has no
    /// children or no entry at all).
    pub fn children_of(&self, id: u64) -> (r: Vec<u64>)
        ensures
            r@ == self.kids_at(id),
    {
        let mut out: Vec<u64> = Vec::new();
        match self.kids.get(&id) {
            Some(v) => {
                let mut i: usize = 0;
                while i < v.len()
                    invariant
                        i <= v.len(),
                        out@ == v@.take(i as int),
                    decreases v.len() - i,
                {
                    out.push(v[i]);
                    i += 1;
                }
                proof {
                    assert(v@.take(v@.len() as int) == v@);
                }
            },
            None => {},
        }
        out
    }

    /// A flattened summary of the lease `id`: its id, parent (or the
    /// `NO_PARENT` sentinel), unit, lessee, depth and activity.
    pub fn node(&self, id: u64) -> (r: Result<(u64, u64, u64, u64, u32, bool), Error>)
        ensures
            match r {
                Ok(row) => {
                    let n = self.node_at(id);
                    &&& self.has(id)
                    &&& row == (
                        n.id,
                        match n.parent {
                            Some(p) => p,
                            None => NO_PARENT,
                        },
                        n.unit,
                        n.lessee,
                        n.depth,
                        n.active,
                    )
                },
                Err(e) => e == Error::Unknown && !self.has(id),
            },
    {
        match self.leases.get(&id) {
            Some(n) => Ok(
                (
                    n.id,
                    match n.parent {
                        Some(p) => p,
                        None => NO_PARENT,
                    },
                    n.unit,
                    n.lessee,
                    n.depth,
                    n.active,
                ),
            ),
            None => Err(Error::Unknown),
        }
    }

    /// Walks parent links from `id` until a root is reached. The depth cap
    /// bounds the walk; the walk fails `Unknown` exactly when it runs into a
    /// missing record (the starting id itself, or a dangling parent).
    pub fn root_of(&self, id: u64) -> (r: Result<u64, Error>)
        requires
            self.inv(),
        ensures
            match r {
                Ok(root) => {
                    &&& self.root_of_spec(id) == Some(root)
                    &&& self.has(root)
                    &&& self.node_at(root).parent is None
                },
                Err(e) => e == Error::Unknown && self.root_of_spec(id) is None,
            },
    {
        let mut cur = id;
        loop
            invariant
                self.inv(),
                root_from(self.leases@, cur, MAX_DEPTH as nat) == self.root_of_spec(id),
            decreases (if self.has(cur) {
                self.node_at(cur).depth as int
            } else {
                0
            }),
        {
            match self.leases.get(&cur) {
                Some(n) => {
                    match n.parent {
                        None => { return Ok(cur); },
                        Some(p) => {
                            proof {
                                assert(self.node_ok(cur));
                                assert(root_from(self.leases@, cur, MAX_DEPTH as nat)
                                    == root_from(self.leases@, p, (MAX_DEPTH - 1) as nat));
                                if self.has(p) {
                                    assert(self.node_ok(p));
                                }
                                self.lemma_root_fuel(p, (MAX_DEPTH - 1) as nat, MAX_DEPTH as nat);
                                assert(root_from(self.leases@, p, MAX_DEPTH as nat)
                                    == self.root_of_spec(id));
                            }
                            cur = p;
                        },
                    }
                },
                None => { return Err(Error::Unknown); },
            }
        }
    }

    /// The parent-link walk does not depend on the fuel, once the fuel
    /// covers the starting node's depth.
    proof fn lemma_root_fuel(self, start: u64, f1: nat, f2: nat)
        requires
            self.inv(),
            f1 <= f2,
            self.has(start) ==> self.node_at(start).depth <= f1,
        ensures
            root_from(self.leases@, start, f1) == root_from(self.leases@, start, f2),
        decreases f1,
    {
        let m = self.leases@;
        if m.contains_key(start) {
            assert(self.node_ok(start));
            match m[start].parent {
                None => {},
                Some(p) => {
                    assert(self.node_at(start).depth > 0);
                    assert(f1 >= 1);
                    if self.has(p) {
                        assert(self.node_ok(p));
                    }
                    self.lemma_root_fuel(p, (f1 - 1) as nat, (f2 - 1) as nat);
                },
            }
        }
    }
}

/// The sequence `s` with every occurrence of `x` filtered out, keeping the
/// relative order of the remaining elements.
pub open spec fn seq_without(s: Seq<u64>, x: u64) -> Seq<u64>
    decreases s.len(),
{
    if s.len() == 0 {
        s
    } else if s[0] == x {
        seq_without(s.drop_first(), x)
    } else {
        seq![s[0]] + seq_without(s.drop_first(), x)
    }
}

/// How the filter grows when one element is appended on the right.
proof fn lemma_seq_without_push(s: Seq<u64>, x: u64, z: u64)
    ensures
        seq_without(s.push(z), x) == if z == x {
            seq_without(s, x)
        } else {
            seq_without(s, x).push(z)
        },
    decreases s.len(),
{
    let sp = s.push(z);
    if s.len() == 0 {
        reveal_with_fuel(seq_without, 2);
        assert(sp.drop_first() =~= Seq::<u64>::empty());
        if z != x {
            assert(seq![z] + Seq::<u64>::empty() =~= seq![z]);
            assert(seq_without(s, x).push(z) =~= seq![z]);
        }
    } else {
        assert(sp[0] == s[0]);
        assert(sp.drop_first() =~= s.drop_first().push(z));
        lemma_seq_without_push(s.drop_first(), x, z);
        if s[0] != x && z != x {
            assert(seq![s[0]] + seq_without(s.drop_first(), x).push(z) =~= (seq![s[0]]
                + seq_without(s.drop_first(), x)).push(z));
        }
    }
    if z == x {
        assert(seq_without(sp, x) =~= seq_without(s, x));
    } else {
        assert(seq_without(sp, x) =~= seq_without(s, x).push(z));
    }
}

/// What the filter guarantees: the filtered value is gone, every other value
/// keeps its membership, no element appears from nowhere, the sequence does
/// not grow, and pairwise-distinct input stays pairwise distinct.
pub proof fn lemma_seq_without_props(s: Seq<u64>, x: u64)
    ensures
        ({
            let r = seq_without(s, x);
            &&& !r.contains(x)
            &&& forall|y: u64| y != x ==> (r.contains(y) <==> s.contains(y))
            &&& forall|i: int| 0 <= i < r.len() ==> s.contains(#[trigger] r[i])
            &&& r.len() <= s.len()
            &&& (forall|i: int, j: int| 0 <= i < j < s.len() ==> s[i] != s[j]) ==> (forall|
                i: int,
                j: int,
            |
                0 <= i < j < r.len() ==> r[i] != r[j])
        }),
    decreases s.len(),
{
    let r = seq_without(s, x);
    if s.len() == 0 {
        assert(!r.contains(x));
    } else {
        let t = s.drop_first();
        lemma_seq_without_props(t, x);
        let rt = seq_without(t, x);
        assert forall|y: u64| t.contains(y) implies s.contains(y) by {
            let i = choose|i: int| 0 <= i < t.len() && t[i] == y;
            assert(s[i + 1] == y);
        }
        assert forall|y: u64| s.contains(y) && y != s[0] implies t.contains(y) by {
            let i = choose|i: int| 0 <= i < s.len() && s[i] == y;
            assert(i != 0);
            assert(t[i - 1] == y);
        }
        if s[0] == x {
            assert(r == rt);
            assert(s.contains(s[0]));
            assert forall|y: u64| y != x && r.contains(y) implies s.contains(y) by {}
            if forall|i: int, j: int| 0 <= i < j < s.len() ==> s[i] != s[j] {
                assert forall|i: int, j: int| 0 <= i < j < t.len() implies t[i] != t[j] by {
                    assert(t[i] == s[i + 1]);
                    assert(t[j] == s[j + 1]);
                }
            }
        } else {
            assert(r == seq![s[0]] + rt);
            assert(r[0] == s[0]);
            assert forall|i: int| 0 <= i < r.len() implies s.contains(#[trigger] r[i]) by {
                if i == 0 {
                    assert(s.contains(s[0]));
                } else {
                    assert(r[i] == rt[i - 1]);
                    assert(t.contains(rt[i - 1]));
                }
            }
            if r.contains(x) {
                let i = choose|i: int| 0 <= i < r.len() && r[i] == x;
                assert(i != 0);
                assert(rt[i - 1] == x);
                assert(rt.contains(x));
                assert(false);
            }
            assert forall|y: u64| y != x && s.contains(y) implies r.contains(y) by {
                if y == s[0] {
                    assert(r[0] == y);
                } else {
                    assert(t.contains(y));
                    assert(rt.contains(y));
                    let i = choose|i: int| 0 <= i < rt.len() && rt[i] == y;
                    assert(r[i + 1] == y);
                }
            }
            assert forall|y: u64| y != x && r.contains(y) implies s.contains(y) by {
                let i = choose|i: int| 0 <= i < r.len() && r[i] == y;
                if i == 0 {
                    assert(s.contains(s[0]));
                } else {
                    assert(rt[i - 1] == y);
                    assert(rt.contains(y));
                }
            }
            if forall|i: int, j: int| 0 <= i < j < s.len() ==> s[i] != s[j] {
                assert forall|i: int, j: int| 0 <= i < j < t.len() implies t[i] != t[j] by {
                    assert(t[i] == s[i + 1]);
                    assert(t[j] == s[j + 1]);
                }
                assert forall|i: int, j: int| 0 <= i < j < r.len() implies r[i] != r[j] by {
                    if i == 0 {
                        assert(r[j] == rt[j - 1]);
                        assert(t.contains(rt[j - 1]));
                        let k = choose|k: int| 0 <= k < t.len() && t[k] == rt[j - 1];
                        assert(s[k + 1] == rt[j - 1]);
                        assert(s[0] != s[k + 1]);
                    } else {
                        assert(r[i] == rt[i - 1]);
                        assert(r[j] == rt[j - 1]);
                    }
                }
            }
        }
    }
}

} // verus!
