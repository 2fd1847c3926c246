//! Core data model of the lease registry: lease nodes, the terms digest,
//! error kinds, the event log entries, and the injected authorization gate.

use vstd::prelude::*;

verus! {

/// Depth cap of a lease tree: no child may be created under a parent whose
/// depth has reached this bound, so every node's depth stays within it.
pub const MAX_DEPTH: u32 = 10;

/// Upper bound that a `tree` page size is clamped to.
pub const PAGE_CAP: u32 = 100;

/// Sentinel standing for "no parent" in flattened tree rows.
pub const NO_PARENT: u64 = u64::MAX;

/// Content-addressed digest of the legal terms of a lease: a fixed-size
/// 32-byte value, compared only for equality and copied verbatim down a tree.
#[derive(Clone, Copy, PartialEq, Eq, Structural, Debug)]
pub struct TermsDigest {
    pub hi: u128,
    pub lo: u128,
}

/// One lease record, the unit of the delegation tree.
///
/// A node with `parent == None` is a root ("master") lease granted by a
/// landlord; any other node is a sublease granted by its parent's lessee.
#[derive(Clone, Copy, Debug)]
pub struct Node {
    /// Unique positive identifier, assigned once, never reused.
    pub id: u64,
    /// Identifier of the parent lease; `None` marks a root lease.
    pub parent: Option<u64>,
    /// Opaque identifier of the resource being leased; shared by a tree.
    pub unit: u64,
    /// Principal who granted this node.
    pub lessor: u64,
    /// Principal who received this node; mutable only before acceptance.
    pub lessee: u64,
    /// Distance from the tree's root; a root has depth 0.
    pub depth: u32,
    /// Terms digest, immutable after creation.
    pub terms: TermsDigest,
    /// Maximum number of direct children this node may have.
    pub limit: u32,
    /// Absolute expiration instant (advisory; not enforced by the engine).
    pub expiry_ts: u64,
    /// Set exactly once, by the lessee.
    pub accepted: bool,
    /// Togglable by the lessor, but only after acceptance.
    pub active: bool,
}

/// Named abort conditions of the registry. Every operation either succeeds
/// completely or returns one of these with the stores unchanged.
#[derive(Clone, Copy, PartialEq, Eq, Structural, Debug)]
pub enum Error {
    /// The acting principal did not approve the call.
    NotAuthorized,
    /// The referenced lease id is absent from the node store.
    Unknown,
    /// The referenced parent lease id is absent from the node store.
    Parent,
    /// A lease may not be created with a child limit of zero.
    LimitZero,
    /// A lease may not be created with an expiry of zero.
    BadExpiry,
    /// A sublease's terms digest must equal its parent's.
    TermsMismatch,
    /// A sublease's child limit must not exceed its parent's.
    LimitExceedsParent,
    /// A sublease's expiry must not exceed its parent's.
    ExpiryExceedsParent,
    /// The parent already sits at the depth cap.
    MaxDepth,
    /// A lessee may not grant a sublease to itself.
    SelfSublease,
    /// The parent's child limit is already reached.
    Limit,
    /// The node's terms diverged from its parent's (defense in depth).
    TermsDrift,
    /// Activation requires prior acceptance.
    NotAccepted,
    /// The node is already active.
    AlreadyActive,
    /// The node was already accepted.
    AlreadyAccepted,
}

/// One notification, appended to the registry's log by each successful
/// mutating call and consumed by external collaborators.
#[derive(Clone, Copy, PartialEq, Eq, Structural, Debug)]
pub enum Event {
    /// A root lease was created.
    Created { unit: u64, id: u64, lessee: u64 },
    /// A lease was accepted by its lessee.
    Accepted { id: u64 },
    /// A sublease was created under `parent`.
    SubCreated { parent: u64, id: u64, lessee: u64 },
    /// A lease was activated by its lessor.
    Activated { id: u64 },
    /// A lease was marked delinquent (deactivated) by its lessor.
    Delinquent { id: u64 },
    /// An unaccepted lease was cancelled and removed.
    Cancelled { id: u64 },
    /// The lessee of an unaccepted lease was replaced.
    Reassigned { id: u64, old_lessee: u64, new_lessee: u64 },
}

/// The authorization gate, injected into every mutating operation: it holds
/// the set of principals that approved the current call. How a principal
/// proves its approval (signatures, host capabilities) is the caller's
/// concern; the engine only consults the resulting predicate.
pub struct AuthGate {
    pub approved: Vec<u64>,
}

impl AuthGate {
    /// Whether `principal` approved the current call.
    pub open spec fn approves(&self, principal: u64) -> bool {
        self.approved@.contains(principal)
    }

    /// A gate on which no principal has approved anything.
    pub fn new() -> (gate: AuthGate)
        ensures
            forall|p: u64| !gate.approves(p),
    {
        AuthGate { approved: Vec::new() }
    }

    /// Records that `principal` approved the current call.
    pub fn allow(&mut self, principal: u64)
        ensures
            forall|q: u64|
                final(self).approves(q) <==> old(self).approves(q) || q == principal,
    {
        self.approved.push(principal);
        proof {
            let pre = old(self).approved@;
            let post = self.approved@;
            assert forall|q: u64| self.approves(q) <==> old(self).approves(q) || q == principal by {
                if old(self).approves(q) {
                    let i = choose|i: int| 0 <= i < pre.len() && pre[i] == q;
                    assert(post[i] == q);
                }
                if q == principal {
                    assert(post[pre.len() as int] == q);
                }
                if self.approves(q) {
                    let i = choose|i: int| 0 <= i < post.len() && post[i] == q;
                    if i < pre.len() {
                        assert(pre[i] == q);
                    }
                }
            }
        }
    }

    /// Answers whether `principal` approved the current call.
    pub fn approve(&self, principal: u64) -> (r: bool)
        ensures
            r == self.approves(principal),
    {
        let mut i: usize = 0;
        while i < self.approved.len()
            invariant
                i <= self.approved.len(),
                forall|k: int| 0 <= k < i ==> self.approved@[k] != principal,
            decreases self.approved.len() - i,
        {
            if self.approved[i] == principal {
                return true;
            }
            i += 1;
        }
        false
    }
}

} // verus!
