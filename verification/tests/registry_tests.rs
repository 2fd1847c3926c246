use leaselock::registry::LeaseRegistry;
use leaselock::types::{AuthGate, Error, Event, TermsDigest};

const UNIT: u64 = 1;
const LANDLORD: u64 = 10;
const MASTER: u64 = 11;
const SUB1: u64 = 12;
const SUB2: u64 = 13;
const SUB3: u64 = 14;

fn gate_for(principals: &[u64]) -> AuthGate {
    let mut gate = AuthGate::new();
    for &p in principals {
        gate.allow(p);
    }
    gate
}

fn digest(tag: u8) -> TermsDigest {
    TermsDigest { hi: tag as u128, lo: tag as u128 }
}

#[test]
fn graph_happy_path() {
    let mut reg = LeaseRegistry::new();
    let gate = gate_for(&[LANDLORD, MASTER, SUB1]);
    let terms = digest(0);

    let root = reg
        .create_master(&gate, UNIT, LANDLORD, MASTER, terms, 2, 2_000_000_000)
        .unwrap();
    reg.accept(&gate, root).unwrap();
    let child = reg
        .create_sublease(&gate, root, SUB1, terms, 2, 2_000_000_000)
        .unwrap();
    assert!(child > 0);
}

#[test]
fn test_terms_enforcement_happy_path() {
    let mut reg = LeaseRegistry::new();
    let gate = gate_for(&[LANDLORD, MASTER, SUB1, SUB2]);
    let terms = digest(1);

    let root = reg
        .create_master(&gate, UNIT, LANDLORD, MASTER, terms, 2, 2_000_000_000)
        .unwrap();
    reg.accept(&gate, root).unwrap();

    let child1 = reg
        .create_sublease(&gate, root, SUB1, terms, 2, 2_000_000_000)
        .unwrap();
    reg.accept(&gate, child1).unwrap();

    let child2 = reg
        .create_sublease(&gate, child1, SUB2, terms, 2, 2_000_000_000)
        .unwrap();
    assert!(child2 > 0);
}

#[test]
fn test_terms_mismatch_rejection() {
    let mut reg = LeaseRegistry::new();
    let gate = gate_for(&[LANDLORD, MASTER, SUB1]);
    let terms1 = digest(1);
    let terms2 = digest(2);

    let root = reg
        .create_master(&gate, UNIT, LANDLORD, MASTER, terms1, 2, 2_000_000_000)
        .unwrap();
    reg.accept(&gate, root).unwrap();

    let r = reg.create_sublease(&gate, root, SUB1, terms2, 2, 2_000_000_000);
    assert_eq!(r, Err(Error::TermsMismatch));
}

#[test]
fn test_limit_exceeds_parent() {
    let mut reg = LeaseRegistry::new();
    let gate = gate_for(&[LANDLORD, MASTER, SUB1]);
    let terms = digest(1);

    let root = reg
        .create_master(&gate, UNIT, LANDLORD, MASTER, terms, 2, 2_000_000_000)
        .unwrap();
    reg.accept(&gate, root).unwrap();

    let r = reg.create_sublease(&gate, root, SUB1, terms, 3, 2_000_000_000);
    assert_eq!(r, Err(Error::LimitExceedsParent));
}

#[test]
fn test_terms_of_query() {
    let mut reg = LeaseRegistry::new();
    let gate = gate_for(&[LANDLORD, MASTER]);
    let terms = digest(42);

    let root = reg
        .create_master(&gate, UNIT, LANDLORD, MASTER, terms, 2, 2_000_000_000)
        .unwrap();

    let retrieved = reg.terms_of(root).unwrap();
    assert_eq!(retrieved, terms);
}

#[test]
fn test_accept_validates_terms() {
    let mut reg = LeaseRegistry::new();
    let gate = gate_for(&[LANDLORD, MASTER, SUB1]);
    let terms1 = digest(1);

    let root = reg
        .create_master(&gate, UNIT, LANDLORD, MASTER, terms1, 2, 2_000_000_000)
        .unwrap();
    reg.accept(&gate, root).unwrap();

    let child = reg
        .create_sublease(&gate, root, SUB1, terms1, 2, 2_000_000_000)
        .unwrap();

    // Accept succeeds with matching terms.
    assert_eq!(reg.accept(&gate, child), Ok(()));
}

#[test]
fn test_accept_rejects_terms_drift() {
    // Defense in depth: corrupt the stored child record the way a broken
    // backing store could, and watch acceptance refuse the drifted terms.
    let mut reg = LeaseRegistry::new();
    let gate = gate_for(&[LANDLORD, MASTER, SUB1]);
    let terms = digest(1);

    let root = reg
        .create_master(&gate, UNIT, LANDLORD, MASTER, terms, 2, 2_000_000_000)
        .unwrap();
    reg.accept(&gate, root).unwrap();
    let child = reg
        .create_sublease(&gate, root, SUB1, terms, 2, 2_000_000_000)
        .unwrap();

    let mut node = reg.get_lease(child).unwrap();
    node.terms = digest(9);
    reg.leases.insert(child, node);

    assert_eq!(reg.accept(&gate, child), Err(Error::TermsDrift));
}

#[test]
fn test_expiry_exceeds_parent() {
    let mut reg = LeaseRegistry::new();
    let gate = gate_for(&[LANDLORD, MASTER, SUB1]);
    let terms = digest(1);

    let root = reg
        .create_master(&gate, UNIT, LANDLORD, MASTER, terms, 2, 1_000_000_000)
        .unwrap();
    reg.accept(&gate, root).unwrap();

    let r = reg.create_sublease(&gate, root, SUB1, terms, 2, 2_000_000_000);
    assert_eq!(r, Err(Error::ExpiryExceedsParent));
}

#[test]
fn test_max_depth_enforcement() {
    let mut reg = LeaseRegistry::new();
    let terms = digest(1);
    let mut principals: Vec<u64> = vec![LANDLORD, MASTER];
    for p in 0..12u64 {
        principals.push(100 + p);
    }
    let gate = gate_for(&principals);

    let mut current = reg
        .create_master(&gate, UNIT, LANDLORD, MASTER, terms, 1, 2_000_000_000)
        .unwrap();
    reg.accept(&gate, current).unwrap();

    // Build a chain down to the depth cap.
    for p in 0..10u64 {
        current = reg
            .create_sublease(&gate, current, 100 + p, terms, 1, 2_000_000_000)
            .unwrap();
        reg.accept(&gate, current).unwrap();
    }

    // The parent now sits at the cap: one level more must fail.
    let r = reg.create_sublease(&gate, current, 100 + 10, terms, 1, 2_000_000_000);
    assert_eq!(r, Err(Error::MaxDepth));
}

#[test]
fn test_flexible_limit_allows_lower() {
    let mut reg = LeaseRegistry::new();
    let gate = gate_for(&[LANDLORD, MASTER, SUB1]);
    let terms = digest(1);

    let root = reg
        .create_master(&gate, UNIT, LANDLORD, MASTER, terms, 3, 2_000_000_000)
        .unwrap();
    reg.accept(&gate, root).unwrap();

    let child = reg
        .create_sublease(&gate, root, SUB1, terms, 2, 2_000_000_000)
        .unwrap();
    assert!(child > 0);
}

#[test]
fn test_read_apis() {
    let mut reg = LeaseRegistry::new();
    let gate = gate_for(&[LANDLORD, MASTER, SUB1, SUB2]);
    let terms = digest(1);

    let root = reg
        .create_master(&gate, UNIT, LANDLORD, MASTER, terms, 2, 2_000_000_000)
        .unwrap();
    reg.accept(&gate, root).unwrap();

    let child1 = reg
        .create_sublease(&gate, root, SUB1, terms, 2, 2_000_000_000)
        .unwrap();
    let child2 = reg
        .create_sublease(&gate, root, SUB2, terms, 2, 2_000_000_000)
        .unwrap();

    let lease = reg.get_lease(child1).unwrap();
    assert_eq!(lease.id, child1);
    assert_eq!(lease.parent, Some(root));
    assert_eq!(lease.depth, 1);

    let children = reg.children_of(root);
    assert_eq!(children.len(), 2);
    assert!(children.contains(&child1));
    assert!(children.contains(&child2));

    assert_eq!(reg.parent_of(child1).unwrap(), Some(root));
    assert_eq!(reg.parent_of(root).unwrap(), None);

    assert_eq!(reg.root_of(child1).unwrap(), root);
    assert_eq!(reg.root_of(child2).unwrap(), root);
    assert_eq!(reg.root_of(root).unwrap(), root);
}

#[test]
fn test_activation_flow() {
    let mut reg = LeaseRegistry::new();
    let gate = gate_for(&[LANDLORD, MASTER, SUB1]);
    let terms = digest(1);

    let root = reg
        .create_master(&gate, UNIT, LANDLORD, MASTER, terms, 2, 2_000_000_000)
        .unwrap();
    reg.accept(&gate, root).unwrap();

    let child = reg
        .create_sublease(&gate, root, SUB1, terms, 2, 2_000_000_000)
        .unwrap();
    reg.accept(&gate, child).unwrap();

    reg.set_active(&gate, root).unwrap();
    reg.set_active(&gate, child).unwrap();

    assert!(reg.get_lease(root).unwrap().active);
    assert!(reg.get_lease(child).unwrap().active);

    reg.set_delinquent(&gate, child).unwrap();
    assert!(!reg.get_lease(child).unwrap().active);
}

#[test]
fn test_set_active_requires_accepted() {
    let mut reg = LeaseRegistry::new();
    let gate = gate_for(&[LANDLORD, MASTER]);
    let terms = digest(1);

    let root = reg
        .create_master(&gate, UNIT, LANDLORD, MASTER, terms, 2, 2_000_000_000)
        .unwrap();

    assert_eq!(reg.set_active(&gate, root), Err(Error::NotAccepted));
}

#[test]
fn test_set_active_already_active() {
    let mut reg = LeaseRegistry::new();
    let gate = gate_for(&[LANDLORD, MASTER]);
    let terms = digest(1);

    let root = reg
        .create_master(&gate, UNIT, LANDLORD, MASTER, terms, 2, 2_000_000_000)
        .unwrap();
    reg.accept(&gate, root).unwrap();
    reg.set_active(&gate, root).unwrap();

    assert_eq!(reg.set_active(&gate, root), Err(Error::AlreadyActive));
}

#[test]
fn test_cancel_unaccepted() {
    let mut reg = LeaseRegistry::new();
    let gate = gate_for(&[LANDLORD, MASTER, SUB1]);
    let terms = digest(1);

    let root = reg
        .create_master(&gate, UNIT, LANDLORD, MASTER, terms, 2, 2_000_000_000)
        .unwrap();
    reg.accept(&gate, root).unwrap();

    let child = reg
        .create_sublease(&gate, root, SUB1, terms, 2, 2_000_000_000)
        .unwrap();

    let children_before = reg.children_of(root);
    assert_eq!(children_before.len(), 1);
    assert!(children_before.contains(&child));

    reg.cancel_unaccepted(&gate, child).unwrap();

    let children_after = reg.children_of(root);
    assert_eq!(children_after.len(), 0);
    // The record itself is gone too.
    assert_eq!(reg.get_lease(child).unwrap_err(), Error::Unknown);
}

#[test]
fn test_cancel_unaccepted_fails_if_accepted() {
    let mut reg = LeaseRegistry::new();
    let gate = gate_for(&[LANDLORD, MASTER, SUB1]);
    let terms = digest(1);

    let root = reg
        .create_master(&gate, UNIT, LANDLORD, MASTER, terms, 2, 2_000_000_000)
        .unwrap();
    reg.accept(&gate, root).unwrap();

    let child = reg
        .create_sublease(&gate, root, SUB1, terms, 2, 2_000_000_000)
        .unwrap();
    reg.accept(&gate, child).unwrap();

    assert_eq!(reg.cancel_unaccepted(&gate, child), Err(Error::AlreadyAccepted));
}

#[test]
fn test_replace_sublessee() {
    let mut reg = LeaseRegistry::new();
    let gate = gate_for(&[LANDLORD, MASTER, SUB1, SUB2]);
    let terms = digest(1);

    let root = reg
        .create_master(&gate, UNIT, LANDLORD, MASTER, terms, 2, 2_000_000_000)
        .unwrap();
    reg.accept(&gate, root).unwrap();

    let child = reg
        .create_sublease(&gate, root, SUB1, terms, 2, 2_000_000_000)
        .unwrap();

    reg.replace_sublessee(&gate, child, SUB2).unwrap();

    assert_eq!(reg.get_lease(child).unwrap().lessee, SUB2);
}

#[test]
fn test_replace_sublessee_fails_if_accepted() {
    let mut reg = LeaseRegistry::new();
    let gate = gate_for(&[LANDLORD, MASTER, SUB1, SUB2]);
    let terms = digest(1);

    let root = reg
        .create_master(&gate, UNIT, LANDLORD, MASTER, terms, 2, 2_000_000_000)
        .unwrap();
    reg.accept(&gate, root).unwrap();

    let child = reg
        .create_sublease(&gate, root, SUB1, terms, 2, 2_000_000_000)
        .unwrap();
    reg.accept(&gate, child).unwrap();

    assert_eq!(reg.replace_sublessee(&gate, child, SUB2), Err(Error::AlreadyAccepted));
}

#[test]
fn test_multi_level_recursion() {
    let mut reg = LeaseRegistry::new();
    let gate = gate_for(&[LANDLORD, MASTER, SUB1, SUB2, SUB3]);
    let terms = digest(1);

    let root = reg
        .create_master(&gate, UNIT, LANDLORD, MASTER, terms, 2, 2_000_000_000)
        .unwrap();
    reg.accept(&gate, root).unwrap();

    let child1 = reg
        .create_sublease(&gate, root, SUB1, terms, 2, 2_000_000_000)
        .unwrap();
    reg.accept(&gate, child1).unwrap();

    let child2 = reg
        .create_sublease(&gate, child1, SUB2, terms, 1, 2_000_000_000)
        .unwrap();
    reg.accept(&gate, child2).unwrap();

    let child3 = reg
        .create_sublease(&gate, child2, SUB3, terms, 1, 2_000_000_000)
        .unwrap();
    reg.accept(&gate, child3).unwrap();

    assert_eq!(reg.root_of(child3).unwrap(), root);
    assert_eq!(reg.parent_of(child3).unwrap(), Some(child2));
    assert_eq!(reg.parent_of(child2).unwrap(), Some(child1));
    assert_eq!(reg.parent_of(child1).unwrap(), Some(root));
    assert_eq!(reg.parent_of(root).unwrap(), None);

    assert_eq!(reg.get_lease(root).unwrap().depth, 0);
    assert_eq!(reg.get_lease(child1).unwrap().depth, 1);
    assert_eq!(reg.get_lease(child2).unwrap().depth, 2);
    assert_eq!(reg.get_lease(child3).unwrap().depth, 3);

    assert_eq!(reg.children_of(root).len(), 1);
    assert_eq!(reg.children_of(child1).len(), 1);
    assert_eq!(reg.children_of(child2).len(), 1);
    assert_eq!(reg.children_of(child3).len(), 0);
}

#[test]
fn test_creation_validation_errors() {
    let mut reg = LeaseRegistry::new();
    let gate = gate_for(&[LANDLORD, MASTER, SUB1]);
    let terms = digest(1);

    // Root creation rejects a zero limit and a zero expiry.
    assert_eq!(
        reg.create_master(&gate, UNIT, LANDLORD, MASTER, terms, 0, 2_000_000_000),
        Err(Error::LimitZero)
    );
    assert_eq!(
        reg.create_master(&gate, UNIT, LANDLORD, MASTER, terms, 2, 0),
        Err(Error::BadExpiry)
    );

    // An unapproved landlord is turned away before any rule runs.
    let empty_gate = AuthGate::new();
    assert_eq!(
        reg.create_master(&empty_gate, UNIT, LANDLORD, MASTER, terms, 2, 2_000_000_000),
        Err(Error::NotAuthorized)
    );

    let root = reg
        .create_master(&gate, UNIT, LANDLORD, MASTER, terms, 2, 2_000_000_000)
        .unwrap();

    // Sublease creation names a missing parent distinctly.
    assert_eq!(
        reg.create_sublease(&gate, root + 100, SUB1, terms, 1, 2_000_000_000),
        Err(Error::Parent)
    );
    // Self-delegation is refused.
    assert_eq!(
        reg.create_sublease(&gate, root, MASTER, terms, 1, 2_000_000_000),
        Err(Error::SelfSublease)
    );
    // Zero limit and zero expiry are refused for subleases too.
    assert_eq!(
        reg.create_sublease(&gate, root, SUB1, terms, 0, 2_000_000_000),
        Err(Error::LimitZero)
    );
    assert_eq!(reg.create_sublease(&gate, root, SUB1, terms, 1, 0), Err(Error::BadExpiry));

    // Reads of unknown ids fail distinctly.
    assert_eq!(reg.terms_of(root + 100), Err(Error::Unknown));
    assert_eq!(reg.root_of(root + 100), Err(Error::Unknown));
    assert_eq!(reg.set_active(&gate, root + 100), Err(Error::Unknown));
}

#[test]
fn test_fanout_limit() {
    // A root with room for two children takes two and refuses a third.
    let mut reg = LeaseRegistry::new();
    let gate = gate_for(&[LANDLORD, MASTER, SUB1, SUB2, SUB3]);
    let terms = digest(1);

    let root = reg
        .create_master(&gate, UNIT, LANDLORD, MASTER, terms, 2, 2_000_000_000)
        .unwrap();
    reg.accept(&gate, root).unwrap();

    reg.create_sublease(&gate, root, SUB1, terms, 1, 2_000_000_000).unwrap();
    reg.create_sublease(&gate, root, SUB2, terms, 1, 2_000_000_000).unwrap();
    let r = reg.create_sublease(&gate, root, SUB3, terms, 1, 2_000_000_000);
    assert_eq!(r, Err(Error::Limit));
}

#[test]
fn test_event_log() {
    let mut reg = LeaseRegistry::new();
    let gate = gate_for(&[LANDLORD, MASTER, SUB1]);
    let terms = digest(1);

    let root = reg
        .create_master(&gate, UNIT, LANDLORD, MASTER, terms, 2, 2_000_000_000)
        .unwrap();
    reg.accept(&gate, root).unwrap();
    let child = reg
        .create_sublease(&gate, root, SUB1, terms, 1, 2_000_000_000)
        .unwrap();
    reg.cancel_unaccepted(&gate, child).unwrap();

    assert_eq!(
        reg.events,
        vec![
            Event::Created { unit: UNIT, id: root, lessee: MASTER },
            Event::Accepted { id: root },
            Event::SubCreated { parent: root, id: child, lessee: SUB1 },
            Event::Cancelled { id: child },
        ]
    );

    // A failed mutation leaves the log untouched.
    let before = reg.events.len();
    assert!(reg.set_active(&gate, child).is_err());
    assert_eq!(reg.events.len(), before);
}

#[test]
fn test_accept_idempotent() {
    let mut reg = LeaseRegistry::new();
    let gate = gate_for(&[LANDLORD, MASTER]);
    let terms = digest(1);

    let root = reg
        .create_master(&gate, UNIT, LANDLORD, MASTER, terms, 2, 2_000_000_000)
        .unwrap();
    reg.accept(&gate, root).unwrap();
    let events_before = reg.events.len();

    // A repeated acceptance is a silent no-op.
    assert_eq!(reg.accept(&gate, root), Ok(()));
    assert_eq!(reg.events.len(), events_before);
}
