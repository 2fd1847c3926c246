use leaselock::registry::LeaseRegistry;
use leaselock::types::{AuthGate, TermsDigest, NO_PARENT};

const UNIT: u64 = 1;
const LANDLORD: u64 = 10;
const MASTER: u64 = 11;
const SUB1: u64 = 12;
const SUB2: u64 = 13;
const SUB3: u64 = 14;
const SUB4: u64 = 15;
const SUB5: u64 = 16;

fn gate_for(principals: &[u64]) -> AuthGate {
    let mut gate = AuthGate::new();
    for &p in principals {
        gate.allow(p);
    }
    gate
}

fn digest(tag: u8) -> TermsDigest {
    TermsDigest { hi: tag as u128, lo: tag as u128 }
}

#[test]
fn test_tree_basic() {
    let mut reg = LeaseRegistry::new();
    let gate = gate_for(&[LANDLORD, MASTER, SUB1, SUB2, SUB3]);
    let terms = digest(1);

    let root = reg
        .create_master(&gate, UNIT, LANDLORD, MASTER, terms, 2, 2_000_000_000)
        .unwrap();
    reg.accept(&gate, root).unwrap();

    let child1 = reg
        .create_sublease(&gate, root, SUB1, terms, 2, 2_000_000_000)
        .unwrap();
    reg.accept(&gate, child1).unwrap();

    let child2 = reg
        .create_sublease(&gate, child1, SUB2, terms, 1, 2_000_000_000)
        .unwrap();
    reg.accept(&gate, child2).unwrap();

    let child3 = reg
        .create_sublease(&gate, child2, SUB3, terms, 1, 2_000_000_000)
        .unwrap();
    reg.accept(&gate, child3).unwrap();

    let (rows, next_cursor) = reg.tree(root, true, 0, 100, 0);

    assert_eq!(rows.len(), 4);
    assert_eq!(next_cursor, 0);

    assert_eq!(rows[0].0, root);
    assert_eq!(rows[0].1, NO_PARENT);
    assert_eq!(rows[0].3, 0);

    assert_eq!(rows[1].0, child1);
    assert_eq!(rows[1].1, root);
    assert_eq!(rows[1].3, 1);

    assert_eq!(rows[2].0, child2);
    assert_eq!(rows[2].1, child1);
    assert_eq!(rows[2].3, 2);

    assert_eq!(rows[3].0, child3);
    assert_eq!(rows[3].1, child2);
    assert_eq!(rows[3].3, 3);
}

#[test]
fn test_tree_pagination() {
    let mut reg = LeaseRegistry::new();
    let gate = gate_for(&[LANDLORD, MASTER, SUB1, SUB2, SUB3, SUB4, SUB5]);
    let terms = digest(1);

    let root = reg
        .create_master(&gate, UNIT, LANDLORD, MASTER, terms, 5, 2_000_000_000)
        .unwrap();
    reg.accept(&gate, root).unwrap();

    for sub in [SUB1, SUB2, SUB3, SUB4, SUB5] {
        let child = reg
            .create_sublease(&gate, root, sub, terms, 1, 2_000_000_000)
            .unwrap();
        reg.accept(&gate, child).unwrap();
    }

    let (page1, cursor1) = reg.tree(root, true, 0, 3, 0);
    assert_eq!(page1.len(), 3);
    assert!(cursor1 > 0);

    let (page2, _cursor2) = reg.tree(root, true, 0, 3, cursor1);
    assert!(page2.len() > 0, "Second page should have some results, got {}", page2.len());
    assert_eq!(page1.len() + page2.len(), 6);
}

#[test]
fn test_tree_pages_match_full_walk() {
    // Chaining next cursors must reproduce the unpaginated emission
    // exactly, rows and order alike.
    let mut reg = LeaseRegistry::new();
    let gate = gate_for(&[LANDLORD, MASTER, SUB1, SUB2, SUB3, SUB4, SUB5]);
    let terms = digest(1);

    let root = reg
        .create_master(&gate, UNIT, LANDLORD, MASTER, terms, 3, 2_000_000_000)
        .unwrap();
    reg.accept(&gate, root).unwrap();

    let child1 = reg
        .create_sublease(&gate, root, SUB1, terms, 2, 2_000_000_000)
        .unwrap();
    reg.accept(&gate, child1).unwrap();
    let child2 = reg
        .create_sublease(&gate, root, SUB2, terms, 2, 2_000_000_000)
        .unwrap();
    reg.accept(&gate, child2).unwrap();
    for (parent, sub) in [(child1, SUB3), (child1, SUB4), (child2, SUB5)] {
        let c = reg
            .create_sublease(&gate, parent, sub, terms, 1, 2_000_000_000)
            .unwrap();
        reg.accept(&gate, c).unwrap();
    }

    let (full, _) = reg.tree(root, true, 0, 100, 0);
    assert_eq!(full.len(), 6);

    let mut collected = Vec::new();
    let mut cursor = 0u64;
    loop {
        let (page, next) = reg.tree(root, true, 0, 2, cursor);
        collected.extend(page);
        if next == 0 {
            break;
        }
        cursor = next;
    }
    assert_eq!(collected, full);
}

#[test]
fn test_tree_inactive_filter() {
    let mut reg = LeaseRegistry::new();
    let gate = gate_for(&[LANDLORD, MASTER, SUB1, SUB2]);
    let terms = digest(1);

    let root = reg
        .create_master(&gate, UNIT, LANDLORD, MASTER, terms, 2, 2_000_000_000)
        .unwrap();
    reg.accept(&gate, root).unwrap();
    reg.set_active(&gate, root).unwrap();

    let child1 = reg
        .create_sublease(&gate, root, SUB1, terms, 1, 2_000_000_000)
        .unwrap();
    reg.accept(&gate, child1).unwrap();
    reg.set_active(&gate, child1).unwrap();

    let child2 = reg
        .create_sublease(&gate, root, SUB2, terms, 1, 2_000_000_000)
        .unwrap();
    reg.accept(&gate, child2).unwrap();
    // child2 stays inactive.

    let (active_rows, _) = reg.tree(root, false, 0, 100, 0);
    assert_eq!(active_rows.len(), 2);

    let (all_rows, _) = reg.tree(root, true, 0, 100, 0);
    assert_eq!(all_rows.len(), 3);
}

#[test]
fn test_tree_max_depth() {
    let mut reg = LeaseRegistry::new();
    let gate = gate_for(&[LANDLORD, MASTER, SUB1, SUB2, SUB3, SUB4, SUB5]);
    let terms = digest(1);

    let root = reg
        .create_master(&gate, UNIT, LANDLORD, MASTER, terms, 1, 2_000_000_000)
        .unwrap();
    reg.accept(&gate, root).unwrap();

    let mut current = root;
    for sub in [SUB1, SUB2, SUB3, SUB4, SUB5] {
        current = reg
            .create_sublease(&gate, current, sub, terms, 1, 2_000_000_000)
            .unwrap();
        reg.accept(&gate, current).unwrap();
    }

    let (rows, _) = reg.tree(root, true, 2, 100, 0);
    assert_eq!(rows.len(), 3);

    assert_eq!(rows[0].3, 0);
    assert_eq!(rows[1].3, 1);
    assert_eq!(rows[2].3, 2);
}

#[test]
fn test_node_helper() {
    let mut reg = LeaseRegistry::new();
    let gate = gate_for(&[LANDLORD, MASTER]);
    let terms = digest(1);

    let root = reg
        .create_master(&gate, UNIT, LANDLORD, MASTER, terms, 2, 2_000_000_000)
        .unwrap();
    reg.accept(&gate, root).unwrap();

    let (id, parent, unit, lessee, depth, active) = reg.node(root).unwrap();

    assert_eq!(id, root);
    assert_eq!(parent, NO_PARENT);
    assert_eq!(unit, UNIT);
    assert_eq!(lessee, MASTER);
    assert_eq!(depth, 0);
    assert_eq!(active, false);
}

#[test]
fn test_children_pagination() {
    let mut reg = LeaseRegistry::new();
    let gate = gate_for(&[LANDLORD, MASTER, SUB1, SUB2, SUB3, SUB4, SUB5]);
    let terms = digest(1);

    let root = reg
        .create_master(&gate, UNIT, LANDLORD, MASTER, terms, 5, 2_000_000_000)
        .unwrap();
    reg.accept(&gate, root).unwrap();

    for sub in [SUB1, SUB2, SUB3, SUB4, SUB5] {
        let child = reg
            .create_sublease(&gate, root, sub, terms, 1, 2_000_000_000)
            .unwrap();
        reg.accept(&gate, child).unwrap();
    }

    let (page1, cursor1) = reg.children(root, 2, 0);
    assert_eq!(page1.len(), 2);
    assert!(cursor1 > 0);

    let (page2, cursor2) = reg.children(root, 2, cursor1);
    assert_eq!(page2.len(), 2);
    assert!(cursor2 > 0);

    let (page3, cursor3) = reg.children(root, 2, cursor2);
    assert_eq!(page3.len(), 1);
    assert_eq!(cursor3, 0);
}

#[test]
fn test_children_five_siblings_pages_of_three() {
    // Five siblings at a page limit of three: a full first page with a
    // resumable cursor, then the remaining two and a terminal cursor.
    let mut reg = LeaseRegistry::new();
    let gate = gate_for(&[LANDLORD, MASTER, SUB1, SUB2, SUB3, SUB4, SUB5]);
    let terms = digest(1);

    let root = reg
        .create_master(&gate, UNIT, LANDLORD, MASTER, terms, 5, 2_000_000_000)
        .unwrap();
    reg.accept(&gate, root).unwrap();

    let mut ids = Vec::new();
    for sub in [SUB1, SUB2, SUB3, SUB4, SUB5] {
        ids.push(
            reg.create_sublease(&gate, root, sub, terms, 1, 2_000_000_000)
                .unwrap(),
        );
    }

    let (page1, cursor1) = reg.children(root, 3, 0);
    assert_eq!(page1, ids[0..3].to_vec());
    assert!(cursor1 > 0);
    assert_eq!(cursor1, ids[2]);

    let (page2, cursor2) = reg.children(root, 3, cursor1);
    assert_eq!(page2, ids[3..5].to_vec());
    assert_eq!(cursor2, 0);
}

#[test]
fn test_children_exact_fit_is_terminal() {
    // A page filled exactly to the limit with nothing left behind it ends
    // the walk: the cursor comes back 0.
    let mut reg = LeaseRegistry::new();
    let gate = gate_for(&[LANDLORD, MASTER, SUB1, SUB2]);
    let terms = digest(1);

    let root = reg
        .create_master(&gate, UNIT, LANDLORD, MASTER, terms, 2, 2_000_000_000)
        .unwrap();
    reg.accept(&gate, root).unwrap();
    reg.create_sublease(&gate, root, SUB1, terms, 1, 2_000_000_000).unwrap();
    reg.create_sublease(&gate, root, SUB2, terms, 1, 2_000_000_000).unwrap();

    let (page, cursor) = reg.children(root, 2, 0);
    assert_eq!(page.len(), 2);
    assert_eq!(cursor, 0);
}

#[test]
fn test_tree_missing_root_and_unknown_cursor() {
    let mut reg = LeaseRegistry::new();
    let gate = gate_for(&[LANDLORD, MASTER]);
    let terms = digest(1);

    // A walk from an id that was never created visits nothing.
    let (rows, next) = reg.tree(42, true, 0, 100, 0);
    assert_eq!(rows.len(), 0);
    assert_eq!(next, 0);

    let root = reg
        .create_master(&gate, UNIT, LANDLORD, MASTER, terms, 2, 2_000_000_000)
        .unwrap();

    // A cursor that is never visited yields an empty terminal page.
    let (rows, next) = reg.tree(root, true, 0, 100, root + 5);
    assert_eq!(rows.len(), 0);
    assert_eq!(next, 0);

    let (page, next) = reg.children(root, 3, root + 5);
    assert_eq!(page.len(), 0);
    assert_eq!(next, 0);
}

#[test]
fn test_tree_page_limit_zero_still_emits_one() {
    // The page cut is only checked after an emission, so a zero limit lets
    // a single row through and resumes after it.
    let mut reg = LeaseRegistry::new();
    let gate = gate_for(&[LANDLORD, MASTER]);
    let terms = digest(1);

    let root = reg
        .create_master(&gate, UNIT, LANDLORD, MASTER, terms, 2, 2_000_000_000)
        .unwrap();

    let (rows, next) = reg.tree(root, true, 0, 0, 0);
    assert_eq!(rows.len(), 1);
    assert_eq!(rows[0].0, root);
    assert_eq!(next, root);

    let (rows2, next2) = reg.tree(root, true, 0, 0, next);
    assert_eq!(rows2.len(), 0);
    assert_eq!(next2, 0);
}

#[test]
fn test_tree_cursor_skips_filtered_nodes() {
    // Resuming from a cursor keeps breadth-first order even when nodes
    // before the cursor are filtered out.
    let mut reg = LeaseRegistry::new();
    let gate = gate_for(&[LANDLORD, MASTER, SUB1, SUB2, SUB3]);
    let terms = digest(1);

    let root = reg
        .create_master(&gate, UNIT, LANDLORD, MASTER, terms, 3, 2_000_000_000)
        .unwrap();
    reg.accept(&gate, root).unwrap();
    reg.set_active(&gate, root).unwrap();

    let mut kids = Vec::new();
    for sub in [SUB1, SUB2, SUB3] {
        let c = reg
            .create_sublease(&gate, root, sub, terms, 1, 2_000_000_000)
            .unwrap();
        reg.accept(&gate, c).unwrap();
        kids.push(c);
    }
    // Only the middle child becomes active.
    reg.set_active(&gate, kids[1]).unwrap();

    let (page1, cursor1) = reg.tree(root, false, 0, 1, 0);
    assert_eq!(page1.len(), 1);
    assert_eq!(page1[0].0, root);
    assert_eq!(cursor1, root);

    let (page2, _) = reg.tree(root, false, 0, 100, cursor1);
    assert_eq!(page2.len(), 1);
    assert_eq!(page2[0].0, kids[1]);
}
