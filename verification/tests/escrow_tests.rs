use leaselock::escrow::{Escrow, EscrowError, EscrowStatus, TokenTransfer};
use leaselock::types::AuthGate;

const TENANT: u64 = 20;
const LANDLORD: u64 = 21;
const ARBITRATOR: u64 = 22;
const TOKEN: u64 = 30;
const AMOUNT: i128 = 1_000;

fn arbitrator_gate() -> AuthGate {
    let mut gate = AuthGate::new();
    gate.allow(ARBITRATOR);
    gate
}

#[test]
fn test_escrow_release_flow() {
    let mut escrow = Escrow::init(TENANT, LANDLORD, ARBITRATOR, TOKEN, AMOUNT);
    assert_eq!(escrow.status(), EscrowStatus::Init);

    let deposit = escrow.deposit().unwrap();
    assert_eq!(
        deposit,
        TokenTransfer { from_escrow: false, counterparty: TENANT, amount: AMOUNT }
    );
    assert_eq!(escrow.status(), EscrowStatus::Funded);

    let payout = escrow.release(&arbitrator_gate()).unwrap();
    assert_eq!(
        payout,
        TokenTransfer { from_escrow: true, counterparty: LANDLORD, amount: AMOUNT }
    );
    assert_eq!(escrow.status(), EscrowStatus::Released);
}

#[test]
fn test_escrow_refund_flow() {
    let mut escrow = Escrow::init(TENANT, LANDLORD, ARBITRATOR, TOKEN, AMOUNT);
    escrow.deposit().unwrap();

    let payout = escrow.refund(&arbitrator_gate()).unwrap();
    assert_eq!(
        payout,
        TokenTransfer { from_escrow: true, counterparty: TENANT, amount: AMOUNT }
    );
    assert_eq!(escrow.status(), EscrowStatus::Refunded);
}

#[test]
fn test_escrow_bad_states() {
    let mut escrow = Escrow::init(TENANT, LANDLORD, ARBITRATOR, TOKEN, AMOUNT);
    let gate = arbitrator_gate();

    // Release and refund need a funded escrow.
    assert_eq!(escrow.release(&gate), Err(EscrowError::BadState));
    assert_eq!(escrow.refund(&gate), Err(EscrowError::BadState));

    escrow.deposit().unwrap();
    // A second deposit is refused.
    assert_eq!(escrow.deposit(), Err(EscrowError::BadState));

    escrow.release(&gate).unwrap();
    // Nothing moves after release.
    assert_eq!(escrow.release(&gate), Err(EscrowError::BadState));
    assert_eq!(escrow.refund(&gate), Err(EscrowError::BadState));
    assert_eq!(escrow.deposit(), Err(EscrowError::BadState));
}

#[test]
fn test_escrow_requires_arbitrator() {
    let mut escrow = Escrow::init(TENANT, LANDLORD, ARBITRATOR, TOKEN, AMOUNT);
    escrow.deposit().unwrap();

    let stranger_gate = AuthGate::new();
    assert_eq!(escrow.release(&stranger_gate), Err(EscrowError::NotAuthorized));
    assert_eq!(escrow.refund(&stranger_gate), Err(EscrowError::NotAuthorized));
    assert_eq!(escrow.status(), EscrowStatus::Funded);
}
