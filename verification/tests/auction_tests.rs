use leaselock::auction::{
    AuctionContract, AuctionError, AuctionPhase, AuctionTransfer,
};
use leaselock::types::AuthGate;

const SELLER: u64 = 40;
const BIDDER1: u64 = 41;
const BIDDER2: u64 = 42;
const TOKEN: u64 = 30;
const UNIT: u64 = 1;
const LEASE_ID: u64 = 7;

fn gate_for(principals: &[u64]) -> AuthGate {
    let mut gate = AuthGate::new();
    for &p in principals {
        gate.allow(p);
    }
    gate
}

fn standard_auction(contract: &mut AuctionContract) -> u64 {
    let gate = gate_for(&[SELLER]);
    contract
        .create(&gate, LEASE_ID, UNIT, SELLER, TOKEN, 100, 10, 1_000, 2_000, 60, 120)
        .unwrap()
}

#[test]
fn test_create_validation() {
    let mut contract = AuctionContract::new();
    let gate = gate_for(&[SELLER]);

    assert_eq!(
        contract.create(&gate, LEASE_ID, UNIT, SELLER, TOKEN, 100, 10, 2_000, 1_000, 60, 120),
        Err(AuctionError::InvalidTimes)
    );
    assert_eq!(
        contract.create(&gate, LEASE_ID, UNIT, SELLER, TOKEN, 0, 10, 1_000, 2_000, 60, 120),
        Err(AuctionError::InvalidReserve)
    );
    assert_eq!(
        contract.create(&gate, LEASE_ID, UNIT, SELLER, TOKEN, 100, 0, 1_000, 2_000, 60, 120),
        Err(AuctionError::InvalidIncrement)
    );
    assert_eq!(
        contract.create(&gate, LEASE_ID, UNIT, SELLER, TOKEN, 100, 10, 1_000, 2_000, 60, 0),
        Err(AuctionError::InvalidExtendWindow)
    );
    assert_eq!(
        contract.create(&gate, LEASE_ID, UNIT, SELLER, TOKEN, 100, 10, 1_000, 2_000, 0, 120),
        Err(AuctionError::InvalidExtendSecs)
    );
    let stranger_gate = AuthGate::new();
    assert_eq!(
        contract.create(&stranger_gate, LEASE_ID, UNIT, SELLER, TOKEN, 100, 10, 1_000, 2_000, 60, 120),
        Err(AuctionError::NotAuthorized)
    );

    let id = standard_auction(&mut contract);
    let auction = contract.get_auction(id).unwrap();
    assert_eq!(auction.id, id);
    assert_eq!(auction.lease_id, LEASE_ID);
    assert_eq!(auction.reserve, 100);
    assert_eq!(auction.best_bid, 0);
    assert!(!auction.settled);
}

#[test]
fn test_bid_flow() {
    let mut contract = AuctionContract::new();
    let id = standard_auction(&mut contract);
    let gate = gate_for(&[BIDDER1, BIDDER2]);

    // Time-window and amount validation.
    assert_eq!(contract.bid(&gate, id, BIDDER1, 0, 1_500), Err(AuctionError::InvalidAmount));
    assert_eq!(contract.bid(&gate, id, BIDDER1, 100, 500), Err(AuctionError::NotStarted));
    assert_eq!(contract.bid(&gate, id, BIDDER1, 100, 2_500), Err(AuctionError::Ended));
    assert_eq!(contract.bid(&gate, id + 9, BIDDER1, 100, 1_500), Err(AuctionError::NotFound));

    // Below the reserve nothing is recorded.
    assert_eq!(contract.bid(&gate, id, BIDDER1, 50, 1_500), Err(AuctionError::BelowReserve));
    assert_eq!(contract.get_bid(id, BIDDER1), 0);

    // A valid first bid becomes the best bid.
    let pull = contract.bid(&gate, id, BIDDER1, 100, 1_500).unwrap();
    assert_eq!(
        pull,
        AuctionTransfer { into_auction: true, counterparty: BIDDER1, amount: 100 }
    );
    assert_eq!(contract.get_bid(id, BIDDER1), 100);
    let auction = contract.get_auction(id).unwrap();
    assert_eq!(auction.best_bid, 100);
    assert_eq!(auction.best_bidder, BIDDER1);
    assert_eq!(auction.second_bid, 0);

    // The next bid must clear best + increment.
    assert_eq!(
        contract.bid(&gate, id, BIDDER2, 105, 1_500),
        Err(AuctionError::InsufficientIncrement)
    );
    contract.bid(&gate, id, BIDDER2, 110, 1_500).unwrap();
    let auction = contract.get_auction(id).unwrap();
    assert_eq!(auction.best_bid, 110);
    assert_eq!(auction.best_bidder, BIDDER2);
    assert_eq!(auction.second_bid, 100);

    // A bidder's amounts accumulate into one escrowed total.
    contract.bid(&gate, id, BIDDER1, 30, 1_500).unwrap();
    assert_eq!(contract.get_bid(id, BIDDER1), 130);
    let auction = contract.get_auction(id).unwrap();
    assert_eq!(auction.best_bid, 130);
    assert_eq!(auction.best_bidder, BIDDER1);
    assert_eq!(auction.second_bid, 110);
}

#[test]
fn test_bid_anti_sniping_extension() {
    let mut contract = AuctionContract::new();
    let id = standard_auction(&mut contract);
    let gate = gate_for(&[BIDDER1]);

    // A bid within the extension window (end 2000, window 120) pushes the
    // end out by 60 and counts the extension.
    contract.bid(&gate, id, BIDDER1, 100, 1_950).unwrap();
    let auction = contract.get_auction(id).unwrap();
    assert_eq!(auction.end_ts, 2_060);
    assert_eq!(auction.extensions_count, 1);

    // An early bid leaves the end alone.
    let mut contract2 = AuctionContract::new();
    let id2 = standard_auction(&mut contract2);
    contract2.bid(&gate, id2, BIDDER1, 100, 1_100).unwrap();
    let auction2 = contract2.get_auction(id2).unwrap();
    assert_eq!(auction2.end_ts, 2_000);
    assert_eq!(auction2.extensions_count, 0);
}

#[test]
fn test_finalize_second_price() {
    let mut contract = AuctionContract::new();
    let id = standard_auction(&mut contract);
    let gate = gate_for(&[SELLER, BIDDER1, BIDDER2]);

    contract.bid(&gate, id, BIDDER1, 120, 1_500).unwrap();
    contract.bid(&gate, id, BIDDER2, 150, 1_500).unwrap();

    assert_eq!(contract.finalize(&gate, id, 1_900).unwrap_err(), AuctionError::NotEnded);

    let outcome = contract.finalize(&gate, id, 2_100).unwrap();
    assert!(!outcome.failed);
    assert_eq!(outcome.winner, BIDDER2);
    // Second price: the losing total beats the reserve.
    assert_eq!(outcome.clearing_price, 120);
    assert_eq!(
        outcome.transfers,
        vec![
            // Seller is paid the clearing price.
            AuctionTransfer { into_auction: false, counterparty: SELLER, amount: 120 },
            // The winner gets the surplus over it back.
            AuctionTransfer { into_auction: false, counterparty: BIDDER2, amount: 30 },
            // The losing bidder is refunded in full.
            AuctionTransfer { into_auction: false, counterparty: BIDDER1, amount: 120 },
        ]
    );

    // The auction's escrow records are cleared and the record is settled.
    assert_eq!(contract.get_bid(id, BIDDER1), 0);
    assert_eq!(contract.get_bid(id, BIDDER2), 0);
    assert!(contract.get_auction(id).unwrap().settled);
    assert_eq!(contract.finalize(&gate, id, 2_200).unwrap_err(), AuctionError::Settled);
}

#[test]
fn test_finalize_failed_reserve() {
    let mut contract = AuctionContract::new();
    let gate = gate_for(&[SELLER]);
    let id = standard_auction(&mut contract);

    // Nobody met the reserve: no bids at all here.
    let outcome = contract.finalize(&gate, id, 2_100).unwrap();
    assert!(outcome.failed);
    assert_eq!(outcome.transfers, vec![]);
    assert!(contract.get_auction(id).unwrap().settled);
}

#[test]
fn test_cancel_before_start() {
    let mut contract = AuctionContract::new();
    let gate = gate_for(&[SELLER, BIDDER1]);
    let id = standard_auction(&mut contract);

    // Without bids the seller may cancel at any time.
    let refunds = contract.cancel(&gate, id, 1_500).unwrap();
    assert_eq!(refunds, vec![]);
    assert!(contract.get_auction(id).unwrap().settled);

    // With a bid and a started clock, cancelling is refused.
    let id2 = standard_auction(&mut contract);
    contract.bid(&gate, id2, BIDDER1, 100, 1_500).unwrap();
    assert_eq!(
        contract.cancel(&gate, id2, 1_600),
        Err(AuctionError::CannotCancelWithBids)
    );
}

#[test]
fn test_get_status_phases() {
    let mut contract = AuctionContract::new();
    let gate = gate_for(&[SELLER]);
    let id = standard_auction(&mut contract);

    assert_eq!(contract.get_status(id, 500).unwrap(), AuctionPhase::Pending);
    assert_eq!(contract.get_status(id, 1_500).unwrap(), AuctionPhase::Active);
    assert_eq!(contract.get_status(id, 2_500).unwrap(), AuctionPhase::Ended);
    assert_eq!(contract.get_status(id + 9, 500), Err(AuctionError::NotFound));

    contract.cancel(&gate, id, 500).unwrap();
    assert_eq!(contract.get_status(id, 500).unwrap(), AuctionPhase::Settled);
}
