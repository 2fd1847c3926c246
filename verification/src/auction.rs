//! The sealed/ascending bidding module: auctions off a lease slot, escrows
//! bidders' tokens, settles at a second price and refunds the rest. A
//! collaborator of the lease registry; it references lease ids but owns no
//! tree structure.
//!
//! Token moves and the ledger clock are outside work: each operation takes
//! the current instant as an argument and hands back the moves the caller
//! must perform, and the caller commits the new state only when the moves
//! went through.

use std::collections::HashMap;
use vstd::prelude::*;

use crate::types::AuthGate;

verus! {

broadcast use vstd::std_specs::hash::group_hash_axioms;

/// Fixed cap on anti-sniping extensions of one auction.
pub const MAX_EXTENSIONS: u32 = 10;

/// One auction's record.
#[derive(Clone, Copy, PartialEq, Eq, Structural, Debug)]
pub struct Auction {
    pub id: u64,
    /// The lease slot being auctioned.
    pub lease_id: u64,
    pub seller: u64,
    pub unit: u64,
    /// The token bids are escrowed in.
    pub token: u64,
    /// Lowest acceptable winning total.
    pub reserve: i128,
    /// Least amount a new best bid must add over the current best.
    pub min_increment: i128,
    pub start_ts: u64,
    pub end_ts: u64,
    /// By how much a late bid extends the auction.
    pub extend_secs: u64,
    /// How close to the end a bid must come to trigger an extension.
    pub extend_window: u64,
    pub max_extensions: u32,
    pub extensions_count: u32,
    pub best_bid: i128,
    /// The seller until a first bid arrives.
    pub best_bidder: u64,
    pub second_bid: i128,
    pub settled: bool,
}

/// Named abort conditions of the bidding module.
#[derive(Clone, Copy, PartialEq, Eq, Structural, Debug)]
pub enum AuctionError {
    NotAuthorized,
    InvalidTimes,
    InvalidReserve,
    InvalidIncrement,
    InvalidExtendWindow,
    InvalidExtendSecs,
    NotFound,
    Settled,
    NotStarted,
    Ended,
    InvalidAmount,
    BelowReserve,
    InsufficientIncrement,
    NotEnded,
    CannotCancelWithBids,
    /// A token total or a timestamp would overflow its type.
    Overflow,
}

/// Where an auction stands relative to the given instant.
#[derive(Clone, Copy, PartialEq, Eq, Structural, Debug)]
pub enum AuctionPhase {
    Settled,
    Pending,
    Active,
    Ended,
}

/// One token move the caller must perform: `amount` of the auction's token
/// between the module's escrow and `counterparty`.
#[derive(Clone, Copy, PartialEq, Eq, Structural, Debug)]
pub struct AuctionTransfer {
    /// True when the escrow takes tokens in, false when it pays out.
    pub into_auction: bool,
    pub counterparty: u64,
    pub amount: i128,
}

/// What a settlement decided and the token moves it requires.
#[derive(Debug)]
pub struct FinalizeOutcome {
    /// True when the reserve was never met and everyone was refunded.
    pub failed: bool,
    /// The best bidder (meaningful only when the settlement succeeded).
    pub winner: u64,
    /// What the seller is paid, or the reserve when the auction failed.
    pub clearing_price: i128,
    /// The token moves the caller must perform, in order.
    pub transfers: Vec<AuctionTransfer>,
}

/// The bidding module's state: the id allocator, the auctions, and each
/// bidder's escrowed total per auction, keyed by (auction id, bidder).
pub struct AuctionContract {
    pub next_id: u64,
    pub auctions: HashMap<u64, Auction>,
    pub bids: Vec<((u64, u64), i128)>,
}

/// The escrowed total stored under `key`.
pub open spec fn bid_lookup(entries: Seq<((u64, u64), i128)>, key: (u64, u64)) -> Option<i128>
    decreases entries.len(),
{
    if entries.len() == 0 {
        None
    } else if entries[0].0 == key {
        Some(entries[0].1)
    } else {
        bid_lookup(entries.drop_first(), key)
    }
}

/// The refunds owed for auction `aid`: one payout per recorded positive
/// total, in stored order, skipping `except` when given.
pub open spec fn refunds_of(
    entries: Seq<((u64, u64), i128)>,
    aid: u64,
    except: Option<u64>,
) -> Seq<AuctionTransfer>
    decreases entries.len(),
{
    if entries.len() == 0 {
        Seq::empty()
    } else {
        (if entries[0].0.0 == aid && entries[0].1 > 0 && (match except {
            Some(x) => entries[0].0.1 != x,
            None => true,
        }) {
            seq![
                AuctionTransfer {
                    into_auction: false,
                    counterparty: entries[0].0.1,
                    amount: entries[0].1,
                },
            ]
        } else {
            Seq::empty()
        }) + refunds_of(entries.drop_first(), aid, except)
    }
}

/// The stored bids with every entry of auction `aid` dropped, keeping the
/// order of the rest.
pub open spec fn bids_without_auction(entries: Seq<((u64, u64), i128)>, aid: u64) -> Seq<
    ((u64, u64), i128),
>
    decreases entries.len(),
{
    if entries.len() == 0 {
        entries
    } else if entries[0].0.0 == aid {
        bids_without_auction(entries.drop_first(), aid)
    } else {
        seq![entries[0]] + bids_without_auction(entries.drop_first(), aid)
    }
}

impl AuctionContract {
    /// Bid keys are stored at most once; auction records carry their own
    /// key, ids never exceed the allocator, the price parameters are
    /// positive, and the two leading bids are ordered and non-negative.
    pub open spec fn inv(self) -> bool {
        &&& forall|i: int, j: int|
            0 <= i < j < self.bids@.len() ==> self.bids@[i].0 != self.bids@[j].0
        &&& forall|id: u64|
            #[trigger] self.auctions@.contains_key(id) ==> {
                let a = self.auctions@[id];
                &&& a.id == id
                &&& 1 <= id <= self.next_id
                &&& a.reserve > 0
                &&& a.min_increment > 0
                &&& 0 <= a.second_bid <= a.best_bid
            }
    }

    /// A fresh bidding module: no auctions, no bids, counter at zero.
    pub fn new() -> (c: AuctionContract)
        ensures
            c.inv(),
            c.next_id == 0,
            c.auctions@ == Map::<u64, Auction>::empty(),
            c.bids@ == Seq::<((u64, u64), i128)>::empty(),
    {
        AuctionContract { next_id: 0, auctions: HashMap::new(), bids: Vec::new() }
    }

    /// The record a successful `create` stores.
    pub open spec fn created_auction(
        id: u64,
        lease_id: u64,
        unit: u64,
        seller: u64,
        token: u64,
        reserve: i128,
        min_increment: i128,
        start_ts: u64,
        end_ts: u64,
        extend_secs: u64,
        extend_window: u64,
    ) -> Auction {
        Auction {
            id,
            lease_id,
            seller,
            unit,
            token,
            reserve,
            min_increment,
            start_ts,
            end_ts,
            extend_secs,
            extend_window,
            max_extensions: MAX_EXTENSIONS,
            extensions_count: 0,
            best_bid: 0,
            best_bidder: seller,
            second_bid: 0,
            settled: false,
        }
    }

    /// Creates an auction for a lease slot.
    ///
    /// Requires the seller's approval, a start before the end, a positive
    /// reserve and increment, and positive anti-sniping parameters. On
    /// success allocates the next id and stores the record with no bids.
    pub fn create(
        &mut self,
        gate: &AuthGate,
        lease_id: u64,
        unit: u64,
        seller: u64,
        token: u64,
        reserve: i128,
        min_increment: i128,
        start_ts: u64,
        end_ts: u64,
        extend_secs: u64,
        extend_window: u64,
    ) -> (r: Result<u64, AuctionError>)
        requires
            old(self).inv(),
            old(self).next_id < u64::MAX,
        ensures
            final(self).inv(),
            r is Err ==> *final(self) == *old(self),
            !gate.approves(seller) ==> r == Err::<u64, AuctionError>(AuctionError::NotAuthorized),
            gate.approves(seller) ==> {
                if start_ts >= end_ts {
                    r == Err::<u64, AuctionError>(AuctionError::InvalidTimes)
                } else if reserve <= 0 {
                    r == Err::<u64, AuctionError>(AuctionError::InvalidReserve)
                } else if min_increment <= 0 {
                    r == Err::<u64, AuctionError>(AuctionError::InvalidIncrement)
                } else if extend_window == 0 {
                    r == Err::<u64, AuctionError>(AuctionError::InvalidExtendWindow)
                } else if extend_secs == 0 {
                    r == Err::<u64, AuctionError>(AuctionError::InvalidExtendSecs)
                } else {
                    let id = (old(self).next_id + 1) as u64;
                    &&& r == Ok::<u64, AuctionError>(id)
                    &&& final(self).next_id == id
                    &&& final(self).auctions@ == old(self).auctions@.insert(
                        id,
                        Self::created_auction(
                            id,
                            lease_id,
                            unit,
                            seller,
                            token,
                            reserve,
                            min_increment,
                            start_ts,
                            end_ts,
                            extend_secs,
                            extend_window,
                        ),
                    )
                    &&& final(self).bids == old(self).bids
                }
            },
    {
        if !gate.approve(seller) {
            return Err(AuctionError::NotAuthorized);
        }
        if start_ts >= end_ts {
            return Err(AuctionError::InvalidTimes);
        }
        if reserve <= 0 {
            return Err(AuctionError::InvalidReserve);
        }
        if min_increment <= 0 {
            return Err(AuctionError::InvalidIncrement);
        }
        if extend_window == 0 {
            return Err(AuctionError::InvalidExtendWindow);
        }
        if extend_secs == 0 {
            return Err(AuctionError::InvalidExtendSecs);
        }
        let id = self.next_id + 1;
        self.next_id = id;
        let auction = Auction {
            id,
            lease_id,
            seller,
            unit,
            token,
            reserve,
            min_increment,
            start_ts,
            end_ts,
            extend_secs,
            extend_window,
            max_extensions: MAX_EXTENSIONS,
            extensions_count: 0,
            best_bid: 0,
            best_bidder: seller,
            second_bid: 0,
            settled: false,
        };
        self.auctions.insert(id, auction);
        Ok(id)
    }

    /// Whether a bid at `now` triggers an anti-sniping extension of `a`.
    pub open spec fn bid_extends(a: Auction, now: u64) -> bool {
        a.extensions_count < a.max_extensions && a.end_ts - now <= a.extend_window
    }

    /// The auction record after a successful bid of total `new_total` by
    /// `bidder` at `now`: the old best bid is demoted to second place, and
    /// a bid close to the end pushes the end out once more.
    pub open spec fn bid_updated(a: Auction, bidder: u64, new_total: i128, now: u64) -> Auction {
        let base = Auction { second_bid: a.best_bid, best_bid: new_total, best_bidder: bidder, ..a };
        if Self::bid_extends(a, now) {
            Auction {
                end_ts: (a.end_ts + a.extend_secs) as u64,
                extensions_count: (a.extensions_count + 1) as u32,
                ..base
            }
        } else {
            base
        }
    }

    /// Records `total` as the bidder's escrowed amount for the auction,
    /// touching no other key and nothing else.
    fn set_bid_total(&mut self, auction_id: u64, bidder: u64, total: i128)
        requires
            old(self).inv(),
        ensures
            final(self).inv(),
            bid_lookup(final(self).bids@, (auction_id, bidder)) == Some(total),
            forall|k2: (u64, u64)|
                k2 != (auction_id, bidder) ==> bid_lookup(final(self).bids@, k2) == bid_lookup(
                    old(self).bids@,
                    k2,
                ),
            final(self).auctions == old(self).auctions,
            final(self).next_id == old(self).next_id,
    {
        let ghost pre = self.bids@;
        let mut i: usize = 0;
        while i < self.bids.len()
            invariant
                i <= self.bids@.len(),
                *self == *old(self),
                pre == old(self).bids@,
                old(self).inv(),
                forall|k: int| 0 <= k < i ==> pre[k].0 != (auction_id, bidder),
            decreases self.bids@.len() - i,
        {
            let (k, _) = self.bids[i];
            if k.0 == auction_id && k.1 == bidder {
                proof {
                    assert(k =~= (auction_id, bidder));
                    assert(pre[i as int].0 == (auction_id, bidder));
                }
                self.bids[i] = ((auction_id, bidder), total);
                proof {
                    assert(self.bids@ == pre.update(i as int, ((auction_id, bidder), total)));
                    lemma_bid_lookup_update(pre, i as int, (auction_id, bidder), total);
                    assert forall|a: int, b: int|
                        0 <= a < b < self.bids@.len() implies self.bids@[a].0
                        != self.bids@[b].0 by {
                        assert(old(self).inv());
                        assert(self.bids@[a].0 == pre[a].0);
                        assert(self.bids@[b].0 == pre[b].0);
                    }
                }
                return ;
            }
            i += 1;
        }
        self.bids.push(((auction_id, bidder), total));
        proof {
            lemma_bid_lookup_append(pre, (auction_id, bidder), total);
            assert forall|a: int, b: int|
                0 <= a < b < self.bids@.len() implies self.bids@[a].0 != self.bids@[b].0 by {
                if b == pre.len() {
                    assert(pre[a].0 != (auction_id, bidder));
                }
            }
        }
    }

    /// Places a bid: adds `amount` to the bidder's escrowed total for the
    /// auction and makes that total the best bid.
    ///
    /// Requires the bidder's approval and a positive amount; the auction
    /// must exist, be unsettled and be inside its time window at `now`. The
    /// new total must reach the reserve and clear the old best bid by the
    /// minimum increment. A bid within the extension window pushes the end
    /// out, up to the extension cap. On success the caller must move
    /// `amount` from the bidder into escrow.
    pub fn bid(
        &mut self,
        gate: &AuthGate,
        auction_id: u64,
        bidder: u64,
        amount: i128,
        now: u64,
    ) -> (r: Result<AuctionTransfer, AuctionError>)
        requires
            old(self).inv(),
        ensures
            final(self).inv(),
            r is Err ==> *final(self) == *old(self),
            !gate.approves(bidder) ==> r == Err::<AuctionTransfer, AuctionError>(
                AuctionError::NotAuthorized,
            ),
            gate.approves(bidder) && amount <= 0 ==> r == Err::<AuctionTransfer, AuctionError>(
                AuctionError::InvalidAmount,
            ),
            gate.approves(bidder) && amount > 0 && !old(self).auctions@.contains_key(auction_id)
                ==> r == Err::<AuctionTransfer, AuctionError>(AuctionError::NotFound),
            gate.approves(bidder) && amount > 0 && old(self).auctions@.contains_key(auction_id)
                ==> {
                let a = old(self).auctions@[auction_id];
                let cur = match bid_lookup(old(self).bids@, (auction_id, bidder)) {
                    Some(v) => v,
                    None => 0,
                };
                if a.settled {
                    r == Err::<AuctionTransfer, AuctionError>(AuctionError::Settled)
                } else if now < a.start_ts {
                    r == Err::<AuctionTransfer, AuctionError>(AuctionError::NotStarted)
                } else if now > a.end_ts {
                    r == Err::<AuctionTransfer, AuctionError>(AuctionError::Ended)
                } else if cur + amount > i128::MAX {
                    r == Err::<AuctionTransfer, AuctionError>(AuctionError::Overflow)
                } else if cur + amount < a.reserve {
                    r == Err::<AuctionTransfer, AuctionError>(AuctionError::BelowReserve)
                } else if a.best_bid + a.min_increment > i128::MAX {
                    r == Err::<AuctionTransfer, AuctionError>(AuctionError::Overflow)
                } else if cur + amount < a.best_bid + a.min_increment {
                    r == Err::<AuctionTransfer, AuctionError>(AuctionError::InsufficientIncrement)
                } else if Self::bid_extends(a, now) && a.end_ts + a.extend_secs > u64::MAX {
                    r == Err::<AuctionTransfer, AuctionError>(AuctionError::Overflow)
                } else {
                    let nt = (cur + amount) as i128;
                    &&& r == Ok::<AuctionTransfer, AuctionError>(
                        AuctionTransfer { into_auction: true, counterparty: bidder, amount },
                    )
                    &&& final(self).auctions@ == old(self).auctions@.insert(
                        auction_id,
                        Self::bid_updated(a, bidder, nt, now),
                    )
                    &&& bid_lookup(final(self).bids@, (auction_id, bidder)) == Some(nt)
                    &&& forall|k2: (u64, u64)|
                        k2 != (auction_id, bidder) ==> bid_lookup(final(self).bids@, k2)
                            == bid_lookup(old(self).bids@, k2)
                    &&& final(self).next_id == old(self).next_id
                }
            },
    {
        if !gate.approve(bidder) {
            return Err(AuctionError::NotAuthorized);
        }
        if amount <= 0 {
            return Err(AuctionError::InvalidAmount);
        }
        let a = match self.auctions.get(&auction_id) {
            Some(a) => *a,
            None => { return Err(AuctionError::NotFound); },
        };
        if a.settled {
            return Err(AuctionError::Settled);
        }
        if now < a.start_ts {
            return Err(AuctionError::NotStarted);
        }
        if now > a.end_ts {
            return Err(AuctionError::Ended);
        }
        let cur = self.get_bid(auction_id, bidder);
        let nt = match cur.checked_add(amount) {
            Some(v) => v,
            None => { return Err(AuctionError::Overflow); },
        };
        if nt < a.reserve {
            return Err(AuctionError::BelowReserve);
        }
        let floor = match a.best_bid.checked_add(a.min_increment) {
            Some(v) => v,
            None => { return Err(AuctionError::Overflow); },
        };
        if nt < floor {
            return Err(AuctionError::InsufficientIncrement);
        }
        let mut updated = Auction {
            second_bid: a.best_bid,
            best_bid: nt,
            best_bidder: bidder,
            ..a
        };
        if a.extensions_count < a.max_extensions && a.end_ts - now <= a.extend_window {
            let new_end = match a.end_ts.checked_add(a.extend_secs) {
                Some(v) => v,
                None => { return Err(AuctionError::Overflow); },
            };
            updated.end_ts = new_end;
            updated.extensions_count = a.extensions_count + 1;
        }
        self.set_bid_total(auction_id, bidder, nt);
        self.auctions.insert(auction_id, updated);
        proof {
            assert(updated == Self::bid_updated(a, bidder, nt as i128, now));
        }
        Ok(AuctionTransfer { into_auction: true, counterparty: bidder, amount })
    }

    /// The settlement price: the second-best total when it beats the
    /// reserve, else the reserve itself.
    pub open spec fn clearing_price(a: Auction) -> i128 {
        if a.second_bid > a.reserve {
            a.second_bid
        } else {
            a.reserve
        }
    }

    /// The token moves of a successful settlement: the clearing price to
    /// the seller, the winner's surplus back to the winner, then every
    /// other bidder's escrowed total back, in stored order.
    pub open spec fn settlement_transfers(a: Auction, bids: Seq<((u64, u64), i128)>) -> Seq<
        AuctionTransfer,
    > {
        let clearing = Self::clearing_price(a);
        let seller_pay = seq![
            AuctionTransfer { into_auction: false, counterparty: a.seller, amount: clearing },
        ];
        let winner_refund: Seq<AuctionTransfer> = if a.best_bid - clearing > 0 {
            seq![
                AuctionTransfer {
                    into_auction: false,
                    counterparty: a.best_bidder,
                    amount: (a.best_bid - clearing) as i128,
                },
            ]
        } else {
            Seq::empty()
        };
        seller_pay + winner_refund + refunds_of(bids, a.id, Some(a.best_bidder))
    }

    /// Appends to `out` one refund per recorded positive total of auction
    /// `aid`, in stored order, skipping `except` when given.
    fn push_refunds(&self, out: &mut Vec<AuctionTransfer>, aid: u64, except: Option<u64>)
        ensures
            final(out)@ == old(out)@ + refunds_of(self.bids@, aid, except),
    {
        let ghost pre = old(out)@;
        let mut i: usize = 0;
        while i < self.bids.len()
            invariant
                i <= self.bids@.len(),
                out@ == pre + refunds_of(self.bids@.take(i as int), aid, except),
            decreases self.bids@.len() - i,
        {
            proof {
                assert(self.bids@.take(i as int + 1) =~= self.bids@.take(i as int).push(
                    self.bids@[i as int],
                ));
                lemma_refunds_push(self.bids@.take(i as int), aid, except, self.bids@[i as int]);
            }
            let (k, v) = self.bids[i];
            if k.0 == aid && v > 0 {
                let skip = match except {
                    Some(x) => k.1 == x,
                    None => false,
                };
                if !skip {
                    out.push(AuctionTransfer { into_auction: false, counterparty: k.1, amount: v });
                }
            }
            i += 1;
        }
        proof {
            assert(self.bids@.take(self.bids@.len() as int) =~= self.bids@);
        }
    }

    /// Settles the ended auction `auction_id` at the instant `now`.
    ///
    /// Requires an unsettled auction past its end, approved by its seller.
    /// When the reserve was never met the auction fails: every bidder's
    /// escrowed total is refunded and the record is marked settled, the
    /// recorded totals staying on the books. Otherwise the seller is paid
    /// the clearing price (second price, floored at the reserve), the
    /// winner gets the surplus over it back, every other bidder is
    /// refunded, and the auction's recorded totals are cleared.
    pub fn finalize(&mut self, gate: &AuthGate, auction_id: u64, now: u64) -> (r: Result<
        FinalizeOutcome,
        AuctionError,
    >)
        requires
            old(self).inv(),
        ensures
            final(self).inv(),
            r is Err ==> *final(self) == *old(self),
            !old(self).auctions@.contains_key(auction_id) ==> (r matches Err(e) && e
                == AuctionError::NotFound),
            old(self).auctions@.contains_key(auction_id) ==> {
                let a = old(self).auctions@[auction_id];
                &&& a.settled ==> (r matches Err(e) && e == AuctionError::Settled)
                &&& !a.settled && now < a.end_ts ==> (r matches Err(e) && e
                    == AuctionError::NotEnded)
                &&& !a.settled && now >= a.end_ts && !gate.approves(a.seller) ==> (r matches Err(e)
                    && e == AuctionError::NotAuthorized)
                &&& !a.settled && now >= a.end_ts && gate.approves(a.seller) ==> (r matches Ok(out)
                    && {
                    &&& final(self).auctions@ == old(self).auctions@.insert(
                        auction_id,
                        Auction { settled: true, ..a },
                    )
                    &&& final(self).next_id == old(self).next_id
                    &&& out.winner == a.best_bidder
                    &&& if a.best_bid < a.reserve {
                        &&& out.failed == true
                        &&& out.clearing_price == a.reserve
                        &&& out.transfers@ == refunds_of(old(self).bids@, auction_id, None)
                        &&& final(self).bids == old(self).bids
                    } else {
                        &&& out.failed == false
                        &&& out.clearing_price == Self::clearing_price(a)
                        &&& out.transfers@ == Self::settlement_transfers(a, old(self).bids@)
                        &&& final(self).bids@ == bids_without_auction(old(self).bids@, auction_id)
                    }
                })
            },
    {
        let a = match self.auctions.get(&auction_id) {
            Some(a) => *a,
            None => { return Err(AuctionError::NotFound); },
        };
        if a.settled {
            return Err(AuctionError::Settled);
        }
        if now < a.end_ts {
            return Err(AuctionError::NotEnded);
        }
        if !gate.approve(a.seller) {
            return Err(AuctionError::NotAuthorized);
        }
        let settled = Auction { settled: true, ..a };
        if a.best_bid < a.reserve {
            // Reserve not met: the auction fails and everyone is refunded.
            let mut transfers: Vec<AuctionTransfer> = Vec::new();
            self.push_refunds(&mut transfers, auction_id, None);
            self.auctions.insert(auction_id, settled);
            return Ok(
                FinalizeOutcome {
                    failed: true,
                    winner: a.best_bidder,
                    clearing_price: a.reserve,
                    transfers,
                },
            );
        }
        let clearing = if a.second_bid > a.reserve {
            a.second_bid
        } else {
            a.reserve
        };
        let mut transfers: Vec<AuctionTransfer> = Vec::new();
        transfers.push(
            AuctionTransfer { into_auction: false, counterparty: a.seller, amount: clearing },
        );
        let winner_refund = a.best_bid - clearing;
        if winner_refund > 0 {
            transfers.push(
                AuctionTransfer {
                    into_auction: false,
                    counterparty: a.best_bidder,
                    amount: winner_refund,
                },
            );
        }
        let ghost before_refunds = transfers@;
        self.push_refunds(&mut transfers, auction_id, Some(a.best_bidder));
        self.remove_auction_bids(auction_id);
        self.auctions.insert(auction_id, settled);
        proof {
            assert(transfers@ =~= Self::settlement_transfers(a, old(self).bids@));
        }
        Ok(
            FinalizeOutcome {
                failed: false,
                winner: a.best_bidder,
                clearing_price: clearing,
                transfers,
            },
        )
    }

    /// Drops every recorded total of auction `aid`, keeping the order of
    /// the rest.
    fn remove_auction_bids(&mut self, aid: u64)
        requires
            old(self).inv(),
        ensures
            final(self).inv(),
            final(self).bids@ == bids_without_auction(old(self).bids@, aid),
            final(self).auctions == old(self).auctions,
            final(self).next_id == old(self).next_id,
    {
        let ghost pre = self.bids@;
        let mut kept: Vec<((u64, u64), i128)> = Vec::new();
        let mut i: usize = 0;
        while i < self.bids.len()
            invariant
                i <= self.bids@.len(),
                *self == *old(self),
                pre == old(self).bids@,
                kept@ == bids_without_auction(pre.take(i as int), aid),
            decreases self.bids@.len() - i,
        {
            proof {
                assert(pre.take(i as int + 1) =~= pre.take(i as int).push(pre[i as int]));
                lemma_bids_without_push(pre.take(i as int), aid, pre[i as int]);
            }
            let (k, v) = self.bids[i];
            if !(k.0 == aid) {
                kept.push((k, v));
            }
            i += 1;
        }
        proof {
            assert(pre.take(pre.len() as int) =~= pre);
            lemma_bids_without_props(pre, aid);
        }
        self.bids = kept;
    }

    /// Cancels the auction `auction_id` at the instant `now`.
    ///
    /// Requires the seller's approval on an unsettled auction; once the
    /// auction has started and holds a bid it can no longer be cancelled.
    /// Every bidder's escrowed total is refunded and the record is marked
    /// settled; the recorded totals stay on the books.
    pub fn cancel(&mut self, gate: &AuthGate, auction_id: u64, now: u64) -> (r: Result<
        Vec<AuctionTransfer>,
        AuctionError,
    >)
        requires
            old(self).inv(),
        ensures
            final(self).inv(),
            r is Err ==> *final(self) == *old(self),
            !old(self).auctions@.contains_key(auction_id) ==> (r matches Err(e) && e
                == AuctionError::NotFound),
            old(self).auctions@.contains_key(auction_id) ==> {
                let a = old(self).auctions@[auction_id];
                &&& !gate.approves(a.seller) ==> (r matches Err(e) && e
                    == AuctionError::NotAuthorized)
                &&& gate.approves(a.seller) && a.settled ==> (r matches Err(e) && e
                    == AuctionError::Settled)
                &&& gate.approves(a.seller) && !a.settled && a.best_bid > 0 && now >= a.start_ts
                    ==> (r matches Err(e) && e == AuctionError::CannotCancelWithBids)
                &&& gate.approves(a.seller) && !a.settled && !(a.best_bid > 0 && now >= a.start_ts)
                    ==> (r matches Ok(transfers) && {
                    &&& transfers@ == if a.best_bid > 0 {
                        refunds_of(old(self).bids@, auction_id, None)
                    } else {
                        Seq::<AuctionTransfer>::empty()
                    }
                    &&& final(self).auctions@ == old(self).auctions@.insert(
                        auction_id,
                        Auction { settled: true, ..a },
                    )
                    &&& final(self).bids == old(self).bids
                    &&& final(self).next_id == old(self).next_id
                })
            },
    {
        let a = match self.auctions.get(&auction_id) {
            Some(a) => *a,
            None => { return Err(AuctionError::NotFound); },
        };
        if !gate.approve(a.seller) {
            return Err(AuctionError::NotAuthorized);
        }
        if a.settled {
            return Err(AuctionError::Settled);
        }
        let has_bids = a.best_bid > 0;
        if has_bids && now >= a.start_ts {
            return Err(AuctionError::CannotCancelWithBids);
        }
        let mut transfers: Vec<AuctionTransfer> = Vec::new();
        if has_bids {
            self.push_refunds(&mut transfers, auction_id, None);
        }
        self.auctions.insert(auction_id, Auction { settled: true, ..a });
        Ok(transfers)
    }

    /// The auction record stored under `auction_id`.
    pub fn get_auction(&self, auction_id: u64) -> (r: Result<Auction, AuctionError>)
        ensures
            match r {
                Ok(a) => self.auctions@.contains_key(auction_id) && a
                    == self.auctions@[auction_id],
                Err(e) => e == AuctionError::NotFound && !self.auctions@.contains_key(auction_id),
            },
    {
        match self.auctions.get(&auction_id) {
            Some(a) => Ok(*a),
            None => Err(AuctionError::NotFound),
        }
    }

    /// The bidder's escrowed total for the auction, 0 when none.
    pub fn get_bid(&self, auction_id: u64, bidder: u64) -> (r: i128)
        ensures
            r == match bid_lookup(self.bids@, (auction_id, bidder)) {
                Some(v) => v,
                None => 0,
            },
    {
        let mut i: usize = 0;
        while i < self.bids.len()
            invariant
                i <= self.bids@.len(),
                forall|k: int| 0 <= k < i ==> self.bids@[k].0 != (auction_id, bidder),
            decreases self.bids@.len() - i,
        {
            let (k, v) = self.bids[i];
            if k.0 == auction_id && k.1 == bidder {
                proof {
                    assert(k =~= (auction_id, bidder));
                    lemma_bid_lookup_found(self.bids@, i as int, (auction_id, bidder));
                }
                return v;
            }
            i += 1;
        }
        proof {
            lemma_bid_lookup_missing(self.bids@, (auction_id, bidder));
        }
        0
    }

    /// Where the auction stands at the instant `now`.
    pub fn get_status(&self, auction_id: u64, now: u64) -> (r: Result<AuctionPhase, AuctionError>)
        ensures
            match r {
                Ok(phase) => {
                    let a = self.auctions@[auction_id];
                    &&& self.auctions@.contains_key(auction_id)
                    &&& phase == if a.settled {
                        AuctionPhase::Settled
                    } else if now < a.start_ts {
                        AuctionPhase::Pending
                    } else if now <= a.end_ts {
                        AuctionPhase::Active
                    } else {
                        AuctionPhase::Ended
                    }
                },
                Err(e) => e == AuctionError::NotFound && !self.auctions@.contains_key(auction_id),
            },
    {
        let a = match self.auctions.get(&auction_id) {
            Some(a) => *a,
            None => { return Err(AuctionError::NotFound); },
        };
        if a.settled {
            Ok(AuctionPhase::Settled)
        } else if now < a.start_ts {
            Ok(AuctionPhase::Pending)
        } else if now <= a.end_ts {
            Ok(AuctionPhase::Active)
        } else {
            Ok(AuctionPhase::Ended)
        }
    }
}

/// How the refund list grows when one recorded bid is appended.
proof fn lemma_refunds_push(
    entries: Seq<((u64, u64), i128)>,
    aid: u64,
    except: Option<u64>,
    z: ((u64, u64), i128),
)
    ensures
        refunds_of(entries.push(z), aid, except) == refunds_of(entries, aid, except) + (if z.0.0
            == aid && z.1 > 0 && (match except {
            Some(x) => z.0.1 != x,
            None => true,
        }) {
            seq![AuctionTransfer { into_auction: false, counterparty: z.0.1, amount: z.1 }]
        } else {
            Seq::<AuctionTransfer>::empty()
        }),
    decreases entries.len(),
{
    let sp = entries.push(z);
    if entries.len() == 0 {
        reveal_with_fuel(refunds_of, 2);
        assert(sp.drop_first() =~= Seq::<((u64, u64), i128)>::empty());
    } else {
        assert(sp[0] == entries[0]);
        assert(sp.drop_first() =~= entries.drop_first().push(z));
        lemma_refunds_push(entries.drop_first(), aid, except, z);
    }
    assert(refunds_of(sp, aid, except) =~= refunds_of(entries, aid, except) + (if z.0.0 == aid
        && z.1 > 0 && (match except {
        Some(x) => z.0.1 != x,
        None => true,
    }) {
        seq![AuctionTransfer { into_auction: false, counterparty: z.0.1, amount: z.1 }]
    } else {
        Seq::<AuctionTransfer>::empty()
    }));
}

/// How the bid filter grows when one recorded bid is appended.
proof fn lemma_bids_without_push(entries: Seq<((u64, u64), i128)>, aid: u64, z: ((u64, u64), i128))
    ensures
        bids_without_auction(entries.push(z), aid) == if z.0.0 == aid {
            bids_without_auction(entries, aid)
        } else {
            bids_without_auction(entries, aid).push(z)
        },
    decreases entries.len(),
{
    let sp = entries.push(z);
    if entries.len() == 0 {
        reveal_with_fuel(bids_without_auction, 2);
        assert(sp.drop_first() =~= Seq::<((u64, u64), i128)>::empty());
        if z.0.0 != aid {
            assert(bids_without_auction(entries, aid).push(z) =~= seq![z]);
            assert(seq![z] + Seq::<((u64, u64), i128)>::empty() =~= seq![z]);
        }
    } else {
        assert(sp[0] == entries[0]);
        assert(sp.drop_first() =~= entries.drop_first().push(z));
        lemma_bids_without_push(entries.drop_first(), aid, z);
    }
    if z.0.0 == aid {
        assert(bids_without_auction(sp, aid) =~= bids_without_auction(entries, aid));
    } else {
        assert(bids_without_auction(sp, aid) =~= bids_without_auction(entries, aid).push(z));
    }
}

/// The bid filter keeps only entries of the input, so pairwise-distinct
/// keys stay pairwise distinct.
proof fn lemma_bids_without_props(entries: Seq<((u64, u64), i128)>, aid: u64)
    ensures
        forall|i: int|
            0 <= i < bids_without_auction(entries, aid).len() ==> entries.contains(
                #[trigger] bids_without_auction(entries, aid)[i],
            ),
        (forall|i: int, j: int| 0 <= i < j < entries.len() ==> entries[i].0 != entries[j].0)
            ==> (forall|i: int, j: int|
            0 <= i < j < bids_without_auction(entries, aid).len() ==> bids_without_auction(
                entries,
                aid,
            )[i].0 != bids_without_auction(entries, aid)[j].0),
    decreases entries.len(),
{
    let r = bids_without_auction(entries, aid);
    if entries.len() > 0 {
        let t = entries.drop_first();
        lemma_bids_without_props(t, aid);
        let rt = bids_without_auction(t, aid);
        assert forall|y: ((u64, u64), i128)| t.contains(y) implies entries.contains(y) by {
            let i = choose|i: int| 0 <= i < t.len() && t[i] == y;
            assert(entries[i + 1] == y);
        }
        if entries[0].0.0 == aid {
            assert(r == rt);
            assert forall|i: int|
                0 <= i < r.len() implies entries.contains(#[trigger] r[i]) by {
                assert(t.contains(rt[i]));
            }
        } else {
            assert(r == seq![entries[0]] + rt);
            assert forall|i: int|
                0 <= i < r.len() implies entries.contains(#[trigger] r[i]) by {
                if i == 0 {
                    assert(entries[0] == r[0]);
                    assert(entries.contains(entries[0]));
                } else {
                    assert(r[i] == rt[i - 1]);
                    assert(t.contains(rt[i - 1]));
                }
            }
        }
        if forall|i: int, j: int| 0 <= i < j < entries.len() ==> entries[i].0 != entries[j].0 {
            assert forall|i: int, j: int| 0 <= i < j < t.len() implies t[i].0 != t[j].0 by {
                assert(t[i] == entries[i + 1]);
                assert(t[j] == entries[j + 1]);
            }
            assert forall|i: int, j: int|
                0 <= i < j < r.len() implies r[i].0 != r[j].0 by {
                if entries[0].0.0 == aid {
                } else {
                    if i == 0 {
                        assert(r[j] == rt[j - 1]);
                        assert(t.contains(rt[j - 1]));
                        let k = choose|k: int| 0 <= k < t.len() && t[k] == rt[j - 1];
                        assert(entries[k + 1] == rt[j - 1]);
                        assert(entries[0].0 != entries[k + 1].0);
                    } else {
                        assert(r[i] == rt[i - 1]);
                        assert(r[j] == rt[j - 1]);
                    }
                }
            }
        }
    }
}

/// Scanning left to right, the first matching key decides the lookup.
proof fn lemma_bid_lookup_found(entries: Seq<((u64, u64), i128)>, i: int, key: (u64, u64))
    requires
        0 <= i < entries.len(),
        entries[i].0 == key,
        forall|k: int| 0 <= k < i ==> entries[k].0 != key,
    ensures
        bid_lookup(entries, key) == Some(entries[i].1),
    decreases entries.len(),
{
    if i > 0 {
        lemma_bid_lookup_found(entries.drop_first(), i - 1, key);
    }
}

/// A key absent from every entry looks up to nothing.
proof fn lemma_bid_lookup_missing(entries: Seq<((u64, u64), i128)>, key: (u64, u64))
    requires
        forall|k: int| 0 <= k < entries.len() ==> entries[k].0 != key,
    ensures
        bid_lookup(entries, key) is None,
    decreases entries.len(),
{
    if entries.len() > 0 {
        lemma_bid_lookup_missing(entries.drop_first(), key);
    }
}

/// Updating the entry holding `key` in place changes only that key's
/// lookup.
proof fn lemma_bid_lookup_update(entries: Seq<((u64, u64), i128)>, i: int, key: (u64, u64), v: i128)
    requires
        0 <= i < entries.len(),
        entries[i].0 == key,
        forall|k: int| 0 <= k < i ==> entries[k].0 != key,
    ensures
        bid_lookup(entries.update(i, (key, v)), key) == Some(v),
        forall|k2: (u64, u64)|
            k2 != key ==> bid_lookup(entries.update(i, (key, v)), k2) == bid_lookup(entries, k2),
    decreases entries.len(),
{
    let up = entries.update(i, (key, v));
    if i == 0 {
        assert(up[0] == (key, v));
        assert forall|k2: (u64, u64)|
            k2 != key implies bid_lookup(up, k2) == bid_lookup(entries, k2) by {
            assert(up.drop_first() =~= entries.drop_first());
        }
    } else {
        lemma_bid_lookup_update(entries.drop_first(), i - 1, key, v);
        assert(up[0] == entries[0]);
        assert(up.drop_first() =~= entries.drop_first().update(i - 1, (key, v)));
        assert forall|k2: (u64, u64)|
            k2 != key implies bid_lookup(up, k2) == bid_lookup(entries, k2) by {
            if up[0].0 != k2 {
                assert(bid_lookup(up.drop_first(), k2) == bid_lookup(entries.drop_first(), k2));
            }
        }
    }
}

/// Appending an entry with a fresh key adds that key's lookup and keeps
/// every other.
proof fn lemma_bid_lookup_append(entries: Seq<((u64, u64), i128)>, key: (u64, u64), v: i128)
    requires
        forall|k: int| 0 <= k < entries.len() ==> entries[k].0 != key,
    ensures
        bid_lookup(entries.push((key, v)), key) == Some(v),
        forall|k2: (u64, u64)|
            k2 != key ==> bid_lookup(entries.push((key, v)), k2) == bid_lookup(entries, k2),
    decreases entries.len(),
{
    let ap = entries.push((key, v));
    if entries.len() == 0 {
        assert(ap[0] == (key, v));
        assert forall|k2: (u64, u64)|
            k2 != key implies bid_lookup(ap, k2) == bid_lookup(entries, k2) by {
            assert(ap.drop_first() =~= Seq::<((u64, u64), i128)>::empty());
            lemma_bid_lookup_missing(ap.drop_first(), k2);
        }
    } else {
        lemma_bid_lookup_append(entries.drop_first(), key, v);
        assert(ap[0] == entries[0]);
        assert(ap.drop_first() =~= entries.drop_first().push((key, v)));
        assert forall|k2: (u64, u64)|
            k2 != key implies bid_lookup(ap, k2) == bid_lookup(entries, k2) by {
            if ap[0].0 != k2 {
                assert(bid_lookup(ap.drop_first(), k2) == bid_lookup(entries.drop_first(), k2));
            }
        }
    }
}

} // verus!
