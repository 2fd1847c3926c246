//! The payment escrow: a four-state machine around deposit, release and
//! refund of a fixed token amount held between a tenant and a landlord,
//! arbitrated by a third party. A collaborator of the lease registry.
//!
//! The token moves themselves are outside work: each state transition hands
//! back a [`TokenTransfer`] describing the move the caller must perform,
//! and the caller commits the new state only when the move went through.

use vstd::prelude::*;

use crate::types::AuthGate;

verus! {

/// Lifecycle of the escrow.
#[derive(Clone, Copy, PartialEq, Eq, Structural, Debug)]
pub enum EscrowStatus {
    /// Recorded, not yet funded.
    Init,
    /// The tenant's deposit is held.
    Funded,
    /// The deposit went to the landlord.
    Released,
    /// The deposit went back to the tenant.
    Refunded,
}

/// Named abort conditions of the escrow.
#[derive(Clone, Copy, PartialEq, Eq, Structural, Debug)]
pub enum EscrowError {
    /// The arbitrator did not approve the call.
    NotAuthorized,
    /// The operation does not apply to the current status.
    BadState,
}

/// One token move the caller must perform: `amount` of the escrow's token
/// between the escrow's own holdings and `counterparty`.
#[derive(Clone, Copy, PartialEq, Eq, Structural, Debug)]
pub struct TokenTransfer {
    /// True when the escrow pays out, false when it takes the deposit in.
    pub from_escrow: bool,
    /// The principal on the other side of the move.
    pub counterparty: u64,
    /// The token amount moved.
    pub amount: i128,
}

/// The escrow's state: the three parties, the token, the fixed amount, and
/// the current status.
pub struct Escrow {
    pub tenant: u64,
    pub landlord: u64,
    pub arbitrator: u64,
    pub token: u64,
    pub amount: i128,
    pub status: EscrowStatus,
}

impl Escrow {
    /// One-time initializer: records the parties, the token and the amount;
    /// the escrow starts unfunded.
    pub fn init(tenant: u64, landlord: u64, arbitrator: u64, token: u64, amount: i128) -> (e:
        Escrow)
        ensures
            e == (Escrow { tenant, landlord, arbitrator, token, amount, status: EscrowStatus::Init }),
    {
        Escrow { tenant, landlord, arbitrator, token, amount, status: EscrowStatus::Init }
    }

    /// The tenant funds the escrow. Fails `BadState` exactly when the
    /// escrow is not in its initial state; otherwise the escrow becomes
    /// funded and the caller must move the amount in from the tenant. (The
    /// tenant's own approval is enforced by the token, not here.)
    pub fn deposit(&mut self) -> (r: Result<TokenTransfer, EscrowError>)
        ensures
            old(self).status != EscrowStatus::Init ==> r == Err::<TokenTransfer, EscrowError>(
                EscrowError::BadState,
            ) && *final(self) == *old(self),
            old(self).status == EscrowStatus::Init ==> {
                &&& r == Ok::<TokenTransfer, EscrowError>(
                    TokenTransfer {
                        from_escrow: false,
                        counterparty: old(self).tenant,
                        amount: old(self).amount,
                    },
                )
                &&& *final(self) == (Escrow { status: EscrowStatus::Funded, ..*old(self) })
            },
    {
        if !(self.status == EscrowStatus::Init) {
            return Err(EscrowError::BadState);
        }
        self.status = EscrowStatus::Funded;
        Ok(TokenTransfer { from_escrow: false, counterparty: self.tenant, amount: self.amount })
    }

    /// The arbitrator releases the deposit to the landlord. Requires the
    /// arbitrator's approval; fails `BadState` exactly when the escrow is
    /// not funded; otherwise the escrow is released and the caller must pay
    /// the amount out to the landlord.
    pub fn release(&mut self, gate: &AuthGate) -> (r: Result<TokenTransfer, EscrowError>)
        ensures
            !gate.approves(old(self).arbitrator) ==> r == Err::<TokenTransfer, EscrowError>(
                EscrowError::NotAuthorized,
            ) && *final(self) == *old(self),
            gate.approves(old(self).arbitrator) && old(self).status != EscrowStatus::Funded ==> r
                == Err::<TokenTransfer, EscrowError>(EscrowError::BadState) && *final(self) == *old(
                self,
            ),
            gate.approves(old(self).arbitrator) && old(self).status == EscrowStatus::Funded ==> {
                &&& r == Ok::<TokenTransfer, EscrowError>(
                    TokenTransfer {
                        from_escrow: true,
                        counterparty: old(self).landlord,
                        amount: old(self).amount,
                    },
                )
                &&& *final(self) == (Escrow { status: EscrowStatus::Released, ..*old(self) })
            },
    {
        if !gate.approve(self.arbitrator) {
            return Err(EscrowError::NotAuthorized);
        }
        if !(self.status == EscrowStatus::Funded) {
            return Err(EscrowError::BadState);
        }
        self.status = EscrowStatus::Released;
        Ok(TokenTransfer { from_escrow: true, counterparty: self.landlord, amount: self.amount })
    }

    /// The arbitrator refunds the deposit to the tenant. Requires the
    /// arbitrator's approval; fails `BadState` exactly when the escrow is
    /// not funded; otherwise the escrow is refunded and the caller must pay
    /// the amount back to the tenant.
    pub fn refund(&mut self, gate: &AuthGate) -> (r: Result<TokenTransfer, EscrowError>)
        ensures
            !gate.approves(old(self).arbitrator) ==> r == Err::<TokenTransfer, EscrowError>(
                EscrowError::NotAuthorized,
            ) && *final(self) == *old(self),
            gate.approves(old(self).arbitrator) && old(self).status != EscrowStatus::Funded ==> r
                == Err::<TokenTransfer, EscrowError>(EscrowError::BadState) && *final(self) == *old(
                self,
            ),
            gate.approves(old(self).arbitrator) && old(self).status == EscrowStatus::Funded ==> {
                &&& r == Ok::<TokenTransfer, EscrowError>(
                    TokenTransfer {
                        from_escrow: true,
                        counterparty: old(self).tenant,
                        amount: old(self).amount,
                    },
                )
                &&& *final(self) == (Escrow { status: EscrowStatus::Refunded, ..*old(self) })
            },
    {
        if !gate.approve(self.arbitrator) {
            return Err(EscrowError::NotAuthorized);
        }
        if !(self.status == EscrowStatus::Funded) {
            return Err(EscrowError::BadState);
        }
        self.status = EscrowStatus::Refunded;
        Ok(TokenTransfer { from_escrow: true, counterparty: self.tenant, amount: self.amount })
    }

    /// The escrow's current status.
    pub fn status(&self) -> (r: EscrowStatus)
        ensures
            r == self.status,
    {
        self.status
    }
}

} // verus!
