//! The values that the engine works on: addresses, amounts, recipients and
//! the records of payout attempts.

use crate::airdrop::errors::AirdropError;
use crate::airdrop::text::{is_blank, str_is_blank};
use std::str::FromStr;
use vstd::prelude::*;
use vstd::std_specs::cmp::PartialEqSpecImpl;

verus! {

/// The identifier of an account: any text that is not blank. Two addresses
/// are the same when their texts are, character by character.
#[derive(Debug)]
pub struct Address(String);

impl View for Address {
    type V = Seq<char>;

    closed spec fn view(&self) -> Seq<char> {
        self.0@
    }
}

impl Address {
    #[verifier::type_invariant]
    closed spec fn holds_text(self) -> bool {
        !is_blank(self.0@)
    }

    /// Makes an address of `address`, kept as given. A blank text is no
    /// address.
    pub fn new(address: &str) -> (res: Result<Address, AirdropError>)
        ensures
            is_blank(address@) ==> res == Err::<Address, AirdropError>(
                AirdropError::InvalidAddress,
            ),
            !is_blank(address@) ==> res is Ok && res->Ok_0@ == address@,
    {
        if str_is_blank(address) {
            return Err(AirdropError::InvalidAddress);
        }
        Ok(Address(address.to_owned()))
    }

    /// The text of the address, which is never blank.
    pub fn as_str(&self) -> (text: &str)
        ensures
            text@ == self@,
            !is_blank(self@),
    {
        proof {
            use_type_invariant(self);
        }
        self.0.as_str()
    }
}

impl Clone for Address {
    fn clone(&self) -> (copy: Self)
        ensures
            copy == *self,
    {
        proof {
            use_type_invariant(self);
        }
        Address(self.0.clone())
    }
}

impl PartialEq for Address {
    fn eq(&self, other: &Address) -> (same: bool) {
        self.0 == other.0
    }
}

impl PartialEqSpecImpl for Address {
    open spec fn obeys_eq_spec() -> bool {
        true
    }

    open spec fn eq_spec(&self, other: &Address) -> bool {
        self@ == other@
    }
}

impl FromStr for Address {
    type Err = AirdropError;

    fn from_str(address: &str) -> (res: Result<Address, AirdropError>)
        ensures
            is_blank(address@) ==> res == Err::<Address, AirdropError>(
                AirdropError::InvalidAddress,
            ),
            !is_blank(address@) ==> res is Ok && res->Ok_0@ == address@,
    {
        Address::new(address)
    }
}

/// A quantity of indivisible token units. Zero is a value of the type; the
/// rules on recipients and batches are what reject it.
#[derive(Clone, Copy, Debug, PartialEq, Eq, Structural)]
pub struct TokenAmount(pub u64);

impl View for TokenAmount {
    type V = nat;

    open spec fn view(&self) -> nat {
        self.0 as nat
    }
}

impl TokenAmount {
    /// The amount of `amount` units.
    pub fn new(amount: u64) -> (res: TokenAmount)
        ensures
            res == TokenAmount(amount),
    {
        TokenAmount(amount)
    }

    /// The units of the amount.
    pub fn get_amount(&self) -> (amount: u64)
        ensures
            amount == self.0,
    {
        self.0
    }
}

/// What a recipient is to the rules: the text of the address and the units
/// to pay.
pub struct RecipientView {
    pub address: Seq<char>,
    pub amount: nat,
}

/// One intended payout.
#[derive(Debug, PartialEq)]
pub struct Recipient {
    pub address: Address,
    pub amount: TokenAmount,
}

impl View for Recipient {
    type V = RecipientView;

    open spec fn view(&self) -> RecipientView {
        RecipientView { address: self.address@, amount: self.amount@ }
    }
}

impl Recipient {
    /// The payout of `amount` to `address`.
    pub fn new(address: Address, amount: TokenAmount) -> (res: Recipient)
        ensures
            res.address == address,
            res.amount == amount,
    {
        Recipient { address, amount }
    }
}

impl Clone for Recipient {
    fn clone(&self) -> (copy: Self)
        ensures
            copy == *self,
    {
        Recipient { address: self.address.clone(), amount: self.amount }
    }
}

/// Where a payout attempt stands. `Pending` is the only state that is left
/// again; `Complete` and `Failed` are final.
#[derive(Debug, PartialEq, Eq)]
pub enum TransactionStatus {
    Pending,
    Complete,
    Failed(AirdropError),
}

impl TransactionStatus {
    /// Whether the attempt went through.
    pub fn is_complete(&self) -> (res: bool)
        ensures
            res == (*self is Complete),
    {
        match self {
            TransactionStatus::Complete => true,
            _ => false,
        }
    }

    /// Whether the attempt was given up.
    pub fn is_failed(&self) -> (res: bool)
        ensures
            res == (*self is Failed),
    {
        match self {
            TransactionStatus::Failed(_) => true,
            _ => false,
        }
    }
}

impl Clone for TransactionStatus {
    fn clone(&self) -> (copy: Self)
        ensures
            copy == *self,
    {
        match self {
            TransactionStatus::Pending => TransactionStatus::Pending,
            TransactionStatus::Complete => TransactionStatus::Complete,
            TransactionStatus::Failed(error) => TransactionStatus::Failed(error.clone()),
        }
    }
}

/// What a record says apart from the moment it was made: the identifier,
/// the status, and the text and units of the payout.
pub struct TransactionView {
    pub transaction_id: Option<Seq<char>>,
    pub status: TransactionStatus,
    pub recipient: Seq<char>,
    pub amount: nat,
}

/// The record of one payout attempt.
#[derive(Debug, PartialEq)]
pub struct Transactions {
    pub transaction_id: Option<String>,
    pub status: TransactionStatus,
    pub recipient: Address,
    pub amount: TokenAmount,
    pub transaction_time: u64,
}

impl View for Transactions {
    type V = TransactionView;

    open spec fn view(&self) -> TransactionView {
        TransactionView {
            transaction_id: match self.transaction_id {
                Some(id) => Some(id@),
                None => None,
            },
            status: self.status,
            recipient: self.recipient@,
            amount: self.amount@,
        }
    }
}

/// `std::time::SystemTime::elapsed`, asked of the Unix epoch: the time that
/// has passed since then by the system clock, or nothing where the clock
/// stands before the epoch. Nothing is claimed of what comes back.
#[verifier::external_body]
fn since_epoch() -> Option<core::time::Duration> {
    std::time::UNIX_EPOCH.elapsed().ok()
}

/// `Duration::as_secs` gives the whole seconds of a duration. Nothing is
/// claimed of the number.
pub assume_specification[ core::time::Duration::as_secs ](duration: &core::time::Duration) -> u64;

/// Seconds since the Unix epoch by the system clock; zero where the clock
/// stands before the epoch.
fn unix_seconds() -> u64 {
    match since_epoch() {
        Some(elapsed) => elapsed.as_secs(),
        None => 0,
    }
}

impl Transactions {
    /// A record carries an identifier exactly when it is complete.
    pub open spec fn wf(&self) -> bool {
        self.status is Complete <==> self.transaction_id is Some
    }

    /// A pending record for a payout of `amount` to `recipient`, made at
    /// `transaction_time`.
    pub fn at(recipient: Address, amount: TokenAmount, transaction_time: u64) -> (res: Transactions)
        ensures
            res.transaction_id is None,
            res.status is Pending,
            res.recipient == recipient,
            res.amount == amount,
            res.transaction_time == transaction_time,
            res.wf(),
    {
        Transactions {
            transaction_id: None,
            status: TransactionStatus::Pending,
            recipient,
            amount,
            transaction_time,
        }
    }

    /// A pending record for a payout of `amount` to `recipient`, stamped
    /// with the system clock.
    pub fn new(recipient: Address, amount: TokenAmount) -> (res: Transactions)
        ensures
            res.transaction_id is None,
            res.status is Pending,
            res.recipient == recipient,
            res.amount == amount,
            res.wf(),
    {
        Transactions::at(recipient, amount, unix_seconds())
    }

    /// Settles a pending record as complete under `transaction_id`.
    pub fn complete(&mut self, transaction_id: String)
        requires
            old(self).status is Pending,
        ensures
            final(self).transaction_id == Some(transaction_id),
            final(self).status is Complete,
            final(self).recipient == old(self).recipient,
            final(self).amount == old(self).amount,
            final(self).transaction_time == old(self).transaction_time,
            final(self).wf(),
    {
        self.transaction_id = Some(transaction_id);
        self.status = TransactionStatus::Complete;
    }

    /// Settles a pending record as failed for `error`.
    pub fn failed(&mut self, error: AirdropError)
        requires
            old(self).status is Pending,
        ensures
            final(self).status == TransactionStatus::Failed(error),
            final(self).transaction_id == old(self).transaction_id,
            final(self).recipient == old(self).recipient,
            final(self).amount == old(self).amount,
            final(self).transaction_time == old(self).transaction_time,
            old(self).wf() ==> final(self).wf(),
    {
        self.status = TransactionStatus::Failed(error);
    }
}

impl Clone for Transactions {
    fn clone(&self) -> (copy: Self)
        ensures
            copy == *self,
    {
        Transactions {
            transaction_id: match &self.transaction_id {
                Some(id) => Some(id.clone()),
                None => None,
            },
            status: self.status.clone(),
            recipient: self.recipient.clone(),
            amount: self.amount,
            transaction_time: self.transaction_time,
        }
    }
}

} // verus!
