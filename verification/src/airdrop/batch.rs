//! The rules that a batch of recipients has to meet before anything is
//! submitted, stated over what the recipients are to the rules.

use crate::airdrop::errors::AirdropError;
use crate::airdrop::structs::{Recipient, RecipientView};
use vstd::prelude::*;

verus! {

/// What each recipient of `recipients` is to the rules, in order.
pub open spec fn entries(recipients: Seq<Recipient>) -> Seq<RecipientView> {
    recipients.map_values(|r: Recipient| r@)
}

/// The sum of all amounts of the batch, with no upper limit.
pub open spec fn total_amount(batch: Seq<RecipientView>) -> nat
    decreases batch.len(),
{
    if batch.len() == 0 {
        0
    } else {
        total_amount(batch.drop_last()) + batch.last().amount
    }
}

/// Whether the address at place `i` stands at an earlier place too.
pub open spec fn repeats_earlier(batch: Seq<RecipientView>, i: int) -> bool {
    exists|j: int| 0 <= j < i && (#[trigger] batch[j]).address == batch[i].address
}

/// Whether `address` is one of the addresses of the batch.
pub open spec fn holds_address(batch: Seq<RecipientView>, address: Seq<char>) -> bool {
    exists|j: int| 0 <= j < batch.len() && (#[trigger] batch[j]).address == address
}

/// What is wrong with the first `n` recipients, taken one after the other:
/// the first recipient with a repeated address or a zero amount decides,
/// and the repeated address is reported before the zero amount.
pub open spec fn first_fault(batch: Seq<RecipientView>, n: nat) -> Option<AirdropError>
    decreases n,
{
    if n == 0 {
        None
    } else {
        match first_fault(batch, (n - 1) as nat) {
            Some(fault) => Some(fault),
            None => if repeats_earlier(batch, n - 1) {
                Some(AirdropError::DuplicateAddress)
            } else if batch[n - 1].amount == 0 {
                Some(AirdropError::ZeroAmount)
            } else {
                None
            },
        }
    }
}

/// What validation makes of a batch that is to be paid from `balance` under
/// a limit of `max_batch_size` recipients: the total to pay, or the first
/// rule that the batch breaks.
pub open spec fn validation(balance: nat, max_batch_size: nat, batch: Seq<RecipientView>) -> Result<
    u64,
    AirdropError,
> {
    if batch.len() == 0 {
        Err(AirdropError::EmptyBatch)
    } else if batch.len() > max_batch_size {
        Err(AirdropError::BatchSizeLimitExceeded)
    } else if first_fault(batch, batch.len()) is Some {
        Err(first_fault(batch, batch.len())->Some_0)
    } else if total_amount(batch) > balance {
        Err(
            AirdropError::InsufficientFunds {
                requires: total_amount(batch) as u64,
                available: balance as u64,
            },
        )
    } else {
        Ok(total_amount(batch) as u64)
    }
}

/// The one limit of the machine on validation: where a batch gets as far as
/// being summed, its total has to fit in 64 bits.
pub open spec fn total_fits(max_batch_size: nat, batch: Seq<RecipientView>) -> bool {
    0 < batch.len() <= max_batch_size && first_fault(batch, batch.len()) is None ==> total_amount(
        batch,
    ) <= u64::MAX
}

/// The total of the first `k + 1` recipients is the total of the first `k`
/// and the amount of the next.
pub proof fn lemma_total_step(batch: Seq<RecipientView>, k: int)
    requires
        0 <= k < batch.len(),
    ensures
        total_amount(batch.take(k + 1)) == total_amount(batch.take(k)) + batch[k].amount,
{
    assert(batch.take(k + 1).drop_last() =~= batch.take(k));
}

/// No beginning of a batch has a larger total than the batch.
pub proof fn lemma_total_grows(batch: Seq<RecipientView>, k: int)
    requires
        0 <= k <= batch.len(),
    ensures
        total_amount(batch.take(k)) <= total_amount(batch),
    decreases batch.len() - k,
{
    if k == batch.len() {
        assert(batch.take(k) =~= batch);
    } else {
        lemma_total_step(batch, k);
        lemma_total_grows(batch, k + 1);
    }
}

/// A batch has no fault exactly when all its addresses differ and all its
/// amounts are positive.
pub proof fn lemma_no_fault(batch: Seq<RecipientView>, n: nat)
    requires
        n <= batch.len(),
    ensures
        first_fault(batch, n) is None <==> (forall|i: int|
            0 <= i < n ==> !repeats_earlier(batch, i) && (#[trigger] batch[i]).amount > 0),
    decreases n,
{
    if n > 0 {
        lemma_no_fault(batch, (n - 1) as nat);
        if first_fault(batch, n) is None {
            assert forall|i: int| 0 <= i < n implies !repeats_earlier(batch, i) && (
            #[trigger] batch[i]).amount > 0 by {
                if i == n - 1 {
                } else {
                    assert(first_fault(batch, (n - 1) as nat) is None);
                }
            }
        }
    }
}

/// The only faults are a repeated address and a zero amount, and each is
/// reported of a batch that has one.
pub proof fn lemma_fault_kinds(batch: Seq<RecipientView>, n: nat)
    requires
        n <= batch.len(),
    ensures
        first_fault(batch, n) matches Some(fault) ==> fault == AirdropError::DuplicateAddress
            || fault == AirdropError::ZeroAmount,
        first_fault(batch, n) == Some(AirdropError::DuplicateAddress) ==> exists|i: int|
            0 <= i < n && repeats_earlier(batch, i),
        first_fault(batch, n) == Some(AirdropError::ZeroAmount) ==> exists|i: int|
            0 <= i < n && (#[trigger] batch[i]).amount == 0,
    decreases n,
{
    if n > 0 {
        lemma_fault_kinds(batch, (n - 1) as nat);
        if first_fault(batch, (n - 1) as nat) is None {
            if repeats_earlier(batch, n - 1) {
            } else if batch[n - 1].amount == 0 {
                assert(batch[n - 1].amount == 0);
            }
        }
    }
}

/// What validation rejects, and with what. Nothing at all is
/// `EmptyBatch`. More recipients than the limit is
/// `BatchSizeLimitExceeded`. Within the limit, a repeated address is
/// `DuplicateAddress` where no amount is zero, and a zero amount is
/// `ZeroAmount` where no address is repeated; where a batch has both, the
/// one that comes first decides. A batch without either is judged by its
/// total: more than the balance is `InsufficientFunds`, which names the
/// total and the balance, and anything else is accepted with the total.
pub proof fn lemma_validation_cases(balance: nat, max_batch_size: nat, batch: Seq<RecipientView>)
    ensures
        batch.len() == 0 ==> validation(balance, max_batch_size, batch) == Err::<u64, AirdropError>(
            AirdropError::EmptyBatch,
        ),
        batch.len() > 0 && batch.len() > max_batch_size ==> validation(
            balance,
            max_batch_size,
            batch,
        ) == Err::<u64, AirdropError>(AirdropError::BatchSizeLimitExceeded),
        0 < batch.len() <= max_batch_size && (exists|i: int|
            0 <= i < batch.len() && repeats_earlier(batch, i)) && (forall|i: int|
            0 <= i < batch.len() ==> (#[trigger] batch[i]).amount > 0) ==> validation(
            balance,
            max_batch_size,
            batch,
        ) == Err::<u64, AirdropError>(AirdropError::DuplicateAddress),
        0 < batch.len() <= max_batch_size && (exists|i: int|
            0 <= i < batch.len() && (#[trigger] batch[i]).amount == 0) && (forall|i: int|
            0 <= i < batch.len() ==> !repeats_earlier(batch, i)) ==> validation(
            balance,
            max_batch_size,
            batch,
        ) == Err::<u64, AirdropError>(AirdropError::ZeroAmount),
        0 < batch.len() <= max_batch_size && ((exists|i: int|
            0 <= i < batch.len() && repeats_earlier(batch, i)) || (exists|i: int|
            0 <= i < batch.len() && (#[trigger] batch[i]).amount == 0)) ==> validation(
            balance,
            max_batch_size,
            batch,
        ) == Err::<u64, AirdropError>(AirdropError::DuplicateAddress) || validation(
            balance,
            max_batch_size,
            batch,
        ) == Err::<u64, AirdropError>(AirdropError::ZeroAmount),
        0 < batch.len() <= max_batch_size && first_fault(batch, batch.len()) is None
            && total_amount(batch) > balance ==> validation(balance, max_batch_size, batch)
            == Err::<u64, AirdropError>(
            AirdropError::InsufficientFunds {
                requires: total_amount(batch) as u64,
                available: balance as u64,
            },
        ),
        validation(balance, max_batch_size, batch) is Ok <==> 0 < batch.len() <= max_batch_size
            && (forall|i: int|
            0 <= i < batch.len() ==> !repeats_earlier(batch, i) && (#[trigger] batch[i]).amount
                > 0) && total_amount(batch) <= balance,
        validation(balance, max_batch_size, batch) is Ok ==> validation(
            balance,
            max_batch_size,
            batch,
        ) == Ok::<u64, AirdropError>(total_amount(batch) as u64),
{
    lemma_no_fault(batch, batch.len());
    lemma_fault_kinds(batch, batch.len());
}

} // verus!
