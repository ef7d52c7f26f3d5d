//! What settling does to the books, stated over plain values: the books as
//! a ledger, a batch as a sequence of recipients, and the fate of each
//! submission as a draw.

use crate::airdrop::batch::{total_amount, total_fits, validation};
use crate::airdrop::errors::AirdropError;
use crate::airdrop::structs::{RecipientView, TransactionStatus, TransactionView, Transactions};
use crate::airdrop::utils::{draw_fails, transaction_id_text};
use vstd::prelude::*;

verus! {

/// The books of a processor: what is left to pay from, the limit on a
/// batch, the counter of the sink, and every completed payout so far.
pub struct Ledger {
    pub balance: nat,
    pub max_batch_size: nat,
    pub nounce: nat,
    pub log: Seq<TransactionView>,
}

/// What each record of `transactions` says, in order.
pub open spec fn records(transactions: Seq<Transactions>) -> Seq<TransactionView> {
    transactions.map_values(|t: Transactions| t@)
}

/// How many of the draws let their submission through.
pub open spec fn successes(draws: Seq<u64>) -> nat
    decreases draws.len(),
{
    if draws.len() == 0 {
        0
    } else {
        successes(draws.drop_last()) + if draw_fails(draws.last()) {
            0nat
        } else {
            1nat
        }
    }
}

/// What the record of submission `i` of a batch says once the batch is
/// settled, where the sink stood at `nounce` before the batch. Every
/// submission asks for one sequence number, and every accepted one takes a
/// second, by which it is identified.
pub open spec fn submitted(nounce: nat, batch: Seq<RecipientView>, draws: Seq<u64>, i: int)
    -> TransactionView {
    if draw_fails(draws[i]) {
        TransactionView {
            transaction_id: None,
            status: TransactionStatus::Failed(AirdropError::NetworkTimeout),
            recipient: batch[i].address,
            amount: batch[i].amount,
        }
    } else {
        TransactionView {
            transaction_id: Some(
                transaction_id_text((nounce + i + successes(draws.take(i)) + 2) as nat),
            ),
            status: TransactionStatus::Complete,
            recipient: batch[i].address,
            amount: batch[i].amount,
        }
    }
}

/// What the records of a settled batch say: one for each recipient, in the
/// order of the batch.
pub open spec fn submissions(nounce: nat, batch: Seq<RecipientView>, draws: Seq<u64>) -> Seq<
    TransactionView,
> {
    Seq::new(batch.len(), |i: int| submitted(nounce, batch, draws, i))
}

/// The complete ones among `records`, in order.
pub open spec fn completed(records: Seq<TransactionView>) -> Seq<TransactionView>
    decreases records.len(),
{
    if records.len() == 0 {
        seq![]
    } else if records.last().status is Complete {
        completed(records.drop_last()).push(records.last())
    } else {
        completed(records.drop_last())
    }
}

/// The complete ones among `transactions`, in order.
pub open spec fn completed_of(transactions: Seq<Transactions>) -> Seq<Transactions>
    decreases transactions.len(),
{
    if transactions.len() == 0 {
        seq![]
    } else if transactions.last().status is Complete {
        completed_of(transactions.drop_last()).push(transactions.last())
    } else {
        completed_of(transactions.drop_last())
    }
}

/// Whether every one of `records` is complete.
pub open spec fn all_complete(records: Seq<TransactionView>) -> bool {
    forall|i: int| 0 <= i < records.len() ==> (#[trigger] records[i]).status is Complete
}

/// Settling one batch, with one draw for each recipient. A batch that
/// validation rejects changes nothing. Otherwise every recipient is
/// submitted once; the balance is debited by the total if all submissions
/// went through, and not at all if any was dropped; and the complete
/// records, no others, are added to the log.
pub open spec fn settle(books: Ledger, batch: Seq<RecipientView>, draws: Seq<u64>) -> (
    Ledger,
    Result<Seq<TransactionView>, AirdropError>,
) {
    match validation(books.balance, books.max_batch_size, batch) {
        Err(fault) => (books, Err(fault)),
        Ok(_) => {
            let outcome = submissions(books.nounce, batch, draws);
            (
                Ledger {
                    balance: if successes(draws) == batch.len() {
                        (books.balance - total_amount(batch)) as nat
                    } else {
                        books.balance
                    },
                    max_batch_size: books.max_batch_size,
                    nounce: books.nounce + batch.len() + successes(draws),
                    log: books.log + completed(outcome),
                },
                Ok(outcome),
            )
        },
    }
}

/// `s` cut into consecutive pieces of `size` items; only the last piece may
/// be shorter, and none is empty.
pub open spec fn chunks<T>(s: Seq<T>, size: nat) -> Seq<Seq<T>>
    decreases s.len(),
{
    if s.len() == 0 || size == 0 {
        seq![]
    } else if s.len() <= size {
        seq![s]
    } else {
        seq![s.take(size as int)] + chunks(s.skip(size as int), size)
    }
}

/// Settling batches one after the other, each on the books as the one
/// before left them. The first batch that validation rejects ends the run
/// with its error: what was settled before it stays settled, and nothing
/// after it is tried.
pub open spec fn settle_each(
    books: Ledger,
    batches: Seq<Seq<RecipientView>>,
    draws: Seq<Seq<u64>>,
) -> (Ledger, Result<Seq<TransactionView>, AirdropError>)
    decreases batches.len(),
{
    if batches.len() == 0 {
        (books, Ok(seq![]))
    } else {
        let (next, first) = settle(books, batches[0], draws[0]);
        match first {
            Err(fault) => (next, Err(fault)),
            Ok(head) => {
                let (last, rest) = settle_each(next, batches.drop_first(), draws.drop_first());
                match rest {
                    Err(fault) => (last, Err(fault)),
                    Ok(tail) => (last, Ok(head + tail)),
                }
            },
        }
    }
}

/// `rest`, with `earlier` put before its records, if it has records.
pub open spec fn after_records(
    earlier: Seq<TransactionView>,
    rest: (Ledger, Result<Seq<TransactionView>, AirdropError>),
) -> (Ledger, Result<Seq<TransactionView>, AirdropError>) {
    match rest.1 {
        Ok(tail) => (rest.0, Ok(earlier + tail)),
        Err(fault) => (rest.0, Err(fault)),
    }
}

/// Whether every piece of `recipients` that validation would sum has a
/// total that fits in 64 bits.
pub open spec fn chunks_fit(recipients: Seq<RecipientView>, size: nat) -> bool {
    forall|k: int|
        0 <= k < chunks(recipients, size).len() ==> total_fits(
            size,
            #[trigger] chunks(recipients, size)[k],
        )
}

/// Settling a recipient list of any length: nothing at all is an error, and
/// anything else is cut into batches of the largest size allowed, which are
/// settled one after the other.
pub open spec fn settle_chunked(books: Ledger, recipients: Seq<RecipientView>, draws: Seq<u64>)
    -> (Ledger, Result<Seq<TransactionView>, AirdropError>) {
    if recipients.len() == 0 {
        (books, Err(AirdropError::EmptyBatch))
    } else {
        settle_each(
            books,
            chunks(recipients, books.max_batch_size),
            chunks(draws, books.max_batch_size),
        )
    }
}

/// Whether `after` and `outcome` are what settling `batch` on `before`
/// gives under `draws`, one for each recipient.
pub open spec fn settled(
    before: Ledger,
    batch: Seq<RecipientView>,
    draws: Seq<u64>,
    after: Ledger,
    outcome: Result<Seq<TransactionView>, AirdropError>,
) -> bool {
    draws.len() == batch.len() && settle(before, batch, draws) == (after, outcome)
}

/// Whether `after` and `outcome` are what settling `recipients` in batches
/// on `before` gives under `draws`, one for each recipient.
pub open spec fn settled_chunked(
    before: Ledger,
    recipients: Seq<RecipientView>,
    draws: Seq<u64>,
    after: Ledger,
    outcome: Result<Seq<TransactionView>, AirdropError>,
) -> bool {
    draws.len() == recipients.len() && settle_chunked(before, recipients, draws) == (
        after,
        outcome,
    )
}

/// One more draw counts for one more success, or for none.
pub proof fn lemma_successes_step(draws: Seq<u64>, k: int)
    requires
        0 <= k < draws.len(),
    ensures
        successes(draws.take(k + 1)) == successes(draws.take(k)) + if draw_fails(draws[k]) {
            0nat
        } else {
            1nat
        },
{
    assert(draws.take(k + 1).drop_last() =~= draws.take(k));
}

/// There are no more successes than draws, and no more among the first
/// draws than among all.
pub proof fn lemma_successes_bounds(draws: Seq<u64>, k: int)
    requires
        0 <= k <= draws.len(),
    ensures
        successes(draws.take(k)) <= k,
        successes(draws.take(k)) <= successes(draws),
        successes(draws) - successes(draws.take(k)) <= draws.len() - k,
    decreases draws.len() - k,
{
    lemma_successes_count(draws.take(k));
    if k == draws.len() {
        assert(draws.take(k) =~= draws);
    } else {
        lemma_successes_step(draws, k);
        lemma_successes_bounds(draws, k + 1);
    }
}

/// There are no more successes than draws.
pub proof fn lemma_successes_count(draws: Seq<u64>)
    ensures
        successes(draws) <= draws.len(),
    decreases draws.len(),
{
    if draws.len() > 0 {
        lemma_successes_count(draws.drop_last());
    }
}

/// Taking the complete records and reading them gives what reading the
/// records and taking the complete ones gives.
pub proof fn lemma_records_of_completed(transactions: Seq<Transactions>)
    ensures
        records(completed_of(transactions)) == completed(records(transactions)),
    decreases transactions.len(),
{
    if transactions.len() == 0 {
        assert(records(completed_of(transactions)) =~= completed(records(transactions)));
    } else {
        let front = transactions.drop_last();
        lemma_records_of_completed(front);
        assert(records(transactions).drop_last() =~= records(front));
        assert(records(transactions).last() == transactions.last()@);
        if transactions.last().status is Complete {
            assert(records(completed_of(front).push(transactions.last())) =~= records(
                completed_of(front),
            ).push(transactions.last()@));
        }
    }
}

/// One more record adds itself to the complete ones if it is complete.
pub proof fn lemma_completed_of_step(transactions: Seq<Transactions>, k: int)
    requires
        0 <= k < transactions.len(),
    ensures
        completed_of(transactions.take(k + 1)) == if transactions[k].status is Complete {
            completed_of(transactions.take(k)).push(transactions[k])
        } else {
            completed_of(transactions.take(k))
        },
{
    assert(transactions.take(k + 1).drop_last() =~= transactions.take(k));
}

/// A settled batch has as many complete records as draws that let their
/// submission through, and all its records are complete exactly when all
/// draws did.
pub proof fn lemma_completed_count(nounce: nat, batch: Seq<RecipientView>, draws: Seq<u64>)
    requires
        draws.len() == batch.len(),
    ensures
        completed(submissions(nounce, batch, draws)).len() == successes(draws),
        all_complete(submissions(nounce, batch, draws)) <==> successes(draws) == batch.len(),
{
    let outcome = submissions(nounce, batch, draws);
    lemma_completed_count_upto(outcome, draws, outcome.len() as int);
    assert(outcome.take(outcome.len() as int) =~= outcome);
    assert(draws.take(draws.len() as int) =~= draws);
    if successes(draws) == batch.len() {
        assert forall|i: int| 0 <= i < outcome.len() implies (
        #[trigger] outcome[i]).status is Complete by {
            lemma_all_succeed(draws, i);
        }
    }
    if all_complete(outcome) {
        assert forall|i: int| 0 <= i < draws.len() implies !draw_fails(#[trigger] draws[i]) by {
            assert(outcome[i].status is Complete);
        }
        lemma_none_fails(draws);
    }
}

proof fn lemma_completed_count_upto(outcome: Seq<TransactionView>, draws: Seq<u64>, k: int)
    requires
        outcome.len() == draws.len(),
        0 <= k <= outcome.len(),
        forall|i: int|
            0 <= i < outcome.len() ==> ((#[trigger] outcome[i]).status is Complete <==> !draw_fails(
                draws[i],
            )),
    ensures
        completed(outcome.take(k)).len() == successes(draws.take(k)),
    decreases k,
{
    if k > 0 {
        lemma_completed_count_upto(outcome, draws, k - 1);
        assert(outcome.take(k).drop_last() =~= outcome.take(k - 1));
        assert(draws.take(k).drop_last() =~= draws.take(k - 1));
        assert(outcome.take(k).last() == outcome[k - 1]);
    }
}

/// Where every draw counts as a success, none fails.
proof fn lemma_all_succeed(draws: Seq<u64>, i: int)
    requires
        0 <= i < draws.len(),
        successes(draws) == draws.len(),
    ensures
        !draw_fails(draws[i]),
    decreases draws.len(),
{
    lemma_successes_count(draws.drop_last());
    if i < draws.len() - 1 {
        lemma_all_succeed(draws.drop_last(), i);
    }
}

/// Where no draw fails, every draw counts as a success.
proof fn lemma_none_fails(draws: Seq<u64>)
    requires
        forall|i: int| 0 <= i < draws.len() ==> !draw_fails(#[trigger] draws[i]),
    ensures
        successes(draws) == draws.len(),
    decreases draws.len(),
{
    if draws.len() > 0 {
        let front = draws.drop_last();
        assert forall|i: int| 0 <= i < front.len() implies !draw_fails(#[trigger] front[i]) by {
            assert(front[i] == draws[i]);
        }
        lemma_none_fails(front);
    }
}

/// All or nothing. A batch that passes validation is settled without an
/// error. If every record of it is complete, the balance goes down by the
/// total of the batch and the log grows by the size of the batch. If any
/// is not, the balance stays as it was, to the unit, and the log grows by
/// the complete records alone.
pub proof fn lemma_all_or_nothing(books: Ledger, batch: Seq<RecipientView>, draws: Seq<u64>)
    requires
        draws.len() == batch.len(),
        validation(books.balance, books.max_batch_size, batch) is Ok,
    ensures
        settle(books, batch, draws).1 is Ok,
        total_amount(batch) <= books.balance,
        ({
            let (after, outcome) = settle(books, batch, draws);
            let said = outcome->Ok_0;
            &&& said.len() == batch.len()
            &&& all_complete(said) ==> after.balance == books.balance - total_amount(batch)
                && after.log.len() == books.log.len() + batch.len()
            &&& !all_complete(said) ==> after.balance == books.balance && after.log.len()
                == books.log.len() + completed(said).len() && completed(said).len() < batch.len()
        }),
{
    lemma_completed_count(books.nounce, batch, draws);
    lemma_successes_count(draws);
}

/// A batch that validation rejects is not settled at all: the error is
/// the one that validation found, and the books stay as they were.
pub proof fn lemma_rejected_changes_nothing(
    books: Ledger,
    batch: Seq<RecipientView>,
    draws: Seq<u64>,
)
    requires
        validation(books.balance, books.max_batch_size, batch) is Err,
    ensures
        settle(books, batch, draws) == (
            books,
            Err::<Seq<TransactionView>, AirdropError>(
                validation(books.balance, books.max_batch_size, batch)->Err_0,
            ),
        ),
{
}

/// The successes of two runs of draws put together are those of the one
/// and those of the other.
pub proof fn lemma_successes_add(a: Seq<u64>, b: Seq<u64>)
    ensures
        successes(a + b) == successes(a) + successes(b),
    decreases b.len(),
{
    if b.len() == 0 {
        assert(a + b =~= a);
    } else {
        lemma_successes_add(a, b.drop_last());
        assert((a + b).drop_last() =~= a + b.drop_last());
    }
}

/// The first piece of a text of items is its first `size` items, or all of
/// them if there are no more; the other pieces are the pieces of the rest.
pub proof fn lemma_chunks_step<T>(s: Seq<T>, size: nat)
    requires
        size > 0,
        s.len() > 0,
    ensures
        ({
            let k = if s.len() <= size {
                s.len() as int
            } else {
                size as int
            };
            &&& chunks(s, size).len() > 0
            &&& chunks(s, size)[0] == s.take(k)
            &&& chunks(s, size).drop_first() == chunks(s.skip(k), size)
        }),
{
    if s.len() <= size {
        assert(s.take(s.len() as int) =~= s);
        assert(chunks(s, size).drop_first() =~= chunks(s.skip(s.len() as int), size));
    } else {
        assert(chunks(s, size).drop_first() =~= chunks(s.skip(size as int), size));
    }
}

/// Cutting a list of `n` items into pieces of `size` gives the least number
/// of pieces that can hold them: `n / size`, rounded up. Piece `k` holds
/// the items from place `k * size` on: `size` of them, but for the last
/// piece, which holds what is left, at least one item. The pieces put
/// together in order are the list.
pub proof fn lemma_chunks_shape<T>(s: Seq<T>, size: nat)
    requires
        size > 0,
    ensures
        chunks(s, size).len() == (s.len() + size - 1) / (size as int),
        forall|k: int|
            0 <= k < chunks(s, size).len() ==> {
                &&& 0 < (#[trigger] chunks(s, size)[k]).len() <= size
                &&& k < chunks(s, size).len() - 1 ==> chunks(s, size)[k].len() == size
                &&& 0 <= k * size
                &&& k * size + chunks(s, size)[k].len() <= s.len()
                &&& chunks(s, size)[k] == s.subrange(
                    k * size,
                    k * size + chunks(s, size)[k].len(),
                )
            },
        chunks(s, size).flatten() == s,
    decreases s.len(),
{
    let n = s.len() as int;
    let d = size as int;
    let all = chunks(s, size);
    if n == 0 {
        assert((n + d - 1) / d == 0) by (nonlinear_arith)
            requires
                n == 0,
                d > 0,
        ;
        assert(all.flatten() =~= s);
    } else if n <= d {
        assert((n + d - 1) / d == 1) by (nonlinear_arith)
            requires
                0 < n <= d,
        ;
        assert(all =~= seq![s]);
        assert forall|k: int| 0 <= k < all.len() implies {
            &&& 0 < (#[trigger] all[k]).len() <= size
            &&& k < all.len() - 1 ==> all[k].len() == size
            &&& 0 <= k * size
            &&& k * size + all[k].len() <= s.len()
            &&& all[k] == s.subrange(k * size, k * size + all[k].len())
        } by {
            assert(k * d == 0) by (nonlinear_arith)
                requires
                    k == 0,
            ;
            assert(s.subrange(0, n) =~= s);
        }
        assert(seq![s].flatten() =~= s) by {
            assert(seq![s].drop_first() =~= Seq::<Seq<T>>::empty());
            assert(seq![s].drop_first().flatten() =~= Seq::<T>::empty());
            reveal_with_fuel(Seq::flatten, 2);
        }
    } else {
        let rest = s.skip(d);
        lemma_chunks_shape(rest, size);
        let tail = chunks(rest, size);
        assert(all =~= seq![s.take(d)] + tail);
        assert((n + d - 1) / d == (n - d + d - 1) / d + 1) by (nonlinear_arith)
            requires
                d > 0,
                n > d,
        ;
        assert forall|k: int| 0 <= k < all.len() implies {
            &&& 0 < (#[trigger] all[k]).len() <= size
            &&& k < all.len() - 1 ==> all[k].len() == size
            &&& 0 <= k * size
            &&& k * size + all[k].len() <= s.len()
            &&& all[k] == s.subrange(k * size, k * size + all[k].len())
        } by {
            if k == 0 {
                assert(k * d == 0) by (nonlinear_arith)
                    requires
                        k == 0,
                ;
                assert(s.take(d) =~= s.subrange(0, d));
            } else {
                let j = k - 1;
                assert(all[k] == tail[j]);
                assert(j * d >= 0 && j * d + d == k * d) by (nonlinear_arith)
                    requires
                        j == k - 1,
                        j >= 0,
                        d > 0,
                ;
                assert(tail[j] == rest.subrange(j * d, j * d + tail[j].len()));
                assert(rest.subrange(j * d, j * d + tail[j].len()) =~= s.subrange(
                    k * d,
                    k * d + tail[j].len(),
                ));
            }
        }
        assert(all.flatten() =~= s) by {
            assert(all.drop_first() =~= tail);
            assert(all[0] == s.take(d));
            assert(s.take(d) + rest =~= s);
        }
    }
}

/// Settling the pieces of a list settles its first piece, and then the
/// pieces of the rest on the books as the first piece left them.
pub proof fn lemma_settle_each_step(
    books: Ledger,
    recipients: Seq<RecipientView>,
    draws: Seq<u64>,
    size: nat,
)
    requires
        size > 0,
        recipients.len() > 0,
        draws.len() == recipients.len(),
    ensures
        ({
            let k = if recipients.len() <= size {
                recipients.len() as int
            } else {
                size as int
            };
            let (next, first) = settle(books, recipients.take(k), draws.take(k));
            settle_each(books, chunks(recipients, size), chunks(draws, size)) == match first {
                Err(fault) => (next, Err::<Seq<TransactionView>, AirdropError>(fault)),
                Ok(head) => after_records(
                    head,
                    settle_each(next, chunks(recipients.skip(k), size), chunks(draws.skip(k), size)),
                ),
            }
        }),
{
    lemma_chunks_step(recipients, size);
    lemma_chunks_step(draws, size);
}

/// Where all pieces of a list fit, so do the pieces of what is left after
/// its first piece, and the first piece itself.
pub proof fn lemma_chunks_fit_step(recipients: Seq<RecipientView>, size: nat)
    requires
        size > 0,
        recipients.len() > 0,
        chunks_fit(recipients, size),
    ensures
        ({
            let k = if recipients.len() <= size {
                recipients.len() as int
            } else {
                size as int
            };
            total_fits(size, recipients.take(k)) && chunks_fit(recipients.skip(k), size)
        }),
{
    lemma_chunks_step(recipients, size);
    let k = if recipients.len() <= size {
        recipients.len() as int
    } else {
        size as int
    };
    let all = chunks(recipients, size);
    let tail = chunks(recipients.skip(k), size);
    assert(total_fits(size, all[0]));
    assert forall|j: int| 0 <= j < tail.len() implies total_fits(size, #[trigger] tail[j]) by {
        assert(all.drop_first()[j] == all[j + 1]);
        assert(total_fits(size, all[j + 1]));
    }
}

/// Settling batches one after the other gives a record for every recipient
/// of every batch, in order, unless a batch is rejected.
pub proof fn lemma_settle_each_in_order(
    books: Ledger,
    batches: Seq<Seq<RecipientView>>,
    draws: Seq<Seq<u64>>,
)
    requires
        draws.len() == batches.len(),
    ensures
        settle_each(books, batches, draws).1 matches Ok(said) ==> {
            &&& said.len() == batches.flatten().len()
            &&& forall|i: int|
                0 <= i < said.len() ==> (#[trigger] said[i]).recipient
                    == batches.flatten()[i].address && said[i].amount
                    == batches.flatten()[i].amount
        },
    decreases batches.len(),
{
    if batches.len() == 0 {
        assert(batches.flatten() =~= Seq::<RecipientView>::empty());
    } else {
        let (next, first) = settle(books, batches[0], draws[0]);
        if first is Ok {
            let head = first->Ok_0;
            lemma_settle_each_in_order(next, batches.drop_first(), draws.drop_first());
            let rest = settle_each(next, batches.drop_first(), draws.drop_first()).1;
            if rest is Ok {
                let tail = rest->Ok_0;
                let said = head + tail;
                assert(batches.flatten() =~= batches[0] + batches.drop_first().flatten());
                assert forall|i: int| 0 <= i < said.len() implies (#[trigger] said[i]).recipient
                    == batches.flatten()[i].address && said[i].amount
                    == batches.flatten()[i].amount by {
                    if i < head.len() {
                        assert(said[i] == head[i]);
                    } else {
                        assert(said[i] == tail[i - head.len()]);
                    }
                }
            }
        }
    }
}

/// Settling a list in batches gives, unless a batch is rejected, exactly one
/// record for each recipient of the list, in the order of the list: the
/// cutting into batches does not show in what comes back.
pub proof fn lemma_settle_chunked_in_order(
    books: Ledger,
    recipients: Seq<RecipientView>,
    draws: Seq<u64>,
)
    requires
        books.max_batch_size > 0,
        draws.len() == recipients.len(),
    ensures
        settle_chunked(books, recipients, draws).1 matches Ok(said) ==> {
            &&& said.len() == recipients.len()
            &&& forall|i: int|
                0 <= i < said.len() ==> (#[trigger] said[i]).recipient == recipients[i].address
                    && said[i].amount == recipients[i].amount
        },
{
    if recipients.len() > 0 {
        lemma_chunks_shape(recipients, books.max_batch_size);
        lemma_chunks_shape(draws, books.max_batch_size);
        lemma_settle_each_in_order(
            books,
            chunks(recipients, books.max_batch_size),
            chunks(draws, books.max_batch_size),
        );
    }
}

/// What has to hold before the batch that starts at place `start` of a
/// list is settled, where all pieces from there on fit and the counter of
/// the sink has room for what is left: the batch fits, and the counter has
/// room for it.
pub proof fn lemma_before_batch(
    books: Ledger,
    recipients: Seq<RecipientView>,
    draws: Seq<u64>,
    start: int,
    end: int,
    size: nat,
)
    requires
        size > 0,
        0 <= start < recipients.len(),
        draws.len() == recipients.len(),
        end == if recipients.len() - start <= size {
            recipients.len() as int
        } else {
            start + size
        },
        chunks_fit(recipients.skip(start), size),
        books.nounce + (recipients.len() - start) + successes(draws.skip(start)) <= u64::MAX,
    ensures
        start < end <= recipients.len(),
        total_fits(size, recipients.subrange(start, end)),
        chunks_fit(recipients.skip(end), size),
        books.nounce + (end - start) + successes(draws.subrange(start, end)) <= u64::MAX,
{
    let left = recipients.skip(start);
    let left_draws = draws.skip(start);
    let k = end - start;
    assert(left.take(k) =~= recipients.subrange(start, end));
    assert(left_draws.take(k) =~= draws.subrange(start, end));
    assert(left.skip(k) =~= recipients.skip(end));
    assert(left_draws.skip(k) =~= draws.skip(end));
    lemma_chunks_fit_step(left, size);
    assert(left_draws =~= left_draws.take(k) + left_draws.skip(k));
    lemma_successes_add(left_draws.take(k), left_draws.skip(k));
}

/// What settling the batch from place `start` to place `end` of a list
/// leaves to do: if the batch is rejected, the run is over with its error;
/// if not, the run is the records so far, those of the batch, and the run
/// over the rest of the list on the books as the batch left them.
pub proof fn lemma_after_batch(
    run: (Ledger, Result<Seq<TransactionView>, AirdropError>),
    earlier: Seq<TransactionView>,
    books: Ledger,
    recipients: Seq<RecipientView>,
    draws: Seq<u64>,
    start: int,
    end: int,
    size: nat,
)
    requires
        size > 0,
        0 <= start < recipients.len(),
        draws.len() == recipients.len(),
        end == if recipients.len() - start <= size {
            recipients.len() as int
        } else {
            start + size
        },
        run == after_records(
            earlier,
            settle_each(books, chunks(recipients.skip(start), size), chunks(draws.skip(start), size)),
        ),
        books.nounce + (recipients.len() - start) + successes(draws.skip(start)) <= u64::MAX,
    ensures
        ({
            let (after, outcome) = settle(
                books,
                recipients.subrange(start, end),
                draws.subrange(start, end),
            );
            match outcome {
                Err(fault) => run == (after, Err::<Seq<TransactionView>, AirdropError>(fault))
                    && after == books,
                Ok(head) => {
                    &&& run == after_records(
                        earlier + head,
                        settle_each(
                            after,
                            chunks(recipients.skip(end), size),
                            chunks(draws.skip(end), size),
                        ),
                    )
                    &&& after.max_batch_size == books.max_batch_size
                    &&& after.nounce + (recipients.len() - end) + successes(draws.skip(end))
                        <= u64::MAX
                },
            }
        }),
{
    let left = recipients.skip(start);
    let left_draws = draws.skip(start);
    let k = end - start;
    assert(left.take(k) =~= recipients.subrange(start, end));
    assert(left_draws.take(k) =~= draws.subrange(start, end));
    assert(left.skip(k) =~= recipients.skip(end));
    assert(left_draws.skip(k) =~= draws.skip(end));
    lemma_settle_each_step(books, left, left_draws, size);
    assert(left_draws =~= left_draws.take(k) + left_draws.skip(k));
    lemma_successes_add(left_draws.take(k), left_draws.skip(k));
    let (after, outcome) = settle(books, left.take(k), left_draws.take(k));
    if outcome is Ok {
        let head = outcome->Ok_0;
        let rest = settle_each(after, chunks(left.skip(k), size), chunks(left_draws.skip(k), size));
        if rest.1 is Ok {
            let tail = rest.1->Ok_0;
            assert(earlier + (head + tail) =~= (earlier + head) + tail);
        }
    }
}

/// A run over nothing is over: it leaves the books as they are and adds no
/// record.
pub proof fn lemma_run_over(books: Ledger, earlier: Seq<TransactionView>, size: nat)
    ensures
        after_records(
            earlier,
            settle_each(
                books,
                chunks(Seq::<RecipientView>::empty(), size),
                chunks(Seq::<u64>::empty(), size),
            ),
        ) == (books, Ok::<Seq<TransactionView>, AirdropError>(earlier)),
{
    assert(earlier + Seq::<TransactionView>::empty() =~= earlier);
}

/// The pieces of a list from place `start` on all fit exactly when the
/// piece that starts there fits and all pieces after it do.
pub proof fn lemma_chunks_fit_split(
    recipients: Seq<RecipientView>,
    start: int,
    end: int,
    size: nat,
)
    requires
        size > 0,
        0 <= start < recipients.len(),
        end == if recipients.len() - start <= size {
            recipients.len() as int
        } else {
            start + size
        },
    ensures
        chunks_fit(recipients.skip(start), size) <==> total_fits(
            size,
            recipients.subrange(start, end),
        ) && chunks_fit(recipients.skip(end), size),
{
    let left = recipients.skip(start);
    let k = end - start;
    assert(left.take(k) =~= recipients.subrange(start, end));
    assert(left.skip(k) =~= recipients.skip(end));
    lemma_chunks_step(left, size);
    let all = chunks(left, size);
    let tail = chunks(left.skip(k), size);
    if chunks_fit(left, size) {
        lemma_chunks_fit_step(left, size);
    }
    if total_fits(size, left.take(k)) && chunks_fit(left.skip(k), size) {
        assert forall|j: int| 0 <= j < all.len() implies total_fits(size, #[trigger] all[j]) by {
            if j > 0 {
                assert(all[j] == all.drop_first()[j - 1]);
                assert(total_fits(size, tail[j - 1]));
            }
        }
    }
}

/// A list whose total fits in 64 bits is cut into pieces that all fit.
pub proof fn lemma_chunks_fit_total(recipients: Seq<RecipientView>, size: nat)
    requires
        size > 0,
        total_amount(recipients) <= u64::MAX,
    ensures
        chunks_fit(recipients, size),
    decreases recipients.len(),
{
    if recipients.len() > 0 {
        let k = if recipients.len() <= size {
            recipients.len() as int
        } else {
            size as int
        };
        assert(recipients.skip(0) =~= recipients);
        lemma_chunks_fit_split(recipients, 0, k, size);
        lemma_total_parts(recipients, k);
        assert(recipients.subrange(0, k) =~= recipients.take(k));
        lemma_chunks_fit_total(recipients.skip(k), size);
    }
}

/// The total of a list is the total of its beginning and the total of the
/// rest.
pub proof fn lemma_total_parts(recipients: Seq<RecipientView>, k: int)
    requires
        0 <= k <= recipients.len(),
    ensures
        total_amount(recipients) == total_amount(recipients.take(k)) + total_amount(
            recipients.skip(k),
        ),
    decreases recipients.len(),
{
    if k == recipients.len() {
        assert(recipients.take(k) =~= recipients);
        assert(recipients.skip(k) =~= Seq::<RecipientView>::empty());
    } else {
        let front = recipients.drop_last();
        lemma_total_parts(front, k);
        assert(front.take(k) =~= recipients.take(k));
        assert(recipients.skip(k).drop_last() =~= front.skip(k));
    }
}

/// The complete ones among any records are all complete.
pub proof fn lemma_completed_complete(records: Seq<TransactionView>)
    ensures
        all_complete(completed(records)),
    decreases records.len(),
{
    if records.len() > 0 {
        lemma_completed_complete(records.drop_last());
        let front = completed(records.drop_last());
        if records.last().status is Complete {
            assert forall|i: int| 0 <= i < front.push(records.last()).len() implies (
            #[trigger] front.push(records.last())[i]).status is Complete by {
                if i < front.len() {
                    assert(front.push(records.last())[i] == front[i]);
                }
            }
        }
    }
}

/// Settling adds to the log and takes nothing from it, and what it adds is
/// complete: a log of complete records stays one, and what it held stays
/// in front.
pub proof fn lemma_settle_keeps_log(books: Ledger, batch: Seq<RecipientView>, draws: Seq<u64>)
    ensures
        books.log.is_prefix_of(settle(books, batch, draws).0.log),
        all_complete(books.log) ==> all_complete(settle(books, batch, draws).0.log),
{
    let after = settle(books, batch, draws).0;
    if validation(books.balance, books.max_batch_size, batch) is Ok {
        let added = completed(submissions(books.nounce, batch, draws));
        lemma_completed_complete(submissions(books.nounce, batch, draws));
        assert(after.log == books.log + added);
        assert(books.log.is_prefix_of(books.log + added));
        if all_complete(books.log) {
            assert forall|i: int| 0 <= i < after.log.len() implies (
            #[trigger] after.log[i]).status is Complete by {
                if i < books.log.len() {
                    assert(after.log[i] == books.log[i]);
                } else {
                    assert(after.log[i] == added[i - books.log.len()]);
                }
            }
        }
    }
}

} // verus!
