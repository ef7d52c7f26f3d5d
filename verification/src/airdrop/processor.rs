//! The processor: it owns the balance, the sink and the log of completed
//! payouts, validates batches and settles them.

use crate::airdrop::batch::{
    entries, first_fault, lemma_total_grows, lemma_total_step, repeats_earlier, total_amount,
    total_fits, validation,
};
use crate::airdrop::errors::AirdropError;
use crate::airdrop::ledger::{
    after_records, all_complete, chunks, chunks_fit, completed, completed_of, lemma_after_batch,
    lemma_all_or_nothing, lemma_before_batch, lemma_chunks_fit_split, lemma_completed_of_step,
    lemma_records_of_completed, lemma_run_over, lemma_settle_chunked_in_order,
    lemma_successes_bounds, lemma_successes_count, lemma_successes_step, records, settle,
    settle_chunked, settle_each, settled, settled_chunked, submissions, submitted, successes,
    Ledger,
};
use crate::airdrop::loader::{clean, load, load_recipients};
use crate::airdrop::structs::{
    Recipient, RecipientView, TokenAmount, TransactionView, Transactions,
};
use crate::airdrop::utils::{random_draws, AirdropResult, VirtualBlockchain};
use vstd::prelude::*;
use vstd::slice::slice_subrange;

verus! {

/// The books and the sink they are settled against.
#[derive(Debug)]
pub struct AirdropProcessor {
    pub blockchain: VirtualBlockchain,
    pub transaction: Vec<Transactions>,
    pub balance: TokenAmount,
    pub max_batch_size: usize,
}

impl View for AirdropProcessor {
    type V = Ledger;

    open spec fn view(&self) -> Ledger {
        Ledger {
            balance: self.balance@,
            max_batch_size: self.max_batch_size as nat,
            nounce: self.blockchain.nounce as nat,
            log: records(self.transaction@),
        }
    }
}

/// Whether `res` is what `outcome` says: the same error, or records that
/// say the same.
pub open spec fn reports(
    res: AirdropResult<Vec<Transactions>>,
    outcome: Result<Seq<TransactionView>, AirdropError>,
) -> bool {
    match outcome {
        Ok(said) => res is Ok && records(res->Ok_0@) == said,
        Err(fault) => res is Err && res->Err_0 == fault,
    }
}

/// What `res` says: its error, or what its records say.
pub open spec fn outcome_of(res: AirdropResult<Vec<Transactions>>) -> Result<
    Seq<TransactionView>,
    AirdropError,
> {
    match res {
        Ok(transactions) => Ok(records(transactions@)),
        Err(fault) => Err(fault),
    }
}

/// The rule of settlement as a caller sees it, by the records that came
/// back. An error is the error of validation, and then nothing has changed.
/// Otherwise there is one record for each recipient; if all are complete,
/// the balance is down by the total of the batch and the log is longer by
/// the size of the batch; if any is not, the balance is what it was and the
/// log is longer by the complete records alone.
pub open spec fn all_or_nothing(
    before: Ledger,
    batch: Seq<RecipientView>,
    after: Ledger,
    res: AirdropResult<Vec<Transactions>>,
) -> bool {
    match res {
        Err(fault) => validation(before.balance, before.max_batch_size, batch) == Err::<
            u64,
            AirdropError,
        >(fault) && after == before,
        Ok(transactions) => {
            let said = records(transactions@);
            &&& validation(before.balance, before.max_batch_size, batch) is Ok
            &&& said.len() == batch.len()
            &&& all_complete(said) ==> after.balance == before.balance - total_amount(batch)
                && after.log.len() == before.log.len() + batch.len()
            &&& !all_complete(said) ==> after.balance == before.balance && after.log.len()
                == before.log.len() + completed(said).len() && completed(said).len()
                < batch.len()
        },
    }
}

/// Whether the records that came back, if any did, are one for each
/// recipient, in the order of the recipients.
pub open spec fn in_order(recipients: Seq<RecipientView>, res: AirdropResult<Vec<Transactions>>)
    -> bool {
    res matches Ok(transactions) ==> {
        &&& transactions@.len() == recipients.len()
        &&& forall|i: int|
            0 <= i < recipients.len() ==> (#[trigger] transactions@[i])@.recipient
                == recipients[i].address && transactions@[i]@.amount == recipients[i].amount
    }
}

/// Whether `transaction` is the untouched record of the payout to
/// `recipient`.
pub open spec fn pending_for(transaction: Transactions, recipient: Recipient) -> bool {
    &&& transaction.transaction_id is None
    &&& transaction.status is Pending
    &&& transaction.recipient == recipient.address
    &&& transaction.amount == recipient.amount
}

/// Whether the address at place `i` of `recipients` stands at an earlier
/// place too.
fn seen_before(recipients: &[Recipient], i: usize) -> (seen: bool)
    requires
        i < recipients.len(),
    ensures
        seen == repeats_earlier(entries(recipients@), i as int),
{
    let mut j: usize = 0;
    while j < i
        invariant
            j <= i < recipients.len(),
            forall|k: int| 0 <= k < j ==> (#[trigger] entries(recipients@)[k]).address != entries(
                recipients@,
            )[i as int].address,
        decreases i - j,
    {
        if recipients[j].address == recipients[i].address {
            assert(entries(recipients@)[j as int].address == entries(recipients@)[i as int].address);
            return true;
        }
        j += 1;
    }
    false
}

/// What is wrong with the recipients, taken one after the other.
fn find_fault(recipients: &[Recipient]) -> (fault: Option<AirdropError>)
    ensures
        fault == first_fault(entries(recipients@), recipients@.len()),
{
    let ghost batch = entries(recipients@);
    let mut i: usize = 0;
    while i < recipients.len()
        invariant
            i <= recipients.len(),
            batch == entries(recipients@),
            first_fault(batch, i as nat) is None,
        decreases recipients.len() - i,
    {
        if seen_before(recipients, i) {
            assert(first_fault(batch, (i + 1) as nat) == Some(AirdropError::DuplicateAddress));
            proof {
                lemma_fault_stays(batch, (i + 1) as nat, batch.len());
            }
            return Some(AirdropError::DuplicateAddress);
        }
        if recipients[i].amount == TokenAmount::new(0) {
            assert(batch[i as int].amount == 0);
            assert(first_fault(batch, (i + 1) as nat) == Some(AirdropError::ZeroAmount));
            proof {
                lemma_fault_stays(batch, (i + 1) as nat, batch.len());
            }
            return Some(AirdropError::ZeroAmount);
        }
        assert(batch[i as int].amount != 0);
        i += 1;
    }
    None
}

/// The sum of the amounts of the recipients, if it fits in 64 bits.
pub fn checked_total(recipients: &[Recipient]) -> (total: Option<u64>)
    ensures
        total_amount(entries(recipients@)) <= u64::MAX ==> total == Some(
            total_amount(entries(recipients@)) as u64,
        ),
        total_amount(entries(recipients@)) > u64::MAX ==> total is None,
{
    let ghost batch = entries(recipients@);
    let mut total: u64 = 0;
    let mut k: usize = 0;
    assert(batch.take(0) =~= Seq::<RecipientView>::empty());
    while k < recipients.len()
        invariant
            k <= recipients.len(),
            batch == entries(recipients@),
            total == total_amount(batch.take(k as int)),
        decreases recipients.len() - k,
    {
        proof {
            lemma_total_step(batch, k as int);
            lemma_total_grows(batch, k + 1);
        }
        total = match total.checked_add(recipients[k].amount.get_amount()) {
            Some(sum) => sum,
            None => {
                return None;
            },
        };
        k += 1;
    }
    assert(batch.take(batch.len() as int) =~= batch);
    Some(total)
}

impl AirdropProcessor {
    /// A processor with `initial_amount` to pay from, a fresh sink, an empty
    /// log, and batches of at most `max_batch_size` recipients.
    pub fn new(initial_amount: TokenAmount, max_batch_size: usize) -> (processor: AirdropProcessor)
        ensures
            processor@ == (Ledger {
                balance: initial_amount@,
                max_batch_size: max_batch_size as nat,
                nounce: 0,
                log: seq![],
            }),
            processor.transaction@.len() == 0,
    {
        let processor = AirdropProcessor {
            blockchain: VirtualBlockchain::new(),
            transaction: Vec::new(),
            balance: initial_amount,
            max_batch_size,
        };
        assert(processor@.log =~= seq![]);
        processor
    }

    /// What is left to pay from.
    pub fn get_balance(&self) -> (balance: TokenAmount)
        ensures
            balance == self.balance,
    {
        self.balance
    }

    /// A copy of the log of completed payouts.
    pub fn get_transaction(&self) -> (log: Vec<Transactions>)
        ensures
            log@ == self.transaction@,
    {
        let mut log: Vec<Transactions> = Vec::new();
        let mut i: usize = 0;
        while i < self.transaction.len()
            invariant
                i <= self.transaction.len(),
                log@ == self.transaction@.take(i as int),
            decreases self.transaction.len() - i,
        {
            log.push(self.transaction[i].clone());
            i += 1;
            assert(self.transaction@.take(i as int) =~= self.transaction@.take(i - 1).push(
                self.transaction@[i - 1],
            ));
        }
        assert(self.transaction@.take(self.transaction@.len() as int) =~= self.transaction@);
        log
    }

    /// The most recipients that one batch may have.
    pub fn get_max_batch_size(&self) -> (size: usize)
        ensures
            size == self.max_batch_size,
    {
        self.max_batch_size
    }

    /// Reads the recipients that `content` lists, one to a line as
    /// `address,amount`, under an optional header line. The first line
    /// that is wrong ends the reading with its error: a line without
    /// exactly two fields, a blank address, an amount that is no number or
    /// is zero, an address that an earlier line has.
    pub fn load_recipients_from_csv(&self, content: &str) -> (res: AirdropResult<Vec<Recipient>>)
        ensures
            match load(content@) {
                Ok(loaded) => res is Ok && entries(res->Ok_0@) == loaded,
                Err(fault) => res is Err && res->Err_0 == fault,
            },
            res matches Ok(recipients) ==> clean(entries(recipients@)),
    {
        load_recipients(content)
    }

    /// Checks a batch against the rules without touching the books: it is
    /// not empty and not over the limit, no address occurs twice, no amount
    /// is zero, and the balance covers the total, which is returned.
    pub fn validate_batch(&self, recipients: &[Recipient]) -> (res: AirdropResult<u64>)
        requires
            total_fits(self.max_batch_size as nat, entries(recipients@)),
        ensures
            res == validation(self.balance@, self.max_batch_size as nat, entries(recipients@)),
    {
        if recipients.len() == 0 {
            return Err(AirdropError::EmptyBatch);
        }
        if recipients.len() > self.max_batch_size {
            return Err(AirdropError::BatchSizeLimitExceeded);
        }
        if let Some(fault) = find_fault(recipients) {
            return Err(fault);
        }
        let total = match checked_total(recipients) {
            Some(total) => total,
            None => unreached(),
        };
        if total > self.balance.get_amount() {
            return Err(
                AirdropError::InsufficientFunds {
                    requires: total,
                    available: self.balance.get_amount(),
                },
            );
        }
        Ok(total)
    }

    /// Whether a batch meets the one limit of the machine on validation:
    /// that its total, where validation gets as far as summing it, fits in
    /// 64 bits.
    pub fn batch_fits(&self, recipients: &[Recipient]) -> (fits: bool)
        ensures
            fits == total_fits(self.max_batch_size as nat, entries(recipients@)),
    {
        if recipients.len() == 0 || recipients.len() > self.max_batch_size {
            return true;
        }
        if find_fault(recipients).is_some() {
            return true;
        }
        checked_total(recipients).is_some()
    }

    /// Whether every batch that a recipient list is cut into meets the limit
    /// of the machine on validation.
    pub fn batches_fit(&self, recipients: &[Recipient]) -> (fit: bool)
        requires
            self.max_batch_size > 0,
        ensures
            fit == chunks_fit(entries(recipients@), self.max_batch_size as nat),
    {
        let ghost es = entries(recipients@);
        let ghost size = self.max_batch_size as nat;
        let n = recipients.len();
        let mut start: usize = 0;
        assert(es.skip(0) =~= es);
        while start < n
            invariant
                start <= n,
                n == recipients.len(),
                es == entries(recipients@),
                size == self.max_batch_size,
                size > 0,
                chunks_fit(es, size) == chunks_fit(es.skip(start as int), size),
            decreases n - start,
        {
            let end: usize = if n - start <= self.max_batch_size {
                n
            } else {
                start + self.max_batch_size
            };
            let batch = slice_subrange(recipients, start, end);
            proof {
                assert(entries(batch@) =~= es.subrange(start as int, end as int));
                lemma_chunks_fit_split(es, start as int, end as int, size);
            }
            if !self.batch_fits(batch) {
                return false;
            }
            start = end;
        }
        proof {
            assert(es.skip(n as int) =~= Seq::<RecipientView>::empty());
            assert(chunks(Seq::<RecipientView>::empty(), size).len() == 0);
        }
        true
    }

    /// Validates a batch and settles it, where `draws` decides the fate of
    /// each submission: the draw at a place is for the recipient at that
    /// place. What comes back and what becomes of the books is exactly what
    /// `settle` says.
    pub fn process_batch_with_draws(&mut self, recipients: Vec<Recipient>, draws: &[u64]) -> (res:
        AirdropResult<Vec<Transactions>>)
        requires
            draws@.len() == recipients@.len(),
            total_fits(old(self)@.max_batch_size, entries(recipients@)),
            validation(old(self)@.balance, old(self)@.max_batch_size, entries(recipients@)) is Ok
                ==> old(self)@.nounce + recipients@.len() + successes(draws@) <= u64::MAX,
        ensures
            final(self)@ == settle(old(self)@, entries(recipients@), draws@).0,
            reports(res, settle(old(self)@, entries(recipients@), draws@).1),
            res is Ok ==> final(self).transaction@ == old(self).transaction@ + completed_of(
                res->Ok_0@,
            ),
            res is Err ==> *final(self) == *old(self),
            all_or_nothing(old(self)@, entries(recipients@), final(self)@, res),
    {
        proof {
            if validation(self@.balance, self@.max_batch_size, entries(recipients@)) is Ok {
                lemma_all_or_nothing(self@, entries(recipients@), draws@);
            }
        }
        self.settle_batch(recipients.as_slice(), draws)
    }

    /// Validates a batch and settles it against the sink, which drops a
    /// submission now and then. A batch that validation rejects comes back
    /// as that error, with nothing submitted and the books untouched. Any
    /// other batch comes back as the records of all its submissions, the
    /// dropped ones among them as `Failed`: some sequence of draws explains
    /// the records and the books, as `settle` says.
    pub fn process_batch(&mut self, recipients: Vec<Recipient>) -> (res: AirdropResult<
        Vec<Transactions>,
    >)
        requires
            total_fits(old(self)@.max_batch_size, entries(recipients@)),
            validation(old(self)@.balance, old(self)@.max_batch_size, entries(recipients@)) is Ok
                ==> old(self)@.nounce + 2 * recipients@.len() <= u64::MAX,
        ensures
            exists|draws: Seq<u64>|
                settled(
                    old(self)@,
                    entries(recipients@),
                    draws,
                    final(self)@,
                    outcome_of(res),
                ),
            res is Ok ==> final(self).transaction@ == old(self).transaction@ + completed_of(
                res->Ok_0@,
            ),
            res is Err ==> *final(self) == *old(self),
            all_or_nothing(old(self)@, entries(recipients@), final(self)@, res),
    {
        let draws = random_draws(recipients.len());
        proof {
            lemma_successes_count(draws@);
        }
        let res = self.process_batch_with_draws(recipients, draws.as_slice());
        proof {
            let outcome = settle(old(self)@, entries(recipients@), draws@).1;
            assert(outcome_of(res) =~~= outcome);
            assert(settled(
                old(self)@,
                entries(recipients@),
                draws@,
                self@,
                outcome_of(res),
            ));
        }
        res
    }

    /// Settles a recipient list of any length in batches of the largest
    /// size allowed, where `draws` decides the fate of each submission: the
    /// draw at a place is for the recipient at that place. The batches are
    /// consecutive pieces of the list, settled in order, each on the books
    /// as the one before left them; the first that validation rejects ends
    /// the run with its error, and what was settled before it stays
    /// settled. What comes back and what becomes of the books is exactly
    /// what `settle_chunked` says.
    pub fn process_batches_with_draws(&mut self, recipients: Vec<Recipient>, draws: &[u64]) -> (res:
        AirdropResult<Vec<Transactions>>)
        requires
            old(self).max_batch_size > 0,
            draws@.len() == recipients@.len(),
            chunks_fit(entries(recipients@), old(self)@.max_batch_size),
            old(self)@.nounce + recipients@.len() + successes(draws@) <= u64::MAX,
        ensures
            final(self)@ == settle_chunked(old(self)@, entries(recipients@), draws@).0,
            reports(res, settle_chunked(old(self)@, entries(recipients@), draws@).1),
            old(self).transaction@.is_prefix_of(final(self).transaction@),
            in_order(entries(recipients@), res),
    {
        let ghost es = entries(recipients@);
        let ghost ds = draws@;
        let ghost size = self.max_batch_size as nat;
        let ghost run = settle_chunked(self@, es, ds);
        proof {
            lemma_settle_chunked_in_order(self@, es, ds);
        }
        if recipients.len() == 0 {
            return Err(AirdropError::EmptyBatch);
        }
        let all = recipients.as_slice();
        let n = all.len();
        let mut all_transactions: Vec<Transactions> = Vec::new();
        let mut start: usize = 0;
        proof {
            assert(es.skip(0) =~= es);
            assert(ds.skip(0) =~= ds);
            assert(records(all_transactions@) =~= Seq::<TransactionView>::empty());
            let whole = settle_each(self@, chunks(es, size), chunks(ds, size));
            assert(after_records(Seq::<TransactionView>::empty(), whole) =~~= whole);
        }
        while start < n
            invariant
                start <= n,
                n == all.len(),
                n == draws.len(),
                n == es.len(),
                all@ == recipients@,
                es == entries(all@),
                ds == draws@,
                run == settle_chunked(old(self)@, es, ds),
                size == self.max_batch_size,
                size > 0,
                chunks_fit(es.skip(start as int), size),
                self@.nounce + (n - start) + successes(ds.skip(start as int)) <= u64::MAX,
                run == after_records(
                    records(all_transactions@),
                    settle_each(
                        self@,
                        chunks(es.skip(start as int), size),
                        chunks(ds.skip(start as int), size),
                    ),
                ),
                old(self).transaction@.is_prefix_of(self.transaction@),
            decreases n - start,
        {
            let end: usize = if n - start <= self.max_batch_size {
                n
            } else {
                start + self.max_batch_size
            };
            let ghost here = self@;
            let ghost earlier = records(all_transactions@);
            proof {
                lemma_before_batch(here, es, ds, start as int, end as int, size);
                lemma_after_batch(run, earlier, here, es, ds, start as int, end as int, size);
            }
            let batch = slice_subrange(all, start, end);
            let batch_draws = slice_subrange(draws, start, end);
            assert(entries(batch@) =~= es.subrange(start as int, end as int));
            match self.settle_batch(batch, batch_draws) {
                Err(fault) => {
                    return Err(fault);
                },
                Ok(transactions) => {
                    let mut transactions = transactions;
                    assert(records(all_transactions@ + transactions@) =~= earlier + records(
                        transactions@,
                    ));
                    all_transactions.append(&mut transactions);
                },
            }
            start = end;
        }
        proof {
            assert(es.skip(n as int) =~= Seq::<RecipientView>::empty());
            assert(ds.skip(n as int) =~= Seq::<u64>::empty());
            lemma_run_over(self@, records(all_transactions@), size);
            assert forall|i: int| 0 <= i < es.len() implies (
            #[trigger] all_transactions@[i])@.recipient == es[i].address
                && all_transactions@[i]@.amount == es[i].amount by {
                assert(records(all_transactions@)[i] == all_transactions@[i]@);
            }
        }
        Ok(all_transactions)
    }

    /// Settles a recipient list of any length against the sink, in batches
    /// of the largest size allowed. Some sequence of draws, one for each
    /// recipient, explains what comes back and what becomes of the books,
    /// as `settle_chunked` says.
    pub fn process_batches(&mut self, recipients: Vec<Recipient>) -> (res: AirdropResult<
        Vec<Transactions>,
    >)
        requires
            old(self).max_batch_size > 0,
            chunks_fit(entries(recipients@), old(self)@.max_batch_size),
            old(self)@.nounce + 2 * recipients@.len() <= u64::MAX,
        ensures
            exists|draws: Seq<u64>|
                settled_chunked(
                    old(self)@,
                    entries(recipients@),
                    draws,
                    final(self)@,
                    outcome_of(res),
                ),
            old(self).transaction@.is_prefix_of(final(self).transaction@),
            in_order(entries(recipients@), res),
    {
        let draws = random_draws(recipients.len());
        proof {
            lemma_successes_count(draws@);
        }
        let res = self.process_batches_with_draws(recipients, draws.as_slice());
        proof {
            let outcome = settle_chunked(old(self)@, entries(recipients@), draws@).1;
            assert(outcome_of(res) =~~= outcome);
            assert(settled_chunked(
                old(self)@,
                entries(recipients@),
                draws@,
                self@,
                outcome_of(res),
            ));
        }
        res
    }

    /// Settles one batch, with one draw for each recipient.
    fn settle_batch(&mut self, batch: &[Recipient], draws: &[u64]) -> (res: AirdropResult<
        Vec<Transactions>,
    >)
        requires
            draws@.len() == batch@.len(),
            total_fits(old(self)@.max_batch_size, entries(batch@)),
            validation(old(self)@.balance, old(self)@.max_batch_size, entries(batch@)) is Ok
                ==> old(self)@.nounce + batch@.len() + successes(draws@) <= u64::MAX,
        ensures
            final(self)@ == settle(old(self)@, entries(batch@), draws@).0,
            reports(res, settle(old(self)@, entries(batch@), draws@).1),
            res is Ok ==> final(self).transaction@ == old(self).transaction@ + completed_of(
                res->Ok_0@,
            ),
            res is Err ==> *final(self) == *old(self),
    {
        let ghost books = self@;
        let ghost es = entries(batch@);
        let ghost ds = draws@;
        let total = match self.validate_batch(batch) {
            Ok(total) => total,
            Err(fault) => {
                return Err(fault);
            },
        };
        let n = batch.len();
        let mut transactions: Vec<Transactions> = Vec::new();
        let mut i: usize = 0;
        while i < n
            invariant
                i <= n,
                n == batch.len(),
                transactions.len() == i,
                forall|k: int| 0 <= k < i ==> pending_for(#[trigger] transactions@[k], batch@[k]),
            decreases n - i,
        {
            let recipient = &batch[i];
            transactions.push(Transactions::new(recipient.address.clone(), recipient.amount));
            i += 1;
        }
        let mut completed_transactions: Vec<Transactions> = Vec::new();
        let mut successful = true;
        let mut i: usize = 0;
        assert(ds.take(0) =~= Seq::<u64>::empty());
        assert(transactions@.take(0) =~= Seq::<Transactions>::empty());
        while i < n
            invariant
                i <= n,
                n == batch.len(),
                n == draws.len(),
                n == transactions.len(),
                es == entries(batch@),
                ds == draws@,
                forall|k: int| i <= k < n ==> pending_for(#[trigger] transactions@[k], batch@[k]),
                forall|k: int|
                    0 <= k < i ==> (#[trigger] transactions@[k])@ == submitted(
                        books.nounce,
                        es,
                        ds,
                        k,
                    ),
                self.blockchain.nounce == books.nounce + i + successes(ds.take(i as int)),
                books.nounce + n + successes(ds) <= u64::MAX,
                completed_transactions@ == completed_of(transactions@.take(i as int)),
                successful == (successes(ds.take(i as int)) == i),
                self.balance == old(self).balance,
                self.transaction == old(self).transaction,
                self.max_batch_size == old(self).max_batch_size,
            decreases n - i,
        {
            proof {
                lemma_successes_step(ds, i as int);
                lemma_successes_bounds(ds, i as int);
                lemma_successes_bounds(ds, i + 1);
            }
            let ghost before = transactions@;
            let _sequence = self.blockchain.get_nounce();
            let sent = self.blockchain.send_with_draw(
                &transactions[i].recipient,
                &transactions[i].amount,
                draws[i],
            );
            match sent {
                Ok(id) => {
                    transactions[i].complete(id);
                    completed_transactions.push(transactions[i].clone());
                },
                Err(error) => {
                    transactions[i].failed(error);
                    successful = false;
                },
            }
            proof {
                assert(forall|k: int| 0 <= k < n && k != i ==> transactions@[k] == before[k]);
                assert(transactions@[i as int]@ == submitted(books.nounce, es, ds, i as int));
                assert(transactions@.take(i as int) =~= before.take(i as int));
                lemma_completed_of_step(transactions@, i as int);
            }
            i += 1;
        }
        proof {
            assert(ds.take(n as int) =~= ds);
            assert(transactions@.take(n as int) =~= transactions@);
            assert(records(transactions@) =~= submissions(books.nounce, es, ds));
            lemma_records_of_completed(transactions@);
            assert(records(old(self).transaction@ + completed_transactions@) =~= records(
                old(self).transaction@,
            ) + records(completed_transactions@));
        }
        if successful {
            self.balance = TokenAmount::new(self.balance.get_amount() - total);
        }
        self.transaction.append(&mut completed_transactions);
        Ok(transactions)
    }
}

/// Validating twice gives the same answer: what validation returns is
/// decided by the balance, the limit and the batch, and validation changes
/// none of them.
pub proof fn lemma_validation_repeats(
    processor: AirdropProcessor,
    recipients: Seq<Recipient>,
    first: AirdropResult<u64>,
    second: AirdropResult<u64>,
)
    requires
        first == validation(
            processor.balance@,
            processor.max_batch_size as nat,
            entries(recipients),
        ),
        second == validation(
            processor.balance@,
            processor.max_batch_size as nat,
            entries(recipients),
        ),
    ensures
        first == second,
{
}

/// A fault found among the first recipients is the fault of the batch.
proof fn lemma_fault_stays(batch: Seq<RecipientView>, n: nat, m: nat)
    requires
        n <= m,
        first_fault(batch, n) is Some,
    ensures
        first_fault(batch, m) == first_fault(batch, n),
    decreases m - n,
{
    if n < m {
        lemma_fault_stays(batch, n, (m - 1) as nat);
    }
}

} // verus!
