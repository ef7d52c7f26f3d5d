//! Reading a recipient list from text: one recipient to a line, as
//! `address,amount`, under an optional header line.

use crate::airdrop::batch::{entries, first_fault, holds_address, lemma_no_fault, repeats_earlier};
use crate::airdrop::errors::AirdropError;
use crate::airdrop::structs::{Address, Recipient, RecipientView, TokenAmount};
use crate::airdrop::text::{
    chars_of, decimal, find, index_of, is_blank, lemma_index_of, lines, parse_decimal, same_chars,
    split, string_of, trim, trimmed,
};
use vstd::prelude::*;
use vstd::slice::slice_subrange;

verus! {

/// The word that opens a header line.
pub open spec fn header_token() -> Seq<char> {
    seq!['a', 'd', 'd', 'r', 'e', 's', 's']
}

/// A line is a header when its first field, trimmed, is the word `address`.
pub open spec fn is_header(row: Seq<char>) -> bool {
    trim(split(row, ',')[0]) == header_token()
}

/// What a line says: a recipient, or what is wrong with the line. The line
/// must have exactly two fields; each is trimmed; the first must not be
/// blank, and the second must write a number, which must not be zero.
pub open spec fn row_entry(row: Seq<char>) -> Result<RecipientView, AirdropError> {
    let cells = split(row, ',');
    if cells.len() != 2 {
        Err(AirdropError::InvalidCSVFormat)
    } else if is_blank(trim(cells[0])) {
        Err(AirdropError::InvalidAddress)
    } else {
        match decimal(trim(cells[1])) {
            None => Err(AirdropError::InvalidAmount),
            Some(amount) => if amount == 0 {
                Err(AirdropError::ZeroAmount)
            } else {
                Ok(RecipientView { address: trim(cells[0]), amount: amount as nat })
            },
        }
    }
}

/// What the lines say together, after the recipients `accepted` so far: the
/// first line that is wrong, or that repeats an address, ends the reading
/// with its error; otherwise every line adds its recipient.
pub open spec fn load_rows(rows: Seq<Seq<char>>, accepted: Seq<RecipientView>) -> Result<
    Seq<RecipientView>,
    AirdropError,
>
    decreases rows.len(),
{
    if rows.len() == 0 {
        Ok(accepted)
    } else {
        match row_entry(rows[0]) {
            Err(fault) => Err(fault),
            Ok(entry) => if holds_address(accepted, entry.address) {
                Err(AirdropError::DuplicateAddress)
            } else {
                load_rows(rows.drop_first(), accepted.push(entry))
            },
        }
    }
}

/// What a text says: its lines are read in order, but for a header in the
/// first line, which is passed over.
pub open spec fn load(content: Seq<char>) -> Result<Seq<RecipientView>, AirdropError> {
    let rows = lines(content);
    if rows.len() > 0 && is_header(rows[0]) {
        load_rows(rows.drop_first(), seq![])
    } else {
        load_rows(rows, seq![])
    }
}

/// Whether a list is fit to be a batch but for its size and its total: the
/// addresses all differ and the amounts are all positive.
pub open spec fn clean(batch: Seq<RecipientView>) -> bool {
    first_fault(batch, batch.len()) is None
}

/// The first piece of a text is what stands before its first separator.
proof fn lemma_split_first(s: Seq<char>, sep: char)
    ensures
        split(s, sep).len() >= 1,
        split(s, sep)[0] == s.take(index_of(s, sep)),
{
    lemma_index_of(s, sep);
    let k = index_of(s, sep);
    if k == s.len() {
        assert(s.take(k) =~= s);
    }
}

/// A text has exactly two pieces when it holds exactly one separator, and
/// the pieces are what stands before and what stands after it.
proof fn lemma_split_two(s: Seq<char>, sep: char)
    ensures
        ({
            let k = index_of(s, sep);
            let tail = s.skip(k + 1);
            &&& split(s, sep).len() == 2 <==> k < s.len() && index_of(tail, sep) == tail.len()
            &&& split(s, sep).len() == 2 ==> split(s, sep)[0] == s.take(k) && split(s, sep)[1]
                == tail
        }),
{
    lemma_index_of(s, sep);
    let k = index_of(s, sep);
    if k < s.len() {
        let tail = s.skip(k + 1);
        lemma_index_of(tail, sep);
        lemma_split_first(tail, sep);
        let j = index_of(tail, sep);
        if j < tail.len() {
            lemma_split_first(tail.skip(j + 1), sep);
        } else {
            assert(split(tail, sep) =~= seq![tail]);
        }
    }
}

/// The first line of a text that is not empty is what stands before its
/// first line feed; the other lines are the lines of what stands after it.
proof fn lemma_lines_step(s: Seq<char>)
    requires
        s.len() > 0,
    ensures
        ({
            let k = index_of(s, '\n');
            let next = if k < s.len() {
                k + 1
            } else {
                k
            };
            &&& 0 <= k <= s.len()
            &&& lines(s).len() > 0
            &&& lines(s)[0] == s.take(k)
            &&& lines(s).drop_first() == lines(s.skip(next))
        }),
{
    lemma_index_of(s, '\n');
    let k = index_of(s, '\n');
    if k < s.len() {
        assert(lines(s).drop_first() =~= lines(s.skip(k + 1)));
    } else {
        assert(s.take(k) =~= s);
        assert(lines(s).drop_first() =~= lines(s.skip(k)));
    }
}

/// Reading lines adds one recipient for each line, and keeps a clean list
/// clean: what has been read without error has addresses that all differ
/// and amounts that are all positive.
pub proof fn lemma_load_rows_clean(rows: Seq<Seq<char>>, accepted: Seq<RecipientView>)
    requires
        clean(accepted),
    ensures
        load_rows(rows, accepted) matches Ok(loaded) ==> loaded.len() == accepted.len() + rows.len()
            && clean(loaded),
    decreases rows.len(),
{
    if rows.len() > 0 {
        if let Ok(entry) = row_entry(rows[0]) {
            if !holds_address(accepted, entry.address) {
                let next = accepted.push(entry);
                lemma_no_fault(accepted, accepted.len());
                assert forall|i: int| 0 <= i < next.len() implies !repeats_earlier(next, i) && (
                #[trigger] next[i]).amount > 0 by {
                    if i < accepted.len() {
                        assert(next[i] == accepted[i]);
                        if repeats_earlier(next, i) {
                            let j = choose|j: int|
                                0 <= j < i && (#[trigger] next[j]).address == next[i].address;
                            assert(accepted[j].address == accepted[i].address);
                            assert(repeats_earlier(accepted, i));
                        }
                    } else {
                        if repeats_earlier(next, i) {
                            let j = choose|j: int|
                                0 <= j < i && (#[trigger] next[j]).address == next[i].address;
                            assert(accepted[j].address == entry.address);
                        }
                    }
                }
                lemma_no_fault(next, next.len());
                lemma_load_rows_clean(rows.drop_first(), next);
            }
        }
    }
}

/// What a text says, where it says anything, is a clean list.
pub proof fn lemma_load_clean(content: Seq<char>)
    ensures
        load(content) matches Ok(loaded) ==> clean(loaded),
{
    let rows = lines(content);
    if rows.len() > 0 && is_header(rows[0]) {
        lemma_load_rows_clean(rows.drop_first(), seq![]);
    } else {
        lemma_load_rows_clean(rows, seq![]);
    }
}

/// Whether `row` opens with the header word.
fn row_is_header(row: &[char]) -> (header: bool)
    ensures
        header == is_header(row@),
{
    let k = find(row, ',');
    let first = trimmed(slice_subrange(row, 0, k));
    let word = chars_of("address");
    proof {
        lemma_split_first(row@, ',');
        reveal_strlit("address");
        assert("address"@ =~= header_token());
    }
    same_chars(first, word.as_slice())
}

/// The recipient that `row` names.
fn parse_row(row: &[char]) -> (res: Result<Recipient, AirdropError>)
    ensures
        match row_entry(row@) {
            Ok(entry) => res is Ok && res->Ok_0@ == entry,
            Err(fault) => res is Err && res->Err_0 == fault,
        },
{
    proof {
        lemma_split_two(row@, ',');
    }
    let k = find(row, ',');
    if k == row.len() {
        return Err(AirdropError::InvalidCSVFormat);
    }
    let tail = slice_subrange(row, k + 1, row.len());
    if find(tail, ',') < tail.len() {
        return Err(AirdropError::InvalidCSVFormat);
    }
    let address_text = string_of(trimmed(slice_subrange(row, 0, k)));
    let amount_text = trimmed(tail);
    let address = match Address::new(address_text.as_str()) {
        Ok(address) => address,
        Err(fault) => {
            return Err(fault);
        },
    };
    let amount = match parse_decimal(amount_text) {
        Some(amount) => amount,
        None => {
            return Err(AirdropError::InvalidAmount);
        },
    };
    if amount == 0 {
        return Err(AirdropError::ZeroAmount);
    }
    Ok(Recipient::new(address, TokenAmount::new(amount)))
}

/// Whether one of `recipients` has the address `address`.
fn has_address(recipients: &Vec<Recipient>, address: &Address) -> (found: bool)
    ensures
        found == holds_address(entries(recipients@), address@),
{
    let mut i: usize = 0;
    while i < recipients.len()
        invariant
            i <= recipients.len(),
            forall|j: int| 0 <= j < i ==> (#[trigger] entries(recipients@)[j]).address != address@,
        decreases recipients.len() - i,
    {
        if recipients[i].address == *address {
            assert(entries(recipients@)[i as int].address == address@);
            return true;
        }
        i += 1;
    }
    false
}

/// Reads the recipients that `content` lists. The reading stops at the
/// first line that is wrong and returns its error; a list that comes back
/// has one recipient for each line, in order, with addresses that all
/// differ and amounts that are all positive.
pub fn load_recipients(content: &str) -> (res: Result<Vec<Recipient>, AirdropError>)
    ensures
        match load(content@) {
            Ok(loaded) => res is Ok && entries(res->Ok_0@) == loaded,
            Err(fault) => res is Err && res->Err_0 == fault,
        },
        res matches Ok(recipients) ==> clean(entries(recipients@)),
{
    proof {
        lemma_load_clean(content@);
    }
    let chars = chars_of(content);
    let mut rest: &[char] = chars.as_slice();
    let mut recipients: Vec<Recipient> = Vec::new();
    assert(entries(recipients@) =~= Seq::<RecipientView>::empty());
    if rest.len() > 0 {
        proof {
            lemma_lines_step(rest@);
        }
        let k = find(rest, '\n');
        if row_is_header(slice_subrange(rest, 0, k)) {
            let next: usize = if k < rest.len() {
                k + 1
            } else {
                k
            };
            rest = slice_subrange(rest, next, rest.len());
        }
    }
    while rest.len() > 0
        invariant
            load(content@) == load_rows(lines(rest@), entries(recipients@)),
        decreases rest.len(),
    {
        proof {
            lemma_lines_step(rest@);
        }
        let k = find(rest, '\n');
        let recipient = match parse_row(slice_subrange(rest, 0, k)) {
            Ok(recipient) => recipient,
            Err(fault) => {
                return Err(fault);
            },
        };
        if has_address(&recipients, &recipient.address) {
            return Err(AirdropError::DuplicateAddress);
        }
        proof {
            assert(entries(recipients@.push(recipient)) =~= entries(recipients@).push(recipient@));
        }
        recipients.push(recipient);
        let next: usize = if k < rest.len() {
            k + 1
        } else {
            k
        };
        rest = slice_subrange(rest, next, rest.len());
    }
    Ok(recipients)
}

} // verus!
