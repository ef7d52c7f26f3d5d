//! The transaction sink: a stand-in for a chain that hands out sequence
//! numbers and accepts or drops submissions.

use crate::airdrop::errors::AirdropError;
use crate::airdrop::structs::{Address, TokenAmount};
use vstd::arithmetic::div_mod::{lemma_mod_breakdown, lemma_small_mod};
use vstd::prelude::*;

verus! {

/// What the engine returns: a value, or one of its errors.
pub type AirdropResult<T> = Result<T, AirdropError>;

/// A submission is dropped when its draw is below this.
pub const FAILURE_THRESHOLD: u64 = 10;

/// Whether a submission with this draw is dropped.
pub open spec fn draw_fails(draw: u64) -> bool {
    draw < FAILURE_THRESHOLD
}

/// The lower-case hexadecimal digit for `d`, where `d` is below sixteen.
pub open spec fn hex_digit(d: nat) -> char {
    if d < 10 {
        (0x30 + d) as char
    } else {
        (0x57 + d) as char
    }
}

/// The last `width` hexadecimal digits of `n`, most significant first.
pub open spec fn hex_text(n: nat, width: nat) -> Seq<char>
    decreases width,
{
    if width == 0 {
        seq![]
    } else {
        hex_text(n / 16, (width - 1) as nat).push(hex_digit(n % 16))
    }
}

/// The identifier that the sink gives to the submission with sequence
/// number `nounce`: `tx_` and the number in sixteen hexadecimal digits.
pub open spec fn transaction_id_text(nounce: nat) -> Seq<char> {
    seq!['t', 'x', '_'] + hex_text(nounce, 16)
}

/// Sixteen to the power of `width`.
pub open spec fn sixteen_to(width: nat) -> nat
    decreases width,
{
    if width == 0 {
        1
    } else {
        16 * sixteen_to((width - 1) as nat)
    }
}

/// Two numbers with the same last hexadecimal digits leave the same
/// remainder when divided by the power of sixteen of that many digits.
proof fn lemma_hex_text_decides(a: nat, b: nat, width: nat)
    requires
        hex_text(a, width) == hex_text(b, width),
    ensures
        sixteen_to(width) > 0,
        a % sixteen_to(width) == b % sixteen_to(width),
    decreases width,
{
    if width > 0 {
        let below = (width - 1) as nat;
        let a_front = hex_text(a / 16, below);
        let b_front = hex_text(b / 16, below);
        assert(a_front.push(hex_digit(a % 16)).drop_last() =~= a_front);
        assert(b_front.push(hex_digit(b % 16)).drop_last() =~= b_front);
        assert(a_front.push(hex_digit(a % 16)).last() == hex_digit(a % 16));
        assert(b_front.push(hex_digit(b % 16)).last() == hex_digit(b % 16));
        assert(a % 16 == b % 16);
        lemma_hex_text_decides(a / 16, b / 16, below);
        lemma_mod_breakdown(a as int, 16, sixteen_to(below) as int);
        lemma_mod_breakdown(b as int, 16, sixteen_to(below) as int);
    }
}

/// No two sequence numbers of the sink share an identifier.
pub proof fn lemma_transaction_ids_differ(a: nat, b: nat)
    requires
        a <= u64::MAX,
        b <= u64::MAX,
        a != b,
    ensures
        transaction_id_text(a) != transaction_id_text(b),
{
    if transaction_id_text(a) == transaction_id_text(b) {
        let head = seq!['t', 'x', '_'];
        lemma_hex_text_len(a, 16);
        lemma_hex_text_len(b, 16);
        assert((head + hex_text(a, 16)).subrange(3, 19) =~= hex_text(a, 16));
        assert((head + hex_text(b, 16)).subrange(3, 19) =~= hex_text(b, 16));
        assert(hex_text(a, 16) == hex_text(b, 16));
        lemma_hex_text_decides(a, b, 16);
        assert(sixteen_to(16) == 0x1_0000_0000_0000_0000) by {
            reveal_with_fuel(sixteen_to, 17);
        }
        lemma_small_mod(a, sixteen_to(16));
        lemma_small_mod(b, sixteen_to(16));
    }
}

/// The text of `width` hexadecimal digits has `width` characters.
pub proof fn lemma_hex_text_len(n: nat, width: nat)
    ensures
        hex_text(n, width).len() == width,
    decreases width,
{
    if width > 0 {
        lemma_hex_text_len(n / 16, (width - 1) as nat);
    }
}

fn hex_char(d: u64) -> (c: char)
    requires
        d < 16,
    ensures
        c == hex_digit(d as nat),
{
    let code: u8 = if d < 10 {
        (0x30 + d) as u8
    } else {
        (0x57 + d) as u8
    };
    code as char
}

/// The identifier for sequence number `nounce`, as text.
pub fn transaction_id(nounce: u64) -> (id: String)
    ensures
        id@ == transaction_id_text(nounce as nat),
{
    let mut digits: Vec<char> = Vec::new();
    while digits.len() < 16
        invariant
            digits.len() <= 16,
        decreases 16 - digits.len(),
    {
        digits.push('0');
    }
    let mut rest: u64 = nounce;
    let mut done: usize = 0;
    assert(digits@.subrange(16, 16) =~= Seq::<char>::empty());
    assert(hex_text(rest as nat, 16) + Seq::<char>::empty() =~= hex_text(rest as nat, 16));
    while done < 16
        invariant
            done <= 16,
            digits.len() == 16,
            hex_text(nounce as nat, 16) == hex_text(rest as nat, (16 - done) as nat)
                + digits@.subrange(16 - done, 16),
        decreases 16 - done,
    {
        let ghost before = digits@;
        let c = hex_char(rest % 16);
        digits.set(15 - done, c);
        assert(digits@.subrange(15 - done, 16) =~= seq![c] + before.subrange(16 - done, 16));
        assert(hex_text(rest as nat, (16 - done) as nat) + before.subrange(16 - done, 16)
            =~= hex_text((rest / 16) as nat, (15 - done) as nat) + (seq![c] + before.subrange(
            16 - done,
            16,
        )));
        rest = rest / 16;
        done += 1;
    }
    assert(hex_text(rest as nat, 0) + digits@.subrange(0, 16) =~= digits@);
    let mut id = String::new();
    id.push('t');
    id.push('x');
    id.push('_');
    let mut i: usize = 0;
    while i < 16
        invariant
            i <= 16,
            digits.len() == 16,
            id@ == seq!['t', 'x', '_'] + digits@.take(i as int),
        decreases 16 - i,
    {
        id.push(digits[i]);
        i += 1;
        assert(digits@.take(i as int) =~= digits@.take(i - 1).push(digits@[i - 1]));
    }
    assert(digits@.take(16) =~= digits@);
    id
}

/// One draw from the thread's random number generator, by `rand::random`.
/// Any value may come back.
#[verifier::external_body]
fn random_draw() -> u64 {
    rand::random::<u64>()
}

/// As many random draws as asked for.
pub fn random_draws(count: usize) -> (draws: Vec<u64>)
    ensures
        draws@.len() == count,
{
    let mut draws: Vec<u64> = Vec::new();
    while draws.len() < count
        invariant
            draws.len() <= count,
        decreases count - draws.len(),
    {
        draws.push(random_draw());
    }
    draws
}

/// A sink that counts what passes through it. The counter is its own: it
/// goes up by one for each sequence number asked for and for each
/// submission accepted, and never comes down.
#[derive(Debug)]
pub struct VirtualBlockchain {
    pub nounce: u64,
}

impl VirtualBlockchain {
    /// A sink that nothing has passed through yet.
    pub fn new() -> (sink: VirtualBlockchain)
        ensures
            sink.nounce == 0,
    {
        VirtualBlockchain { nounce: 0 }
    }

    /// Takes the next sequence number.
    pub fn get_nounce(&mut self) -> (nounce: u64)
        requires
            old(self).nounce < u64::MAX,
        ensures
            final(self).nounce == old(self).nounce + 1,
            nounce == final(self).nounce,
    {
        self.nounce += 1;
        self.nounce
    }

    /// Submits a payout whose fate `draw` decides. A dropped submission
    /// leaves the counter alone; an accepted one takes the next sequence
    /// number and is identified by it.
    pub fn send_with_draw(&mut self, _recipient: &Address, _amount: &TokenAmount, draw: u64) -> (res:
        AirdropResult<String>)
        requires
            !draw_fails(draw) ==> old(self).nounce < u64::MAX,
        ensures
            draw_fails(draw) ==> res == Err::<String, AirdropError>(AirdropError::NetworkTimeout)
                && final(self).nounce == old(self).nounce,
            !draw_fails(draw) ==> res is Ok && res->Ok_0@ == transaction_id_text(
                (old(self).nounce + 1) as nat,
            ) && final(self).nounce == old(self).nounce + 1,
    {
        if draw < FAILURE_THRESHOLD {
            return Err(AirdropError::NetworkTimeout);
        }
        self.nounce += 1;
        Ok(transaction_id(self.nounce))
    }

    /// Submits a payout whose fate a random draw decides. Whatever the
    /// draw, the submission is either dropped with `NetworkTimeout` and the
    /// counter left alone, or accepted under the next sequence number.
    pub fn send_transaction(&mut self, recipient: &Address, amount: &TokenAmount) -> (res:
        AirdropResult<String>)
        requires
            old(self).nounce < u64::MAX,
        ensures
            res is Err ==> res == Err::<String, AirdropError>(AirdropError::NetworkTimeout)
                && final(self).nounce == old(self).nounce,
            res is Ok ==> res->Ok_0@ == transaction_id_text((old(self).nounce + 1) as nat)
                && final(self).nounce == old(self).nounce + 1,
    {
        let draw = random_draw();
        self.send_with_draw(recipient, amount, draw)
    }
}

} // verus!
