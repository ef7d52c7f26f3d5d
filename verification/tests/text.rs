use airdrop::airdrop::errors::AirdropError;
use airdrop::airdrop::loader::load_recipients;
use airdrop::airdrop::structs::Address;
use airdrop::airdrop::text::{
    chars_of, find, is_whitespace, parse_decimal, same_chars, str_is_blank, string_of, trimmed,
};
use airdrop::airdrop::utils::{random_draws, transaction_id};

fn chars(text: &str) -> Vec<char> {
    text.chars().collect()
}

fn loaded(content: &str) -> Vec<(String, u64)> {
    load_recipients(content)
        .unwrap()
        .iter()
        .map(|r| (r.address.as_str().to_string(), r.amount.get_amount()))
        .collect()
}

fn pair(address: &str, amount: u64) -> (String, u64) {
    (address.to_string(), amount)
}

#[test]
fn whitespace_is_what_std_takes_for_whitespace() {
    for code in 0..=0x10FFFFu32 {
        if let Some(c) = char::from_u32(code) {
            assert_eq!(is_whitespace(c), c.is_whitespace(), "U+{:04X}", code);
        }
    }
}

#[test]
fn blank_address_is_rejected() {
    assert_eq!(Address::new(""), Err(AirdropError::InvalidAddress));
    assert_eq!(Address::new("   "), Err(AirdropError::InvalidAddress));
    assert_eq!(Address::new(" \t\r\n\u{3000}\u{a0}"), Err(AirdropError::InvalidAddress));
    assert_eq!("".parse::<Address>(), Err(AirdropError::InvalidAddress));
}

#[test]
fn address_is_kept_as_given() {
    assert_eq!(Address::new(" a ").unwrap().as_str(), " a ");
    assert_eq!(Address::new("\u{200b}").unwrap().as_str(), "\u{200b}");
    assert_eq!("0xabc".parse::<Address>().unwrap().as_str(), "0xabc");
    assert_ne!(Address::new("a").unwrap(), Address::new(" a").unwrap());
    assert_ne!(Address::new("a").unwrap(), Address::new("A").unwrap());
    let address = Address::new("x").unwrap();
    assert_eq!(address.clone(), address);
}

#[test]
fn blank_texts() {
    assert!(str_is_blank(""));
    assert!(str_is_blank(" \t "));
    assert!(!str_is_blank(" x "));
}

#[test]
fn trimming_is_what_std_does() {
    for text in ["", " ", "a", " a", "a ", "  a b  ", "\t\u{3000}x\u{2003}\n", " \u{200b} ", "\r"] {
        let given = chars(text);
        assert_eq!(string_of(trimmed(&given)), text.trim(), "{:?}", text);
    }
}

#[test]
fn numbers_are_what_std_parses() {
    for text in [
        "", "0", "7", "007", "+5", "+", "-1", "+-1", "++1", "1_0", "1 0", " 1", "1 ", "١", "1e3",
        "0x10", "18446744073709551615", "18446744073709551616", "+18446744073709551615",
        "99999999999999999999999", "00000000000000000000000001", "12a",
    ] {
        assert_eq!(parse_decimal(&chars(text)), text.parse::<u64>().ok(), "{:?}", text);
    }
    assert_eq!(parse_decimal(&chars("18446744073709551615")), Some(u64::MAX));
    assert_eq!(parse_decimal(&chars("18446744073709551616")), None);
    assert_eq!(parse_decimal(&chars("+42")), Some(42));
}

#[test]
fn finding_and_comparing() {
    assert_eq!(find(&chars("a,b,c"), ','), 1);
    assert_eq!(find(&chars("abc"), ','), 3);
    assert_eq!(find(&chars(""), ','), 0);
    assert!(same_chars(&chars("héllo"), &chars_of("héllo")));
    assert!(!same_chars(&chars("hello"), &chars("hellp")));
    assert!(!same_chars(&chars("hello"), &chars("hell")));
    assert_eq!(chars_of("a\u{10348}b"), vec!['a', '\u{10348}', 'b']);
    assert_eq!(string_of(&chars("a\u{10348}b")), "a\u{10348}b");
}

#[test]
fn transaction_ids_are_what_format_writes() {
    assert_eq!(transaction_id(0), "tx_0000000000000000");
    assert_eq!(transaction_id(2), "tx_0000000000000002");
    assert_eq!(transaction_id(255), "tx_00000000000000ff");
    assert_eq!(transaction_id(0xabcdef0123456789), "tx_abcdef0123456789");
    assert_eq!(transaction_id(u64::MAX), "tx_ffffffffffffffff");
    for nounce in [1u64, 9, 10, 15, 16, 4095, 1 << 32, (1 << 63) + 5] {
        assert_eq!(transaction_id(nounce), format!("tx_{:016x}", nounce));
    }
}

#[test]
fn random_draws_are_as_many_as_asked_for() {
    assert_eq!(random_draws(0).len(), 0);
    assert_eq!(random_draws(17).len(), 17);
    let draws = random_draws(64);
    assert!(draws.iter().any(|d| *d != draws[0]));
}

#[test]
fn loader_reads_rows_in_order() {
    assert_eq!(loaded("a,1\nb,2\nc,3"), vec![pair("a", 1), pair("b", 2), pair("c", 3)]);
    assert_eq!(loaded("a,1\nb,2\n"), vec![pair("a", 1), pair("b", 2)]);
    assert_eq!(loaded("a,1\r\nb,2\r\n"), vec![pair("a", 1), pair("b", 2)]);
    assert_eq!(loaded("  a , +7 \n"), vec![pair("a", 7)]);
    assert_eq!(loaded(""), vec![]);
}

#[test]
fn loader_passes_over_a_header() {
    assert_eq!(loaded("address,amount\na,1\n"), vec![pair("a", 1)]);
    assert_eq!(loaded(" address , anything, at all\na,1\n"), vec![pair("a", 1)]);
    assert_eq!(loaded("address\n"), vec![]);
    assert_eq!(loaded("address,amount"), vec![]);
    // Only the first line can be a header, and only the word itself is one.
    assert_eq!(loaded("a,1\naddress,2\n"), vec![pair("a", 1), pair("address", 2)]);
    assert_eq!(loaded("Address,5\n"), vec![pair("Address", 5)]);
    assert_eq!(loaded("addresses,5\n"), vec![pair("addresses", 5)]);
    assert_eq!(load_recipients("address,amount\naddress,amount\n"), Err(AirdropError::InvalidAmount));
}

#[test]
fn loader_rejects_wrong_column_count() {
    assert_eq!(load_recipients("a\n"), Err(AirdropError::InvalidCSVFormat));
    assert_eq!(load_recipients("a,1,2\n"), Err(AirdropError::InvalidCSVFormat));
    assert_eq!(load_recipients("a,1\n\nb,2\n"), Err(AirdropError::InvalidCSVFormat));
    assert_eq!(load_recipients("\n"), Err(AirdropError::InvalidCSVFormat));
    assert_eq!(load_recipients("a,1\n\n"), Err(AirdropError::InvalidCSVFormat));
}

#[test]
fn loader_rejects_blank_address() {
    assert_eq!(load_recipients(",1\n"), Err(AirdropError::InvalidAddress));
    assert_eq!(load_recipients("  \t,1\n"), Err(AirdropError::InvalidAddress));
}

#[test]
fn loader_rejects_bad_amount() {
    assert_eq!(load_recipients("a,\n"), Err(AirdropError::InvalidAmount));
    assert_eq!(load_recipients("a,x\n"), Err(AirdropError::InvalidAmount));
    assert_eq!(load_recipients("a,-1\n"), Err(AirdropError::InvalidAmount));
    assert_eq!(load_recipients("a,1.5\n"), Err(AirdropError::InvalidAmount));
    assert_eq!(load_recipients("a,18446744073709551616\n"), Err(AirdropError::InvalidAmount));
}

#[test]
fn loader_rejects_zero_amount() {
    assert_eq!(load_recipients("a,0\n"), Err(AirdropError::ZeroAmount));
    assert_eq!(load_recipients("a,+000\n"), Err(AirdropError::ZeroAmount));
}

#[test]
fn loader_rejects_duplicate_address() {
    assert_eq!(load_recipients("a,1\nb,2\n a ,3\n"), Err(AirdropError::DuplicateAddress));
    assert_eq!(loaded("a,1\nA,2\n"), vec![pair("a", 1), pair("A", 2)]);
}

#[test]
fn loader_stops_at_the_first_wrong_row() {
    assert_eq!(load_recipients("a,0\nb\n"), Err(AirdropError::ZeroAmount));
    assert_eq!(load_recipients("a,1\nb\nc,0\n"), Err(AirdropError::InvalidCSVFormat));
    assert_eq!(load_recipients(",x\n"), Err(AirdropError::InvalidAddress));
    assert_eq!(load_recipients("a,0\na,0\n"), Err(AirdropError::ZeroAmount));
}
