use airdrop::airdrop::errors::AirdropError;
use airdrop::airdrop::processor::AirdropProcessor;
use airdrop::airdrop::structs::{Address, Recipient, TokenAmount, TransactionStatus, Transactions};
use airdrop::airdrop::utils::VirtualBlockchain;

const RECIPIENTS_CSV: &str = "address,amount\n\
0x1234567890123456789012345678901234567890,100\n\
0x2345678901234567890123456789012345678901,200\n\
0x3456789012345678901234567890123456789012,300\n";

fn recipient(address: &str, amount: u64) -> Recipient {
    Recipient::new(Address::new(address).unwrap(), TokenAmount::new(amount))
}

fn numbered(count: u64) -> Vec<Recipient> {
    (0..count).map(|i| recipient(&format!("addr{}", i), i + 1)).collect()
}

fn three() -> Vec<Recipient> {
    vec![recipient("a", 100), recipient("b", 200), recipient("c", 300)]
}

#[test]
fn test_address_creation() {
    let address = Address::new("0x1234567890123456789012345678901234567890").unwrap();
    let expected = Address::new("0x1234567890123456789012345678901234567890").unwrap();

    assert_eq!(address, expected);
}

#[test]
fn test_address_from_csv_file() {
    let mut reader = csv::ReaderBuilder::new().has_headers(true).from_reader(RECIPIENTS_CSV.as_bytes());
    let mut recipients = Vec::new();
    for result in reader.records() {
        let record = result.expect("Failed to deserialize record");
        let amount: u64 = record[1].parse().expect("Failed to deserialize record");
        recipients.push(recipient(&record[0], amount));
    }
    assert_eq!(recipients.len(), 3);
    assert_eq!(
        recipients[0].address,
        Address::new("0x1234567890123456789012345678901234567890").unwrap()
    );
    assert_eq!(
        recipients[1].address,
        Address::new("0x2345678901234567890123456789012345678901").unwrap()
    );
    assert_eq!(
        recipients[2].address,
        Address::new("0x3456789012345678901234567890123456789012").unwrap()
    );
}

#[test]
fn test_load_recipients_from_csv() {
    let airdrop_processor = AirdropProcessor::new(TokenAmount::new(100000000), 10);
    let recipients = airdrop_processor.load_recipients_from_csv(RECIPIENTS_CSV).unwrap();
    assert_eq!(recipients.len(), 3);
}

#[test]
fn test_validate_batch() {
    let mut airdrop_processor = AirdropProcessor::new(TokenAmount::new(100000000), 10);
    let recipients = airdrop_processor.load_recipients_from_csv(RECIPIENTS_CSV).unwrap();
    assert_eq!(recipients.len(), 3);

    let validate_batch = airdrop_processor.validate_batch(&recipients).unwrap();
    assert_eq!(validate_batch, 600);
    assert_eq!(airdrop_processor.get_max_batch_size(), 10);
    assert_eq!(airdrop_processor.get_balance(), TokenAmount::new(100000000));
    assert_eq!(airdrop_processor.get_transaction().len(), 0);
    assert_eq!(airdrop_processor.blockchain.get_nounce(), 1);
}

#[test]
fn test_process_batches() {
    let mut airdrop_processor = AirdropProcessor::new(TokenAmount::new(100000000), 10);
    let recipients = airdrop_processor.load_recipients_from_csv(RECIPIENTS_CSV).unwrap();
    assert_eq!(recipients.len(), 3);

    let validate_batch = airdrop_processor.validate_batch(&recipients).unwrap();

    let result = airdrop_processor.process_batches(recipients);
    assert!(result.is_ok());
    let transactions = airdrop_processor.get_transaction();
    assert_eq!(transactions.len(), 3);
    assert_eq!(transactions[0].status.is_complete(), true);
    assert_eq!(transactions[1].status.is_complete(), true);
    assert_eq!(transactions[2].status.is_complete(), true);
    assert_eq!(
        airdrop_processor.get_balance(),
        TokenAmount::new(100000000 - validate_batch)
    );
    assert_eq!(airdrop_processor.blockchain.get_nounce(), 7);
}

#[test]
fn loader_reads_the_same_rows_as_the_csv_crate() {
    let processor = AirdropProcessor::new(TokenAmount::new(0), 1);
    let loaded = processor.load_recipients_from_csv(RECIPIENTS_CSV).unwrap();
    let mut reader = csv::ReaderBuilder::new().has_headers(true).from_reader(RECIPIENTS_CSV.as_bytes());
    let mut rows = 0;
    for (i, result) in reader.records().enumerate() {
        let record = result.unwrap();
        assert_eq!(loaded[i].address.as_str(), &record[0]);
        assert_eq!(loaded[i].amount.get_amount(), record[1].parse::<u64>().unwrap());
        rows += 1;
    }
    assert_eq!(rows, loaded.len());
}

#[test]
fn all_submissions_succeed() {
    let mut processor = AirdropProcessor::new(TokenAmount::new(100000000), 10);
    let transactions = processor.process_batch_with_draws(three(), &[10, 11, u64::MAX]).unwrap();
    assert_eq!(processor.get_balance(), TokenAmount::new(99999400));
    assert_eq!(processor.get_transaction().len(), 3);
    assert_eq!(transactions.len(), 3);
    for transaction in &transactions {
        assert_eq!(transaction.status, TransactionStatus::Complete);
    }
    assert_eq!(transactions[0].transaction_id.as_deref(), Some("tx_0000000000000002"));
    assert_eq!(transactions[1].transaction_id.as_deref(), Some("tx_0000000000000004"));
    assert_eq!(transactions[2].transaction_id.as_deref(), Some("tx_0000000000000006"));
    assert_eq!(transactions[1].recipient.as_str(), "b");
    assert_eq!(transactions[1].amount.get_amount(), 200);
    assert_eq!(processor.blockchain.nounce, 6);
    assert_eq!(processor.get_transaction(), transactions);
}

#[test]
fn second_submission_fails() {
    let mut processor = AirdropProcessor::new(TokenAmount::new(100000000), 10);
    let transactions = processor.process_batch_with_draws(three(), &[100, 9, 100]).unwrap();
    assert_eq!(processor.get_balance(), TokenAmount::new(100000000));
    let log = processor.get_transaction();
    assert_eq!(log.len(), 2);
    assert_eq!(log[0].recipient.as_str(), "a");
    assert_eq!(log[1].recipient.as_str(), "c");
    assert_eq!(transactions.len(), 3);
    assert_eq!(transactions[0].status, TransactionStatus::Complete);
    assert_eq!(transactions[1].status, TransactionStatus::Failed(AirdropError::NetworkTimeout));
    assert!(transactions[1].status.is_failed());
    assert_eq!(transactions[1].transaction_id, None);
    assert_eq!(transactions[2].status, TransactionStatus::Complete);
    assert_eq!(transactions[0].transaction_id.as_deref(), Some("tx_0000000000000002"));
    assert_eq!(transactions[2].transaction_id.as_deref(), Some("tx_0000000000000005"));
    assert_eq!(processor.blockchain.nounce, 5);
}

#[test]
fn every_submission_fails() {
    let mut processor = AirdropProcessor::new(TokenAmount::new(1000), 10);
    let transactions = processor.process_batch_with_draws(three(), &[0, 1, 9]).unwrap();
    assert_eq!(processor.get_balance(), TokenAmount::new(1000));
    assert_eq!(processor.get_transaction().len(), 0);
    assert_eq!(transactions.len(), 3);
    assert!(transactions.iter().all(|t| t.status.is_failed()));
    assert_eq!(processor.blockchain.nounce, 3);
}

#[test]
fn twenty_five_recipients_make_three_batches() {
    let mut processor = AirdropProcessor::new(TokenAmount::new(1000), 10);
    let mut draws = vec![u64::MAX; 25];
    draws[12] = 0;
    let transactions = processor.process_batches_with_draws(numbered(25), &draws).unwrap();
    assert_eq!(transactions.len(), 25);
    for (i, transaction) in transactions.iter().enumerate() {
        assert_eq!(transaction.recipient.as_str(), format!("addr{}", i));
        assert_eq!(transaction.amount.get_amount(), i as u64 + 1);
        assert_eq!(transaction.status.is_complete(), i != 12);
    }
    // 1..=10 and 21..=25 are debited; 11..=20 is the batch with the failure.
    assert_eq!(processor.get_balance(), TokenAmount::new(1000 - 55 - 115));
    assert_eq!(processor.get_transaction().len(), 24);
    assert_eq!(processor.blockchain.nounce, 25 + 24);
}

#[test]
fn batches_of_exact_size() {
    let mut processor = AirdropProcessor::new(TokenAmount::new(1000), 5);
    let transactions = processor.process_batches_with_draws(numbered(10), &[100; 10]).unwrap();
    assert_eq!(transactions.len(), 10);
    assert_eq!(processor.get_balance(), TokenAmount::new(1000 - 55));
    assert_eq!(processor.get_transaction().len(), 10);
}

#[test]
fn later_batch_is_rejected_and_earlier_stays_settled() {
    // 1..=10 costs 55 and leaves 5, which the second batch exceeds.
    let mut processor = AirdropProcessor::new(TokenAmount::new(60), 10);
    let result = processor.process_batches_with_draws(numbered(12), &[100; 12]);
    assert_eq!(result, Err(AirdropError::InsufficientFunds { requires: 23, available: 5 }));
    assert_eq!(processor.get_balance(), TokenAmount::new(5));
    assert_eq!(processor.get_transaction().len(), 10);
    assert_eq!(processor.blockchain.nounce, 20);
}

#[test]
fn process_batches_rejects_nothing_at_all() {
    let mut processor = AirdropProcessor::new(TokenAmount::new(60), 10);
    assert_eq!(processor.process_batches(Vec::new()), Err(AirdropError::EmptyBatch));
    assert_eq!(processor.process_batches_with_draws(Vec::new(), &[]), Err(AirdropError::EmptyBatch));
    assert_eq!(processor.blockchain.nounce, 0);
}

#[test]
fn process_batch_with_the_random_sink() {
    let mut processor = AirdropProcessor::new(TokenAmount::new(1000), 10);
    let transactions = processor.process_batch(three()).unwrap();
    assert_eq!(transactions.len(), 3);
    let complete = transactions.iter().filter(|t| t.status.is_complete()).count();
    assert_eq!(processor.get_transaction().len(), complete);
    if complete == 3 {
        assert_eq!(processor.get_balance(), TokenAmount::new(400));
    } else {
        assert_eq!(processor.get_balance(), TokenAmount::new(1000));
    }
    assert_eq!(processor.blockchain.nounce, 3 + complete as u64);
}

#[test]
fn rejected_batch_changes_nothing() {
    let mut processor = AirdropProcessor::new(TokenAmount::new(500), 10);
    let result = processor.process_batch(three());
    assert_eq!(result, Err(AirdropError::InsufficientFunds { requires: 600, available: 500 }));
    assert_eq!(processor.get_balance(), TokenAmount::new(500));
    assert_eq!(processor.get_transaction().len(), 0);
    assert_eq!(processor.blockchain.nounce, 0);
}

#[test]
fn validation_rejects_empty_batch() {
    let processor = AirdropProcessor::new(TokenAmount::new(500), 10);
    assert_eq!(processor.validate_batch(&[]), Err(AirdropError::EmptyBatch));
}

#[test]
fn validation_rejects_oversized_batch() {
    let processor = AirdropProcessor::new(TokenAmount::new(500), 2);
    assert_eq!(processor.validate_batch(&three()), Err(AirdropError::BatchSizeLimitExceeded));
    let none = AirdropProcessor::new(TokenAmount::new(500), 0);
    assert_eq!(none.validate_batch(&three()), Err(AirdropError::BatchSizeLimitExceeded));
}

#[test]
fn validation_rejects_duplicate_address() {
    let processor = AirdropProcessor::new(TokenAmount::new(500), 10);
    let batch = vec![recipient("a", 1), recipient("b", 2), recipient("a", 3)];
    assert_eq!(processor.validate_batch(&batch), Err(AirdropError::DuplicateAddress));
    let differ_in_case = vec![recipient("a", 1), recipient("A", 2)];
    assert_eq!(processor.validate_batch(&differ_in_case), Ok(3));
}

#[test]
fn validation_rejects_zero_amount() {
    let processor = AirdropProcessor::new(TokenAmount::new(500), 10);
    let batch = vec![recipient("a", 1), recipient("b", 0)];
    assert_eq!(processor.validate_batch(&batch), Err(AirdropError::ZeroAmount));
}

#[test]
fn validation_reports_the_first_fault() {
    let processor = AirdropProcessor::new(TokenAmount::new(500), 10);
    let zero_first = vec![recipient("a", 0), recipient("b", 1), recipient("b", 1)];
    assert_eq!(processor.validate_batch(&zero_first), Err(AirdropError::ZeroAmount));
    let duplicate_first = vec![recipient("a", 1), recipient("a", 1), recipient("b", 0)];
    assert_eq!(processor.validate_batch(&duplicate_first), Err(AirdropError::DuplicateAddress));
    let both_at_once = vec![recipient("a", 1), recipient("a", 0)];
    assert_eq!(processor.validate_batch(&both_at_once), Err(AirdropError::DuplicateAddress));
}

#[test]
fn validation_rejects_insufficient_funds() {
    let processor = AirdropProcessor::new(TokenAmount::new(599), 10);
    assert_eq!(
        processor.validate_batch(&three()),
        Err(AirdropError::InsufficientFunds { requires: 600, available: 599 })
    );
    let enough = AirdropProcessor::new(TokenAmount::new(600), 10);
    assert_eq!(enough.validate_batch(&three()), Ok(600));
}

#[test]
fn validation_is_repeatable() {
    let processor = AirdropProcessor::new(TokenAmount::new(1000), 10);
    let batch = three();
    let first = processor.validate_batch(&batch);
    let second = processor.validate_batch(&batch);
    assert_eq!(first, Ok(600));
    assert_eq!(first, second);
    assert_eq!(processor.get_balance(), TokenAmount::new(1000));
    assert_eq!(processor.get_transaction().len(), 0);
    assert_eq!(processor.blockchain.nounce, 0);
}

#[test]
fn new_processor_is_empty() {
    let processor = AirdropProcessor::new(TokenAmount::new(42), 7);
    assert_eq!(processor.get_balance().get_amount(), 42);
    assert_eq!(processor.get_max_batch_size(), 7);
    assert!(processor.get_transaction().is_empty());
    assert_eq!(processor.blockchain.nounce, 0);
}

#[test]
fn sink_counts_up() {
    let mut sink = VirtualBlockchain::new();
    assert_eq!(sink.get_nounce(), 1);
    assert_eq!(sink.get_nounce(), 2);
    let address = Address::new("a").unwrap();
    let amount = TokenAmount::new(1);
    assert_eq!(sink.send_with_draw(&address, &amount, 9), Err(AirdropError::NetworkTimeout));
    assert_eq!(sink.nounce, 2);
    assert_eq!(sink.send_with_draw(&address, &amount, 10), Ok("tx_0000000000000003".to_string()));
    assert_eq!(sink.nounce, 3);
    match sink.send_transaction(&address, &amount) {
        Ok(id) => {
            assert_eq!(id, "tx_0000000000000004");
            assert_eq!(sink.nounce, 4);
        }
        Err(error) => {
            assert_eq!(error, AirdropError::NetworkTimeout);
            assert_eq!(sink.nounce, 3);
        }
    }
}

#[test]
fn transaction_lifecycle() {
    let address = Address::new("a").unwrap();
    let mut done = Transactions::at(address.clone(), TokenAmount::new(5), 77);
    assert_eq!(done.status, TransactionStatus::Pending);
    assert_eq!(done.transaction_id, None);
    assert_eq!(done.transaction_time, 77);
    assert!(!done.status.is_complete());
    assert!(!done.status.is_failed());
    done.complete("tx_1".to_string());
    assert!(done.status.is_complete());
    assert_eq!(done.transaction_id.as_deref(), Some("tx_1"));
    assert_eq!(done.recipient, address);
    assert_eq!(done.amount, TokenAmount::new(5));
    assert_eq!(done.transaction_time, 77);

    let mut lost = Transactions::new(address.clone(), TokenAmount::new(6));
    assert_eq!(lost.status, TransactionStatus::Pending);
    lost.failed(AirdropError::NetworkTimeout);
    assert!(lost.status.is_failed());
    assert!(!lost.status.is_complete());
    assert_eq!(lost.status, TransactionStatus::Failed(AirdropError::NetworkTimeout));
    assert_eq!(lost.transaction_id, None);
    assert_eq!(lost.clone(), lost);
}
