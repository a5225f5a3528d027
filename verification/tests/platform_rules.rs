use trading_venue::errors::ApplicationError;
use trading_venue::trading_platform::TradingPlatform;
use trading_venue::tx::Tx;
use trading_venue::types::{Order, PartialOrder, Side};

fn order(price: u64, amount: u64, side: Side, signer: &str) -> Order {
    Order { price, amount, side, signer: signer.to_string() }
}

#[test]
fn platform_passes_ledger_operations_on() {
    let mut platform = TradingPlatform::new();
    assert_eq!(
        platform.balance_of("ALICE"),
        Err(ApplicationError::AccountNotFound("ALICE".to_string()))
    );
    assert_eq!(
        platform.deposit("ALICE", 100),
        Ok(Tx::Deposit { account: "ALICE".to_string(), amount: 100 })
    );
    assert_eq!(
        platform.withdraw("ALICE", 40),
        Ok(Tx::Withdraw { account: "ALICE".to_string(), amount: 40 })
    );
    platform.deposit("BOB", 1).unwrap();
    assert_eq!(
        platform.send("ALICE", "BOB", 10),
        Ok((
            Tx::Withdraw { account: "ALICE".to_string(), amount: 10 },
            Tx::Deposit { account: "BOB".to_string(), amount: 10 }
        ))
    );
    assert_eq!(platform.balance_of("ALICE"), Ok(&50));
    assert_eq!(platform.balance_of("BOB"), Ok(&11));
    assert_eq!(
        platform.withdraw("BOB", 12),
        Err(ApplicationError::AccountUnderFunded("BOB".to_string(), 12))
    );
}

#[test]
fn refused_order_takes_no_sequence_number() {
    let mut platform = TradingPlatform::new();
    platform.deposit("ALICE", 50).unwrap();
    assert_eq!(
        platform.order(order(2, u64::MAX, Side::Buy, "ALICE")),
        Err(ApplicationError::FundsOverflow("ALICE".to_string()))
    );
    assert_eq!(
        platform.order(order(30, 2, Side::Buy, "ALICE")),
        Err(ApplicationError::AccountUnderFunded("ALICE".to_string(), 60))
    );
    assert_eq!(platform.matching_engine().ordinal(), 0);
    let receipt = platform.order(order(25, 2, Side::Buy, "ALICE")).unwrap();
    assert_eq!(receipt.ordinal, 1);
    assert_eq!(platform.balance_of("ALICE"), Ok(&50));
}

#[test]
fn resting_bid_is_paid_by_its_signer() {
    let mut platform = TradingPlatform::new();
    platform.deposit("ALICE", 100).unwrap();
    platform.deposit("BOB", 100).unwrap();
    platform.order(order(10, 3, Side::Buy, "BOB")).unwrap();

    let receipt = platform.order(order(10, 3, Side::Sell, "ALICE")).unwrap();

    assert_eq!(
        receipt.matches,
        vec![PartialOrder {
            price: 10,
            amount: 3,
            remaining: 0,
            side: Side::Buy,
            signer: "BOB".to_string(),
            ordinal: 1
        }]
    );
    assert_eq!(platform.balance_of("ALICE"), Ok(&130));
    assert_eq!(platform.balance_of("BOB"), Ok(&70));
    assert!(platform.orderbook().is_empty());
}

#[test]
fn settlement_that_the_ledger_refuses_is_left_out() {
    let mut platform = TradingPlatform::new();
    platform.deposit("ALICE", 0).unwrap();
    platform.deposit("BOB", 15).unwrap();
    platform.order(order(10, 1, Side::Sell, "ALICE")).unwrap();
    platform.order(order(5, 3, Side::Buy, "BOB")).unwrap();
    platform.withdraw("BOB", 10).unwrap();

    let receipt = platform.order(order(5, 3, Side::Sell, "ALICE")).unwrap();

    assert_eq!(receipt.matches.len(), 1);
    assert_eq!(platform.balance_of("ALICE"), Ok(&0));
    assert_eq!(platform.balance_of("BOB"), Ok(&5));
}

#[test]
fn settlement_beyond_the_limit_is_left_out() {
    let mut platform = TradingPlatform::new();
    platform.deposit("ALICE", 0).unwrap();
    platform.deposit("BOB", 100).unwrap();
    platform.order(order(2, u64::MAX, Side::Sell, "ALICE")).unwrap();

    let receipt = platform.order(order(2, 1, Side::Buy, "BOB")).unwrap();

    assert_eq!(
        receipt.matches,
        vec![PartialOrder {
            price: 2,
            amount: u64::MAX,
            remaining: u64::MAX - 1,
            side: Side::Sell,
            signer: "ALICE".to_string(),
            ordinal: 1
        }]
    );
    assert_eq!(platform.balance_of("ALICE"), Ok(&0));
    assert_eq!(platform.balance_of("BOB"), Ok(&100));
}

#[test]
fn settlement_is_for_the_price_times_the_amount_of_the_resting_order() {
    let mut platform = TradingPlatform::new();
    platform.deposit("ALICE", 0).unwrap();
    platform.deposit("BOB", 100).unwrap();
    platform.order(order(10, 5, Side::Sell, "ALICE")).unwrap();

    platform.order(order(10, 2, Side::Buy, "BOB")).unwrap();

    assert_eq!(platform.balance_of("ALICE"), Ok(&50));
    assert_eq!(platform.balance_of("BOB"), Ok(&50));
}

#[test]
fn orderbook_lists_the_bids_before_the_asks() {
    let mut platform = TradingPlatform::new();
    platform.deposit("ALICE", 100).unwrap();
    platform.deposit("BOB", 100).unwrap();
    platform.order(order(12, 1, Side::Sell, "ALICE")).unwrap();
    platform.order(order(9, 1, Side::Buy, "BOB")).unwrap();
    platform.order(order(8, 1, Side::Buy, "BOB")).unwrap();

    let book = platform.orderbook();

    assert_eq!(book.len(), 3);
    assert_eq!((book[0].price, book[0].side), (8, Side::Buy));
    assert_eq!((book[1].price, book[1].side), (9, Side::Buy));
    assert_eq!((book[2].price, book[2].side), (12, Side::Sell));
}
