use trading_venue::accounting::Accounts;
use trading_venue::errors::ApplicationError;
use trading_venue::tx::Tx;

#[test]
fn balance_of_an_unknown_signer_is_not_found() {
    let accounts = Accounts::new();
    assert_eq!(
        accounts.balance_of("ALICE"),
        Err(ApplicationError::AccountNotFound("ALICE".to_string()))
    );
}

#[test]
fn deposit_opens_the_account_and_adds_to_it() {
    let mut accounts = Accounts::new();
    assert_eq!(
        accounts.deposit("ALICE", 50),
        Ok(Tx::Deposit { account: "ALICE".to_string(), amount: 50 })
    );
    assert_eq!(accounts.balance_of("ALICE"), Ok(&50));
    assert_eq!(
        accounts.deposit("ALICE", 25),
        Ok(Tx::Deposit { account: "ALICE".to_string(), amount: 25 })
    );
    assert_eq!(accounts.balance_of("ALICE"), Ok(&75));
    assert_eq!(
        accounts.balance_of("BOB"),
        Err(ApplicationError::AccountNotFound("BOB".to_string()))
    );
}

#[test]
fn deposit_beyond_the_limit_is_refused_and_changes_nothing() {
    let mut accounts = Accounts::new();
    accounts.deposit("ALICE", u64::MAX).unwrap();
    assert_eq!(
        accounts.deposit("ALICE", 1),
        Err(ApplicationError::AccountOverFunded("ALICE".to_string(), 1))
    );
    assert_eq!(accounts.balance_of("ALICE"), Ok(&u64::MAX));
}

#[test]
fn withdraw_takes_from_the_balance() {
    let mut accounts = Accounts::new();
    accounts.deposit("ALICE", 50).unwrap();
    assert_eq!(
        accounts.withdraw("ALICE", 20),
        Ok(Tx::Withdraw { account: "ALICE".to_string(), amount: 20 })
    );
    assert_eq!(accounts.balance_of("ALICE"), Ok(&30));
    assert_eq!(
        accounts.withdraw("ALICE", 30),
        Ok(Tx::Withdraw { account: "ALICE".to_string(), amount: 30 })
    );
    assert_eq!(accounts.balance_of("ALICE"), Ok(&0));
}

#[test]
fn withdraw_is_refused_without_account_or_funds() {
    let mut accounts = Accounts::new();
    assert_eq!(
        accounts.withdraw("ALICE", 1),
        Err(ApplicationError::AccountNotFound("ALICE".to_string()))
    );
    accounts.deposit("ALICE", 50).unwrap();
    assert_eq!(
        accounts.withdraw("ALICE", 51),
        Err(ApplicationError::AccountUnderFunded("ALICE".to_string(), 51))
    );
    assert_eq!(accounts.balance_of("ALICE"), Ok(&50));
}

#[test]
fn send_moves_funds_between_two_accounts() {
    let mut accounts = Accounts::new();
    accounts.deposit("ALICE", 50).unwrap();
    accounts.deposit("BOB", 5).unwrap();
    assert_eq!(
        accounts.send("ALICE", "BOB", 20),
        Ok((
            Tx::Withdraw { account: "ALICE".to_string(), amount: 20 },
            Tx::Deposit { account: "BOB".to_string(), amount: 20 }
        ))
    );
    assert_eq!(accounts.balance_of("ALICE"), Ok(&30));
    assert_eq!(accounts.balance_of("BOB"), Ok(&25));
}

#[test]
fn send_to_oneself_leaves_the_balance() {
    let mut accounts = Accounts::new();
    accounts.deposit("ALICE", u64::MAX).unwrap();
    assert!(accounts.send("ALICE", "ALICE", u64::MAX).is_ok());
    assert_eq!(accounts.balance_of("ALICE"), Ok(&u64::MAX));
    assert_eq!(
        accounts.send("ALICE", "ALICE", 0),
        Ok((
            Tx::Withdraw { account: "ALICE".to_string(), amount: 0 },
            Tx::Deposit { account: "ALICE".to_string(), amount: 0 }
        ))
    );
}

#[test]
fn send_is_refused_in_the_order_of_its_checks_and_changes_nothing() {
    let mut accounts = Accounts::new();
    assert_eq!(
        accounts.send("ALICE", "BOB", 1),
        Err(ApplicationError::AccountNotFound("ALICE".to_string()))
    );
    accounts.deposit("ALICE", 50).unwrap();
    assert_eq!(
        accounts.send("ALICE", "BOB", 1),
        Err(ApplicationError::AccountNotFound("BOB".to_string()))
    );
    accounts.deposit("BOB", u64::MAX).unwrap();
    assert_eq!(
        accounts.send("ALICE", "BOB", 51),
        Err(ApplicationError::AccountUnderFunded("ALICE".to_string(), 51))
    );
    assert_eq!(
        accounts.send("ALICE", "BOB", 1),
        Err(ApplicationError::AccountOverFunded("BOB".to_string(), 1))
    );
    assert_eq!(accounts.balance_of("ALICE"), Ok(&50));
    assert_eq!(accounts.balance_of("BOB"), Ok(&u64::MAX));
}
