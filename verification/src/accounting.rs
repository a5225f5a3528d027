//! The ledger: one balance for each signer.

use crate::errors::{ApplicationError, ApplicationErrorView};
use crate::tx::{Tx, TxView};
use vstd::prelude::*;

verus! {

/// The balances of a ledger, by signer.
pub type Ledger = Map<Seq<char>, nat>;

/// The ledger after `amount` was added to the balance of `signer`. An
/// account that is not there yet is opened.
pub open spec fn after_deposit(ledger: Ledger, signer: Seq<char>, amount: nat) -> Ledger {
    if ledger.contains_key(signer) {
        ledger.insert(signer, ledger[signer] + amount)
    } else {
        ledger.insert(signer, amount)
    }
}

/// Why `amount` cannot be added to the balance of `signer`, if it cannot:
/// the balance would pass `u64::MAX`.
pub open spec fn deposit_error(ledger: Ledger, signer: Seq<char>, amount: nat) -> Option<
    ApplicationErrorView,
> {
    if after_deposit(ledger, signer, amount)[signer] > u64::MAX {
        Some(ApplicationErrorView::AccountOverFunded(signer, amount))
    } else {
        None
    }
}

/// Why `amount` cannot be taken from the balance of `signer`, if it cannot:
/// there is no such account, or it holds less.
pub open spec fn withdraw_error(ledger: Ledger, signer: Seq<char>, amount: nat) -> Option<
    ApplicationErrorView,
> {
    if !ledger.contains_key(signer) {
        Some(ApplicationErrorView::AccountNotFound(signer))
    } else if ledger[signer] < amount {
        Some(ApplicationErrorView::AccountUnderFunded(signer, amount))
    } else {
        None
    }
}

/// The ledger after `amount` was taken from the balance of `signer`.
pub open spec fn after_withdraw(ledger: Ledger, signer: Seq<char>, amount: nat) -> Ledger {
    ledger.insert(signer, (ledger[signer] - amount) as nat)
}

/// Why `amount` cannot go from `sender` to `recipient`, if it cannot. The
/// first of these decides: the sender has no account, the recipient has no
/// account, the sender holds less than `amount`, the recipient's balance
/// would pass `u64::MAX`.
pub open spec fn send_error(
    ledger: Ledger,
    sender: Seq<char>,
    recipient: Seq<char>,
    amount: nat,
) -> Option<ApplicationErrorView> {
    if !ledger.contains_key(sender) {
        Some(ApplicationErrorView::AccountNotFound(sender))
    } else if !ledger.contains_key(recipient) {
        Some(ApplicationErrorView::AccountNotFound(recipient))
    } else if ledger[sender] < amount {
        Some(ApplicationErrorView::AccountUnderFunded(sender, amount))
    } else {
        deposit_error(after_withdraw(ledger, sender, amount), recipient, amount)
    }
}

/// The ledger after `amount` went from `sender` to `recipient`.
pub open spec fn after_send(
    ledger: Ledger,
    sender: Seq<char>,
    recipient: Seq<char>,
    amount: nat,
) -> Ledger {
    after_deposit(after_withdraw(ledger, sender, amount), recipient, amount)
}

/// One account.
#[derive(Debug)]
struct Account {
    signer: String,
    balance: u64,
}

/// The balances that a run of accounts stands for. Where a signer occurs
/// twice, the later account counts.
spec fn balances(accounts: Seq<Account>) -> Ledger
    decreases accounts.len(),
{
    if accounts.len() == 0 {
        Map::empty()
    } else {
        balances(accounts.drop_last()).insert(
            accounts.last().signer@,
            accounts.last().balance as nat,
        )
    }
}

/// A ledger of account balances.
#[derive(Debug)]
pub struct Accounts {
    accounts: Vec<Account>,
}

impl View for Accounts {
    type V = Ledger;

    closed spec fn view(&self) -> Ledger {
        balances(self.accounts@)
    }
}

/// No account from `from` on belongs to `signer`.
spec fn absent_from(accounts: Seq<Account>, signer: Seq<char>, from: int) -> bool {
    forall|i: int| from <= i < accounts.len() ==> (#[trigger] accounts[i]).signer@ != signer
}

/// The balances are those of the accounts before `at` where no later
/// account belongs to `signer`.
proof fn lemma_balances_absent(accounts: Seq<Account>, signer: Seq<char>, at: int)
    requires
        0 <= at <= accounts.len(),
        absent_from(accounts, signer, at),
    ensures
        balances(accounts).contains_key(signer) == balances(accounts.take(at)).contains_key(
            signer,
        ),
        balances(accounts).contains_key(signer) ==> balances(accounts)[signer] == balances(
            accounts.take(at),
        )[signer],
    decreases accounts.len() - at,
{
    if at == accounts.len() {
        assert(accounts.take(at) =~= accounts);
    } else {
        let front = accounts.drop_last();
        lemma_balances_absent(front, signer, at);
        assert(front.take(at) =~= accounts.take(at));
    }
}

/// The account at `at` decides the balance of its signer where no later
/// account belongs to that signer.
proof fn lemma_balances_found(accounts: Seq<Account>, at: int)
    requires
        0 <= at < accounts.len(),
        absent_from(accounts, accounts[at].signer@, at + 1),
    ensures
        balances(accounts).contains_key(accounts[at].signer@),
        balances(accounts)[accounts[at].signer@] == accounts[at].balance,
{
    lemma_balances_absent(accounts, accounts[at].signer@, at + 1);
}

/// Setting the balance of the account at `at` sets the balance of its
/// signer where no later account belongs to that signer.
proof fn lemma_balances_update(accounts: Seq<Account>, at: int, changed: Account)
    requires
        0 <= at < accounts.len(),
        changed.signer@ == accounts[at].signer@,
        absent_from(accounts, accounts[at].signer@, at + 1),
    ensures
        balances(accounts.update(at, changed)) == balances(accounts).insert(
            changed.signer@,
            changed.balance as nat,
        ),
    decreases accounts.len(),
{
    let updated = accounts.update(at, changed);
    let front = accounts.drop_last();
    if at == accounts.len() - 1 {
        assert(updated.drop_last() =~= front);
    } else {
        assert(updated.drop_last() =~= front.update(at, changed));
        lemma_balances_update(front, at, changed);
    }
}

impl Accounts {
    /// A ledger without accounts.
    pub fn new() -> (ledger: Accounts)
        ensures
            ledger@ == Map::<Seq<char>, nat>::empty(),
    {
        Accounts { accounts: Vec::new() }
    }

    /// The place of the account that decides the balance of `signer`.
    fn find(&self, signer: &String) -> (place: Option<usize>)
        ensures
            match place {
                Some(at) => {
                    &&& at < self.accounts@.len()
                    &&& self.accounts@[at as int].signer@ == signer@
                    &&& self@.contains_key(signer@)
                    &&& self@[signer@] == self.accounts@[at as int].balance
                    &&& absent_from(self.accounts@, signer@, at + 1)
                },
                None => !self@.contains_key(signer@),
            },
    {
        let mut at = self.accounts.len();
        while at > 0
            invariant
                at <= self.accounts@.len(),
                absent_from(self.accounts@, signer@, at as int),
            decreases at,
        {
            at = at - 1;
            if self.accounts[at].signer == *signer {
                proof {
                    lemma_balances_found(self.accounts@, at as int);
                }
                return Some(at);
            }
        }
        proof {
            lemma_balances_absent(self.accounts@, signer@, 0);
        }
        None
    }

    /// The balance of `signer`.
    pub fn balance_of(&self, signer: &str) -> (result: Result<&u64, ApplicationError>)
        ensures
            match result {
                Ok(balance) => self@.contains_key(signer@) && self@[signer@] == *balance,
                Err(error) => !self@.contains_key(signer@) && error@
                    == ApplicationErrorView::AccountNotFound(signer@),
            },
    {
        let owner = signer.to_owned();
        match self.find(&owner) {
            Some(at) => Ok(&self.accounts[at].balance),
            None => Err(ApplicationError::AccountNotFound(owner)),
        }
    }

    /// Adds `amount` to the balance of `signer`, whose account is opened
    /// where there is none. Nothing changes where the balance would pass
    /// `u64::MAX`.
    pub fn deposit(&mut self, signer: &str, amount: u64) -> (result: Result<Tx, ApplicationError>)
        ensures
            match deposit_error(old(self)@, signer@, amount as nat) {
                Some(error) => {
                    &&& result matches Err(e) && e@ == error
                    &&& final(self)@ == old(self)@
                },
                None => {
                    &&& result matches Ok(tx) && tx@ == (TxView::Deposit {
                        account: signer@,
                        amount: amount as nat,
                    })
                    &&& final(self)@ == after_deposit(old(self)@, signer@, amount as nat)
                },
            },
    {
        let owner = signer.to_owned();
        match self.find(&owner) {
            Some(at) => {
                match self.accounts[at].balance.checked_add(amount) {
                    Some(balance) => {
                        let ghost before = self.accounts@;
                        self.accounts[at].balance = balance;
                        proof {
                            let changed = self.accounts@[at as int];
                            lemma_balances_update(before, at as int, changed);
                        }
                    },
                    None => {
                        return Err(ApplicationError::AccountOverFunded(owner, amount));
                    },
                }
            },
            None => {
                let ghost before = self.accounts@;
                self.accounts.push(Account { signer: owner.clone(), balance: amount });
                assert(self.accounts@.drop_last() =~= before);
            },
        }
        Ok(Tx::Deposit { account: owner, amount })
    }

    /// Takes `amount` from the balance of `signer`. Nothing changes where
    /// there is no such account or it holds less.
    pub fn withdraw(&mut self, signer: &str, amount: u64) -> (result: Result<Tx, ApplicationError>)
        ensures
            match withdraw_error(old(self)@, signer@, amount as nat) {
                Some(error) => {
                    &&& result matches Err(e) && e@ == error
                    &&& final(self)@ == old(self)@
                },
                None => {
                    &&& result matches Ok(tx) && tx@ == (TxView::Withdraw {
                        account: signer@,
                        amount: amount as nat,
                    })
                    &&& final(self)@ == after_withdraw(old(self)@, signer@, amount as nat)
                },
            },
    {
        let owner = signer.to_owned();
        match self.find(&owner) {
            Some(at) => {
                if self.accounts[at].balance < amount {
                    return Err(ApplicationError::AccountUnderFunded(owner, amount));
                }
                let ghost before = self.accounts@;
                self.accounts[at].balance = self.accounts[at].balance - amount;
                proof {
                    lemma_balances_update(before, at as int, self.accounts@[at as int]);
                }
                Ok(Tx::Withdraw { account: owner, amount })
            },
            None => Err(ApplicationError::AccountNotFound(owner)),
        }
    }

    /// Moves `amount` from the balance of `sender` to that of `recipient`.
    /// Nothing changes where either has no account, the sender holds less,
    /// or the recipient's balance would pass `u64::MAX`.
    pub fn send(&mut self, sender: &str, recipient: &str, amount: u64) -> (result: Result<
        (Tx, Tx),
        ApplicationError,
    >)
        ensures
            match send_error(old(self)@, sender@, recipient@, amount as nat) {
                Some(error) => {
                    &&& result matches Err(e) && e@ == error
                    &&& final(self)@ == old(self)@
                },
                None => {
                    &&& result matches Ok(txs) && txs.0@ == (TxView::Withdraw {
                        account: sender@,
                        amount: amount as nat,
                    }) && txs.1@ == (TxView::Deposit { account: recipient@, amount: amount as nat })
                    &&& final(self)@ == after_send(old(self)@, sender@, recipient@, amount as nat)
                },
            },
    {
        let from = sender.to_owned();
        let to = recipient.to_owned();
        let source = match self.find(&from) {
            Some(at) => at,
            None => {
                return Err(ApplicationError::AccountNotFound(from));
            },
        };
        let target = match self.find(&to) {
            Some(at) => at,
            None => {
                return Err(ApplicationError::AccountNotFound(to));
            },
        };
        if self.accounts[source].balance < amount {
            return Err(ApplicationError::AccountUnderFunded(from, amount));
        }
        let reduced = self.accounts[source].balance - amount;
        let held = if source == target {
            reduced
        } else {
            self.accounts[target].balance
        };
        let raised = match held.checked_add(amount) {
            Some(raised) => raised,
            None => {
                return Err(ApplicationError::AccountOverFunded(to, amount));
            },
        };
        let ghost before = self.accounts@;
        self.accounts[source].balance = reduced;
        let ghost between = self.accounts@;
        proof {
            lemma_balances_update(before, source as int, between[source as int]);
        }
        self.accounts[target].balance = raised;
        proof {
            lemma_balances_update(between, target as int, self.accounts@[target as int]);
        }
        Ok((Tx::Withdraw { account: from, amount }, Tx::Deposit { account: to, amount }))
    }
}

} // verus!
