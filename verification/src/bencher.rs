//! The settings of a transaction benchmark.

use vstd::prelude::*;

verus! {

/// What a run of the transaction benchmark is made from: how many accounts
/// and how many transactions it creates, and the strategy that generates
/// them.
#[derive(Clone)]
pub struct TransactionBencher<S> {
    num_accounts: usize,
    num_transactions: usize,
    strategy: S,
}

impl<S> TransactionBencher<S> {
    /// How many accounts a run creates unless told otherwise.
    pub const DEFAULT_NUM_ACCOUNTS: usize = 100;

    /// How many transactions a run creates unless told otherwise.
    pub const DEFAULT_NUM_TRANSACTIONS: usize = 1000;

    /// The number of accounts that a run creates.
    pub closed spec fn accounts(&self) -> usize {
        self.num_accounts
    }

    /// The number of transactions that a run creates.
    pub closed spec fn transactions(&self) -> usize {
        self.num_transactions
    }

    /// The strategy that generates the transactions.
    pub closed spec fn spec_strategy(&self) -> S {
        self.strategy
    }

    /// A bencher for `strategy`, with the default numbers of accounts and
    /// of transactions.
    pub fn new(strategy: S) -> (bencher: Self)
        ensures
            bencher.accounts() == Self::DEFAULT_NUM_ACCOUNTS,
            bencher.transactions() == Self::DEFAULT_NUM_TRANSACTIONS,
            bencher.spec_strategy() == strategy,
    {
        Self {
            num_accounts: Self::DEFAULT_NUM_ACCOUNTS,
            num_transactions: Self::DEFAULT_NUM_TRANSACTIONS,
            strategy,
        }
    }

    /// Makes a run create `num_accounts` accounts. Hands the bencher back,
    /// for the next setting.
    pub fn num_accounts(&mut self, num_accounts: usize) -> (bencher: &mut Self)
        ensures
            bencher.accounts() == num_accounts,
            bencher.transactions() == old(self).transactions(),
            bencher.spec_strategy() == old(self).spec_strategy(),
            *final(self) == *final(bencher),
    {
        self.num_accounts = num_accounts;
        self
    }

    /// Makes a run create `num_transactions` transactions. Hands the
    /// bencher back, for the next setting.
    pub fn num_transactions(&mut self, num_transactions: usize) -> (bencher: &mut Self)
        ensures
            bencher.transactions() == num_transactions,
            bencher.accounts() == old(self).accounts(),
            bencher.spec_strategy() == old(self).spec_strategy(),
            *final(self) == *final(bencher),
    {
        self.num_transactions = num_transactions;
        self
    }

    /// The number of accounts that a run creates.
    pub fn get_num_accounts(&self) -> (n: usize)
        ensures
            n == self.accounts(),
    {
        self.num_accounts
    }

    /// The number of transactions that a run creates.
    pub fn get_num_transactions(&self) -> (n: usize)
        ensures
            n == self.transactions(),
    {
        self.num_transactions
    }
}

} // verus!
