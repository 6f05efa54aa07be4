//! The account table of a testing environment: named accounts with balances
//! and sequence numbers, looked up by name with a fallback to the genesis
//! accounts.

use vstd::prelude::*;
use crate::chain::AccountAddress;
use crate::error::AccumulatorError;

verus! {

/// A special role an account can have in the testing environment.
#[derive(Clone, Copy, Debug)]
pub enum Role {
    /// The account is a current validator; its address is in the on-chain
    /// validator set.
    Validator,
}

/// An account: its address.
#[derive(Clone, Copy, Debug)]
pub struct Account {
    pub addr: AccountAddress,
}

/// An account together with its initial chain state.
#[derive(Clone, Copy, Debug)]
pub struct AccountData {
    pub account: Account,
    pub balance: u64,
    pub sequence_number: u64,
}

impl AccountData {
    pub fn account(&self) -> (r: &Account)
        ensures
            r == self.account,
    {
        &self.account
    }
}

/// First-match lookup in a name-to-account-data table.
pub open spec fn lookup_data(table: Seq<(String, AccountData)>, name: Seq<char>) -> Option<
    AccountData,
>
    decreases table.len(),
{
    if table.len() == 0 {
        None
    } else if table[0].0@ == name {
        Some(table[0].1)
    } else {
        lookup_data(table.skip(1), name)
    }
}

/// First-match lookup in a name-to-account table.
pub open spec fn lookup_account(table: Seq<(String, Account)>, name: Seq<char>) -> Option<Account>
    decreases table.len(),
{
    if table.len() == 0 {
        None
    } else if table[0].0@ == name {
        Some(table[0].1)
    } else {
        lookup_account(table.skip(1), name)
    }
}

/// The table of options shared by the whole testing environment: a map from
/// account names to account data, the genesis accounts, and the size of the
/// validator set after genesis.
#[derive(Clone, Debug)]
pub struct Config {
    pub accounts: Vec<(String, AccountData)>,
    pub genesis_accounts: Vec<(String, Account)>,
    pub validator_accounts: usize,
}

impl Config {
    /// The account known under `name`: from the account table if present,
    /// falling back to the genesis accounts, and an error when neither has it.
    pub fn get_account_for_name(&self, name: &str) -> (r: Result<&Account, AccumulatorError>)
        ensures
            match lookup_data(self.accounts@, name@) {
                Some(d) => r matches Ok(a) && *a == d.account,
                None => match lookup_account(self.genesis_accounts@, name@) {
                    Some(g) => r matches Ok(a) && *a == g,
                    None => r == Err::<&Account, AccumulatorError>(AccumulatorError::NotFound),
                },
            },
    {
        let wanted: String = name.to_owned();
        let n = self.accounts.len();
        let mut i: usize = 0;
        proof {
            assert(self.accounts@.skip(0) =~= self.accounts@);
        }
        while i < n
            invariant
                n == self.accounts@.len(),
                i <= n,
                wanted@ == name@,
                lookup_data(self.accounts@, name@) == lookup_data(
                    self.accounts@.skip(i as int),
                    name@,
                ),
            decreases n - i,
        {
            proof {
                assert(self.accounts@.skip(i as int)[0] == self.accounts@[i as int]);
                assert(self.accounts@.skip(i as int).skip(1) =~= self.accounts@.skip(i as int + 1));
            }
            if self.accounts[i].0 == wanted {
                return Ok(self.accounts[i].1.account());
            }
            i = i + 1;
        }
        proof {
            assert(self.accounts@.skip(n as int) =~= Seq::<(String, AccountData)>::empty());
        }
        let gn = self.genesis_accounts.len();
        let mut j: usize = 0;
        proof {
            assert(self.genesis_accounts@.skip(0) =~= self.genesis_accounts@);
        }
        while j < gn
            invariant
                gn == self.genesis_accounts@.len(),
                j <= gn,
                wanted@ == name@,
                lookup_account(self.genesis_accounts@, name@) == lookup_account(
                    self.genesis_accounts@.skip(j as int),
                    name@,
                ),
                lookup_data(self.accounts@, name@) is None,
            decreases gn - j,
        {
            proof {
                assert(self.genesis_accounts@.skip(j as int)[0] == self.genesis_accounts@[
                    j as int
                ]);
                assert(self.genesis_accounts@.skip(j as int).skip(1)
                    =~= self.genesis_accounts@.skip(j as int + 1));
            }
            if self.genesis_accounts[j].0 == wanted {
                return Ok(&self.genesis_accounts[j].1);
            }
            j = j + 1;
        }
        proof {
            assert(self.genesis_accounts@.skip(gn as int) =~= Seq::<(String, Account)>::empty());
        }
        Err(AccumulatorError::NotFound)
    }
}

} // verus!
