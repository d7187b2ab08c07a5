//! Creation and funding of users.
use crate::accounts::{credited, Account, AccountCache};
use crate::crypto::{public_key, public_key_of, random_number, random_secret};
use crate::keys::PublicKeyCache;
use crate::types::{AssetID, Quantity, UserID};
use vstd::prelude::*;

verus! {

/// What can go wrong in the execution plane.
#[derive(Debug, Clone, Copy, PartialEq, Eq)]
pub enum ExecutionPlaneError {
    /// The user has no account.
    UserNotFound(UserID),
    /// The user has no verifying key.
    PublicKeyNotFound(UserID),
    /// The account has no entry for the asset that an order is paid with.
    InsufficientFunds(UserID),
    /// The account has no entry for an asset that a trade moves.
    MissingBalance(UserID, AssetID),
    /// An amount grew beyond what a decimal can hold.
    Overflow,
}

/// Manages the creation and funding of users.
#[derive(Debug)]
pub struct UserManager {
    pub account_cache: AccountCache,
    pub public_key_cache: PublicKeyCache,
}

impl UserManager {
    pub fn new(account_cache: AccountCache, public_key_cache: PublicKeyCache) -> (r: UserManager)
        ensures
            r.account_cache@ == account_cache@,
            r.public_key_cache@ == public_key_cache@,
    {
        UserManager { account_cache, public_key_cache }
    }

    /// Enters a user with the key that belongs to a secret and an empty account.
    pub fn register(&mut self, user_id: UserID, secret: &[u8; 32])
        ensures
            final(self).account_cache@ == old(self).account_cache@.insert(user_id.0, Map::empty()),
            final(self).public_key_cache@.dom() == old(self).public_key_cache@.dom().insert(
                user_id.0,
            ),
            final(self).public_key_cache@[user_id.0].0@ == public_key_of(secret@),
            forall|u: u64|
                u != user_id.0 && old(self).public_key_cache@.contains_key(u)
                    ==> #[trigger] final(self).public_key_cache@[u] == old(self).public_key_cache@[u],
    {
        let key = public_key(secret);
        self.public_key_cache.put(user_id, key);
        self.account_cache.put(Account::new(user_id));
        assert(self.public_key_cache@.dom() =~= old(self).public_key_cache@.dom().insert(
            user_id.0,
        ));
    }

    /// Enters a user with a fresh key pair and an empty account. Returns the secret
    /// key. It is random: nothing is known of it but that its key was entered.
    pub fn enroll(&mut self, user_id: UserID) -> (secret: [u8; 32])
        ensures
            final(self).account_cache@ == old(self).account_cache@.insert(user_id.0, Map::empty()),
            final(self).public_key_cache@.dom() == old(self).public_key_cache@.dom().insert(
                user_id.0,
            ),
            final(self).public_key_cache@[user_id.0].0@ == public_key_of(secret@),
            forall|u: u64|
                u != user_id.0 && old(self).public_key_cache@.contains_key(u)
                    ==> #[trigger] final(self).public_key_cache@[u] == old(self).public_key_cache@[u],
    {
        let secret = random_secret();
        self.register(user_id, &secret);
        secret
    }

    /// Creates a new user with a fresh key pair and an empty account. Returns the
    /// user's number and the secret key. Both are random: nothing is known of them
    /// but that they are what was entered.
    pub fn create_user(&mut self) -> (r: (UserID, [u8; 32]))
        ensures
            final(self).account_cache@ == old(self).account_cache@.insert(r.0.0, Map::empty()),
            final(self).public_key_cache@.dom() == old(self).public_key_cache@.dom().insert(r.0.0),
            final(self).public_key_cache@[r.0.0].0@ == public_key_of(r.1@),
            forall|u: u64|
                u != r.0.0 && old(self).public_key_cache@.contains_key(u)
                    ==> #[trigger] final(self).public_key_cache@[u] == old(self).public_key_cache@[u],
    {
        let user_id = UserID(random_number());
        let secret = self.enroll(user_id);
        (user_id, secret)
    }

    /// Credits a user's account with an amount of an asset. An unknown user is an
    /// error, and nothing changes.
    pub fn deposit(&mut self, user_id: UserID, asset_id: AssetID, amount: Quantity) -> (r: Result<
        (),
        ExecutionPlaneError,
    >)
        requires
            old(self).account_cache@.contains_key(user_id.0) ==> credited(
                old(self).account_cache@[user_id.0],
                asset_id.0,
                amount,
            ) is Some,
        ensures
            r == (if old(self).account_cache@.contains_key(user_id.0) {
                Ok::<(), ExecutionPlaneError>(())
            } else {
                Err(ExecutionPlaneError::UserNotFound(user_id))
            }),
            final(self).account_cache@ == (if old(self).account_cache@.contains_key(user_id.0) {
                old(self).account_cache@.insert(
                    user_id.0,
                    credited(old(self).account_cache@[user_id.0], asset_id.0, amount)->0,
                )
            } else {
                old(self).account_cache@
            }),
            final(self).public_key_cache@ == old(self).public_key_cache@,
    {
        match self.account_cache.get(user_id) {
            Some(account) => {
                let mut account = account;
                account.credit(asset_id, amount);
                self.account_cache.put(account);
                Ok(())
            },
            None => Err(ExecutionPlaneError::UserNotFound(user_id)),
        }
    }

    /// Credits a user's account, or reports that the balance would overflow.
    pub fn try_deposit(&mut self, user_id: UserID, asset_id: AssetID, amount: Quantity) -> (r:
        Result<(), ExecutionPlaneError>)
        ensures
            final(self).public_key_cache@ == old(self).public_key_cache@,
            if !old(self).account_cache@.contains_key(user_id.0) {
                &&& r == Err::<(), ExecutionPlaneError>(ExecutionPlaneError::UserNotFound(user_id))
                &&& final(self).account_cache@ == old(self).account_cache@
            } else {
                match credited(old(self).account_cache@[user_id.0], asset_id.0, amount) {
                    Some(balances) => {
                        &&& r == Ok::<(), ExecutionPlaneError>(())
                        &&& final(self).account_cache@ == old(self).account_cache@.insert(
                            user_id.0,
                            balances,
                        )
                    },
                    None => {
                        &&& r == Err::<(), ExecutionPlaneError>(ExecutionPlaneError::Overflow)
                        &&& final(self).account_cache@ == old(self).account_cache@
                    },
                }
            },
    {
        if let Some(account) = self.account_cache.get(user_id) {
            let mut account = account;
            if !account.credit(asset_id, amount) {
                return Err(ExecutionPlaneError::Overflow);
            }
        }
        self.deposit(user_id, asset_id, amount)
    }
}

} // verus!
