//! Accounts and the cache that holds them.
use crate::decimal::Decimal;
use crate::listing::{lemma_lists_insert, lemma_listing, listing, lists, Numbered};
use crate::types::{AssetID, Deposit, Quantity, Trade, UserID};
use dashmap::DashMap;
use std::collections::BTreeMap;
use std::hash::RandomState;
use vstd::prelude::*;
use vstd::std_specs::cmp::OrdSpec;
use vstd::std_specs::iter::IteratorSpec;

verus! {

broadcast use vstd::std_specs::btree::group_btree_axioms;

/// Account state tracked by the system: balances per asset number.
#[derive(Debug, PartialEq, Eq)]
pub struct Account {
    pub user_id: UserID,
    pub balances: BTreeMap<u32, Quantity>,
}

/// The model of an [`Account`].
pub struct AccountView {
    pub user_id: UserID,
    pub balances: Map<u32, Decimal>,
}

impl View for Account {
    type V = AccountView;

    open spec fn view(&self) -> AccountView {
        AccountView { user_id: self.user_id, balances: self.balances@ }
    }
}

impl Clone for Account {
    fn clone(&self) -> (r: Account)
        ensures
            r@ == self@,
    {
        Account { user_id: self.user_id, balances: self.balances.clone() }
    }
}

/// Asset number of the quote currency, in which prices are paid.
pub const QUOTE_ASSET: u32 = 1;

/// Asset number of the base currency, which is traded.
pub const BASE_ASSET: u32 = 2;

/// The balance of an asset; nothing where the account has no entry for it.
pub open spec fn balance_of(balances: Map<u32, Decimal>, asset: u32) -> Decimal {
    if balances.contains_key(asset) {
        balances[asset]
    } else {
        Decimal::nil()
    }
}

/// The balances after an amount came in; `None` where it overflows.
pub open spec fn credited(
    balances: Map<u32, Decimal>,
    asset: u32,
    amount: Decimal,
) -> Option<Map<u32, Decimal>> {
    match balance_of(balances, asset).plus(amount) {
        Some(sum) => Some(balances.insert(asset, sum)),
        None => None,
    }
}

/// The balances after an amount went out; `None` where it overflows.
pub open spec fn debited(
    balances: Map<u32, Decimal>,
    asset: u32,
    amount: Decimal,
) -> Option<Map<u32, Decimal>> {
    match balance_of(balances, asset).minus(amount) {
        Some(left) => Some(balances.insert(asset, left)),
        None => None,
    }
}

/// The taker's side of a trade: quote currency goes out, base currency comes in.
pub open spec fn taker_settled(
    balances: Map<u32, Decimal>,
    total: Decimal,
    quantity: Decimal,
) -> Option<Map<u32, Decimal>> {
    match debited(balances, QUOTE_ASSET, total) {
        Some(paid) => credited(paid, BASE_ASSET, quantity),
        None => None,
    }
}

/// The maker's side of a trade: quote currency comes in, base currency goes out.
pub open spec fn maker_settled(
    balances: Map<u32, Decimal>,
    total: Decimal,
    quantity: Decimal,
) -> Option<Map<u32, Decimal>> {
    match credited(balances, QUOTE_ASSET, total) {
        Some(paid) => debited(paid, BASE_ASSET, quantity),
        None => None,
    }
}

impl Account {
    /// An account without balances.
    pub fn new(user_id: UserID) -> (r: Account)
        ensures
            r@ == (AccountView { user_id, balances: Map::empty() }),
    {
        Account { user_id, balances: BTreeMap::new() }
    }

    /// The balance of an asset, if the account has an entry for it.
    pub fn entry(&self, asset: AssetID) -> (r: Option<Quantity>)
        ensures
            r == (if self@.balances.contains_key(asset.0) {
                Some(self@.balances[asset.0])
            } else {
                None
            }),
    {
        match self.balances.get(&asset.0) {
            Some(balance) => Some(*balance),
            None => None,
        }
    }

    /// The balance of an asset; zero where the account has no entry for it.
    pub fn balance(&self, asset: AssetID) -> (r: Quantity)
        ensures
            r == balance_of(self@.balances, asset.0),
    {
        match self.entry(asset) {
            Some(balance) => balance,
            None => Decimal::zero(),
        }
    }

    /// The balances, by ascending asset number.
    pub fn entries(&self) -> (r: Vec<(u32, Quantity)>)
        ensures
            r@ == listing(self@.balances),
            lists(r@, self@.balances),
    {
        broadcast use vstd::laws_cmp::group_laws_cmp;

        let iter = self.balances.iter();
        let ghost all = iter.remaining();
        let ghost keys = all.map_values(|kv: (&u32, &Decimal)| *kv.0);
        assert(vstd::std_specs::btree::increasing_seq(keys));
        let mut out: Vec<(u32, Quantity)> = Vec::new();
        for (asset, balance) in it: iter
            invariant
                it.seq() == all,
                out@.len() == it.index(),
                forall|j: int|
                    #![trigger out@[j]]
                    0 <= j < out@.len() ==> out@[j].0 == *all[j].0 && out@[j].1 == *all[j].1,
        {
            out.push((*asset, *balance));
        }
        proof {
            assert forall|i: int, j: int|
                #![trigger out@[i], out@[j]]
                0 <= i < j < out@.len() implies out@[i].0.number() < out@[j].0.number() by {
                assert(keys[i] == out@[i].0 && keys[j] == out@[j].0);
                assert(keys[i].cmp_spec(&keys[j]) is Less);
            }
            assert forall|k: u32| #[trigger] self@.balances.contains_key(k) implies exists|i: int|
                0 <= i < out@.len() && (#[trigger] out@[i]).0 == k by {
                assert(all.contains((&k, &self.balances@[k])));
                let i = choose|i: int| 0 <= i < all.len() && all[i] == (&k, &self.balances@[k]);
                assert(out@[i].0 == k);
            }
            lemma_listing(out@, self@.balances);
        }
        out
    }

    /// Adds an amount to the balance of an asset. Where that overflows the
    /// account is left as it is and `false` returned.
    pub fn credit(&mut self, asset: AssetID, amount: Quantity) -> (done: bool)
        ensures
            final(self)@.user_id == old(self)@.user_id,
            match credited(old(self)@.balances, asset.0, amount) {
                Some(balances) => done && final(self)@.balances == balances,
                None => !done && final(self)@ == old(self)@,
            },
    {
        match self.balance(asset).checked_add(amount) {
            Some(sum) => {
                self.balances.insert(asset.0, sum);
                true
            },
            None => false,
        }
    }

    /// Takes an amount from the balance of an asset, which may become negative.
    /// Where that overflows the account is left as it is and `false` returned.
    pub fn debit(&mut self, asset: AssetID, amount: Quantity) -> (done: bool)
        ensures
            final(self)@.user_id == old(self)@.user_id,
            match debited(old(self)@.balances, asset.0, amount) {
                Some(balances) => done && final(self)@.balances == balances,
                None => !done && final(self)@ == old(self)@,
            },
    {
        match self.balance(asset).checked_sub(amount) {
            Some(left) => {
                self.balances.insert(asset.0, left);
                true
            },
            None => false,
        }
    }
}

/// The concurrent map of the `dashmap` crate.
#[verifier::external_type_specification]
#[verifier::external_body]
#[verifier::reject_recursive_types(K)]
#[verifier::reject_recursive_types(V)]
#[verifier::reject_recursive_types(S)]
pub struct ExDashMap<K, V, S>(DashMap<K, V, S>);

/// The accounts that a map holds, by user number.
pub uninterp spec fn accounts_in(map: DashMap<u64, Account, RandomState>) -> Map<u64, AccountView>;

/// No account at all.
pub open spec fn no_accounts() -> Map<u64, AccountView> {
    Map::empty()
}

/// Calls `DashMap::new`: the map holds nothing.
#[verifier::external_body]
fn new_account_map() -> (r: DashMap<u64, Account, RandomState>)
    ensures
        accounts_in(r) == no_accounts(),
{
    DashMap::new()
}

/// Calls `DashMap::get` and hands out a copy of what the map holds for the key.
#[verifier::external_body]
fn account_map_get(map: &DashMap<u64, Account, RandomState>, key: u64) -> (r: Option<Account>)
    ensures
        r is Some <==> accounts_in(*map).contains_key(key),
        r matches Some(account) ==> account@ == accounts_in(*map)[key],
{
    map.get(&key).map(|entry| entry.value().clone())
}

/// Calls `DashMap::insert`: the map holds the value for the key, in place of what
/// it held for it before.
#[verifier::external_body]
fn account_map_insert(map: &mut DashMap<u64, Account, RandomState>, key: u64, account: Account)
    ensures
        accounts_in(*final(map)) == accounts_in(*old(map)).insert(key, account@),
{
    map.insert(key, account);
}

/// Calls `DashMap::iter` and hands out a copy of each entry: every key of the map
/// once, with what the map holds for it. The order is left open.
#[verifier::external_body]
fn account_map_entries(map: &DashMap<u64, Account, RandomState>) -> (r: Vec<(u64, Account)>)
    ensures
        forall|i: int|
            #![trigger r@[i]]
            0 <= i < r@.len() ==> accounts_in(*map).contains_key(r@[i].0) && r@[i].1@
                == accounts_in(*map)[r@[i].0],
        forall|i: int, j: int|
            #![trigger r@[i], r@[j]]
            0 <= i < j < r@.len() ==> r@[i].0 != r@[j].0,
        forall|k: u64| #[trigger]
            accounts_in(*map).contains_key(k) ==> exists|i: int|
                0 <= i < r@.len() && (#[trigger] r@[i]).0 == k,
{
    map.iter().map(|entry| (*entry.key(), entry.value().clone())).collect()
}

/// What a set of accounts amounts to: the balances of each user, by user number.
pub type Ledger = Map<u64, Map<u32, Decimal>>;

/// The balances in some accounts.
pub open spec fn ledger_of(accounts: Map<u64, AccountView>) -> Ledger {
    accounts.map_values(|a: AccountView| a.balances)
}

/// The ledger after a deposit, which opens the account where there is none;
/// `None` where it overflows.
pub open spec fn deposited(ledger: Ledger, deposit: Deposit) -> Option<Ledger> {
    let user = deposit.user_id.0;
    let before = if ledger.contains_key(user) {
        ledger[user]
    } else {
        Map::empty()
    };
    match credited(before, deposit.asset_id.0, deposit.amount) {
        Some(balances) => Some(ledger.insert(user, balances)),
        None => None,
    }
}

/// Whether both parties of a trade have an account.
pub open spec fn parties_known(ledger: Ledger, trade: Trade) -> bool {
    ledger.contains_key(trade.taker_user_id.0) && ledger.contains_key(trade.maker_user_id.0)
}

/// The ledger after a trade between two accounts that are in it: first the
/// taker's side is applied, then the maker's. `None` where it overflows.
pub open spec fn settled(ledger: Ledger, trade: Trade) -> Option<Ledger> {
    let (taker, maker) = (trade.taker_user_id.0, trade.maker_user_id.0);
    match trade.price.times(trade.quantity) {
        Some(total) => match taker_settled(ledger[taker], total, trade.quantity) {
            Some(t) => {
                let halfway = ledger.insert(taker, t);
                match maker_settled(halfway[maker], total, trade.quantity) {
                    Some(m) => Some(halfway.insert(maker, m)),
                    None => None,
                }
            },
            None => None,
        },
        None => None,
    }
}

/// The accounts of all users, each under its user's number.
#[derive(Debug)]
pub struct AccountCache {
    map: DashMap<u64, Account, RandomState>,
}

impl View for AccountCache {
    type V = Ledger;

    closed spec fn view(&self) -> Ledger {
        ledger_of(accounts_in(self.map))
    }
}

impl AccountCache {
    /// A cache without accounts.
    pub fn new() -> (r: AccountCache)
        ensures
            r@ == Ledger::empty(),
    {
        let r = AccountCache { map: new_account_map() };
        assert(r@ =~= Ledger::empty());
        r
    }

    /// The account of a user, if there is one.
    pub fn get(&self, user_id: UserID) -> (r: Option<Account>)
        ensures
            match r {
                Some(account) => self@.contains_key(user_id.0) && account@ == (AccountView {
                    user_id,
                    balances: self@[user_id.0],
                }),
                None => !self@.contains_key(user_id.0),
            },
    {
        match account_map_get(&self.map, user_id.0) {
            Some(account) => Some(Account { user_id, balances: account.balances }),
            None => None,
        }
    }

    /// Whether a user has an account.
    pub fn contains(&self, user_id: UserID) -> (r: bool)
        ensures
            r == self@.contains_key(user_id.0),
    {
        self.get(user_id).is_some()
    }

    /// Puts an account in, in place of the one that its user had.
    pub fn put(&mut self, account: Account)
        ensures
            final(self)@ == old(self)@.insert(account.user_id.0, account@.balances),
    {
        let ghost before = accounts_in(self.map);
        let key = account.user_id.0;
        let ghost view = account@;
        account_map_insert(&mut self.map, key, account);
        assert(ledger_of(before.insert(key, view)) =~= ledger_of(before).insert(key, view.balances));
    }

    /// Adds a deposit to its user's account, which is opened where there is none.
    /// Where that overflows nothing changes and `false` is returned.
    pub fn deposit(&mut self, deposit: &Deposit) -> (done: bool)
        ensures
            match deposited(old(self)@, *deposit) {
                Some(ledger) => done && final(self)@ == ledger,
                None => !done && final(self)@ == old(self)@,
            },
    {
        let mut account = match self.get(deposit.user_id) {
            Some(account) => account,
            None => Account::new(deposit.user_id),
        };
        if account.credit(deposit.asset_id, deposit.amount) {
            self.put(account);
            true
        } else {
            false
        }
    }

    /// Applies a trade to the accounts of its two parties, who may be one and the
    /// same. Where that overflows nothing changes and `false` is returned.
    pub fn settle(&mut self, trade: &Trade) -> (done: bool)
        requires
            parties_known(old(self)@, *trade),
        ensures
            match settled(old(self)@, *trade) {
                Some(ledger) => done && final(self)@ == ledger,
                None => !done && final(self)@ == old(self)@,
            },
    {
        let quantity = trade.quantity;
        let total = match trade.price.checked_mul(quantity) {
            Some(total) => total,
            None => return false,
        };
        let mut taker = match self.get(trade.taker_user_id) {
            Some(account) => account,
            None => return false,
        };
        if !taker.debit(AssetID(QUOTE_ASSET), total) || !taker.credit(AssetID(BASE_ASSET), quantity) {
            return false;
        }
        if trade.taker_user_id == trade.maker_user_id {
            if !taker.credit(AssetID(QUOTE_ASSET), total) || !taker.debit(
                AssetID(BASE_ASSET),
                quantity,
            ) {
                return false;
            }
            self.put(taker);
            assert(self@ =~= settled(old(self)@, *trade)->0);
            return true;
        }
        let mut maker = match self.get(trade.maker_user_id) {
            Some(account) => account,
            None => return false,
        };
        if !maker.credit(AssetID(QUOTE_ASSET), total) || !maker.debit(AssetID(BASE_ASSET), quantity) {
            return false;
        }
        self.put(taker);
        self.put(maker);
        true
    }

    /// All accounts, by ascending user number.
    pub fn accounts(&self) -> (r: Vec<Account>)
        ensures
            account_pairs(r@) == listing(self@),
            lists(account_pairs(r@), self@),
    {
        let entries = account_map_entries(&self.map);
        let ghost all = accounts_in(self.map);
        let ghost mut seen: Ledger = Map::empty();
        let mut sorted: Vec<Account> = Vec::new();
        let mut n: usize = 0;
        while n < entries.len()
            invariant
                n <= entries@.len(),
                self@ == ledger_of(all),
                forall|i: int|
                    #![trigger entries@[i]]
                    0 <= i < entries@.len() ==> all.contains_key(entries@[i].0) && entries@[i].1@
                        == all[entries@[i].0],
                forall|i: int, j: int|
                    #![trigger entries@[i], entries@[j]]
                    0 <= i < j < entries@.len() ==> entries@[i].0 != entries@[j].0,
                lists(account_pairs(sorted@), seen),
                forall|k: u64| #[trigger]
                    seen.contains_key(k) ==> self@.contains_key(k) && seen[k] == self@[k],
                forall|k: u64| #[trigger]
                    seen.contains_key(k) ==> exists|e: int| 0 <= e < n && (#[trigger] entries@[e]).0 == k,
                forall|e: int| 0 <= e < n ==> seen.contains_key((#[trigger] entries@[e]).0),
            decreases entries@.len() - n,
        {
            let account = Account {
                user_id: UserID(entries[n].0),
                balances: entries[n].1.balances.clone(),
            };
            let ghost (key, balances) = (entries@[n as int].0, account@.balances);
            insert_by_user(&mut sorted, account, Ghost(seen));
            proof {
                seen = seen.insert(key, balances);
                assert forall|k: u64| #[trigger] seen.contains_key(k) implies exists|e: int|
                    0 <= e < n + 1 && (#[trigger] entries@[e]).0 == k by {
                    if k == key {
                        assert(entries@[n as int].0 == k);
                    }
                }
            }
            n += 1;
        }
        proof {
            assert(seen =~= self@) by {
                assert forall|k: u64| self@.contains_key(k) implies #[trigger] seen.contains_key(k) by {
                    assert(all.contains_key(k));
                }
            }
            lemma_listing(account_pairs(sorted@), self@);
        }
        sorted
    }
}

/// Puts an account among others where its user's number belongs.
fn insert_by_user(sorted: &mut Vec<Account>, account: Account, Ghost(seen): Ghost<Ledger>)
    requires
        lists(account_pairs(old(sorted)@), seen),
        !seen.contains_key(account.user_id.0),
    ensures
        lists(
            account_pairs(final(sorted)@),
            seen.insert(account.user_id.0, account@.balances),
        ),
{
    let ghost before = account_pairs(sorted@);
    let mut at: usize = sorted.len();
    while at > 0 && account.user_id.0 < sorted[at - 1].user_id.0
        invariant
            at <= sorted@.len(),
            before == account_pairs(sorted@),
            forall|i: int| at <= i < before.len() ==> account.user_id.0 < (#[trigger] before[i]).0,
        decreases at,
    {
        at -= 1;
    }
    let ghost (key, balances) = (account.user_id.0, account@.balances);
    proof {
        assert forall|i: int| 0 <= i < at implies (#[trigger] before[i]).0 < key by {
            assert(seen.contains_key(before[i].0));
            assert(before[at - 1].0 <= key);
            if i < at - 1 {
                assert(before[i].0.number() < before[at - 1].0.number());
            }
        }
        lemma_lists_insert(before, seen, at as int, key, balances);
    }
    sorted.insert(at, account);
    assert(account_pairs(sorted@) =~= before.insert(at as int, (key, balances)));
}

/// Users and balances of some accounts.
pub open spec fn account_pairs(accounts: Seq<Account>) -> Seq<(u64, Map<u32, Decimal>)> {
    accounts.map_values(|a: Account| (a.user_id.0, a@.balances))
}

} // verus!
