//! The state of the exchange and the root hash that commits to it.
//!
//! Each account and each resting order is a leaf: the digest of its bytes. The
//! accounts come first, by ascending user number; the bids follow and then the
//! asks, each in the order in which they are served.
use crate::accounts::{account_pairs, Account, AccountCache, Ledger};
use crate::book::{lemma_queue_push, queue, BookSide, BookView, LevelView, OrderBook};
use crate::codec::{decimal_wire, u32_wire, u64_wire, write_decimal, write_u32, write_u64};
use crate::crypto::{sha256, sha256_of};
use crate::decimal::Decimal;
use crate::listing::listing;
use crate::merkle::{hash_views, nodes_of, root_of, MerkleTree};
use crate::messages::{encode_order, order_wire};
use crate::types::Order;
use vstd::prelude::*;

verus! {

/// Balances on the wire, one after the other.
pub open spec fn entries_wire(entries: Seq<(u32, Decimal)>) -> Seq<u8>
    decreases entries.len(),
{
    if entries.len() == 0 {
        Seq::empty()
    } else {
        entries_wire(entries.drop_last()) + (u32_wire(entries.last().0) + decimal_wire(
            entries.last().1,
        ))
    }
}

/// An account on the wire: the user, the number of balances, and the balances by
/// ascending asset number.
pub open spec fn account_wire(user: u64, balances: Map<u32, Decimal>) -> Seq<u8> {
    let entries = listing(balances);
    u64_wire(user) + (u64_wire(entries.len() as u64) + entries_wire(entries))
}

/// The bytes of an account.
pub fn encode_account(account: &Account) -> (r: Vec<u8>)
    ensures
        r@ == account_wire(account.user_id.0, account@.balances),
{
    let entries = account.entries();
    let mut out: Vec<u8> = Vec::new();
    write_u64(&mut out, account.user_id.0);
    write_u64(&mut out, entries.len() as u64);
    let ghost head = out@;
    let mut i: usize = 0;
    while i < entries.len()
        invariant
            i <= entries@.len(),
            out@ == head + entries_wire(entries@.take(i as int)),
        decreases entries@.len() - i,
    {
        write_u32(&mut out, entries[i].0);
        write_decimal(&mut out, &entries[i].1);
        proof {
            let more = entries@.take(i + 1);
            assert(more.drop_last() =~= entries@.take(i as int));
            assert(out@ =~= head + entries_wire(more));
        }
        i += 1;
    }
    assert(entries@.take(i as int) =~= entries@);
    assert(out@ =~= account_wire(account.user_id.0, account@.balances));
    out
}

/// The leaves of some accounts.
pub open spec fn account_leaves(accounts: Seq<(u64, Map<u32, Decimal>)>) -> Seq<Seq<u8>> {
    accounts.map_values(|a: (u64, Map<u32, Decimal>)| sha256_of(account_wire(a.0, a.1)))
}

/// The leaves of some orders.
pub open spec fn order_leaves(orders: Seq<Order>) -> Seq<Seq<u8>> {
    orders.map_values(|o: Order| sha256_of(order_wire(o)))
}

/// All leaves of a state.
pub open spec fn leaves_of(ledger: Ledger, book: BookView) -> Seq<Seq<u8>> {
    account_leaves(listing(ledger)) + order_leaves(queue(book.bids)) + order_leaves(
        queue(book.asks),
    )
}

/// The root hash of a state.
pub open spec fn state_root_of(ledger: Ledger, book: BookView) -> Seq<u8> {
    root_of(leaves_of(ledger, book))
}

/// Adds the leaves of one side of a book.
fn push_side_leaves<const DESC: bool>(
    leaves: &mut Vec<crate::types::Hash>,
    side: &BookSide<DESC>,
)
    ensures
        hash_views(final(leaves)@) == hash_views(old(leaves)@) + order_leaves(queue(side@)),
{
    let ghost before = hash_views(leaves@);
    let mut i: usize = 0;
    assert(side@.take(0) =~= Seq::<LevelView>::empty());
    assert(before =~= before + order_leaves(queue(side@.take(0))));
    while i < side.len()
        invariant
            i <= side@.len(),
            hash_views(leaves@) == before + order_leaves(queue(side@.take(i as int))),
        decreases side@.len() - i,
    {
        let level = side.level_at(i);
        let ghost orders = level.orders@;
        let ghost served = queue(side@.take(i as int));
        let mut j: usize = 0;
        assert(orders.take(0) =~= Seq::<Order>::empty());
        assert(served + orders.take(0) =~= served);
        while j < level.orders.len()
            invariant
                j <= orders.len(),
                orders == level.orders@,
                hash_views(leaves@) == before + order_leaves(served + orders.take(j as int)),
            decreases orders.len() - j,
        {
            let bytes = encode_order(&level.orders[j]);
            let hash = sha256(bytes.as_slice());
            let ghost so_far = hash_views(leaves@);
            leaves.push(hash);
            proof {
                assert(hash_views(leaves@) =~= so_far.push(hash@));
                assert(served + orders.take(j + 1) =~= (served + orders.take(j as int)).push(
                    orders[j as int],
                ));
                assert(before + order_leaves(served + orders.take(j + 1)) =~= so_far.push(hash@));
            }
            j += 1;
        }
        proof {
            assert(orders.take(j as int) =~= orders);
            assert(side@.take(i + 1) =~= side@.take(i as int).push(side@[i as int]));
            lemma_queue_push(side@.take(i as int), side@[i as int]);
        }
        i += 1;
    }
    assert(side@.take(i as int) =~= side@);
}

/// All leaves of a state.
pub fn state_leaves(accounts: &AccountCache, book: &OrderBook) -> (r: Vec<crate::types::Hash>)
    ensures
        hash_views(r@) == leaves_of(accounts@, book@),
{
    let all = accounts.accounts();
    let ghost pairs = account_pairs(all@);
    let mut leaves: Vec<crate::types::Hash> = Vec::new();
    let mut i: usize = 0;
    while i < all.len()
        invariant
            i <= all@.len(),
            pairs == account_pairs(all@),
            hash_views(leaves@) == account_leaves(pairs.take(i as int)),
        decreases all@.len() - i,
    {
        let bytes = encode_account(&all[i]);
        let hash = sha256(bytes.as_slice());
        let ghost so_far = hash_views(leaves@);
        leaves.push(hash);
        proof {
            assert(hash_views(leaves@) =~= so_far.push(hash@));
            assert(pairs.take(i + 1) =~= pairs.take(i as int).push(pairs[i as int]));
            assert(account_leaves(pairs.take(i + 1)) =~= so_far.push(hash@));
        }
        i += 1;
    }
    assert(pairs.take(i as int) =~= pairs);
    push_side_leaves(&mut leaves, &book.bids);
    push_side_leaves(&mut leaves, &book.asks);
    leaves
}

/// The root hash of a state.
pub fn state_root(accounts: &AccountCache, book: &OrderBook) -> (r: crate::types::Hash)
    ensures
        r@ == state_root_of(accounts@, book@),
{
    let leaves = state_leaves(accounts, book);
    let tree = MerkleTree::new(leaves.as_slice());
    let root = tree.root();
    assert(tree@ == nodes_of(leaves_of(accounts@, book@)));
    root
}

} // verus!
