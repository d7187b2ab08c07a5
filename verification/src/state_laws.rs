//! What the root hash of a state commits to: every account, every balance and every
//! resting order.
use crate::accounts::Ledger;
use crate::book::{good_book, queue, BookView};
use crate::bytes::{le_value, lemma_le_round_trip, lemma_pow256_sizes, lemma_regroup};
use crate::codec::{
    begins_with_decimal, decimal_wire, lemma_one_decimal, u32_wire, u64_wire,
};
use crate::crypto::{hex_read, law_hex_back, law_hex_lower, sha256_of};
use crate::decimal::Decimal;
use crate::listing::{lemma_listing, lemma_lists_insert, listing, lists, Numbered};
use crate::merkle::{next_level, nodes_of, root_of};
use crate::messages::{lemma_order_back, order_as_read, order_wire};
use crate::replay::State;
use crate::settlement::checkpoint_of;
use crate::state::{
    account_leaves, account_wire, entries_wire, leaves_of, order_leaves, state_root_of,
};
use crate::types::Order;
use vstd::prelude::*;

verus! {

/// Whether some keys are those of a map, each once, in ascending order.
pub open spec fn ranks<V>(keys: Seq<u64>, m: Map<u64, V>) -> bool {
    &&& keys.len() == m.dom().len()
    &&& forall|i: int, j: int|
        #![trigger keys[i], keys[j]]
        0 <= i < j < keys.len() ==> keys[i] < keys[j]
    &&& forall|i: int| 0 <= i < keys.len() ==> m.contains_key(#[trigger] keys[i])
    &&& forall|k: u64| #[trigger]
        m.contains_key(k) ==> exists|i: int| 0 <= i < keys.len() && #[trigger] keys[i] == k
}

/// The place where a key belongs among ascending ones.
proof fn lemma_place<K: Numbered, V>(s: Seq<(K, V)>, m: Map<K, V>, key: K) -> (at: int)
    requires
        lists(s, m),
        !m.contains_key(key),
    ensures
        0 <= at <= s.len(),
        forall|i: int| 0 <= i < at ==> (#[trigger] s[i]).0.number() < key.number(),
        forall|i: int| at <= i < s.len() ==> key.number() < (#[trigger] s[i]).0.number(),
{
    lemma_place_from(s, m, key, 0)
}

proof fn lemma_place_from<K: Numbered, V>(s: Seq<(K, V)>, m: Map<K, V>, key: K, from: int) -> (at:
    int)
    requires
        lists(s, m),
        !m.contains_key(key),
        0 <= from <= s.len(),
        forall|i: int| 0 <= i < from ==> (#[trigger] s[i]).0.number() < key.number(),
    ensures
        0 <= at <= s.len(),
        forall|i: int| 0 <= i < at ==> (#[trigger] s[i]).0.number() < key.number(),
        forall|i: int| at <= i < s.len() ==> key.number() < (#[trigger] s[i]).0.number(),
    decreases s.len() - from,
{
    if from == s.len() {
        from
    } else if s[from].0.number() < key.number() {
        lemma_place_from(s, m, key, from + 1)
    } else {
        if s[from].0.number() == key.number() {
            K::lemma_one_each(s[from].0, key);
        }
        from
    }
}

/// A finite map has a listing, with as many entries as it has keys.
pub proof fn lemma_listing_exists<K: Numbered, V>(m: Map<K, V>)
    requires
        m.dom().finite(),
    ensures
        lists(listing(m), m),
        listing(m).len() == m.dom().len(),
    decreases m.dom().len(),
{
    if m.dom().len() == 0 {
        let none = Seq::<(K, V)>::empty();
        assert(m.dom() =~= Set::empty());
        assert forall|k: K| #[trigger] m.contains_key(k) implies exists|i: int|
            0 <= i < none.len() && (#[trigger] none[i]).0 == k by {
            assert(m.dom().contains(k));
        }
        assert(lists(none, m));
        lemma_listing(none, m);
    } else {
        let key = m.dom().choose();
        assert(m.dom().contains(key));
        let rest = m.remove(key);
        lemma_listing_exists(rest);
        let s = listing(rest);
        let at = lemma_place(s, rest, key);
        lemma_lists_insert(s, rest, at, key, m[key]);
        assert(rest.insert(key, m[key]) =~= m);
        lemma_listing(s.insert(at, (key, m[key])), m);
    }
}

/// Every account and every resting order has its leaf, the digest of its bytes: first
/// the accounts by ascending user number, then the bids and then the asks, each in the
/// order in which they are served. There are no other leaves.
pub proof fn law_leaves(ledger: Ledger, book: BookView)
    requires
        ledger.dom().finite(),
    ensures
        ({
            let leaves = leaves_of(ledger, book);
            let (bids, asks) = (queue(book.bids), queue(book.asks));
            let n = ledger.dom().len() as int;
            &&& state_root_of(ledger, book) == root_of(leaves)
            &&& leaves.len() == n + bids.len() + asks.len()
            &&& exists|users: Seq<u64>| #[trigger]
                ranks(users, ledger) && forall|i: int|
                    0 <= i < n ==> #[trigger] leaves[i] == sha256_of(
                        account_wire(users[i], ledger[users[i]]),
                    )
            &&& forall|i: int|
                0 <= i < bids.len() ==> leaves[n + i] == sha256_of(order_wire(#[trigger] bids[i]))
            &&& forall|i: int|
                0 <= i < asks.len() ==> leaves[n + bids.len() + i] == sha256_of(
                    order_wire(#[trigger] asks[i]),
                )
        }),
{
    lemma_listing_exists(ledger);
    let all = listing(ledger);
    let users = Seq::new(all.len(), |i: int| all[i].0);
    let leaves = leaves_of(ledger, book);
    let (bids, asks) = (queue(book.bids), queue(book.asks));
    let n = all.len() as int;
    assert forall|i: int, j: int|
        #![trigger users[i], users[j]]
        0 <= i < j < users.len() implies users[i] < users[j] by {
        assert(all[i].0.number() < all[j].0.number());
    }
    assert forall|i: int| 0 <= i < users.len() implies ledger.contains_key(#[trigger] users[i]) by {
        assert(ledger.contains_key(all[i].0));
    }
    assert forall|k: u64| #[trigger] ledger.contains_key(k) implies exists|i: int|
        0 <= i < users.len() && #[trigger] users[i] == k by {
        let i = choose|i: int| 0 <= i < all.len() && (#[trigger] all[i]).0 == k;
        assert(users[i] == k);
    }
    assert(ranks(users, ledger));
    assert forall|i: int| 0 <= i < n implies #[trigger] leaves[i] == sha256_of(
        account_wire(users[i], ledger[users[i]]),
    ) by {
        assert(leaves[i] == account_leaves(all)[i]);
        assert(all[i].1 == ledger[all[i].0]);
    }
    assert forall|i: int| 0 <= i < bids.len() implies leaves[n + i] == sha256_of(
        order_wire(#[trigger] bids[i]),
    ) by {
        assert(leaves[n + i] == order_leaves(bids)[i]);
    }
    assert forall|i: int| 0 <= i < asks.len() implies leaves[n + bids.len() + i] == sha256_of(
        order_wire(#[trigger] asks[i]),
    ) by {
        assert(leaves[n + bids.len() + i] == order_leaves(asks)[i]);
    }
}

/// The balances of an account are listed each once, by ascending asset number.
pub proof fn law_entries_ascend(balances: Map<u32, Decimal>)
    requires
        balances.dom().finite(),
    ensures
        ({
            let s = listing(balances);
            &&& s.len() == balances.dom().len()
            &&& forall|i: int, j: int|
                #![trigger s[i], s[j]]
                0 <= i < j < s.len() ==> s[i].0 < s[j].0
            &&& forall|i: int|
                0 <= i < s.len() ==> balances.contains_key((#[trigger] s[i]).0)
                    && balances[s[i].0] == s[i].1
        }),
{
    lemma_listing_exists(balances);
    let s = listing(balances);
    assert forall|i: int, j: int| #![trigger s[i], s[j]] 0 <= i < j < s.len() implies s[i].0
        < s[j].0 by {
        assert(s[i].0.number() < s[j].0.number());
    }
}

/// The bytes of an account: the user's number in 64 bits, the number of balances in 64
/// bits, both lowest byte first, and as many balances.
pub proof fn law_account_layout(user: u64, balances: Map<u32, Decimal>)
    requires
        sound_balances(balances),
    ensures
        ({
            let w = account_wire(user, balances);
            &&& w.len() >= 16
            &&& le_value(w.take(8)) == user
            &&& le_value(w.subrange(8, 16)) == balances.dom().len()
            &&& balances.dom().len() == 0 ==> w.len() == 16
            &&& balances.dom().len() > 0 ==> le_value(w.subrange(16, 20)) == listing(balances)[0].0
        }),
{
    lemma_listing_exists(balances);
    let s = listing(balances);
    let n = s.len() as u64;
    if s.len() > 0 {
        lemma_keys_ascend(s, balances, s.len() - 1);
        lemma_entries_front(s);
        lemma_u32_wire_differs(s[0].0, s[0].0);
    }
    let w = account_wire(user, balances);
    lemma_pow256_sizes();
    lemma_le_round_trip(user as nat, 8);
    lemma_le_round_trip(n as nat, 8);
    assert(w.take(8) =~= u64_wire(user));
    assert(w.subrange(8, 16) =~= u64_wire(n));
    if s.len() > 0 {
        lemma_le_round_trip(s[0].0 as nat, 4);
        assert(w.skip(16) =~= entries_wire(s));
        assert(w.subrange(16, 20) =~= u32_wire(s[0].0));
    }
}

/// Whether SHA-256 fails: two different inputs have one digest, or a digest does not
/// have 32 bytes.
pub open spec fn sha256_fails() -> bool {
    ||| exists|x: Seq<u8>, y: Seq<u8>|
        x != y && #[trigger] sha256_of(x) == #[trigger] sha256_of(y)
    ||| exists|x: Seq<u8>| (#[trigger] sha256_of(x)).len() != 32
}

/// Whether all hashes have 32 bytes.
pub open spec fn full_hashes(hashes: Seq<Seq<u8>>) -> bool {
    forall|i: int| 0 <= i < hashes.len() ==> (#[trigger] hashes[i]).len() == 32
}

/// A root commits to all its leaves: as many other leaves have the same root only if
/// they are the same, unless SHA-256 fails.
pub proof fn law_root_binds(a: Seq<Seq<u8>>, b: Seq<Seq<u8>>)
    requires
        a.len() == b.len(),
        full_hashes(a),
        full_hashes(b),
        root_of(a) == root_of(b),
    ensures
        a == b || sha256_fails(),
    decreases a.len(),
{
    if a.len() == 0 {
        assert(a =~= b);
    } else if a.len() == 1 {
        assert(a =~= b);
    } else if !sha256_fails() {
        let (above, over) = (next_level(a), next_level(b));
        assert(full_hashes(above) && full_hashes(over));
        law_root_binds(above, over);
        assert forall|i: int| 0 <= i < a.len() implies a[i] == b[i] by {
            let h = i / 2;
            assert(above[h] == over[h]);
            let (l, r) = (a[2 * h], if 2 * h + 1 < a.len() {
                a[2 * h + 1]
            } else {
                a[2 * h]
            });
            let (x, y) = (b[2 * h], if 2 * h + 1 < b.len() {
                b[2 * h + 1]
            } else {
                b[2 * h]
            });
            assert(sha256_of(l + r) == sha256_of(x + y));
            assert(l + r == x + y);
            assert(l =~= (l + r).take(32) && x =~= (x + y).take(32));
            assert(r =~= (l + r).skip(32) && y =~= (x + y).skip(32));
        }
        assert(a =~= b);
    }
}

/// The nodes of a tree begin with its leaves and end with its root.
pub proof fn law_nodes(leaves: Seq<Seq<u8>>)
    requires
        leaves.len() > 0,
    ensures
        nodes_of(leaves).len() >= leaves.len(),
        nodes_of(leaves).take(leaves.len() as int) == leaves,
        nodes_of(leaves).last() == root_of(leaves),
{
    crate::merkle::lemma_root_is_last(leaves);
    assert(nodes_of(leaves).take(leaves.len() as int) =~= leaves);
}

/// Ascending keys of 32 bits are not below their places.
proof fn lemma_keys_ascend(s: Seq<(u32, Decimal)>, m: Map<u32, Decimal>, i: int)
    requires
        lists(s, m),
        0 <= i < s.len(),
    ensures
        i <= s[i].0,
    decreases i,
{
    if i > 0 {
        lemma_keys_ascend(s, m, i - 1);
        assert(s[i - 1].0.number() < s[i].0.number());
    }
}

/// The first entry comes first.
proof fn lemma_entries_front(s: Seq<(u32, Decimal)>)
    requires
        s.len() > 0,
    ensures
        entries_wire(s) == (u32_wire(s[0].0) + decimal_wire(s[0].1)) + entries_wire(s.drop_first()),
    decreases s.len(),
{
    let head = u32_wire(s[0].0) + decimal_wire(s[0].1);
    let rest = s.drop_first();
    if s.len() == 1 {
        assert(s.drop_last() =~= Seq::empty());
        assert(rest =~= Seq::empty());
        assert(Seq::<u8>::empty() + head =~= head + Seq::<u8>::empty());
    } else {
        let last = u32_wire(s.last().0) + decimal_wire(s.last().1);
        lemma_entries_front(s.drop_last());
        assert(s.drop_last().drop_first() =~= rest.drop_last());
        assert(rest.last() == s.last());
        lemma_regroup(head, entries_wire(rest.drop_last()), last);
    }
}

proof fn lemma_u32_wire_differs(a: u32, b: u32)
    ensures
        u32_wire(a).len() == 4,
        u32_wire(a) == u32_wire(b) ==> a == b,
{
    lemma_pow256_sizes();
    lemma_le_round_trip(a as nat, 4);
    lemma_le_round_trip(b as nat, 4);
}

proof fn lemma_u64_wire_differs(a: u64, b: u64)
    ensures
        u64_wire(a).len() == 8,
        u64_wire(a) == u64_wire(b) ==> a == b,
{
    lemma_pow256_sizes();
    lemma_le_round_trip(a as nat, 8);
    lemma_le_round_trip(b as nat, 8);
}

/// Entries come back out of their bytes.
proof fn lemma_entries_differ(s: Seq<(u32, Decimal)>, t: Seq<(u32, Decimal)>)
    requires
        s.len() == t.len(),
        forall|i: int| 0 <= i < s.len() ==> (#[trigger] s[i]).1.valid(),
        forall|i: int| 0 <= i < t.len() ==> (#[trigger] t[i]).1.valid(),
        entries_wire(s) == entries_wire(t),
    ensures
        s == t,
    decreases s.len(),
{
    if s.len() == 0 {
        assert(s =~= t);
    } else {
        let (a, b) = (s[0], t[0]);
        let (more, others) = (entries_wire(s.drop_first()), entries_wire(t.drop_first()));
        lemma_entries_front(s);
        lemma_entries_front(t);
        let wire = entries_wire(s);
        lemma_u32_wire_differs(a.0, b.0);
        lemma_u32_wire_differs(b.0, a.0);
        lemma_regroup(u32_wire(a.0), decimal_wire(a.1), more);
        lemma_regroup(u32_wire(b.0), decimal_wire(b.1), others);
        assert(wire.take(4) =~= u32_wire(a.0));
        assert(wire.take(4) =~= u32_wire(b.0));
        let x = decimal_wire(a.1) + more;
        let y = decimal_wire(b.1) + others;
        assert(wire.skip(4) =~= x);
        assert(wire.skip(4) =~= y);
        assert(x.take(decimal_wire(a.1).len() as int) =~= decimal_wire(a.1));
        assert(y.take(decimal_wire(b.1).len() as int) =~= decimal_wire(b.1));
        assert(begins_with_decimal(x, a.1.signed_parts()));
        assert(begins_with_decimal(x, b.1.signed_parts()));
        lemma_one_decimal(x, a.1.signed_parts(), b.1.signed_parts());
        Decimal::lemma_parts_determine(a.1, b.1);
        assert(x.skip(decimal_wire(a.1).len() as int) =~= more);
        assert(y.skip(decimal_wire(b.1).len() as int) =~= others);
        assert forall|i: int| 0 <= i < s.len() - 1 implies (
        #[trigger] s.drop_first()[i]).1.valid() by {
            assert(s.drop_first()[i] == s[i + 1]);
        }
        assert forall|i: int| 0 <= i < t.len() - 1 implies (
        #[trigger] t.drop_first()[i]).1.valid() by {
            assert(t.drop_first()[i] == t[i + 1]);
        }
        lemma_entries_differ(s.drop_first(), t.drop_first());
        assert(s =~= seq![a] + s.drop_first());
        assert(t =~= seq![b] + t.drop_first());
    }
}

/// Balances that can exist.
pub open spec fn sound_balances(balances: Map<u32, Decimal>) -> bool {
    balances.dom().finite() && forall|a: u32| #[trigger]
        balances.contains_key(a) ==> balances[a].valid()
}

/// Two accounts have the same bytes only if they are of one user and have the same
/// balances, entry by entry and digit by digit.
pub proof fn law_account_bytes_differ(
    user: u64,
    balances: Map<u32, Decimal>,
    other: u64,
    others: Map<u32, Decimal>,
)
    requires
        sound_balances(balances),
        sound_balances(others),
        account_wire(user, balances) == account_wire(other, others),
    ensures
        user == other,
        balances == others,
{
    lemma_listing_exists(balances);
    lemma_listing_exists(others);
    let (s, t) = (listing(balances), listing(others));
    let (n, m) = (s.len() as u64, t.len() as u64);
    if s.len() > 0 {
        lemma_keys_ascend(s, balances, s.len() - 1);
    }
    if t.len() > 0 {
        lemma_keys_ascend(t, others, t.len() - 1);
    }
    let (a, b) = (account_wire(user, balances), account_wire(other, others));
    lemma_u64_wire_differs(user, other);
    lemma_u64_wire_differs(other, user);
    lemma_u64_wire_differs(n, m);
    lemma_u64_wire_differs(m, n);
    assert(a.take(8) =~= u64_wire(user));
    assert(b.take(8) =~= u64_wire(other));
    assert(a.skip(8).take(8) =~= u64_wire(n));
    assert(b.skip(8).take(8) =~= u64_wire(m));
    assert(a.skip(16) =~= entries_wire(s));
    assert(b.skip(16) =~= entries_wire(t));
    assert forall|i: int| 0 <= i < s.len() implies (#[trigger] s[i]).1.valid() by {
        assert(balances.contains_key(s[i].0));
    }
    assert forall|i: int| 0 <= i < t.len() implies (#[trigger] t[i]).1.valid() by {
        assert(others.contains_key(t[i].0));
    }
    lemma_entries_differ(s, t);
    assert forall|k: u32| balances.contains_key(k) == others.contains_key(k) by {
        if balances.contains_key(k) {
            let i = choose|i: int| 0 <= i < s.len() && (#[trigger] s[i]).0 == k;
            assert(others.contains_key(t[i].0));
        }
        if others.contains_key(k) {
            let i = choose|i: int| 0 <= i < t.len() && (#[trigger] t[i]).0 == k;
            assert(balances.contains_key(s[i].0));
        }
    }
    assert forall|k: u32| #[trigger] balances.contains_key(k) implies balances[k] == others[k] by {
        let i = choose|i: int| 0 <= i < s.len() && (#[trigger] s[i]).0 == k;
        assert(balances[s[i].0] == s[i].1 && others[t[i].0] == t[i].1);
    }
    assert(balances =~= others);
}

/// Accounts that can exist.
pub open spec fn sound_ledger(ledger: Ledger) -> bool {
    ledger.dom().finite() && forall|u: u64| #[trigger]
        ledger.contains_key(u) ==> sound_balances(ledger[u])
}

/// Whether two queues hold the same orders, but for the sign of a zero.
pub open spec fn same_orders(a: Seq<Order>, b: Seq<Order>) -> bool {
    &&& a.len() == b.len()
    &&& forall|i: int|
        #![trigger a[i]]
        #![trigger b[i]]
        0 <= i < a.len() ==> order_as_read(a[i]) == order_as_read(b[i])
}

proof fn lemma_queue_committed(a: Seq<Order>, b: Seq<Order>)
    requires
        a.len() == b.len(),
        forall|i: int|
            0 <= i < a.len() ==> (#[trigger] a[i]).price.valid() && a[i].quantity.valid(),
        forall|i: int|
            0 <= i < b.len() ==> (#[trigger] b[i]).price.valid() && b[i].quantity.valid(),
        forall|i: int|
            #![trigger a[i]]
            0 <= i < a.len() ==> sha256_of(order_wire(a[i])) == sha256_of(order_wire(b[i])),
    ensures
        same_orders(a, b) || sha256_fails(),
{
    if !sha256_fails() {
        assert forall|i: int|
            #![trigger a[i]]
            #![trigger b[i]]
            0 <= i < a.len() implies order_as_read(a[i]) == order_as_read(b[i]) by {
            assert(sha256_of(order_wire(a[i])) == sha256_of(order_wire(b[i])));
            assert(order_wire(a[i]) == order_wire(b[i]));
            lemma_order_back(a[i], Seq::empty());
            lemma_order_back(b[i], Seq::empty());
        }
    }
}

/// The orders of a good side have valid amounts.
proof fn lemma_side_sound(levels: Seq<crate::book::LevelView>, desc: bool)
    requires
        crate::book::good_side(levels, desc),
    ensures
        forall|i: int|
            0 <= i < queue(levels).len() ==> (#[trigger] queue(levels)[i]).price.valid()
                && queue(levels)[i].quantity.valid(),
    decreases levels.len(),
{
    if levels.len() > 0 {
        let tail = levels.drop_first();
        crate::engine_laws::lemma_tail_good(levels, desc);
        lemma_side_sound(tail, desc);
        let here = levels[0].orders;
        assert(crate::book::good_level(levels[0], desc));
        assert forall|i: int| 0 <= i < queue(levels).len() implies (#[trigger] queue(
            levels,
        )[i]).price.valid() && queue(levels)[i].quantity.valid() by {
            if i < here.len() {
                assert(crate::book::may_rest(here[i], levels[0].price, desc));
            } else {
                assert(queue(levels)[i] == queue(tail)[i - here.len()]);
            }
        }
    }
}

/// The root hash of a state commits to all of it: another state with as many accounts,
/// bids and asks has the same root hash only if every account, every balance and every
/// resting order is the same, unless SHA-256 fails.
pub proof fn law_state_root_commits(
    ledger: Ledger,
    book: BookView,
    other_ledger: Ledger,
    other_book: BookView,
)
    requires
        sound_ledger(ledger),
        sound_ledger(other_ledger),
        good_book(book),
        good_book(other_book),
        ledger.dom().len() == other_ledger.dom().len(),
        queue(book.bids).len() == queue(other_book.bids).len(),
        queue(book.asks).len() == queue(other_book.asks).len(),
        state_root_of(ledger, book) == state_root_of(other_ledger, other_book),
    ensures
        sha256_fails() || {
            &&& ledger == other_ledger
            &&& same_orders(queue(book.bids), queue(other_book.bids))
            &&& same_orders(queue(book.asks), queue(other_book.asks))
        },
{
    if !sha256_fails() {
        law_leaves(ledger, book);
        law_leaves(other_ledger, other_book);
        let (a, b) = (leaves_of(ledger, book), leaves_of(other_ledger, other_book));
        lemma_leaves_full(ledger, book);
        lemma_leaves_full(other_ledger, other_book);
        law_root_binds(a, b);
        let n = ledger.dom().len() as int;
        let (bids, asks) = (queue(book.bids), queue(book.asks));
        let (other_bids, other_asks) = (queue(other_book.bids), queue(other_book.asks));
        lemma_side_sound(book.bids, true);
        lemma_side_sound(book.asks, false);
        lemma_side_sound(other_book.bids, true);
        lemma_side_sound(other_book.asks, false);
        assert forall|i: int| #![trigger bids[i]] 0 <= i < bids.len() implies sha256_of(
            order_wire(bids[i]),
        ) == sha256_of(order_wire(other_bids[i])) by {
            assert(a[n + i] == b[n + i]);
        }
        lemma_queue_committed(bids, other_bids);
        assert forall|i: int| #![trigger asks[i]] 0 <= i < asks.len() implies sha256_of(
            order_wire(asks[i]),
        ) == sha256_of(order_wire(other_asks[i])) by {
            assert(a[n + bids.len() + i] == b[n + bids.len() + i]);
        }
        lemma_queue_committed(asks, other_asks);
        let users = choose|users: Seq<u64>| #[trigger]
            ranks(users, ledger) && forall|i: int|
                0 <= i < n ==> #[trigger] a[i] == sha256_of(
                    account_wire(users[i], ledger[users[i]]),
                );
        let others = choose|users: Seq<u64>| #[trigger]
            ranks(users, other_ledger) && forall|i: int|
                0 <= i < n ==> #[trigger] b[i] == sha256_of(
                    account_wire(users[i], other_ledger[users[i]]),
                );
        assert forall|i: int| 0 <= i < n implies #[trigger] users[i] == others[i]
            && ledger[users[i]] == other_ledger[users[i]] by {
            assert(a[i] == b[i]);
            let (u, v) = (users[i], others[i]);
            assert(ledger.contains_key(u) && other_ledger.contains_key(v));
            assert(account_wire(u, ledger[u]) == account_wire(v, other_ledger[v]));
            law_account_bytes_differ(u, ledger[u], v, other_ledger[v]);
        }
        assert forall|k: u64| ledger.contains_key(k) == other_ledger.contains_key(k) by {
            if ledger.contains_key(k) {
                let i = choose|i: int| 0 <= i < users.len() && #[trigger] users[i] == k;
                assert(other_ledger.contains_key(others[i]));
            }
            if other_ledger.contains_key(k) {
                let i = choose|i: int| 0 <= i < others.len() && #[trigger] others[i] == k;
                assert(users[i] == others[i]);
                assert(ledger.contains_key(users[i]));
            }
        }
        assert forall|k: u64| #[trigger] ledger.contains_key(k) implies ledger[k]
            == other_ledger[k] by {
            let i = choose|i: int| 0 <= i < users.len() && #[trigger] users[i] == k;
            assert(users[i] == k);
        }
        assert(ledger =~= other_ledger);
    }
}

/// All leaves are digests.
proof fn lemma_leaves_full(ledger: Ledger, book: BookView)
    requires
        ledger.dom().finite(),
        !sha256_fails(),
    ensures
        full_hashes(leaves_of(ledger, book)),
{
    law_leaves(ledger, book);
    let leaves = leaves_of(ledger, book);
    let (bids, asks) = (queue(book.bids), queue(book.asks));
    let n = ledger.dom().len() as int;
    assert forall|i: int| 0 <= i < leaves.len() implies (#[trigger] leaves[i]).len() == 32 by {
        if i < n {
        } else if i < n + bids.len() {
            assert(leaves[n + (i - n)] == sha256_of(order_wire(bids[i - n])));
        } else {
            let j = i - n - bids.len();
            assert(leaves[n + bids.len() + j] == sha256_of(order_wire(asks[j])));
        }
    }
}

/// A checkpoint notes the root hash of its state and its certificate, in hexadecimal
/// digits of lower case, so that both can be read off it.
pub proof fn law_checkpoint_reads_back(state: State, certificate: Seq<u8>)
    ensures
        hex_read(checkpoint_of(state, certificate).state_root) == Some(
            state_root_of(state.ledger, state.book),
        ),
        hex_read(checkpoint_of(state, certificate).da_certificate) == Some(certificate),
        forall|i: int|
            0 <= i < checkpoint_of(state, certificate).state_root.len() ==> ('0'
                <= #[trigger] checkpoint_of(state, certificate).state_root[i] <= '9' || 'a'
                <= checkpoint_of(state, certificate).state_root[i] <= 'f'),
        forall|i: int|
            0 <= i < checkpoint_of(state, certificate).da_certificate.len() ==> ('0'
                <= #[trigger] checkpoint_of(state, certificate).da_certificate[i] <= '9' || 'a'
                <= checkpoint_of(state, certificate).da_certificate[i] <= 'f'),
{
    law_hex_lower(state_root_of(state.ledger, state.book));
    law_hex_lower(certificate);
    law_hex_back(state_root_of(state.ledger, state.book));
    law_hex_back(certificate);
}

} // verus!
