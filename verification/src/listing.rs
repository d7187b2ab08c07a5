//! The entries of a map in ascending order of their keys.
use vstd::prelude::*;

verus! {

/// Keys that are numbers.
pub trait Numbered: Sized {
    spec fn number(self) -> int;

    /// A number is that of one key only.
    proof fn lemma_one_each(a: Self, b: Self)
        requires
            a.number() == b.number(),
        ensures
            a == b,
    ;
}

impl Numbered for u32 {
    open spec fn number(self) -> int {
        self as int
    }

    proof fn lemma_one_each(a: u32, b: u32) {
    }
}

impl Numbered for u64 {
    open spec fn number(self) -> int {
        self as int
    }

    proof fn lemma_one_each(a: u64, b: u64) {
    }
}

/// Whether a sequence holds the entries of a map, each once, by ascending key.
pub open spec fn lists<K: Numbered, V>(s: Seq<(K, V)>, m: Map<K, V>) -> bool {
    &&& forall|i: int, j: int|
        #![trigger s[i], s[j]]
        0 <= i < j < s.len() ==> s[i].0.number() < s[j].0.number()
    &&& forall|i: int|
        #![trigger s[i]]
        0 <= i < s.len() ==> m.contains_key(s[i].0) && m[s[i].0] == s[i].1
    &&& forall|k: K| #[trigger]
        m.contains_key(k) ==> exists|i: int| 0 <= i < s.len() && (#[trigger] s[i]).0 == k
}

/// An entry put in where its key belongs.
pub proof fn lemma_lists_insert<K: Numbered, V>(s: Seq<(K, V)>, m: Map<K, V>, at: int, k: K, v: V)
    requires
        lists(s, m),
        0 <= at <= s.len(),
        forall|i: int| 0 <= i < at ==> (#[trigger] s[i]).0.number() < k.number(),
        forall|i: int| at <= i < s.len() ==> k.number() < (#[trigger] s[i]).0.number(),
    ensures
        lists(s.insert(at, (k, v)), m.insert(k, v)),
{
    let t = s.insert(at, (k, v));
    let n = m.insert(k, v);
    assert forall|i: int| 0 <= i < t.len() && i != at implies #[trigger] t[i] == s[if i < at {
        i
    } else {
        i - 1
    }] by {}
    assert forall|i: int, j: int| #![trigger t[i], t[j]] 0 <= i < j < t.len() implies t[i].0.number()
        < t[j].0.number() by {
        let a = s[if i < at { i } else { i - 1 }];
        let b = s[if j < at { j } else { j - 1 }];
        assert(t[i] == a || i == at);
        assert(t[j] == b || j == at);
    }
    assert forall|i: int| #![trigger t[i]] 0 <= i < t.len() implies n.contains_key(t[i].0)
        && n[t[i].0] == t[i].1 by {
        let a = s[if i < at { i } else { i - 1 }];
        assert(t[i] == a || i == at);
    }
    assert forall|x: K| #[trigger] n.contains_key(x) implies exists|i: int|
        0 <= i < t.len() && (#[trigger] t[i]).0 == x by {
        if x == k {
            assert(t[at].0 == x);
        } else {
            assert(m.contains_key(x));
            let i = choose|i: int| 0 <= i < s.len() && (#[trigger] s[i]).0 == x;
            if i < at {
                assert(t[i].0 == x);
            } else {
                assert(t[i + 1].0 == x);
            }
        }
    }
}

/// The entries of a map by ascending key.
pub open spec fn listing<K: Numbered, V>(m: Map<K, V>) -> Seq<(K, V)> {
    choose|s: Seq<(K, V)>| lists(s, m)
}

/// The first `n` entries of two listings of one map are the same.
proof fn lemma_lists_agree<K: Numbered, V>(s: Seq<(K, V)>, t: Seq<(K, V)>, m: Map<K, V>, n: int)
    requires
        lists(s, m),
        lists(t, m),
        0 <= n <= s.len(),
        n <= t.len(),
    ensures
        s.take(n) == t.take(n),
    decreases n,
{
    if n > 0 {
        lemma_lists_agree(s, t, m, n - 1);
        assert forall|j: int| 0 <= j < n - 1 implies s[j] == t[j] by {
            assert(s.take(n - 1)[j] == t.take(n - 1)[j]);
        }
        assert(m.contains_key(s[n - 1].0) && m.contains_key(t[n - 1].0));
        let a = choose|a: int| 0 <= a < t.len() && (#[trigger] t[a]).0 == s[n - 1].0;
        let b = choose|b: int| 0 <= b < s.len() && (#[trigger] s[b]).0 == t[n - 1].0;
        if a < n - 1 {
            assert(s[a].0.number() < s[n - 1].0.number());
        }
        if b < n - 1 {
            assert(t[b].0.number() < t[n - 1].0.number());
        }
        if a > n - 1 {
            assert(t[n - 1].0.number() < t[a].0.number());
        }
        if b > n - 1 {
            assert(s[n - 1].0.number() < s[b].0.number());
        }
        K::lemma_one_each(s[n - 1].0, t[n - 1].0);
        assert(s[n - 1] == t[n - 1]);
        assert(s.take(n) =~= s.take(n - 1).push(s[n - 1]));
        assert(t.take(n) =~= t.take(n - 1).push(t[n - 1]));
    }
}

/// A map has one listing only.
pub proof fn lemma_listing<K: Numbered, V>(s: Seq<(K, V)>, m: Map<K, V>)
    requires
        lists(s, m),
    ensures
        listing(m) == s,
{
    let t = listing(m);
    assert(lists(t, m));
    let n = if s.len() < t.len() {
        s.len() as int
    } else {
        t.len() as int
    };
    lemma_lists_agree(s, t, m, n);
    assert forall|j: int| 0 <= j < n implies s[j] == t[j] by {
        assert(s.take(n)[j] == t.take(n)[j]);
    }
    if s.len() < t.len() {
        assert(m.contains_key(t[n].0));
        let a = choose|a: int| 0 <= a < s.len() && (#[trigger] s[a]).0 == t[n].0;
        assert(t[a].0.number() < t[n].0.number());
    } else if t.len() < s.len() {
        assert(m.contains_key(s[n].0));
        let a = choose|a: int| 0 <= a < t.len() && (#[trigger] t[a]).0 == s[n].0;
        assert(s[a].0.number() < s[n].0.number());
    }
    assert(s =~= t);
}

} // verus!
