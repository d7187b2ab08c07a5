//! Merkle trees over SHA-256.
//!
//! Each level pairs up the hashes of the one below; a hash that is left over is
//! paired with itself.
use crate::crypto::{sha256, sha256_of};
use vstd::prelude::*;

verus! {

/// The bytes of some hashes.
pub open spec fn hash_views(hashes: Seq<crate::types::Hash>) -> Seq<Seq<u8>> {
    hashes.map_values(|h: crate::types::Hash| h@)
}

/// The hash of two hashes.
pub open spec fn parent(left: Seq<u8>, right: Seq<u8>) -> Seq<u8> {
    sha256_of(left + right)
}

/// The level above: the parent of each pair, the last hash standing in for a
/// partner where one is missing.
pub open spec fn next_level(level: Seq<Seq<u8>>) -> Seq<Seq<u8>> {
    Seq::new(
        (level.len() + 1) / 2,
        |i: int|
            parent(
                level[2 * i],
                if 2 * i + 1 < level.len() {
                    level[2 * i + 1]
                } else {
                    level[2 * i]
                },
            ),
    )
}

/// A level and all levels above it, one after the other.
pub open spec fn levels_from(level: Seq<Seq<u8>>) -> Seq<Seq<u8>>
    decreases level.len(),
{
    if level.len() <= 1 {
        level
    } else {
        level + levels_from(next_level(level))
    }
}

/// A hash of zeros only.
pub open spec fn zero_hash() -> Seq<u8> {
    Seq::new(32, |i: int| 0u8)
}

/// The root over some leaves; the zero hash where there is none.
pub open spec fn root_of(leaves: Seq<Seq<u8>>) -> Seq<u8>
    decreases leaves.len(),
{
    if leaves.len() == 0 {
        zero_hash()
    } else if leaves.len() == 1 {
        leaves[0]
    } else {
        root_of(next_level(leaves))
    }
}

/// All nodes over some leaves, from the leaves up to the root.
pub open spec fn nodes_of(leaves: Seq<Seq<u8>>) -> Seq<Seq<u8>> {
    if leaves.len() == 0 {
        seq![zero_hash()]
    } else {
        levels_from(leaves)
    }
}

/// The root is the topmost node.
pub proof fn lemma_root_is_last(level: Seq<Seq<u8>>)
    requires
        level.len() > 0,
    ensures
        levels_from(level).len() > 0,
        levels_from(level).last() == root_of(level),
    decreases level.len(),
{
    if level.len() > 1 {
        lemma_root_is_last(next_level(level));
    }
}

/// A Merkle tree implementation.
#[derive(Debug)]
pub struct MerkleTree {
    nodes: Vec<crate::types::Hash>,
}

impl View for MerkleTree {
    type V = Seq<Seq<u8>>;

    closed spec fn view(&self) -> Seq<Seq<u8>> {
        hash_views(self.nodes@)
    }
}

/// The hash of two hashes.
fn hash_pair(left: &crate::types::Hash, right: &crate::types::Hash) -> (r: crate::types::Hash)
    ensures
        r@ == parent(left@, right@),
{
    let mut data: Vec<u8> = Vec::new();
    data.extend_from_slice(left.as_slice());
    data.extend_from_slice(right.as_slice());
    assert(data@ =~= left@ + right@);
    sha256(data.as_slice())
}

/// Computes the level above.
fn level_above(level: &Vec<crate::types::Hash>) -> (r: Vec<crate::types::Hash>)
    ensures
        hash_views(r@) == next_level(hash_views(level@)),
{
    let ghost want = next_level(hash_views(level@));
    let count: usize = level.len() / 2 + level.len() % 2;
    let mut next: Vec<crate::types::Hash> = Vec::new();
    let mut n: usize = 0;
    while n < count
        invariant
            n == next@.len(),
            n <= count,
            count == (level@.len() + 1) / 2,
            level@.len() <= usize::MAX,
            want == next_level(hash_views(level@)),
            forall|j: int| 0 <= j < n ==> (#[trigger] next@[j])@ == want[j],
        decreases count - n,
    {
        let left = level[2 * n];
        let right = if 2 * n + 1 < level.len() {
            level[2 * n + 1]
        } else {
            left
        };
        let hash = hash_pair(&left, &right);
        assert(want[n as int] == hash@) by {
            let views = hash_views(level@);
            assert(views[2 * n] == left@);
            if 2 * n + 1 < views.len() {
                assert(views[2 * n + 1] == right@);
            }
        }
        next.push(hash);
        n += 1;
    }
    assert(hash_views(next@) =~= want);
    next
}

/// Adds some hashes behind others.
fn append_hashes(out: &mut Vec<crate::types::Hash>, more: &[crate::types::Hash])
    ensures
        final(out)@ == old(out)@ + more@,
{
    let mut i: usize = 0;
    while i < more.len()
        invariant
            i <= more@.len(),
            out@ == old(out)@ + more@.take(i as int),
        decreases more@.len() - i,
    {
        out.push(more[i]);
        assert(more@.take(i + 1) =~= more@.take(i as int).push(more@[i as int]));
        i += 1;
    }
    assert(more@.take(i as int) =~= more@);
}

impl MerkleTree {
    /// Every tree has nodes, the root last of all.
    #[verifier::type_invariant]
    spec fn has_root(self) -> bool {
        self.nodes@.len() > 0
    }

    /// Constructs a new Merkle tree from leaf hashes.
    pub fn new(leaves: &[crate::types::Hash]) -> (r: MerkleTree)
        ensures
            r@ == nodes_of(hash_views(leaves@)),
    {
        let mut nodes: Vec<crate::types::Hash> = Vec::new();
        if leaves.len() == 0 {
            let zero: crate::types::Hash = [0u8; 32];
            nodes.push(zero);
            assert(zero@ =~= zero_hash());
            assert(hash_views(nodes@) =~= seq![zero_hash()]);
            return MerkleTree { nodes };
        }
        let mut current: Vec<crate::types::Hash> = Vec::new();
        append_hashes(&mut current, leaves);
        assert(current@ =~= leaves@);
        append_hashes(&mut nodes, leaves);
        assert(nodes@ =~= leaves@);
        let ghost mut below: Seq<Seq<u8>> = Seq::empty();
        assert(hash_views(nodes@) =~= below + hash_views(current@));
        while current.len() > 1
            invariant
                current@.len() > 0,
                hash_views(nodes@) == below + hash_views(current@),
                below + levels_from(hash_views(current@)) == levels_from(hash_views(leaves@)),
            decreases current@.len(),
        {
            let ghost level = hash_views(current@);
            let next = level_above(&current);
            proof {
                below = below + level;
                assert(below + levels_from(next_level(level)) =~= levels_from(hash_views(leaves@)));
                assert(next@.len() == hash_views(next@).len());
            }
            let ghost before = hash_views(nodes@);
            append_hashes(&mut nodes, next.as_slice());
            current = next;
            assert(hash_views(nodes@) =~= below + hash_views(current@));
        }
        MerkleTree { nodes }
    }

    /// Returns the root hash of the Merkle tree.
    pub fn root(&self) -> (r: crate::types::Hash)
        ensures
            r@ == self@.last(),
            forall|leaves: Seq<Seq<u8>>| self@ == nodes_of(leaves) ==> r@ == root_of(leaves),
    {
        proof {
            use_type_invariant(self);
            assert forall|leaves: Seq<Seq<u8>>| self@ == nodes_of(leaves) implies self@.last()
                == root_of(leaves) by {
                if leaves.len() > 0 {
                    lemma_root_is_last(leaves);
                }
            }
        }
        self.nodes[self.nodes.len() - 1]
    }
}

/// A single leaf is its own root.
pub proof fn law_single_leaf(leaf: Seq<u8>)
    ensures
        root_of(seq![leaf]) == leaf,
{
}

/// Two leaves have their parent as the root.
pub proof fn law_two_leaves(a: Seq<u8>, b: Seq<u8>)
    ensures
        root_of(seq![a, b]) == parent(a, b),
{
    let level = next_level(seq![a, b]);
    assert(level =~= seq![parent(a, b)]);
    law_single_leaf(parent(a, b));
}

/// With an odd number of leaves the last one is paired with itself: the root is
/// the one over the leaves with the last one repeated.
pub proof fn law_odd_leaf_paired_with_itself(leaves: Seq<Seq<u8>>)
    requires
        leaves.len() % 2 == 1,
        leaves.len() > 1,
    ensures
        root_of(leaves) == root_of(leaves.push(leaves.last())),
{
    let more = leaves.push(leaves.last());
    assert forall|i: int| 0 <= i < (leaves.len() + 1) / 2 implies #[trigger] next_level(leaves)[i]
        == next_level(more)[i] by {}
    assert(next_level(leaves) =~= next_level(more));
}

/// A tree over `2 n` leaves has as its root the parent of the roots over its two
/// halves, where `n` is a power of two.
pub proof fn law_halves(leaves: Seq<Seq<u8>>, k: nat)
    requires
        leaves.len() == 2 * vstd::arithmetic::power2::pow2(k),
    ensures
        root_of(leaves) == parent(
            root_of(leaves.take(leaves.len() as int / 2)),
            root_of(leaves.skip(leaves.len() as int / 2)),
        ),
    decreases k,
{
    let n = vstd::arithmetic::power2::pow2(k) as int;
    vstd::arithmetic::power2::lemma_pow2_pos(k);
    let (left, right) = (leaves.take(n), leaves.skip(n));
    if k == 0 {
        vstd::arithmetic::power2::lemma2_to64();
        assert(left =~= seq![leaves[0]]);
        assert(right =~= seq![leaves[1]]);
        assert(leaves =~= seq![leaves[0], leaves[1]]);
        law_two_leaves(leaves[0], leaves[1]);
    } else {
        vstd::arithmetic::power2::lemma_pow2_unfold(k);
        let above = next_level(leaves);
        let h = n / 2;
        assert(above.len() == n);
        assert(above.take(h) =~= next_level(left));
        assert(above.skip(h) =~= next_level(right));
        law_halves(above, (k - 1) as nat);
    }
}

/// Without leaves the root is 32 bytes of zero.
pub proof fn law_no_leaves()
    ensures
        root_of(Seq::empty()).len() == 32,
        forall|i: int| 0 <= i < 32 ==> #[trigger] root_of(Seq::empty())[i] == 0,
{
}

/// The root over more than one leaf is the root over the digests of its pairs, each the
/// digest of the left hash followed by the right one; a hash that is left over is paired
/// with itself.
pub proof fn law_root_of_pairs(leaves: Seq<Seq<u8>>, pairs: Seq<Seq<u8>>)
    requires
        leaves.len() > 1,
        pairs.len() == (leaves.len() + 1) / 2,
    ensures
        (forall|i: int|
            0 <= i < pairs.len() ==> #[trigger] pairs[i] == sha256_of(
                leaves[2 * i] + (if 2 * i + 1 < leaves.len() {
                    leaves[2 * i + 1]
                } else {
                    leaves[2 * i]
                }),
            )) ==> root_of(leaves) == root_of(pairs),
{
    if forall|i: int|
        0 <= i < pairs.len() ==> #[trigger] pairs[i] == sha256_of(
            leaves[2 * i] + (if 2 * i + 1 < leaves.len() {
                leaves[2 * i + 1]
            } else {
                leaves[2 * i]
            }),
        ) {
        assert(next_level(leaves) =~= pairs);
    }
}

/// The bytes of hashes are those of all of them, in order.
pub proof fn law_hash_views(hashes: Seq<crate::types::Hash>)
    ensures
        hash_views(hashes).len() == hashes.len(),
        forall|i: int| 0 <= i < hashes.len() ==> hash_views(hashes)[i] == (#[trigger] hashes[i])@,
{
}

} // verus!
