//! Building the tree: the root digest of a list of leaf digests, and the
//! sibling record that lets each leaf's inclusion be checked afterwards.

use vstd::prelude::*;
use crate::digest::{double_sha256, double_sha256_of};
use crate::record::{SiblingRecord, SIBLINGS_LEN};

verus! {

/// Why a tree could not be built.
#[derive(Debug, PartialEq, Eq, Structural)]
pub enum MerkleError {
    /// The list of leaves was empty.
    EmptyLeaves,
}

/// The byte sequences of a list of digests.
pub open spec fn digests(hashes: Seq<[u8; 32]>) -> Seq<Seq<u8>> {
    hashes.map_values(|h: [u8; 32]| h@)
}

/// The bytes hashed into the parent of `level[i]`: the digest at `i` beside
/// its partner, left one first. An element at an even position pairs with the
/// next one, or with itself when it is the last of an odd-length level.
pub open spec fn sibling_bytes(level: Seq<Seq<u8>>, i: int) -> Seq<u8> {
    if i % 2 == 0 {
        if i + 1 < level.len() {
            level[i] + level[i + 1]
        } else {
            level[i] + level[i]
        }
    } else {
        level[i - 1] + level[i]
    }
}

/// The level above `level`: one parent for each pair, in order.
pub open spec fn next_level(level: Seq<Seq<u8>>) -> Seq<Seq<u8>> {
    Seq::new(((level.len() + 1) / 2) as nat, |k: int| double_sha256_of(sibling_bytes(level, 2 * k)))
}

/// The root of the tree over `level`: the one element left after reducing
/// level by level.
pub open spec fn root_of(level: Seq<Seq<u8>>) -> Seq<u8>
    decreases level.len(),
{
    if level.len() <= 1 {
        level[0]
    } else {
        root_of(next_level(level))
    }
}

/// `m` after recording the first `k` elements of `level`, in order; a later
/// entry for the same digest replaces an earlier one.
pub open spec fn record_level(m: Map<Seq<u8>, Seq<u8>>, level: Seq<Seq<u8>>, k: nat) -> Map<
    Seq<u8>,
    Seq<u8>,
>
    decreases k,
{
    if k == 0 {
        m
    } else {
        record_level(m, level, (k - 1) as nat).insert(
            level[k - 1],
            sibling_bytes(level, k - 1),
        )
    }
}

/// `m` after recording every level of the tree over `level` below its root,
/// from the bottom up.
pub open spec fn record_tree(m: Map<Seq<u8>, Seq<u8>>, level: Seq<Seq<u8>>) -> Map<
    Seq<u8>,
    Seq<u8>,
>
    decreases level.len(),
{
    if level.len() <= 1 {
        m
    } else {
        record_tree(record_level(m, level, level.len()), next_level(level))
    }
}

/// Number of levels below the root of a tree over `n` leaves.
pub open spec fn height(n: nat) -> nat
    decreases n,
{
    if n <= 1 {
        0
    } else {
        1 + height(((n + 1) / 2) as nat)
    }
}

/// Recording a level into `m` is `m` overridden by the level's own records.
proof fn lemma_record_level_over(m: Map<Seq<u8>, Seq<u8>>, level: Seq<Seq<u8>>, k: nat)
    ensures
        record_level(m, level, k) == m.union_prefer_right(record_level(Map::empty(), level, k)),
    decreases k,
{
    if k == 0 {
        assert(m.union_prefer_right(Map::empty()) =~= m);
    } else {
        lemma_record_level_over(m, level, (k - 1) as nat);
        assert(record_level(m, level, k) =~= m.union_prefer_right(
            record_level(Map::empty(), level, k),
        ));
    }
}

/// Recording a tree into `m` is `m` overridden by the tree's own records.
pub proof fn lemma_record_tree_over(m: Map<Seq<u8>, Seq<u8>>, level: Seq<Seq<u8>>)
    ensures
        record_tree(m, level) == m.union_prefer_right(record_tree(Map::empty(), level)),
    decreases level.len(),
{
    if level.len() <= 1 {
        assert(m.union_prefer_right(Map::empty()) =~= m);
    } else {
        let n = level.len();
        let own = record_level(Map::<Seq<u8>, Seq<u8>>::empty(), level, n);
        let up = next_level(level);
        lemma_record_level_over(m, level, n);
        lemma_record_tree_over(record_level(m, level, n), up);
        lemma_record_tree_over(own, up);
        let rest = record_tree(Map::empty(), up);
        assert(m.union_prefer_right(own).union_prefer_right(rest) =~= m.union_prefer_right(
            own.union_prefer_right(rest),
        ));
    }
}

/// The records of one level: every element of its first `k` is recorded, and
/// what is recorded for a digest is the sibling bytes of a position that holds it.
pub proof fn lemma_level_entries(level: Seq<Seq<u8>>, k: nat)
    requires
        k <= level.len(),
    ensures
        forall|i: int|
            0 <= i < k ==> record_level(Map::empty(), level, k).contains_key(#[trigger] level[i]),
        forall|v: Seq<u8>| #[trigger]
            record_level(Map::empty(), level, k).contains_key(v) ==> exists|i: int|
                0 <= i < k && level[i] == v && record_level(Map::empty(), level, k)[v]
                    == sibling_bytes(level, i),
    decreases k,
{
    if k > 0 {
        lemma_level_entries(level, (k - 1) as nat);
        let prev = record_level(Map::<Seq<u8>, Seq<u8>>::empty(), level, (k - 1) as nat);
        let cur = record_level(Map::<Seq<u8>, Seq<u8>>::empty(), level, k);
        assert forall|v: Seq<u8>| #[trigger] cur.contains_key(v) implies exists|i: int|
            0 <= i < k && level[i] == v && cur[v] == sibling_bytes(level, i) by {
            if v == level[k - 1] {
                assert(level[k - 1] == v && cur[v] == sibling_bytes(level, k - 1));
            } else {
                assert(prev.contains_key(v));
            }
        }
    }
}

/// The double SHA-256 of the sibling bytes of an element is its parent.
pub proof fn lemma_parent(level: Seq<Seq<u8>>, i: int)
    requires
        0 <= i < level.len(),
    ensures
        i / 2 < next_level(level).len(),
        double_sha256_of(sibling_bytes(level, i)) == next_level(level)[i / 2],
{
    if i % 2 == 1 {
        assert(sibling_bytes(level, i) == sibling_bytes(level, 2 * (i / 2)));
    }
}

/// The bytes of `a` followed by those of `b`.
pub fn merge_slices(a: &[u8], b: &[u8]) -> (r: Vec<u8>)
    ensures
        r@ == a@ + b@,
{
    let mut r: Vec<u8> = Vec::new();
    let mut i: usize = 0;
    while i < a.len()
        invariant
            0 <= i <= a@.len(),
            r@ == a@.subrange(0, i as int),
        decreases a.len() - i,
    {
        r.push(a[i]);
        i = i + 1;
    }
    let mut j: usize = 0;
    while j < b.len()
        invariant
            0 <= j <= b@.len(),
            r@ == a@ + b@.subrange(0, j as int),
        decreases b.len() - j,
    {
        r.push(b[j]);
        j = j + 1;
    }
    assert(a@.subrange(0, a@.len() as int) == a@);
    assert(b@.subrange(0, b@.len() as int) == b@);
    r
}

/// The sibling bytes of `level[i]`.
fn siblings_at(level: &Vec<[u8; 32]>, i: usize) -> (r: Vec<u8>)
    requires
        i < level@.len(),
    ensures
        r@ == sibling_bytes(digests(level@), i as int),
        r@.len() == SIBLINGS_LEN,
{
    if i % 2 == 0 {
        if i + 1 < level.len() {
            merge_slices(&level[i], &level[i + 1])
        } else {
            merge_slices(&level[i], &level[i])
        }
    } else {
        merge_slices(&level[i - 1], &level[i])
    }
}

/// Records every element of `level` with its sibling bytes.
fn record_level_into(level: &Vec<[u8; 32]>, merkle_proofs: &mut SiblingRecord)
    requires
        old(merkle_proofs).wf(),
        old(merkle_proofs)@.len() + level@.len() <= usize::MAX,
    ensures
        final(merkle_proofs).wf(),
        final(merkle_proofs)@.len() <= old(merkle_proofs)@.len() + level@.len(),
        final(merkle_proofs)@ == record_level(
            old(merkle_proofs)@,
            digests(level@),
            level@.len(),
        ),
{
    let ghost start = merkle_proofs@;
    let mut i: usize = 0;
    while i < level.len()
        invariant
            0 <= i <= level@.len(),
            merkle_proofs.wf(),
            merkle_proofs@ == record_level(start, digests(level@), i as nat),
            merkle_proofs@.len() <= start.len() + i,
            start.len() + level@.len() <= usize::MAX,
        decreases level.len() - i,
    {
        let siblings = siblings_at(level, i);
        merkle_proofs.insert(level[i], siblings);
        i = i + 1;
    }
}

/// The level above `level`.
fn parent_level(level: &Vec<[u8; 32]>) -> (r: Vec<[u8; 32]>)
    ensures
        r@.len() == (level@.len() + 1) / 2,
        digests(r@) == next_level(digests(level@)),
{
    let n = level.len();
    let mut r: Vec<[u8; 32]> = Vec::new();
    let mut k: usize = 0;
    while k < n - k
        invariant
            0 <= k <= n - k + 1,
            n == level@.len(),
            r@.len() == k,
            forall|j: int|
                0 <= j < k ==> (#[trigger] r@[j])@ == next_level(digests(level@))[j],
        decreases n - k,
    {
        let siblings = siblings_at(level, k + k);
        r.push(double_sha256(&siblings));
        k = k + 1;
    }
    assert(digests(r@) =~= next_level(digests(level@)));
    r
}

/// Builds the tree over `hash_list`, records the sibling bytes of every node
/// below the root into `merkle_proofs`, and returns the root. An empty list
/// has no tree and is refused. The record must have room for three new
/// entries per leaf without its count overflowing a `usize`.
pub fn merkle_root(hash_list: &[[u8; 32]], merkle_proofs: &mut SiblingRecord) -> (r: Result<
    [u8; 32],
    MerkleError,
>)
    requires
        old(merkle_proofs).wf(),
        old(merkle_proofs)@.len() + 3 * hash_list@.len() <= usize::MAX,
    ensures
        final(merkle_proofs).wf(),
        hash_list@.len() == 0 <==> r is Err,
        hash_list@.len() == 0 ==> r == Err::<[u8; 32], MerkleError>(MerkleError::EmptyLeaves)
            && final(merkle_proofs)@ == old(merkle_proofs)@,
        hash_list@.len() > 0 ==> (r matches Ok(root) && root@ == root_of(digests(hash_list@))
            && final(merkle_proofs)@ == record_tree(old(merkle_proofs)@, digests(hash_list@))),
        hash_list@.len() == 1 ==> r == Ok::<[u8; 32], MerkleError>(hash_list@[0])
            && final(merkle_proofs)@ == old(merkle_proofs)@,
{
    if hash_list.len() == 0 {
        return Err(MerkleError::EmptyLeaves);
    }
    if hash_list.len() == 1 {
        return Ok(hash_list[0]);
    }
    let mut level: Vec<[u8; 32]> = Vec::new();
    let mut i: usize = 0;
    while i < hash_list.len()
        invariant
            0 <= i <= hash_list@.len(),
            level@ == hash_list@.subrange(0, i as int),
        decreases hash_list.len() - i,
    {
        level.push(hash_list[i]);
        i = i + 1;
    }
    assert(level@ == hash_list@);
    while level.len() > 1
        invariant
            level@.len() >= 1,
            merkle_proofs.wf(),
            merkle_proofs@.len() + 3 * level@.len() <= old(merkle_proofs)@.len() + 3
                * hash_list@.len(),
            old(merkle_proofs)@.len() + 3 * hash_list@.len() <= usize::MAX,
            root_of(digests(level@)) == root_of(digests(hash_list@)),
            record_tree(merkle_proofs@, digests(level@)) == record_tree(
                old(merkle_proofs)@,
                digests(hash_list@),
            ),
        decreases level@.len(),
    {
        let ghost before = merkle_proofs@.len();
        let ghost width = level@.len();
        record_level_into(&level, merkle_proofs);
        level = parent_level(&level);
        assert(merkle_proofs@.len() <= before + width);
        assert(level@.len() == (width + 1) / 2);
        assert(3 * level@.len() <= 2 * width);
    }
    Ok(level[0])
}

} // verus!

verus! {

/// Building twice from the same leaves gives the same root, and, into equal
/// records, the same records.
pub proof fn lemma_build_deterministic(
    first: Seq<[u8; 32]>,
    second: Seq<[u8; 32]>,
    m1: Map<Seq<u8>, Seq<u8>>,
    m2: Map<Seq<u8>, Seq<u8>>,
)
    requires
        first == second,
        m1 == m2,
    ensures
        root_of(digests(first)) == root_of(digests(second)),
        record_tree(m1, digests(first)) == record_tree(m2, digests(second)),
{
}

/// Over three leaves `a, b, c` the last one is paired with itself, and the root is
/// `H(H(H(H(a + b)) + H(H(c + c))))` with `H` SHA-256; `c` is recorded beside
/// itself and the two parents beside each other.
pub proof fn lemma_three_leaves(a: [u8; 32], b: [u8; 32], c: [u8; 32])
    ensures
        ({
            let ab = double_sha256_of(a@ + b@);
            let cc = double_sha256_of(c@ + c@);
            let leaves = digests(seq![a, b, c]);
            &&& next_level(leaves) == seq![ab, cc]
            &&& root_of(leaves) == double_sha256_of(ab + cc)
            &&& record_level(Map::empty(), leaves, 3)[c@] == c@ + c@
            &&& record_tree(Map::empty(), leaves) == record_level(Map::empty(), leaves, 3).insert(
                ab,
                ab + cc,
            ).insert(cc, ab + cc)
        }),
{
    let leaves = digests(seq![a, b, c]);
    let ab = double_sha256_of(a@ + b@);
    let cc = double_sha256_of(c@ + c@);
    assert(leaves =~= seq![a@, b@, c@]);
    assert(next_level(leaves) =~= seq![ab, cc]);
    let up = next_level(leaves);
    assert(next_level(up) =~= seq![double_sha256_of(ab + cc)]);
    assert(root_of(up) == root_of(next_level(up)));
    let r3 = record_level(Map::<Seq<u8>, Seq<u8>>::empty(), leaves, 3);
    assert(sibling_bytes(up, 0) == ab + cc);
    assert(sibling_bytes(up, 1) == ab + cc);
    assert(record_level(r3, up, 0) == r3);
    assert(up[0] == ab);
    assert(record_level(r3, up, 1) == r3.insert(ab, ab + cc));
    assert(record_level(r3, up, 2) == r3.insert(ab, ab + cc).insert(cc, ab + cc));
    assert(record_tree(r3, up) == record_tree(record_level(r3, up, 2), next_level(up)));
    assert(record_level(Map::<Seq<u8>, Seq<u8>>::empty(), leaves, 2).insert(c@, sibling_bytes(leaves, 2)) == r3);
}

/// Over four leaves `a, b, c, d` nothing is duplicated, and the root is
/// `H(H(H(H(a + b)) + H(H(c + d))))` with `H` SHA-256.
pub proof fn lemma_four_leaves(a: [u8; 32], b: [u8; 32], c: [u8; 32], d: [u8; 32])
    ensures
        ({
            let ab = double_sha256_of(a@ + b@);
            let cd = double_sha256_of(c@ + d@);
            let leaves = digests(seq![a, b, c, d]);
            &&& next_level(leaves) == seq![ab, cd]
            &&& root_of(leaves) == double_sha256_of(ab + cd)
            &&& height(4) == 2
        }),
{
    let leaves = digests(seq![a, b, c, d]);
    let ab = double_sha256_of(a@ + b@);
    let cd = double_sha256_of(c@ + d@);
    assert(leaves =~= seq![a@, b@, c@, d@]);
    assert(next_level(leaves) =~= seq![ab, cd]);
    let up = next_level(leaves);
    assert(next_level(up) =~= seq![double_sha256_of(ab + cd)]);
    assert(root_of(up) == root_of(next_level(up)));
    assert(height(2) == 1 + height(1));
}

} // verus!
