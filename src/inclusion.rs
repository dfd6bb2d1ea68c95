//! Checking that a leaf is included under a root, by walking up the sibling
//! record from the leaf.

use vstd::prelude::*;
use crate::digest::{digest_eq, double_sha256, double_sha256_of};
use crate::record::SiblingRecord;
use crate::merkle::{
    digests, height, lemma_level_entries, lemma_parent, lemma_record_tree_over, next_level,
    record_level, record_tree, root_of, sibling_bytes,
};
use vstd::set_lib::lemma_len_subset;

verus! {

/// Whether the walk from `current` ends at `root` within `fuel` steps. A step
/// replaces a recorded digest by the double SHA-256 of its sibling bytes; the
/// walk ends at the first digest that has no record.
pub open spec fn reaches_root(
    proofs: Map<Seq<u8>, Seq<u8>>,
    current: Seq<u8>,
    root: Seq<u8>,
    fuel: nat,
) -> bool
    decreases fuel,
{
    if proofs.contains_key(current) {
        fuel > 0 && reaches_root(
            proofs,
            double_sha256_of(proofs[current]),
            root,
            (fuel - 1) as nat,
        )
    } else {
        current == root
    }
}

/// A walk that ends at the root within some number of steps does so within
/// any larger number.
pub proof fn lemma_more_fuel(
    proofs: Map<Seq<u8>, Seq<u8>>,
    current: Seq<u8>,
    root: Seq<u8>,
    fuel: nat,
    more: nat,
)
    requires
        reaches_root(proofs, current, root, fuel),
        fuel <= more,
    ensures
        reaches_root(proofs, current, root, more),
    decreases fuel,
{
    if proofs.contains_key(current) {
        lemma_more_fuel(
            proofs,
            double_sha256_of(proofs[current]),
            root,
            (fuel - 1) as nat,
            (more - 1) as nat,
        );
    }
}

/// In any record that agrees with the records of the tree over `level`, and
/// in which its root is not recorded, the walk from every recorded digest of
/// that tree, and from the root, ends at the root within the tree's height.
proof fn lemma_walks_up(level: Seq<Seq<u8>>, proofs: Map<Seq<u8>, Seq<u8>>)
    requires
        level.len() >= 1,
        forall|v: Seq<u8>| #[trigger]
            record_tree(Map::empty(), level).contains_key(v) ==> proofs.contains_key(v)
                && proofs[v] == record_tree(Map::empty(), level)[v],
        !proofs.contains_key(root_of(level)),
    ensures
        forall|v: Seq<u8>|
            (#[trigger] record_tree(Map::empty(), level).contains_key(v) || v == root_of(level))
                ==> reaches_root(proofs, v, root_of(level), height(level.len())),
    decreases level.len(),
{
    let root = root_of(level);
    let n = level.len();
    if n >= 2 {
        let up = next_level(level);
        let own = record_level(Map::<Seq<u8>, Seq<u8>>::empty(), level, n);
        let tree = record_tree(Map::<Seq<u8>, Seq<u8>>::empty(), level);
        let rest = record_tree(Map::<Seq<u8>, Seq<u8>>::empty(), up);
        lemma_record_tree_over(own, up);
        assert(tree == own.union_prefer_right(rest));
        assert forall|v: Seq<u8>| #[trigger] rest.contains_key(v) implies proofs.contains_key(v)
            && proofs[v] == rest[v] by {
            assert(tree.contains_key(v) && tree[v] == rest[v]);
        }
        lemma_walks_up(up, proofs);
        lemma_level_entries(level, n);
        assert forall|v: Seq<u8>|
            (#[trigger] tree.contains_key(v) || v == root) implies reaches_root(
            proofs,
            v,
            root,
            height(n),
        ) by {
            if rest.contains_key(v) || v == root {
                lemma_more_fuel(proofs, v, root, height(up.len()), height(n));
            } else {
                assert(own.contains_key(v));
                let i = choose|i: int|
                    0 <= i < n && level[i] == v && own[v] == sibling_bytes(level, i);
                lemma_parent(level, i);
                let parent = up[i / 2];
                if up.len() >= 2 {
                    let up_own = record_level(Map::<Seq<u8>, Seq<u8>>::empty(), up, up.len());
                    lemma_level_entries(up, up.len());
                    lemma_record_tree_over(up_own, next_level(up));
                    assert(up_own.contains_key(up[i / 2]));
                    assert(rest.contains_key(parent));
                }
                assert(reaches_root(proofs, parent, root, height(up.len())));
                assert(proofs[v] == own[v]);
            }
        }
    }
}

/// The digest reached from `start` after `t` steps up `proofs`; a step
/// replaces a digest by the double SHA-256 of its recorded sibling bytes.
pub open spec fn walk(proofs: Map<Seq<u8>, Seq<u8>>, start: Seq<u8>, t: nat) -> Seq<u8>
    decreases t,
{
    if t == 0 {
        start
    } else {
        double_sha256_of(proofs[walk(proofs, start, (t - 1) as nat)])
    }
}

/// The walk from `start` stops after exactly `t` steps: the digests it passes
/// before are recorded, the one it reaches is not.
pub open spec fn ends_after(proofs: Map<Seq<u8>, Seq<u8>>, start: Seq<u8>, t: nat) -> bool {
    &&& forall|i: nat| i < t ==> proofs.contains_key(#[trigger] walk(proofs, start, i))
    &&& !proofs.contains_key(walk(proofs, start, t))
}

/// The walk from `leaf` stops, and it stops at `root`.
pub open spec fn proves_inclusion(
    proofs: Map<Seq<u8>, Seq<u8>>,
    leaf: Seq<u8>,
    root: Seq<u8>,
) -> bool {
    exists|t: nat| ends_after(proofs, leaf, t) && walk(proofs, leaf, t) == root
}

/// A walk stops after one number of steps at most.
pub proof fn lemma_ends_once(proofs: Map<Seq<u8>, Seq<u8>>, start: Seq<u8>, t1: nat, t2: nat)
    requires
        ends_after(proofs, start, t1),
        ends_after(proofs, start, t2),
    ensures
        t1 == t2,
{
    if t1 < t2 {
        assert(proofs.contains_key(walk(proofs, start, t1)));
    } else if t2 < t1 {
        assert(proofs.contains_key(walk(proofs, start, t2)));
    }
}

/// Two places of a walk that hold the same digest are followed by the same digests.
proof fn lemma_walk_repeats(
    proofs: Map<Seq<u8>, Seq<u8>>,
    start: Seq<u8>,
    i: nat,
    j: nat,
    s: nat,
)
    requires
        walk(proofs, start, i) == walk(proofs, start, j),
    ensures
        walk(proofs, start, i + s) == walk(proofs, start, j + s),
    decreases s,
{
    if s > 0 {
        lemma_walk_repeats(proofs, start, i, j, (s - 1) as nat);
        assert(walk(proofs, start, i + s) == double_sha256_of(
            proofs[walk(proofs, start, (i + s - 1) as nat)],
        ));
        assert(walk(proofs, start, j + s) == double_sha256_of(
            proofs[walk(proofs, start, (j + s - 1) as nat)],
        ));
    }
}

/// A walk whose first `k + 1` digests are all recorded, in a record of at
/// most `k` digests, has gone round a cycle and never stops.
pub proof fn lemma_no_end(proofs: Map<Seq<u8>, Seq<u8>>, start: Seq<u8>, k: nat)
    requires
        proofs.dom().finite(),
        proofs.len() <= k,
        forall|i: nat| i <= k ==> proofs.contains_key(#[trigger] walk(proofs, start, i)),
    ensures
        forall|t: nat| !ends_after(proofs, start, t),
{
    let path = Seq::new(k + 1, |i: int| walk(proofs, start, i as nat));
    if path.no_duplicates() {
        path.unique_seq_to_set();
        assert(path.to_set().subset_of(proofs.dom())) by {
            assert forall|d: Seq<u8>| path.to_set().contains(d) implies proofs.dom().contains(
                d,
            ) by {
                let i = choose|i: int| 0 <= i < path.len() && path[i] == d;
                assert(proofs.contains_key(walk(proofs, start, i as nat)));
            }
        }
        lemma_len_subset(path.to_set(), proofs.dom());
    } else {
        let (i, j) = choose|i: int, j: int|
            0 <= i < path.len() && 0 <= j < path.len() && i != j && path[i] == path[j];
        let (lo, hi) = if i < j {
            (i as nat, j as nat)
        } else {
            (j as nat, i as nat)
        };
        assert forall|t: nat| !ends_after(proofs, start, t) by {
            if ends_after(proofs, start, t) {
                if t <= k {
                    assert(proofs.contains_key(walk(proofs, start, t)));
                } else {
                    lemma_walk_repeats(proofs, start, lo, hi, (t - hi) as nat);
                    assert(walk(proofs, start, t) == walk(proofs, start, (lo + t - hi) as nat));
                    assert(proofs.contains_key(walk(proofs, start, (lo + t - hi) as nat)));
                }
            }
        }
    }
}

/// The walk from the digest after `start` is the walk from `start`, one step on.
proof fn lemma_walk_step(proofs: Map<Seq<u8>, Seq<u8>>, start: Seq<u8>, s: nat)
    ensures
        walk(proofs, start, s + 1) == walk(proofs, double_sha256_of(proofs[start]), s),
    decreases s,
{
    let next = double_sha256_of(proofs[start]);
    assert(walk(proofs, start, 0) == start);
    if s > 0 {
        lemma_walk_step(proofs, start, (s - 1) as nat);
        assert(walk(proofs, next, s) == double_sha256_of(proofs[walk(proofs, next, (s - 1) as nat)]));
    } else {
        assert(walk(proofs, start, 1) == double_sha256_of(proofs[walk(proofs, start, 0)]));
    }
}

/// A walk that ends at `root` within some number of steps stops there.
proof fn lemma_reaches_stops(
    proofs: Map<Seq<u8>, Seq<u8>>,
    current: Seq<u8>,
    root: Seq<u8>,
    fuel: nat,
)
    requires
        reaches_root(proofs, current, root, fuel),
    ensures
        proves_inclusion(proofs, current, root),
    decreases fuel,
{
    if !proofs.contains_key(current) {
        assert(ends_after(proofs, current, 0) && walk(proofs, current, 0) == root);
    } else {
        let next = double_sha256_of(proofs[current]);
        lemma_reaches_stops(proofs, next, root, (fuel - 1) as nat);
        let t = choose|t: nat| ends_after(proofs, next, t) && walk(proofs, next, t) == root;
        lemma_walk_step(proofs, current, t);
        assert forall|i: nat| i < t + 1 implies proofs.contains_key(
            #[trigger] walk(proofs, current, i),
        ) by {
            if i > 0 {
                lemma_walk_step(proofs, current, (i - 1) as nat);
                assert(proofs.contains_key(walk(proofs, next, (i - 1) as nat)));
            }
        }
        assert(ends_after(proofs, current, t + 1));
    }
}

/// Every leaf of a tree passes the inclusion check against the tree's root and
/// the record that building the tree into `start` leaves, unless the root
/// itself is recorded there (its digest also stands at a level below it, or
/// was in `start` already).
pub proof fn lemma_every_leaf_verifies(
    start: Map<Seq<u8>, Seq<u8>>,
    hash_list: Seq<[u8; 32]>,
    i: int,
)
    requires
        0 <= i < hash_list.len(),
        !record_tree(start, digests(hash_list)).contains_key(root_of(digests(hash_list))),
    ensures
        proves_inclusion(
            record_tree(start, digests(hash_list)),
            hash_list[i]@,
            root_of(digests(hash_list)),
        ),
{
    let level = digests(hash_list);
    let n = level.len();
    let proofs = record_tree(start, level);
    let own_tree = record_tree(Map::<Seq<u8>, Seq<u8>>::empty(), level);
    lemma_record_tree_over(start, level);
    assert forall|v: Seq<u8>| #[trigger] own_tree.contains_key(v) implies proofs.contains_key(v)
        && proofs[v] == own_tree[v] by {}
    lemma_walks_up(level, proofs);
    let leaf = level[i];
    if n >= 2 {
        let own = record_level(Map::<Seq<u8>, Seq<u8>>::empty(), level, n);
        lemma_level_entries(level, n);
        lemma_record_tree_over(own, next_level(level));
        assert(own.contains_key(level[i]));
        assert(own_tree.contains_key(leaf));
    }
    lemma_reaches_stops(proofs, leaf, root_of(level), height(n));
}

/// Whether `leaf` is included under `root` according to `merkle_proofs`: the
/// walk up from `leaf` stops, at the first digest with no record, and that
/// digest is `root`. A walk that goes round a cycle never stops and proves
/// nothing.
pub fn test_proof(root: &[u8; 32], leaf: &[u8; 32], merkle_proofs: &SiblingRecord) -> (r: bool)
    requires
        merkle_proofs.wf(),
    ensures
        r == proves_inclusion(merkle_proofs@, leaf@, root@),
        forall|t: nat|
            ends_after(merkle_proofs@, leaf@, t) ==> (r == (walk(merkle_proofs@, leaf@, t)
                == root@)),
{
    let ghost proofs = merkle_proofs@;
    let limit = merkle_proofs.len();
    let mut current: [u8; 32] = *leaf;
    let mut steps: usize = 0;
    loop
        invariant
            merkle_proofs.wf(),
            proofs == merkle_proofs@,
            limit == proofs.len(),
            steps <= limit,
            current@ == walk(proofs, leaf@, steps as nat),
            forall|i: nat| i < steps ==> proofs.contains_key(#[trigger] walk(proofs, leaf@, i)),
        decreases limit - steps,
    {
        match merkle_proofs.get(&current) {
            Some(siblings) => {
                if steps == limit {
                    proof {
                        merkle_proofs.lemma_lengths();
                        assert forall|i: nat| i <= steps implies proofs.contains_key(
                            #[trigger] walk(proofs, leaf@, i),
                        ) by {}
                        lemma_no_end(proofs, leaf@, steps as nat);
                    }
                    return false;
                }
                current = double_sha256(siblings.as_slice());
                steps = steps + 1;
            },
            None => {
                let r = digest_eq(&current, root);
                proof {
                    assert(ends_after(proofs, leaf@, steps as nat));
                    assert forall|t: nat| ends_after(proofs, leaf@, t) implies (r == (walk(
                        proofs,
                        leaf@,
                        t,
                    ) == root@)) by {
                        lemma_ends_once(proofs, leaf@, t, steps as nat);
                    }
                }
                return r;
            },
        }
    }
}

} // verus!
