//! What holds across several operations: runs of insertions, and tampered proofs.
use crate::hashing::sha256_of;
use crate::path_proof::{accepts, lemma_chain_levels_ok, level_ok, PathProof};
use crate::trie::{lookup, node_inserted, opt_bytes, Node};
use crate::tree::VerkleTree;
use vstd::prelude::*;

verus! {

/// The value under the digest `d` once `pairs` are stored, in order, into an empty
/// trie: the value of the last pair whose key has that digest.
pub open spec fn stored_after(pairs: Seq<(Seq<u8>, Seq<u8>)>, d: Seq<u8>) -> Option<Seq<u8>>
    decreases pairs.len(),
{
    if pairs.len() == 0 {
        None
    } else if sha256_of(pairs.last().0) == d {
        Some(pairs.last().1)
    } else {
        stored_after(pairs.drop_last(), d)
    }
}

/// `trees` are the states of a trie that starts empty and stores `pairs`, one
/// after another.
pub open spec fn insertion_run(trees: Seq<VerkleTree>, pairs: Seq<(Seq<u8>, Seq<u8>)>) -> bool {
    &&& trees.len() == pairs.len() + 1
    &&& forall|d: Seq<u8>| #[trigger] trees[0].value_at(d) is None
    &&& forall|i: int|
        0 <= i < pairs.len() ==> VerkleTree::inserted(#[trigger] trees[i], trees[i + 1], pairs[i].0, pairs[i].1)
}

/// Pairs whose keys share a digest carry the same value (a pair may repeat).
pub open spec fn consistent_pairs(pairs: Seq<(Seq<u8>, Seq<u8>)>) -> bool {
    forall|i: int, j: int|
        0 <= i < pairs.len() && 0 <= j < pairs.len() && sha256_of(#[trigger] pairs[i].0) == sha256_of(
            #[trigger] pairs[j].0,
        ) ==> pairs[i].1 == pairs[j].1
}

/// After a run of insertions into an empty trie, each digest holds the value last
/// stored under it, nothing else is stored, and the keys and depth are those the
/// trie was made with.
pub proof fn law_contents_after_insertions(trees: Seq<VerkleTree>, pairs: Seq<(Seq<u8>, Seq<u8>)>)
    requires
        insertion_run(trees, pairs),
    ensures
        forall|d: Seq<u8>| #[trigger] trees.last().value_at(d) == stored_after(pairs, d),
        trees.last().keys_spec() == trees[0].keys_spec(),
        trees.last().max_depth_spec() == trees[0].max_depth_spec(),
    decreases pairs.len(),
{
    if pairs.len() > 0 {
        let n = pairs.len() as int;
        assert(insertion_run(trees.drop_last(), pairs.drop_last())) by {
            assert forall|i: int| 0 <= i < n - 1 implies VerkleTree::inserted(
                #[trigger] trees.drop_last()[i],
                trees.drop_last()[i + 1],
                pairs.drop_last()[i].0,
                pairs.drop_last()[i].1,
            ) by {
                assert(VerkleTree::inserted(trees[i], trees[i + 1], pairs[i].0, pairs[i].1));
            }
        }
        law_contents_after_insertions(trees.drop_last(), pairs.drop_last());
        assert(VerkleTree::inserted(trees[n - 1], trees[n], pairs[n - 1].0, pairs[n - 1].1));
        assert(trees.drop_last().last() == trees[n - 1]);
    }
}

/// A pair just stored is found under its key, and still is once the commitments
/// are recomputed.
pub proof fn law_round_trip(
    before: VerkleTree,
    after: VerkleTree,
    recommitted: VerkleTree,
    key: Seq<u8>,
    value: Seq<u8>,
    ok: bool,
)
    requires
        VerkleTree::inserted(before, after, key, value),
        VerkleTree::recommitted(after, recommitted, ok),
    ensures
        after.value_at(sha256_of(key)) == Some(value),
        recommitted.value_at(sha256_of(key)) == Some(value),
{
}

/// Storing twice under one key leaves exactly one leaf for it, holding the later
/// value, and keeps every other value.
pub proof fn law_overwrite(
    t0: VerkleTree,
    t1: VerkleTree,
    t2: VerkleTree,
    key: Seq<u8>,
    first: Seq<u8>,
    second: Seq<u8>,
)
    requires
        VerkleTree::inserted(t0, t1, key, first),
        VerkleTree::inserted(t1, t2, key, second),
    ensures
        t2.leaf_count_of(sha256_of(key)) == 1,
        t2.value_at(sha256_of(key)) == Some(second),
        forall|d: Seq<u8>| d != sha256_of(key) ==> #[trigger] t2.value_at(d) == t0.value_at(d),
{
    crate::tree::law_one_leaf_per_digest(t2, sha256_of(key));
}

/// A key whose digest no stored key shares has no value after a run of
/// insertions, and no path proof.
pub proof fn law_non_membership(trees: Seq<VerkleTree>, pairs: Seq<(Seq<u8>, Seq<u8>)>, key: Seq<u8>)
    requires
        insertion_run(trees, pairs),
        forall|i: int| 0 <= i < pairs.len() ==> sha256_of(#[trigger] pairs[i].0) != sha256_of(key),
    ensures
        trees.last().value_at(sha256_of(key)) is None,
        forall|p: PathProof| p.key@ == sha256_of(key) ==> !(#[trigger] trees.last().proof_for(p)),
{
    law_contents_after_insertions(trees, pairs);
    lemma_stored_after_absent(pairs, sha256_of(key));
    assert forall|p: PathProof| p.key@ == sha256_of(key) implies !(#[trigger] trees.last().proof_for(p)) by {
        if trees.last().proof_for(p) {
            crate::tree::law_proof_needs_value(trees.last(), p);
        }
    }
}

/// A key whose digest no stored key shares is not found below a root node after a
/// run of insertions into it, starting from a node that stores nothing.
pub proof fn law_node_non_membership(
    nodes: Seq<Node>,
    pairs: Seq<(Seq<u8>, Seq<u8>)>,
    max_depth: nat,
    key: Seq<u8>,
)
    requires
        nodes.len() == pairs.len() + 1,
        forall|d: Seq<u8>| #[trigger] lookup(nodes[0], d) is None,
        forall|i: int|
            0 <= i < pairs.len() ==> node_inserted(#[trigger] nodes[i], nodes[i + 1], pairs[i].0, pairs[i].1, max_depth),
        forall|i: int| 0 <= i < pairs.len() ==> sha256_of(#[trigger] pairs[i].0) != sha256_of(key),
    ensures
        lookup(nodes.last(), sha256_of(key)) is None,
    decreases pairs.len(),
{
    let n = pairs.len() as int;
    if n > 0 {
        assert forall|i: int| 0 <= i < n - 1 implies node_inserted(
            #[trigger] nodes.drop_last()[i],
            nodes.drop_last()[i + 1],
            pairs.drop_last()[i].0,
            pairs.drop_last()[i].1,
            max_depth,
        ) by {
            assert(node_inserted(nodes[i], nodes[i + 1], pairs[i].0, pairs[i].1, max_depth));
        }
        assert forall|i: int| 0 <= i < n - 1 implies sha256_of(#[trigger] pairs.drop_last()[i].0) != sha256_of(key) by {
            assert(pairs.drop_last()[i] == pairs[i]);
        }
        assert(nodes.drop_last()[0] == nodes[0]);
        law_node_non_membership(nodes.drop_last(), pairs.drop_last(), max_depth, key);
        assert(node_inserted(nodes[n - 1], nodes[n], pairs[n - 1].0, pairs[n - 1].1, max_depth));
        assert(sha256_of(pairs[n - 1].0) != sha256_of(key));
    } else {
        assert(lookup(nodes[0], sha256_of(key)) is None);
    }
}

proof fn lemma_stored_after_absent(pairs: Seq<(Seq<u8>, Seq<u8>)>, d: Seq<u8>)
    requires
        forall|i: int| 0 <= i < pairs.len() ==> sha256_of(#[trigger] pairs[i].0) != d,
    ensures
        stored_after(pairs, d) is None,
    decreases pairs.len(),
{
    if pairs.len() > 0 {
        assert(sha256_of(pairs[pairs.len() - 1].0) != d);
        assert forall|i: int| 0 <= i < pairs.len() - 1 implies sha256_of(#[trigger] pairs.drop_last()[i].0) != d by {
            assert(pairs.drop_last()[i] == pairs[i]);
        }
        lemma_stored_after_absent(pairs.drop_last(), d);
    }
}

/// With consistent pairs, any pair whose key has digest `d` gives the value.
proof fn lemma_stored_after_present(pairs: Seq<(Seq<u8>, Seq<u8>)>, d: Seq<u8>, i: int)
    requires
        consistent_pairs(pairs),
        0 <= i < pairs.len(),
        sha256_of(pairs[i].0) == d,
    ensures
        stored_after(pairs, d) == Some(pairs[i].1),
    decreases pairs.len(),
{
    let n = pairs.len() as int;
    if sha256_of(pairs[n - 1].0) == d {
        assert(pairs[n - 1].1 == pairs[i].1);
    } else {
        assert(i < n - 1);
        assert(pairs.drop_last()[i] == pairs[i]);
        assert(consistent_pairs(pairs.drop_last())) by {
            assert forall|a: int, b: int|
                0 <= a < n - 1 && 0 <= b < n - 1 && sha256_of(#[trigger] pairs.drop_last()[a].0) == sha256_of(
                    #[trigger] pairs.drop_last()[b].0,
                ) implies pairs.drop_last()[a].1 == pairs.drop_last()[b].1 by {
                assert(pairs.drop_last()[a] == pairs[a]);
                assert(pairs.drop_last()[b] == pairs[b]);
            }
        }
        lemma_stored_after_present(pairs.drop_last(), d, i);
    }
}

/// Storing the same set of pairs in any order, with repeats, gives the same
/// contents, when pairs whose keys share a digest carry the same value.
pub proof fn law_order_independent(a: Seq<(Seq<u8>, Seq<u8>)>, b: Seq<(Seq<u8>, Seq<u8>)>)
    requires
        consistent_pairs(a),
        consistent_pairs(b),
        a.to_set() == b.to_set(),
    ensures
        forall|d: Seq<u8>| #[trigger] stored_after(a, d) == stored_after(b, d),
{
    assert forall|d: Seq<u8>| #[trigger] stored_after(a, d) == stored_after(b, d) by {
        if exists|i: int| 0 <= i < a.len() && sha256_of(a[i].0) == d {
            let i = choose|i: int| 0 <= i < a.len() && sha256_of(a[i].0) == d;
            assert(a.to_set().contains(a[i]));
            assert(b.to_set().contains(a[i]));
            let j = choose|j: int| 0 <= j < b.len() && b[j] == a[i];
            lemma_stored_after_present(a, d, i);
            lemma_stored_after_present(b, d, j);
        } else if exists|j: int| 0 <= j < b.len() && sha256_of(b[j].0) == d {
            let j = choose|j: int| 0 <= j < b.len() && sha256_of(b[j].0) == d;
            assert(b.to_set().contains(b[j]));
            assert(a.to_set().contains(b[j]));
            let i = choose|i: int| 0 <= i < a.len() && a[i] == b[j];
            assert(sha256_of(a[i].0) == d);
        } else {
            lemma_stored_after_absent(a, d);
            lemma_stored_after_absent(b, d);
        }
    }
}

/// Two tries made with the same committer key and depth, that store the same set
/// of pairs in different orders and are then committed, hold the same root
/// commitment, when pairs whose keys share a digest carry the same value.
pub proof fn law_commitment_determinism(
    trees_a: Seq<VerkleTree>,
    pairs_a: Seq<(Seq<u8>, Seq<u8>)>,
    trees_b: Seq<VerkleTree>,
    pairs_b: Seq<(Seq<u8>, Seq<u8>)>,
    committed_a: VerkleTree,
    committed_b: VerkleTree,
)
    requires
        insertion_run(trees_a, pairs_a),
        insertion_run(trees_b, pairs_b),
        trees_a[0].keys_spec() == trees_b[0].keys_spec(),
        trees_a[0].max_depth_spec() == trees_b[0].max_depth_spec(),
        consistent_pairs(pairs_a),
        consistent_pairs(pairs_b),
        pairs_a.to_set() == pairs_b.to_set(),
        VerkleTree::recommitted(trees_a.last(), committed_a, true),
        VerkleTree::recommitted(trees_b.last(), committed_b, true),
    ensures
        committed_a.root_commitment_spec() is Some,
        committed_a.root_commitment_spec() == committed_b.root_commitment_spec(),
{
    law_contents_after_insertions(trees_a, pairs_a);
    law_contents_after_insertions(trees_b, pairs_b);
    law_order_independent(pairs_a, pairs_b);
    assert forall|d: Seq<u8>| #[trigger] committed_a.value_at(d) == committed_b.value_at(d) by {
        assert(trees_a.last().value_at(d) == stored_after(pairs_a, d));
        assert(trees_b.last().value_at(d) == stored_after(pairs_b, d));
    }
    crate::tree::law_same_contents_same_root(committed_a, committed_b);
}

/// Storing a pair under a key that had no value changes what the trie stores, and
/// leaves the root without a commitment until the next commitment pass.
pub proof fn law_new_pair_changes_contents(before: VerkleTree, after: VerkleTree, key: Seq<u8>, value: Seq<u8>)
    requires
        VerkleTree::inserted(before, after, key, value),
        before.value_at(sha256_of(key)) is None,
    ensures
        after.value_at(sha256_of(key)) != before.value_at(sha256_of(key)),
        after.root_commitment_spec() is None,
{
}

/// Computing the commitments twice, with no insertion in between, gives the same
/// root commitment.
pub proof fn law_recommit_idempotent(t0: VerkleTree, t1: VerkleTree, t2: VerkleTree)
    requires
        VerkleTree::recommitted(t0, t1, true),
        VerkleTree::recommitted(t1, t2, true),
    ensures
        t1.root_commitment_spec() is Some,
        t2.root_commitment_spec() == t1.root_commitment_spec(),
{
    crate::tree::law_same_contents_same_root(t1, t2);
}

/// A proof accepted against `root` is refused against any other root.
pub proof fn law_wrong_root_rejected(ck: Seq<u8>, p: PathProof, root: Seq<u8>, other: Seq<u8>)
    requires
        accepts(ck, p, root),
        other != root,
    ensures
        !accepts(ck, p, other),
{
}

/// Changing the commitment of one level of an accepted proof, and nothing of that
/// level's fingerprints, makes the proof refused.
pub proof fn law_tampered_commitment_rejected(ck: Seq<u8>, p: PathProof, q: PathProof, root: Seq<u8>, i: int)
    requires
        accepts(ck, p, root),
        q.path@.len() == p.path@.len(),
        0 <= i < p.path@.len(),
        q.path@[i].fingerprints@ == p.path@[i].fingerprints@,
        opt_bytes(q.path@[i].commitment) != opt_bytes(p.path@[i].commitment),
    ensures
        !accepts(ck, q, root),
{
    lemma_chain_levels_ok(ck, p.path@, p.key@, 0, p.value@, i);
    if accepts(ck, q, root) {
        lemma_chain_levels_ok(ck, q.path@, q.key@, 0, q.value@, i);
        assert(level_ok(ck, q.path@[i]));
    }
}

} // verus!
