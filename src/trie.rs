//! The trie: nodes, lookup and insertion along the digest of a key.
//!
//! A key is stored under its SHA-256 digest. With `levels` the effective depth of
//! the trie (at most the digest length), the node reached by the first `d` bytes
//! of a digest sits at depth `d`; nodes above depth `levels` hold internal
//! children keyed by one selector byte, in increasing order, and the nodes at
//! depth `levels` hold the leaves, in increasing order of their digests.
use crate::hashing::{hash, sha256_of, DIGEST_LEN};
use vstd::prelude::*;

verus! {

broadcast use vstd::std_specs::vec::group_vec_axioms, vstd::seq::group_seq_axioms;

/// A stored pair: the digest of its key, and its value.
pub struct LeafNode {
    pub key: Vec<u8>,
    pub value: Vec<u8>,
}

/// An internal node: the selector byte that leads to it (empty at the root), its
/// children, its commitment once computed, the branching factor it was made for,
/// and its depth.
pub struct Node {
    pub key: Vec<u8>,
    pub children: Vec<Entry>,
    pub commitment: Option<Vec<u8>>,
    pub max_children: usize,
    pub depth: usize,
}

/// A child of a node.
pub enum Entry {
    InternalNode(Node),
    Leaf(LeafNode),
}

/// `after` is the well-formed root `before` with `value` stored under the digest of
/// `key`, every other value kept, and its commitments left as they were.
pub open spec fn node_inserted(before: Node, after: Node, key: Seq<u8>, value: Seq<u8>, max_depth: nat) -> bool {
    &&& wf_node(after, Seq::empty(), levels_for(max_depth))
    &&& lookup(after, sha256_of(key)) == Some(value)
    &&& forall|d: Seq<u8>| d != sha256_of(key) ==> #[trigger] lookup(after, d) == lookup(before, d)
    &&& commitments_kept(before, after)
}

/// The number of levels of a trie made with `max_depth`: paths are cut at the
/// digest length.
pub open spec fn levels_for(max_depth: nat) -> nat {
    if max_depth < DIGEST_LEN {
        max_depth
    } else {
        DIGEST_LEN as nat
    }
}

/// Whether `e` is the child to follow, at depth `depth`, for the digest `d`.
pub open spec fn entry_matches(e: Entry, d: Seq<u8>, depth: nat) -> bool {
    match e {
        Entry::InternalNode(c) => c.key@.len() == 1 && depth < d.len() && c.key@[0] == d[depth as int],
        Entry::Leaf(l) => l.key@ == d,
    }
}

/// `i` is the first child of `s` to follow for `d`.
pub open spec fn is_first_match(s: Seq<Entry>, d: Seq<u8>, depth: nat, i: int) -> bool {
    &&& 0 <= i < s.len()
    &&& entry_matches(s[i], d, depth)
    &&& forall|j: int| 0 <= j < i ==> !entry_matches(#[trigger] s[j], d, depth)
}

/// The value stored below `n` under the digest `d`: follow the first matching child
/// at each level, down to a leaf that holds `d`.
pub open spec fn lookup(n: Node, d: Seq<u8>) -> Option<Seq<u8>>
    decreases n,
{
    if exists|i: int| is_first_match(n.children@, d, n.depth as nat, i) {
        let i = choose|i: int| is_first_match(n.children@, d, n.depth as nat, i);
        match n.children@[i] {
            Entry::InternalNode(c) => lookup(c, d),
            Entry::Leaf(l) => Some(l.value@),
        }
    } else {
        None
    }
}

/// The value stored below the child `e` under `d`, once `e` is the child to follow.
pub open spec fn entry_lookup(e: Entry, d: Seq<u8>) -> Option<Seq<u8>> {
    match e {
        Entry::InternalNode(c) => lookup(c, d),
        Entry::Leaf(l) => Some(l.value@),
    }
}

/// Digest order: `a` comes before `b` at their first differing byte.
pub open spec fn digest_lt(a: Seq<u8>, b: Seq<u8>) -> bool {
    exists|k: int|
        0 <= k < a.len() && k < b.len() && #[trigger] a[k] < b[k] && forall|j: int|
            0 <= j < k ==> a[j] == b[j]
}

/// The key that a node reached by `prefix` carries: its last selector byte.
pub open spec fn node_key_for(prefix: Seq<u8>) -> Seq<u8> {
    if prefix.len() == 0 {
        Seq::empty()
    } else {
        seq![prefix.last()]
    }
}

/// The selector byte of an internal child.
pub open spec fn selector(e: Entry) -> u8 {
    e->InternalNode_0.key@[0]
}

/// The digest held by a leaf child.
pub open spec fn leaf_digest(e: Entry) -> Seq<u8> {
    e->Leaf_0.key@
}

/// Well-formedness of the node reached by `prefix` in a trie of `levels` levels:
/// above the last level, internal children only, each well formed, holding at least
/// one value, in strictly increasing order of selector; at the last level, leaves
/// only, whose digests extend `prefix`, in strictly increasing digest order.
pub open spec fn wf_node(n: Node, prefix: Seq<u8>, levels: nat) -> bool
    decreases n,
{
    &&& n.depth == prefix.len()
    &&& prefix.len() <= levels <= DIGEST_LEN
    &&& n.key@ == node_key_for(prefix)
    &&& if prefix.len() < levels {
        &&& forall|i: int|
            0 <= i < n.children@.len() ==> {
                &&& (#[trigger] n.children@[i]) is InternalNode
                &&& wf_node(
                    n.children@[i]->InternalNode_0,
                    prefix.push(n.children@[i]->InternalNode_0.key@[0]),
                    levels,
                )
                &&& exists|d: Seq<u8>| (#[trigger] lookup(n.children@[i]->InternalNode_0, d)) is Some
            }
        &&& forall|i: int, j: int|
            0 <= i < j < n.children@.len() ==> selector(n.children@[i]) < selector(
                n.children@[j],
            )
    } else {
        &&& forall|i: int|
            0 <= i < n.children@.len() ==> {
                &&& (#[trigger] n.children@[i]) is Leaf
                &&& leaf_digest(n.children@[i]).len() == DIGEST_LEN
                &&& leaf_digest(n.children@[i]).subrange(0, levels as int) == prefix
            }
        &&& forall|i: int, j: int|
            0 <= i < j < n.children@.len() ==> digest_lt(
                leaf_digest(n.children@[i]),
                leaf_digest(n.children@[j]),
            )
    }
}

/// At most one child of `s` is to be followed for `d`.
pub open spec fn unique_match(s: Seq<Entry>, d: Seq<u8>, depth: nat) -> bool {
    forall|i: int, j: int|
        0 <= i < s.len() && 0 <= j < s.len() && entry_matches(#[trigger] s[i], d, depth)
            && entry_matches(#[trigger] s[j], d, depth) ==> i == j
}

/// Digest order is transitive.
pub proof fn lemma_digest_lt_trans(a: Seq<u8>, b: Seq<u8>, c: Seq<u8>)
    requires
        digest_lt(a, b),
        digest_lt(b, c),
    ensures
        digest_lt(a, c),
{
    let k1 = choose|k: int|
        0 <= k < a.len() && k < b.len() && #[trigger] a[k] < b[k] && forall|j: int|
            0 <= j < k ==> a[j] == b[j];
    let k2 = choose|k: int|
        0 <= k < b.len() && k < c.len() && #[trigger] b[k] < c[k] && forall|j: int|
            0 <= j < k ==> b[j] == c[j];
    let k = if k1 < k2 { k1 } else { k2 };
    assert(a[k] < c[k]);
}

/// Two distinct digests of one length are ordered one way or the other.
pub proof fn lemma_digest_lt_total(a: Seq<u8>, b: Seq<u8>)
    requires
        a.len() == b.len(),
        a != b,
    ensures
        digest_lt(a, b) || digest_lt(b, a),
{
    if forall|k: int| 0 <= k < a.len() ==> a[k] == b[k] {
        assert(a =~= b);
    }
    let k0 = choose|k: int| 0 <= k < a.len() && a[k] != b[k];
    lemma_first_difference(a, b, k0);
}

proof fn lemma_first_difference(a: Seq<u8>, b: Seq<u8>, k0: int)
    requires
        a.len() == b.len(),
        0 <= k0 < a.len(),
        a[k0] != b[k0],
    ensures
        digest_lt(a, b) || digest_lt(b, a),
    decreases k0,
{
    if exists|j: int| 0 <= j < k0 && a[j] != b[j] {
        let j = choose|j: int| 0 <= j < k0 && a[j] != b[j];
        lemma_first_difference(a, b, j);
    } else if a[k0] < b[k0] {
        assert(digest_lt(a, b));
    } else {
        assert(b[k0] < a[k0]);
        assert(digest_lt(b, a));
    }
}

/// In a well-formed node, at most one child is to be followed for any digest.
pub proof fn lemma_wf_unique(n: Node, prefix: Seq<u8>, levels: nat, d: Seq<u8>)
    requires
        wf_node(n, prefix, levels),
    ensures
        unique_match(n.children@, d, n.depth as nat),
{
    let s = n.children@;
    assert forall|i: int, j: int|
        0 <= i < s.len() && 0 <= j < s.len() && entry_matches(#[trigger] s[i], d, n.depth as nat)
            && entry_matches(#[trigger] s[j], d, n.depth as nat) implies i == j by {
        if i != j {
            let (lo, hi) = if i < j { (i, j) } else { (j, i) };
            if prefix.len() < levels {
                assert(selector(s[lo]) < selector(s[hi]));
            } else {
                assert(digest_lt(leaf_digest(s[lo]), leaf_digest(s[hi])));
                assert(!digest_lt(d, d));
            }
        }
    }
}

/// With at most one match, the match found is the one `lookup` follows.
pub proof fn lemma_lookup_unique(n: Node, d: Seq<u8>, i: int)
    requires
        unique_match(n.children@, d, n.depth as nat),
        0 <= i < n.children@.len(),
        entry_matches(n.children@[i], d, n.depth as nat),
    ensures
        lookup(n, d) == entry_lookup(n.children@[i], d),
{
    assert(is_first_match(n.children@, d, n.depth as nat, i));
    lemma_lookup_at(n, d, i);
}

/// With no match, `lookup` finds nothing.
pub proof fn lemma_lookup_none(n: Node, d: Seq<u8>)
    requires
        forall|i: int|
            0 <= i < n.children@.len() ==> !entry_matches(#[trigger] n.children@[i], d, n.depth as nat),
    ensures
        lookup(n, d) is None,
{
}

/// `nodes` are the nodes from `n` down to the one holding the leaf for `d`,
/// following the first matching child at each level.
pub open spec fn node_path(nodes: Seq<Node>, n: Node, d: Seq<u8>) -> bool
    decreases n,
{
    &&& nodes.len() >= 1
    &&& nodes[0] == n
    &&& exists|i: int| #[trigger] is_first_match(n.children@, d, n.depth as nat, i) && match n.children@[i] {
        Entry::InternalNode(c) => node_path(nodes.drop_first(), c, d),
        Entry::Leaf(_) => nodes.len() == 1,
    }
}

/// A value stored below a well-formed node lies under a full digest that extends
/// the node's prefix.
pub proof fn lemma_lookup_prefix(n: Node, prefix: Seq<u8>, levels: nat, d: Seq<u8>)
    requires
        wf_node(n, prefix, levels),
        lookup(n, d) is Some,
    ensures
        d.len() == DIGEST_LEN,
        prefix.len() <= d.len(),
        d.subrange(0, prefix.len() as int) == prefix,
    decreases n,
{
    let i = choose|i: int| is_first_match(n.children@, d, n.depth as nat, i);
    lemma_lookup_at(n, d, i);
    match n.children@[i] {
        Entry::InternalNode(c) => {
            if prefix.len() >= levels {
                assert(n.children@[i] is Leaf);
            }
            let cp = prefix.push(c.key@[0]);
            assert(wf_node(c, cp, levels));
            lemma_lookup_prefix(c, cp, levels, d);
            assert(d.subrange(0, prefix.len() as int) =~= d.subrange(0, cp.len() as int).drop_last());
            assert(cp.drop_last() =~= prefix);
        },
        Entry::Leaf(l) => {
            assert(leaf_digest(n.children@[i]) == d);
        },
    }
}

/// The number of leaves below `n` that hold the digest `d`.
pub open spec fn leaf_count(n: Node, d: Seq<u8>) -> nat
    decreases n, n.children@.len() + 1,
{
    leaf_count_upto(n, n.children@.len() as int, d)
}

/// The number of leaves holding `d` below the first `k` children of `n`.
pub open spec fn leaf_count_upto(n: Node, k: int, d: Seq<u8>) -> nat
    decreases n, k,
{
    if k <= 0 || k > n.children@.len() {
        0
    } else {
        leaf_count_upto(n, k - 1, d) + match n.children@[k - 1] {
            Entry::InternalNode(c) => leaf_count(c, d),
            Entry::Leaf(l) => if l.key@ == d {
                1nat
            } else {
                0nat
            },
        }
    }
}

/// The leaves holding `d` below one child: one when the child is followed for `d`
/// and stores a value under it, none otherwise.
pub open spec fn entry_count(e: Entry, d: Seq<u8>, depth: nat) -> nat {
    if entry_matches(e, d, depth) && entry_lookup(e, d) is Some {
        1
    } else {
        0
    }
}

/// A well-formed node holds exactly one leaf for a digest stored below it, and
/// none for any other digest.
pub proof fn lemma_leaf_count(n: Node, prefix: Seq<u8>, levels: nat, d: Seq<u8>)
    requires
        wf_node(n, prefix, levels),
    ensures
        leaf_count(n, d) == if lookup(n, d) is Some {
            1nat
        } else {
            0nat
        },
    decreases n, n.children@.len() + 1,
{
    lemma_wf_unique(n, prefix, levels, d);
    lemma_leaf_count_upto(n, prefix, levels, d, n.children@.len() as int);
    if exists|i: int| 0 <= i < n.children@.len() && entry_matches(n.children@[i], d, n.depth as nat) {
        let i = choose|i: int| 0 <= i < n.children@.len() && entry_matches(n.children@[i], d, n.depth as nat);
        lemma_lookup_unique(n, d, i);
    } else {
        lemma_lookup_none(n, d);
    }
}

/// Below the first `k` children, the count is that of the one child followed for
/// `d`, if it is among them.
proof fn lemma_leaf_count_upto(n: Node, prefix: Seq<u8>, levels: nat, d: Seq<u8>, k: int)
    requires
        wf_node(n, prefix, levels),
        unique_match(n.children@, d, n.depth as nat),
        0 <= k <= n.children@.len(),
    ensures
        leaf_count_upto(n, k, d) == if exists|i: int| 0 <= i < k && entry_matches(n.children@[i], d, n.depth as nat) {
            entry_count(n.children@[choose|i: int| 0 <= i < k && entry_matches(n.children@[i], d, n.depth as nat)], d, n.depth as nat)
        } else {
            0nat
        },
    decreases n, k,
{
    let depth = n.depth as nat;
    if k > 0 {
        lemma_leaf_count_upto(n, prefix, levels, d, k - 1);
        let e = n.children@[k - 1];
        match e {
            Entry::InternalNode(c) => {
                if prefix.len() >= levels {
                    assert(n.children@[k - 1] is Leaf);
                }
                let cp = prefix.push(c.key@[0]);
                assert(wf_node(c, cp, levels));
                lemma_leaf_count(c, cp, levels, d);
                if lookup(c, d) is Some {
                    lemma_lookup_prefix(c, cp, levels, d);
                    assert(d[depth as int] == d.subrange(0, depth as int + 1)[depth as int]);
                }
            },
            Entry::Leaf(l) => {},
        }
        if entry_matches(e, d, depth) {
            assert forall|i: int| 0 <= i < k - 1 implies !entry_matches(n.children@[i], d, depth) by {}
            let j = choose|i: int| 0 <= i < k && entry_matches(n.children@[i], d, depth);
            assert(j == k - 1);
        } else if exists|i: int| 0 <= i < k - 1 && entry_matches(n.children@[i], d, depth) {
            let j = choose|i: int| 0 <= i < k - 1 && entry_matches(n.children@[i], d, depth);
            let j2 = choose|i: int| 0 <= i < k && entry_matches(n.children@[i], d, depth);
            assert(j == j2);
        } else {
            assert(!exists|i: int| 0 <= i < k && entry_matches(n.children@[i], d, depth));
        }
    }
}

/// The abstract value of an optional byte string.
pub open spec fn opt_bytes(o: Option<Vec<u8>>) -> Option<Seq<u8>> {
    match o {
        Some(v) => Some(v@),
        None => None,
    }
}

/// Two first matches are the same child.
pub proof fn lemma_first_match_unique(s: Seq<Entry>, d: Seq<u8>, depth: nat, i: int, j: int)
    requires
        is_first_match(s, d, depth, i),
        is_first_match(s, d, depth, j),
    ensures
        i == j,
{
    if i < j {
        assert(!entry_matches(s[i], d, depth));
    } else if j < i {
        assert(!entry_matches(s[j], d, depth));
    }
}

/// What `lookup` gives when the first match is known.
pub proof fn lemma_lookup_at(n: Node, d: Seq<u8>, i: int)
    requires
        is_first_match(n.children@, d, n.depth as nat, i),
    ensures
        lookup(n, d) == entry_lookup(n.children@[i], d),
{
    let k = choose|k: int| is_first_match(n.children@, d, n.depth as nat, k);
    lemma_first_match_unique(n.children@, d, n.depth as nat, i, k);
}

/// Byte strings compared element by element.
pub fn same_bytes(a: &Vec<u8>, b: &Vec<u8>) -> (r: bool)
    ensures
        r == (a@ == b@),
{
    if a.len() != b.len() {
        return false;
    }
    let mut i: usize = 0;
    while i < a.len()
        invariant
            a@.len() == b@.len(),
            i <= a@.len(),
            forall|j: int| 0 <= j < i ==> a@[j] == b@[j],
        decreases a@.len() - i,
    {
        if a[i] != b[i] {
            return false;
        }
        i = i + 1;
    }
    assert(a@ =~= b@);
    true
}

/// Whether the child `e` is the one to follow at depth `depth` for the digest `d`.
pub fn entry_matches_digest(e: &Entry, d: &Vec<u8>, depth: usize) -> (r: bool)
    ensures
        r == entry_matches(*e, d@, depth as nat),
{
    match e {
        Entry::InternalNode(c) => c.key.len() == 1 && depth < d.len() && c.key[0] == d[depth],
        Entry::Leaf(l) => same_bytes(&l.key, d),
    }
}

/// Two nodes with the same depth, key and children store the same values and are
/// well formed alike.
pub proof fn lemma_same_shape(a: Node, b: Node)
    requires
        a.depth == b.depth,
        a.key == b.key,
        a.children == b.children,
    ensures
        forall|d: Seq<u8>| lookup(a, d) == lookup(b, d),
        forall|p: Seq<u8>, l: nat| wf_node(a, p, l) == wf_node(b, p, l),
{
    assert forall|d: Seq<u8>| lookup(a, d) == lookup(b, d) by {
        reveal_with_fuel(lookup, 1);
    }
    assert forall|p: Seq<u8>, l: nat| wf_node(a, p, l) == wf_node(b, p, l) by {
        reveal_with_fuel(wf_node, 1);
    }
}

/// In a node above the last level, the children from `i` on have selectors at
/// least that of child `i`.
proof fn lemma_children_sorted_from(n: Node, prefix: Seq<u8>, levels: nat, i: int)
    requires
        wf_node(n, prefix, levels),
        prefix.len() < levels,
        0 <= i < n.children@.len(),
    ensures
        forall|j: int| i < j < n.children@.len() ==> selector(n.children@[i]) < selector(#[trigger] n.children@[j]),
        n.children@[i] is InternalNode,
        n.children@[i]->InternalNode_0.key@.len() == 1,
{
    let c = n.children@[i]->InternalNode_0;
    assert(wf_node(c, prefix.push(c.key@[0]), levels));
}

/// Above the last level, every child is internal and keyed by one byte.
proof fn lemma_internal_children(n: Node, prefix: Seq<u8>, levels: nat)
    requires
        wf_node(n, prefix, levels),
        prefix.len() < levels,
    ensures
        forall|j: int|
            0 <= j < n.children@.len() ==> (#[trigger] n.children@[j]) is InternalNode
                && n.children@[j]->InternalNode_0.key@.len() == 1,
{
    assert forall|j: int| 0 <= j < n.children@.len() implies (#[trigger] n.children@[j]) is InternalNode
        && n.children@[j]->InternalNode_0.key@.len() == 1 by {
        lemma_children_sorted_from(n, prefix, levels, j);
    }
}

/// Replacing child `i` by an entry that `d` does not follow, where `d` did not
/// follow the old one, leaves the value under `d` as it was.
proof fn lemma_lookup_replace(n: Node, n2: Node, i: int, e2: Entry, d: Seq<u8>)
    requires
        n2.depth == n.depth,
        0 <= i < n.children@.len(),
        n2.children@ == n.children@.update(i, e2),
        unique_match(n.children@, d, n.depth as nat),
        unique_match(n2.children@, d, n.depth as nat),
        !entry_matches(e2, d, n.depth as nat),
        !entry_matches(n.children@[i], d, n.depth as nat),
    ensures
        lookup(n2, d) == lookup(n, d),
{
    let depth = n.depth as nat;
    if exists|j: int| 0 <= j < n.children@.len() && entry_matches(n.children@[j], d, depth) {
        let j = choose|j: int| 0 <= j < n.children@.len() && entry_matches(n.children@[j], d, depth);
        assert(n2.children@[j] == n.children@[j]);
        lemma_lookup_unique(n, d, j);
        lemma_lookup_unique(n2, d, j);
    } else {
        assert forall|j: int| 0 <= j < n2.children@.len() implies !entry_matches(
            #[trigger] n2.children@[j],
            d,
            depth,
        ) by {
            if j != i {
                assert(n2.children@[j] == n.children@[j]);
            }
        }
        lemma_lookup_none(n, d);
        lemma_lookup_none(n2, d);
    }
}

/// Adding at `i` a child that `d` does not follow leaves the value under `d` as it was.
proof fn lemma_lookup_insert(n: Node, n2: Node, i: int, e2: Entry, d: Seq<u8>)
    requires
        n2.depth == n.depth,
        0 <= i <= n.children@.len(),
        n2.children@ == n.children@.insert(i, e2),
        unique_match(n.children@, d, n.depth as nat),
        unique_match(n2.children@, d, n.depth as nat),
        !entry_matches(e2, d, n.depth as nat),
    ensures
        lookup(n2, d) == lookup(n, d),
{
    let depth = n.depth as nat;
    if exists|j: int| 0 <= j < n.children@.len() && entry_matches(n.children@[j], d, depth) {
        let j = choose|j: int| 0 <= j < n.children@.len() && entry_matches(n.children@[j], d, depth);
        let j2 = if j < i { j } else { j + 1 };
        assert(n2.children@[j2] == n.children@[j]);
        lemma_lookup_unique(n, d, j);
        lemma_lookup_unique(n2, d, j2);
    } else {
        assert forall|j: int| 0 <= j < n2.children@.len() implies !entry_matches(
            #[trigger] n2.children@[j],
            d,
            depth,
        ) by {
            if j < i {
                assert(n2.children@[j] == n.children@[j]);
            } else if j > i {
                assert(n2.children@[j] == n.children@[j - 1]);
            }
        }
        lemma_lookup_none(n, d);
        lemma_lookup_none(n2, d);
    }
}

/// The step of insertion that descends into an existing child.
proof fn lemma_after_replace(
    n: Node,
    n2: Node,
    prefix: Seq<u8>,
    levels: nat,
    i: int,
    old_c: Node,
    c: Node,
    digest: Seq<u8>,
    value: Seq<u8>,
)
    requires
        wf_node(n, prefix, levels),
        prefix.len() < levels,
        digest.len() == DIGEST_LEN,
        prefix == digest.subrange(0, prefix.len() as int),
        n2.depth == n.depth,
        n2.key == n.key,
        0 <= i < n.children@.len(),
        n.children@[i] == Entry::InternalNode(old_c),
        n2.children@ == n.children@.remove(i).insert(i, Entry::InternalNode(c)),
        old_c.key@ == seq![digest[prefix.len() as int]],
        wf_node(c, digest.subrange(0, prefix.len() as int + 1), levels),
        lookup(c, digest) == Some(value),
        forall|d: Seq<u8>| d != digest ==> lookup(c, d) == lookup(old_c, d),
    ensures
        wf_node(n2, prefix, levels),
        lookup(n2, digest) == Some(value),
        forall|d: Seq<u8>| d != digest ==> lookup(n2, d) == lookup(n, d),
{
    let depth = prefix.len() as int;
    let b = digest[depth];
    let e2 = Entry::InternalNode(c);
    assert(n2.children@ =~= n.children@.update(i, e2));
    assert(digest.subrange(0, depth + 1) =~= prefix.push(b));
    assert(c.key@ == seq![b]);
    assert(lookup(c, digest) is Some);
    assert forall|j: int| 0 <= j < n2.children@.len() implies {
        &&& (#[trigger] n2.children@[j]) is InternalNode
        &&& wf_node(
            n2.children@[j]->InternalNode_0,
            prefix.push(n2.children@[j]->InternalNode_0.key@[0]),
            levels,
        )
        &&& exists|d: Seq<u8>| (#[trigger] lookup(n2.children@[j]->InternalNode_0, d)) is Some
    } by {
        if j != i {
            assert(n2.children@[j] == n.children@[j]);
        }
    }
    assert forall|j: int, k: int| 0 <= j < k < n2.children@.len() implies selector(n2.children@[j]) < selector(
        n2.children@[k],
    ) by {
        assert(selector(n.children@[j]) < selector(n.children@[k]));
    }
    assert(wf_node(n2, prefix, levels));
    lemma_wf_unique(n2, prefix, levels, digest);
    lemma_lookup_unique(n2, digest, i);
    assert forall|d: Seq<u8>| d != digest implies lookup(n2, d) == lookup(n, d) by {
        lemma_wf_unique(n2, prefix, levels, d);
        lemma_wf_unique(n, prefix, levels, d);
        if entry_matches(e2, d, n.depth as nat) {
            lemma_lookup_unique(n2, d, i);
            lemma_lookup_unique(n, d, i);
        } else {
            lemma_lookup_replace(n, n2, i, e2, d);
        }
    }
}

/// The step of insertion that adds a new child and descends into it.
proof fn lemma_after_add(
    n: Node,
    n2: Node,
    prefix: Seq<u8>,
    levels: nat,
    i: int,
    empty_c: Node,
    c: Node,
    digest: Seq<u8>,
    value: Seq<u8>,
)
    requires
        wf_node(n, prefix, levels),
        prefix.len() < levels,
        digest.len() == DIGEST_LEN,
        prefix == digest.subrange(0, prefix.len() as int),
        n2.depth == n.depth,
        n2.key == n.key,
        0 <= i <= n.children@.len(),
        forall|j: int| 0 <= j < i ==> selector(#[trigger] n.children@[j]) < digest[prefix.len() as int],
        i < n.children@.len() ==> selector(n.children@[i]) > digest[prefix.len() as int],
        forall|j: int| i < j < n.children@.len() ==> selector(n.children@[i]) < selector(#[trigger] n.children@[j]),
        n2.children@ == n.children@.insert(i, Entry::InternalNode(c)),
        empty_c.children@.len() == 0,
        empty_c.depth == c.depth,
        wf_node(c, digest.subrange(0, prefix.len() as int + 1), levels),
        lookup(c, digest) == Some(value),
        forall|d: Seq<u8>| d != digest ==> lookup(c, d) == lookup(empty_c, d),
    ensures
        wf_node(n2, prefix, levels),
        lookup(n2, digest) == Some(value),
        forall|d: Seq<u8>| d != digest ==> lookup(n2, d) == lookup(n, d),
{
    let depth = prefix.len() as int;
    let b = digest[depth];
    let e2 = Entry::InternalNode(c);
    assert(digest.subrange(0, depth + 1) =~= prefix.push(b));
    assert(c.key@ == seq![b]);
    assert(lookup(c, digest) is Some);
    assert forall|j: int| 0 <= j < n2.children@.len() implies {
        &&& (#[trigger] n2.children@[j]) is InternalNode
        &&& wf_node(
            n2.children@[j]->InternalNode_0,
            prefix.push(n2.children@[j]->InternalNode_0.key@[0]),
            levels,
        )
        &&& exists|d: Seq<u8>| (#[trigger] lookup(n2.children@[j]->InternalNode_0, d)) is Some
    } by {
        if j < i {
            assert(n2.children@[j] == n.children@[j]);
        } else if j > i {
            assert(n2.children@[j] == n.children@[j - 1]);
        }
    }
    assert forall|j: int| 0 <= j < n.children@.len() implies selector(#[trigger] n.children@[j]) != b by {
        if j > i {
            assert(selector(n.children@[i]) < selector(n.children@[j]));
        }
    }
    assert forall|j: int, k: int| 0 <= j < k < n2.children@.len() implies selector(n2.children@[j]) < selector(
        n2.children@[k],
    ) by {
        if k < i {
            assert(selector(n.children@[j]) < selector(n.children@[k]));
        } else if k == i {
            assert(n2.children@[j] == n.children@[j]);
        } else if j < i {
            assert(n2.children@[j] == n.children@[j]);
            assert(n2.children@[k] == n.children@[k - 1]);
            if k - 1 > i {
                assert(selector(n.children@[i]) < selector(n.children@[k - 1]));
            }
        } else if j == i {
            assert(n2.children@[k] == n.children@[k - 1]);
            if k - 1 > i {
                assert(selector(n.children@[i]) < selector(n.children@[k - 1]));
            }
        } else {
            assert(selector(n.children@[j - 1]) < selector(n.children@[k - 1]));
        }
    }
    assert(wf_node(n2, prefix, levels));
    lemma_wf_unique(n2, prefix, levels, digest);
    lemma_lookup_unique(n2, digest, i);
    assert forall|d: Seq<u8>| d != digest implies lookup(n2, d) == lookup(n, d) by {
        lemma_wf_unique(n2, prefix, levels, d);
        lemma_wf_unique(n, prefix, levels, d);
        if entry_matches(e2, d, n.depth as nat) {
            lemma_lookup_unique(n2, d, i);
            lemma_lookup_none(empty_c, d);
            assert forall|j: int| 0 <= j < n.children@.len() implies !entry_matches(
                #[trigger] n.children@[j],
                d,
                n.depth as nat,
            ) by {
                assert(selector(n.children@[j]) != b);
            }
            lemma_lookup_none(n, d);
        } else {
            lemma_lookup_insert(n, n2, i, e2, d);
        }
    }
}

/// The step of insertion that overwrites the value of an existing leaf.
proof fn lemma_after_leaf_set(
    n: Node,
    n2: Node,
    prefix: Seq<u8>,
    levels: nat,
    i: int,
    digest: Seq<u8>,
    value: Seq<u8>,
)
    requires
        wf_node(n, prefix, levels),
        prefix.len() >= levels,
        digest.len() == DIGEST_LEN,
        prefix == digest.subrange(0, prefix.len() as int),
        n2.depth == n.depth,
        n2.key == n.key,
        0 <= i < n.children@.len(),
        leaf_digest(n.children@[i]) == digest,
        n2.children@ == n.children@.update(i, Entry::Leaf(LeafNode { key: n2.children@[i]->Leaf_0.key, value: n2.children@[i]->Leaf_0.value })),
        n2.children@[i] is Leaf,
        n2.children@[i]->Leaf_0.key@ == digest,
        n2.children@[i]->Leaf_0.value@ == value,
    ensures
        wf_node(n2, prefix, levels),
        lookup(n2, digest) == Some(value),
        forall|d: Seq<u8>| d != digest ==> lookup(n2, d) == lookup(n, d),
{
    let e2 = n2.children@[i];
    assert forall|j: int| 0 <= j < n2.children@.len() implies leaf_digest(#[trigger] n2.children@[j])
        == leaf_digest(n.children@[j]) by {
    }
    assert(wf_node(n2, prefix, levels));
    lemma_wf_unique(n2, prefix, levels, digest);
    lemma_lookup_unique(n2, digest, i);
    assert forall|d: Seq<u8>| d != digest implies lookup(n2, d) == lookup(n, d) by {
        lemma_wf_unique(n2, prefix, levels, d);
        lemma_wf_unique(n, prefix, levels, d);
        lemma_lookup_replace(n, n2, i, e2, d);
    }
}

/// The step of insertion that adds a new leaf.
proof fn lemma_after_leaf_add(
    n: Node,
    n2: Node,
    prefix: Seq<u8>,
    levels: nat,
    i: int,
    digest: Seq<u8>,
    value: Seq<u8>,
)
    requires
        wf_node(n, prefix, levels),
        prefix.len() >= levels,
        digest.len() == DIGEST_LEN,
        prefix == digest.subrange(0, prefix.len() as int),
        n2.depth == n.depth,
        n2.key == n.key,
        0 <= i <= n.children@.len(),
        forall|j: int| 0 <= j < i ==> digest_lt(leaf_digest(#[trigger] n.children@[j]), digest),
        i < n.children@.len() ==> !digest_lt(leaf_digest(n.children@[i]), digest),
        i < n.children@.len() ==> leaf_digest(n.children@[i]) != digest,
        n2.children@ == n.children@.insert(i, n2.children@[i]),
        n2.children@[i] is Leaf,
        n2.children@[i]->Leaf_0.key@ == digest,
        n2.children@[i]->Leaf_0.value@ == value,
    ensures
        wf_node(n2, prefix, levels),
        lookup(n2, digest) == Some(value),
        forall|d: Seq<u8>| d != digest ==> lookup(n2, d) == lookup(n, d),
{
    let e2 = n2.children@[i];
    if i < n.children@.len() {
        lemma_digest_lt_total(leaf_digest(n.children@[i]), digest);
    }
    assert forall|j: int, k: int| 0 <= j < k < n2.children@.len() implies digest_lt(
        leaf_digest(n2.children@[j]),
        leaf_digest(n2.children@[k]),
    ) by {
        if k < i {
            assert(digest_lt(leaf_digest(n.children@[j]), leaf_digest(n.children@[k])));
        } else if k == i {
            assert(n2.children@[j] == n.children@[j]);
        } else if j < i {
            assert(n2.children@[j] == n.children@[j]);
            assert(n2.children@[k] == n.children@[k - 1]);
            if k - 1 > i {
                assert(digest_lt(leaf_digest(n.children@[i]), leaf_digest(n.children@[k - 1])));
                lemma_digest_lt_trans(digest, leaf_digest(n.children@[i]), leaf_digest(n.children@[k - 1]));
            }
            lemma_digest_lt_trans(leaf_digest(n.children@[j]), digest, leaf_digest(n.children@[k - 1]));
        } else if j == i {
            assert(n2.children@[k] == n.children@[k - 1]);
            if k - 1 > i {
                assert(digest_lt(leaf_digest(n.children@[i]), leaf_digest(n.children@[k - 1])));
                lemma_digest_lt_trans(digest, leaf_digest(n.children@[i]), leaf_digest(n.children@[k - 1]));
            }
        } else {
            assert(digest_lt(leaf_digest(n.children@[j - 1]), leaf_digest(n.children@[k - 1])));
        }
    }
    assert forall|j: int| 0 <= j < n2.children@.len() implies {
        &&& (#[trigger] n2.children@[j]) is Leaf
        &&& leaf_digest(n2.children@[j]).len() == DIGEST_LEN
        &&& leaf_digest(n2.children@[j]).subrange(0, levels as int) == prefix
    } by {
        if j < i {
            assert(n2.children@[j] == n.children@[j]);
        } else if j > i {
            assert(n2.children@[j] == n.children@[j - 1]);
        }
    }
    assert(wf_node(n2, prefix, levels));
    lemma_wf_unique(n2, prefix, levels, digest);
    lemma_lookup_unique(n2, digest, i);
    assert forall|d: Seq<u8>| d != digest implies lookup(n2, d) == lookup(n, d) by {
        lemma_wf_unique(n2, prefix, levels, d);
        lemma_wf_unique(n, prefix, levels, d);
        lemma_lookup_insert(n, n2, i, e2, d);
    }
}

/// No internal node of the subtree holds a commitment.
pub open spec fn uncommitted(n: Node) -> bool
    decreases n,
{
    &&& n.commitment is None
    &&& forall|i: int|
        0 <= i < n.children@.len() && (#[trigger] n.children@[i]) is InternalNode ==> uncommitted(
            n.children@[i]->InternalNode_0,
        )
}

/// `a` has an internal child keyed `key`.
pub open spec fn has_child_keyed(a: Node, key: Seq<u8>) -> bool {
    exists|j: int| 0 <= j < a.children@.len() && #[trigger] a.children@[j] is InternalNode && a.children@[j]->InternalNode_0.key@ == key
}

/// The internal child of `a` keyed `key`.
pub open spec fn child_keyed(a: Node, key: Seq<u8>) -> Node {
    a.children@[choose|j: int|
        0 <= j < a.children@.len() && #[trigger] a.children@[j] is InternalNode && a.children@[j]->InternalNode_0.key@ == key]->InternalNode_0
}

/// Every node of `b` holds the commitment of the node of `a` at the same place,
/// and the nodes of `b` that `a` lacks hold none.
pub open spec fn commitments_kept(a: Node, b: Node) -> bool
    decreases b,
{
    &&& b.commitment == a.commitment
    &&& forall|i: int|
        0 <= i < b.children@.len() && (#[trigger] b.children@[i]) is InternalNode ==> if has_child_keyed(
            a,
            b.children@[i]->InternalNode_0.key@,
        ) {
            commitments_kept(child_keyed(a, b.children@[i]->InternalNode_0.key@), b.children@[i]->InternalNode_0)
        } else {
            uncommitted(b.children@[i]->InternalNode_0)
        }
}

/// In a well-formed node, the child keyed like child `i` is child `i`.
proof fn lemma_child_keyed(n: Node, prefix: Seq<u8>, levels: nat, i: int)
    requires
        wf_node(n, prefix, levels),
        0 <= i < n.children@.len(),
        n.children@[i] is InternalNode,
    ensures
        has_child_keyed(n, n.children@[i]->InternalNode_0.key@),
        child_keyed(n, n.children@[i]->InternalNode_0.key@) == n.children@[i]->InternalNode_0,
{
    let key = n.children@[i]->InternalNode_0.key@;
    assert(n.children@[i] is InternalNode && n.children@[i]->InternalNode_0.key@ == key);
    let j = choose|j: int| 0 <= j < n.children@.len() && #[trigger] n.children@[j] is InternalNode && n.children@[j]->InternalNode_0.key@ == key;
    if prefix.len() >= levels {
        assert(n.children@[i] is Leaf);
    }
    lemma_internal_children(n, prefix, levels);
    if j != i {
        let (lo, hi) = if i < j { (i, j) } else { (j, i) };
        assert(selector(n.children@[lo]) < selector(n.children@[hi]));
    }
}

/// A well-formed node keeps its own commitments.
pub proof fn lemma_kept_refl(n: Node, prefix: Seq<u8>, levels: nat)
    requires
        wf_node(n, prefix, levels),
    ensures
        commitments_kept(n, n),
    decreases n,
{
    assert forall|i: int| 0 <= i < n.children@.len() && (#[trigger] n.children@[i]) is InternalNode implies commitments_kept(
        child_keyed(n, n.children@[i]->InternalNode_0.key@),
        n.children@[i]->InternalNode_0,
    ) && has_child_keyed(n, n.children@[i]->InternalNode_0.key@) by {
        lemma_child_keyed(n, prefix, levels, i);
        let c = n.children@[i]->InternalNode_0;
        if prefix.len() >= levels {
            assert(n.children@[i] is Leaf);
        }
        assert(wf_node(c, prefix.push(c.key@[0]), levels));
        lemma_kept_refl(c, prefix.push(c.key@[0]), levels);
    }
}

/// A node grown from an empty one without commitment holds no commitment.
proof fn lemma_uncommitted_from_empty(a: Node, b: Node)
    requires
        a.children@.len() == 0,
        a.commitment is None,
        commitments_kept(a, b),
    ensures
        uncommitted(b),
{
    assert forall|i: int| 0 <= i < b.children@.len() && (#[trigger] b.children@[i]) is InternalNode implies uncommitted(
        b.children@[i]->InternalNode_0,
    ) by {
        assert(!has_child_keyed(a, b.children@[i]->InternalNode_0.key@));
    }
}

/// At the last level there are no internal children: only the node's own
/// commitment counts.
proof fn lemma_kept_terminal(n: Node, n2: Node, prefix: Seq<u8>, levels: nat)
    requires
        n2.commitment == n.commitment,
        wf_node(n2, prefix, levels),
        prefix.len() >= levels,
    ensures
        commitments_kept(n, n2),
{
    assert forall|i: int| 0 <= i < n2.children@.len() implies !((#[trigger] n2.children@[i]) is InternalNode) by {}
}

proof fn lemma_kept_after_replace(n: Node, n2: Node, prefix: Seq<u8>, levels: nat, i: int, old_c: Node, c: Node)
    requires
        wf_node(n, prefix, levels),
        prefix.len() < levels,
        n2.commitment == n.commitment,
        0 <= i < n.children@.len(),
        n.children@[i] == Entry::InternalNode(old_c),
        n2.children@ == n.children@.remove(i).insert(i, Entry::InternalNode(c)),
        c.key@ == old_c.key@,
        commitments_kept(old_c, c),
    ensures
        commitments_kept(n, n2),
{
    assert(n2.children@ =~= n.children@.update(i, Entry::InternalNode(c)));
    assert forall|k: int| 0 <= k < n2.children@.len() && (#[trigger] n2.children@[k]) is InternalNode implies has_child_keyed(
        n,
        n2.children@[k]->InternalNode_0.key@,
    ) && commitments_kept(child_keyed(n, n2.children@[k]->InternalNode_0.key@), n2.children@[k]->InternalNode_0) by {
        lemma_child_keyed(n, prefix, levels, k);
        if k != i {
            let ck = n.children@[k]->InternalNode_0;
            assert(wf_node(ck, prefix.push(ck.key@[0]), levels));
            lemma_kept_refl(ck, prefix.push(ck.key@[0]), levels);
        }
    }
}

proof fn lemma_kept_after_add(n: Node, n2: Node, prefix: Seq<u8>, levels: nat, i: int, c: Node)
    requires
        wf_node(n, prefix, levels),
        wf_node(n2, prefix, levels),
        prefix.len() < levels,
        n2.commitment == n.commitment,
        0 <= i <= n.children@.len(),
        n2.children@ == n.children@.insert(i, Entry::InternalNode(c)),
        uncommitted(c),
    ensures
        commitments_kept(n, n2),
{
    assert forall|k: int| 0 <= k < n2.children@.len() && (#[trigger] n2.children@[k]) is InternalNode implies if has_child_keyed(
        n,
        n2.children@[k]->InternalNode_0.key@,
    ) {
        commitments_kept(child_keyed(n, n2.children@[k]->InternalNode_0.key@), n2.children@[k]->InternalNode_0)
    } else {
        uncommitted(n2.children@[k]->InternalNode_0)
    } by {
        if k == i {
            if has_child_keyed(n, c.key@) {
                let j = choose|j: int| 0 <= j < n.children@.len() && #[trigger] n.children@[j] is InternalNode && n.children@[j]->InternalNode_0.key@ == c.key@;
                let j2 = if j < i { j } else { j + 1 };
                assert(n2.children@[j2] == n.children@[j]);
                lemma_child_keyed(n2, prefix, levels, j2);
                lemma_child_keyed(n2, prefix, levels, i);
            }
        } else {
            let k0 = if k < i { k } else { k - 1 };
            assert(n2.children@[k] == n.children@[k0]);
            lemma_child_keyed(n, prefix, levels, k0);
            let ck = n.children@[k0]->InternalNode_0;
            assert(wf_node(ck, prefix.push(ck.key@[0]), levels));
            lemma_kept_refl(ck, prefix.push(ck.key@[0]), levels);
        }
    }
}

/// Whether the digest `a` comes before `b`.
pub fn digest_less(a: &Vec<u8>, b: &Vec<u8>) -> (r: bool)
    ensures
        r == digest_lt(a@, b@),
{
    let mut i: usize = 0;
    while i < a.len() && i < b.len()
        invariant
            i <= a@.len(),
            i <= b@.len(),
            forall|j: int| 0 <= j < i ==> a@[j] == b@[j],
        decreases a@.len() - i,
    {
        if a[i] != b[i] {
            let r = a[i] < b[i];
            proof {
                if r {
                    assert(a@[i as int] < b@[i as int]);
                } else {
                    assert forall|k: int|
                        0 <= k < a@.len() && k < b@.len() && #[trigger] a@[k] < b@[k] implies exists|j: int|
                        0 <= j < k && a@[j] != b@[j] by {
                        assert(k > i);
                    }
                }
            }
            return r;
        }
        i = i + 1;
    }
    false
}

/// The selector byte of an internal child.
fn child_selector(e: &Entry) -> (r: u8)
    requires
        e is InternalNode,
        e->InternalNode_0.key@.len() == 1,
    ensures
        r == selector(*e),
{
    match e {
        Entry::InternalNode(c) => c.key[0],
        Entry::Leaf(_) => 0,
    }
}

/// The digest held by a leaf child.
fn child_digest(e: &Entry) -> (r: &Vec<u8>)
    requires
        e is Leaf,
    ensures
        r@ == leaf_digest(*e),
{
    match e {
        Entry::InternalNode(c) => &c.key,
        Entry::Leaf(l) => &l.key,
    }
}

impl Node {
    /// A node with no children and no commitment.
    pub fn new(key: Vec<u8>, max_children: usize, depth: usize) -> (r: Node)
        ensures
            r.key@ == key@,
            r.children@.len() == 0,
            r.commitment is None,
            r.max_children == max_children,
            r.depth == depth,
    {
        Node { key, children: Vec::new(), commitment: None, max_children, depth }
    }

    /// The index of the first child to follow for the digest `d`, if any.
    pub fn find_child(&self, d: &Vec<u8>) -> (r: Option<usize>)
        ensures
            r matches Some(i) ==> is_first_match(self.children@, d@, self.depth as nat, i as int),
            r is None ==> forall|i: int|
                0 <= i < self.children@.len() ==> !entry_matches(#[trigger] self.children@[i], d@, self.depth as nat),
    {
        let mut i: usize = 0;
        while i < self.children.len()
            invariant
                i <= self.children@.len(),
                forall|j: int| 0 <= j < i ==> !entry_matches(#[trigger] self.children@[j], d@, self.depth as nat),
            decreases self.children@.len() - i,
        {
            if entry_matches_digest(&self.children[i], d, self.depth) {
                return Some(i);
            }
            i = i + 1;
        }
        None
    }

    /// The value stored below this node under the digest `d`.
    pub fn lookup_digest(&self, d: &Vec<u8>) -> (r: Option<Vec<u8>>)
        ensures
            opt_bytes(r) == lookup(*self, d@),
        decreases self,
    {
        match self.find_child(d) {
            None => None,
            Some(i) => {
                proof {
                    lemma_lookup_at(*self, d@, i as int);
                }
                match &self.children[i] {
                    Entry::InternalNode(c) => {
                        assert(decreases_to!(self.children => self.children@[i as int]));
                        c.lookup_digest(d)
                    },
                    Entry::Leaf(l) => Some(l.value.clone()),
                }
            },
        }
    }

    /// Stores `value` under `digest` below this node, replacing the value already
    /// stored under it, and forgets this node's commitment.
    pub fn insert_digest(&mut self, digest: &Vec<u8>, value: &Vec<u8>, levels: usize)
        requires
            digest@.len() == DIGEST_LEN,
            wf_node(*old(self), digest@.subrange(0, old(self).depth as int), levels as nat),
        ensures
            final(self).depth == old(self).depth,
            wf_node(*final(self), digest@.subrange(0, old(self).depth as int), levels as nat),
            lookup(*final(self), digest@) == Some(value@),
            forall|d: Seq<u8>| d != digest@ ==> lookup(*final(self), d) == lookup(*old(self), d),
            commitments_kept(*old(self), *final(self)),
        decreases levels - old(self).depth,
    {
        let ghost old_node = *self;
        let depth = self.depth;
        let ghost prefix = digest@.subrange(0, depth as int);
        if depth < levels {
            let b = digest[depth];
            proof {
                lemma_internal_children(*self, prefix, levels as nat);
            }
            let mut i: usize = 0;
            while i < self.children.len() && child_selector(&self.children[i]) < b
                invariant
                    *self == old_node,
                    wf_node(*self, prefix, levels as nat),
                    depth == self.depth,
                    depth < levels,
                    prefix.len() == depth,
                    forall|j: int|
                        0 <= j < self.children@.len() ==> (#[trigger] self.children@[j]) is InternalNode
                            && self.children@[j]->InternalNode_0.key@.len() == 1,
                    i <= self.children@.len(),
                    forall|j: int| 0 <= j < i ==> selector(#[trigger] self.children@[j]) < b,
                decreases self.children@.len() - i,
            {
                i = i + 1;
            }
            let ghost cprefix = digest@.subrange(0, depth + 1);
            assert(cprefix =~= prefix.push(b));
            if i < self.children.len() && child_selector(&self.children[i]) == b {
                proof {
                    lemma_children_sorted_from(old_node, prefix, levels as nat, i as int);
                }
                let e = self.children.remove(i);
                match e {
                    Entry::InternalNode(mut c) => {
                        let ghost old_c = c;
                        assert(old_node.children@[i as int] == Entry::InternalNode(c));
                        assert(wf_node(c, prefix.push(c.key@[0]), levels as nat));
                        assert(old_c.key@ == seq![b]);
                        assert(c.depth == depth + 1);
                        c.insert_digest(digest, value, levels);
                        self.children.insert(i, Entry::InternalNode(c));
                        proof {
                            lemma_kept_after_replace(old_node, *self, prefix, levels as nat, i as int, old_c, c);
                            lemma_after_replace(old_node, *self, prefix, levels as nat, i as int, old_c, c, digest@, value@);
                        }
                    },
                    Entry::Leaf(l) => {
                        // Above the last level every child is internal: this arm is never taken.
                        self.children.insert(i, Entry::Leaf(l));
                    },
                }
            } else {
                proof {
                    if i < self.children.len() {
                        lemma_children_sorted_from(old_node, prefix, levels as nat, i as int);
                    }
                }
                let mut k: Vec<u8> = Vec::new();
                k.push(b);
                let mut c = Node::new(k, self.max_children, depth + 1);
                assert(c.key@ =~= node_key_for(cprefix));
                let ghost empty_c = c;
                c.insert_digest(digest, value, levels);
                self.children.insert(i, Entry::InternalNode(c));
                proof {
                    lemma_uncommitted_from_empty(empty_c, c);
                    lemma_kept_after_add(old_node, *self, prefix, levels as nat, i as int, c);
                    lemma_after_add(old_node, *self, prefix, levels as nat, i as int, empty_c, c, digest@, value@);
                }
            }
        } else {
            let mut i: usize = 0;
            while i < self.children.len() && digest_less(child_digest(&self.children[i]), digest)
                invariant
                    *self == old_node,
                    wf_node(*self, prefix, levels as nat),
                    depth == self.depth,
                    depth >= levels,
                    i <= self.children@.len(),
                    forall|j: int| 0 <= j < i ==> digest_lt(leaf_digest(#[trigger] self.children@[j]), digest@),
                decreases self.children@.len() - i,
            {
                i = i + 1;
            }
            let leaf = LeafNode { key: digest.clone(), value: value.clone() };
            if i < self.children.len() && same_bytes(child_digest(&self.children[i]), digest) {
                self.children.set(i, Entry::Leaf(leaf));
                proof {
                    lemma_after_leaf_set(old_node, *self, prefix, levels as nat, i as int, digest@, value@);
                    lemma_kept_terminal(old_node, *self, prefix, levels as nat);
                }
            } else {
                self.children.insert(i, Entry::Leaf(leaf));
                proof {
                    lemma_after_leaf_add(old_node, *self, prefix, levels as nat, i as int, digest@, value@);
                    lemma_kept_terminal(old_node, *self, prefix, levels as nat);
                }
            }
        }
    }

    fn collect_nodes<'a>(&'a self, d: &Vec<u8>) -> (r: Option<Vec<&'a Node>>)
        ensures
            r is Some == lookup(*self, d@) is Some,
            r matches Some(v) ==> node_path(v@.map_values(|n: &Node| *n), *self, d@),
        decreases self,
    {
        match self.find_child(d) {
            None => None,
            Some(i) => {
                proof {
                    lemma_lookup_at(*self, d@, i as int);
                }
                match &self.children[i] {
                    Entry::InternalNode(c) => {
                        assert(decreases_to!(self.children => self.children@[i as int]));
                        match c.collect_nodes(d) {
                            Some(mut v) => {
                                let ghost below = v@;
                                v.insert(0, self);
                                proof {
                                    let s = v@.map_values(|n: &Node| *n);
                                    assert(s.drop_first() =~= below.map_values(|n: &Node| *n));
                                    assert(is_first_match(self.children@, d@, self.depth as nat, i as int));
                                }
                                Some(v)
                            },
                            None => None,
                        }
                    },
                    Entry::Leaf(_) => {
                        let mut v: Vec<&Node> = Vec::new();
                        v.push(self);
                        proof {
                            assert(v@.map_values(|n: &Node| *n) =~= seq![*self]);
                            assert(is_first_match(self.children@, d@, self.depth as nat, i as int));
                        }
                        Some(v)
                    },
                }
            },
        }
    }

    /// The nodes from this one down to the node that holds the leaf for `key`;
    /// empty when no value is stored under `key`.
    pub fn get_path(&self, key: &[u8]) -> (r: Vec<&Node>)
        ensures
            r@.len() > 0 <==> lookup(*self, sha256_of(key@)) is Some,
            r@.len() > 0 ==> node_path(r@.map_values(|n: &Node| *n), *self, sha256_of(key@)),
    {
        let d = hash(key);
        match self.collect_nodes(&d) {
            Some(path) => path,
            None => Vec::new(),
        }
    }

    /// Stores `value` under `key` in the trie rooted at this node, whose paths are
    /// cut at `max_depth` levels (or at the digest length, if shorter).
    pub fn insert(&mut self, key: Vec<u8>, value: Vec<u8>, max_depth: usize)
        requires
            wf_node(*old(self), Seq::empty(), levels_for(max_depth as nat)),
        ensures
            node_inserted(*old(self), *final(self), key@, value@, max_depth as nat),
    {
        let d = hash(&key);
        let levels = if max_depth < DIGEST_LEN {
            max_depth
        } else {
            DIGEST_LEN
        };
        assert(d@.subrange(0, 0) =~= Seq::<u8>::empty());
        self.insert_digest(&d, &value, levels);
    }

    /// The value stored below this node under `key`.
    pub fn get(&self, key: Vec<u8>) -> (r: Option<Vec<u8>>)
        ensures
            opt_bytes(r) == lookup(*self, sha256_of(key@)),
    {
        let d = hash(&key);
        self.lookup_digest(&d)
    }
}

} // verus!
