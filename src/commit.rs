//! Bottom-up commitment of a trie: each node commits to the fingerprints of its
//! children, in order.
use crate::hashing::{hash, sha256_of, DIGEST_LEN};
use crate::scheme::{bytes_seq, commit, commitment_of, CommitError, SchemeKeys};
use crate::trie::{
    digest_lt, entry_matches, is_first_match, lemma_digest_lt_trans, lemma_lookup_at, lemma_lookup_prefix,
    lemma_lookup_unique, lemma_wf_unique, lookup, selector, wf_node, Entry, Node,
};
use vstd::prelude::*;

verus! {

broadcast use vstd::std_specs::vec::group_vec_axioms, vstd::seq::group_seq_axioms;

/// The commitment bytes a node holds, or nothing.
pub open spec fn stored_commitment(n: Node) -> Seq<u8> {
    match n.commitment {
        Some(c) => c@,
        None => Seq::empty(),
    }
}

/// The fingerprint of a child: the digest of a leaf's key followed by the digest of
/// its value, or the digest of an internal node's key followed by its commitment.
pub open spec fn fingerprint(e: Entry) -> Seq<u8> {
    match e {
        Entry::Leaf(l) => sha256_of(l.key@ + sha256_of(l.value@)),
        Entry::InternalNode(c) => sha256_of(c.key@ + stored_commitment(c)),
    }
}

/// The fingerprints of a list of children.
pub open spec fn fingerprints(s: Seq<Entry>) -> Seq<Seq<u8>> {
    s.map_values(|e: Entry| fingerprint(e))
}

/// Every node of the subtree holds the commitment to its children's fingerprints.
pub open spec fn committed(n: Node, ck: Seq<u8>) -> bool
    decreases n,
{
    &&& n.commitment is Some
    &&& n.commitment->Some_0@ == commitment_of(ck, fingerprints(n.children@))
    &&& forall|i: int|
        0 <= i < n.children@.len() && (#[trigger] n.children@[i]) is InternalNode ==> committed(
            n.children@[i]->InternalNode_0,
            ck,
        )
}

/// No node of the subtree has more than `bound` children.
pub open spec fn fits(n: Node, bound: nat) -> bool
    decreases n,
{
    &&& n.children@.len() <= bound
    &&& forall|i: int|
        0 <= i < n.children@.len() && (#[trigger] n.children@[i]) is InternalNode ==> fits(
            n.children@[i]->InternalNode_0,
            bound,
        )
}

/// Two nodes that store the same values and are well formed alike; they may
/// differ in their commitments.
pub open spec fn same_content(a: Node, b: Node) -> bool {
    &&& a.depth == b.depth
    &&& a.key == b.key
    &&& a.children@.len() == b.children@.len()
    &&& forall|d: Seq<u8>| #[trigger] lookup(a, d) == lookup(b, d)
    &&& forall|p: Seq<u8>, l: nat| #[trigger] wf_node(a, p, l) ==> wf_node(b, p, l)
}

/// Children that are the same leaf, or internal nodes with the same content.
pub open spec fn same_entry(a: Entry, b: Entry) -> bool {
    match (a, b) {
        (Entry::Leaf(x), Entry::Leaf(y)) => x == y,
        (Entry::InternalNode(x), Entry::InternalNode(y)) => same_content(x, y),
        _ => false,
    }
}

/// Nodes whose children correspond one by one have the same content.
pub proof fn lemma_same_children(a: Node, b: Node)
    requires
        a.depth == b.depth,
        a.key == b.key,
        a.children@.len() == b.children@.len(),
        forall|i: int| 0 <= i < a.children@.len() ==> same_entry(#[trigger] a.children@[i], b.children@[i]),
    ensures
        same_content(a, b),
{
    let depth = a.depth as nat;
    assert forall|d: Seq<u8>| #[trigger] lookup(a, d) == lookup(b, d) by {
        assert forall|i: int| 0 <= i < a.children@.len() implies entry_matches(#[trigger] a.children@[i], d, depth)
            == entry_matches(b.children@[i], d, depth) by {
            assert(same_entry(a.children@[i], b.children@[i]));
        }
        if exists|i: int| is_first_match(a.children@, d, depth, i) {
            let i = choose|i: int| is_first_match(a.children@, d, depth, i);
            assert forall|j: int| 0 <= j < i implies !entry_matches(#[trigger] b.children@[j], d, depth) by {
                assert(!entry_matches(a.children@[j], d, depth));
            }
            assert(is_first_match(b.children@, d, depth, i));
            lemma_lookup_at(a, d, i);
            lemma_lookup_at(b, d, i);
            assert(same_entry(a.children@[i], b.children@[i]));
        } else {
            assert forall|i: int| !is_first_match(b.children@, d, depth, i) by {
                if is_first_match(b.children@, d, depth, i) {
                    assert forall|j: int| 0 <= j < i implies !entry_matches(#[trigger] a.children@[j], d, depth) by {
                        assert(!entry_matches(b.children@[j], d, depth));
                    }
                    assert(is_first_match(a.children@, d, depth, i));
                }
            }
        }
    }
    assert forall|p: Seq<u8>, l: nat| #[trigger] wf_node(a, p, l) implies wf_node(b, p, l) by {
        assert forall|i: int| 0 <= i < a.children@.len() implies same_entry(#[trigger] a.children@[i], b.children@[i]) by {}
        if p.len() < l {
            assert forall|i: int| 0 <= i < b.children@.len() implies {
                &&& (#[trigger] b.children@[i]) is InternalNode
                &&& wf_node(b.children@[i]->InternalNode_0, p.push(b.children@[i]->InternalNode_0.key@[0]), l)
                &&& exists|d: Seq<u8>| (#[trigger] lookup(b.children@[i]->InternalNode_0, d)) is Some
            } by {
                let ca = a.children@[i]->InternalNode_0;
                let cb = b.children@[i]->InternalNode_0;
                assert(same_entry(a.children@[i], b.children@[i]));
                assert(wf_node(ca, p.push(ca.key@[0]), l));
                let d = choose|d: Seq<u8>| (#[trigger] lookup(ca, d)) is Some;
                assert(lookup(cb, d) is Some);
            }
            assert forall|i: int, j: int| 0 <= i < j < b.children@.len() implies crate::trie::selector(
                b.children@[i],
            ) < crate::trie::selector(b.children@[j]) by {
                assert(same_entry(a.children@[i], b.children@[i]));
                assert(same_entry(a.children@[j], b.children@[j]));
                assert(crate::trie::selector(a.children@[i]) < crate::trie::selector(a.children@[j]));
            }
        } else {
            assert forall|i: int| 0 <= i < b.children@.len() implies b.children@[i] == a.children@[i] by {
                assert(same_entry(a.children@[i], b.children@[i]));
            }
            assert(b.children@ =~= a.children@);
        }
    }
}

/// The key a child carries: its selector byte, or the digest of a leaf.
pub open spec fn entry_tag(e: Entry) -> Seq<u8> {
    match e {
        Entry::InternalNode(c) => c.key@,
        Entry::Leaf(l) => l.key@,
    }
}

/// The keys of a list of children.
pub open spec fn tags(s: Seq<Entry>) -> Seq<Seq<u8>> {
    s.map_values(|e: Entry| entry_tag(e))
}

/// A list in strictly increasing digest order.
pub open spec fn strictly_sorted(s: Seq<Seq<u8>>) -> bool {
    forall|i: int, j: int| 0 <= i < j < s.len() ==> digest_lt(#[trigger] s[i], #[trigger] s[j])
}

/// The children of a well-formed node are in strictly increasing order of key.
proof fn lemma_tags_sorted(n: Node, prefix: Seq<u8>, levels: nat)
    requires
        wf_node(n, prefix, levels),
    ensures
        strictly_sorted(tags(n.children@)),
{
    let t = tags(n.children@);
    assert forall|i: int, j: int| 0 <= i < j < t.len() implies digest_lt(#[trigger] t[i], #[trigger] t[j]) by {
        if prefix.len() < levels {
            let (ci, cj) = (n.children@[i]->InternalNode_0, n.children@[j]->InternalNode_0);
            assert(wf_node(ci, prefix.push(ci.key@[0]), levels));
            assert(wf_node(cj, prefix.push(cj.key@[0]), levels));
            assert(selector(n.children@[i]) < selector(n.children@[j]));
            assert(t[i][0] < t[j][0]);
        }
    }
}

/// `x` is an element of `t`.
pub open spec fn contains_at(t: Seq<Seq<u8>>, x: Seq<u8>) -> bool {
    exists|j: int| 0 <= j < t.len() && t[j] == x
}

/// Every element of `s` is an element of `t`.
pub open spec fn all_in(s: Seq<Seq<u8>>, t: Seq<Seq<u8>>) -> bool {
    forall|i: int| 0 <= i < s.len() ==> contains_at(t, #[trigger] s[i])
}

proof fn lemma_sorted_tail(s: Seq<Seq<u8>>)
    requires
        strictly_sorted(s),
        s.len() > 0,
    ensures
        strictly_sorted(s.drop_first()),
        forall|i: int| 0 < i < s.len() ==> #[trigger] s[i] != s[0],
{
    let s1 = s.drop_first();
    assert forall|a: int, b: int| 0 <= a < b < s1.len() implies digest_lt(#[trigger] s1[a], #[trigger] s1[b]) by {
        assert(digest_lt(s[a + 1], s[b + 1]));
    }
    assert forall|i: int| 0 < i < s.len() implies #[trigger] s[i] != s[0] by {
        assert(digest_lt(s[0], s[i]));
    }
}

proof fn lemma_sorted_heads(s: Seq<Seq<u8>>, t: Seq<Seq<u8>>)
    requires
        strictly_sorted(s),
        strictly_sorted(t),
        all_in(s, t),
        all_in(t, s),
        s.len() > 0,
        t.len() > 0,
    ensures
        s[0] == t[0],
{
    assert(contains_at(t, s[0]));
    let j0 = choose|j: int| 0 <= j < t.len() && t[j] == s[0];
    assert(contains_at(s, t[0]));
    let i0 = choose|i: int| 0 <= i < s.len() && s[i] == t[0];
    if j0 > 0 {
        assert(digest_lt(t[0], t[j0]));
        if i0 > 0 {
            assert(digest_lt(s[0], s[i0]));
            lemma_digest_lt_trans(s[0], s[i0], s[0]);
        }
    }
}

proof fn lemma_tail_in(s: Seq<Seq<u8>>, t: Seq<Seq<u8>>)
    requires
        strictly_sorted(s),
        s.len() > 0,
        t.len() > 0,
        s[0] == t[0],
        all_in(s, t),
    ensures
        all_in(s.drop_first(), t.drop_first()),
{
    lemma_sorted_tail(s);
    let (s1, t1) = (s.drop_first(), t.drop_first());
    assert forall|i: int| 0 <= i < s1.len() implies contains_at(t1, #[trigger] s1[i]) by {
        assert(s1[i] == s[i + 1]);
        assert(contains_at(t, s[i + 1]));
        let j = choose|j: int| 0 <= j < t.len() && t[j] == s[i + 1];
        assert(j != 0);
        assert(t1[j - 1] == t[j]);
    }
}

/// Two strictly sorted lists with the same elements are equal.
proof fn lemma_sorted_same_elements(s: Seq<Seq<u8>>, t: Seq<Seq<u8>>)
    requires
        strictly_sorted(s),
        strictly_sorted(t),
        all_in(s, t),
        all_in(t, s),
    ensures
        s == t,
    decreases s.len(),
{
    if s.len() == 0 || t.len() == 0 {
        if t.len() > 0 {
            assert(contains_at(s, t[0]));
        }
        if s.len() > 0 {
            assert(contains_at(t, s[0]));
        }
        assert(s =~= t);
    } else {
        lemma_sorted_heads(s, t);
        lemma_sorted_tail(s);
        lemma_sorted_tail(t);
        lemma_tail_in(s, t);
        lemma_tail_in(t, s);
        lemma_sorted_same_elements(s.drop_first(), t.drop_first());
        assert(s =~= t) by {
            assert forall|k: int| 0 <= k < s.len() implies s[k] == t[k] by {
                if k > 0 {
                    assert(s[k] == s.drop_first()[k - 1]);
                    assert(t[k] == t.drop_first()[k - 1]);
                }
            }
        }
    }
}

/// Each child of `a` has a child of `b` with the same key, when both store the
/// same values.
proof fn lemma_tag_in_other(a: Node, b: Node, prefix: Seq<u8>, levels: nat, i: int)
    requires
        wf_node(a, prefix, levels),
        wf_node(b, prefix, levels),
        forall|d: Seq<u8>| #[trigger] lookup(a, d) == lookup(b, d),
        0 <= i < a.children@.len(),
    ensures
        exists|j: int| 0 <= j < b.children@.len() && entry_tag(b.children@[j]) == entry_tag(a.children@[i]),
{
    let depth = prefix.len() as nat;
    let e = a.children@[i];
    let d0 = if prefix.len() < levels {
        let c = e->InternalNode_0;
        assert(wf_node(c, prefix.push(c.key@[0]), levels));
        let d0 = choose|d: Seq<u8>| (#[trigger] lookup(c, d)) is Some;
        lemma_lookup_prefix(c, prefix.push(c.key@[0]), levels, d0);
        assert(d0[depth as int] == d0.subrange(0, depth as int + 1)[depth as int]);
        d0
    } else {
        entry_tag(e)
    };
    assert(entry_matches(e, d0, depth));
    lemma_wf_unique(a, prefix, levels, d0);
    lemma_lookup_unique(a, d0, i);
    assert(lookup(b, d0) is Some);
    let j = choose|j: int| is_first_match(b.children@, d0, depth, j);
    if prefix.len() < levels {
        let cb = b.children@[j]->InternalNode_0;
        assert(wf_node(cb, prefix.push(cb.key@[0]), levels));
        assert(entry_tag(b.children@[j]) =~= entry_tag(e));
    }
}

/// Two committed, well-formed nodes reached by the same prefix that store the same
/// values hold the same commitment.
pub proof fn lemma_same_values_same_commitment(a: Node, b: Node, prefix: Seq<u8>, levels: nat, ck: Seq<u8>)
    requires
        wf_node(a, prefix, levels),
        wf_node(b, prefix, levels),
        committed(a, ck),
        committed(b, ck),
        forall|d: Seq<u8>| #[trigger] lookup(a, d) == lookup(b, d),
    ensures
        stored_commitment(a) == stored_commitment(b),
    decreases a, 1nat,
{
    let (sa, sb) = (a.children@, b.children@);
    lemma_tags_sorted(a, prefix, levels);
    lemma_tags_sorted(b, prefix, levels);
    assert forall|i: int| 0 <= i < tags(sa).len() implies contains_at(tags(sb), #[trigger] tags(sa)[i]) by {
        lemma_tag_in_other(a, b, prefix, levels, i);
        let j = choose|j: int| 0 <= j < sb.len() && entry_tag(sb[j]) == entry_tag(sa[i]);
        assert(tags(sb)[j] == tags(sa)[i]);
    }
    assert forall|j: int| 0 <= j < tags(sb).len() implies contains_at(tags(sa), #[trigger] tags(sb)[j]) by {
        lemma_tag_in_other(b, a, prefix, levels, j);
        let i = choose|i: int| 0 <= i < sa.len() && entry_tag(sa[i]) == entry_tag(sb[j]);
        assert(tags(sa)[i] == tags(sb)[j]);
    }
    lemma_sorted_same_elements(tags(sa), tags(sb));
    assert(sa.len() == tags(sa).len());
    assert(sb.len() == tags(sb).len());
    assert forall|i: int| 0 <= i < sa.len() implies #[trigger] fingerprint(sa[i]) == fingerprint(sb[i]) by {
        assert(tags(sa)[i] == tags(sb)[i]);
        lemma_same_child_fingerprint(a, b, prefix, levels, ck, i);
    }
    assert(fingerprints(sa) =~= fingerprints(sb));
}

/// Children at the same position, with the same key, of two such nodes have the
/// same fingerprint.
proof fn lemma_same_child_fingerprint(a: Node, b: Node, prefix: Seq<u8>, levels: nat, ck: Seq<u8>, i: int)
    requires
        wf_node(a, prefix, levels),
        wf_node(b, prefix, levels),
        committed(a, ck),
        committed(b, ck),
        forall|d: Seq<u8>| #[trigger] lookup(a, d) == lookup(b, d),
        0 <= i < a.children@.len(),
        i < b.children@.len(),
        entry_tag(a.children@[i]) == entry_tag(b.children@[i]),
    ensures
        fingerprint(a.children@[i]) == fingerprint(b.children@[i]),
    decreases a, 0nat,
{
    let depth = prefix.len() as nat;
    let (sa, sb) = (a.children@, b.children@);
    if prefix.len() < levels {
        let (ca, cb) = (sa[i]->InternalNode_0, sb[i]->InternalNode_0);
        let cp = prefix.push(ca.key@[0]);
        assert(wf_node(ca, cp, levels));
        assert(wf_node(cb, prefix.push(cb.key@[0]), levels));
        assert(committed(ca, ck));
        assert(committed(cb, ck));
        assert forall|d: Seq<u8>| #[trigger] lookup(ca, d) == lookup(cb, d) by {
            lemma_wf_unique(a, prefix, levels, d);
            lemma_wf_unique(b, prefix, levels, d);
            if entry_matches(sa[i], d, depth) {
                lemma_lookup_unique(a, d, i);
                lemma_lookup_unique(b, d, i);
            } else {
                if lookup(ca, d) is Some {
                    lemma_lookup_prefix(ca, cp, levels, d);
                    assert(d[depth as int] == d.subrange(0, depth as int + 1)[depth as int]);
                }
                if lookup(cb, d) is Some {
                    lemma_lookup_prefix(cb, cp, levels, d);
                    assert(d[depth as int] == d.subrange(0, depth as int + 1)[depth as int]);
                }
            }
        }
        lemma_same_values_same_commitment(ca, cb, cp, levels, ck);
    } else {
        let x = entry_tag(sa[i]);
        lemma_wf_unique(a, prefix, levels, x);
        lemma_wf_unique(b, prefix, levels, x);
        lemma_lookup_unique(a, x, i);
        lemma_lookup_unique(b, x, i);
    }
}

/// Concatenation of two byte strings.
pub fn concat(a: &Vec<u8>, b: &Vec<u8>) -> (r: Vec<u8>)
    ensures
        r@ == a@ + b@,
{
    let mut r: Vec<u8> = Vec::new();
    let mut i: usize = 0;
    while i < a.len()
        invariant
            i <= a@.len(),
            r@ == a@.subrange(0, i as int),
        decreases a@.len() - i,
    {
        r.push(a[i]);
        i = i + 1;
    }
    let mut j: usize = 0;
    while j < b.len()
        invariant
            j <= b@.len(),
            r@ == a@ + b@.subrange(0, j as int),
        decreases b@.len() - j,
    {
        r.push(b[j]);
        j = j + 1;
    }
    assert(a@.subrange(0, a@.len() as int) =~= a@);
    assert(b@.subrange(0, b@.len() as int) =~= b@);
    r
}

/// The fingerprint of a child.
pub fn entry_fingerprint(e: &Entry) -> (r: Vec<u8>)
    ensures
        r@ == fingerprint(*e),
{
    match e {
        Entry::Leaf(l) => {
            let value_digest = hash(&l.value);
            hash(&concat(&l.key, &value_digest))
        },
        Entry::InternalNode(c) => match &c.commitment {
            Some(x) => hash(&concat(&c.key, x)),
            None => hash(&c.key),
        },
    }
}

/// The fingerprints of the children of `n`, in order.
pub fn children_fingerprints(n: &Node) -> (r: Vec<Vec<u8>>)
    ensures
        bytes_seq(r@) == fingerprints(n.children@),
{
    let mut r: Vec<Vec<u8>> = Vec::new();
    let mut i: usize = 0;
    while i < n.children.len()
        invariant
            i <= n.children@.len(),
            r@.len() == i,
            forall|k: int| 0 <= k < i ==> (#[trigger] r@[k])@ == fingerprint(n.children@[k]),
        decreases n.children@.len() - i,
    {
        let f = entry_fingerprint(&n.children[i]);
        r.push(f);
        i = i + 1;
    }
    assert(bytes_seq(r@) =~= fingerprints(n.children@));
    r
}

impl Node {
    /// Commits every node of this subtree, children before parents. On an error of
    /// the scheme the walk stops, and commitments above the failure stay unset.
    pub fn set_commitments_recursive(&mut self, keys: &SchemeKeys) -> (r: Result<(), CommitError>)
        requires
            exists|p: Seq<u8>, l: nat| wf_node(*old(self), p, l),
        ensures
            same_content(*old(self), *final(self)),
            r is Ok ==> committed(*final(self), keys@),
            r matches Err(e) ==> e == CommitError::Scheme,
            fits(*old(self), keys.degree_spec() + 1) ==> r is Ok,
            r is Err ==> final(self).commitment is None,
        decreases DIGEST_LEN - old(self).depth,
    {
        let ghost old_node = *self;
        let ghost (p, l) = choose|p: Seq<u8>, l: nat| wf_node(old_node, p, l);
        let n = self.children.len();
        let mut i: usize = 0;
        while i < n
            invariant
                self.depth == old_node.depth,
                self.key == old_node.key,
                self.children@.len() == n,
                old_node.children@.len() == n,
                i <= n,
                forall|j: int| 0 <= j < i ==> same_entry(old_node.children@[j], #[trigger] self.children@[j]),
                forall|j: int|
                    0 <= j < i && (#[trigger] self.children@[j]) is InternalNode ==> committed(
                        self.children@[j]->InternalNode_0,
                        keys@,
                    ),
                forall|j: int| i <= j < n ==> #[trigger] self.children@[j] == old_node.children@[j],
                wf_node(old_node, p, l),
                old_node == *old(self),
                fits(old_node, keys.degree_spec() + 1) ==> forall|j: int| 0 <= j < n && (#[trigger] old_node.children@[j]) is InternalNode ==> fits(old_node.children@[j]->InternalNode_0, keys.degree_spec() + 1),
            decreases n - i,
        {
            let ghost pre = self.children@;
            let e = self.children.remove(i);
            match e {
                Entry::InternalNode(mut c) => {
                    assert(old_node.children@[i as int] == Entry::InternalNode(c));
                    proof {
                        if p.len() >= l {
                            assert(old_node.children@[i as int] is Leaf);
                        }
                    }
                    assert(wf_node(c, p.push(c.key@[0]), l));
                    let ghost old_c = c;
                    assert(c.depth == old_node.depth + 1);
                    assert(c.depth <= DIGEST_LEN);
                    let r = c.set_commitments_recursive(keys);
                    self.children.insert(i, Entry::InternalNode(c));
                    assert(self.children@ =~= pre.update(i as int, Entry::InternalNode(c)));
                    assert(same_content(old_c, c));
                    if r.is_err() {
                        proof {
                            assert forall|j: int| 0 <= j < n implies same_entry(
                                #[trigger] old_node.children@[j],
                                self.children@[j],
                            ) by {
                                if j > i {
                                    assert(self.children@[j] == old_node.children@[j]);
                                } else if j < i {
                                    assert(self.children@[j] == pre[j]);
                                }
                            }
                            assert(same_entry(old_node.children@[i as int], self.children@[i as int]));
                            lemma_same_children(old_node, *self);
                        }
                        let ghost before = *self;
                        self.commitment = None;
                        proof {
                            Node::lemma_recommitted(old_node, before, *self);
                        }
                        return Err(CommitError::Scheme);
                    }
                },
                Entry::Leaf(leaf) => {
                    self.children.insert(i, Entry::Leaf(leaf));
                    assert(self.children@ =~= pre);
                },
            }
            i = i + 1;
        }
        proof {
            assert forall|j: int| 0 <= j < n implies same_entry(#[trigger] old_node.children@[j], self.children@[j]) by {}
            lemma_same_children(old_node, *self);
        }
        let ghost before = *self;
        let fps = children_fingerprints(self);
        assert(bytes_seq(fps@).len() == fps@.len());
        match commit(keys, &fps) {
            Ok(c) => {
                self.commitment = Some(c);
                proof {
                    Node::lemma_recommitted(old_node, before, *self);
                }
                Ok(())
            },
            Err(e) => {
                self.commitment = None;
                proof {
                    Node::lemma_recommitted(old_node, before, *self);
                }
                Err(e)
            },
        }
    }

    /// Whether every node of this subtree holds the commitment to its children's
    /// fingerprints, recomputing each one.
    pub fn check_commitment(&self, keys: &SchemeKeys) -> (r: Result<bool, CommitError>)
        ensures
            r matches Ok(b) ==> b == committed(*self, keys@),
            r matches Err(e) ==> e == CommitError::Scheme,
            fits(*self, keys.degree_spec() + 1) ==> r is Ok,
        decreases self,
    {
        let n = self.children.len();
        let mut i: usize = 0;
        while i < n
            invariant
                n == self.children@.len(),
                i <= n,
                forall|j: int|
                    0 <= j < i && (#[trigger] self.children@[j]) is InternalNode ==> committed(
                        self.children@[j]->InternalNode_0,
                        keys@,
                    ),
                fits(*self, keys.degree_spec() + 1) ==> forall|j: int| 0 <= j < n && (#[trigger] self.children@[j]) is InternalNode ==> fits(self.children@[j]->InternalNode_0, keys.degree_spec() + 1),
            decreases n - i,
        {
            match &self.children[i] {
                Entry::InternalNode(c) => {
                    assert(decreases_to!(self.children => self.children@[i as int]));
                    let ok = c.check_commitment(keys)?;
                    if !ok {
                        return Ok(false);
                    }
                },
                Entry::Leaf(_) => {},
            }
            i = i + 1;
        }
        let stored = match &self.commitment {
            Some(c) => c,
            None => {
                return Ok(false);
            },
        };
        let fps = children_fingerprints(self);
        assert(bytes_seq(fps@).len() == fps@.len());
        let recomputed = commit(keys, &fps)?;
        Ok(crate::trie::same_bytes(&recomputed, stored))
    }

    /// Whether no node of this subtree has more than `bound` children.
    pub fn fits_bound(&self, bound: usize) -> (r: bool)
        ensures
            r == fits(*self, bound as nat),
        decreases self,
    {
        if self.children.len() > bound {
            return false;
        }
        let n = self.children.len();
        let mut i: usize = 0;
        while i < n
            invariant
                n == self.children@.len(),
                n <= bound,
                i <= n,
                forall|j: int|
                    0 <= j < i && (#[trigger] self.children@[j]) is InternalNode ==> fits(
                        self.children@[j]->InternalNode_0,
                        bound as nat,
                    ),
            decreases n - i,
        {
            match &self.children[i] {
                Entry::InternalNode(c) => {
                    assert(decreases_to!(self.children => self.children@[i as int]));
                    if !c.fits_bound(bound) {
                        return false;
                    }
                },
                Entry::Leaf(_) => {},
            }
            i = i + 1;
        }
        true
    }

    /// Setting the commitment of a node keeps its content.
    proof fn lemma_recommitted(orig: Node, a: Node, b: Node)
        requires
            same_content(orig, a),
            a.depth == b.depth,
            a.key == b.key,
            a.children == b.children,
        ensures
            same_content(orig, b),
    {
        crate::trie::lemma_same_shape(a, b);
    }
}

} // verus!
