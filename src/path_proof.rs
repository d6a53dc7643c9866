//! Path proofs: for a key, the nodes from the root down to its leaf, each with its
//! commitment and the fingerprints of its children, so that a verifier holding the
//! committer key can recompute every commitment and link each level to the next.
use crate::commit::{children_fingerprints, committed, concat, fingerprint, fingerprints, fits};
use crate::hashing::{hash, sha256_of};
use crate::scheme::{bytes_seq, commit, commitment_of, CommitError, SchemeKeys};
use crate::trie::{
    is_first_match, lemma_lookup_at, lookup, node_key_for, opt_bytes, same_bytes, wf_node, Entry, Node,
};
use vstd::prelude::*;

verus! {

broadcast use vstd::std_specs::vec::group_vec_axioms, vstd::seq::group_seq_axioms;

/// One level of a path proof: a node's key and commitment, the fingerprints of its
/// children, and the position of the child that the path follows.
#[derive(Debug)]
pub struct VerkleNodeProof {
    pub key: Vec<u8>,
    pub commitment: Option<Vec<u8>>,
    pub fingerprints: Vec<Vec<u8>>,
    pub index: usize,
}

/// A proof that the digest `key` holds `value`: the levels from the root down.
#[derive(Debug)]
pub struct PathProof {
    pub path: Vec<VerkleNodeProof>,
    pub key: Vec<u8>,
    pub value: Vec<u8>,
}

/// `levels` is the path of `n` towards the digest `d`, ending at the leaf for `d`.
pub open spec fn describes(levels: Seq<VerkleNodeProof>, n: Node, d: Seq<u8>) -> bool
    decreases n,
{
    &&& levels.len() >= 1
    &&& levels[0].key@ == n.key@
    &&& opt_bytes(levels[0].commitment) == opt_bytes(n.commitment)
    &&& bytes_seq(levels[0].fingerprints@) == fingerprints(n.children@)
    &&& is_first_match(n.children@, d, n.depth as nat, levels[0].index as int)
    &&& match n.children@[levels[0].index as int] {
        Entry::InternalNode(c) => describes(levels.drop_first(), c, d),
        Entry::Leaf(_) => levels.len() == 1,
    }
}

/// A level whose commitment is the commitment to its fingerprints, with a valid
/// position.
pub open spec fn level_ok(ck: Seq<u8>, lv: VerkleNodeProof) -> bool {
    &&& lv.commitment is Some
    &&& lv.commitment->Some_0@ == commitment_of(ck, bytes_seq(lv.fingerprints@))
    &&& lv.index < lv.fingerprints@.len()
}

/// The fingerprint that a level gives to the child the path follows.
pub open spec fn followed(lv: VerkleNodeProof) -> Seq<u8> {
    lv.fingerprints@[lv.index as int]@
}

/// Every level from `depth` on is sound, is keyed by the selector of `d` that
/// leads to it, and names the next level (or, at the end, the leaf holding
/// `value` under `d`) as the child it follows.
pub open spec fn chain_ok(ck: Seq<u8>, levels: Seq<VerkleNodeProof>, d: Seq<u8>, depth: nat, value: Seq<u8>) -> bool
    decreases levels.len(),
{
    if levels.len() == 0 {
        false
    } else {
        &&& level_ok(ck, levels[0])
        &&& depth <= d.len()
        &&& levels[0].key@ == node_key_for(d.subrange(0, depth as int))
        &&& if levels.len() == 1 {
            followed(levels[0]) == sha256_of(d + sha256_of(value))
        } else {
            &&& levels[1].commitment is Some
            &&& followed(levels[0]) == sha256_of(levels[1].key@ + levels[1].commitment->Some_0@)
            &&& chain_ok(ck, levels.drop_first(), d, depth + 1, value)
        }
    }
}

/// The proof is accepted against the root commitment `root`.
pub open spec fn accepts(ck: Seq<u8>, p: PathProof, root: Seq<u8>) -> bool {
    &&& p.path@.len() >= 1
    &&& opt_bytes(p.path@[0].commitment) == Some(root)
    &&& chain_ok(ck, p.path@, p.key@, 0, p.value@)
}

/// A path through a subtree whose nodes have at most `bound` children lists at most
/// `bound` fingerprints at each level.
pub proof fn lemma_describes_fits(ps: Seq<VerkleNodeProof>, n: Node, d: Seq<u8>, bound: nat)
    requires
        describes(ps, n, d),
        fits(n, bound),
    ensures
        forall|i: int| 0 <= i < ps.len() ==> (#[trigger] ps[i]).fingerprints@.len() <= bound,
    decreases n,
{
    assert(bytes_seq(ps[0].fingerprints@).len() == ps[0].fingerprints@.len());
    match n.children@[ps[0].index as int] {
        Entry::InternalNode(c) => {
            lemma_describes_fits(ps.drop_first(), c, d, bound);
            assert forall|i: int| 0 <= i < ps.len() implies (#[trigger] ps[i]).fingerprints@.len() <= bound by {
                if i > 0 {
                    assert(ps[i] == ps.drop_first()[i - 1]);
                }
            }
        },
        Entry::Leaf(_) => {},
    }
}

/// A path that reaches a leaf for `d` shows a value stored under `d`.
pub proof fn lemma_describes_some(ps: Seq<VerkleNodeProof>, n: Node, d: Seq<u8>)
    requires
        describes(ps, n, d),
    ensures
        lookup(n, d) is Some,
    decreases n,
{
    lemma_lookup_at(n, d, ps[0].index as int);
    match n.children@[ps[0].index as int] {
        Entry::InternalNode(c) => {
            lemma_describes_some(ps.drop_first(), c, d);
        },
        Entry::Leaf(_) => {},
    }
}

/// Every level of an accepted chain is sound on its own.
pub proof fn lemma_chain_levels_ok(ck: Seq<u8>, ls: Seq<VerkleNodeProof>, d: Seq<u8>, depth: nat, v: Seq<u8>, i: int)
    requires
        chain_ok(ck, ls, d, depth, v),
        0 <= i < ls.len(),
    ensures
        level_ok(ck, ls[i]),
    decreases i,
{
    if i > 0 {
        lemma_chain_levels_ok(ck, ls.drop_first(), d, depth + 1, v, i - 1);
    }
}

/// In a committed, well-formed subtree, the path towards a stored digest forms an
/// accepted chain.
pub proof fn lemma_path_chain_ok(ck: Seq<u8>, ps: Seq<VerkleNodeProof>, n: Node, prefix: Seq<u8>, levels: nat, d: Seq<u8>)
    requires
        wf_node(n, prefix, levels),
        committed(n, ck),
        describes(ps, n, d),
        lookup(n, d) is Some,
        prefix == d.subrange(0, prefix.len() as int),
        prefix.len() <= d.len(),
    ensures
        chain_ok(ck, ps, d, prefix.len(), lookup(n, d)->Some_0),
    decreases n,
{
    let head_p = ps[0];
    let i = head_p.index as int;
    lemma_lookup_at(n, d, i);
    assert(bytes_seq(head_p.fingerprints@).len() == head_p.fingerprints@.len());
    assert(followed(head_p) == bytes_seq(head_p.fingerprints@)[i]);
    assert(followed(head_p) == fingerprint(n.children@[i]));
    match n.children@[i] {
        Entry::InternalNode(c) => {
            let depth = prefix.len() as int;
            if prefix.len() >= levels {
                assert(n.children@[i] is Leaf);
            }
            assert(wf_node(c, prefix.push(c.key@[0]), levels));
            assert(committed(c, ck));
            assert(d.subrange(0, depth + 1) =~= prefix.push(c.key@[0]));
            lemma_path_chain_ok(ck, ps.drop_first(), c, prefix.push(c.key@[0]), levels, d);
            assert(ps[1] == ps.drop_first()[0]);
            assert(lookup(c, d) == lookup(n, d));
            assert(ps[1].key@ == c.key@);
            assert(c.commitment is Some);
            assert(describes(ps.drop_first(), c, d));
            assert(opt_bytes(ps.drop_first()[0].commitment) == opt_bytes(c.commitment));
            assert(opt_bytes(ps[1].commitment) == Some(c.commitment->Some_0@));
            assert(ps[1].commitment->Some_0@ == crate::commit::stored_commitment(c));
            assert(followed(head_p) == sha256_of(ps[1].key@ + ps[1].commitment->Some_0@));
            assert(level_ok(ck, head_p));
        },
        Entry::Leaf(l) => {
            assert(l.key@ == d);
        },
    }
}

/// Every node on the path of `n` towards the digest `d` holds the commitment to its
/// children's fingerprints, and the path ends at the leaf for `d`.
pub open spec fn path_committed(n: Node, d: Seq<u8>, ck: Seq<u8>) -> bool
    decreases n,
{
    &&& n.commitment is Some
    &&& n.commitment->Some_0@ == commitment_of(ck, fingerprints(n.children@))
    &&& exists|i: int|
        #[trigger] is_first_match(n.children@, d, n.depth as nat, i) && match n.children@[i] {
            Entry::InternalNode(c) => path_committed(c, d, ck),
            Entry::Leaf(_) => true,
        }
}

/// In a committed subtree, the path towards a stored digest is committed.
pub proof fn lemma_committed_path(n: Node, d: Seq<u8>, ck: Seq<u8>)
    requires
        committed(n, ck),
        lookup(n, d) is Some,
    ensures
        path_committed(n, d, ck),
    decreases n,
{
    let i = choose|i: int| is_first_match(n.children@, d, n.depth as nat, i);
    lemma_lookup_at(n, d, i);
    match n.children@[i] {
        Entry::InternalNode(c) => {
            lemma_committed_path(c, d, ck);
        },
        Entry::Leaf(_) => {},
    }
}

/// A proof that describes the path towards a stored digest is an accepted chain
/// exactly when that path is committed.
pub proof fn lemma_chain_iff_path(ck: Seq<u8>, ps: Seq<VerkleNodeProof>, n: Node, prefix: Seq<u8>, levels: nat, d: Seq<u8>)
    requires
        wf_node(n, prefix, levels),
        describes(ps, n, d),
        lookup(n, d) is Some,
        prefix == d.subrange(0, prefix.len() as int),
        prefix.len() <= d.len(),
    ensures
        chain_ok(ck, ps, d, prefix.len(), lookup(n, d)->Some_0) == path_committed(n, d, ck),
    decreases n,
{
    let hp = ps[0];
    let i = hp.index as int;
    lemma_lookup_at(n, d, i);
    assert(bytes_seq(hp.fingerprints@).len() == hp.fingerprints@.len());
    assert(followed(hp) == bytes_seq(hp.fingerprints@)[i]);
    assert(followed(hp) == fingerprint(n.children@[i]));
    assert(level_ok(ck, hp) == (n.commitment is Some && n.commitment->Some_0@ == commitment_of(
        ck,
        fingerprints(n.children@),
    )));
    assert forall|j: int| #[trigger] is_first_match(n.children@, d, n.depth as nat, j) implies j == i by {
        crate::trie::lemma_first_match_unique(n.children@, d, n.depth as nat, i, j);
    }
    match n.children@[i] {
        Entry::InternalNode(c) => {
            if prefix.len() >= levels {
                assert(n.children@[i] is Leaf);
            }
            let cp = prefix.push(c.key@[0]);
            assert(wf_node(c, cp, levels));
            assert(d.subrange(0, prefix.len() as int + 1) =~= cp);
            assert(describes(ps.drop_first(), c, d));
            assert(ps.drop_first().len() >= 1);
            lemma_chain_iff_path(ck, ps.drop_first(), c, cp, levels, d);
            assert(ps[1] == ps.drop_first()[0]);
            assert(lookup(c, d) == lookup(n, d));
            assert(describes(ps.drop_first(), c, d));
            assert(opt_bytes(ps.drop_first()[0].commitment) == opt_bytes(c.commitment));
            assert(ps[1].key@ == c.key@);
            if c.commitment is Some {
                assert(opt_bytes(ps[1].commitment) == Some(c.commitment->Some_0@));
                assert(ps[1].commitment->Some_0@ == crate::commit::stored_commitment(c));
            } else {
                assert(ps[1].commitment is None);
            }
            if path_committed(n, d, ck) {
                assert(path_committed(c, d, ck));
            }
        },
        Entry::Leaf(l) => {
            assert(l.key@ == d);
            assert(ps.len() == 1);
            if level_ok(ck, hp) {
                assert(is_first_match(n.children@, d, n.depth as nat, i));
            }
        },
    }
}

fn clone_bytes(v: &Vec<u8>) -> (r: Vec<u8>)
    ensures
        r@ == v@,
{
    v.clone()
}

fn clone_commitment(c: &Option<Vec<u8>>) -> (r: Option<Vec<u8>>)
    ensures
        opt_bytes(r) == opt_bytes(*c),
{
    match c {
        Some(x) => Some(clone_bytes(x)),
        None => None,
    }
}

impl Node {
    /// Appends to `path` the levels from this node towards the digest `d`, and
    /// returns the value found there.
    fn collect_path(&self, d: &Vec<u8>, path: &mut Vec<VerkleNodeProof>) -> (r: Option<Vec<u8>>)
        ensures
            opt_bytes(r) == lookup(*self, d@),
            r is Some ==> final(path)@.subrange(0, old(path)@.len() as int) == old(path)@,
            r is Some ==> describes(final(path)@.skip(old(path)@.len() as int), *self, d@),
            final(path)@.len() >= old(path)@.len(),
        decreases self,
    {
        match self.find_child(d) {
            None => None,
            Some(i) => {
                proof {
                    lemma_lookup_at(*self, d@, i as int);
                }
                let ghost start = path@;
                let level = VerkleNodeProof {
                    key: clone_bytes(&self.key),
                    commitment: clone_commitment(&self.commitment),
                    fingerprints: children_fingerprints(self),
                    index: i,
                };
                path.push(level);
                match &self.children[i] {
                    Entry::InternalNode(c) => {
                        assert(decreases_to!(self.children => self.children@[i as int]));
                        let ghost mid = path@;
                        let r = c.collect_path(d, path);
                        proof {
                            if r is Some {
                                assert(path@.subrange(0, mid.len() as int) == mid);
                                assert(path@.subrange(0, start.len() as int) =~= start) by {
                                    assert(mid.subrange(0, start.len() as int) =~= start);
                                }
                                let s = path@.skip(start.len() as int);
                                assert(s.drop_first() =~= path@.skip(mid.len() as int));
                                assert(s[0] == mid[start.len() as int]);
                            }
                        }
                        r
                    },
                    Entry::Leaf(l) => {
                        assert(path@.subrange(0, start.len() as int) =~= start);
                        assert(path@.skip(start.len() as int) =~= seq![path@[start.len() as int]]);
                        Some(clone_bytes(&l.value))
                    },
                }
            },
        }
    }

    /// A proof for `key` below this node, when a value is stored under it.
    pub fn generate_path_proof(&self, key: &[u8]) -> (r: Option<PathProof>)
        ensures
            r is Some <==> lookup(*self, sha256_of(key@)) is Some,
            r matches Some(p) ==> {
                &&& p.key@ == sha256_of(key@)
                &&& lookup(*self, sha256_of(key@)) == Some(p.value@)
                &&& describes(p.path@, *self, p.key@)
            },
    {
        let d = hash(key);
        let mut path: Vec<VerkleNodeProof> = Vec::new();
        match self.collect_path(&d, &mut path) {
            Some(value) => {
                assert(path@.skip(0) =~= path@);
                Some(PathProof { path, key: d, value })
            },
            None => None,
        }
    }
}

impl Node {
    /// A proof of membership for `key` below this node; there is none when no value
    /// is stored under it.
    pub fn proof_of_membership(&self, key: &[u8]) -> (r: Option<PathProof>)
        ensures
            r is Some <==> lookup(*self, sha256_of(key@)) is Some,
            r matches Some(p) ==> {
                &&& p.key@ == sha256_of(key@)
                &&& lookup(*self, sha256_of(key@)) == Some(p.value@)
                &&& describes(p.path@, *self, p.key@)
            },
    {
        self.generate_path_proof(key)
    }
}

/// Checks a path proof against the root commitment `root_commitment`, recomputing
/// the commitment of every level.
pub fn verify_path_proof(keys: &SchemeKeys, proof: &PathProof, root_commitment: &Vec<u8>) -> (r: Result<bool, CommitError>)
    ensures
        r matches Ok(b) ==> b == accepts(keys@, *proof, root_commitment@),
        r matches Err(e) ==> e == CommitError::Scheme,
        proof.path@.len() == 0 || opt_bytes(proof.path@[0].commitment) != Some(root_commitment@) ==> r == Ok::<
            bool,
            CommitError,
        >(false),
        (forall|i: int|
            0 <= i < proof.path@.len() ==> (#[trigger] proof.path@[i]).fingerprints@.len() <= keys.degree_spec() + 1)
            ==> r is Ok,
{
    let n = proof.path.len();
    if n == 0 {
        return Ok(false);
    }
    match &proof.path[0].commitment {
        None => {
            return Ok(false);
        },
        Some(c) => {
            if !same_bytes(c, root_commitment) {
                return Ok(false);
            }
        },
    }
    let d = &proof.key;
    let ghost ck = keys@;
    let ghost v = proof.value@;
    let mut i: usize = 0;
    assert(proof.path@.skip(0) =~= proof.path@);
    while i < n
        invariant
            n == proof.path@.len(),
            n >= 1,
            ck == keys@,
            v == proof.value@,
            d@ == proof.key@,
            i < n,
            opt_bytes(proof.path@[0].commitment) == Some(root_commitment@),
            chain_ok(ck, proof.path@, d@, 0, v) == chain_ok(ck, proof.path@.skip(i as int), d@, i as nat, v),
        decreases n - i,
    {
        let lv = &proof.path[i];
        let ghost rest = proof.path@.skip(i as int);
        assert(rest[0] == *lv);
        let c = match &lv.commitment {
            None => {
                assert(!level_ok(ck, rest[0]));
                assert(!chain_ok(ck, rest, d@, i as nat, v));
                return Ok(false);
            },
            Some(c) => c,
        };
        let recomputed = match commit(keys, &lv.fingerprints) {
            Ok(x) => x,
            Err(e) => {
                return Err(e);
            },
        };
        if !same_bytes(&recomputed, c) || lv.index >= lv.fingerprints.len() {
            assert(!level_ok(ck, rest[0]));
            assert(!chain_ok(ck, rest, d@, i as nat, v));
            return Ok(false);
        }
        let key_ok = if i == 0 {
            lv.key.len() == 0
        } else {
            i <= d.len() && lv.key.len() == 1 && lv.key[0] == d[i - 1]
        };
        if !key_ok || i > d.len() {
            return Ok(false);
        }
        proof {
            let pre = d@.subrange(0, i as int);
            if i > 0 {
                assert(pre.last() == d@[i - 1]);
                assert(lv.key@ =~= seq![pre.last()]);
            } else {
                assert(lv.key@ =~= Seq::<u8>::empty());
            }
            assert(rest[0].key@ == node_key_for(d@.subrange(0, i as int)));
            assert(level_ok(ck, rest[0]));
        }
        let target = if i + 1 == n {
            hash(&concat(d, &hash(&proof.value)))
        } else {
            match &proof.path[i + 1].commitment {
                None => {
                    return Ok(false);
                },
                Some(nc) => hash(&concat(&proof.path[i + 1].key, nc)),
            }
        };
        if !same_bytes(&lv.fingerprints[lv.index], &target) {
            return Ok(false);
        }
        if i + 1 == n {
            return Ok(true);
        }
        assert(rest.drop_first() =~= proof.path@.skip(i + 1));
        assert(rest[1] == proof.path@[i + 1]);
        i = i + 1;
    }
    Ok(false)
}

} // verus!
