//! The trie together with its commitment keys and its depth.
use crate::commit::{committed, fits};
use crate::hashing::{hash, sha256_of};
use crate::path_proof::{accepts, describes, path_committed, verify_path_proof, PathProof};
use crate::scheme::{setup, CommitError, SchemeKeys, MAX_SETUP_DEGREE};
use crate::trie::{commitments_kept, leaf_count, levels_for, lookup, opt_bytes, wf_node, Node};
use vstd::prelude::*;

verus! {

/// The only supported branching factor: one child per value of a digest byte.
pub const BRANCHING_FACTOR: usize = 256;

/// An authenticated key-value trie.
pub struct VerkleTree {
    root: Node,
    keys: SchemeKeys,
    max_depth: usize,
    /// Values changed since the last successful commitment pass, so the root's
    /// commitment is out of date.
    stale: bool,
}

impl VerkleTree {
    /// The trie is well formed.
    pub closed spec fn inv(&self) -> bool {
        &&& wf_node(self.root, Seq::empty(), levels_for(self.max_depth as nat))
        &&& self.keys.degree_spec() <= MAX_SETUP_DEGREE
    }

    /// The value stored under the digest `d`.
    pub closed spec fn value_at(&self, d: Seq<u8>) -> Option<Seq<u8>> {
        lookup(self.root, d)
    }

    /// Every node holds the commitment to its children.
    pub closed spec fn is_committed(&self) -> bool {
        !self.stale && committed(self.root, self.keys@)
    }

    /// No node has more children than the committer key has powers.
    pub closed spec fn fits_scheme(&self) -> bool {
        fits(self.root, self.keys.degree_spec() + 1)
    }

    /// The number of leaves that hold the digest `d`.
    pub closed spec fn leaf_count_of(&self, d: Seq<u8>) -> nat {
        leaf_count(self.root, d)
    }

    /// The commitment held by the root, if any.
    pub closed spec fn root_commitment_spec(&self) -> Option<Seq<u8>> {
        if self.stale {
            None
        } else {
            opt_bytes(self.root.commitment)
        }
    }

    /// Every node of this trie holds the commitment of the node of `before` at the
    /// same place, and the nodes `before` lacks hold none.
    pub closed spec fn commitments_kept_from(&self, before: VerkleTree) -> bool {
        commitments_kept(before.root, self.root)
    }

    /// The committer key of the trie.
    pub closed spec fn keys_spec(&self) -> Seq<u8> {
        self.keys@
    }

    /// The largest degree the committer key supports.
    pub closed spec fn degree_spec(&self) -> nat {
        self.keys.degree_spec()
    }

    /// The depth the trie was made with.
    pub closed spec fn max_depth_spec(&self) -> nat {
        self.max_depth as nat
    }

    /// `p` is the path of this trie towards the digest it names.
    pub closed spec fn proof_for(&self, p: PathProof) -> bool {
        describes(p.path@, self.root, p.key@)
    }

    /// The value under the digest `d` is proved against the root commitment: it is
    /// stored, and every node on its path holds the commitment to its children.
    pub closed spec fn proved(&self, d: Seq<u8>) -> bool {
        &&& self.root_commitment_spec() is Some
        &&& lookup(self.root, d) is Some
        &&& path_committed(self.root, d, self.keys@)
    }

    /// `after` is `before` with `value` stored under the digest of `key`.
    pub open spec fn inserted(before: VerkleTree, after: VerkleTree, key: Seq<u8>, value: Seq<u8>) -> bool {
        &&& after.inv()
        &&& after.value_at(sha256_of(key)) == Some(value)
        &&& forall|d: Seq<u8>| d != sha256_of(key) ==> #[trigger] after.value_at(d) == before.value_at(d)
        &&& after.keys_spec() == before.keys_spec()
        &&& after.degree_spec() == before.degree_spec()
        &&& after.max_depth_spec() == before.max_depth_spec()
        &&& after.commitments_kept_from(before)
        &&& after.root_commitment_spec() is None
    }

    /// `after` is `before` with its commitments computed anew; `ok` tells whether
    /// the scheme committed every node.
    pub open spec fn recommitted(before: VerkleTree, after: VerkleTree, ok: bool) -> bool {
        &&& after.inv()
        &&& forall|d: Seq<u8>| #[trigger] after.value_at(d) == before.value_at(d)
        &&& after.keys_spec() == before.keys_spec()
        &&& after.degree_spec() == before.degree_spec()
        &&& after.max_depth_spec() == before.max_depth_spec()
        &&& ok ==> after.is_committed()
        &&& !ok ==> after.root_commitment_spec() is None
    }

    /// An empty trie of depth `depth`, whose commitment keys are drawn from `seed`.
    /// Only a branching factor of 256 is supported.
    pub fn new(depth: usize, branching_factor: usize, seed: u64) -> (r: Result<VerkleTree, CommitError>)
        ensures
            r is Ok <==> branching_factor == BRANCHING_FACTOR,
            r matches Err(e) ==> e == CommitError::Configuration,
            r matches Ok(t) ==> {
                &&& t.inv()
                &&& forall|d: Seq<u8>| #[trigger] t.value_at(d) is None
                &&& t.max_depth_spec() == depth
                &&& t.degree_spec() == branching_factor
                &&& t.root_commitment_spec() is None
            },
    {
        if branching_factor != BRANCHING_FACTOR {
            return Err(CommitError::Configuration);
        }
        let keys = match setup(branching_factor, seed) {
            Ok(k) => k,
            Err(e) => {
                return Err(e);
            },
        };
        let root = Node::new(Vec::new(), branching_factor, 0);
        let t = VerkleTree { root, keys, max_depth: depth, stale: false };
        proof {
            assert(t.root.key@ =~= node_key_empty());
            assert forall|d: Seq<u8>| #[trigger] t.value_at(d) is None by {
                crate::trie::lemma_lookup_none(t.root, d);
            }
        }
        Ok(t)
    }

    /// Stores `value` under `key`, replacing any value stored under it. Commitments
    /// are left as they were; the root's is withheld until the next commitment pass.
    pub fn insert(&mut self, key: Vec<u8>, value: Vec<u8>)
        requires
            old(self).inv(),
        ensures
            VerkleTree::inserted(*old(self), *final(self), key@, value@),
    {
        self.root.insert(key, value, self.max_depth);
        self.stale = true;
    }

    /// The value stored under `key`.
    pub fn get(&self, key: Vec<u8>) -> (r: Option<Vec<u8>>)
        ensures
            opt_bytes(r) == self.value_at(sha256_of(key@)),
    {
        self.root.get(key)
    }

    /// Computes the commitment of every node, children before parents.
    pub fn set_commitments(&mut self) -> (r: Result<(), CommitError>)
        requires
            old(self).inv(),
        ensures
            VerkleTree::recommitted(*old(self), *final(self), r is Ok),
            r matches Err(e) ==> e == CommitError::Scheme,
            old(self).fits_scheme() ==> r is Ok,
    {
        let r = self.root.set_commitments_recursive(&self.keys);
        self.stale = r.is_err();
        r
    }

    /// Whether no node has more children than the committer key has powers, so that
    /// every commitment can be made.
    pub fn within_degree(&self) -> (r: bool)
        requires
            self.inv(),
        ensures
            r == self.fits_scheme(),
    {
        self.root.fits_bound(self.keys.degree() + 1)
    }

    /// The root node, for inspection.
    pub fn root(&self) -> (r: &Node)
        ensures
            forall|d: Seq<u8>| #[trigger] lookup(*r, d) == self.value_at(d),
            self.root_commitment_spec() is Some ==> opt_bytes(r.commitment) == self.root_commitment_spec(),
    {
        &self.root
    }

    /// Computes the commitment of every node and returns the root commitment.
    pub fn compute_commitment(&mut self) -> (r: Result<Vec<u8>, CommitError>)
        requires
            old(self).inv(),
        ensures
            VerkleTree::recommitted(*old(self), *final(self), r is Ok),
            r matches Ok(c) ==> final(self).root_commitment_spec() == Some(c@),
            r matches Err(e) ==> e == CommitError::Scheme,
            old(self).fits_scheme() ==> r is Ok,
    {
        self.set_commitments()?;
        match &self.root.commitment {
            Some(c) => Ok(c.clone()),
            None => Err(CommitError::Scheme),
        }
    }

    /// Whether `proof` shows that `key` holds `value` under the root commitment
    /// `commitment`.
    pub fn verify(&self, commitment: &Vec<u8>, key: Vec<u8>, value: Vec<u8>, proof: &PathProof) -> (r: Result<
        bool,
        CommitError,
    >)
        ensures
            r matches Ok(b) ==> b == (proof.key@ == sha256_of(key@) && proof.value@ == value@ && accepts(
                self.keys_spec(),
                *proof,
                commitment@,
            )),
            r matches Err(e) ==> e == CommitError::Scheme,
            proof.key@ != sha256_of(key@) || proof.value@ != value@ ==> r == Ok::<bool, CommitError>(false),
            proof.path@.len() == 0 || opt_bytes(proof.path@[0].commitment) != Some(commitment@) ==> r == Ok::<
                bool,
                CommitError,
            >(false),
            (forall|i: int|
                0 <= i < proof.path@.len() ==> (#[trigger] proof.path@[i]).fingerprints@.len() <= self.degree_spec() + 1)
                ==> r is Ok,
    {
        let d = hash(&key);
        if !crate::trie::same_bytes(&d, &proof.key) || !crate::trie::same_bytes(&value, &proof.value) {
            return Ok(false);
        }
        self.verify_proof(proof, commitment)
    }

    /// The commitment held by the root, once computed.
    pub fn root_commitment(&self) -> (r: Option<Vec<u8>>)
        ensures
            opt_bytes(r) == self.root_commitment_spec(),
    {
        if self.stale {
            return None;
        }
        match &self.root.commitment {
            Some(c) => Some(c.clone()),
            None => None,
        }
    }

    /// Whether every node holds the commitment to its children, recomputing each.
    pub fn check_commitments(&self) -> (r: Result<bool, CommitError>)
        ensures
            r matches Ok(b) ==> b == self.is_committed(),
            r matches Err(e) ==> e == CommitError::Scheme,
            self.fits_scheme() ==> r is Ok,
    {
        if self.stale {
            return Ok(false);
        }
        self.root.check_commitment(&self.keys)
    }

    /// A proof for `key`, when a value is stored under it.
    pub fn generate_proof_for_key(&self, key: &[u8]) -> (r: Option<PathProof>)
        ensures
            r is Some <==> self.value_at(sha256_of(key@)) is Some,
            r matches Some(p) ==> {
                &&& p.key@ == sha256_of(key@)
                &&& self.value_at(p.key@) == Some(p.value@)
                &&& self.proof_for(p)
            },
    {
        self.root.generate_path_proof(key)
    }

    /// A proof of membership for `key`; there is none when nothing is stored under it.
    pub fn proof_of_membership_for_key(&self, key: &[u8]) -> (r: Option<PathProof>)
        ensures
            r is Some <==> self.value_at(sha256_of(key@)) is Some,
            r matches Some(p) ==> {
                &&& p.key@ == sha256_of(key@)
                &&& self.value_at(p.key@) == Some(p.value@)
                &&& self.proof_for(p)
            },
    {
        self.generate_proof_for_key(key)
    }

    /// Checks `proof` against `root_commitment` with this trie's committer key.
    pub fn verify_proof(&self, proof: &PathProof, root_commitment: &Vec<u8>) -> (r: Result<bool, CommitError>)
        ensures
            r matches Ok(b) ==> b == accepts(self.keys_spec(), *proof, root_commitment@),
            r matches Err(e) ==> e == CommitError::Scheme,
            proof.path@.len() == 0 || opt_bytes(proof.path@[0].commitment) != Some(root_commitment@) ==> r == Ok::<
                bool,
                CommitError,
            >(false),
            (forall|i: int|
                0 <= i < proof.path@.len() ==> (#[trigger] proof.path@[i]).fingerprints@.len() <= self.degree_spec() + 1)
                ==> r is Ok,
    {
        verify_path_proof(&self.keys, proof, root_commitment)
    }

    /// Whether the value stored under `key` is proved against the root commitment:
    /// false when nothing is stored under it or the root is not committed.
    pub fn verify_path(&self, key: Vec<u8>) -> (r: Result<bool, CommitError>)
        requires
            self.inv(),
        ensures
            r matches Ok(b) ==> b == self.proved(sha256_of(key@)),
            r matches Err(e) ==> e == CommitError::Scheme,
            self.value_at(sha256_of(key@)) is None ==> r == Ok::<bool, CommitError>(false),
            self.fits_scheme() ==> r is Ok,
    {
        self.verify_key_path(key.as_slice())
    }

    /// Whether the value stored under `key` is proved against the root commitment:
    /// false when nothing is stored under it or the root is not committed.
    pub fn check_commitment_for_key(&self, key: &[u8]) -> (r: Result<bool, CommitError>)
        requires
            self.inv(),
        ensures
            r matches Ok(b) ==> b == self.proved(sha256_of(key@)),
            r matches Err(e) ==> e == CommitError::Scheme,
            self.value_at(sha256_of(key@)) is None ==> r == Ok::<bool, CommitError>(false),
            self.fits_scheme() ==> r is Ok,
    {
        self.verify_key_path(key)
    }

    fn verify_key_path(&self, key: &[u8]) -> (r: Result<bool, CommitError>)
        requires
            self.inv(),
        ensures
            r matches Ok(b) ==> b == self.proved(sha256_of(key@)),
            r matches Err(e) ==> e == CommitError::Scheme,
            self.value_at(sha256_of(key@)) is None ==> r == Ok::<bool, CommitError>(false),
            self.fits_scheme() ==> r is Ok,
    {
        if self.stale {
            return Ok(false);
        }
        let root = match &self.root.commitment {
            Some(c) => c,
            None => {
                return Ok(false);
            },
        };
        match self.generate_proof_for_key(key) {
            None => Ok(false),
            Some(p) => {
                proof {
                    if self.fits_scheme() {
                        crate::path_proof::lemma_describes_fits(p.path@, self.root, p.key@, self.keys.degree_spec() + 1);
                    }
                    assert(p.key@.subrange(0, 0) =~= Seq::<u8>::empty());
                    crate::path_proof::lemma_chain_iff_path(
                        self.keys@,
                        p.path@,
                        self.root,
                        Seq::empty(),
                        levels_for(self.max_depth as nat),
                        p.key@,
                    );
                }
                let ok = self.verify_proof(&p, root)?;
                Ok(ok)
            },
        }
    }
}

/// A proof that a committed trie generates for a stored key is accepted against the
/// trie's root commitment.
pub proof fn law_generated_proofs_verify(t: VerkleTree, p: PathProof)
    requires
        t.inv(),
        t.is_committed(),
        t.proof_for(p),
        t.value_at(p.key@) == Some(p.value@),
    ensures
        t.root_commitment_spec() is Some,
        accepts(t.keys_spec(), p, t.root_commitment_spec()->Some_0),
{
    assert(p.key@.subrange(0, 0) =~= Seq::<u8>::empty());
    crate::path_proof::lemma_path_chain_ok(
        t.keys@,
        p.path@,
        t.root,
        Seq::empty(),
        levels_for(t.max_depth as nat),
        p.key@,
    );
}

/// In a committed trie, every stored value is proved against the root commitment.
pub proof fn law_committed_values_proved(t: VerkleTree, d: Seq<u8>)
    requires
        t.inv(),
        t.is_committed(),
        t.value_at(d) is Some,
    ensures
        t.proved(d),
{
    crate::path_proof::lemma_committed_path(t.root, d, t.keys@);
}

/// Only a stored digest has a path proof.
pub proof fn law_proof_needs_value(t: VerkleTree, p: PathProof)
    requires
        t.proof_for(p),
    ensures
        t.value_at(p.key@) is Some,
{
    crate::path_proof::lemma_describes_some(p.path@, t.root, p.key@);
}

/// A well-formed trie holds exactly one leaf for each stored digest, and none for
/// any other.
pub proof fn law_one_leaf_per_digest(t: VerkleTree, d: Seq<u8>)
    requires
        t.inv(),
    ensures
        t.leaf_count_of(d) == if t.value_at(d) is Some {
            1nat
        } else {
            0nat
        },
{
    crate::trie::lemma_leaf_count(t.root, Seq::empty(), levels_for(t.max_depth as nat), d);
}

/// Two committed tries with the same committer key and depth that store the same
/// values hold the same root commitment, whatever order the values came in.
pub proof fn law_same_contents_same_root(a: VerkleTree, b: VerkleTree)
    requires
        a.inv(),
        b.inv(),
        a.is_committed(),
        b.is_committed(),
        a.keys_spec() == b.keys_spec(),
        a.max_depth_spec() == b.max_depth_spec(),
        forall|d: Seq<u8>| #[trigger] a.value_at(d) == b.value_at(d),
    ensures
        a.root_commitment_spec() is Some,
        a.root_commitment_spec() == b.root_commitment_spec(),
{
    assert forall|d: Seq<u8>| #[trigger] lookup(a.root, d) == lookup(b.root, d) by {
        assert(a.value_at(d) == b.value_at(d));
    }
    crate::commit::lemma_same_values_same_commitment(
        a.root,
        b.root,
        Seq::empty(),
        levels_for(a.max_depth as nat),
        a.keys@,
    );
}

spec fn node_key_empty() -> Seq<u8> {
    crate::trie::node_key_for(Seq::empty())
}

} // verus!
