//! The vector commitment scheme: KZG commitments (Marlin variant) over BLS12-381.
//!
//! The committer key travels as its serialized bytes, and a commitment is the
//! serialized group element, so that the rest of the library deals in plain bytes.
use ark_ff::PrimeField;
use ark_poly::UVPolynomial;
use ark_poly_commit::PolynomialCommitment;
use ark_serialize::{CanonicalDeserialize, CanonicalSerialize};
use rand::SeedableRng;
use vstd::prelude::*;

verus! {

type Fr = ark_bls12_381::Fr;

type Poly = ark_poly::polynomial::univariate::DensePolynomial<Fr>;

type Kzg = ark_poly_commit::marlin_pc::MarlinKZG10<ark_bls12_381::Bls12_381, Poly>;

type Key = ark_poly_commit::marlin_pc::CommitterKey<ark_bls12_381::Bls12_381>;

/// The largest degree [`setup`] accepts: the parameters grow linearly with it.
pub const MAX_SETUP_DEGREE: usize = 65536;

/// The commitment that the committer key `ck` gives to the vector whose entries are
/// the field elements read from `fingerprints` (little-endian, reduced mod the order).
pub uninterp spec fn commitment_of(ck: Seq<u8>, fingerprints: Seq<Seq<u8>>) -> Seq<u8>;

/// The abstract value of a list of byte strings.
pub open spec fn bytes_seq(v: Seq<Vec<u8>>) -> Seq<Seq<u8>> {
    v.map_values(|b: Vec<u8>| b@)
}

/// Committer parameters of the scheme: the serialized committer key and the
/// largest degree it supports. Only [`setup`] makes them.
pub struct SchemeKeys {
    ck: Vec<u8>,
    degree: usize,
}

impl View for SchemeKeys {
    type V = Seq<u8>;

    closed spec fn view(&self) -> Seq<u8> {
        self.ck@
    }
}

impl SchemeKeys {
    /// The largest polynomial degree these keys commit to.
    pub closed spec fn degree_spec(&self) -> nat {
        self.degree as nat
    }

    /// The largest polynomial degree these keys commit to.
    pub fn degree(&self) -> (r: usize)
        ensures
            r == self.degree_spec(),
    {
        self.degree
    }
}

/// Relies on MarlinKZG10::setup and trim: with a generator seeded by `seed`, they
/// make a committer key for polynomials of degree up to `max_degree`, and refuse
/// only a degree of zero.
#[verifier::external_body]
fn setup_scheme(max_degree: usize, seed: u64) -> (r: Option<SchemeKeys>)
    requires
        max_degree <= MAX_SETUP_DEGREE,
    ensures
        r is Some <==> max_degree >= 1,
        r matches Some(k) ==> k.degree_spec() == max_degree,
{
    let mut rng = rand::rngs::StdRng::seed_from_u64(seed);
    let pp = Kzg::setup(max_degree, None, &mut rng).ok()?;
    let (ck, _vk) = Kzg::trim(&pp, max_degree, 0, None).ok()?;
    let mut bytes = Vec::new();
    ck.serialize_unchecked(&mut bytes).ok()?;
    Some(SchemeKeys { ck: bytes, degree: max_degree })
}

/// Relies on MarlinKZG10::commit, with no hiding and no degree bound: it commits to
/// the polynomial whose coefficients are the fingerprints read as field elements,
/// and refuses only more coefficients than the key has powers.
#[verifier::external_body]
fn commit_vector(keys: &SchemeKeys, fingerprints: &Vec<Vec<u8>>) -> (r: Option<Vec<u8>>)
    ensures
        r matches Some(c) ==> c@ == commitment_of(keys@, bytes_seq(fingerprints@)),
        fingerprints.len() <= keys.degree_spec() + 1 ==> r is Some,
{
    let ck = Key::deserialize_unchecked(&keys.ck[..]).ok()?;
    let coeffs = fingerprints.iter().map(|f| Fr::from_le_bytes_mod_order(f)).collect();
    let poly = ark_poly_commit::LabeledPolynomial::new(String::new(), Poly::from_coefficients_vec(coeffs), None, None);
    let (comms, _) = Kzg::commit(&ck, std::iter::once(&poly), None).ok()?;
    let mut bytes = Vec::new();
    comms[0].commitment().serialize(&mut bytes).ok()?;
    Some(bytes)
}

/// Why a commitment could not be made.
#[derive(Debug, Clone, Copy, PartialEq, Eq, Structural)]
pub enum CommitError {
    /// The branching factor is not the digest alphabet size.
    Configuration,
    /// The commitment scheme refused to set up or to commit.
    Scheme,
}

/// Makes committer keys for polynomials of degree up to `max_degree`, from the
/// random `seed`.
pub fn setup(max_degree: usize, seed: u64) -> (r: Result<SchemeKeys, CommitError>)
    requires
        max_degree <= MAX_SETUP_DEGREE,
    ensures
        r is Ok <==> max_degree >= 1,
        r matches Ok(k) ==> k.degree_spec() == max_degree,
        r matches Err(e) ==> e == CommitError::Scheme,
{
    match setup_scheme(max_degree, seed) {
        Some(k) => Ok(k),
        None => Err(CommitError::Scheme),
    }
}

/// Commits to the vector of `fingerprints`.
pub fn commit(keys: &SchemeKeys, fingerprints: &Vec<Vec<u8>>) -> (r: Result<Vec<u8>, CommitError>)
    ensures
        r matches Ok(c) ==> c@ == commitment_of(keys@, bytes_seq(fingerprints@)),
        r matches Err(e) ==> e == CommitError::Scheme,
        fingerprints.len() <= keys.degree_spec() + 1 ==> r is Ok,
{
    match commit_vector(keys, fingerprints) {
        Some(c) => Ok(c),
        None => Err(CommitError::Scheme),
    }
}

} // verus!
