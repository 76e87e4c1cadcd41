//! A lattice-based verifiable random function over the ring Z_Q[x]/(x^256 + 1).
use vstd::prelude::*;

pub mod algebra;
pub mod challenge;
pub mod codec;
pub mod codec32;
pub mod hash;
pub mod karatsuba;
pub mod keypair;
pub mod lbvrf;
pub mod param;
pub mod poly256;
pub mod poly32;
pub mod rng;

verus! {

/// A verifiable random function scheme.
pub trait VRF {
    type PubParam;
    type PublicKey;
    type SecretKey;
    type Proof;
    type VrfOutput;

    /// What `paramgen` returns for `seed`.
    spec fn paramgen_post(seed: Seq<u8>, r: Result<Self::PubParam, lbvrf::VrfError>) -> bool;

    /// What `keygen` returns for `seed` and `pp`.
    spec fn keygen_post(
        seed: Seq<u8>,
        pp: Self::PubParam,
        r: Result<(Self::PublicKey, Self::SecretKey), lbvrf::VrfError>,
    ) -> bool;

    /// What `prove` returns for its arguments.
    spec fn prove_post(
        message: Seq<u8>,
        pp: Self::PubParam,
        pk: Self::PublicKey,
        sk: Self::SecretKey,
        seed: Seq<u8>,
        r: Result<Self::Proof, lbvrf::VrfError>,
    ) -> bool;

    /// What `verify` returns for its arguments.
    spec fn verify_post(
        message: Seq<u8>,
        pp: Self::PubParam,
        pk: Self::PublicKey,
        proof: Self::Proof,
        r: Result<Option<Self::VrfOutput>, lbvrf::VrfError>,
    ) -> bool;

    /// The public parameters of `seed`.
    fn paramgen(seed: [u8; 32]) -> (r: Result<Self::PubParam, lbvrf::VrfError>)
        ensures
            Self::paramgen_post(seed@, r),
    ;

    /// A key pair for the parameters `pp`, drawn from `seed`.
    fn keygen(seed: [u8; 32], pp: Self::PubParam) -> (r: Result<(Self::PublicKey, Self::SecretKey), lbvrf::VrfError>)
        ensures
            Self::keygen_post(seed@, pp, r),
    ;

    /// A proof for `message` under the key pair, with randomness drawn from `seed`.
    fn prove(
        message: &[u8],
        pp: Self::PubParam,
        pk: Self::PublicKey,
        sk: Self::SecretKey,
        seed: [u8; 32],
    ) -> (r: Result<Self::Proof, lbvrf::VrfError>)
        ensures
            Self::prove_post(message@, pp, pk, sk, seed@, r),
    ;

    /// The output for `message` if `proof` is valid under `pk`.
    fn verify(
        message: &[u8],
        pp: Self::PubParam,
        pk: Self::PublicKey,
        proof: Self::Proof,
    ) -> (r: Result<Option<Self::VrfOutput>, lbvrf::VrfError>)
        ensures
            Self::verify_post(message@, pp, pk, proof, r),
    ;
}

} // verus!
