use lb_vrf::challenge::{challenge_from_digest, hash_to_challenge};
use lb_vrf::codec::{CodecError, Serdes};
use lb_vrf::keypair::{PublicKey, SecretKey};
use lb_vrf::lbvrf::{check_norm, hash_to_new_basis, Proof, VrfError, LBVRF};
use lb_vrf::param::{Param, BETA_M_KAPPA, KAPPA, Q};
use lb_vrf::poly256::Poly256;
use lb_vrf::rng::KeyStream;
use lb_vrf::VRF;
use rand_chacha::rand_core::{RngCore, SeedableRng};
use rand_chacha::ChaCha20Rng;
use sha2::{Digest, Sha512};

const MESSAGE: &str = "this is a message that vrf signs";

fn setup(seed: [u8; 32]) -> (Param, PublicKey, SecretKey) {
    let param: Param = <LBVRF as VRF>::paramgen(seed).unwrap();
    let (pk, sk) = <LBVRF as VRF>::keygen(seed, param).unwrap();
    (param, pk, sk)
}

#[test]
fn test_keygen() {
    let seed = [0u8; 32];
    let param: Param = <LBVRF as VRF>::paramgen(seed).unwrap();
    let (_pk, _sk) = <LBVRF as VRF>::keygen(seed, param).unwrap();
}

#[test]
fn test_serdes_keygen() {
    let seed = [0u8; 32];
    let param: Param = <LBVRF as VRF>::paramgen(seed).unwrap();
    let (pk, sk) = <LBVRF as VRF>::keygen(seed, param).unwrap();

    let mut buf: Vec<u8> = vec![];
    pk.serialize(&mut buf);
    println!("{:?}", buf);
    let pk2 = <LBVRF as VRF>::PublicKey::deserialize(&buf).unwrap();
    assert_eq!(pk, pk2);

    let mut buf: Vec<u8> = vec![];
    sk.serialize(&mut buf);
    println!("{:?}", buf);
    let sk2 = <LBVRF as VRF>::SecretKey::deserialize(&buf).unwrap();
    assert_eq!(sk, sk2);
}

#[test]
fn test_param_gen() {
    let p = LBVRF::paramgen([0; 32]);
    println!("{:?}", p.is_ok());
}

#[test]
fn test_serdes_param() {
    let seed = [0u8; 32];
    let param: Param = <LBVRF as VRF>::paramgen(seed).unwrap();
    let mut buf: Vec<u8> = vec![];
    param.serialize(&mut buf);
    println!("{:02x?}", &buf[..16]);
    let param2 = Param::deserialize(&buf).unwrap();
    assert_eq!(param, param2);
}

#[test]
fn test_hash_to_challenge() {
    let input = "this is a random input for testing";
    let c = hash_to_challenge(input.as_bytes()).unwrap();
    let mut sum = 0;
    for e in c.coeff.iter() {
        assert!(*e <= 1 || *e >= -1, "coefficients out of range {}", *e);
        if *e != 0 {
            sum += 1;
        }
    }
    assert_eq!(sum, KAPPA)
}

#[test]
fn test_lbvrf() {
    let seed = [0u8; 32];
    let param: Param = <LBVRF as VRF>::paramgen(seed).unwrap();
    let (pk, sk) = <LBVRF as VRF>::keygen(seed, param).unwrap();
    let message = "this is a message that vrf signs";
    let seed = [0u8; 32];
    let proof = <LBVRF as VRF>::prove(message.as_bytes(), param, pk, sk, seed).unwrap();

    let mut buf: Vec<u8> = vec![];
    proof.serialize(&mut buf);
    println!("{:?}", &buf[..16]);
    let proof2 = <LBVRF as VRF>::Proof::deserialize(&buf).unwrap();
    assert_eq!(proof, proof2);

    let res = <LBVRF as VRF>::verify(message.as_bytes(), param, pk, proof).unwrap();
    assert!(res.is_some());
    assert_eq!(res.unwrap(), proof.v);
}

#[test]
fn encodings_have_their_fixed_sizes() {
    let (param, pk, sk) = setup([1u8; 32]);
    let proof = LBVRF::prove(MESSAGE.as_bytes(), param, pk, sk, [2u8; 32]).unwrap();
    let mut b = vec![];
    param.serialize(&mut b);
    assert_eq!(b.len(), 32_256);
    let mut b = vec![];
    pk.serialize(&mut b);
    assert_eq!(b.len(), 3_584);
    let mut b = vec![];
    sk.serialize(&mut b);
    assert_eq!(b.len(), 576);
    let mut b = vec![];
    proof.serialize(&mut b);
    assert_eq!(b.len(), 6_272);
    assert_eq!(Proof::deserialize(&b).unwrap(), proof);
}

#[test]
fn proofs_verify_for_other_seeds() {
    let param = LBVRF::paramgen([3u8; 32]).unwrap();
    let (pk, sk) = LBVRF::keygen([4u8; 32], param).unwrap();
    let m = b"another message";
    let proof = LBVRF::prove(m, param, pk, sk, [5u8; 32]).unwrap();
    assert_eq!(LBVRF::verify(m, param, pk, proof).unwrap(), Some(proof.v));
}

#[test]
fn generation_and_proving_are_deterministic() {
    let seed = [9u8; 32];
    let p1 = LBVRF::paramgen(seed).unwrap();
    let p2 = LBVRF::paramgen(seed).unwrap();
    assert_eq!(p1, p2);
    let k1 = LBVRF::keygen(seed, p1).unwrap();
    let k2 = LBVRF::keygen(seed, p2).unwrap();
    assert_eq!(k1, k2);
    let f1 = LBVRF::prove(MESSAGE.as_bytes(), p1, k1.0, k1.1, seed).unwrap();
    let f2 = LBVRF::prove(MESSAGE.as_bytes(), p2, k2.0, k2.1, seed).unwrap();
    assert_eq!(f1, f2);
}

#[test]
fn golden_proof_bytes_are_reproducible() {
    let zero = [0u8; 32];
    let (param, pk, sk) = setup(zero);
    let mut first = vec![];
    LBVRF::prove(MESSAGE.as_bytes(), param, pk, sk, zero).unwrap().serialize(&mut first);
    let (param, pk, sk) = setup(zero);
    let mut second = vec![];
    LBVRF::prove(MESSAGE.as_bytes(), param, pk, sk, zero).unwrap().serialize(&mut second);
    assert_eq!(first.len(), 6_272);
    assert_eq!(first, second);
}

#[test]
fn tampered_proofs_are_rejected() {
    let (param, pk, sk) = setup([0u8; 32]);
    let m = MESSAGE.as_bytes();
    let proof = LBVRF::prove(m, param, pk, sk, [0u8; 32]).unwrap();

    let mut bad = proof;
    bad.z[0].coeff[0] = if bad.z[0].coeff[0] > 0 { bad.z[0].coeff[0] - 1 } else { bad.z[0].coeff[0] + 1 };
    assert_eq!(LBVRF::verify(m, param, pk, bad).unwrap(), None);

    let mut bad = proof;
    bad.z[8].coeff[255] = if bad.z[8].coeff[255] > 0 { bad.z[8].coeff[255] - 1 } else { bad.z[8].coeff[255] + 1 };
    assert_eq!(LBVRF::verify(m, param, pk, bad).unwrap(), None);

    let mut bad = proof;
    bad.c = hash_to_challenge(b"some other challenge").unwrap();
    assert_eq!(LBVRF::verify(m, param, pk, bad).unwrap(), None);

    let mut bad = proof;
    bad.v.coeff[0] = (bad.v.coeff[0] + 1) % Q;
    assert_eq!(LBVRF::verify(m, param, pk, bad).unwrap(), None);

    assert_eq!(LBVRF::verify(b"a different message", param, pk, proof).unwrap(), None);
}

#[test]
fn responses_outside_the_norm_bound_are_rejected() {
    let (param, pk, sk) = setup([0u8; 32]);
    let m = MESSAGE.as_bytes();
    let mut proof = LBVRF::prove(m, param, pk, sk, [0u8; 32]).unwrap();
    proof.z[4].coeff[17] = BETA_M_KAPPA + 1;
    assert!(!check_norm(&proof.z));
    assert_eq!(LBVRF::verify(m, param, pk, proof).unwrap(), None);
}

#[test]
fn accepted_proofs_respect_the_norm_bound() {
    let (param, pk, sk) = setup([6u8; 32]);
    for t in 0..3u8 {
        let proof = LBVRF::prove(MESSAGE.as_bytes(), param, pk, sk, [t; 32]).unwrap();
        assert!(check_norm(&proof.z));
        for z in proof.z.iter() {
            for e in z.coeff.iter() {
                assert!(e.abs() <= 89_817);
            }
        }
    }
}

#[test]
fn challenges_have_exactly_kappa_signs() {
    for input in [&b""[..], b"a", b"another input", &[0xffu8; 100][..]] {
        let c = hash_to_challenge(input).unwrap();
        assert_eq!(c.coeff.iter().filter(|e| **e != 0).count(), KAPPA);
        assert!(c.coeff.iter().all(|e| *e == 0 || *e == 1 || *e == -1));
    }
}

#[test]
fn challenge_uses_sha512_of_input_and_label() {
    let input = b"this is a random input for testing";
    let mut h = Sha512::new();
    h.update(input);
    h.update(b"domain seperator: hash to challenge");
    let digest: [u8; 64] = h.finalize().into();
    let expected = challenge_from_digest(&digest).unwrap();
    assert_eq!(hash_to_challenge(input).unwrap(), expected);
}

#[test]
fn challenge_from_digest_sets_named_slots() {
    // position bytes 5, 6, ... and sign bits from byte 63 downwards
    let mut d = [0u8; 64];
    for i in 0..64 {
        d[i] = i as u8 + 5;
    }
    d[63] = 0b0101;
    let c = challenge_from_digest(&d).unwrap();
    assert_eq!(c.coeff[5], 1);
    assert_eq!(c.coeff[6], -1);
    assert_eq!(c.coeff[7], 1);
    assert_eq!(c.coeff[8], -1);
    assert_eq!(c.coeff[4], 0);
    assert_eq!(c.coeff.iter().filter(|e| **e != 0).count(), KAPPA);
}

#[test]
fn challenge_from_a_flat_digest_runs_out() {
    assert!(challenge_from_digest(&[0u8; 64]).is_none());
}

#[test]
fn basis_uses_a_keystream_keyed_by_the_digest() {
    let input = b"digest";
    let b1 = hash_to_new_basis(input).unwrap();
    let b2 = hash_to_new_basis(input).unwrap();
    assert_eq!(b1, b2);
    let mut h = Sha512::new();
    h.update(input);
    h.update(b"domain seperator: hash to basis");
    let digest: [u8; 64] = h.finalize().into();
    let mut seed = [0u8; 32];
    seed.copy_from_slice(&digest[..32]);
    let mut ks = KeyStream::new(seed);
    assert_eq!(b1[0], Poly256::uniform_random(&mut ks).unwrap());
}

#[test]
fn keystream_matches_chacha20() {
    let seed = [42u8; 32];
    let mut rng = ChaCha20Rng::from_seed(seed);
    let mut ks = KeyStream::new(seed);
    for _ in 0..40 {
        assert_eq!(ks.next_u32(), Some(rng.next_u32()));
    }
    assert_eq!(ks.next_u64(), Some(rng.next_u64()));
    assert_eq!(ks.pos, 42);
}

#[test]
fn exhausted_keystream_gives_nothing() {
    let mut ks = KeyStream { seed: [0u8; 32], pos: u64::MAX };
    assert_eq!(ks.next_u32(), None);
    assert!(Poly256::uniform_random(&mut ks).is_none());
}

#[test]
fn truncated_input_is_rejected() {
    assert_eq!(Param::deserialize(&[0u8; 100]), Err(CodecError::Truncated));
    assert_eq!(PublicKey::deserialize(&[0u8; 3_583]), Err(CodecError::Truncated));
    assert_eq!(SecretKey::deserialize(&[0u8; 575]), Err(CodecError::Truncated));
    assert_eq!(Proof::deserialize(&[0u8; 6_271]), Err(CodecError::Truncated));
}

#[test]
fn out_of_range_input_is_rejected() {
    assert_eq!(PublicKey::deserialize(&[0xffu8; 3_584]), Err(CodecError::OutOfRange));
    assert_eq!(Param::deserialize(&[0xffu8; 32_256]), Err(CodecError::OutOfRange));
    assert_eq!(Proof::deserialize(&[0xffu8; 6_272]), Err(CodecError::OutOfRange));
}

#[test]
fn scheme_rejects_parameters_out_of_range() {
    let mut param = LBVRF::paramgen([0u8; 32]).unwrap();
    param.matrix[1][2].coeff[3] = Q;
    assert_eq!(<LBVRF as VRF>::keygen([0u8; 32], param), Err(VrfError::OutOfRange));
}

#[test]
fn large_responses_give_no_output() {
    let (param, pk, sk) = setup([0u8; 32]);
    let m = MESSAGE.as_bytes();
    let mut proof = LBVRF::prove(m, param, pk, sk, [0u8; 32]).unwrap();
    proof.z[2].coeff[9] = 10 * Q;
    assert_eq!(LBVRF::verify(m, param, pk, proof).unwrap(), None);
    assert_eq!(<LBVRF as VRF>::verify(m, param, pk, proof), Ok(None));
}

#[test]
fn secret_keys_are_trinary() {
    let (_param, _pk, sk) = setup([5u8; 32]);
    for p in sk.s.iter() {
        assert!(p.coeff.iter().all(|e| (-1..=1).contains(e)));
    }
}

#[test]
fn scheme_rejects_out_of_range_inputs() {
    let (param, pk, sk) = setup([0u8; 32]);
    let m = MESSAGE.as_bytes();
    let mut bad_sk = sk;
    bad_sk.s[0].coeff[0] = 5;
    assert_eq!(<LBVRF as VRF>::prove(m, param, pk, bad_sk, [0u8; 32]), Err(VrfError::OutOfRange));
    let proof = LBVRF::prove(m, param, pk, sk, [0u8; 32]).unwrap();
    let mut bad = proof;
    bad.v.coeff[3] = -1;
    assert_eq!(<LBVRF as VRF>::verify(m, param, pk, bad), Err(VrfError::OutOfRange));
}

fn hex(bytes: &[u8]) -> String {
    bytes.iter().map(|b| format!("{:02x}", b)).collect()
}

#[test]
fn golden_proof_for_zero_seeds() {
    let zero = [0u8; 32];
    let (param, pk, sk) = setup(zero);
    let mut bytes = vec![];
    LBVRF::prove(MESSAGE.as_bytes(), param, pk, sk, zero).unwrap().serialize(&mut bytes);
    assert_eq!(bytes.len(), 6_272);
    let digest: [u8; 64] = Sha512::digest(&bytes).into();
    assert_eq!(hex(&bytes[..32]), "414a57f11488f982068d3dc0a0193d1df2d532fe8b3065308062362927e55fd4");
    assert_eq!(hex(&bytes[6_240..]), "031a72b104ef26bb01a51d5102016e490546c717005983c303874d3103fd16a6");
    assert_eq!(
        hex(&digest),
        "f215bcebd3c547ad4d013449a65ea2c322f6973f4904f39a03fb6ad95258c574\
         10e308065bc4966878851dd114294274223a48d8066132fac30c264b5adf0196"
    );
}

#[test]
fn reencoding_decoded_bytes_reproduces_them() {
    let mut bytes: Vec<u8> = (0..576u32).map(|i| (i * 37 % 256) as u8).collect();
    let sk = SecretKey::deserialize(&bytes).unwrap();
    let mut again = vec![];
    sk.serialize(&mut again);
    assert_eq!(again, bytes);

    bytes = (0..6_272u32).map(|i| (i * 101 % 256) as u8).collect();
    for b in bytes[5_248..].iter_mut() {
        *b = 0;
    }
    let proof = Proof::deserialize(&bytes).unwrap();
    let mut again = vec![];
    proof.serialize(&mut again);
    assert_eq!(again, bytes);

    let mut pk_bytes = vec![];
    setup([8u8; 32]).1.serialize(&mut pk_bytes);
    let pk = PublicKey::deserialize(&pk_bytes).unwrap();
    let mut again = vec![];
    pk.serialize(&mut again);
    assert_eq!(again, pk_bytes);

    let words: Vec<u8> = (0..1_024u32).map(|i| (i * 13 % 256) as u8).collect();
    let p = Poly256::deserialize(&words).unwrap();
    let mut again = vec![];
    p.serialize(&mut again);
    assert_eq!(again, words);
}
