use lb_vrf::codec::Serdes;
use lb_vrf::param::P;
use lb_vrf::poly32::{poly32_inner_product, Poly32};
use lb_vrf::rng::KeyStream;

#[test]
fn test_rand_mod_p() {
    let mut ks = KeyStream::new([11u8; 32]);
    let a = Poly32::uniform_random(&mut ks).unwrap();
    for e in a.coeff.iter() {
        assert!(*e < P, "coefficient greater than Q")
    }
}

#[test]
fn test_poly32_mul() {
    let mut ks = KeyStream::new([12u8; 32]);

    // zero
    let a = Poly32::zero();
    let b = Poly32::uniform_random(&mut ks).unwrap();
    let c = Poly32::mul(&a, &b);
    for e in c.coeff.iter() {
        assert!(*e == 0, "coefficient not zero")
    }

    // commutative
    let a = Poly32::uniform_random(&mut ks).unwrap();
    let b = Poly32::uniform_random(&mut ks).unwrap();
    let c = Poly32::mul(&a, &b);
    let d = Poly32::mul(&b, &a);
    assert!(c == d, "coefficient not zero");

    // (x+1) * (x+1) = x^2 + 2x + 1
    let mut a = Poly32::zero();
    a.coeff[0] = 1;
    a.coeff[1] = 1;
    let b = Poly32::mul(&a, &a);
    assert!(b.coeff[0] == 1);
    assert!(b.coeff[1] == 2);
    assert!(b.coeff[2] == 1);
    for i in 3..32 {
        assert!(b.coeff[i] == 0)
    }
}

#[test]
fn test_poly32_inner_prod() {
    let mut a = Poly32::zero();
    a.coeff[0] = 1;
    a.coeff[1] = -1;
    let vec_a = [a; 4];
    let vec_b = [a; 4];
    let c = poly32_inner_product(vec_a.as_ref(), vec_b.as_ref());
    println!("{:?}", c);
    assert!(c.coeff[0] == 4);
    assert!(c.coeff[1] == P - 8);
    assert!(c.coeff[2] == 4);
    for i in 3..32 {
        assert!(c.coeff[i] == 0)
    }
    println!("{:?}", a.coeff.iter().map(|x| *x as i32).collect::<Vec<i32>>());
}

#[test]
fn poly32_mul_wraps_to_minus_r() {
    // x^31 * x = x^32 = -R
    let mut a = Poly32::zero();
    a.coeff[31] = 1;
    let mut b = Poly32::zero();
    b.coeff[1] = 1;
    let c = Poly32::mul(&a, &b);
    assert_eq!(c.coeff[0], P - lb_vrf::param::R);
    for i in 1..32 {
        assert_eq!(c.coeff[i], 0);
    }
}

#[test]
fn test_poly32_serdes() {
    // zero poly
    let a = Poly32::zero();
    let mut buf: Vec<u8> = vec![];
    a.serialize(&mut buf);
    let b = Poly32::deserialize(&buf).unwrap();
    assert_eq!(a, b);

    // random poly
    let mut ks = KeyStream::new([15u8; 32]);
    let a = Poly32::uniform_random(&mut ks).unwrap();
    let mut buf: Vec<u8> = vec![];
    a.serialize(&mut buf);
    assert_eq!(buf.len(), 88);
    let b = Poly32::deserialize(&buf).unwrap();
    assert_eq!(a, b);
}
