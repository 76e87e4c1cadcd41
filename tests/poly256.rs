use lb_vrf::karatsuba::{karatsuba, school_book_without_reduction};
use lb_vrf::codec::{
    pack_mod_beta_poly, pack_mod_q_poly, pack_trinary, pack_words, unpack_mod_beta_poly, unpack_mod_q_poly,
    unpack_trinary, unpack_words, CodecError, Serdes,
};
use lb_vrf::param::{BETA, Q};
use lb_vrf::poly256::{poly256_inner_product, Poly256};
use lb_vrf::poly32::Poly32;
use lb_vrf::rng::KeyStream;

fn stream(tag: u8) -> KeyStream {
    KeyStream::new([tag; 32])
}

#[test]
fn test_rand_mod_q() {
    let mut ks = stream(1);
    let a = Poly256::uniform_random(&mut ks).unwrap();
    for e in a.coeff.iter() {
        assert!(*e < Q, "coefficient greater than Q")
    }
}

#[test]
fn test_rand_mod_beta() {
    let mut ks = stream(2);
    let a = Poly256::rand_mod_beta(&mut ks).unwrap();
    for e in a.coeff.iter() {
        assert!(*e <= BETA && *e >= -BETA, "coefficient greater than beta")
    }
}

#[test]
fn test_rand_trinary() {
    let mut ks = stream(3);
    let a = Poly256::rand_trinary(&mut ks).unwrap();
    for e in a.coeff.iter() {
        assert!(*e <= 1 && *e >= -1, "coefficient not trinary")
    }
}

#[test]
fn test_poly256_mul() {
    let mut ks = stream(4);

    // zero
    let a = Poly256::zero();
    let b = Poly256::uniform_random(&mut ks).unwrap();
    let c = Poly256::mul(&a, &b);
    for e in c.coeff.iter() {
        assert!(*e == 0, "coefficient not zero")
    }

    // commutative
    let a = Poly256::uniform_random(&mut ks).unwrap();
    let b = Poly256::uniform_random(&mut ks).unwrap();
    let c = Poly256::mul(&a, &b);
    let d = Poly256::mul(&b, &a);
    assert!(c == d, "coefficient not zero");

    // (x+1) * (x+1) = x^2 + 2x + 1
    let mut a = Poly256::zero();
    a.coeff[0] = 1;
    a.coeff[1] = 1;
    let b = Poly256::mul(&a, &a);
    assert!(b.coeff[0] == 1);
    assert!(b.coeff[1] == 2);
    assert!(b.coeff[2] == 1);
    for i in 3..256 {
        assert!(b.coeff[i] == 0)
    }
}

#[test]
fn test_poly256_inner_prod() {
    let mut a = Poly256::zero();
    a.coeff[0] = 1;
    a.coeff[1] = -1;
    let vec_a = [a; 4];
    let vec_b = [a; 4];
    let c = poly256_inner_product(vec_a.as_ref(), vec_b.as_ref());
    assert!(c.coeff[0] == 4);
    assert!(c.coeff[1] == Q - 8);
    assert!(c.coeff[2] == 4);
    for i in 3..256 {
        assert!(c.coeff[i] == 0)
    }
    println!("{:?}", a.coeff.iter().map(|x| *x as i32).collect::<Vec<i32>>());
}

#[test]
fn test_poly256_serdes() {
    // zero poly
    let a = Poly256::zero();
    let mut buf: Vec<u8> = vec![];
    a.serialize(&mut buf);
    let b = Poly256::deserialize(&buf).unwrap();
    assert_eq!(a, b);

    // random poly
    let mut ks = stream(5);
    let a = Poly256::uniform_random(&mut ks).unwrap();
    let mut buf: Vec<u8> = vec![];
    a.serialize(&mut buf);
    let b = Poly256::deserialize(&buf).unwrap();
    assert_eq!(a, b);

    // trinary poly
    let a = Poly256::rand_trinary(&mut ks).unwrap();
    let mut buf: Vec<u8> = vec![];
    a.serialize(&mut buf);
    let b = Poly256::deserialize(&buf).unwrap();
    assert_eq!(a, b);
}

#[test]
fn test_packing() {
    let mut ks = stream(6);
    let p = Poly256::uniform_random(&mut ks).unwrap();
    let mut v: Vec<u8> = vec![];
    pack_mod_q_poly(&p, &mut v);
    let p2 = unpack_mod_q_poly(&v, 0).unwrap();
    assert_eq!(p, p2);

    let p = Poly256::rand_mod_beta(&mut ks).unwrap();
    let mut v: Vec<u8> = vec![];
    pack_mod_beta_poly(&p, &mut v);
    let p2 = unpack_mod_beta_poly(&v, 0).unwrap();
    assert_eq!(p, p2);
}

#[test]
fn mul_wraps_with_a_sign_change() {
    // x^255 * x = x^256 = -1
    let mut a = Poly256::zero();
    a.coeff[255] = 1;
    let mut b = Poly256::zero();
    b.coeff[1] = 1;
    let c = Poly256::mul(&a, &b);
    assert_eq!(c.coeff[0], Q - 1);
    for i in 1..256 {
        assert_eq!(c.coeff[i], 0);
    }
}

#[test]
fn add_sub_reduce_modulo_q() {
    let mut a = Poly256::zero();
    a.coeff[0] = Q - 1;
    a.coeff[1] = -5;
    let mut b = Poly256::zero();
    b.coeff[0] = 3;
    b.coeff[1] = 2;
    let s = Poly256::add(&a, &b);
    assert_eq!(s.coeff[0], 2);
    assert_eq!(s.coeff[1], Q - 3);
    let d = Poly256::sub(&b, &a);
    assert_eq!(d.coeff[0], 4);
    assert_eq!(d.coeff[1], 7);
}

#[test]
fn normalized_and_centered_ranges() {
    let mut a = Poly256::zero();
    a.coeff[0] = -1;
    a.coeff[1] = Q - 1;
    a.coeff[2] = (Q - 1) / 2;
    a.coeff[3] = (Q + 1) / 2;
    let mut n = a;
    n.normalized();
    assert_eq!(n.coeff[0], Q - 1);
    assert_eq!(n.coeff[1], Q - 1);
    let mut c = a;
    c.centered();
    assert_eq!(c.coeff[0], -1);
    assert_eq!(c.coeff[1], -1);
    assert_eq!(c.coeff[2], (Q - 1) / 2);
    assert_eq!(c.coeff[3], (Q + 1) / 2 - Q);
}

#[test]
fn mod_q_packing_layout() {
    // four 27-bit digits, most significant first, in 14 bytes
    let mut p = Poly256::zero();
    p.coeff[3] = 1;
    p.coeff[0] = 1;
    let mut v: Vec<u8> = vec![];
    pack_mod_q_poly(&p, &mut v);
    assert_eq!(v.len(), 896);
    // 1 << 81 in a 112-bit big-endian field: bit 81 is byte 13 - 81 / 8 = 3, bit 1
    assert_eq!(v[3], 0b10);
    assert_eq!(v[13], 1);
    assert_eq!(v.iter().filter(|b| **b != 0).count(), 2);
}

#[test]
fn mod_q_unpacking_rejects_out_of_range() {
    let v = vec![0xffu8; 896];
    assert!(unpack_mod_q_poly(&v, 0).is_err());
}

#[test]
fn test_poly256_to_poly32() {
    let a: Poly256 = Poly256 {
        coeff: [
            0, 1, 1, 0, 1, 0, 2, 1, 1, 0, 1, 2, 1, 1, 1, 1, 1, 1, 0, 2, 1, 1, 1, 1, 2, 0, 1, 0, 1,
            0, 2, 1, 2, 1, 1, 1, 1, 2, 1, 2, 1, 1, 1, 1, 1, 1, 1, 0, 0, 2, 2, 1, 1, 1, 1, 1, 2, 0,
            0, 0, 0, 1, 0, 0, 2, 0, 0, 2, 1, 1, 0, 0, 2, 2, 2, 0, 0, 2, 1, 0, 0, 2, 2, 2, 1, 2, 2,
            1, 0, 0, 1, 2, 2, 0, 1, 0, 1, 1, 2, 0, 1, 1, 1, 0, 1, 1, 0, 0, 0, 1, 0, 1, 0, 0, 2, 0,
            1, 0, 1, 0, 0, 1, 0, 1, 1, 1, 0, 1, 2, 0, 0, 2, 1, 1, 2, 0, 1, 1, 2, 1, 1, 2, 0, 1, 1,
            2, 2, 2, 1, 2, 2, 2, 0, 2, 0, 2, 1, 0, 0, 1, 2, 2, 0, 2, 2, 1, 0, 1, 2, 1, 2, 0, 2, 0,
            0, 0, 1, 1, 0, 0, 1, 0, 0, 0, 2, 1, 2, 1, 0, 1, 1, 2, 1, 0, 2, 1, 0, 0, 2, 2, 2, 1, 2,
            2, 1, 2, 0, 0, 1, 0, 1, 2, 1, 0, 0, 1, 1, 2, 1, 1, 0, 0, 2, 2, 2, 0, 2, 1, 1, 2, 0, 1,
            0, 0, 1, 0, 2, 0, 1, 1, 1, 0, 0, 2, 1, 0, 1, 2, 1, 1, 0, 0, 0, 2, 0, 1,
        ],
    };
    let b: Poly32 = a.into();
    assert_eq!(
        b,
        Poly32 {
            coeff: [
                630345, 42056, 638005, 1013356, 1673055, 1412743, 1673289, 1473226, 1177611,
                1981827, 1289186, 1256202, 2038640, 700275, 1318891, 2026268, 264705, 1453195,
                529423, 864121, 931761, 1288440, 1757797, 26213, 117352, 957620, 774985, 196767,
                1541244, 146123, 33692, 417834
            ]
        }
    );

    let a: Poly256 = Poly256 {
        coeff: [
            1543767, 418200, 660641, 483072, 1420147, 798945, 1409425, 543594, 1658424, 1915191,
            2087822, 919225, 1966731, 1689454, 783050, 1522806, 685864, 701835, 172480, 1305406,
            457726, 614888, 422826, 592740, 1910486, 1451462, 881194, 1320548, 2045853, 1206818,
            1365764, 1650345, 911421, 807027, 1167896, 985581, 1536281, 1704210, 1162327, 279102,
            111805, 741149, 1642251, 625116, 1891849, 1899668, 785942, 697161, 937107, 1642332,
            1463255, 814834, 502026, 651909, 1751657, 1297308, 830987, 1202219, 657322, 1182296,
            1555822, 1729883, 987108, 721280, 258120, 846510, 1575878, 1550161, 1856321, 1996694,
            1227176, 284265, 1549913, 884754, 2019980, 499890, 1125653, 765079, 1035073, 608716,
            239223, 905709, 1129391, 230080, 1585528, 1468355, 1451629, 495898, 1575278, 1386810,
            72855, 1071661, 2003471, 1607371, 2033720, 199360, 1985204, 1938279, 1677071, 683393,
            1058284, 335248, 389929, 1317940, 1515205, 238005, 1960484, 1262641, 2077729, 638764,
            764684, 1017493, 1363606, 1105168, 704647, 1239951, 335024, 960231, 2042722, 364891,
            36365, 1889311, 1064771, 1540096, 1096182, 1081754, 191890, 1407750, 403154, 2074207,
            80117, 337302, 1730525, 1331853, 1051689, 1660268, 1788639, 545596, 1848240, 123850,
            296057, 340164, 645597, 1119471, 1847451, 625187, 390448, 660830, 814309, 541366,
            1222243, 576219, 889278, 1570893, 1140291, 934780, 773981, 360548, 549008, 536591,
            976774, 1104336, 527219, 183376, 16464, 111911, 1878802, 533463, 1144914, 291862,
            855199, 2035236, 1228398, 1582956, 94113, 1344643, 1198915, 827203, 1702710, 296085,
            258609, 64039, 875239, 1717573, 825440, 1666544, 872131, 1389028, 687915, 528667,
            976921, 1492826, 582604, 1977599, 1628442, 1290199, 127643, 922678, 733876, 882094,
            394844, 142050, 1067224, 1428351, 612273, 179007, 1653969, 311158, 1880983, 191308,
            1600293, 788186, 95810, 42302, 1340218, 1115093, 1098495, 497348, 118844, 1186097,
            1291212, 1145695, 2031000, 317240, 691492, 566726, 154117, 804422, 1746013, 160334,
            102096, 1672265, 1462833, 1368978, 208102, 1195653, 2063005, 720078, 709569, 813851,
            1440087, 962455, 2063443, 769020, 743219, 1489331, 1772366, 1509545, 1825276, 1155829,
            111979, 909010, 1543760, 276096, 2062686, 720873,
        ],
    };
    let b: Poly32 = a.into();
    assert_eq!(
        b,
        Poly32 {
            coeff: [
                1773376, 2068275, 1434311, 658477, 1569031, 957210, 1403770, 1595308, 101633,
                1554344, 84443, 516658, 68301, 1053749, 241022, 1503900, 2047842, 1959259, 560423,
                1396941, 2061564, 1785086, 175570, 1146466, 1239275, 2001886, 1536473, 493469,
                1781752, 787868, 511863, 1339564
            ]
        }
    );
}

#[test]
fn test_karatsuba() {
    let mut ks = KeyStream::new([13u8; 32]);
    let mut a = [0i64; 64];
    for e in a.iter_mut() {
        *e = ks.next_u32().unwrap() as i64 % Q;
    }
    let mut b = [0i64; 64];
    for e in b.iter_mut() {
        *e = ks.next_u32().unwrap() as i64 % Q;
    }
    let mut c1 = vec![0i64; 128];
    let mut c2 = c1.clone();

    karatsuba(&a, &b, &mut c1, 64);
    school_book_without_reduction(&a, &b, &mut c2, 64);
    println!("{:?}", &c1[0..32]);
    for (i, e) in c1.iter().enumerate() {
        assert_eq!(*e % Q, c2[i] % Q)
    }
}

#[test]
fn karatsuba_matches_plain_product_at_128() {
    let mut ks = KeyStream::new([14u8; 32]);
    let mut a = [0i64; 128];
    let mut b = [0i64; 128];
    for i in 0..128 {
        a[i] = ks.next_u32().unwrap() as i64 % Q - Q / 2;
        b[i] = ks.next_u32().unwrap() as i64 % Q - Q / 2;
    }
    let mut c = vec![0i64; 256];
    karatsuba(&a, &b, &mut c, 128);
    for t in 0..256 {
        let mut s: i128 = 0;
        for i in 0..128 {
            if t >= i && t - i < 128 {
                s += a[i] as i128 * b[t - i] as i128;
            }
        }
        assert_eq!(c[t] as i128, s.rem_euclid(Q as i128));
    }
}

#[test]
fn unpacking_short_input_is_truncated() {
    let p = Poly256::zero();
    let mut v: Vec<u8> = vec![];
    pack_trinary(&p, &mut v);
    assert_eq!(unpack_trinary(&v[..63], 0), Err(CodecError::Truncated));
    assert_eq!(unpack_trinary(&v, 1), Err(CodecError::Truncated));
    assert_eq!(unpack_trinary(&v, 0).unwrap(), p);
    assert_eq!(unpack_mod_q_poly(&[0u8; 895], 0), Err(CodecError::Truncated));
    assert_eq!(unpack_mod_beta_poly(&[0u8; 575], 0), Err(CodecError::Truncated));
    assert_eq!(unpack_words(&[0u8; 1023], 0), Err(CodecError::Truncated));
    let mut w: Vec<u8> = vec![];
    pack_words(&p, &mut w);
    assert_eq!(unpack_words(&w, 0).unwrap(), p);
}

#[test]
fn school_book_adds_into_the_buffer() {
    let a = [1i64, 2, 3];
    let b = [4i64, 5, 6];
    let mut c = vec![10i64, 10, 10, 10, 10, 10, 7];
    school_book_without_reduction(&a, &b, &mut c, 3);
    // (1 + 2x + 3x^2)(4 + 5x + 6x^2) = 4 + 13x + 28x^2 + 27x^3 + 18x^4
    assert_eq!(c, vec![14, 23, 38, 37, 28, 10, 7]);
}

#[test]
fn karatsuba_small_sizes_and_long_buffers() {
    let a = [1i64, -2, 3, 4, 5];
    let b = [Q - 1, 2, 0, -7, 1];
    let mut c = vec![0i64; 12];
    c[10] = 99;
    c[11] = -5;
    karatsuba(&a, &b, &mut c, 5);
    for t in 0..10usize {
        let mut s: i64 = 0;
        for i in 0..5usize {
            if t >= i && t - i < 5 {
                s += a[i] * b[t - i];
            }
        }
        assert_eq!(c[t], s);
    }
    assert_eq!(c[10], 99);
    assert_eq!(c[11], -5);
}

#[test]
fn karatsuba_of_nothing_leaves_the_buffer() {
    let mut c = vec![3i64, -4];
    karatsuba(&[], &[], &mut c, 0);
    assert_eq!(c, vec![3, -4]);
}
