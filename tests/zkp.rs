use num_bigint::BigUint;
use zkp_chaum_pedersen::{BigNat, ZKP};

fn from_biguint(v: &BigUint) -> BigNat {
    BigNat::from_bytes_be(&v.to_bytes_be())
}

fn n(v: u32) -> BigNat {
    BigNat::from_u32(v)
}

#[test]
fn test_toy_example() {
    let alpha = n(4);
    let beta = n(9);
    let p = n(23);
    let q = n(11);
    let zkp = ZKP::new(alpha.clone(), beta.clone(), p.clone(), q.clone(), n(1));

    let x = n(6);
    let k = n(7);

    let c = n(4);

    let (y1, y2) = (&alpha.modpow(&x, &p), &beta.modpow(&x, &p));
    assert!(y1.equals(&n(2)));
    assert!(y2.equals(&n(3)));
    let (r1, r2) = (&alpha.modpow(&k, &p), &beta.modpow(&k, &p));
    assert!(r1.equals(&n(8)));
    assert!(r2.equals(&n(4)));
    let s = zkp.solve(&k, &c, &x);
    assert!(s.equals(&n(5)));
    assert!(zkp.verify(y1, y2, r1, r2, &s, &c));

    //  fake secret
    let x_fake = n(7);
    let s_fake = zkp.solve(&k, &c, &x_fake);

    assert!(!zkp.verify(y1, y2, r1, r2, &s_fake, &c));
}

#[test]
fn test_toy_example_with_random_generator() {
    let alpha = n(4);
    let beta = n(9);
    let p = n(23);
    let q = n(11);

    let zkp = ZKP::new(alpha.clone(), beta.clone(), p.clone(), q.clone(), p.clone());

    let x = n(6);
    let k = zkp.generate_random();

    // a fake secret passes when q divides c·(x - x_fake): in this small group
    // that happens for c in {0, 11, 22}, so such a challenge is drawn again
    let mut c = zkp.generate_random();
    while c.modpow(&n(1), &q).equals(&n(0)) {
        c = zkp.generate_random();
    }

    let (y1, y2) = (&alpha.modpow(&x, &p), &beta.modpow(&x, &p));
    assert!(y1.equals(&n(2)));
    assert!(y2.equals(&n(3)));
    let (r1, r2) = (&alpha.modpow(&k, &p), &beta.modpow(&k, &p));
    let s = zkp.solve(&k, &c, &x);

    assert!(zkp.verify(y1, y2, r1, r2, &s, &c));

    //  fake secret
    let x_fake = n(7);
    let s_fake = zkp.solve(&k, &c, &x_fake);

    assert!(!zkp.verify(y1, y2, r1, r2, &s_fake, &c));
}

#[test]
fn test_1024_bits_constants() {
    let rng_upper_bound = from_biguint(&BigUint::new(vec![u32::MAX; 4]));
    let p = BigNat::from_bytes_be(&hex::decode("B10B8F96A080E01DDE92DE5EAE5D54EC52C99FBCFB06A3C69A6A9DCA52D23B616073E28675A23D189838EF1E2EE652C013ECB4AEA906112324975C3CD49B83BFACCBDD7D90C4BD7098488E9C219A73724EFFD6FAE5644738FAA31A4FF55BCCC0A151AF5F0DC8B4BD45BF37DF365C1A65E68CFDA76D4DA708DF1FB2BC2E4A4371").expect("could not convert p from hex"));
    let q = BigNat::from_bytes_be(
        &hex::decode("F518AA8781A8DF278ABA4E7D64B7CB9D49462353")
            .expect("could not convert q from hex"),
    );
    let alpha = BigNat::from_bytes_be(&hex::decode("A4D1CBD5C3FD34126765A442EFB99905F8104DD258AC507FD6406CFF14266D31266FEA1E5C41564B777E690F5504F213160217B4B01B886A5E91547F9E2749F4D7FBD7D3B9A92EE1909D0D2263F80A76A6A24C087A091F531DBF0A0169B6A28AD662A4D18E73AFA32D779D5918D08BC8858F4DCEF97C2A24855E6EEB22B3B2E5").expect("could not convert alpha from hex"));

    let mut zkp = ZKP::new(
        alpha.clone(),
        BigNat::from_u32(0),
        p.clone(),
        q.clone(),
        rng_upper_bound,
    );

    // beta can be alpha ^any number because of prime order sets properties
    let beta = alpha.modpow(&zkp.generate_random(), &p);
    zkp.beta = beta.clone();
    let x = zkp.generate_random();
    let k = zkp.generate_random();

    let c = zkp.generate_random();

    let (y1, y2) = (&alpha.modpow(&x, &p), &beta.modpow(&x, &p));
    let (r1, r2) = (&alpha.modpow(&k, &p), &beta.modpow(&k, &p));
    let s = zkp.solve(&k, &c, &x);

    assert!(zkp.verify(y1, y2, r1, r2, &s, &c));

    //  fake secret
    let x_fake = BigNat::from_u32(7);
    let s_fake = zkp.solve(&k, &c, &x_fake);

    assert!(!zkp.verify(y1, y2, r1, r2, &s_fake, &c));
}

#[test]
fn test_2048_bits_constants() {
    let rng_upper_bound = from_biguint(&BigUint::new(vec![u32::MAX; 8]));
    let p = BigNat::from_bytes_be(&hex::decode("AD107E1E9123A9D0D660FAA79559C51FA20D64E5683B9FD1B54B1597B61D0A75E6FA141DF95A56DBAF9A3C407BA1DF15EB3D688A309C180E1DE6B85A1274A0A66D3F8152AD6AC2129037C9EDEFDA4DF8D91E8FEF55B7394B7AD5B7D0B6C12207C9F98D11ED34DBF6C6BA0B2C8BBC27BE6A00E0A0B9C49708B3BF8A317091883681286130BC8985DB1602E714415D9330278273C7DE31EFDC7310F7121FD5A07415987D9ADC0A486DCDF93ACC44328387315D75E198C641A480CD86A1B9E587E8BE60E69CC928B2B9C52172E413042E9B23F10B0E16E79763C9B53DCF4BA80A29E3FB73C16B8E75B97EF363E2FFA31F71CF9DE5384E71B81C0AC4DFFE0C10E64F").expect("could not convert p from hex"));
    let q = BigNat::from_bytes_be(
        &hex::decode("801C0D34C58D93FE997177101F80535A4738CEBCBF389A99B36371EB")
            .expect("could not convert q from hex"),
    );
    let alpha = BigNat::from_bytes_be(&hex::decode("AC4032EF4F2D9AE39DF30B5C8FFDAC506CDEBE7B89998CAF74866A08CFE4FFE3A6824A4E10B9A6F0DD921F01A70C4AFAAB739D7700C29F52C57DB17C620A8652BE5E9001A8D66AD7C17669101999024AF4D027275AC1348BB8A762D0521BC98AE247150422EA1ED409939D54DA7460CDB5F6C6B250717CBEF180EB34118E98D119529A45D6F834566E3025E316A330EFBB77A86F0C1AB15B051AE3D428C8F8ACB70A8137150B8EEB10E183EDD19963DDD9E263E4770589EF6AA21E7F5F2FF381B539CCE3409D13CD566AFBB48D6C019181E1BCFE94B30269EDFE72FE9B6AA4BD7B5A0F1C71CFFF4C19C418E1F6EC017981BC087F2A7065B384B890D3191F2BFA").expect("could not convert alpha from hex"));

    let mut zkp = ZKP::new(
        alpha.clone(),
        BigNat::from_u32(0),
        p.clone(),
        q.clone(),
        rng_upper_bound,
    );

    // beta can be alpha ^any number because of prime order sets properties
    let beta = alpha.modpow(&zkp.generate_random(), &p);
    zkp.beta = beta.clone();
    let x = zkp.generate_random();
    let k = zkp.generate_random();

    let c = zkp.generate_random();

    let (y1, y2) = (&alpha.modpow(&x, &p), &beta.modpow(&x, &p));
    let (r1, r2) = (&alpha.modpow(&k, &p), &beta.modpow(&k, &p));
    let s = zkp.solve(&k, &c, &x);

    assert!(zkp.verify(y1, y2, r1, r2, &s, &c));

    //  fake secret
    let x_fake = BigNat::from_u32(7);
    let s_fake = zkp.solve(&k, &c, &x_fake);

    assert!(!zkp.verify(y1, y2, r1, r2, &s_fake, &c));
}
