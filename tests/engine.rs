use zkp_chaum_pedersen::{BigNat, ZKP};

fn n(v: u32) -> BigNat {
    BigNat::from_u32(v)
}

fn toy() -> ZKP {
    ZKP::new(n(4), n(9), n(23), n(11), n(11))
}

#[test]
fn from_u32_round_trips_through_bytes() {
    let v = n(0x0102_0304);
    assert_eq!(v.to_bytes_be(), vec![1, 2, 3, 4]);
    assert!(BigNat::from_bytes_be(&[0, 0, 1, 2, 3, 4]).equals(&v));
    assert!(BigNat::from_bytes_be(&[]).equals(&n(0)));
}

#[test]
fn arithmetic_wrappers_compute() {
    assert!(n(6).mul(&n(7)).equals(&n(42)));
    assert!(n(42).sub(&n(40)).equals(&n(2)));
    assert!(n(4).modpow(&n(5), &n(23)).equals(&n(12)));
    assert!(n(7).ge(&n(7)));
    assert!(!n(6).ge(&n(7)));
    assert!(!n(6).equals(&n(7)));
    let big = BigNat::from_bytes_be(&[1, 0, 0, 0, 0, 0, 0, 0, 0]);
    assert!(big.mul(&big).equals(&BigNat::from_bytes_be(&[1, 0, 0, 0, 0, 0, 0, 0, 0, 0, 0, 0, 0, 0, 0, 0, 0])));
}

#[test]
fn commit_gives_toy_public_values() {
    let zkp = toy();
    let (y1, y2) = zkp.commit(&n(6));
    assert!(y1.equals(&n(2)) && y2.equals(&n(3)));
    let (r1, r2) = zkp.commit(&n(7));
    assert!(r1.equals(&n(8)) && r2.equals(&n(4)));
}

#[test]
fn solve_stays_below_q_on_both_branches() {
    let zkp = toy();
    // k == c·x
    assert!(zkp.solve(&n(24), &n(4), &n(6)).equals(&n(0)));
    // k < c·x with c·x - k a multiple of q: the answer is 0, not q
    assert!(zkp.solve(&n(2), &n(4), &n(6)).equals(&n(0)));
    // k < c·x otherwise
    assert!(zkp.solve(&n(7), &n(4), &n(6)).equals(&n(5)));
    // k > c·x
    assert!(zkp.solve(&n(30), &n(4), &n(6)).equals(&n(6)));
    for k in 0..40u32 {
        let s = zkp.solve(&n(k), &n(3), &n(5));
        assert!(!s.ge(&n(11)));
    }
}

#[test]
fn verify_needs_both_equations() {
    let zkp = toy();
    assert!(zkp.verify(&n(2), &n(3), &n(8), &n(4), &n(5), &n(4)));
    // first equation holds, second does not
    assert!(!zkp.verify(&n(2), &n(3), &n(8), &n(5), &n(5), &n(4)));
    // second holds, first does not
    assert!(!zkp.verify(&n(2), &n(3), &n(9), &n(4), &n(5), &n(4)));
}

#[test]
fn honest_prover_accepted_for_every_challenge() {
    let zkp = toy();
    for x in 0..11u32 {
        for k in 0..11u32 {
            for c in 0..11u32 {
                let (y1, y2) = zkp.commit(&n(x));
                let (r1, r2) = zkp.commit(&n(k));
                let s = zkp.solve(&n(k), &n(c), &n(x));
                assert!(zkp.verify(&y1, &y2, &r1, &r2, &s, &n(c)));
            }
        }
    }
}

#[test]
fn wrong_secret_rejected_unless_q_divides() {
    let zkp = toy();
    let (y1, y2) = zkp.commit(&n(6));
    let (r1, r2) = zkp.commit(&n(7));
    for c in 1..11u32 {
        let s_fake = zkp.solve(&n(7), &n(c), &n(7));
        assert!(!zkp.verify(&y1, &y2, &r1, &r2, &s_fake, &n(c)));
    }
    let s_zero = zkp.solve(&n(7), &n(0), &n(7));
    assert!(zkp.verify(&y1, &y2, &r1, &r2, &s_zero, &n(0)));
}

#[test]
fn random_draws_stay_below_bound() {
    let zkp = toy();
    for _ in 0..200 {
        assert!(!zkp.generate_random().ge(&n(11)));
    }
}

#[test]
fn deployed_group_is_consistent() {
    let (alpha, beta, p, q, bound) = ZKP::get_1024_bits_config();
    assert_eq!(q.to_bytes_be(), hex::decode("F518AA8781A8DF278ABA4E7D64B7CB9D49462353").unwrap());
    assert_eq!(p.to_bytes_be().len(), 128);
    assert_eq!(bound.to_bytes_be(), vec![255u8; 16]);
    assert!(beta.equals(&alpha.modpow(&n(1_469_131_869), &p)));
    // alpha and beta have order q
    assert!(alpha.modpow(&q, &p).equals(&n(1)));
    assert!(beta.modpow(&q, &p).equals(&n(1)));
    let zkp = ZKP::new(alpha, beta, p, q, bound);
    let x = zkp.generate_random();
    let k = zkp.generate_random();
    let c = zkp.generate_random();
    let (y1, y2) = zkp.commit(&x);
    let (r1, r2) = zkp.commit(&k);
    assert!(zkp.verify(&y1, &y2, &r1, &r2, &zkp.solve(&k, &c, &x), &c));
}
