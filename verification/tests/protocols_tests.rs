use clock_ecc::algebra::arith;
use clock_ecc::algebra::arith::DomainError;
use clock_ecc::algebra::gcd;
use clock_ecc::curves::clockcurve;
use clock_ecc::signatures::ecdsa;
use clock_ecc::signatures::schnorr;
use clock_ecc::subgroups::subgroup;
use clock_ecc::zkps::spake2;

#[test]
#[allow(non_snake_case)]
fn ecdh_test() {
    let a = 8;
    let b = 66;
    let clockcurve = clockcurve::ClockCurve::default();

    let A = clockcurve.scalar_basemul(a);
    let B = clockcurve.scalar_basemul(b);
    println!("{:?}, {:?}", A, B);
    // Point { x: 30, y: 0 }, Point { x: 18, y: 24 }

    let sa = clockcurve.scalar_mul(A, b);
    let sb = clockcurve.scalar_mul(B, a);

    println!("{:?}, {:?}", sa, sb);
    // Point { x: 0, y: 30 }, Point { x: 0, y: 30 }

    assert_eq!(sa, sb);
}

#[test]
#[allow(non_snake_case)]
fn spake2_test() {
    // password.
    let w = 7;
    let clockcurve = clockcurve::ClockCurve::default();

    let m = 11;
    let M = clockcurve.scalar_basemul(m);

    let x = 66;
    let X = clockcurve.scalar_basemul(x);

    let wM = clockcurve.scalar_mul(M, w);
    let T = clockcurve.scalar_add(wM, X);

    let n = 23;
    let N = clockcurve.scalar_basemul(n);
    let y = 88;
    let Y = clockcurve.scalar_basemul(y);

    let wN = clockcurve.scalar_mul(N, w);
    let S = clockcurve.scalar_add(wN, Y);

    let SwN = clockcurve.scalar_sub(S, wN);
    let KBob = clockcurve.scalar_mul(SwN, x);

    let TwM = clockcurve.scalar_sub(T, wM);
    let KAlice = clockcurve.scalar_mul(TwM, y);
    assert_eq!(KBob, KAlice);
}

#[test]
fn signatures_ecdsa_test() {
    let message = 10;
    let private = 5;
    let randomk = 7;

    let ecd = ecdsa::ECDSA::new();
    let (r, s) = ecd.sign(message, private, randomk).unwrap();
    println!("signature: r:{},s:{}", r, s);
    // signature: r:11,s:23

    let pubkey = ecd.pubkey(private);
    let verify = ecd.verify(message, pubkey, r, s);
    assert_eq!(verify, Ok(true));
}

#[test]
fn signatures_ecdsa_key_leakage_from_nonce_reuse_test() {
    let randomk = 7;
    let private = 5;
    let (message1, message2) = (8, 9);

    let ecd = ecdsa::ECDSA::new();
    let (r1, s1) = ecd.sign(message1, private, randomk).unwrap();
    println!(
        "private:{}, randomk:{}, message:{}, signature: <r:{},s:{}>",
        private, randomk, message1, r1, s1
    );
    // private:5, randomk:7, message:8, signature: <r:11,s:9>

    let (r2, s2) = ecd.sign(message2, private, randomk).unwrap();
    println!(
        "private:{}, randomk:{}, message:{}, signature: <r:{},s:{}>",
        private, randomk, message2, r2, s2
    );
    // private:5, randomk:7, message:9, signature: <r:11,s:0>

    // k = (H(m1) - H(m2)) / (s1 - s2)
    let m = ecd.group.order();
    let h1h2 = arith::mod_sub(message1, message2, m);
    let s1s2 = arith::mod_sub(s1, s2, m);
    let k = arith::mod_div(h1h2, s1s2, m).unwrap();

    assert_eq!(randomk, k);

    // x1 = ((k * s1) - H(m1)) / r1
    let x1 = arith::mod_div(
        arith::mod_sub(arith::mod_mul(s1, k, m), message1, m),
        r1,
        m,
    )
    .unwrap();
    assert_eq!(private, x1);
}

#[test]
fn signatures_schnorr_test() {
    let message = 10;
    let private = 5;
    let randomk = 7;

    let signature = schnorr::Schnorr::new();
    let (r, s) = signature.sign(message, private, randomk);
    println!("signature: r:{:?},s:{}", r, s);
    // signature: r:Point { x: 11, y: 29 },s:22

    let pubkey = signature.pubkey(private);
    let verify = signature.verify(message, pubkey, r, s);
    assert_eq!(verify, true);
}

#[test]
fn signatures_schnorr_batch_verify_test() {
    let (message1, message2) = (10, 11);
    let (private1, private2) = (8, 9);
    let (randomk1, randomk2) = (9, 10);

    let signature = schnorr::Schnorr::new();
    let (r1, s1) = signature.sign(message1, private1, randomk1);
    println!(
        "private:{}, randomk:{}, message:{}, signature: <r:{:?},s:{}>",
        private1, randomk1, message1, r1, s1
    );
    // private:8, randomk:9, message:10, signature: <r:Point { x: 11, y: 2 },s:1>

    let pubkey1 = signature.pubkey(private1);
    let verify1 = signature.verify(message1, pubkey1, r1, s1);
    assert_eq!(verify1, true);

    let (r2, s2) = signature.sign(message2, private2, randomk2);
    println!(
        "private:{}, randomk:{}, message:{}, signature: <r:{:?},s:{}>",
        private2, randomk2, message2, r2, s2
    );
    // private:9, randomk:10, message:11, signature: <r:Point { x: 7, y: 18 },s:19>

    let pubkey2 = signature.pubkey(private2);
    let verify2 = signature.verify(message2, pubkey2, r2, s2);
    assert_eq!(verify2, true);

    let verify = signature.batch_verify(message1, pubkey1, r1, s1, message2, pubkey2, r2, s2);
    assert_eq!(verify, true);
}

#[test]
fn signatures_schnorr_key_leakage_from_nonce_reuse_test() {
    let randomk = 9;
    let private = 8;
    let (message1, message2) = (10, 11);

    let signature = schnorr::Schnorr::new();
    let (r1, s1) = signature.sign(message1, private, randomk);
    println!(
        "private:{}, randomk:{}, message:{}, signature: <r:{:?},s:{}>",
        private, randomk, message1, r1, s1
    );
    // private:8, randomk:9, message:10, signature: <r:Point { x: 11, y: 2 },s:1>

    let (r2, s2) = signature.sign(message2, private, randomk);
    println!(
        "private:{}, randomk:{}, message:{}, signature: <r:{:?},s:{}>",
        private, randomk, message2, r2, s2
    );
    // private:8, randomk:9, message:11, signature: <r:Point { x: 11, y: 2 },s:25>

    // pk = (s1 - s2)/(hash(r|m1) - hash(r|m2))
    let m = signature.group.order();
    let h1h2 = arith::mod_sub(
        signature.hash(message1, r1.x),
        signature.hash(message2, r2.x),
        m,
    );
    let s1s2 = arith::mod_sub(s1, s2, m);
    let x = arith::mod_div(s1s2, h1h2, m).unwrap();

    assert_eq!(private, x);
}

#[test]
fn subgroups_subgroup_default_test() {
    let sub = subgroup::SubGroup::default();
    let points = sub.points();
    for point in points.iter() {
        println!("{:?}", point);
    }

    assert_eq!(sub.order(), 32);
}

#[test]
fn subgroups_subgroup_order4_test() {
    let g = clockcurve::Point { x: 1, y: 0 };
    let sub = subgroup::SubGroup::new(g);
    let points = sub.points();
    for point in points.iter() {
        println!("{:?}", point);
    }

    assert_eq!(sub.order(), 4);

    // L=32/4=8
    {
        let zero = sub.scalar_basemul(8);
        assert_eq!(zero, sub.infinity);
    }
}

#[test]
#[allow(non_snake_case)]
fn subgroups_subgroup_order_test() {
    let g = clockcurve::Point { x: 2, y: 20 };
    let sub = subgroup::SubGroup::new(g);
    let points = sub.points();
    let orders = [1, 2, 4, 8, 32];

    for odr in orders.iter() {
        for point in points.iter() {
            if sub.curve.scalar_mul(*point, *odr as i8) == sub.infinity {
                println!("order:{:?}, {:?}", *odr, *point);
            }
        }
    }

    // Order 2.
    {
        let p1 = clockcurve::Point { x: 0, y: 30 };
        let p2 = sub.curve.scalar_mul(p1, 2);
        assert_eq!(p2, sub.infinity);
    }

    // Order 4.
    {
        let p1 = clockcurve::Point { x: 1, y: 0 };
        let p2 = sub.curve.scalar_mul(p1, 4);
        assert_eq!(p2, sub.infinity);
    }

    // Order 8.
    {
        let p1 = clockcurve::Point { x: 27, y: 27 };
        let p2 = sub.curve.scalar_mul(p1, 8);
        assert_eq!(p2, sub.infinity);
    }

    {
        let c = 20;
        // I(7,13) in the group order 32.
        let I = clockcurve::Point { x: 7, y: 13 };
        let cI = sub.curve.scalar_mul(I, c);
        println!("{}*{:?}(in group order [32]) = {:?}", c, I, cI);

        // L(1,0) in the order (4,8,32).
        let L = clockcurve::Point { x: 1, y: 0 };
        let cL = sub.curve.scalar_mul(L, c);
        println!("{}*{:?}(in group order [4,8,32]) = {:?}", c, L, cL);
        assert_eq!(sub.infinity, cL);

        // c*U = c*L + c*I = 0 + c*I = c*I
        let U = sub.curve.scalar_add(L, I);
        let cU = sub.curve.scalar_mul(U, c);
        println!("U=(I+L): {:?}", U);
        println!("c*U = c*(I+L) = (0 + c*I) = c*I= {:?}", cU);
        assert_ne!(I, U);
        assert_eq!(cI, cU);
    }
}

#[test]
fn zkps_spake2_test() {
    let password = 7;

    // Alice.
    let alice_rand_number = 11;
    let alice_secret_number = 66;
    let alice = spake2::SPAKE2::new(password, alice_rand_number, alice_secret_number);
    let alice_pake_key = alice.pake_key();

    // Bob.
    let bob_rand_number = 23;
    let bob_secret_number = 88;
    let bob = spake2::SPAKE2::new(password, bob_rand_number, bob_secret_number);
    let bob_pake_key = bob.pake_key();

    // Check the final key.
    let alice_final_key = alice.final_key(bob_pake_key, bob.password_pubkey);
    let bob_final_key = bob.final_key(alice_pake_key, alice.password_pubkey);
    assert_eq!(alice_final_key, bob_final_key);
}

#[test]
fn default_subgroup_lists_its_orbit() {
    let sub = subgroup::SubGroup::default();
    assert_eq!(sub.infinity, clockcurve::Point { x: 0, y: 1 });
    assert_eq!(sub.basepoint, clockcurve::Point { x: 2, y: 20 });
    let expected: [(i8, i8); 32] = [
        (2, 20),
        (18, 24),
        (5, 10),
        (27, 4),
        (21, 26),
        (7, 13),
        (11, 29),
        (30, 0),
        (11, 2),
        (7, 18),
        (21, 5),
        (27, 27),
        (5, 21),
        (18, 7),
        (2, 11),
        (0, 30),
        (29, 11),
        (13, 7),
        (26, 21),
        (4, 27),
        (10, 5),
        (24, 18),
        (20, 2),
        (1, 0),
        (20, 29),
        (24, 13),
        (10, 26),
        (4, 4),
        (26, 10),
        (13, 24),
        (29, 20),
        (0, 1),
    ];
    let points = sub.points();
    assert_eq!(points.len(), 32);
    for (i, p) in points.iter().enumerate() {
        assert_eq!((p.x, p.y), expected[i]);
        assert_eq!(*p, sub.scalar_basemul(i as i8 + 1));
    }
    assert_eq!(sub.scalar_basemul(32), sub.infinity);
}

#[test]
fn subgroup_orders_divide_thirty_two() {
    let cases: [((i8, i8), i8); 6] = [
        ((0, 1), 1),
        ((0, 30), 2),
        ((1, 0), 4),
        ((27, 27), 8),
        ((7, 13), 16),
        ((2, 20), 32),
    ];
    for ((x, y), order) in cases {
        let sub = subgroup::SubGroup::new(clockcurve::Point { x, y });
        assert_eq!(sub.order(), order);
        let points = sub.points();
        assert_eq!(points.len(), order as usize);
        assert_eq!(points[0], sub.basepoint);
        assert_eq!(points[points.len() - 1], sub.infinity);
        assert_eq!(sub.scalar_basemul(order), sub.infinity);
    }
    let four = subgroup::SubGroup::new(clockcurve::Point { x: 1, y: 0 });
    assert_eq!(
        four.points(),
        vec![
            clockcurve::Point { x: 1, y: 0 },
            clockcurve::Point { x: 0, y: 30 },
            clockcurve::Point { x: 30, y: 0 },
            clockcurve::Point { x: 0, y: 1 },
        ]
    );
}

#[test]
fn ecdsa_signature_values() {
    let ecd = ecdsa::ECDSA::default();
    assert_eq!(ecd.group.order(), 32);
    assert_eq!(ecd.pubkey(5), clockcurve::Point { x: 21, y: 26 });
    assert_eq!(ecd.sign(10, 5, 7), Ok((11, 23)));
    assert_eq!(ecd.sign(8, 5, 7), Ok((11, 9)));
    assert_eq!(ecd.sign(9, 5, 7), Ok((11, 0)));
}

#[test]
fn ecdsa_fails_without_an_inverse() {
    let ecd = ecdsa::ECDSA::new();
    // An even nonce has no inverse modulo 32.
    assert_eq!(ecd.sign(10, 5, 6), Err(DomainError::NoInverse));
    // Nor has an even s.
    let pubkey = ecd.pubkey(5);
    assert_eq!(ecd.verify(9, pubkey, 11, 0), Err(DomainError::NoInverse));
    assert_eq!(ecd.verify(9, pubkey, 11, 4), Err(DomainError::NoInverse));
}

#[test]
fn ecdsa_round_trip_for_all_keys() {
    let ecd = ecdsa::ECDSA::new();
    let n = ecd.group.order();
    let mut checked = 0;
    for private in 1i8..40 {
        let pubkey = ecd.pubkey(private);
        for randomk in 1i8..40 {
            for message in 0i8..40 {
                match ecd.sign(message, private, randomk) {
                    Ok((r, s)) => {
                        assert_eq!(gcd::gcd(randomk, n), 1);
                        if gcd::gcd(s, n) == 1 && message % n != 0 && r % n != 0 {
                            assert_eq!(ecd.verify(message, pubkey, r, s), Ok(true));
                            checked += 1;
                        }
                    }
                    Err(e) => {
                        assert_eq!(e, DomainError::NoInverse);
                        assert_ne!(gcd::gcd(randomk, n), 1);
                    }
                }
            }
        }
    }
    assert!(checked > 1000);
}

#[test]
fn ecdsa_rejects_a_changed_message() {
    let ecd = ecdsa::ECDSA::new();
    let (r, s) = ecd.sign(10, 5, 7).unwrap();
    let pubkey = ecd.pubkey(5);
    assert_eq!(ecd.verify(11, pubkey, r, s), Ok(false));
    assert_eq!(ecd.verify(10, ecd.pubkey(6), r, s), Ok(false));
}

#[test]
fn schnorr_signature_values() {
    let sch = schnorr::Schnorr::default();
    assert_eq!(sch.group.order(), 32);
    assert_eq!(sch.pubkey(5), clockcurve::Point { x: 21, y: 26 });
    // y(11) is 2, which lies in the lower half: 11 ^ 2 ^ 10.
    assert_eq!(sch.hash(10, 11), 3);
    // y(2) is 20, folded to 11: 2 ^ 11 ^ 0.
    assert_eq!(sch.hash(0, 2), 9);
    assert_eq!(sch.sign(10, 5, 7), (clockcurve::Point { x: 11, y: 29 }, 22));
    assert_eq!(sch.sign(10, 8, 9), (clockcurve::Point { x: 11, y: 2 }, 1));
    assert_eq!(sch.sign(11, 8, 9), (clockcurve::Point { x: 11, y: 2 }, 25));
    assert_eq!(sch.sign(11, 9, 10), (clockcurve::Point { x: 7, y: 18 }, 19));
}

fn schnorr_signable(sch: &schnorr::Schnorr, message: i8, randomk: i8) -> bool {
    // The nonce's point must not be the identity, and the hash must be a
    // valid scalar.
    let r = sch.group.scalar_basemul(randomk);
    r != sch.group.infinity && sch.hash(message, r.x) >= 1
}

#[test]
fn schnorr_round_trip_for_all_keys() {
    let sch = schnorr::Schnorr::new();
    let mut checked = 0;
    for private in 1i8..40 {
        let pubkey = sch.pubkey(private);
        for randomk in 1i8..40 {
            for message in 0i8..40 {
                if !schnorr_signable(&sch, message, randomk) {
                    continue;
                }
                let (r, s) = sch.sign(message, private, randomk);
                if s >= 1 {
                    assert!(sch.verify(message, pubkey, r, s));
                    checked += 1;
                }
            }
        }
    }
    assert!(checked > 10000);
}

#[test]
fn schnorr_batch_verify_for_many_pairs() {
    let sch = schnorr::Schnorr::new();
    let n = sch.group.order();
    let mut checked = 0;
    for private1 in [1i8, 8, 33] {
        for private2 in [2i8, 9, 100] {
            for randomk1 in 1i8..20 {
                for randomk2 in 1i8..20 {
                    let (message1, message2) = (10, 11);
                    if !schnorr_signable(&sch, message1, randomk1)
                        || !schnorr_signable(&sch, message2, randomk2)
                    {
                        continue;
                    }
                    let (r1, s1) = sch.sign(message1, private1, randomk1);
                    let (r2, s2) = sch.sign(message2, private2, randomk2);
                    if arith::mod_add(s1, s2, n) == 0 {
                        continue;
                    }
                    assert!(sch.batch_verify(
                        message1,
                        sch.pubkey(private1),
                        r1,
                        s1,
                        message2,
                        sch.pubkey(private2),
                        r2,
                        s2
                    ));
                    checked += 1;
                }
            }
        }
    }
    assert!(checked > 1000);
}

#[test]
fn schnorr_rejects_a_changed_signature() {
    let sch = schnorr::Schnorr::new();
    let (r, s) = sch.sign(10, 5, 7);
    let pubkey = sch.pubkey(5);
    assert!(sch.verify(10, pubkey, r, s));
    assert!(!sch.verify(10, pubkey, r, s + 1));
    assert!(!sch.verify(10, sch.pubkey(6), r, s));
    let (r2, s2) = sch.sign(11, 9, 10);
    assert!(!sch.batch_verify(10, pubkey, r, s + 1, 11, sch.pubkey(9), r2, s2));
}

#[test]
fn schnorr_nonce_reuse_reveals_the_key() {
    let sch = schnorr::Schnorr::new();
    let n = sch.group.order();
    let mut checked = 0;
    for private in 1i8..32 {
        for randomk in 1i8..32 {
            for (message1, message2) in [(10i8, 11i8), (3, 4), (20, 27)] {
                if !schnorr_signable(&sch, message1, randomk)
                    || !schnorr_signable(&sch, message2, randomk)
                {
                    continue;
                }
                let (r1, s1) = sch.sign(message1, private, randomk);
                let (r2, s2) = sch.sign(message2, private, randomk);
                assert_eq!(r1, r2);
                let h1h2 = arith::mod_sub(sch.hash(message1, r1.x), sch.hash(message2, r2.x), n);
                let s1s2 = arith::mod_sub(s1, s2, n);
                if let Ok(x) = arith::mod_div(s1s2, h1h2, n) {
                    assert_eq!(x, private);
                    checked += 1;
                }
            }
        }
    }
    assert!(checked > 1000);
}

#[test]
fn spake2_peers_agree_for_all_scalars() {
    for password in [1i8, 7, 31, 100] {
        for (rnd_a, sec_a) in [(11i8, 66i8), (1, 1), (32, 5), (127, 127)] {
            for (rnd_b, sec_b) in [(23i8, 88i8), (2, 3), (64, 33)] {
                let alice = spake2::SPAKE2::new(password, rnd_a, sec_a);
                let bob = spake2::SPAKE2::new(password, rnd_b, sec_b);
                let ka = alice.final_key(bob.pake_key(), bob.password_pubkey);
                let kb = bob.final_key(alice.pake_key(), alice.password_pubkey);
                assert_eq!(ka, kb);
                let curve = clockcurve::ClockCurve::default();
                assert_eq!(ka, curve.scalar_mul(curve.scalar_basemul(sec_a), sec_b));
            }
        }
    }
}

#[test]
fn spake2_values() {
    let alice = spake2::SPAKE2::new(7, 11, 66);
    let bob = spake2::SPAKE2::new(7, 23, 88);
    let curve = clockcurve::ClockCurve::default();
    assert_eq!(alice.curve.primer, 31);
    // 7 * 11 = 77 = 13 modulo 32; 66 = 2 modulo 32.
    assert_eq!(alice.password_pubkey, curve.scalar_basemul(13));
    assert_eq!(alice.password_pubkey, clockcurve::Point { x: 5, y: 21 });
    assert_eq!(alice.password_point(), alice.password_pubkey);
    assert_eq!(alice.pake_key(), curve.scalar_basemul(15));
    assert_eq!(alice.pake_key(), clockcurve::Point { x: 2, y: 11 });
    // 66 * 88 = 16 modulo 32.
    assert_eq!(
        alice.final_key(bob.pake_key(), bob.password_pubkey),
        clockcurve::Point { x: 0, y: 30 }
    );
}

// With a wrong guess of the other's password point, a peer derives another
// key. The group is small, so some wrong guesses collide with the right one;
// this one does not.
#[test]
fn spake2_differs_with_another_password() {
    let alice = spake2::SPAKE2::new(7, 11, 66);
    let bob = spake2::SPAKE2::new(7, 23, 88);
    let guess = spake2::SPAKE2::new(8, 23, 88);
    let right = alice.final_key(bob.pake_key(), bob.password_pubkey);
    let wrong = alice.final_key(bob.pake_key(), guess.password_pubkey);
    assert_eq!(right, bob.final_key(alice.pake_key(), alice.password_pubkey));
    assert_ne!(right, wrong);
}
