use clock_ecc::fields::field;

#[test]
fn tests_fields_field_test() {
    let fp37 = field::Field::new(37);
    // Add test.
    {
        let x = fp37.add(18, 20);
        assert_eq!(x, 1);
    }
    {
        let x = fp37.add(18, 19);
        assert_eq!(x, 0);
    }

    // Sub test.
    {
        let x = fp37.sub(14, 19);
        assert_eq!(x, 32);
    }

    // Mul test.
    {
        let x = fp37.mul(18, 19);
        assert_eq!(x, 9);
    }
}

#[test]
fn tests_fields_f12_test() {
    let p = 12;
    let fp = field::Field::new(p);

    let mut vec = Vec::new();
    for i in 0..2 * p {
        let sum = fp.add(4, i);
        vec.push(sum);
    }
    println!("f12.add.element:\n{:?}", vec);
    vec.clear();

    for i in 0..2 * p {
        let product = fp.mul(4, i);
        vec.push(product);
    }
    println!("f12.mul.element:\n{:?}", vec);
    vec.clear();
}

#[test]
fn tests_fields_f37_test() {
    let p = 37;
    let fp = field::Field::new(p);

    let mut vec = Vec::new();
    for i in 0..2 * p {
        let sum = fp.add(4, i);
        vec.push(sum);
    }
    println!("f37.add.element:\n{:?}", vec);
    vec.clear();

    for i in 0..2 * p {
        let product = fp.mul(4, i);
        vec.push(product);
    }
    println!("f37.mul.element:\n{:?}", vec);
    vec.clear();
}

#[test]
fn tests_fields_legendre_symbol_test() {
    let p = 31;
    let fp = field::Field::new(p);
    for i in 1..31 {
        let x = fp.legendre_symbol(i);
        println!("legendre.check,i:{},result:{:?}", i, x);
    }
}

#[test]
fn tests_fields_sqrt_test() {
    {
        let p = 31;
        let fp = field::Field::new(p);
        for i in 0..60 {
            let sqrt = fp.sqrt(i);
            if sqrt != None {
                println!("{},sqrt:{:?}", i, sqrt.unwrap());
            }
        }
        assert_eq!(fp.sqrt(0), Some(0));
        assert_eq!(fp.sqrt(2), Some(8));
        assert_eq!(fp.sqrt(3), None);
        assert_eq!(fp.sqrt(33), Some(8));
    }
}

#[test]
fn field_test_fields_field_test() {
    let fp37 = field::Field::new(37);
    // Add test.
    {
        let x = fp37.add(18, 20);
        assert_eq!(x, 1);
    }
    {
        let x = fp37.add(18, 19);
        assert_eq!(x, 0);
    }

    // Sub test.
    {
        let x = fp37.sub(14, 19);
        assert_eq!(x, 32);
    }

    // Mul test.
    {
        let x = fp37.mul(18, 19);
        assert_eq!(x, 9);
    }

    // Exp test.
    {
        let x = fp37.exp(18, 11);
        assert_eq!(x, 17);
    }
}

#[test]
fn field_test_fields_f12_test() {
    let p = 12;
    let fp = field::Field::new(p);

    let mut vec = Vec::new();
    for i in 0..2 * p {
        let sum = fp.add(4, i);
        vec.push(sum);
    }
    println!("f12.add.element:\n{:?}", vec);
    assert_eq!(
        vec,
        vec![4, 5, 6, 7, 8, 9, 10, 11, 0, 1, 2, 3, 4, 5, 6, 7, 8, 9, 10, 11, 0, 1, 2, 3]
    );
    vec.clear();

    for i in 0..2 * p {
        let product = fp.mul(4, i);
        vec.push(product);
    }
    println!("f12.mul.element:\n{:?}", vec);
    assert_eq!(
        vec,
        vec![0, 4, 8, 0, 4, 8, 0, 4, 8, 0, 4, 8, 0, 4, 8, 0, 4, 8, 0, 4, 8, 0, 4, 8]
    );
    vec.clear();
}

#[test]
fn field_test_fields_f37_test() {
    let p = 37;
    let fp = field::Field::new(p);

    let mut vec = Vec::new();
    for i in 0..2 * p {
        let sum = fp.add(4, i);
        vec.push(sum);
    }
    println!("f37.add.element:\n{:?}", vec);
    for i in 0..2 * p {
        assert_eq!(vec[i as usize] as i32, (4 + i as i32) % 37);
    }
    vec.clear();

    for i in 0..2 * p {
        let product = fp.mul(4, i);
        vec.push(product);
    }
    println!("f37.mul.element:\n{:?}", vec);
    for i in 0..2 * p {
        assert_eq!(vec[i as usize] as i32, (4 * i as i32) % 37);
    }
    vec.clear();
}

#[test]
fn field_test_fields_legendre_symbol_test() {
    let p = 31;
    let fp = field::Field::new(p);
    let expected: [i8; 30] = [
        1, 1, -1, 1, 1, -1, 1, 1, 1, 1, -1, -1, -1, 1, -1, 1, -1, 1, 1, 1, -1, -1, -1, -1, 1, -1,
        -1, 1, -1, -1,
    ];
    for i in 1..31 {
        let x = fp.legendre_symbol(i);
        println!("legendre.check,i:{},result:{:?}", i, x);
        assert_eq!(x, expected[(i - 1) as usize]);
    }
}

#[test]
fn field_test_fields_sqrt_test() {
    {
        let p = 31;
        let fp = field::Field::new(p);
        for i in 0..60 {
            let sqrt = fp.sqrt(i);
            if sqrt != None {
                println!("{},sqrt:{:?}", i, sqrt.unwrap());
            }
        }
        assert_eq!(fp.sqrt(0), Some(0));
        assert_eq!(fp.sqrt(2), Some(8));
        assert_eq!(fp.sqrt(3), None);
        assert_eq!(fp.sqrt(33), Some(8));
    }
}

#[test]
fn sqrt_table_over_31() {
    let fp = field::Field::new(31);
    let roots: [(i8, i8); 16] = [
        (0, 0),
        (1, 1),
        (2, 8),
        (4, 2),
        (5, 25),
        (7, 10),
        (8, 16),
        (9, 28),
        (10, 14),
        (14, 18),
        (16, 4),
        (18, 7),
        (19, 9),
        (20, 19),
        (25, 5),
        (28, 20),
    ];
    for a in 0i8..31 {
        let found = roots.iter().find(|(v, _)| *v == a).map(|(_, r)| *r);
        assert_eq!(fp.sqrt(a), found);
        assert_eq!(fp.sqrt(a + 31), found);
    }
}

#[test]
fn sqrt_squares_back_where_the_modulus_is_three_mod_four() {
    for p in [3i8, 7, 11, 19, 23, 31, 43, 127] {
        let fp = field::Field::new(p);
        let mut residues = 0;
        for a in -128i8..=127 {
            if let Some(x) = fp.sqrt(a) {
                assert!(0 <= x && x < p);
                assert_eq!((x as i32 * x as i32) % p as i32, (a as i32).rem_euclid(p as i32));
                if 0 <= a && a < p {
                    residues += 1;
                }
            }
        }
        assert_eq!(residues, (p as i32 + 1) / 2);
    }
}

#[test]
fn sqrt_policy_outside_the_closed_form() {
    // Zero has the root zero over any modulus.
    assert_eq!(field::Field::new(37).sqrt(0), Some(0));
    assert_eq!(field::Field::new(37).sqrt(74), Some(0));
    // Over 2 the answer is the modulus itself.
    assert_eq!(field::Field::new(2).sqrt(1), Some(2));
    assert_eq!(field::Field::new(2).sqrt(4), Some(0));
    // A modulus that is not 3 modulo 4 has no answer for nonzero values.
    assert_eq!(field::Field::new(37).sqrt(4), None);
    assert_eq!(field::Field::new(5).sqrt(1), None);
    // A negative value counts as its residue.
    assert_eq!(field::Field::new(31).sqrt(-29), Some(8));
}

#[test]
fn field_operations_accept_any_operand() {
    let fp = field::Field::new(31);
    assert_eq!(fp.modulus(), 31);
    assert_eq!(fp.add(-1, 0), 30);
    assert_eq!(fp.sub(0, 1), 30);
    assert_eq!(fp.sub(31, 2), 29);
    assert_eq!(fp.mul(-2, 3), 25);
    assert_eq!(fp.exp(2, 5), 1);
    assert_eq!(fp.exp(3, 30), 1);
    assert_eq!(fp.legendre_symbol(0), 0);
    assert_eq!(field::Field::new(3).legendre_symbol(2), -1);
}
