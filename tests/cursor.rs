use elias_fano::{EliasFano, Error};

fn identity_array(num: u64) -> Vec<u64> {
    (0..num).collect()
}

#[test]
fn test_membership() {
    const NUM: u64 = 1000;
    let mut ef = EliasFano::new(NUM, NUM);
    let array = identity_array(NUM);

    ef.compress(&array).unwrap();

    for (idx, v) in array.iter().enumerate() {
        if ef.value() != *v {
            panic!("{} is not the same as {}", ef.value(), v);
        }

        match ef.next() {
            Ok(_) => (),
            Err(_) => {
                if idx != array.len() - 1 {
                    panic!("Error returned when not at end of items");
                }
            }
        }
    }
}

#[test]
fn test_position() {
    const NUM: u64 = 1000;
    let mut ef = EliasFano::new(NUM, NUM);
    let array = identity_array(NUM);

    ef.compress(&array).unwrap();

    for i in 0..NUM {
        if ef.position() != i {
            panic!("Index is returning wrong position for linear increment")
        }
        let _ = ef.next();
    }
}

#[test]
fn test_skip() {
    const NUM: u64 = 1000;
    let mut ef = EliasFano::new(NUM, NUM);
    let array = identity_array(NUM);

    ef.compress(&array).unwrap();

    ef.skip(500).unwrap();
    assert_eq!(ef.value(), 500);

    ef.skip(350).unwrap();
    assert_eq!(ef.value(), 850);

    assert!(ef.skip(149).is_ok());
    assert!(ef.skip(150).is_err());
}

#[test]
fn test_reset() {
    const NUM: u64 = 1000;
    let mut ef = EliasFano::new(NUM, NUM);
    let array = identity_array(NUM);

    ef.compress(&array).unwrap();

    if ef.position() != 0 {
        panic!("Initial position is not equal to 0");
    }

    let _ = ef.next();
    ef.reset();

    if ef.position() != 0 {
        panic!("Position was not reset correctly");
    }

    if ef.value() != 0 {
        panic!("Initial value is incorrect");
    }
}

#[test]
fn test_move() {
    const NUM: u64 = 1000;
    let mut ef = EliasFano::new(NUM, NUM);
    let array = identity_array(NUM);

    ef.compress(&array).unwrap();

    if ef.position() != 0 {
        panic!("Initial position is not equal to 0");
    }

    for (idx, val) in array.iter().enumerate() {
        let _ = ef.visit(idx as u64);
        if ef.value() != *val {
            panic!("Received unexpected value after visit");
        }
    }

    for i in 0..NUM {
        let _ = ef.visit((array.len() - i as usize - 1) as u64);
        if ef.value() != array[array.len() - i as usize - 1] {
            panic!("Incorrect value found while visiting backwards");
        }
    }
}

#[test]
fn test_generic() {
    let mut ef = EliasFano::new(1000, 5);
    ef.compress(&[0, 5, 9, 800, 1000]).unwrap();

    if ef.value() != 0 {
        panic!("Incorrect start value");
    }

    let _ = ef.visit(0);

    if ef.value() != 0 {
        panic!("0 visit returns different value");
    }

    let _ = ef.visit(4);

    if ef.value() != 1000 {
        panic!(
            "Visit returning incorrect value, expected: {}, received: {}",
            1000,
            ef.value()
        );
    }

    ef.reset();

    if ef.value() != 0 {
        panic!("Incorrect behaviour on reset");
    }

    let _ = ef.next();

    if ef.value() != 5 {
        panic!(
            "Next value is incorrect, expected: {}, received: {}",
            5,
            ef.value()
        );
    }

    let _ = ef.next();

    if ef.value() != 9 {
        panic!(
            "Next value is incorrect, expected: {}, received: {}",
            9,
            ef.value()
        );
    }

    let _ = ef.visit(1);

    if ef.value() != 5 {
        panic!(
            "Visit returning incorrect value, expected: {}, received: {}",
            5,
            ef.value()
        );
    }
}

#[test]
fn test_into_vec() {
    const NUM: u64 = 1000;
    let mut ef = EliasFano::new(NUM, NUM);
    let array = identity_array(NUM);
    ef.compress(&array).unwrap();
    let vals = ef.into_vec();
    assert_eq!(array.len(), vals.len());
    assert_eq!(array, vals);
}

#[test]
fn descending_pair_is_unsorted() {
    let mut ef = EliasFano::new(10, 2);
    assert_eq!(ef.compress(&[5, 3]), Err(Error::Unsorted));
}

#[test]
fn value_above_universe_is_rejected() {
    let universe = 100;
    let mut ef = EliasFano::new(universe, 1);
    assert_eq!(ef.compress(&[universe + 1]), Err(Error::GreaterThanUniverse));
}

#[test]
fn first_violation_decides_the_error() {
    let mut ef = EliasFano::new(1000, 3);
    assert_eq!(ef.compress(&[5, 3, 2000]), Err(Error::Unsorted));
    let mut ef = EliasFano::new(1000, 3);
    assert_eq!(ef.compress(&[1, 2000, 3]), Err(Error::GreaterThanUniverse));
}

#[test]
fn round_trip_with_low_bits_and_duplicates() {
    let values: Vec<u64> = vec![0, 0, 3, 17, 17, 250, 511, 999, 1000, 1000];
    let mut ef = EliasFano::new(1000, values.len() as u64);
    ef.compress(&values).unwrap();
    assert_eq!(ef.into_vec(), values);
}

#[test]
fn round_trip_with_odd_last_value() {
    let values: Vec<u64> = vec![1, 2, 3, 4, 999];
    let mut ef = EliasFano::new(1000, 5);
    ef.compress(&values).unwrap();
    assert_eq!(ef.into_vec(), values);
}

#[test]
fn round_trip_single_element() {
    let mut ef = EliasFano::new(u64::MAX, 1);
    ef.compress(&[u64::MAX]).unwrap();
    assert_eq!(ef.value(), u64::MAX);
    assert_eq!(ef.into_vec(), vec![u64::MAX]);
}

#[test]
fn visit_matches_steps_from_reset() {
    let values: Vec<u64> = vec![2, 7, 7, 40, 41, 90, 300, 301, 302, 1023];
    let mut ef = EliasFano::new(1023, values.len() as u64);
    ef.compress(&values).unwrap();
    for p in 0..values.len() {
        let by_visit = ef.visit(p as u64).unwrap();
        ef.reset();
        let mut by_steps = ef.value();
        for _ in 0..p {
            by_steps = ef.next().unwrap();
        }
        assert_eq!(by_visit, by_steps);
        assert_eq!(by_visit, values[p]);
    }
}

#[test]
fn skip_matches_visit() {
    let values: Vec<u64> = vec![3, 8, 8, 21, 55, 89, 144, 233];
    let mut a = EliasFano::new(300, values.len() as u64);
    a.compress(&values).unwrap();
    let mut b = EliasFano::new(300, values.len() as u64);
    b.compress(&values).unwrap();
    a.visit(2).unwrap();
    b.visit(2).unwrap();
    assert_eq!(a.skip(3), b.visit(5));
    assert_eq!(a.position(), 5);
    assert_eq!(a.value(), 89);
    assert_eq!(a.skip(100), Err(Error::OutOfBounds));
    assert_eq!(a.position(), 5);
}

#[test]
fn reset_returns_to_first_element() {
    let values: Vec<u64> = vec![4, 6, 9];
    let mut ef = EliasFano::new(10, 3);
    ef.compress(&values).unwrap();
    ef.visit(2).unwrap();
    ef.reset();
    assert_eq!(ef.position(), 0);
    assert_eq!(ef.value(), 4);
    ef.reset();
    assert_eq!(ef.position(), 0);
    assert_eq!(ef.value(), 4);
}

#[test]
fn visit_boundaries() {
    let values: Vec<u64> = vec![1, 2, 3];
    let mut ef = EliasFano::new(3, 3);
    ef.compress(&values).unwrap();
    assert!(ef.visit(3).is_ok());
    assert_eq!(ef.position(), 3);
    assert_eq!(ef.visit(4), Err(Error::OutOfBounds));
    assert_eq!(ef.position(), 3);
    assert_eq!(ef.visit(1), Ok(2));
}

#[test]
fn next_stops_before_the_end() {
    let mut ef = EliasFano::new(50, 2);
    ef.compress(&[10, 20]).unwrap();
    assert_eq!(ef.next(), Ok(20));
    assert_eq!(ef.next(), Err(Error::OutOfBounds));
    assert_eq!(ef.position(), 1);
    assert_eq!(ef.value(), 20);
}

#[test]
fn layout_sizes() {
    let ef = EliasFano::new(1000, 5);
    assert_eq!(ef.size(), 5);
    // lower_bits = 7, upper region 5 + 7 + 2 = 14, lower region 35.
    assert_eq!(ef.bit_size(), 49);
    let ef = EliasFano::new(1000, 1000);
    assert_eq!(ef.bit_size(), 2002);
}

#[test]
fn describe_lists_layout() {
    let ef = EliasFano::new(1000, 5);
    assert_eq!(
        ef.describe(),
        "\n    Universe: 1000\n    Elements: 5\n    Lower_bits: 7\n    Higher_bits_length: 14\n    Mask: 0b127\n    Lower_bits_offset: 14\n    Bitvector length: 49\n"
    );
    let ef = EliasFano::new(1000, 1000);
    assert_eq!(
        ef.describe(),
        "\n    Universe: 1000\n    Elements: 1000\n    Lower_bits: 0\n    Higher_bits_length: 2002\n    Mask: 0b0\n    Lower_bits_offset: 2002\n    Bitvector length: 2002\n"
    );
}

#[test]
fn error_messages() {
    assert_eq!(
        Error::OutOfBounds.message(),
        "Index out of range attempted to be accessed"
    );
    assert_eq!(Error::Unsorted.message(), "The iterator was not sorted");
    assert_eq!(
        Error::GreaterThanUniverse.message(),
        "A value greater than the universe was found"
    );
}
