use raytracer::random_iterator::RandomIterator;

fn test(max: usize) {
    let mut nums = vec![];
    let mut generator = RandomIterator::new(max);
    for _ in 0..max {
        nums.push(generator.next().unwrap());
    }

    for i in 0..max {
        if nums.iter().find(|&x| *x == i).is_none() {
            panic!("{} not found", i);
        }
    }
    if generator.next().is_some() {
        panic!("generator did not end");
    }
}

#[test]
fn test_cases() {
    test(0);
    test(1);
    test(2);
    test(3);
    test(1000);
    test(1001);
    test(1002);
}

fn all_of(max: usize) -> Vec<usize> {
    let mut generator = RandomIterator::new(max);
    let mut nums = vec![];
    while let Some(n) = generator.next() {
        nums.push(n);
    }
    nums
}

#[test]
fn order_jumps_by_half_the_range() {
    assert_eq!(all_of(0), Vec::<usize>::new());
    assert_eq!(all_of(1), vec![0]);
    assert_eq!(all_of(2), vec![0, 1]);
    assert_eq!(all_of(3), vec![0, 1, 2]);
    assert_eq!(all_of(4), vec![0, 2, 1, 3]);
    assert_eq!(all_of(5), vec![0, 2, 4, 1, 3]);
    assert_eq!(all_of(6), vec![0, 3, 1, 4, 2, 5]);
    assert_eq!(all_of(7), vec![0, 3, 6, 1, 4, 2, 5]);
    assert_eq!(all_of(8), vec![0, 4, 1, 5, 2, 6, 3, 7]);
}

#[test]
fn every_range_is_enumerated_once() {
    for max in 0..300 {
        let mut nums = all_of(max);
        assert_eq!(nums.len(), max);
        nums.sort();
        for (i, n) in nums.iter().enumerate() {
            assert_eq!(*n, i);
        }
    }
}

#[test]
fn none_forever_after_the_last() {
    let mut generator = RandomIterator::new(3);
    for _ in 0..3 {
        assert!(generator.next().is_some());
    }
    for _ in 0..10 {
        assert_eq!(generator.next(), None);
        assert_eq!(generator.i(), 3);
    }
}

#[test]
fn i_counts_what_was_handed_out() {
    let mut generator = RandomIterator::new(4);
    assert_eq!(generator.i(), 0);
    generator.next();
    assert_eq!(generator.i(), 1);
    generator.next();
    generator.next();
    assert_eq!(generator.i(), 3);
}

#[test]
fn reset_starts_the_same_order_again() {
    let mut generator = RandomIterator::new(7);
    let mut first = vec![];
    for _ in 0..4 {
        first.push(generator.next().unwrap());
    }
    generator.reset();
    assert_eq!(generator.i(), 0);
    let mut second = vec![];
    while let Some(n) = generator.next() {
        second.push(n);
    }
    assert_eq!(second, vec![0, 3, 6, 1, 4, 2, 5]);
    assert_eq!(&second[..4], &first[..]);
}

#[test]
fn the_widest_range_does_not_overflow() {
    let mut generator = RandomIterator::new(usize::MAX);
    assert_eq!(generator.next(), Some(0));
    assert_eq!(generator.next(), Some(usize::MAX / 2));
    assert_eq!(generator.next(), Some(usize::MAX - 1));
    assert_eq!(generator.next(), Some(1));
    assert_eq!(generator.next(), Some(1 + usize::MAX / 2));
    assert_eq!(generator.next(), Some(2));
}
