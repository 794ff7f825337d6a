use toy_ac::symbol_model::VectorCountSymbolModel;

#[test]
fn init_test() {
    let sm = VectorCountSymbolModel::new(vec!['a', 'b', 'c', 'd', 'e']);
    assert_eq!(sm.total, 5);
    assert_eq!(sm.symbols[0], 'a');
    assert_eq!(sm.symbols[1], 'b');
    assert_eq!(sm.symbols[2], 'c');
    assert_eq!(sm.symbols[3], 'd');
    assert_eq!(sm.symbols[4], 'e');
    assert_eq!(sm.counts[0], 1);
    assert_eq!(sm.counts[1], 1);
    assert_eq!(sm.counts[2], 1);
    assert_eq!(sm.counts[3], 1);
    assert_eq!(sm.counts[4], 1);
}

#[test]
fn contains_test() {
    let sm = VectorCountSymbolModel::new(vec!['a', 'b', 'c', 'd', 'e']);
    assert_eq!(sm.contains(&'a'), true);
    assert_eq!(sm.contains(&'b'), true);
    assert_eq!(sm.contains(&'c'), true);
    assert_eq!(sm.contains(&'d'), true);
    assert_eq!(sm.contains(&'e'), true);
    assert_eq!(sm.contains(&'f'), false);
    assert_eq!(sm.contains(&'g'), false);
    assert_eq!(sm.contains(&'h'), false);
}

#[test]
fn interval_test() {
    let mut sm = VectorCountSymbolModel::new(vec!['a', 'b', 'c', 'd', 'e']);
    sm.set_count(&'a', 5);
    sm.set_count(&'b', 10);
    sm.set_count(&'c', 8);
    sm.set_count(&'d', 2);
    sm.set_count(&'e', 25);

    let a_interval = sm.interval(&'a');
    let b_interval = sm.interval(&'b');
    let c_interval = sm.interval(&'c');
    let d_interval = sm.interval(&'d');
    let e_interval = sm.interval(&'e');

    assert_eq!(sm.total(), 50);

    assert_eq!(a_interval.0, 0);
    assert_eq!(b_interval.0, 5);
    assert_eq!(c_interval.0, 15);
    assert_eq!(d_interval.0, 23);
    assert_eq!(e_interval.0, 25);

    assert_eq!(a_interval.1, 5);
    assert_eq!(b_interval.1, 15);
    assert_eq!(c_interval.1, 23);
    assert_eq!(d_interval.1, 25);
    assert_eq!(e_interval.1, 50);
}

#[test]
fn find_index_test() {
    let sm = VectorCountSymbolModel::new(vec!['a', 'b', 'c', 'd', 'e']);
    assert_eq!(sm.find_index(&'a'), 0);
    assert_eq!(sm.find_index(&'c'), 2);
    assert_eq!(sm.find_index(&'e'), 4);
}

#[test]
fn incr_count_test() {
    let mut sm = VectorCountSymbolModel::new(vec!['a', 'b', 'c']);
    sm.incr_count(&'b');
    sm.incr_count(&'b');
    sm.incr_count(&'c');
    assert_eq!(sm.total, 6);
    assert_eq!(sm.counts, vec![1, 3, 2]);
    assert_eq!(sm.interval(&'a'), (0, 1));
    assert_eq!(sm.interval(&'b'), (1, 4));
    assert_eq!(sm.interval(&'c'), (4, 6));
}

#[test]
fn lookup_is_inverse_of_interval_test() {
    let mut sm = VectorCountSymbolModel::new(vec!['a', 'b', 'c', 'd', 'e']);
    sm.set_count(&'a', 5);
    sm.set_count(&'b', 10);
    sm.set_count(&'c', 8);
    sm.set_count(&'d', 2);
    sm.set_count(&'e', 25);
    for v in 0..50u32 {
        let (s, lo, hi) = sm.lookup(v);
        assert!(lo <= v && v < hi);
        assert_eq!(sm.interval(s), (lo, hi));
    }
    assert_eq!(*sm.lookup(0).0, 'a');
    assert_eq!(*sm.lookup(5).0, 'b');
    assert_eq!(*sm.lookup(14).0, 'b');
    assert_eq!(*sm.lookup(23).0, 'd');
    assert_eq!(*sm.lookup(49).0, 'e');
}

#[test]
fn renormalization_test() {
    // Setting one count high enough pushes the total to the weight bound;
    // every count is halved (small ones clamped to 1) until it is back under.
    let mut sm = VectorCountSymbolModel::new(vec!['a', 'b', 'c', 'd', 'e']);
    sm.set_count(&'a', 2_000_000);
    // 2_000_004 -> 1_000_004 -> 500_004
    assert_eq!(sm.total, 500_004);
    assert_eq!(sm.counts, vec![500_000, 1, 1, 1, 1]);
    assert_eq!(sm.symbols, vec!['a', 'b', 'c', 'd', 'e']);
}

#[test]
fn incr_count_renormalization_test() {
    let mut sm = VectorCountSymbolModel::new(vec!['x', 'y']);
    sm.set_count(&'x', 999_997);
    assert_eq!(sm.total, 999_998);
    sm.incr_count(&'y');
    // 999_999 is still under the bound.
    assert_eq!(sm.total, 999_999);
    sm.incr_count(&'y');
    // 1_000_000 reaches the bound: counts halve to 499_998 and 1.
    assert_eq!(sm.total, 499_999);
    assert_eq!(sm.counts, vec![499_998, 1]);
}
