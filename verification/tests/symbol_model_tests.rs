use toy_ac::symbol_model::{ascii_english_letter_weights_1000, SymbolModel, VectorCountSymbolModel};

#[test]
fn init_test() {
    let sm = VectorCountSymbolModel::new(vec!['a', 'b', 'c', 'd', 'e']);
    assert_eq!(sm.total(), 5);
    assert_eq!(sm.symbols()[0], 'a');
    assert_eq!(sm.symbols()[1], 'b');
    assert_eq!(sm.symbols()[2], 'c');
    assert_eq!(sm.symbols()[3], 'd');
    assert_eq!(sm.symbols()[4], 'e');
    assert_eq!(sm.counts()[0], 1);
    assert_eq!(sm.counts()[1], 1);
    assert_eq!(sm.counts()[2], 1);
    assert_eq!(sm.counts()[3], 1);
    assert_eq!(sm.counts()[4], 1);
}

#[test]
fn contains_test() {
    let sm = VectorCountSymbolModel::new(vec!['a', 'b', 'c', 'd', 'e']);
    assert_eq!(sm.contains(&'a'), true);
    assert_eq!(sm.contains(&'b'), true);
    assert_eq!(sm.contains(&'c'), true);
    assert_eq!(sm.contains(&'d'), true);
    assert_eq!(sm.contains(&'e'), true);
    assert_eq!(sm.contains(&'f'), false);
    assert_eq!(sm.contains(&'g'), false);
    assert_eq!(sm.contains(&'h'), false);
}

#[test]
fn interval_test() {
    let mut sm = VectorCountSymbolModel::new(vec!['a', 'b', 'c', 'd', 'e']);
    sm.set_count(&'a', 5);
    sm.set_count(&'b', 10);
    sm.set_count(&'c', 8);
    sm.set_count(&'d', 2);
    sm.set_count(&'e', 25);

    let a_interval = sm.interval(&'a');
    let b_interval = sm.interval(&'b');
    let c_interval = sm.interval(&'c');
    let d_interval = sm.interval(&'d');
    let e_interval = sm.interval(&'e');

    assert_eq!(sm.total(), 50);

    assert_eq!(a_interval.0, 0);
    assert_eq!(b_interval.0, 5);
    assert_eq!(c_interval.0, 15);
    assert_eq!(d_interval.0, 23);
    assert_eq!(e_interval.0, 25);

    assert_eq!(a_interval.1, 5);
    assert_eq!(b_interval.1, 15);
    assert_eq!(c_interval.1, 23);
    assert_eq!(d_interval.1, 25);
    assert_eq!(e_interval.1, 50);
}

#[test]
fn find_index_returns_first_entry() {
    let sm = VectorCountSymbolModel::new(vec![7u8, 3, 9, 3]);
    assert_eq!(sm.find_index(&7), 0);
    assert_eq!(sm.find_index(&3), 1);
    assert_eq!(sm.find_index(&9), 2);
}

#[test]
fn duplicate_symbol_uses_first_interval() {
    let sm = VectorCountSymbolModel::new(vec!['x', 'y', 'x']);
    assert_eq!(sm.interval(&'x'), (0, 1));
    assert_eq!(sm.interval(&'y'), (1, 2));
    let (s, lo, hi) = sm.lookup(2);
    assert_eq!((*s, lo, hi), ('x', 2, 3));
}

#[test]
fn lookup_finds_the_interval_of_each_value() {
    let mut sm = VectorCountSymbolModel::new(vec!['a', 'b', 'c']);
    sm.set_count(&'a', 3);
    sm.set_count(&'b', 0);
    sm.set_count(&'c', 2);
    assert_eq!(sm.total(), 5);
    for v in 0..3u32 {
        let (s, lo, hi) = sm.lookup(v);
        assert_eq!((*s, lo, hi), ('a', 0, 3));
    }
    for v in 3..5u32 {
        let (s, lo, hi) = sm.lookup(v);
        assert_eq!((*s, lo, hi), ('c', 3, 5));
    }
    assert_eq!(sm.interval(&'b'), (3, 3));
}

#[test]
fn incr_count_adds_one() {
    let mut sm = VectorCountSymbolModel::new(vec![1u8, 2, 3]);
    sm.incr_count(&2);
    sm.incr_count(&2);
    sm.incr_count(&3);
    assert_eq!(sm.counts().clone(), vec![1, 3, 2]);
    assert_eq!(sm.total(), 6);
    assert_eq!(sm.interval(&3), (4, 6));
}

#[test]
fn set_count_normalizes_below_a_million() {
    let mut sm = VectorCountSymbolModel::new(vec!['a', 'b']);
    sm.set_count(&'a', 2_000_000);
    assert_eq!(sm.counts().clone(), vec![500_000, 1]);
    assert_eq!(sm.total(), 500_001);
}

#[test]
fn normalize_raises_small_counts_to_one() {
    let mut sm = VectorCountSymbolModel::new(vec![0u8, 1, 2, 3]);
    sm.set_count(&1, 0);
    sm.set_count(&2, 2);
    sm.set_count(&3, 999_996);
    assert_eq!(sm.total(), 999_999);
    assert_eq!(sm.counts().clone(), vec![1, 0, 2, 999_996]);
    sm.incr_count(&0);
    assert_eq!(sm.counts().clone(), vec![1, 1, 1, 499_998]);
    assert_eq!(sm.total(), 500_001);
}

#[test]
fn ascii_weights_table() {
    let table = ascii_english_letter_weights_1000();
    assert_eq!(table.len(), 256);
    assert_eq!(table[b'a' as usize], 82);
    assert_eq!(table[b'A' as usize], 82);
    assert_eq!(table[b'e' as usize], 127);
    assert_eq!(table[b'E' as usize], 127);
    assert_eq!(table[b'q' as usize], 1);
    assert_eq!(table[b'Z' as usize], 1);
    assert_eq!(table[b't' as usize], 91);
    assert_eq!(table[b' ' as usize], 1);
    assert_eq!(table[0], 1);
    assert_eq!(table[255], 1);
    let sum: u32 = table.iter().sum();
    assert_eq!(sum, 2 * 1003 + (256 - 52));
}

#[test]
fn normalize_keeps_order_of_counts() {
    let mut sm = VectorCountSymbolModel::new(vec![0u8, 1, 2, 3, 4]);
    sm.set_count(&0, 7);
    sm.set_count(&1, 2);
    sm.set_count(&2, 400_000);
    sm.set_count(&3, 0);
    sm.set_count(&4, 599_991);
    let c = sm.counts().clone();
    assert_eq!(c, vec![3, 1, 200_000, 1, 299_995]);
    assert_eq!(sm.total(), 500_000);
    let before = [7u32, 2, 400_000, 0, 599_991];
    for i in 0..5 {
        for j in 0..5 {
            if before[i] <= before[j] {
                assert!(c[i] <= c[j]);
            }
        }
    }
}
