use ternary_arithmetic::FrequencyTable;

#[test]
fn test_frequency_table_uniform() {
    let table = FrequencyTable::uniform();
    assert_eq!(table.total(), 3);
    assert_eq!(table.count(-1), 1);
    assert_eq!(table.count(0), 1);
    assert_eq!(table.count(1), 1);
}

#[test]
fn test_frequency_table_from_data() {
    let data = vec![-1, -1, -1, 0, 1, 1];
    let table = FrequencyTable::from_data(&data);
    assert_eq!(table.count(-1), 3);
    assert_eq!(table.count(0), 1);
    assert_eq!(table.count(1), 2);
    assert_eq!(table.total(), 6);
}

#[test]
fn test_frequency_table_range() {
    let data = vec![-1, -1, 0, 1]; // counts: 2, 1, 1, total=4
    let table = FrequencyTable::from_data(&data);
    assert_eq!(table.range(-1), (0, 2));
    assert_eq!(table.range(0), (2, 3));
    assert_eq!(table.range(1), (3, 4));
}

#[test]
fn test_frequency_table_update() {
    let mut table = FrequencyTable::uniform();
    table.update(-1);
    table.update(-1);
    assert_eq!(table.count(-1), 3);
    assert_eq!(table.total(), 5);
}

#[test]
fn test_frequency_table_rescale() {
    let mut table = FrequencyTable::from_data(&vec![-1; 100]);
    assert_eq!(table.count(-1), 100);
    table.rescale();
    assert_eq!(table.count(-1), 50);
    assert_eq!(table.count(0), 1); // min 1
    assert_eq!(table.count(1), 1); // min 1
}

#[test]
fn test_frequency_table_symbol_for_cumulative() {
    let data = vec![-1, -1, 0, 1]; // cumulative: -1=[0,2), 0=[2,3), 1=[3,4)
    let table = FrequencyTable::from_data(&data);
    assert_eq!(table.symbol_for_cumulative(0), -1);
    assert_eq!(table.symbol_for_cumulative(1), -1);
    assert_eq!(table.symbol_for_cumulative(2), 0);
    assert_eq!(table.symbol_for_cumulative(3), 1);
}

#[test]
fn test_empty_data() {
    let data: Vec<i32> = vec![];
    let table = FrequencyTable::from_data(&data);
    // Should have uniform fallback (all 1s)
    assert_eq!(table.total(), 3);
}

// ---- further cases ----

#[test]
fn from_data_raises_missing_symbols_to_one() {
    let table = FrequencyTable::from_data(&[0, 0, 0, 0]);
    assert_eq!(table.count(-1), 1);
    assert_eq!(table.count(0), 4);
    assert_eq!(table.count(1), 1);
    assert_eq!(table.total(), 6);
}

#[test]
fn from_data_of_nothing_is_uniform() {
    let table = FrequencyTable::from_data(&[]);
    let uniform = FrequencyTable::uniform();
    for s in [-1, 0, 1] {
        assert_eq!(table.count(s), uniform.count(s));
    }
}

#[test]
fn ranges_partition_the_total() {
    let table = FrequencyTable::from_data(&[1, 1, 1, 0, -1, -1, 1]);
    assert_eq!(table.range(-1).0, 0);
    assert_eq!(table.range(-1).1, table.range(0).0);
    assert_eq!(table.range(0).1, table.range(1).0);
    assert_eq!(table.range(1).1, table.total());
    for s in [-1, 0, 1] {
        let (lo, hi) = table.range(s);
        assert_eq!(hi - lo, table.count(s));
    }
}

#[test]
fn symbol_for_cumulative_inverts_range() {
    let table = FrequencyTable::from_data(&[1, 1, 1, 0, -1, -1, 1, 0, 0, 0, 0]);
    for s in [-1, 0, 1] {
        let (lo, hi) = table.range(s);
        for v in lo..hi {
            assert_eq!(table.symbol_for_cumulative(v), s);
        }
    }
}

#[test]
fn symbol_for_cumulative_past_total_is_plus_one() {
    let table = FrequencyTable::uniform();
    assert_eq!(table.symbol_for_cumulative(3), 1);
    assert_eq!(table.symbol_for_cumulative(1000), 1);
}

#[test]
fn update_adds_one_to_symbol_and_total() {
    let mut table = FrequencyTable::from_data(&[0, 1, 1]);
    table.update(1);
    assert_eq!(table.count(-1), 1);
    assert_eq!(table.count(0), 1);
    assert_eq!(table.count(1), 3);
    assert_eq!(table.total(), 5);
}

#[test]
fn rescale_halves_odd_counts_down() {
    let mut table = FrequencyTable::from_data(&[-1, -1, -1, 0, 0, 0, 0, 0, 1, 1, 1, 1, 1, 1, 1]);
    table.rescale();
    assert_eq!(table.count(-1), 1);
    assert_eq!(table.count(0), 2);
    assert_eq!(table.count(1), 3);
    assert_eq!(table.total(), 6);
}

#[test]
fn rescale_keeps_order_of_counts() {
    let mut table = FrequencyTable::from_data(&[-1, 0, 0, 0, 0, 1, 1, 1]);
    table.rescale();
    assert!(table.count(-1) <= table.count(1));
    assert!(table.count(1) <= table.count(0));
}

#[test]
fn clone_is_equal() {
    let table = FrequencyTable::from_data(&[1, 0, 0]);
    let copy = table.clone();
    for s in [-1, 0, 1] {
        assert_eq!(copy.count(s), table.count(s));
    }
    assert_eq!(copy.total(), table.total());
}
