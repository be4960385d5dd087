use crypto_proj1_rs::algo::disproof_stats::DisproofStatsCollector;
use crypto_proj1_rs::algo::disproof_table::DisproofTable;
use crypto_proj1_rs::algo::{is_conflict_or_insert, is_conflict_or_insert_skip};
use crypto_proj1_rs::metrics::MetricsRegistry;

#[test]
fn fresh_table_is_empty() {
    let table = DisproofTable::new();
    for c in 0..27 {
        for p in 0..27 {
            assert!(!table.is_disproven(c, p));
        }
    }
}

#[test]
fn write_sets_one_cell() {
    let mut table = DisproofTable::new();
    table.write_disproven(3, 5);
    for c in 0..27 {
        for p in 0..27 {
            assert_eq!(table.is_disproven(c, p), c == 3 && p == 5);
        }
    }
}

#[test]
fn write_is_idempotent_and_monotonic() {
    let mut table = DisproofTable::new();
    table.write_disproven(0, 26);
    table.write_disproven(0, 26);
    table.write_disproven(26, 0);
    assert!(table.is_disproven(0, 26));
    assert!(table.is_disproven(26, 0));
    assert!(!table.is_disproven(0, 0));
    assert!(!table.is_disproven(26, 26));
}

#[test]
fn row_claims_conflict_on_either_symbol() {
    let mut cipher = [false; 27];
    let mut plain = [false; 27];
    assert!(!is_conflict_or_insert_skip(1, 2, &mut cipher, &mut plain));
    assert!(cipher[1] && plain[2]);
    assert!(is_conflict_or_insert_skip(1, 3, &mut cipher, &mut plain));
    assert!(is_conflict_or_insert_skip(4, 2, &mut cipher, &mut plain));
    assert!(is_conflict_or_insert_skip(1, 2, &mut cipher, &mut plain));
    assert!(!plain[3] && !cipher[4]);
    assert!(!is_conflict_or_insert_skip(4, 3, &mut cipher, &mut plain));
}

#[test]
fn column_claims_accept_a_known_pair() {
    let mut cipher = [false; 27];
    let mut plain = [false; 27];
    assert!(!is_conflict_or_insert(1, 2, &mut cipher, &mut plain));
    assert!(cipher[1] && plain[2]);
    // Both taken: the pair is known.
    assert!(!is_conflict_or_insert(1, 2, &mut cipher, &mut plain));
    // One taken: conflict, and nothing is claimed.
    assert!(is_conflict_or_insert(1, 3, &mut cipher, &mut plain));
    assert!(is_conflict_or_insert(4, 2, &mut cipher, &mut plain));
    assert!(!plain[3] && !cipher[4]);
}

#[test]
fn collector_counts_each_test() {
    let mut stats = DisproofStatsCollector::new();
    assert_eq!(stats.counts(), (0, 0, 0, 0));
    stats.increment_length_disproof();
    stats.increment_length_disproof();
    stats.increment_left_alignment_disproof();
    stats.increment_right_alignment_disproof();
    stats.increment_right_alignment_disproof();
    stats.increment_right_alignment_disproof();
    stats.increment_secondary_disproof();
    assert_eq!(stats.counts(), (2, 1, 3, 1));
    assert_eq!(DisproofStatsCollector::default().counts(), (0, 0, 0, 0));
}

#[test]
fn registry_counts_by_name() {
    let mut registry = MetricsRegistry::new();
    assert_eq!(registry.get_counter_value("pairs"), None);
    registry.increment_counter("pairs");
    assert_eq!(registry.get_counter_value("pairs"), Some(1));
    registry.increment_counter("rows");
    registry.increment_counter("pairs");
    assert_eq!(registry.get_counter_value("pairs"), Some(2));
    assert_eq!(registry.get_counter_value("rows"), Some(1));
    assert_eq!(registry.get_counter_value("columns"), None);
    assert_eq!(registry.get_counter_value(""), None);
}

#[test]
fn full_row_and_full_column() {
    let mut table = DisproofTable::new();
    assert!(!table.row_fully_eliminated(4));
    assert!(!table.column_fully_eliminated(4));
    for symbol in 0..26 {
        table.write_disproven(4, symbol);
        table.write_disproven(symbol, 9);
    }
    assert!(!table.row_fully_eliminated(4));
    assert!(!table.column_fully_eliminated(9));
    table.write_disproven(4, 26);
    table.write_disproven(26, 9);
    assert!(table.row_fully_eliminated(4));
    assert!(table.column_fully_eliminated(9));
    assert!(!table.row_fully_eliminated(5));
    assert!(!table.column_fully_eliminated(4));
}

#[test]
fn survivor_of_a_row_and_of_a_column() {
    let mut table = DisproofTable::new();
    assert_eq!(table.row_survivor(2), None);
    for symbol in 0..27 {
        if symbol != 7 {
            table.write_disproven(2, symbol);
        }
        if symbol != 11 {
            table.write_disproven(symbol, 20);
        }
    }
    assert_eq!(table.row_survivor(2), Some(7));
    assert_eq!(table.column_survivor(20), Some(11));
    assert_eq!(table.column_survivor(7), None);
    table.write_disproven(2, 7);
    assert_eq!(table.row_survivor(2), None);
}

#[test]
fn forced_pairs_are_listed_once() {
    let mut table = DisproofTable::new();
    assert!(table.axiomatic_pairs().is_empty());
    // Row 2 leaves only column 7, and column 7 leaves only row 2.
    for symbol in 0..27 {
        if symbol != 7 {
            table.write_disproven(2, symbol);
        }
        if symbol != 2 {
            table.write_disproven(symbol, 7);
        }
    }
    assert_eq!(table.axiomatic_pairs(), vec![(2, 7)]);
    // Row 3 leaves only column 8; column 8 has other cells left.
    for symbol in 0..27 {
        if symbol != 8 {
            table.write_disproven(3, symbol);
        }
    }
    assert_eq!(table.axiomatic_pairs(), vec![(2, 7), (3, 8)]);
    // Column 9 leaves only row 5; row 5 has other cells left.
    for symbol in 0..27 {
        if symbol != 5 {
            table.write_disproven(symbol, 9);
        }
    }
    assert_eq!(table.axiomatic_pairs(), vec![(2, 7), (3, 8), (5, 9)]);
}

#[test]
fn two_rows_forced_onto_one_column_conflict() {
    let mut table = DisproofTable::new();
    for symbol in 0..27 {
        if symbol != 6 {
            table.write_disproven(1, symbol);
            table.write_disproven(2, symbol);
        }
    }
    let pairs = table.axiomatic_pairs();
    assert_eq!(pairs, vec![(1, 6), (2, 6)]);
    assert_eq!(pairs[0].1, pairs[1].1);
    let mut cipher = [false; 27];
    let mut plain = [false; 27];
    assert!(!is_conflict_or_insert_skip(pairs[0].0, pairs[0].1, &mut cipher, &mut plain));
    assert!(is_conflict_or_insert_skip(pairs[1].0, pairs[1].1, &mut cipher, &mut plain));
}
