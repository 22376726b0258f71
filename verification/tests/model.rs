//! Cross-validation of the two adaptive model implementations.

use redux::model::{AdaptiveLinearModel, AdaptiveTreeModel, Model, Parameters};

fn get_invalid_symbol(bits: usize) -> usize {
    (1usize << bits) + 1usize
}

fn get_valid_symbol(bits: usize) -> usize {
    rand::random::<usize>() % get_invalid_symbol(bits)
}

fn get_invalid_value<M: Model>(m: &M) -> u64 {
    m.total_frequency()
}

fn get_valid_value<M: Model>(m: &M) -> u64 {
    rand::random::<u64>() % get_invalid_value(m)
}

fn compare_freq_total(linear: &AdaptiveLinearModel, tree: &AdaptiveTreeModel) {
    let lt = linear.total_frequency();
    let tt = tree.total_frequency();
    assert_eq!(lt, tt);
}

fn compare_freq_tables(linear: &AdaptiveLinearModel, tree: &AdaptiveTreeModel) {
    compare_freq_total(linear, tree);
    let lf = linear.get_freq_table();
    let tf = tree.get_freq_table();
    assert_eq!(lf, tf);
}

fn compare_models_encode_single(bits: usize, freq: usize, code: usize, iter: usize) {
    let mut linear = AdaptiveLinearModel::new(Parameters::new(bits, freq, code).unwrap());
    let mut tree = AdaptiveTreeModel::new(Parameters::new(bits, freq, code).unwrap());

    for _count in 0..iter {
        compare_freq_tables(&linear, &tree);
        let symbol = get_valid_symbol(bits);
        let (ll, lh) = linear.get_frequency(symbol).unwrap();
        let (tl, th) = tree.get_frequency(symbol).unwrap();
        assert_eq!(ll, tl);
        assert_eq!(lh, th);
    }

    let symbol = get_invalid_symbol(bits);
    assert!(!linear.get_frequency(symbol).is_ok());
    assert!(!linear.get_frequency(symbol + 1).is_ok());
    assert!(!tree.get_frequency(symbol).is_ok());
    assert!(!tree.get_frequency(symbol).is_ok());
}

fn compare_models_decode_single(bits: usize, freq: usize, code: usize, iter: usize) {
    let mut linear = AdaptiveLinearModel::new(Parameters::new(bits, freq, code).unwrap());
    let mut tree = AdaptiveTreeModel::new(Parameters::new(bits, freq, code).unwrap());

    for _count in 0..iter {
        compare_freq_tables(&linear, &tree);
        let value = get_valid_value(&linear);
        let (ls, ll, lh) = linear.get_symbol(value).unwrap();
        let (ts, tl, th) = tree.get_symbol(value).unwrap();
        assert_eq!(ls, ts);
        assert_eq!(ll, tl);
        assert_eq!(lh, th);
    }

    let value = get_invalid_value(&linear);
    assert!(!linear.get_symbol(value).is_ok());
    assert!(!linear.get_symbol(value + 1).is_ok());
    assert!(!tree.get_symbol(value).is_ok());
    assert!(!tree.get_symbol(value + 1).is_ok());
}

#[test]
fn compare_models_encode_4_10_16() {
    compare_models_encode_single(4, 10, 16, 10000);
}

#[test]
fn compare_models_encode_4_14_16() {
    compare_models_encode_single(4, 14, 16, 10000);
}

#[test]
fn compare_models_encode_4_22_24() {
    compare_models_encode_single(4, 22, 24, 100000);
}

#[test]
fn compare_models_encode_4_24_30() {
    compare_models_encode_single(4, 24, 30, 100000);
}

#[test]
fn compare_models_encode_4_30_32() {
    compare_models_encode_single(4, 30, 32, 200000);
}

#[test]
fn compare_models_decode_4_10_16() {
    compare_models_decode_single(4, 10, 16, 10000);
}

#[test]
fn compare_models_decode_4_14_16() {
    compare_models_decode_single(4, 14, 16, 10000);
}

#[test]
fn compare_models_decode_4_22_24() {
    compare_models_decode_single(4, 22, 24, 100000);
}

#[test]
fn compare_models_decode_4_24_30() {
    compare_models_decode_single(4, 24, 30, 100000);
}

#[test]
fn compare_models_decode_4_30_32() {
    compare_models_decode_single(4, 30, 32, 200000);
}

#[test]
fn get_symbol_brackets_every_valid_value() {
    let mut linear = AdaptiveLinearModel::new(Parameters::new(4, 10, 16).unwrap());
    let mut tree = AdaptiveTreeModel::new(Parameters::new(4, 10, 16).unwrap());
    for _round in 0..64usize {
        let total = linear.total_frequency();
        assert_eq!(total, tree.total_frequency());
        let value = rand::random::<u64>() % total;
        let (ls, ll, lh) = linear.get_symbol(value).unwrap();
        let (ts, tl, th) = tree.get_symbol(value).unwrap();
        assert_eq!((ls, ll, lh), (ts, tl, th));
        assert!(ll <= value && value < lh);
        assert!(ls <= 16);
    }
    // a value at the total is invalid on both models
    let total = linear.total_frequency();
    assert!(linear.get_symbol(total).is_err());
    assert!(tree.get_symbol(total).is_err());
}

#[test]
fn eof_symbol_is_still_legal() {
    let mut linear = AdaptiveLinearModel::new(Parameters::new(8, 14, 16).unwrap());
    let mut tree = AdaptiveTreeModel::new(Parameters::new(8, 14, 16).unwrap());
    assert!(linear.get_frequency(256).is_ok());
    assert!(tree.get_frequency(256).is_ok());
    assert!(linear.get_frequency(257).is_err());
    assert!(tree.get_frequency(257).is_err());
}

#[test]
fn model_freezes_at_frequency_cap() {
    // freq_max is 1023 and the table starts at total 17, so the first
    // 1006 updates grow the total and later ones leave it frozen
    let mut linear = AdaptiveLinearModel::new(Parameters::new(4, 10, 16).unwrap());
    let mut tree = AdaptiveTreeModel::new(Parameters::new(4, 10, 16).unwrap());
    for _i in 0..2000usize {
        let (ll, lh) = linear.get_frequency(3).unwrap();
        let (tl, th) = tree.get_frequency(3).unwrap();
        assert_eq!((ll, lh), (tl, th));
    }
    assert_eq!(1023, linear.total_frequency());
    assert_eq!(1023, tree.total_frequency());
}

#[test]
fn model_equivalence_byte_alphabet() {
    let mut linear = AdaptiveLinearModel::new(Parameters::new(8, 14, 16).unwrap());
    let mut tree = AdaptiveTreeModel::new(Parameters::new(8, 14, 16).unwrap());
    for count in 0..10000usize {
        compare_freq_total(&linear, &tree);
        if count % 1000 == 0 {
            compare_freq_tables(&linear, &tree);
        }
        let symbol = rand::random::<usize>() % 256;
        let l = linear.get_frequency(symbol).unwrap();
        let t = tree.get_frequency(symbol).unwrap();
        assert_eq!(l, t);
    }
    // the EOF symbol is still legal, one past it is not
    assert!(linear.get_frequency(256).is_ok());
    assert!(tree.get_frequency(256).is_ok());
    assert!(matches!(linear.get_frequency(257), Err(redux::Error::InvalidInput)));
    assert!(matches!(tree.get_frequency(257), Err(redux::Error::InvalidInput)));
}
