use markov::model::{MarkovModel, ModelError};
use markov::record::ModelRecord;

fn trained(order: usize, corpus: &str) -> MarkovModel {
    let mut m = MarkovModel::new(order);
    m.train(corpus);
    m
}

fn pairs(m: &MarkovModel) -> Vec<(String, u64)> {
    m.persist().frequencies
}

#[test]
fn new_model_is_empty() {
    let m = MarkovModel::new(3);
    assert!(m.is_empty());
    assert_eq!(m.order(), 3);
    assert_eq!(m.total_occurrences(), 0);
    assert_eq!(m.len(), 0);
}

#[test]
fn abab_scenario_counts() {
    let m = trained(2, "abab");
    assert_eq!(m.frequency("ab"), 2);
    assert_eq!(m.frequency("ba"), 1);
    assert_eq!(m.frequency("aa"), 0);
    assert_eq!(m.total_occurrences(), 3);
    assert_eq!(pairs(&m), vec![("ab".to_string(), 2), ("ba".to_string(), 1)]);
}

#[test]
fn abab_scenario_draws() {
    let m = trained(2, "abab");
    assert_eq!(m.generate_str_from(0), Ok("ab".to_string()));
    assert_eq!(m.generate_str_from(1), Ok("ab".to_string()));
    assert_eq!(m.generate_str_from(2), Ok("ba".to_string()));
    // a draw is taken modulo the total
    assert_eq!(m.generate_str_from(5), Ok("ba".to_string()));
    assert_eq!(m.generate_str_from(6), Ok("ab".to_string()));
}

#[test]
fn empty_corpus_gives_empty_model() {
    let m = trained(2, "");
    assert_eq!(m.total_occurrences(), 0);
    assert!(m.is_empty());
    assert_eq!(m.generate_str(), Err(ModelError::EmptyModel));
    assert_eq!(m.generate_str_from(4), Err(ModelError::EmptyModel));
    assert_eq!(m.generate_next_char(""), Err(ModelError::EmptyModel));
    assert_eq!(m.generate_next_char("ab"), Err(ModelError::EmptyModel));
    assert_eq!(m.generate_next_char_from("xy", 9), Err(ModelError::EmptyModel));
}

#[test]
fn corpus_shorter_than_order_counts_nothing() {
    let m = trained(4, "abc");
    assert_eq!(m.total_occurrences(), 0);
    let m = trained(3, "abc");
    assert_eq!(m.total_occurrences(), 1);
    assert_eq!(m.frequency("abc"), 1);
}

#[test]
fn training_accumulates_over_corpora() {
    let mut m = trained(2, "abab");
    m.train("bab");
    assert_eq!(m.frequency("ab"), 3);
    assert_eq!(m.frequency("ba"), 2);
    assert_eq!(m.total_occurrences(), 5);
}

#[test]
fn training_windows_characters_not_bytes() {
    let m = trained(2, "héhé");
    assert_eq!(m.frequency("hé"), 2);
    assert_eq!(m.frequency("éh"), 1);
    assert_eq!(m.total_occurrences(), 3);
}

#[test]
fn keys_kept_in_order() {
    let m = trained(1, "cabca");
    assert_eq!(
        pairs(&m),
        vec![("a".to_string(), 2), ("b".to_string(), 1), ("c".to_string(), 2)]
    );
}

#[test]
fn total_is_sum_after_each_update() {
    let mut m = MarkovModel::new(2);
    m.inc_sequence_frequency("xy");
    m.inc_sequence_frequency("xy");
    m.inc_sequence_frequency("ab");
    assert_eq!(m.total_occurrences(), 3);
    m.set_frequency("xy", 7);
    assert_eq!(m.frequency("xy"), 7);
    assert_eq!(m.total_occurrences(), 8);
    m.set_frequency("zz", 4);
    assert_eq!(m.total_occurrences(), 12);
    let sum: u64 = pairs(&m).iter().map(|p| p.1).sum();
    assert_eq!(sum, m.total_occurrences());
}

#[test]
fn submodel_filters_by_prefix() {
    let m = trained(3, "abcabdabc");
    let sub = m.submodel("ab");
    assert_eq!(sub.order(), 3);
    assert_eq!(pairs(&sub), vec![("abc".to_string(), 2), ("abd".to_string(), 1)]);
    assert_eq!(sub.total_occurrences(), 3);
    let none = m.submodel("zz");
    assert!(none.is_empty());
    assert_eq!(none.total_occurrences(), 0);
    let all = m.submodel("");
    assert_eq!(pairs(&all), pairs(&m));
    assert_eq!(all.total_occurrences(), m.total_occurrences());
}

#[test]
fn submodel_is_a_copy() {
    let m = trained(2, "abab");
    let mut sub = m.submodel("a");
    sub.inc_sequence_frequency("ab");
    assert_eq!(sub.frequency("ab"), 3);
    assert_eq!(m.frequency("ab"), 2);
}

#[test]
fn persist_restore_round_trip() {
    let m = trained(3, "the cat sat on the mat");
    let back = MarkovModel::restore(&m.persist()).unwrap();
    assert_eq!(back.order(), m.order());
    assert_eq!(back.total_occurrences(), m.total_occurrences());
    assert_eq!(pairs(&back), pairs(&m));
}

#[test]
fn restore_accepts_unordered_record() {
    let rec = ModelRecord {
        order: 2,
        frequencies: vec![("ba".to_string(), 1), ("ab".to_string(), 2)],
        total_occurrences: 3,
    };
    let m = MarkovModel::restore(&rec).unwrap();
    assert_eq!(pairs(&m), vec![("ab".to_string(), 2), ("ba".to_string(), 1)]);
}

#[test]
fn restore_rejects_wrong_total() {
    let rec = ModelRecord {
        order: 2,
        frequencies: vec![("ab".to_string(), 2), ("ba".to_string(), 1)],
        total_occurrences: 4,
    };
    assert_eq!(MarkovModel::restore(&rec).err(), Some(ModelError::ModelCorrupt));
}

#[test]
fn restore_rejects_bad_records() {
    let dup = ModelRecord {
        order: 2,
        frequencies: vec![("ab".to_string(), 1), ("ab".to_string(), 1)],
        total_occurrences: 2,
    };
    assert_eq!(MarkovModel::restore(&dup).err(), Some(ModelError::ModelCorrupt));
    let short = ModelRecord {
        order: 2,
        frequencies: vec![("a".to_string(), 1)],
        total_occurrences: 1,
    };
    assert_eq!(MarkovModel::restore(&short).err(), Some(ModelError::ModelCorrupt));
    let zero = ModelRecord { order: 0, frequencies: vec![], total_occurrences: 0 };
    assert_eq!(MarkovModel::restore(&zero).err(), Some(ModelError::ModelCorrupt));
    let huge = ModelRecord {
        order: 1,
        frequencies: vec![("a".to_string(), u64::MAX), ("b".to_string(), 2)],
        total_occurrences: 1,
    };
    assert_eq!(MarkovModel::restore(&huge).err(), Some(ModelError::ModelCorrupt));
}

#[test]
fn load_or_create_checks_order() {
    let m = MarkovModel::load_or_create(None, 3).unwrap();
    assert_eq!(m.order(), 3);
    assert!(m.is_empty());
    let kept = MarkovModel::load_or_create(Some(trained(2, "abab")), 2).unwrap();
    assert_eq!(kept.total_occurrences(), 3);
    let wrong = MarkovModel::load_or_create(Some(trained(2, "abab")), 3);
    assert_eq!(wrong.err(), Some(ModelError::UsageError));
}
