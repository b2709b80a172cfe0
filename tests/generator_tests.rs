use markov::model::MarkovModel;

fn trained(order: usize, corpus: &str) -> MarkovModel {
    let mut m = MarkovModel::new(order);
    m.train(corpus);
    m
}

#[test]
fn each_key_selected_by_its_count_of_draws() {
    let m = trained(2, "abab");
    let total = m.total_occurrences();
    let mut ab = 0;
    let mut ba = 0;
    for d in 0..total {
        match m.generate_str_from(d).unwrap().as_str() {
            "ab" => ab += 1,
            "ba" => ba += 1,
            other => panic!("unexpected key {}", other),
        }
    }
    assert_eq!((ab, ba), (2, 1));
}

#[test]
fn sampling_converges_to_weights() {
    let m = trained(2, "abab");
    let trials = 30000;
    let mut ab = 0u32;
    for _ in 0..trials {
        let s = m.generate_str().unwrap();
        assert!(s == "ab" || s == "ba");
        if s == "ab" {
            ab += 1;
        }
    }
    let share = ab as f64 / trials as f64;
    assert!((share - 2.0 / 3.0).abs() < 0.03, "share of ab was {}", share);
}

#[test]
fn next_char_follows_context() {
    let m = trained(3, "abcabd");
    // keys: abc, bca, cab, abd; context "xab" looks for keys starting "ab"
    for d in 0..4 {
        let c = m.generate_next_char_from("xab", d).unwrap();
        assert!(c == 'c' || c == 'd');
    }
    assert_eq!(m.generate_next_char_from("xab", 0), Ok('c'));
    assert_eq!(m.generate_next_char_from("xab", 1), Ok('d'));
    assert_eq!(m.generate_next_char_from("zbc", 0), Ok('a'));
}

#[test]
fn next_char_falls_back_to_shorter_context() {
    let m = trained(3, "abcabc");
    // keys abc:2, bca:1, cab:1; nothing starts with "yz" or "z"
    assert_eq!(m.submodel("yz").total_occurrences(), 0);
    // "xyz" -> "yz" empty -> "z" empty -> "" samples the whole model, last char
    assert_eq!(m.generate_next_char_from("xyz", 0), Ok('c'));
    assert_eq!(m.generate_next_char_from("xyz", 2), Ok('a'));
    assert_eq!(m.generate_next_char_from("xyz", 3), Ok('b'));
    // "qb": "b" has keys -> bca
    assert_eq!(m.generate_next_char_from("qb", 0), Ok('a'));
    for ctx in ["xyz", "yz", "z", "", "qqqq"] {
        for d in 0..10 {
            let c = m.generate_next_char_from(ctx, d).unwrap();
            assert!("abc".contains(c));
        }
        let c = m.generate_next_char(ctx).unwrap();
        assert!("abc".contains(c));
    }
}

#[test]
fn empty_context_takes_first_character() {
    let m = trained(2, "abab");
    assert_eq!(m.generate_next_char_from("", 0), Ok('a'));
    assert_eq!(m.generate_next_char_from("", 2), Ok('b'));
}

#[test]
fn generation_stream_stays_in_alphabet() {
    let m = trained(3, "the quick brown fox jumps over the lazy dog");
    let mut prior: Vec<char> = m.generate_str().unwrap().chars().collect();
    for _ in 0..200 {
        let s: String = prior.iter().collect();
        let c = m.generate_next_char(&s).unwrap();
        assert!("the quick brown fox jumps over the lazy dog".contains(c));
        prior.remove(0);
        prior.push(c);
    }
}
