use metrics_rs::ngrams::NgramCounts;
use metrics_rs::rouge::create_ngrams;

#[test]
fn new_counts_are_empty() {
    let counts = NgramCounts::new();
    assert_eq!(counts.len(), 0);
    assert_eq!(counts.total(), 0);
    assert_eq!(counts.get(&vec!["a"]), None);
    assert_eq!(counts.get(&vec![]), None);
}

#[test]
fn insert_counts_equal_ngrams_together() {
    let mut counts = NgramCounts::new();
    counts.insert(vec!["a", "b"]);
    counts.insert(vec!["b", "c"]);
    counts.insert(vec!["a", "b"]);
    assert_eq!(counts.len(), 2);
    assert_eq!(counts.total(), 3);
    assert_eq!(counts.get(&vec!["a", "b"]), Some(2));
    assert_eq!(counts.get(&vec!["b", "c"]), Some(1));
    assert_eq!(counts.get(&vec!["c", "d"]), None);
}

#[test]
fn insert_compares_text_and_not_addresses() {
    let first = String::from("same");
    let second = String::from("same");
    let mut counts = NgramCounts::new();
    counts.insert(vec![first.as_str()]);
    counts.insert(vec![second.as_str()]);
    assert_eq!(counts.len(), 1);
    assert_eq!(counts.get(&vec!["same"]), Some(2));
}

#[test]
fn distinct_ngrams_stand_in_the_order_of_their_first_insert() {
    let mut counts = NgramCounts::new();
    counts.insert(vec!["x"]);
    counts.insert(vec!["y"]);
    counts.insert(vec!["x"]);
    counts.insert(vec!["z"]);
    assert_eq!(counts.len(), 3);
    assert_eq!(counts.ngram_at(0), &vec!["x"]);
    assert_eq!(counts.ngram_at(1), &vec!["y"]);
    assert_eq!(counts.ngram_at(2), &vec!["z"]);
    assert_eq!(counts.count_at(0), 2);
    assert_eq!(counts.count_at(1), 1);
    assert_eq!(counts.count_at(2), 1);
}

#[test]
fn ngrams_differ_by_length_order_and_token_boundaries() {
    let mut counts = NgramCounts::new();
    counts.insert(vec!["a", "b"]);
    counts.insert(vec!["b", "a"]);
    counts.insert(vec!["a"]);
    counts.insert(vec!["ab"]);
    counts.insert(vec!["a", "b", ""]);
    counts.insert(vec!["a", "bc"]);
    counts.insert(vec!["ab", "c"]);
    assert_eq!(counts.len(), 7);
    assert_eq!(counts.total(), 7);
    for i in 0..counts.len() {
        assert_eq!(counts.count_at(i), 1);
    }
}

#[test]
fn ngrams_differ_by_a_single_byte() {
    let mut counts = NgramCounts::new();
    counts.insert(vec!["case."]);
    counts.insert(vec!["case"]);
    counts.insert(vec!["Case."]);
    counts.insert(vec!["case."]);
    counts.insert(vec!["\u{00E9}"]);
    counts.insert(vec!["e\u{0301}"]);
    assert_eq!(counts.len(), 5);
    assert_eq!(counts.get(&vec!["case."]), Some(2));
    assert_eq!(counts.get(&vec!["case"]), Some(1));
    assert_eq!(counts.get(&vec!["Case."]), Some(1));
    assert_eq!(counts.get(&vec!["\u{00E9}"]), Some(1));
    assert_eq!(counts.get(&vec!["e\u{0301}"]), Some(1));
}

#[test]
fn total_is_the_sum_of_the_counts() {
    let counts = create_ngrams("a b a b a c".split_whitespace().collect(), 2);
    let mut sum = 0;
    for i in 0..counts.len() {
        sum += counts.count_at(i);
    }
    assert_eq!(sum, counts.total());
    assert_eq!(sum, 5);
}

#[test]
fn overlap_takes_the_smaller_count_of_each_ngram() {
    let mut left = NgramCounts::new();
    for gram in [vec!["a"], vec!["a"], vec!["a"], vec!["b"], vec!["c"], vec!["c"]] {
        left.insert(gram);
    }
    let mut right = NgramCounts::new();
    for gram in [vec!["a"], vec!["a"], vec!["c"], vec!["c"], vec!["c"], vec!["d"]] {
        right.insert(gram);
    }
    assert_eq!(left.overlap(&right), 4);
    assert_eq!(right.overlap(&left), 4);
    assert_eq!(left.overlap(&left), 6);
}

#[test]
fn overlap_with_nothing_is_nothing() {
    let mut left = NgramCounts::new();
    left.insert(vec!["a"]);
    let empty = NgramCounts::new();
    assert_eq!(left.overlap(&empty), 0);
    assert_eq!(empty.overlap(&left), 0);
    assert_eq!(empty.overlap(&empty), 0);
}
