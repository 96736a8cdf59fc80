use approx::AbsDiffEq;
use metrics_rs::commons::{f1, precision, recall, Ratio};
use metrics_rs::{create_ngrams, rouge};

fn lib_value(ratio: Ratio) -> f32 {
    ratio.num as f32 / ratio.den as f32
}

#[test]
fn lib_test_precision() {
    assert_eq!(1.0, lib_value(precision(10, 0)));
    assert_eq!(2.0 / 3.0, lib_value(precision(10, 5)));
}

#[test]
fn lib_test_recall() {
    assert_eq!(1.0, lib_value(recall(10, 0)));
    assert_eq!(2.0 / 3.0, lib_value(recall(10, 5)));
}

#[test]
fn lib_test_f1() {
    let one = Ratio { num: 1, den: 1 };
    let zero = Ratio { num: 0, den: 1 };
    assert_eq!(1.0, lib_value(f1(one, one)));
    assert_eq!(0.0, lib_value(f1(zero, one)));
    assert_eq!(0.0, lib_value(f1(one, zero)));
}

#[test]
fn lib_test_create_ngram() {
    let tokens = "I want to build awesome rust codes".split_whitespace().collect();
    let n = 2;

    let ngrams = create_ngrams(tokens, n);

    for i in 0..ngrams.len() {
        let (key, value) = (ngrams.ngram_at(i), ngrams.count_at(i));
        assert_eq!(ngrams.get(key).unwrap(), value);
    }
}

#[test]
fn lib_test_rouge1() {
    // identical: 1.0
    let score = rouge("this is identical case.", "this is identical case.", 1).unwrap();
    assert_eq!(1.0, lib_value(score.f1));

    // subset: 4/5 correct
    let score = rouge("this is identical case.", "wow this is identical case.", 1).unwrap();
    assert!(0.888f32.abs_diff_eq(&lib_value(score.f1), 1e-3));

    // duplicated words case: 1.0
    let score = rouge("it is what it is.", "it is what it is.", 1).unwrap();
    assert!(1.0f32.abs_diff_eq(&lib_value(score.f1), 1e-3));

    // duplicated words case: 5/6 correct, p=1, r=5/6.
    let score = rouge("it is what it is.", "it is really what it is.", 1).unwrap();
    let expected = lib_value(f1(Ratio { num: 1, den: 1 }, Ratio { num: 5, den: 6 }));
    assert!(expected.abs_diff_eq(&lib_value(score.f1), 1e-3));
}
