use ockham::list::{copy_slots, is_slot_subset, retain_marked, reversed};
use ockham::measure::Measure;
use ockham::promote::BundleMember;
use ockham::sort::stable_sort;
use ockham::sweep::CandidateKind;
use ockham::text::{
    copy_range, decimal3_text, decimal_text, is_list_below, is_text_below, join, note,
    split_once_text, split_text, tail_text, trim_text,
};

fn m(value: f64) -> Measure {
    Measure {
        bits: value.to_bits(),
    }
}

fn v(measure: Measure) -> f64 {
    f64::from_bits(measure.bits)
}

fn ids(list: &[&str]) -> Vec<String> {
    list.iter().map(|t| t.to_string()).collect()
}

#[test]
fn measures_compare_as_doubles_do() {
    let values = [
        f64::NEG_INFINITY,
        -1.5,
        -f64::MIN_POSITIVE,
        -0.0,
        0.0,
        5e-324,
        1.0,
        1.0 + f64::EPSILON,
        f64::MAX,
        f64::INFINITY,
        f64::NAN,
        -f64::NAN,
    ];
    for a in values {
        assert_eq!(m(a).is_nan(), a.is_nan());
        assert_eq!(m(a).is_finite(), a.is_finite());
        assert_eq!(m(a).abs().bits, a.abs().to_bits());
        assert_eq!(m(a).negated().bits, (-a).to_bits());
        for b in values {
            assert_eq!(m(a).lt(m(b)), a < b, "{a} < {b}");
            assert_eq!(m(a).le(m(b)), a <= b, "{a} <= {b}");
        }
    }
    assert_eq!(v(Measure::zero()), 0.0);
    assert_eq!(v(Measure::one()), 1.0);
    assert_eq!(v(Measure::infinity()), f64::INFINITY);
}

#[test]
fn sorting_keeps_level_entries_in_order() {
    let member = |uuid: &str, delta: f64, kind: CandidateKind| BundleMember {
        uuid: uuid.into(),
        kind,
        delta: m(delta),
    };
    let sorted = stable_sort(vec![
        member("b", 0.1, CandidateKind::Identity),
        member("a", 0.3, CandidateKind::Identity),
        member("b", 0.1, CandidateKind::Ablation),
        member("a", 0.1, CandidateKind::Identity),
    ]);
    let seen: Vec<(&str, f64, CandidateKind)> = sorted
        .iter()
        .map(|x| (x.uuid.as_str(), v(x.delta), x.kind))
        .collect();
    assert_eq!(
        seen,
        vec![
            ("a", 0.3, CandidateKind::Identity),
            ("a", 0.1, CandidateKind::Identity),
            ("b", 0.1, CandidateKind::Identity),
            ("b", 0.1, CandidateKind::Ablation),
        ]
    );
}

#[test]
fn numbers_are_written_in_decimal() {
    assert_eq!(decimal_text(0), "0");
    assert_eq!(decimal_text(1907), "1907");
    assert_eq!(decimal_text(u64::MAX), u64::MAX.to_string());
    assert_eq!(decimal3_text(7), "007");
    assert_eq!(decimal3_text(42), "042");
    assert_eq!(decimal3_text(999), "999");
    assert_eq!(decimal3_text(1000), "1000");
}

#[test]
fn texts_are_ordered_as_strings_are() {
    let texts = ["", "a", "ab", "b", "é", "z", "💡"];
    for a in texts {
        for b in texts {
            assert_eq!(is_text_below(a, b), a < b, "{a} < {b}");
        }
    }
    assert!(is_list_below(&ids(&["a"]), &ids(&["a", "b"])));
    assert!(!is_list_below(&ids(&["b"]), &ids(&["a", "b"])));
    assert!(!is_list_below(&ids(&["a"]), &ids(&["a"])));
}

#[test]
fn texts_are_cut_and_joined() {
    assert_eq!(join(&ids(&["a", "b", "c"]), ", "), "a, b, c");
    assert_eq!(join(&Vec::new(), ", "), "");
    assert_eq!(split_text("a,,b", ','), ids(&["a", "", "b"]));
    assert_eq!(split_text("", ','), ids(&[""]));
    assert_eq!(
        split_once_text("a:b:c", ':'),
        Some(("a".to_string(), "b:c".to_string()))
    );
    assert_eq!(split_once_text("abc", ':'), None);
    assert_eq!(trim_text("  a b\t\n"), "a b");
    assert_eq!(tail_text("abcdef", 3), "def");
    assert_eq!(tail_text("ab", 3), "ab");
    assert_eq!(copy_range(&ids(&["a", "b", "c"]), 1, 3), ids(&["b", "c"]));
    let mut noted = ids(&["a"]);
    note(&mut noted, &"a".to_string());
    note(&mut noted, &"b".to_string());
    assert_eq!(noted, ids(&["a", "b"]));
}

#[test]
fn lists_are_filtered_and_turned() {
    assert_eq!(
        retain_marked(vec![1, 2, 3, 4], &vec![true, false, true, false]),
        vec![1, 3]
    );
    assert_eq!(reversed(vec![1, 2, 3]), vec![3, 2, 1]);
    assert_eq!(copy_slots(&vec![4, 2]), vec![4, 2]);
    assert!(is_slot_subset(&vec![1, 1], &vec![2, 1]));
    assert!(!is_slot_subset(&vec![3], &vec![2, 1]));
}
