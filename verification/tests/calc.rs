use id3_tree::gain::{class_cnt, log2q, select_best_attribute, subset_entropy};
use id3_tree::object::{Attr, Object};
use id3_tree::text::usize_string;

fn obj(id: usize, class: &str, vals: &[&str]) -> Object {
    Object::new(
        id,
        class.to_string(),
        vals.iter().map(|v| v.to_string()).collect(),
    )
}

fn attr(id: usize, name: &str, vals: &[&str]) -> Attr {
    Attr {
        id,
        name: name.to_string(),
        values: vals.iter().map(|v| v.to_string()).collect(),
    }
}

#[test]
fn log2_fixed_point_values() {
    assert_eq!(log2q(1), 0);
    assert_eq!(log2q(2), 10000);
    assert_eq!(log2q(4), 20000);
    assert_eq!(log2q(8), 30000);
    // log2(3) = 1.58496...; log2(10) = 3.32192...
    assert_eq!(log2q(3), 15849);
    assert_eq!(log2q(10), 33219);
    assert_eq!(log2q(100), 66438);
}

#[test]
fn entropy_of_even_two_class_split_is_one_bit() {
    let objects = vec![
        obj(1, "A", &[]),
        obj(2, "A", &[]),
        obj(3, "B", &[]),
        obj(4, "B", &[]),
    ];
    let mp: Vec<&Object> = objects.iter().collect();
    assert_eq!(subset_entropy(&mp), 10000);
}

#[test]
fn entropy_of_pure_subset_is_zero() {
    let objects = vec![obj(1, "A", &[]), obj(2, "A", &[])];
    let mp: Vec<&Object> = objects.iter().collect();
    assert_eq!(subset_entropy(&mp), 0);
}

#[test]
fn entropy_of_two_one_split() {
    // H(2/3, 1/3) = 0.91829... bits.
    let objects = vec![obj(1, "A", &[]), obj(2, "A", &[]), obj(3, "B", &[])];
    let mp: Vec<&Object> = objects.iter().collect();
    assert_eq!(subset_entropy(&mp), 9182);
}

#[test]
fn class_counts_in_first_occurrence_order() {
    let objects = vec![
        obj(1, "B", &[]),
        obj(2, "A", &[]),
        obj(3, "B", &[]),
        obj(4, "B", &[]),
    ];
    let mp: Vec<&Object> = objects.iter().collect();
    let cnt = class_cnt(&mp);
    assert_eq!(cnt.len(), 2);
    assert_eq!(cnt[0].0, "B");
    assert_eq!(cnt[0].1, 3);
    assert_eq!(cnt[1].0, "A");
    assert_eq!(cnt[1].1, 1);
}

#[test]
fn tie_break_prefers_lower_index() {
    // Both candidates split the subset perfectly: identical gains.
    let objects = vec![obj(1, "A", &["a", "a"]), obj(2, "B", &["b", "b"])];
    let attrs = vec![attr(0, "X", &["a", "b"]), attr(1, "Y", &["a", "b"])];
    let mp: Vec<&Object> = objects.iter().collect();
    let mv: Vec<&Attr> = attrs.iter().collect();
    let (best, labels) = select_best_attribute(&mv, &mp);
    assert_eq!(best, 0);
    assert_eq!(labels, vec!["X=1.0000".to_string(), "Y=1.0000".to_string()]);
}

#[test]
fn gain_labels_keep_candidate_order() {
    // Color separates the classes perfectly, Noise not at all; Color wins
    // although it is listed second... so the lower index only wins ties.
    let objects = vec![
        obj(1, "A", &["n", "red"]),
        obj(2, "B", &["n", "green"]),
    ];
    let attrs = vec![
        attr(0, "Noise", &["n"]),
        attr(1, "Color", &["red", "green"]),
    ];
    let mp: Vec<&Object> = objects.iter().collect();
    let mv: Vec<&Attr> = attrs.iter().collect();
    let (best, labels) = select_best_attribute(&mv, &mp);
    assert_eq!(best, 1);
    assert_eq!(
        labels,
        vec!["Noise=0.0000".to_string(), "Color=1.0000".to_string()]
    );
}

#[test]
fn sub_filter_keeps_matching_objects_in_order() {
    let objects = vec![
        obj(1, "A", &["red"]),
        obj(2, "B", &["green"]),
        obj(3, "C", &["red"]),
    ];
    let mp: Vec<&Object> = objects.iter().collect();
    let sub = id3_tree::gain::sub_filter(&mp, 0, &"red".to_string());
    assert_eq!(sub.len(), 2);
    assert_eq!(sub[0].id, 1);
    assert_eq!(sub[1].id, 3);
    let none = id3_tree::gain::sub_filter(&mp, 0, &"blue".to_string());
    assert!(none.is_empty());
}

#[test]
fn attr_entropy_subtracts_weighted_partitions() {
    // A perfect split leaves no weighted entropy: the gain is the base
    // entropy itself.
    let objects = vec![obj(1, "A", &["a"]), obj(2, "B", &["b"])];
    let mp: Vec<&Object> = objects.iter().collect();
    let emp = subset_entropy(&mp);
    assert_eq!(emp, 10000);
    let values = vec!["a".to_string(), "b".to_string()];
    assert_eq!(id3_tree::gain::attr_entropy(emp, 0, &values, &mp), 10000);
    // A split that separates nothing gains nothing.
    let one = vec!["a".to_string()];
    let same = vec![obj(1, "A", &["a"]), obj(2, "B", &["a"])];
    let mp2: Vec<&Object> = same.iter().collect();
    assert_eq!(id3_tree::gain::attr_entropy(emp, 0, &one, &mp2), 0);
}

#[test]
fn decimal_rendering() {
    assert_eq!(usize_string(0), "0");
    assert_eq!(usize_string(7), "7");
    assert_eq!(usize_string(10), "10");
    assert_eq!(usize_string(90301), "90301");
}
