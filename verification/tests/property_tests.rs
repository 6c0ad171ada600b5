use sorting::quicksort::{partition, quicksort};

fn counts(v: &[i32]) -> std::collections::BTreeMap<i32, usize> {
    let mut m = std::collections::BTreeMap::new();
    for &x in v {
        *m.entry(x).or_insert(0) += 1;
    }
    m
}

#[test]
fn test_sorting_twice_changes_nothing() {
    let mut vec = vec![4, 7, 1, 1, 9, 3, 3, 8];
    quicksort(&mut vec, &|a, b| a < b);
    let once = vec.clone();
    quicksort(&mut vec, &|a, b| a < b);
    assert_eq!(vec, once);
}

#[test]
fn test_permutation_is_preserved() {
    let original = vec![2, -1, 2, 0, 7, 7, 7, -1];
    let mut vec = original.clone();
    quicksort(&mut vec, &|a, b| a < b);
    assert_eq!(counts(&vec), counts(&original));
}

#[test]
fn test_ill_behaved_predicate_still_permutes() {
    let original = vec![3, 1, 2, 5, 4];
    let mut vec = original.clone();
    quicksort(&mut vec, &|_a, _b| false);
    assert_eq!(counts(&vec), counts(&original));
    let mut vec2 = original.clone();
    quicksort(&mut vec2, &|_a, _b| true);
    assert_eq!(counts(&vec2), counts(&original));
}

#[test]
fn test_partition_splits_around_pivot() {
    let mut vec = vec![5, 1, 4, 2, 3];
    let k = partition(&mut vec, 0, 5, &|a, b| a < b);
    let pivot = vec[k];
    for t in 0..k {
        assert!(vec[t] < pivot);
    }
    for t in k + 1..vec.len() {
        assert!(!(vec[t] < pivot));
    }
    assert_eq!(counts(&vec), counts(&[5, 1, 4, 2, 3]));
}

#[test]
fn test_partition_leaves_outside_untouched() {
    let mut vec = vec![9, 3, 1, 2, 0];
    let k = partition(&mut vec, 1, 4, &|a, b| a < b);
    assert!((1..4).contains(&k));
    assert_eq!(vec[0], 9);
    assert_eq!(vec[4], 0);
    let mut inside = vec[1..4].to_vec();
    inside.sort_unstable();
    assert_eq!(inside, [1, 2, 3]);
}

#[test]
fn test_quicksort_strings() {
    let mut vec = vec![
        "pear".to_string(),
        "apple".to_string(),
        "orange".to_string(),
        "banana".to_string(),
    ];
    quicksort(&mut vec, &|a: &String, b: &String| a < b);
    assert_eq!(vec, ["apple", "banana", "orange", "pear"]);
}
