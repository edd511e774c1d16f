use ironsort::quicksort_by;
use std::cmp::Ordering;

fn sorted_copy(items: &[i32]) -> Vec<i32> {
    let mut copy = items.to_vec();
    copy.sort();
    copy
}

#[test]
fn comparator_that_always_answers_greater_still_permutes() {
    let input: Vec<i32> = vec![1, 2, 3, 4, 5];
    let mut vector = input.clone();
    quicksort_by(&mut vector, &|_: &i32, _: &i32| Ordering::Greater);

    assert_eq!(vector, vec![3, 4, 2, 5, 1]);
    assert_eq!(sorted_copy(&vector), sorted_copy(&input));
}

#[test]
fn comparator_that_always_answers_less_still_permutes() {
    let input: Vec<i32> = vec![5, 4, 3, 2, 1, 0];
    let mut vector = input.clone();
    quicksort_by(&mut vector, &|_: &i32, _: &i32| Ordering::Less);

    assert_eq!(vector, vec![1, 5, 4, 0, 3, 2]);
    assert_eq!(sorted_copy(&vector), sorted_copy(&input));
}

#[test]
fn comparator_that_always_answers_equal_still_permutes() {
    let input: Vec<i32> = vec![1, 2, 3, 4, 5];
    let mut vector = input.clone();
    quicksort_by(&mut vector, &|_: &i32, _: &i32| Ordering::Equal);

    assert_eq!(vector, vec![5, 4, 2, 1, 3]);
    assert_eq!(sorted_copy(&vector), sorted_copy(&input));
}

#[test]
fn comparator_that_is_not_transitive_still_permutes() {
    // Rock, paper, scissors: 0 < 1 < 2 < 0.
    let cyclic = |x: &i32, y: &i32| match (y - x + 3) % 3 {
        0 => Ordering::Equal,
        1 => Ordering::Less,
        _ => Ordering::Greater,
    };
    let input: Vec<i32> = vec![0, 1, 2, 0, 1, 2, 2, 1, 0, 0];
    let mut vector = input.clone();
    quicksort_by(&mut vector, &cyclic);

    assert_eq!(sorted_copy(&vector), sorted_copy(&input));
}

#[test]
fn comparator_that_changes_its_mind_still_permutes() {
    let calls = std::cell::Cell::new(0u32);
    let fickle = |_: &i32, _: &i32| {
        calls.set(calls.get() + 1);
        match calls.get() % 3 {
            0 => Ordering::Less,
            1 => Ordering::Greater,
            _ => Ordering::Equal,
        }
    };
    let input: Vec<i32> = (0..50).collect();
    let mut vector = input.clone();
    quicksort_by(&mut vector, &fickle);

    assert_eq!(sorted_copy(&vector), input);
    assert!(calls.get() > 0);
}

#[test]
fn comparator_sees_only_elements_of_the_slice() {
    let input: Vec<i32> = vec![40, 10, 30, 20, 10, 50];
    let seen_outside = std::cell::Cell::new(false);
    let checked = |x: &i32, y: &i32| {
        if !input.contains(x) || !input.contains(y) {
            seen_outside.set(true);
        }
        x.cmp(y)
    };
    let mut vector = input.clone();
    quicksort_by(&mut vector, &checked);

    assert!(!seen_outside.get());
    assert_eq!(vector, vec![10, 10, 20, 30, 40, 50]);
}

#[test]
fn comparator_by_key_orders_by_that_key() {
    let by_length = |x: &&str, y: &&str| x.len().cmp(&y.len());
    let mut vector: Vec<&str> = vec!["ccc", "a", "dddd", "bb", "eeeee"];
    quicksort_by(&mut vector, &by_length);

    assert_eq!(vector, vec!["a", "bb", "ccc", "dddd", "eeeee"]);
}
