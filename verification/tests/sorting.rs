use ironsort::quicksort;
use ironsort::quicksort_by;
use rand::Rng;

fn occurrences<T: PartialEq>(items: &[T], wanted: &T) -> usize {
    items.iter().filter(|item| *item == wanted).count()
}

fn same_elements<T: PartialEq>(a: &[T], b: &[T]) -> bool {
    a.len() == b.len() && a.iter().all(|item| occurrences(a, item) == occurrences(b, item))
}

#[test]
fn test_vec_of_u64() {
    let presorted: Vec<u64> = vec![1, 1, 2, 3, 3, 4, 5, 5, 6, 9];
    let mut vector: Vec<u64> = vec![3, 1, 4, 1, 5, 9, 2, 6, 5, 3];
    quicksort(&mut vector);

    assert_eq!(vector, presorted.as_slice());
}

#[test]
fn test_vec_of_u8() {
    let presorted = "        Tabcdeeefghhijklmnoooopqrrstuuvwxyz".to_string().into_bytes();
    let mut vector = "The quick brown fox jumps over the lazy dog".to_string().into_bytes();
    quicksort(&mut vector);

    assert_eq!(presorted, vector);
}

#[test]
fn test_array_of_u8() {
    let presorted: [u8; 10] = [1, 2, 3, 4, 5, 5, 5, 7, 9, 10];
    let mut vector: [u8; 10] = [7, 5, 3, 2, 5, 1, 4, 5, 9, 10];
    quicksort(&mut vector);

    assert_eq!(presorted, vector);
}

#[test]
fn test_random() {
    let mut rng = rand::thread_rng();

    for _ in 0u64..10_000u64 {
        let len: usize = rng.gen();
        let mut vector = rng.gen_iter().take((len % 64) + 1).collect::<Vec<usize>>();
        quicksort(&mut vector);

        for i in 0..vector.len() - 1 {
            assert!(vector[i] <= vector[i + 1])
        }
    }
}

#[test]
fn reversed_comparator_sorts_descending() {
    let presorted: Vec<u64> = vec![9, 6, 5, 5, 4, 3, 3, 2, 1, 1];
    let mut vector: Vec<u64> = vec![3, 1, 4, 1, 5, 9, 2, 6, 5, 3];
    quicksort_by(&mut vector, &|x, y| x.cmp(y).reverse());

    assert_eq!(vector, presorted.as_slice());
}

#[test]
fn natural_comparator_matches_quicksort() {
    let mut by_comparator: Vec<i32> = vec![12, -7, 0, 33, -7, 5, 12, 1];
    let mut natural = by_comparator.clone();
    quicksort_by(&mut by_comparator, &|x: &i32, y: &i32| x.cmp(y));
    quicksort(&mut natural);

    assert_eq!(by_comparator, vec![-7, -7, 0, 1, 5, 12, 12, 33]);
    assert_eq!(natural, by_comparator);
}

#[test]
fn empty_slice_stays_empty() {
    let mut vector: Vec<u32> = Vec::new();
    quicksort(&mut vector);
    assert!(vector.is_empty());

    let mut other: Vec<u32> = Vec::new();
    quicksort_by(&mut other, &|x: &u32, y: &u32| y.cmp(x));
    assert!(other.is_empty());
}

#[test]
fn single_element_is_unchanged() {
    let mut vector: Vec<u32> = vec![42];
    quicksort(&mut vector);
    assert_eq!(vector, vec![42]);

    let mut other: Vec<&str> = vec!["only"];
    quicksort_by(&mut other, &|x: &&str, y: &&str| y.cmp(x));
    assert_eq!(other, vec!["only"]);
}

#[test]
fn two_elements_in_both_orders() {
    let mut ascending: [u8; 2] = [1, 2];
    quicksort(&mut ascending);
    assert_eq!(ascending, [1, 2]);

    let mut descending: [u8; 2] = [2, 1];
    quicksort(&mut descending);
    assert_eq!(descending, [1, 2]);

    let mut equal: [u8; 2] = [7, 7];
    quicksort(&mut equal);
    assert_eq!(equal, [7, 7]);
}

#[test]
fn result_is_a_permutation_of_the_input() {
    let input: Vec<i64> = vec![5, -3, 5, 0, 17, -3, -3, 8, 2, 2, 100, -50];
    let mut vector = input.clone();
    quicksort(&mut vector);

    assert!(same_elements(&vector, &input));
    assert_eq!(vector, vec![-50, -3, -3, -3, 0, 2, 2, 5, 5, 8, 17, 100]);
}

#[test]
fn comparator_is_never_greater_on_neighbours() {
    let by_last_digit = |x: &u32, y: &u32| (x % 10).cmp(&(y % 10));
    let input: Vec<u32> = vec![31, 17, 42, 90, 11, 77, 20, 58, 63, 5, 15, 100];
    let mut vector = input.clone();
    quicksort_by(&mut vector, &by_last_digit);

    assert!(same_elements(&vector, &input));
    for i in 0..vector.len() - 1 {
        assert_ne!(by_last_digit(&vector[i], &vector[i + 1]), std::cmp::Ordering::Greater);
    }
    for i in 0..vector.len() {
        for j in i + 1..vector.len() {
            assert_ne!(by_last_digit(&vector[i], &vector[j]), std::cmp::Ordering::Greater);
        }
    }
}

#[test]
fn sorting_a_sorted_slice_changes_nothing() {
    let sorted: Vec<u16> = vec![1, 2, 3, 5, 8, 13, 21, 34, 55, 89, 144];
    let mut vector = sorted.clone();
    quicksort(&mut vector);
    assert_eq!(vector, sorted);

    let mut twice: Vec<u16> = vec![34, 1, 144, 8, 2, 89, 3, 55, 13, 21, 5];
    quicksort(&mut twice);
    let once = twice.clone();
    quicksort(&mut twice);
    assert_eq!(twice, once);
    assert_eq!(twice, sorted);
}

#[test]
fn sorting_a_descending_slice_by_the_reversed_order_changes_nothing() {
    let descending: Vec<i8> = vec![90, 14, 3, 0, -1, -128];
    let mut vector = descending.clone();
    quicksort_by(&mut vector, &|x: &i8, y: &i8| y.cmp(x));
    assert_eq!(vector, descending);
}

#[test]
fn equal_elements_that_differ_may_change_places() {
    let by_number = |x: &(u8, char), y: &(u8, char)| x.0.cmp(&y.0);
    let sorted: Vec<(u8, char)> = vec![(1, 'a'), (1, 'b'), (1, 'c')];
    let mut vector = sorted.clone();
    quicksort_by(&mut vector, &by_number);

    assert_eq!(vector, vec![(1, 'c'), (1, 'a'), (1, 'b')]);
    assert!(same_elements(&vector, &sorted));
}

#[test]
fn ties_are_grouped_by_the_comparator() {
    let by_number = |x: &(u8, char), y: &(u8, char)| x.0.cmp(&y.0);
    let input: Vec<(u8, char)> = vec![(2, 'x'), (1, 'a'), (2, 'y'), (1, 'b'), (1, 'c')];
    let mut vector = input.clone();
    quicksort_by(&mut vector, &by_number);

    assert_eq!(vector, vec![(1, 'c'), (1, 'b'), (1, 'a'), (2, 'x'), (2, 'y')]);
}

#[test]
fn descending_input_is_sorted() {
    let mut vector: Vec<u32> = (0..200).rev().collect();
    quicksort(&mut vector);
    let expected: Vec<u32> = (0..200).collect();
    assert_eq!(vector, expected);
}

#[test]
fn all_equal_input_is_unchanged() {
    let mut vector: Vec<u8> = vec![9; 33];
    quicksort(&mut vector);
    assert_eq!(vector, vec![9; 33]);
}

#[test]
fn strings_sort_lexicographically() {
    let mut vector: Vec<String> =
        vec!["pear".to_string(), "apple".to_string(), "fig".to_string(), "apple".to_string()];
    quicksort(&mut vector);
    assert_eq!(
        vector,
        vec!["apple".to_string(), "apple".to_string(), "fig".to_string(), "pear".to_string()]
    );
}

#[test]
fn part_of_a_slice_can_be_sorted_alone() {
    let mut vector: Vec<u8> = vec![9, 8, 7, 6, 5, 4, 3, 2, 1];
    quicksort(&mut vector[2..7]);
    assert_eq!(vector, vec![9, 8, 3, 4, 5, 6, 7, 2, 1]);
}

#[test]
fn extreme_values_are_ordered() {
    let mut bytes: Vec<u8> = vec![255, 0, 128, 255, 1, 0, 254];
    quicksort(&mut bytes);
    assert_eq!(bytes, vec![0, 0, 1, 128, 254, 255, 255]);

    let mut wide: Vec<i64> = vec![i64::MAX, 0, i64::MIN, -1, 1, i64::MIN, i64::MAX];
    quicksort(&mut wide);
    assert_eq!(wide, vec![i64::MIN, i64::MIN, -1, 0, 1, i64::MAX, i64::MAX]);
}

#[test]
fn random_inputs_match_the_standard_sort() {
    let mut rng = rand::thread_rng();

    for _ in 0..2_000 {
        let len: usize = rng.gen();
        let mut vector = rng.gen_iter().take(len % 97).collect::<Vec<u8>>();
        let mut expected = vector.clone();
        expected.sort();
        quicksort(&mut vector);

        assert_eq!(vector, expected);
    }
}

#[test]
fn random_inputs_are_ordered_by_a_key() {
    let by_tens = |x: &u16, y: &u16| (x / 10).cmp(&(y / 10));
    let mut rng = rand::thread_rng();

    for _ in 0..2_000 {
        let len: usize = rng.gen();
        let input = rng.gen_iter().take(len % 50).collect::<Vec<u16>>();
        let mut vector = input.clone();
        quicksort_by(&mut vector, &by_tens);

        assert!(same_elements(&vector, &input));
        for i in 1..vector.len() {
            assert_ne!(by_tens(&vector[i - 1], &vector[i]), std::cmp::Ordering::Greater);
        }
    }
}
