use partition_election::structures::{Candidate, Structure};
use partition_election::utils::structures::{
    divide_into_classes, partition, powerset, powerset_generator, subset_count,
};
use partition_election::utils::text::{decimal_string, eq_ignore_case, integer_string};
use partition_election::utils::unordered_pair::UnorderedPair;
use partition_election::utils::{bell, bell_wide};

#[test]
fn test_partitions() {
    let m = 3;
    let vec = (0..m).collect::<Vec<usize>>();
    let partitions = partition(&vec);
    assert!(partitions.len() == 5);

    let m = 4;
    let vec = (0..m).collect::<Vec<usize>>();
    let partitions = partition(&vec);
    assert!(partitions.len() == 15);
}

#[test]
fn test_partitions_fixed_size() {
    let m = 3;
    let size = 1;

    let vec = (0..m).collect::<Vec<usize>>();
    let partitions = divide_into_classes(&vec, size);
    assert!(partitions.len() == 1);

    let m = 4;
    let vec = (0..m).collect::<Vec<usize>>();
    let partitions = divide_into_classes(&vec, 2);

    assert!(partitions.len() == 7);
}

#[test]
fn bell_numbers_are_the_known_ones() {
    assert_eq!(bell(1), 1);
    assert_eq!(bell(2), 2);
    assert_eq!(bell(3), 5);
    assert_eq!(bell(4), 15);
    assert_eq!(bell(5), 52);
    assert_eq!(bell(6), 203);
    assert_eq!(bell_wide(0), Some(1));
    assert_eq!(bell_wide(10), Some(115975));
}

#[test]
fn bell_number_too_large_for_128_bits_is_none() {
    assert_eq!(bell_wide(25), Some(4638590332229999353));
    assert!(bell_wide(40).is_some());
    assert_eq!(bell_wide(60), None);
}

#[test]
fn partitions_are_as_many_as_the_bell_number() {
    for m in 1..6usize {
        let vec = (0..m).collect::<Vec<usize>>();
        assert_eq!(partition(&vec).len(), bell(m));
    }
}

#[test]
fn partitions_of_three_are_listed_in_order() {
    let vec = vec![0usize, 1, 2];
    let partitions = partition(&vec);
    let expected: Vec<Vec<Vec<usize>>> = vec![
        vec![vec![0], vec![1], vec![2]],
        vec![vec![0], vec![1, 2]],
        vec![vec![0, 1], vec![2]],
        vec![vec![0, 1, 2]],
        vec![vec![0, 2], vec![1]],
    ];
    assert_eq!(partitions, expected);
}

#[test]
fn divisions_of_an_empty_set_or_into_no_class_are_none() {
    let empty: Vec<usize> = Vec::new();
    assert_eq!(divide_into_classes(&empty, 1).len(), 0);
    let vec = vec![0usize, 1];
    assert_eq!(divide_into_classes(&vec, 0).len(), 0);
    assert_eq!(divide_into_classes(&vec, 3).len(), 0);
    assert_eq!(divide_into_classes(&vec, 2), vec![vec![vec![0], vec![1]]]);
}

#[test]
fn powerset_has_every_subset_once() {
    let set = vec![1usize, 2, 3];
    let all = powerset(&set);
    assert_eq!(all.len(), 8);
    let expected: Vec<Vec<usize>> = vec![
        vec![],
        vec![1],
        vec![1, 2],
        vec![1, 2, 3],
        vec![1, 3],
        vec![2],
        vec![2, 3],
        vec![3],
    ];
    assert_eq!(all, expected);
}

#[test]
fn powerset_generator_follows_the_binary_digits() {
    let set = vec![10usize, 20, 30];
    assert_eq!(powerset_generator(&set, 0), Vec::<usize>::new());
    assert_eq!(powerset_generator(&set, 1), vec![10]);
    assert_eq!(powerset_generator(&set, 2), vec![20]);
    assert_eq!(powerset_generator(&set, 5), vec![10, 30]);
    assert_eq!(powerset_generator(&set, 7), vec![10, 20, 30]);
    assert_eq!(subset_count(3), Some(8));
    assert_eq!(subset_count(0), Some(1));
    assert_eq!(subset_count(200), None);
}

#[test]
fn unordered_pair_puts_the_smaller_part_first() {
    let a = Candidate::from_str("a");
    let b = Candidate::from_str("b");
    let one = UnorderedPair::new(a.clone(), b.clone());
    let other = UnorderedPair::new(b, a);
    assert!(one == other);
    assert_eq!(one.0.name, "a");
    assert_eq!(one.1.name, "b");
}

#[test]
fn numbers_as_text() {
    assert_eq!(decimal_string(0), "0");
    assert_eq!(decimal_string(7), "7");
    assert_eq!(decimal_string(10), "10");
    assert_eq!(decimal_string(4096), "4096");
    assert_eq!(integer_string(0), "0");
    assert_eq!(integer_string(-15), "-15");
    assert_eq!(integer_string(i64::MIN), "-9223372036854775808");
    assert_eq!(integer_string(i64::MAX), "9223372036854775807");
}

#[test]
fn names_are_compared_without_case() {
    assert!(eq_ignore_case("Borda", "borda"));
    assert!(eq_ignore_case("FCS", "fcs"));
    assert!(!eq_ignore_case("fcs", "fcw"));
    assert!(!eq_ignore_case("fcs", "fc"));
}

#[test]
fn candidates_are_named_by_letters() {
    let all = Candidate::all(3);
    let names: Vec<String> = all.iter().map(|c| c.to_string()).collect();
    assert_eq!(names, vec!["a", "b", "c"]);
    assert_eq!(Candidate::with_index(25).name, "z");
    assert_eq!(Candidate::with_index(26).name, "ba");
    assert_eq!(Candidate::with_index(27).name, "bb");
    assert_eq!(Candidate::with_index(26 * 26).name, "baa");
    assert_eq!(Candidate::all(0).len(), 0);
    assert_eq!(Candidate::all(30).len(), 30);
}

#[test]
fn candidates_are_legal_where_their_names_are_letters_and_digits() {
    assert!(Candidate::from_str("a1").is_legal(3));
    assert!(Candidate::from_str("").is_legal(3));
    assert!(!Candidate::from_str("a b").is_legal(3));
    assert!(!Candidate::from_str("{").is_legal(3));
}
