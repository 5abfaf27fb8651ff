use combo_search::combinatorics::{
    combination_range, next_selection, next_selection_with_replacement, select, Combinations,
    CombinationsWithReplacement, InvalidArgument,
};

fn binomial(n: u64, k: u64) -> u64 {
    if k > n {
        return 0;
    }
    let mut result: u64 = 1;
    for i in 0..k {
        result = result * (n - i) / (i + 1);
    }
    result
}

fn identity_pool(n: usize) -> Vec<usize> {
    (0..n).collect()
}

#[test]
fn pairs_of_four_in_lexicographic_order() {
    let generator = Combinations::new(vec![0u32, 1, 2, 3], 2).unwrap();
    let all = generator.collect();
    assert_eq!(
        all,
        vec![vec![0, 1], vec![0, 2], vec![0, 3], vec![1, 2], vec![1, 3], vec![2, 3]]
    );
}

#[test]
fn triples_of_five_step_by_step() {
    let mut generator = Combinations::new(vec!['a', 'b', 'c', 'd', 'e'], 3).unwrap();
    let expected = [
        "abc", "abd", "abe", "acd", "ace", "ade", "bcd", "bce", "bde", "cde",
    ];
    for word in expected.iter() {
        let combination: String = generator.next().unwrap().into_iter().collect();
        assert_eq!(&combination, word);
    }
    assert_eq!(generator.next(), None);
}

#[test]
fn combinations_are_counted_by_the_binomial_coefficient() {
    for n in 0..8usize {
        for k in 1..=n {
            let all = Combinations::new(identity_pool(n), k).unwrap().collect();
            assert_eq!(all.len() as u64, binomial(n as u64, k as u64));
            for combination in all.iter() {
                assert_eq!(combination.len(), k);
                assert!(combination.windows(2).all(|pair| pair[0] < pair[1]));
                assert!(combination.iter().all(|index| *index < n));
            }
            assert!(all.windows(2).all(|pair| pair[0] < pair[1]));
        }
    }
}

#[test]
fn ten_choose_four_is_210() {
    let all = Combinations::new(identity_pool(10), 4).unwrap().collect();
    assert_eq!(all.len(), 210);
    assert_eq!(all[0], vec![0, 1, 2, 3]);
    assert_eq!(all[209], vec![6, 7, 8, 9]);
}

#[test]
fn whole_pool_is_the_only_full_combination() {
    let all = Combinations::new(vec![7u8, 8, 9], 3).unwrap().collect();
    assert_eq!(all, vec![vec![7, 8, 9]]);
}

#[test]
fn pairs_of_three_with_replacement() {
    let generator = CombinationsWithReplacement::new(vec![0u32, 1, 2], 2).unwrap();
    let all = generator.collect();
    assert_eq!(
        all,
        vec![vec![0, 0], vec![0, 1], vec![0, 2], vec![1, 1], vec![1, 2], vec![2, 2]]
    );
}

#[test]
fn combinations_with_replacement_are_counted_by_the_binomial_coefficient() {
    for n in 1..6usize {
        for k in 1..5usize {
            let all = CombinationsWithReplacement::new(identity_pool(n), k).unwrap().collect();
            assert_eq!(all.len() as u64, binomial((n + k - 1) as u64, k as u64));
            for combination in all.iter() {
                assert_eq!(combination.len(), k);
                assert!(combination.windows(2).all(|pair| pair[0] <= pair[1]));
                assert!(combination.iter().all(|index| *index < n));
            }
            assert!(all.windows(2).all(|pair| pair[0] < pair[1]));
        }
    }
}

#[test]
fn four_multichoose_three_is_20() {
    let all = CombinationsWithReplacement::new(identity_pool(4), 3).unwrap().collect();
    assert_eq!(all.len(), 20);
    assert_eq!(all[0], vec![0, 0, 0]);
    assert_eq!(all[1], vec![0, 0, 1]);
    assert_eq!(all[19], vec![3, 3, 3]);
}

#[test]
fn single_element_repeats() {
    let all = CombinationsWithReplacement::new(vec!["x"], 5).unwrap().collect();
    assert_eq!(all, vec![vec!["x", "x", "x", "x", "x"]]);
}

#[test]
fn equal_values_still_give_every_index_sequence() {
    let generator = CombinationsWithReplacement::new(vec!['X', 'X', 'Y'], 2).unwrap();
    let all = generator.collect();
    assert_eq!(
        all,
        vec![
            vec!['X', 'X'],
            vec!['X', 'X'],
            vec!['X', 'Y'],
            vec!['X', 'X'],
            vec!['X', 'Y'],
            vec!['Y', 'Y'],
        ]
    );
}

#[test]
fn index_sequences_of_pairs_of_three_with_replacement() {
    let mut state: Vec<usize> = Vec::new();
    let mut seen: Vec<Vec<usize>> = Vec::new();
    while next_selection_with_replacement(&mut state, 3, 2) {
        seen.push(state.clone());
    }
    assert_eq!(
        seen,
        vec![vec![0, 0], vec![0, 1], vec![0, 2], vec![1, 1], vec![1, 2], vec![2, 2]]
    );
    assert_eq!(state, vec![2, 2]);
}

#[test]
fn count_zero_yields_nothing() {
    let mut plain = Combinations::new(vec![1, 2, 3], 0).unwrap();
    assert_eq!(plain.next(), None);
    assert_eq!(plain.next(), None);
    let mut repeating = CombinationsWithReplacement::new(vec![1, 2, 3], 0).unwrap();
    assert_eq!(repeating.next(), None);
    assert_eq!(repeating.next(), None);
}

#[test]
fn count_zero_of_an_empty_pool_yields_nothing() {
    let empty: Vec<u8> = Vec::new();
    assert_eq!(Combinations::new(empty.clone(), 0).unwrap().collect().len(), 0);
    assert_eq!(
        CombinationsWithReplacement::new(empty, 0).unwrap().collect().len(),
        0
    );
}

#[test]
fn count_beyond_pool_fails_at_construction() {
    let made = Combinations::new(vec![1u8, 2], 3);
    assert_eq!(made.err(), Some(InvalidArgument::CountExceedsPool));
    let empty: Vec<u8> = Vec::new();
    assert_eq!(
        Combinations::new(empty, 1).err(),
        Some(InvalidArgument::CountExceedsPool)
    );
    assert!(Combinations::new(vec![1u8, 2], 2).is_ok());
}

#[test]
fn replacement_from_an_empty_pool_fails_at_construction() {
    let empty: Vec<u8> = Vec::new();
    assert_eq!(
        CombinationsWithReplacement::new(empty, 1).err(),
        Some(InvalidArgument::EmptyPool)
    );
    assert!(CombinationsWithReplacement::new(vec![1u8], 4).is_ok());
}

#[test]
fn exhausted_generator_stays_exhausted() {
    let mut generator = Combinations::new(vec![1, 2], 1).unwrap();
    assert_eq!(generator.next(), Some(vec![1]));
    assert_eq!(generator.next(), Some(vec![2]));
    assert_eq!(generator.next(), None);
    assert_eq!(generator.next(), None);
    let mut repeating = CombinationsWithReplacement::new(vec![1], 2).unwrap();
    assert_eq!(repeating.next(), Some(vec![1, 1]));
    assert_eq!(repeating.next(), None);
    assert_eq!(repeating.next(), None);
}

#[test]
fn collect_gives_what_is_left() {
    let mut generator = Combinations::new(vec![1, 2, 3], 2).unwrap();
    assert_eq!(generator.next(), Some(vec![1, 2]));
    assert_eq!(generator.collect(), vec![vec![1, 3], vec![2, 3]]);
}

#[test]
fn selection_steps_raise_the_rightmost_movable_index() {
    let mut state: Vec<usize> = Vec::new();
    assert!(next_selection(&mut state, 5, 3));
    assert_eq!(state, vec![0, 1, 2]);
    let mut state = vec![0, 3, 4];
    assert!(next_selection(&mut state, 5, 3));
    assert_eq!(state, vec![1, 2, 3]);
    let mut state = vec![2, 3, 4];
    assert!(!next_selection(&mut state, 5, 3));
    assert_eq!(state, vec![2, 3, 4]);
    let mut state: Vec<usize> = Vec::new();
    assert!(!next_selection(&mut state, 5, 0));
    assert_eq!(state, Vec::<usize>::new());
}

#[test]
fn selection_steps_with_replacement_carry_the_raised_index() {
    let mut state: Vec<usize> = Vec::new();
    assert!(next_selection_with_replacement(&mut state, 3, 3));
    assert_eq!(state, vec![0, 0, 0]);
    let mut state = vec![0, 2, 2];
    assert!(next_selection_with_replacement(&mut state, 3, 3));
    assert_eq!(state, vec![1, 1, 1]);
    let mut state = vec![2, 2, 2];
    assert!(!next_selection_with_replacement(&mut state, 3, 3));
    assert_eq!(state, vec![2, 2, 2]);
}

#[test]
fn select_clones_the_elements_pointed_at() {
    let pool = vec!["a".to_string(), "b".to_string(), "c".to_string()];
    assert_eq!(select(&pool, &vec![2, 0, 0]), vec!["c", "a", "a"]);
    assert_eq!(select(&pool, &vec![]), Vec::<String>::new());
}

#[test]
fn sweep_concatenates_sizes() {
    let sweep = combination_range(vec!['a', 'b'], vec![0, 1, 2], false);
    assert_eq!(
        sweep.collect(),
        Ok(vec![vec!['a'], vec!['b'], vec!['a', 'b']])
    );
}

#[test]
fn sweep_takes_the_sizes_in_the_order_given() {
    let sweep = combination_range(vec![1, 2], vec![2, 1, 1], true);
    assert_eq!(
        sweep.collect(),
        Ok(vec![
            vec![1, 1],
            vec![1, 2],
            vec![2, 2],
            vec![1],
            vec![2],
            vec![1],
            vec![2],
        ])
    );
}

#[test]
fn sweep_over_no_sizes_yields_nothing() {
    let mut sweep = combination_range(vec![1, 2], vec![], true);
    assert_eq!(sweep.next(), Ok(None));
    assert_eq!(sweep.next(), Ok(None));
}

#[test]
fn sweep_fails_when_it_comes_to_a_size_beyond_the_pool() {
    let mut sweep = combination_range(vec![1, 2], vec![1, 3, 1], false);
    assert_eq!(sweep.next(), Ok(Some(vec![1])));
    assert_eq!(sweep.next(), Ok(Some(vec![2])));
    assert_eq!(sweep.next(), Err(InvalidArgument::CountExceedsPool));
    assert_eq!(sweep.next(), Err(InvalidArgument::CountExceedsPool));
    let again = combination_range(vec![1, 2], vec![1, 3, 1], false);
    assert_eq!(again.collect(), Err(InvalidArgument::CountExceedsPool));
}

#[test]
fn sweep_with_replacement_fails_on_an_empty_pool() {
    let empty: Vec<u8> = Vec::new();
    let sweep = combination_range(empty.clone(), vec![0, 0], true);
    assert_eq!(sweep.collect(), Ok(vec![]));
    let mut failing = combination_range(empty, vec![0, 2], true);
    assert_eq!(failing.next(), Err(InvalidArgument::EmptyPool));
}
