use combo_search::combinatorics::InvalidArgument;
use combo_search::search::{
    influences_unconditionally, prune, search, search_bounded, search_pruned,
};
use std::cell::Cell;

type Item = (char, u32);

fn total(combination: &Vec<&Item>) -> u32 {
    let mut sum = 0;
    for element in combination.iter() {
        sum += element.1;
    }
    sum
}

fn labels(combination: &Vec<&Item>) -> String {
    combination.iter().map(|element| element.0).collect()
}

fn named(found: &Vec<(u32, Vec<&Item>)>) -> Vec<(u32, String)> {
    found.iter().map(|entry| (entry.0, labels(&entry.1))).collect()
}

fn entry(score: u32, label: &str) -> (u32, String) {
    (score, label.to_string())
}

fn any(_combination: &Vec<&Item>) -> bool {
    true
}

#[test]
fn best_pairs_of_four() {
    let items = vec![('A', 1u32), ('B', 2), ('C', 3), ('D', 4)];
    let pool: Vec<&Item> = items.iter().collect();
    let found = search(pool.clone(), vec![2], false, &total, &any).unwrap();
    assert_eq!(
        named(&found),
        vec![
            entry(7, "CD"),
            entry(6, "BD"),
            entry(5, "AD"),
            entry(5, "BC"),
            entry(4, "AC"),
            entry(3, "AB"),
        ]
    );
    let best = search_bounded(pool, vec![2], false, &total, &any, 2).unwrap();
    assert_eq!(named(&best), vec![entry(7, "CD"), entry(6, "BD")]);
}

#[test]
fn search_with_replacement_over_several_sizes() {
    let items = vec![('A', 1u32), ('B', 3)];
    let pool: Vec<&Item> = items.iter().collect();
    let found = search(pool, vec![0, 1, 2], true, &total, &any).unwrap();
    assert_eq!(
        named(&found),
        vec![
            entry(6, "BB"),
            entry(4, "AB"),
            entry(3, "B"),
            entry(2, "AA"),
            entry(1, "A"),
        ]
    );
}

#[test]
fn search_ranks_only_what_the_filter_admits() {
    let items = vec![('A', 1u32), ('B', 2), ('C', 3), ('D', 4)];
    let pool: Vec<&Item> = items.iter().collect();
    let affordable = |combination: &Vec<&Item>| total(combination) < 6;
    let found = search(pool, vec![1, 2], false, &total, &affordable).unwrap();
    assert_eq!(
        named(&found),
        vec![
            entry(5, "AD"),
            entry(5, "BC"),
            entry(4, "D"),
            entry(4, "AC"),
            entry(3, "C"),
            entry(3, "AB"),
            entry(2, "B"),
            entry(1, "A"),
        ]
    );
}

#[test]
fn search_evaluates_only_what_the_filter_admits() {
    let items = vec![('A', 1u32), ('B', 2), ('C', 3)];
    let pool: Vec<&Item> = items.iter().collect();
    let evaluated = Cell::new(0u32);
    let counting = |combination: &Vec<&Item>| {
        evaluated.set(evaluated.get() + 1);
        total(combination)
    };
    let without_a = |combination: &Vec<&Item>| combination.iter().all(|item| item.0 != 'A');
    let found = search(pool, vec![2], false, &counting, &without_a).unwrap();
    assert_eq!(named(&found), vec![entry(5, "BC")]);
    assert_eq!(evaluated.get(), 1);
}

#[test]
fn search_output_is_a_sorted_permutation_of_the_candidates() {
    let items: Vec<Item> = vec![('a', 5), ('b', 3), ('c', 5), ('d', 1), ('e', 2)];
    let pool: Vec<&Item> = items.iter().collect();
    let found = search(pool, vec![3], false, &total, &any).unwrap();
    assert_eq!(found.len(), 10);
    assert!(found.windows(2).all(|pair| pair[0].0 >= pair[1].0));
    let mut seen: Vec<String> = found.iter().map(|entry| labels(&entry.1)).collect();
    seen.sort();
    assert_eq!(
        seen,
        vec!["abc", "abd", "abe", "acd", "ace", "ade", "bcd", "bce", "bde", "cde"]
    );
    for entry in found.iter() {
        assert_eq!(entry.0, total(&entry.1));
    }
}

#[test]
fn bounded_search_gives_the_head_of_the_full_search() {
    let items: Vec<Item> = vec![('a', 5), ('b', 3), ('c', 5), ('d', 1), ('e', 2), ('f', 3)];
    let pool: Vec<&Item> = items.iter().collect();
    let full = search(pool.clone(), vec![0, 1, 2, 3], true, &total, &any).unwrap();
    assert_eq!(full.len(), 6 + 21 + 56);
    for capacity in [0usize, 1, 2, 5, 10, 82, 83, 84, 500] {
        let bounded =
            search_bounded(pool.clone(), vec![0, 1, 2, 3], true, &total, &any, capacity).unwrap();
        let cut = if capacity < full.len() { capacity } else { full.len() };
        assert_eq!(bounded.len(), cut);
        assert_eq!(named(&bounded), named(&full)[..cut].to_vec());
    }
}

#[test]
fn search_gives_the_same_when_run_again() {
    let items: Vec<Item> = vec![('a', 2), ('b', 2), ('c', 1), ('d', 2)];
    let pool: Vec<&Item> = items.iter().collect();
    let once = search(pool.clone(), vec![1, 2], true, &total, &any).unwrap();
    let again = search(pool, vec![1, 2], true, &total, &any).unwrap();
    assert_eq!(once, again);
}

#[test]
fn search_of_size_zero_finds_nothing() {
    let items: Vec<Item> = vec![('a', 2)];
    let pool: Vec<&Item> = items.iter().collect();
    assert_eq!(search(pool.clone(), vec![0], true, &total, &any).unwrap().len(), 0);
    assert_eq!(search(pool, vec![], true, &total, &any).unwrap().len(), 0);
}

#[test]
fn search_fails_on_a_size_beyond_the_pool() {
    let items: Vec<Item> = vec![('a', 2), ('b', 1)];
    let pool: Vec<&Item> = items.iter().collect();
    assert_eq!(
        search(pool.clone(), vec![1, 3], false, &total, &any).err(),
        Some(InvalidArgument::CountExceedsPool)
    );
    assert_eq!(
        search_bounded(pool, vec![1, 3], false, &total, &any, 4).err(),
        Some(InvalidArgument::CountExceedsPool)
    );
}

#[test]
fn search_with_replacement_fails_on_an_empty_pool() {
    let pool: Vec<&Item> = Vec::new();
    assert_eq!(
        search(pool.clone(), vec![0, 1], true, &total, &any).err(),
        Some(InvalidArgument::EmptyPool)
    );
    assert_eq!(
        search_bounded(pool.clone(), vec![2], true, &total, &any, 1).err(),
        Some(InvalidArgument::EmptyPool)
    );
    assert_eq!(search(pool, vec![0], true, &total, &any).unwrap().len(), 0);
}

#[test]
fn influence_is_a_change_of_the_evaluation() {
    let items = vec![('A', 1u32), ('Z', 0), ('C', 3)];
    assert!(influences_unconditionally(&items[0], &total));
    assert!(!influences_unconditionally(&items[1], &total));
    assert!(influences_unconditionally(&items[2], &total));
}

#[test]
fn prune_drops_what_changes_nothing() {
    let items = vec![('A', 1u32), ('Z', 0), ('C', 3), ('Y', 0)];
    let pool: Vec<&Item> = items.iter().collect();
    let kept = prune(pool, &total);
    assert_eq!(labels(&kept), "AC");
}

#[test]
fn pruned_search_leaves_out_what_changes_nothing() {
    let items = vec![('A', 1u32), ('Z', 0), ('C', 3)];
    let pool: Vec<&Item> = items.iter().collect();
    let found = search_pruned(pool, vec![1, 2], true, &total).unwrap();
    assert_eq!(
        named(&found),
        vec![
            entry(6, "CC"),
            entry(4, "AC"),
            entry(3, "C"),
            entry(2, "AA"),
            entry(1, "A"),
        ]
    );
}

#[test]
fn pruned_search_fails_when_nothing_is_left_to_take() {
    let items = vec![('Z', 0u32), ('Y', 0)];
    let pool: Vec<&Item> = items.iter().collect();
    assert_eq!(
        search_pruned(pool.clone(), vec![1], true, &total).err(),
        Some(InvalidArgument::EmptyPool)
    );
    assert_eq!(
        search_pruned(pool, vec![1], false, &total).err(),
        Some(InvalidArgument::CountExceedsPool)
    );
}
