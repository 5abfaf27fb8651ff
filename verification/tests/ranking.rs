use combo_search::ranking::{rank, ResultSet};

#[test]
fn rank_puts_the_best_first() {
    let ranking = rank(vec![(3, 'a'), (9, 'b'), (1, 'c'), (7, 'd')]);
    assert_eq!(ranking, vec![(9, 'b'), (7, 'd'), (3, 'a'), (1, 'c')]);
}

#[test]
fn rank_keeps_the_order_of_equal_scores() {
    let ranking = rank(vec![(5, 'a'), (7, 'b'), (5, 'c'), (7, 'd'), (5, 'e'), (6, 'f')]);
    assert_eq!(
        ranking,
        vec![(7, 'b'), (7, 'd'), (6, 'f'), (5, 'a'), (5, 'c'), (5, 'e')]
    );
}

#[test]
fn rank_of_nothing_and_of_one() {
    let nothing: Vec<(u8, u8)> = Vec::new();
    assert_eq!(rank(nothing), vec![]);
    assert_eq!(rank(vec![(4u8, 2u8)]), vec![(4, 2)]);
}

#[test]
fn rank_agrees_with_a_stable_sort() {
    let mut entries: Vec<(u32, usize)> = Vec::new();
    let mut seed: u32 = 12345;
    for position in 0..1000 {
        seed = seed.wrapping_mul(1103515245).wrapping_add(12345);
        entries.push(((seed >> 16) % 50, position));
    }
    let mut expected = entries.clone();
    expected.sort_by(|a, b| b.0.cmp(&a.0));
    assert_eq!(rank(entries), expected);
}

#[test]
fn result_set_keeps_the_best_up_to_its_capacity() {
    let mut best: ResultSet<u32, char> = ResultSet::new(3);
    let offers = [(4, 'a'), (8, 'b'), (2, 'c'), (6, 'd'), (9, 'e'), (1, 'f')];
    let mut held = 0;
    for (score, item) in offers.iter() {
        best.offer(*score, *item);
        held = if held < 3 { held + 1 } else { 3 };
        assert_eq!(best.len(), held);
    }
    assert_eq!(best.into_entries(), vec![(9, 'e'), (8, 'b'), (6, 'd')]);
}

#[test]
fn result_set_is_in_order_while_it_fills() {
    let mut best: ResultSet<u32, char> = ResultSet::new(5);
    best.offer(1, 'a');
    best.offer(5, 'b');
    best.offer(3, 'c');
    assert_eq!(best.len(), 3);
    assert_eq!(best.into_entries(), vec![(5, 'b'), (3, 'c'), (1, 'a')]);
}

#[test]
fn full_result_set_drops_what_only_equals_its_worst() {
    let mut best: ResultSet<u32, char> = ResultSet::new(2);
    best.offer(5, 'a');
    best.offer(5, 'b');
    best.offer(5, 'c');
    assert_eq!(best.len(), 2);
    best.offer(7, 'd');
    assert_eq!(best.into_entries(), vec![(7, 'd'), (5, 'a')]);
}

#[test]
fn result_set_puts_equal_scores_behind_those_held() {
    let mut best: ResultSet<u32, char> = ResultSet::new(4);
    best.offer(5, 'a');
    best.offer(3, 'b');
    best.offer(5, 'c');
    best.offer(3, 'd');
    assert_eq!(
        best.into_entries(),
        vec![(5, 'a'), (5, 'c'), (3, 'b'), (3, 'd')]
    );
}

#[test]
fn result_set_without_capacity_holds_nothing() {
    let mut best: ResultSet<u32, char> = ResultSet::new(0);
    best.offer(5, 'a');
    best.offer(9, 'b');
    assert_eq!(best.len(), 0);
    assert_eq!(best.into_entries(), vec![]);
}

#[test]
fn result_set_matches_the_head_of_the_ranking() {
    let mut entries: Vec<(u32, usize)> = Vec::new();
    let mut seed: u32 = 99;
    for position in 0..300 {
        seed = seed.wrapping_mul(1664525).wrapping_add(1013904223);
        entries.push(((seed >> 20) % 40, position));
    }
    let ranking = rank(entries.clone());
    for capacity in [0usize, 1, 2, 17, 299, 300, 301, 1000] {
        let mut best: ResultSet<u32, usize> = ResultSet::new(capacity);
        for (score, position) in entries.iter() {
            best.offer(*score, *position);
            assert!(best.len() <= capacity);
        }
        let cut = if capacity < ranking.len() { capacity } else { ranking.len() };
        assert_eq!(best.into_entries(), ranking[..cut].to_vec());
    }
}
