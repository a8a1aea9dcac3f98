use fulltext_search::db::helper::{RankValue, Value, Values};
use fulltext_search::db::ranking::try_rank;
use fulltext_search::db::{flatten_results, rank_search_results};

#[test]
fn flatten_results_unit_test() {
    let mut values = Vec::new();

    let mut c = 0;
    for _i in 0..2 {
        let mut vals = Values { values: Vec::new() };
        for _j in 0..2 {
            vals.values.push(Value { id: c, position: c });
            c += 1;
        }
        values.push(vals);
    }

    let mut flattened = Vec::new();
    for i in 0..4 {
        flattened.push(Value { id: i, position: i });
    }

    assert_eq!(flatten_results(values), flattened)
}

#[test]
fn search_ranking_unit_test() {
    let values = vec![
        Value { id: 0, position: 0 },
        Value { id: 0, position: 1 },
        Value { id: 0, position: 2 },
        Value { id: 1, position: 0 },
        Value { id: 1, position: 10 },
        Value { id: 1, position: 100 },
        Value { id: 2, position: 0 },
        Value { id: 2, position: 100 },
    ];

    let ranked = vec![
        RankValue { id: 0, position: 3, word_num: 3 },
        RankValue { id: 1, position: 15, word_num: 2 },
        RankValue { id: 1, position: 100, word_num: 1 },
        RankValue { id: 2, position: 0, word_num: 1 },
        RankValue { id: 2, position: 100, word_num: 1 },
    ];

    assert_eq!(rank_search_results(values, 15).unwrap(), ranked)
}

#[test]
fn ranking_sorts_unsorted_input() {
    let values = vec![
        Value { id: 2, position: 100 },
        Value { id: 1, position: 10 },
        Value { id: 0, position: 2 },
        Value { id: 2, position: 0 },
        Value { id: 0, position: 0 },
        Value { id: 1, position: 100 },
        Value { id: 0, position: 1 },
        Value { id: 1, position: 0 },
    ];
    let ranked = vec![
        RankValue { id: 0, position: 3, word_num: 3 },
        RankValue { id: 1, position: 15, word_num: 2 },
        RankValue { id: 1, position: 100, word_num: 1 },
        RankValue { id: 2, position: 0, word_num: 1 },
        RankValue { id: 2, position: 100, word_num: 1 },
    ];
    assert_eq!(rank_search_results(values, 15).unwrap(), ranked);
}

#[test]
fn ranking_moves_larger_groups_first_keeping_order() {
    // Document 5 has one lone occurrence, document 7 a group of two.
    let values = vec![
        Value { id: 5, position: 40 },
        Value { id: 7, position: 3 },
        Value { id: 7, position: 4 },
        Value { id: 9, position: 8 },
    ];
    let ranked = vec![
        RankValue { id: 7, position: 4, word_num: 2 },
        RankValue { id: 5, position: 40, word_num: 1 },
        RankValue { id: 9, position: 8, word_num: 1 },
    ];
    assert_eq!(rank_search_results(values, 2).unwrap(), ranked);
}

#[test]
fn ranking_group_position_is_last_plus_half_spread() {
    // Spread 4 + 3 = 7 within a window of 10; the group stands at 17 + 7 / 2.
    let values = vec![
        Value { id: 1, position: 10 },
        Value { id: 1, position: 14 },
        Value { id: 1, position: 17 },
    ];
    assert_eq!(
        rank_search_results(values, 10).unwrap(),
        vec![RankValue { id: 1, position: 20, word_num: 3 }]
    );
}

#[test]
fn ranking_of_nothing_is_empty() {
    assert_eq!(rank_search_results(Vec::new(), 15).unwrap(), vec![]);
}

#[test]
fn ranking_ignores_input_order() {
    let values = vec![
        Value { id: 3, position: 9 },
        Value { id: 1, position: 4 },
        Value { id: 3, position: 2 },
        Value { id: 1, position: 40 },
    ];
    let mut reversed = values.clone();
    reversed.reverse();
    assert_eq!(
        rank_search_results(values, 10).unwrap(),
        rank_search_results(reversed, 10).unwrap()
    );
}

#[test]
fn wider_window_never_gives_more_groups() {
    let values = vec![
        Value { id: 1, position: 0 },
        Value { id: 1, position: 4 },
        Value { id: 1, position: 9 },
    ];
    let narrow = rank_search_results(values.clone(), 2).unwrap();
    let wide = rank_search_results(values, 10).unwrap();
    assert_eq!(narrow.len(), 3);
    assert_eq!(wide, vec![RankValue { id: 1, position: 13, word_num: 3 }]);
}

#[test]
fn ranking_that_would_overflow_is_refused() {
    let values = vec![Value { id: 3, position: 5 }, Value { id: 3, position: 6 }];
    assert!(try_rank(&values, i64::MAX).is_none());
    assert_eq!(
        try_rank(&values, 1),
        Some(vec![RankValue { id: 3, position: 6, word_num: 2 }])
    );
}

#[test]
fn ranking_counts_every_occurrence_once() {
    let values = vec![
        Value { id: 4, position: 1 },
        Value { id: 4, position: 50 },
        Value { id: 8, position: 2 },
        Value { id: 4, position: 3 },
        Value { id: 8, position: 9 },
    ];
    let ranked = rank_search_results(values, 5).unwrap();
    let total: i64 = ranked.iter().map(|r| r.word_num).sum();
    assert_eq!(total, 5);
}
