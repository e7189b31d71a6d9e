//! Ranking: descending order, stable ties, threshold cut, idempotence.

use mirror_rank::{rank_scored, sort_scored, Scored, FITNESS_HALF};

#[test]
fn sorts_by_descending_fitness() {
    let scored = vec![
        Scored { pos: 0, fitness: 30 },
        Scored { pos: 1, fitness: 50 },
        Scored { pos: 2, fitness: 40 },
    ];
    let out = rank_scored(&scored, 10);
    let fit: Vec<u128> = out.iter().map(|s| s.fitness).collect();
    assert_eq!(fit, vec![50, 40, 30]);
}

#[test]
fn equal_fitness_keeps_catalog_order() {
    let scored = vec![
        Scored { pos: 3, fitness: 70 },
        Scored { pos: 5, fitness: 90 },
        Scored { pos: 8, fitness: 70 },
        Scored { pos: 9, fitness: 70 },
    ];
    let out = rank_scored(&scored, 0);
    let order: Vec<usize> = out.iter().map(|s| s.pos).collect();
    assert_eq!(order, vec![5, 3, 8, 9]);
}

#[test]
fn drops_fitness_at_or_below_threshold() {
    let scored = vec![
        Scored { pos: 0, fitness: FITNESS_HALF },
        Scored { pos: 1, fitness: FITNESS_HALF + 1 },
        Scored { pos: 2, fitness: 1 },
    ];
    let out = rank_scored(&scored, FITNESS_HALF);
    assert_eq!(out.len(), 1);
    assert_eq!(out[0].pos, 1);
}

#[test]
fn empty_input_ranks_to_empty_output() {
    let scored: Vec<Scored> = Vec::new();
    let out = rank_scored(&scored, FITNESS_HALF);
    assert!(out.is_empty());
}

#[test]
fn ranking_twice_changes_nothing() {
    let scored = vec![
        Scored { pos: 2, fitness: 12 },
        Scored { pos: 4, fitness: 99 },
        Scored { pos: 6, fitness: 7 },
        Scored { pos: 7, fitness: 12 },
    ];
    let once = rank_scored(&scored, 8);
    let twice = rank_scored(&once, 8);
    assert_eq!(once, twice);
}

#[test]
fn sort_is_a_permutation() {
    let mut v = vec![
        Scored { pos: 1, fitness: 5 },
        Scored { pos: 0, fitness: 9 },
        Scored { pos: 2, fitness: 5 },
    ];
    sort_scored(&mut v);
    assert_eq!(
        v,
        vec![
            Scored { pos: 0, fitness: 9 },
            Scored { pos: 1, fitness: 5 },
            Scored { pos: 2, fitness: 5 },
        ]
    );
}
