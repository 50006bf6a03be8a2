use regular::et_search::get_equal_temperaments;
use regular::queue::{PriorityQueue, INFINITE};
use regular::search::higher_rank_search;
use regular::temperament_class::key;

#[test]
fn queue_keeps_the_best() {
    let mut queue: PriorityQueue<&str> = PriorityQueue::new(3);
    assert_eq!(queue.cap(), INFINITE);
    assert_eq!(queue.len(), 0);
    queue.push(50, "fifty");
    queue.push(20, "twenty");
    assert_eq!(queue.cap(), INFINITE);
    queue.push(70, "seventy");
    assert_eq!(queue.cap(), 70);
    queue.push(80, "eighty");
    assert_eq!(queue.cap(), 70);
    queue.push(70, "seventy again");
    assert_eq!(queue.cap(), 70);
    queue.push(10, "ten");
    assert_eq!(queue.cap(), 50);
    queue.push(20, "twenty again");
    assert_eq!(queue.cap(), 20);
    assert_eq!(queue.len(), 3);
    assert_eq!(queue.extract(), vec!["ten", "twenty", "twenty again"]);
}

#[test]
fn queue_without_room() {
    let mut queue: PriorityQueue<u8> = PriorityQueue::new(0);
    queue.push(1, 1);
    queue.push(0, 2);
    assert_eq!(queue.len(), 0);
    assert_eq!(queue.cap(), INFINITE);
    assert_eq!(queue.extract(), Vec::<u8>::new());
    let mut one: PriorityQueue<u8> = PriorityQueue::new(1);
    one.push(5, 1);
    assert_eq!(one.cap(), 5);
    one.push(5, 2);
    one.push(4, 3);
    assert_eq!(one.cap(), 4);
    assert_eq!(one.extract(), vec![3]);
}

fn ets() -> Vec<Vec<i32>> {
    vec![
        vec![12, 19, 28],
        vec![19, 30, 44],
        vec![31, 49, 72],
        vec![22, 35, 51],
        vec![24, 38, 56],
    ]
}

#[test]
fn search_pairs_of_equal_temperaments() {
    let ets = ets();
    let rts: Vec<Vec<Vec<i32>>> = ets.iter().map(|et| vec![et.clone()]).collect();
    // the score of a pair is the sum of the places of its two members
    let scores: Vec<Vec<u64>> = (0..5)
        .map(|i| (0..5).map(|j| (10 * i + j) as u64).collect())
        .collect();
    let found = higher_rank_search(&ets, &rts, &scores, 3, 3).unwrap();
    // 12 with itself and with 24 has rank one; 12&19, 12&31 and 19&31 are
    // all meantone, which is kept once; 12&22 is the second class
    assert_eq!(
        found,
        vec![
            vec![vec![12, 19, 28], vec![19, 30, 44]],
            vec![vec![12, 19, 28], vec![22, 35, 51]],
            vec![vec![19, 30, 44], vec![22, 35, 51]],
        ]
    );
    let keys: Vec<_> = found.iter().map(|rt| key(rt).unwrap()).collect();
    assert_eq!(keys[0], vec![1, 4, 1, 0, -4]);
    assert!(keys[0] != keys[1] && keys[1] != keys[2] && keys[0] != keys[2]);
}

#[test]
fn search_orders_by_score() {
    let ets = ets();
    let rts: Vec<Vec<Vec<i32>>> = vec![vec![ets[0].clone()]];
    let scores: Vec<Vec<u64>> = vec![vec![9, 8, 7, 6, 5]];
    let found = higher_rank_search(&ets, &rts, &scores, 3, 2).unwrap();
    // 12&22 scores 6; of the meantones 12&19 comes first and is the one kept
    assert_eq!(
        found,
        vec![
            vec![vec![12, 19, 28], vec![22, 35, 51]],
            vec![vec![12, 19, 28], vec![19, 30, 44]],
        ]
    );
    let none = higher_rank_search(&ets, &rts, &scores, 3, 0).unwrap();
    assert_eq!(none.len(), 0);
    let no_rts: Vec<Vec<Vec<i32>>> = vec![];
    let no_scores: Vec<Vec<u64>> = vec![];
    assert_eq!(higher_rank_search(&ets, &no_rts, &no_scores, 3, 5), Some(vec![]));
}

#[test]
fn search_from_nothing() {
    let ets = ets();
    let rts: Vec<Vec<Vec<i32>>> = vec![vec![]];
    let scores: Vec<Vec<u64>> = vec![vec![3, 2, 1, 5, 4]];
    let found = higher_rank_search(&ets, &rts, &scores, 3, 2).unwrap();
    assert_eq!(found, vec![vec![vec![31, 49, 72]], vec![vec![19, 30, 44]]]);
}

#[test]
fn search_one_number_of_steps_after_the_other() {
    // two mappings for each number of steps, scored by their entries;
    // the search goes on while the number of steps is below the cap
    let found = get_equal_temperaments(
        3,
        10,
        |n_notes, _cap| {
            vec![
                ((20 - 2 * n_notes) as u64, vec![n_notes, 0]),
                ((21 - 2 * n_notes) as u64, vec![n_notes, 1]),
            ]
        },
        |n_notes, cap| (n_notes as u64) < cap,
    );
    // the cap stays at 10 until the worst score kept falls below it:
    // 7 steps score 6 and 7, the cap is 8, and 8 steps are not below it
    assert_eq!(found, vec![vec![7, 0], vec![7, 1], vec![6, 0]]);
    let nothing = get_equal_temperaments(3, 1, |n, _| vec![(0, vec![n])], |n, cap| (n as u64) < cap);
    assert_eq!(nothing, Vec::<Vec<i32>>::new());
    let no_room = get_equal_temperaments(0, 3, |n, _| vec![(0, vec![n])], |n, cap| (n as u64) < cap);
    assert_eq!(no_room, Vec::<Vec<i32>>::new());
}
