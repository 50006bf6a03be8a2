use regular::fokker;
use regular::fokker::{fokker_block_steps, maximally_even};
use regular::primes::primes_below;
use regular::temperament_class::{
    generators_from_primes, StubTemperamentClass, TemperamentClass,
};

fn marvel() -> Vec<Vec<i32>> {
    vec![
        vec![22, 35, 51, 62, 76],
        vec![31, 49, 72, 87, 107],
        vec![41, 65, 95, 115, 142],
    ]
}

#[test]
fn small_primes() {
    let from_pari = vec![
        2, 3, 5, 7, 11, 13, 17, 19, 23, 29, 31, 37, 41, 43, 47, 53, 59, 61,
        67, 71, 73, 79, 83, 89, 97,
    ];
    assert_eq!(primes_below(100), from_pari);
}

#[test]
fn primes_at_the_edges() {
    assert_eq!(primes_below(2), Vec::<u16>::new());
    assert_eq!(primes_below(3), vec![2]);
    assert_eq!(primes_below(48).len(), 15);
    let all = primes_below(65535);
    assert_eq!(all.len(), 6542);
    assert_eq!(all[6541], 65521);
}

#[test]
fn test_maximally_even() {
    assert_eq!(maximally_even(7, 12, 0), vec![1, 3, 5, 6, 8, 10, 12]);
    assert_eq!(maximally_even(7, 12, 5), vec![2, 4, 5, 7, 9, 11, 12]);
    assert_eq!(maximally_even(5, 19, 3), vec![4, 8, 12, 15, 19]);
    for i in 0..10 {
        assert_eq!(maximally_even(2, 22, i), vec![11, 22]);
    }
    assert_eq!(maximally_even(0, 10, 11).len(), 0);
}

#[test]
fn test_fokker_block() {
    assert_eq!(
        fokker::fokker_block(7, vec![7, 12]),
        vec![
            vec![1, 2],
            vec![2, 4],
            vec![3, 6],
            vec![4, 7],
            vec![5, 9],
            vec![6, 11],
            vec![7, 12],
        ]
    );
    assert_eq!(
        fokker::fokker_block(6, vec![6, 5, 17]),
        vec![
            vec![1, 1, 3],
            vec![2, 2, 6],
            vec![3, 3, 9],
            vec![4, 4, 12],
            vec![5, 5, 15],
            vec![6, 5, 17],
        ]
    );
    assert_eq!(
        fokker::fokker_block(6, vec![5, 17]),
        vec![
            vec![1, 3],
            vec![2, 6],
            vec![3, 9],
            vec![4, 12],
            vec![5, 15],
            vec![5, 17],
        ]
    );
}

#[test]
fn rt_fokker_block() {
    assert_eq!(
        fokker::fokker_block(22, vec![22, 31, 41]),
        vec![
            vec![1, 2, 2],
            vec![2, 3, 4],
            vec![3, 5, 6],
            vec![4, 6, 8],
            vec![5, 8, 10],
            vec![6, 9, 12],
            vec![7, 10, 14],
            vec![8, 12, 15],
            vec![9, 13, 17],
            vec![10, 15, 19],
            vec![11, 16, 21],
            vec![12, 17, 23],
            vec![13, 19, 25],
            vec![14, 20, 27],
            vec![15, 22, 28],
            vec![16, 23, 30],
            vec![17, 24, 32],
            vec![18, 26, 34],
            vec![19, 27, 36],
            vec![20, 29, 38],
            vec![21, 30, 40],
            vec![22, 31, 41],
        ]
    );
    assert_eq!(
        fokker::fokker_block(7, vec![22, 31, 41]),
        vec![
            vec![4, 5, 6],
            vec![7, 9, 12],
            vec![10, 14, 18],
            vec![13, 18, 24],
            vec![16, 23, 30],
            vec![19, 27, 36],
            vec![22, 31, 41],
        ]
    );
}

#[test]
fn fokker_block() {
    let marvel = StubTemperamentClass { melody: marvel() };
    assert_eq!(
        marvel.fokker_block_steps(22),
        Some(vec![
            vec![1, 1, 2],
            vec![2, 3, 4],
            vec![3, 4, 6],
            vec![4, 6, 8],
            vec![5, 7, 10],
            vec![6, 8, 12],
            vec![7, 10, 13],
            vec![8, 11, 15],
            vec![9, 13, 17],
            vec![10, 14, 19],
            vec![11, 15, 21],
            vec![12, 17, 23],
            vec![13, 18, 25],
            vec![14, 20, 26],
            vec![15, 21, 28],
            vec![16, 22, 30],
            vec![17, 24, 32],
            vec![18, 25, 34],
            vec![19, 27, 36],
            vec![20, 28, 38],
            vec![21, 30, 40],
            vec![22, 31, 41],
        ])
    );
    assert_eq!(
        marvel.fokker_block_steps(7),
        Some(vec![
            vec![3, 4, 6],
            vec![6, 9, 12],
            vec![9, 13, 18],
            vec![12, 18, 24],
            vec![15, 22, 30],
            vec![19, 27, 36],
            vec![22, 31, 41],
        ])
    );
    let empty_scale: Vec<Vec<i32>> = Vec::new();
    assert_eq!(marvel.fokker_block_steps(0), Some(empty_scale));
    assert_eq!(marvel.fokker_block_steps(-1), None);
}

#[test]
fn fokker_block_steps_of_a_mapping() {
    assert_eq!(
        fokker_block_steps(&marvel(), 7),
        vec![
            vec![3, 4, 6],
            vec![6, 9, 12],
            vec![9, 13, 18],
            vec![12, 18, 24],
            vec![15, 22, 30],
            vec![19, 27, 36],
            vec![22, 31, 41],
        ]
    );
    // ⌊(i+2)·12/5⌋ − ⌊12/5⌋
    assert_eq!(
        fokker_block_steps(&[vec![12, 19]], 5),
        vec![vec![2], vec![5], vec![7], vec![10], vec![12]]
    );
}

#[test]
fn te_generators() {
    let twotoe = generators_from_primes(&marvel(), &[3, 0, 0, -1, 0]);
    assert_eq!(twotoe, Some(vec![4, 6, 8]));
}

#[test]
fn top_generators() {
    let marvel = StubTemperamentClass { melody: marvel() };
    let twotoe = marvel.generators_from_primes(&vec![3, 0, 0, -1, 0]);
    assert_eq!(twotoe, Some(vec![4, 6, 8]));
}

#[test]
fn generators_out_of_range() {
    let mapping = vec![vec![i32::MAX, i32::MAX]];
    assert_eq!(generators_from_primes(&mapping, &[1, 1]), None);
    assert_eq!(generators_from_primes(&mapping, &[1, -1]), Some(vec![0]));
}
