use regular::et_search::get_equal_temperaments as get_equal_temperaments_from;
use regular::limit::PrimeLimit;
use regular::queue::{PriorityQueue, INFINITE};
use regular::uv::tempers_out;
use regular::walk::{ets_of_size, limited_mappings};

/// The sizes of the partials of a limit of whole numbers in cents
fn pitches(limit: &PrimeLimit) -> Vec<f64> {
    limit
        .headings
        .iter()
        .map(|heading| heading.parse::<f64>().unwrap().log2() * 12e2)
        .collect()
}

fn square(x: f64) -> f64 {
    x.powi(2)
}

fn prime_mapping(plimit: &[f64], n_notes: i32) -> Vec<i32> {
    let multiplier = f64::from(n_notes) / plimit[0];
    plimit
        .iter()
        .map(|&x| (x * multiplier).round() as i32)
        .collect()
}

/// All mappings for a given division of the octave within the given
/// badness cutoff: the range of each entry follows from the running
/// totals of the weighted entries before it.
fn mappings_within(n_notes: i32, ek: f64, bmax: f64, plimit: &[f64]) -> Vec<Vec<i32>> {
    let ek = ek / 12e2;
    let epsilon2 = square(ek) / (1.0 + square(ek));
    let lambda = 1.0 - epsilon2;
    let range = |bound: u64, mapping: &Vec<i32>| {
        let cap = square(badness(bound) / 12e2) * (plimit.len() as f64) / square(plimit[0]);
        let i = mapping.len();
        let mut tot = 0.0;
        let mut tot2 = 0.0;
        for k in 0..i {
            let weighted_size = f64::from(mapping[k]) / plimit[k];
            tot = tot + weighted_size;
            tot2 = tot2 + square(weighted_size);
        }
        let toti = tot * lambda / ((i as f64) + epsilon2);
        let error2 = tot2 - tot * toti;
        if error2 < cap {
            let target = plimit[i];
            let deficit = ((i + 1) as f64 * (cap - error2) / (i as f64 + epsilon2)).sqrt();
            let xmin = target * (toti - deficit);
            let xmax = target * (toti + deficit);
            Some((xmin.ceil() as i32, xmax.floor() as i32))
        } else {
            None
        }
    };
    limited_mappings(n_notes, plimit.len(), score(bmax), range)
}

fn equal_temperament_badness(plimit: &[f64], ek: f64, mapping: &[i32]) -> f64 {
    assert_eq!(plimit.len(), mapping.len());
    let ek = ek / 12e2;
    let epsilon = ek / (1.0 + square(ek)).sqrt();
    let weighted: Vec<f64> = mapping
        .iter()
        .zip(plimit.iter())
        .map(|(&m, p)| f64::from(m) / (p / 12e2))
        .collect();
    let mean = |items: &Vec<f64>| {
        let mut sum = 0.0;
        for item in items.iter() {
            sum += item;
        }
        sum / (items.len() as f64)
    };
    let translation = (1.0 - epsilon) * mean(&weighted);
    let bad2 = mean(&weighted.iter().map(|x| square(x - translation)).collect());
    bad2.sqrt() * 12e2
}

/// A whole number that grows with the badness
fn score(badness: f64) -> u64 {
    assert!(badness >= 0.0);
    badness.to_bits()
}

fn badness(score: u64) -> f64 {
    if score == INFINITE {
        f64::INFINITY
    } else {
        f64::from_bits(score)
    }
}

fn get_equal_temperaments(plimit: &[f64], ek: f64, n_results: usize) -> Vec<Vec<i32>> {
    filtered_equal_temperaments(plimit, |_| true, ek, n_results)
}

fn get_ets_tempering_out(
    plimit: &[f64],
    ek: f64,
    unison_vectors: &[Vec<i32>],
    n_results: usize,
) -> Vec<Vec<i32>> {
    filtered_equal_temperaments(plimit, |et| tempers_out(unison_vectors, et), ek, n_results)
}

fn filtered_equal_temperaments(
    plimit: &[f64],
    filter: impl Fn(&Vec<i32>) -> bool,
    ek: f64,
    n_results: usize,
) -> Vec<Vec<i32>> {
    let plimit: Vec<f64> = plimit.iter().map(|p| 12e2 * (p / plimit[0])).collect();
    let mut preliminary = PriorityQueue::new(n_results);
    for size in 1..=(plimit.len() + n_results) {
        let pmap = prime_mapping(&plimit, size as i32);
        let bad = equal_temperament_badness(&plimit, ek, &pmap);
        preliminary.push(score(bad), pmap);
    }
    get_equal_temperaments_from(
        n_results,
        preliminary.cap(),
        |n_notes, cap| {
            mappings_within(n_notes, ek, badness(cap), &plimit)
                .into_iter()
                .filter(|mapping| filter(mapping))
                .map(|mapping| (score(equal_temperament_badness(&plimit, ek, &mapping)), mapping))
                .collect()
        },
        |n_notes, cap| (f64::from(n_notes)) < badness(cap) / ek,
    )
}

fn ambiguous_et(plimit: &[f64], et: &Vec<i32>) -> bool {
    let n_notes = if let Some(&n) = et.first() {
        n
    } else {
        return false;
    };
    if et != &prime_mapping(plimit, et[0]) {
        return true;
    }
    let error = equal_temperament_badness(plimit, 0.0, et);
    let others = mappings_within(n_notes, 0.0, error * 1.2, plimit);
    others.len() > 1
}

fn octaves(mappings: &Vec<Vec<i32>>) -> Vec<i32> {
    mappings.iter().map(|m| m[0]).collect()
}

#[test]
fn cangwu_expected_limited_mappings() {
    let limit7 = pitches(&PrimeLimit::new(7));
    let examples = mappings_within(19, 1.0, 1e2, &limit7);
    assert_eq!(examples.len(), 1);
    assert_eq!(examples[0], vec![19, 30, 44, 53]);

    let limit13 = pitches(&PrimeLimit::new(13));
    let examples = mappings_within(41, 1.0, 1e2, &limit13);
    assert_eq!(examples.len(), 1);
    assert_eq!(examples[0], vec![41, 65, 95, 115, 142, 152]);
    let examples = mappings_within(31, 1.0, 1e2, &limit13);
    assert_eq!(examples.len(), 2);
    assert_eq!(examples[0], vec![31, 49, 72, 87, 107, 114]);
    assert_eq!(examples[1], vec![31, 49, 72, 87, 107, 115]);
}

#[test]
fn cangwu_big_limit() {
    let sbyte = pitches(&PrimeLimit::new(127));
    let mappings = get_equal_temperaments(&sbyte, 0.3, 10);
    assert_eq!(
        octaves(&mappings),
        vec![62, 62, 31, 50, 50, 34, 31, 46, 60, 60]
    );
}

#[test]
fn cangwu_nonoctave() {
    let limit = PrimeLimit::explicit(vec![3, 5, 7, 11, 13]);
    let mappings = get_equal_temperaments(&pitches(&limit), 10.0, 5);
    assert_eq!(octaves(&mappings), vec![7, 4, 6, 2, 9]);
}

#[test]
fn cangwu_nofives() {
    let limit = PrimeLimit::explicit(vec![2, 3, 7, 11, 13]);
    let mappings = get_equal_temperaments(&pitches(&limit), 1.0, 5);
    assert_eq!(octaves(&mappings), vec![17, 41, 9, 46, 10]);
}

#[test]
fn twelve_equal_is_found_in_the_7_limit() {
    let limit7 = pitches(&PrimeLimit::new(7));
    let mappings = get_equal_temperaments(&limit7, 1.0, 10);
    assert_eq!(mappings.len(), 10);
    assert!(mappings.contains(&vec![12, 19, 28, 34]));
}

#[test]
fn test_ambiguous_et() {
    let limit = pitches(&PrimeLimit::new(11));
    assert!(ambiguous_et(&limit, &vec![1, 2, 3, 4, 5]));
}

#[test]
fn test_ambiguity_31_11() {
    let limit = pitches(&PrimeLimit::new(11));
    let et = prime_mapping(&limit, 31);
    assert!(!ambiguous_et(&limit, &et));
}

#[test]
fn test_ambiguity_41_11() {
    let limit = pitches(&PrimeLimit::new(11));
    let et = prime_mapping(&limit, 41);
    assert!(!ambiguous_et(&limit, &et));
}

#[test]
fn test_ambiguity_12_11() {
    let limit = pitches(&PrimeLimit::new(11));
    let et = prime_mapping(&limit, 12);
    assert!(!ambiguous_et(&limit, &et));
}

#[test]
fn test_ambiguity_12_13() {
    let limit = pitches(&PrimeLimit::new(13));
    let et = prime_mapping(&limit, 12);
    assert!(ambiguous_et(&limit, &et));
}

#[test]
fn test_ambiguity_19_13() {
    let limit = pitches(&PrimeLimit::new(13));
    let et = prime_mapping(&limit, 19);
    assert!(ambiguous_et(&limit, &et));
}

#[test]
fn test_ambiguity_31_13() {
    let limit = pitches(&PrimeLimit::new(13));
    let et = prime_mapping(&limit, 31);
    assert!(!ambiguous_et(&limit, &et));
}

#[test]
fn walk_in_the_order_of_the_entries() {
    // every entry between the one before it and one more
    let found = limited_mappings(5, 3, 0, |_: u64, mapping: &Vec<i32>| {
        let last = mapping[mapping.len() - 1];
        Some((last, last + 1))
    });
    assert_eq!(
        found,
        vec![vec![5, 5, 5], vec![5, 5, 6], vec![5, 6, 6], vec![5, 6, 7]]
    );
    let one = limited_mappings(7, 1, 0, |_: u64, _: &Vec<i32>| None);
    assert_eq!(one, vec![vec![7]]);
    let none = limited_mappings(7, 2, 0, |_: u64, _: &Vec<i32>| None);
    assert_eq!(none, Vec::<Vec<i32>>::new());
    let empty_range = limited_mappings(7, 2, 0, |_: u64, _: &Vec<i32>| Some((3, 2)));
    assert_eq!(empty_range, Vec::<Vec<i32>>::new());
    let edge = limited_mappings(0, 2, 0, |_: u64, _: &Vec<i32>| Some((i32::MAX - 1, i32::MAX)));
    assert_eq!(edge, vec![vec![0, i32::MAX - 1], vec![0, i32::MAX]]);
    let pruned = limited_mappings(1, 3, 0, |_: u64, mapping: &Vec<i32>| {
        if mapping.len() == 2 && mapping[1] == 2 {
            None
        } else {
            Some((1, 3))
        }
    });
    assert_eq!(
        pruned,
        vec![
            vec![1, 1, 1],
            vec![1, 1, 2],
            vec![1, 1, 3],
            vec![1, 3, 1],
            vec![1, 3, 2],
            vec![1, 3, 3],
        ]
    );
}

#[test]
fn meantone_ets() {
    let limit = PrimeLimit::new(5);
    let comma = vec![-4, 4, -1];
    let ets = get_ets_tempering_out(&pitches(&limit), 3.0, &[comma.clone()], 10);
    assert!(tempers_out(&ets, &comma));
    assert_eq!(ets.len(), 10);
}

#[test]
fn syntonic11_ets() {
    let limit = PrimeLimit::new(11);
    let comma = vec![-4, 4, -1, 0, 0];
    let ets = get_ets_tempering_out(&pitches(&limit), 3.0, &[comma.clone()], 10);
    assert!(tempers_out(&ets, &comma));
}

#[test]
fn marvel11_ets() {
    let limit = PrimeLimit::new(11);
    let comma1 = vec![-5, 2, 2, -1, 0];
    let comma2 = vec![2, 3, 1, -2, -1];
    let ets = get_ets_tempering_out(
        &pitches(&limit),
        3.0,
        &[comma1.clone(), comma2.clone()],
        10,
    );
    assert!(tempers_out(&ets, &comma1));
    assert!(tempers_out(&ets, &comma2));
}

#[test]
fn porcupine11_ets() {
    let limit = PrimeLimit::new(11);
    let comma1 = vec![-1, -3, 1, 0, 1];
    let comma2 = vec![6, -2, 0, -1, 0];
    let comma3 = vec![2, -2, 2, 0, -1];
    let ets = get_ets_tempering_out(
        &pitches(&limit),
        3.0,
        &[comma1.clone(), comma2.clone(), comma3.clone()],
        5,
    );
    assert!(tempers_out(&ets, &comma1));
    assert!(tempers_out(&ets, &comma2));
    assert!(tempers_out(&ets, &comma3));
}

#[test]
fn cangwu_tests_expected_limited_mappings() {
    let limit7 = pitches(&PrimeLimit::new(7));
    let examples = mappings_within(19, 1.0, 1e2, &limit7);
    assert_eq!(examples.len(), 1);
    assert_eq!(examples[0], vec![19, 30, 44, 53]);

    let limit13 = pitches(&PrimeLimit::new(13));
    let examples = mappings_within(41, 1.0, 1e2, &limit13);
    assert_eq!(examples.len(), 1);
    assert_eq!(examples[0], vec![41, 65, 95, 115, 142, 152]);
    let examples = mappings_within(31, 1.0, 1e2, &limit13);
    assert_eq!(examples.len(), 2);
    assert_eq!(examples[0], vec![31, 49, 72, 87, 107, 114]);
    assert_eq!(examples[1], vec![31, 49, 72, 87, 107, 115]);
}

#[test]
fn cangwu_tests_big_limit() {
    let sbyte = pitches(&PrimeLimit::new(127));
    let mappings = get_equal_temperaments(&sbyte, 0.3, 10);
    assert_eq!(
        octaves(&mappings),
        vec![62, 62, 31, 50, 50, 34, 31, 46, 60, 60]
    );
}

#[test]
fn cangwu_tests_nonoctave() {
    let limit = PrimeLimit::explicit(vec![3, 5, 7, 11, 13]);
    let mappings = get_equal_temperaments(&pitches(&limit), 10.0, 5);
    assert_eq!(octaves(&mappings), vec![7, 4, 6, 2, 9]);
}

#[test]
fn cangwu_tests_nofives() {
    let limit = PrimeLimit::explicit(vec![2, 3, 7, 11, 13]);
    let mappings = get_equal_temperaments(&pitches(&limit), 1.0, 5);
    assert_eq!(octaves(&mappings), vec![17, 41, 9, 46, 10]);
}

#[test]
fn the_bound_reaches_the_range() {
    // the wider the bound, the wider each range
    let range = |bound: u64, _: &Vec<i32>| Some((0, bound as i32));
    assert_eq!(limited_mappings(4, 2, 0, range), vec![vec![4, 0]]);
    assert_eq!(
        limited_mappings(4, 2, 2, range),
        vec![vec![4, 0], vec![4, 1], vec![4, 2]]
    );
}

#[test]
fn ets_of_a_size_under_the_first_bound_that_gives_any() {
    // nothing under the bounds below three, one entry more for each step above
    let range = |bound: u64, _: &Vec<i32>| {
        if bound < 3 {
            None
        } else {
            Some((1, (bound - 2) as i32))
        }
    };
    assert_eq!(ets_of_size(9, 2, &[1, 2, 4, 5], range), vec![vec![9, 1], vec![9, 2]]);
    assert_eq!(ets_of_size(9, 2, &[5, 4], range), vec![vec![9, 1], vec![9, 2], vec![9, 3]]);
    assert_eq!(ets_of_size(9, 2, &[0, 1, 2], range), Vec::<Vec<i32>>::new());
    assert_eq!(ets_of_size(9, 2, &[], range), Vec::<Vec<i32>>::new());
    assert_eq!(ets_of_size(9, 1, &[0], range), vec![vec![9]]);
}
