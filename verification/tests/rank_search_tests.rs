use nalgebra::DMatrix;
use regular::limit::PrimeLimit;
use regular::et_search::preliminary_cap;
use regular::queue::INFINITE;
use regular::search::higher_rank_search;
use regular::temperament_class::{key, key_to_mapping, rank};
use regular::uv::{inverted, tempers_out};
use regular::walk::limited_mappings;

fn pitches(limit: &PrimeLimit) -> Vec<f64> {
    limit
        .headings
        .iter()
        .map(|heading| heading.parse::<f64>().unwrap().log2() * 12e2)
        .collect()
}

fn square(x: f64) -> f64 {
    x.powi(2)
}

fn score(badness: f64) -> u64 {
    if badness.is_nan() {
        return INFINITE;
    }
    assert!(badness >= 0.0);
    badness.to_bits()
}

fn unscore(score: u64) -> f64 {
    if score == INFINITE {
        f64::INFINITY
    } else {
        f64::from_bits(score)
    }
}

fn weight_mapping(mapping: &[Vec<i32>], plimit: &[f64]) -> DMatrix<f64> {
    let rank = mapping.len();
    let dimension = plimit.len();
    let flattened = mapping.iter().flat_map(|m| m.iter()).cloned();
    let mapping = DMatrix::from_iterator(dimension, rank, flattened);
    let weighting_vec: Vec<f64> = plimit.iter().map(|x| 1200.0 / x).collect();
    let mut weighting = DMatrix::from_vec(dimension, 1, weighting_vec.clone());
    for _ in 1..rank {
        weighting.extend(weighting_vec.clone());
    }
    mapping.map(f64::from).component_mul(&weighting)
}

fn rms_of_matrix(a: &DMatrix<f64>) -> f64 {
    let dimension = a.nrows() as f64;
    let gram = (a.transpose() * a) / dimension;
    gram.lu().determinant().sqrt()
}

fn cangwu_badness(plimit: &[f64], melody: &[Vec<i32>], ek: f64) -> f64 {
    let rank = melody.len();
    let dimension = plimit.len();
    let ek = ek / 1200.0;
    let epsilon = ek / (1.0 + square(ek)).sqrt();
    let scaling = 1.0 - epsilon;
    let m = weight_mapping(melody, plimit);
    let offset = scaling * m.row_mean();
    let offset_vec: Vec<_> = offset.iter().cloned().collect();
    let mut translation = DMatrix::from_vec(rank, 1, offset_vec.clone());
    for _ in 1..dimension {
        translation.extend(offset_vec.clone());
    }
    rms_of_matrix(&(m - translation.transpose())) * 1200.0
}

fn prime_mapping(plimit: &[f64], n_notes: i32) -> Vec<i32> {
    let multiplier = f64::from(n_notes) / plimit[0];
    plimit
        .iter()
        .map(|&x| (x * multiplier).round() as i32)
        .collect()
}

/// The range of the next entry of a mapping so far under a bound:
/// it follows from the running totals of the weighted entries.
fn range_under<'a>(plimit: &'a [f64], ek: f64) -> impl Fn(u64, &Vec<i32>) -> Option<(i32, i32)> + 'a {
    let ek = ek / 12e2;
    let epsilon2 = square(ek) / (1.0 + square(ek));
    let lambda = 1.0 - epsilon2;
    move |bound: u64, mapping: &Vec<i32>| {
        let bmax = unscore(bound);
        let cap = square(bmax / 12e2) * (plimit.len() as f64) / square(plimit[0]);
        let i = mapping.len();
        let mut tot = 0.0;
        let mut tot2 = 0.0;
        for k in 0..i {
            let weighted_size = f64::from(mapping[k]) / plimit[k];
            tot = tot + weighted_size;
            tot2 = tot2 + square(weighted_size);
        }
        let toti = tot * lambda / ((i as f64) + epsilon2);
        let error2 = tot2 - tot * toti;
        if error2 < cap {
            let target = plimit[i];
            let deficit = ((i + 1) as f64 * (cap - error2) / (i as f64 + epsilon2)).sqrt();
            Some((
                (target * (toti - deficit)).ceil() as i32,
                (target * (toti + deficit)).floor() as i32,
            ))
        } else {
            None
        }
    }
}

fn mappings_within(n_notes: i32, ek: f64, bmax: f64, plimit: &[f64]) -> Vec<Vec<i32>> {
    limited_mappings(n_notes, plimit.len(), score(bmax), range_under(plimit, ek))
}

fn equal_temperament_badness(plimit: &[f64], ek: f64, mapping: &[i32]) -> f64 {
    cangwu_badness(plimit, &[mapping.to_vec()], ek)
}

fn get_equal_temperaments(plimit: &[f64], ek: f64, n_results: usize) -> Vec<Vec<i32>> {
    let plimit: Vec<f64> = plimit.iter().map(|p| 12e2 * (p / plimit[0])).collect();
    let preliminary: Vec<u64> = (1..=(plimit.len() + n_results))
        .map(|size| {
            let pmap = prime_mapping(&plimit, size as i32);
            score(equal_temperament_badness(&plimit, ek, &pmap))
        })
        .collect();
    regular::et_search::get_equal_temperaments(
        n_results,
        preliminary_cap(&preliminary, n_results),
        |n_notes, cap| {
            mappings_within(n_notes, ek, unscore(cap), &plimit)
                .into_iter()
                .map(|mapping| (score(equal_temperament_badness(&plimit, ek, &mapping)), mapping))
                .collect()
        },
        |n_notes, cap| (f64::from(n_notes)) < unscore(cap) / ek,
    )
}

fn search(
    plimit: &[f64],
    ets: &[Vec<i32>],
    rts: &[Vec<Vec<i32>>],
    ek: f64,
    n_results: usize,
) -> Vec<Vec<Vec<i32>>> {
    let scores: Vec<Vec<u64>> = rts
        .iter()
        .map(|rt| {
            ets.iter()
                .map(|et| {
                    let mut new_rt = rt.clone();
                    new_rt.push(et.clone());
                    score(cangwu_badness(plimit, &new_rt, ek))
                })
                .collect()
        })
        .collect();
    higher_rank_search(ets, rts, &scores, plimit.len(), n_results).unwrap()
}

fn normalize_positive(pitches: &[f64], rsvec: Vec<i32>) -> Vec<i32> {
    let pitch_width = pitches
        .iter()
        .zip(rsvec.iter())
        .fold(0.0, |acc, (&x, &y)| acc + x * (y as f64));
    if pitch_width < 0.0 {
        inverted(&rsvec).unwrap()
    } else {
        rsvec
    }
}

fn unison_vectors(plimit: &[f64], melody: &[Vec<i32>], n_results: usize) -> Vec<Vec<i32>> {
    let n_ets = n_results * 2;
    let ek = cangwu_badness(plimit, melody, 0.0) * 10.0;
    let seed_ets = get_equal_temperaments(plimit, ek, n_ets);
    let found = regular::unison_search::unison_vectors(
        &melody.to_vec(),
        &seed_ets,
        plimit.len(),
        n_results,
        |rt: &Vec<Vec<i32>>| score(cangwu_badness(plimit, rt, ek)),
    );
    found
        .unwrap()
        .into_iter()
        .map(|uv| normalize_positive(plimit, uv))
        .collect()
}

fn marvel() -> Vec<Vec<i32>> {
    vec![
        vec![22, 35, 51, 62, 76],
        vec![31, 49, 72, 87, 107],
        vec![41, 65, 95, 115, 142],
    ]
}

#[test]
fn marvel_unison_vectors() {
    let limit = pitches(&PrimeLimit::new(11));
    let n_results = 5;
    let uvs = unison_vectors(&limit, &marvel(), n_results);
    assert!(uvs.len() <= n_results);
    assert!(uvs.contains(&vec![2, 3, 1, -2, -1]));
    assert!(uvs.contains(&vec![-5, 2, 2, -1, 0]));
    assert!(uvs.contains(&vec![-7, -1, 1, 1, 1]));
    for uv in uvs.iter() {
        assert!(tempers_out(&marvel(), uv));
    }
}

#[test]
fn porcupine_unison_vectors() {
    let limit = pitches(&PrimeLimit::new(11));
    let porcupine = vec![vec![22, 35, 51, 62, 76], vec![15, 24, 35, 42, 52]];
    let n_results = 5;
    let uvs = unison_vectors(&limit, &porcupine, n_results);
    assert!(uvs.len() <= n_results);
    assert!(uvs.contains(&vec![-1, -3, 1, 0, 1]));
    assert!(uvs.contains(&vec![6, -2, 0, -1, 0]));
    assert!(uvs.contains(&vec![2, -2, 2, 0, -1]));
}

#[test]
fn rank_two_classes_of_the_7_limit() {
    let limit = pitches(&PrimeLimit::new(7));
    let ets = get_equal_temperaments(&limit, 1.0, 10);
    let rts: Vec<Vec<Vec<i32>>> = ets.iter().map(|et| vec![et.clone()]).collect();
    let found = search(&limit, &ets, &rts, 1.0, 10);
    assert_eq!(found.len(), 10);
    let mut keys: Vec<Vec<i32>> = Vec::new();
    let mut last = 0.0;
    for rt in found.iter() {
        assert_eq!(rank(rt), Some(2));
        let class_key = key(rt).unwrap();
        assert!(!keys.contains(&class_key));
        keys.push(class_key);
        let bad = cangwu_badness(&limit, rt, 1.0);
        assert!(last <= bad);
        last = bad;
    }
}

/// Equal temperaments of a specific size belonging to the class
fn ets_of_size(plimit: &[f64], melody: &[Vec<i32>], size: i32) -> Vec<Vec<i32>> {
    let pet = prime_mapping(plimit, size);
    let ek = cangwu_badness(plimit, melody, 0.0);
    let mut bmax = cangwu_badness(plimit, &[pet], ek);
    let mut bounds: Vec<u64> = Vec::new();
    for _ in 0..100 {
        bounds.push(score(bmax));
        bmax *= 1.1;
    }
    regular::walk::ets_of_size(size, plimit.len(), &bounds, range_under(plimit, ek))
}

fn from_ets_and_key(plimit: &[f64], ets: &[i32], class_key: &[i32]) -> Option<Vec<Vec<i32>>> {
    let tclass = key_to_mapping(plimit.len(), class_key)?;
    let mut candidates: Vec<Vec<i32>> = Vec::new();
    for &et in ets.iter() {
        candidates.extend(ets_of_size(plimit, &tclass, et));
    }
    regular::rebuild::from_ets_and_key(plimit.len(), &candidates, class_key)
}

fn jove() -> Vec<Vec<i32>> {
    vec![
        vec![27, 43, 63, 76, 94],
        vec![31, 49, 72, 87, 107],
        vec![41, 65, 95, 115, 142],
    ]
}

fn porcupine() -> Vec<Vec<i32>> {
    vec![vec![22, 35, 51, 62, 76], vec![15, 24, 35, 42, 52]]
}

#[test]
fn cangwu_et_from_marvel() {
    let limit11 = pitches(&PrimeLimit::new(11));
    let ets31 = ets_of_size(&limit11, &marvel(), 31);
    let expected = vec![vec![31, 49, 72, 87, 107]];
    assert_eq!(ets31, expected);
}

#[test]
fn cangwu_et_from_jove() {
    let limit11 = pitches(&PrimeLimit::new(11));
    let ets31 = ets_of_size(&limit11, &jove(), 31);
    let expected = vec![vec![31, 49, 72, 87, 107]];
    assert_eq!(ets31, expected);
}

#[test]
fn et22_from_porcupine() {
    let limit11 = pitches(&PrimeLimit::new(11));
    let ets22 = ets_of_size(&limit11, &porcupine(), 22);
    let expected = vec![vec![22, 35, 51, 62, 76]];
    assert_eq!(ets22, expected);
}

#[test]
fn et15_from_porcupine() {
    let limit11 = pitches(&PrimeLimit::new(11));
    let ets15 = ets_of_size(&limit11, &porcupine(), 15);
    let expected = vec![vec![15, 24, 35, 42, 52]];
    assert_eq!(ets15, expected);
}

#[test]
fn cangwu_marvel_from_key() {
    let limit11 = pitches(&PrimeLimit::new(11));
    let original = marvel();
    let clone = from_ets_and_key(&limit11, &[22, 31, 41], &key(&original).unwrap());
    assert!(clone.is_some());
    if let Some(clone) = clone {
        assert_eq!(original, clone);
    }
}

#[test]
fn cangwu_jove_from_key() {
    let limit11 = pitches(&PrimeLimit::new(11));
    let original = jove();
    let clone = from_ets_and_key(&limit11, &[27, 31, 41], &key(&original).unwrap());
    assert!(clone.is_some());
    if let Some(clone) = clone {
        assert_eq!(original, clone);
    }
}

#[test]
fn porcupine_from_ets_and_key() {
    let limit11 = pitches(&PrimeLimit::new(11));
    let class_key = vec![3, 5, -6, 4, 1, 2, 3, 2, 4];
    match from_ets_and_key(&limit11, &[15, 22], &class_key) {
        Some(_) => (),
        None => assert!(false),
    }
}

#[test]
fn cangwu_tests_et_from_marvel() {
    let limit11 = pitches(&PrimeLimit::new(11));
    let ets31 = ets_of_size(&limit11, &marvel(), 31);
    let expected = vec![vec![31, 49, 72, 87, 107]];
    assert_eq!(ets31, expected);
}

#[test]
fn cangwu_tests_et_from_jove() {
    let limit11 = pitches(&PrimeLimit::new(11));
    let ets31 = ets_of_size(&limit11, &jove(), 31);
    let expected = vec![vec![31, 49, 72, 87, 107]];
    assert_eq!(ets31, expected);
}

#[test]
fn cangwu_tests_marvel_from_key() {
    let limit11 = pitches(&PrimeLimit::new(11));
    let original = marvel();
    let clone = from_ets_and_key(&limit11, &[22, 31, 41], &key(&original).unwrap());
    assert!(clone.is_some());
    if let Some(clone) = clone {
        assert_eq!(original, clone);
    }
}

#[test]
fn cangwu_tests_jove_from_key() {
    let limit11 = pitches(&PrimeLimit::new(11));
    let original = jove();
    let clone = from_ets_and_key(&limit11, &[27, 31, 41], &key(&original).unwrap());
    assert!(clone.is_some());
    if let Some(clone) = clone {
        assert_eq!(original, clone);
    }
}

#[test]
fn unison_vectors_of_a_class_that_lacks_one_column() {
    // nothing to search for: the minors of the mapping itself
    let meantone = vec![vec![12, 19, 28], vec![7, 11, 16]];
    let found =
        regular::unison_search::unison_vectors(&meantone, &[], 3, 5, |_: &Vec<Vec<i32>>| 0);
    assert_eq!(found, Some(vec![vec![-4, 4, -1]]));
}

#[test]
fn unison_vectors_by_a_given_score() {
    // 12-equal in the 5-limit: with 7 and 19 it makes meantone, with 15 augmented;
    // 24 belongs to it and is left out
    let melody = vec![vec![12, 19, 28]];
    let seeds = vec![
        vec![24, 38, 56],
        vec![7, 11, 16],
        vec![15, 24, 35],
        vec![19, 30, 44],
    ];
    let by_octave = |rt: &Vec<Vec<i32>>| rt[rt.len() - 1][0] as u64;
    let found = regular::unison_search::unison_vectors(&melody, &seeds, 3, 5, by_octave).unwrap();
    assert_eq!(found.len(), 2);
    for uv in found.iter() {
        assert!(tempers_out(&melody, uv));
    }
    assert!(tempers_out(&[vec![7, 11, 16]], &found[0]));
    assert!(tempers_out(&[vec![15, 24, 35]], &found[1]));
    let one = regular::unison_search::unison_vectors(&melody, &seeds, 3, 1, by_octave).unwrap();
    assert_eq!(one, vec![found[0].clone()]);
}

#[test]
fn class_from_candidates_and_key() {
    let meantone = vec![vec![12, 19, 28], vec![7, 11, 16]];
    let class_key = key(&meantone).unwrap();
    let candidates = vec![
        vec![15, 24, 35],
        vec![19, 30, 44],
        vec![38, 60, 88],
        vec![12, 19, 28],
        vec![31, 49, 72],
    ];
    // 15 is outside the class, 38 adds nothing to 19, 31 nothing to 19 and 12
    let found = regular::rebuild::from_ets_and_key(3, &candidates, &class_key);
    assert_eq!(found, Some(vec![vec![19, 30, 44], vec![12, 19, 28]]));
    // one mapping alone does not reach the rank
    let short = regular::rebuild::from_ets_and_key(3, &candidates[..3], &class_key);
    assert_eq!(short, None);
    // not the length of a key
    assert_eq!(regular::rebuild::from_ets_and_key(3, &candidates, &[1, 0]), None);
    assert_eq!(regular::rebuild::from_ets_and_key(3, &[], &[]), Some(vec![]));
}

#[test]
fn key_to_mapping_by_columns() {
    assert_eq!(
        key_to_mapping(3, &[1, 4, 1, 0, -4]),
        Some(vec![vec![1, 0, -4], vec![0, 1, 4]])
    );
}

#[test]
fn preliminary_cap_is_the_worst_of_the_best() {
    assert_eq!(preliminary_cap(&[5, 3, 9, 1], 2), 3);
    assert_eq!(preliminary_cap(&[5, 3, 9, 1], 4), 9);
    assert_eq!(preliminary_cap(&[5, 3, 9, 1], 5), INFINITE);
    assert_eq!(preliminary_cap(&[5, 3, 9, 1], 0), INFINITE);
    assert_eq!(preliminary_cap(&[], 3), INFINITE);
    assert_eq!(preliminary_cap(&[4, 4, 4], 1), 4);
}
