use regular::determinant::determinant;
use regular::limit::PrimeLimit;
use regular::uv::{dotprod, inverted, only_unison_vector, tempers_out};

/// The sizes of the primes up to `n` in cents
fn limit_pitches(n: u16) -> Vec<f64> {
    PrimeLimit::new(n)
        .headings
        .iter()
        .map(|heading| heading.parse::<f64>().unwrap().log2() * 12e2)
        .collect()
}

fn normalize_positive(pitches: &[f64], rsvec: Vec<i32>) -> Vec<i32> {
    let pitch_width = pitches
        .iter()
        .zip(rsvec.iter())
        .fold(0.0, |acc, (&x, &y)| acc + x * (y as f64));
    if pitch_width < 0.0 {
        inverted(&rsvec).unwrap()
    } else {
        rsvec.clone()
    }
}

#[test]
fn meantone5() {
    let mapping = vec![vec![12, 19, 28], vec![7, 11, 16]];
    let expected = vec![-4, 4, -1];
    assert!(tempers_out(&mapping, &expected));
    assert!(!tempers_out(&mapping, &[4, -1, -1]));
    assert!(!tempers_out(&mapping, &[-3, -1, 1]));
    let uv = only_unison_vector(&mapping).expect("no UV");
    let uv = normalize_positive(&limit_pitches(5), uv);
    assert_eq!(expected, uv);
}

#[test]
fn marvel7() {
    let mapping = vec![
        vec![41, 65, 95, 115],
        vec![31, 49, 72, 87],
        vec![19, 30, 44, 53],
    ];
    let expected = vec![-5, 2, 2, -1];
    assert!(tempers_out(&mapping, &expected));
    assert!(!tempers_out(&mapping, &[-4, 4, -1, 0]));
    let uv = only_unison_vector(&mapping).expect("no UV");
    let uv = normalize_positive(&limit_pitches(7), uv);
    assert_eq!(expected, uv);
}

#[test]
fn marvel7_reordered() {
    let mapping = vec![
        vec![41, 65, 95, 115],
        vec![19, 30, 44, 53],
        vec![31, 49, 72, 87],
    ];
    let expected = vec![-5, 2, 2, -1];
    assert!(tempers_out(&mapping, &expected));
    assert!(!tempers_out(&mapping, &[-4, 4, -1, 0]));
    let uv = only_unison_vector(&mapping).expect("no UV");
    let uv = normalize_positive(&limit_pitches(7), uv);
    assert_eq!(expected, uv);
}

#[test]
fn marvel7_from_reduced() {
    let mapping = vec![vec![1, 0, 0, -5], vec![0, 1, 0, 2], vec![0, 0, 1, 2]];
    let expected = vec![-5, 2, 2, -1];
    assert!(tempers_out(&mapping, &expected));
    assert!(!tempers_out(&mapping, &[-4, 4, -1, 0]));
    assert_eq!(Some(expected), only_unison_vector(&mapping));
}

#[test]
fn meantone7() {
    let mapping = vec![vec![31, 49, 72, 87], vec![19, 30, 44, 53]];
    assert!(tempers_out(&mapping, &[-4, 4, -1, 0]));
    assert_eq!(None, only_unison_vector(&mapping));
}

#[test]
fn meantone7_redundant() {
    let mapping = vec![
        vec![31, 49, 72, 87],
        vec![19, 30, 44, 53],
        vec![12, 19, 28, 34],
    ];
    assert!(tempers_out(&mapping, &[-4, 4, -1, 0]));
    assert_eq!(None, only_unison_vector(&mapping));
}

#[test]
fn uv_1575_1573() {
    // This failed with the initial implementation
    let mapping = vec![
        vec![72, 114, 167, 202, 249, 266],
        vec![58, 92, 135, 163, 201, 215],
        vec![87, 138, 202, 244, 301, 322],
        vec![31, 49, 72, 87, 107, 115],
        vec![121, 192, 281, 340, 419, 448],
    ];
    let expected = vec![0, 2, 2, 1, -2, -1];
    assert!(tempers_out(&mapping, &expected));
    let uv = only_unison_vector(&mapping).expect("no UV");
    let uv = normalize_positive(&limit_pitches(13), uv);
    assert_eq!(expected, uv);
}

#[test]
fn meantone_scenario_unison_vector() {
    let mapping = vec![vec![19, 30, 44], vec![31, 49, 72]];
    let uv = only_unison_vector(&mapping).expect("no UV");
    assert!(tempers_out(&mapping, &uv));
    assert_eq!(normalize_positive(&limit_pitches(5), uv), vec![-4, 4, -1]);
}

#[test]
fn unison_vector_is_tempered_out() {
    let mappings = vec![
        vec![vec![12, 19, 28], vec![7, 11, 16]],
        vec![vec![2, 0, 0], vec![0, 2, 0]],
        vec![vec![5, 8]],
        vec![
            vec![41, 65, 95, 115],
            vec![31, 49, 72, 87],
            vec![19, 30, 44, 53],
        ],
    ];
    for mapping in mappings {
        let uv = only_unison_vector(&mapping).expect("no UV");
        assert!(tempers_out(&mapping, &uv));
        assert!(uv.iter().any(|&x| x != 0));
    }
    assert_eq!(
        only_unison_vector(&[vec![2, 0, 0], vec![0, 2, 0]]),
        Some(vec![0, 0, 4])
    );
    assert_eq!(only_unison_vector(&[vec![5, 8]]), Some(vec![8, -5]));
}

#[test]
fn no_unison_vector() {
    let none: Vec<Vec<i32>> = vec![];
    assert_eq!(only_unison_vector(&none), None);
    assert_eq!(only_unison_vector(&[vec![1, 2, 3]]), None);
    assert_eq!(only_unison_vector(&[vec![0, 0]]), None);
    assert_eq!(only_unison_vector(&[vec![1, 2, 3], vec![2, 4, 6]]), None);
    assert_eq!(only_unison_vector(&[vec![i32::MIN, 1]]), None);
    assert_eq!(only_unison_vector(&[vec![1, i32::MIN]]), Some(vec![i32::MIN, -1]));
}

#[test]
fn determinants() {
    let empty: Vec<Vec<i32>> = vec![];
    assert_eq!(determinant(&empty), Some(1));
    assert_eq!(determinant(&[vec![7]]), Some(7));
    assert_eq!(determinant(&[vec![1, 2], vec![3, 4]]), Some(-2));
    assert_eq!(
        determinant(&[vec![2, 0, 1], vec![1, 3, 2], vec![1, 1, 1]]),
        Some(0)
    );
    assert_eq!(
        determinant(&[vec![1, 2, 3], vec![4, 5, 6], vec![7, 8, 10]]),
        Some(-3)
    );
    let big = i32::MAX;
    assert_eq!(
        determinant(&[vec![big, 0, 0, 0], vec![0, big, 0, 0], vec![0, 0, big, 0], vec![0, 0, 0, big]]),
        Some((big as i128).pow(4))
    );
    assert_eq!(
        determinant(&[
            vec![big, 0, 0, 0, 0],
            vec![0, big, 0, 0, 0],
            vec![0, 0, big, 0, 0],
            vec![0, 0, 0, big, 0],
            vec![0, 0, 0, 0, big],
        ]),
        None
    );
}

#[test]
fn dot_products() {
    assert_eq!(dotprod(&[1, 2, 3], &[4, 5, 6]), 32);
    assert_eq!(dotprod(&[1, 2, 3], &[4, 5]), 14);
    assert_eq!(dotprod(&[], &[4, 5]), 0);
    assert_eq!(
        dotprod(&[i32::MIN, i32::MIN], &[i32::MIN, i32::MIN]),
        1i128 << 63
    );
    let nothing: Vec<Vec<i32>> = vec![];
    assert!(tempers_out(&nothing, &[1, 2]));
}

#[test]
fn intervals_downwards() {
    assert_eq!(inverted(&[4, -4, 1]), Some(vec![-4, 4, -1]));
    assert_eq!(inverted(&[]), Some(vec![]));
    assert_eq!(inverted(&[0, i32::MIN]), None);
    assert_eq!(inverted(&[i32::MAX]), Some(vec![-i32::MAX]));
}

#[test]
fn normalize_already_positive() {
    let comma = vec![-4, 4, -1];
    let expected = comma.clone();
    assert_eq!(expected, normalize_positive(&limit_pitches(5), comma));
}

#[test]
fn normalize_negative() {
    let comma = vec![4, -4, 1];
    let expected = vec![-4, 4, -1];
    assert_eq!(expected, normalize_positive(&limit_pitches(5), comma));
}

#[test]
fn unison_vectors_of_many_rows() {
    // with the table of minors
    let mapping: Vec<Vec<i32>> = (0..11)
        .map(|j| (0..12).map(|i| if i == j { 2 } else if i == j + 1 { 1 } else { 0 }).collect())
        .collect();
    let uv = only_unison_vector(&mapping).unwrap();
    assert!(tempers_out(&mapping, &uv));
    assert_eq!(uv[11], -2048);
    assert_eq!(uv[0], 1);
    // beyond the table
    let units: Vec<Vec<i32>> = (0..20)
        .map(|j| (0..21).map(|i| if i == j { 1 } else { 0 }).collect())
        .collect();
    let mut expected = vec![0; 21];
    expected[20] = 1;
    assert_eq!(only_unison_vector(&units), Some(expected));
}
