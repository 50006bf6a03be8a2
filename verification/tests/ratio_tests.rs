use regular::limit::PrimeLimit;
use regular::ratio::{
    checked_pow, factorize, factorize_ratio, factorize_ratios_in_simplest_limit, get_ratio,
    get_ratio_or_ket_string, get_ratio_string, integer_partials, parse_as_vector,
};

#[test]
fn get_syntonic_comma() {
    let limit5 = PrimeLimit::new(5);
    let ratio = get_ratio(&limit5, &vec![-4, 4, -1]);
    assert_eq!(ratio, Some((81, 80)));
}

#[test]
fn get_syntonic_comma_string() {
    let limit5 = PrimeLimit::new(5);
    let ratio_string = get_ratio_string(&limit5, &vec![-4, 4, -1]);
    assert_eq!(ratio_string, Some("81:80".to_string()));
}

#[test]
fn get_syntonic_comma_string_or_ket() {
    let limit5 = PrimeLimit::new(5);
    let ratio_string = get_ratio_or_ket_string(&limit5, &vec![-4, 4, -1]);
    assert_eq!(ratio_string, "81:80");
}

#[test]
fn stringify_syntonic_comma() {
    let limit5 = PrimeLimit::new(5);
    let ratio = get_ratio(&limit5, &vec![-4, 4, -1]).expect("ratio overflow");
    assert_eq!(regular::ratio::stringify(ratio), "81:80");
}

#[test]
fn get_major_third() {
    let limit5 = PrimeLimit::new(5);
    let ratio = get_ratio(&limit5, &vec![-2, 0, 1]);
    assert_eq!(ratio, Some((5, 4)));
}

#[test]
fn get_huge_interval() {
    let limit5 = PrimeLimit::new(5);
    let ratio = get_ratio(&limit5, &vec![1000, -1000, 0]);
    assert_eq!(ratio, None);
}

#[test]
fn get_huge_interval_ket() {
    let limit5 = PrimeLimit::new(5);
    let ratio = get_ratio_or_ket_string(&limit5, &vec![1000, -1000, 0]);
    assert_eq!(ratio, "[1000, -1000, 0⟩");
}

#[test]
fn parse_7_limit() {
    let limit7 = PrimeLimit::new(7);
    assert_eq!(integer_partials(&limit7), Some(vec![2, 3, 5, 7]));
}

#[test]
fn parse_7_limit_ratios() {
    let limit = PrimeLimit::new(7);
    assert_eq!(parse_as_vector(&limit, "225:224"), Some(vec![-5, 2, 2, -1]),);
    assert_eq!(
        parse_as_vector(&limit, "2401:2400"),
        Some(vec![-5, -1, -2, 4]),
    );
    assert_eq!(parse_as_vector(&limit, "7:4"), Some(vec![-2, 0, 0, 1]),);
    assert_eq!(parse_as_vector(&limit, "7/4"), Some(vec![-2, 0, 0, 1]),);
    assert_eq!(
        parse_as_vector(&limit, "   7/4    "),
        Some(vec![-2, 0, 0, 1]),
    );
    assert_eq!(parse_as_vector(&limit, "-7:4"), None);
    assert_eq!(parse_as_vector(&limit, "99:100"), None);
    assert_eq!(parse_as_vector(&limit, "foo"), None);
}

#[test]
fn parse_whole_numbers_and_odd_texts() {
    let limit = PrimeLimit::new(7);
    assert_eq!(parse_as_vector(&limit, "8"), Some(vec![3, 0, 0, 0]));
    assert_eq!(parse_as_vector(&limit, "+8"), Some(vec![3, 0, 0, 0]));
    assert_eq!(parse_as_vector(&limit, "\t7:4\u{3000}"), Some(vec![-2, 0, 0, 1]));
    assert_eq!(parse_as_vector(&limit, "7 : 4"), None);
    assert_eq!(parse_as_vector(&limit, "7:4:2"), None);
    assert_eq!(parse_as_vector(&limit, ""), None);
    assert_eq!(parse_as_vector(&limit, ":"), None);
    assert_eq!(
        parse_as_vector(&limit, "340282366920938463463374607431768211456:1"),
        None
    );
}

#[test]
fn factorize_5_limit() {
    let limit = PrimeLimit::new(5);
    assert_eq!(factorize(&limit, 10), Some(vec![1, 0, 1]));
    assert_eq!(factorize(&limit, 60), Some(vec![2, 1, 1]));
    assert_eq!(factorize(&limit, 1), Some(vec![0, 0, 0]));
    assert_eq!(factorize(&limit, 0), None);
    assert_eq!(factorize(&limit, 7), None);
}

#[test]
fn factorize_13_limit() {
    let limit = PrimeLimit::new(13);
    assert_eq!(factorize(&limit, 1), Some(vec![0, 0, 0, 0, 0, 0]));
    assert_eq!(factorize(&limit, 26), Some(vec![1, 0, 0, 0, 0, 1]));
    assert_eq!(factorize(&limit, 60), Some(vec![2, 1, 1, 0, 0, 0]));
    assert_eq!(factorize(&limit, 30030), Some(vec![1, 1, 1, 1, 1, 1]));
    assert_eq!(factorize(&limit, 0), None);
    assert_eq!(factorize(&limit, 17), None);
}

#[test]
fn factorize_at_the_edges() {
    let limit = PrimeLimit::new(5);
    assert_eq!(factorize(&limit, 1u128 << 127), Some(vec![127, 0, 0]));
    assert_eq!(factorize(&limit, u128::MAX), None);
    // partials are divided out in the order of the limit
    let odd = PrimeLimit::explicit(vec![4, 2]);
    assert_eq!(factorize(&odd, 8), Some(vec![1, 1]));
    let with_zero = PrimeLimit::explicit(vec![0, 2]);
    assert_eq!(factorize(&with_zero, 8), Some(vec![0, 3]));
    let with_one = PrimeLimit::explicit(vec![2, 1]);
    assert_eq!(factorize(&with_one, 8), None);
    let mut named = PrimeLimit::new(5);
    named.headings[1] = "three".to_string();
    assert_eq!(factorize(&named, 8), None);
    assert_eq!(integer_partials(&named), None);
    assert_eq!(get_ratio(&named, &vec![1, 0, 0]), None);
}

#[test]
fn test_5_limit_ratios() {
    let limit = PrimeLimit::new(5);
    assert_eq!(factorize_ratio(&limit, (1, 1)), Some(vec![0, 0, 0]));
    assert_eq!(factorize_ratio(&limit, (3, 2)), Some(vec![-1, 1, 0]));
    assert_eq!(factorize_ratio(&limit, (5, 4)), Some(vec![-2, 0, 1]));
    assert_eq!(factorize_ratio(&limit, (81, 80)), Some(vec![-4, 4, -1]));
    assert_eq!(factorize_ratio(&limit, (225, 224)), None);
    assert_eq!(factorize_ratio(&limit, (1, 0)), None);
    assert_eq!(factorize_ratio(&limit, (0, 1)), None);
    assert_eq!(factorize_ratio(&limit, (0, 0)), None);
}

#[test]
fn test_13_limit_ratios() {
    let limit = PrimeLimit::new(13);
    assert_eq!(
        factorize_ratio(&limit, (1, 1)),
        Some(vec![0, 0, 0, 0, 0, 0]),
    );
    assert_eq!(
        factorize_ratio(&limit, (144, 143)),
        Some(vec![4, 2, 0, 0, -1, -1]),
    );
    assert_eq!(
        factorize_ratio(&limit, (143, 144)),
        Some(vec![-4, -2, 0, 0, 1, 1]),
    );
    assert_eq!(
        factorize_ratio(&limit, (225, 224)),
        Some(vec![-5, 2, 2, -1, 0, 0]),
    );
    assert_eq!(
        factorize_ratio(&limit, (100, 99)),
        Some(vec![2, -2, 2, 0, -1, 0]),
    );
    assert_eq!(factorize_ratio(&limit, (256, 255)), None);
    assert_eq!(factorize_ratio(&limit, (1, 0)), None);
    assert_eq!(factorize_ratio(&limit, (0, 1)), None);
    assert_eq!(factorize_ratio(&limit, (0, 0)), None);
}

#[test]
fn detect_5_limit() {
    let result = factorize_ratios_in_simplest_limit(&[(81, 80)]);
    assert!(!result.is_none());
    if let Some((limit, intervals)) = result {
        assert_eq!(limit.label, "5");
        assert_eq!(limit.headings, vec!["2", "3", "5"]);
        assert_eq!(intervals, vec![vec![-4, 4, -1]]);
    }
}

#[test]
fn detect_7_limit() {
    let result = factorize_ratios_in_simplest_limit(&[(7, 6)]);
    assert!(!result.is_none());
    if let Some((limit, intervals)) = result {
        assert_eq!(limit.label, "7");
        assert_eq!(limit.headings, vec!["2", "3", "5", "7"]);
        assert_eq!(intervals, vec![vec![-1, -1, 0, 1]]);
    }
}

#[test]
fn detect_13_limit() {
    let result = factorize_ratios_in_simplest_limit(&[
        (1001, 1000),
        (100, 99),
        (351, 350),
        (540, 539),
    ]);
    assert!(!result.is_none());
    if let Some((limit, intervals)) = result {
        assert_eq!(limit.label, "13");
        assert_eq!(limit.headings, vec!["2", "3", "5", "7", "11", "13"]);
        assert_eq!(
            intervals,
            vec![
                vec![-3, 0, -3, 1, 1, 1],
                vec![2, -2, 2, 0, -1, 0],
                vec![-1, 3, -2, -1, 0, 1],
                vec![2, 3, 1, -2, -1, 0],
            ],
        )
    }
}

/// Corner case: highest detectable limit
#[test]
fn detect_97_limit() {
    let result = factorize_ratios_in_simplest_limit(&[(100, 97)]);
    assert!(!result.is_none());
    if let Some((limit, intervals)) = result {
        assert_eq!(limit.label, "97");
        assert_eq!(
            intervals,
            vec![vec![
                2, 0, 2, 0, 0, 0, 0, 0, 0, 0, 0, 0, 0, 0, 0, 0, 0, 0, 0, 0,
                0, 0, 0, 0, -1,
            ]],
        );
    }
}

/// Corner case: lowest undetectable limit
#[test]
fn detect_101_limit() {
    let result = factorize_ratios_in_simplest_limit(&[(100, 101)]);
    assert!(result.is_none());
}

#[test]
fn detect_silly_limit() {
    let result = factorize_ratios_in_simplest_limit(&[(65536, 65535)]);
    assert!(result.is_none());
}

#[test]
fn detect_nothing_for_unisons_and_no_ratios() {
    assert!(factorize_ratios_in_simplest_limit(&[]).is_none());
    assert!(factorize_ratios_in_simplest_limit(&[(1, 1)]).is_none());
    assert!(factorize_ratios_in_simplest_limit(&[(3, 2), (6, 6)]).is_none());
}

#[test]
fn powers() {
    assert_eq!(checked_pow(3, 4), Some(81));
    assert_eq!(checked_pow(0, 0), Some(1));
    assert_eq!(checked_pow(0, 5), Some(0));
    assert_eq!(checked_pow(1, u32::MAX), Some(1));
    assert_eq!(checked_pow(2, 127), Some(1u128 << 127));
    assert_eq!(checked_pow(2, 128), None);
    assert_eq!(checked_pow(3, 81), None);
    assert_eq!(checked_pow(3, 80), Some(147808829414345923316083210206383297601));
}

#[test]
fn ratio_round_trip() {
    let limit = PrimeLimit::new(13);
    for ratio in [(81u128, 80u128), (225, 224), (143, 144), (1, 1), (13, 1), (1, 1024)] {
        let vector = factorize_ratio(&limit, ratio).unwrap();
        assert_eq!(get_ratio(&limit, &vector), Some(ratio));
    }
    // not in lowest terms: the ratio comes back reduced
    let vector = factorize_ratio(&limit, (4, 2)).unwrap();
    assert_eq!(get_ratio(&limit, &vector), Some((2, 1)));
}

#[test]
fn ratio_of_the_smallest_exponent() {
    let limit = PrimeLimit::explicit(vec![1]);
    assert_eq!(get_ratio(&limit, &vec![i32::MIN]), Some((1, 1)));
    let limit = PrimeLimit::explicit(vec![2]);
    assert_eq!(get_ratio(&limit, &vec![i32::MIN]), None);
    assert_eq!(get_ratio(&limit, &vec![-127]), Some((1, 1u128 << 127)));
    assert_eq!(get_ratio(&limit, &vec![5, 7]), Some((32, 1)));
}
