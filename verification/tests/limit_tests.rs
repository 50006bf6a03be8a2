use regular::et_name::{et_from_name, mapping_names, parse_et_name, warted_et_name};
use regular::limit::{join, parse_prime_limit, ParseLimitError, PrimeLimit};
use regular::warts::{next_char, prime_warts};

/// Convert a frequency ratio to cents
fn cents(ratio: f64) -> f64 {
    ratio.log2() * 12e2
}

/// The sizes of the partials of a limit, from its headings
fn pitches(limit: &PrimeLimit) -> Vec<f64> {
    limit
        .headings
        .iter()
        .map(|heading| match heading.split_once('/') {
            Some((n, d)) => cents(n.parse::<f64>().unwrap() / d.parse::<f64>().unwrap()),
            None => cents(heading.parse::<f64>().unwrap()),
        })
        .collect()
}

fn prime_mapping(plimit: &[f64], n_notes: i32) -> Vec<i32> {
    let multiplier = f64::from(n_notes) / plimit[0];
    plimit
        .iter()
        .map(|&x| (x * multiplier).round() as i32)
        .collect()
}

fn name_of(limit: &PrimeLimit, et: &[i32]) -> String {
    let plimit = pitches(limit);
    let prime_et = prime_mapping(&plimit, et[0]);
    let n_notes_scale = et[0] as f64 / plimit[0];
    let sharp: Vec<bool> = prime_et
        .iter()
        .zip(plimit.iter())
        .map(|(&pet_i, &pitch)| (pet_i as f64) > pitch * n_notes_scale)
        .collect();
    warted_et_name(limit, et, &prime_et, &sharp)
}

fn et_of(limit: &PrimeLimit, name: &str) -> Option<Vec<i32>> {
    let plimit = pitches(limit);
    let parsed = parse_et_name(limit, name)?;
    let octave_size = match parsed.octave {
        Some(i) => plimit[i],
        None => 1200.0,
    };
    let scaler = parsed.n_notes as f64 / octave_size;
    let nearest: Vec<i32> = plimit
        .iter()
        .map(|&pitch| (pitch * scaler).round() as i32)
        .collect();
    let sharp: Vec<bool> = plimit
        .iter()
        .map(|&pitch| (pitch * scaler).round() > pitch * scaler)
        .collect();
    et_from_name(limit, name, &nearest, &sharp)
}

fn strings(items: &[&str]) -> Vec<String> {
    items.iter().map(|s| s.to_string()).collect()
}

#[test]
fn seven_limit() {
    assert_eq!(&PrimeLimit::new(7).label, "7");
}

#[test]
fn non_consecutive_limit() {
    let primes = vec![2, 3, 7];
    let limit = PrimeLimit::explicit(primes);
    assert_eq!(&limit.label, "2.3.7");
}

#[test]
fn limit_from_str() {
    let label = "7";
    let limit: PrimeLimit =
        label.parse().expect("Failed to parse integer prime limit");
    assert_eq!(&limit.label, label);
    assert_eq!(limit.headings, vec!["2", "3", "5", "7"]);
}

#[test]
fn non_consecutive_limit_from_str() {
    let label = "2.3.7";
    let limit: PrimeLimit =
        label.parse().expect("Failed to parse dotted prime limit");
    assert_eq!(&limit.label, label);
    assert_eq!(limit.headings, vec!["2", "3", "7"]);
}

#[test]
fn bad_limit_from_str() {
    let label = "foo";
    let limit: Result<PrimeLimit, _> = label.parse();
    assert!(limit.is_err());
}

#[test]
fn ratio_limit_from_str() {
    let limit = parse_prime_limit("2.3.7/5").expect("Failed to parse limit with a ratio");
    assert_eq!(&limit.label, "2.3.7/5");
    assert_eq!(limit.headings, vec!["2", "3", "7/5"]);
    let limit = PrimeLimit::of_ratios(vec![(3, 2), (5, 1)]);
    assert_eq!(&limit.label, "3/2.5");
}

#[test]
fn limits_that_are_refused() {
    for text in ["", "0", ".", "2.", "2..3", "2.x", "7/0", "7/", "/5", "65536", "-7", "2.3/4/5"] {
        assert!(parse_prime_limit(text).is_err());
    }
    assert_eq!((ParseLimitError {}).message(), "Unrecognized prime limit");
}

#[test]
fn limits_at_the_edges() {
    let limit = parse_prime_limit("1").unwrap();
    assert_eq!(&limit.label, "1");
    assert_eq!(limit.headings.len(), 0);
    let limit = parse_prime_limit("+7").unwrap();
    assert_eq!(&limit.label, "7");
    let limit = parse_prime_limit("007.11").unwrap();
    assert_eq!(&limit.label, "7.11");
    let limit = parse_prime_limit("65535").unwrap();
    assert_eq!(limit.headings.len(), 6542);
    assert_eq!(&limit.headings[6541], "65521");
    let limit = parse_prime_limit("0.1").unwrap();
    assert_eq!(limit.headings, vec!["0", "1"]);
}

#[test]
fn test_join() {
    assert_eq!(&join(", ", &strings(&["1", "2", "3"])), "1, 2, 3");
    let mut tokens = Vec::new();
    assert_eq!(&join(" ", &tokens), "");
    tokens.push("foo".to_string());
    assert_eq!(&join(" ", &tokens), "foo");
    tokens.push("bar".to_string());
    assert_eq!(&join(" ", &tokens), "foo bar");
}

#[test]
fn name_12p() {
    let limit = PrimeLimit::new(13);
    let et = prime_mapping(&pitches(&limit), 12);
    assert_eq!(name_of(&limit, &et), "12p");
}

#[test]
fn name_38de() {
    let limit = PrimeLimit::new(11);
    let et = vec![38, 60, 88, 106, 132];
    assert_eq!(name_of(&limit, &et), "38de");
}

#[test]
fn name_b4() {
    let limit = PrimeLimit::explicit(vec![3, 5, 7]);
    let et = vec![4, 6, 7];
    assert_eq!(name_of(&limit, &et), "b4p");
}

#[test]
fn name_q15e() {
    let limit = PrimeLimit::explicit(vec![10, 11, 12]);
    let et = vec![15, 15, 16];
    assert_eq!(name_of(&limit, &et), "q15e");
}

#[test]
fn name_q32r() {
    let limit = PrimeLimit::explicit(vec![10, 11, 12]);
    let et = vec![32, 33, 34];
    assert_eq!(name_of(&limit, &et), "q32r");
}

#[test]
fn name_q22() {
    let limit = PrimeLimit::explicit(vec![10, 11, 12]);
    let et = vec![22, 23, 24];
    assert_eq!(name_of(&limit, &et), "q22p");
}

#[test]
fn name_q11() {
    let limit = PrimeLimit::explicit(vec![8, 10, 12, 14]);
    let et = vec![11, 12, 13, 14];
    assert_eq!(name_of(&limit, &et), "q11p");
}

#[test]
fn name_q2t() {
    let limit = PrimeLimit::explicit(vec![8, 10, 12, 14]);
    let et = vec![2, 2, 2, 2]; // contorted
    assert_eq!(name_of(&limit, &et), "q2t");
}

#[test]
fn twelve_equal_in_the_7_limit() {
    let limit = PrimeLimit::new(7);
    assert_eq!(name_of(&limit, &[12, 19, 28, 34]), "12p");
    assert_eq!(et_of(&limit, "12"), Some(vec![12, 19, 28, 34]));
    assert_eq!(et_of(&limit, "12p"), Some(vec![12, 19, 28, 34]));
}

#[test]
fn warted_names_in_the_17_limit() {
    let limit = PrimeLimit::new(17);
    let cases: Vec<(Vec<i32>, &str)> = vec![
        (vec![4, 6, 9, 11, 13, 14, 14], "4efgggg"),
        (vec![4, 6, 9, 11, 13, 14, 18], "4efggg"),
        (vec![2, 3, 5, 6, 6, 7, 7], "2egg"),
    ];
    for (et, name) in cases {
        assert_eq!(name_of(&limit, &et), name);
        assert_eq!(et_of(&limit, name), Some(et));
    }
}

#[test]
fn names_round_trip() {
    for limit in [
        PrimeLimit::new(13),
        PrimeLimit::explicit(vec![3, 5, 7]),
        PrimeLimit::explicit(vec![2, 9, 15, 21]),
    ] {
        let n = limit.headings.len();
        for steps in 1..30 {
            let patent = prime_mapping(&pitches(&limit), steps);
            for shift in -2..3 {
                for at in 1..n {
                    let mut et = patent.clone();
                    et[at] += shift;
                    let name = name_of(&limit, &et);
                    assert_eq!(et_of(&limit, &name), Some(et));
                }
            }
        }
    }
}

#[test]
fn marvel_from_et_names() {
    let limit = PrimeLimit::new(11);
    let named: Option<Vec<Vec<i32>>> = ["22", "31", "41"]
        .iter()
        .map(|name| et_of(&limit, name))
        .collect();
    assert_eq!(
        named,
        Some(vec![
            vec![22, 35, 51, 62, 76],
            vec![31, 49, 72, 87, 107],
            vec![41, 65, 95, 115, 142],
        ])
    );
}

#[test]
fn meantone_from_et_names() {
    let limit = PrimeLimit::new(13);
    let expected =
        vec![vec![31, 49, 72, 87, 107, 115], vec![12, 19, 28, 34, 42, 45]];
    let named: Option<Vec<Vec<i32>>> = ["31", "12f"]
        .iter()
        .map(|name| et_of(&limit, name))
        .collect();
    assert_eq!(named, Some(expected));
}

#[test]
fn names_that_say_nothing() {
    let limit = PrimeLimit::new(11);
    for name in ["", "p", "de", "a", "x12", "12x", "1 2", "12pp"] {
        assert!(parse_et_name(&limit, name).is_none());
    }
    let parsed = parse_et_name(&limit, "38dee").unwrap();
    assert_eq!(parsed.octave, None);
    assert_eq!(parsed.n_notes, 38);
    assert_eq!(parsed.wart_counts, vec![0, 0, 0, 1, 2]);
    let parsed = parse_et_name(&limit, "38").unwrap();
    assert_eq!(parsed.octave, Some(0));
    let parsed = parse_et_name(&limit, "b19p").unwrap();
    assert_eq!(parsed.octave, Some(1));
    assert_eq!(parsed.n_notes, 19);
    let empty = PrimeLimit::explicit(vec![]);
    assert!(parse_et_name(&empty, "12").is_none());
    assert!(parse_et_name(&empty, "12p").is_some());
}

#[test]
fn negative_steps_have_a_name() {
    let limit = PrimeLimit::new(5);
    let name = warted_et_name(&limit, &[-3, 1, 2], &[-3, -5, -7], &[false, false, true]);
    assert_eq!(name, format!("-3{}{}", "b".repeat(11), "c".repeat(18)));
}

#[test]
fn warts_of_limits() {
    assert_eq!(PrimeLimit::new(13).warts(), vec!['a', 'b', 'c', 'd', 'e', 'f']);
    assert_eq!(
        PrimeLimit::explicit(vec![2, 9, 47, 15, 53]).warts(),
        vec!['a', 'q', 'o', 'r', 's']
    );
    let many: Vec<u16> = (0..25).map(|i| 4 * i + 4).collect();
    let warts = PrimeLimit::explicit(many).warts();
    assert_eq!(
        warts,
        vec![
            'q', 'r', 's', 't', 'u', 'v', 'w', 'x', 'y', 'z', '〇', '一', '二', '三', '四', '五',
            '六', '七', '八', '九', '\u{4e5e}', '\u{4e5f}', '\u{4e60}', '\u{4e61}', '\u{4e62}',
        ]
    );
}

#[test]
fn wart_sequence() {
    assert_eq!(next_char('a'), 'b');
    assert_eq!(next_char('o'), 'p');
    assert_eq!(next_char('q'), 'r');
    assert_eq!(next_char('z'), '〇');
    assert_eq!(next_char('〇'), '一');
    assert_eq!(next_char('八'), '九');
    assert_eq!(next_char('\u{d7ff}'), '\u{d7ff}');
    assert_eq!(next_char('\u{10ffff}'), '\u{10ffff}');
    let table = prime_warts();
    assert_eq!(table.len(), 15);
    assert_eq!(table[0], (2, 'a'));
    assert_eq!(table[14], (47, 'o'));
}

#[test]
fn names_of_a_mapping() {
    assert_eq!(mapping_names("12 & 19 & 31"), vec!["12", "19", "31"]);
    assert_eq!(mapping_names("12+19"), vec!["12", "19"]);
    assert_eq!(mapping_names("12 19p  31de"), vec!["12", "19p", "31de"]);
    assert_eq!(mapping_names(" & +"), Vec::<String>::new());
    assert_eq!(mapping_names(""), Vec::<String>::new());
    assert_eq!(mapping_names("&12"), vec!["12"]);
    let limit = PrimeLimit::new(5);
    let mapping: Option<Vec<Vec<i32>>> = mapping_names("12 & 19 & 31")
        .iter()
        .map(|name| et_of(&limit, name))
        .collect();
    assert_eq!(
        mapping,
        Some(vec![vec![12, 19, 28], vec![19, 30, 44], vec![31, 49, 72]])
    );
}
