use regular::hermite::{echelon_form, hermite_normal_form};
use regular::limit::PrimeLimit;
use regular::temperament_class;
use regular::temperament_class::{
    et_belongs, key_to_mapping, reduced_mapping, StubTemperamentClass, TemperamentClass,
};

fn make_meantone() -> StubTemperamentClass {
    let meantone_vector = vec![vec![19, 30, 44], vec![31, 49, 72]];
    StubTemperamentClass {
        melody: meantone_vector,
    }
}

fn make_marvel() -> StubTemperamentClass {
    let marvel_vector = vec![
        vec![22, 35, 51, 62, 76],
        vec![31, 49, 72, 87, 107],
        vec![41, 65, 95, 115, 142],
    ];
    StubTemperamentClass {
        melody: marvel_vector,
    }
}

fn make_jove() -> StubTemperamentClass {
    let jove_vector = vec![
        vec![27, 43, 63, 76, 94],
        vec![31, 49, 72, 87, 107],
        vec![41, 65, 95, 115, 142],
    ];
    StubTemperamentClass {
        melody: jove_vector,
    }
}

#[test]
fn hermite() {
    let marvel = make_marvel();
    let marvel_hermite = vec![
        vec![1, 0, 0, -5, 12],
        vec![0, 1, 0, 2, -1],
        vec![0, 0, 1, 2, -3],
    ];
    assert_eq!(marvel.reduced_mapping(), Some(marvel_hermite));

    let jove = make_jove();
    let jove_hermite = vec![
        vec![1, 1, 1, 2, 2],
        vec![0, 2, 1, 1, 5],
        vec![0, 0, 2, 1, 0],
    ];
    assert_eq!(jove.reduced_mapping(), Some(jove_hermite));
}

#[test]
fn key() {
    assert_eq!(
        make_marvel().key(),
        Some(vec![1, 2, -3, 1, 0, 2, -1, 1, 0, 0, -5, 12])
    );

    assert_eq!(
        make_jove().key(),
        Some(vec![2, 1, 0, 2, 1, 1, 5, 1, 1, 1, 2, 2])
    );
}

#[test]
fn meantone_name() {
    let limit5 = PrimeLimit::new(5);
    let meantone = make_meantone();
    assert_eq!(meantone.name(&limit5), Some("Meantone"));
}

#[test]
fn marvel_name() {
    let limit11 = PrimeLimit::new(11);
    let marvel = make_marvel();
    assert_eq!(marvel.name(&limit11), Some("Marvel"));
}

#[test]
fn jove_name() {
    let limit11 = PrimeLimit::new(11);
    let jove = make_jove();
    assert_eq!(jove.name(&limit11), Some("Jove"));
}

#[test]
fn bad_limit_name() {
    let mut limit5 = PrimeLimit::new(5);
    limit5.headings[0] = "octave".to_string();
    let meantone = make_meantone();
    assert_eq!(meantone.name(&limit5), None);
}

#[test]
fn unlisted_name() {
    let limit5 = PrimeLimit::new(5);
    let melody = vec![vec![1, 2, 3], vec![4, 5, 6]];
    let tc = StubTemperamentClass { melody };
    assert_eq!(tc.name(&limit5), None);
}

#[test]
fn wizz_name() {
    let limit = PrimeLimit::explicit(vec![2, 5, 11]);
    let melody = key_to_mapping(3, &[1, 3, 2, 0, -7]).unwrap();
    let tc = StubTemperamentClass { melody };
    assert_eq!(tc.name(&limit), Some("Wizz"));
    let melody = key_to_mapping(3, &[1, 1, 0, 1, 0, 0]).unwrap();
    let tc = StubTemperamentClass { melody };
    assert_eq!(tc.name(&limit), Some("2.5.11-limit JI"));
}

#[test]
fn meantone_has_12() {
    let meantone = make_meantone();
    let et = vec![12, 19, 28];
    assert_eq!(meantone.et_belongs(&et), Some(true));
}

#[test]
fn meantone_has_41() {
    let meantone = make_meantone();
    let et = vec![41, 65, 95];
    assert_eq!(meantone.et_belongs(&et), Some(false));
}

#[test]
fn marvel_has_27() {
    let marvel = make_marvel();
    let et = vec![27, 43, 63, 76, 94];
    assert_eq!(marvel.et_belongs(&et), Some(false));
}

#[test]
fn marvel_has_72() {
    let marvel = make_marvel();
    let et = vec![72, 114, 167, 202, 249];
    assert_eq!(marvel.et_belongs(&et), Some(true));
}

#[test]
fn marvel_key_to_mapping() {
    let marvel = make_marvel();
    let key = marvel.key().unwrap();
    let redmap = marvel.reduced_mapping().unwrap();
    let dimension = redmap[0].len();
    let poss_mapping = key_to_mapping(dimension, &key);
    assert_eq!(Some(redmap), poss_mapping);
}

#[test]
fn meantone_key_to_mapping() {
    let meantone = make_meantone();
    let key = meantone.key().unwrap();
    let redmap = meantone.reduced_mapping().unwrap();
    let dimension = redmap[0].len();
    let poss_mapping = key_to_mapping(dimension, &key);
    assert_eq!(Some(redmap), poss_mapping);
}

#[test]
fn jove_key_to_mapping() {
    let jove = make_jove();
    let key = jove.key().unwrap();
    let redmap = jove.reduced_mapping().unwrap();
    let dimension = redmap[0].len();
    let poss_mapping = key_to_mapping(dimension, &key);
    assert_eq!(Some(redmap), poss_mapping);
}

#[test]
fn rank() {
    assert_eq!(make_marvel().rank(), Some(3));
    assert_eq!(make_jove().rank(), Some(3));
}

#[test]
fn porcupine_from_key() {
    let key = vec![3, 5, -6, 4, 1, 2, 3, 2, 4];
    let mapping = key_to_mapping(5, &key);
    assert_eq!(
        Some(vec![vec![1, 2, 3, 2, 4], vec![0, 3, 5, -6, 4]]),
        mapping,
    );
}

#[test]
fn key_to_mapping_rejects_other_lengths() {
    assert_eq!(key_to_mapping(3, &[]), Some(vec![]));
    assert_eq!(key_to_mapping(3, &[1, 2, 3]), Some(vec![vec![1, 2, 3]]));
    assert_eq!(key_to_mapping(3, &[1, 2]), None);
    assert_eq!(key_to_mapping(3, &[1, 2, 3, 4]), None);
    assert_eq!(
        key_to_mapping(3, &[9, 7, 8, 1, 2, 3]),
        Some(vec![vec![1, 2, 3], vec![0, 7, 8], vec![0, 0, 9]])
    );
    assert_eq!(key_to_mapping(3, &[1, 9, 7, 8, 1, 2, 3]), None);
    assert_eq!(key_to_mapping(0, &[1]), None);
}

#[test]
fn hermite_reduction() {
    let jove = vec![
        vec![27, 43, 63, 76, 94],
        vec![31, 49, 72, 87, 107],
        vec![41, 65, 95, 115, 142],
    ];
    let jove_hermite = vec![
        vec![1, 1, 1, 2, 2],
        vec![0, 2, 1, 1, 5],
        vec![0, 0, 2, 1, 0],
    ];
    assert_eq!(hermite_normal_form(&jove), Some(jove_hermite.clone()));
    let jove_neg_hermite = vec![
        vec![1, -1, 0, 1, -3],
        vec![0, 2, -1, 0, 5],
        vec![0, 0, 2, 1, 0],
    ];
    assert_eq!(hermite_normal_form(&jove_neg_hermite), Some(jove_hermite));
}

#[test]
fn cangwu_mystery() {
    let mystery_vector = vec![
        vec![29, 46, 67, 81, 100, 107],
        vec![58, 92, 135, 163, 201, 215],
    ];
    assert_eq!(
        temperament_class::key(&mystery_vector),
        Some(vec![0, 1, 1, 1, 1, 29, 46, 0, 14, 33, 40])
    );
    assert_eq!(temperament_class::rank(&mystery_vector), Some(2));
}

#[test]
fn cangwu_ragismic() {
    let ragismic_vector = vec![
        vec![171, 271, 397, 480],
        vec![270, 428, 627, 758],
        vec![494, 783, 1147, 1387],
    ];
    assert_eq!(
        temperament_class::key(&ragismic_vector),
        Some(vec![1, -4, 1, 0, 7, 1, 0, 0, 1])
    );
    assert_eq!(temperament_class::rank(&ragismic_vector), Some(3));
}

#[test]
fn meantone_scenario() {
    let mapping = vec![vec![19, 30, 44], vec![31, 49, 72]];
    assert_eq!(
        hermite_normal_form(&mapping),
        Some(vec![vec![1, 0, -4], vec![0, 1, 4]])
    );
    assert_eq!(temperament_class::key(&mapping), Some(vec![1, 4, 1, 0, -4]));
    assert_eq!(temperament_class::rank(&mapping), Some(2));
}

#[test]
fn hermite_of_hermite_is_itself() {
    for mapping in [make_marvel().melody, make_jove().melody, make_meantone().melody] {
        let once = hermite_normal_form(&mapping).unwrap();
        let twice = hermite_normal_form(&once).unwrap();
        assert_eq!(once, twice);
    }
}

#[test]
fn key_survives_column_operations() {
    let marvel = make_marvel().melody;
    // exchange two columns, negate one, add a multiple of one to another
    let mut changed = vec![marvel[2].clone(), marvel[1].clone(), marvel[0].clone()];
    for x in changed[1].iter_mut() {
        *x = -*x;
    }
    for i in 0..5 {
        changed[0][i] += 3 * changed[2][i];
    }
    assert_eq!(temperament_class::key(&changed), temperament_class::key(&marvel));
    assert_eq!(hermite_normal_form(&changed), hermite_normal_form(&marvel));
}

#[test]
fn rank_grows_by_at_most_one() {
    let marvel = make_marvel().melody;
    let mut with_member = marvel.clone();
    with_member.push(vec![72, 114, 167, 202, 249]);
    assert_eq!(temperament_class::rank(&with_member), Some(3));
    let mut with_stranger = marvel.clone();
    with_stranger.push(vec![27, 43, 63, 76, 94]);
    assert_eq!(temperament_class::rank(&with_stranger), Some(4));
    assert_eq!(et_belongs(&marvel, &[72, 114, 167, 202, 249]), Some(true));
}

#[test]
fn zero_columns_come_last() {
    let mapping = vec![vec![0, 0, 0], vec![2, 4, 6], vec![1, 2, 3]];
    assert_eq!(
        hermite_normal_form(&mapping),
        Some(vec![vec![1, 2, 3], vec![0, 0, 0], vec![0, 0, 0]])
    );
    assert_eq!(temperament_class::rank(&mapping), Some(1));
    let empty: Vec<Vec<i32>> = vec![];
    assert_eq!(hermite_normal_form(&empty), Some(vec![]));
    assert_eq!(temperament_class::rank(&empty), Some(0));
    assert_eq!(reduced_mapping(&empty), Some(vec![]));
}

#[test]
fn echelon_form_leads_downwards() {
    let jove = make_jove().melody;
    let echelon = echelon_form(&jove).unwrap();
    assert_eq!(echelon.len(), 3);
    let mut last = None;
    for column in echelon.iter() {
        let lead = column.iter().position(|&x| x != 0);
        if let (Some(a), Some(b)) = (last, lead) {
            assert!(a < b);
        }
        if let Some(at) = lead {
            assert!(column[at] > 0);
        }
        last = lead;
    }
    assert_eq!(hermite_normal_form(&echelon), hermite_normal_form(&jove));
}

#[test]
fn overflow_gives_none() {
    let mapping = vec![vec![i32::MIN, 0], vec![0, 1]];
    assert_eq!(hermite_normal_form(&mapping), None);
    assert_eq!(temperament_class::rank(&mapping), None);
    let tc = StubTemperamentClass {
        melody: vec![vec![1, 2], vec![1]],
    };
    assert_eq!(tc.rank(), None);
    assert_eq!(tc.key(), None);
}

#[test]
fn key_has_the_length_of_its_parts() {
    // r·d − r·(r−1)/2 entries for r columns of d rows
    assert_eq!(make_marvel().key().unwrap().len(), 3 * 5 - 3 * 2 / 2);
    assert_eq!(make_meantone().key().unwrap().len(), 2 * 3 - 2 * 1 / 2);
    let square = vec![vec![1, 2], vec![3, 4]];
    assert_eq!(temperament_class::key(&square), Some(vec![2, 1, 0]));
    let wide = vec![vec![1, 2], vec![3, 4], vec![5, 6]];
    assert_eq!(temperament_class::key(&wide), Some(vec![2, 1, 0]));
}

#[test]
fn cangwu_tests_mystery() {
    let mystery_vector = vec![
        vec![29, 46, 67, 81, 100, 107],
        vec![58, 92, 135, 163, 201, 215],
    ];
    assert_eq!(
        temperament_class::key(&mystery_vector),
        Some(vec![0, 1, 1, 1, 1, 29, 46, 0, 14, 33, 40])
    );
    assert_eq!(temperament_class::rank(&mystery_vector), Some(2));
}

#[test]
fn cangwu_tests_ragismic() {
    let ragismic_vector = vec![
        vec![171, 271, 397, 480],
        vec![270, 428, 627, 758],
        vec![494, 783, 1147, 1387],
    ];
    assert_eq!(
        temperament_class::key(&ragismic_vector),
        Some(vec![1, -4, 1, 0, 7, 1, 0, 0, 1])
    );
    assert_eq!(temperament_class::rank(&ragismic_vector), Some(3));
}
