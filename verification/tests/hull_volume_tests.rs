use hull_volume::Hull;
use hull_volume::HullSection;
use hull_volume::Rational;
use hull_volume::driver::BuildError;
use hull_volume::driver::args_valid;
use hull_volume::driver::build_hull;
use hull_volume::parse::parse_number;

fn tokens_of(strs: &[&str]) -> Vec<Vec<u8>> {
    strs.iter().map(|s| s.as_bytes().to_vec()).collect()
}

#[test]
fn frustum_volume_six_four_ten() {
    let d1 = parse_number(b"6").unwrap();
    let d2 = parse_number(b"4").unwrap();
    let h = parse_number(b"10").unwrap();
    let s = HullSection::from_diameters(&d1, &d2, &h).unwrap();
    // r1 = 6/2 = 3, r2 = 4/2 = 2
    assert_eq!(s.r1.num(), 6);
    assert_eq!(s.r1.den(), 2);
    assert_eq!(s.r2.num(), 4);
    assert_eq!(s.r2.den(), 2);
    let c = s.volume_coeff().unwrap();
    // volume = (9 + 6 + 4) * 10 * pi / 3 = (190/3) * pi
    let expected = Rational::new(190, 3);
    assert_eq!(c.same_value(&expected), Some(true));
    let vol = c.num() as f64 / c.den() as f64 * std::f64::consts::PI;
    assert!((vol - 190.0 * std::f64::consts::PI / 3.0).abs() < 1e-9);
    assert!((vol - 198.9675).abs() < 1e-3);
}

#[test]
fn empty_hull_volume_is_zero() {
    let tokens: Vec<Vec<u8>> = Vec::new();
    let hull = build_hull(&tokens).unwrap();
    assert_eq!(hull.len(), 0);
    let v = hull.volume().unwrap();
    assert_eq!(v.num(), 0);
    assert_eq!(v.den(), 1);
}

#[test]
fn zero_diameter_section_volume_zero() {
    let tokens = tokens_of(&["0", "0", "5"]);
    let hull = build_hull(&tokens).unwrap();
    assert_eq!(hull.len(), 1);
    let v = hull.volume().unwrap();
    assert_eq!(v.num(), 0);
    assert_eq!(v.num() as f64 / v.den() as f64, 0.0);
}

#[test]
fn total_volume_is_sum_of_sections() {
    let tokens = tokens_of(&["6", "4", "10", "4", "2", "3", "2.5", "2.5", "1"]);
    let hull = build_hull(&tokens).unwrap();
    assert_eq!(hull.len(), 3);
    let total = hull.volume().unwrap();
    let mut acc = Rational::from_integer(0);
    for i in 0..hull.len() {
        let c = hull.section(i).volume_coeff().unwrap();
        acc = acc.plus(&c).unwrap();
    }
    assert_eq!(total, acc);
    assert_eq!(total.same_value(&acc), Some(true));
}

#[test]
fn wrong_argument_counts_rejected() {
    for &c in &[1usize, 2, 4, 5] {
        assert!(!args_valid(c));
        let tokens: Vec<Vec<u8>> = (0..c).map(|_| b"1".to_vec()).collect();
        assert!(matches!(build_hull(&tokens), Err(BuildError::WrongCount)));
    }
    assert!(args_valid(0));
    assert!(args_valid(3));
    assert!(args_valid(6));
}

#[test]
fn same_arguments_same_output() {
    let tokens = tokens_of(&["6", "4", "10", "2.5", "2.5", "1"]);
    let h1 = build_hull(&tokens).unwrap();
    let h2 = build_hull(&tokens).unwrap();
    assert_eq!(h1.len(), h2.len());
    for i in 0..h1.len() {
        assert_eq!(h1.section(i), h2.section(i));
    }
    assert_eq!(h1.volume().unwrap(), h2.volume().unwrap());
}

#[test]
fn parse_integers_and_decimals() {
    let q = parse_number(b"6").unwrap();
    assert_eq!((q.num(), q.den()), (6, 1));
    let q = parse_number(b"-3.25").unwrap();
    assert_eq!((q.num(), q.den()), (-325, 100));
    let q = parse_number(b"+0.5").unwrap();
    assert_eq!((q.num(), q.den()), (5, 10));
    let q = parse_number(b"007").unwrap();
    assert_eq!((q.num(), q.den()), (7, 1));
    let q = parse_number(b"0").unwrap();
    assert_eq!((q.num(), q.den()), (0, 1));
}

#[test]
fn parse_bare_and_trailing_points() {
    let q = parse_number(b".5").unwrap();
    assert_eq!((q.num(), q.den()), (5, 10));
    let q = parse_number(b"5.").unwrap();
    assert_eq!((q.num(), q.den()), (5, 1));
    let q = parse_number(b"-.25").unwrap();
    assert_eq!((q.num(), q.den()), (-25, 100));
    let q = parse_number(b"+2.").unwrap();
    assert_eq!((q.num(), q.den()), (2, 1));
}

#[test]
fn parse_exponents() {
    let q = parse_number(b"1e5").unwrap();
    assert_eq!((q.num(), q.den()), (100000, 1));
    let q = parse_number(b"1E2").unwrap();
    assert_eq!((q.num(), q.den()), (100, 1));
    let q = parse_number(b"2.5e1").unwrap();
    assert_eq!((q.num(), q.den()), (25, 1));
    let q = parse_number(b"25e2").unwrap();
    assert_eq!((q.num(), q.den()), (2500, 1));
    let q = parse_number(b"2.5e-2").unwrap();
    assert_eq!((q.num(), q.den()), (25, 1000));
    let q = parse_number(b"-1.5e+1").unwrap();
    assert_eq!((q.num(), q.den()), (-15, 1));
    let q = parse_number(b".5e1").unwrap();
    assert_eq!((q.num(), q.den()), (5, 1));
    let q = parse_number(b"5.e1").unwrap();
    assert_eq!((q.num(), q.den()), (50, 1));
    let q = parse_number(b"1e-0").unwrap();
    assert_eq!((q.num(), q.den()), (1, 1));
}

#[test]
fn parse_extreme_exponents() {
    // 10^38 fits; one power more does not.
    let q = parse_number(b"1e38").unwrap();
    assert_eq!(q.num(), 10i128.pow(38));
    assert_eq!(q.den(), 1);
    assert!(parse_number(b"9e38").is_none());
    let q = parse_number(b"1e-38").unwrap();
    assert_eq!((q.num(), q.den()), (1, 10i128.pow(38)));
    assert!(parse_number(b"1e-39").is_none());
    // A zero mantissa absorbs any exponent surplus; a huge negative
    // exponent still cannot give the denominator a home.
    let q = parse_number(b"0e99999999999999999999999999999999").unwrap();
    assert_eq!((q.num(), q.den()), (0, 1));
    assert!(parse_number(b"1e99999999999999999999999999999999").is_none());
    assert!(parse_number(b"0e-99999999999999999999999999999999").is_none());
}

#[test]
fn parse_rejects_malformed() {
    assert!(parse_number(b"").is_none());
    assert!(parse_number(b"-").is_none());
    assert!(parse_number(b"+").is_none());
    assert!(parse_number(b".").is_none());
    assert!(parse_number(b"-.").is_none());
    assert!(parse_number(b"1.2.3").is_none());
    assert!(parse_number(b"abc").is_none());
    assert!(parse_number(b"4 2").is_none());
    assert!(parse_number(b"--4").is_none());
    assert!(parse_number(b"e5").is_none());
    assert!(parse_number(b".e5").is_none());
    assert!(parse_number(b"1e").is_none());
    assert!(parse_number(b"1e+").is_none());
    assert!(parse_number(b"1e5.5").is_none());
    assert!(parse_number(b"1e2e3").is_none());
    assert!(parse_number(b"inf").is_none());
    assert!(parse_number(b"nan").is_none());
}

#[test]
fn parse_rejects_oversized() {
    // 39 nines exceed i128; 38 nines fit.
    let big = vec![b'9'; 39];
    assert!(parse_number(&big).is_none());
    let ok = vec![b'9'; 38];
    assert!(parse_number(&ok).is_some());
}

#[test]
fn first_bad_token_reported() {
    let tokens = tokens_of(&["1", "x", "y"]);
    assert!(matches!(build_hull(&tokens), Err(BuildError::BadToken { index: 1 })));
    let tokens = tokens_of(&["1", "2", "3", "4", "5", "bad"]);
    assert!(matches!(build_hull(&tokens), Err(BuildError::BadToken { index: 5 })));
}

#[test]
fn negative_inputs_accepted() {
    // No domain validation: r1 = -3, r2 = 2, d = -10 gives
    // (9 - 6 + 4) * (-10) / 3 = -70/3 in units of pi.
    let tokens = tokens_of(&["-6", "4", "-10"]);
    let hull = build_hull(&tokens).unwrap();
    let v = hull.volume().unwrap();
    assert_eq!(v.same_value(&Rational::new(-70, 3)), Some(true));
}

#[test]
fn volume_overflow_detected() {
    let big = vec![b'9'; 38];
    let tokens = vec![big.clone(), big.clone(), big];
    let hull = build_hull(&tokens).unwrap();
    assert!(hull.section(0).volume_coeff().is_none());
    assert!(hull.volume().is_none());
}

#[test]
fn diameter_half_overflow_is_bad_token() {
    // Denominator 10^38 fits in i128, but its double does not; usable as a
    // height, not as a diameter.
    let mut tok = b"1.".to_vec();
    tok.extend(vec![b'5'; 38]);
    let tokens = vec![tok.clone(), b"1".to_vec(), b"1".to_vec()];
    assert!(matches!(build_hull(&tokens), Err(BuildError::BadToken { index: 0 })));
    let tokens = vec![b"1".to_vec(), b"1".to_vec(), tok];
    assert!(build_hull(&tokens).is_ok());
}

#[test]
fn hull_grows_in_order() {
    let mut hull = Hull::new();
    assert_eq!(hull.len(), 0);
    let one = parse_number(b"2").unwrap();
    let two = parse_number(b"4").unwrap();
    let five = parse_number(b"5").unwrap();
    let s1 = HullSection::from_diameters(&one, &two, &five).unwrap();
    let s2 = HullSection::from_diameters(&two, &one, &five).unwrap();
    hull.add(s1);
    hull.add(s2);
    assert_eq!(hull.len(), 2);
    assert_eq!(*hull.section(0), s1);
    assert_eq!(*hull.section(1), s2);
}
