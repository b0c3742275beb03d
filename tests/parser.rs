use ants_tsp::input_parser::{
    construct_option, find_dimension, find_file_type, load_sol_file, parse_fixed, parse_int,
    FileType, ParseError,
};

fn lines(text: &str) -> Vec<Vec<u8>> {
    text.lines().map(|l| l.as_bytes().to_vec()).collect()
}

#[test]
fn integers_parse_with_sign_and_space() {
    let s = b"  -42 ";
    assert_eq!(parse_int(s, 0, s.len()), Some(-42));
    let s = b"+7";
    assert_eq!(parse_int(s, 0, s.len()), Some(7));
    let s = b"4294967296";
    assert_eq!(parse_int(s, 0, s.len()), Some(4294967296));
    let s = b"4294967297";
    assert_eq!(parse_int(s, 0, s.len()), None);
    let s = b"-";
    assert_eq!(parse_int(s, 0, s.len()), None);
    let s = b"1x";
    assert_eq!(parse_int(s, 0, s.len()), None);
    let s = b"   ";
    assert_eq!(parse_int(s, 0, s.len()), None);
}

#[test]
fn decimals_parse_in_thousandths() {
    let s = b"565.0";
    assert_eq!(parse_fixed(s, 0, s.len()), Some(565_000));
    let s = b"-1.23456";
    assert_eq!(parse_fixed(s, 0, s.len()), Some(-1_234));
    let s = b".5";
    assert_eq!(parse_fixed(s, 0, s.len()), Some(500));
    let s = b"7.";
    assert_eq!(parse_fixed(s, 0, s.len()), Some(7_000));
    let s = b".";
    assert_eq!(parse_fixed(s, 0, s.len()), None);
    let s = b"1.2.3";
    assert_eq!(parse_fixed(s, 0, s.len()), None);
    let s = b"3000000";
    assert_eq!(parse_fixed(s, 0, s.len()), Some(3_000_000_000));
    let s = b"-4611686018427387.904";
    assert_eq!(parse_fixed(s, 0, s.len()), Some(-4_611_686_018_427_387_904));
    let s = b"4611686018427387.905";
    assert_eq!(parse_fixed(s, 0, s.len()), None);
}

#[test]
fn decimals_with_exponents() {
    let cases: Vec<(&[u8], Option<i64>)> = vec![
        (b"2.00000e+02", Some(200_000)),
        (b"1.5E3", Some(1_500_000)),
        (b"1e-4", Some(0)),
        (b"-2.5e-1", Some(-250)),
        (b"1.2345e2", Some(123_450)),
        (b"123.4567", Some(123_456)),
        (b"0e99999999999999999999999999999999999", Some(0)),
        (b"5e-99999999999999999999999999999999999", Some(0)),
        (b"1e99999999999999999999999999999999999", None),
        (b"1e", None),
        (b"e5", None),
        (b"1e+", None),
        (b"1.5e2.0", None),
        (b"4.611686018427387904e15", Some(4_611_686_018_427_387_904)),
        (b"4.611686018427387905e15", None),
    ];
    for (text, expected) in cases {
        assert_eq!(parse_fixed(text, 0, text.len()), expected, "{:?}", std::str::from_utf8(text));
    }
}

#[test]
fn coordinates_in_exponent_form() {
    let t = lines("DIMENSION: 1\nEDGE_WEIGHT_TYPE: EUC_2D\nNODE_COORD_SECTION\n1 2.00000e+02 -1.5e1\nEOF");
    match FileType::load_problem_file(&t) {
        Ok(FileType::Coordinates((pts, 1))) => assert_eq!(pts, vec![(200_000, -15_000)]),
        _ => panic!("expected coordinates"),
    }
}

#[test]
fn dimension_is_read_after_colon() {
    assert_eq!(find_dimension(&lines("NAME: x\nDIMENSION : 29\nTYPE: TSP")), Some(29));
    assert_eq!(find_dimension(&lines("DIMENSION: 5 : 6")), Some(5));
    assert_eq!(find_dimension(&lines("DIMENSION 5")), None);
    assert_eq!(find_dimension(&lines("DIMENSION: -5")), None);
    assert_eq!(find_dimension(&lines("NAME: x")), None);
}

#[test]
fn file_type_and_section() {
    let t = lines("DIMENSION: 2\nEDGE_WEIGHT_TYPE: EXPLICIT\nEDGE_WEIGHT_SECTION\n0 1\n1 0");
    assert_eq!(find_file_type(&t), Some((true, 3)));
    let t = lines("EDGE_WEIGHT_TYPE : EUC_2D\nNODE_COORD_SECTION\n1 0 0");
    assert_eq!(find_file_type(&t), Some((false, 2)));
    let t = lines("EDGE_WEIGHT_TYPE : EUC_2D");
    assert_eq!(find_file_type(&t), None);
}

#[test]
fn explicit_problem_file() {
    let t = lines("NAME: three\nDIMENSION: 3\nEDGE_WEIGHT_TYPE: EXPLICIT\nEDGE_WEIGHT_SECTION\n 0 2 9\n2 0 6\n9\t6 0\nEOF");
    match FileType::load_problem_file(&t) {
        Ok(FileType::Explicit((data, dim))) => {
            assert_eq!(dim, 3);
            assert_eq!(data, vec![0, 2000, 9000, 2000, 0, 6000, 9000, 6000, 0]);
        }
        _ => panic!("expected explicit rows"),
    }
}

#[test]
fn explicit_numbers_may_spread_over_lines() {
    let t = lines("DIMENSION: 3\nEDGE_WEIGHT_TYPE: EXPLICIT\nEDGE_WEIGHT_FORMAT: LOWER_DIAG_ROW\nEDGE_WEIGHT_SECTION\n0 2 0\n9 6 0\n\nEOF");
    match FileType::load_problem_file(&t) {
        Ok(FileType::Explicit((data, 3))) => assert_eq!(data, vec![0, 2000, 0, 9000, 6000, 0]),
        _ => panic!("expected a lower triangle"),
    }
}

#[test]
fn coordinate_problem_file() {
    let t = lines("DIMENSION: 2\nEDGE_WEIGHT_TYPE: EUC_2D\nNODE_COORD_SECTION\n1 565.0 575.0\n2 25.5 -185.25\nEOF");
    match FileType::load_problem_file(&t) {
        Ok(FileType::Coordinates((pts, dim))) => {
            assert_eq!(dim, 2);
            assert_eq!(pts, vec![(565_000, 575_000), (25_500, -185_250)]);
        }
        _ => panic!("expected coordinates"),
    }
}

#[test]
fn problem_file_errors() {
    let missing_dim = lines("EDGE_WEIGHT_SECTION\n0");
    assert_eq!(FileType::load_problem_file(&missing_dim).err(), Some(ParseError::MissingDimension));
    let missing_section = lines("DIMENSION: 1\n0");
    assert_eq!(FileType::load_problem_file(&missing_section).err(), Some(ParseError::MissingSection));
    let truncated = lines("DIMENSION: 3\nEDGE_WEIGHT_TYPE: EXPLICIT\nEDGE_WEIGHT_SECTION\n0 1 2\n1 0 3");
    assert_eq!(FileType::load_problem_file(&truncated).err(), Some(ParseError::Truncated));
    let short = lines("DIMENSION: 2\nEDGE_WEIGHT_TYPE: EXPLICIT\nEDGE_WEIGHT_SECTION\n0\n1");
    assert_eq!(FileType::load_problem_file(&short).err(), Some(ParseError::WrongCount));
    let bad = lines("DIMENSION: 2\nEDGE_WEIGHT_TYPE: EXPLICIT\nEDGE_WEIGHT_SECTION\n0 x\n1 0");
    assert_eq!(FileType::load_problem_file(&bad).err(), Some(ParseError::BadNumber));
    let negative = lines("DIMENSION: 1\nEDGE_WEIGHT_TYPE: EXPLICIT\nEDGE_WEIGHT_SECTION\n-1");
    assert_eq!(FileType::load_problem_file(&negative).err(), Some(ParseError::BadNumber));
    let bad_point = lines("DIMENSION: 1\nNODE_COORD_SECTION\n1 2");
    assert_eq!(FileType::load_problem_file(&bad_point).err(), Some(ParseError::BadNumber));
}

#[test]
fn construct_option_reads_the_section() {
    let t = lines("x\n1 1.5 2\n2 3 4");
    match construct_option(false, &t, 1, 2) {
        Ok(FileType::Coordinates((pts, 2))) => assert_eq!(pts, vec![(1500, 2000), (3000, 4000)]),
        _ => panic!("expected coordinates"),
    }
    match construct_option(true, &t, 1, 2) {
        Ok(FileType::Explicit((data, 2))) => assert_eq!(data, vec![1000, 1500, 2000, 2000, 3000, 4000]),
        _ => panic!("expected explicit numbers"),
    }
    let t = lines("x\n1 y");
    assert_eq!(construct_option(true, &t, 1, 1).err(), Some(ParseError::BadNumber));
}

#[test]
fn tour_file_is_read() {
    let t = lines("NAME: x.opt.tour\nDIMENSION : 3\nTOUR_SECTION\n1\n 3\n2\n-1\nEOF");
    assert_eq!(load_sol_file(Some(&t)), Ok(Some(vec![1, 3, 2, -1])));
    assert_eq!(load_sol_file(None), Ok(None));
}

#[test]
fn tour_file_errors() {
    assert_eq!(load_sol_file(Some(&lines("TOUR_SECTION\n1"))), Err(ParseError::MissingDimension));
    assert_eq!(load_sol_file(Some(&lines("DIMENSION: 1\n1\n-1"))), Err(ParseError::MissingSection));
    assert_eq!(load_sol_file(Some(&lines("DIMENSION: 2\nTOUR_SECTION\n1\n2"))), Err(ParseError::Truncated));
    assert_eq!(load_sol_file(Some(&lines("DIMENSION: 1\nTOUR_SECTION\n1\nx"))), Err(ParseError::BadNumber));
    assert_eq!(load_sol_file(Some(&lines("DIMENSION: 1\nTOUR_SECTION\n1\n3000000000"))), Err(ParseError::BadNumber));
}
