use timetable::weeks::{
    determine_week_type, parse_weeks, WeekError, WeekRange, WeekSet, WeekType,
};

fn weeks_of(ws: &WeekSet) -> Vec<u32> {
    let mut out = Vec::new();
    let mut i = 0;
    while i < ws.len() {
        out.push(ws.get(i));
        i += 1;
    }
    out
}

#[test]
fn range_parses_to_contiguous_set_and_classifies_full() {
    let ws = parse_weeks("3-5").unwrap();
    assert_eq!(weeks_of(&ws), vec![3, 4, 5]);
    let wr = WeekRange::from_weeks(ws).unwrap();
    assert_eq!(wr.week_type, WeekType::Full);
    assert_eq!(wr.start_week, 3);
    assert_eq!(wr.end_week, 5);
}

#[test]
fn complete_even_progression_classifies_double() {
    let ws = parse_weeks("2,4,6,8").unwrap();
    assert_eq!(weeks_of(&ws), vec![2, 4, 6, 8]);
    let wr = WeekRange::from_weeks(ws).unwrap();
    assert_eq!(wr.week_type, WeekType::Double);
    assert_eq!(wr.start_week, 2);
    assert_eq!(wr.end_week, 8);
}

#[test]
fn gapped_even_set_classifies_multiple() {
    let ws = parse_weeks("2,4,8").unwrap();
    assert_eq!(weeks_of(&ws), vec![2, 4, 8]);
    let wr = WeekRange::from_weeks(ws).unwrap();
    assert_eq!(wr.week_type, WeekType::Multiple);
}

#[test]
fn complete_odd_progression_classifies_single() {
    let ws = parse_weeks("1,3,5,7").unwrap();
    let wr = WeekRange::from_weeks(ws).unwrap();
    assert_eq!(wr.week_type, WeekType::Single);
}

#[test]
fn empty_expression_is_a_format_error() {
    assert_eq!(parse_weeks("").unwrap_err(), WeekError::FormatError);
}

#[test]
fn range_missing_right_endpoint_is_a_format_error() {
    assert_eq!(parse_weeks("3-").unwrap_err(), WeekError::FormatError);
}

#[test]
fn range_with_two_dashes_is_a_format_error() {
    assert_eq!(parse_weeks("3-5-7").unwrap_err(), WeekError::FormatError);
}

#[test]
fn non_numeric_part_is_a_format_error() {
    assert_eq!(parse_weeks("None").unwrap_err(), WeekError::FormatError);
    assert_eq!(parse_weeks("3,x").unwrap_err(), WeekError::FormatError);
}

#[test]
fn reversed_range_denotes_no_weeks_and_is_a_format_error() {
    assert_eq!(parse_weeks("5-3").unwrap_err(), WeekError::FormatError);
}

#[test]
fn parens_and_week_suffix_are_stripped() {
    let ws = parse_weeks("(2,4,6-10)").unwrap();
    assert_eq!(weeks_of(&ws), vec![2, 4, 6, 7, 8, 9, 10]);
    let ws = parse_weeks("3-16\u{5468}").unwrap();
    assert_eq!(weeks_of(&ws).len(), 14);
    let ws = parse_weeks(" 7\u{5468} ").unwrap();
    assert_eq!(weeks_of(&ws), vec![7]);
}

#[test]
fn duplicate_weeks_are_kept_once_in_ascending_order() {
    let ws = parse_weeks("4,2,4,3-4").unwrap();
    assert_eq!(weeks_of(&ws), vec![2, 3, 4]);
}

#[test]
fn single_week_classifies_full() {
    let ws = parse_weeks("9").unwrap();
    let wr = WeekRange::from_weeks(ws).unwrap();
    assert_eq!(wr.week_type, WeekType::Full);
    assert_eq!(wr.start_week, 9);
    assert_eq!(wr.end_week, 9);
}

#[test]
fn week_type_of_handmade_sets() {
    let mut ws = WeekSet::new();
    ws.insert(2);
    ws.insert(4);
    ws.insert(8);
    assert_eq!(determine_week_type(&ws, 2, 8), WeekType::Multiple);

    let mut dense = WeekSet::new();
    dense.insert(5);
    dense.insert(6);
    dense.insert(7);
    assert_eq!(determine_week_type(&dense, 5, 7), WeekType::Full);
}

#[test]
fn empty_set_is_rejected_as_empty_week_set() {
    let ws = WeekSet::new();
    assert_eq!(
        WeekRange::from_weeks(ws).unwrap_err(),
        WeekError::EmptyWeekSet
    );
}

#[test]
fn endpoints_are_min_and_max_of_the_set() {
    for expr in ["3-5", "2,4,6,8", "2,4,8", "1,3,5,7", "(6-10)", "9"] {
        let ws = parse_weeks(expr).unwrap();
        let all = weeks_of(&ws);
        let wr = WeekRange::from_weeks(ws).unwrap();
        assert_eq!(wr.start_week, *all.iter().min().unwrap());
        assert_eq!(wr.end_week, *all.iter().max().unwrap());
    }
}

#[test]
fn parse_overflowing_number_is_a_format_error() {
    assert_eq!(parse_weeks("4294967296").unwrap_err(), WeekError::FormatError);
    assert_eq!(parse_weeks("4294967295").unwrap().get(0), 4294967295);
}
