use timetable::grid::{extract_courses, parse_classes_course_info, Course};
use timetable::weeks::{WeekError, WeekType};

fn table(rows: Vec<Vec<&str>>) -> Vec<Vec<String>> {
    rows.iter()
        .map(|r| r.iter().map(|c| c.to_string()).collect())
        .collect()
}

fn header() -> Vec<&'static str> {
    vec!["class", "mon", "tue"]
}

#[test]
fn end_to_end_single_stacked_cell() {
    let t = table(vec![
        vec!["class", "mon"],
        vec!["", "08:00"],
        vec![
            "Class A",
            "Algebra\nDr. X\n3-5\u{5468}\nRoom 1",
            "trailer",
        ],
    ]);
    let courses = extract_courses(&t).unwrap();
    assert_eq!(courses.len(), 1);
    let c = &courses[0];
    assert_eq!(c.name, "Algebra");
    assert_eq!(c.class, "Class A");
    assert_eq!(c.teacher, "Dr. X");
    assert_eq!(c.start_week, 3);
    assert_eq!(c.end_week, 5);
    assert_eq!(c.week_type, WeekType::Full);
    assert_eq!(c.location, "Room 1");
    assert_eq!(c.week, 0);
    assert_eq!(c.index, 0);
}

#[test]
fn two_stacked_chunks_yield_two_isolated_drafts() {
    let cell = "Algebra\nDr. X\n3-5\u{5468}\nRoom 1\nBiology\nDr. Y\n2,4\u{5468}\nRoom 2";
    let t = table(vec![header(), vec!["", "08:00", "10:00"], vec!["Class A", cell, "t"]]);
    let courses = extract_courses(&t).unwrap();
    assert_eq!(courses.len(), 2);
    assert_eq!(courses[0].name, "Algebra");
    assert_eq!(courses[0].teacher, "Dr. X");
    assert_eq!(courses[0].location, "Room 1");
    assert_eq!(courses[0].week_type, WeekType::Full);
    assert_eq!(courses[1].name, "Biology");
    assert_eq!(courses[1].teacher, "Dr. Y");
    assert_eq!(courses[1].location, "Room 2");
    assert_eq!(courses[1].week_type, WeekType::Double);
    assert_eq!((courses[1].start_week, courses[1].end_week), (2, 4));
}

#[test]
fn multiple_weeks_expand_to_one_session_per_week() {
    let t = table(vec![
        header(),
        vec!["", "08:00"],
        vec!["Class B", "Chem\nDr. Z\n2,4,8\nLab", "t"],
    ]);
    let courses = extract_courses(&t).unwrap();
    assert_eq!(courses.len(), 3);
    let weeks: Vec<u32> = courses.iter().map(|c| c.start_week).collect();
    assert_eq!(weeks, vec![2, 4, 8]);
    for c in &courses {
        assert_eq!(c.start_week, c.end_week);
        assert_eq!(c.week_type, WeekType::Full);
        assert_eq!(c.name, "Chem");
        assert_eq!(c.class, "Class B");
    }
}

#[test]
fn cell_reducing_to_the_row_label_is_skipped() {
    let t = table(vec![
        header(),
        vec!["", "08:00"],
        vec!["Class A", "Class A", "t"],
        vec!["Class C", "  ", "t"],
    ]);
    let courses = extract_courses(&t).unwrap();
    assert_eq!(courses.len(), 0);
}

#[test]
fn label_leaking_into_cell_text_is_stripped_before_parsing() {
    let t = table(vec![
        header(),
        vec!["", "08:00"],
        vec!["1A", "1AAlgebra\nDr. X\n3-5\nRoom 1", "t"],
    ]);
    let courses = extract_courses(&t).unwrap();
    assert_eq!(courses.len(), 1);
    assert_eq!(courses[0].name, "Algebra");
    assert_eq!(courses[0].class, "1A");
}

#[test]
fn day_and_period_derive_from_column_position() {
    let mut row: Vec<&str> = vec!["Class A"];
    // columns 1..=6 are slots 0..=5; put the only session at column 7 (slot 6).
    for _ in 0..6 {
        row.push("");
    }
    row.push("Algebra\nDr. X\n1-2\nRoom 9");
    row.push("trailer");
    let t = table(vec![header(), vec!["", "08:00"], row]);
    let courses = extract_courses(&t).unwrap();
    assert_eq!(courses.len(), 1);
    assert_eq!(courses[0].week, 1);
    assert_eq!(courses[0].index, 1);
}

#[test]
fn header_and_time_axis_rows_are_skipped() {
    let t = table(vec![
        vec!["Class X", "garbage\nthat\nwould\nfail", "t"],
        vec!["Class Y", "also\nnot\na\nsession", "t"],
    ]);
    let courses = extract_courses(&t).unwrap();
    assert_eq!(courses.len(), 0);
}

#[test]
fn malformed_week_expression_fails_the_extraction() {
    let t = table(vec![
        header(),
        vec!["", "08:00"],
        vec!["Class A", "Algebra\nDr. X\nnonsense\nRoom 1", "t"],
    ]);
    assert_eq!(extract_courses(&t).unwrap_err(), WeekError::FormatError);
}

#[test]
fn short_trailing_chunk_hits_the_unparseable_sentinel() {
    let t = table(vec![
        header(),
        vec!["", "08:00"],
        vec!["Class A", "OnlyAName", "t"],
    ]);
    assert_eq!(extract_courses(&t).unwrap_err(), WeekError::FormatError);
}

#[test]
fn extraction_is_idempotent_on_the_same_table() {
    let cell = "Algebra\nDr. X\n2,4,8\nRoom 1";
    let t = table(vec![header(), vec!["", "08:00"], vec!["Class A", cell, "t"]]);
    let first = extract_courses(&t).unwrap();
    let second = extract_courses(&t).unwrap();
    let dump = |cs: &Vec<Course>| format!("{:?}", cs.iter().map(describe).collect::<Vec<_>>());
    assert_eq!(dump(&first), dump(&second));
}

fn describe(c: &Course) -> (String, String, String, u32, u32, WeekType, String, usize, usize) {
    (
        c.name.clone(),
        c.class.clone(),
        c.teacher.clone(),
        c.start_week,
        c.end_week,
        c.week_type,
        c.location.clone(),
        c.week,
        c.index,
    )
}

#[test]
fn parses_sessions_out_of_a_timetable_document() {
    let html = "<html><body><table id=\"timetable\">\
        <tr><th>class</th><th>mon</th></tr>\
        <tr><td></td><td>08:00</td></tr>\
        <tr><td>Class A</td><td>Algebra\nDr. X\n3-5\u{5468}\nRoom 1</td><td>t</td></tr>\
        </table></body></html>";
    let courses = parse_classes_course_info(html).unwrap();
    assert_eq!(courses.len(), 1);
    assert_eq!(courses[0].name, "Algebra");
    assert_eq!(courses[0].class, "Class A");
    assert_eq!(courses[0].start_week, 3);
    assert_eq!(courses[0].end_week, 5);
    assert_eq!(courses[0].week_type, WeekType::Full);
    assert_eq!(courses[0].location, "Room 1");
}

#[test]
fn document_without_a_timetable_yields_no_sessions() {
    let courses = parse_classes_course_info("<html><body><p>hello</p></body></html>").unwrap();
    assert_eq!(courses.len(), 0);
}
