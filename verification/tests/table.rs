use geotable::error::ParseError;
use geotable::table::{get_columns, get_features, parse_table, Column, Feature, Table};

const SAMPLE: &str = "lng;lat;name;count\n1.0;2.0;alpha;5\n3.0;-1.0;beta;10\n";

fn column(title: &str, numeric: bool) -> Column {
    Column { title: title.to_string(), numeric }
}

fn feature(longitude: &str, latitude: &str, attributes: &[&str]) -> Feature {
    Feature {
        longitude: longitude.to_string(),
        latitude: latitude.to_string(),
        attributes: attributes.iter().map(|value| value.to_string()).collect(),
    }
}

#[test]
fn sample_columns() {
    let columns = get_columns(&SAMPLE.to_string()).unwrap();
    assert_eq!(columns, vec![column("name", false), column("count", true)]);
}

#[test]
fn sample_features() {
    let features = get_features(&SAMPLE.to_string()).unwrap();
    assert_eq!(
        features,
        vec![feature("1.0", "2.0", &["alpha", "5"]), feature("3.0", "-1.0", &["beta", "10"])]
    );
}

#[test]
fn sample_coordinates_are_numbers() {
    let features = get_features(&SAMPLE.to_string()).unwrap();
    let points: Vec<(f32, f32)> = features
        .iter()
        .map(|f| (f.longitude.parse::<f32>().unwrap(), f.latitude.parse::<f32>().unwrap()))
        .collect();
    assert_eq!(points, vec![(1.0, 2.0), (3.0, -1.0)]);
}

#[test]
fn sample_table() {
    let table = parse_table(SAMPLE).unwrap();
    assert_eq!(table.columns(), &vec![column("name", false), column("count", true)]);
    assert_eq!(table.rows().len(), 2);
    assert_eq!(table.rows()[1], feature("3.0", "-1.0", &["beta", "10"]));
}

#[test]
fn columns_follow_the_header() {
    let text = "x;y;a;b;c;d\n0;0;1;2;3;4\n".to_string();
    let header = ["x", "y", "a", "b", "c", "d"];
    let columns = get_columns(&text).unwrap();
    assert_eq!(columns.len(), header.len() - 2);
    for (i, column) in columns.iter().enumerate() {
        assert_eq!(column.title, header[i + 2]);
    }
}

#[test]
fn header_of_two_fields_has_no_columns() {
    assert_eq!(get_columns(&"lng;lat\n1;2\n".to_string()), Ok(vec![]));
    let table = parse_table("lng;lat\n1;2\n3;4\n").unwrap();
    assert_eq!(table.columns().len(), 0);
    assert_eq!(table.rows(), &vec![feature("1", "2", &[]), feature("3", "4", &[])]);
}

#[test]
fn short_header_has_no_columns() {
    assert_eq!(get_columns(&"lng\n1\n".to_string()), Ok(vec![]));
    assert_eq!(get_columns(&"\n\n".to_string()), Ok(vec![]));
}

#[test]
fn columns_of_a_text_without_lines_are_an_error() {
    assert_eq!(get_columns(&"".to_string()), Err(ParseError::TooFewLines));
}

#[test]
fn columns_of_a_header_alone_are_an_error() {
    assert_eq!(get_columns(&"lng;lat;name".to_string()), Err(ParseError::TooFewLines));
    assert_eq!(get_columns(&"x;y;a;b\n".to_string()), Err(ParseError::TooFewLines));
    assert_eq!(get_columns(&"\n".to_string()), Err(ParseError::TooFewLines));
}

#[test]
fn columns_of_a_row_that_is_too_long_are_an_error() {
    assert_eq!(
        get_columns(&"lng;lat;name\n1.0;2.0;alpha;5".to_string()),
        Err(ParseError::FieldCount { line: 1 })
    );
}

#[test]
fn columns_of_a_row_that_is_too_short_are_an_error() {
    assert_eq!(
        get_columns(&"lng;lat;name;count\n1.0;2.0;alpha;5\n3.0;-1.0;beta".to_string()),
        Err(ParseError::FieldCount { line: 2 })
    );
    assert_eq!(
        get_columns(&"x;y;a;b\n0;0;1;2\n0;0;3\n".to_string()),
        Err(ParseError::FieldCount { line: 2 })
    );
}

#[test]
fn first_line_of_another_width_decides_the_error_of_the_columns() {
    assert_eq!(
        get_columns(&"x;y;a\n0;0;1\n0;0\n0;0;1;2\n".to_string()),
        Err(ParseError::FieldCount { line: 2 })
    );
}

#[test]
fn columns_do_not_read_the_coordinates() {
    assert_eq!(
        get_columns(&"lng;lat;name\nwest;north;alpha\n".to_string()),
        Ok(vec![column("name", false)])
    );
    assert_eq!(
        parse_table("lng;lat;name\nwest;north;alpha\n").unwrap_err(),
        ParseError::Coordinate { line: 1 }
    );
}

#[test]
fn one_value_that_is_no_number_makes_a_column_text() {
    let text = "x;y;a;b\n0;0;1;1\n0;0;2;two\n0;0;3;3\n".to_string();
    assert_eq!(get_columns(&text), Ok(vec![column("a", true), column("b", false)]));
}

#[test]
fn numeric_inference_is_per_column() {
    let text = "x;y;a;b;c\n0;0;x;1;-1\n0;0;2;2;2\n".to_string();
    assert_eq!(
        get_columns(&text),
        Ok(vec![column("a", false), column("b", true), column("c", false)])
    );
}

#[test]
fn negative_and_fractional_values_are_text() {
    let text = "x;y;a;b;c;d\n0;0;-5;1.5;+7;4294967296\n".to_string();
    assert_eq!(
        get_columns(&text),
        Ok(vec![column("a", false), column("b", false), column("c", true), column("d", false)])
    );
}

#[test]
fn empty_value_is_no_number() {
    let text = "x;y;a\n0;0;1\n0;0;\n".to_string();
    assert_eq!(get_columns(&text), Ok(vec![column("a", false)]));
}

#[test]
fn columns_agree_with_the_table() {
    for text in [SAMPLE, "x;y;a;b\n0;0;1;1\n0;0;2;two\n", "lng;lat\n1;2\n"] {
        assert_eq!(
            &get_columns(&text.to_string()).unwrap(),
            parse_table(text).unwrap().columns()
        );
    }
}

#[test]
fn text_without_rows_is_no_table() {
    assert_eq!(parse_table("").unwrap_err(), ParseError::TooFewLines);
    assert_eq!(parse_table("lng;lat;name").unwrap_err(), ParseError::TooFewLines);
    assert_eq!(parse_table("lng;lat;name\n").unwrap_err(), ParseError::TooFewLines);
    assert_eq!(get_features(&"lng;lat\r\n".to_string()).unwrap_err(), ParseError::TooFewLines);
}

#[test]
fn row_with_too_few_fields_is_an_error() {
    let text = "lng;lat;name;count\n1.0;2.0;alpha;5\n3.0;-1.0;beta\n";
    assert_eq!(parse_table(text).unwrap_err(), ParseError::FieldCount { line: 2 });
}

#[test]
fn row_with_too_many_fields_is_an_error() {
    let text = "lng;lat;name\n1.0;2.0;alpha;5\n";
    assert_eq!(parse_table(text).unwrap_err(), ParseError::FieldCount { line: 1 });
}

#[test]
fn blank_line_is_an_error() {
    let text = "lng;lat;name\n1.0;2.0;alpha\n\n3.0;4.0;beta\n";
    assert_eq!(parse_table(text).unwrap_err(), ParseError::FieldCount { line: 2 });
}

#[test]
fn coordinate_that_is_no_number_is_an_error() {
    assert_eq!(
        parse_table("lng;lat;name\n1.0;north;alpha\n").unwrap_err(),
        ParseError::Coordinate { line: 1 }
    );
    assert_eq!(
        parse_table("lng;lat;name\n1.0;2.0;alpha\n;2.0;beta\n").unwrap_err(),
        ParseError::Coordinate { line: 2 }
    );
    assert_eq!(
        parse_table("lng;lat\n1.0; 2.0\n").unwrap_err(),
        ParseError::Coordinate { line: 1 }
    );
}

#[test]
fn header_without_coordinates_is_an_error() {
    assert_eq!(parse_table("lng\n1.0\n").unwrap_err(), ParseError::Coordinate { line: 1 });
}

#[test]
fn first_faulty_line_decides_the_error() {
    let text = "lng;lat;name\n1;2;a\nx;2;b\n3;4\n";
    assert_eq!(parse_table(text).unwrap_err(), ParseError::Coordinate { line: 2 });
    let text = "lng;lat;name\n1;2;a\n3;4\nx;2;b\n";
    assert_eq!(parse_table(text).unwrap_err(), ParseError::FieldCount { line: 2 });
}

#[test]
fn field_count_is_checked_before_the_coordinate() {
    assert_eq!(
        parse_table("lng;lat;name\nx;y\n").unwrap_err(),
        ParseError::FieldCount { line: 1 }
    );
}

#[test]
fn header_coordinates_are_not_read() {
    let table = parse_table("east;north;name\n1;2;a\n").unwrap();
    assert_eq!(table.columns(), &vec![column("name", false)]);
}

#[test]
fn parsing_twice_gives_the_same_table() {
    assert_eq!(parse_table(SAMPLE), parse_table(SAMPLE));
}

#[test]
fn windows_line_endings_are_read() {
    let table = parse_table("lng;lat;count\r\n1;2;5\r\n3;4;6\r\n").unwrap();
    assert_eq!(table.columns(), &vec![column("count", true)]);
    assert_eq!(table.rows()[1], feature("3", "4", &["6"]));
}

#[test]
fn new_table_takes_rows_that_fit() {
    let table = Table::new(
        vec![column("name", false)],
        vec![feature("1", "2", &["a"]), feature("-3.5", "1e2", &["b"])],
    )
    .unwrap();
    assert_eq!(table.rows().len(), 2);
    assert_eq!(table.columns().len(), 1);
}

#[test]
fn new_table_refuses_rows_that_do_not_fit() {
    assert_eq!(Table::new(vec![column("name", false)], vec![feature("1", "2", &[])]), None);
    assert_eq!(Table::new(vec![], vec![feature("1", "2", &["a"])]), None);
    assert_eq!(Table::new(vec![column("name", false)], vec![feature("1", "up", &["a"])]), None);
    assert_eq!(Table::new(vec![column("name", false)], vec![feature("", "2", &["a"])]), None);
}

#[test]
fn clone_of_a_table_is_equal() {
    let table = parse_table(SAMPLE).unwrap();
    assert_eq!(table.clone(), table);
}

#[test]
fn parse_error_messages() {
    assert_eq!(ParseError::TooFewLines.message(), "file must contain at least a header line");
    assert_eq!(
        ParseError::FieldCount { line: 3 }.message(),
        "row and header differ in their number of fields"
    );
    assert_eq!(ParseError::Coordinate { line: 3 }.message(), "coordinate is not a number");
}
