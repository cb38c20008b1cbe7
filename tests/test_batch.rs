use genson_rs::batch::{
    document_ranges, get_json_array_elements, is_json_object_array, split_at_delimiter,
    split_at_depth_zero, trim_to_object,
};
use genson_rs::BuildConfig;

#[test]
fn test_trim_whitespace_non_empty() {
    let data = br#"   {"name": "John", "age": 30}   "#.to_vec();
    let trimmed_data = trim_to_object(&data);
    let expected_data = br#"{"name": "John", "age": 30}"#.to_vec();
    assert_eq!(trimmed_data, expected_data);
}

#[test]
fn test_trim_whitespace_empty() {
    let data = br#"   "#.to_vec();
    let trimmed_data = trim_to_object(&data);
    let expected_data = br#""#.to_vec();
    assert_eq!(trimmed_data, expected_data);
}

#[test]
fn test_trim_non_json_array_characters() {
    let data = br#"\n  , [1, 2, 3]   \b\t"#.to_vec();
    let trimmed_data = trim_to_object(&data);
    let expected_data = br#"[1, 2, 3]"#.to_vec();
    assert_eq!(trimmed_data, expected_data);
}

#[test]
fn test_trim_non_json_object_characters() {
    let data = br#"\n  , {"name": "John", "age": 30}   \b\t"#.to_vec();
    let trimmed_data = trim_to_object(&data);
    let expected_data = br#"{"name": "John", "age": 30}"#.to_vec();
    assert_eq!(trimmed_data, expected_data);
}

#[test]
fn test_is_json_object_array() {
    let data = br#"[{"name": "John", "age": 30}]"#.to_vec();
    assert_eq!(is_json_object_array(&data), true);
}

#[test]
fn test_get_json_array_elements_single_elements() {
    let data = br#"[{"name": "John", "age": 30}]"#.to_vec();
    let elements = get_json_array_elements(&data);
    let expected_elements = br#"{"name": "John", "age": 30}"#.to_vec();
    assert_eq!(elements, expected_elements);
}

#[test]
fn test_get_json_array_elements_multiple_elements() {
    let data = br#"[{"name": "John", "age": 30}, {"name": "Joe", "age": 20}]"#.to_vec();
    let elements = get_json_array_elements(&data);
    let expected_elements = br#"{"name": "John", "age": 30}, {"name": "Joe", "age": 20}"#.to_vec();
    assert_eq!(elements, expected_elements);
}

#[test]
fn trim_without_closing_bracket_is_empty() {
    assert!(trim_to_object(b"  {\"a\": 1 ").is_empty());
    assert!(trim_to_object(b"} {").is_empty());
    assert!(trim_to_object(b"").is_empty());
}

#[test]
fn is_json_object_array_needs_both_brackets() {
    assert!(!is_json_object_array(b""));
    assert!(!is_json_object_array(b"["));
    assert!(!is_json_object_array(b"{}"));
    assert!(is_json_object_array(b"[]"));
}

#[test]
fn split_at_delimiter_keeps_every_piece() {
    assert_eq!(split_at_delimiter(b"ab\ncd\n", b'\n'), vec![(0, 2), (3, 5), (6, 6)]);
    assert_eq!(split_at_delimiter(b"", b'\n'), vec![(0, 0)]);
    assert_eq!(split_at_delimiter(b"\n\n", b'\n'), vec![(0, 0), (1, 1), (2, 2)]);
}

#[test]
fn split_at_depth_zero_cuts_after_outer_objects() {
    assert_eq!(split_at_depth_zero(b"{\"a\":{}} {\"b\":1}\n"), vec![(0, 8), (8, 16), (16, 17)]);
    assert_eq!(split_at_depth_zero(b"{}{}"), vec![(0, 2), (2, 4)]);
    assert_eq!(split_at_depth_zero(b""), Vec::<(usize, usize)>::new());
    assert_eq!(split_at_depth_zero(b"}{}"), vec![(0, 3)]);
}

#[test]
fn document_ranges_by_delimiter() {
    let data = b"  {\"a\":1}\n\n {\"a\":2} \n".to_vec();
    let config = BuildConfig { delimiter: Some(b'\n'), ignore_outer_array: false };
    assert_eq!(document_ranges(&data, &config), vec![(2, 9), (12, 19)]);
}

#[test]
fn document_ranges_by_depth() {
    let data = b"{\"a\":{\"b\":1}}{\"a\":2}".to_vec();
    let config = BuildConfig { delimiter: None, ignore_outer_array: false };
    assert_eq!(document_ranges(&data, &config), vec![(0, 13), (13, 20)]);
}

#[test]
fn document_ranges_keep_an_array_whole_or_unwrap_it() {
    let data = b" [{\"a\":1}, {\"a\":2}] ".to_vec();
    let whole = BuildConfig { delimiter: None, ignore_outer_array: false };
    assert_eq!(document_ranges(&data, &whole), vec![(1, 19)]);
    let unwrap = BuildConfig { delimiter: None, ignore_outer_array: true };
    assert_eq!(document_ranges(&data, &unwrap), vec![(2, 9), (11, 18)]);
}

#[test]
fn document_ranges_of_blank_input_is_empty() {
    let config = BuildConfig { delimiter: Some(b'\n'), ignore_outer_array: true };
    assert_eq!(document_ranges(b" \n\t ", &config), Vec::<(usize, usize)>::new());
}
