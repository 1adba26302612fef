use file_data_splitter::eol::map_eol;
use file_data_splitter::numbers::{parse_usize, validate_usize};
use file_data_splitter::paths::{create_file_name, create_folder_path};

#[test]
fn test_validate_usize() -> Result<(), String> {
    validate_usize("2".to_string()).unwrap();
    validate_usize("0".to_string()).unwrap();
    validate_usize("99".to_string()).unwrap();
    Ok(())
}

#[test]
#[should_panic]
fn test_validate_usize_err1() {
    validate_usize("".to_string()).unwrap();
}

#[test]
#[should_panic]
fn test_validate_usize_err2() {
    validate_usize("-1".to_string()).unwrap();
}

#[test]
#[should_panic]
fn test_validate_usize_err3() {
    validate_usize("A".to_string()).unwrap();
}

#[test]
fn validate_usize_error_message() {
    let e = validate_usize("abc".to_string()).unwrap_err();
    assert_eq!(e, "Value have to be a number, not \"abc\".");
}

#[test]
fn parse_usize_values() {
    assert_eq!(parse_usize("0"), Some(0));
    assert_eq!(parse_usize("42"), Some(42));
    assert_eq!(parse_usize("+7"), Some(7));
    assert_eq!(parse_usize("32768"), Some(32768));
}

#[test]
fn parse_usize_rejects() {
    assert_eq!(parse_usize(""), None);
    assert_eq!(parse_usize("+"), None);
    assert_eq!(parse_usize("-1"), None);
    assert_eq!(parse_usize("1x"), None);
    assert_eq!(parse_usize("99999999999999999999999999999999999999"), None);
}

#[test]
fn map_eol_selectors() {
    assert_eq!(map_eol("LF"), "\n");
    assert_eq!(map_eol("CR+LF"), "\r\n");
    assert_eq!(map_eol("CR"), "\r");
    assert_eq!(map_eol("VT"), "\u{000B}");
    assert_eq!(map_eol("FF"), "\u{000C}");
    assert_eq!(map_eol("NEL"), "\u{0085}");
    assert_eq!(map_eol("LS"), "\u{2028}");
    assert_eq!(map_eol("PS"), "\u{2029}");
}

#[test]
fn map_eol_default() {
    assert_eq!(map_eol(""), "\n");
    assert_eq!(map_eol("CRLF"), "\n");
    assert_eq!(map_eol("lf"), "\n");
}

#[test]
fn folder_and_file_paths() {
    assert_eq!(create_folder_path("file_output", "000"), "file_output/000");
    assert_eq!(create_file_name("file_output/000", "14"), "file_output/000/14.txt");
    assert_eq!(create_folder_path("", ""), "/");
}
