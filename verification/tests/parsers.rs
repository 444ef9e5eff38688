use utils_rs::parse_dir;
use utils_rs::parse_existing_file;
use utils_rs::parse_name_version;
use utils_rs::ErrorKind;
use utils_rs::ParseError;

#[test]
fn name_version_splits_at_colon() {
    assert_eq!(
        parse_name_version("serde:1.0.0"),
        Ok(("serde".to_string(), "1.0.0".to_string()))
    );
}

#[test]
fn name_version_splits_at_first_colon_only() {
    assert_eq!(
        parse_name_version("a:b:c"),
        Ok(("a".to_string(), "b:c".to_string()))
    );
}

#[test]
fn name_version_keeps_empty_parts() {
    assert_eq!(parse_name_version(":v"), Ok((String::new(), "v".to_string())));
    assert_eq!(parse_name_version("a:"), Ok(("a".to_string(), String::new())));
}

#[test]
fn name_version_without_colon_is_rejected() {
    assert_eq!(parse_name_version("serde-1.0.0"), Err(ParseError::MissingSeparator));
    assert_eq!(parse_name_version(""), Err(ParseError::MissingSeparator));
}

#[test]
fn dir_argument_accepted_when_probe_says_directory() {
    assert_eq!(parse_dir("/tmp", true), Ok("/tmp".to_string()));
}

#[test]
fn dir_argument_rejected_when_probe_says_otherwise() {
    assert_eq!(parse_dir("/no/such/dir", false), Err(ParseError::NotADirectory));
}

#[test]
fn existing_file_accepted_when_present_and_regular() {
    assert_eq!(parse_existing_file("notes.txt", Ok(true), true), Ok("notes.txt".to_string()));
}

#[test]
fn existing_file_rejected_when_not_a_file() {
    assert_eq!(parse_existing_file("somedir", Ok(true), false), Err(ParseError::NotAFile));
}

#[test]
fn existing_file_rejected_when_absent() {
    assert_eq!(parse_existing_file("gone", Ok(false), false), Err(ParseError::NotAFile));
}

#[test]
fn existing_file_probe_error_is_passed_through() {
    assert_eq!(
        parse_existing_file("odd", Err(ErrorKind::PermissionDenied), false),
        Err(ParseError::Io(ErrorKind::PermissionDenied))
    );
}
