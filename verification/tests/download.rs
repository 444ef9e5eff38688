use utils_rs::archive_file_name;
use utils_rs::crate_download_url;
use utils_rs::crate_file_name;

#[test]
fn download_url_names_the_release() {
    assert_eq!(
        crate_download_url("serde", "1.0.0"),
        "https://static.crates.io/crates/serde/serde-1.0.0.crate"
    );
}

#[test]
fn archive_name_joins_name_and_version() {
    assert_eq!(archive_file_name("serde", "1.0.0"), "serde-1.0.0.tar.gz");
}

#[test]
fn crate_file_name_matches_server_naming() {
    assert_eq!(crate_file_name("regex", "1.13.1"), "regex-1.13.1.crate");
}
