use utils_rs::Args;
use utils_rs::EntryInfo;
use utils_rs::ErrorKind;
use utils_rs::ListingOutcome;
use utils_rs::Opts;
use utils_rs::TargetStatus;
use utils_rs::Walker;

#[test]
fn opts_take_verbosity_from_args() {
    let args = Args { root: Some("/tmp".to_string()), verbose: true };
    assert!(Opts::new(&args).verbose);
    let args = Args { root: None, verbose: false };
    assert!(!Opts::new(&args).verbose);
}

#[test]
fn new_walker_starts_at_the_root() {
    let mut w = Walker::new("root".to_string());
    assert!(!w.done());
    assert_eq!(w.next_dir(), Some("root".to_string()));
    assert!(w.done());
    assert_eq!(w.next_dir(), None);
    assert!(w.reports.is_empty());
    assert!(w.errors.is_empty());
}

#[test]
fn listing_classifies_every_entry_kind() {
    let mut w = Walker::new("root".to_string());
    let d = w.next_dir().unwrap();
    let entries = vec![
        EntryInfo::Subdir("root/a".to_string()),
        EntryInfo::Symlink("root/ok".to_string(), TargetStatus::Exists),
        EntryInfo::Symlink("root/dead".to_string(), TargetStatus::Missing),
        EntryInfo::Symlink("root/odd".to_string(), TargetStatus::Failed(ErrorKind::Other)),
        EntryInfo::Other("root/file.txt".to_string()),
        EntryInfo::Unreadable("root/locked".to_string(), ErrorKind::PermissionDenied),
    ];
    w.on_listing(&d, &ListingOutcome::Listed(entries));
    assert_eq!(w.pending, vec!["root/a".to_string()]);
    assert_eq!(w.reports, vec!["root/dead".to_string()]);
    assert_eq!(w.errors.len(), 2);
    assert_eq!(w.errors[0].path, "root/odd");
    assert_eq!(w.errors[0].cause, ErrorKind::Other);
    assert_eq!(w.errors[1].path, "root/locked");
    assert_eq!(w.errors[1].cause, ErrorKind::PermissionDenied);
}

#[test]
fn failed_listing_is_one_error_for_the_directory() {
    let mut w = Walker::new("root".to_string());
    let d = w.next_dir().unwrap();
    w.on_listing(&d, &ListingOutcome::Denied(ErrorKind::PermissionDenied));
    assert!(w.pending.is_empty());
    assert!(w.reports.is_empty());
    assert_eq!(w.errors.len(), 1);
    assert_eq!(w.errors[0].path, "root");
    assert_eq!(w.errors[0].cause, ErrorKind::PermissionDenied);
}
