use utils_rs::walk;
use utils_rs::DirListing;
use utils_rs::EntryInfo;
use utils_rs::ErrorKind;
use utils_rs::FsSnapshot;
use utils_rs::ListingOutcome;
use utils_rs::TargetStatus;

fn listed(path: &str, entries: Vec<EntryInfo>) -> DirListing {
    DirListing { path: path.to_string(), outcome: ListingOutcome::Listed(entries) }
}

fn denied(path: &str, cause: ErrorKind) -> DirListing {
    DirListing { path: path.to_string(), outcome: ListingOutcome::Denied(cause) }
}

fn subdir(path: &str) -> EntryInfo {
    EntryInfo::Subdir(path.to_string())
}

fn symlink(path: &str, status: TargetStatus) -> EntryInfo {
    EntryInfo::Symlink(path.to_string(), status)
}

fn other(path: &str) -> EntryInfo {
    EntryInfo::Other(path.to_string())
}

fn sorted(mut v: Vec<String>) -> Vec<String> {
    v.sort();
    v
}

#[test]
fn tree_without_symlinks_is_clean() {
    let snap = FsSnapshot {
        dirs: vec![
            listed("root", vec![subdir("root/a"), other("root/readme")]),
            listed("root/a", vec![other("root/a/data"), subdir("root/a/b")]),
            listed("root/a/b", vec![]),
        ],
    };
    let (reports, errors) = walk(&snap, &"root".to_string());
    assert!(reports.is_empty());
    assert!(errors.is_empty());
}

#[test]
fn live_symlinks_are_never_reported() {
    let snap = FsSnapshot {
        dirs: vec![
            listed("root", vec![symlink("root/ok", TargetStatus::Exists), subdir("root/a")]),
            listed("root/a", vec![symlink("root/a/also_ok", TargetStatus::Exists)]),
        ],
    };
    let (reports, errors) = walk(&snap, &"root".to_string());
    assert!(reports.is_empty());
    assert!(errors.is_empty());
}

#[test]
fn deeply_nested_broken_symlink_is_reported_once() {
    let snap = FsSnapshot {
        dirs: vec![
            listed("root", vec![subdir("root/a")]),
            listed("root/a", vec![subdir("root/a/b")]),
            listed("root/a/b", vec![subdir("root/a/b/c")]),
            listed("root/a/b/c", vec![symlink("root/a/b/c/dead", TargetStatus::Missing)]),
        ],
    };
    let (reports, errors) = walk(&snap, &"root".to_string());
    assert_eq!(reports, vec!["root/a/b/c/dead".to_string()]);
    assert!(errors.is_empty());
}

#[test]
fn unreadable_directory_is_isolated_from_siblings() {
    let snap = FsSnapshot {
        dirs: vec![
            listed("root", vec![subdir("root/bad"), subdir("root/good")]),
            denied("root/bad", ErrorKind::PermissionDenied),
            listed("root/good", vec![symlink("root/good/dead", TargetStatus::Missing)]),
        ],
    };
    let (reports, errors) = walk(&snap, &"root".to_string());
    assert_eq!(reports, vec!["root/good/dead".to_string()]);
    assert_eq!(errors.len(), 1);
    assert_eq!(errors[0].path, "root/bad");
    assert_eq!(errors[0].cause, ErrorKind::PermissionDenied);
}

#[test]
fn walking_twice_reports_the_same_set() {
    let snap = FsSnapshot {
        dirs: vec![
            listed("root", vec![subdir("root/a"), subdir("root/b")]),
            listed("root/a", vec![symlink("root/a/dead", TargetStatus::Missing)]),
            listed("root/b", vec![symlink("root/b/gone", TargetStatus::Missing)]),
        ],
    };
    let (first, _) = walk(&snap, &"root".to_string());
    let (second, _) = walk(&snap, &"root".to_string());
    assert_eq!(sorted(first), sorted(second));
}

#[test]
fn mixed_tree_scenario() {
    let snap = FsSnapshot {
        dirs: vec![
            listed("root", vec![subdir("root/a"), subdir("root/b")]),
            listed(
                "root/a",
                vec![
                    symlink("root/a/valid_link", TargetStatus::Exists),
                    symlink("root/a/dead_link", TargetStatus::Missing),
                    other("root/a/target.txt"),
                ],
            ),
            denied("root/b", ErrorKind::PermissionDenied),
        ],
    };
    let (reports, errors) = walk(&snap, &"root".to_string());
    assert_eq!(reports, vec!["root/a/dead_link".to_string()]);
    assert_eq!(errors.len(), 1);
    assert_eq!(errors[0].path, "root/b");
    assert_eq!(errors[0].cause, ErrorKind::PermissionDenied);
}

#[test]
fn unresolvable_root_gives_one_error_and_no_reports() {
    let snap = FsSnapshot { dirs: vec![] };
    let (reports, errors) = walk(&snap, &"nowhere".to_string());
    assert!(reports.is_empty());
    assert_eq!(errors.len(), 1);
    assert_eq!(errors[0].path, "nowhere");
    assert_eq!(errors[0].cause, ErrorKind::NotFound);
}

#[test]
fn symlink_probe_failure_is_an_error_not_a_report() {
    let snap = FsSnapshot {
        dirs: vec![listed("root", vec![symlink("root/odd", TargetStatus::Failed(ErrorKind::Other))])],
    };
    let (reports, errors) = walk(&snap, &"root".to_string());
    assert!(reports.is_empty());
    assert_eq!(errors.len(), 1);
    assert_eq!(errors[0].path, "root/odd");
    assert_eq!(errors[0].cause, ErrorKind::Other);
}

#[test]
fn directory_cycle_still_terminates_and_reports_once() {
    let snap = FsSnapshot {
        dirs: vec![
            listed("root", vec![subdir("root/a")]),
            listed("root/a", vec![subdir("root"), symlink("root/a/dead", TargetStatus::Missing)]),
        ],
    };
    let (reports, errors) = walk(&snap, &"root".to_string());
    assert_eq!(reports, vec!["root/a/dead".to_string()]);
    assert!(errors.is_empty());
}
