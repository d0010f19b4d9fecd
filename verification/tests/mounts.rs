use zfs_undelete::mounts::{get_mounted_datasets, is_zfs_dataset};
use zfs_undelete::normalize::normalize_path;
use zfs_undelete::path::FsPath;
use zfs_undelete::Error;

#[test]
fn mounted_roots_are_filtered_from_the_query_output() {
    let output = "tank\t/tank\tyes\nvault\t/vault\tno\ntank/home\t/tank/home\tyes\n";
    let roots = get_mounted_datasets(output).unwrap();
    assert_eq!(roots.len(), 2);
    assert_eq!(roots[0], FsPath::from_string("/tank"));
    assert_eq!(roots[1], FsPath::from_string("/tank/home"));
}

#[test]
fn unmounted_dataset_with_dash_mountpoint_is_skipped() {
    let output = "tank\t/tank\tyes\ntank/raw\t-\tno\n";
    let roots = get_mounted_datasets(output).unwrap();
    assert_eq!(roots.len(), 1);
    assert_eq!(roots[0], FsPath::from_string("/tank"));
}

#[test]
fn malformed_query_output_is_rejected() {
    let output = "tank\t/tank\tyes\nbroken line without tabs\n";
    assert_eq!(get_mounted_datasets(output).unwrap_err(), Error::QueryError);
}

#[test]
fn empty_query_output_yields_no_roots() {
    let roots = get_mounted_datasets("").unwrap();
    assert!(roots.is_empty());
}

#[test]
fn membership_in_the_mounted_set() {
    let roots = vec![FsPath::from_string("/tank"), FsPath::from_string("/vault")];
    assert!(is_zfs_dataset(&FsPath::from_string("/tank"), &roots));
    assert!(!is_zfs_dataset(&FsPath::from_string("/tank/home"), &roots));
}

#[test]
fn normalize_resolves_dot_components() {
    // a wrapper handing its argument back unchanged would keep the dots
    let p = normalize_path("/a/./b/../c").unwrap();
    assert_eq!(p, FsPath::from_string("/a/c"));
}

#[test]
fn normalize_keeps_clean_absolute_paths() {
    let p = normalize_path("/a/b/c").unwrap();
    assert_eq!(p, FsPath::from_string("/a/b/c"));
}

#[test]
fn normalize_makes_relative_paths_absolute() {
    let p = normalize_path("some/relative/path").unwrap();
    assert!(p.is_absolute());
}

#[test]
fn normalize_is_idempotent() {
    let p = normalize_path("/a/./b/../c").unwrap();
    let q = normalize_path(&p.to_path_string()).unwrap();
    assert_eq!(p, q);

    let p = normalize_path("some/./relative/../path").unwrap();
    let q = normalize_path(&p.to_path_string()).unwrap();
    assert_eq!(p, q);
}
