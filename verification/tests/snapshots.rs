use zfs_undelete::dataset::{Dataset, DirListing};
use zfs_undelete::path::FsPath;
use zfs_undelete::Error;

fn listing(names: &[&str]) -> DirListing {
    DirListing::Entries(names.iter().map(|n| Some(n.to_string())).collect())
}

#[test]
fn snapshots_are_sorted_ascending() {
    let root = FsPath::from_string("/tank");
    let snaps =
        Dataset::get_snapshots(&root, &listing(&["2024-01-01", "2024-02-01", "2023-12-01"]))
            .unwrap();
    assert_eq!(snaps.len(), 3);
    assert_eq!(*snaps[0].path(), FsPath::from_string("/tank/.zfs/snapshot/2023-12-01"));
    assert_eq!(*snaps[1].path(), FsPath::from_string("/tank/.zfs/snapshot/2024-01-01"));
    assert_eq!(*snaps[2].path(), FsPath::from_string("/tank/.zfs/snapshot/2024-02-01"));
}

#[test]
fn unreadable_snapshot_area_is_an_error() {
    let root = FsPath::from_string("/tank");
    assert_eq!(
        Dataset::get_snapshots(&root, &DirListing::Unreadable).unwrap_err(),
        Error::SnapshotAreaUnreadable
    );
}

#[test]
fn partially_readable_snapshot_area_is_an_error() {
    let root = FsPath::from_string("/tank");
    let entries = DirListing::Entries(vec![
        Some("2024-01-01".to_string()),
        None,
        Some("2024-02-01".to_string()),
    ]);
    assert_eq!(
        Dataset::get_snapshots(&root, &entries).unwrap_err(),
        Error::SnapshotEnumerationError
    );
}

#[test]
fn snapshot_join_locates_the_file() {
    let root = FsPath::from_string("/tank");
    let snaps = Dataset::get_snapshots(&root, &listing(&["2024-01-01"])).unwrap();
    let file = FsPath::from_string("dir/file.txt");
    assert_eq!(
        snaps[0].join(&file),
        FsPath::from_string("/tank/.zfs/snapshot/2024-01-01/dir/file.txt")
    );
    assert_eq!(snaps[0].contains_file(&file, true).unwrap(), snaps[0].join(&file));
    assert!(snaps[0].contains_file(&file, false).is_none());
}
