use zfs_undelete::config::Config;
use zfs_undelete::dataset::{Dataset, DirListing};
use zfs_undelete::mode::Mode;
use zfs_undelete::path::FsPath;
use zfs_undelete::snapshot::FileInfo;
use zfs_undelete::undelete::Undelete;
use zfs_undelete::Error;

fn listing(names: &[&str]) -> DirListing {
    DirListing::Entries(names.iter().map(|n| Some(n.to_string())).collect())
}

fn three_snapshot_dataset() -> Dataset {
    Dataset::new(FsPath::from_string("/tank"), &listing(&["s1", "s2", "s3"])).unwrap()
}

#[test]
fn newest_containing_prefers_the_newest() {
    let dataset = three_snapshot_dataset();
    let file = FsPath::from_string("dir/file.txt");
    // only the oldest and the newest snapshot contain the file
    let present = vec![true, false, true];
    let hit = dataset.find_newest_snapshot_containing_the_file(&file, &present).unwrap();
    assert_eq!(hit, FsPath::from_string("/tank/.zfs/snapshot/s3/dir/file.txt"));
}

#[test]
fn newest_containing_rejects_absolute_path() {
    let dataset = three_snapshot_dataset();
    let file = FsPath::from_string("/dir/file.txt");
    let present = vec![true, true, true];
    assert_eq!(
        dataset.find_newest_snapshot_containing_the_file(&file, &present).unwrap_err(),
        Error::InvalidArgument
    );
}

#[test]
fn absent_file_fails_both_lookups() {
    let dataset = three_snapshot_dataset();
    let file = FsPath::from_string("dir/file.txt");
    let present = vec![false, false, false];
    assert_eq!(
        dataset.find_newest_snapshot_containing_the_file(&file, &present).unwrap_err(),
        Error::NotFoundInAnySnapshot
    );
    let infos = vec![None, None, None];
    assert_eq!(dataset.get_unique_versions(&file, &infos).unwrap_err(), Error::NotFoundInAnySnapshot);
}

#[test]
fn distinct_versions_keep_oldest_representative_newest_first() {
    let dataset = three_snapshot_dataset();
    let file = FsPath::from_string("dir/file.txt");
    // s1 and s2 share one fingerprint; s3 carries another
    let infos = vec![
        Some(FileInfo { mtime: 1000, size: 100 }),
        Some(FileInfo { mtime: 1000, size: 100 }),
        Some(FileInfo { mtime: 2000, size: 200 }),
    ];
    let versions = dataset.get_unique_versions(&file, &infos).unwrap();
    assert_eq!(versions.len(), 2);
    assert_eq!(*versions[0].path(), FsPath::from_string("/tank/.zfs/snapshot/s3"));
    assert_eq!(*versions[1].path(), FsPath::from_string("/tank/.zfs/snapshot/s1"));
}

#[test]
fn distinct_versions_skip_unreadable_copies() {
    let dataset = three_snapshot_dataset();
    let file = FsPath::from_string("dir/file.txt");
    let infos = vec![
        None,
        Some(FileInfo { mtime: 1000, size: 100 }),
        Some(FileInfo { mtime: 1000, size: 100 }),
    ];
    let versions = dataset.get_unique_versions(&file, &infos).unwrap();
    assert_eq!(versions.len(), 1);
    assert_eq!(*versions[0].path(), FsPath::from_string("/tank/.zfs/snapshot/s2"));
}

#[test]
fn choose_version_validates_the_choice() {
    let dataset = three_snapshot_dataset();
    let file = FsPath::from_string("dir/file.txt");
    let infos = vec![
        Some(FileInfo { mtime: 1000, size: 100 }),
        Some(FileInfo { mtime: 2000, size: 200 }),
        Some(FileInfo { mtime: 3000, size: 300 }),
    ];
    let versions = dataset.get_unique_versions(&file, &infos).unwrap();
    let undelete =
        Undelete::new(three_snapshot_dataset(), file, Config::default(), Mode::MostRecentVersion);
    let chosen = undelete.choose_version(&versions, 1).unwrap();
    assert_eq!(*chosen.path(), *versions[1].path());
    assert_eq!(undelete.choose_version(&versions, 3).unwrap_err(), Error::InvalidArgument);
}

#[test]
fn full_path_in_dataset_is_root_plus_relative() {
    let dataset = three_snapshot_dataset();
    let file = FsPath::from_string("dir/file.txt");
    let undelete = Undelete::new(dataset, file, Config::default(), Mode::MostRecentVersion);
    assert_eq!(undelete.full_path_in_dataset(), FsPath::from_string("/tank/dir/file.txt"));
    assert_eq!(undelete.mode(), Mode::MostRecentVersion);
}
