use zfs_undelete::dataset::{Dataset, DirListing};
use zfs_undelete::path::FsPath;

#[test]
fn zfs_make_path_relative() {
    let all = FsPath::from_string("/a/b/c");
    let dataset = Dataset::new(FsPath::from_string("/a"), &DirListing::Entries(vec![])).unwrap();
    let result = FsPath::from_string("b/c");
    assert_eq!(dataset.get_relative_path(&all).unwrap(), result);

    let all = FsPath::from_string("/a/b/c");
    let dataset = Dataset::new(FsPath::from_string("/"), &DirListing::Entries(vec![])).unwrap();
    let result = FsPath::from_string("a/b/c");
    assert_eq!(dataset.get_relative_path(&all).unwrap(), result);

    let all = FsPath::from_string("/a/b/c");
    let dataset = Dataset::new(FsPath::from_string("/a/b"), &DirListing::Entries(vec![])).unwrap();
    let result = FsPath::from_string("c");
    assert_eq!(dataset.get_relative_path(&all).unwrap(), result);
}

#[test]
fn dataset_make_path_relative() {
    let all = FsPath::from_string("/a/b/c");
    let dataset = Dataset::new(FsPath::from_string("/a"), &DirListing::Entries(vec![])).unwrap();
    let result = FsPath::from_string("b/c");
    assert_eq!(dataset.get_relative_path(&all).unwrap(), result);

    let all = FsPath::from_string("/a/b/c");
    let dataset = Dataset::new(FsPath::from_string("/"), &DirListing::Entries(vec![])).unwrap();
    let result = FsPath::from_string("a/b/c");
    assert_eq!(dataset.get_relative_path(&all).unwrap(), result);

    let all = FsPath::from_string("/a/b/c");
    let dataset = Dataset::new(FsPath::from_string("/a/b"), &DirListing::Entries(vec![])).unwrap();
    let result = FsPath::from_string("c");
    assert_eq!(dataset.get_relative_path(&all).unwrap(), result);
}
