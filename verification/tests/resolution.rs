use zfs_undelete::dataset::{Dataset, DirListing};
use zfs_undelete::path::FsPath;
use zfs_undelete::Error;

fn empty_listing() -> DirListing {
    DirListing::Entries(vec![])
}

#[test]
fn resolve_returns_root_and_relative_path() {
    let mounted = vec![FsPath::from_string("/a")];
    let path = FsPath::from_string("/a/b/c");
    let (dataset, relative) = Dataset::find(&path, &mounted, &empty_listing()).unwrap();
    assert_eq!(*dataset.path(), FsPath::from_string("/a"));
    assert_eq!(relative, FsPath::from_string("b/c"));
    // the resolved root joined with the relative path gives back the path
    assert_eq!(dataset.path().join(&relative), path);
}

#[test]
fn resolve_selects_most_specific_nested_root() {
    let mounted = vec![FsPath::from_string("/a"), FsPath::from_string("/a/b")];
    let path = FsPath::from_string("/a/b/c");
    let (dataset, relative) = Dataset::find(&path, &mounted, &empty_listing()).unwrap();
    assert_eq!(*dataset.path(), FsPath::from_string("/a/b"));
    assert_eq!(relative, FsPath::from_string("c"));

    // same outcome with the roots listed in the other order
    let mounted = vec![FsPath::from_string("/a/b"), FsPath::from_string("/a")];
    let (dataset, _) = Dataset::find(&path, &mounted, &empty_listing()).unwrap();
    assert_eq!(*dataset.path(), FsPath::from_string("/a/b"));
}

#[test]
fn resolve_fails_without_mounted_ancestor() {
    let mounted = vec![FsPath::from_string("/x")];
    let path = FsPath::from_string("/a/b");
    assert_eq!(
        Dataset::find_dataset(&path, &mounted).unwrap_err(),
        Error::NotUnderManagedFilesystem
    );
    assert_eq!(
        Dataset::find(&path, &mounted, &empty_listing()).unwrap_err(),
        Error::NotUnderManagedFilesystem
    );
}

#[test]
fn resolve_is_idempotent() {
    let mounted = vec![FsPath::from_string("/a"), FsPath::from_string("/a/b")];
    let path = FsPath::from_string("/a/b/c");
    let first = Dataset::find(&path, &mounted, &empty_listing()).unwrap();
    let second = Dataset::find(&path, &mounted, &empty_listing()).unwrap();
    assert_eq!(first.0, second.0);
    assert_eq!(first.1, second.1);
}

#[test]
fn resolve_of_root_dataset() {
    let mounted = vec![FsPath::from_string("/")];
    let path = FsPath::from_string("/a/b");
    let (dataset, relative) = Dataset::find(&path, &mounted, &empty_listing()).unwrap();
    assert_eq!(*dataset.path(), FsPath::from_string("/"));
    assert_eq!(relative, FsPath::from_string("a/b"));
}

#[test]
fn relative_path_mismatch_is_rejected() {
    let dataset = Dataset::new(FsPath::from_string("/a/b"), &empty_listing()).unwrap();
    let other = FsPath::from_string("/a/x/c");
    assert_eq!(dataset.get_relative_path(&other).unwrap_err(), Error::PathNotRelated);
}
