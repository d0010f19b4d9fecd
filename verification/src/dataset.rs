//! The dataset: a mounted storage container together with its chronologically
//! ordered snapshots, and the resolution of an absolute path to the dataset
//! that owns it.

use vstd::prelude::*;

use crate::error::Error;
use crate::path::{is_abs, parse_path, FsPath};
use crate::snapshot::{FileInfo, Snapshot};
use crate::strutil::{lemma_lex_le_total, lemma_lex_le_transitive, lex_le, str_le};

verus! {

/// What listing the snapshot storage directory produced: nothing at all, or
/// one result per directory entry, where `None` stands for an entry whose
/// name could not be read.
#[derive(Debug)]
pub enum DirListing {
    Unreadable,
    Entries(Vec<Option<String>>),
}

/// The dataset-relative location of the snapshot storage directory.
pub open spec fn snapshot_area() -> Seq<Seq<char>> {
    parse_path(".zfs/snapshot"@)
}

/// The snapshot storage directory of the dataset rooted at `root`.
pub open spec fn snapshot_dir(root: Seq<Seq<char>>) -> Seq<Seq<char>> {
    root + snapshot_area()
}

/// Whether every directory entry was read successfully.
pub open spec fn all_entries_ok(entries: Seq<Option<Seq<char>>>) -> bool {
    forall|i: int| 0 <= i < entries.len() ==> entries[i] is Some
}

/// The names the directory entries carry.
pub open spec fn entry_names(entries: Seq<Option<Seq<char>>>) -> Seq<Seq<char>> {
    entries.map_values(
        |e: Option<Seq<char>>|
            match e {
                Some(n) => n,
                None => Seq::<char>::empty(),
            },
    )
}

/// The names of a sequence of snapshots: the last component of each path.
pub open spec fn names_of(snaps: Seq<Seq<Seq<char>>>) -> Seq<Seq<char>> {
    snaps.map_values(|p: Seq<Seq<char>>| p.last())
}

/// The least number of components a dataset root for this path could have:
/// the ancestor walk of an absolute path stops at the root directory, that
/// of a relative path at the empty path.
pub open spec fn lower_bound(path: Seq<Seq<char>>) -> int {
    if is_abs(path) {
        1int
    } else {
        0int
    }
}

/// The length of the longest prefix of `path`, between `kmin` and `k`
/// components, that is one of `roots`: the ancestor walk from the innermost
/// ancestor outwards.
pub open spec fn find_root_from(
    path: Seq<Seq<char>>,
    roots: Seq<Seq<Seq<char>>>,
    k: int,
    kmin: int,
) -> Option<int>
    decreases k - kmin + 1,
{
    if k < kmin {
        None
    } else if roots.contains(path.take(k)) {
        Some(k)
    } else {
        find_root_from(path, roots, k - 1, kmin)
    }
}

/// The length of the longest prefix of `path` that is a mounted root, i.e.
/// the most specific dataset owning the path.
pub open spec fn find_root(path: Seq<Seq<char>>, roots: Seq<Seq<Seq<char>>>) -> Option<int> {
    find_root_from(path, roots, path.len() as int, lower_bound(path))
}

/// What [`find_root_from`] returns: the longest prefix in range that is a
/// root, or nothing when no prefix in range is one.
pub proof fn lemma_find_root_from(
    path: Seq<Seq<char>>,
    roots: Seq<Seq<Seq<char>>>,
    k: int,
    kmin: int,
)
    ensures
        match find_root_from(path, roots, k, kmin) {
            Some(j) => kmin <= j <= k && roots.contains(path.take(j)) && forall|k2: int|
                j < k2 <= k ==> !(#[trigger] roots.contains(path.take(k2))),
            None => forall|k2: int|
                kmin <= k2 <= k ==> !(#[trigger] roots.contains(path.take(k2))),
        },
    decreases k - kmin + 1,
{
    if k >= kmin && !roots.contains(path.take(k)) {
        lemma_find_root_from(path, roots, k - 1, kmin);
    }
}

/// The index of the newest snapshot reported as containing the file: the
/// last `true` in `present`.
pub open spec fn newest_hit(present: Seq<bool>) -> Option<int>
    decreases present.len(),
{
    if present.len() == 0 {
        None
    } else if present.last() {
        Some(present.len() - 1)
    } else {
        newest_hit(present.drop_last())
    }
}

/// What [`newest_hit`] returns: the last index that holds `true`, or
/// nothing when none does.
pub proof fn lemma_newest_hit(present: Seq<bool>)
    ensures
        match newest_hit(present) {
            Some(i) => 0 <= i < present.len() && present[i] && forall|j: int|
                i < j < present.len() ==> !present[j],
            None => forall|j: int| 0 <= j < present.len() ==> !present[j],
        },
    decreases present.len(),
{
    if present.len() > 0 && !present.last() {
        lemma_newest_hit(present.drop_last());
        assert(forall|j: int| 0 <= j < present.len() - 1 ==> present.drop_last()[j] == present[j]);
    }
}

/// Whether snapshot `i` is kept by the version deduplication: its copy of
/// the file is readable, and no older snapshot carries the same
/// fingerprint. The oldest snapshot of each distinct fingerprint is the
/// representative kept.
pub open spec fn keeps(infos: Seq<Option<FileInfo>>, i: int) -> bool {
    infos[i] is Some && forall|j: int| 0 <= j < i ==> infos[j] != infos[i]
}

/// The kept snapshots, oldest first: the views of the representatives of
/// the distinct fingerprints, in ascending scan order.
pub open spec fn kept_versions(
    snaps: Seq<Seq<Seq<char>>>,
    infos: Seq<Option<FileInfo>>,
) -> Seq<Seq<Seq<char>>>
    decreases infos.len(),
{
    if infos.len() == 0 {
        Seq::empty()
    } else {
        let prev = kept_versions(snaps, infos.drop_last());
        if keeps(infos, infos.len() - 1) {
            prev.push(snaps[infos.len() - 1])
        } else {
            prev
        }
    }
}

/// Whether `v` holds the fingerprint `fp`.
fn contains_fp(v: &Vec<FileInfo>, fp: &FileInfo) -> (r: bool)
    ensures
        r == v@.contains(*fp),
{
    let mut i: usize = 0;
    while i < v.len()
        invariant
            0 <= i <= v.len(),
            forall|k: int| 0 <= k < i ==> v@[k] != *fp,
        decreases v.len() - i,
    {
        if v[i] == *fp {
            return true;
        }
        i = i + 1;
    }
    false
}

/// What resolution returns for a path against a set of mounted roots: the
/// most specific mounted root that is an ancestor of the path, and the path
/// relative to it.
pub open spec fn spec_resolve(path: Seq<Seq<char>>, roots: Seq<Seq<Seq<char>>>) -> Option<
    (Seq<Seq<char>>, Seq<Seq<char>>),
> {
    match find_root(path, roots) {
        Some(k) => Some((path.take(k), path.skip(k))),
        None => None,
    }
}

/// A mounted dataset and its snapshots, ordered oldest first.
#[derive(Debug)]
pub struct Dataset {
    path: FsPath,
    snapshots: Vec<Snapshot>,
}

/// Sorts names into ascending lexicographic order, keeping exactly the same
/// collection of names.
fn sort_names(names: Vec<String>) -> (r: Vec<String>)
    ensures
        r@.len() == names@.len(),
        r.deep_view().to_multiset() == names.deep_view().to_multiset(),
        forall|i: int, j: int|
            0 <= i < j < r.deep_view().len() ==> lex_le(r.deep_view()[i], r.deep_view()[j]),
{
    broadcast use vstd::seq_lib::group_to_multiset_ensures;

    let mut out: Vec<String> = Vec::new();
    let mut idx: usize = 0;
    proof {
        assert(out.deep_view() =~= names.deep_view().take(0));
    }
    while idx < names.len()
        invariant
            0 <= idx <= names.len(),
            out@.len() == idx,
            out.deep_view().to_multiset() == names.deep_view().take(idx as int).to_multiset(),
            forall|i: int, j: int|
                0 <= i < j < out.deep_view().len() ==> lex_le(
                    out.deep_view()[i],
                    out.deep_view()[j],
                ),
        decreases names.len() - idx,
    {
        broadcast use vstd::seq_lib::group_to_multiset_ensures;

        let x = names[idx].clone();
        proof {
            assert(x@ == names.deep_view()[idx as int]);
        }
        let mut pos: usize = 0;
        while pos < out.len() && str_le(out[pos].as_str(), x.as_str())
            invariant
                0 <= pos <= out.len(),
                forall|k: int| 0 <= k < pos ==> lex_le(out.deep_view()[k], x@),
            decreases out.len() - pos,
        {
            proof {
                assert(out.deep_view()[pos as int] == out@[pos as int]@);
            }
            pos = pos + 1;
        }
        let ghost old_dv = out.deep_view();
        let ghost xv = x@;
        proof {
            if pos < out.len() {
                assert(out.deep_view()[pos as int] == out@[pos as int]@);
                assert(!lex_le(old_dv[pos as int], xv));
                lemma_lex_le_total(old_dv[pos as int], xv);
            }
        }
        out.insert(pos, x);
        proof {
            assert(out.deep_view() =~= old_dv.insert(pos as int, xv));
            let new_dv = out.deep_view();
            assert forall|i: int, j: int| 0 <= i < j < new_dv.len() implies lex_le(
                new_dv[i],
                new_dv[j],
            ) by {
                if i < pos && j == pos {
                } else if i == pos && j > pos {
                    if pos < old_dv.len() {
                        if j - 1 > pos {
                            lemma_lex_le_transitive(xv, old_dv[pos as int], old_dv[j - 1]);
                        }
                    }
                } else if i < pos && j > pos {
                } else {
                }
            }
            assert(names.deep_view().take(idx + 1) =~= names.deep_view().take(idx as int).push(
                names.deep_view()[idx as int],
            ));
            assert(old_dv.insert(pos as int, xv).to_multiset() =~= old_dv.to_multiset().insert(
                xv,
            ));
        }
        idx = idx + 1;
    }
    proof {
        assert(names.deep_view().take(names@.len() as int) =~= names.deep_view());
    }
    out
}

impl PartialEq for Dataset {
    fn eq(&self, other: &Self) -> (r: bool) {
        if !(self.path == other.path) {
            return false;
        }
        if self.snapshots.len() != other.snapshots.len() {
            return false;
        }
        let mut i: usize = 0;
        while i < self.snapshots.len()
            invariant
                0 <= i <= self.snapshots@.len(),
                self.snapshots@.len() == other.snapshots@.len(),
                self.path@ =~= other.path@,
                forall|k: int|
                    0 <= k < i ==> self.snapshots.deep_view()[k] == other.snapshots.deep_view()[k],
            decreases self.snapshots@.len() - i,
        {
            if !(self.snapshots[i] == other.snapshots[i]) {
                proof {
                    assert(self.snapshots.deep_view()[i as int] == self.snapshots@[i as int]@);
                    assert(other.snapshots.deep_view()[i as int] == other.snapshots@[i as int]@);
                    assert(self.snapshot_views()[i as int] == self.snapshots@[i as int]@);
                    assert(other.snapshot_views()[i as int] == other.snapshots@[i as int]@);
                    assert(!(self.snapshot_views() =~= other.snapshot_views()));
                }
                return false;
            }
            proof {
                assert(self.snapshots.deep_view()[i as int] == self.snapshots@[i as int]@);
                assert(other.snapshots.deep_view()[i as int] == other.snapshots@[i as int]@);
            }
            i = i + 1;
        }
        proof {
            assert forall|k: int|
                0 <= k < self.snapshots@.len() implies self.snapshot_views()[k]
                == other.snapshot_views()[k] by {
                assert(self.snapshot_views()[k] == self.snapshots@[k].deep_view());
                assert(self.snapshots.deep_view()[k] == self.snapshots@[k].deep_view());
                assert(other.snapshot_views()[k] == other.snapshots@[k].deep_view());
                assert(other.snapshots.deep_view()[k] == other.snapshots@[k].deep_view());
            }
            assert(self.snapshot_views() =~= other.snapshot_views());
        }
        true
    }
}

impl vstd::std_specs::cmp::PartialEqSpecImpl for Dataset {
    open spec fn obeys_eq_spec() -> bool {
        true
    }

    open spec fn eq_spec(&self, other: &Self) -> bool {
        self.spec_path() =~= other.spec_path() && self.snapshot_views() =~= other.snapshot_views()
    }
}

impl Dataset {
    /// The components of the dataset's mount root.
    pub closed spec fn spec_path(&self) -> Seq<Seq<char>> {
        self.path@
    }

    /// The snapshots, oldest first.
    pub closed spec fn spec_snapshots(&self) -> Seq<Snapshot> {
        self.snapshots@
    }

    /// The views of the snapshot paths, oldest first.
    pub open spec fn snapshot_views(&self) -> Seq<Seq<Seq<char>>> {
        self.spec_snapshots().map_values(|s: Snapshot| s.deep_view())
    }

    /// The dataset's mount root.
    pub fn path(&self) -> (r: &FsPath)
        ensures
            r@ == self.spec_path(),
    {
        &self.path
    }

    /// All snapshots of the dataset, in ascending (oldest-first) order.
    pub fn snapshots(&self) -> (r: &Vec<Snapshot>)
        ensures
            r@ == self.spec_snapshots(),
    {
        &self.snapshots
    }

    /// Turns the listing of a dataset's snapshot storage directory into its
    /// snapshots, sorted by name in ascending lexicographic order; the names
    /// are assumed to sort in creation order, so the last snapshot is the
    /// newest.
    ///
    /// An unreadable directory, or any unreadable entry in it, rejects the
    /// enumeration as a whole: silently dropping a snapshot could later
    /// produce a wrong "newest version" answer.
    pub fn get_snapshots(root: &FsPath, listing: &DirListing) -> (r: Result<Vec<Snapshot>, Error>)
        ensures
            match listing {
                DirListing::Unreadable => r == Err::<Vec<Snapshot>, Error>(
                    Error::SnapshotAreaUnreadable,
                ),
                DirListing::Entries(entries) => {
                    if all_entries_ok(entries.deep_view()) {
                        match r {
                            Ok(v) => v@.len() == entries@.len() && (forall|i: int|
                                0 <= i < v@.len() ==> #[trigger] v.deep_view()[i] == snapshot_dir(
                                    root@,
                                ).push(v.deep_view()[i].last())) && names_of(
                                v.deep_view(),
                            ).to_multiset() == entry_names(entries.deep_view()).to_multiset() && (
                            forall|i: int, j: int|
                                0 <= i < j < v@.len() ==> lex_le(
                                    v.deep_view()[i].last(),
                                    v.deep_view()[j].last(),
                                )),
                            Err(_) => false,
                        }
                    } else {
                        r == Err::<Vec<Snapshot>, Error>(Error::SnapshotEnumerationError)
                    }
                },
            },
    {
        match listing {
            DirListing::Unreadable => Err(Error::SnapshotAreaUnreadable),
            DirListing::Entries(entries) => Self::snapshots_from_entries(root, entries),
        }
    }

    /// The successfully listed entries turned into sorted snapshots; any
    /// unreadable entry rejects the enumeration.
    fn snapshots_from_entries(root: &FsPath, entries: &Vec<Option<String>>) -> (r: Result<
        Vec<Snapshot>,
        Error,
    >)
        ensures
            ({
                if all_entries_ok(entries.deep_view()) {
                    match r {
                        Ok(v) => v@.len() == entries@.len() && (forall|i: int|
                            0 <= i < v@.len() ==> #[trigger] v.deep_view()[i] == snapshot_dir(
                                root@,
                            ).push(v.deep_view()[i].last())) && names_of(
                            v.deep_view(),
                        ).to_multiset() == entry_names(entries.deep_view()).to_multiset() && (
                        forall|i: int, j: int|
                            0 <= i < j < v@.len() ==> lex_le(
                                v.deep_view()[i].last(),
                                v.deep_view()[j].last(),
                            )),
                        Err(_) => false,
                    }
                } else {
                    r == Err::<Vec<Snapshot>, Error>(Error::SnapshotEnumerationError)
                }
            }),
    {
        let ghost en = entries.deep_view();
        let mut names: Vec<String> = Vec::new();
        let mut i: usize = 0;
        proof {
            assert(names.deep_view() =~= entry_names(en.take(0)));
        }
        while i < entries.len()
            invariant
                0 <= i <= entries.len(),
                en == entries.deep_view(),
                names@.len() == i,
                forall|k: int| 0 <= k < i ==> en[k] is Some,
                names.deep_view() =~= entry_names(en.take(i as int)),
            decreases entries.len() - i,
        {
            let ghost dv = names.deep_view();
            match &entries[i] {
                Some(name) => {
                    names.push(name.clone());
                    proof {
                        assert(en[i as int] == entries@[i as int].deep_view());
                        assert(names.deep_view() =~= dv.push(name@));
                        assert(entry_names(en.take(i + 1)) =~= entry_names(en.take(i as int)).push(
                            name@,
                        ));
                    }
                },
                None => {
                    proof {
                        assert(en[i as int] == entries@[i as int].deep_view());
                        assert(!(en[i as int] is Some));
                    }
                    return Err(Error::SnapshotEnumerationError);
                },
            }
            i = i + 1;
        }
        proof {
            assert(en.take(en.len() as int) =~= en);
        }
        let sorted = sort_names(names);
        let area = FsPath::from_string(".zfs/snapshot");
        proof {
            reveal_strlit(".zfs/snapshot");
            assert(".zfs/snapshot"@[0] == '.');
            crate::strutil::lemma_runs_wf(".zfs/snapshot"@, crate::strutil::char_sep('/'));
            if is_abs(area@) {
                assert(area@[0] == crate::path::root_marker());
                assert(area@[0][0] == '/');
            }
            assert(!is_abs(area@));
        }
        let dir = root.join(&area);
        proof {
            assert(dir@ == snapshot_dir(root@));
        }
        let mut snaps: Vec<Snapshot> = Vec::new();
        let mut k: usize = 0;
        while k < sorted.len()
            invariant
                0 <= k <= sorted.len(),
                snaps@.len() == k,
                dir@ == snapshot_dir(root@),
                forall|i: int|
                    0 <= i < k ==> #[trigger] snaps.deep_view()[i] == snapshot_dir(root@).push(
                        sorted.deep_view()[i],
                    ),
            decreases sorted.len() - k,
        {
            let p = dir.child(&sorted[k]);
            proof {
                assert(sorted.deep_view()[k as int] == sorted@[k as int]@);
            }
            let ghost dv = snaps.deep_view();
            snaps.push(Snapshot::from_path(p));
            proof {
                assert(snaps.deep_view() =~= dv.push(snapshot_dir(root@).push(
                    sorted.deep_view()[k as int],
                )));
            }
            k = k + 1;
        }
        proof {
            assert(names_of(snaps.deep_view()) =~= sorted.deep_view());
            assert(names.deep_view() =~= entry_names(en));
        }
        Ok(snaps)
    }

    /// Builds the dataset rooted at `path` from the listing of its snapshot
    /// storage directory.
    pub fn new(path: FsPath, listing: &DirListing) -> (r: Result<Dataset, Error>)
        ensures
            match listing {
                DirListing::Unreadable => r == Err::<Dataset, Error>(Error::SnapshotAreaUnreadable),
                DirListing::Entries(entries) => {
                    if all_entries_ok(entries.deep_view()) {
                        match r {
                            Ok(ds) => ds.spec_path() == path@ && ds.snapshot_views().len()
                                == entries@.len() && (forall|i: int|
                                0 <= i < ds.snapshot_views().len()
                                    ==> #[trigger] ds.snapshot_views()[i] == snapshot_dir(
                                    path@,
                                ).push(ds.snapshot_views()[i].last())) && names_of(
                                ds.snapshot_views(),
                            ).to_multiset() == entry_names(entries.deep_view()).to_multiset() && (
                            forall|i: int, j: int|
                                0 <= i < j < ds.snapshot_views().len() ==> lex_le(
                                    ds.snapshot_views()[i].last(),
                                    ds.snapshot_views()[j].last(),
                                )),
                            Err(_) => false,
                        }
                    } else {
                        r == Err::<Dataset, Error>(Error::SnapshotEnumerationError)
                    }
                },
            },
    {
        let snapshots = match Self::get_snapshots(&path, listing) {
            Ok(v) => v,
            Err(e) => {
                return Err(e);
            },
        };
        let ds = Dataset { path, snapshots };
        proof {
            assert(ds.snapshot_views() =~= ds.snapshots.deep_view());
        }
        Ok(ds)
    }

    /// Walks the ancestors of `path` from the path itself up towards the
    /// root, and returns the first ancestor that is a mounted dataset root:
    /// the most specific dataset owning the path.
    pub fn find_dataset(path: &FsPath, mounted: &Vec<FsPath>) -> (r: Result<FsPath, Error>)
        ensures
            match find_root(path@, mounted.deep_view()) {
                Some(k) => match r {
                    Ok(root) => root@ == path@.take(k),
                    Err(_) => false,
                },
                None => r == Err::<FsPath, Error>(Error::NotUnderManagedFilesystem),
            },
    {
        let n = path.num_components();
        let kmin: usize = if path.is_absolute() {
            1
        } else {
            0
        };
        let mut k: usize = n;
        loop
            invariant
                kmin <= k <= n,
                n == path@.len(),
                kmin as int == lower_bound(path@),
                forall|k2: int|
                    k < k2 <= n ==> !(#[trigger] mounted.deep_view().contains(path@.take(k2))),
            decreases k,
        {
            let prefix = path.prefix_to(k);
            if crate::mounts::is_zfs_dataset(&prefix, mounted) {
                proof {
                    lemma_find_root_from(path@, mounted.deep_view(), n as int, kmin as int);
                }
                return Ok(prefix);
            }
            if k == kmin {
                proof {
                    lemma_find_root_from(path@, mounted.deep_view(), n as int, kmin as int);
                }
                return Err(Error::NotUnderManagedFilesystem);
            }
            k = k - 1;
        }
    }

    /// Strips this dataset's root from `path`, validating component by
    /// component that the root really is a prefix; the unconsumed components
    /// of `path` are the dataset-relative path.
    pub fn get_relative_path(&self, path: &FsPath) -> (r: Result<FsPath, Error>)
        ensures
            ({
                let m = if self.spec_path().len() <= path@.len() {
                    self.spec_path().len() as int
                } else {
                    path@.len() as int
                };
                match r {
                    Ok(rel) => (forall|k: int| 0 <= k < m ==> self.spec_path()[k] == path@[k])
                        && rel@ == path@.skip(m),
                    Err(e) => e == Error::PathNotRelated && (exists|k: int|
                        0 <= k < m && self.spec_path()[k] != path@[k]),
                }
            }),
    {
        let rn = self.path.num_components();
        let pn = path.num_components();
        let m: usize = if rn <= pn {
            rn
        } else {
            pn
        };
        let mut i: usize = 0;
        while i < m
            invariant
                0 <= i <= m,
                m == if self.spec_path().len() <= path@.len() {
                    self.spec_path().len() as int
                } else {
                    path@.len() as int
                },
                forall|k: int| 0 <= k < i ==> self.spec_path()[k] == path@[k],
            decreases m - i,
        {
            if !crate::strutil::str_eq(
                self.path.component(i).as_str(),
                path.component(i).as_str(),
            ) {
                return Err(Error::PathNotRelated);
            }
            i = i + 1;
        }
        Ok(path.suffix_from(m))
    }

    /// Resolves `path` against the mounted roots: picks the most specific
    /// root that is an ancestor of the path, builds the dataset from the
    /// listing of that root's snapshot storage directory, and splits the
    /// path into the dataset and the path relative to its root.
    pub fn find(path: &FsPath, mounted: &Vec<FsPath>, listing: &DirListing) -> (r: Result<
        (Dataset, FsPath),
        Error,
    >)
        ensures
            match find_root(path@, mounted.deep_view()) {
                None => r == Err::<(Dataset, FsPath), Error>(Error::NotUnderManagedFilesystem),
                Some(k) => match listing {
                    DirListing::Unreadable => r == Err::<(Dataset, FsPath), Error>(
                        Error::SnapshotAreaUnreadable,
                    ),
                    DirListing::Entries(entries) => {
                        if all_entries_ok(entries.deep_view()) {
                            match r {
                                Ok((ds, rel)) => ds.spec_path() == path@.take(k) && rel@
                                    == path@.skip(k) && ds.spec_path() + rel@ == path@
                                    && ds.snapshot_views().len() == entries@.len() && (forall|
                                    i: int,
                                |
                                    0 <= i < ds.snapshot_views().len()
                                        ==> #[trigger] ds.snapshot_views()[i] == snapshot_dir(
                                        path@.take(k),
                                    ).push(ds.snapshot_views()[i].last())) && names_of(
                                    ds.snapshot_views(),
                                ).to_multiset() == entry_names(entries.deep_view()).to_multiset()
                                    && (forall|i: int, j: int|
                                    0 <= i < j < ds.snapshot_views().len() ==> lex_le(
                                        ds.snapshot_views()[i].last(),
                                        ds.snapshot_views()[j].last(),
                                    )),
                                Err(_) => false,
                            }
                        } else {
                            r == Err::<(Dataset, FsPath), Error>(Error::SnapshotEnumerationError)
                        }
                    },
                },
            },
    {
        let root = match Self::find_dataset(path, mounted) {
            Ok(root) => root,
            Err(e) => {
                return Err(e);
            },
        };
        let ghost k = find_root(path@, mounted.deep_view())->Some_0;
        let ds = match Self::new(root, listing) {
            Ok(ds) => ds,
            Err(e) => {
                return Err(e);
            },
        };
        let rel = match ds.get_relative_path(path) {
            Ok(rel) => rel,
            Err(_) => {
                proof {
                    lemma_find_root_from(
                        path@,
                        mounted.deep_view(),
                        path@.len() as int,
                        lower_bound(path@),
                    );
                    assert(false);
                }
                return Err(Error::PathNotRelated);
            },
        };
        proof {
            lemma_find_root_from(
                path@,
                mounted.deep_view(),
                path@.len() as int,
                lower_bound(path@),
            );
            assert(path@.take(k) + path@.skip(k) =~= path@);
        }
        Ok((ds, rel))
    }

    /// Finds the newest snapshot that contains the file, walking the
    /// snapshots newest-first, and returns the file's location inside it.
    ///
    /// `present` reports, for each snapshot in order, whether the file
    /// exists on disk inside it; the caller obtains these from the
    /// filesystem. The relative path must not be absolute: that is a caller
    /// error, answered with [`Error::InvalidArgument`].
    pub fn find_newest_snapshot_containing_the_file(&self, file: &FsPath, present: &Vec<bool>) -> (r:
        Result<FsPath, Error>)
        requires
            present@.len() == self.spec_snapshots().len(),
        ensures
            is_abs(file@) ==> r == Err::<FsPath, Error>(Error::InvalidArgument),
            !is_abs(file@) ==> match newest_hit(present@) {
                Some(i) => match r {
                    Ok(p) => p@ == self.snapshot_views()[i] + file@,
                    Err(_) => false,
                },
                None => r == Err::<FsPath, Error>(Error::NotFoundInAnySnapshot),
            },
    {
        if file.is_absolute() {
            return Err(Error::InvalidArgument);
        }
        let mut k: usize = self.snapshots.len();
        while k > 0
            invariant
                0 <= k <= self.spec_snapshots().len(),
                present@.len() == self.spec_snapshots().len(),
                !is_abs(file@),
                forall|j: int| k <= j < present@.len() ==> !present@[j],
            decreases k,
        {
            k = k - 1;
            if present[k] {
                proof {
                    lemma_newest_hit(present@);
                }
                let p = self.snapshots[k].join(file);
                return Ok(p);
            }
        }
        proof {
            lemma_newest_hit(present@);
        }
        Err(Error::NotFoundInAnySnapshot)
    }

    /// The distinct content-versions of the file across all snapshots,
    /// newest first.
    ///
    /// `infos` reports, for each snapshot in order, the fingerprint of the
    /// file's copy inside it, or nothing where the file is absent or its
    /// attributes are unreadable; the caller obtains these from the
    /// filesystem. Snapshots without the file are skipped. Of all snapshots
    /// sharing one fingerprint, the oldest is kept as the representative of
    /// that version; the kept snapshots are returned newest first.
    pub fn get_unique_versions(&self, to_recover: &FsPath, infos: &Vec<Option<FileInfo>>) -> (r:
        Result<Vec<Snapshot>, Error>)
        requires
            infos@.len() == self.spec_snapshots().len(),
        ensures
            match r {
                Ok(v) => v.deep_view() == kept_versions(self.snapshot_views(), infos@).reverse()
                    && (exists|i: int| 0 <= i < infos@.len() && infos@[i] is Some),
                Err(e) => e == Error::NotFoundInAnySnapshot && (forall|i: int|
                    0 <= i < infos@.len() ==> infos@[i] is None),
            },
    {
        let n = self.snapshots.len();
        let mut kept: Vec<Snapshot> = Vec::new();
        let mut seen: Vec<FileInfo> = Vec::new();
        let mut any: bool = false;
        let mut i: usize = 0;
        proof {
            assert(kept.deep_view() =~= kept_versions(self.snapshot_views(), infos@.take(0)));
        }
        while i < n
            invariant
                0 <= i <= n,
                n == self.spec_snapshots().len(),
                infos@.len() == n,
                kept.deep_view() =~= kept_versions(self.snapshot_views(), infos@.take(i as int)),
                forall|fp: FileInfo| #[trigger]
                    seen@.contains(fp) <==> (exists|j: int|
                        0 <= j < i && infos@[j] == Some(fp)),
                any <==> (exists|j: int| 0 <= j < i && infos@[j] is Some),
            decreases n - i,
        {
            let ghost tk = infos@.take(i as int);
            let ghost tk1 = infos@.take(i + 1);
            proof {
                assert(tk1.drop_last() =~= tk);
                assert(tk1.last() == infos@[i as int]);
                assert(forall|j: int| 0 <= j <= i ==> tk1[j] == infos@[j]);
            }
            match &infos[i] {
                Some(info) => {
                    any = true;
                    if !contains_fp(&seen, info) {
                        let ghost dv = kept.deep_view();
                        let ghost seen_old = seen@;
                        kept.push(self.snapshots[i].clone());
                        seen.push(*info);
                        proof {
                            assert(infos@[i as int] == Some(*info));
                            assert(keeps(tk1, i as int));
                            assert(kept.deep_view() =~= dv.push(self.snapshot_views()[i as int]));
                            assert(seen@ =~= seen_old.push(*info));
                            assert forall|fp: FileInfo| #[trigger] seen@.contains(fp) <==> (
                            exists|j: int| 0 <= j < i + 1 && infos@[j] == Some(fp)) by {
                                if seen@.contains(fp) {
                                    let idx = choose|idx: int|
                                        0 <= idx < seen@.len() && seen@[idx] == fp;
                                    if idx < seen@.len() - 1 {
                                        assert(seen_old[idx] == fp);
                                        assert(seen_old.contains(fp));
                                    } else {
                                        assert(infos@[i as int] == Some(fp));
                                    }
                                }
                                if exists|j: int| 0 <= j < i + 1 && infos@[j] == Some(fp) {
                                    let j = choose|j: int|
                                        0 <= j < i + 1 && infos@[j] == Some(fp);
                                    if j < i {
                                        assert(seen_old.contains(fp));
                                        let idx = choose|idx: int|
                                            0 <= idx < seen_old.len() && seen_old[idx] == fp;
                                        assert(seen@[idx] == fp);
                                        assert(seen@.contains(fp));
                                    } else {
                                        assert(seen@[seen@.len() - 1] == fp);
                                        assert(seen@.contains(fp));
                                    }
                                }
                            }
                        }
                    } else {
                        proof {
                            assert(infos@[i as int] == Some(*info));
                            assert(seen@.contains(*info));
                            assert(exists|j: int| 0 <= j < i && infos@[j] == Some(*info));
                            let w = choose|j: int| 0 <= j < i && infos@[j] == Some(*info);
                            assert(tk1[w] == infos@[w]);
                            assert(tk1[w] == tk1[i as int]);
                            assert(!keeps(tk1, i as int));
                        }
                    }
                },
                None => {
                    proof {
                        assert(infos@[i as int] is None);
                        assert(!keeps(tk1, i as int));
                    }
                },
            }
            i = i + 1;
        }
        proof {
            assert(infos@.take(n as int) =~= infos@);
        }
        if !any {
            return Err(Error::NotFoundInAnySnapshot);
        }
        let mut out: Vec<Snapshot> = Vec::new();
        let mut k: usize = kept.len();
        proof {
            assert(out.deep_view() =~= kept.deep_view().reverse().take(0));
        }
        while k > 0
            invariant
                0 <= k <= kept@.len(),
                out.deep_view() =~= kept.deep_view().reverse().take(kept@.len() - k),
            decreases k,
        {
            k = k - 1;
            let ghost dv = out.deep_view();
            out.push(kept[k].clone());
            proof {
                assert(kept.deep_view().reverse()[kept@.len() - k - 1] == kept.deep_view()[
                    k as int]);
                assert(out.deep_view() =~= dv.push(kept.deep_view()[k as int]));
                assert(out.deep_view() =~= kept.deep_view().reverse().take(kept@.len() - k));
            }
        }
        proof {
            assert(kept.deep_view().reverse().take(kept@.len() as int) =~= kept.deep_view(
            ).reverse());
        }
        Ok(out)
    }

    /// The live location of a file with the given dataset-relative path:
    /// always the dataset root extended by that path.
    pub fn get_absolute_path(&self, path: &FsPath) -> (r: FsPath)
        ensures
            is_abs(path@) ==> r@ == path@,
            !is_abs(path@) ==> r@ == self.spec_path() + path@,
    {
        self.path.join(path)
    }
}

} // verus!
