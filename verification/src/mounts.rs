//! The mount catalog: turns the tabular output of the external
//! filesystem-manager query (one line per dataset, with name, mountpoint and
//! mount state separated by tabs) into the set of mounted dataset roots.

use vstd::prelude::*;

use crate::error::Error;
use crate::path::{parse_path, wf_path, FsPath};
use crate::strutil::{contains_yes, contains_yes_str, lines_of, split_lines, split_term,
    split_term_str};

verus! {

/// The tab-separated fields of one output line.
pub open spec fn fields_of(l: Seq<char>) -> Seq<Seq<char>> {
    split_term(l, '\t')
}

/// Whether a line carries the three expected columns: dataset name,
/// mountpoint, mount state.
pub open spec fn line_ok(l: Seq<char>) -> bool {
    fields_of(l).len() >= 3
}

/// Whether a well-formed line reports its dataset as mounted.
pub open spec fn line_mounted(l: Seq<char>) -> bool {
    contains_yes(fields_of(l)[2])
}

/// The mountpoint a line reports, parsed into path components.
pub open spec fn line_root(l: Seq<char>) -> Seq<Seq<char>> {
    parse_path(fields_of(l)[1])
}

/// Whether every line carries its three columns.
pub open spec fn all_lines_ok(ls: Seq<Seq<char>>) -> bool {
    forall|i: int| 0 <= i < ls.len() ==> line_ok(#[trigger] ls[i])
}

/// The mountpoints of the mounted datasets, in the order their lines appear.
pub open spec fn mounted_roots(ls: Seq<Seq<char>>) -> Seq<Seq<Seq<char>>>
    decreases ls.len(),
{
    if ls.len() == 0 {
        Seq::empty()
    } else {
        let prev = mounted_roots(ls.drop_last());
        if line_mounted(ls.last()) {
            prev.push(line_root(ls.last()))
        } else {
            prev
        }
    }
}

/// Extracts the roots of all mounted datasets from the raw query output.
///
/// Each output line must carry three tab-separated columns; a line without
/// them means the output could not be decoded, and the whole query is
/// rejected. Of the well-formed lines, those whose state column reports
/// `yes` contribute their mountpoint.
pub fn get_mounted_datasets(output: &str) -> (r: Result<Vec<FsPath>, Error>)
    ensures
        r is Ok <==> all_lines_ok(lines_of(output@)),
        r is Err ==> r == Err::<Vec<FsPath>, Error>(Error::QueryError),
        match r {
            Ok(v) => v.deep_view() == mounted_roots(lines_of(output@)) && forall|i: int|
                0 <= i < v@.len() ==> wf_path(#[trigger] v@[i]@),
            Err(_) => true,
        },
{
    let lines = split_lines(output);
    let ghost lv = lines.deep_view();
    let mut roots: Vec<FsPath> = Vec::new();
    let mut i: usize = 0;
    proof {
        assert(roots.deep_view() =~= mounted_roots(lv.take(0)));
    }
    while i < lines.len()
        invariant
            0 <= i <= lines.len(),
            lv == lines.deep_view(),
            lv == lines_of(output@),
            forall|k: int| 0 <= k < i ==> line_ok(#[trigger] lv[k]),
            roots.deep_view() =~= mounted_roots(lv.take(i as int)),
            forall|k: int| 0 <= k < roots@.len() ==> wf_path(#[trigger] roots@[k]@),
        decreases lines.len() - i,
    {
        proof {
            assert(lv[i as int] == lines@[i as int]@);
            assert(lv.take(i + 1).drop_last() =~= lv.take(i as int));
            assert(lv.take(i + 1).last() == lv[i as int]);
        }
        let fields = split_term_str(lines[i].as_str(), '\t');
        if fields.len() < 3 {
            return Err(Error::QueryError);
        }
        let ghost dv = roots.deep_view();
        if contains_yes_str(fields[2].as_str()) {
            proof {
                assert(fields.deep_view()[2] == fields@[2]@);
                assert(fields.deep_view()[1] == fields@[1]@);
            }
            let root = FsPath::from_string(fields[1].as_str());
            roots.push(root);
            proof {
                assert(roots.deep_view() =~= dv.push(root@));
            }
        }
        i = i + 1;
    }
    proof {
        assert(lv.take(lv.len() as int) =~= lv);
    }
    Ok(roots)
}

/// Whether `path` is one of the mounted dataset roots.
pub fn is_zfs_dataset(path: &FsPath, datasets: &Vec<FsPath>) -> (r: bool)
    ensures
        r == datasets.deep_view().contains(path@),
{
    let mut i: usize = 0;
    while i < datasets.len()
        invariant
            0 <= i <= datasets.len(),
            forall|k: int| 0 <= k < i ==> datasets.deep_view()[k] != path@,
        decreases datasets.len() - i,
    {
        if path == &datasets[i] {
            proof {
                assert(datasets.deep_view()[i as int] =~= path@);
            }
            return true;
        }
        proof {
            assert(!(datasets.deep_view()[i as int] =~= path@));
        }
        i = i + 1;
    }
    proof {
        assert(forall|k: int| 0 <= k < datasets.deep_view().len() ==> datasets.deep_view()[k]
            != path@);
    }
    false
}

} // verus!
