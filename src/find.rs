//! The upward search for a definition file.
//!
//! A directory is a sequence of path components, the root first. The search
//! looks at the directory itself and then, when recursive, at each ancestor
//! in turn, up to the one with a single component. What lies at a candidate
//! path is learnt by probing it; the probing itself is the caller's I/O.
use vstd::prelude::*;

use crate::errors::Error;

verus! {

/// What probing one candidate path found.
#[derive(Debug, PartialEq, Eq)]
pub enum Probe {
    /// A regular file.
    File,
    /// Something that is not a regular file, such as a directory.
    NotFile,
    /// Nothing at that path.
    Missing,
    /// Any other failure, with its description.
    Failed(String),
}

/// What to do after probing the candidate of one level.
#[derive(Debug, PartialEq, Eq)]
pub enum Step {
    /// The candidate is the file sought.
    Found,
    /// Probe the candidate of the parent directory next.
    Ascend,
    /// The search ends with this error.
    Stop(Error),
}

/// Decides what follows a probe, given whether the search is recursive and
/// whether the directory probed has a parent.
pub fn find_step(probe: Probe, recursive: bool, has_parent: bool) -> (r: Step)
    ensures
        match probe {
            Probe::File => r is Found,
            Probe::Failed(m) => r is Stop && r->Stop_0 is Io && r->Stop_0->Io_0@ == m@,
            _ => if recursive && has_parent {
                r is Ascend
            } else {
                r is Stop && r->Stop_0 is NotFound
            },
        },
{
    match probe {
        Probe::File => Step::Found,
        Probe::Failed(m) => Step::Stop(Error::Io(m)),
        _ => {
            if recursive && has_parent {
                Step::Ascend
            } else {
                Step::Stop(Error::NotFound)
            }
        },
    }
}

/// The end of a search.
pub enum SearchModel {
    /// The file is at the candidate of this level (0 is the start directory).
    At(int),
    NotFound,
    Io(Seq<char>),
}

/// The search from level `i` on, where `probes[j]` is what lies at the
/// candidate of level `j` and the last level has no parent.
pub open spec fn search_from(probes: Seq<Probe>, recursive: bool, i: int) -> SearchModel
    decreases probes.len() - i,
{
    if i < 0 || i >= probes.len() {
        SearchModel::NotFound
    } else {
        match probes[i] {
            Probe::File => SearchModel::At(i),
            Probe::Failed(m) => SearchModel::Io(m@),
            _ => if recursive && i + 1 < probes.len() {
                search_from(probes, recursive, i + 1)
            } else {
                SearchModel::NotFound
            },
        }
    }
}

pub open spec fn search(probes: Seq<Probe>, recursive: bool) -> SearchModel {
    search_from(probes, recursive, 0)
}

/// Runs the search over the probes of every level, the start directory first:
/// the level whose candidate is the file, or the error that ends the search.
pub fn find_internal(probes: &Vec<Probe>, recursive: bool) -> (r: Result<usize, Error>)
    ensures
        match search(probes@, recursive) {
            SearchModel::At(i) => r is Ok && r->Ok_0 == i,
            SearchModel::NotFound => r is Err && r->Err_0 is NotFound,
            SearchModel::Io(m) => r is Err && r->Err_0 is Io && r->Err_0->Io_0@ == m,
        },
{
    let n = probes.len();
    let mut i: usize = 0;
    while i < n
        invariant
            n == probes@.len(),
            i <= n,
            i > 0 ==> recursive,
            search(probes@, recursive) == search_from(probes@, recursive, i as int),
        decreases n - i,
    {
        let probe = match &probes[i] {
            Probe::File => Probe::File,
            Probe::NotFile => Probe::NotFile,
            Probe::Missing => Probe::Missing,
            Probe::Failed(m) => Probe::Failed(m.clone()),
        };
        match find_step(probe, recursive, i + 1 < n) {
            Step::Found => {
                return Ok(i);
            },
            Step::Ascend => {
                i = i + 1;
            },
            Step::Stop(e) => {
                return Err(e);
            },
        }
    }
    Err(Error::NotFound)
}

/// The path probed at level `i`: the directory less its last `i` components,
/// joined with the file name.
pub open spec fn candidate(dir: Seq<Seq<char>>, filename: Seq<Seq<char>>, i: int) -> Seq<
    Seq<char>,
> {
    dir.subrange(0, dir.len() - i) + filename
}

pub open spec fn path_view(p: Seq<String>) -> Seq<Seq<char>> {
    p.map_values(|s: String| s@)
}

/// The candidate paths of every level, the start directory first; one per
/// component of the directory.
pub fn candidates(dir: &Vec<String>, filename: &Vec<String>) -> (r: Vec<Vec<String>>)
    ensures
        r@.len() == dir@.len(),
        forall|i: int|
            0 <= i < r@.len() ==> path_view(#[trigger] r@[i]@) == candidate(
                path_view(dir@),
                path_view(filename@),
                i,
            ),
{
    let n = dir.len();
    let mut r: Vec<Vec<String>> = Vec::new();
    while r.len() < n
        invariant
            n == dir@.len(),
            r@.len() <= n,
            forall|i: int|
                0 <= i < r@.len() ==> path_view(#[trigger] r@[i]@) == candidate(
                    path_view(dir@),
                    path_view(filename@),
                    i,
                ),
        decreases n - r@.len(),
    {
        let keep = n - r.len();
        let mut c: Vec<String> = Vec::new();
        let mut j: usize = 0;
        while j < keep
            invariant
                keep <= n == dir@.len(),
                j <= keep,
                c@.len() == j,
                path_view(c@) == path_view(dir@).subrange(0, j as int),
            decreases keep - j,
        {
            let ghost prev = c@;
            let part = dir[j].clone();
            c.push(part);
            proof {
                assert forall|x: int| 0 <= x <= j implies #[trigger] path_view(c@)[x] == path_view(
                    dir@,
                )[x] by {
                    if x < j {
                        assert(c@[x] == prev[x]);
                        assert(path_view(prev)[x] == path_view(dir@).subrange(0, j as int)[x]);
                    }
                }
            }
            j = j + 1;
            assert(path_view(c@) =~= path_view(dir@).subrange(0, j as int));
        }
        let mut k: usize = 0;
        while k < filename.len()
            invariant
                keep <= n == dir@.len(),
                k <= filename@.len(),
                c@.len() == keep + k,
                path_view(c@) == path_view(dir@).subrange(0, keep as int) + path_view(
                    filename@,
                ).subrange(0, k as int),
            decreases filename@.len() - k,
        {
            let ghost prev = c@;
            let ghost base = path_view(dir@).subrange(0, keep as int);
            let part = filename[k].clone();
            c.push(part);
            proof {
                assert forall|x: int| 0 <= x < prev.len() implies #[trigger] path_view(c@)[x]
                    == path_view(prev)[x] by {
                    assert(c@[x] == prev[x]);
                }
                assert(path_view(c@)[prev.len() as int] == path_view(filename@)[k as int]);
            }
            k = k + 1;
            assert(path_view(c@) =~= path_view(dir@).subrange(0, keep as int) + path_view(
                filename@,
            ).subrange(0, k as int));
        }
        assert(path_view(filename@).subrange(0, k as int) =~= path_view(filename@));
        r.push(c);
    }
    r
}

proof fn lemma_found_from(probes: Seq<Probe>, d: int, i: int)
    requires
        0 <= i <= d < probes.len(),
        probes[d] is File,
        forall|j: int| 0 <= j < d ==> #[trigger] probes[j] is Missing || probes[j] is NotFile,
    ensures
        search_from(probes, true, i) == SearchModel::At(d),
    decreases d - i,
{
    if i < d {
        lemma_found_from(probes, d, i + 1);
    }
}

/// A file at depth `d` above the start directory, with nothing but missing
/// entries or non-files below it, is found at that depth by a recursive
/// search; a search that is not recursive finds it only at depth 0 and
/// otherwise ends in `NotFound`.
pub proof fn lemma_found_at_depth(probes: Seq<Probe>, recursive: bool, d: int)
    requires
        0 <= d < probes.len(),
        probes[d] is File,
        forall|j: int| 0 <= j < d ==> #[trigger] probes[j] is Missing || probes[j] is NotFile,
    ensures
        recursive ==> search(probes, recursive) == SearchModel::At(d),
        !recursive ==> search(probes, recursive) == if d == 0 {
            SearchModel::At(0)
        } else {
            SearchModel::NotFound
        },
{
    if recursive {
        lemma_found_from(probes, d, 0);
    } else if d > 0 {
        assert(probes[0] is Missing || probes[0] is NotFile);
    }
}

proof fn lemma_io_from(probes: Seq<Probe>, recursive: bool, j: int, i: int)
    requires
        0 <= i <= j < probes.len(),
        probes[j] is Failed,
        forall|x: int| 0 <= x < j ==> #[trigger] probes[x] is Missing || probes[x] is NotFile,
        recursive || j == i,
    ensures
        search_from(probes, recursive, i) == SearchModel::Io(probes[j]->Failed_0@),
    decreases j - i,
{
    if i < j {
        lemma_io_from(probes, recursive, j, i + 1);
    }
}

/// A failed probe at a level that the search reaches ends the search with
/// that I/O error, whatever lies at the levels above it.
pub proof fn lemma_io_error_halts(
    probes: Seq<Probe>,
    recursive: bool,
    j: int,
    above: Seq<Probe>,
)
    requires
        0 <= j < probes.len(),
        probes[j] is Failed,
        forall|x: int| 0 <= x < j ==> #[trigger] probes[x] is Missing || probes[x] is NotFile,
        recursive || j == 0,
    ensures
        search(probes, recursive) == SearchModel::Io(probes[j]->Failed_0@),
        search(probes.subrange(0, j + 1) + above, recursive) == search(probes, recursive),
{
    lemma_io_from(probes, recursive, j, 0);
    let q = probes.subrange(0, j + 1) + above;
    assert forall|x: int| 0 <= x <= j implies #[trigger] q[x] == probes[x] by {}
    assert forall|x: int| 0 <= x < j implies #[trigger] q[x] is Missing || q[x] is NotFile by {
        assert(q[x] == probes[x]);
    }
    assert(q[j] == probes[j]);
    lemma_io_from(q, recursive, j, 0);
}

/// Every path probed lies in the start directory or one of its ancestors:
/// a file under a directory that is not one of them (a child or a sibling)
/// is never a candidate.
pub proof fn lemma_never_descends(
    dir: Seq<Seq<char>>,
    filename: Seq<Seq<char>>,
    other: Seq<Seq<char>>,
)
    requires
        !other.is_prefix_of(dir),
    ensures
        forall|i: int|
            0 <= i < dir.len() ==> #[trigger] candidate(dir, filename, i) != other + filename,
{
    assert forall|i: int| 0 <= i < dir.len() implies #[trigger] candidate(dir, filename, i)
        != other + filename by {
        let c = candidate(dir, filename, i);
        if c == other + filename {
            assert(c.len() == dir.len() - i + filename.len());
            assert(other.len() == dir.len() - i);
            assert(other =~= (other + filename).subrange(0, other.len() as int));
            assert(dir.subrange(0, dir.len() - i) =~= c.subrange(0, dir.len() - i));
            assert(other =~= dir.subrange(0, other.len() as int));
        }
    }
}

} // verus!
