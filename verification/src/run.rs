//! What a run is made of besides the rewriting itself: its settings, the
//! filter they describe, the commits they ask for, and how a run ends.

use crate::filter::{leaf, read_filter, Filter, FilterModel};
use crate::oid::Oid;
use crate::path::components;
use vstd::prelude::*;
use vstd::string::StringSliceAdditionalSpecFns;

verus! {

/// The settings of a run.
#[derive(Debug, PartialEq, Eq)]
pub struct Args {
    /// Don't print as much progress.
    pub quiet: bool,
    /// Overwrites the branch if it exists.
    pub force: bool,
    /// Does not use the saved map.
    pub nomap: bool,
    /// Path to the repository.
    pub repo: String,
    /// Name of the branch to create on the rewritten commits.
    pub branch: String,
    /// Path to the file containing paths to keep.
    pub filter_file: Option<String>,
    /// Paths to include.
    pub paths: Vec<String>,
    /// The revisions to filter.
    pub revspec: String,
}

/// Why a run ends without a branch, as far as the store is not the reason.
#[derive(Debug, Clone, Copy, PartialEq, Eq, Structural)]
pub enum SubsetError {
    /// No path was given to include.
    NoPaths,
    /// The revisions have a shape that cannot be walked.
    InvalidRevisions,
    /// Every commit was discarded.
    NothingLeft,
}

/// The commits that a run is to rewrite.
#[derive(Debug, Clone, Copy, PartialEq, Eq)]
pub enum Revisions {
    /// All commits that can be reached from this one.
    ReachableFrom(Oid),
    /// The commits that can be reached from `to`, without those that can be
    /// reached from `from`.
    Between { from: Oid, to: Oid },
}

/// The bytes of the paths of a list.
pub open spec fn path_bytes(paths: Seq<String>) -> Seq<Seq<u8>> {
    Seq::new(paths.len(), |i: int| vstd::utf8::encode_utf8(paths[i]@))
}

/// The filter after each of `paths` has been included, in order.
pub open spec fn with_paths(m: FilterModel, paths: Seq<Seq<u8>>) -> FilterModel
    decreases paths.len(),
{
    if paths.len() == 0 {
        m
    } else {
        with_paths(m, paths.drop_last()).with_include(components(paths.last()))
    }
}

/// The filter that settings describe: what the filter file holds, or the
/// filter that includes everything if there is none, with each of the paths
/// included.
pub open spec fn described(text: Option<Seq<u8>>, paths: Seq<Seq<u8>>) -> FilterModel {
    with_paths(
        match text {
            Some(t) => read_filter(t),
            None => leaf(false),
        },
        paths,
    )
}

/// How often progress is reported: once for this many commits, which is a
/// hundredth of all of them and at least one.
pub open spec fn report_every(total: int) -> int {
    if total / 100 >= 1 {
        total / 100
    } else {
        1
    }
}

impl SubsetError {
    /// The line that tells the user of the error.
    pub fn message(&self) -> (r: &'static str)
        ensures
            r@ == (match self {
                SubsetError::NoPaths =>
                    "Error: Please specify paths to include with either `--filter-file` or `--path`."@,
                SubsetError::InvalidRevisions => "Error: Invalid revspec."@,
                SubsetError::NothingLeft =>
                    "Error: Filtering only produced empty commits. No branch created."@,
            }),
    {
        match self {
            SubsetError::NoPaths =>
                "Error: Please specify paths to include with either `--filter-file` or `--path`.",
            SubsetError::InvalidRevisions => "Error: Invalid revspec.",
            SubsetError::NothingLeft =>
                "Error: Filtering only produced empty commits. No branch created.",
        }
    }
}

impl Args {
    /// The filter that the settings describe, given the content of the
    /// filter file if one is named. A filter without any path is an error.
    pub fn filter(&self, text: Option<&[u8]>) -> (r: Result<Filter, SubsetError>)
        ensures
            match r {
                Ok(filter) => {
                    &&& filter.wf()
                    &&& filter@ == described(
                        match text {
                            Some(t) => Some(t@),
                            None => None,
                        },
                        path_bytes(self.paths@),
                    )
                    &&& !filter@.is_terminal()
                },
                Err(e) => {
                    &&& e == SubsetError::NoPaths
                    &&& described(
                        match text {
                            Some(t) => Some(t@),
                            None => None,
                        },
                        path_bytes(self.paths@),
                    ).is_terminal()
                },
            },
    {
        let mut filter = match text {
            Some(t) => Filter::from_reader(t),
            None => Filter::new(false),
        };
        let ghost first = filter@;
        let ghost all = path_bytes(self.paths@);
        let mut i: usize = 0;
        assert(all.take(0) =~= Seq::<Seq<u8>>::empty());
        while i < self.paths.len()
            invariant
                i <= self.paths@.len(),
                all == path_bytes(self.paths@),
                filter.wf(),
                filter@ == with_paths(first, all.take(i as int)),
            decreases self.paths@.len() - i,
        {
            proof {
                assert(all.take(i + 1).drop_last() =~= all.take(i as int));
                assert(all.take(i + 1).last() == vstd::utf8::encode_utf8(self.paths@[i as int]@));
            }
            filter.insert_include(self.paths[i].as_str());
            i += 1;
        }
        assert(all.take(i as int) =~= all);
        if filter.is_empty() {
            Err(SubsetError::NoPaths)
        } else {
            Ok(filter)
        }
    }
}

/// The commits to rewrite, given the two ends that the revisions resolve
/// to. One end alone stands for all that can be reached from it; two ends
/// stand for what lies between them. Anything else cannot be walked.
pub fn revisions(from: Option<Oid>, to: Option<Oid>) -> (r: Result<Revisions, SubsetError>)
    ensures
        r == (match (from, to) {
            (Some(f), Some(t)) => Ok::<Revisions, SubsetError>(
                Revisions::Between { from: f, to: t },
            ),
            (Some(f), None) => Ok(Revisions::ReachableFrom(f)),
            _ => Err(SubsetError::InvalidRevisions),
        }),
{
    match (from, to) {
        (Some(f), Some(t)) => Ok(Revisions::Between { from: f, to: t }),
        (Some(f), None) => Ok(Revisions::ReachableFrom(f)),
        _ => Err(SubsetError::InvalidRevisions),
    }
}

/// How a run ends: with the commit that the branch belongs on, or with the
/// error that nothing is left.
pub fn outcome(tip: Option<Oid>) -> (r: Result<Oid, SubsetError>)
    ensures
        r == (match tip {
            Some(id) => Ok::<Oid, SubsetError>(id),
            None => Err(SubsetError::NothingLeft),
        }),
{
    match tip {
        Some(id) => Ok(id),
        None => Err(SubsetError::NothingLeft),
    }
}

/// Whether progress is to be reported before the commit at position `i` of
/// `total` is handled: at every hundredth part of the way, so that a long
/// run is not slowed down by its own reports.
pub fn progress_due(i: usize, total: usize) -> (r: bool)
    ensures
        r == (i as int % report_every(total as int) == 0),
{
    let step = if total / 100 >= 1 {
        total / 100
    } else {
        1
    };
    i % step == 0
}

} // verus!
