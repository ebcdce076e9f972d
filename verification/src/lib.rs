//! Symlink-aware path arithmetic: the logical parent and clean form of a
//! filesystem path, computed against an explicit model of the directory
//! tree, resolving only the symlinks that the query actually crosses.
use vstd::prelude::*;

pub mod fs;
pub mod path;
pub mod resolve;
pub mod laws;

pub use crate::fs::{EntryKind, Fs};
pub use crate::path::{Component, RPath};
pub use crate::resolve::{Error, RealPath};

use crate::fs::FsV;
use crate::path::{SComp, SPath};
use crate::resolve::{run, vis_set, SOut};

verus! {

/// An empty path reads as `.`, the current directory.
pub open spec fn dotify(p: SPath) -> SPath {
    if p.len() == 0 {
        seq![SComp::Cur]
    } else {
        p
    }
}

/// What one top-level parent query denotes: a fresh session, the path,
/// and a single parent step.
pub open spec fn parent_sem(m: FsV, p: SPath) -> SOut {
    run(m, Set::empty(), p, seq![SComp::Up])
}

/// What one top-level clean query denotes: the whole path walked as a
/// relative continuation of the empty base.
pub open spec fn clean_sem(m: FsV, p: SPath) -> SOut {
    run(m, Set::empty(), Seq::<SComp>::empty(), p)
}

/// Relates a returned `Result` to the outcome of a top-level walk, whose
/// resulting path is normalized so that the empty path reads as `.`.
pub open spec fn top_matches(r: Result<RPath, Error>, o: SOut) -> bool {
    match o {
        SOut::Done { path, vis } => r matches Ok(q) && q@ == dotify(path),
        SOut::Io { path, vis } => r matches Err(e) && e matches Error::IO(q) && q@ == path,
        SOut::Cycle { path, vis } => r matches Err(e) && e matches Error::Cycle(q) && q@ == path,
    }
}

/// Normalize an empty result path to `.`, so that every returned value is
/// a syntactically valid path.
pub fn empty_to_dot(p: RPath) -> (r: RPath)
    ensures
        r@ == dotify(p@),
{
    if p.is_empty() {
        RPath::dot()
    } else {
        p
    }
}

/// Path operations that are correct in the presence of symlinks, answered
/// against an explicit model of the directory tree.
pub trait PathExt: View<V = SPath> {
    /// The logical parent of this path: like the syntactic parent, except
    /// that the model is consulted so the answer respects symlinks, while
    /// resolving as few of them as possible. The parent of `..` is
    /// `../..` (never folded away), of `.` and of the empty path `..`,
    /// and of the root the root itself. Fails with `IO` naming the first
    /// path whose probe found nothing, or with `Cycle` naming the symlink
    /// at which a loop closed.
    fn real_parent(&self, fs: &Fs) -> (r: Result<RPath, Error>)
        requires
            fs.wf(),
        ensures
            top_matches(r, parent_sem(fs@, self@)),
    ;

    /// A clean form of this path: `..` folded away wherever the model
    /// makes that correct, symlinks expanded only where required, `..`
    /// kept where folding would leave the addressable space. Failure
    /// modes as for `real_parent`.
    fn real_clean(&self, fs: &Fs) -> (r: Result<RPath, Error>)
        requires
            fs.wf(),
        ensures
            top_matches(r, clean_sem(fs@, self@)),
    ;

    /// Whether this path, fully canonicalized, denotes the filesystem
    /// root: true exactly when the canonical form the model records for
    /// it ends in the root marker. The empty path is treated as `.`.
    /// Fails with `IO` when the model holds no canonical form for it.
    fn is_real_root(&self, fs: &Fs) -> (r: Result<bool, Error>)
        requires
            fs.wf(),
        ensures
            ({
                let q = dotify(self@);
                if fs@.canon.contains_key(q) {
                    r matches Ok(b) && b == (fs@.canon[q].last() is Root)
                } else {
                    r matches Err(e) && e matches Error::IO(p) && p@ == q
                }
            }),
    ;
}

impl PathExt for RPath {
    fn real_parent(&self, fs: &Fs) -> (r: Result<RPath, Error>) {
        let mut real_path = RealPath::default();
        proof {
            assert(vis_set(real_path.symlinks_visited@) =~= Set::<SPath>::empty());
        }
        match real_path.parent(fs, self) {
            Ok(p) => Ok(empty_to_dot(p)),
            Err(e) => Err(e),
        }
    }

    fn real_clean(&self, fs: &Fs) -> (r: Result<RPath, Error>) {
        let mut real_path = RealPath::default();
        proof {
            assert(vis_set(real_path.symlinks_visited@) =~= Set::<SPath>::empty());
        }
        match real_path.clean(fs, self) {
            Ok(p) => Ok(empty_to_dot(p)),
            Err(e) => Err(e),
        }
    }

    fn is_real_root(&self, fs: &Fs) -> (r: Result<bool, Error>) {
        let path_or_dot = if self.is_empty() {
            RPath::dot()
        } else {
            self.duplicate()
        };
        proof {
            assert(path_or_dot@ == dotify(self@));
        }
        match fs.lookup_canon(&path_or_dot) {
            Option::Some(c) => {
                // a canonical path cannot be empty
                let n = c.comps.len();
                proof {
                    assert(c@.len() == n);
                    assert(n > 0);
                    assert(c@[n as int - 1] == c.comps@[n as int - 1]@);
                }
                match &c.comps[n - 1] {
                    Component::RootDir => Ok(true),
                    _ => Ok(false),
                }
            },
            Option::None => Err(Error::IO(path_or_dot)),
        }
    }
}

} // verus!
