//! The symlink-aware resolution core.
//!
//! The whole behaviour of parent-resolution, joining and cleaning is given
//! by one spec function, [`run`]: a walk that holds a current path and a
//! queue of components still to process. A named segment is appended, `.`
//! is dropped, a root marker restarts the current path at the root, and
//! `..` asks the model what the current path is, dereferencing a symlink
//! by queueing its target followed by `..` again. Termination rests on the
//! count of symlinks not yet visited, which strictly falls at every
//! dereference.
//!
//! The executable resolver [`RealPath`] mirrors the classical recursive
//! shape — classify, then dispatch to the symlink, directory or file case
//! — and each method is proved to return exactly what `run` denotes.
use vstd::prelude::*;

use crate::fs::{EKind, EntryKind, Fs, FsV};
use crate::path::{render, Component, RPath, SComp, SPath};

verus! {

broadcast use vstd::set::group_set_axioms;

/// The two failure modes of resolution: a probe of the named path failed,
/// or the named symlink was reached a second time in one call.
#[derive(Clone, Debug, PartialEq, Eq)]
pub enum Error {
    IO(RPath),
    Cycle(RPath),
}

/// The textual description of a failure, naming the path involved.
pub open spec fn message_of(e: Error) -> Seq<char> {
    match e {
        Error::IO(p) => "I/O error on "@ + render(p@),
        Error::Cycle(p) => "symlink cycle detected at "@ + render(p@),
    }
}

impl Error {
    /// A human-readable description of this failure.
    pub fn message(&self) -> (r: String)
        ensures
            r@ == message_of(*self),
    {
        let (head, path) = match self {
            Error::IO(p) => ("I/O error on ", p),
            Error::Cycle(p) => ("symlink cycle detected at ", p),
        };
        let mut out = head.to_owned();
        let rendered = path.display_string();
        out.append(rendered.as_str());
        out
    }
}

/// Spec-level outcome of a walk: the resulting path or the failure,
/// together with the set of symlink identities visited.
pub enum SOut {
    Done { path: SPath, vis: Set<SPath> },
    Io { path: SPath, vis: Set<SPath> },
    Cycle { path: SPath, vis: Set<SPath> },
}

impl SOut {
    pub open spec fn vis(self) -> Set<SPath> {
        match self {
            SOut::Done { path, vis } => vis,
            SOut::Io { path, vis } => vis,
            SOut::Cycle { path, vis } => vis,
        }
    }
}

/// The textual paths at which the model holds a symlink.
pub open spec fn link_keys(m: FsV) -> Set<SPath> {
    m.entries.dom().filter(|k: SPath| m.entries[k] is Link)
}

/// How many symlinks of the model a walk with visited-set `v` may still
/// dereference: the termination measure of resolution.
pub open spec fn uv(m: FsV, v: Set<SPath>) -> nat {
    link_keys(m).difference(v).len()
}

pub proof fn lemma_uv_insert(m: FsV, v: Set<SPath>, p: SPath)
    requires
        m.entries.dom().finite(),
        m.entries.contains_key(p),
        m.entries[p] is Link,
        !v.contains(p),
    ensures
        uv(m, v.insert(p)) < uv(m, v),
{
    let lk = link_keys(m);
    assert(lk.finite()) by {
        vstd::set_lib::lemma_set_subset_finite(m.entries.dom(), lk);
    }
    let d0 = lk.difference(v);
    let d1 = lk.difference(v.insert(p));
    assert(d0.finite());
    assert(d1 =~= d0.remove(p));
    assert(lk.contains(p));
    assert(d0.contains(p));
}

pub proof fn lemma_uv_mono(m: FsV, v1: Set<SPath>, v2: Set<SPath>)
    requires
        m.entries.dom().finite(),
        v1.subset_of(v2),
    ensures
        uv(m, v2) <= uv(m, v1),
{
    let lk = link_keys(m);
    assert(lk.finite()) by {
        vstd::set_lib::lemma_set_subset_finite(m.entries.dom(), lk);
    }
    let d1 = lk.difference(v1);
    let d2 = lk.difference(v2);
    assert(d2.subset_of(d1));
    vstd::set_lib::lemma_len_subset(d2, d1);
}

/// The syntactic parent of a path that the model classified as a
/// directory: drop a final named segment; `.` has parent `..`; a path
/// already ending in `..` ascends one more level; the root is its own
/// parent.
pub open spec fn dir_parent_at(p: SPath) -> SPath {
    if p.len() > 0 && p.last() is Name {
        p.drop_last()
    } else if p == seq![SComp::Cur] {
        seq![SComp::Up]
    } else if p.len() > 0 && p.last() is Up {
        p.push(SComp::Up)
    } else {
        p
    }
}

/// The denotation of resolution: walk `pending` against the model `m`,
/// starting from the path `cur`, with `v` the symlink identities already
/// dereferenced in this call.
pub open spec fn run(m: FsV, v: Set<SPath>, cur: SPath, pending: SPath) -> SOut
    decreases uv(m, v), pending.len(),
        when m.entries.dom().finite()
{
    if pending.len() == 0 {
        SOut::Done { path: cur, vis: v }
    } else {
        let rest = pending.drop_first();
        match pending[0] {
            SComp::Root => run(m, v, seq![SComp::Root], rest),
            SComp::Cur => run(m, v, cur, rest),
            SComp::Name(n) => run(m, v, cur.push(SComp::Name(n)), rest),
            SComp::Up => {
                if cur.len() == 0 {
                    run(m, v, seq![SComp::Up], rest)
                } else if !m.entries.contains_key(cur) {
                    SOut::Io { path: cur, vis: v }
                } else {
                    match m.entries[cur] {
                        EKind::File => run(m, v, cur.drop_last(), rest),
                        EKind::Dir => run(m, v, dir_parent_at(cur), rest),
                        EKind::Link(t) => {
                            if v.contains(cur) {
                                SOut::Cycle { path: cur, vis: v }
                            } else {
                                proof {
                                    lemma_uv_insert(m, v, cur);
                                }
                                run(m, v.insert(cur), cur.drop_last(), t + seq![SComp::Up] + rest)
                            }
                        },
                    }
                }
            },
        }
    }
}

/// The visited set only grows along a walk.
pub proof fn lemma_run_vis_mono(m: FsV, v: Set<SPath>, cur: SPath, pending: SPath)
    requires
        m.entries.dom().finite(),
    ensures
        v.subset_of(run(m, v, cur, pending).vis()),
    decreases uv(m, v), pending.len(),
{
    if pending.len() == 0 {
    } else {
        let rest = pending.drop_first();
        match pending[0] {
            SComp::Root => lemma_run_vis_mono(m, v, seq![SComp::Root], rest),
            SComp::Cur => lemma_run_vis_mono(m, v, cur, rest),
            SComp::Name(n) => lemma_run_vis_mono(m, v, cur.push(SComp::Name(n)), rest),
            SComp::Up => {
                if cur.len() == 0 {
                    lemma_run_vis_mono(m, v, seq![SComp::Up], rest);
                } else if !m.entries.contains_key(cur) {
                } else {
                    match m.entries[cur] {
                        EKind::File => lemma_run_vis_mono(m, v, cur.drop_last(), rest),
                        EKind::Dir => lemma_run_vis_mono(m, v, dir_parent_at(cur), rest),
                        EKind::Link(t) => {
                            if v.contains(cur) {
                            } else {
                                lemma_uv_insert(m, v, cur);
                                lemma_run_vis_mono(
                                    m,
                                    v.insert(cur),
                                    cur.drop_last(),
                                    t + seq![SComp::Up] + rest,
                                );
                            }
                        },
                    }
                }
            },
        }
    }
}

/// Sequencing: walking `a + b` is walking `a`, then walking `b` from
/// where that ended; an error in `a` is the error of the whole walk.
pub proof fn lemma_run_seq(m: FsV, v: Set<SPath>, cur: SPath, a: SPath, b: SPath)
    requires
        m.entries.dom().finite(),
    ensures
        run(m, v, cur, a) matches SOut::Done { path: q, vis: v2 }
            ==> run(m, v, cur, a + b) == run(m, v2, q, b),
        !(run(m, v, cur, a) is Done) ==> run(m, v, cur, a + b) == run(m, v, cur, a),
    decreases uv(m, v), a.len(),
{
    if a.len() == 0 {
        assert(a + b =~= b);
    } else {
        let rest = a.drop_first();
        assert((a + b).len() > 0);
        assert((a + b)[0] == a[0]);
        assert((a + b).drop_first() =~= rest + b);
        match a[0] {
            SComp::Root => lemma_run_seq(m, v, seq![SComp::Root], rest, b),
            SComp::Cur => lemma_run_seq(m, v, cur, rest, b),
            SComp::Name(n) => lemma_run_seq(m, v, cur.push(SComp::Name(n)), rest, b),
            SComp::Up => {
                if cur.len() == 0 {
                    lemma_run_seq(m, v, seq![SComp::Up], rest, b);
                } else if !m.entries.contains_key(cur) {
                } else {
                    match m.entries[cur] {
                        EKind::File => lemma_run_seq(m, v, cur.drop_last(), rest, b),
                        EKind::Dir => lemma_run_seq(m, v, dir_parent_at(cur), rest, b),
                        EKind::Link(t) => {
                            if v.contains(cur) {
                            } else {
                                lemma_uv_insert(m, v, cur);
                                assert((t + seq![SComp::Up] + rest) + b =~= t + seq![SComp::Up] + (
                                rest + b));
                                lemma_run_seq(
                                    m,
                                    v.insert(cur),
                                    cur.drop_last(),
                                    t + seq![SComp::Up] + rest,
                                    b,
                                );
                            }
                        },
                    }
                }
            },
        }
    }
}

/// The set of symlink identities held in a visited list.
pub open spec fn vis_set(v: Seq<RPath>) -> Set<SPath>
    decreases v.len(),
{
    if v.len() == 0 {
        Set::empty()
    } else {
        vis_set(v.drop_last()).insert(v.last()@)
    }
}

pub proof fn lemma_vis_set_props(v: Seq<RPath>)
    ensures
        vis_set(v).finite(),
        forall|x: SPath|
            #[trigger] vis_set(v).contains(x)
                <==> exists|i: int| 0 <= i < v.len() && (#[trigger] v[i])@ == x,
    decreases v.len(),
{
    if v.len() == 0 {
    } else {
        lemma_vis_set_props(v.drop_last());
        assert forall|x: SPath| #[trigger] vis_set(v).contains(x)
            implies exists|i: int| 0 <= i < v.len() && (#[trigger] v[i])@ == x by {
            if x == v.last()@ {
                assert((#[trigger] v[v.len() - 1])@ == x);
            } else {
                let i = choose|i: int|
                    0 <= i < v.drop_last().len() && (#[trigger] v.drop_last()[i])@ == x;
                assert((#[trigger] v[i])@ == x);
            }
        }
        assert forall|x: SPath| (exists|i: int| 0 <= i < v.len() && (#[trigger] v[i])@ == x)
            implies #[trigger] vis_set(v).contains(x) by {
            let i = choose|i: int| 0 <= i < v.len() && (#[trigger] v[i])@ == x;
            if i < v.len() - 1 {
                assert(v.drop_last()[i] == v[i]);
                assert(vis_set(v.drop_last()).contains(x));
            }
        }
    }
}

/// Relates an executable outcome — the returned `Result` and the resolver's
/// visited list after the call — to the spec-level outcome of a walk.
pub open spec fn out_matches(r: Result<RPath, Error>, visited: Seq<RPath>, o: SOut) -> bool {
    match o {
        SOut::Done { path, vis } => r matches Ok(q) && q@ == path && vis_set(visited) == vis,
        SOut::Io { path, vis } => r matches Err(e) && e matches Error::IO(q) && q@ == path
            && vis_set(visited) == vis,
        SOut::Cycle { path, vis } => r matches Err(e) && e matches Error::Cycle(q) && q@ == path
            && vis_set(visited) == vis,
    }
}

/// One resolution session: owns the set of symlink identities visited so
/// far, the cycle-detection state of a single top-level call.
#[derive(Debug)]
pub struct RealPath {
    pub symlinks_visited: Vec<RPath>,
}

impl Default for RealPath {
    /// A fresh session with nothing visited.
    fn default() -> (r: Self)
        ensures
            r.symlinks_visited@.len() == 0,
    {
        RealPath { symlinks_visited: Vec::new() }
    }
}

impl RealPath {
    fn visited_contains(&self, p: &RPath) -> (b: bool)
        ensures
            b == vis_set(self.symlinks_visited@).contains(p@),
    {
        proof {
            lemma_vis_set_props(self.symlinks_visited@);
        }
        let n = self.symlinks_visited.len();
        let mut i: usize = 0;
        while i < n
            invariant
                i <= n,
                n == self.symlinks_visited@.len(),
                forall|j: int| 0 <= j < i ==> (#[trigger] self.symlinks_visited@[j])@ != p@,
            decreases n - i,
        {
            if self.symlinks_visited[i].eq_path(p) {
                proof {
                    lemma_vis_set_props(self.symlinks_visited@);
                }
                return true;
            }
            i = i + 1;
        }
        proof {
            lemma_vis_set_props(self.symlinks_visited@);
            if vis_set(self.symlinks_visited@).contains(p@) {
                let j = choose|j: int|
                    0 <= j < self.symlinks_visited@.len()
                        && (#[trigger] self.symlinks_visited@[j])@ == p@;
                assert(false);
            }
        }
        false
    }

    /// The logical parent of `path` in the model `fs`: classify the entry,
    /// then dispatch to the symlink, directory or plain-file case. An empty
    /// path means "here", whose parent is `..`, with no probe at all.
    pub fn parent(&mut self, fs: &Fs, path: &RPath) -> (r: Result<RPath, Error>)
        requires
            fs.wf(),
        ensures
            out_matches(
                r,
                final(self).symlinks_visited@,
                run(fs@, vis_set(old(self).symlinks_visited@), path@, seq![SComp::Up]),
            ),
        decreases uv(fs@, vis_set(old(self).symlinks_visited@)), 1int,
    {
        let ghost m = fs@;
        let ghost v0 = vis_set(self.symlinks_visited@);
        if path.is_empty() {
            proof {
                reveal_with_fuel(run, 2);
                assert(seq![SComp::Up].drop_first() =~= Seq::<SComp>::empty());
            }
            Ok(RPath::dotdot())
        } else {
            proof {
                assert(seq![SComp::Up].drop_first() =~= Seq::<SComp>::empty());
            }
            match fs.lookup(path) {
                Option::None => {
                    proof {
                        reveal_with_fuel(run, 1);
                    }
                    Err(Error::IO(path.duplicate()))
                },
                Option::Some(k) => {
                    match k {
                        EntryKind::Symlink(_) => {
                            let r = self.symlink_parent(fs, path);
                            proof {
                                reveal_with_fuel(run, 2);
                                assert(m.entries[path@] is Link);
                                if v0.contains(path@) {
                                } else {
                                    assert((m.entries[path@]->Link_0 + seq![SComp::Up])
                                        + seq![SComp::Up].drop_first()
                                        =~= m.entries[path@]->Link_0 + seq![SComp::Up]);
                                }
                            }
                            r
                        },
                        EntryKind::Dir => {
                            let r = self.dir_parent(path);
                            proof {
                                reveal_with_fuel(run, 2);
                            }
                            r
                        },
                        EntryKind::File => {
                            proof {
                                assert(path@.last() is Name) by {
                                    assert(m.entries.contains_key(path@));
                                }
                            }
                            let r = self.file_parent(path);
                            proof {
                                reveal_with_fuel(run, 2);
                            }
                            r
                        },
                    }
                },
            }
        }
    }

    /// The parent of a symlink: record its identity (failing with `Cycle`
    /// if it was already recorded in this session), read its stored
    /// target, resolve that target against the symlink's own containing
    /// directory, and recurse: the parent of a symlink is the parent of
    /// what it resolves to.
    pub fn symlink_parent(&mut self, fs: &Fs, path: &RPath) -> (r: Result<RPath, Error>)
        requires
            fs.wf(),
        ensures
            vis_set(old(self).symlinks_visited@).contains(path@) ==> (r matches Err(e)
                && e matches Error::Cycle(q) && q@ == path@
                && final(self).symlinks_visited@ == old(self).symlinks_visited@),
            !vis_set(old(self).symlinks_visited@).contains(path@) ==> {
                let v1 = vis_set(old(self).symlinks_visited@).insert(path@);
                if fs@.entries.contains_key(path@) && fs@.entries[path@] is Link {
                    out_matches(
                        r,
                        final(self).symlinks_visited@,
                        run(
                            fs@,
                            v1,
                            path@.drop_last(),
                            fs@.entries[path@]->Link_0 + seq![SComp::Up],
                        ),
                    )
                } else {
                    r matches Err(e) && e matches Error::IO(q) && q@ == path@
                        && vis_set(final(self).symlinks_visited@) == v1
                }
            },
        decreases uv(fs@, vis_set(old(self).symlinks_visited@)), 0int,
    {
        let ghost m = fs@;
        let ghost v0 = vis_set(self.symlinks_visited@);
        if self.visited_contains(path) {
            return Err(Error::Cycle(path.duplicate()));
        }
        let ghost vseq0 = self.symlinks_visited@;
        self.symlinks_visited.push(path.duplicate());
        proof {
            assert(self.symlinks_visited@.drop_last() =~= vseq0);
            assert(vis_set(self.symlinks_visited@) == v0.insert(path@));
        }
        match fs.lookup(path) {
            Option::Some(k) => {
                match k {
                    EntryKind::Symlink(t) => {
                        proof {
                            assert(path@.len() > 0) by {
                                assert(m.entries.contains_key(path@));
                            }
                        }
                        let symlink_dir = path.strip_last();
                        let target = t.duplicate();
                        proof {
                            lemma_uv_insert(m, v0, path@);
                        }
                        let joined = self.join(fs, &symlink_dir, &target);
                        let ghost v1 = v0.insert(path@);
                        proof {
                            lemma_run_seq(m, v1, path@.drop_last(), target@, seq![SComp::Up]);
                            lemma_run_vis_mono(m, v1, path@.drop_last(), target@);
                        }
                        match joined {
                            Ok(resolved) => {
                                proof {
                                    lemma_uv_mono(
                                        m,
                                        v1,
                                        vis_set(self.symlinks_visited@),
                                    );
                                }
                                self.parent(fs, &resolved)
                            },
                            Err(e) => Err(e),
                        }
                    },
                    _ => Err(Error::IO(path.duplicate())),
                }
            },
            Option::None => Err(Error::IO(path.duplicate())),
        }
    }

    /// The parent of a directory, computed syntactically: drop a final
    /// named segment; the directory `.` has parent `..`; a path already
    /// ending in `..` ascends one more level (no folding of `..` chains at
    /// the base); the root is its own parent.
    pub fn dir_parent(&mut self, path: &RPath) -> (r: Result<RPath, Error>)
        requires
            path@.len() > 0,
        ensures
            r matches Ok(q) && q@ == dir_parent_at(path@),
            final(self).symlinks_visited@ == old(self).symlinks_visited@,
    {
        let n = path.comps.len();
        proof {
            assert(path@.len() == n);
            assert(path@[n as int - 1] == path.comps@[n as int - 1]@);
        }
        match &path.comps[n - 1] {
            Component::Normal(_) => Ok(path.strip_last()),
            Component::CurDir => {
                if n == 1 {
                    proof {
                        assert(path@ =~= seq![SComp::Cur]);
                    }
                    Ok(RPath::dotdot())
                } else {
                    proof {
                        assert(path@ != seq![SComp::Cur]);
                    }
                    Ok(path.duplicate())
                }
            },
            Component::ParentDir => {
                proof {
                    assert(path@ != seq![SComp::Cur]);
                }
                let mut q = path.duplicate();
                q.push_comp(Component::ParentDir);
                Ok(q)
            },
            Component::RootDir => {
                proof {
                    assert(path@ != seq![SComp::Cur]);
                }
                Ok(path.duplicate())
            },
        }
    }

    /// The parent of a plain file: simply the syntactic parent, since a
    /// file cannot be a containing directory.
    pub fn file_parent(&self, path: &RPath) -> (r: Result<RPath, Error>)
        requires
            path@.len() > 0,
            !(path@.last() is Root),
        ensures
            r matches Ok(q) && q@ == path@.drop_last(),
    {
        Ok(path.strip_last())
    }

    /// Join `origin` with `other`, folding `..` away through parent
    /// resolution rather than lexically: `.` segments are dropped, named
    /// segments appended, a root marker restarts resolution at the root
    /// (an absolute path joins to itself), and each `..` replaces the path
    /// resolved so far by its real parent.
    #[verifier::loop_isolation(false)]
    pub fn join(&mut self, fs: &Fs, origin: &RPath, other: &RPath) -> (r: Result<RPath, Error>)
        requires
            fs.wf(),
        ensures
            out_matches(
                r,
                final(self).symlinks_visited@,
                run(fs@, vis_set(old(self).symlinks_visited@), origin@, other@),
            ),
        decreases uv(fs@, vis_set(old(self).symlinks_visited@)), 2int,
    {
        let ghost m = fs@;
        let ghost v0 = vis_set(old(self).symlinks_visited@);
        let mut resolving = origin.duplicate();
        let n = other.comps.len();
        let mut i: usize = 0;
        proof {
            assert(other@.skip(0) =~= other@);
        }
        while i < n
            invariant
                i <= n,
                v0.subset_of(vis_set(self.symlinks_visited@)),
                run(m, v0, origin@, other@) == run(
                    m,
                    vis_set(self.symlinks_visited@),
                    resolving@,
                    other@.skip(i as int),
                ),
            decreases uv(m, vis_set(self.symlinks_visited@)), n - i,
        {
            let ghost vcur = vis_set(self.symlinks_visited@);
            let ghost pend = other@.skip(i as int);
            proof {
                assert(pend.len() > 0);
                assert(pend[0] == other@[i as int]);
                assert(pend.drop_first() =~= other@.skip(i as int + 1));
            }
            let c = &other.comps[i];
            match c {
                Component::CurDir => {
                    proof {
                        reveal_with_fuel(run, 1);
                    }
                },
                Component::RootDir => {
                    resolving = RPath::root();
                    proof {
                        reveal_with_fuel(run, 1);
                    }
                },
                Component::Normal(name) => {
                    resolving.push_comp(Component::Normal(name.clone()));
                    proof {
                        reveal_with_fuel(run, 1);
                    }
                },
                Component::ParentDir => {
                    proof {
                        assert(pend =~= seq![SComp::Up] + other@.skip(i as int + 1));
                        lemma_run_seq(
                            m,
                            vcur,
                            resolving@,
                            seq![SComp::Up],
                            other@.skip(i as int + 1),
                        );
                        lemma_run_vis_mono(m, vcur, resolving@, seq![SComp::Up]);
                        lemma_uv_mono(m, v0, vcur);
                    }
                    match self.parent(fs, &resolving) {
                        Ok(p) => {
                            proof {
                                lemma_uv_mono(m, vcur, vis_set(self.symlinks_visited@));
                            }
                            resolving = p;
                        },
                        Err(e) => {
                            return Err(e);
                        },
                    }
                },
            }
            i = i + 1;
        }
        proof {
            assert(other@.skip(n as int) =~= Seq::<SComp>::empty());
            reveal_with_fuel(run, 1);
        }
        Ok(resolving)
    }

    /// Clean a path: resolve the whole of it as a relative continuation of
    /// the empty base, so that every `..` in it is folded away through
    /// parent resolution wherever the model allows, and kept otherwise.
    pub fn clean(&mut self, fs: &Fs, path: &RPath) -> (r: Result<RPath, Error>)
        requires
            fs.wf(),
        ensures
            out_matches(
                r,
                final(self).symlinks_visited@,
                run(fs@, vis_set(old(self).symlinks_visited@), Seq::<SComp>::empty(), path@),
            ),
    {
        let empty = RPath::new();
        self.join(fs, &empty, path)
    }
}

} // verus!
