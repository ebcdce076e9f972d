//! An explicit model of the directory tree that path resolution walks.
//!
//! Resolution never touches a live filesystem; it consults a value of
//! [`Fs`], a table from textual paths (in component form) to what a probe
//! that does not follow a final symlink would report there, plus a table of
//! canonical forms for the root-detection query. A caller that wants
//! answers about a real directory tree fills the tables with the entries
//! the walk will probe.
use vstd::prelude::*;

use crate::path::{path_wf, RPath, SComp, SPath};

verus! {

/// What one filesystem entry is, as reported by a probe that does not
/// follow a final symlink: a plain file, a directory, or a symlink with
/// its stored target.
#[derive(Clone, Debug, PartialEq, Eq)]
pub enum EntryKind {
    File,
    Dir,
    Symlink(RPath),
}

/// Spec view of an entry kind.
pub enum EKind {
    File,
    Dir,
    Link(SPath),
}

impl View for EntryKind {
    type V = EKind;

    open spec fn view(&self) -> EKind {
        match self {
            EntryKind::File => EKind::File,
            EntryKind::Dir => EKind::Dir,
            EntryKind::Symlink(t) => EKind::Link(t@),
        }
    }
}

/// Spec view of the whole model: two finite maps.
pub struct FsV {
    pub entries: Map<SPath, EKind>,
    pub canon: Map<SPath, SPath>,
}

pub open spec fn pairs_entries(s: Seq<(RPath, EntryKind)>) -> Map<SPath, EKind>
    decreases s.len(),
{
    if s.len() == 0 {
        Map::empty()
    } else {
        pairs_entries(s.drop_last()).insert(s.last().0@, s.last().1@)
    }
}

pub open spec fn pairs_canon(s: Seq<(RPath, RPath)>) -> Map<SPath, SPath>
    decreases s.len(),
{
    if s.len() == 0 {
        Map::empty()
    } else {
        pairs_canon(s.drop_last()).insert(s.last().0@, s.last().1@)
    }
}

pub open spec fn keys_distinct_e(s: Seq<(RPath, EntryKind)>) -> bool {
    forall|i: int, j: int| 0 <= i < j < s.len() ==> (#[trigger] s[i]).0@ != (#[trigger] s[j]).0@
}

pub open spec fn keys_distinct_c(s: Seq<(RPath, RPath)>) -> bool {
    forall|i: int, j: int| 0 <= i < j < s.len() ==> (#[trigger] s[i]).0@ != (#[trigger] s[j]).0@
}

/// The conditions a live directory tree always meets: keys are non-empty
/// well-formed paths; a key whose last component is not a named segment
/// denotes a directory whenever it exists at all (a probe of `a/..`, `.`
/// or `/` can only find a directory); symlink targets are well-formed
/// paths; canonical forms are absolute.
pub open spec fn fs_wf(m: FsV) -> bool {
    &&& m.entries.dom().finite()
    &&& forall|k: SPath| #[trigger] m.entries.contains_key(k) ==> path_wf(k) && k.len() > 0
    &&& forall|k: SPath|
        #[trigger] m.entries.contains_key(k) && !(k.last() is Name) ==> m.entries[k] is Dir
    &&& forall|k: SPath|
        m.entries.contains_key(k) && (#[trigger] m.entries[k]) is Link
            ==> path_wf(m.entries[k]->Link_0)
    &&& forall|k: SPath| #[trigger] m.canon.contains_key(k)
            ==> path_wf(k) && path_wf(m.canon[k]) && m.canon[k].len() > 0 && m.canon[k][0] is Root
}

/// The filesystem model. `entries` answers the probe that classifies an
/// entry without following a final symlink (and, for a symlink, holds the
/// stored target that reading the link returns); `canon` answers full
/// canonicalization, used only for root detection.
#[derive(Clone, Debug)]
pub struct Fs {
    pub entries: Vec<(RPath, EntryKind)>,
    pub canon: Vec<(RPath, RPath)>,
}

impl View for Fs {
    type V = FsV;

    open spec fn view(&self) -> FsV {
        FsV { entries: pairs_entries(self.entries@), canon: pairs_canon(self.canon@) }
    }
}

proof fn lemma_pairs_entries_props(s: Seq<(RPath, EntryKind)>)
    ensures
        pairs_entries(s).dom().finite(),
        forall|k: SPath|
            #[trigger] pairs_entries(s).contains_key(k)
                <==> exists|i: int| 0 <= i < s.len() && (#[trigger] s[i]).0@ == k,
        keys_distinct_e(s) ==> forall|i: int|
            0 <= i < s.len() ==> pairs_entries(s)[(#[trigger] s[i]).0@] == s[i].1@,
    decreases s.len(),
{
    if s.len() == 0 {
    } else {
        lemma_pairs_entries_props(s.drop_last());
        assert forall|k: SPath| #[trigger] pairs_entries(s).contains_key(k)
            implies exists|i: int| 0 <= i < s.len() && (#[trigger] s[i]).0@ == k by {
            if k == s.last().0@ {
                assert((#[trigger] s[s.len() - 1]).0@ == k);
            } else {
                assert(pairs_entries(s.drop_last()).contains_key(k));
                let i = choose|i: int|
                    0 <= i < s.drop_last().len() && (#[trigger] s.drop_last()[i]).0@ == k;
                assert((#[trigger] s[i]).0@ == k);
            }
        }
        assert forall|k: SPath| (exists|i: int| 0 <= i < s.len() && (#[trigger] s[i]).0@ == k)
            implies #[trigger] pairs_entries(s).contains_key(k) by {
            let i = choose|i: int| 0 <= i < s.len() && (#[trigger] s[i]).0@ == k;
            if i < s.len() - 1 {
                assert(s.drop_last()[i] == s[i]);
                assert(pairs_entries(s.drop_last()).contains_key(k));
            }
        }
        if keys_distinct_e(s) {
            assert forall|i: int| 0 <= i < s.len()
                implies pairs_entries(s)[(#[trigger] s[i]).0@] == s[i].1@ by {
                if i < s.len() - 1 {
                    assert(s.drop_last()[i] == s[i]);
                    assert(s[i].0@ != s.last().0@);
                }
            }
        }
    }
}

proof fn lemma_pairs_canon_props(s: Seq<(RPath, RPath)>)
    ensures
        pairs_canon(s).dom().finite(),
        forall|k: SPath|
            #[trigger] pairs_canon(s).contains_key(k)
                <==> exists|i: int| 0 <= i < s.len() && (#[trigger] s[i]).0@ == k,
        keys_distinct_c(s) ==> forall|i: int|
            0 <= i < s.len() ==> pairs_canon(s)[(#[trigger] s[i]).0@] == s[i].1@,
    decreases s.len(),
{
    if s.len() == 0 {
    } else {
        lemma_pairs_canon_props(s.drop_last());
        assert forall|k: SPath| #[trigger] pairs_canon(s).contains_key(k)
            implies exists|i: int| 0 <= i < s.len() && (#[trigger] s[i]).0@ == k by {
            if k == s.last().0@ {
                assert((#[trigger] s[s.len() - 1]).0@ == k);
            } else {
                assert(pairs_canon(s.drop_last()).contains_key(k));
                let i = choose|i: int|
                    0 <= i < s.drop_last().len() && (#[trigger] s.drop_last()[i]).0@ == k;
                assert((#[trigger] s[i]).0@ == k);
            }
        }
        assert forall|k: SPath| (exists|i: int| 0 <= i < s.len() && (#[trigger] s[i]).0@ == k)
            implies #[trigger] pairs_canon(s).contains_key(k) by {
            let i = choose|i: int| 0 <= i < s.len() && (#[trigger] s[i]).0@ == k;
            if i < s.len() - 1 {
                assert(s.drop_last()[i] == s[i]);
                assert(pairs_canon(s.drop_last()).contains_key(k));
            }
        }
        if keys_distinct_c(s) {
            assert forall|i: int| 0 <= i < s.len()
                implies pairs_canon(s)[(#[trigger] s[i]).0@] == s[i].1@ by {
                if i < s.len() - 1 {
                    assert(s.drop_last()[i] == s[i]);
                    assert(s[i].0@ != s.last().0@);
                }
            }
        }
    }
}

impl Fs {
    /// Structural soundness of the table representation together with the
    /// conditions of [`fs_wf`] on its contents.
    pub open spec fn wf(self) -> bool {
        &&& keys_distinct_e(self.entries@)
        &&& keys_distinct_c(self.canon@)
        &&& fs_wf(self@)
    }

    /// An empty model.
    pub fn new() -> (r: Fs)
        ensures
            r.wf(),
            r@.entries == Map::<SPath, EKind>::empty(),
            r@.canon == Map::<SPath, SPath>::empty(),
    {
        Fs { entries: Vec::new(), canon: Vec::new() }
    }

    fn add_entry(&mut self, p: RPath, k: EntryKind)
        requires
            old(self).wf(),
            path_wf(p@),
            p@.len() > 0,
            !(p@.last() is Name) ==> k@ is Dir,
            k@ matches EKind::Link(t) ==> path_wf(t),
            !old(self)@.entries.contains_key(p@),
        ensures
            final(self).wf(),
            final(self)@.entries == old(self)@.entries.insert(p@, k@),
            final(self)@.canon == old(self)@.canon,
    {
        proof {
            lemma_pairs_entries_props(self.entries@);
        }
        let ghost oldseq = self.entries@;
        let ghost pv = p@;
        let ghost kv = k@;
        self.entries.push((p, k));
        proof {
            assert(self.entries@.drop_last() =~= oldseq);
            assert(self.entries@.last() == (self.entries@[oldseq.len() as int]));
            assert(keys_distinct_e(self.entries@)) by {
                assert forall|i: int, j: int| 0 <= i < j < self.entries@.len()
                    implies (#[trigger] self.entries@[i]).0@ != (#[trigger] self.entries@[j]).0@ by {
                    if j < oldseq.len() {
                        assert(self.entries@[i] == oldseq[i]);
                        assert(self.entries@[j] == oldseq[j]);
                    } else {
                        assert(self.entries@[i] == oldseq[i]);
                        assert((exists|n: int| 0 <= n < oldseq.len() && (#[trigger] oldseq[n]).0@ == pv)
                            ==> old(self)@.entries.contains_key(pv));
                        assert(self.entries@[j].0@ == pv);
                    }
                }
            }
            assert(fs_wf(self@)) by {
                let m0 = old(self)@.entries;
                let m1 = self@.entries;
                assert(m1 == m0.insert(pv, kv));
                assert(m1.dom() =~= m0.dom().insert(pv));
                assert forall|q: SPath| #[trigger] m1.contains_key(q)
                    implies path_wf(q) && q.len() > 0 by {
                    if q != pv {
                        assert(m0.contains_key(q));
                    }
                }
                assert forall|q: SPath| #[trigger] m1.contains_key(q) && !(q.last() is Name)
                    implies m1[q] is Dir by {
                    if q != pv {
                        assert(m0.contains_key(q));
                    }
                }
                assert forall|q: SPath|
                    m1.contains_key(q) && (#[trigger] m1[q]) is Link
                    implies path_wf(m1[q]->Link_0) by {
                    if q != pv {
                        assert(m0.contains_key(q));
                    }
                }
            }
        }
    }

    /// Record a plain file at `p`.
    pub fn add_file(&mut self, p: RPath)
        requires
            old(self).wf(),
            path_wf(p@),
            p@.len() > 0,
            p@.last() is Name,
            !old(self)@.entries.contains_key(p@),
        ensures
            final(self).wf(),
            final(self)@.entries == old(self)@.entries.insert(p@, EKind::File),
            final(self)@.canon == old(self)@.canon,
    {
        self.add_entry(p, EntryKind::File)
    }

    /// Record a directory at `p`.
    pub fn add_dir(&mut self, p: RPath)
        requires
            old(self).wf(),
            path_wf(p@),
            p@.len() > 0,
            !old(self)@.entries.contains_key(p@),
        ensures
            final(self).wf(),
            final(self)@.entries == old(self)@.entries.insert(p@, EKind::Dir),
            final(self)@.canon == old(self)@.canon,
    {
        self.add_entry(p, EntryKind::Dir)
    }

    /// Record a symlink at `p` whose stored target is `target`.
    pub fn add_symlink(&mut self, p: RPath, target: RPath)
        requires
            old(self).wf(),
            path_wf(p@),
            p@.len() > 0,
            p@.last() is Name,
            path_wf(target@),
            !old(self)@.entries.contains_key(p@),
        ensures
            final(self).wf(),
            final(self)@.entries == old(self)@.entries.insert(p@, EKind::Link(target@)),
            final(self)@.canon == old(self)@.canon,
    {
        self.add_entry(p, EntryKind::Symlink(target))
    }

    /// Record that full canonicalization of `p` yields the absolute path `c`.
    pub fn add_canon(&mut self, p: RPath, c: RPath)
        requires
            old(self).wf(),
            path_wf(p@),
            path_wf(c@),
            c@.len() > 0,
            c@[0] is Root,
            !old(self)@.canon.contains_key(p@),
        ensures
            final(self).wf(),
            final(self)@.entries == old(self)@.entries,
            final(self)@.canon == old(self)@.canon.insert(p@, c@),
    {
        proof {
            lemma_pairs_canon_props(self.canon@);
        }
        let ghost oldseq = self.canon@;
        let ghost pv = p@;
        let ghost cv = c@;
        self.canon.push((p, c));
        proof {
            assert(self.canon@.drop_last() =~= oldseq);
            assert(keys_distinct_c(self.canon@)) by {
                assert forall|i: int, j: int| 0 <= i < j < self.canon@.len()
                    implies (#[trigger] self.canon@[i]).0@ != (#[trigger] self.canon@[j]).0@ by {
                    if j < oldseq.len() {
                        assert(self.canon@[i] == oldseq[i]);
                        assert(self.canon@[j] == oldseq[j]);
                    } else {
                        assert(self.canon@[i] == oldseq[i]);
                        assert((exists|n: int| 0 <= n < oldseq.len() && (#[trigger] oldseq[n]).0@ == pv)
                            ==> old(self)@.canon.contains_key(pv));
                        assert(self.canon@[j].0@ == pv);
                    }
                }
            }
            assert(fs_wf(self@)) by {
                let m0 = old(self)@.canon;
                let m1 = self@.canon;
                assert(m1 == m0.insert(pv, cv));
                assert forall|q: SPath| #[trigger] m1.contains_key(q)
                    implies path_wf(q) && path_wf(m1[q]) && m1[q].len() > 0 && m1[q][0] is Root by {
                    if q != pv {
                        assert(m0.contains_key(q));
                    }
                }
            }
        }
    }

    /// Probe an entry: what is at textual path `p`, if anything.
    pub fn lookup(&self, p: &RPath) -> (r: Option<&EntryKind>)
        requires
            self.wf(),
        ensures
            match r {
                Option::Some(k) => self@.entries.contains_key(p@) && k@ == self@.entries[p@],
                Option::None => !self@.entries.contains_key(p@),
            },
    {
        proof {
            lemma_pairs_entries_props(self.entries@);
        }
        let n = self.entries.len();
        let mut i: usize = 0;
        while i < n
            invariant
                i <= n,
                n == self.entries@.len(),
                self.wf(),
                forall|j: int| 0 <= j < i ==> (#[trigger] self.entries@[j]).0@ != p@,
            decreases n - i,
        {
            if self.entries[i].0.eq_path(p) {
                proof {
                    lemma_pairs_entries_props(self.entries@);
                }
                return Option::Some(&self.entries[i].1);
            }
            i = i + 1;
        }
        proof {
            lemma_pairs_entries_props(self.entries@);
            assert(!self@.entries.contains_key(p@)) by {
                if self@.entries.contains_key(p@) {
                    let j = choose|j: int|
                        0 <= j < self.entries@.len() && (#[trigger] self.entries@[j]).0@ == p@;
                    assert(false);
                }
            }
        }
        Option::None
    }

    /// Look up the canonical form of `p`, if the table holds one.
    pub fn lookup_canon(&self, p: &RPath) -> (r: Option<&RPath>)
        requires
            self.wf(),
        ensures
            match r {
                Option::Some(c) => self@.canon.contains_key(p@) && c@ == self@.canon[p@],
                Option::None => !self@.canon.contains_key(p@),
            },
    {
        proof {
            lemma_pairs_canon_props(self.canon@);
        }
        let n = self.canon.len();
        let mut i: usize = 0;
        while i < n
            invariant
                i <= n,
                n == self.canon@.len(),
                self.wf(),
                forall|j: int| 0 <= j < i ==> (#[trigger] self.canon@[j]).0@ != p@,
            decreases n - i,
        {
            if self.canon[i].0.eq_path(p) {
                proof {
                    lemma_pairs_canon_props(self.canon@);
                }
                return Option::Some(&self.canon[i].1);
            }
            i = i + 1;
        }
        proof {
            lemma_pairs_canon_props(self.canon@);
            assert(!self@.canon.contains_key(p@)) by {
                if self@.canon.contains_key(p@) {
                    let j = choose|j: int|
                        0 <= j < self.canon@.len() && (#[trigger] self.canon@[j]).0@ == p@;
                    assert(false);
                }
            }
        }
        Option::None
    }
}

} // verus!
