//! General properties of resolution, stated over the spec-level walk and
//! proved for every well-formed model.
use vstd::prelude::*;

use crate::fs::{fs_wf, EKind, FsV};
use crate::path::{SComp, SPath};
use crate::resolve::{dir_parent_at, lemma_uv_insert, run, uv, SOut};
use crate::{clean_sem, dotify, parent_sem};

verus! {

broadcast use vstd::set::group_set_axioms;

impl SOut {
    /// The resulting path of a finished walk.
    pub open spec fn path(self) -> SPath {
        match self {
            SOut::Done { path, vis } => path,
            SOut::Io { path, vis } => path,
            SOut::Cycle { path, vis } => path,
        }
    }
}

/// A run of named segments in the pending queue is simply appended to the
/// current path, touching nothing.
pub proof fn lemma_run_names(m: FsV, v: Set<SPath>, cur: SPath, names: SPath, pend: SPath)
    requires
        m.entries.dom().finite(),
        forall|i: int| 0 <= i < names.len() ==> (#[trigger] names[i]) is Name,
    ensures
        run(m, v, cur, names + pend) == run(m, v, cur + names, pend),
    decreases names.len(),
{
    if names.len() == 0 {
        assert(names + pend =~= pend);
        assert(cur + names =~= cur);
    } else {
        assert((names + pend)[0] == names[0]);
        assert((names + pend).drop_first() =~= names.drop_first() + pend);
        let n = names[0]->Name_0;
        lemma_run_names(m, v, cur.push(SComp::Name(n)), names.drop_first(), pend);
        assert(cur.push(SComp::Name(n)) + names.drop_first() =~= cur + names);
    }
}

/// Symlink transparency: the logical parent of a path whose entry is a
/// plain file or directory under its final named segment is the syntactic
/// parent, with nothing dereferenced.
pub proof fn lemma_parent_plain(m: FsV, p: SPath)
    requires
        fs_wf(m),
        m.entries.contains_key(p),
        !(m.entries[p] is Link),
        p.len() > 0,
        p.last() is Name,
    ensures
        parent_sem(m, p) == (SOut::Done { path: p.drop_last(), vis: Set::<SPath>::empty() }),
{
    reveal_with_fuel(run, 2);
    assert(seq![SComp::Up].drop_first() =~= Seq::<SComp>::empty());
}

/// The parent of a bare ascent is a further ascent, never an error and
/// never folded away: the parent of `..` is `../..` whenever `..` denotes
/// a directory, and the parent of the empty path is `..` with no probe at
/// all.
pub proof fn lemma_parent_dotdot(m: FsV)
    requires
        fs_wf(m),
        m.entries.contains_key(seq![SComp::Up]),
    ensures
        parent_sem(m, seq![SComp::Up]) == (SOut::Done {
            path: seq![SComp::Up, SComp::Up],
            vis: Set::<SPath>::empty(),
        }),
        parent_sem(m, Seq::<SComp>::empty()) == (SOut::Done {
            path: seq![SComp::Up],
            vis: Set::<SPath>::empty(),
        }),
    decreases 0int,
{
    reveal_with_fuel(run, 3);
    assert(seq![SComp::Up].drop_first() =~= Seq::<SComp>::empty());
    let up = seq![SComp::Up];
    assert(!(up.last() is Name));
    assert(m.entries[up] is Dir);
    assert(up != seq![SComp::Cur]);
    assert(dir_parent_at(up) =~= seq![SComp::Up, SComp::Up]);
}

/// Root fixpoint: the parent of the root is the root itself, and the root
/// passes the root test when the model records its canonical form.
pub proof fn lemma_root_fixpoint(m: FsV)
    requires
        fs_wf(m),
        m.entries.contains_key(seq![SComp::Root]),
    ensures
        parent_sem(m, seq![SComp::Root]) == (SOut::Done {
            path: seq![SComp::Root],
            vis: Set::<SPath>::empty(),
        }),
        m.canon.contains_key(seq![SComp::Root]) && m.canon[seq![SComp::Root]] == seq![SComp::Root]
            ==> (m.canon[dotify(seq![SComp::Root])].last() is Root),
{
    reveal_with_fuel(run, 2);
    assert(seq![SComp::Up].drop_first() =~= Seq::<SComp>::empty());
    let root = seq![SComp::Root];
    assert(!(root.last() is Name));
    assert(m.entries[root] is Dir);
    assert(root != seq![SComp::Cur]);
    assert(!(root.last() is Up));
    assert(dir_parent_at(root) == root);
}

/// Minimal resolution: for a relative symlink pointing at a sibling name,
/// the parent is the symlink's own directory; only the symlink and the
/// sibling entry are consulted, whatever else the model does or does not
/// hold.
pub proof fn lemma_parent_sibling_symlink(m: FsV, d: SPath, l: Seq<char>, b: Seq<char>)
    requires
        fs_wf(m),
        m.entries.contains_key(d.push(SComp::Name(l))),
        m.entries[d.push(SComp::Name(l))] == EKind::Link(seq![SComp::Name(b)]),
        m.entries.contains_key(d.push(SComp::Name(b))),
        m.entries[d.push(SComp::Name(b))] == EKind::File,
    ensures
        parent_sem(m, d.push(SComp::Name(l))) == (SOut::Done {
            path: d,
            vis: Set::<SPath>::empty().insert(d.push(SComp::Name(l))),
        }),
{
    reveal_with_fuel(run, 2);
    let lp = d.push(SComp::Name(l));
    let bp = d.push(SComp::Name(b));
    let up = seq![SComp::Up];
    let v1 = Set::<SPath>::empty().insert(lp);
    assert(up.drop_first() =~= Seq::<SComp>::empty());
    lemma_uv_insert(m, Set::empty(), lp);
    assert(lp.drop_last() =~= d);
    let t = seq![SComp::Name(b)];
    assert(t + up + Seq::<SComp>::empty() =~= t + up);
    assert(parent_sem(m, lp) == run(m, v1, d, t + up));
    lemma_run_names(m, v1, d, t, up);
    assert(d + t =~= bp);
    assert(run(m, v1, d, t + up) == run(m, v1, bp, up));
    assert(bp.drop_last() =~= d);
    assert(run(m, v1, bp, up) == run(m, v1, d, Seq::<SComp>::empty()));
}

/// Cycle detection: two symlinks in one directory naming each other make
/// the parent query fail with `Cycle` at the symlink where the loop
/// closes.
pub proof fn lemma_parent_cycle(m: FsV, d: SPath, n1: Seq<char>, n2: Seq<char>)
    requires
        fs_wf(m),
        n1 != n2,
        m.entries.contains_key(d.push(SComp::Name(n1))),
        m.entries[d.push(SComp::Name(n1))] == EKind::Link(seq![SComp::Name(n2)]),
        m.entries.contains_key(d.push(SComp::Name(n2))),
        m.entries[d.push(SComp::Name(n2))] == EKind::Link(seq![SComp::Name(n1)]),
    ensures
        parent_sem(m, d.push(SComp::Name(n1))) matches SOut::Cycle { path, vis } && path == d.push(
            SComp::Name(n1),
        ),
{
    reveal_with_fuel(run, 2);
    let p1 = d.push(SComp::Name(n1));
    let p2 = d.push(SComp::Name(n2));
    assert(p1 != p2) by {
        assert(p1.last() == SComp::Name(n1));
        assert(p2.last() == SComp::Name(n2));
    }
    let up = seq![SComp::Up];
    let v0 = Set::<SPath>::empty();
    let v1 = v0.insert(p1);
    let v2 = v1.insert(p2);
    assert(up.drop_first() =~= Seq::<SComp>::empty());
    let t2 = seq![SComp::Name(n2)];
    let t1 = seq![SComp::Name(n1)];
    lemma_uv_insert(m, v0, p1);
    assert(t2 + up + Seq::<SComp>::empty() =~= t2 + up);
    assert(p1.drop_last() =~= d);
    assert(parent_sem(m, p1) == run(m, v1, d, t2 + up));
    lemma_run_names(m, v1, d, t2, up);
    assert(d + t2 =~= p2);
    assert(run(m, v1, d, t2 + up) == run(m, v1, p2, up));
    assert(!v1.contains(p2));
    lemma_uv_insert(m, v1, p2);
    assert(t1 + up + Seq::<SComp>::empty() =~= t1 + up);
    assert(p2.drop_last() =~= d);
    assert(run(m, v1, p2, up) == run(m, v2, d, t1 + up));
    lemma_run_names(m, v2, d, t1, up);
    assert(d + t1 =~= p1);
    assert(run(m, v2, d, t1 + up) == run(m, v2, p1, up));
    assert(v2.contains(p1));
    assert(run(m, v2, p1, up) == (SOut::Cycle { path: p1, vis: v2 }));
}

/// Absolute symlink resolution: a symlink whose stored target is absolute
/// is followed directly to that target before the parent search goes on;
/// the symlink's own location plays no further part.
pub proof fn lemma_parent_absolute_symlink(m: FsV, p: SPath)
    requires
        fs_wf(m),
        m.entries.contains_key(p),
        m.entries[p] is Link,
        m.entries[p]->Link_0.len() > 0,
        m.entries[p]->Link_0[0] is Root,
        forall|i: int|
            0 < i < m.entries[p]->Link_0.len() ==> (#[trigger] m.entries[p]->Link_0[i]) is Name,
    ensures
        parent_sem(m, p) == run(
            m,
            Set::<SPath>::empty().insert(p),
            m.entries[p]->Link_0,
            seq![SComp::Up],
        ),
{
    reveal_with_fuel(run, 2);
    let t = m.entries[p]->Link_0;
    let up = seq![SComp::Up];
    let v1 = Set::<SPath>::empty().insert(p);
    assert(up.drop_first() =~= Seq::<SComp>::empty());
    lemma_uv_insert(m, Set::empty(), p);
    assert(t + up + Seq::<SComp>::empty() =~= t + up);
    assert(parent_sem(m, p) == run(m, v1, p.drop_last(), t + up));
    assert((t + up)[0] == t[0]);
    assert((t + up).drop_first() =~= t.drop_first() + up);
    assert(run(m, v1, p.drop_last(), t + up) == run(m, v1, seq![SComp::Root], t.drop_first() + up));
    let tail = t.drop_first();
    assert(forall|i: int| 0 <= i < tail.len() ==> (#[trigger] tail[i]) is Name);
    lemma_run_names(m, v1, seq![SComp::Root], tail, up);
    assert(seq![SComp::Root] + tail =~= t);
}

/// Iterated top-level parent queries: `k` applications of `real_parent`,
/// each starting from the (dot-normalized) result of the one before.
pub open spec fn ascend(m: FsV, p: SPath, k: nat) -> SOut
    decreases k,
{
    if k == 0 {
        SOut::Done { path: p, vis: Set::<SPath>::empty() }
    } else {
        let prev = ascend(m, p, (k - 1) as nat);
        if prev is Done {
            parent_sem(m, dotify(prev.path()))
        } else {
            prev
        }
    }
}

/// Ascent through a plain absolute hierarchy strips one named segment per
/// step: `k` parent queries from a symlink-free absolute path land on its
/// `k`-th ancestor.
pub proof fn lemma_ascend_plain(m: FsV, p: SPath, k: nat)
    requires
        fs_wf(m),
        p.len() > 0,
        p[0] is Root,
        forall|i: int| 0 < i < p.len() ==> (#[trigger] p[i]) is Name,
        forall|j: int| 1 <= j <= p.len() ==> m.entries.contains_key(#[trigger] p.subrange(0, j)),
        forall|j: int| 1 <= j <= p.len() ==> !(m.entries[#[trigger] p.subrange(0, j)] is Link),
        k <= p.len() - 1,
    ensures
        ascend(m, p, k) == (SOut::Done {
            path: p.subrange(0, p.len() - k),
            vis: Set::<SPath>::empty(),
        }),
    decreases k,
{
    if k == 0 {
        assert(p.subrange(0, p.len() as int) =~= p);
    } else {
        lemma_ascend_plain(m, p, (k - 1) as nat);
        let j = p.len() - (k - 1);
        let q = p.subrange(0, j as int);
        assert(q.len() == j >= 2);
        assert(dotify(q) == q);
        assert(q.last() == p[j as int - 1]);
        lemma_parent_plain(m, q);
        assert(q.drop_last() =~= p.subrange(0, j as int - 1));
    }
}

/// Parent monotonicity under ascent: from a symlink-free absolute path of
/// depth `d` (that many named segments under the root), `d` parent
/// queries reach the root exactly; the root then passes the root test and
/// is its own parent, so root-ness holds from that point on.
pub proof fn lemma_ascend_reaches_root(m: FsV, p: SPath)
    requires
        fs_wf(m),
        p.len() > 0,
        p[0] is Root,
        forall|i: int| 0 < i < p.len() ==> (#[trigger] p[i]) is Name,
        forall|j: int| 1 <= j <= p.len() ==> m.entries.contains_key(#[trigger] p.subrange(0, j)),
        forall|j: int| 1 <= j <= p.len() ==> !(m.entries[#[trigger] p.subrange(0, j)] is Link),
        m.canon.contains_key(seq![SComp::Root]),
        m.canon[seq![SComp::Root]] == seq![SComp::Root],
    ensures
        ascend(m, p, (p.len() - 1) as nat) == (SOut::Done {
            path: seq![SComp::Root],
            vis: Set::<SPath>::empty(),
        }),
        m.canon[dotify(seq![SComp::Root])].last() is Root,
        parent_sem(m, seq![SComp::Root]) == (SOut::Done {
            path: seq![SComp::Root],
            vis: Set::<SPath>::empty(),
        }),
{
    lemma_ascend_plain(m, p, (p.len() - 1) as nat);
    assert(p.subrange(0, 1) =~= seq![SComp::Root]) by {
        assert(p[0] is Root);
        assert(p.subrange(0, 1).len() == 1);
        assert(p.subrange(0, 1)[0] == p[0]);
    }
    assert(m.entries.contains_key(seq![SComp::Root]));
    lemma_root_fixpoint(m);
}

/// A clean form: no `.` anywhere, the root marker only first, and every
/// `..` inside the leading run of `..` segments.
pub open spec fn cleanform(p: SPath) -> bool {
    &&& forall|i: int| 0 <= i < p.len() ==> !((#[trigger] p[i]) is Cur)
    &&& forall|i: int| 0 < i < p.len() ==> !((#[trigger] p[i]) is Root)
    &&& forall|i: int, j: int|
        0 <= j < i < p.len() && (#[trigger] p[i]) is Up ==> (#[trigger] p[j]) is Up
}

/// `k` ascents: the path `../../..` of length `k`.
pub open spec fn upseq(k: int) -> SPath {
    Seq::new(k as nat, |i: int| SComp::Up)
}

/// The length of the leading run of `..` segments.
pub open spec fn lead_ups(p: SPath) -> int
    decreases p.len(),
{
    if p.len() == 0 {
        0
    } else if !(p[0] is Up) {
        0
    } else {
        1 + lead_ups(p.drop_first())
    }
}

pub proof fn lemma_lead_ups_basic(p: SPath)
    ensures
        0 <= lead_ups(p) <= p.len(),
        forall|i: int| 0 <= i < lead_ups(p) ==> (#[trigger] p[i]) is Up,
        lead_ups(p) < p.len() ==> !(p[lead_ups(p)] is Up),
    decreases p.len(),
{
    if p.len() == 0 {
    } else if !(p[0] is Up) {
    } else {
        lemma_lead_ups_basic(p.drop_first());
        assert forall|i: int| 0 <= i < lead_ups(p) implies (#[trigger] p[i]) is Up by {
            if i > 0 {
                assert(p.drop_first()[i - 1] == p[i]);
            }
        }
        if lead_ups(p) < p.len() {
            assert(p.drop_first()[lead_ups(p) - 1] == p[lead_ups(p)]);
        }
    }
}

pub proof fn lemma_lead_ups_is(p: SPath, k: int)
    requires
        0 <= k <= p.len(),
        forall|i: int| 0 <= i < k ==> (#[trigger] p[i]) is Up,
        k < p.len() ==> !(p[k] is Up),
    ensures
        lead_ups(p) == k,
    decreases p.len(),
{
    if p.len() == 0 {
    } else if k == 0 {
    } else {
        assert(p[0] is Up);
        lemma_lead_ups_is(p.drop_first(), k - 1);
    }
}

/// Whether the model holds an entry for each proper ascent prefix
/// `..`, `../..`, ... below the leading run of `..` in `p`: exactly the
/// probes that cleaning `p` afresh will make.
pub open spec fn up_prefixes_present(m: FsV, p: SPath) -> bool {
    forall|j: int| 1 <= j < lead_ups(p) ==> m.entries.contains_key(#[trigger] upseq(j))
}

/// A finished walk that started from a clean current path ends on a clean
/// path, and certifies the ascent prefixes of its result: every `..`
/// level of the result below the top was probed (and so is present) along
/// the way.
pub proof fn lemma_run_shape(m: FsV, v: Set<SPath>, cur: SPath, pending: SPath)
    requires
        fs_wf(m),
        cleanform(cur),
        up_prefixes_present(m, cur),
    ensures
        run(m, v, cur, pending) matches SOut::Done { path: q, .. } ==> cleanform(q)
            && up_prefixes_present(m, q),
    decreases uv(m, v), pending.len(),
{
    lemma_lead_ups_basic(cur);
    if pending.len() == 0 {
    } else {
        let rest = pending.drop_first();
        match pending[0] {
            SComp::Root => {
                let c2 = seq![SComp::Root];
                assert(cleanform(c2));
                lemma_lead_ups_is(c2, 0);
                lemma_run_shape(m, v, c2, rest);
            },
            SComp::Cur => {
                lemma_run_shape(m, v, cur, rest);
            },
            SComp::Name(n) => {
                let c2 = cur.push(SComp::Name(n));
                assert(cleanform(c2)) by {
                    assert forall|i: int, j: int|
                        0 <= j < i < c2.len() && (#[trigger] c2[i]) is Up
                        implies (#[trigger] c2[j]) is Up by {
                        assert(c2[i] == cur[i]);
                        assert(c2[j] == cur[j]);
                    }
                }
                assert(up_prefixes_present(m, c2)) by {
                    lemma_lead_ups_is(c2, lead_ups(cur));
                }
                lemma_run_shape(m, v, c2, rest);
            },
            SComp::Up => {
                if cur.len() == 0 {
                    let c2 = seq![SComp::Up];
                    assert(cleanform(c2));
                    lemma_lead_ups_is(c2, 1);
                    lemma_run_shape(m, v, c2, rest);
                } else if !m.entries.contains_key(cur) {
                } else {
                    match m.entries[cur] {
                        EKind::File => {
                            assert(cur.last() is Name);
                            lemma_shape_drop_last(m, cur);
                            lemma_run_shape(m, v, cur.drop_last(), rest);
                        },
                        EKind::Dir => {
                            let c2 = dir_parent_at(cur);
                            lemma_shape_dir_parent(m, cur);
                            lemma_run_shape(m, v, c2, rest);
                        },
                        EKind::Link(t) => {
                            if v.contains(cur) {
                            } else {
                                assert(cur.last() is Name);
                                lemma_shape_drop_last(m, cur);
                                lemma_uv_insert(m, v, cur);
                                lemma_run_shape(
                                    m,
                                    v.insert(cur),
                                    cur.drop_last(),
                                    t + seq![SComp::Up] + rest,
                                );
                            }
                        },
                    }
                }
            },
        }
    }
}

/// Dropping a final named segment keeps the clean shape and the certified
/// ascent prefixes.
proof fn lemma_shape_drop_last(m: FsV, cur: SPath)
    requires
        cleanform(cur),
        up_prefixes_present(m, cur),
        cur.len() > 0,
        cur.last() is Name,
    ensures
        cleanform(cur.drop_last()),
        up_prefixes_present(m, cur.drop_last()),
        lead_ups(cur.drop_last()) == lead_ups(cur),
{
    lemma_lead_ups_basic(cur);
    let k = lead_ups(cur);
    assert(k < cur.len());
    let d = cur.drop_last();
    assert forall|i: int| 0 <= i < k implies (#[trigger] d[i]) is Up by {
        assert(d[i] == cur[i]);
    }
    if k < d.len() {
        assert(d[k] == cur[k]);
    }
    lemma_lead_ups_is(d, k);
}

/// The syntactic directory parent keeps the clean shape, and certifies
/// one more ascent level exactly when it ascends out of a pure `..` run
/// that the model was just probed at.
proof fn lemma_shape_dir_parent(m: FsV, cur: SPath)
    requires
        fs_wf(m),
        cleanform(cur),
        up_prefixes_present(m, cur),
        cur.len() > 0,
        m.entries.contains_key(cur),
    ensures
        cleanform(dir_parent_at(cur)),
        up_prefixes_present(m, dir_parent_at(cur)),
{
    lemma_lead_ups_basic(cur);
    let k = lead_ups(cur);
    if cur.last() is Name {
        lemma_shape_drop_last(m, cur);
    } else if cur == seq![SComp::Cur] {
        assert(cur[0] is Cur);
        assert(false);
    } else if cur.last() is Up {
        // the leading `..` run reaches the end: `cur` is all `..`
        assert(k == cur.len()) by {
            if k < cur.len() {
                assert(cur[k] is Up) by {
                    if k < cur.len() - 1 {
                        assert(cur.last() is Up);
                    }
                }
                assert(false);
            }
        }
        assert(cur =~= upseq(k));
        let c2 = cur.push(SComp::Up);
        assert(cleanform(c2)) by {
            assert forall|i: int, j: int|
                0 <= j < i < c2.len() && (#[trigger] c2[i]) is Up
                implies (#[trigger] c2[j]) is Up by {
                if j < cur.len() {
                    if j < k {
                    }
                }
            }
        }
        lemma_lead_ups_is(c2, k + 1);
        assert(up_prefixes_present(m, c2)) by {
            assert forall|j: int| 1 <= j < lead_ups(c2)
                implies m.entries.contains_key(#[trigger] upseq(j)) by {
                if j == k {
                    assert(upseq(j) =~= cur);
                }
            }
        }
    } else {
    }
}

/// Walking a run of `..` tokens from inside a pure `..` run whose levels
/// are present directories climbs to a longer `..` run, touching no
/// symlink and leaving the visited set alone.
pub proof fn lemma_up_walk(m: FsV, v: Set<SPath>, j: int, k: int, rest: SPath)
    requires
        fs_wf(m),
        0 <= j <= k,
        forall|i: int| 1 <= i < k && i >= j ==> m.entries.contains_key(#[trigger] upseq(i)),
    ensures
        run(m, v, upseq(j), upseq(k - j) + rest) == run(m, v, upseq(k), rest),
    decreases k - j,
{
    if j == k {
        assert(upseq(0) + rest =~= rest);
    } else {
        let pend = upseq(k - j) + rest;
        assert(pend.len() > 0);
        assert(pend[0] == upseq(k - j)[0]);
        assert(pend[0] is Up);
        assert(pend.drop_first() =~= upseq(k - j - 1) + rest) by {
            assert(upseq(k - j).drop_first() =~= upseq(k - j - 1));
            assert((upseq(k - j) + rest).drop_first() =~= upseq(k - j).drop_first() + rest);
        }
        if j == 0 {
            assert(upseq(0).len() == 0);
            assert(seq![SComp::Up] =~= upseq(1));
            lemma_up_walk(m, v, 1, k, rest);
        } else {
            let cur = upseq(j);
            assert(cur.len() == j > 0);
            assert(m.entries.contains_key(cur));
            assert(cur.last() is Up);
            assert(!(cur.last() is Name));
            assert(m.entries[cur] is Dir);
            assert(cur != seq![SComp::Cur]) by {
                assert(cur[0] is Up);
            }
            assert(dir_parent_at(cur) =~= upseq(j + 1)) by {
                assert(cur.push(SComp::Up) =~= upseq(j + 1));
            }
            lemma_up_walk(m, v, j + 1, k, rest);
        }
    }
}

/// Cleaning a path already in clean form, whose ascent prefixes the model
/// holds, gives the path back unchanged.
pub proof fn lemma_clean_of_cleanform(m: FsV, q: SPath)
    requires
        fs_wf(m),
        cleanform(q),
        up_prefixes_present(m, q),
    ensures
        clean_sem(m, q) == (SOut::Done { path: q, vis: Set::<SPath>::empty() }),
{
    lemma_lead_ups_basic(q);
    let k = lead_ups(q);
    let v0 = Set::<SPath>::empty();
    if q.len() > 0 && q[0] is Root {
        assert(k == 0);
        let tail = q.drop_first();
        assert(forall|i: int| 0 <= i < tail.len() ==> (#[trigger] tail[i]) is Name) by {
            assert forall|i: int| 0 <= i < tail.len() implies (#[trigger] tail[i]) is Name by {
                assert(tail[i] == q[i + 1]);
                assert(!(q[i + 1] is Cur));
                assert(!(q[i + 1] is Root));
                assert(!(q[i + 1] is Up)) by {
                    if q[i + 1] is Up {
                        assert(q[0] is Up);
                    }
                }
            }
        }
        assert(clean_sem(m, q) == run(m, v0, seq![SComp::Root], tail));
        lemma_run_names(m, v0, seq![SComp::Root], tail, Seq::<SComp>::empty());
        assert(tail + Seq::<SComp>::empty() =~= tail);
        assert(seq![SComp::Root] + tail =~= q);
    } else {
        let names = q.skip(k);
        assert(forall|i: int| 0 <= i < names.len() ==> (#[trigger] names[i]) is Name) by {
            assert forall|i: int| 0 <= i < names.len() implies (#[trigger] names[i]) is Name by {
                assert(names[i] == q[i + k]);
                assert(!(q[i + k] is Cur));
                if i + k > 0 {
                    assert(!(q[i + k] is Root));
                }
                assert(!(q[i + k] is Up)) by {
                    if q[i + k] is Up {
                        if k < q.len() {
                            if i > 0 {
                                assert(q[k] is Up);
                            } else {
                                assert(q[k] is Up);
                            }
                        }
                    }
                }
            }
        }
        assert(q =~= upseq(k) + names);
        lemma_up_walk(m, v0, 0, k, names);
        assert(upseq(0) =~= Seq::<SComp>::empty());
        assert(clean_sem(m, q) == run(m, v0, upseq(k), names));
        lemma_run_names(m, v0, upseq(k), names, Seq::<SComp>::empty());
        assert(names + Seq::<SComp>::empty() =~= names);
        assert(upseq(k) + names =~= q);
    }
}

/// Idempotence of clean: cleaning the result of a successful clean gives
/// that result back, probing only entries the first clean already probed.
pub proof fn lemma_clean_idempotent(m: FsV, p: SPath)
    requires
        fs_wf(m),
        clean_sem(m, p) is Done,
    ensures
        clean_sem(m, dotify(clean_sem(m, p).path())) is Done,
        dotify(clean_sem(m, dotify(clean_sem(m, p).path())).path()) == dotify(
            clean_sem(m, p).path(),
        ),
{
    let q = clean_sem(m, p).path();
    let empty = Seq::<SComp>::empty();
    assert(cleanform(empty));
    lemma_lead_ups_is(empty, 0);
    lemma_run_shape(m, Set::empty(), empty, p);
    assert(cleanform(q));
    assert(up_prefixes_present(m, q));
    if q.len() == 0 {
        let dot = seq![SComp::Cur];
        assert(clean_sem(m, dot) == (SOut::Done { path: empty, vis: Set::<SPath>::empty() })) by {
            reveal_with_fuel(run, 2);
            assert(dot.drop_first() =~= empty);
        }
        assert(dotify(q) == dot);
    } else {
        assert(dotify(q) == q);
        lemma_clean_of_cleanform(m, q);
    }
}

} // verus!
