//! Paths as sequences of parsed components.
//!
//! A path is kept in the normalized component form that a textual path
//! assumes once separators are split and interior `.` segments are folded:
//! the root marker may stand only first, a `.` component survives only as
//! the head of a relative path, and every named segment is non-empty and
//! free of separators.
use vstd::prelude::*;

verus! {

/// Spec-level path component.
pub enum SComp {
    Root,
    Cur,
    Up,
    Name(Seq<char>),
}

/// Spec-level path: a sequence of components.
pub type SPath = Seq<SComp>;

/// A single path component: the root marker, `.`, `..`, or a named segment.
#[derive(Clone, Debug, PartialEq, Eq, Hash)]
pub enum Component {
    RootDir,
    CurDir,
    ParentDir,
    Normal(String),
}

impl View for Component {
    type V = SComp;

    open spec fn view(&self) -> SComp {
        match self {
            Component::RootDir => SComp::Root,
            Component::CurDir => SComp::Cur,
            Component::ParentDir => SComp::Up,
            Component::Normal(s) => SComp::Name(s@),
        }
    }
}

/// A named segment is non-empty, holds no separator, and is not one of the
/// degenerate names `.` and `..`, which parse to their own component kinds.
pub open spec fn name_wf(s: Seq<char>) -> bool {
    &&& s.len() > 0
    &&& s != seq!['.']
    &&& s != seq!['.', '.']
    &&& forall|i: int| 0 <= i < s.len() ==> #[trigger] s[i] != '/'
}

pub open spec fn comp_wf(c: SComp) -> bool {
    c matches SComp::Name(s) ==> name_wf(s)
}

/// Well-formed component sequence: what parsing a textual path can produce.
pub open spec fn path_wf(p: SPath) -> bool {
    &&& forall|i: int| 0 <= i < p.len() ==> comp_wf(#[trigger] p[i])
    &&& forall|i: int| 0 < i < p.len() ==> !(#[trigger] p[i] is Root) && !(p[i] is Cur)
}

/// A path value: an ordered sequence of components.
#[derive(Clone, Debug, PartialEq, Eq, Hash)]
pub struct RPath {
    pub comps: Vec<Component>,
}

impl View for RPath {
    type V = SPath;

    open spec fn view(&self) -> SPath {
        self.comps@.map_values(|c: Component| c@)
    }
}

/// Clone one component; the copy has the same view.
pub fn clone_comp(c: &Component) -> (r: Component)
    ensures
        r@ == c@,
{
    match c {
        Component::RootDir => Component::RootDir,
        Component::CurDir => Component::CurDir,
        Component::ParentDir => Component::ParentDir,
        Component::Normal(s) => Component::Normal(s.clone()),
    }
}

/// Component equality, decided by the views.
pub fn eq_comp(a: &Component, b: &Component) -> (r: bool)
    ensures
        r == (a@ == b@),
{
    match (a, b) {
        (Component::RootDir, Component::RootDir) => true,
        (Component::CurDir, Component::CurDir) => true,
        (Component::ParentDir, Component::ParentDir) => true,
        (Component::Normal(x), Component::Normal(y)) => x.eq(y),
        _ => {
            proof {
                assert(a@ != b@);
            }
            false
        },
    }
}

impl RPath {
    /// The empty path.
    pub fn new() -> (r: RPath)
        ensures
            r@ == Seq::<SComp>::empty(),
    {
        let r = RPath { comps: Vec::new() };
        proof {
            assert(r@ =~= Seq::<SComp>::empty());
        }
        r
    }

    /// The path `..`.
    pub fn dotdot() -> (r: RPath)
        ensures
            r@ == seq![SComp::Up],
    {
        let mut v: Vec<Component> = Vec::new();
        v.push(Component::ParentDir);
        let r = RPath { comps: v };
        proof {
            assert(r@ =~= seq![SComp::Up]);
        }
        r
    }

    /// The path `.`.
    pub fn dot() -> (r: RPath)
        ensures
            r@ == seq![SComp::Cur],
    {
        let mut v: Vec<Component> = Vec::new();
        v.push(Component::CurDir);
        let r = RPath { comps: v };
        proof {
            assert(r@ =~= seq![SComp::Cur]);
        }
        r
    }

    /// The path `/`.
    pub fn root() -> (r: RPath)
        ensures
            r@ == seq![SComp::Root],
    {
        let mut v: Vec<Component> = Vec::new();
        v.push(Component::RootDir);
        let r = RPath { comps: v };
        proof {
            assert(r@ =~= seq![SComp::Root]);
        }
        r
    }

    pub fn len(&self) -> (n: usize)
        ensures
            n == self@.len(),
    {
        self.comps.len()
    }

    pub fn is_empty(&self) -> (b: bool)
        ensures
            b == (self@.len() == 0),
    {
        self.comps.len() == 0
    }

    /// An identical copy, with the same view.
    pub fn duplicate(&self) -> (r: RPath)
        ensures
            r@ == self@,
    {
        let mut v: Vec<Component> = Vec::new();
        let n = self.comps.len();
        let mut i: usize = 0;
        while i < n
            invariant
                i <= n,
                n == self.comps@.len(),
                v@.len() == i as int,
                forall|j: int| 0 <= j < i ==> #[trigger] v@[j]@ == self.comps@[j]@,
            decreases n - i,
        {
            v.push(clone_comp(&self.comps[i]));
            i = i + 1;
        }
        let r = RPath { comps: v };
        proof {
            assert(r@ =~= self@);
        }
        r
    }

    /// Append one component.
    pub fn push_comp(&mut self, c: Component)
        ensures
            final(self)@ == old(self)@.push(c@),
    {
        self.comps.push(c);
        proof {
            assert(self@ =~= old(self)@.push(c@));
        }
    }

    /// All components but the last.
    pub fn strip_last(&self) -> (r: RPath)
        requires
            self@.len() > 0,
        ensures
            r@ == self@.drop_last(),
    {
        let mut v: Vec<Component> = Vec::new();
        let n = self.comps.len() - 1;
        let mut i: usize = 0;
        while i < n
            invariant
                i <= n,
                n < self.comps@.len(),
                v@.len() == i as int,
                forall|j: int| 0 <= j < i ==> #[trigger] v@[j]@ == self.comps@[j]@,
            decreases n - i,
        {
            v.push(clone_comp(&self.comps[i]));
            i = i + 1;
        }
        let r = RPath { comps: v };
        proof {
            assert(r@ =~= self@.drop_last());
        }
        r
    }

    /// Path equality, decided by the views.
    pub fn eq_path(&self, other: &RPath) -> (r: bool)
        ensures
            r == (self@ == other@),
    {
        if self.comps.len() != other.comps.len() {
            proof {
                assert(self@.len() != other@.len());
            }
            return false;
        }
        let n = self.comps.len();
        let mut i: usize = 0;
        while i < n
            invariant
                i <= n,
                n == self.comps@.len(),
                n == other.comps@.len(),
                forall|j: int| 0 <= j < i ==> #[trigger] self.comps@[j]@ == other.comps@[j]@,
            decreases n - i,
        {
            if !eq_comp(&self.comps[i], &other.comps[i]) {
                proof {
                    assert(self@[i as int] != other@[i as int]);
                }
                return false;
            }
            i = i + 1;
        }
        proof {
            assert(self@ =~= other@);
        }
        true
    }
}

/// The textual form of one component.
pub open spec fn comp_chars(c: SComp) -> Seq<char> {
    match c {
        SComp::Root => seq!['/'],
        SComp::Cur => seq!['.'],
        SComp::Up => seq!['.', '.'],
        SComp::Name(s) => s,
    }
}

/// The textual form of a path from component `i` on: components joined by
/// separators, with no separator after the root marker.
pub open spec fn render_from(p: SPath, i: int) -> Seq<char>
    decreases p.len() - i,
        when 0 <= i <= p.len()
{
    if i >= p.len() {
        Seq::empty()
    } else {
        let sep: Seq<char> = if i + 1 < p.len() && !(p[i] is Root) {
            seq!['/']
        } else {
            Seq::empty()
        };
        comp_chars(p[i]) + sep + render_from(p, i + 1)
    }
}

/// The textual form of a path.
pub open spec fn render(p: SPath) -> Seq<char> {
    render_from(p, 0)
}

/// The index of the first separator at or after `i`, or the end.
pub open spec fn token_end(s: Seq<char>, i: int) -> int
    decreases s.len() - i,
        when 0 <= i <= s.len()
{
    if i >= s.len() {
        i
    } else if s[i] == '/' {
        i
    } else {
        token_end(s, i + 1)
    }
}

pub proof fn lemma_token_end(s: Seq<char>, i: int)
    requires
        0 <= i <= s.len(),
    ensures
        i <= token_end(s, i) <= s.len(),
        forall|k: int| i <= k < token_end(s, i) ==> #[trigger] s[k] != '/',
        token_end(s, i) < s.len() ==> s[token_end(s, i)] == '/',
    decreases s.len() - i,
{
    if i >= s.len() {
    } else if s[i] == '/' {
    } else {
        lemma_token_end(s, i + 1);
    }
}

/// The non-empty `/`-separated tokens of `s`, from position `i` on.
pub open spec fn tokens_from(s: Seq<char>, i: int) -> Seq<Seq<char>>
    decreases s.len() - i,
        when 0 <= i <= s.len()
{
    if i >= s.len() {
        Seq::empty()
    } else if s[i] == '/' {
        tokens_from(s, i + 1)
    } else {
        proof {
            lemma_token_end(s, i);
        }
        seq![s.subrange(i, token_end(s, i))] + tokens_from(s, token_end(s, i))
    }
}

/// Turn a token list into components: `..` ascends, `.` survives only as
/// the very first component of a rootless path, anything else is a name.
pub open spec fn comps_of(toks: Seq<Seq<char>>, first: bool) -> SPath
    decreases toks.len(),
{
    if toks.len() == 0 {
        Seq::empty()
    } else {
        let t = toks[0];
        let rest = comps_of(toks.drop_first(), false);
        if t == seq!['.', '.'] {
            seq![SComp::Up] + rest
        } else if t == seq!['.'] {
            if first {
                seq![SComp::Cur] + rest
            } else {
                rest
            }
        } else {
            seq![SComp::Name(t)] + rest
        }
    }
}

/// What parsing a textual path yields: a leading separator becomes the
/// root marker; the remaining tokens become components.
pub open spec fn parse_spec(s: Seq<char>) -> SPath {
    if s.len() > 0 && s[0] == '/' {
        seq![SComp::Root] + comps_of(tokens_from(s, 0), false)
    } else {
        comps_of(tokens_from(s, 0), true)
    }
}

impl RPath {
    /// Parse a textual path, `/`-separated: repeated separators collapse,
    /// `.` segments fold away except at the head of a rootless path, and
    /// `..` segments are kept as they are.
    pub fn parse(s: &str) -> (r: RPath)
        ensures
            r@ == parse_spec(s@),
            path_wf(r@),
    {
        let n = s.unicode_len();
        let mut comps: Vec<Component> = Vec::new();
        let has_root = n > 0 && s.get_char(0) == '/';
        if has_root {
            comps.push(Component::RootDir);
        }
        let ghost base: SPath = if has_root {
            seq![SComp::Root]
        } else {
            Seq::<SComp>::empty()
        };
        let ghost first0: bool = !has_root;
        let mut i: usize = 0;
        let ghost mut first: bool = first0;
        proof {
            assert(comps@.map_values(|c: Component| c@) =~= base);
        }
        while i < n
            invariant
                i <= n,
                n == s@.len(),
                comps@.map_values(|c: Component| c@).len() >= (if has_root { 1int } else { 0int }),
                has_root ==> comps@.len() >= 1 && comps@[0] is RootDir,
                first ==> !has_root && comps@.len() == 0,
                !has_root ==> (first <==> comps@.len() == 0),
                parse_spec(s@) == comps@.map_values(|c: Component| c@) + comps_of(
                    tokens_from(s@, i as int),
                    first,
                ),
                path_wf(comps@.map_values(|c: Component| c@)),
            decreases n - i,
        {
            let ghost prevview = comps@.map_values(|c: Component| c@);
            if s.get_char(i) == '/' {
                proof {
                    assert(tokens_from(s@, i as int) == tokens_from(s@, i as int + 1));
                }
                i = i + 1;
            } else {
                let mut j: usize = i;
                while j < n && s.get_char(j) != '/'
                    invariant
                        i <= j <= n,
                        n == s@.len(),
                        token_end(s@, i as int) == token_end(s@, j as int),
                        forall|k: int| i <= k < j ==> #[trigger] s@[k] != '/',
                    decreases n - j,
                {
                    j = j + 1;
                }
                proof {
                    assert(token_end(s@, j as int) == j as int);
                    lemma_token_end(s@, i as int);
                    assert(tokens_from(s@, i as int) == seq![s@.subrange(i as int, j as int)]
                        + tokens_from(s@, j as int));
                }
                let ghost tok = s@.subrange(i as int, j as int);
                proof {
                    let toks = tokens_from(s@, i as int);
                    assert(toks[0] == tok);
                    assert(toks.drop_first() =~= tokens_from(s@, j as int));
                }
                if j - i == 1 && s.get_char(i) == '.' {
                    // a `.` token: kept only at the head of a rootless path
                    proof {
                        assert(tok =~= seq!['.']);
                    }
                    if comps.len() == 0 && !has_root {
                        comps.push(Component::CurDir);
                        proof {
                            assert(comps@.map_values(|c: Component| c@) =~= prevview.push(
                                SComp::Cur,
                            ));
                            assert(prevview + (seq![SComp::Cur] + comps_of(
                                tokens_from(s@, j as int),
                                false,
                            )) =~= prevview.push(SComp::Cur) + comps_of(
                                tokens_from(s@, j as int),
                                false,
                            ));
                        }
                    } else {
                        proof {
                            assert(!first);
                        }
                    }
                } else if j - i == 2 && s.get_char(i) == '.' && s.get_char(i + 1) == '.' {
                    proof {
                        assert(tok =~= seq!['.', '.']);
                    }
                    comps.push(Component::ParentDir);
                    proof {
                        assert(comps@.map_values(|c: Component| c@) =~= prevview.push(SComp::Up));
                        assert(prevview + (seq![SComp::Up] + comps_of(
                            tokens_from(s@, j as int),
                            false,
                        )) =~= prevview.push(SComp::Up) + comps_of(tokens_from(s@, j as int), false));
                    }
                } else {
                    let name = s.substring_char(i, j).to_owned();
                    proof {
                        assert(name@ == tok);
                        assert(tok != seq!['.', '.'] && tok != seq!['.']) by {
                            if j == i + 1 {
                                assert(tok.len() == 1 && tok[0] == s@[i as int]);
                            } else if j == i + 2 {
                                assert(tok.len() == 2 && tok[0] == s@[i as int] && tok[1] == s@[
                                    i as int + 1]);
                            }
                        }
                        assert(name_wf(tok)) by {
                            assert(tok.len() > 0);
                            assert(forall|k: int| 0 <= k < tok.len() ==> #[trigger] tok[k] != '/');
                        }
                    }
                    comps.push(Component::Normal(name));
                    proof {
                        assert(comps@.map_values(|c: Component| c@) =~= prevview.push(
                            SComp::Name(tok),
                        ));
                        assert(prevview + (seq![SComp::Name(tok)] + comps_of(
                            tokens_from(s@, j as int),
                            false,
                        )) =~= prevview.push(SComp::Name(tok)) + comps_of(
                            tokens_from(s@, j as int),
                            false,
                        ));
                    }
                }
                proof {
                    first = false;
                }
                i = j;
            }
        }
        proof {
            assert(tokens_from(s@, n as int) =~= Seq::<Seq<char>>::empty());
            assert(parse_spec(s@) =~= comps@.map_values(|c: Component| c@));
        }
        RPath { comps }
    }

    /// The textual form of this path, `/`-separated.
    pub fn display_string(&self) -> (r: String)
        ensures
            r@ == render(self@),
    {
        proof {
            reveal_strlit("/");
            reveal_strlit(".");
            reveal_strlit("..");
        }
        let mut out = String::new();
        let n = self.comps.len();
        let mut i: usize = 0;
        while i < n
            invariant
                i <= n,
                n == self@.len(),
                render(self@) == out@ + render_from(self@, i as int),
            decreases n - i,
        {
            proof {
                reveal_strlit("/");
                reveal_strlit(".");
                reveal_strlit("..");
                assert(self@[i as int] == self.comps@[i as int]@);
            }
            let ghost mid = out@;
            let c = &self.comps[i];
            let is_root = match c {
                Component::RootDir => true,
                _ => false,
            };
            match c {
                Component::RootDir => out.append("/"),
                Component::CurDir => out.append("."),
                Component::ParentDir => out.append(".."),
                Component::Normal(s) => out.append(s.as_str()),
            }
            proof {
                assert(out@ =~= mid + comp_chars(self@[i as int]));
            }
            let ghost mid2 = out@;
            if i + 1 < n && !is_root {
                out.append("/");
                proof {
                    assert(out@ =~= mid2 + seq!['/']);
                }
            }
            proof {
                assert(out@ + render_from(self@, i as int + 1) =~= mid + render_from(
                    self@,
                    i as int,
                ));
            }
            i = i + 1;
        }
        proof {
            assert(render_from(self@, n as int) =~= Seq::<char>::empty());
            assert(out@ + Seq::<char>::empty() =~= out@);
        }
        out
    }
}

} // verus!
