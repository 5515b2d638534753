//! Lexical path handling: normalization, splitting an absolute path
//! into parent and leaf, resolving an input against a working
//! directory, and sanitizing relative paths before extraction.
//!
//! A path is modeled as a root marker plus a run of components; nothing
//! here touches a filesystem.

use vstd::prelude::*;

verus! {

/// One path component: `.`, `..`, or a named entry.
#[derive(Debug)]
pub enum PathComp {
    Cur,
    Parent,
    Normal(String),
}

/// The mathematical shape of a component.
pub enum CompV {
    Cur,
    Parent,
    Normal(Seq<char>),
}

impl View for PathComp {
    type V = CompV;

    open spec fn view(&self) -> CompV {
        match self {
            PathComp::Cur => CompV::Cur,
            PathComp::Parent => CompV::Parent,
            PathComp::Normal(s) => CompV::Normal(s@),
        }
    }
}

/// A lexical path: whether it hangs off a root (or drive prefix), and
/// its components in order.
#[derive(Debug)]
pub struct LexPath {
    pub absolute: bool,
    pub comps: Vec<PathComp>,
}

/// The mathematical shape of a path.
pub struct PathV {
    pub absolute: bool,
    pub comps: Seq<CompV>,
}

pub open spec fn comps_view(s: Seq<PathComp>) -> Seq<CompV> {
    Seq::new(s.len(), |i: int| s[i]@)
}

impl View for LexPath {
    type V = PathV;

    open spec fn view(&self) -> PathV {
        PathV { absolute: self.absolute, comps: comps_view(self.comps@) }
    }
}

/// One step of normalization: `.` is dropped; `..` pops what precedes
/// it, stops at the root, and is kept literally when a relative path
/// has nothing left to pop; a name is kept.
pub open spec fn norm_step(abs: bool, acc: Seq<CompV>, c: CompV) -> Seq<CompV> {
    match c {
        CompV::Cur => acc,
        CompV::Parent => if acc.len() > 0 {
            acc.drop_last()
        } else if !abs {
            acc.push(CompV::Parent)
        } else {
            acc
        },
        CompV::Normal(s) => acc.push(CompV::Normal(s)),
    }
}

pub open spec fn norm_from(abs: bool, acc: Seq<CompV>, cs: Seq<CompV>) -> Seq<CompV>
    decreases cs.len(),
{
    if cs.len() == 0 {
        acc
    } else {
        norm_from(abs, norm_step(abs, acc, cs[0]), cs.subrange(1, cs.len() as int))
    }
}

pub open spec fn norm_comps(abs: bool, cs: Seq<CompV>) -> Seq<CompV> {
    norm_from(abs, Seq::empty(), cs)
}

/// Lexical normalization of a whole path; an emptied relative path
/// becomes `.`.
pub open spec fn spec_normalize(p: PathV) -> PathV {
    let n = norm_comps(p.absolute, p.comps);
    PathV {
        absolute: p.absolute,
        comps: if !p.absolute && n.len() == 0 {
            seq![CompV::Cur]
        } else {
            n
        },
    }
}

fn clone_comp(c: &PathComp) -> (r: PathComp)
    ensures
        r@ == c@,
{
    match c {
        PathComp::Cur => PathComp::Cur,
        PathComp::Parent => PathComp::Parent,
        PathComp::Normal(s) => PathComp::Normal(s.clone()),
    }
}

impl LexPath {
    /// A structurally equal copy.
    pub fn clone_path(&self) -> (r: LexPath)
        ensures
            r@ == self@,
    {
        let mut comps: Vec<PathComp> = Vec::new();
        let mut i: usize = 0;
        while i < self.comps.len()
            invariant
                i <= self.comps@.len(),
                comps@.len() == i,
                forall|j: int| 0 <= j < i ==> comps@[j]@ == self.comps@[j]@,
            decreases self.comps@.len() - i,
        {
            comps.push(clone_comp(&self.comps[i]));
            i = i + 1;
        }
        let r = LexPath { absolute: self.absolute, comps };
        proof {
            assert(r@.comps =~= self@.comps);
        }
        r
    }
}

/// Lexically normalizes a path: removes `.`, resolves `..` where
/// possible, never touches the filesystem.
pub fn lexical_normalize(p: &LexPath) -> (r: LexPath)
    ensures
        r@ == spec_normalize(p@),
{
    let ghost cs = p@.comps;
    let mut acc: Vec<PathComp> = Vec::new();
    let mut i: usize = 0;
    proof {
        assert(cs.subrange(0, cs.len() as int) =~= cs);
        assert(comps_view(acc@) =~= Seq::<CompV>::empty());
    }
    while i < p.comps.len()
        invariant
            i <= p.comps@.len(),
            cs == p@.comps,
            cs.len() == p.comps@.len(),
            norm_from(p.absolute, comps_view(acc@), cs.subrange(i as int, cs.len() as int))
                == norm_comps(p.absolute, cs),
        decreases p.comps@.len() - i,
    {
        let ghost acc0 = comps_view(acc@);
        let ghost rest = cs.subrange(i as int, cs.len() as int);
        proof {
            assert(rest[0] == cs[i as int]);
            assert(cs[i as int] == p.comps@[i as int]@);
            assert(rest.subrange(1, rest.len() as int) =~= cs.subrange(
                i as int + 1,
                cs.len() as int,
            ));
        }
        match &p.comps[i] {
            PathComp::Cur => {
                proof {
                    assert(norm_step(p.absolute, acc0, rest[0]) == acc0);
                }
            },
            PathComp::Parent => {
                if acc.len() > 0 {
                    acc.pop();
                    proof {
                        assert(comps_view(acc@) =~= acc0.drop_last());
                    }
                } else {
                    if !p.absolute {
                        acc.push(PathComp::Parent);
                        proof {
                            assert(comps_view(acc@) =~= acc0.push(CompV::Parent));
                        }
                    }
                }
            },
            PathComp::Normal(s) => {
                acc.push(PathComp::Normal(s.clone()));
                proof {
                    assert(comps_view(acc@) =~= acc0.push(p.comps@[i as int]@));
                }
            },
        }
        i = i + 1;
    }
    proof {
        assert(cs.subrange(i as int, cs.len() as int).len() == 0);
    }
    if !p.absolute && acc.len() == 0 {
        acc.push(PathComp::Cur);
        proof {
            assert(comps_view(acc@) =~= seq![CompV::Cur]);
        }
    }
    LexPath { absolute: p.absolute, comps: acc }
}

/// Appending one path to another: an absolute right side replaces the
/// left side, a relative one extends it.
pub open spec fn spec_join(a: PathV, b: PathV) -> PathV {
    if b.absolute {
        b
    } else {
        PathV { absolute: a.absolute, comps: a.comps + b.comps }
    }
}

/// Splitting an absolute path into parent and leaf; a path with no
/// leaf (a pure root) gets `.` as its leaf and itself as parent.
pub open spec fn spec_split_absolute(n: PathV) -> (Option<PathV>, PathV) {
    if n.comps.len() == 0 {
        (Some(n), PathV { absolute: false, comps: seq![CompV::Cur] })
    } else {
        (
            Some(PathV { absolute: n.absolute, comps: n.comps.drop_last() }),
            PathV { absolute: false, comps: seq![n.comps.last()] },
        )
    }
}

/// Splits an absolute path into `(Some(parent), leaf)`; meant for
/// already-normalized paths, where the leaf is the final name.
pub fn split_absolute(abs: &LexPath) -> (r: (Option<LexPath>, LexPath))
    ensures
        r.0 matches Some(b) && spec_split_absolute(abs@).0 matches Some(bv) && b@ == bv,
        r.1@ == spec_split_absolute(abs@).1,
{
    if abs.comps.len() == 0 {
        let leaf = LexPath { absolute: false, comps: vec![PathComp::Cur] };
        proof {
            assert(leaf@.comps =~= seq![CompV::Cur]);
        }
        (Some(abs.clone_path()), leaf)
    } else {
        let mut parent = abs.clone_path();
        let last = parent.comps.pop().unwrap();
        let leaf = LexPath { absolute: false, comps: vec![last] };
        proof {
            assert(parent@.comps =~= abs@.comps.drop_last());
            assert(leaf@.comps =~= seq![abs@.comps.last()]);
        }
        (Some(parent), leaf)
    }
}

/// Componentwise prefix.
pub open spec fn comps_prefix(a: Seq<CompV>, b: Seq<CompV>) -> bool {
    b.len() <= a.len() && a.subrange(0, b.len() as int) == b
}

/// What analyzing an input path against a working directory yields:
/// an absolute input splits into parent and leaf; a relative one that
/// stays under the working directory keeps only the relative part; a
/// relative one that escapes it is treated like an absolute one.
pub open spec fn spec_analyze(x: PathV, cwd: PathV) -> (Option<PathV>, PathV) {
    if x.absolute {
        spec_split_absolute(spec_normalize(x))
    } else {
        let c = spec_normalize(cwd);
        let abs = spec_normalize(spec_join(c, x));
        if comps_prefix(abs.comps, c.comps) {
            (None, PathV { absolute: false, comps: abs.comps.skip(c.comps.len() as int) })
        } else {
            spec_split_absolute(abs)
        }
    }
}

fn comp_eq(a: &PathComp, b: &PathComp) -> (r: bool)
    ensures
        r == (a@ == b@),
{
    match (a, b) {
        (PathComp::Cur, PathComp::Cur) => true,
        (PathComp::Parent, PathComp::Parent) => true,
        (PathComp::Normal(s), PathComp::Normal(t)) => *s == *t,
        _ => false,
    }
}

fn is_comps_prefix(a: &Vec<PathComp>, b: &Vec<PathComp>) -> (r: bool)
    ensures
        r == comps_prefix(comps_view(a@), comps_view(b@)),
{
    if b.len() > a.len() {
        proof {
            assert(!comps_prefix(comps_view(a@), comps_view(b@)));
        }
        return false;
    }
    let mut i: usize = 0;
    while i < b.len()
        invariant
            i <= b@.len(),
            b@.len() <= a@.len(),
            forall|j: int| 0 <= j < i ==> comps_view(a@)[j] == comps_view(b@)[j],
        decreases b@.len() - i,
    {
        if !comp_eq(&a[i], &b[i]) {
            proof {
                assert(comps_view(a@).subrange(0, b@.len() as int)[i as int] != comps_view(
                    b@,
                )[i as int]);
            }
            return false;
        }
        i = i + 1;
    }
    proof {
        assert(comps_view(a@).subrange(0, b@.len() as int) =~= comps_view(b@));
    }
    true
}

/// Analyzes an input path against the (absolute) working directory,
/// returning `(base, relative)` as `spec_analyze` describes.
pub fn analyze_path(input: &LexPath, cwd: &LexPath) -> (r: (Option<LexPath>, LexPath))
    requires
        cwd@.absolute,
    ensures
        match spec_analyze(input@, cwd@) {
            (Some(bv), lv) => r.0 matches Some(b) && b@ == bv && r.1@ == lv,
            (None, lv) => r.0 is None && r.1@ == lv,
        },
{
    if input.absolute {
        let n = lexical_normalize(input);
        split_absolute(&n)
    } else {
        let c = lexical_normalize(cwd);
        let joined = join_paths(&c, input);
        let abs = lexical_normalize(&joined);
        if is_comps_prefix(&abs.comps, &c.comps) {
            let mut rel: Vec<PathComp> = Vec::new();
            let mut i: usize = c.comps.len();
            let ghost lo = c.comps@.len() as int;
            while i < abs.comps.len()
                invariant
                    lo <= i as int <= abs.comps@.len(),
                    lo == c.comps@.len(),
                    rel@.len() == i - lo,
                    forall|j: int|
                        0 <= j < rel@.len() ==> comps_view(rel@)[j] == comps_view(abs.comps@)[lo
                            + j],
                decreases abs.comps@.len() - i,
            {
                let ghost rel0 = rel@;
                rel.push(clone_comp(&abs.comps[i]));
                proof {
                    assert forall|j: int| 0 <= j < rel@.len() implies comps_view(rel@)[j]
                        == comps_view(abs.comps@)[lo + j] by {
                        if j < rel0.len() {
                            assert(rel@[j] == rel0[j]);
                            assert(comps_view(rel0)[j] == comps_view(abs.comps@)[lo + j]);
                        } else {
                            assert(j == i - lo);
                            assert(rel@[j]@ == abs.comps@[i as int]@);
                        }
                    }
                }
                i = i + 1;
            }
            proof {
                assert(comps_view(rel@) =~= comps_view(abs.comps@).skip(lo));
            }
            (None, LexPath { absolute: false, comps: rel })
        } else {
            split_absolute(&abs)
        }
    }
}

/// Joins two paths as `spec_join` describes.
pub fn join_paths(a: &LexPath, b: &LexPath) -> (r: LexPath)
    ensures
        r@ == spec_join(a@, b@),
{
    if b.absolute {
        b.clone_path()
    } else {
        let mut r = a.clone_path();
        let mut i: usize = 0;
        let ghost base = comps_view(r.comps@);
        while i < b.comps.len()
            invariant
                i <= b.comps@.len(),
                r.absolute == a@.absolute,
                comps_view(r.comps@).len() == base.len() + i,
                forall|j: int| 0 <= j < base.len() ==> comps_view(r.comps@)[j] == base[j],
                forall|j: int|
                    0 <= j < i ==> comps_view(r.comps@)[base.len() + j] == comps_view(
                        b.comps@,
                    )[j],
            decreases b.comps@.len() - i,
        {
            r.comps.push(clone_comp(&b.comps[i]));
            i = i + 1;
        }
        proof {
            assert(comps_view(r.comps@) =~= a@.comps + b@.comps);
        }
        r
    }
}

pub open spec fn all_normal(cs: Seq<CompV>) -> bool {
    forall|i: int| 0 <= i < cs.len() ==> (#[trigger] cs[i]) is Normal
}

pub proof fn lemma_norm_from_append(abs: bool, acc: Seq<CompV>, cs1: Seq<CompV>, cs2: Seq<CompV>)
    ensures
        norm_from(abs, acc, cs1 + cs2) == norm_from(abs, norm_from(abs, acc, cs1), cs2),
    decreases cs1.len(),
{
    if cs1.len() == 0 {
        assert(cs1 + cs2 =~= cs2);
    } else {
        let both = cs1 + cs2;
        assert(both[0] == cs1[0]);
        assert(both.subrange(1, both.len() as int) =~= cs1.subrange(1, cs1.len() as int) + cs2);
        lemma_norm_from_append(
            abs,
            norm_step(abs, acc, cs1[0]),
            cs1.subrange(1, cs1.len() as int),
            cs2,
        );
    }
}

pub proof fn lemma_norm_from_normals(abs: bool, acc: Seq<CompV>, cs: Seq<CompV>)
    requires
        all_normal(cs),
    ensures
        norm_from(abs, acc, cs) == acc + cs,
    decreases cs.len(),
{
    if cs.len() == 0 {
        assert(acc + cs =~= acc);
    } else {
        let t = cs.subrange(1, cs.len() as int);
        assert(cs[0] is Normal);
        assert(norm_step(abs, acc, cs[0]) == acc.push(cs[0]));
        assert(all_normal(t)) by {
            assert(forall|i: int| 0 <= i < t.len() ==> t[i] == cs[i + 1]);
        }
        lemma_norm_from_normals(abs, acc.push(cs[0]), t);
        assert(acc.push(cs[0]) + t =~= acc + cs);
    }
}

pub proof fn lemma_norm_abs_all_normal(acc: Seq<CompV>, cs: Seq<CompV>)
    requires
        all_normal(acc),
    ensures
        all_normal(norm_from(true, acc, cs)),
    decreases cs.len(),
{
    if cs.len() > 0 {
        let t = cs.subrange(1, cs.len() as int);
        let acc2 = norm_step(true, acc, cs[0]);
        assert(all_normal(acc2)) by {
            match cs[0] {
                CompV::Cur => {},
                CompV::Parent => {
                    if acc.len() > 0 {
                        assert(forall|i: int|
                            0 <= i < acc.drop_last().len() ==> acc.drop_last()[i] == acc[i]);
                    }
                },
                CompV::Normal(_) => {},
            }
        }
        lemma_norm_abs_all_normal(acc2, t);
    }
}

/// Splitting a normalized absolute path and joining it back yields the
/// path again.
proof fn lemma_split_reassembles(n: PathV)
    requires
        n.absolute,
        all_normal(n.comps),
    ensures
        spec_split_absolute(n).0 matches Some(b) && spec_normalize(
            spec_join(b, spec_split_absolute(n).1),
        ) == n,
{
    if n.comps.len() == 0 {
        let j = spec_join(n, spec_split_absolute(n).1);
        assert(j.comps =~= seq![CompV::Cur]);
        assert(norm_comps(true, j.comps) =~= Seq::<CompV>::empty()) by {
            let e = Seq::<CompV>::empty();
            assert(j.comps[0] == CompV::Cur);
            assert(norm_step(true, e, CompV::Cur) =~= e);
            assert(j.comps.subrange(1, 1) =~= e);
            assert(norm_from(true, e, e) == e);
            assert(norm_from(true, e, j.comps) == norm_from(
                true,
                norm_step(true, e, j.comps[0]),
                j.comps.subrange(1, 1),
            ));
        }
        assert(spec_normalize(j).comps =~= n.comps);
    } else {
        let b = spec_split_absolute(n).0->0;
        let leaf = spec_split_absolute(n).1;
        let j = spec_join(b, leaf);
        assert(j.comps =~= n.comps);
        lemma_norm_from_normals(true, Seq::empty(), n.comps);
        assert(norm_comps(true, n.comps) =~= n.comps);
    }
}

/// Where the analysis of an input lands, lexically: normalizing the
/// input against the working directory.
pub open spec fn spec_resolved(x: PathV, cwd: PathV) -> PathV {
    if x.absolute {
        spec_normalize(x)
    } else {
        spec_normalize(spec_join(spec_normalize(cwd), x))
    }
}

/// Reassembling what the analysis hands out gives the resolved input
/// back: joining the returned base (or the working directory, when no
/// base is returned) with the returned relative part and normalizing
/// yields exactly the normalized resolved input.
pub proof fn lemma_analyze_reassembles(x: PathV, cwd: PathV)
    requires
        cwd.absolute,
    ensures
        spec_analyze(x, cwd).0 matches Some(b) ==> spec_normalize(spec_join(b, spec_analyze(x, cwd).1))
            == spec_resolved(x, cwd),
{
    if x.absolute {
        lemma_norm_abs_all_normal(Seq::empty(), x.comps);
        lemma_split_reassembles(spec_normalize(x));
    } else {
        let c = spec_normalize(cwd);
        let abs = spec_normalize(spec_join(c, x));
        lemma_norm_abs_all_normal(Seq::empty(), spec_join(c, x).comps);
        if comps_prefix(abs.comps, c.comps) {
        } else {
            lemma_split_reassembles(abs);
        }
    }
}

/// The companion of `lemma_analyze_reassembles` for a relative input
/// that stays below the working directory: the returned relative part,
/// joined onto the working directory, resolves to the same place.
pub proof fn lemma_analyze_relative_reassembles(x: PathV, cwd: PathV)
    requires
        cwd.absolute,
        !x.absolute,
        spec_analyze(x, cwd).0 is None,
    ensures
        spec_normalize(spec_join(cwd, spec_analyze(x, cwd).1)) == spec_resolved(x, cwd),
{
    let c = spec_normalize(cwd);
    let abs = spec_normalize(spec_join(c, x));
    let k = c.comps.len() as int;
    let r = spec_analyze(x, cwd).1;
    lemma_norm_abs_all_normal(Seq::empty(), spec_join(c, x).comps);
    assert(all_normal(abs.comps));
    assert(comps_prefix(abs.comps, c.comps));
    assert(r.comps == abs.comps.skip(k));
    let j = spec_join(cwd, r);
    assert(j.comps == cwd.comps + r.comps);
    lemma_norm_from_append(true, Seq::empty(), cwd.comps, r.comps);
    assert(norm_comps(true, cwd.comps) == c.comps);
    assert(all_normal(r.comps)) by {
        assert(forall|i: int| 0 <= i < r.comps.len() ==> r.comps[i] == abs.comps[k + i]);
    }
    lemma_norm_from_normals(true, c.comps, r.comps);
    assert(c.comps + r.comps =~= abs.comps) by {
        assert(abs.comps.subrange(0, k) == c.comps);
        assert(forall|i: int| 0 <= i < r.comps.len() ==> r.comps[i] == abs.comps[k + i]);
    }
    assert(spec_normalize(j).comps =~= abs.comps);
}

/// Whether any component is a literal `..`.
pub open spec fn has_parent(cs: Seq<CompV>) -> bool {
    exists|i: int| 0 <= i < cs.len() && cs[i] is Parent
}

/// The named components only, in order.
pub open spec fn normals_of(cs: Seq<CompV>) -> Seq<CompV>
    decreases cs.len(),
{
    if cs.len() == 0 {
        Seq::empty()
    } else {
        (if cs[0] is Normal {
            seq![cs[0]]
        } else {
            Seq::empty()
        }) + normals_of(cs.subrange(1, cs.len() as int))
    }
}

pub proof fn lemma_normals_split(cs: Seq<CompV>, i: int)
    requires
        0 <= i <= cs.len(),
    ensures
        normals_of(cs) == normals_of(cs.subrange(0, i)) + normals_of(
            cs.subrange(i, cs.len() as int),
        ),
    decreases i,
{
    if i == 0 {
        assert(cs.subrange(0, 0).len() == 0);
        assert(cs.subrange(0, cs.len() as int) =~= cs);
        assert(normals_of(cs.subrange(0, 0)) + normals_of(cs) =~= normals_of(cs));
    } else {
        let rest = cs.subrange(1, cs.len() as int);
        lemma_normals_split(rest, i - 1);
        assert(cs.subrange(0, i)[0] == cs[0]);
        assert(cs.subrange(0, i).subrange(1, i) =~= rest.subrange(0, i - 1));
        assert(cs.subrange(i, cs.len() as int) =~= rest.subrange(i - 1, rest.len() as int));
        assert(normals_of(cs) =~= normals_of(cs.subrange(0, i)) + normals_of(
            cs.subrange(i, cs.len() as int),
        ));
    }
}

/// Sanitizes a path for extraction: root and `.` components are
/// dropped, any `..` rejects the whole path, and an emptied path is
/// rejected too — a rejected entry must be skipped, never written.
pub fn sanitize_rel_path(p: &LexPath) -> (r: Option<LexPath>)
    ensures
        r is None <==> (has_parent(p@.comps) || normals_of(p@.comps).len() == 0),
        r matches Some(q) ==> q@.absolute == false && q@.comps == normals_of(p@.comps),
{
    let ghost cs = p@.comps;
    let mut out: Vec<PathComp> = Vec::new();
    let mut i: usize = 0;
    proof {
        assert(comps_view(out@) =~= normals_of(cs.subrange(0, 0)));
    }
    while i < p.comps.len()
        invariant
            i <= p.comps@.len(),
            cs == p@.comps,
            cs.len() == p.comps@.len(),
            comps_view(out@) == normals_of(cs.subrange(0, i as int)),
            !has_parent(cs.subrange(0, i as int)),
        decreases p.comps@.len() - i,
    {
        let ghost pre = cs.subrange(0, i as int);
        let ghost pre1 = cs.subrange(0, i as int + 1);
        proof {
            lemma_normals_split(pre1, i as int);
            assert(pre1.subrange(0, i as int) =~= pre);
            let single = pre1.subrange(i as int, i as int + 1);
            assert(single.len() == 1);
            assert(single[0] == cs[i as int]);
            assert(single.subrange(1, 1) =~= Seq::<CompV>::empty());
            assert(normals_of(single.subrange(1, 1)) == Seq::<CompV>::empty());
        }
        match &p.comps[i] {
            PathComp::Parent => {
                proof {
                    assert(cs[i as int] is Parent);
                    assert(has_parent(cs));
                }
                return None;
            },
            PathComp::Cur => {
                proof {
                    assert(normals_of(pre1) =~= normals_of(pre));
                    assert forall|j: int| 0 <= j < pre1.len() implies !(pre1[j] is Parent) by {
                        if j < i {
                            assert(pre[j] == pre1[j]);
                        }
                    }
                }
            },
            PathComp::Normal(s) => {
                out.push(PathComp::Normal(s.clone()));
                proof {
                    assert(normals_of(pre1) =~= normals_of(pre).push(cs[i as int]));
                    assert(comps_view(out@) =~= normals_of(pre1));
                    assert forall|j: int| 0 <= j < pre1.len() implies !(pre1[j] is Parent) by {
                        if j < i {
                            assert(pre[j] == pre1[j]);
                        }
                    }
                }
            },
        }
        i = i + 1;
    }
    proof {
        assert(cs.subrange(0, i as int) =~= cs);
    }
    if out.len() == 0 {
        return None;
    }
    Some(LexPath { absolute: false, comps: out })
}

/// Whether two paths are the same path, componentwise.
pub fn path_eq(a: &LexPath, b: &LexPath) -> (r: bool)
    ensures
        r == (a@ == b@),
{
    if a.absolute != b.absolute {
        return false;
    }
    if a.comps.len() != b.comps.len() {
        proof {
            assert(a@.comps.len() != b@.comps.len());
        }
        return false;
    }
    let mut i: usize = 0;
    while i < a.comps.len()
        invariant
            i <= a.comps@.len(),
            a.comps@.len() == b.comps@.len(),
            a.absolute == b.absolute,
            forall|j: int| 0 <= j < i ==> comps_view(a.comps@)[j] == comps_view(b.comps@)[j],
        decreases a.comps@.len() - i,
    {
        if !comp_eq(&a.comps[i], &b.comps[i]) {
            proof {
                assert(a@.comps[i as int] != b@.comps[i as int]);
            }
            return false;
        }
        i = i + 1;
    }
    proof {
        assert(a@.comps =~= b@.comps);
    }
    true
}

/// A desired directory mode, with the priority that requested it.
#[derive(Debug, Clone, Copy, PartialEq, Eq, Structural)]
pub struct DirMode {
    pub mode: u32,
    pub priority: usize,
}

/// The extraction-time permission plan: the final mode requested for
/// each directory (highest priority wins), and the original mode of
/// each directory temporarily made writable. Both maps keep one entry
/// per directory.
#[derive(Debug)]
pub struct DirPlan {
    pub desired: Vec<(LexPath, DirMode)>,
    pub original: Vec<(LexPath, u32)>,
}

pub open spec fn dp_views(s: Seq<(LexPath, DirMode)>) -> Seq<(PathV, DirMode)> {
    Seq::new(s.len(), |i: int| (s[i].0@, s[i].1))
}

pub open spec fn op_views(s: Seq<(LexPath, u32)>) -> Seq<(PathV, u32)> {
    Seq::new(s.len(), |i: int| (s[i].0@, s[i].1))
}

/// First-match lookup in the desired map.
pub open spec fn lookup_desired(s: Seq<(PathV, DirMode)>, k: PathV) -> Option<DirMode>
    decreases s.len(),
{
    if s.len() == 0 {
        None
    } else if s[0].0 == k {
        Some(s[0].1)
    } else {
        lookup_desired(s.subrange(1, s.len() as int), k)
    }
}

/// First-match lookup in the original-mode map.
pub open spec fn lookup_original(s: Seq<(PathV, u32)>, k: PathV) -> Option<u32>
    decreases s.len(),
{
    if s.len() == 0 {
        None
    } else if s[0].0 == k {
        Some(s[0].1)
    } else {
        lookup_original(s.subrange(1, s.len() as int), k)
    }
}

/// One entry per directory.
pub open spec fn unique_dirs(s: Seq<(PathV, DirMode)>) -> bool {
    forall|i: int, j: int| 0 <= i < j < s.len() ==> (#[trigger] s[i]).0 != (#[trigger] s[j]).0
}

pub open spec fn unique_orig_dirs(s: Seq<(PathV, u32)>) -> bool {
    forall|i: int, j: int| 0 <= i < j < s.len() ==> (#[trigger] s[i]).0 != (#[trigger] s[j]).0
}

/// A well-formed plan keeps both maps one-entry-per-directory.
pub open spec fn wf_plan(p: DirPlan) -> bool {
    unique_dirs(dp_views(p.desired@)) && unique_orig_dirs(op_views(p.original@))
}

proof fn lemma_lookup_desired_at(s: Seq<(PathV, DirMode)>, k: PathV, i: int)
    requires
        0 <= i < s.len(),
        s[i].0 == k,
        forall|j: int| 0 <= j < i ==> (#[trigger] s[j]).0 != k,
    ensures
        lookup_desired(s, k) == Some(s[i].1),
    decreases i,
{
    if i > 0 {
        let t = s.subrange(1, s.len() as int);
        lemma_lookup_desired_at(t, k, i - 1);
        assert(t[i - 1] == s[i]);
    }
}

proof fn lemma_lookup_desired_none(s: Seq<(PathV, DirMode)>, k: PathV)
    requires
        forall|j: int| 0 <= j < s.len() ==> (#[trigger] s[j]).0 != k,
    ensures
        lookup_desired(s, k) is None,
    decreases s.len(),
{
    if s.len() > 0 {
        lemma_lookup_desired_none(s.subrange(1, s.len() as int), k);
    }
}

proof fn lemma_lookup_desired_none_inv(s: Seq<(PathV, DirMode)>, k: PathV)
    requires
        lookup_desired(s, k) is None,
    ensures
        forall|j: int| 0 <= j < s.len() ==> (#[trigger] s[j]).0 != k,
    decreases s.len(),
{
    if s.len() > 0 {
        let t = s.subrange(1, s.len() as int);
        lemma_lookup_desired_none_inv(t, k);
        assert forall|j: int| 0 <= j < s.len() implies (#[trigger] s[j]).0 != k by {
            if j > 0 {
                assert(t[j - 1] == s[j]);
            }
        }
    }
}

proof fn lemma_lookup_desired_update(
    a: Seq<(PathV, DirMode)>,
    b: Seq<(PathV, DirMode)>,
    i: int,
    k: PathV,
)
    requires
        a.len() == b.len(),
        0 <= i < a.len(),
        forall|j: int| 0 <= j < a.len() && j != i ==> (#[trigger] a[j]) == b[j],
        a[i].0 == b[i].0,
        k != a[i].0,
    ensures
        lookup_desired(b, k) == lookup_desired(a, k),
    decreases a.len(),
{
    if a.len() > 0 {
        let ta = a.subrange(1, a.len() as int);
        let tb = b.subrange(1, b.len() as int);
        if i == 0 {
            assert(ta =~= tb);
        } else {
            assert(a[0] == b[0]);
            lemma_lookup_desired_update(ta, tb, i - 1, k);
        }
    }
}

impl Default for DirPlan {
    /// An empty plan.
    fn default() -> (r: Self)
        ensures
            r.desired@.len() == 0,
            r.original@.len() == 0,
            wf_plan(r),
    {
        let r = DirPlan { desired: Vec::new(), original: Vec::new() };
        r
    }
}

fn find_desired(desired: &Vec<(LexPath, DirMode)>, dir: &LexPath) -> (r: Option<usize>)
    ensures
        r matches Some(i) ==> i < desired@.len() && dp_views(desired@)[i as int].0 == dir@
            && lookup_desired(dp_views(desired@), dir@) == Some(dp_views(desired@)[i as int].1),
        r is None ==> lookup_desired(dp_views(desired@), dir@) is None,
{
    let mut i: usize = 0;
    while i < desired.len()
        invariant
            i <= desired@.len(),
            forall|j: int| 0 <= j < i ==> (#[trigger] dp_views(desired@)[j]).0 != dir@,
        decreases desired@.len() - i,
    {
        if path_eq(&desired[i].0, dir) {
            proof {
                lemma_lookup_desired_at(dp_views(desired@), dir@, i as int);
            }
            return Some(i);
        }
        i = i + 1;
    }
    proof {
        lemma_lookup_desired_none(dp_views(desired@), dir@);
    }
    None
}

/// Records the mode an archive entry wants for a directory; on
/// conflict the highest priority wins, deterministically.
pub fn record_desired_dir_mode(plan: &mut DirPlan, dir: LexPath, mode: u32, priority: usize)
    requires
        wf_plan(*old(plan)),
    ensures
        wf_plan(*final(plan)),
        final(plan).original == old(plan).original,
        lookup_desired(dp_views(final(plan).desired@), dir@) == (match lookup_desired(
            dp_views(old(plan).desired@),
            dir@,
        ) {
            Some(existing) => if existing.priority > priority {
                Some(existing)
            } else {
                Some(DirMode { mode, priority })
            },
            None => Some(DirMode { mode, priority }),
        }),
        forall|k: PathV|
            k != dir@ ==> lookup_desired(dp_views(final(plan).desired@), k) == lookup_desired(
                dp_views(old(plan).desired@),
                k,
            ),
{
    let ghost dv0 = dp_views(plan.desired@);
    match find_desired(&plan.desired, &dir) {
        Some(i) => {
            let existing = plan.desired[i].1;
            if existing.priority > priority {
                // the stronger request stands
            } else {
                let ghost before = plan.desired@;
                let _ = plan.desired.remove(i);
                plan.desired.insert(i, (dir, DirMode { mode, priority }));
                proof {
                    let dv = dp_views(plan.desired@);
                    assert(plan.desired@.len() == before.len());
                    assert forall|j: int|
                        0 <= j < dv.len() && j != i implies dv[j] == dv0[j] by {
                        assert(plan.desired@[j] == before[j]);
                    }
                    assert(dv[i as int].0 == dir@);
                    assert(dv[i as int].1 == DirMode { mode, priority });
                    assert forall|j: int| 0 <= j < i implies (#[trigger] dv[j]).0 != dir@ by {
                        assert(dv0[j].0 != dv0[i as int].0);
                    }
                    lemma_lookup_desired_at(dv, dir@, i as int);
                    assert forall|k: PathV|
                        k != dir@ implies lookup_desired(dv, k) == lookup_desired(dv0, k) by {
                        lemma_lookup_desired_update(dv0, dv, i as int, k);
                    }
                    assert(unique_dirs(dv)) by {
                        assert forall|x: int, y: int|
                            0 <= x < y < dv.len() implies (#[trigger] dv[x]).0 != (
                            #[trigger] dv[y]).0 by {
                            assert(dv[x].0 == dv0[x].0);
                            assert(dv[y].0 == dv0[y].0);
                            assert(dv0[x].0 != dv0[y].0);
                        }
                    }
                }
            }
        },
        None => {
            let ghost before = plan.desired@;
            plan.desired.push((dir, DirMode { mode, priority }));
            proof {
                let dv = dp_views(plan.desired@);
                let n = before.len() as int;
                assert forall|j: int| 0 <= j < n implies dv[j] == dv0[j] by {
                    assert(plan.desired@[j] == before[j]);
                }
                assert(dv[n].0 == dir@);
                lemma_lookup_desired_none_inv(dv0, dir@);
                assert forall|j: int| 0 <= j < n implies (#[trigger] dv[j]).0 != dir@ by {
                    assert(dv0[j].0 != dir@);
                }
                lemma_lookup_desired_at(dv, dir@, n);
                assert forall|k: PathV|
                    k != dir@ implies lookup_desired(dv, k) == lookup_desired(dv0, k) by {
                    lemma_lookup_append_other(dv0, dv, k);
                }
                assert(unique_dirs(dv)) by {
                    assert forall|x: int, y: int|
                        0 <= x < y < dv.len() implies (#[trigger] dv[x]).0 != (
                        #[trigger] dv[y]).0 by {
                        if y < n {
                            assert(dv0[x].0 != dv0[y].0);
                        } else {
                            assert(dv[y].0 == dir@);
                            assert(dv[x].0 != dir@);
                        }
                    }
                }
            }
        },
    }
}

proof fn lemma_lookup_original_at(s: Seq<(PathV, u32)>, k: PathV, i: int)
    requires
        0 <= i < s.len(),
        s[i].0 == k,
        forall|j: int| 0 <= j < i ==> (#[trigger] s[j]).0 != k,
    ensures
        lookup_original(s, k) == Some(s[i].1),
    decreases i,
{
    if i > 0 {
        let t = s.subrange(1, s.len() as int);
        lemma_lookup_original_at(t, k, i - 1);
        assert(t[i - 1] == s[i]);
    }
}

proof fn lemma_lookup_original_none(s: Seq<(PathV, u32)>, k: PathV)
    requires
        forall|j: int| 0 <= j < s.len() ==> (#[trigger] s[j]).0 != k,
    ensures
        lookup_original(s, k) is None,
    decreases s.len(),
{
    if s.len() > 0 {
        lemma_lookup_original_none(s.subrange(1, s.len() as int), k);
    }
}

proof fn lemma_lookup_original_none_inv(s: Seq<(PathV, u32)>, k: PathV)
    requires
        lookup_original(s, k) is None,
    ensures
        forall|j: int| 0 <= j < s.len() ==> (#[trigger] s[j]).0 != k,
    decreases s.len(),
{
    if s.len() > 0 {
        let t = s.subrange(1, s.len() as int);
        lemma_lookup_original_none_inv(t, k);
        assert forall|j: int| 0 <= j < s.len() implies (#[trigger] s[j]).0 != k by {
            if j > 0 {
                assert(t[j - 1] == s[j]);
            }
        }
    }
}

proof fn lemma_lookup_orig_append_other(a: Seq<(PathV, u32)>, b: Seq<(PathV, u32)>, k: PathV)
    requires
        b.len() == a.len() + 1,
        forall|j: int| 0 <= j < a.len() ==> (#[trigger] b[j]) == a[j],
        b[a.len() as int].0 != k,
    ensures
        lookup_original(b, k) == lookup_original(a, k),
    decreases a.len(),
{
    if a.len() == 0 {
        assert(b.len() == 1);
        assert(b.subrange(1, 1).len() == 0);
    } else {
        let ta = a.subrange(1, a.len() as int);
        let tb = b.subrange(1, b.len() as int);
        assert(a[0] == b[0]);
        assert forall|j: int| 0 <= j < ta.len() implies (#[trigger] tb[j]) == ta[j] by {
            assert(tb[j] == b[j + 1]);
            assert(ta[j] == a[j + 1]);
        }
        assert(tb[ta.len() as int] == b[a.len() as int]);
        lemma_lookup_orig_append_other(ta, tb, k);
    }
}

fn find_original(original: &Vec<(LexPath, u32)>, dir: &LexPath) -> (r: Option<usize>)
    ensures
        r matches Some(i) ==> i < original@.len() && op_views(original@)[i as int].0 == dir@,
        r is None ==> lookup_original(op_views(original@), dir@) is None,
{
    let mut i: usize = 0;
    while i < original.len()
        invariant
            i <= original@.len(),
            forall|j: int| 0 <= j < i ==> (#[trigger] op_views(original@)[j]).0 != dir@,
        decreases original@.len() - i,
    {
        if path_eq(&original[i].0, dir) {
            return Some(i);
        }
        i = i + 1;
    }
    proof {
        lemma_lookup_original_none(op_views(original@), dir@);
    }
    None
}

/// Whether a mode already grants the owner write and execute, the bits
/// needed to create entries inside a directory.
pub open spec fn has_owner_wx(mode: u32) -> bool {
    mode & 0o300 == 0o300
}

/// Records a directory whose mode lacks owner write+execute and says
/// which mode to set so entries can be created inside it; the original
/// mode is remembered once, for later restoration. Anything that is not
/// a directory, or already writable, is left alone.
pub fn ensure_owner_writable(plan: &mut DirPlan, dir: LexPath, is_dir: bool, mode: u32) -> (set_to:
    Option<u32>)
    requires
        wf_plan(*old(plan)),
    ensures
        wf_plan(*final(plan)),
        final(plan).desired == old(plan).desired,
        !(is_dir && !has_owner_wx(mode)) ==> set_to is None && *final(plan) == *old(plan),
        is_dir && !has_owner_wx(mode) ==> {
            &&& set_to == Some(mode | 0o300)
            &&& lookup_original(op_views(final(plan).original@), dir@) == (match lookup_original(
                op_views(old(plan).original@),
                dir@,
            ) {
                Some(m) => Some(m),
                None => Some(mode),
            })
            &&& forall|k: PathV|
                k != dir@ ==> lookup_original(op_views(final(plan).original@), k)
                    == lookup_original(op_views(old(plan).original@), k)
        },
{
    if !is_dir {
        return None;
    }
    if mode & 0o300 == 0o300 {
        return None;
    }
    let ghost ov0 = op_views(plan.original@);
    match find_original(&plan.original, &dir) {
        Some(i) => {
            proof {
                assert forall|j: int| 0 <= j < i implies (#[trigger] ov0[j]).0 != dir@ by {
                    assert(ov0[j].0 != ov0[i as int].0);
                }
                lemma_lookup_original_at(ov0, dir@, i as int);
            }
        },
        None => {
            let ghost before = plan.original@;
            plan.original.push((dir, mode));
            proof {
                let ov = op_views(plan.original@);
                let n = before.len() as int;
                assert forall|j: int| 0 <= j < n implies ov[j] == ov0[j] by {
                    assert(plan.original@[j] == before[j]);
                }
                assert(ov[n].0 == dir@);
                lemma_lookup_original_none_inv(ov0, dir@);
                assert forall|j: int| 0 <= j < n implies (#[trigger] ov[j]).0 != dir@ by {
                    assert(ov0[j].0 != dir@);
                }
                lemma_lookup_original_at(ov, dir@, n);
                assert forall|k: PathV|
                    k != dir@ implies lookup_original(ov, k) == lookup_original(ov0, k) by {
                    lemma_lookup_orig_append_other(ov0, ov, k);
                }
                assert(unique_orig_dirs(ov)) by {
                    assert forall|x: int, y: int|
                        0 <= x < y < ov.len() implies (#[trigger] ov[x]).0 != (
                        #[trigger] ov[y]).0 by {
                        if y < n {
                            assert(ov0[x].0 != ov0[y].0);
                        } else {
                            assert(ov[y].0 == dir@);
                            assert(ov[x].0 != dir@);
                        }
                    }
                }
            }
        },
    }
    Some(mode | 0o300)
}

/// The desired entries as `(directory, mode)` operations.
pub open spec fn dp_to_ops(s: Seq<(PathV, DirMode)>) -> Seq<(PathV, u32)> {
    Seq::new(s.len(), |i: int| (s[i].0, s[i].1.mode))
}

/// Deepest directories first, measured by component count.
pub open spec fn depth_sorted_desc(ops: Seq<(PathV, u32)>) -> bool {
    forall|i: int, j: int|
        0 <= i < j < ops.len() ==> (#[trigger] ops[i]).0.comps.len() >= (
        #[trigger] ops[j]).0.comps.len()
}

/// Whether the desired map holds an entry for this directory.
pub open spec fn in_desired(ds: Seq<(PathV, DirMode)>, k: PathV) -> bool {
    exists|i: int| 0 <= i < ds.len() && (#[trigger] ds[i]).0 == k
}

/// The restore operations: every remembered original mode whose
/// directory no desired mode overrides, in remembered order.
pub open spec fn spec_restores(os: Seq<(PathV, u32)>, ds: Seq<(PathV, DirMode)>) -> Seq<
    (PathV, u32),
>
    decreases os.len(),
{
    if os.len() == 0 {
        Seq::empty()
    } else {
        (if in_desired(ds, os[0].0) {
            Seq::empty()
        } else {
            seq![os[0]]
        }) + spec_restores(os.subrange(1, os.len() as int), ds)
    }
}

pub proof fn lemma_restores_split(os: Seq<(PathV, u32)>, ds: Seq<(PathV, DirMode)>, i: int)
    requires
        0 <= i <= os.len(),
    ensures
        spec_restores(os, ds) == spec_restores(os.subrange(0, i), ds) + spec_restores(
            os.subrange(i, os.len() as int),
            ds,
        ),
    decreases i,
{
    if i == 0 {
        assert(os.subrange(0, 0).len() == 0);
        assert(os.subrange(0, os.len() as int) =~= os);
        assert(spec_restores(os.subrange(0, 0), ds) + spec_restores(os, ds) =~= spec_restores(
            os,
            ds,
        ));
    } else {
        let rest = os.subrange(1, os.len() as int);
        lemma_restores_split(rest, ds, i - 1);
        assert(os.subrange(0, i)[0] == os[0]);
        assert(os.subrange(0, i).subrange(1, i) =~= rest.subrange(0, i - 1));
        assert(os.subrange(i, os.len() as int) =~= rest.subrange(i - 1, rest.len() as int));
        assert(spec_restores(os, ds) =~= spec_restores(os.subrange(0, i), ds) + spec_restores(
            os.subrange(i, os.len() as int),
            ds,
        ));
    }
}

fn is_in_desired(desired: &Vec<(LexPath, DirMode)>, dir: &LexPath) -> (r: bool)
    ensures
        r == in_desired(dp_views(desired@), dir@),
{
    let mut i: usize = 0;
    while i < desired.len()
        invariant
            i <= desired@.len(),
            forall|j: int| 0 <= j < i ==> (#[trigger] dp_views(desired@)[j]).0 != dir@,
        decreases desired@.len() - i,
    {
        if path_eq(&desired[i].0, dir) {
            proof {
                assert(dp_views(desired@)[i as int].0 == dir@);
            }
            return true;
        }
        i = i + 1;
    }
    proof {
        assert(!in_desired(dp_views(desired@), dir@));
    }
    false
}

fn depth_insert_position(out: &Vec<(LexPath, u32)>, depth: usize) -> (k: usize)
    requires
        depth_sorted_desc(op_views(out@)),
    ensures
        k <= out@.len(),
        forall|j: int| 0 <= j < k ==> (#[trigger] op_views(out@)[j]).0.comps.len() >= depth,
        forall|j: int|
            k <= j < out@.len() ==> depth >= (#[trigger] op_views(out@)[j]).0.comps.len(),
{
    let mut k: usize = 0;
    while k < out.len() && out[k].0.comps.len() >= depth
        invariant
            k <= out@.len(),
            forall|j: int| 0 <= j < k ==> (#[trigger] op_views(out@)[j]).0.comps.len() >= depth,
        decreases out@.len() - k,
    {
        k = k + 1;
    }
    proof {
        if (k as int) < out@.len() {
            assert(op_views(out@)[k as int].0.comps.len() < depth);
            assert forall|j: int|
                k <= j < out@.len() implies depth >= (
            #[trigger] op_views(out@)[j]).0.comps.len() by {
                if j > k {
                    assert(op_views(out@)[k as int].0.comps.len() >= op_views(
                        out@,
                    )[j].0.comps.len());
                }
            }
        }
    }
    k
}

/// The chmod operations that finish an extraction: every desired mode,
/// deepest directory first, then the remembered original mode of every
/// directory no desired mode overrides.
pub fn finalize_directory_permissions(plan: DirPlan) -> (r: Vec<(LexPath, u32)>)
    ensures
        exists|front: Seq<(PathV, u32)>|
            #[trigger] depth_sorted_desc(front) && front.to_multiset() == dp_to_ops(
                dp_views(plan.desired@),
            ).to_multiset() && op_views(r@) == front + spec_restores(
                op_views(plan.original@),
                dp_views(plan.desired@),
            ),
{
    broadcast use vstd::seq_lib::group_to_multiset_ensures;
    broadcast use vstd::multiset::group_multiset_axioms;

    let DirPlan { desired, original } = plan;
    let ghost dviews = dp_views(desired@);
    let ghost full = dp_to_ops(dviews);
    let ghost oviews = op_views(original@);
    // restore list: what was only touched to make extraction possible
    let mut restores: Vec<(LexPath, u32)> = Vec::new();
    let mut i: usize = 0;
    proof {
        assert(op_views(restores@) =~= spec_restores(oviews.subrange(0, 0), dviews));
    }
    while i < original.len()
        invariant
            i <= original@.len(),
            oviews == op_views(original@),
            oviews.len() == original@.len(),
            dviews == dp_views(desired@),
            op_views(restores@) == spec_restores(oviews.subrange(0, i as int), dviews),
        decreases original@.len() - i,
    {
        let ghost pre = oviews.subrange(0, i as int);
        let ghost pre1 = oviews.subrange(0, i as int + 1);
        let ghost single = pre1.subrange(i as int, i as int + 1);
        proof {
            lemma_restores_split(pre1, dviews, i as int);
            assert(pre1.subrange(0, i as int) =~= pre);
            assert(single.len() == 1);
            assert(single[0] == oviews[i as int]);
            assert(single.subrange(1, 1) =~= Seq::<(PathV, u32)>::empty());
            assert(spec_restores(single.subrange(1, 1), dviews) == Seq::<(PathV, u32)>::empty());
        }
        let ghost r0 = op_views(restores@);
        if !is_in_desired(&desired, &original[i].0) {
            restores.push((original[i].0.clone_path(), original[i].1));
            proof {
                assert(op_views(restores@) =~= r0 + seq![oviews[i as int]]);
                assert(spec_restores(single, dviews) =~= seq![oviews[i as int]]);
            }
        } else {
            proof {
                assert(op_views(restores@) =~= r0);
                assert(spec_restores(single, dviews) =~= Seq::<(PathV, u32)>::empty());
                assert(r0 + Seq::<(PathV, u32)>::empty() =~= r0);
            }
        }
        proof {
            assert(op_views(restores@) =~= spec_restores(pre1, dviews));
        }
        i = i + 1;
    }
    proof {
        assert(oviews.subrange(0, i as int) =~= oviews);
    }
    // deepest-first application of the desired modes
    let mut rest = desired;
    let mut out: Vec<(LexPath, u32)> = Vec::new();
    proof {
        assert(op_views(out@) =~= Seq::<(PathV, u32)>::empty());
        assert(op_views(out@).to_multiset().add(dp_to_ops(dp_views(rest@)).to_multiset())
            =~= full.to_multiset());
    }
    while rest.len() > 0
        invariant
            depth_sorted_desc(op_views(out@)),
            op_views(out@).to_multiset().add(dp_to_ops(dp_views(rest@)).to_multiset())
                == full.to_multiset(),
        decreases rest@.len(),
    {
        broadcast use vstd::seq_lib::group_to_multiset_ensures;
        broadcast use vstd::multiset::group_multiset_axioms;

        let ghost out0 = op_views(out@);
        let ghost rest0 = dp_to_ops(dp_views(rest@));
        let x = rest.remove(0);
        let ghost xv = (x.0@, x.1.mode);
        proof {
            assert(dp_to_ops(dp_views(rest@)) =~= rest0.remove(0));
            assert(rest0.to_multiset().contains(rest0[0])) by {
                assert(rest0.contains(rest0[0]));
            }
            assert(dp_to_ops(dp_views(rest@)).to_multiset() =~= rest0.to_multiset().remove(
                rest0[0],
            ));
            assert(rest0[0] == xv);
        }
        let k = depth_insert_position(&out, x.0.comps.len());
        let ghost kk = k as int;
        let ghost out_exec0 = out@;
        let pair = (x.0, x.1.mode);
        out.insert(k, pair);
        proof {
            out_exec0.insert_ensures(kk, pair);
            let n0 = out0.len() as int;
            let nv = op_views(out@);
            assert(out0.len() == out_exec0.len());
            assert(nv =~= out0.insert(kk, xv)) by {
                out0.insert_ensures(kk, xv);
                assert forall|j: int| 0 <= j < nv.len() implies nv[j] == out0.insert(kk, xv)[j] by {
                    if j < kk {
                        assert(out@[j] == out_exec0[j]);
                    } else if j == kk {
                        assert(out@[j] == pair);
                    } else {
                        assert(out@[j] == out_exec0[j - 1]);
                    }
                }
            }
            assert(depth_sorted_desc(nv)) by {
                out0.insert_ensures(kk, xv);
                assert forall|a1: int, b1: int|
                    0 <= a1 < b1 < nv.len() implies (#[trigger] nv[a1]).0.comps.len() >= (
                #[trigger] nv[b1]).0.comps.len() by {
                    if a1 == kk {
                        assert(nv[b1] == out0[b1 - 1]);
                    } else if b1 == kk {
                        assert(nv[a1] == out0[a1]);
                    }
                }
            }
            let a = out0.subrange(0, kk);
            let b = out0.subrange(kk, n0);
            assert(out0 =~= a + b);
            assert(out0.insert(kk, xv) =~= a + seq![xv] + b);
            vstd::seq_lib::lemma_multiset_commutative(a, b);
            vstd::seq_lib::lemma_multiset_commutative(a + seq![xv], b);
            vstd::seq_lib::lemma_multiset_commutative(a, seq![xv]);
            assert(seq![xv] =~= Seq::<(PathV, u32)>::empty().push(xv));
            assert(Seq::<(PathV, u32)>::empty().to_multiset() =~= vstd::multiset::Multiset::<
                (PathV, u32),
            >::empty()) by {
                assert(forall|e: (PathV, u32)| !Seq::<(PathV, u32)>::empty().contains(e));
            }
            assert(seq![xv].to_multiset() =~= vstd::multiset::Multiset::<
                (PathV, u32),
            >::empty().insert(xv));
            assert(nv.to_multiset() =~= out0.to_multiset().insert(xv));
            assert(nv.to_multiset().add(dp_to_ops(dp_views(rest@)).to_multiset())
                =~= full.to_multiset());
        }
    }
    let ghost front = op_views(out@);
    let ghost restores_v = op_views(restores@);
    let mut tail = restores;
    out.append(&mut tail);
    proof {
        assert(dp_to_ops(dp_views(rest@)).len() == 0);
        assert(dp_to_ops(dp_views(rest@)).to_multiset() =~= vstd::multiset::Multiset::<
            (PathV, u32),
        >::empty()) by {
            assert(forall|e: (PathV, u32)| !dp_to_ops(dp_views(rest@)).contains(e));
        }
        assert(front.to_multiset() =~= full.to_multiset());
        assert(op_views(out@) =~= front + restores_v);
        assert(depth_sorted_desc(front) && front.to_multiset() == dp_to_ops(
            dviews,
        ).to_multiset() && op_views(out@) == front + spec_restores(oviews, dviews));
    }
    out
}

proof fn lemma_lookup_append_other(a: Seq<(PathV, DirMode)>, b: Seq<(PathV, DirMode)>, k: PathV)
    requires
        b.len() == a.len() + 1,
        forall|j: int| 0 <= j < a.len() ==> (#[trigger] b[j]) == a[j],
        b[a.len() as int].0 != k,
    ensures
        lookup_desired(b, k) == lookup_desired(a, k),
    decreases a.len(),
{
    if a.len() == 0 {
        assert(b.len() == 1);
        assert(b.subrange(1, 1).len() == 0);
    } else {
        let ta = a.subrange(1, a.len() as int);
        let tb = b.subrange(1, b.len() as int);
        assert(a[0] == b[0]);
        assert forall|j: int| 0 <= j < ta.len() implies (#[trigger] tb[j]) == ta[j] by {
            assert(tb[j] == b[j + 1]);
            assert(ta[j] == a[j + 1]);
        }
        assert(tb[ta.len() as int] == b[a.len() as int]);
        lemma_lookup_append_other(ta, tb, k);
    }
}

} // verus!
