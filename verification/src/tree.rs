//! The indexed directory tree: an immutable topology (name, path, kind)
//! with two memoized reduction slots, `metadata` and `hash`.

use vstd::prelude::*;
use vstd::multiset::Multiset;
use vstd::seq_lib::lemma_multiset_commutative;
use crate::text::{lex_leq, utf8_bytes, str_leq, lemma_lex_total, lemma_lex_trans};

verus! {

/// Per-node reduction result: total bytes, file count (symlinks count as
/// files), directory count (a directory counts itself).
#[derive(Debug, Clone, Copy, PartialEq, Eq, Structural)]
pub struct NodeMetadata {
    pub size: u64,
    pub files: u64,
    pub dirs: u64,
}

/// What a tree entry is. Directories carry their children, sorted
/// ascending by name; symlinks carry their target verbatim.
#[derive(Debug)]
pub enum NodeType {
    File { size: u64 },
    Directory { children: Vec<TreeNode> },
    Symlink { target: String },
    Socket,
    Fifo,
    Device,
    Unknown { reason: String },
}

/// A node of the index tree.
#[derive(Debug)]
pub struct TreeNode {
    pub name: String,
    pub path: String,
    pub node_type: NodeType,
    pub metadata: Option<NodeMetadata>,
    pub hash: Option<String>,
}

/// The mathematical shape of a `NodeType`.
pub enum NodeTypeV {
    File { size: u64 },
    Directory { children: Seq<NodeV> },
    Symlink { target: Seq<char> },
    Socket,
    Fifo,
    Device,
    Unknown { reason: Seq<char> },
}

/// The mathematical shape of a `TreeNode`.
pub struct NodeV {
    pub name: Seq<char>,
    pub path: Seq<char>,
    pub node_type: NodeTypeV,
    pub metadata: Option<NodeMetadata>,
    pub hash: Option<Seq<char>>,
}

pub open spec fn node_view(n: TreeNode) -> NodeV
    decreases n, 1int,
{
    NodeV {
        name: n.name@,
        path: n.path@,
        node_type: match n.node_type {
            NodeType::File { size } => NodeTypeV::File { size },
            NodeType::Directory { children } => NodeTypeV::Directory {
                children: nodes_view(children@),
            },
            NodeType::Symlink { target } => NodeTypeV::Symlink { target: target@ },
            NodeType::Socket => NodeTypeV::Socket,
            NodeType::Fifo => NodeTypeV::Fifo,
            NodeType::Device => NodeTypeV::Device,
            NodeType::Unknown { reason } => NodeTypeV::Unknown { reason: reason@ },
        },
        metadata: n.metadata,
        hash: match n.hash {
            Some(h) => Some(h@),
            None => None,
        },
    }
}

pub open spec fn nodes_view(s: Seq<TreeNode>) -> Seq<NodeV>
    decreases s, 0int,
{
    if s.len() == 0 {
        Seq::empty()
    } else {
        seq![node_view(s[0])] + nodes_view(s.subrange(1, s.len() as int))
    }
}

impl View for TreeNode {
    type V = NodeV;

    open spec fn view(&self) -> NodeV {
        node_view(*self)
    }
}

/// `nodes_view` is the pointwise image of `node_view`.
pub proof fn lemma_nodes_view_index(s: Seq<TreeNode>)
    ensures
        nodes_view(s).len() == s.len(),
        forall|i: int| 0 <= i < s.len() ==> nodes_view(s)[i] == node_view(#[trigger] s[i]),
    decreases s.len(),
{
    if s.len() > 0 {
        let t = s.subrange(1, s.len() as int);
        lemma_nodes_view_index(t);
        assert forall|i: int| 0 <= i < s.len() implies nodes_view(s)[i] == node_view(
            #[trigger] s[i],
        ) by {
            if i > 0 {
                assert(t[i - 1] == s[i]);
                assert(nodes_view(s)[i] == nodes_view(t)[i - 1]);
            }
        }
    }
}

/// Well-formedness: every directory's children are sorted ascending by
/// name (in the UTF-8 byte order) at every level of the tree.
pub open spec fn wf_node(v: NodeV) -> bool
    decreases v,
{
    match v.node_type {
        NodeTypeV::Directory { children } => {
            &&& forall|i: int, j: int|
                0 <= i < j < children.len() ==> lex_leq(
                    utf8_bytes(children[i].name),
                    utf8_bytes(children[j].name),
                )
            &&& forall|i: int| 0 <= i < children.len() ==> wf_node(#[trigger] children[i])
        },
        _ => true,
    }
}

/// The names of a run of nodes, as UTF-8 byte strings.
pub open spec fn name_key(v: NodeV) -> Seq<u8> {
    utf8_bytes(v.name)
}

/// The metadata triple as unbounded naturals, so that the sums below
/// cannot wrap in the model.
pub struct MetaN {
    pub size: nat,
    pub files: nat,
    pub dirs: nat,
}

pub open spec fn meta_zero() -> MetaN {
    MetaN { size: 0, files: 0, dirs: 0 }
}

pub open spec fn meta_plus(a: MetaN, b: MetaN) -> MetaN {
    MetaN { size: a.size + b.size, files: a.files + b.files, dirs: a.dirs + b.dirs }
}

/// The metadata a node reduces to: a file contributes its size and one
/// file; a symlink one file and no bytes; a directory the sum over its
/// children plus itself; special and unknown entries nothing.
pub open spec fn spec_meta(v: NodeV) -> MetaN
    decreases v, 1int,
{
    match v.node_type {
        NodeTypeV::File { size } => MetaN { size: size as nat, files: 1, dirs: 0 },
        NodeTypeV::Symlink { .. } => MetaN { size: 0, files: 1, dirs: 0 },
        NodeTypeV::Directory { children } => {
            let c = meta_sum(children);
            MetaN { size: c.size, files: c.files, dirs: c.dirs + 1 }
        },
        _ => meta_zero(),
    }
}

pub open spec fn meta_sum(cs: Seq<NodeV>) -> MetaN
    decreases cs, 0int,
{
    if cs.len() == 0 {
        meta_zero()
    } else {
        meta_plus(spec_meta(cs[0]), meta_sum(cs.subrange(1, cs.len() as int)))
    }
}

/// Whether a node's metadata fits the machine representation.
pub open spec fn meta_fits(v: NodeV) -> bool {
    &&& spec_meta(v).size <= u64::MAX
    &&& spec_meta(v).files <= u64::MAX
    &&& spec_meta(v).dirs <= u64::MAX
}

/// The machine form of a node's metadata (exact whenever `meta_fits`).
pub open spec fn meta_as_u64(v: NodeV) -> NodeMetadata {
    NodeMetadata {
        size: spec_meta(v).size as u64,
        files: spec_meta(v).files as u64,
        dirs: spec_meta(v).dirs as u64,
    }
}

/// The tree after the metadata reduction: every node's slot holds its
/// own reduction result; nothing else changes.
pub open spec fn fill_meta(v: NodeV) -> NodeV
    decreases v, 1int,
{
    NodeV {
        name: v.name,
        path: v.path,
        node_type: match v.node_type {
            NodeTypeV::Directory { children } => NodeTypeV::Directory {
                children: fill_meta_seq(children),
            },
            nt => nt,
        },
        metadata: Some(meta_as_u64(v)),
        hash: v.hash,
    }
}

pub open spec fn fill_meta_seq(cs: Seq<NodeV>) -> Seq<NodeV>
    decreases cs, 0int,
{
    if cs.len() == 0 {
        Seq::empty()
    } else {
        seq![fill_meta(cs[0])] + fill_meta_seq(cs.subrange(1, cs.len() as int))
    }
}

pub proof fn lemma_fill_meta_seq_index(cs: Seq<NodeV>)
    ensures
        fill_meta_seq(cs).len() == cs.len(),
        forall|i: int| 0 <= i < cs.len() ==> fill_meta_seq(cs)[i] == fill_meta(#[trigger] cs[i]),
    decreases cs.len(),
{
    if cs.len() > 0 {
        let t = cs.subrange(1, cs.len() as int);
        lemma_fill_meta_seq_index(t);
        assert forall|i: int| 0 <= i < cs.len() implies fill_meta_seq(cs)[i] == fill_meta(
            #[trigger] cs[i],
        ) by {
            if i > 0 {
                assert(t[i - 1] == cs[i]);
                assert(fill_meta_seq(cs)[i] == fill_meta_seq(t)[i - 1]);
            }
        }
    }
}

/// Splitting a run of children splits the sum.
pub proof fn lemma_meta_sum_split(cs: Seq<NodeV>, i: int)
    requires
        0 <= i <= cs.len(),
    ensures
        meta_sum(cs) == meta_plus(
            meta_sum(cs.subrange(0, i)),
            meta_sum(cs.subrange(i, cs.len() as int)),
        ),
    decreases i,
{
    if i == 0 {
        assert(cs.subrange(0, 0).len() == 0);
        assert(cs.subrange(0, cs.len() as int) =~= cs);
    } else {
        let rest = cs.subrange(1, cs.len() as int);
        lemma_meta_sum_split(rest, i - 1);
        assert(cs.subrange(0, i)[0] == cs[0]);
        assert(cs.subrange(0, i).subrange(1, i) =~= rest.subrange(0, i - 1));
        assert(cs.subrange(i, cs.len() as int) =~= rest.subrange(i - 1, rest.len() as int));
    }
}

/// Each child's own reduction is bounded by the directory's sum.
pub proof fn lemma_meta_elem_le(cs: Seq<NodeV>, i: int)
    requires
        0 <= i < cs.len(),
    ensures
        spec_meta(cs[i]).size <= meta_sum(cs).size,
        spec_meta(cs[i]).files <= meta_sum(cs).files,
        spec_meta(cs[i]).dirs <= meta_sum(cs).dirs,
{
    lemma_meta_sum_split(cs, i);
    let tail = cs.subrange(i, cs.len() as int);
    assert(tail[0] == cs[i]);
    assert(meta_sum(tail) == meta_plus(
        spec_meta(cs[i]),
        meta_sum(tail.subrange(1, tail.len() as int)),
    ));
}

/// Filling metadata does not change what any node reduces to.
pub proof fn lemma_fill_meta_preserves_meta(v: NodeV)
    ensures
        spec_meta(fill_meta(v)) == spec_meta(v),
    decreases v, 1int,
{
    match v.node_type {
        NodeTypeV::Directory { children } => {
            lemma_fill_meta_seq_preserves_sum(children);
        },
        _ => {},
    }
}

pub proof fn lemma_fill_meta_seq_preserves_sum(cs: Seq<NodeV>)
    ensures
        meta_sum(fill_meta_seq(cs)) == meta_sum(cs),
    decreases cs, 0int,
{
    if cs.len() > 0 {
        let t = cs.subrange(1, cs.len() as int);
        lemma_fill_meta_preserves_meta(cs[0]);
        lemma_fill_meta_seq_preserves_sum(t);
        assert(fill_meta_seq(cs)[0] == fill_meta(cs[0]));
        assert(fill_meta_seq(cs).subrange(1, fill_meta_seq(cs).len() as int) =~= fill_meta_seq(
            t,
        ));
    }
}

/// Every directory of a well-formed tree keeps its children sorted
/// ascending by name, at every level.
pub proof fn lemma_wf_children_sorted(v: NodeV)
    requires
        wf_node(v),
        v.node_type is Directory,
    ensures
        sorted_names(v.node_type->Directory_children),
        forall|i: int|
            0 <= i < v.node_type->Directory_children.len() ==> wf_node(
                #[trigger] v.node_type->Directory_children[i],
            ),
{
}

/// The reduction laws of the metadata triple: a file contributes its
/// size and one file; a symlink one file and no bytes; a directory sums
/// its children and counts itself; the sum splits child by child (see
/// `lemma_meta_sum_split`).
pub proof fn lemma_metadata_sums(v: NodeV)
    ensures
        v.node_type matches NodeTypeV::Directory { children } ==> spec_meta(v).size == meta_sum(
            children,
        ).size && spec_meta(v).files == meta_sum(children).files && spec_meta(v).dirs == 1
            + meta_sum(children).dirs,
        v.node_type matches NodeTypeV::File { size } ==> spec_meta(v) == (MetaN {
            size: size as nat,
            files: 1,
            dirs: 0,
        }),
        v.node_type is Symlink ==> spec_meta(v) == (MetaN { size: 0, files: 1, dirs: 0 }),
        (v.node_type is Socket || v.node_type is Fifo || v.node_type is Device || v.node_type
            is Unknown) ==> spec_meta(v) == meta_zero(),
        meta_sum(Seq::<NodeV>::empty()) == meta_zero(),
{
}

/// The metadata reduction moves no node: a well-formed tree stays
/// well-formed, children keep their names and order.
pub proof fn lemma_fill_meta_wf(v: NodeV)
    requires
        wf_node(v),
    ensures
        wf_node(fill_meta(v)),
        fill_meta(v).name == v.name,
    decreases v, 1int,
{
    match v.node_type {
        NodeTypeV::Directory { children } => {
            lemma_fill_meta_seq_index(children);
            let fc = fill_meta_seq(children);
            assert forall|i: int| 0 <= i < fc.len() implies wf_node(#[trigger] fc[i]) by {
                lemma_fill_meta_wf(children[i]);
            }
            assert forall|i: int, j: int|
                0 <= i < j < fc.len() implies lex_leq(
                utf8_bytes(fc[i].name),
                utf8_bytes(fc[j].name),
            ) by {
                lemma_fill_meta_wf(children[i]);
                lemma_fill_meta_wf(children[j]);
            }
        },
        _ => {},
    }
}

/// Re-running the metadata reduction is harmless: the filled tree
/// reduces to the same values and filling it again changes nothing.
pub proof fn lemma_fill_meta_idempotent(v: NodeV)
    ensures
        fill_meta(fill_meta(v)) == fill_meta(v),
    decreases v, 1int,
{
    lemma_fill_meta_preserves_meta(v);
    match v.node_type {
        NodeTypeV::Directory { children } => {
            lemma_fill_meta_seq_idempotent(children);
        },
        _ => {},
    }
}

pub proof fn lemma_fill_meta_seq_idempotent(cs: Seq<NodeV>)
    ensures
        fill_meta_seq(fill_meta_seq(cs)) == fill_meta_seq(cs),
    decreases cs, 0int,
{
    if cs.len() > 0 {
        let t = cs.subrange(1, cs.len() as int);
        lemma_fill_meta_idempotent(cs[0]);
        lemma_fill_meta_seq_idempotent(t);
        assert(fill_meta_seq(cs)[0] == fill_meta(cs[0]));
        assert(fill_meta_seq(cs).subrange(1, fill_meta_seq(cs).len() as int) =~= fill_meta_seq(
            t,
        ));
        assert(fill_meta_seq(fill_meta_seq(cs)) =~= fill_meta_seq(cs));
    }
}

/// Adds two metadata triples, or reports that a component would not fit.
fn try_meta_plus(a: NodeMetadata, b: NodeMetadata) -> (r: Option<NodeMetadata>)
    ensures
        r is Some <==> (a.size + b.size <= u64::MAX && a.files + b.files <= u64::MAX && a.dirs
            + b.dirs <= u64::MAX),
        r matches Some(m) ==> m.size == a.size + b.size && m.files == a.files + b.files && m.dirs
            == a.dirs + b.dirs,
{
    if a.size <= u64::MAX - b.size && a.files <= u64::MAX - b.files && a.dirs <= u64::MAX
        - b.dirs {
        Some(
            NodeMetadata {
                size: a.size + b.size,
                files: a.files + b.files,
                dirs: a.dirs + b.dirs,
            },
        )
    } else {
        None
    }
}

/// The metadata reduction over a run of children, filling every slot
/// below and returning the combined sum.
fn meta_fill_nodes(v: &mut Vec<TreeNode>) -> (acc: NodeMetadata)
    requires
        meta_sum(nodes_view(old(v)@)).size <= u64::MAX,
        meta_sum(nodes_view(old(v)@)).files <= u64::MAX,
        meta_sum(nodes_view(old(v)@)).dirs <= u64::MAX,
    ensures
        nodes_view(final(v)@) == fill_meta_seq(nodes_view(old(v)@)),
        acc.size == meta_sum(nodes_view(old(v)@)).size,
        acc.files == meta_sum(nodes_view(old(v)@)).files,
        acc.dirs == meta_sum(nodes_view(old(v)@)).dirs,
    decreases old(v)@, 0int,
{
    let ghost views0 = nodes_view(old(v)@);
    let mut acc = NodeMetadata { size: 0, files: 0, dirs: 0 };
    let mut i: usize = 0;
    proof {
        lemma_nodes_view_index(old(v)@);
        assert(meta_sum(views0.subrange(0, 0)) == meta_zero());
    }
    while i < v.len()
        invariant
            i <= v@.len(),
            v@.len() == old(v)@.len(),
            views0 == nodes_view(old(v)@),
            views0.len() == old(v)@.len(),
            forall|j: int| 0 <= j < views0.len() ==> views0[j] == node_view(#[trigger] old(v)@[j]),
            forall|j: int|
                0 <= j < i ==> node_view(#[trigger] v@[j]) == fill_meta(views0[j]),
            forall|j: int| i <= j < v@.len() ==> #[trigger] v@[j] == old(v)@[j],
            acc.size == meta_sum(views0.subrange(0, i as int)).size,
            acc.files == meta_sum(views0.subrange(0, i as int)).files,
            acc.dirs == meta_sum(views0.subrange(0, i as int)).dirs,
            meta_sum(views0).size <= u64::MAX,
            meta_sum(views0).files <= u64::MAX,
            meta_sum(views0).dirs <= u64::MAX,
        decreases v@.len() - i,
    {
        proof {
            assert(v@[i as int] == old(v)@[i as int]);
            lemma_meta_elem_le(views0, i as int);
            assert(node_view(v@[i as int]) == views0[i as int]);
            assert(decreases_to!(old(v)@ => old(v)@[i as int]));
        }
        let m = v[i].compute_metadata();
        proof {
            // the running sum plus this child still fits
            lemma_meta_sum_split(views0, i as int + 1);
            lemma_meta_sum_split(views0.subrange(0, i as int + 1), i as int);
            assert(views0.subrange(0, i as int + 1).subrange(0, i as int) =~= views0.subrange(
                0,
                i as int,
            ));
            let single = views0.subrange(0, i as int + 1).subrange(i as int, i as int + 1);
            assert(single.len() == 1);
            assert(single[0] == views0[i as int]);
            assert(single.subrange(1, 1) =~= Seq::<NodeV>::empty());
            assert(meta_sum(single.subrange(1, 1)) == meta_zero());
            assert(meta_sum(single) == meta_plus(spec_meta(views0[i as int]), meta_zero()));
        }
        let acc2 = match try_meta_plus(acc, m) {
            Some(s) => s,
            None => {
                proof {
                    assert(false);
                }
                acc
            },
        };
        acc = acc2;
        i = i + 1;
    }
    proof {
        assert(views0.subrange(0, i as int) =~= views0);
        lemma_fill_meta_seq_index(views0);
        lemma_nodes_view_index(v@);
        assert forall|j: int| 0 <= j < v@.len() implies nodes_view(v@)[j] == fill_meta_seq(
            views0,
        )[j] by {
            assert(node_view(v@[j]) == fill_meta(views0[j]));
        }
        assert(nodes_view(v@) =~= fill_meta_seq(views0));
    }
    acc
}

/// Read-only check of one node against `meta_fits`, with its machine
/// triple when it fits.
fn meta_check_node(n: &TreeNode) -> (r: Option<NodeMetadata>)
    ensures
        r is Some <==> meta_fits(n@),
        r matches Some(m) ==> m == meta_as_u64(n@),
    decreases *n, 1int,
{
    let ghost v0 = node_view(*n);
    match &n.node_type {
        NodeType::File { size } => Some(NodeMetadata { size: *size, files: 1, dirs: 0 }),
        NodeType::Symlink { .. } => Some(NodeMetadata { size: 0, files: 1, dirs: 0 }),
        NodeType::Directory { children } => {
            proof {
                assert(spec_meta(v0).dirs == meta_sum(nodes_view(children@)).dirs + 1);
            }
            match meta_check_nodes(children) {
                Some(s) => {
                    if s.dirs < u64::MAX {
                        Some(NodeMetadata { size: s.size, files: s.files, dirs: s.dirs + 1 })
                    } else {
                        None
                    }
                },
                None => None,
            }
        },
        NodeType::Socket => Some(NodeMetadata { size: 0, files: 0, dirs: 0 }),
        NodeType::Fifo => Some(NodeMetadata { size: 0, files: 0, dirs: 0 }),
        NodeType::Device => Some(NodeMetadata { size: 0, files: 0, dirs: 0 }),
        NodeType::Unknown { .. } => Some(NodeMetadata { size: 0, files: 0, dirs: 0 }),
    }
}

/// Read-only check of a run of children: their combined sum, when all
/// three components fit.
fn meta_check_nodes(v: &Vec<TreeNode>) -> (r: Option<NodeMetadata>)
    ensures
        r is Some <==> (meta_sum(nodes_view(v@)).size <= u64::MAX && meta_sum(
            nodes_view(v@),
        ).files <= u64::MAX && meta_sum(nodes_view(v@)).dirs <= u64::MAX),
        r matches Some(s) ==> s.size == meta_sum(nodes_view(v@)).size && s.files == meta_sum(
            nodes_view(v@),
        ).files && s.dirs == meta_sum(nodes_view(v@)).dirs,
    decreases v@, 0int,
{
    let ghost views = nodes_view(v@);
    let mut acc = NodeMetadata { size: 0, files: 0, dirs: 0 };
    let mut i: usize = 0;
    proof {
        lemma_nodes_view_index(v@);
        assert(meta_sum(views.subrange(0, 0)) == meta_zero());
    }
    while i < v.len()
        invariant
            i <= v@.len(),
            views == nodes_view(v@),
            views.len() == v@.len(),
            forall|j: int| 0 <= j < v@.len() ==> views[j] == node_view(#[trigger] v@[j]),
            acc.size == meta_sum(views.subrange(0, i as int)).size,
            acc.files == meta_sum(views.subrange(0, i as int)).files,
            acc.dirs == meta_sum(views.subrange(0, i as int)).dirs,
        decreases v@.len() - i,
    {
        proof {
            lemma_meta_sum_split(views, i as int + 1);
            lemma_meta_sum_split(views.subrange(0, i as int + 1), i as int);
            assert(views.subrange(0, i as int + 1).subrange(0, i as int) =~= views.subrange(
                0,
                i as int,
            ));
            let single = views.subrange(0, i as int + 1).subrange(i as int, i as int + 1);
            assert(single.len() == 1);
            assert(single[0] == views[i as int]);
            assert(single.subrange(1, 1) =~= Seq::<NodeV>::empty());
            assert(meta_sum(single.subrange(1, 1)) == meta_zero());
            assert(meta_sum(single) == meta_plus(spec_meta(views[i as int]), meta_zero()));
        }
        let m = match meta_check_node(&v[i]) {
            Some(m) => m,
            None => {
                proof {
                    lemma_meta_elem_le(views, i as int);
                }
                return None;
            },
        };
        let acc2 = match try_meta_plus(acc, m) {
            Some(s) => s,
            None => {
                proof {
                    // the prefix already exceeds the representation,
                    // so the whole sum does
                    assert(meta_sum(views).size >= meta_sum(
                        views.subrange(0, i as int + 1),
                    ).size);
                }
                return None;
            },
        };
        acc = acc2;
        i = i + 1;
    }
    proof {
        assert(views.subrange(0, i as int) =~= views);
    }
    Some(acc)
}

/// Structurally equal copies of a run of nodes.
fn clone_nodes(v: &Vec<TreeNode>) -> (r: Vec<TreeNode>)
    ensures
        nodes_view(r@) == nodes_view(v@),
    decreases v@, 0int,
{
    let mut r: Vec<TreeNode> = Vec::new();
    let mut i: usize = 0;
    proof {
        lemma_nodes_view_index(v@);
    }
    while i < v.len()
        invariant
            i <= v@.len(),
            nodes_view(r@).len() == i,
            forall|j: int| 0 <= j < i ==> nodes_view(r@)[j] == node_view(#[trigger] v@[j]),
        decreases v@.len() - i,
    {
        let ghost r_exec0 = r@;
        let c = v[i].clone_node();
        let ghost cv = node_view(c);
        r.push(c);
        proof {
            lemma_nodes_view_index(v@);
            lemma_nodes_view_index(r_exec0);
            lemma_nodes_view_index(r@);
            assert forall|j: int| 0 <= j <= i implies nodes_view(r@)[j] == node_view(
                #[trigger] v@[j],
            ) by {
                if j < i {
                    assert(r@[j] == r_exec0[j]);
                    assert(nodes_view(r_exec0)[j] == node_view(r_exec0[j]));
                } else {
                    assert(r@[j] == c);
                    assert(cv == node_view(v@[i as int]));
                }
            }
        }
        i = i + 1;
    }
    proof {
        lemma_nodes_view_index(v@);
        lemma_nodes_view_index(r@);
        assert forall|j: int| 0 <= j < v@.len() implies nodes_view(r@)[j] == nodes_view(v@)[j] by {
            assert(nodes_view(r@)[j] == node_view(v@[j]));
            assert(nodes_view(v@)[j] == node_view(v@[j]));
        }
        assert(nodes_view(r@) =~= nodes_view(v@));
    }
    r
}

/// The nodes of a tree in depth-first pre-order: the node itself, then
/// each child's subtree in stored order.
pub open spec fn preorder(v: NodeV) -> Seq<NodeV>
    decreases v, 1int,
{
    seq![v] + (match v.node_type {
        NodeTypeV::Directory { children } => preorder_seq(children),
        _ => Seq::empty(),
    })
}

pub open spec fn preorder_seq(cs: Seq<NodeV>) -> Seq<NodeV>
    decreases cs, 0int,
{
    if cs.len() == 0 {
        Seq::empty()
    } else {
        preorder(cs[0]) + preorder_seq(cs.subrange(1, cs.len() as int))
    }
}

pub proof fn lemma_preorder_seq_split(cs: Seq<NodeV>, i: int)
    requires
        0 <= i <= cs.len(),
    ensures
        preorder_seq(cs) == preorder_seq(cs.subrange(0, i)) + preorder_seq(
            cs.subrange(i, cs.len() as int),
        ),
    decreases i,
{
    if i == 0 {
        assert(cs.subrange(0, 0).len() == 0);
        assert(cs.subrange(0, cs.len() as int) =~= cs);
        assert(preorder_seq(cs.subrange(0, 0)) + preorder_seq(cs) =~= preorder_seq(cs));
    } else {
        let rest = cs.subrange(1, cs.len() as int);
        lemma_preorder_seq_split(rest, i - 1);
        assert(cs.subrange(0, i)[0] == cs[0]);
        assert(cs.subrange(0, i).subrange(1, i) =~= rest.subrange(0, i - 1));
        assert(cs.subrange(i, cs.len() as int) =~= rest.subrange(i - 1, rest.len() as int));
        assert(preorder_seq(cs) =~= preorder_seq(cs.subrange(0, i)) + preorder_seq(
            cs.subrange(i, cs.len() as int),
        ));
    }
}

fn collect_preorder(n: &TreeNode, out: &mut Vec<TreeNode>)
    ensures
        nodes_view(final(out)@) == nodes_view(old(out)@) + preorder(n@),
    decreases *n, 1int,
{
    let ghost v0 = node_view(*n);
    let ghost before = out@;
    let c = n.clone_node();
    out.push(c);
    proof {
        lemma_nodes_view_index(before);
        lemma_nodes_view_index(out@);
        assert forall|j: int| 0 <= j < out@.len() implies nodes_view(out@)[j] == (nodes_view(
            before,
        ) + seq![v0])[j] by {
            if j < before.len() {
                assert(out@[j] == before[j]);
                assert(nodes_view(out@)[j] == node_view(before[j]));
            } else {
                assert(out@[j] == c);
            }
        }
        assert(nodes_view(out@) =~= nodes_view(before) + seq![v0]);
    }
    let ghost mid = out@;
    match &n.node_type {
        NodeType::Directory { children } => {
            collect_preorder_seq(children, out);
        },
        _ => {
            proof {
                assert(nodes_view(out@) =~= nodes_view(mid) + Seq::<NodeV>::empty());
            }
        },
    }
    proof {
        assert(nodes_view(out@) =~= nodes_view(old(out)@) + preorder(v0));
    }
}

fn collect_preorder_seq(v: &Vec<TreeNode>, out: &mut Vec<TreeNode>)
    ensures
        nodes_view(final(out)@) == nodes_view(old(out)@) + preorder_seq(nodes_view(v@)),
    decreases v@, 0int,
{
    let ghost views = nodes_view(v@);
    let mut i: usize = 0;
    proof {
        lemma_nodes_view_index(v@);
        assert(nodes_view(out@) =~= nodes_view(old(out)@) + preorder_seq(views.subrange(0, 0)));
    }
    while i < v.len()
        invariant
            i <= v@.len(),
            views == nodes_view(v@),
            views.len() == v@.len(),
            forall|j: int| 0 <= j < v@.len() ==> views[j] == node_view(#[trigger] v@[j]),
            nodes_view(out@) == nodes_view(old(out)@) + preorder_seq(
                views.subrange(0, i as int),
            ),
        decreases v@.len() - i,
    {
        collect_preorder(&v[i], out);
        proof {
            lemma_preorder_seq_split(views.subrange(0, i as int + 1), i as int);
            assert(views.subrange(0, i as int + 1).subrange(0, i as int) =~= views.subrange(
                0,
                i as int,
            ));
            let single = views.subrange(0, i as int + 1).subrange(i as int, i as int + 1);
            assert(single.len() == 1);
            assert(single[0] == views[i as int]);
            assert(single.subrange(1, 1) =~= Seq::<NodeV>::empty());
            assert(preorder_seq(single.subrange(1, 1)) == Seq::<NodeV>::empty());
            assert(preorder_seq(single) =~= preorder(views[i as int]));
            assert(nodes_view(out@) =~= nodes_view(old(out)@) + preorder_seq(
                views.subrange(0, i as int + 1),
            ));
        }
        i = i + 1;
    }
    proof {
        assert(views.subrange(0, i as int) =~= views);
    }
}

/// Non-decreasing by name, the order in which a directory keeps its
/// children.
pub open spec fn sorted_names(s: Seq<NodeV>) -> bool {
    forall|i: int, j: int|
        0 <= i < j < s.len() ==> lex_leq(name_key(#[trigger] s[i]), name_key(#[trigger] s[j]))
}

/// Where to insert a node among sorted ones so that equal names keep
/// their arrival order: after every entry whose name is not above it.
fn insert_position(out: &Vec<TreeNode>, x: &TreeNode) -> (k: usize)
    requires
        sorted_names(nodes_view(out@)),
    ensures
        k <= out@.len(),
        forall|j: int|
            0 <= j < k ==> lex_leq(name_key(nodes_view(out@)[j]), name_key(x@)),
        forall|j: int|
            k <= j < out@.len() ==> lex_leq(name_key(x@), name_key(nodes_view(out@)[j])),
{
    proof {
        lemma_nodes_view_index(out@);
    }
    let ghost ov = nodes_view(out@);
    let mut k: usize = 0;
    while k < out.len() && str_leq(out[k].name.as_str(), x.name.as_str())
        invariant
            k <= out@.len(),
            sorted_names(ov),
            ov == nodes_view(out@),
            ov.len() == out@.len(),
            forall|i: int| 0 <= i < out@.len() ==> ov[i] == node_view(#[trigger] out@[i]),
            forall|j: int| 0 <= j < k ==> lex_leq(name_key(ov[j]), name_key(x@)),
        decreases out@.len() - k,
    {
        k = k + 1;
    }
    proof {
        if (k as int) < out@.len() {
            lemma_lex_total(name_key(ov[k as int]), name_key(x@));
            assert forall|j: int| k <= j < out@.len() implies lex_leq(
                name_key(x@),
                name_key(ov[j]),
            ) by {
                if j > k {
                    lemma_lex_trans(name_key(x@), name_key(ov[k as int]), name_key(ov[j]));
                }
            }
        }
    }
    k
}

/// Sorts nodes by name (stable on equal names): the order a directory's
/// children are kept in, re-established here after any enumeration order.
pub fn sort_nodes_by_name(v: Vec<TreeNode>) -> (r: Vec<TreeNode>)
    ensures
        sorted_names(nodes_view(r@)),
        nodes_view(r@).to_multiset() == nodes_view(v@).to_multiset(),
{
    broadcast use vstd::seq_lib::group_to_multiset_ensures;
    broadcast use vstd::multiset::group_multiset_axioms;

    let ghost full = nodes_view(v@);
    let mut rest = v;
    let mut out: Vec<TreeNode> = Vec::new();
    proof {
        assert(nodes_view(out@) =~= Seq::<NodeV>::empty());
        assert(nodes_view(out@).to_multiset().add(nodes_view(rest@).to_multiset())
            =~= full.to_multiset());
    }
    while rest.len() > 0
        invariant
            sorted_names(nodes_view(out@)),
            nodes_view(out@).to_multiset().add(nodes_view(rest@).to_multiset())
                == full.to_multiset(),
        decreases rest@.len(),
    {
        broadcast use vstd::seq_lib::group_to_multiset_ensures;
        broadcast use vstd::multiset::group_multiset_axioms;

        let ghost out0 = nodes_view(out@);
        let ghost rest0 = nodes_view(rest@);
        let ghost rest0_exec = rest@;
        let x = rest.remove(0);
        proof {
            lemma_nodes_view_index(rest0_exec);
            lemma_nodes_view_index(rest@);
            assert(nodes_view(rest@) =~= rest0.remove(0));
            assert(rest0.to_multiset().contains(rest0[0])) by {
                assert(rest0.contains(rest0[0]));
            }
            assert(nodes_view(rest@).to_multiset() =~= rest0.to_multiset().remove(rest0[0]));
        }
        let k = insert_position(&out, &x);
        let ghost kk = k as int;
        let ghost out_exec0 = out@;
        let ghost xv = node_view(x);
        out.insert(k, x);
        proof {
            lemma_nodes_view_index(out_exec0);
            lemma_nodes_view_index(out@);
            out_exec0.insert_ensures(kk, x);
            let n0 = out0.len() as int;
            let nv = nodes_view(out@);
            assert(out0.len() == out_exec0.len());
            assert(nv =~= out0.insert(kk, xv)) by {
                out0.insert_ensures(kk, xv);
                assert forall|i: int| 0 <= i < nv.len() implies nv[i] == out0.insert(kk, xv)[i] by {
                    if i < kk {
                        assert(out@[i] == out_exec0[i]);
                    } else if i == kk {
                        assert(out@[i] == x);
                    } else {
                        assert(out@[i] == out_exec0[i - 1]);
                    }
                }
            }
            // the inserted run is still sorted
            assert(sorted_names(nv)) by {
                out0.insert_ensures(kk, xv);
                assert forall|i: int, j: int| 0 <= i < j < nv.len() implies lex_leq(
                    name_key(nv[i]),
                    name_key(nv[j]),
                ) by {
                    if i == kk {
                        assert(j > kk);
                        assert(nv[j] == out0[j - 1]);
                    } else if j == kk {
                        assert(nv[i] == out0[i]);
                    } else if i < kk && j > kk {
                        if i == j - 1 {
                            crate::text::lemma_lex_refl(name_key(out0[i]));
                        }
                    }
                }
            }
            // the multiset balance is kept
            let a = out0.subrange(0, kk);
            let b = out0.subrange(kk, n0);
            assert(out0 =~= a + b);
            assert(out0.insert(kk, xv) =~= a + seq![xv] + b);
            lemma_multiset_commutative(a, b);
            lemma_multiset_commutative(a + seq![xv], b);
            lemma_multiset_commutative(a, seq![xv]);
            assert(seq![xv] =~= Seq::<NodeV>::empty().push(xv));
            assert(Seq::<NodeV>::empty().to_multiset() =~= Multiset::<NodeV>::empty()) by {
                assert(forall|e: NodeV| !Seq::<NodeV>::empty().contains(e));
            }
            assert(seq![xv].to_multiset() =~= Multiset::<NodeV>::empty().insert(xv));
            assert(nv.to_multiset() =~= out0.to_multiset().insert(xv));
            assert(nv.to_multiset().add(nodes_view(rest@).to_multiset()) =~= full.to_multiset());
        }
    }
    out
}

impl TreeNode {
    /// A regular-file node of the given reported length.
    pub fn file(name: String, path: String, size: u64) -> (r: TreeNode)
        ensures
            r@ == (NodeV {
                name: name@,
                path: path@,
                node_type: NodeTypeV::File { size },
                metadata: None,
                hash: None,
            }),
            wf_node(r@),
    {
        TreeNode { name, path, node_type: NodeType::File { size }, metadata: None, hash: None }
    }

    /// A symlink node; the target string is stored verbatim.
    pub fn symlink(name: String, path: String, target: String) -> (r: TreeNode)
        ensures
            r@ == (NodeV {
                name: name@,
                path: path@,
                node_type: NodeTypeV::Symlink { target: target@ },
                metadata: None,
                hash: None,
            }),
            wf_node(r@),
    {
        TreeNode {
            name,
            path,
            node_type: NodeType::Symlink { target },
            metadata: None,
            hash: None,
        }
    }

    /// A directory node; children are put in ascending name order here,
    /// whatever order enumeration handed them over in.
    pub fn directory(name: String, path: String, children: Vec<TreeNode>) -> (r: TreeNode)
        requires
            forall|i: int|
                0 <= i < children@.len() ==> wf_node(node_view(#[trigger] children@[i])),
        ensures
            r@.name == name@,
            r@.path == path@,
            r@.metadata is None,
            r@.hash is None,
            r@.node_type matches NodeTypeV::Directory { children: cs } && cs.to_multiset()
                == nodes_view(children@).to_multiset(),
            wf_node(r@),
    {
        broadcast use vstd::seq_lib::group_to_multiset_ensures;

        let ghost in_views = nodes_view(children@);
        let sorted = sort_nodes_by_name(children);
        let r = TreeNode {
            name,
            path,
            node_type: NodeType::Directory { children: sorted },
            metadata: None,
            hash: None,
        };
        proof {
            lemma_nodes_view_index(children@);
            let sv = nodes_view(sorted@);
            assert forall|i: int| 0 <= i < sv.len() implies wf_node(#[trigger] sv[i]) by {
                assert(sv.to_multiset().contains(sv[i])) by {
                    assert(sv.contains(sv[i]));
                }
                assert(in_views.to_multiset().contains(sv[i]));
                assert(in_views.contains(sv[i]));
                let j = choose|j: int| 0 <= j < in_views.len() && in_views[j] == sv[i];
                assert(in_views[j] == node_view(children@[j]));
                assert(wf_node(node_view(children@[j])));
            }
        }
        r
    }

    /// A structurally equal copy of the node; nothing in the tree is
    /// shared, so a walk over a copy leaves the original untouched.
    pub fn clone_node(&self) -> (r: TreeNode)
        ensures
            r@ == self@,
        decreases *self, 1int,
    {
        let node_type = match &self.node_type {
            NodeType::File { size } => NodeType::File { size: *size },
            NodeType::Directory { children } => NodeType::Directory {
                children: clone_nodes(children),
            },
            NodeType::Symlink { target } => NodeType::Symlink { target: target.clone() },
            NodeType::Socket => NodeType::Socket,
            NodeType::Fifo => NodeType::Fifo,
            NodeType::Device => NodeType::Device,
            NodeType::Unknown { reason } => NodeType::Unknown { reason: reason.clone() },
        };
        let metadata = match &self.metadata {
            Some(m) => Some(*m),
            None => None,
        };
        let hash = match &self.hash {
            Some(h) => Some(h.clone()),
            None => None,
        };
        TreeNode { name: self.name.clone(), path: self.path.clone(), node_type, metadata, hash }
    }

    /// A node for a Unix special file or an unclassifiable entry.
    pub fn special(name: String, path: String, node_type: NodeType) -> (r: TreeNode)
        requires
            node_type is Socket || node_type is Fifo || node_type is Device || node_type
                is Unknown,
        ensures
            r@.name == name@,
            r@.path == path@,
            r@.metadata is None,
            r@.hash is None,
            node_type is Socket ==> r@.node_type is Socket,
            node_type is Fifo ==> r@.node_type is Fifo,
            node_type is Device ==> r@.node_type is Device,
            node_type matches NodeType::Unknown { reason } ==> r@.node_type == (
            NodeTypeV::Unknown { reason: reason@ }),
            wf_node(r@),
    {
        TreeNode { name, path, node_type, metadata: None, hash: None }
    }

    /// The bottom-up metadata reduction: every node below gets its slot
    /// filled with its own reduction result, and this node's result is
    /// returned. Re-running it recomputes the same values.
    pub fn compute_metadata(&mut self) -> (m: NodeMetadata)
        requires
            meta_fits(old(self)@),
        ensures
            final(self)@ == fill_meta(old(self)@),
            m == meta_as_u64(old(self)@),
            m.size == spec_meta(old(self)@).size,
            m.files == spec_meta(old(self)@).files,
            m.dirs == spec_meta(old(self)@).dirs,
        decreases *old(self), 1int,
    {
        let ghost v0 = node_view(*old(self));
        let m = match &mut self.node_type {
            NodeType::File { size } => NodeMetadata { size: *size, files: 1, dirs: 0 },
            NodeType::Symlink { .. } => NodeMetadata { size: 0, files: 1, dirs: 0 },
            NodeType::Directory { children } => {
                proof {
                    assert(spec_meta(v0).dirs == meta_sum(nodes_view(children@)).dirs + 1);
                }
                let s = meta_fill_nodes(children);
                NodeMetadata { size: s.size, files: s.files, dirs: s.dirs + 1 }
            },
            NodeType::Socket => NodeMetadata { size: 0, files: 0, dirs: 0 },
            NodeType::Fifo => NodeMetadata { size: 0, files: 0, dirs: 0 },
            NodeType::Device => NodeMetadata { size: 0, files: 0, dirs: 0 },
            NodeType::Unknown { .. } => NodeMetadata { size: 0, files: 0, dirs: 0 },
        };
        self.metadata = Some(m);
        m
    }

    /// Whether the whole tree's metadata fits the machine
    /// representation: the test a caller runs before asking for the
    /// reduction.
    pub fn metadata_fits(&self) -> (b: bool)
        ensures
            b == meta_fits(self@),
        decreases *self, 1int,
    {
        let ghost v0 = node_view(*self);
        match &self.node_type {
            NodeType::Directory { children } => {
                proof {
                    assert(spec_meta(v0).dirs == meta_sum(nodes_view(children@)).dirs + 1);
                }
                match meta_check_nodes(children) {
                    Some(s) => s.dirs < u64::MAX,
                    None => false,
                }
            },
            _ => true,
        }
    }

    /// Reads the memoized metadata slot.
    pub fn read_metadata(&self) -> (r: Option<NodeMetadata>)
        ensures
            r == self@.metadata,
    {
        match &self.metadata {
            Some(m) => Some(*m),
            None => None,
        }
    }

    /// Stores a digest in the hash slot, leaving everything else
    /// untouched: the door through which a file's content digest
    /// enters before the reduction runs.
    pub fn store_hash(&mut self, h: String)
        ensures
            final(self)@ == (NodeV {
                name: old(self)@.name,
                path: old(self)@.path,
                node_type: old(self)@.node_type,
                metadata: old(self)@.metadata,
                hash: Some(h@),
            }),
    {
        self.hash = Some(h);
    }

    /// Reads the memoized hash slot.
    pub fn read_hash(&self) -> (r: Option<String>)
        ensures
            r matches Some(h) ==> self@.hash == Some(h@),
            r is None <==> self@.hash is None,
    {
        match &self.hash {
            Some(h) => Some(h.clone()),
            None => None,
        }
    }

    /// Every node of the tree as a flat run, in depth-first pre-order;
    /// the copies share nothing with the tree.
    pub fn collect_all(&self) -> (r: Vec<TreeNode>)
        ensures
            nodes_view(r@) == preorder(self@),
    {
        let mut out: Vec<TreeNode> = Vec::new();
        proof {
            assert(nodes_view(out@) =~= Seq::<NodeV>::empty());
        }
        collect_preorder(self, &mut out);
        proof {
            assert(Seq::<NodeV>::empty() + preorder(node_view(*self)) =~= preorder(
                node_view(*self),
            ));
        }
        out
    }

    /// The children of a directory node; anything else has none.
    pub fn children(&self) -> (r: Option<&Vec<TreeNode>>)
        ensures
            r is Some <==> self@.node_type is Directory,
            r matches Some(c) ==> nodes_view(c@) == self@.node_type->Directory_children,
    {
        match &self.node_type {
            NodeType::Directory { children } => Some(children),
            _ => None,
        }
    }
}

} // verus!
