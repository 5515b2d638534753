//! The serializable mirror of the tree: the same shape with children
//! embedded by value and no memo guards, which a writer can emit as
//! pretty JSON or as a compact packed encoding.
//!
//! Both conversions preserve the mathematical view of the tree exactly,
//! so reloading a serialized tree reproduces it node for node, memoized
//! metadata and hashes included.

use vstd::prelude::*;
use crate::tree::{NodeMetadata, NodeV, NodeTypeV, TreeNode, NodeType, node_view, nodes_view,
    lemma_nodes_view_index};

verus! {

/// Which on-disk form a tree is kept in: pretty JSON, or the compact
/// packed index form; each carries the file path.
#[derive(Debug)]
pub enum DataFmt {
    Json(String),
    Idx(String),
}

/// The serialized form of a node's kind.
#[derive(Debug)]
pub enum SerializedNodeType {
    File { size: u64 },
    Directory { children: Vec<SerializedTreeNode> },
    Symlink { target: String },
    Socket,
    Fifo,
    Device,
    Unknown { reason: String },
}

/// The serialized form of a node.
#[derive(Debug)]
pub struct SerializedTreeNode {
    pub name: String,
    pub path: String,
    pub node_type: SerializedNodeType,
    pub metadata: Option<NodeMetadata>,
    pub hash: Option<String>,
}

pub open spec fn ser_view(n: SerializedTreeNode) -> NodeV
    decreases n, 1int,
{
    NodeV {
        name: n.name@,
        path: n.path@,
        node_type: match n.node_type {
            SerializedNodeType::File { size } => NodeTypeV::File { size },
            SerializedNodeType::Directory { children } => NodeTypeV::Directory {
                children: sers_view(children@),
            },
            SerializedNodeType::Symlink { target } => NodeTypeV::Symlink { target: target@ },
            SerializedNodeType::Socket => NodeTypeV::Socket,
            SerializedNodeType::Fifo => NodeTypeV::Fifo,
            SerializedNodeType::Device => NodeTypeV::Device,
            SerializedNodeType::Unknown { reason } => NodeTypeV::Unknown { reason: reason@ },
        },
        metadata: n.metadata,
        hash: match n.hash {
            Some(h) => Some(h@),
            None => None,
        },
    }
}

pub open spec fn sers_view(s: Seq<SerializedTreeNode>) -> Seq<NodeV>
    decreases s, 0int,
{
    if s.len() == 0 {
        Seq::empty()
    } else {
        seq![ser_view(s[0])] + sers_view(s.subrange(1, s.len() as int))
    }
}

impl View for SerializedTreeNode {
    type V = NodeV;

    open spec fn view(&self) -> NodeV {
        ser_view(*self)
    }
}

/// `sers_view` is the pointwise image of `ser_view`.
pub proof fn lemma_sers_view_index(s: Seq<SerializedTreeNode>)
    ensures
        sers_view(s).len() == s.len(),
        forall|i: int| 0 <= i < s.len() ==> sers_view(s)[i] == ser_view(#[trigger] s[i]),
    decreases s.len(),
{
    if s.len() > 0 {
        let t = s.subrange(1, s.len() as int);
        lemma_sers_view_index(t);
        assert forall|i: int| 0 <= i < s.len() implies sers_view(s)[i] == ser_view(
            #[trigger] s[i],
        ) by {
            if i > 0 {
                assert(t[i - 1] == s[i]);
                assert(sers_view(s)[i] == sers_view(t)[i - 1]);
            }
        }
    }
}

impl TreeNode {
    /// The serialized form of this node: the same view, children
    /// embedded by value, memoized slots read as they stand.
    pub fn to_serializable(&self) -> (r: SerializedTreeNode)
        ensures
            r@ == self@,
        decreases *self, 1int,
    {
        let node_type = match &self.node_type {
            NodeType::File { size } => SerializedNodeType::File { size: *size },
            NodeType::Directory { children } => SerializedNodeType::Directory {
                children: to_serializable_seq(children),
            },
            NodeType::Symlink { target } => SerializedNodeType::Symlink {
                target: target.clone(),
            },
            NodeType::Socket => SerializedNodeType::Socket,
            NodeType::Fifo => SerializedNodeType::Fifo,
            NodeType::Device => SerializedNodeType::Device,
            NodeType::Unknown { reason } => SerializedNodeType::Unknown {
                reason: reason.clone(),
            },
        };
        let metadata = match &self.metadata {
            Some(m) => Some(*m),
            None => None,
        };
        let hash = match &self.hash {
            Some(h) => Some(h.clone()),
            None => None,
        };
        SerializedTreeNode {
            name: self.name.clone(),
            path: self.path.clone(),
            node_type,
            metadata,
            hash,
        }
    }

    /// Rebuilds a tree from its serialized form, node for node.
    pub fn from_serializable(s: SerializedTreeNode) -> (r: TreeNode)
        ensures
            r@ == s@,
    {
        from_ser_node(&s)
    }
}

fn from_ser_node(s: &SerializedTreeNode) -> (r: TreeNode)
    ensures
        r@ == s@,
    decreases *s, 1int,
{
    let node_type = match &s.node_type {
        SerializedNodeType::File { size } => NodeType::File { size: *size },
        SerializedNodeType::Directory { children } => NodeType::Directory {
            children: from_serializable_seq(children),
        },
        SerializedNodeType::Symlink { target } => NodeType::Symlink { target: target.clone() },
        SerializedNodeType::Socket => NodeType::Socket,
        SerializedNodeType::Fifo => NodeType::Fifo,
        SerializedNodeType::Device => NodeType::Device,
        SerializedNodeType::Unknown { reason } => NodeType::Unknown { reason: reason.clone() },
    };
    let metadata = match &s.metadata {
        Some(m) => Some(*m),
        None => None,
    };
    let hash = match &s.hash {
        Some(h) => Some(h.clone()),
        None => None,
    };
    TreeNode { name: s.name.clone(), path: s.path.clone(), node_type, metadata, hash }
}

fn to_serializable_seq(v: &Vec<TreeNode>) -> (r: Vec<SerializedTreeNode>)
    ensures
        sers_view(r@) == nodes_view(v@),
    decreases v@, 0int,
{
    let mut r: Vec<SerializedTreeNode> = Vec::new();
    let mut i: usize = 0;
    proof {
        lemma_nodes_view_index(v@);
    }
    while i < v.len()
        invariant
            i <= v@.len(),
            sers_view(r@).len() == i,
            forall|j: int| 0 <= j < i ==> sers_view(r@)[j] == node_view(#[trigger] v@[j]),
        decreases v@.len() - i,
    {
        let ghost r_exec0 = r@;
        let c = v[i].to_serializable();
        let ghost cv = ser_view(c);
        r.push(c);
        proof {
            lemma_nodes_view_index(v@);
            lemma_sers_view_index(r_exec0);
            lemma_sers_view_index(r@);
            assert forall|j: int| 0 <= j <= i implies sers_view(r@)[j] == node_view(
                #[trigger] v@[j],
            ) by {
                if j < i {
                    assert(r@[j] == r_exec0[j]);
                    assert(sers_view(r_exec0)[j] == ser_view(r_exec0[j]));
                } else {
                    assert(r@[j] == c);
                    assert(cv == node_view(v@[i as int]));
                }
            }
        }
        i = i + 1;
    }
    proof {
        lemma_nodes_view_index(v@);
        lemma_sers_view_index(r@);
        assert forall|j: int| 0 <= j < v@.len() implies sers_view(r@)[j] == nodes_view(v@)[j] by {
            assert(sers_view(r@)[j] == node_view(v@[j]));
            assert(nodes_view(v@)[j] == node_view(v@[j]));
        }
        assert(sers_view(r@) =~= nodes_view(v@));
    }
    r
}

fn from_serializable_seq(v: &Vec<SerializedTreeNode>) -> (r: Vec<TreeNode>)
    ensures
        nodes_view(r@) == sers_view(v@),
    decreases v@, 0int,
{
    let mut r: Vec<TreeNode> = Vec::new();
    let mut i: usize = 0;
    proof {
        lemma_sers_view_index(v@);
    }
    while i < v.len()
        invariant
            i <= v@.len(),
            nodes_view(r@).len() == i,
            forall|j: int| 0 <= j < i ==> nodes_view(r@)[j] == ser_view(#[trigger] v@[j]),
        decreases v@.len() - i,
    {
        let ghost r_exec0 = r@;
        let c = from_ser_node(&v[i]);
        let ghost cv = node_view(c);
        r.push(c);
        proof {
            lemma_sers_view_index(v@);
            lemma_nodes_view_index(r_exec0);
            lemma_nodes_view_index(r@);
            assert forall|j: int| 0 <= j <= i implies nodes_view(r@)[j] == ser_view(
                #[trigger] v@[j],
            ) by {
                if j < i {
                    assert(r@[j] == r_exec0[j]);
                    assert(nodes_view(r_exec0)[j] == node_view(r_exec0[j]));
                } else {
                    assert(r@[j] == c);
                    assert(cv == ser_view(v@[i as int]));
                }
            }
        }
        i = i + 1;
    }
    proof {
        lemma_sers_view_index(v@);
        lemma_nodes_view_index(r@);
        assert forall|j: int| 0 <= j < v@.len() implies nodes_view(r@)[j] == sers_view(v@)[j] by {
            assert(nodes_view(r@)[j] == ser_view(v@[j]));
            assert(sers_view(v@)[j] == ser_view(v@[j]));
        }
        assert(nodes_view(r@) =~= sers_view(v@));
    }
    r
}

} // verus!
