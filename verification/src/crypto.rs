//! The Merkle hash reduction over the tree, with a configurable digest
//! (MD5 or SHA-256), memoized in each node's `hash` slot.
//!
//! A directory's hash is the digest of the string
//! `name_1 || hash_1 || ... || name_n || hash_n` over its children (no
//! separators); a symlink hashes its target string; special and unknown
//! entries hash their name. A file node whose slot was pre-filled with a
//! digest of its content keeps it (the fast path); a file node without
//! one falls back to hashing its name, the degraded mode for content
//! that could not be read.

use vstd::prelude::*;
use crate::text::{hex_seq, to_hex, utf8_bytes};
use crate::tree::{NodeV, NodeTypeV, TreeNode, NodeType, node_view, nodes_view,
    lemma_nodes_view_index};
use vstd::string::StringExecFns;
use vstd::string::StrSliceExecFns;
use sha2::Digest;

verus! {

/// What `md5::compute` returns for a byte string.
pub uninterp spec fn md5_of(bytes: Seq<u8>) -> Seq<u8>;

/// What `sha2::Sha256::digest` returns for a byte string.
pub uninterp spec fn sha256_of(bytes: Seq<u8>) -> Seq<u8>;

/// Relies on md5::compute: the 16-byte digest is a function of the
/// input bytes alone.
#[verifier::external_body]
fn md5_bytes(s: &str) -> (r: Vec<u8>)
    ensures
        r@ == md5_of(utf8_bytes(s@)),
        r@.len() == 16,
{
    md5::compute(s.as_bytes()).0.to_vec()
}

/// Relies on sha2::Sha256::digest: the 32-byte digest is a function of
/// the input bytes alone.
#[verifier::external_body]
fn sha256_bytes(s: &str) -> (r: Vec<u8>)
    ensures
        r@ == sha256_of(utf8_bytes(s@)),
        r@.len() == 32,
{
    sha2::Sha256::digest(s.as_bytes()).to_vec()
}

/// The chosen digest of a string's bytes, as lowercase hex.
pub open spec fn digest_hex(s: Seq<char>, use_md5: bool) -> Seq<char> {
    if use_md5 {
        hex_seq(md5_of(utf8_bytes(s)))
    } else {
        hex_seq(sha256_of(utf8_bytes(s)))
    }
}

/// Hashes a string with the chosen digest, rendered as lowercase hex:
/// 32 characters for MD5, 64 for SHA-256.
pub fn hash_string(s: &str, use_md5: bool) -> (r: String)
    ensures
        r@ == digest_hex(s@, use_md5),
        r@.len() == (if use_md5 {
            32int
        } else {
            64int
        }),
{
    let bytes = if use_md5 {
        md5_bytes(s)
    } else {
        sha256_bytes(s)
    };
    to_hex(&bytes)
}

/// The hash a node reduces to. A pre-filled slot short-circuits the
/// reduction; otherwise the kind decides what is digested.
pub open spec fn spec_hash(v: NodeV, use_md5: bool) -> Seq<char>
    decreases v, 1int,
{
    match v.hash {
        Some(h) => h,
        None => match v.node_type {
            NodeTypeV::File { .. } => digest_hex(v.name, use_md5),
            NodeTypeV::Symlink { target } => digest_hex(target, use_md5),
            NodeTypeV::Directory { children } => digest_hex(
                combine_hashes(children, use_md5),
                use_md5,
            ),
            _ => digest_hex(v.name, use_md5),
        },
    }
}

/// The concatenation `name_1 || hash_1 || ... || name_n || hash_n` over
/// a run of children, in their stored (name-sorted) order.
pub open spec fn combine_hashes(cs: Seq<NodeV>, use_md5: bool) -> Seq<char>
    decreases cs, 0int,
{
    if cs.len() == 0 {
        Seq::empty()
    } else {
        cs[0].name + spec_hash(cs[0], use_md5) + combine_hashes(
            cs.subrange(1, cs.len() as int),
            use_md5,
        )
    }
}

/// The tree after the hash reduction: a node with a hash keeps its whole
/// subtree untouched; a node without one gets `spec_hash` stored, its
/// children reduced first.
pub open spec fn fill_hash(v: NodeV, use_md5: bool) -> NodeV
    decreases v, 1int,
{
    match v.hash {
        Some(_) => v,
        None => NodeV {
            name: v.name,
            path: v.path,
            node_type: match v.node_type {
                NodeTypeV::Directory { children } => NodeTypeV::Directory {
                    children: fill_hash_seq(children, use_md5),
                },
                nt => nt,
            },
            metadata: v.metadata,
            hash: Some(spec_hash(v, use_md5)),
        },
    }
}

pub open spec fn fill_hash_seq(cs: Seq<NodeV>, use_md5: bool) -> Seq<NodeV>
    decreases cs, 0int,
{
    if cs.len() == 0 {
        Seq::empty()
    } else {
        seq![fill_hash(cs[0], use_md5)] + fill_hash_seq(cs.subrange(1, cs.len() as int), use_md5)
    }
}

pub proof fn lemma_fill_hash_seq_index(cs: Seq<NodeV>, use_md5: bool)
    ensures
        fill_hash_seq(cs, use_md5).len() == cs.len(),
        forall|i: int|
            0 <= i < cs.len() ==> fill_hash_seq(cs, use_md5)[i] == fill_hash(
                #[trigger] cs[i],
                use_md5,
            ),
    decreases cs.len(),
{
    if cs.len() > 0 {
        let t = cs.subrange(1, cs.len() as int);
        lemma_fill_hash_seq_index(t, use_md5);
        assert forall|i: int| 0 <= i < cs.len() implies fill_hash_seq(cs, use_md5)[i] == fill_hash(
            #[trigger] cs[i],
            use_md5,
        ) by {
            if i > 0 {
                assert(t[i - 1] == cs[i]);
                assert(fill_hash_seq(cs, use_md5)[i] == fill_hash_seq(t, use_md5)[i - 1]);
            }
        }
    }
}

/// Splitting a run of children splits the concatenation.
pub proof fn lemma_combine_split(cs: Seq<NodeV>, i: int, use_md5: bool)
    requires
        0 <= i <= cs.len(),
    ensures
        combine_hashes(cs, use_md5) == combine_hashes(cs.subrange(0, i), use_md5)
            + combine_hashes(cs.subrange(i, cs.len() as int), use_md5),
    decreases i,
{
    if i == 0 {
        assert(cs.subrange(0, 0).len() == 0);
        assert(cs.subrange(0, cs.len() as int) =~= cs);
        assert(combine_hashes(cs.subrange(0, 0), use_md5) + combine_hashes(cs, use_md5)
            =~= combine_hashes(cs, use_md5));
    } else {
        let rest = cs.subrange(1, cs.len() as int);
        lemma_combine_split(rest, i - 1, use_md5);
        assert(cs.subrange(0, i)[0] == cs[0]);
        assert(cs.subrange(0, i).subrange(1, i) =~= rest.subrange(0, i - 1));
        assert(cs.subrange(i, cs.len() as int) =~= rest.subrange(i - 1, rest.len() as int));
        assert(combine_hashes(cs, use_md5) == combine_hashes(cs.subrange(0, i), use_md5)
            + combine_hashes(cs.subrange(i, cs.len() as int), use_md5)) by {
            assert(combine_hashes(cs.subrange(0, i), use_md5) == cs[0].name + spec_hash(
                cs[0],
                use_md5,
            ) + combine_hashes(rest.subrange(0, i - 1), use_md5));
        }
    }
}

impl TreeNode {
    /// The bottom-up Merkle reduction. A node that already holds a hash
    /// returns it unchanged (so pre-filled file-content digests are
    /// honored); otherwise every slot below is filled and this node's
    /// hash is returned. The digest choice is global for a run.
    pub fn compute_hashes(&mut self, use_md5: bool) -> (r: String)
        ensures
            final(self)@ == fill_hash(old(self)@, use_md5),
            r@ == spec_hash(old(self)@, use_md5),
            old(self)@.hash is None ==> r@.len() == (if use_md5 {
                32int
            } else {
                64int
            }),
        decreases *old(self), 1int,
    {
        let ghost v0 = node_view(*old(self));
        match &self.hash {
            Some(h) => {
                return h.clone();
            },
            None => {},
        }
        let h = match &mut self.node_type {
            NodeType::File { .. } => hash_string(self.name.as_str(), use_md5),
            NodeType::Symlink { target } => hash_string(target.as_str(), use_md5),
            NodeType::Directory { children } => {
                let combined = combine_child_hashes(children, use_md5);
                hash_string(combined.as_str(), use_md5)
            },
            NodeType::Socket => hash_string(self.name.as_str(), use_md5),
            NodeType::Fifo => hash_string(self.name.as_str(), use_md5),
            NodeType::Device => hash_string(self.name.as_str(), use_md5),
            NodeType::Unknown { .. } => hash_string(self.name.as_str(), use_md5),
        };
        let r = h.clone();
        self.hash = Some(h);
        r
    }
}

/// Reduces a run of children and concatenates their `name || hash` pairs
/// in stored order.
fn combine_child_hashes(v: &mut Vec<TreeNode>, use_md5: bool) -> (s: String)
    ensures
        nodes_view(final(v)@) == fill_hash_seq(nodes_view(old(v)@), use_md5),
        s@ == combine_hashes(nodes_view(old(v)@), use_md5),
    decreases old(v)@, 0int,
{
    let ghost views0 = nodes_view(old(v)@);
    let mut s = String::new();
    let mut i: usize = 0;
    proof {
        lemma_nodes_view_index(old(v)@);
        assert(combine_hashes(views0.subrange(0, 0), use_md5) =~= Seq::<char>::empty());
    }
    while i < v.len()
        invariant
            i <= v@.len(),
            v@.len() == old(v)@.len(),
            views0 == nodes_view(old(v)@),
            views0.len() == old(v)@.len(),
            forall|j: int| 0 <= j < views0.len() ==> views0[j] == node_view(#[trigger] old(v)@[j]),
            forall|j: int|
                0 <= j < i ==> node_view(#[trigger] v@[j]) == fill_hash(views0[j], use_md5),
            forall|j: int| i <= j < v@.len() ==> #[trigger] v@[j] == old(v)@[j],
            s@ == combine_hashes(views0.subrange(0, i as int), use_md5),
        decreases v@.len() - i,
    {
        proof {
            assert(v@[i as int] == old(v)@[i as int]);
            assert(node_view(v@[i as int]) == views0[i as int]);
            assert(decreases_to!(old(v)@ => old(v)@[i as int]));
        }
        let h = v[i].compute_hashes(use_md5);
        s.append(v[i].name.as_str());
        s.append(h.as_str());
        proof {
            // the appended pair extends the combined prefix
            lemma_combine_split(views0.subrange(0, i as int + 1), i as int, use_md5);
            assert(views0.subrange(0, i as int + 1).subrange(0, i as int) =~= views0.subrange(
                0,
                i as int,
            ));
            let single = views0.subrange(0, i as int + 1).subrange(i as int, i as int + 1);
            assert(single.len() == 1);
            assert(single[0] == views0[i as int]);
            assert(single.subrange(1, 1) =~= Seq::<NodeV>::empty());
            assert(combine_hashes(single.subrange(1, 1), use_md5) == Seq::<char>::empty());
            assert(combine_hashes(single, use_md5) =~= views0[i as int].name + spec_hash(
                views0[i as int],
                use_md5,
            ));
            // the child's name is untouched by the reduction
            assert(fill_hash(views0[i as int], use_md5).name == views0[i as int].name);
            assert(s@ =~= combine_hashes(views0.subrange(0, i as int + 1), use_md5));
        }
        i = i + 1;
    }
    proof {
        assert(views0.subrange(0, i as int) =~= views0);
        lemma_fill_hash_seq_index(views0, use_md5);
        lemma_nodes_view_index(v@);
        assert forall|j: int| 0 <= j < v@.len() implies nodes_view(v@)[j] == fill_hash_seq(
            views0,
            use_md5,
        )[j] by {
            assert(node_view(v@[j]) == fill_hash(views0[j], use_md5));
        }
        assert(nodes_view(v@) =~= fill_hash_seq(views0, use_md5));
    }
    s
}

/// The hash reduction moves no node: a well-formed tree stays
/// well-formed, children keep their names and order.
pub proof fn lemma_fill_hash_wf(v: NodeV, use_md5: bool)
    requires
        crate::tree::wf_node(v),
    ensures
        crate::tree::wf_node(fill_hash(v, use_md5)),
        fill_hash(v, use_md5).name == v.name,
    decreases v, 1int,
{
    match v.hash {
        Some(_) => {},
        None => {
            match v.node_type {
                NodeTypeV::Directory { children } => {
                    lemma_fill_hash_seq_index(children, use_md5);
                    let fc = fill_hash_seq(children, use_md5);
                    assert forall|i: int| 0 <= i < fc.len() implies crate::tree::wf_node(
                        #[trigger] fc[i],
                    ) by {
                        lemma_fill_hash_wf(children[i], use_md5);
                    }
                    assert forall|i: int, j: int|
                        0 <= i < j < fc.len() implies crate::text::lex_leq(
                        utf8_bytes(fc[i].name),
                        utf8_bytes(fc[j].name),
                    ) by {
                        lemma_fill_hash_wf(children[i], use_md5);
                        lemma_fill_hash_wf(children[j], use_md5);
                    }
                },
                _ => {},
            }
        },
    }
}

/// The hash reduction is deterministic and stable: re-running it on a
/// reduced tree neither changes any node nor the root hash.
pub proof fn lemma_hash_deterministic(v: NodeV, use_md5: bool)
    ensures
        spec_hash(fill_hash(v, use_md5), use_md5) == spec_hash(v, use_md5),
        fill_hash(fill_hash(v, use_md5), use_md5) == fill_hash(v, use_md5),
{
    match v.hash {
        Some(_) => {},
        None => {},
    }
}

} // verus!
