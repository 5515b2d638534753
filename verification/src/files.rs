//! Turning a loaded index tree into the tar engine's work list: every
//! file, symlink and empty-directory entry, largest first (to balance
//! the shards), with the tree's root prefix stripped off the stored
//! paths.

use vstd::prelude::*;
use crate::error::IndexerError;
use crate::tree::{NodeV, NodeTypeV, TreeNode, NodeType, node_view, nodes_view,
    lemma_nodes_view_index};
use vstd::string::StrSliceExecFns;

verus! {

/// Whether a node is handed to the engine as a work item: a file, a
/// symlink, or an empty directory.
pub open spec fn is_entry(v: NodeV) -> bool {
    match v.node_type {
        NodeTypeV::File { .. } => true,
        NodeTypeV::Symlink { .. } => true,
        NodeTypeV::Directory { children } => children.len() == 0,
        _ => false,
    }
}

/// The size an entry sorts by: its memoized metadata size, zero when
/// the reduction has not run.
pub open spec fn entry_size(v: NodeV) -> u64 {
    match v.metadata {
        Some(m) => m.size,
        None => 0,
    }
}

/// The `(path, size)` pairs of a tree's entries, in pre-order.
pub open spec fn entry_pairs(v: NodeV) -> Seq<(Seq<char>, u64)>
    decreases v, 1int,
{
    (if is_entry(v) {
        seq![(v.path, entry_size(v))]
    } else {
        Seq::empty()
    }) + (match v.node_type {
        NodeTypeV::Directory { children } => entry_pairs_seq(children),
        _ => Seq::empty(),
    })
}

pub open spec fn entry_pairs_seq(cs: Seq<NodeV>) -> Seq<(Seq<char>, u64)>
    decreases cs, 0int,
{
    if cs.len() == 0 {
        Seq::empty()
    } else {
        entry_pairs(cs[0]) + entry_pairs_seq(cs.subrange(1, cs.len() as int))
    }
}

pub proof fn lemma_entry_pairs_seq_split(cs: Seq<NodeV>, i: int)
    requires
        0 <= i <= cs.len(),
    ensures
        entry_pairs_seq(cs) == entry_pairs_seq(cs.subrange(0, i)) + entry_pairs_seq(
            cs.subrange(i, cs.len() as int),
        ),
    decreases i,
{
    if i == 0 {
        assert(cs.subrange(0, 0).len() == 0);
        assert(cs.subrange(0, cs.len() as int) =~= cs);
        assert(entry_pairs_seq(cs.subrange(0, 0)) + entry_pairs_seq(cs) =~= entry_pairs_seq(cs));
    } else {
        let rest = cs.subrange(1, cs.len() as int);
        lemma_entry_pairs_seq_split(rest, i - 1);
        assert(cs.subrange(0, i)[0] == cs[0]);
        assert(cs.subrange(0, i).subrange(1, i) =~= rest.subrange(0, i - 1));
        assert(cs.subrange(i, cs.len() as int) =~= rest.subrange(i - 1, rest.len() as int));
        assert(entry_pairs_seq(cs) =~= entry_pairs_seq(cs.subrange(0, i)) + entry_pairs_seq(
            cs.subrange(i, cs.len() as int),
        ));
    }
}

/// The views of a run of `(path, size)` pairs.
pub open spec fn pair_views(s: Seq<(String, u64)>) -> Seq<(Seq<char>, u64)> {
    Seq::new(s.len(), |i: int| (s[i].0@, s[i].1))
}

fn collect_entry_pairs(n: &TreeNode, out: &mut Vec<(String, u64)>)
    ensures
        pair_views(final(out)@) == pair_views(old(out)@) + entry_pairs(n@),
    decreases *n, 1int,
{
    let ghost v0 = node_view(*n);
    let take = match &n.node_type {
        NodeType::File { .. } => true,
        NodeType::Symlink { .. } => true,
        NodeType::Directory { children } => {
            proof {
                lemma_nodes_view_index(children@);
            }
            children.len() == 0
        },
        NodeType::Socket => false,
        NodeType::Fifo => false,
        NodeType::Device => false,
        NodeType::Unknown { .. } => false,
    };
    let ghost mid = out@;
    if take {
        let size = match &n.metadata {
            Some(m) => m.size,
            None => 0,
        };
        out.push((n.path.clone(), size));
        proof {
            assert(pair_views(out@) =~= pair_views(mid) + seq![(v0.path, entry_size(v0))]);
        }
    } else {
        proof {
            assert(pair_views(out@) =~= pair_views(mid) + Seq::<(Seq<char>, u64)>::empty());
        }
    }
    let ghost mid2 = out@;
    match &n.node_type {
        NodeType::Directory { children } => {
            collect_entry_pairs_seq(children, out);
        },
        _ => {
            proof {
                assert(pair_views(out@) =~= pair_views(mid2) + Seq::<(Seq<char>, u64)>::empty());
            }
        },
    }
    proof {
        assert(pair_views(out@) =~= pair_views(old(out)@) + entry_pairs(v0));
    }
}

fn collect_entry_pairs_seq(v: &Vec<TreeNode>, out: &mut Vec<(String, u64)>)
    ensures
        pair_views(final(out)@) == pair_views(old(out)@) + entry_pairs_seq(nodes_view(v@)),
    decreases v@, 0int,
{
    let ghost views = nodes_view(v@);
    let mut i: usize = 0;
    proof {
        lemma_nodes_view_index(v@);
        assert(pair_views(out@) =~= pair_views(old(out)@) + entry_pairs_seq(
            views.subrange(0, 0),
        ));
    }
    while i < v.len()
        invariant
            i <= v@.len(),
            views == nodes_view(v@),
            views.len() == v@.len(),
            forall|j: int| 0 <= j < v@.len() ==> views[j] == node_view(#[trigger] v@[j]),
            pair_views(out@) == pair_views(old(out)@) + entry_pairs_seq(
                views.subrange(0, i as int),
            ),
        decreases v@.len() - i,
    {
        collect_entry_pairs(&v[i], out);
        proof {
            lemma_entry_pairs_seq_split(views.subrange(0, i as int + 1), i as int);
            assert(views.subrange(0, i as int + 1).subrange(0, i as int) =~= views.subrange(
                0,
                i as int,
            ));
            let single = views.subrange(0, i as int + 1).subrange(i as int, i as int + 1);
            assert(single.len() == 1);
            assert(single[0] == views[i as int]);
            assert(single.subrange(1, 1) =~= Seq::<NodeV>::empty());
            assert(entry_pairs_seq(single.subrange(1, 1)) == Seq::<(Seq<char>, u64)>::empty());
            assert(entry_pairs_seq(single) =~= entry_pairs(views[i as int]));
            assert(pair_views(out@) =~= pair_views(old(out)@) + entry_pairs_seq(
                views.subrange(0, i as int + 1),
            ));
        }
        i = i + 1;
    }
    proof {
        assert(views.subrange(0, i as int) =~= views);
    }
}

/// Collects the `(path, size)` work entries of a tree, in pre-order.
pub fn collect_entries(tree: &TreeNode) -> (r: Vec<(String, u64)>)
    ensures
        pair_views(r@) == entry_pairs(tree@),
{
    let mut out: Vec<(String, u64)> = Vec::new();
    proof {
        assert(pair_views(out@) =~= Seq::<(Seq<char>, u64)>::empty());
    }
    collect_entry_pairs(tree, &mut out);
    proof {
        assert(Seq::<(Seq<char>, u64)>::empty() + entry_pairs(tree@) =~= entry_pairs(tree@));
    }
    out
}

/// Non-increasing by size: the order work is submitted in, largest
/// first.
pub open spec fn sorted_desc(ps: Seq<(Seq<char>, u64)>) -> bool {
    forall|i: int, j: int| 0 <= i < j < ps.len() ==> (#[trigger] ps[i]).1 >= (#[trigger] ps[j]).1
}

fn insert_position_desc(out: &Vec<(String, u64)>, size: u64) -> (k: usize)
    requires
        sorted_desc(pair_views(out@)),
    ensures
        k <= out@.len(),
        forall|j: int| 0 <= j < k ==> pair_views(out@)[j].1 >= size,
        forall|j: int| k <= j < out@.len() ==> size >= pair_views(out@)[j].1,
{
    let mut k: usize = 0;
    while k < out.len() && out[k].1 >= size
        invariant
            k <= out@.len(),
            forall|j: int| 0 <= j < k ==> pair_views(out@)[j].1 >= size,
        decreases out@.len() - k,
    {
        k = k + 1;
    }
    proof {
        if (k as int) < out@.len() {
            assert(pair_views(out@)[k as int].1 < size);
            assert forall|j: int| k <= j < out@.len() implies size >= pair_views(out@)[j].1 by {
                if j > k {
                    assert(pair_views(out@)[k as int].1 >= pair_views(out@)[j].1);
                }
            }
        }
    }
    k
}

/// Sorts work entries by descending size (stable on equal sizes).
pub fn sort_entries_by_size(v: Vec<(String, u64)>) -> (r: Vec<(String, u64)>)
    ensures
        sorted_desc(pair_views(r@)),
        pair_views(r@).to_multiset() == pair_views(v@).to_multiset(),
{
    broadcast use vstd::seq_lib::group_to_multiset_ensures;
    broadcast use vstd::multiset::group_multiset_axioms;

    let ghost full = pair_views(v@);
    let mut rest = v;
    let mut out: Vec<(String, u64)> = Vec::new();
    proof {
        assert(pair_views(out@) =~= Seq::<(Seq<char>, u64)>::empty());
        assert(pair_views(out@).to_multiset().add(pair_views(rest@).to_multiset())
            =~= full.to_multiset());
    }
    while rest.len() > 0
        invariant
            sorted_desc(pair_views(out@)),
            pair_views(out@).to_multiset().add(pair_views(rest@).to_multiset())
                == full.to_multiset(),
        decreases rest@.len(),
    {
        broadcast use vstd::seq_lib::group_to_multiset_ensures;
        broadcast use vstd::multiset::group_multiset_axioms;

        let ghost out0 = pair_views(out@);
        let ghost rest0 = pair_views(rest@);
        let x = rest.remove(0);
        let ghost xv = (x.0@, x.1);
        proof {
            assert(pair_views(rest@) =~= rest0.remove(0));
            assert(rest0.to_multiset().contains(rest0[0])) by {
                assert(rest0.contains(rest0[0]));
            }
            assert(pair_views(rest@).to_multiset() =~= rest0.to_multiset().remove(rest0[0]));
            assert(rest0[0] == xv);
        }
        let k = insert_position_desc(&out, x.1);
        let ghost kk = k as int;
        let ghost out_exec0 = out@;
        out.insert(k, x);
        proof {
            out_exec0.insert_ensures(kk, x);
            let n0 = out0.len() as int;
            let nv = pair_views(out@);
            assert(out0.len() == out_exec0.len());
            assert(nv =~= out0.insert(kk, xv)) by {
                out0.insert_ensures(kk, xv);
                assert forall|i: int| 0 <= i < nv.len() implies nv[i] == out0.insert(kk, xv)[i] by {
                    if i < kk {
                        assert(out@[i] == out_exec0[i]);
                    } else if i == kk {
                        assert(out@[i] == x);
                    } else {
                        assert(out@[i] == out_exec0[i - 1]);
                    }
                }
            }
            assert(sorted_desc(nv)) by {
                out0.insert_ensures(kk, xv);
                assert forall|i: int, j: int| 0 <= i < j < nv.len() implies (#[trigger] nv[i]).1
                    >= (#[trigger] nv[j]).1 by {
                    if i == kk {
                        assert(nv[j] == out0[j - 1]);
                    } else if j == kk {
                        assert(nv[i] == out0[i]);
                    }
                }
            }
            let a = out0.subrange(0, kk);
            let b = out0.subrange(kk, n0);
            assert(out0 =~= a + b);
            assert(out0.insert(kk, xv) =~= a + seq![xv] + b);
            vstd::seq_lib::lemma_multiset_commutative(a, b);
            vstd::seq_lib::lemma_multiset_commutative(a + seq![xv], b);
            vstd::seq_lib::lemma_multiset_commutative(a, seq![xv]);
            assert(seq![xv] =~= Seq::<(Seq<char>, u64)>::empty().push(xv));
            assert(Seq::<(Seq<char>, u64)>::empty().to_multiset() =~= vstd::multiset::Multiset::<
                (Seq<char>, u64),
            >::empty()) by {
                assert(forall|e: (Seq<char>, u64)|
                    !Seq::<(Seq<char>, u64)>::empty().contains(e));
            }
            assert(seq![xv].to_multiset() =~= vstd::multiset::Multiset::<
                (Seq<char>, u64),
            >::empty().insert(xv));
            assert(nv.to_multiset() =~= out0.to_multiset().insert(xv));
            assert(nv.to_multiset().add(pair_views(rest@).to_multiset()) =~= full.to_multiset());
        }
    }
    out
}

/// Whether a stored path can lose the root prefix: it continues the
/// prefix with a separator.
pub open spec fn strippable(p: Seq<char>, b: Seq<char>) -> bool {
    p.len() > b.len() && p.subrange(0, b.len() as int) == b && p[b.len() as int] == '/'
}

/// Strips `base` and its separator off the front of a path string.
pub fn strip_path_prefix(s: &str, base: &str) -> (r: Option<String>)
    ensures
        r is Some <==> strippable(s@, base@),
        r matches Some(t) ==> s@ == base@ + seq!['/'] + t@,
{
    let bl = base.unicode_len();
    let sl = s.unicode_len();
    if sl <= bl {
        return None;
    }
    let mut i: usize = 0;
    while i < bl
        invariant
            i <= bl,
            bl == base@.len(),
            sl == s@.len(),
            sl > bl,
            forall|j: int| 0 <= j < i ==> s@[j] == base@[j],
        decreases bl - i,
    {
        if s.get_char(i) != base.get_char(i) {
            proof {
                assert(s@.subrange(0, base@.len() as int)[i as int] != base@[i as int]);
            }
            return None;
        }
        i = i + 1;
    }
    if s.get_char(bl) != '/' {
        return None;
    }
    let rest = s.substring_char(bl + 1, sl);
    proof {
        assert(s@.subrange(0, base@.len() as int) =~= base@);
        assert(s@ =~= base@ + seq!['/'] + s@.subrange(base@.len() as int + 1, s@.len() as int));
    }
    Some(rest.to_owned())
}

/// Strips the root prefix off every entry path; any entry that does
/// not carry the prefix rejects the whole list.
pub fn strip_entry_paths(entries: &Vec<(String, u64)>, base: Option<&str>) -> (r: Result<
    Vec<String>,
    IndexerError,
>)
    ensures
        r is Ok <==> (base is None || forall|i: int|
            0 <= i < entries@.len() ==> strippable(
                (#[trigger] pair_views(entries@)[i]).0,
                base->0@,
            )),
        r matches Ok(files) ==> files@.len() == entries@.len() && forall|i: int|
            0 <= i < entries@.len() ==> (match base {
                None => (#[trigger] files@[i])@ == pair_views(entries@)[i].0,
                Some(b) => b@ + seq!['/'] + (#[trigger] files@[i])@ == pair_views(entries@)[i].0,
            }),
        r matches Err(e) ==> e is InvalidPath,
{
    let mut files: Vec<String> = Vec::new();
    let mut i: usize = 0;
    while i < entries.len()
        invariant
            i <= entries@.len(),
            files@.len() == i,
            forall|j: int|
                0 <= j < i ==> (match base {
                    None => (#[trigger] files@[j])@ == pair_views(entries@)[j].0,
                    Some(b) => b@ + seq!['/'] + (#[trigger] files@[j])@ == pair_views(
                        entries@,
                    )[j].0,
                }),
            forall|j: int|
                0 <= j < i && base is Some ==> strippable(
                    (#[trigger] pair_views(entries@)[j]).0,
                    base->0@,
                ),
        decreases entries@.len() - i,
    {
        match base {
            Some(b) => {
                match strip_path_prefix(entries[i].0.as_str(), b) {
                    Some(t) => {
                        files.push(t);
                    },
                    None => {
                        proof {
                            assert(!strippable(pair_views(entries@)[i as int].0, b@));
                        }
                        return Err(IndexerError::InvalidPath(entries[i].0.clone()));
                    },
                }
            },
            None => {
                files.push(entries[i].0.clone());
            },
        }
        i = i + 1;
    }
    Ok(files)
}

/// Whether every path in a run of pairs carries the prefix.
pub open spec fn all_strippable(ps: Seq<(Seq<char>, u64)>, b: Seq<char>) -> bool {
    forall|i: int| 0 <= i < ps.len() ==> strippable((#[trigger] ps[i]).0, b)
}

/// Reordering a run of pairs neither gains nor loses a strippable
/// path: the property transfers across multiset equality.
pub proof fn lemma_strippable_across_multiset(
    a: Seq<(Seq<char>, u64)>,
    b: Seq<(Seq<char>, u64)>,
    prefix: Seq<char>,
)
    requires
        a.to_multiset() == b.to_multiset(),
    ensures
        all_strippable(a, prefix) == all_strippable(b, prefix),
{
    broadcast use vstd::seq_lib::group_to_multiset_ensures;

    if all_strippable(a, prefix) && !all_strippable(b, prefix) {
        let i = choose|i: int| 0 <= i < b.len() && !strippable(b[i].0, prefix);
        assert(b.contains(b[i]));
        assert(b.to_multiset().contains(b[i]));
        assert(a.to_multiset().contains(b[i]));
        assert(a.contains(b[i]));
        let j = choose|j: int| 0 <= j < a.len() && a[j] == b[i];
        assert(strippable(a[j].0, prefix));
    }
    if !all_strippable(a, prefix) && all_strippable(b, prefix) {
        let i = choose|i: int| 0 <= i < a.len() && !strippable(a[i].0, prefix);
        assert(a.contains(a[i]));
        assert(a.to_multiset().contains(a[i]));
        assert(b.to_multiset().contains(a[i]));
        assert(b.contains(a[i]));
        let j = choose|j: int| 0 <= j < b.len() && b[j] == a[i];
        assert(strippable(b[j].0, prefix));
    }
}

/// The work list an index tree yields: its file, symlink and
/// empty-directory entries, sorted by descending size, each path
/// stripped of the root prefix when one is given. It succeeds exactly
/// when no prefix is given or every entry carries it.
pub fn files_from_tree(tree: &TreeNode, base: Option<&str>) -> (r: Result<
    Vec<String>,
    IndexerError,
>)
    ensures
        r is Ok <==> (base is None || all_strippable(entry_pairs(tree@), base->0@)),
        r matches Ok(files) ==> exists|ps: Seq<(Seq<char>, u64)>|
            #[trigger] sorted_desc(ps) && ps.to_multiset() == entry_pairs(tree@).to_multiset()
                && files@.len() == ps.len() && (forall|i: int|
                0 <= i < ps.len() ==> (match base {
                    None => (#[trigger] files@[i])@ == ps[i].0,
                    Some(b) => b@ + seq!['/'] + (#[trigger] files@[i])@ == ps[i].0,
                })),
        r matches Err(e) ==> e is InvalidPath && base is Some,
{
    let entries = collect_entries(tree);
    let sorted = sort_entries_by_size(entries);
    let ghost ps = pair_views(sorted@);
    proof {
        match base {
            Some(b) => {
                lemma_strippable_across_multiset(ps, entry_pairs(tree@), b@);
            },
            None => {},
        }
    }
    match strip_entry_paths(&sorted, base) {
        Ok(files) => {
            proof {
                assert(base matches Some(b) ==> all_strippable(ps, b@));
                assert(sorted_desc(ps) && ps.to_multiset() == entry_pairs(tree@).to_multiset()
                    && files@.len() == ps.len() && (forall|i: int|
                    0 <= i < ps.len() ==> (match base {
                        None => (#[trigger] files@[i])@ == ps[i].0,
                        Some(b) => b@ + seq!['/'] + (#[trigger] files@[i])@ == ps[i].0,
                    })));
            }
            Ok(files)
        },
        Err(e) => {
            proof {
                assert(base matches Some(b) ==> !all_strippable(ps, b@));
            }
            Err(e)
        },
    }
}

} // verus!
