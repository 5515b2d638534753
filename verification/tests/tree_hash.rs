use partar::crypto::hash_string;
use partar::serialize::{SerializedNodeType, SerializedTreeNode};
use partar::text::{format_size, to_hex, u64_to_string};
use partar::tree::{NodeMetadata, NodeType, TreeNode};
use sha2::Digest;

fn file(name: &str, size: u64) -> TreeNode {
    TreeNode::file(name.to_string(), format!("/root/{}", name), size)
}

fn symlink(name: &str, target: &str) -> TreeNode {
    TreeNode::symlink(name.to_string(), format!("/root/{}", name), target.to_string())
}

fn dir(name: &str, children: Vec<TreeNode>) -> TreeNode {
    TreeNode::directory(name.to_string(), format!("/root/{}", name), children)
}

fn sha256_hex(data: &[u8]) -> String {
    sha2::Sha256::digest(data).iter().map(|b| format!("{:02x}", b)).collect()
}

fn md5_hex(data: &[u8]) -> String {
    format!("{:x}", md5::compute(data))
}

#[test]
fn metadata_reduction_counts_files_and_bytes() {
    // three files of sizes 100, 200, 300 and one symlink
    let mut root = dir(
        "root",
        vec![file("f1", 100), file("f2", 200), file("f3", 300), symlink("l", "target")],
    );
    let meta = root.compute_metadata();
    assert_eq!(meta.size, 600);
    assert_eq!(meta.files, 4);
    assert_eq!(meta.dirs, 1);
    // the slot is filled and rereadable
    assert_eq!(root.read_metadata(), Some(NodeMetadata { size: 600, files: 4, dirs: 1 }));
    // recomputation yields the same values
    let again = root.compute_metadata();
    assert_eq!(again, meta);
}

#[test]
fn metadata_reduction_nested_directories() {
    let inner = dir("inner", vec![file("a", 5), file("b", 7)]);
    let mut root = dir("root", vec![inner, file("c", 8)]);
    let meta = root.compute_metadata();
    assert_eq!(meta.size, 20);
    assert_eq!(meta.files, 3);
    assert_eq!(meta.dirs, 2);
}

#[test]
fn metadata_fits_detects_overflowing_sums() {
    let ok = dir("root", vec![file("a", 1), file("b", 2)]);
    assert!(ok.metadata_fits());
    let too_big = dir("root", vec![file("a", u64::MAX), file("b", 1)]);
    assert!(!too_big.metadata_fits());
}

#[test]
fn directory_constructor_sorts_children_by_name() {
    let root = dir("root", vec![file("zeta", 1), file("alpha", 2), file("mid", 3)]);
    let children = root.children().unwrap();
    let names: Vec<&str> = children.iter().map(|c| c.name.as_str()).collect();
    assert_eq!(names, vec!["alpha", "mid", "zeta"]);
}

#[test]
fn hash_determinism_same_tree_same_root_hash() {
    // root = { a/f1 (bytes "0123456789"), a/f2 (empty), b (empty dir) }
    let build = || {
        let mut f1 = file("f1", 10);
        f1.store_hash(sha256_hex(b"0123456789"));
        let mut f2 = file("f2", 0);
        f2.store_hash(sha256_hex(b""));
        let a = dir("a", vec![f1, f2]);
        let b = dir("b", vec![]);
        dir("root", vec![a, b])
    };
    let mut t1 = build();
    let mut t2 = build();
    let h1 = t1.compute_hashes(false);
    let h2 = t2.compute_hashes(false);
    assert_eq!(h1, h2);
    // a second run returns the memoized value unchanged
    let h1_again = t1.compute_hashes(false);
    assert_eq!(h1, h1_again);
}

#[test]
fn symlink_hash_digests_the_target_string() {
    // root = { link -> "target" }; the target need not exist
    let mut root = dir("root", vec![symlink("link", "target")]);
    let root_hash = root.compute_hashes(false);
    let child = sha256_hex(b"target");
    let expected = sha256_hex(format!("link{}", child).as_bytes());
    assert_eq!(root_hash, expected);
}

#[test]
fn file_without_content_hash_degrades_to_name() {
    let mut root = dir("root", vec![file("unreadable", 9)]);
    let root_hash = root.compute_hashes(false);
    let child = sha256_hex(b"unreadable");
    let expected = sha256_hex(format!("unreadable{}", child).as_bytes());
    assert_eq!(root_hash, expected);
}

#[test]
fn prefilled_file_hash_is_honored() {
    let mut f = file("data", 4);
    f.store_hash(sha256_hex(b"abcd"));
    let mut root = dir("root", vec![f]);
    let root_hash = root.compute_hashes(false);
    let child = sha256_hex(b"abcd");
    let expected = sha256_hex(format!("data{}", child).as_bytes());
    assert_eq!(root_hash, expected);
}

#[test]
fn md5_digest_matches_reference() {
    let h = hash_string("hello", true);
    assert_eq!(h, md5_hex(b"hello"));
    let h2 = hash_string("hello", false);
    assert_eq!(h2, sha256_hex(b"hello"));
}

#[test]
fn digest_strings_have_the_documented_length() {
    assert_eq!(hash_string("", true).len(), 32);
    assert_eq!(hash_string("", false).len(), 64);
    let mut root = dir("root", vec![file("a", 1)]);
    assert_eq!(root.compute_hashes(true).len(), 32);
    let mut root2 = dir("root", vec![file("a", 1)]);
    assert_eq!(root2.compute_hashes(false).len(), 64);
}

#[test]
fn serialize_round_trip_preserves_reductions() {
    let mut root = dir("root", vec![file("a", 3), symlink("l", "t"), dir("sub", vec![])]);
    let _ = root.compute_metadata();
    let _ = root.compute_hashes(true);
    let expected_meta = root.read_metadata();
    let expected_hash = root.read_hash();
    assert!(expected_meta.is_some());
    assert!(expected_hash.is_some());

    let ser = root.to_serializable();
    let back = TreeNode::from_serializable(ser);
    assert_eq!(back.name, root.name);
    assert_eq!(back.path, root.path);
    assert_eq!(back.read_metadata(), expected_meta);
    assert_eq!(back.read_hash(), expected_hash);
    let back_children = back.children().unwrap();
    let root_children = root.children().unwrap();
    assert_eq!(back_children.len(), root_children.len());
    for (b, r) in back_children.iter().zip(root_children.iter()) {
        assert_eq!(b.name, r.name);
        assert_eq!(b.read_hash(), r.read_hash());
        assert_eq!(b.read_metadata(), r.read_metadata());
    }
    // a reloaded tree hashes to the same root digest
    let mut back2 = back;
    let h1 = root.compute_hashes(true);
    let h2 = back2.compute_hashes(true);
    assert_eq!(h1, h2);
}

#[test]
fn serialized_unknown_keeps_reason() {
    let n = TreeNode::special(
        "odd".to_string(),
        "/root/odd".to_string(),
        NodeType::Unknown { reason: "permission denied".to_string() },
    );
    let ser = n.to_serializable();
    match &ser.node_type {
        SerializedNodeType::Unknown { reason } => assert_eq!(reason, "permission denied"),
        _ => panic!("expected an unknown node"),
    }
    let back = TreeNode::from_serializable(SerializedTreeNode {
        name: ser.name,
        path: ser.path,
        node_type: ser.node_type,
        metadata: ser.metadata,
        hash: ser.hash,
    });
    match &back.node_type {
        NodeType::Unknown { reason } => assert_eq!(reason, "permission denied"),
        _ => panic!("expected an unknown node"),
    }
}

#[test]
fn decimal_and_hex_rendering() {
    assert_eq!(u64_to_string(0), "0");
    assert_eq!(u64_to_string(12345), "12345");
    assert_eq!(u64_to_string(u64::MAX), format!("{}", u64::MAX));
    assert_eq!(to_hex(&vec![0xde, 0xad, 0x00, 0x0f]), "dead000f");
    assert_eq!(to_hex(&vec![]), "");
}

#[test]
fn collect_all_is_preorder() {
    let inner = dir("inner", vec![file("x", 1)]);
    let root = dir("root", vec![inner, file("y", 2)]);
    let all = root.collect_all();
    let names: Vec<&str> = all.iter().map(|n| n.name.as_str()).collect();
    assert_eq!(names, vec!["root", "inner", "x", "y"]);
}

#[test]
fn format_size_rounds_up_into_the_next_unit() {
    // just below 2 GB: the hundredths round all the way up
    assert_eq!(format_size(2 * 1024 * 1024 * 1024 - 1), "2.00 GB");
}

#[test]
fn format_size_units() {
    assert_eq!(format_size(512), "512 B");
    assert_eq!(format_size(1536), "1.50 KB");
    assert_eq!(format_size(1100), "1.07 KB");
    assert_eq!(format_size(3 * 1024 * 1024), "3.00 MB");
    assert_eq!(format_size(3221225472), "3.00 GB");
}
