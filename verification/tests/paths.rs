use partar::path::{
    analyze_path, ensure_owner_writable, finalize_directory_permissions, join_paths,
    lexical_normalize, path_eq, record_desired_dir_mode, sanitize_rel_path, split_absolute,
    DirPlan, LexPath, PathComp,
};

fn normal(s: &str) -> PathComp {
    PathComp::Normal(s.to_string())
}

fn abs(parts: &[&str]) -> LexPath {
    LexPath { absolute: true, comps: parts.iter().map(|p| normal(p)).collect() }
}

fn rel(parts: &[&str]) -> LexPath {
    LexPath { absolute: false, comps: parts.iter().map(|p| normal(p)).collect() }
}

fn names(p: &LexPath) -> Vec<String> {
    p.comps
        .iter()
        .map(|c| match c {
            PathComp::Cur => ".".to_string(),
            PathComp::Parent => "..".to_string(),
            PathComp::Normal(s) => s.clone(),
        })
        .collect()
}

#[test]
fn normalize_removes_cur_and_resolves_parent() {
    let p = LexPath {
        absolute: true,
        comps: vec![normal("a"), PathComp::Cur, normal("b"), PathComp::Parent, normal("c")],
    };
    let n = lexical_normalize(&p);
    assert!(n.absolute);
    assert_eq!(names(&n), vec!["a".to_string(), "c".to_string()]);
}

#[test]
fn normalize_keeps_leading_parent_on_relative() {
    let p = LexPath { absolute: false, comps: vec![PathComp::Parent, normal("x")] };
    let n = lexical_normalize(&p);
    assert!(!n.absolute);
    assert_eq!(names(&n), vec!["..".to_string(), "x".to_string()]);
}

#[test]
fn normalize_empty_relative_becomes_dot() {
    let p = LexPath { absolute: false, comps: vec![normal("a"), PathComp::Parent] };
    let n = lexical_normalize(&p);
    assert_eq!(names(&n), vec![".".to_string()]);
}

#[test]
fn normalize_pops_whatever_precedes_a_parent() {
    // a literal `..` pops even a kept `..`, as lexical popping does
    let p = LexPath { absolute: false, comps: vec![PathComp::Parent, PathComp::Parent] };
    let n = lexical_normalize(&p);
    assert_eq!(names(&n), vec![".".to_string()]);
}

#[test]
fn normalize_parent_stops_at_root() {
    let p = LexPath { absolute: true, comps: vec![PathComp::Parent, normal("etc")] };
    let n = lexical_normalize(&p);
    assert!(n.absolute);
    assert_eq!(names(&n), vec!["etc".to_string()]);
}

#[test]
fn split_absolute_parent_and_leaf() {
    let p = abs(&["home", "user", "data"]);
    let (base, leaf) = split_absolute(&p);
    let base = base.unwrap();
    assert_eq!(names(&base), vec!["home".to_string(), "user".to_string()]);
    assert_eq!(names(&leaf), vec!["data".to_string()]);
}

#[test]
fn split_absolute_pure_root() {
    let p = abs(&[]);
    let (base, leaf) = split_absolute(&p);
    let base = base.unwrap();
    assert!(base.absolute);
    assert_eq!(names(&base), Vec::<String>::new());
    assert_eq!(names(&leaf), vec![".".to_string()]);
}

#[test]
fn analyze_absolute_input() {
    let cwd = abs(&["work"]);
    let input = LexPath {
        absolute: true,
        comps: vec![normal("a"), normal("b"), PathComp::Parent, normal("c")],
    };
    let (base, relpart) = analyze_path(&input, &cwd);
    let base = base.unwrap();
    assert_eq!(names(&base), vec!["a".to_string()]);
    assert_eq!(names(&relpart), vec!["c".to_string()]);
}

#[test]
fn analyze_relative_inside_cwd() {
    let cwd = abs(&["home", "me"]);
    let input = rel(&["proj", "src"]);
    let (base, relpart) = analyze_path(&input, &cwd);
    assert!(base.is_none());
    assert_eq!(names(&relpart), vec!["proj".to_string(), "src".to_string()]);
}

#[test]
fn analyze_relative_escaping_cwd() {
    let cwd = abs(&["home", "me"]);
    let input = LexPath {
        absolute: false,
        comps: vec![PathComp::Parent, PathComp::Parent, normal("etc"), normal("hosts")],
    };
    let (base, relpart) = analyze_path(&input, &cwd);
    let base = base.unwrap();
    assert_eq!(names(&base), vec!["etc".to_string()]);
    assert_eq!(names(&relpart), vec!["hosts".to_string()]);
}

// Reassembling analysis output resolves to the same place as the input.
#[test]
fn analyze_reassembles_lexically() {
    let cwd = abs(&["home", "me"]);
    let input = rel(&["proj", "src"]);
    let (base, relpart) = analyze_path(&input, &cwd);
    assert!(base.is_none());
    let reassembled = lexical_normalize(&join_paths(&cwd, &relpart));
    let resolved = lexical_normalize(&join_paths(&lexical_normalize(&cwd), &input));
    assert!(path_eq(&reassembled, &resolved));

    let input2 = LexPath { absolute: true, comps: vec![normal("a"), normal("b")] };
    let (base2, rel2) = analyze_path(&input2, &cwd);
    let base2 = base2.unwrap();
    let reassembled2 = lexical_normalize(&join_paths(&base2, &rel2));
    let resolved2 = lexical_normalize(&input2);
    assert!(path_eq(&reassembled2, &resolved2));
}

#[test]
fn sanitize_rejects_parent_components() {
    let p = LexPath { absolute: false, comps: vec![normal("a"), PathComp::Parent, normal("b")] };
    assert!(sanitize_rel_path(&p).is_none());
}

#[test]
fn sanitize_strips_root_and_cur() {
    let p = LexPath { absolute: true, comps: vec![PathComp::Cur, normal("a"), normal("b")] };
    let q = sanitize_rel_path(&p).unwrap();
    assert!(!q.absolute);
    assert_eq!(names(&q), vec!["a".to_string(), "b".to_string()]);
}

#[test]
fn sanitize_rejects_emptied_path() {
    let p = LexPath { absolute: true, comps: vec![PathComp::Cur] };
    assert!(sanitize_rel_path(&p).is_none());
}

#[test]
fn record_desired_mode_highest_priority_wins() {
    let mut plan = DirPlan::default();
    record_desired_dir_mode(&mut plan, rel(&["d"]), 0o755, 1);
    record_desired_dir_mode(&mut plan, rel(&["d"]), 0o700, 0);
    assert_eq!(plan.desired.len(), 1);
    assert_eq!(plan.desired[0].1.mode, 0o755);
    assert_eq!(plan.desired[0].1.priority, 1);
    record_desired_dir_mode(&mut plan, rel(&["d"]), 0o711, 2);
    assert_eq!(plan.desired.len(), 1);
    assert_eq!(plan.desired[0].1.mode, 0o711);
}

#[test]
fn ensure_owner_writable_records_original_once() {
    let mut plan = DirPlan::default();
    let set1 = ensure_owner_writable(&mut plan, rel(&["d"]), true, 0o500);
    assert_eq!(set1, Some(0o700));
    assert_eq!(plan.original.len(), 1);
    assert_eq!(plan.original[0].1, 0o500);
    // a second touch keeps the first remembered mode
    let set2 = ensure_owner_writable(&mut plan, rel(&["d"]), true, 0o700);
    assert!(set2.is_none());
    assert_eq!(plan.original.len(), 1);
    assert_eq!(plan.original[0].1, 0o500);
    // non-directories are left alone
    let set3 = ensure_owner_writable(&mut plan, rel(&["f"]), false, 0o000);
    assert!(set3.is_none());
    assert_eq!(plan.original.len(), 1);
}

#[test]
fn finalize_orders_deepest_first_and_restores() {
    let mut plan = DirPlan::default();
    record_desired_dir_mode(&mut plan, rel(&["a"]), 0o755, 0);
    record_desired_dir_mode(&mut plan, rel(&["a", "b", "c"]), 0o750, 1);
    record_desired_dir_mode(&mut plan, rel(&["a", "b"]), 0o700, 2);
    // one dir was made writable and is overridden, one is not
    let _ = ensure_owner_writable(&mut plan, rel(&["a", "b"]), true, 0o500);
    let _ = ensure_owner_writable(&mut plan, rel(&["z"]), true, 0o400);
    let ops = finalize_directory_permissions(plan);
    assert_eq!(ops.len(), 4);
    assert_eq!(names(&ops[0].0), vec!["a".to_string(), "b".to_string(), "c".to_string()]);
    assert_eq!(ops[0].1, 0o750);
    assert_eq!(names(&ops[1].0), vec!["a".to_string(), "b".to_string()]);
    assert_eq!(ops[1].1, 0o700);
    assert_eq!(names(&ops[2].0), vec!["a".to_string()]);
    assert_eq!(ops[2].1, 0o755);
    // the only restore is the dir no desired mode overrides
    assert_eq!(names(&ops[3].0), vec!["z".to_string()]);
    assert_eq!(ops[3].1, 0o400);
}
