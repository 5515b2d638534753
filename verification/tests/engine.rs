use partar::archive::{default_mode_for_path, missing_items, mode_to_string, shard_file_name};
use partar::error::IndexerError;
use partar::files::{collect_entries, files_from_tree, sort_entries_by_size, strip_path_prefix};
use partar::pipe::{collect_expected, send_worker_result, ArchiverError, Pipe};
use partar::tree::{NodeMetadata, TreeNode};

fn file_with_meta(name: &str, path: &str, size: u64) -> TreeNode {
    let mut f = TreeNode::file(name.to_string(), path.to_string(), size);
    f.metadata = Some(NodeMetadata { size, files: 1, dirs: 0 });
    f
}

#[test]
fn pipe_reconciles_eleven_items_across_three_workers() {
    let work: Pipe<String> = Pipe::new();
    let results: Pipe<Result<String, ArchiverError>> = Pipe::new();
    let requested: Vec<String> = (0..11).map(|i| format!("item{}", i)).collect();
    for w in &requested {
        assert!(work.send(w.clone()).is_ok());
    }
    // three worker handles drain the queue in turns
    let handles = [work.handle(), work.handle(), work.handle()];
    let mut turn = 0;
    for _ in 0..11 {
        let item = handles[turn % 3].take_try_many().unwrap();
        send_worker_result(&results, Ok(item)).unwrap();
        turn += 1;
    }
    let processed = results.collect_expected(11).unwrap();
    assert_eq!(processed.len(), 11);
    work.set_completed().unwrap();
    // the union of processed paths equals the requested set
    let missing = missing_items(&requested, &processed);
    assert!(missing.is_empty());
    let mut got: Vec<String> = processed.into_iter().map(|r| r.unwrap()).collect();
    got.sort();
    let mut want = requested.clone();
    want.sort();
    assert_eq!(got, want);
}

#[test]
fn completed_pipe_lets_workers_exit_promptly() {
    let work: Pipe<String> = Pipe::new();
    work.set_completed().unwrap();
    assert!(work.get_completed().unwrap());
    let start = std::time::Instant::now();
    let r = work.take_try_many();
    assert!(r.is_err());
    match r {
        Err(ArchiverError::TryRecvError(_)) => {},
        other => panic!("unexpected result: {:?}", other),
    }
    // one patient poll at most, far below the full retry budget
    assert!(start.elapsed() < std::time::Duration::from_secs(5));
}

#[test]
fn worker_error_results_come_back_verbatim() {
    let results: Pipe<Result<String, ArchiverError>> = Pipe::new();
    send_worker_result(&results, Err(ArchiverError::LockPoisoned)).unwrap();
    let got = results.collect_expected(1).unwrap();
    match &got[0] {
        Err(ArchiverError::LockPoisoned) => {},
        other => panic!("unexpected result: {:?}", other),
    }
}

#[test]
fn lost_success_reports_a_closed_channel() {
    // a sender whose receivers are all gone: sending a success loses
    // it, sending an error recovers that error verbatim
    let orig: Pipe<Result<String, ArchiverError>> = Pipe::new();
    let tx = orig.input();
    let spare: Pipe<Result<String, ArchiverError>> = Pipe::new();
    drop(orig);
    let dead = Pipe { tx, rx: spare.output(), completed: spare.completed.clone() };
    match send_worker_result(&dead, Ok("x".to_string())) {
        Err(ArchiverError::ChannelClosed) => {},
        other => panic!("unexpected result: {:?}", other),
    }
    match send_worker_result(&dead, Err(ArchiverError::LockPoisoned)) {
        Err(ArchiverError::LockPoisoned) => {},
        other => panic!("unexpected result: {:?}", other),
    }
}

#[test]
fn collect_expected_fails_when_senders_are_gone() {
    let p: Pipe<u32> = Pipe::new();
    let rx = p.output();
    drop(p);
    let r = collect_expected(1, &rx);
    match r {
        Err(ArchiverError::RecvTimeoutError(_)) => {},
        other => panic!("unexpected result: {:?}", other),
    }
}

#[test]
fn missing_items_reports_exactly_the_unprocessed() {
    let work: Vec<String> = vec!["a".into(), "b".into(), "c".into()];
    let processed: Vec<Result<String, ArchiverError>> =
        vec![Ok("a".into()), Err(ArchiverError::ChannelClosed), Ok("c".into())];
    let missing = missing_items(&work, &processed);
    assert_eq!(missing, vec!["b".to_string()]);
    // no false warning when everything was processed
    let processed_all: Vec<Result<String, ArchiverError>> =
        vec![Ok("b".into()), Ok("a".into()), Ok("c".into())];
    let missing2 = missing_items(&work, &processed_all);
    assert!(missing2.is_empty());
}

#[test]
fn shard_names_follow_the_scheme() {
    assert_eq!(shard_file_name("backup", 0, false), "backup.0.tar");
    assert_eq!(shard_file_name("backup", 12, true), "backup.12.tar.gz");
}

#[test]
fn mode_rendering_and_defaults() {
    assert_eq!(mode_to_string(0o755), "rwxr-xr-x");
    assert_eq!(mode_to_string(0o600), "rw-------");
    assert_eq!(mode_to_string(0o40777), "rwxrwxrwx");
    assert_eq!(default_mode_for_path(true, false), 0o700);
    assert_eq!(default_mode_for_path(false, true), 0o777);
    assert_eq!(default_mode_for_path(false, false), 0o600);
}

#[test]
fn strip_prefix_requires_the_separator() {
    assert_eq!(strip_path_prefix("/a/b/c", "/a"), Some("b/c".to_string()));
    assert_eq!(strip_path_prefix("/ab/c", "/a"), None);
    assert_eq!(strip_path_prefix("/x/y", "/a"), None);
    assert_eq!(strip_path_prefix("/a", "/a"), None);
}

#[test]
fn files_from_tree_sorts_largest_first_and_strips() {
    let small = file_with_meta("s", "/root/s", 10);
    let big = file_with_meta("b", "/root/b", 300);
    let mid = file_with_meta("m", "/root/m", 50);
    let link = TreeNode::symlink("l".to_string(), "/root/l".to_string(), "t".to_string());
    let empty = TreeNode::directory("e".to_string(), "/root/e".to_string(), vec![]);
    let mut root = TreeNode::directory("root".to_string(), "/root".to_string(), vec![
        small, big, mid, link, empty,
    ]);
    root.metadata = Some(NodeMetadata { size: 360, files: 4, dirs: 2 });

    let files = files_from_tree(&root, Some("/root")).unwrap();
    // entries: the three files, the symlink, the empty dir; the root
    // itself is a non-empty directory and is no entry
    assert_eq!(files.len(), 5);
    assert_eq!(files[0], "b");
    assert_eq!(files[1], "m");
    assert_eq!(files[2], "s");
    // the zero-sized entries follow, keeping their stored (name) order
    assert_eq!(files[3], "e");
    assert_eq!(files[4], "l");
}

#[test]
fn files_from_tree_rejects_a_foreign_prefix() {
    let f = file_with_meta("a", "/other/a", 5);
    let root = TreeNode::directory("root".to_string(), "/root".to_string(), vec![f]);
    match files_from_tree(&root, Some("/root")) {
        Err(IndexerError::InvalidPath(p)) => assert_eq!(p, "/other/a"),
        other => panic!("unexpected result: {:?}", other),
    }
}

#[test]
fn collect_and_sort_entries() {
    let a = file_with_meta("a", "/r/a", 1);
    let b = file_with_meta("b", "/r/b", 9);
    let root = TreeNode::directory("r".to_string(), "/r".to_string(), vec![a, b]);
    let entries = collect_entries(&root);
    assert_eq!(entries.len(), 2);
    let sorted = sort_entries_by_size(entries);
    assert_eq!(sorted[0].0, "/r/b");
    assert_eq!(sorted[0].1, 9);
    assert_eq!(sorted[1].0, "/r/a");
}
