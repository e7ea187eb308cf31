use dekube::manifest::Manifest;
use dekube::sync::{FileAction, Synchronizer};

fn key(parts: &[&str]) -> Vec<String> {
    parts.iter().map(|p| p.to_string()).collect()
}

fn expect_upload(action: FileAction) -> String {
    match action {
        FileAction::Upload(remote) => remote,
        other => panic!("expected an upload, got {:?}", other),
    }
}

fn drive(sync: &mut Synchronizer, tree: &[(&str, &[&str])]) {
    // `tree` maps a directory path to its children; any other path is a
    // regular file whose upload always succeeds.
    while let Some(current) = sync.next_path() {
        match tree.iter().find(|(d, _)| *d == current) {
            Some((_, children)) => {
                sync.enqueue_children(children.iter().map(|c| c.to_string()).collect())
            }
            None => match sync.process_file(&current) {
                FileAction::Upload(_) => sync.record_upload_result(true),
                FileAction::SkipDuplicate | FileAction::SkipInvalidPath => {}
            },
        }
    }
}

#[test]
fn scenario_basic_tree() {
    // root holds a.txt, sub/b.txt and an empty directory; the empty
    // directory yields no upload and no error.
    let mut sync = Synchronizer::new("/root".to_string());

    let first = sync.next_path().expect("root is pending");
    assert_eq!(first, "/root");
    sync.enqueue_children(vec![
        "/root/a.txt".to_string(),
        "/root/sub".to_string(),
        "/root/empty".to_string(),
    ]);

    let f = sync.next_path().unwrap();
    assert_eq!(f, "/root/a.txt");
    let remote = expect_upload(sync.process_file(&f));
    assert_eq!(remote, "a.txt");
    sync.record_upload_result(true);

    let d = sync.next_path().unwrap();
    assert_eq!(d, "/root/sub");
    sync.enqueue_children(vec!["/root/sub/b.txt".to_string()]);

    let e = sync.next_path().unwrap();
    assert_eq!(e, "/root/empty");
    sync.enqueue_children(vec![]);

    let f = sync.next_path().unwrap();
    assert_eq!(f, "/root/sub/b.txt");
    let remote = expect_upload(sync.process_file(&f));
    assert_eq!(remote, "sub/b.txt");
    sync.record_upload_result(true);

    assert!(sync.next_path().is_none());
    assert!(sync.is_done());

    assert_eq!(
        sync.dispatched_keys(),
        &vec![key(&["a.txt"]), key(&["sub", "b.txt"])]
    );
    assert_eq!(sync.totals.uploaded, 2);
    assert_eq!(sync.totals.upload_failures, 0);
    assert_eq!(sync.totals.duplicates, 0);
    assert_eq!(sync.totals.unreadable, 0);
    assert_eq!(sync.totals.invalid_paths, 0);
    assert_eq!(sync.totals.metadata_errors, 0);
    assert_eq!(sync.totals.listing_errors, 0);
}

#[test]
fn scenario_seeded_key_is_skipped() {
    // the tracker starts with one key already present: the file that
    // collides with it is skipped and never attempted again, while the
    // other file is uploaded.
    let mut seeded = Manifest::new();
    seeded.record(key(&["a.txt"]));
    let mut sync = Synchronizer::with_manifest("/r".to_string(), seeded);

    let colliding = "/r/a.txt".to_string();
    assert!(matches!(
        sync.process_file(&colliding),
        FileAction::SkipDuplicate
    ));

    let fresh = "/r/b.txt".to_string();
    assert_eq!(expect_upload(sync.process_file(&fresh)), "b.txt");

    assert_eq!(sync.dispatched_keys(), &vec![key(&["b.txt"])]);
    assert_eq!(sync.totals.duplicates, 1);
}

#[test]
fn same_path_twice_is_skipped_within_run() {
    let mut sync = Synchronizer::new("/r".to_string());
    let p = "/r/a.txt".to_string();
    assert_eq!(expect_upload(sync.process_file(&p)), "a.txt");
    assert!(matches!(sync.process_file(&p), FileAction::SkipDuplicate));
    assert_eq!(sync.dispatched_keys().len(), 1);
}

#[test]
fn separator_styles_collide_in_dedup() {
    // the same logical location written with either separator style
    // derives one key: the second spelling is a duplicate, and the
    // remote key always uses the forward slash.
    let mut sync = Synchronizer::new("/r".to_string());
    let backslash = "/r/a\\b".to_string();
    let forward = "/r/a/b".to_string();
    assert_eq!(expect_upload(sync.process_file(&backslash)), "a/b");
    assert!(matches!(
        sync.process_file(&forward),
        FileAction::SkipDuplicate
    ));
    assert_eq!(sync.dispatched_keys(), &vec![key(&["a", "b"])]);
}

#[test]
fn path_outside_root_is_reported_and_skipped() {
    let mut sync = Synchronizer::new("/r".to_string());
    let stray = "/elsewhere/x.txt".to_string();
    assert!(matches!(
        sync.process_file(&stray),
        FileAction::SkipInvalidPath
    ));
    assert_eq!(sync.totals.invalid_paths, 1);
    assert!(sync.dispatched_keys().is_empty());
}

#[test]
fn listing_failure_spares_siblings() {
    // one directory fails to list; its sibling directory and file are
    // still processed.
    let mut sync = Synchronizer::new("/r".to_string());
    let root = sync.next_path().unwrap();
    assert_eq!(root, "/r");
    sync.enqueue_children(vec![
        "/r/broken".to_string(),
        "/r/ok".to_string(),
        "/r/top.txt".to_string(),
    ]);

    let broken = sync.next_path().unwrap();
    assert_eq!(broken, "/r/broken");
    sync.record_listing_error();

    let ok_dir = sync.next_path().unwrap();
    assert_eq!(ok_dir, "/r/ok");
    sync.enqueue_children(vec!["/r/ok/c.txt".to_string()]);

    let top = sync.next_path().unwrap();
    assert_eq!(expect_upload(sync.process_file(&top)), "top.txt");
    sync.record_upload_result(true);

    let nested = sync.next_path().unwrap();
    assert_eq!(expect_upload(sync.process_file(&nested)), "ok/c.txt");
    sync.record_upload_result(true);

    assert!(sync.next_path().is_none());
    assert_eq!(sync.totals.listing_errors, 1);
    assert_eq!(sync.totals.uploaded, 2);
}

#[test]
fn unreadable_file_is_skipped_and_traversal_continues() {
    let mut sync = Synchronizer::new("/r".to_string());
    let root = sync.next_path().unwrap();
    assert_eq!(root, "/r");
    sync.enqueue_children(vec!["/r/locked.txt".to_string(), "/r/open.txt".to_string()]);

    let locked = sync.next_path().unwrap();
    let _ = expect_upload(sync.process_file(&locked));
    sync.record_open_error();

    let open = sync.next_path().unwrap();
    assert_eq!(expect_upload(sync.process_file(&open)), "open.txt");
    sync.record_upload_result(true);

    assert!(sync.next_path().is_none());
    assert_eq!(sync.totals.unreadable, 1);
    assert_eq!(sync.totals.uploaded, 1);
}

#[test]
fn metadata_failure_spares_the_rest() {
    let mut sync = Synchronizer::new("/r".to_string());
    let root = sync.next_path().unwrap();
    assert_eq!(root, "/r");
    sync.enqueue_children(vec!["/r/ghost".to_string(), "/r/real.txt".to_string()]);

    let ghost = sync.next_path().unwrap();
    assert_eq!(ghost, "/r/ghost");
    sync.record_metadata_error();

    let real = sync.next_path().unwrap();
    assert_eq!(expect_upload(sync.process_file(&real)), "real.txt");
    sync.record_upload_result(true);

    assert!(sync.next_path().is_none());
    assert_eq!(sync.totals.metadata_errors, 1);
    assert_eq!(sync.totals.uploaded, 1);
}

#[test]
fn fresh_rerun_uploads_everything_again() {
    // the tracker is not persisted: a second fresh run re-uploads every
    // file of the same tree.
    let tree: &[(&str, &[&str])] = &[
        ("/r", &["/r/a.txt", "/r/sub"]),
        ("/r/sub", &["/r/sub/b.txt"]),
    ];

    let mut first = Synchronizer::new("/r".to_string());
    drive(&mut first, tree);
    assert_eq!(
        first.dispatched_keys(),
        &vec![key(&["a.txt"]), key(&["sub", "b.txt"])]
    );

    let mut second = Synchronizer::new("/r".to_string());
    drive(&mut second, tree);
    assert_eq!(second.dispatched_keys(), first.dispatched_keys());
    assert_eq!(second.totals.uploaded, 2);
    assert_eq!(second.totals.duplicates, 0);
}

#[test]
fn rerun_with_persisted_manifest_uploads_nothing() {
    // with the first run's manifest injected, the second run over the
    // unchanged tree uploads zero files.
    let tree: &[(&str, &[&str])] = &[
        ("/r", &["/r/a.txt", "/r/sub"]),
        ("/r/sub", &["/r/sub/b.txt"]),
    ];

    let mut first = Synchronizer::new("/r".to_string());
    drive(&mut first, tree);
    assert_eq!(first.dispatched_keys().len(), 2);

    let mut persisted = Manifest::new();
    for k in first.dispatched_keys() {
        persisted.record(k.clone());
    }

    let mut second = Synchronizer::with_manifest("/r".to_string(), persisted);
    drive(&mut second, tree);
    assert!(second.dispatched_keys().is_empty());
    assert_eq!(second.totals.uploaded, 0);
    assert_eq!(second.totals.duplicates, 2);
}

#[test]
fn manifest_records_and_answers_membership() {
    let mut manifest = Manifest::new();
    assert!(!manifest.contains(&key(&["a.txt"])));
    manifest.record(key(&["a.txt"]));
    assert!(manifest.contains(&key(&["a.txt"])));
    assert!(!manifest.contains(&key(&["b.txt"])));
    // recording again changes nothing
    manifest.record(key(&["a.txt"]));
    assert!(manifest.contains(&key(&["a.txt"])));
}
