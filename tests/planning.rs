use syncplan::{
    build_transfer_plan, FileKind, FileList, FileMeta, PlanError, Reason, TransferKind,
    TransferPlan,
};

fn meta(path: &str, size: u64, mtime: Option<i64>, md5: Option<&str>) -> FileMeta {
    FileMeta {
        path: path.to_string(),
        size,
        kind: FileKind::RegularFile,
        modified_time: mtime,
        permissions: None,
        md5: md5.map(|s| s.to_string()),
    }
}

fn ops(plan: &TransferPlan) -> Vec<(TransferKind, String, u64, Reason)> {
    plan.operations
        .iter()
        .map(|o| (o.kind, o.path.clone(), o.size_bytes, o.reason))
        .collect()
}

#[test]
fn inventory_total_is_sum_of_sizes() {
    let l = FileList::new(vec![
        meta("root.txt", 4, None, None),
        meta("foo/foo.txt", 6, None, None),
        meta("foo/bar/deep.txt", 4, None, None),
    ]);
    assert_eq!(l.files.len(), 3);
    assert_eq!(l.total_size, 14);
    assert_eq!(l.files[1].path, "foo/foo.txt");
}

#[test]
fn inventory_total_does_not_overflow() {
    let l = FileList::new(vec![meta("a", u64::MAX, None, None), meta("b", u64::MAX, None, None)]);
    assert_eq!(l.total_size, 2 * (u64::MAX as u128));
    assert_eq!(FileList::new(vec![]).total_size, 0);
}

#[test]
fn plan_create_delete_skip() {
    let src = FileList::new(vec![meta("a", 5, None, None), meta("c", 7, Some(1), None)]);
    let dst = FileList::new(vec![meta("b", 3, None, None), meta("c", 7, Some(1), None)]);
    let plan = build_transfer_plan(&src, &dst, false).unwrap();
    assert_eq!(
        ops(&plan),
        vec![
            (TransferKind::Delete, "b".to_string(), 0, Reason::MissingOnSource),
            (TransferKind::Create, "a".to_string(), 5, Reason::NewOnSource),
            (TransferKind::Skip, "c".to_string(), 0, Reason::IdenticalBySizeAndTime),
        ]
    );
    assert_eq!((plan.created, plan.updated, plan.deleted, plan.skipped), (1, 0, 1, 1));
    assert_eq!(plan.total_bytes, 5);
}

#[test]
fn plan_deletes_children_before_parents() {
    let src = FileList::new(vec![]);
    let dst = FileList::new(vec![meta("dir/", 0, None, None), meta("dir/file.txt", 2, None, None)]);
    let plan = build_transfer_plan(&src, &dst, false).unwrap();
    let paths: Vec<String> = plan.operations.iter().map(|o| o.path.clone()).collect();
    assert_eq!(paths, vec!["dir/file.txt".to_string(), "dir/".to_string()]);
    let dst = FileList::new(vec![
        meta("dir", 0, None, None),
        meta("dir/sub", 0, None, None),
        meta("dir/sub/x", 1, None, None),
        meta("other", 1, None, None),
    ]);
    let plan = build_transfer_plan(&src, &dst, false).unwrap();
    let paths: Vec<String> = plan.operations.iter().map(|o| o.path.clone()).collect();
    assert_eq!(paths, vec!["dir/sub/x", "dir/sub", "dir", "other"]);
    let dst = FileList::new(vec![meta("z", 1, None, None), meta("a/b", 1, None, None)]);
    let plan = build_transfer_plan(&src, &dst, false).unwrap();
    let paths: Vec<String> = plan.operations.iter().map(|o| o.path.clone()).collect();
    assert_eq!(paths, vec!["a/b", "z"]);
}

#[test]
fn plan_is_deterministic() {
    let src = FileList::new(vec![
        meta("z", 1, None, None),
        meta("m", 2, Some(9), None),
        meta("a", 3, None, None),
        meta("q", 4, None, None),
    ]);
    let dst = FileList::new(vec![
        meta("q", 5, None, None),
        meta("m", 2, Some(3), None),
        meta("y", 1, None, None),
        meta("b", 1, None, None),
    ]);
    let first = build_transfer_plan(&src, &dst, true).unwrap();
    let second = build_transfer_plan(&src, &dst, true).unwrap();
    assert_eq!(ops(&first), ops(&second));
    assert_eq!(
        ops(&first),
        vec![
            (TransferKind::Delete, "b".to_string(), 0, Reason::MissingOnSource),
            (TransferKind::Delete, "y".to_string(), 0, Reason::MissingOnSource),
            (TransferKind::Create, "a".to_string(), 3, Reason::NewOnSource),
            (TransferKind::Create, "z".to_string(), 1, Reason::NewOnSource),
            (TransferKind::Update, "m".to_string(), 2, Reason::TimeNewer),
            (TransferKind::Update, "q".to_string(), 4, Reason::SizeMismatch),
        ]
    );
    assert_eq!(first.total_bytes, 10);
    assert_eq!((first.created, first.updated, first.deleted, first.skipped), (2, 2, 2, 0));
}

#[test]
fn plan_older_source_time_is_skipped() {
    let src = FileList::new(vec![meta("m", 2, Some(3), None)]);
    let dst = FileList::new(vec![meta("m", 2, Some(9), None)]);
    let plan = build_transfer_plan(&src, &dst, false).unwrap();
    assert_eq!(ops(&plan), vec![(TransferKind::Skip, "m".to_string(), 0, Reason::IdenticalBySizeAndTime)]);
}

#[test]
fn plan_digests() {
    let src = FileList::new(vec![meta("a", 2, None, Some("x")), meta("b", 2, None, Some("y"))]);
    let dst = FileList::new(vec![meta("a", 2, None, Some("x")), meta("b", 2, None, Some("z"))]);
    let plan = build_transfer_plan(&src, &dst, true).unwrap();
    assert_eq!(
        ops(&plan),
        vec![
            (TransferKind::Update, "b".to_string(), 2, Reason::SizeMismatch),
            (TransferKind::Skip, "a".to_string(), 0, Reason::IdenticalByDigest),
        ]
    );
    let plan = build_transfer_plan(&src, &dst, false).unwrap();
    assert_eq!(
        ops(&plan),
        vec![
            (TransferKind::Skip, "a".to_string(), 0, Reason::IdenticalBySizeAndTime),
            (TransferKind::Skip, "b".to_string(), 0, Reason::IdenticalBySizeAndTime),
        ]
    );
}

#[test]
fn plan_duplicate_entry() {
    let src = FileList::new(vec![meta("a", 1, None, None), meta("a", 2, None, None)]);
    let dst = FileList::new(vec![]);
    match build_transfer_plan(&src, &dst, false) {
        Err(PlanError::DuplicateEntry(p)) => assert_eq!(p, "a"),
        Ok(_) => panic!("a duplicate path must be refused"),
    }
    let src = FileList::new(vec![meta("k", 1, None, None)]);
    let dst = FileList::new(vec![meta("x", 1, None, None), meta("y", 1, None, None), meta("x", 1, None, None)]);
    match build_transfer_plan(&src, &dst, false) {
        Err(PlanError::DuplicateEntry(p)) => assert_eq!(p, "x"),
        Ok(_) => panic!("a duplicate path must be refused"),
    }
}

#[test]
fn plan_empty_inventories() {
    let plan = build_transfer_plan(&FileList::new(vec![]), &FileList::new(vec![]), false).unwrap();
    assert!(plan.operations.is_empty());
    assert_eq!(plan.total_bytes, 0);
}

#[test]
fn plan_from_listings() {
    let src = FileList::from_listing("-rw-r--r-- 1 u g 10 Jan 1 12:00 a\n-rw-r--r-- 1 u g 3 Jan 1 12:00 b\n");
    let dst = FileList::from_listing("-rw-r--r-- 1 u g 10 Jan 1 12:00 a\n-rw-r--r-- 1 u g 4 Jan 1 12:00 b\n");
    let plan = build_transfer_plan(&src, &dst, false).unwrap();
    assert_eq!(
        ops(&plan),
        vec![
            (TransferKind::Update, "b".to_string(), 3, Reason::SizeMismatch),
            (TransferKind::Skip, "a".to_string(), 0, Reason::IdenticalBySizeAndTime),
        ]
    );
}

#[test]
fn walk_entries() {
    let segs = vec!["foo".to_string(), "bar".to_string(), "deep.txt".to_string()];
    let f = FileMeta::from_walk_entry(&segs, false, false, true, 4, Some(7));
    assert_eq!(f.path, "foo/bar/deep.txt");
    assert_eq!((f.size, f.kind, f.modified_time), (4, FileKind::RegularFile, Some(7)));
    let d = FileMeta::from_walk_entry(&segs[..2].to_vec(), false, true, false, 4096, None);
    assert_eq!((d.path.as_str(), d.size, d.kind), ("foo/bar", 0, FileKind::Directory));
    let l = FileMeta::from_walk_entry(&vec!["ln".to_string()], true, false, false, 9, None);
    assert_eq!((l.path.as_str(), l.size, l.kind), ("ln", 9, FileKind::Symlink));
    let o = FileMeta::from_walk_entry(&vec!["fifo".to_string()], false, false, false, 0, None);
    assert_eq!(o.kind, FileKind::Other);
}
