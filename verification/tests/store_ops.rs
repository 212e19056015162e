use workspace_engine::errors::FsError;
use workspace_engine::path::{normalize, CasePolicy, FsPath};
use workspace_engine::store::WriteMode;
use workspace_engine::tree::{file_exists, FsNode, FsTree};

fn p(raw: &str) -> FsPath {
    normalize(raw).unwrap()
}

fn fresh() -> FsTree {
    FsTree::new(CasePolicy::Sensitive, true)
}

#[test]
fn write_then_exists_and_read_back() {
    let mut t = fresh();
    t.create_folder(&p("/ws"), false).unwrap();
    t.write_content(&p("/ws/a.txt"), b"hello".to_vec(), WriteMode::CreateNew)
        .unwrap();
    assert!(file_exists(&t, &p("/ws/a.txt")));
    assert_eq!(t.read_content(&p("/ws/a.txt")).unwrap(), b"hello".to_vec());
}

#[test]
fn create_new_refuses_existing() {
    let mut t = fresh();
    t.create_folder(&p("/ws"), false).unwrap();
    t.write_content(&p("/ws/a"), b"1".to_vec(), WriteMode::CreateNew)
        .unwrap();
    assert_eq!(
        t.write_content(&p("/ws/a"), b"2".to_vec(), WriteMode::CreateNew),
        Err(FsError::AlreadyExists)
    );
    assert_eq!(t.read_content(&p("/ws/a")).unwrap(), b"1".to_vec());
}

#[test]
fn overwrite_replaces_content() {
    let mut t = fresh();
    t.create_folder(&p("/ws"), false).unwrap();
    t.write_content(&p("/ws/a"), b"1".to_vec(), WriteMode::CreateNew)
        .unwrap();
    t.write_content(&p("/ws/a"), b"22".to_vec(), WriteMode::Overwrite)
        .unwrap();
    assert_eq!(t.read_content(&p("/ws/a")).unwrap(), b"22".to_vec());
}

#[test]
fn write_needs_existing_parent() {
    let mut t = fresh();
    assert_eq!(
        t.write_content(&p("/missing/a"), b"x".to_vec(), WriteMode::CreateNew),
        Err(FsError::NotFound)
    );
}

#[test]
fn read_missing_and_directory() {
    let mut t = fresh();
    t.create_folder(&p("/d"), false).unwrap();
    assert_eq!(t.read_content(&p("/nope")), Err(FsError::NotFound));
    assert_eq!(t.read_content(&p("/d")), Err(FsError::IsADirectory));
}

#[test]
fn read_unreadable_is_permission_denied() {
    let t = FsTree {
        root: FsNode::Dir {
            entries: vec![(
                b"locked".to_vec(),
                FsNode::File {
                    content: b"secret".to_vec(),
                    readable: false,
                },
            )],
        },
        policy: CasePolicy::Sensitive,
        trash_supported: false,
        trash: vec![],
    };
    assert_eq!(t.read_content(&p("/locked")), Err(FsError::PermissionDenied));
    // still visible to a presence check
    assert!(file_exists(&t, &p("/locked")));
}

#[test]
fn create_folder_cases() {
    let mut t = fresh();
    t.create_folder(&p("/d"), false).unwrap();
    // a directory already there is left as it is
    t.create_folder(&p("/d"), false).unwrap();
    t.write_content(&p("/d/f"), b"x".to_vec(), WriteMode::CreateNew)
        .unwrap();
    // a non-directory occupying the path conflicts
    assert_eq!(t.create_folder(&p("/d/f"), false), Err(FsError::AlreadyExists));
    // no implicit recursive creation by default
    assert_eq!(t.create_folder(&p("/x/y/z"), false), Err(FsError::NotFound));
    // explicit intermediate creation
    t.create_folder(&p("/x/y/z"), true).unwrap();
    assert!(file_exists(&t, &p("/x/y")));
    assert!(file_exists(&t, &p("/x/y/z")));
}

#[test]
fn delete_file_cases() {
    let mut t = fresh();
    t.create_folder(&p("/d"), false).unwrap();
    t.write_content(&p("/d/f"), b"x".to_vec(), WriteMode::CreateNew)
        .unwrap();
    assert_eq!(t.delete_file(&p("/d")), Err(FsError::IsADirectory));
    assert_eq!(t.delete_file(&p("/d/nope")), Err(FsError::NotFound));
    t.delete_file(&p("/d/f")).unwrap();
    assert!(!file_exists(&t, &p("/d/f")));
}

#[test]
fn delete_folder_safety_gate() {
    let mut t = fresh();
    t.create_folder(&p("/d"), false).unwrap();
    t.write_content(&p("/d/f"), b"x".to_vec(), WriteMode::CreateNew)
        .unwrap();
    // non-recursive delete of a non-empty directory fails and changes nothing
    assert_eq!(t.delete_folder(&p("/d"), false), Err(FsError::NotEmpty));
    assert!(file_exists(&t, &p("/d")));
    assert!(file_exists(&t, &p("/d/f")));
    assert_eq!(t.read_content(&p("/d/f")).unwrap(), b"x".to_vec());
    // recursive delete takes the subtree
    t.delete_folder(&p("/d"), true).unwrap();
    assert!(!file_exists(&t, &p("/d")));
    assert!(!file_exists(&t, &p("/d/f")));
}

#[test]
fn rename_cases() {
    let mut t = fresh();
    t.create_folder(&p("/d"), false).unwrap();
    t.write_content(&p("/d/a"), b"1".to_vec(), WriteMode::CreateNew)
        .unwrap();
    t.write_content(&p("/d/b"), b"2".to_vec(), WriteMode::CreateNew)
        .unwrap();
    // occupied destination: both files untouched
    assert_eq!(t.rename_fs(&p("/d/a"), "b"), Err(FsError::AlreadyExists));
    assert_eq!(t.read_content(&p("/d/a")).unwrap(), b"1".to_vec());
    assert_eq!(t.read_content(&p("/d/b")).unwrap(), b"2".to_vec());
    // illegal name
    assert_eq!(t.rename_fs(&p("/d/a"), "x/y"), Err(FsError::InvalidPath));
    // success returns the new path
    let q = t.rename_fs(&p("/d/a"), "c").unwrap();
    assert_eq!(q.segs, vec![b"d".to_vec(), b"c".to_vec()]);
    assert!(!file_exists(&t, &p("/d/a")));
    assert_eq!(t.read_content(&p("/d/c")).unwrap(), b"1".to_vec());
}

#[test]
fn rename_directory_keeps_subtree() {
    let mut t = fresh();
    t.create_folder(&p("/d"), false).unwrap();
    t.create_folder(&p("/d/sub"), false).unwrap();
    t.write_content(&p("/d/sub/f"), b"x".to_vec(), WriteMode::CreateNew)
        .unwrap();
    t.rename_fs(&p("/d/sub"), "moved").unwrap();
    assert_eq!(t.read_content(&p("/d/moved/f")).unwrap(), b"x".to_vec());
    assert!(!file_exists(&t, &p("/d/sub/f")));
}

#[test]
fn copy_preserves_bytes() {
    let mut t = fresh();
    t.create_folder(&p("/d"), false).unwrap();
    t.write_content(&p("/d/a"), b"payload".to_vec(), WriteMode::CreateNew)
        .unwrap();
    t.copy_file(&p("/d/a"), &p("/d/b"), false).unwrap();
    assert_eq!(t.read_content(&p("/d/b")).unwrap(), b"payload".to_vec());
    assert_eq!(t.read_content(&p("/d/a")).unwrap(), b"payload".to_vec());
    // no overwrite unless asked
    assert_eq!(
        t.copy_file(&p("/d/a"), &p("/d/b"), false),
        Err(FsError::AlreadyExists)
    );
    t.write_content(&p("/d/b"), b"other".to_vec(), WriteMode::Overwrite)
        .unwrap();
    t.copy_file(&p("/d/a"), &p("/d/b"), true).unwrap();
    assert_eq!(t.read_content(&p("/d/b")).unwrap(), b"payload".to_vec());
}

#[test]
fn trash_delete_cases() {
    let mut no_trash = FsTree::new(CasePolicy::Sensitive, false);
    no_trash.create_folder(&p("/d"), false).unwrap();
    assert_eq!(
        no_trash.trash_delete(&p("/d")),
        Err(FsError::UnsupportedPlatform)
    );
    assert!(file_exists(&no_trash, &p("/d")));

    let mut t = fresh();
    t.create_folder(&p("/d"), false).unwrap();
    t.write_content(&p("/d/f"), b"x".to_vec(), WriteMode::CreateNew)
        .unwrap();
    t.trash_delete(&p("/d")).unwrap();
    assert!(!file_exists(&t, &p("/d")));
    assert_eq!(t.trash.len(), 1);
    assert_eq!(t.trash[0].0, b"d".to_vec());
    assert_eq!(t.trash_delete(&p("/nope")), Err(FsError::NotFound));
}

#[test]
fn move_files_best_effort() {
    let mut t = fresh();
    t.create_folder(&p("/src"), false).unwrap();
    t.create_folder(&p("/dst"), false).unwrap();
    t.write_content(&p("/src/a"), b"1".to_vec(), WriteMode::CreateNew)
        .unwrap();
    t.write_content(&p("/src/b"), b"2".to_vec(), WriteMode::CreateNew)
        .unwrap();
    t.write_content(&p("/dst/b"), b"old".to_vec(), WriteMode::CreateNew)
        .unwrap();
    let outcomes = t.move_files_to_folder(
        &vec![p("/src/a"), p("/src/b"), p("/src/missing")],
        &p("/dst"),
    );
    // one bad path does not abort the batch: per-item outcomes
    assert_eq!(outcomes.len(), 3);
    assert_eq!(outcomes[0], Ok(()));
    assert_eq!(outcomes[1], Err(FsError::AlreadyExists));
    assert_eq!(outcomes[2], Err(FsError::NotFound));
    assert_eq!(t.read_content(&p("/dst/a")).unwrap(), b"1".to_vec());
    // the conflicting one stayed put, untouched
    assert_eq!(t.read_content(&p("/src/b")).unwrap(), b"2".to_vec());
    assert_eq!(t.read_content(&p("/dst/b")).unwrap(), b"old".to_vec());
}

#[test]
fn move_into_own_subtree_is_rejected() {
    let mut t = fresh();
    t.create_folder(&p("/d"), false).unwrap();
    t.create_folder(&p("/d/sub"), false).unwrap();
    assert_eq!(t.move_one(&p("/d"), &p("/d/sub")), Err(FsError::InvalidPath));
    assert!(file_exists(&t, &p("/d/sub")));
}

#[test]
fn case_insensitive_tree_folds_names() {
    let mut t = FsTree::new(CasePolicy::Insensitive, false);
    t.create_folder(&p("/Docs"), false).unwrap();
    t.write_content(&p("/docs/Note.md"), b"n".to_vec(), WriteMode::CreateNew)
        .unwrap();
    assert!(file_exists(&t, &p("/DOCS/NOTE.MD")));
    assert_eq!(
        t.write_content(&p("/docs/note.md"), b"m".to_vec(), WriteMode::CreateNew),
        Err(FsError::AlreadyExists)
    );
}

#[test]
fn export_html_writes_text() {
    let mut t = fresh();
    t.create_folder(&p("/out"), false).unwrap();
    workspace_engine::export::export_html(&mut t, "<p>hi</p>", &p("/out/doc.html"), false)
        .unwrap();
    assert_eq!(
        t.read_content(&p("/out/doc.html")).unwrap(),
        b"<p>hi</p>".to_vec()
    );
    // create-new unless an explicit overwrite flag is supplied
    assert_eq!(
        workspace_engine::export::export_html(&mut t, "<p>x</p>", &p("/out/doc.html"), false),
        Err(FsError::AlreadyExists)
    );
    workspace_engine::export::export_html(&mut t, "<p>x</p>", &p("/out/doc.html"), true).unwrap();
    assert_eq!(
        t.read_content(&p("/out/doc.html")).unwrap(),
        b"<p>x</p>".to_vec()
    );
}
