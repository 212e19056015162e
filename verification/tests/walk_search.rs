use workspace_engine::errors::FsError;
use workspace_engine::path::{normalize, CasePolicy, FsPath};
use workspace_engine::search::{search, SearchQuery};
use workspace_engine::store::WriteMode;
use workspace_engine::tree::{FsNode, FsTree};
use workspace_engine::walk::{walk, walk_limited, EntryKind, WalkOptions};

fn p(raw: &str) -> FsPath {
    normalize(raw).unwrap()
}

/// The workspace of the walk and search scenarios: `/ws/a.txt` with
/// "hello", `/ws/sub/b.txt` with "hello world", `/ws/sub/.git/ignored.txt`.
fn scenario_tree() -> FsTree {
    let mut t = FsTree::new(CasePolicy::Sensitive, false);
    t.create_folder(&p("/ws"), false).unwrap();
    t.write_content(&p("/ws/a.txt"), b"hello".to_vec(), WriteMode::CreateNew)
        .unwrap();
    t.create_folder(&p("/ws/sub"), false).unwrap();
    t.write_content(&p("/ws/sub/b.txt"), b"hello world".to_vec(), WriteMode::CreateNew)
        .unwrap();
    t.create_folder(&p("/ws/sub/.git"), false).unwrap();
    t.write_content(
        &p("/ws/sub/.git/ignored.txt"),
        b"nothing".to_vec(),
        WriteMode::CreateNew,
    )
    .unwrap();
    t
}

fn no_ignore() -> WalkOptions {
    WalkOptions { max_depth: None, follow_symlinks: false, ignore: vec![] }
}

fn path_strings(entries: &[workspace_engine::walk::FileEntry]) -> Vec<Vec<Vec<u8>>> {
    entries.iter().map(|e| e.path.segs.clone()).collect()
}

#[test]
fn walk_prunes_ignored_directories() {
    let t = scenario_tree();
    let opts = WalkOptions {
        max_depth: None,
        follow_symlinks: false,
        ignore: vec![b".git".to_vec()],
    };
    let entries = walk(&t, &p("/ws"), &opts).unwrap();
    assert_eq!(
        path_strings(&entries),
        vec![
            vec![b"ws".to_vec(), b"a.txt".to_vec()],
            vec![b"ws".to_vec(), b"sub".to_vec()],
            vec![b"ws".to_vec(), b"sub".to_vec(), b"b.txt".to_vec()],
        ]
    );
    assert_eq!(entries[0].kind, EntryKind::File);
    assert_eq!(entries[0].size, Some(5));
    assert_eq!(entries[1].kind, EntryKind::Directory);
}

#[test]
fn walk_missing_root_fails() {
    let t = scenario_tree();
    assert!(matches!(walk(&t, &p("/nope"), &no_ignore()), Err(FsError::NotFound)));
    assert!(matches!(
        walk(&t, &p("/ws/a.txt"), &no_ignore()),
        Err(FsError::NotFound)
    ));
}

#[test]
fn walk_glob_patterns() {
    let t = scenario_tree();
    let opts = WalkOptions {
        max_depth: None,
        follow_symlinks: false,
        ignore: vec![b"*.txt".to_vec()],
    };
    let entries = walk(&t, &p("/ws"), &opts).unwrap();
    // every .txt file pruned, directories kept
    assert_eq!(
        path_strings(&entries),
        vec![
            vec![b"ws".to_vec(), b"sub".to_vec()],
            vec![b"ws".to_vec(), b"sub".to_vec(), b".git".to_vec()],
        ]
    );
}

#[test]
fn walk_max_depth() {
    let t = scenario_tree();
    let opts = WalkOptions { max_depth: Some(1), follow_symlinks: false, ignore: vec![] };
    let entries = walk(&t, &p("/ws"), &opts).unwrap();
    assert_eq!(
        path_strings(&entries),
        vec![
            vec![b"ws".to_vec(), b"a.txt".to_vec()],
            vec![b"ws".to_vec(), b"sub".to_vec()],
        ]
    );
}

#[test]
fn walk_cancellation_is_a_prefix() {
    let t = scenario_tree();
    let full = walk(&t, &p("/ws"), &no_ignore()).unwrap();
    for k in 0..=full.len() {
        let cut = walk_limited(&t, &p("/ws"), &no_ignore(), k).unwrap();
        assert_eq!(path_strings(&cut), path_strings(&full[..k.min(full.len())]));
    }
    // a read-only operation: the tree answers exactly as before
    assert_eq!(t.read_content(&p("/ws/a.txt")).unwrap(), b"hello".to_vec());
}

#[test]
fn symlink_cycle_marker() {
    // /d/loop -> /d : expanding it would walk in circles
    let t = FsTree {
        root: FsNode::Dir {
            entries: vec![(
                b"d".to_vec(),
                FsNode::Dir {
                    entries: vec![(b"loop".to_vec(), FsNode::Symlink { target: p("/d") })],
                },
            )],
        },
        policy: CasePolicy::Sensitive,
        trash_supported: false,
        trash: vec![],
    };
    let follow = WalkOptions { max_depth: None, follow_symlinks: true, ignore: vec![] };
    let entries = walk(&t, &p("/d"), &follow).unwrap();
    assert_eq!(entries.len(), 1);
    assert_eq!(entries[0].kind, EntryKind::CycleDetected);
    // without following, the same entry is an ordinary symlink
    let plain = walk(&t, &p("/d"), &no_ignore()).unwrap();
    assert_eq!(plain[0].kind, EntryKind::Symlink);
}

fn content_query(root: &str, pat: &[u8], max: u32) -> SearchQuery {
    SearchQuery {
        root: p(root),
        name_pattern: None,
        content_pattern: Some(pat.to_vec()),
        case_sensitive: true,
        max_results: max,
    }
}

#[test]
fn search_requires_a_pattern() {
    let t = scenario_tree();
    let q = SearchQuery {
        root: p("/ws"),
        name_pattern: None,
        content_pattern: None,
        case_sensitive: true,
        max_results: 10,
    };
    assert!(matches!(search(&t, &q), Err(FsError::EmptyQuery)));
}

#[test]
fn search_missing_root() {
    let t = scenario_tree();
    assert!(matches!(
        search(&t, &content_query("/nope", b"hello", 10)),
        Err(FsError::NotFound)
    ));
}

#[test]
fn search_short_circuits_to_shallowest_match() {
    let t = scenario_tree();
    let r = search(&t, &content_query("/ws", b"hello", 1)).unwrap();
    assert_eq!(r.len(), 1);
    assert_eq!(r[0].entry.path.segs, vec![b"ws".to_vec(), b"a.txt".to_vec()]);
    assert_eq!(r[0].matched_ranges, vec![(0, 5)]);
}

#[test]
fn search_finds_all_content_matches_in_order() {
    let t = scenario_tree();
    let r = search(&t, &content_query("/ws", b"hello", 10)).unwrap();
    assert_eq!(r.len(), 2);
    assert_eq!(r[0].entry.path.segs, vec![b"ws".to_vec(), b"a.txt".to_vec()]);
    assert_eq!(
        r[1].entry.path.segs,
        vec![b"ws".to_vec(), b"sub".to_vec(), b"b.txt".to_vec()]
    );
}

#[test]
fn search_is_idempotent() {
    let t = scenario_tree();
    let q = content_query("/ws", b"hello", 10);
    let r1 = search(&t, &q).unwrap();
    let r2 = search(&t, &q).unwrap();
    assert_eq!(r1.len(), r2.len());
    for (a, b) in r1.iter().zip(r2.iter()) {
        assert_eq!(a.entry.path.segs, b.entry.path.segs);
        assert_eq!(a.matched_ranges, b.matched_ranges);
    }
}

#[test]
fn search_orders_exact_name_first() {
    let mut t = FsTree::new(CasePolicy::Sensitive, false);
    t.create_folder(&p("/r"), false).unwrap();
    t.write_content(&p("/r/note"), b"x".to_vec(), WriteMode::CreateNew)
        .unwrap();
    t.write_content(&p("/r/note.bak"), b"note".to_vec(), WriteMode::CreateNew)
        .unwrap();
    t.write_content(&p("/r/mynote"), b"y".to_vec(), WriteMode::CreateNew)
        .unwrap();
    let q = SearchQuery {
        root: p("/r"),
        name_pattern: Some(b"note".to_vec()),
        content_pattern: Some(b"note".to_vec()),
        case_sensitive: true,
        max_results: 10,
    };
    let r = search(&t, &q).unwrap();
    // exact name first, then the substring name matches in path order
    assert_eq!(r[0].entry.path.segs, vec![b"r".to_vec(), b"note".to_vec()]);
    assert_eq!(r[1].entry.path.segs, vec![b"r".to_vec(), b"mynote".to_vec()]);
    assert_eq!(r[2].entry.path.segs, vec![b"r".to_vec(), b"note.bak".to_vec()]);
    // the name-only hits carry no ranges; the content hit does
    assert!(r[0].matched_ranges.is_empty());
    assert!(r[1].matched_ranges.is_empty());
    assert_eq!(r[2].matched_ranges, vec![(0, 4)]);
}

#[test]
fn search_case_insensitive() {
    let mut t = FsTree::new(CasePolicy::Sensitive, false);
    t.create_folder(&p("/r"), false).unwrap();
    t.write_content(&p("/r/Readme"), b"Hello World".to_vec(), WriteMode::CreateNew)
        .unwrap();
    let q = SearchQuery {
        root: p("/r"),
        name_pattern: None,
        content_pattern: Some(b"hello".to_vec()),
        case_sensitive: false,
        max_results: 10,
    };
    assert_eq!(search(&t, &q).unwrap().len(), 1);
    let qs = SearchQuery {
        root: p("/r"),
        name_pattern: None,
        content_pattern: Some(b"hello".to_vec()),
        case_sensitive: true,
        max_results: 10,
    };
    assert_eq!(search(&t, &qs).unwrap().len(), 0);
}

#[test]
fn search_skips_binary_files_for_content() {
    let mut t = FsTree::new(CasePolicy::Sensitive, false);
    t.create_folder(&p("/r"), false).unwrap();
    t.write_content(
        &p("/r/bin"),
        vec![b'h', b'i', 0u8, b'h', b'i'],
        WriteMode::CreateNew,
    )
    .unwrap();
    let q = content_query("/r", b"hi", 10);
    // a file that does not decode as text is skipped, not an error
    assert_eq!(search(&t, &q).unwrap().len(), 0);
    // but it stays eligible for name matching
    let qn = SearchQuery {
        root: p("/r"),
        name_pattern: Some(b"bin".to_vec()),
        content_pattern: None,
        case_sensitive: true,
        max_results: 10,
    };
    assert_eq!(search(&t, &qn).unwrap().len(), 1);
}
