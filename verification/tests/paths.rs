use workspace_engine::errors::FsError;
use workspace_engine::path::{normalize, join, CasePolicy, FsPath, check_segment};

fn p(raw: &str) -> FsPath {
    normalize(raw).unwrap()
}

fn segs(p: &FsPath) -> Vec<Vec<u8>> {
    p.segs.clone()
}

#[test]
fn normalize_plain() {
    let q = p("/ws/a.txt");
    assert_eq!(segs(&q), vec![b"ws".to_vec(), b"a.txt".to_vec()]);
}

#[test]
fn normalize_collapses_separators() {
    let q = p("//ws///sub\\b.txt");
    assert_eq!(segs(&q), vec![b"ws".to_vec(), b"sub".to_vec(), b"b.txt".to_vec()]);
}

#[test]
fn normalize_resolves_dots() {
    let q = p("/ws/./sub/../other/x");
    assert_eq!(segs(&q), vec![b"ws".to_vec(), b"other".to_vec(), b"x".to_vec()]);
}

#[test]
fn normalize_clamps_parent_at_root() {
    let q = p("/../ws");
    assert_eq!(segs(&q), vec![b"ws".to_vec()]);
}

#[test]
fn normalize_rejects_empty() {
    assert_eq!(normalize(""), Err(FsError::InvalidPath));
}

#[test]
fn normalize_rejects_relative() {
    assert_eq!(normalize("ws/a.txt"), Err(FsError::InvalidPath));
}

#[test]
fn normalize_rejects_nul() {
    assert_eq!(normalize("/ws/a\u{0}b"), Err(FsError::InvalidPath));
}

#[test]
fn normalize_rejects_empty_result() {
    assert_eq!(normalize("/"), Err(FsError::InvalidPath));
    assert_eq!(normalize("/ws/.."), Err(FsError::InvalidPath));
}

#[test]
fn join_fragments() {
    let base = p("/ws");
    let q = join(&base, &vec!["sub/inner".to_string(), "b.txt".to_string()]).unwrap();
    assert_eq!(
        segs(&q),
        vec![b"ws".to_vec(), b"sub".to_vec(), b"inner".to_vec(), b"b.txt".to_vec()]
    );
}

#[test]
fn join_resolves_parent_into_base() {
    let base = p("/ws/sub");
    let q = join(&base, &vec!["../a.txt".to_string()]).unwrap();
    assert_eq!(segs(&q), vec![b"ws".to_vec(), b"a.txt".to_vec()]);
}

#[test]
fn join_rejects_nul() {
    let base = p("/ws");
    assert!(join(&base, &vec!["a\u{0}".to_string()]).is_err());
}

#[test]
fn join_rejects_empty_result() {
    let base = p("/ws");
    assert_eq!(
        join(&base, &vec!["../..".to_string()]),
        Err(FsError::InvalidPath)
    );
}

#[test]
fn join_is_pure() {
    let base = p("/ws");
    let before = segs(&base);
    let _ = join(&base, &vec!["x".to_string()]);
    assert_eq!(segs(&base), before);
}

#[test]
fn segment_check() {
    assert!(check_segment("name.txt").is_some());
    assert!(check_segment("").is_none());
    assert!(check_segment(".").is_none());
    assert!(check_segment("..").is_none());
    assert!(check_segment("a/b").is_none());
}

#[test]
fn parent_and_depth() {
    let q = p("/ws/sub/b.txt");
    assert_eq!(q.depth(), 3);
    let par = q.parent();
    assert_eq!(segs(&par), vec![b"ws".to_vec(), b"sub".to_vec()]);
    let root = p("/ws").parent().parent();
    assert_eq!(root.depth(), 0);
}

#[test]
fn case_policy_is_explicit_configuration() {
    // the same pair of paths is equal or not depending on the configured
    // policy, never on the host
    let a = p("/WS/File");
    let b = p("/ws/file");
    assert!(workspace_engine::session::path_eq(
        CasePolicy::Insensitive,
        &a,
        &b
    ));
    assert!(!workspace_engine::session::path_eq(
        CasePolicy::Sensitive,
        &a,
        &b
    ));
}

#[test]
fn home_context_builds_default_paths() {
    let home = p("/home/user");
    let ctx = workspace_engine::context::EngineContext::new(home, CasePolicy::Sensitive, true);
    let q = ctx
        .home_path(&vec![".config".to_string(), "workspace.json".to_string()])
        .unwrap();
    assert_eq!(
        q.segs,
        vec![
            b"home".to_vec(),
            b"user".to_vec(),
            b".config".to_vec(),
            b"workspace.json".to_vec()
        ]
    );
}
