use workspace_engine::errors::FsError;
use workspace_engine::path::{normalize, CasePolicy, FsPath};
use workspace_engine::session::WorkspaceSession;

fn p(raw: &str) -> FsPath {
    normalize(raw).unwrap()
}

#[test]
fn recent_capped_deduplicated_most_recent_first() {
    // recordOpened(/ws) five times with two other distinct paths
    // interleaved, capacity three
    let mut s = WorkspaceSession::new(CasePolicy::Sensitive, 3);
    s.record_opened(&p("/ws"), 1);
    s.record_opened(&p("/other1"), 2);
    s.record_opened(&p("/ws"), 3);
    s.record_opened(&p("/ws"), 4);
    s.record_opened(&p("/other2"), 5);
    s.record_opened(&p("/ws"), 6);
    s.record_opened(&p("/ws"), 7);
    let recent = s.list_recent();
    assert_eq!(recent.len(), 3);
    // most recent first
    assert_eq!(recent[0].path.segs, vec![b"ws".to_vec()]);
    assert_eq!(recent[0].last_opened, 7);
    assert_eq!(recent[1].path.segs, vec![b"other2".to_vec()]);
    assert_eq!(recent[2].path.segs, vec![b"other1".to_vec()]);
    // /ws present exactly once
    let ws_count = recent
        .iter()
        .filter(|r| r.path.segs == vec![b"ws".to_vec()])
        .count();
    assert_eq!(ws_count, 1);
}

#[test]
fn recent_evicts_oldest() {
    let mut s = WorkspaceSession::new(CasePolicy::Sensitive, 2);
    s.record_opened(&p("/a"), 1);
    s.record_opened(&p("/b"), 2);
    s.record_opened(&p("/c"), 3);
    let recent = s.list_recent();
    assert_eq!(recent.len(), 2);
    assert_eq!(recent[0].path.segs, vec![b"c".to_vec()]);
    assert_eq!(recent[1].path.segs, vec![b"b".to_vec()]);
}

#[test]
fn recent_dedup_respects_case_policy() {
    let mut s = WorkspaceSession::new(CasePolicy::Insensitive, 5);
    s.record_opened(&p("/Work"), 1);
    s.record_opened(&p("/work"), 2);
    assert_eq!(s.list_recent().len(), 1);
    assert_eq!(s.list_recent()[0].last_opened, 2);
}

#[test]
fn clear_recent_empties() {
    let mut s = WorkspaceSession::new(CasePolicy::Sensitive, 3);
    s.record_opened(&p("/a"), 1);
    s.clear_recent();
    assert_eq!(s.list_recent().len(), 0);
}

#[test]
fn bookmarks_crud() {
    let mut s = WorkspaceSession::new(CasePolicy::Sensitive, 3);
    let id1 = s.add_bookmark(&p("/a"), b"first".to_vec());
    let id2 = s.add_bookmark(&p("/b"), b"second".to_vec());
    assert_ne!(id1, id2);
    assert_eq!(s.list_bookmarks().len(), 2);

    s.edit_bookmark(id1, &p("/a2"), b"renamed".to_vec()).unwrap();
    assert_eq!(s.list_bookmarks()[0].label, b"renamed".to_vec());
    assert_eq!(s.list_bookmarks()[0].path.segs, vec![b"a2".to_vec()]);
    assert_eq!(s.list_bookmarks()[0].id, id1);

    assert_eq!(
        s.edit_bookmark(999, &p("/x"), b"x".to_vec()),
        Err(FsError::NotFound)
    );
    assert_eq!(s.remove_bookmark(999), Err(FsError::NotFound));

    s.remove_bookmark(id1).unwrap();
    assert_eq!(s.list_bookmarks().len(), 1);
    assert_eq!(s.list_bookmarks()[0].id, id2);

    // ids are never reused
    let id3 = s.add_bookmark(&p("/c"), b"third".to_vec());
    assert_ne!(id3, id1);
    assert_ne!(id3, id2);
}
