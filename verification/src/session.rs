use vstd::prelude::*;

verus! {

use crate::errors::FsError;
use crate::path::{CasePolicy, FsPath, fold_seg, seg_eq};

/// One recently opened workspace root.
pub struct WorkspaceRecord {
    pub path: FsPath,
    pub last_opened: u64,
}

/// The mathematical value of a recent-workspace record.
#[verifier::ext_equal]
pub struct RecordView {
    pub path: Seq<Seq<u8>>,
    pub last_opened: u64,
}

impl View for WorkspaceRecord {
    type V = RecordView;

    open spec fn view(&self) -> RecordView {
        RecordView { path: self.path@, last_opened: self.last_opened }
    }
}

pub open spec fn recs_view(s: Seq<WorkspaceRecord>) -> Seq<RecordView> {
    s.map_values(|r: WorkspaceRecord| r@)
}

/// One user-created bookmark.
pub struct BookmarkRecord {
    pub id: u64,
    pub path: FsPath,
    pub label: Vec<u8>,
}

/// The mathematical value of a bookmark.
#[verifier::ext_equal]
pub struct BookmarkView {
    pub id: u64,
    pub path: Seq<Seq<u8>>,
    pub label: Seq<u8>,
}

impl View for BookmarkRecord {
    type V = BookmarkView;

    open spec fn view(&self) -> BookmarkView {
        BookmarkView { id: self.id, path: self.path@, label: self.label@ }
    }
}

pub open spec fn bms_view(s: Seq<BookmarkRecord>) -> Seq<BookmarkView> {
    s.map_values(|b: BookmarkRecord| b@)
}

/// Two paths address the same place under `policy`.
pub open spec fn paths_fold_eq(policy: CasePolicy, a: Seq<Seq<u8>>, b: Seq<Seq<u8>>) -> bool {
    a.len() == b.len() && forall|i: int|
        0 <= i < a.len() ==> fold_seg(policy, #[trigger] a[i]) == fold_seg(policy, b[i])
}

/// Exec mirror of `paths_fold_eq`.
pub fn path_eq(policy: CasePolicy, a: &FsPath, b: &FsPath) -> (r: bool)
    ensures
        r == paths_fold_eq(policy, a@, b@),
{
    let n: usize = a.depth();
    if n != b.depth() {
        return false;
    }
    let mut i: usize = 0;
    while i < n
        invariant
            n == a@.len() && n == b@.len(),
            0 <= i <= n,
            forall|j: int|
                0 <= j < i ==> fold_seg(policy, #[trigger] a@[j]) == fold_seg(policy, b@[j]),
        decreases n - i,
    {
        if !seg_eq(policy, a.seg_at(i), b.seg_at(i)) {
            return false;
        }
        i += 1;
    }
    true
}

/// The records of `rs` whose path does not fold-equal `p`, in order.
pub open spec fn drop_path(policy: CasePolicy, rs: Seq<RecordView>, p: Seq<Seq<u8>>) -> Seq<
    RecordView,
>
    decreases rs.len(),
{
    if rs.len() == 0 {
        rs
    } else {
        drop_path(policy, rs.drop_last(), p) + (if paths_fold_eq(policy, rs.last().path, p) {
            Seq::<RecordView>::empty()
        } else {
            seq![rs.last()]
        })
    }
}

/// What `record_opened` computes: the new record in front, any earlier
/// record of the same place gone, the oldest beyond `cap` evicted.
pub open spec fn spec_record_opened(
    policy: CasePolicy,
    rs: Seq<RecordView>,
    p: Seq<Seq<u8>>,
    now: u64,
    cap: int,
) -> Seq<RecordView> {
    let l = seq![RecordView { path: p, last_opened: now }] + drop_path(policy, rs, p);
    if cap <= l.len() {
        l.take(cap)
    } else {
        l
    }
}

/// The bookmark list with the bookmark carrying `id` given a new path and
/// label; `None` when no bookmark carries `id`.
pub open spec fn spec_bm_edit(
    bs: Seq<BookmarkView>,
    id: u64,
    path: Seq<Seq<u8>>,
    label: Seq<u8>,
) -> Option<Seq<BookmarkView>>
    decreases bs.len(),
{
    if bs.len() == 0 {
        None
    } else if bs[0].id == id {
        Some(bs.update(0, BookmarkView { id, path, label }))
    } else {
        match spec_bm_edit(bs.drop_first(), id, path, label) {
            Some(rest) => Some(seq![bs[0]] + rest),
            None => None,
        }
    }
}

/// The bookmark list without the bookmark carrying `id`; `None` when no
/// bookmark carries `id`.
pub open spec fn spec_bm_remove(bs: Seq<BookmarkView>, id: u64) -> Option<Seq<BookmarkView>>
    decreases bs.len(),
{
    if bs.len() == 0 {
        None
    } else if bs[0].id == id {
        Some(bs.drop_first())
    } else {
        match spec_bm_remove(bs.drop_first(), id) {
            Some(rest) => Some(seq![bs[0]] + rest),
            None => None,
        }
    }
}

/// In-memory session state: the recently opened workspace roots (most
/// recent first, one record per place, capped) and the bookmarks (unique
/// ids handed out by the session).  Persistence is a collaborator's job:
/// this type owns only the ordering and uniqueness rules.
pub struct WorkspaceSession {
    pub policy: CasePolicy,
    pub capacity: usize,
    pub recent: Vec<WorkspaceRecord>,
    pub bookmarks: Vec<BookmarkRecord>,
    pub next_id: u64,
}

impl WorkspaceSession {
    /// The session's invariant: the recent list respects the capacity and
    /// holds at most one record per place; bookmark ids are unique and
    /// below the next id to hand out.
    pub open spec fn wf(&self) -> bool {
        &&& self.recent@.len() <= self.capacity
        &&& forall|i: int, j: int|
            0 <= i < j < self.recent@.len() ==> !paths_fold_eq(
                self.policy,
                (#[trigger] self.recent@[i])@.path,
                (#[trigger] self.recent@[j])@.path,
            )
        &&& forall|i: int|
            0 <= i < self.bookmarks@.len() ==> (#[trigger] self.bookmarks@[i])@.id < self.next_id
        &&& forall|i: int, j: int|
            0 <= i < j < self.bookmarks@.len() ==> (#[trigger] self.bookmarks@[i])@.id != (
            #[trigger] self.bookmarks@[j])@.id
    }

    /// A fresh session that remembers at most `capacity` workspaces.
    pub fn new(policy: CasePolicy, capacity: usize) -> (r: WorkspaceSession)
        ensures
            r.wf(),
            r.policy == policy,
            r.capacity == capacity,
            r.recent@.len() == 0,
            r.bookmarks@.len() == 0,
    {
        WorkspaceSession {
            policy,
            capacity,
            recent: Vec::new(),
            bookmarks: Vec::new(),
            next_id: 0,
        }
    }

    /// The recent workspaces, most recent first.
    pub fn list_recent(&self) -> (r: &Vec<WorkspaceRecord>)
        ensures
            r@ == self.recent@,
    {
        &self.recent
    }

    /// Forgets all recent workspaces.
    pub fn clear_recent(&mut self)
        requires
            old(self).wf(),
        ensures
            final(self).wf(),
            final(self).recent@.len() == 0,
            final(self).bookmarks@ == old(self).bookmarks@,
            final(self).policy == old(self).policy,
            final(self).capacity == old(self).capacity,
            final(self).next_id == old(self).next_id,
    {
        self.recent = Vec::new();
    }

    /// Notes that the workspace at `p` was opened at time `now`.
    ///
    /// The record moves to the front; an earlier record of the same place
    /// (under the session's case policy) is absorbed, so each place
    /// appears at most once; the oldest records beyond the capacity are
    /// evicted.
    pub fn record_opened(&mut self, p: &FsPath, now: u64)
        requires
            old(self).wf(),
            old(self).capacity > 0,
        ensures
            final(self).wf(),
            final(self).policy == old(self).policy,
            final(self).capacity == old(self).capacity,
            final(self).bookmarks@ == old(self).bookmarks@,
            final(self).next_id == old(self).next_id,
            recs_view(final(self).recent@) == spec_record_opened(
                old(self).policy,
                recs_view(old(self).recent@),
                p@,
                now,
                old(self).capacity as int,
            ),
            final(self).recent@.len() > 0,
            final(self).recent@[0]@ == (RecordView { path: p@, last_opened: now }),
    {
        let policy = self.policy;
        let ghost rs0 = recs_view(self.recent@);
        let mut out: Vec<WorkspaceRecord> = Vec::new();
        out.push(WorkspaceRecord { path: p.duplicate(), last_opened: now });
        proof {
            assert(recs_view(out@) =~= seq![RecordView { path: p@, last_opened: now }]
                + drop_path(policy, rs0.take(0), p@));
            assert(rs0.len() == self.recent@.len());
        }
        let n: usize = self.recent.len();
        let mut i: usize = 0;
        while i < n
            invariant
                n == self.recent@.len(),
                rs0 == recs_view(self.recent@),
                rs0.len() == n,
                policy == self.policy,
                0 <= i <= n,
                recs_view(out@) == seq![RecordView { path: p@, last_opened: now }] + drop_path(
                    policy,
                    rs0.take(i as int),
                    p@,
                ),
            decreases n - i,
        {
            proof {
                assert(rs0.take(i + 1).drop_last() =~= rs0.take(i as int));
                assert(rs0.take(i + 1).last() == rs0[i as int]);
                assert(rs0[i as int] == self.recent@[i as int]@);
            }
            let keep: bool = !path_eq(policy, &self.recent[i].path, p);
            if keep {
                let rec = WorkspaceRecord {
                    path: self.recent[i].path.duplicate(),
                    last_opened: self.recent[i].last_opened,
                };
                let ghost rv = rec@;
                out.push(rec);
                proof {
                    assert(recs_view(out@) =~= seq![RecordView { path: p@, last_opened: now }]
                        + drop_path(policy, rs0.take(i as int), p@) + seq![rv]);
                    assert(drop_path(policy, rs0.take(i + 1), p@) =~= drop_path(
                        policy,
                        rs0.take(i as int),
                        p@,
                    ) + seq![rs0[i as int]]);
                    assert(recs_view(out@) =~= seq![RecordView { path: p@, last_opened: now }]
                        + drop_path(policy, rs0.take(i + 1), p@));
                }
            } else {
                proof {
                    assert(drop_path(policy, rs0.take(i + 1), p@) =~= drop_path(
                        policy,
                        rs0.take(i as int),
                        p@,
                    ));
                }
            }
            i += 1;
        }
        proof {
            assert(rs0.take(n as int) =~= rs0);
        }
        let cap: usize = self.capacity;
        let ghost full = recs_view(out@);
        if cap < out.len() {
            out.truncate(cap);
            proof {
                assert(recs_view(out@) =~= full.take(cap as int));
            }
        }
        self.recent = out;
        proof {
            let rsv = recs_view(self.recent@);
            assert forall|a: int, b: int|
                0 <= a < b < rs0.len() implies !paths_fold_eq(
                policy,
                (#[trigger] rs0[a]).path,
                (#[trigger] rs0[b]).path,
            ) by {
                assert(rs0[a] == old(self).recent@[a]@);
                assert(rs0[b] == old(self).recent@[b]@);
            }
            lemma_drop_path_distinct(policy, rs0, p@);
            lemma_drop_path_not_p(policy, rs0, p@);
            assert forall|a: int, b: int|
                0 <= a < b < rsv.len() implies !paths_fold_eq(
                policy,
                (#[trigger] rsv[a]).path,
                (#[trigger] rsv[b]).path,
            ) by {
                let l = seq![RecordView { path: p@, last_opened: now }] + drop_path(
                    policy,
                    rs0,
                    p@,
                );
                assert(rsv[a] == l[a]);
                assert(rsv[b] == l[b]);
                if a == 0 {
                    assert(l[b] == drop_path(policy, rs0, p@)[b - 1]);
                    lemma_paths_fold_eq_sym(policy, l[a].path, l[b].path);
                } else {
                    assert(l[a] == drop_path(policy, rs0, p@)[a - 1]);
                    assert(l[b] == drop_path(policy, rs0, p@)[b - 1]);
                }
            }
            assert forall|a: int, b: int|
                0 <= a < b < self.recent@.len() implies !paths_fold_eq(
                policy,
                (#[trigger] self.recent@[a])@.path,
                (#[trigger] self.recent@[b])@.path,
            ) by {
                assert(rsv[a] == self.recent@[a]@);
                assert(rsv[b] == self.recent@[b]@);
            }
            assert(rsv.len() == self.recent@.len());
            assert(rsv.len() > 0);
            assert(recs_view(self.recent@)[0] == self.recent@[0]@);
            assert(rsv[0] == (RecordView { path: p@, last_opened: now }));
        }
    }

    /// The bookmarks, in creation order.
    pub fn list_bookmarks(&self) -> (r: &Vec<BookmarkRecord>)
        ensures
            r@ == self.bookmarks@,
    {
        &self.bookmarks
    }

    /// Creates a bookmark and returns its fresh unique id.
    pub fn add_bookmark(&mut self, p: &FsPath, label: Vec<u8>) -> (r: u64)
        requires
            old(self).wf(),
            old(self).next_id < u64::MAX,
        ensures
            final(self).wf(),
            final(self).policy == old(self).policy,
            final(self).capacity == old(self).capacity,
            final(self).recent@ == old(self).recent@,
            r == old(self).next_id,
            final(self).next_id == old(self).next_id + 1,
            bms_view(final(self).bookmarks@) == bms_view(old(self).bookmarks@).push(
                BookmarkView { id: r, path: p@, label: label@ },
            ),
    {
        let id: u64 = self.next_id;
        let ghost bs0 = bms_view(self.bookmarks@);
        let b = BookmarkRecord { id, path: p.duplicate(), label };
        let ghost bv = b@;
        self.bookmarks.push(b);
        self.next_id = id + 1;
        proof {
            assert(bms_view(self.bookmarks@) =~= bs0.push(bv));
        }
        id
    }

    /// Gives the bookmark carrying `id` a new path and label; fails with
    /// `NotFound` when no bookmark carries `id`.
    pub fn edit_bookmark(&mut self, id: u64, p: &FsPath, label: Vec<u8>) -> (r: Result<
        (),
        FsError,
    >)
        requires
            old(self).wf(),
        ensures
            final(self).wf(),
            final(self).policy == old(self).policy,
            final(self).capacity == old(self).capacity,
            final(self).recent@ == old(self).recent@,
            final(self).next_id == old(self).next_id,
            match r {
                Ok(_) => spec_bm_edit(bms_view(old(self).bookmarks@), id, p@, label@) == Some(
                    bms_view(final(self).bookmarks@),
                ),
                Err(e) => e == FsError::NotFound && spec_bm_edit(
                    bms_view(old(self).bookmarks@),
                    id,
                    p@,
                    label@,
                ) is None && final(self).bookmarks@ == old(self).bookmarks@,
            },
    {
        let ghost bs0 = bms_view(self.bookmarks@);
        let n: usize = self.bookmarks.len();
        let mut i: usize = 0;
        proof {
            assert(bs0.len() == n);
        }
        while i < n
            invariant
                n == self.bookmarks@.len(),
                bs0 == bms_view(self.bookmarks@),
                bs0.len() == n,
                0 <= i <= n,
                forall|j: int| 0 <= j < i ==> (#[trigger] bs0[j]).id != id,
                old(self).wf(),
                self.policy == old(self).policy,
                self.capacity == old(self).capacity,
                self.recent@ == old(self).recent@,
                self.next_id == old(self).next_id,
                self.bookmarks@ == old(self).bookmarks@,
            decreases n - i,
        {
            if self.bookmarks[i].id == id {
                let _removed = self.bookmarks.remove(i);
                let nb = BookmarkRecord { id, path: p.duplicate(), label };
                let ghost nbv = nb@;
                self.bookmarks.insert(i, nb);
                proof {
                    lemma_bm_edit_at(bs0, id, p@, label@, i as int);
                    assert(self.bookmarks@ =~= old(self).bookmarks@.update(i as int, nb)) by {
                        assert forall|j: int|
                            0 <= j < self.bookmarks@.len() implies self.bookmarks@[j] == old(
                            self,
                        ).bookmarks@.update(i as int, nb)[j] by {
                            if j < i {
                                assert(self.bookmarks@[j] == old(self).bookmarks@.remove(
                                    i as int,
                                )[j]);
                                assert(old(self).bookmarks@.remove(i as int)[j] == old(
                                    self,
                                ).bookmarks@[j]);
                            } else if j > i {
                                assert(self.bookmarks@[j] == old(self).bookmarks@.remove(
                                    i as int,
                                )[j - 1]);
                                assert(old(self).bookmarks@.remove(i as int)[j - 1] == old(
                                    self,
                                ).bookmarks@[j]);
                            }
                        }
                    }
                    assert(bms_view(self.bookmarks@) =~= bs0.update(i as int, nbv));
                    assert forall|a: int|
                        0 <= a < self.bookmarks@.len() implies (
                        #[trigger] self.bookmarks@[a])@.id == old(self).bookmarks@[a]@.id by {
                        if a != i {
                            assert(self.bookmarks@[a] == old(self).bookmarks@[a]);
                        }
                    }
                }
                return Ok(());
            }
            i += 1;
        }
        proof {
            lemma_bm_edit_none(bs0, id, p@, label@);
        }
        Err(FsError::NotFound)
    }

    /// Removes the bookmark carrying `id`; fails with `NotFound` when no
    /// bookmark carries `id`.
    pub fn remove_bookmark(&mut self, id: u64) -> (r: Result<(), FsError>)
        requires
            old(self).wf(),
        ensures
            final(self).wf(),
            final(self).policy == old(self).policy,
            final(self).capacity == old(self).capacity,
            final(self).recent@ == old(self).recent@,
            final(self).next_id == old(self).next_id,
            match r {
                Ok(_) => spec_bm_remove(bms_view(old(self).bookmarks@), id) == Some(
                    bms_view(final(self).bookmarks@),
                ),
                Err(e) => e == FsError::NotFound && spec_bm_remove(
                    bms_view(old(self).bookmarks@),
                    id,
                ) is None && final(self).bookmarks@ == old(self).bookmarks@,
            },
    {
        let ghost bs0 = bms_view(self.bookmarks@);
        let n: usize = self.bookmarks.len();
        let mut i: usize = 0;
        proof {
            assert(bs0.len() == n);
        }
        while i < n
            invariant
                n == self.bookmarks@.len(),
                bs0 == bms_view(self.bookmarks@),
                bs0.len() == n,
                0 <= i <= n,
                forall|j: int| 0 <= j < i ==> (#[trigger] bs0[j]).id != id,
                old(self).wf(),
                self.policy == old(self).policy,
                self.capacity == old(self).capacity,
                self.recent@ == old(self).recent@,
                self.next_id == old(self).next_id,
                self.bookmarks@ == old(self).bookmarks@,
            decreases n - i,
        {
            if self.bookmarks[i].id == id {
                self.bookmarks.remove(i);
                proof {
                    lemma_bm_remove_at(bs0, id, i as int);
                    assert(bms_view(self.bookmarks@) =~= bs0.remove(i as int));
                    assert forall|a: int|
                        0 <= a < self.bookmarks@.len() implies (
                        #[trigger] self.bookmarks@[a])@.id < old(self).next_id by {
                        if a < i {
                            assert(self.bookmarks@[a] == old(self).bookmarks@[a]);
                        } else {
                            assert(self.bookmarks@[a] == old(self).bookmarks@[a + 1]);
                        }
                    }
                    assert forall|a: int, b: int|
                        0 <= a < b < self.bookmarks@.len() implies (
                        #[trigger] self.bookmarks@[a])@.id != (
                        #[trigger] self.bookmarks@[b])@.id by {
                        if a < i {
                            assert(self.bookmarks@[a] == old(self).bookmarks@[a]);
                        } else {
                            assert(self.bookmarks@[a] == old(self).bookmarks@[a + 1]);
                        }
                        if b < i {
                            assert(self.bookmarks@[b] == old(self).bookmarks@[b]);
                        } else {
                            assert(self.bookmarks@[b] == old(self).bookmarks@[b + 1]);
                        }
                    }
                }
                return Ok(());
            }
            i += 1;
        }
        proof {
            lemma_bm_remove_none(bs0, id);
        }
        Err(FsError::NotFound)
    }
}

/// Fold-equality of paths is symmetric.
pub proof fn lemma_paths_fold_eq_sym(policy: CasePolicy, a: Seq<Seq<u8>>, b: Seq<Seq<u8>>)
    ensures
        paths_fold_eq(policy, a, b) == paths_fold_eq(policy, b, a),
{
}

/// No surviving record addresses the dropped place.
pub proof fn lemma_drop_path_not_p(policy: CasePolicy, rs: Seq<RecordView>, p: Seq<Seq<u8>>)
    ensures
        forall|i: int|
            0 <= i < drop_path(policy, rs, p).len() ==> !paths_fold_eq(
                policy,
                (#[trigger] drop_path(policy, rs, p)[i]).path,
                p,
            ),
    decreases rs.len(),
{
    if rs.len() > 0 {
        lemma_drop_path_not_p(policy, rs.drop_last(), p);
        let r = drop_path(policy, rs, p);
        assert forall|i: int| 0 <= i < r.len() implies !paths_fold_eq(
            policy,
            (#[trigger] r[i]).path,
            p,
        ) by {
            if i < drop_path(policy, rs.drop_last(), p).len() {
                assert(r[i] == drop_path(policy, rs.drop_last(), p)[i]);
            } else {
                assert(r[i] == rs.last());
            }
        }
    }
}

/// A place no record of the list addresses is not addressed after the
/// drop either.
proof fn lemma_drop_path_bound(
    policy: CasePolicy,
    rs: Seq<RecordView>,
    p: Seq<Seq<u8>>,
    x: Seq<Seq<u8>>,
)
    requires
        forall|i: int| 0 <= i < rs.len() ==> !paths_fold_eq(policy, (#[trigger] rs[i]).path, x),
    ensures
        forall|i: int|
            0 <= i < drop_path(policy, rs, p).len() ==> !paths_fold_eq(
                policy,
                (#[trigger] drop_path(policy, rs, p)[i]).path,
                x,
            ),
    decreases rs.len(),
{
    if rs.len() > 0 {
        assert forall|i: int|
            0 <= i < rs.drop_last().len() implies !paths_fold_eq(
            policy,
            (#[trigger] rs.drop_last()[i]).path,
            x,
        ) by {
            assert(rs.drop_last()[i] == rs[i]);
        }
        lemma_drop_path_bound(policy, rs.drop_last(), p, x);
        let r = drop_path(policy, rs, p);
        assert forall|i: int| 0 <= i < r.len() implies !paths_fold_eq(
            policy,
            (#[trigger] r[i]).path,
            x,
        ) by {
            if i < drop_path(policy, rs.drop_last(), p).len() {
                assert(r[i] == drop_path(policy, rs.drop_last(), p)[i]);
            } else {
                assert(r[i] == rs.last());
            }
        }
    }
}

/// Dropping a place keeps the records pairwise distinct.
pub proof fn lemma_drop_path_distinct(policy: CasePolicy, rs: Seq<RecordView>, p: Seq<Seq<u8>>)
    requires
        forall|a: int, b: int|
            0 <= a < b < rs.len() ==> !paths_fold_eq(
                policy,
                (#[trigger] rs[a]).path,
                (#[trigger] rs[b]).path,
            ),
    ensures
        forall|a: int, b: int|
            0 <= a < b < drop_path(policy, rs, p).len() ==> !paths_fold_eq(
                policy,
                (#[trigger] drop_path(policy, rs, p)[a]).path,
                (#[trigger] drop_path(policy, rs, p)[b]).path,
            ),
    decreases rs.len(),
{
    if rs.len() > 0 {
        assert forall|a: int, b: int|
            0 <= a < b < rs.drop_last().len() implies !paths_fold_eq(
            policy,
            (#[trigger] rs.drop_last()[a]).path,
            (#[trigger] rs.drop_last()[b]).path,
        ) by {
            assert(rs.drop_last()[a] == rs[a]);
            assert(rs.drop_last()[b] == rs[b]);
        }
        lemma_drop_path_distinct(policy, rs.drop_last(), p);
        assert forall|i: int|
            0 <= i < rs.drop_last().len() implies !paths_fold_eq(
            policy,
            (#[trigger] rs.drop_last()[i]).path,
            rs.last().path,
        ) by {
            assert(rs.drop_last()[i] == rs[i]);
        }
        lemma_drop_path_bound(policy, rs.drop_last(), p, rs.last().path);
        let r = drop_path(policy, rs, p);
        let r0 = drop_path(policy, rs.drop_last(), p);
        assert forall|a: int, b: int|
            0 <= a < b < r.len() implies !paths_fold_eq(
            policy,
            (#[trigger] r[a]).path,
            (#[trigger] r[b]).path,
        ) by {
            if b < r0.len() {
                assert(r[a] == r0[a]);
                assert(r[b] == r0[b]);
            } else {
                assert(r[a] == r0[a]);
                assert(r[b] == rs.last());
            }
        }
    }
}

/// Where the first bookmark with `id` stands at `k`, editing is exactly
/// an update at `k`.
pub proof fn lemma_bm_edit_at(
    bs: Seq<BookmarkView>,
    id: u64,
    path: Seq<Seq<u8>>,
    label: Seq<u8>,
    k: int,
)
    requires
        0 <= k < bs.len(),
        bs[k].id == id,
        forall|j: int| 0 <= j < k ==> (#[trigger] bs[j]).id != id,
    ensures
        spec_bm_edit(bs, id, path, label) == Some(
            bs.update(k, BookmarkView { id, path, label }),
        ),
    decreases k,
{
    if k == 0 {
    } else {
        assert forall|j: int| 0 <= j < k - 1 implies (#[trigger] bs.drop_first()[j]).id != id by {
            assert(bs.drop_first()[j] == bs[j + 1]);
        }
        assert(bs.drop_first()[k - 1] == bs[k]);
        lemma_bm_edit_at(bs.drop_first(), id, path, label, k - 1);
        assert(seq![bs[0]] + bs.drop_first().update(k - 1, BookmarkView { id, path, label })
            =~= bs.update(k, BookmarkView { id, path, label }));
    }
}

/// When no bookmark carries `id`, editing finds nothing.
pub proof fn lemma_bm_edit_none(bs: Seq<BookmarkView>, id: u64, path: Seq<Seq<u8>>, label: Seq<u8>)
    requires
        forall|j: int| 0 <= j < bs.len() ==> (#[trigger] bs[j]).id != id,
    ensures
        spec_bm_edit(bs, id, path, label) is None,
    decreases bs.len(),
{
    if bs.len() > 0 {
        assert forall|j: int|
            0 <= j < bs.drop_first().len() implies (#[trigger] bs.drop_first()[j]).id != id by {
            assert(bs.drop_first()[j] == bs[j + 1]);
        }
        lemma_bm_edit_none(bs.drop_first(), id, path, label);
    }
}

/// Where the first bookmark with `id` stands at `k`, removal is exactly a
/// removal at `k`.
pub proof fn lemma_bm_remove_at(bs: Seq<BookmarkView>, id: u64, k: int)
    requires
        0 <= k < bs.len(),
        bs[k].id == id,
        forall|j: int| 0 <= j < k ==> (#[trigger] bs[j]).id != id,
    ensures
        spec_bm_remove(bs, id) == Some(bs.remove(k)),
    decreases k,
{
    if k == 0 {
        assert(bs.drop_first() =~= bs.remove(0));
    } else {
        assert forall|j: int| 0 <= j < k - 1 implies (#[trigger] bs.drop_first()[j]).id != id by {
            assert(bs.drop_first()[j] == bs[j + 1]);
        }
        assert(bs.drop_first()[k - 1] == bs[k]);
        lemma_bm_remove_at(bs.drop_first(), id, k - 1);
        assert(seq![bs[0]] + bs.drop_first().remove(k - 1) =~= bs.remove(k));
    }
}

/// When no bookmark carries `id`, removal finds nothing.
pub proof fn lemma_bm_remove_none(bs: Seq<BookmarkView>, id: u64)
    requires
        forall|j: int| 0 <= j < bs.len() ==> (#[trigger] bs[j]).id != id,
    ensures
        spec_bm_remove(bs, id) is None,
    decreases bs.len(),
{
    if bs.len() > 0 {
        assert forall|j: int|
            0 <= j < bs.drop_first().len() implies (#[trigger] bs.drop_first()[j]).id != id by {
            assert(bs.drop_first()[j] == bs[j + 1]);
        }
        lemma_bm_remove_none(bs.drop_first(), id);
    }
}

} // verus!
