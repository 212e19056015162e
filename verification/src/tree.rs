use vstd::prelude::*;

verus! {

use crate::path::{CasePolicy, FsPath, bytes_lt, fold_seg, path_wf, seg_eq, seg_wf};

/// One node of the modeled filesystem: a regular file with its content and
/// a readability flag, a symbolic link with its (lexical) target path, or a
/// directory with its named children.
///
/// Directory entries are kept strictly sorted by their name folded under
/// the tree's case policy; that makes names unique under the policy and
/// walks deterministic.
pub enum FsNode {
    File { content: Vec<u8>, readable: bool },
    Symlink { target: FsPath },
    Dir { entries: Vec<(Vec<u8>, FsNode)> },
}

/// The mathematical value of a node: the same shape over `Seq` instead of
/// `Vec`.  All contracts of the engine speak of `NodeView` values.
#[verifier::ext_equal]
pub enum NodeView {
    File { content: Seq<u8>, readable: bool },
    Symlink { target: Seq<Seq<u8>> },
    Dir { entries: Seq<(Seq<u8>, NodeView)> },
}

/// The view of a directory entry list.
pub open spec fn entries_view(es: Seq<(Vec<u8>, FsNode)>) -> Seq<(Seq<u8>, NodeView)>
    decreases es,
{
    if es.len() == 0 {
        Seq::<(Seq<u8>, NodeView)>::empty()
    } else {
        seq![(es[0].0@, node_view(es[0].1))] + entries_view(es.drop_first())
    }
}

/// The view of a node.
pub open spec fn node_view(n: FsNode) -> NodeView
    decreases n,
{
    match n {
        FsNode::File { content, readable } => NodeView::File { content: content@, readable },
        FsNode::Symlink { target } => NodeView::Symlink { target: target@ },
        FsNode::Dir { entries } => NodeView::Dir { entries: entries_view(entries@) },
    }
}

pub proof fn lemma_entries_view_len(es: Seq<(Vec<u8>, FsNode)>)
    ensures
        entries_view(es).len() == es.len(),
        forall|i: int|
            0 <= i < es.len() ==> entries_view(es)[i] == ((#[trigger] es[i]).0@, node_view(es[i].1)),
    decreases es.len(),
{
    if es.len() > 0 {
        lemma_entries_view_len(es.drop_first());
        assert forall|i: int| 0 <= i < es.len() implies entries_view(es)[i] == ((#[trigger] es[i]).0@,
            node_view(es[i].1),
        ) by {
            if i > 0 {
                assert(es.drop_first()[i - 1] == es[i]);
                assert(entries_view(es)[i] == entries_view(es.drop_first())[i - 1]);
            }
        }
    }
}

/// Strict sortedness of a directory's entry names under `policy`.
pub open spec fn entries_sorted(policy: CasePolicy, es: Seq<(Seq<u8>, NodeView)>) -> bool {
    forall|i: int, j: int|
        0 <= i < j < es.len() ==> bytes_lt(
            fold_seg(policy, (#[trigger] es[i]).0),
            fold_seg(policy, (#[trigger] es[j]).0),
        )
}

/// Well-formedness of a node value under `policy`: entry names are
/// well-formed segments, directories are strictly sorted, and the same
/// holds below.
pub open spec fn node_wf(policy: CasePolicy, v: NodeView) -> bool
    decreases v,
{
    match v {
        NodeView::File { .. } => true,
        NodeView::Symlink { target } => path_wf(target),
        NodeView::Dir { entries } => {
            &&& entries_sorted(policy, entries)
            &&& forall|i: int|
                0 <= i < entries.len() ==> seg_wf((#[trigger] entries[i]).0) && node_wf(
                    policy,
                    entries[i].1,
                )
        },
    }
}

/// The child under `name` in a directory entry list, by folded comparison.
pub open spec fn entries_get(
    policy: CasePolicy,
    es: Seq<(Seq<u8>, NodeView)>,
    name: Seq<u8>,
) -> Option<NodeView>
    decreases es.len(),
{
    if es.len() == 0 {
        None
    } else if fold_seg(policy, es[0].0) == fold_seg(policy, name) {
        Some(es[0].1)
    } else {
        entries_get(policy, es.drop_first(), name)
    }
}

/// The node value addressed by `p` below `v`, or `None` when the path
/// does not exist.  Symbolic links are not followed: a path leading
/// through a symlink does not resolve.
pub open spec fn node_get(policy: CasePolicy, v: NodeView, p: Seq<Seq<u8>>) -> Option<NodeView>
    decreases p.len(),
{
    if p.len() == 0 {
        Some(v)
    } else {
        match v {
            NodeView::Dir { entries } => {
                match entries_get(policy, entries, p[0]) {
                    Some(child) => node_get(policy, child, p.drop_first()),
                    None => None,
                }
            },
            _ => None,
        }
    }
}

/// In a list where no entry carries `name`, `entries_get` finds nothing.
pub proof fn lemma_entries_get_none(policy: CasePolicy, es: Seq<(Seq<u8>, NodeView)>, name: Seq<u8>)
    requires
        forall|i: int|
            0 <= i < es.len() ==> fold_seg(policy, (#[trigger] es[i]).0) != fold_seg(policy, name),
    ensures
        entries_get(policy, es, name) is None,
    decreases es.len(),
{
    if es.len() > 0 {
        lemma_entries_get_none(policy, es.drop_first(), name);
    }
}

/// When some entry does carry `name`, `entries_get` finds the first one.
pub proof fn lemma_entries_get_at(
    policy: CasePolicy,
    es: Seq<(Seq<u8>, NodeView)>,
    name: Seq<u8>,
    k: int,
)
    requires
        0 <= k < es.len(),
        fold_seg(policy, es[k].0) == fold_seg(policy, name),
        forall|i: int|
            0 <= i < k ==> fold_seg(policy, (#[trigger] es[i]).0) != fold_seg(policy, name),
    ensures
        entries_get(policy, es, name) == Some(es[k].1),
    decreases es.len(),
{
    if k > 0 {
        lemma_entries_get_at(policy, es.drop_first(), name, k - 1);
    }
}

/// The modeled filesystem: a root directory, the configured case policy,
/// and the trash holding area for recoverable deletes.
pub struct FsTree {
    pub root: FsNode,
    pub policy: CasePolicy,
    /// Whether the host offers a trash facility; configured at startup.
    pub trash_supported: bool,
    /// Subtrees moved to the trash, oldest first, each under its last name.
    pub trash: Vec<(Vec<u8>, FsNode)>,
}

impl FsTree {
    /// The mathematical value of the whole visible tree.
    pub open spec fn view_root(&self) -> NodeView {
        node_view(self.root)
    }

    pub open spec fn wf(&self) -> bool {
        self.root is Dir && node_wf(self.policy, node_view(self.root))
    }

    /// The node value at `p`, or `None`.
    pub open spec fn at_path(&self, p: Seq<Seq<u8>>) -> Option<NodeView> {
        node_get(self.policy, node_view(self.root), p)
    }

    /// An empty tree under the given configuration.
    pub fn new(policy: CasePolicy, trash_supported: bool) -> (r: FsTree)
        ensures
            r.wf(),
            r.policy == policy,
            r.trash_supported == trash_supported,
            r.view_root() == (NodeView::Dir { entries: Seq::<(Seq<u8>, NodeView)>::empty() }),
            r.trash@.len() == 0,
    {
        let t = FsTree {
            root: FsNode::Dir { entries: Vec::new() },
            policy,
            trash_supported,
            trash: Vec::new(),
        };
        proof {
            assert(entries_view(Seq::<(Vec<u8>, FsNode)>::empty()) =~= Seq::<(
                Seq<u8>,
                NodeView,
            )>::empty());
        }
        t
    }
}

/// Finds the index of the entry carrying `name` in an entry list.
pub fn entries_find(policy: CasePolicy, es: &Vec<(Vec<u8>, FsNode)>, name: &Vec<u8>) -> (r: Option<
    usize,
>)
    ensures
        match r {
            Some(k) => {
                &&& k < es@.len()
                &&& fold_seg(policy, es@[k as int].0@) == fold_seg(policy, name@)
                &&& entries_get(policy, entries_view(es@), name@) == Some(
                    node_view(es@[k as int].1),
                )
                &&& forall|i: int|
                    0 <= i < k ==> fold_seg(policy, (#[trigger] es@[i]).0@) != fold_seg(
                        policy,
                        name@,
                    )
            },
            None => entries_get(policy, entries_view(es@), name@) is None,
        },
{
    let n: usize = es.len();
    proof {
        lemma_entries_view_len(es@);
    }
    let mut i: usize = 0;
    while i < n
        invariant
            n == es@.len(),
            0 <= i <= n,
            entries_view(es@).len() == es@.len(),
            forall|j: int|
                0 <= j < es@.len() ==> entries_view(es@)[j] == ((#[trigger] es@[j]).0@, node_view(
                    es@[j].1,
                )),
            forall|j: int|
                0 <= j < i ==> fold_seg(policy, (#[trigger] es@[j]).0@) != fold_seg(policy, name@),
        decreases n - i,
    {
        if seg_eq(policy, &es[i].0, name) {
            proof {
                assert forall|j: int| 0 <= j < i implies fold_seg(
                    policy,
                    (#[trigger] entries_view(es@)[j]).0,
                ) != fold_seg(policy, name@) by {
                    assert(entries_view(es@)[j] == (es@[j].0@, node_view(es@[j].1)));
                }
                lemma_entries_get_at(policy, entries_view(es@), name@, i as int);
            }
            return Some(i);
        }
        i += 1;
    }
    proof {
        assert forall|j: int| 0 <= j < es@.len() implies fold_seg(
            policy,
            (#[trigger] entries_view(es@)[j]).0,
        ) != fold_seg(policy, name@) by {
            assert(entries_view(es@)[j] == (es@[j].0@, node_view(es@[j].1)));
        }
        lemma_entries_get_none(policy, entries_view(es@), name@);
    }
    None
}

/// The node addressed by the suffix of `p` from `i` on, read from `n`.
pub fn node_find<'a>(policy: CasePolicy, n: &'a FsNode, p: &FsPath, i: usize) -> (r: Option<
    &'a FsNode,
>)
    requires
        i <= p@.len(),
    ensures
        match r {
            Some(m) => node_get(policy, node_view(*n), p@.skip(i as int)) == Some(node_view(*m)),
            None => node_get(policy, node_view(*n), p@.skip(i as int)) is None,
        },
    decreases p@.len() - i,
{
    if i == p.depth() {
        proof {
            assert(p@.skip(i as int) =~= Seq::<Seq<u8>>::empty());
        }
        return Some(n);
    }
    proof {
        assert(p@.skip(i as int).len() > 0);
        assert(p@.skip(i as int)[0] == p@[i as int]);
        assert(p@.skip(i as int).drop_first() =~= p@.skip(i + 1));
    }
    match n {
        FsNode::Dir { entries } => {
            let name: &Vec<u8> = p.seg_at(i);
            match entries_find(policy, entries, name) {
                Some(k) => node_find(policy, &entries[k].1, p, i + 1),
                None => None,
            }
        },
        _ => None,
    }
}

/// Whether an entry exists at `p`.  Never fails: a path that does not
/// resolve in the visible tree reads as absent, whatever the cause.
pub fn file_exists(tree: &FsTree, p: &FsPath) -> (r: bool)
    ensures
        r == (tree.at_path(p@) is Some),
{
    proof {
        assert(p@.skip(0) =~= p@);
    }
    match node_find(tree.policy, &tree.root, p, 0) {
        Some(_) => true,
        None => false,
    }
}

/// `entries_view` commutes with insertion.
pub proof fn lemma_view_insert(es: Seq<(Vec<u8>, FsNode)>, k: int, pair: (Vec<u8>, FsNode))
    requires
        0 <= k <= es.len(),
    ensures
        entries_view(es.insert(k, pair)) == entries_view(es).insert(
            k,
            (pair.0@, node_view(pair.1)),
        ),
{
    let a = es.insert(k, pair);
    lemma_entries_view_len(es);
    lemma_entries_view_len(a);
    assert forall|j: int| 0 <= j < a.len() implies entries_view(a)[j] == entries_view(es).insert(
        k,
        (pair.0@, node_view(pair.1)),
    )[j] by {
        if j < k {
            assert(a[j] == es[j]);
        } else if j == k {
            assert(a[j] == pair);
        } else {
            assert(a[j] == es[j - 1]);
        }
    }
    assert(entries_view(a) =~= entries_view(es).insert(k, (pair.0@, node_view(pair.1))));
}

/// `entries_view` commutes with update.
pub proof fn lemma_view_update(es: Seq<(Vec<u8>, FsNode)>, k: int, pair: (Vec<u8>, FsNode))
    requires
        0 <= k < es.len(),
    ensures
        entries_view(es.update(k, pair)) == entries_view(es).update(
            k,
            (pair.0@, node_view(pair.1)),
        ),
{
    let a = es.update(k, pair);
    lemma_entries_view_len(es);
    lemma_entries_view_len(a);
    assert forall|j: int| 0 <= j < a.len() implies entries_view(a)[j] == entries_view(es).update(
        k,
        (pair.0@, node_view(pair.1)),
    )[j] by {
        if j != k {
            assert(a[j] == es[j]);
        } else {
            assert(a[j] == pair);
        }
    }
    assert(entries_view(a) =~= entries_view(es).update(k, (pair.0@, node_view(pair.1))));
}

/// `entries_view` commutes with removal.
pub proof fn lemma_view_remove(es: Seq<(Vec<u8>, FsNode)>, k: int)
    requires
        0 <= k < es.len(),
    ensures
        entries_view(es.remove(k)) == entries_view(es).remove(k),
{
    let a = es.remove(k);
    lemma_entries_view_len(es);
    lemma_entries_view_len(a);
    assert forall|j: int| 0 <= j < a.len() implies entries_view(a)[j] == entries_view(es).remove(
        k,
    )[j] by {
        if j < k {
            assert(a[j] == es[j]);
        } else {
            assert(a[j] == es[j + 1]);
        }
    }
    assert(entries_view(a) =~= entries_view(es).remove(k));
}

/// Removing and re-inserting at the same position is an update.
pub proof fn lemma_remove_insert_is_update(es: Seq<(Vec<u8>, FsNode)>, k: int, pair: (Vec<u8>, FsNode))
    requires
        0 <= k < es.len(),
    ensures
        es.remove(k).insert(k, pair) == es.update(k, pair),
{
    let a = es.remove(k).insert(k, pair);
    assert forall|j: int| 0 <= j < a.len() implies a[j] == es.update(k, pair)[j] by {
        if j < k {
            assert(a[j] == es.remove(k)[j]);
            assert(es.remove(k)[j] == es[j]);
        } else if j == k {
            assert(a[j] == pair);
        } else {
            assert(a[j] == es.remove(k)[j - 1]);
            assert(es.remove(k)[j - 1] == es[j]);
        }
    }
    assert(a =~= es.update(k, pair));
}

/// The full entry (stored spelling and node) under `name`.
pub open spec fn entries_get_pair(
    policy: CasePolicy,
    es: Seq<(Seq<u8>, NodeView)>,
    name: Seq<u8>,
) -> Option<(Seq<u8>, NodeView)>
    decreases es.len(),
{
    if es.len() == 0 {
        None
    } else if fold_seg(policy, es[0].0) == fold_seg(policy, name) {
        Some(es[0])
    } else {
        entries_get_pair(policy, es.drop_first(), name)
    }
}

pub proof fn lemma_entries_get_pair_none(
    policy: CasePolicy,
    es: Seq<(Seq<u8>, NodeView)>,
    name: Seq<u8>,
)
    requires
        forall|i: int|
            0 <= i < es.len() ==> fold_seg(policy, (#[trigger] es[i]).0) != fold_seg(policy, name),
    ensures
        entries_get_pair(policy, es, name) is None,
    decreases es.len(),
{
    if es.len() > 0 {
        lemma_entries_get_pair_none(policy, es.drop_first(), name);
    }
}

pub proof fn lemma_entries_get_pair_at(
    policy: CasePolicy,
    es: Seq<(Seq<u8>, NodeView)>,
    name: Seq<u8>,
    k: int,
)
    requires
        0 <= k < es.len(),
        fold_seg(policy, es[k].0) == fold_seg(policy, name),
        forall|i: int|
            0 <= i < k ==> fold_seg(policy, (#[trigger] es[i]).0) != fold_seg(policy, name),
    ensures
        entries_get_pair(policy, es, name) == Some(es[k]),
    decreases es.len(),
{
    if k > 0 {
        lemma_entries_get_pair_at(policy, es.drop_first(), name, k - 1);
    }
}

/// An equal, independently owned node.
#[verifier::loop_isolation(false)]
pub fn copy_node(n: &FsNode) -> (r: FsNode)
    ensures
        node_view(r) == node_view(*n),
    decreases *n,
{
    match n {
        FsNode::File { content, readable } => {
            FsNode::File { content: crate::path::copy_bytes(content), readable: *readable }
        },
        FsNode::Symlink { target } => FsNode::Symlink { target: target.duplicate() },
        FsNode::Dir { entries } => {
            let m: usize = entries.len();
            let mut out: Vec<(Vec<u8>, FsNode)> = Vec::new();
            proof {
                lemma_entries_view_len(entries@);
                assert(entries_view(out@) =~= entries_view(entries@).take(0));
            }
            let mut j: usize = 0;
            while j < m
                invariant
                    0 <= j <= m,
                    out@.len() == j,
                    entries_view(out@) == entries_view(entries@).take(j as int),
                decreases m - j,
            {
                proof {
                    assert(decreases_to!(*n => entries@[j as int].1)) by {
                        assert(decreases_to!(entries@ => entries@[j as int]));
                        assert(decreases_to!(entries@[j as int] => entries@[j as int].1));
                    }
                }
                let name2: Vec<u8> = crate::path::copy_bytes(&entries[j].0);
                let child2: FsNode = copy_node(&entries[j].1);
                let ghost out0 = out@;
                out.push((name2, child2));
                proof {
                    assert(out@ =~= out0.insert(out0.len() as int, (name2, child2)));
                    lemma_view_insert(out0, out0.len() as int, (name2, child2));
                    assert(entries_view(out@) =~= entries_view(out0).push(
                        (name2@, node_view(child2)),
                    ));
                    assert(entries_view(entries@).take(j + 1) =~= entries_view(entries@).take(
                        j as int,
                    ).push(entries_view(entries@)[j as int]));
                    assert(entries_view(entries@)[j as int] == (
                        entries@[j as int].0@,
                        node_view(entries@[j as int].1),
                    ));
                    assert(entries_view(out@) =~= entries_view(entries@).take(j + 1));
                }
                j += 1;
            }
            proof {
                assert(entries_view(entries@).take(m as int) =~= entries_view(entries@));
            }
            FsNode::Dir { entries: out }
        },
    }
}

} // verus!
