use vstd::prelude::*;

verus! {

use crate::errors::FsError;
use crate::path::{CasePolicy, FsPath, copy_bytes, is_path_prefix};
use crate::tree::{FsNode, FsTree, NodeView, entries_view, lemma_entries_view_len, node_find,
    node_view};

/// ASCII `*`: matches any run of bytes in a glob pattern.
pub const STAR: u8 = 42;

/// ASCII `?`: matches any single byte in a glob pattern.
pub const QMARK: u8 = 63;

/// Glob matching over bytes: `*` matches any run, `?` any single byte,
/// anything else itself.
pub open spec fn glob_match(p: Seq<u8>, s: Seq<u8>) -> bool
    decreases p.len(), s.len(),
{
    if p.len() == 0 {
        s.len() == 0
    } else if p[0] == STAR {
        glob_match(p.drop_first(), s) || (s.len() > 0 && glob_match(p, s.drop_first()))
    } else if s.len() == 0 {
        false
    } else {
        (p[0] == QMARK || p[0] == s[0]) && glob_match(p.drop_first(), s.drop_first())
    }
}

/// Exec mirror of `glob_match`, on suffixes from `i` and `j`.
pub fn glob_match_at(p: &Vec<u8>, s: &Vec<u8>, i: usize, j: usize) -> (r: bool)
    requires
        i <= p@.len(),
        j <= s@.len(),
    ensures
        r == glob_match(p@.skip(i as int), s@.skip(j as int)),
    decreases p@.len() - i, s@.len() - j,
{
    let ghost pp = p@.skip(i as int);
    let ghost ss = s@.skip(j as int);
    if i == p.len() {
        proof {
            assert(pp =~= Seq::<u8>::empty());
        }
        return j == s.len();
    }
    proof {
        assert(pp[0] == p@[i as int]);
        assert(pp.drop_first() =~= p@.skip(i + 1));
        if j < s@.len() {
            assert(ss[0] == s@[j as int]);
            assert(ss.drop_first() =~= s@.skip(j + 1));
        } else {
            assert(ss =~= Seq::<u8>::empty());
        }
    }
    if p[i] == STAR {
        if glob_match_at(p, s, i + 1, j) {
            return true;
        }
        if j < s.len() {
            return glob_match_at(p, s, i, j + 1);
        }
        return false;
    }
    if j == s.len() {
        return false;
    }
    if p[i] == QMARK || p[i] == s[j] {
        return glob_match_at(p, s, i + 1, j + 1);
    }
    false
}

/// Whether `name` matches one of the ignore patterns.
pub open spec fn is_ignored(ignore: Seq<Seq<u8>>, name: Seq<u8>) -> bool {
    exists|i: int| 0 <= i < ignore.len() && glob_match(#[trigger] ignore[i], name)
}

/// Exec mirror of `is_ignored`.
pub fn ignored(ignore: &Vec<Vec<u8>>, name: &Vec<u8>) -> (r: bool)
    ensures
        r == is_ignored(ignore.deep_view(), name@),
{
    let n: usize = ignore.len();
    proof {
        assert(ignore.deep_view().len() == ignore@.len());
        assert forall|j: int| 0 <= j < n implies ignore.deep_view()[j] == (#[trigger] ignore@[j])@ by {
            assert(ignore@[j].deep_view() =~= ignore@[j]@);
        }
    }
    let mut i: usize = 0;
    while i < n
        invariant
            n == ignore@.len(),
            0 <= i <= n,
            ignore.deep_view().len() == n,
            forall|j: int| 0 <= j < n ==> ignore.deep_view()[j] == (#[trigger] ignore@[j])@,
            forall|j: int| 0 <= j < i ==> !glob_match(#[trigger] ignore.deep_view()[j], name@),
        decreases n - i,
    {
        if glob_match_at(&ignore[i], name, 0, 0) {
            proof {
                assert(ignore@[i as int]@.skip(0) =~= ignore.deep_view()[i as int]);
                assert(name@.skip(0) =~= name@);
            }
            return true;
        }
        proof {
            assert(ignore@[i as int]@.skip(0) =~= ignore.deep_view()[i as int]);
            assert(name@.skip(0) =~= name@);
        }
        i += 1;
    }
    false
}

/// The kind of a walked entry.
#[derive(Clone, Copy, Debug, PartialEq, Eq, Structural)]
pub enum EntryKind {
    File,
    Directory,
    Symlink,
    /// A symlink whose target would lead the walk back into an ancestor:
    /// a non-fatal marker, never a failure.
    CycleDetected,
}

/// The mathematical value of a walked entry.
#[verifier::ext_equal]
pub struct EntryView {
    pub path: Seq<Seq<u8>>,
    pub kind: EntryKind,
    pub size: Option<u64>,
    pub modified: Option<u64>,
}

/// One filesystem entry produced by a walk: a point-in-time snapshot,
/// recreated on every scan and never assumed valid afterwards.
///
/// The in-memory model stores no timestamps, so `modified` is `None` for
/// every entry a walk produces; an adapter that fills the model from a
/// real filesystem reports times through its own channel.
pub struct FileEntry {
    pub path: FsPath,
    pub kind: EntryKind,
    pub size: Option<u64>,
    pub modified: Option<u64>,
}

impl View for FileEntry {
    type V = EntryView;

    open spec fn view(&self) -> EntryView {
        EntryView { path: self.path@, kind: self.kind, size: self.size, modified: self.modified }
    }
}

/// The view of a produced entry list.
pub open spec fn fes_view(s: Seq<FileEntry>) -> Seq<EntryView> {
    s.map_values(|e: FileEntry| e@)
}

/// Depth budget: `None` is unbounded.
pub open spec fn depth_allows(d: Option<u32>) -> bool {
    match d {
        Option::None => true,
        Option::Some(k) => k > 0,
    }
}

pub open spec fn dec_depth(d: Option<u32>) -> Option<u32> {
    match d {
        Option::None => Option::None,
        Option::Some(k) => if k > 0 {
            Option::Some((k - 1) as u32)
        } else {
            Option::Some(0u32)
        },
    }
}

/// The kind reported for a child node standing at `path`.
///
/// With `follow` set, a symlink whose lexical target is the entry itself
/// or one of its ancestors is reported as `CycleDetected`: expanding it
/// would walk in circles.  Symlink targets are never expanded; traversal
/// is purely lexical.
pub open spec fn kind_of(policy: CasePolicy, v: NodeView, path: Seq<Seq<u8>>, follow: bool) -> EntryKind {
    match v {
        NodeView::File { .. } => EntryKind::File,
        NodeView::Dir { .. } => EntryKind::Directory,
        NodeView::Symlink { target } => {
            if follow && is_path_prefix(policy, target, path) {
                EntryKind::CycleDetected
            } else {
                EntryKind::Symlink
            }
        },
    }
}

pub open spec fn size_of(v: NodeView) -> Option<u64> {
    match v {
        NodeView::File { content, .. } => Option::Some(content.len() as u64),
        _ => Option::None,
    }
}

/// The walk below one directory's entry list: depth-first, children in
/// their stored (sorted) order, ignored names pruned without descending.
pub open spec fn spec_walk_dir(
    policy: CasePolicy,
    es: Seq<(Seq<u8>, NodeView)>,
    base: Seq<Seq<u8>>,
    ignore: Seq<Seq<u8>>,
    follow: bool,
    d: Option<u32>,
) -> Seq<EntryView>
    decreases es,
{
    if !depth_allows(d) || es.len() == 0 {
        Seq::<EntryView>::empty()
    } else {
        spec_walk_child(policy, es[0].0, es[0].1, base, ignore, follow, d) + spec_walk_dir(
            policy,
            es.drop_first(),
            base,
            ignore,
            follow,
            d,
        )
    }
}

/// The contribution of one child: nothing when ignored, else its entry
/// followed by the walk of its own children (for a directory).
pub open spec fn spec_walk_child(
    policy: CasePolicy,
    name: Seq<u8>,
    v: NodeView,
    base: Seq<Seq<u8>>,
    ignore: Seq<Seq<u8>>,
    follow: bool,
    d: Option<u32>,
) -> Seq<EntryView>
    decreases v,
{
    if is_ignored(ignore, name) {
        Seq::<EntryView>::empty()
    } else {
        let path = base.push(name);
        let head = EntryView {
            path,
            kind: kind_of(policy, v, path, follow),
            size: size_of(v),
            modified: Option::None,
        };
        match v {
            NodeView::Dir { entries } => seq![head] + spec_walk_dir(
                policy,
                entries,
                path,
                ignore,
                follow,
                dec_depth(d),
            ),
            _ => seq![head],
        }
    }
}

/// What a walk from `root` produces on a tree value.
pub open spec fn spec_walk(
    policy: CasePolicy,
    v: NodeView,
    root: Seq<Seq<u8>>,
    ignore: Seq<Seq<u8>>,
    follow: bool,
    d: Option<u32>,
) -> Result<Seq<EntryView>, FsError> {
    match crate::tree::node_get(policy, v, root) {
        Option::Some(NodeView::Dir { entries }) => Ok(
            spec_walk_dir(policy, entries, root, ignore, follow, d),
        ),
        _ => Err(FsError::NotFound),
    }
}

/// Traversal policy for a walk.
pub struct WalkOptions {
    /// How many levels below the root to enter; `None` is unbounded.
    pub max_depth: Option<u32>,
    /// Report self- or ancestor-targeting symlinks as `CycleDetected`.
    pub follow_symlinks: bool,
    /// Glob patterns; an entry whose name matches one is pruned before
    /// it is opened.
    pub ignore: Vec<Vec<u8>>,
}

/// Recursive worker: the walk below the directory node `n` at `base`.
#[verifier::loop_isolation(false)]
fn walk_node(
    policy: CasePolicy,
    entries: &Vec<(Vec<u8>, FsNode)>,
    base: &FsPath,
    ignore: &Vec<Vec<u8>>,
    follow: bool,
    d: Option<u32>,
    out: &mut Vec<FileEntry>,
)
    ensures
        final(out)@.len() >= old(out)@.len(),
        fes_view(final(out)@) == fes_view(old(out)@) + spec_walk_dir(
            policy,
            entries_view(entries@),
            base@,
            ignore.deep_view(),
            follow,
            d,
        ),
    decreases entries_view(entries@), 0nat,
{
    let ghost ev = entries_view(entries@);
    proof {
        lemma_entries_view_len(entries@);
    }
    let allowed: bool = match d {
        Option::None => true,
        Option::Some(k) => k > 0,
    };
    if !allowed {
        proof {
            assert(fes_view(out@) =~= fes_view(out@) + spec_walk_dir(
                policy,
                ev,
                base@,
                ignore.deep_view(),
                follow,
                d,
            ));
        }
        return ;
    }
    let n: usize = entries.len();
    let mut j: usize = 0;
    while j < n
        invariant
            0 <= j <= n,
            out@.len() >= old(out)@.len(),
            fes_view(out@) == fes_view(old(out)@) + spec_walk_dir(
                policy,
                ev.take(j as int),
                base@,
                ignore.deep_view(),
                follow,
                d,
            ),
        decreases n - j,
    {
        proof {
            assert(decreases_to!(ev => ev[j as int]));
            assert(decreases_to!(ev[j as int] => ev[j as int].1));
        }
        walk_one(policy, &entries[j].0, &entries[j].1, base, ignore, follow, d, out);
        proof {
            lemma_walk_dir_take_step(policy, ev, base@, ignore.deep_view(), follow, d, j as int);
        }
        j += 1;
    }
    proof {
        assert(ev.take(n as int) =~= ev);
    }
}

/// The walk of one child entry.
#[verifier::loop_isolation(false)]
fn walk_one(
    policy: CasePolicy,
    name: &Vec<u8>,
    node: &FsNode,
    base: &FsPath,
    ignore: &Vec<Vec<u8>>,
    follow: bool,
    d: Option<u32>,
    out: &mut Vec<FileEntry>,
)
    requires
        depth_allows(d),
    ensures
        final(out)@.len() >= old(out)@.len(),
        fes_view(final(out)@) == fes_view(old(out)@) + spec_walk_child(
            policy,
            name@,
            node_view(*node),
            base@,
            ignore.deep_view(),
            follow,
            d,
        ),
    decreases node_view(*node), 1nat,
{
    let ghost nv = node_view(*node);
    let ghost target_seq = spec_walk_child(
        policy,
        name@,
        nv,
        base@,
        ignore.deep_view(),
        follow,
        d,
    );
    if ignored(ignore, name) {
        proof {
            assert(fes_view(out@) =~= fes_view(out@) + target_seq);
        }
        return ;
    }
    let mut path = base.duplicate();
    proof {
        assert(path.segs.deep_view().len() == base@.len());
        assert(path.segs@.len() == base@.len());
    }
    path.segs.push(copy_bytes(name));
    proof {
        assert(path@ =~~= base@.push(name@));
    }
    let ghost pathv = path@;
    let kind: EntryKind = match node {
        FsNode::File { .. } => EntryKind::File,
        FsNode::Dir { .. } => EntryKind::Directory,
        FsNode::Symlink { target } => {
            if follow && crate::path::path_prefix_of(policy, target, &path) {
                EntryKind::CycleDetected
            } else {
                EntryKind::Symlink
            }
        },
    };
    let size: Option<u64> = match node {
        FsNode::File { content, .. } => Option::Some(content.len() as u64),
        _ => Option::None,
    };
    let ghost out0 = out@;
    match node {
        FsNode::Dir { entries } => {
            let entry = FileEntry { path: path.duplicate(), kind, size, modified: None };
            let ghost headv = entry@;
            out.push(entry);
            proof {
                assert(fes_view(out@) =~= fes_view(out0) + seq![headv]);
                assert(decreases_to!(nv => nv->Dir_entries));
            }
            let d2: Option<u32> = match d {
                Option::None => Option::None,
                Option::Some(k) => if k > 0 {
                    Option::Some(k - 1)
                } else {
                    Option::Some(0)
                },
            };
            let ghost out1 = out@;
            walk_node(policy, entries, &path, ignore, follow, d2, out);
            proof {
                assert(fes_view(out1) =~= fes_view(out0) + seq![headv]);
                assert(fes_view(out@) =~= fes_view(out0) + target_seq);
            }
        },
        _ => {
            let entry = FileEntry { path, kind, size, modified: None };
            let ghost headv = entry@;
            out.push(entry);
            proof {
                assert(fes_view(out@) =~= fes_view(out0) + seq![headv]);
                assert(fes_view(out@) =~= fes_view(out0) + target_seq);
            }
        },
    }
}

/// Splitting a walked directory at `j`: the walk of `take(j+1)` extends
/// the walk of `take(j)` by the walk of child `j`.
proof fn lemma_walk_dir_take_step(
    policy: CasePolicy,
    es: Seq<(Seq<u8>, NodeView)>,
    base: Seq<Seq<u8>>,
    ignore: Seq<Seq<u8>>,
    follow: bool,
    d: Option<u32>,
    j: int,
)
    requires
        0 <= j < es.len(),
        depth_allows(d),
    ensures
        spec_walk_dir(policy, es.take(j + 1), base, ignore, follow, d) == spec_walk_dir(
            policy,
            es.take(j),
            base,
            ignore,
            follow,
            d,
        ) + spec_walk_child(policy, es[j].0, es[j].1, base, ignore, follow, d),
    decreases j,
{
    if j == 0 {
        assert(es.take(1).drop_first() =~= Seq::<(Seq<u8>, NodeView)>::empty());
        assert(es.take(1)[0] == es[0]);
        assert(es.take(0) =~= Seq::<(Seq<u8>, NodeView)>::empty());
        assert(spec_walk_dir(policy, es.take(1), base, ignore, follow, d) =~= spec_walk_child(
            policy,
            es[0].0,
            es[0].1,
            base,
            ignore,
            follow,
            d,
        ) + Seq::<EntryView>::empty());
        assert(spec_walk_dir(policy, es.take(1), base, ignore, follow, d) =~= Seq::<
            EntryView,
        >::empty() + spec_walk_child(policy, es[0].0, es[0].1, base, ignore, follow, d));
    } else {
        lemma_walk_dir_take_step(policy, es.drop_first(), base, ignore, follow, d, j - 1);
        assert(es.take(j + 1).drop_first() =~= es.drop_first().take(j));
        assert(es.take(j).drop_first() =~= es.drop_first().take(j - 1));
        assert(es.take(j + 1)[0] == es[0]);
        assert(es.take(j)[0] == es[0]);
        assert(es.drop_first()[j - 1] == es[j]);
        assert(spec_walk_dir(policy, es.take(j + 1), base, ignore, follow, d) =~= spec_walk_child(
            policy,
            es[0].0,
            es[0].1,
            base,
            ignore,
            follow,
            d,
        ) + spec_walk_dir(policy, es.drop_first().take(j), base, ignore, follow, d));
        assert(spec_walk_dir(policy, es.take(j), base, ignore, follow, d) =~= spec_walk_child(
            policy,
            es[0].0,
            es[0].1,
            base,
            ignore,
            follow,
            d,
        ) + spec_walk_dir(policy, es.drop_first().take(j - 1), base, ignore, follow, d));
        assert(spec_walk_dir(policy, es.take(j + 1), base, ignore, follow, d) =~= spec_walk_dir(
            policy,
            es.take(j),
            base,
            ignore,
            follow,
            d,
        ) + spec_walk_child(policy, es[j].0, es[j].1, base, ignore, follow, d));
    }
}

/// Walks the directory tree below `root`, depth first, children in their
/// stored (sorted) order.  Ignored names are pruned before their
/// directories are opened; a missing root, or one that is not a
/// directory, fails with `NotFound`.  The walk reads the tree and
/// mutates nothing.
pub fn walk(tree: &FsTree, root: &FsPath, opts: &WalkOptions) -> (r: Result<Vec<FileEntry>, FsError>)
    ensures
        match r {
            Ok(v) => spec_walk(
                tree.policy,
                tree.view_root(),
                root@,
                opts.ignore.deep_view(),
                opts.follow_symlinks,
                opts.max_depth,
            ) == Ok::<Seq<EntryView>, FsError>(fes_view(v@)),
            Err(e) => spec_walk(
                tree.policy,
                tree.view_root(),
                root@,
                opts.ignore.deep_view(),
                opts.follow_symlinks,
                opts.max_depth,
            ) == Err::<Seq<EntryView>, FsError>(e),
        },
{
    proof {
        assert(root@.skip(0) =~= root@);
    }
    match node_find(tree.policy, &tree.root, root, 0) {
        Option::Some(n) => {
            match n {
                FsNode::Dir { entries } => {
                    let mut out: Vec<FileEntry> = Vec::new();
                    proof {
                        assert(fes_view(out@) =~= Seq::<EntryView>::empty());
                    }
                    walk_node(
                        tree.policy,
                        entries,
                        root,
                        &opts.ignore,
                        opts.follow_symlinks,
                        opts.max_depth,
                        &mut out,
                    );
                    proof {
                        assert(fes_view(out@) =~= Seq::<EntryView>::empty() + spec_walk_dir(
                            tree.policy,
                            entries_view(entries@),
                            root@,
                            opts.ignore.deep_view(),
                            opts.follow_symlinks,
                            opts.max_depth,
                        ));
                    }
                    Ok(out)
                },
                _ => Err(FsError::NotFound),
            }
        },
        Option::None => Err(FsError::NotFound),
    }
}

/// The walk cut off after `limit` entries: what a caller that cancels a
/// lazy walk after consuming `limit` entries observes.  Cancellation
/// yields exactly a prefix of the full walk, and the tree is untouched.
pub fn walk_limited(tree: &FsTree, root: &FsPath, opts: &WalkOptions, limit: usize) -> (r: Result<
    Vec<FileEntry>,
    FsError,
>)
    ensures
        match r {
            Ok(v) => {
                &&& match spec_walk(
                    tree.policy,
                    tree.view_root(),
                    root@,
                    opts.ignore.deep_view(),
                    opts.follow_symlinks,
                    opts.max_depth,
                ) {
                    Ok(full) => fes_view(v@) == if limit as int <= full.len() {
                        full.take(limit as int)
                    } else {
                        full
                    },
                    Err(_) => false,
                }
            },
            Err(e) => spec_walk(
                tree.policy,
                tree.view_root(),
                root@,
                opts.ignore.deep_view(),
                opts.follow_symlinks,
                opts.max_depth,
            ) == Err::<Seq<EntryView>, FsError>(e),
        },
{
    let mut v = match walk(tree, root, opts) {
        Ok(v) => v,
        Err(e) => {
            return Err(e);
        },
    };
    let ghost full = fes_view(v@);
    if limit < v.len() {
        v.truncate(limit);
        proof {
            assert(fes_view(v@) =~= full.take(limit as int));
        }
    }
    Ok(v)
}

} // verus!
