use vstd::prelude::*;

verus! {

use crate::errors::FsError;
use crate::path::{
    CasePolicy, Cmp, FsPath, bytes_lt, check_segment, copy_bytes, fold_seg, is_path_prefix,
    lemma_bytes_lt_irrefl, lemma_bytes_lt_connex, lemma_bytes_lt_trans, path_prefix_of, path_wf,
    seg_cmp, seg_wf,
};
use crate::tree::copy_node;
use vstd::utf8::encode_utf8;
use crate::tree::{
    FsNode, FsTree, NodeView, entries_find, entries_get, entries_sorted, entries_view,
    lemma_entries_get_at, lemma_entries_get_none, lemma_entries_view_len,
    entries_get_pair, lemma_entries_get_pair_at, lemma_entries_get_pair_none,
    lemma_remove_insert_is_update, lemma_view_insert, lemma_view_remove, lemma_view_update,
    node_find, node_get, node_view, node_wf,
};

/// Well-formedness of a directory entry list, as `node_wf` asks of it.
pub open spec fn entries_wf(policy: CasePolicy, ev: Seq<(Seq<u8>, NodeView)>) -> bool {
    node_wf(policy, NodeView::Dir { entries: ev })
}

/// The entry list with `node` stored under `name`: inserted at its sorted
/// position, or replacing the entry whose name folds equal (that entry's
/// stored spelling is kept).
pub open spec fn entries_put(
    policy: CasePolicy,
    ev: Seq<(Seq<u8>, NodeView)>,
    name: Seq<u8>,
    node: NodeView,
) -> Seq<(Seq<u8>, NodeView)>
    decreases ev.len(),
{
    if ev.len() == 0 {
        seq![(name, node)]
    } else if bytes_lt(fold_seg(policy, name), fold_seg(policy, ev[0].0)) {
        seq![(name, node)] + ev
    } else if fold_seg(policy, ev[0].0) == fold_seg(policy, name) {
        ev.update(0, (ev[0].0, node))
    } else {
        seq![ev[0]] + entries_put(policy, ev.drop_first(), name, node)
    }
}

/// The entry list with the entry under `name` removed (if present).
pub open spec fn entries_del(
    policy: CasePolicy,
    ev: Seq<(Seq<u8>, NodeView)>,
    name: Seq<u8>,
) -> Seq<(Seq<u8>, NodeView)>
    decreases ev.len(),
{
    if ev.len() == 0 {
        ev
    } else if fold_seg(policy, ev[0].0) == fold_seg(policy, name) {
        ev.drop_first()
    } else {
        seq![ev[0]] + entries_del(policy, ev.drop_first(), name)
    }
}

pub proof fn lemma_entries_put_get(
    policy: CasePolicy,
    ev: Seq<(Seq<u8>, NodeView)>,
    name: Seq<u8>,
    node: NodeView,
)
    ensures
        entries_get(policy, entries_put(policy, ev, name, node), name) == Some(node),
    decreases ev.len(),
{
    let r = entries_put(policy, ev, name, node);
    if ev.len() == 0 {
        assert(r[0] == (name, node));
    } else if bytes_lt(fold_seg(policy, name), fold_seg(policy, ev[0].0)) {
        assert(r[0] == (name, node));
    } else if fold_seg(policy, ev[0].0) == fold_seg(policy, name) {
        assert(r[0] == (ev[0].0, node));
    } else {
        lemma_entries_put_get(policy, ev.drop_first(), name, node);
        assert(r[0] == ev[0]);
        assert(r.drop_first() =~= entries_put(policy, ev.drop_first(), name, node));
    }
}

pub proof fn lemma_entries_del_frame(
    policy: CasePolicy,
    ev: Seq<(Seq<u8>, NodeView)>,
    name: Seq<u8>,
    other: Seq<u8>,
)
    requires
        fold_seg(policy, other) != fold_seg(policy, name),
        entries_sorted(policy, ev),
    ensures
        entries_get(policy, entries_del(policy, ev, name), other) == entries_get(
            policy,
            ev,
            other,
        ),
    decreases ev.len(),
{
    let r = entries_del(policy, ev, name);
    if ev.len() == 0 {
    } else if fold_seg(policy, ev[0].0) == fold_seg(policy, name) {
    } else {
        assert forall|i: int, j: int|
            0 <= i < j < ev.drop_first().len() implies bytes_lt(
            fold_seg(policy, (#[trigger] ev.drop_first()[i]).0),
            fold_seg(policy, (#[trigger] ev.drop_first()[j]).0),
        ) by {
            assert(ev.drop_first()[i] == ev[i + 1]);
            assert(ev.drop_first()[j] == ev[j + 1]);
        }
        lemma_entries_del_frame(policy, ev.drop_first(), name, other);
        assert(r[0] == ev[0]);
        assert(r.drop_first() =~= entries_del(policy, ev.drop_first(), name));
    }
}

/// A lower bound on every name of a list survives a put with a larger name.
proof fn lemma_entries_put_lb(
    policy: CasePolicy,
    ev: Seq<(Seq<u8>, NodeView)>,
    name: Seq<u8>,
    node: NodeView,
    x: Seq<u8>,
)
    requires
        bytes_lt(fold_seg(policy, x), fold_seg(policy, name)),
        forall|j: int|
            0 <= j < ev.len() ==> bytes_lt(fold_seg(policy, x), fold_seg(policy, (#[trigger] ev[j]).0)),
    ensures
        forall|j: int|
            0 <= j < entries_put(policy, ev, name, node).len() ==> bytes_lt(
                fold_seg(policy, x),
                fold_seg(policy, (#[trigger] entries_put(policy, ev, name, node)[j]).0),
            ),
    decreases ev.len(),
{
    let r = entries_put(policy, ev, name, node);
    if ev.len() == 0 {
        assert(r[0] == (name, node));
    } else if bytes_lt(fold_seg(policy, name), fold_seg(policy, ev[0].0)) {
        assert(r[0] == (name, node));
        assert forall|j: int| 0 <= j < r.len() implies bytes_lt(
            fold_seg(policy, x),
            fold_seg(policy, (#[trigger] r[j]).0),
        ) by {
            if j > 0 {
                assert(r[j] == ev[j - 1]);
            }
        }
    } else if fold_seg(policy, ev[0].0) == fold_seg(policy, name) {
        assert forall|j: int| 0 <= j < r.len() implies bytes_lt(
            fold_seg(policy, x),
            fold_seg(policy, (#[trigger] r[j]).0),
        ) by {
            if j == 0 {
                assert(r[0] == (ev[0].0, node));
            } else {
                assert(r[j] == ev[j]);
            }
        }
    } else {
        assert forall|j: int|
            0 <= j < ev.drop_first().len() implies bytes_lt(
            fold_seg(policy, x),
            fold_seg(policy, (#[trigger] ev.drop_first()[j]).0),
        ) by {
            assert(ev.drop_first()[j] == ev[j + 1]);
        }
        lemma_entries_put_lb(policy, ev.drop_first(), name, node, x);
        assert forall|j: int| 0 <= j < r.len() implies bytes_lt(
            fold_seg(policy, x),
            fold_seg(policy, (#[trigger] r[j]).0),
        ) by {
            if j == 0 {
                assert(r[0] == ev[0]);
            } else {
                assert(r[j] == entries_put(policy, ev.drop_first(), name, node)[j - 1]);
            }
        }
    }
}

/// `entries_put` keeps a well-formed list well formed.
pub proof fn lemma_entries_put_wf(
    policy: CasePolicy,
    ev: Seq<(Seq<u8>, NodeView)>,
    name: Seq<u8>,
    node: NodeView,
)
    requires
        entries_wf(policy, ev),
        seg_wf(name),
        node_wf(policy, node),
    ensures
        entries_wf(policy, entries_put(policy, ev, name, node)),
    decreases ev.len(),
{
    let r = entries_put(policy, ev, name, node);
    if ev.len() == 0 {
        assert(r[0] == (name, node));
    } else if bytes_lt(fold_seg(policy, name), fold_seg(policy, ev[0].0)) {
        assert(r[0] == (name, node));
        assert forall|i: int, j: int| 0 <= i < j < r.len() implies bytes_lt(
            fold_seg(policy, (#[trigger] r[i]).0),
            fold_seg(policy, (#[trigger] r[j]).0),
        ) by {
            assert(r[j] == ev[j - 1]);
            if i > 0 {
                assert(r[i] == ev[i - 1]);
            } else {
                if j > 1 {
                    lemma_bytes_lt_trans(
                        fold_seg(policy, name),
                        fold_seg(policy, ev[0].0),
                        fold_seg(policy, ev[j - 1].0),
                    );
                }
            }
        }
        assert forall|i: int| 0 <= i < r.len() implies seg_wf((#[trigger] r[i]).0) && node_wf(
            policy,
            r[i].1,
        ) by {
            if i > 0 {
                assert(r[i] == ev[i - 1]);
            }
        }
    } else if fold_seg(policy, ev[0].0) == fold_seg(policy, name) {
        assert forall|i: int, j: int| 0 <= i < j < r.len() implies bytes_lt(
            fold_seg(policy, (#[trigger] r[i]).0),
            fold_seg(policy, (#[trigger] r[j]).0),
        ) by {
            assert(r[j] == ev[j]);
            if i > 0 {
                assert(r[i] == ev[i]);
            } else {
                assert(r[0] == (ev[0].0, node));
            }
        }
        assert forall|i: int| 0 <= i < r.len() implies seg_wf((#[trigger] r[i]).0) && node_wf(
            policy,
            r[i].1,
        ) by {
            if i > 0 {
                assert(r[i] == ev[i]);
            } else {
                assert(r[0] == (ev[0].0, node));
            }
        }
    } else {
        assert forall|i: int, j: int|
            0 <= i < j < ev.drop_first().len() implies bytes_lt(
            fold_seg(policy, (#[trigger] ev.drop_first()[i]).0),
            fold_seg(policy, (#[trigger] ev.drop_first()[j]).0),
        ) by {
            assert(ev.drop_first()[i] == ev[i + 1]);
            assert(ev.drop_first()[j] == ev[j + 1]);
        }
        assert forall|i: int|
            0 <= i < ev.drop_first().len() implies seg_wf((#[trigger] ev.drop_first()[i]).0)
            && node_wf(policy, ev.drop_first()[i].1) by {
            assert(ev.drop_first()[i] == ev[i + 1]);
        }
        lemma_entries_put_wf(policy, ev.drop_first(), name, node);
        let tail = entries_put(policy, ev.drop_first(), name, node);
        assert forall|j: int|
            0 <= j < ev.drop_first().len() implies bytes_lt(
            fold_seg(policy, ev[0].0),
            fold_seg(policy, (#[trigger] ev.drop_first()[j]).0),
        ) by {
            assert(ev.drop_first()[j] == ev[j + 1]);
        }
        lemma_bytes_lt_connex(fold_seg(policy, ev[0].0), fold_seg(policy, name));
        lemma_entries_put_lb(policy, ev.drop_first(), name, node, ev[0].0);
        assert forall|i: int, j: int| 0 <= i < j < r.len() implies bytes_lt(
            fold_seg(policy, (#[trigger] r[i]).0),
            fold_seg(policy, (#[trigger] r[j]).0),
        ) by {
            assert(r[j] == tail[j - 1]);
            if i > 0 {
                assert(r[i] == tail[i - 1]);
            } else {
                assert(r[0] == ev[0]);
            }
        }
        assert forall|i: int| 0 <= i < r.len() implies seg_wf((#[trigger] r[i]).0) && node_wf(
            policy,
            r[i].1,
        ) by {
            if i > 0 {
                assert(r[i] == tail[i - 1]);
            } else {
                assert(r[0] == ev[0]);
            }
        }
    }
}

/// `entries_del` keeps a well-formed list well formed.
pub proof fn lemma_entries_del_wf(policy: CasePolicy, ev: Seq<(Seq<u8>, NodeView)>, name: Seq<u8>)
    requires
        entries_wf(policy, ev),
    ensures
        entries_wf(policy, entries_del(policy, ev, name)),
    decreases ev.len(),
{
    let r = entries_del(policy, ev, name);
    if ev.len() == 0 {
    } else if fold_seg(policy, ev[0].0) == fold_seg(policy, name) {
        assert forall|i: int, j: int| 0 <= i < j < r.len() implies bytes_lt(
            fold_seg(policy, (#[trigger] r[i]).0),
            fold_seg(policy, (#[trigger] r[j]).0),
        ) by {
            assert(r[i] == ev[i + 1]);
            assert(r[j] == ev[j + 1]);
        }
        assert forall|i: int| 0 <= i < r.len() implies seg_wf((#[trigger] r[i]).0) && node_wf(
            policy,
            r[i].1,
        ) by {
            assert(r[i] == ev[i + 1]);
        }
    } else {
        assert forall|i: int, j: int|
            0 <= i < j < ev.drop_first().len() implies bytes_lt(
            fold_seg(policy, (#[trigger] ev.drop_first()[i]).0),
            fold_seg(policy, (#[trigger] ev.drop_first()[j]).0),
        ) by {
            assert(ev.drop_first()[i] == ev[i + 1]);
            assert(ev.drop_first()[j] == ev[j + 1]);
        }
        assert forall|i: int|
            0 <= i < ev.drop_first().len() implies seg_wf((#[trigger] ev.drop_first()[i]).0)
            && node_wf(policy, ev.drop_first()[i].1) by {
            assert(ev.drop_first()[i] == ev[i + 1]);
        }
        lemma_entries_del_wf(policy, ev.drop_first(), name);
        let tail = entries_del(policy, ev.drop_first(), name);
        assert forall|j: int|
            0 <= j < tail.len() implies bytes_lt(
            fold_seg(policy, ev[0].0),
            fold_seg(policy, (#[trigger] tail[j]).0),
        ) by {
            lemma_entries_del_names(policy, ev.drop_first(), name, j);
            let i0 = choose|i: int|
                0 <= i < ev.drop_first().len() && (#[trigger] ev.drop_first()[i]).0 == tail[j].0;
            assert(ev.drop_first()[i0] == ev[i0 + 1]);
        }
        assert forall|i: int, j: int| 0 <= i < j < r.len() implies bytes_lt(
            fold_seg(policy, (#[trigger] r[i]).0),
            fold_seg(policy, (#[trigger] r[j]).0),
        ) by {
            assert(r[j] == tail[j - 1]);
            if i > 0 {
                assert(r[i] == tail[i - 1]);
            } else {
                assert(r[0] == ev[0]);
            }
        }
        assert forall|i: int| 0 <= i < r.len() implies seg_wf((#[trigger] r[i]).0) && node_wf(
            policy,
            r[i].1,
        ) by {
            if i > 0 {
                assert(r[i] == tail[i - 1]);
            } else {
                assert(r[0] == ev[0]);
            }
        }
    }
}

/// Every name surviving a delete was a name of the original list; stated
/// through any lower bound the original list obeys.
proof fn lemma_entries_del_names(
    policy: CasePolicy,
    ev: Seq<(Seq<u8>, NodeView)>,
    name: Seq<u8>,
    j: int,
)
    requires
        0 <= j < entries_del(policy, ev, name).len(),
        entries_wf(policy, ev),
    ensures
        exists|i: int|
            0 <= i < ev.len() && (#[trigger] ev[i]).0 == entries_del(policy, ev, name)[j].0,
    decreases ev.len(),
{
    let r = entries_del(policy, ev, name);
    if ev.len() == 0 {
    } else if fold_seg(policy, ev[0].0) == fold_seg(policy, name) {
        assert(r[j] == ev[j + 1]);
    } else {
        if j == 0 {
            assert(r[0] == ev[0]);
        } else {
            assert forall|a: int, b: int|
                0 <= a < b < ev.drop_first().len() implies bytes_lt(
                fold_seg(policy, (#[trigger] ev.drop_first()[a]).0),
                fold_seg(policy, (#[trigger] ev.drop_first()[b]).0),
            ) by {
                assert(ev.drop_first()[a] == ev[a + 1]);
                assert(ev.drop_first()[b] == ev[b + 1]);
            }
            assert forall|a: int|
                0 <= a < ev.drop_first().len() implies seg_wf((#[trigger] ev.drop_first()[a]).0)
                && node_wf(policy, ev.drop_first()[a].1) by {
                assert(ev.drop_first()[a] == ev[a + 1]);
            }
            assert(r[j] == entries_del(policy, ev.drop_first(), name)[j - 1]);
            lemma_entries_del_names(policy, ev.drop_first(), name, j - 1);
            let i0 = choose|i: int|
                0 <= i < ev.drop_first().len() && (#[trigger] ev.drop_first()[i]).0 == entries_del(
                    policy,
                    ev.drop_first(),
                    name,
                )[j - 1].0;
            assert(ev[i0 + 1].0 == r[j].0);
        }
    }
}

/// Where a fold-equal entry stands at `k` in a sorted list, `entries_put`
/// is exactly an update at `k` (keeping the stored spelling).
pub proof fn lemma_put_at_match(
    policy: CasePolicy,
    ev: Seq<(Seq<u8>, NodeView)>,
    name: Seq<u8>,
    node: NodeView,
    k: int,
)
    requires
        entries_sorted(policy, ev),
        0 <= k < ev.len(),
        fold_seg(policy, ev[k].0) == fold_seg(policy, name),
        forall|i: int|
            0 <= i < k ==> fold_seg(policy, (#[trigger] ev[i]).0) != fold_seg(policy, name),
    ensures
        entries_put(policy, ev, name, node) == ev.update(k, (ev[k].0, node)),
    decreases k,
{
    let r = entries_put(policy, ev, name, node);
    lemma_bytes_lt_irrefl(fold_seg(policy, name));
    if k == 0 {
        assert(!bytes_lt(fold_seg(policy, name), fold_seg(policy, ev[0].0)));
    } else {
        assert(bytes_lt(fold_seg(policy, ev[0].0), fold_seg(policy, ev[k].0)));
        assert(!bytes_lt(fold_seg(policy, name), fold_seg(policy, ev[0].0))) by {
            if bytes_lt(fold_seg(policy, name), fold_seg(policy, ev[0].0)) {
                lemma_bytes_lt_trans(
                    fold_seg(policy, name),
                    fold_seg(policy, ev[0].0),
                    fold_seg(policy, ev[k].0),
                );
            }
        }
        assert forall|a: int, b: int|
            0 <= a < b < ev.drop_first().len() implies bytes_lt(
            fold_seg(policy, (#[trigger] ev.drop_first()[a]).0),
            fold_seg(policy, (#[trigger] ev.drop_first()[b]).0),
        ) by {
            assert(ev.drop_first()[a] == ev[a + 1]);
            assert(ev.drop_first()[b] == ev[b + 1]);
        }
        assert forall|i: int|
            0 <= i < k - 1 implies fold_seg(policy, (#[trigger] ev.drop_first()[i]).0)
            != fold_seg(policy, name) by {
            assert(ev.drop_first()[i] == ev[i + 1]);
        }
        assert(ev.drop_first()[k - 1] == ev[k]);
        lemma_put_at_match(policy, ev.drop_first(), name, node, k - 1);
        assert(r[0] == ev[0]);
        assert(r =~= seq![ev[0]] + ev.drop_first().update(k - 1, (ev[k].0, node)));
        assert(r =~= ev.update(k, (ev[k].0, node)));
    }
}

/// Where no entry folds equal to `name` and `k` is its sorted position,
/// `entries_put` is exactly an insertion at `k`.
pub proof fn lemma_put_at_insert(
    policy: CasePolicy,
    ev: Seq<(Seq<u8>, NodeView)>,
    name: Seq<u8>,
    node: NodeView,
    k: int,
)
    requires
        entries_sorted(policy, ev),
        0 <= k <= ev.len(),
        forall|i: int|
            0 <= i < k ==> bytes_lt(fold_seg(policy, (#[trigger] ev[i]).0), fold_seg(policy, name)),
        k < ev.len() ==> bytes_lt(fold_seg(policy, name), fold_seg(policy, ev[k].0)),
    ensures
        entries_put(policy, ev, name, node) == ev.insert(k, (name, node)),
    decreases k,
{
    let r = entries_put(policy, ev, name, node);
    lemma_bytes_lt_irrefl(fold_seg(policy, name));
    if ev.len() == 0 {
        assert(r =~= ev.insert(0, (name, node)));
    } else if k == 0 {
        assert(bytes_lt(fold_seg(policy, name), fold_seg(policy, ev[0].0)));
        assert(r =~= ev.insert(0, (name, node)));
    } else {
        assert(bytes_lt(fold_seg(policy, ev[0].0), fold_seg(policy, name)));
        assert(!bytes_lt(fold_seg(policy, name), fold_seg(policy, ev[0].0))) by {
            if bytes_lt(fold_seg(policy, name), fold_seg(policy, ev[0].0)) {
                lemma_bytes_lt_trans(
                    fold_seg(policy, ev[0].0),
                    fold_seg(policy, name),
                    fold_seg(policy, ev[0].0),
                );
                lemma_bytes_lt_irrefl(fold_seg(policy, ev[0].0));
            }
        }
        assert(fold_seg(policy, ev[0].0) != fold_seg(policy, name));
        assert forall|a: int, b: int|
            0 <= a < b < ev.drop_first().len() implies bytes_lt(
            fold_seg(policy, (#[trigger] ev.drop_first()[a]).0),
            fold_seg(policy, (#[trigger] ev.drop_first()[b]).0),
        ) by {
            assert(ev.drop_first()[a] == ev[a + 1]);
            assert(ev.drop_first()[b] == ev[b + 1]);
        }
        assert forall|i: int|
            0 <= i < k - 1 implies bytes_lt(
            fold_seg(policy, (#[trigger] ev.drop_first()[i]).0),
            fold_seg(policy, name),
        ) by {
            assert(ev.drop_first()[i] == ev[i + 1]);
        }
        if k - 1 < ev.drop_first().len() {
            assert(ev.drop_first()[k - 1] == ev[k]);
        }
        lemma_put_at_insert(policy, ev.drop_first(), name, node, k - 1);
        assert(r[0] == ev[0]);
        assert(r =~= seq![ev[0]] + ev.drop_first().insert(k - 1, (name, node)));
        assert(r =~= ev.insert(k, (name, node)));
    }
}

/// Where the fold-equal entry stands at `k`, `entries_del` is exactly a
/// removal at `k`.
pub proof fn lemma_del_at_match(
    policy: CasePolicy,
    ev: Seq<(Seq<u8>, NodeView)>,
    name: Seq<u8>,
    k: int,
)
    requires
        0 <= k < ev.len(),
        fold_seg(policy, ev[k].0) == fold_seg(policy, name),
        forall|i: int|
            0 <= i < k ==> fold_seg(policy, (#[trigger] ev[i]).0) != fold_seg(policy, name),
    ensures
        entries_del(policy, ev, name) == ev.remove(k),
    decreases k,
{
    let r = entries_del(policy, ev, name);
    if k == 0 {
        assert(r =~= ev.remove(0));
    } else {
        assert forall|i: int|
            0 <= i < k - 1 implies fold_seg(policy, (#[trigger] ev.drop_first()[i]).0)
            != fold_seg(policy, name) by {
            assert(ev.drop_first()[i] == ev[i + 1]);
        }
        assert(ev.drop_first()[k - 1] == ev[k]);
        lemma_del_at_match(policy, ev.drop_first(), name, k - 1);
        assert(r[0] == ev[0]);
        assert(r =~= seq![ev[0]] + ev.drop_first().remove(k - 1));
        assert(r =~= ev.remove(k));
    }
}

/// Finds the sorted insertion position for `name` in an entry list that
/// carries no fold-equal entry.
pub fn insert_pos(policy: CasePolicy, es: &Vec<(Vec<u8>, FsNode)>, name: &Vec<u8>) -> (r: usize)
    requires
        entries_wf(policy, entries_view(es@)),
        entries_get(policy, entries_view(es@), name@) is None,
    ensures
        r <= es@.len(),
        forall|i: int|
            0 <= i < r ==> bytes_lt(
                fold_seg(policy, (#[trigger] entries_view(es@)[i]).0),
                fold_seg(policy, name@),
            ),
        r < es@.len() ==> bytes_lt(
            fold_seg(policy, name@),
            fold_seg(policy, entries_view(es@)[r as int].0),
        ),
{
    let ghost ev = entries_view(es@);
    proof {
        lemma_entries_view_len(es@);
    }
    let n: usize = es.len();
    let mut i: usize = 0;
    while i < n
        invariant
            n == es@.len(),
            0 <= i <= n,
            ev == entries_view(es@),
            ev.len() == n,
            forall|j: int|
                0 <= j < es@.len() ==> ev[j] == ((#[trigger] es@[j]).0@, node_view(es@[j].1)),
            entries_wf(policy, ev),
            entries_get(policy, ev, name@) is None,
            forall|j: int|
                0 <= j < i ==> bytes_lt(fold_seg(policy, (#[trigger] ev[j]).0), fold_seg(policy, name@)),
        decreases n - i,
    {
        match seg_cmp(policy, &es[i].0, name) {
            Cmp::Less => {
                i += 1;
            },
            Cmp::Equal => {
                proof {
                    lemma_entries_get_at(policy, ev, name@, i as int);
                }
                // contradicts the absence requirement; unreachable
                proof {
                    assert(false) by {
                        assert forall|j: int|
                            0 <= j < i implies fold_seg(policy, (#[trigger] ev[j]).0) != fold_seg(
                            policy,
                            name@,
                        ) by {
                            lemma_bytes_lt_irrefl(fold_seg(policy, ev[j].0));
                        }
                    };
                }
                return 0;
            },
            Cmp::Greater => {
                return i;
            },
        }
    }
    n
}

/// What `write_content` computes: the new tree value, or the failure.
///
/// The target must lie strictly below an existing chain of directories
/// (`NotFound` otherwise, also when the path runs through a file or a
/// symlink).  Writing over a directory fails with `IsADirectory`, over a
/// symlink with `NotFound`; in create-new mode any occupied target fails
/// with `AlreadyExists`.  A successful write stores the file readable.
pub open spec fn spec_write(
    policy: CasePolicy,
    v: NodeView,
    p: Seq<Seq<u8>>,
    content: Seq<u8>,
    create_new: bool,
) -> Result<NodeView, FsError>
    decreases p.len(),
{
    if p.len() == 0 {
        Err(FsError::IsADirectory)
    } else {
        match v {
            NodeView::Dir { entries } => {
                match entries_get(policy, entries, p[0]) {
                    Option::None => {
                        if p.len() == 1 {
                            Ok(
                                NodeView::Dir {
                                    entries: entries_put(
                                        policy,
                                        entries,
                                        p[0],
                                        NodeView::File { content, readable: true },
                                    ),
                                },
                            )
                        } else {
                            Err(FsError::NotFound)
                        }
                    },
                    Option::Some(old) => {
                        if p.len() == 1 {
                            if create_new {
                                Err(FsError::AlreadyExists)
                            } else if old is Dir {
                                Err(FsError::IsADirectory)
                            } else if old is Symlink {
                                Err(FsError::NotFound)
                            } else {
                                Ok(
                                    NodeView::Dir {
                                        entries: entries_put(
                                            policy,
                                            entries,
                                            p[0],
                                            NodeView::File { content, readable: true },
                                        ),
                                    },
                                )
                            }
                        } else {
                            match spec_write(policy, old, p.drop_first(), content, create_new) {
                                Ok(child2) => Ok(
                                    NodeView::Dir {
                                        entries: entries_put(policy, entries, p[0], child2),
                                    },
                                ),
                                Err(e) => Err(e),
                            }
                        }
                    },
                }
            },
            _ => Err(FsError::NotFound),
        }
    }
}

/// Write mode: replace what is there, or insist on creating a new file.
#[derive(Clone, Copy, Debug, PartialEq, Eq, Structural)]
pub enum WriteMode {
    Overwrite,
    CreateNew,
}

/// What `read_content` returns on a tree value.
pub open spec fn spec_read(policy: CasePolicy, v: NodeView, p: Seq<Seq<u8>>) -> Result<
    Seq<u8>,
    FsError,
> {
    match node_get(policy, v, p) {
        Option::None => Err(FsError::NotFound),
        Option::Some(NodeView::File { content, readable }) => {
            if readable {
                Ok(content)
            } else {
                Err(FsError::PermissionDenied)
            }
        },
        Option::Some(NodeView::Dir { .. }) => Err(FsError::IsADirectory),
        Option::Some(NodeView::Symlink { .. }) => Err(FsError::NotFound),
    }
}

/// Recursive worker for `write_content`.
fn write_at(
    policy: CasePolicy,
    v: FsNode,
    p: &FsPath,
    i: usize,
    content: Vec<u8>,
    create_new: bool,
) -> (r: (FsNode, Option<FsError>))
    requires
        i <= p@.len(),
        node_wf(policy, node_view(v)),
        path_wf(p@),
    ensures
        node_wf(policy, node_view(r.0)),
        match spec_write(policy, node_view(v), p@.skip(i as int), content@, create_new) {
            Ok(v2) => r.1 is None && node_view(r.0) == v2 && node_get(
                policy,
                node_view(r.0),
                p@.skip(i as int),
            ) == Some(NodeView::File { content: content@, readable: true }),
            Err(e) => r.1 == Some(e) && node_view(r.0) == node_view(v),
        },
    decreases p@.len() - i,
{
    let ghost v0 = node_view(v);
    let ghost pp = p@.skip(i as int);
    if i == p.depth() {
        proof {
            assert(pp =~= Seq::<Seq<u8>>::empty());
        }
        return (v, Some(FsError::IsADirectory));
    }
    proof {
        assert(pp.len() > 0);
        assert(pp[0] == p@[i as int]);
        assert(pp.drop_first() =~= p@.skip(i + 1));
    }
    let ghost filev = NodeView::File { content: content@, readable: true };
    match v {
        FsNode::Dir { mut entries } => {
            let ghost es0 = entries@;
            let ghost ev = entries_view(es0);
            proof {
                lemma_entries_view_len(es0);
                assert(entries_wf(policy, ev));
            }
            let name: &Vec<u8> = p.seg_at(i);
            match entries_find(policy, &entries, name) {
                Option::None => {
                    if i + 1 == p.depth() {
                        proof {
                            assert(pp.len() == 1);
                            assert(pp.drop_first() =~= Seq::<Seq<u8>>::empty());
                        }
                        let k: usize = insert_pos(policy, &entries, name);
                        let pair = (copy_bytes(name), FsNode::File { content, readable: true });
                        proof {
                            assert(pair.0@ == p@[i as int]);
                            assert(node_view(pair.1) == filev);
                        }
                        entries.insert(k, pair);
                        proof {
                            assert(entries@ == es0.insert(k as int, pair));
                            lemma_view_insert(es0, k as int, pair);
                            assert(entries_view(entries@) == ev.insert(
                                k as int,
                                (p@[i as int], filev),
                            ));
                            lemma_put_at_insert(policy, ev, p@[i as int], filev, k as int);
                            lemma_entries_put_wf(policy, ev, p@[i as int], filev);
                            lemma_entries_put_get(policy, ev, p@[i as int], filev);
                            assert(node_get(policy, filev, pp.drop_first()) == Some(filev));
                            assert(node_get(
                                policy,
                                NodeView::Dir { entries: entries_view(entries@) },
                                pp,
                            ) == Some(filev));
                        }
                        return (FsNode::Dir { entries }, None);
                    } else {
                        return (FsNode::Dir { entries }, Some(FsError::NotFound));
                    }
                },
                Option::Some(k) => {
                    proof {
                        assert forall|j: int| 0 <= j < k implies fold_seg(
                            policy,
                            (#[trigger] ev[j]).0,
                        ) != fold_seg(policy, p@[i as int]) by {
                            assert(ev[j] == (es0[j].0@, node_view(es0[j].1)));
                        }
                        assert(ev[k as int] == (es0[k as int].0@, node_view(es0[k as int].1)));
                    }
                    if i + 1 == p.depth() {
                        proof {
                            assert(pp.len() == 1);
                            assert(pp.drop_first() =~= Seq::<Seq<u8>>::empty());
                        }
                        if create_new {
                            return (FsNode::Dir { entries }, Some(FsError::AlreadyExists));
                        }
                        let is_dir: bool = matches!(&entries[k].1, FsNode::Dir { .. });
                        if is_dir {
                            return (FsNode::Dir { entries }, Some(FsError::IsADirectory));
                        }
                        let is_link: bool = matches!(&entries[k].1, FsNode::Symlink { .. });
                        if is_link {
                            return (FsNode::Dir { entries }, Some(FsError::NotFound));
                        }
                        let pair = entries.remove(k);
                        let repl = (pair.0, FsNode::File { content, readable: true });
                        entries.insert(k, repl);
                        proof {
                            assert(entries@ == es0.remove(k as int).insert(k as int, repl));
                            lemma_remove_insert_is_update(es0, k as int, repl);
                            lemma_view_update(es0, k as int, repl);
                            assert(repl.0@ == ev[k as int].0);
                            assert(node_view(repl.1) == filev);
                            assert(entries_view(entries@) == ev.update(
                                k as int,
                                (ev[k as int].0, filev),
                            ));
                            lemma_put_at_match(policy, ev, p@[i as int], filev, k as int);
                            lemma_entries_put_wf(policy, ev, p@[i as int], filev);
                            lemma_entries_put_get(policy, ev, p@[i as int], filev);
                            assert(node_get(policy, filev, pp.drop_first()) == Some(filev));
                            assert(node_get(
                                policy,
                                NodeView::Dir { entries: entries_view(entries@) },
                                pp,
                            ) == Some(filev));
                        }
                        return (FsNode::Dir { entries }, None);
                    } else {
                        let pair = entries.remove(k);
                        let cname = pair.0;
                        let child = pair.1;
                        proof {
                            assert(node_view(child) == ev[k as int].1);
                            assert(cname@ == ev[k as int].0);
                            assert(node_wf(policy, node_view(child)));
                        }
                        let rr = write_at(policy, child, p, i + 1, content, create_new);
                        let child2 = rr.0;
                        let err = rr.1;
                        let repl = (cname, child2);
                        entries.insert(k, repl);
                        proof {
                            assert(entries@ == es0.remove(k as int).insert(k as int, repl));
                            lemma_remove_insert_is_update(es0, k as int, repl);
                            lemma_view_update(es0, k as int, repl);
                            assert(entries_view(entries@) == ev.update(
                                k as int,
                                (ev[k as int].0, node_view(repl.1)),
                            ));
                        }
                        match err {
                            Option::None => {
                                proof {
                                    lemma_put_at_match(
                                        policy,
                                        ev,
                                        p@[i as int],
                                        node_view(repl.1),
                                        k as int,
                                    );
                                    lemma_entries_put_wf(
                                        policy,
                                        ev,
                                        p@[i as int],
                                        node_view(repl.1),
                                    );
                                    lemma_entries_put_get(
                                        policy,
                                        ev,
                                        p@[i as int],
                                        node_view(repl.1),
                                    );
                                    assert(node_get(policy, node_view(repl.1), pp.drop_first())
                                        == Some(filev));
                                    assert(node_get(
                                        policy,
                                        NodeView::Dir { entries: entries_view(entries@) },
                                        pp,
                                    ) == Some(filev));
                                }
                                return (FsNode::Dir { entries }, None);
                            },
                            Option::Some(e) => {
                                proof {
                                    assert(entries_view(entries@) =~~= ev);
                                }
                                return (FsNode::Dir { entries }, Some(e));
                            },
                        }
                    }
                },
            }
        },
        other => {
            return (other, Some(FsError::NotFound));
        },
    }
}

impl FsTree {
    /// Writes `content` to the file at `p`.
    ///
    /// In `CreateNew` mode any occupied target fails with `AlreadyExists`;
    /// in `Overwrite` mode an existing file is replaced.  The parent chain
    /// must already exist (`NotFound`), a directory target fails with
    /// `IsADirectory`, and nothing else in the tree changes.  On failure
    /// the tree is left exactly as it was.  After a successful write the
    /// file stands at `p` with exactly the written bytes, readable.
    pub fn write_content(&mut self, p: &FsPath, content: Vec<u8>, mode: WriteMode) -> (r: Result<
        (),
        FsError,
    >)
        requires
            old(self).wf(),
            p.wf(),
        ensures
            final(self).wf(),
            final(self).policy == old(self).policy,
            final(self).trash_supported == old(self).trash_supported,
            final(self).trash@ == old(self).trash@,
            match r {
                Ok(_) => {
                    &&& spec_write(
                        old(self).policy,
                        old(self).view_root(),
                        p@,
                        content@,
                        mode is CreateNew,
                    ) == Ok::<NodeView, FsError>(final(self).view_root())
                    &&& final(self).at_path(p@) == Some(
                        NodeView::File { content: content@, readable: true },
                    )
                },
                Err(e) => {
                    &&& spec_write(
                        old(self).policy,
                        old(self).view_root(),
                        p@,
                        content@,
                        mode is CreateNew,
                    ) == Err::<NodeView, FsError>(e)
                    &&& final(self).view_root() == old(self).view_root()
                },
            },
    {
        let create_new: bool = matches!(mode, WriteMode::CreateNew);
        let policy = self.policy;
        let mut root = FsNode::Dir { entries: Vec::new() };
        core::mem::swap(&mut root, &mut self.root);
        proof {
            assert(p@.skip(0) =~= p@);
        }
        let rr = write_at(policy, root, p, 0, content, create_new);
        self.root = rr.0;
        match rr.1 {
            Option::None => Ok(()),
            Option::Some(e) => Err(e),
        }
    }

    /// Reads the content of the file at `p`.
    ///
    /// Fails with `NotFound` when nothing (or a symlink) stands at `p`,
    /// `IsADirectory` for a directory, and `PermissionDenied` for a file
    /// that may not be read.
    pub fn read_content(&self, p: &FsPath) -> (r: Result<Vec<u8>, FsError>)
        ensures
            match r {
                Ok(c) => spec_read(self.policy, self.view_root(), p@) == Ok::<Seq<u8>, FsError>(
                    c@,
                ),
                Err(e) => spec_read(self.policy, self.view_root(), p@) == Err::<Seq<u8>, FsError>(
                    e,
                ),
            },
    {
        proof {
            assert(p@.skip(0) =~= p@);
        }
        match node_find(self.policy, &self.root, p, 0) {
            Option::None => Err(FsError::NotFound),
            Option::Some(n) => {
                match n {
                    FsNode::File { content, readable } => {
                        if *readable {
                            Ok(copy_bytes(content))
                        } else {
                            Err(FsError::PermissionDenied)
                        }
                    },
                    FsNode::Dir { .. } => Err(FsError::IsADirectory),
                    FsNode::Symlink { .. } => Err(FsError::NotFound),
                }
            },
        }
    }
}

/// A mutation of the tree, addressed at a path; the ghost-level shape.
pub enum TreeOp {
    /// Create a directory; `intermediate` creates missing ancestors.
    MakeDir { intermediate: bool },
    /// Remove a file or symlink.
    DeleteFile,
    /// Remove a directory; `recursive` allows a non-empty one.
    DeleteDir { recursive: bool },
    /// Give the addressed entry a new name inside its directory.
    Rename { new_name: Seq<u8> },
    /// Remove the addressed subtree and hand it back.
    Detach,
    /// Put a subtree under `name` into the addressed directory.
    Attach { name: Seq<u8>, node: NodeView },
}

/// The exec counterpart of `TreeOp`.
pub enum NodeOp {
    MakeDir { intermediate: bool },
    DeleteFile,
    DeleteDir { recursive: bool },
    Rename { new_name: Vec<u8> },
    Detach,
    Attach { name: Vec<u8>, node: FsNode },
}

pub open spec fn op_view(op: NodeOp) -> TreeOp {
    match op {
        NodeOp::MakeDir { intermediate } => TreeOp::MakeDir { intermediate },
        NodeOp::DeleteFile => TreeOp::DeleteFile,
        NodeOp::DeleteDir { recursive } => TreeOp::DeleteDir { recursive },
        NodeOp::Rename { new_name } => TreeOp::Rename { new_name: new_name@ },
        NodeOp::Detach => TreeOp::Detach,
        NodeOp::Attach { name, node } => TreeOp::Attach { name: name@, node: node_view(node) },
    }
}

/// Whether an op carries well-formed arguments.
pub open spec fn op_wf(policy: CasePolicy, op: TreeOp) -> bool {
    match op {
        TreeOp::Rename { new_name } => seg_wf(new_name),
        TreeOp::Attach { name, node } => seg_wf(name) && node_wf(policy, node),
        _ => true,
    }
}

/// What one tree mutation computes: the new tree value, the detached
/// subtree (for `Detach`), or the failure, with the tree untouched.
///
/// An empty path addresses the root: only `MakeDir` (a no-op: the root
/// exists) and `Attach` are meaningful there; deleting, renaming or
/// detaching the root fails with `InvalidPath`.  A path whose interior
/// runs through anything but an existing directory fails with `NotFound`
/// (unless `MakeDir` with `intermediate` creates the missing chain).
pub open spec fn spec_apply(
    policy: CasePolicy,
    v: NodeView,
    p: Seq<Seq<u8>>,
    op: TreeOp,
) -> Result<(NodeView, Option<(Seq<u8>, NodeView)>), FsError>
    decreases p.len(),
{
    match v {
        NodeView::Dir { entries } => {
            if p.len() == 0 {
                match op {
                    TreeOp::MakeDir { .. } => Ok((v, None)),
                    TreeOp::DeleteFile => Err(FsError::IsADirectory),
                    TreeOp::DeleteDir { .. } => Err(FsError::InvalidPath),
                    TreeOp::Rename { .. } => Err(FsError::InvalidPath),
                    TreeOp::Detach => Err(FsError::InvalidPath),
                    TreeOp::Attach { name, node } => {
                        match entries_get(policy, entries, name) {
                            Option::Some(_) => Err(FsError::AlreadyExists),
                            Option::None => Ok(
                                (
                                    NodeView::Dir {
                                        entries: entries_put(policy, entries, name, node),
                                    },
                                    None,
                                ),
                            ),
                        }
                    },
                }
            } else if p.len() == 1 && !(op is Attach) {
                let name = p[0];
                match op {
                    TreeOp::MakeDir { .. } => {
                        match entries_get(policy, entries, name) {
                            Option::None => Ok(
                                (
                                    NodeView::Dir {
                                        entries: entries_put(
                                            policy,
                                            entries,
                                            name,
                                            NodeView::Dir {
                                                entries: Seq::<(Seq<u8>, NodeView)>::empty(),
                                            },
                                        ),
                                    },
                                    None,
                                ),
                            ),
                            Option::Some(NodeView::Dir { .. }) => Ok((v, None)),
                            Option::Some(_) => Err(FsError::AlreadyExists),
                        }
                    },
                    TreeOp::DeleteFile => {
                        match entries_get(policy, entries, name) {
                            Option::None => Err(FsError::NotFound),
                            Option::Some(NodeView::Dir { .. }) => Err(FsError::IsADirectory),
                            Option::Some(_) => Ok(
                                (
                                    NodeView::Dir { entries: entries_del(policy, entries, name) },
                                    None,
                                ),
                            ),
                        }
                    },
                    TreeOp::DeleteDir { recursive } => {
                        match entries_get(policy, entries, name) {
                            Option::None => Err(FsError::NotFound),
                            Option::Some(NodeView::Dir { entries: ces }) => {
                                if !recursive && ces.len() > 0 {
                                    Err(FsError::NotEmpty)
                                } else {
                                    Ok(
                                        (
                                            NodeView::Dir {
                                                entries: entries_del(policy, entries, name),
                                            },
                                            None,
                                        ),
                                    )
                                }
                            },
                            Option::Some(_) => Err(FsError::NotFound),
                        }
                    },
                    TreeOp::Rename { new_name } => {
                        match entries_get(policy, entries, name) {
                            Option::None => Err(FsError::NotFound),
                            Option::Some(child) => {
                                match entries_get(policy, entries, new_name) {
                                    Option::Some(_) => Err(FsError::AlreadyExists),
                                    Option::None => Ok(
                                        (
                                            NodeView::Dir {
                                                entries: entries_put(
                                                    policy,
                                                    entries_del(policy, entries, name),
                                                    new_name,
                                                    child,
                                                ),
                                            },
                                            None,
                                        ),
                                    ),
                                }
                            },
                        }
                    },
                    TreeOp::Detach => {
                        match entries_get_pair(policy, entries, name) {
                            Option::None => Err(FsError::NotFound),
                            Option::Some(pair) => Ok(
                                (
                                    NodeView::Dir { entries: entries_del(policy, entries, name) },
                                    Some(pair),
                                ),
                            ),
                        }
                    },
                    TreeOp::Attach { .. } => Err(FsError::InvalidPath),
                }
            } else {
                match entries_get(policy, entries, p[0]) {
                    Option::Some(child) => {
                        if child is Dir {
                            match spec_apply(policy, child, p.drop_first(), op) {
                                Ok((child2, d)) => Ok(
                                    (
                                        NodeView::Dir {
                                            entries: entries_put(policy, entries, p[0], child2),
                                        },
                                        d,
                                    ),
                                ),
                                Err(e) => Err(e),
                            }
                        } else {
                            Err(FsError::NotFound)
                        }
                    },
                    Option::None => {
                        if op matches TreeOp::MakeDir { intermediate: true } {
                            match spec_apply(
                                policy,
                                NodeView::Dir { entries: Seq::<(Seq<u8>, NodeView)>::empty() },
                                p.drop_first(),
                                op,
                            ) {
                                Ok((child2, d)) => Ok(
                                    (
                                        NodeView::Dir {
                                            entries: entries_put(policy, entries, p[0], child2),
                                        },
                                        d,
                                    ),
                                ),
                                Err(e) => Err(e),
                            }
                        } else {
                            Err(FsError::NotFound)
                        }
                    },
                }
            }
        },
        _ => Err(FsError::NotFound),
    }
}

/// Converse of `lemma_entries_get_none`: a fruitless lookup means no
/// entry folds equal.
pub proof fn lemma_entries_get_none_all(
    policy: CasePolicy,
    es: Seq<(Seq<u8>, NodeView)>,
    name: Seq<u8>,
)
    requires
        entries_get(policy, es, name) is None,
    ensures
        forall|i: int|
            0 <= i < es.len() ==> fold_seg(policy, (#[trigger] es[i]).0) != fold_seg(policy, name),
    decreases es.len(),
{
    if es.len() > 0 {
        lemma_entries_get_none_all(policy, es.drop_first(), name);
        assert forall|i: int|
            0 <= i < es.len() implies fold_seg(policy, (#[trigger] es[i]).0) != fold_seg(
            policy,
            name,
        ) by {
            if i > 0 {
                assert(es.drop_first()[i - 1] == es[i]);
            }
        }
    }
}

/// Recursive worker for the tree mutations other than writes.
fn apply_at(policy: CasePolicy, v: FsNode, p: &FsPath, i: usize, op: NodeOp) -> (r: (
    FsNode,
    Option<(Vec<u8>, FsNode)>,
    Option<FsError>,
))
    requires
        i <= p@.len(),
        node_wf(policy, node_view(v)),
        path_wf(p@),
        op_wf(policy, op_view(op)),
    ensures
        node_wf(policy, node_view(r.0)),
        match spec_apply(policy, node_view(v), p@.skip(i as int), op_view(op)) {
            Ok(pair) => {
                &&& r.2 is None
                &&& node_view(r.0) == pair.0
                &&& (!(op_view(op) is Detach) ==> r.1 is None && pair.1 is None)
                &&& match (r.1, pair.1) {
                    (Some(pr), Some(dd)) => pr.0@ == dd.0 && node_view(pr.1) == dd.1 && seg_wf(
                        pr.0@,
                    ) && node_wf(policy, node_view(pr.1)),
                    (None, None) => true,
                    _ => false,
                }
            },
            Err(e) => r.2 == Some(e) && node_view(r.0) == node_view(v) && r.1 is None,
        },
    decreases p@.len() - i,
{
    let ghost v0 = node_view(v);
    let ghost pp = p@.skip(i as int);
    let ghost opv = op_view(op);
    if i == p.depth() {
        proof {
            assert(pp =~= Seq::<Seq<u8>>::empty());
        }
        match v {
            FsNode::Dir { mut entries } => {
                let ghost es0 = entries@;
                let ghost ev = entries_view(es0);
                proof {
                    lemma_entries_view_len(es0);
                    assert(entries_wf(policy, ev));
                }
                match op {
                    NodeOp::Attach { name, node } => {
                        match entries_find(policy, &entries, &name) {
                            Option::Some(_) => {
                                return (FsNode::Dir { entries }, None, Some(FsError::AlreadyExists));
                            },
                            Option::None => {
                                let k: usize = insert_pos(policy, &entries, &name);
                                let ghost nodev = node_view(node);
                                let pair = (name, node);
                                entries.insert(k, pair);
                                proof {
                                    assert(entries@ == es0.insert(k as int, pair));
                                    lemma_view_insert(es0, k as int, pair);
                                    lemma_put_at_insert(policy, ev, pair.0@, nodev, k as int);
                                    lemma_entries_put_wf(policy, ev, pair.0@, nodev);
                                }
                                return (FsNode::Dir { entries }, None, None);
                            },
                        }
                    },
                    NodeOp::MakeDir { .. } => {
                        return (FsNode::Dir { entries }, None, None);
                    },
                    NodeOp::DeleteFile => {
                        return (FsNode::Dir { entries }, None, Some(FsError::IsADirectory));
                    },
                    _ => {
                        return (FsNode::Dir { entries }, None, Some(FsError::InvalidPath));
                    },
                }
            },
            other => {
                return (other, None, Some(FsError::NotFound));
            },
        }
    }
    proof {
        assert(pp.len() > 0);
        assert(pp[0] == p@[i as int]);
        assert(pp.drop_first() =~= p@.skip(i + 1));
    }
    let leaf: bool = i + 1 == p.depth() && !matches!(op, NodeOp::Attach { .. });
    match v {
        FsNode::Dir { mut entries } => {
            let ghost es0 = entries@;
            let ghost ev = entries_view(es0);
            proof {
                lemma_entries_view_len(es0);
                assert(entries_wf(policy, ev));
                if i + 1 == p@.len() {
                    assert(pp.len() == 1);
                    assert(pp.drop_first() =~= Seq::<Seq<u8>>::empty());
                }
            }
            let name: &Vec<u8> = p.seg_at(i);
            let found = entries_find(policy, &entries, name);
            proof {
                if found is Some {
                    let k = found->0;
                    assert forall|j: int| 0 <= j < k implies fold_seg(
                        policy,
                        (#[trigger] ev[j]).0,
                    ) != fold_seg(policy, p@[i as int]) by {
                        assert(ev[j] == (es0[j].0@, node_view(es0[j].1)));
                    }
                    assert(ev[k as int] == (es0[k as int].0@, node_view(es0[k as int].1)));
                }
            }
            if leaf {
                match found {
                    Option::None => {
                        match op {
                            NodeOp::MakeDir { .. } => {
                                let ghost dirv = NodeView::Dir {
                                    entries: Seq::<(Seq<u8>, NodeView)>::empty(),
                                };
                                let k: usize = insert_pos(policy, &entries, name);
                                let pair = (copy_bytes(name), FsNode::Dir { entries: Vec::new() });
                                proof {
                                    assert(entries_view(Seq::<(Vec<u8>, FsNode)>::empty()) =~= Seq::<
                                        (Seq<u8>, NodeView),
                                    >::empty());
                                    assert(node_view(pair.1) == dirv);
                                    assert(pair.0@ == p@[i as int]);
                                }
                                entries.insert(k, pair);
                                proof {
                                    assert(entries@ == es0.insert(k as int, pair));
                                    lemma_view_insert(es0, k as int, pair);
                                    lemma_put_at_insert(policy, ev, p@[i as int], dirv, k as int);
                                    lemma_entries_put_wf(policy, ev, p@[i as int], dirv);
                                }
                                return (FsNode::Dir { entries }, None, None);
                            },
                            _ => {
                                proof {
                                    lemma_entries_get_none_all(policy, ev, p@[i as int]);
                                    lemma_entries_get_pair_none(policy, ev, p@[i as int]);
                                }
                                return (FsNode::Dir { entries }, None, Some(FsError::NotFound));
                            },
                        }
                    },
                    Option::Some(k) => {
                        let is_dir: bool = matches!(&entries[k].1, FsNode::Dir { .. });
                        match op {
                            NodeOp::MakeDir { .. } => {
                                if is_dir {
                                    return (FsNode::Dir { entries }, None, None);
                                } else {
                                    return (
                                        FsNode::Dir { entries },
                                        None,
                                        Some(FsError::AlreadyExists),
                                    );
                                }
                            },
                            NodeOp::DeleteFile => {
                                if is_dir {
                                    return (
                                        FsNode::Dir { entries },
                                        None,
                                        Some(FsError::IsADirectory),
                                    );
                                }
                                let _pair = entries.remove(k);
                                proof {
                                    assert(entries@ == es0.remove(k as int));
                                    lemma_view_remove(es0, k as int);
                                    lemma_del_at_match(policy, ev, p@[i as int], k as int);
                                    lemma_entries_del_wf(policy, ev, p@[i as int]);
                                }
                                return (FsNode::Dir { entries }, None, None);
                            },
                            NodeOp::DeleteDir { recursive } => {
                                if !is_dir {
                                    return (FsNode::Dir { entries }, None, Some(FsError::NotFound));
                                }
                                let mut nonempty: bool = false;
                                match &entries[k].1 {
                                    FsNode::Dir { entries: ces } => {
                                        nonempty = ces.len() > 0;
                                        proof {
                                            lemma_entries_view_len(ces@);
                                        }
                                    },
                                    _ => {},
                                }
                                if !recursive && nonempty {
                                    return (FsNode::Dir { entries }, None, Some(FsError::NotEmpty));
                                }
                                let _pair = entries.remove(k);
                                proof {
                                    assert(entries@ == es0.remove(k as int));
                                    lemma_view_remove(es0, k as int);
                                    lemma_del_at_match(policy, ev, p@[i as int], k as int);
                                    lemma_entries_del_wf(policy, ev, p@[i as int]);
                                }
                                return (FsNode::Dir { entries }, None, None);
                            },
                            NodeOp::Rename { new_name } => {
                                match entries_find(policy, &entries, &new_name) {
                                    Option::Some(_) => {
                                        return (
                                            FsNode::Dir { entries },
                                            None,
                                            Some(FsError::AlreadyExists),
                                        );
                                    },
                                    Option::None => {
                                        proof {
                                            assert(fold_seg(policy, new_name@) != fold_seg(
                                                policy,
                                                p@[i as int],
                                            )) by {
                                                lemma_entries_get_none_all(policy, ev, new_name@);
                                            }
                                        }
                                        let pair = entries.remove(k);
                                        let ghost ev1 = entries_del(policy, ev, p@[i as int]);
                                        proof {
                                            assert(entries@ == es0.remove(k as int));
                                            lemma_view_remove(es0, k as int);
                                            lemma_del_at_match(policy, ev, p@[i as int], k as int);
                                            lemma_entries_del_wf(policy, ev, p@[i as int]);
                                            lemma_entries_del_frame(
                                                policy,
                                                ev,
                                                p@[i as int],
                                                new_name@,
                                            );
                                        }
                                        let ghost es1 = entries@;
                                        let k2: usize = insert_pos(policy, &entries, &new_name);
                                        let ghost childv = node_view(pair.1);
                                        let pair2 = (new_name, pair.1);
                                        entries.insert(k2, pair2);
                                        proof {
                                            assert(entries@ == es1.insert(k2 as int, pair2));
                                            lemma_view_insert(es1, k2 as int, pair2);
                                            lemma_put_at_insert(
                                                policy,
                                                ev1,
                                                pair2.0@,
                                                childv,
                                                k2 as int,
                                            );
                                            lemma_entries_put_wf(policy, ev1, pair2.0@, childv);
                                        }
                                        return (FsNode::Dir { entries }, None, None);
                                    },
                                }
                            },
                            NodeOp::Detach => {
                                let pair = entries.remove(k);
                                proof {
                                    assert(entries@ == es0.remove(k as int));
                                    lemma_view_remove(es0, k as int);
                                    lemma_del_at_match(policy, ev, p@[i as int], k as int);
                                    lemma_entries_del_wf(policy, ev, p@[i as int]);
                                    lemma_entries_get_pair_at(policy, ev, p@[i as int], k as int);
                                    assert(pair.0@ == ev[k as int].0);
                                    assert(node_view(pair.1) == ev[k as int].1);
                                }
                                return (FsNode::Dir { entries }, Some(pair), None);
                            },
                            NodeOp::Attach { .. } => {
                                // excluded by the `leaf` test
                                proof {
                                    assert(false);
                                }
                                return (FsNode::Dir { entries }, None, Some(FsError::InvalidPath));
                            },
                        }
                    },
                }
            } else {
                match found {
                    Option::Some(k) => {
                        let is_dir: bool = matches!(&entries[k].1, FsNode::Dir { .. });
                        if !is_dir {
                            return (FsNode::Dir { entries }, None, Some(FsError::NotFound));
                        }
                        let pair = entries.remove(k);
                        let cname = pair.0;
                        let child = pair.1;
                        proof {
                            assert(node_view(child) == ev[k as int].1);
                            assert(cname@ == ev[k as int].0);
                        }
                        let rr = apply_at(policy, child, p, i + 1, op);
                        let child2 = rr.0;
                        let repl = (cname, child2);
                        entries.insert(k, repl);
                        proof {
                            assert(entries@ == es0.remove(k as int).insert(k as int, repl));
                            lemma_remove_insert_is_update(es0, k as int, repl);
                            lemma_view_update(es0, k as int, repl);
                            assert(entries_view(entries@) == ev.update(
                                k as int,
                                (ev[k as int].0, node_view(repl.1)),
                            ));
                        }
                        match rr.2 {
                            Option::None => {
                                proof {
                                    lemma_put_at_match(
                                        policy,
                                        ev,
                                        p@[i as int],
                                        node_view(repl.1),
                                        k as int,
                                    );
                                    lemma_entries_put_wf(policy, ev, p@[i as int], node_view(repl.1));
                                }
                                return (FsNode::Dir { entries }, rr.1, None);
                            },
                            Option::Some(e) => {
                                proof {
                                    assert(entries_view(entries@) =~~= ev);
                                }
                                return (FsNode::Dir { entries }, None, Some(e));
                            },
                        }
                    },
                    Option::None => {
                        let go_deep: bool = matches!(op, NodeOp::MakeDir { intermediate: true });
                        if !go_deep {
                            return (FsNode::Dir { entries }, None, Some(FsError::NotFound));
                        }
                        let fresh = FsNode::Dir { entries: Vec::new() };
                        proof {
                            assert(entries_view(Seq::<(Vec<u8>, FsNode)>::empty()) =~= Seq::<(
                                Seq<u8>,
                                NodeView,
                            )>::empty());
                        }
                        let rr = apply_at(policy, fresh, p, i + 1, op);
                        match rr.2 {
                            Option::Some(e) => {
                                return (FsNode::Dir { entries }, None, Some(e));
                            },
                            Option::None => {
                                let k: usize = insert_pos(policy, &entries, name);
                                let ghost childv = node_view(rr.0);
                                let pair = (copy_bytes(name), rr.0);
                                proof {
                                    assert(pair.0@ == p@[i as int]);
                                }
                                entries.insert(k, pair);
                                proof {
                                    assert(entries@ == es0.insert(k as int, pair));
                                    lemma_view_insert(es0, k as int, pair);
                                    lemma_put_at_insert(policy, ev, p@[i as int], childv, k as int);
                                    lemma_entries_put_wf(policy, ev, p@[i as int], childv);
                                }
                                return (FsNode::Dir { entries }, rr.1, None);
                            },
                        }
                    },
                }
            }
        },
        other => {
            return (other, None, Some(FsError::NotFound));
        },
    }
}


/// A successful detach always hands the removed subtree back.
pub proof fn lemma_detach_some(policy: CasePolicy, v: NodeView, p: Seq<Seq<u8>>)
    ensures
        match spec_apply(policy, v, p, TreeOp::Detach) {
            Ok(pair) => pair.1 is Some,
            Err(_) => true,
        },
    decreases p.len(),
{
    match v {
        NodeView::Dir { entries } => {
            if p.len() > 1 {
                match entries_get(policy, entries, p[0]) {
                    Option::Some(child) => {
                        lemma_detach_some(policy, child, p.drop_first());
                    },
                    Option::None => {},
                }
            }
        },
        _ => {},
    }
}

/// What a single move computes: the subtree at `p` detached and attached
/// under its stored name inside the directory at `target`.
///
/// Moving the root, or moving a path onto or below itself, fails with
/// `InvalidPath`; a missing source with `NotFound`; a missing or
/// non-directory target with `NotFound`; an occupied destination name
/// with `AlreadyExists`.
pub open spec fn spec_move(
    policy: CasePolicy,
    v: NodeView,
    p: Seq<Seq<u8>>,
    target: Seq<Seq<u8>>,
) -> Result<NodeView, FsError> {
    if p.len() == 0 || is_path_prefix(policy, p, target) {
        Err(FsError::InvalidPath)
    } else {
        match spec_apply(policy, v, p, TreeOp::Detach) {
            Err(e) => Err(e),
            Ok(pair) => {
                match pair.1 {
                    Option::None => Err(FsError::NotFound),
                    Option::Some(dd) => {
                        match spec_apply(
                            policy,
                            pair.0,
                            target,
                            TreeOp::Attach { name: dd.0, node: dd.1 },
                        ) {
                            Ok(pair2) => Ok(pair2.0),
                            Err(e) => Err(e),
                        }
                    },
                }
            },
        }
    }
}

/// The per-item outcomes and final tree of a best-effort batch move.
pub open spec fn spec_move_batch(
    policy: CasePolicy,
    v: NodeView,
    paths: Seq<Seq<Seq<u8>>>,
    target: Seq<Seq<u8>>,
) -> (NodeView, Seq<Result<(), FsError>>)
    decreases paths.len(),
{
    if paths.len() == 0 {
        (v, Seq::<Result<(), FsError>>::empty())
    } else {
        let prev = spec_move_batch(policy, v, paths.drop_last(), target);
        match spec_move(policy, prev.0, paths.last(), target) {
            Ok(v2) => (v2, prev.1.push(Ok(()))),
            Err(e) => (prev.0, prev.1.push(Err(e))),
        }
    }
}

impl FsTree {
    /// The mathematical value of the trash holding area.
    pub open spec fn trash_view(&self) -> Seq<(Seq<u8>, NodeView)> {
        entries_view(self.trash@)
    }

    /// Everything but the visible tree is unchanged.
    pub open spec fn same_config(&self, other: &FsTree) -> bool {
        &&& self.policy == other.policy
        &&& self.trash_supported == other.trash_supported
        &&& self.trash_view() == other.trash_view()
    }

    /// Creates the directory at `p`; missing ancestors are created only
    /// when `intermediate` asks for it.  A directory already standing at
    /// `p` is left as it is; anything else there fails with
    /// `AlreadyExists`.  On failure the tree is untouched.
    pub fn create_folder(&mut self, p: &FsPath, intermediate: bool) -> (r: Result<(), FsError>)
        requires
            old(self).wf(),
            p.wf(),
        ensures
            final(self).wf(),
            final(self).same_config(old(self)),
            match r {
                Ok(_) => match spec_apply(
                    old(self).policy,
                    old(self).view_root(),
                    p@,
                    TreeOp::MakeDir { intermediate },
                ) {
                    Ok(pair) => pair.0 == final(self).view_root() && pair.1 is None,
                    Err(_) => false,
                },
                Err(e) => spec_apply(
                    old(self).policy,
                    old(self).view_root(),
                    p@,
                    TreeOp::MakeDir { intermediate },
                ) == Err::<(NodeView, Option<(Seq<u8>, NodeView)>), FsError>(e) && final(self).view_root()
                    == old(self).view_root(),
            },
    {
        let policy = self.policy;
        let mut root = FsNode::Dir { entries: Vec::new() };
        core::mem::swap(&mut root, &mut self.root);
        proof {
            assert(p@.skip(0) =~= p@);
        }
        let rr = apply_at(policy, root, p, 0, NodeOp::MakeDir { intermediate });
        self.root = rr.0;
        match rr.2 {
            Option::None => Ok(()),
            Option::Some(e) => Err(e),
        }
    }

    /// Deletes the file or symlink at `p`.  A directory fails with
    /// `IsADirectory`, a missing entry with `NotFound`.  On failure the
    /// tree is untouched.
    pub fn delete_file(&mut self, p: &FsPath) -> (r: Result<(), FsError>)
        requires
            old(self).wf(),
            p.wf(),
        ensures
            final(self).wf(),
            final(self).same_config(old(self)),
            match r {
                Ok(_) => match spec_apply(
                    old(self).policy,
                    old(self).view_root(),
                    p@,
                    TreeOp::DeleteFile,
                ) {
                    Ok(pair) => pair.0 == final(self).view_root() && pair.1 is None,
                    Err(_) => false,
                },
                Err(e) => spec_apply(
                    old(self).policy,
                    old(self).view_root(),
                    p@,
                    TreeOp::DeleteFile,
                ) == Err::<(NodeView, Option<(Seq<u8>, NodeView)>), FsError>(e) && final(self).view_root()
                    == old(self).view_root(),
            },
    {
        let policy = self.policy;
        let mut root = FsNode::Dir { entries: Vec::new() };
        core::mem::swap(&mut root, &mut self.root);
        proof {
            assert(p@.skip(0) =~= p@);
        }
        let rr = apply_at(policy, root, p, 0, NodeOp::DeleteFile);
        self.root = rr.0;
        match rr.2 {
            Option::None => Ok(()),
            Option::Some(e) => Err(e),
        }
    }

    /// Deletes the directory at `p`.  Without `recursive` a non-empty
    /// directory fails with `NotEmpty` and is left unchanged — the
    /// deliberate safety gate distinct from `trash_delete`.  A missing
    /// entry or a non-directory fails with `NotFound`; the root cannot be
    /// deleted (`InvalidPath`).  On failure the tree is untouched.
    pub fn delete_folder(&mut self, p: &FsPath, recursive: bool) -> (r: Result<(), FsError>)
        requires
            old(self).wf(),
            p.wf(),
        ensures
            final(self).wf(),
            final(self).same_config(old(self)),
            match r {
                Ok(_) => match spec_apply(
                    old(self).policy,
                    old(self).view_root(),
                    p@,
                    TreeOp::DeleteDir { recursive },
                ) {
                    Ok(pair) => pair.0 == final(self).view_root() && pair.1 is None,
                    Err(_) => false,
                },
                Err(e) => spec_apply(
                    old(self).policy,
                    old(self).view_root(),
                    p@,
                    TreeOp::DeleteDir { recursive },
                ) == Err::<(NodeView, Option<(Seq<u8>, NodeView)>), FsError>(e) && final(self).view_root()
                    == old(self).view_root(),
            },
    {
        let policy = self.policy;
        let mut root = FsNode::Dir { entries: Vec::new() };
        core::mem::swap(&mut root, &mut self.root);
        proof {
            assert(p@.skip(0) =~= p@);
        }
        let rr = apply_at(policy, root, p, 0, NodeOp::DeleteDir { recursive });
        self.root = rr.0;
        match rr.2 {
            Option::None => Ok(()),
            Option::Some(e) => Err(e),
        }
    }

    /// Renames the entry at `p` to `new_name` inside its directory and
    /// returns the new path.  An illegal name fails with `InvalidPath`;
    /// an occupied destination (including the entry itself under a
    /// case-folding policy) with `AlreadyExists`, leaving source and
    /// destination untouched.
    pub fn rename_fs(&mut self, p: &FsPath, new_name: &str) -> (r: Result<FsPath, FsError>)
        requires
            old(self).wf(),
            p.wf(),
        ensures
            final(self).wf(),
            final(self).same_config(old(self)),
            match r {
                Ok(q) => {
                    &&& seg_wf(encode_utf8(new_name@))
                    &&& match spec_apply(
                        old(self).policy,
                        old(self).view_root(),
                        p@,
                        TreeOp::Rename { new_name: encode_utf8(new_name@) },
                    ) {
                        Ok(pair) => pair.0 == final(self).view_root() && pair.1 is None,
                        Err(_) => false,
                    }
                    &&& q@ == p@.drop_last().push(encode_utf8(new_name@))
                    &&& q.wf()
                },
                Err(e) => {
                    &&& final(self).view_root() == old(self).view_root()
                    &&& if !seg_wf(encode_utf8(new_name@)) {
                        e == FsError::InvalidPath
                    } else {
                        spec_apply(
                            old(self).policy,
                            old(self).view_root(),
                            p@,
                            TreeOp::Rename { new_name: encode_utf8(new_name@) },
                        ) == Err::<(NodeView, Option<(Seq<u8>, NodeView)>), FsError>(e)
                    }
                },
            },
    {
        let nb: Vec<u8> = match check_segment(new_name) {
            Option::Some(v) => v,
            Option::None => {
                return Err(FsError::InvalidPath);
            },
        };
        let ghost nbv = nb@;
        let policy = self.policy;
        let mut root = FsNode::Dir { entries: Vec::new() };
        core::mem::swap(&mut root, &mut self.root);
        proof {
            assert(p@.skip(0) =~= p@);
        }
        let nb2 = copy_bytes(&nb);
        let rr = apply_at(policy, root, p, 0, NodeOp::Rename { new_name: nb2 });
        self.root = rr.0;
        match rr.2 {
            Option::Some(e) => Err(e),
            Option::None => {
                let mut q = p.parent();
                q.segs.push(nb);
                proof {
                    assert(nb.deep_view() =~= nbv);
                    assert(q@ =~~= p@.drop_last().push(nbv));
                }
                Ok(q)
            },
        }
    }

    /// Moves the entry at `p` to the platform trash holding area rather
    /// than erasing it.  Fails with `UnsupportedPlatform` when the host
    /// offers no trash, `NotFound` when `p` is missing, `InvalidPath` for
    /// the root; on failure nothing changes.
    pub fn trash_delete(&mut self, p: &FsPath) -> (r: Result<(), FsError>)
        requires
            old(self).wf(),
            p.wf(),
        ensures
            final(self).wf(),
            final(self).policy == old(self).policy,
            final(self).trash_supported == old(self).trash_supported,
            match r {
                Ok(_) => {
                    &&& old(self).trash_supported
                    &&& match spec_apply(
                        old(self).policy,
                        old(self).view_root(),
                        p@,
                        TreeOp::Detach,
                    ) {
                        Ok(pair) => pair.0 == final(self).view_root() && match pair.1 {
                            Option::Some(dd) => final(self).trash_view() == old(
                                self,
                            ).trash_view().push(dd),
                            Option::None => false,
                        },
                        Err(_) => false,
                    }
                },
                Err(e) => {
                    &&& final(self).view_root() == old(self).view_root()
                    &&& final(self).trash_view() == old(self).trash_view()
                    &&& if !old(self).trash_supported {
                        e == FsError::UnsupportedPlatform
                    } else {
                        spec_apply(
                            old(self).policy,
                            old(self).view_root(),
                            p@,
                            TreeOp::Detach,
                        ) == Err::<(NodeView, Option<(Seq<u8>, NodeView)>), FsError>(e)
                    }
                },
            },
    {
        if !self.trash_supported {
            return Err(FsError::UnsupportedPlatform);
        }
        let policy = self.policy;
        let mut root = FsNode::Dir { entries: Vec::new() };
        core::mem::swap(&mut root, &mut self.root);
        proof {
            assert(p@.skip(0) =~= p@);
        }
        let ghost trash0 = self.trash@;
        let rr = apply_at(policy, root, p, 0, NodeOp::Detach);
        self.root = rr.0;
        match rr.2 {
            Option::Some(e) => Err(e),
            Option::None => {
                match rr.1 {
                    Option::Some(pair) => {
                        self.trash.push(pair);
                        proof {
                            lemma_entries_view_len(trash0);
                            assert(self.trash@ =~= trash0.insert(trash0.len() as int, pair));
                            crate::tree::lemma_view_insert(trash0, trash0.len() as int, pair);
                            assert(entries_view(trash0).insert(
                                entries_view(trash0).len() as int,
                                (pair.0@, node_view(pair.1)),
                            ) =~= entries_view(trash0).push((pair.0@, node_view(pair.1))));
                            assert(entries_view(self.trash@) =~= entries_view(trash0).push(
                                (pair.0@, node_view(pair.1)),
                            ));
                        }
                        Ok(())
                    },
                    Option::None => {
                        proof {
                            lemma_detach_some(policy, node_view(old(self).root), p@);
                            assert(false);
                        }
                        Err(FsError::NotFound)
                    },
                }
            },
        }
    }

    /// Copies the file at `from` to `to`, byte for byte.  Reading obeys
    /// `read_content`; writing obeys `write_content`, with `CreateNew`
    /// unless `overwrite` is set.  On failure the tree is untouched.
    pub fn copy_file(&mut self, from: &FsPath, to: &FsPath, overwrite: bool) -> (r: Result<
        (),
        FsError,
    >)
        requires
            old(self).wf(),
            to.wf(),
        ensures
            final(self).wf(),
            final(self).same_config(old(self)),
            match r {
                Ok(_) => match spec_read(old(self).policy, old(self).view_root(), from@) {
                    Ok(c) => spec_write(
                        old(self).policy,
                        old(self).view_root(),
                        to@,
                        c,
                        !overwrite,
                    ) == Ok::<NodeView, FsError>(final(self).view_root()) && final(self).at_path(
                        to@,
                    ) == Some(NodeView::File { content: c, readable: true }),
                    Err(_) => false,
                },
                Err(e) => {
                    &&& final(self).view_root() == old(self).view_root()
                    &&& match spec_read(old(self).policy, old(self).view_root(), from@) {
                        Ok(c) => spec_write(
                            old(self).policy,
                            old(self).view_root(),
                            to@,
                            c,
                            !overwrite,
                        ) == Err::<NodeView, FsError>(e),
                        Err(e2) => e == e2,
                    }
                },
            },
    {
        let content = match self.read_content(from) {
            Ok(c) => c,
            Err(e) => {
                return Err(e);
            },
        };
        let mode = if overwrite {
            WriteMode::Overwrite
        } else {
            WriteMode::CreateNew
        };
        self.write_content(to, content, mode)
    }

    /// Moves the entry at `p` into the directory at `target`, keeping its
    /// stored name.  On failure the tree is untouched.
    pub fn move_one(&mut self, p: &FsPath, target: &FsPath) -> (r: Result<(), FsError>)
        requires
            old(self).wf(),
            p.wf(),
            target.wf(),
        ensures
            final(self).wf(),
            final(self).same_config(old(self)),
            match r {
                Ok(_) => spec_move(old(self).policy, old(self).view_root(), p@, target@)
                    == Ok::<NodeView, FsError>(final(self).view_root()),
                Err(e) => spec_move(old(self).policy, old(self).view_root(), p@, target@)
                    == Err::<NodeView, FsError>(e) && final(self).view_root() == old(
                    self,
                ).view_root(),
            },
    {
        if p.depth() == 0 {
            return Err(FsError::InvalidPath);
        }
        if path_prefix_of(self.policy, p, target) {
            return Err(FsError::InvalidPath);
        }
        let policy = self.policy;
        let scratch = copy_node(&self.root);
        proof {
            assert(p@.skip(0) =~= p@);
            assert(target@.skip(0) =~= target@);
        }
        let rr = apply_at(policy, scratch, p, 0, NodeOp::Detach);
        match rr.2 {
            Option::Some(e) => {
                return Err(e);
            },
            Option::None => {},
        }
        let pair = match rr.1 {
            Option::Some(pair) => pair,
            Option::None => {
                proof {
                    lemma_detach_some(policy, node_view(old(self).root), p@);
                    assert(false);
                }
                return Err(FsError::NotFound);
            },
        };
        let rr2 = apply_at(
            policy,
            rr.0,
            target,
            0,
            NodeOp::Attach { name: pair.0, node: pair.1 },
        );
        match rr2.2 {
            Option::Some(e) => Err(e),
            Option::None => {
                self.root = rr2.0;
                Ok(())
            },
        }
    }

    /// Moves each of `paths` into the directory at `target`, best effort:
    /// one failing item does not stop the rest, and the result reports
    /// one outcome per path, in order.
    pub fn move_files_to_folder(&mut self, paths: &Vec<FsPath>, target: &FsPath) -> (r: Vec<
        Result<(), FsError>,
    >)
        requires
            old(self).wf(),
            forall|i: int| 0 <= i < paths@.len() ==> (#[trigger] paths@[i]).wf(),
            target.wf(),
        ensures
            final(self).wf(),
            final(self).same_config(old(self)),
            r@.len() == paths@.len(),
            ({
                let outcome = spec_move_batch(
                    old(self).policy,
                    old(self).view_root(),
                    Seq::new(paths@.len(), |i: int| paths@[i]@),
                    target@,
                );
                final(self).view_root() == outcome.0 && r@ == outcome.1
            }),
    {
        let ghost pv = Seq::new(paths@.len(), |i: int| paths@[i]@);
        let n: usize = paths.len();
        let mut out: Vec<Result<(), FsError>> = Vec::new();
        proof {
            assert(pv.take(0) =~= Seq::<Seq<Seq<u8>>>::empty());
            assert(out@ =~= spec_move_batch(self.policy, self.view_root(), pv.take(0), target@).1);
        }
        let mut i: usize = 0;
        while i < n
            invariant
                n == paths@.len(),
                0 <= i <= n,
                pv == Seq::new(paths@.len(), |j: int| paths@[j]@),
                self.wf(),
                self.same_config(old(self)),
                self.policy == old(self).policy,
                forall|j: int| 0 <= j < paths@.len() ==> (#[trigger] paths@[j]).wf(),
                target.wf(),
                out@.len() == i,
                self.view_root() == spec_move_batch(
                    old(self).policy,
                    old(self).view_root(),
                    pv.take(i as int),
                    target@,
                ).0,
                out@ == spec_move_batch(
                    old(self).policy,
                    old(self).view_root(),
                    pv.take(i as int),
                    target@,
                ).1,
            decreases n - i,
        {
            let ghost prev = spec_move_batch(
                old(self).policy,
                old(self).view_root(),
                pv.take(i as int),
                target@,
            );
            let res = self.move_one(&paths[i], target);
            match res {
                Ok(_) => out.push(Ok(())),
                Err(e) => out.push(Err(e)),
            }
            proof {
                assert(pv.take(i + 1).drop_last() =~= pv.take(i as int));
                assert(pv.take(i + 1).last() == pv[i as int]);
                assert(pv[i as int] == paths@[i as int]@);
                let cur = spec_move_batch(
                    old(self).policy,
                    old(self).view_root(),
                    pv.take(i + 1),
                    target@,
                );
                match spec_move(old(self).policy, prev.0, pv[i as int], target@) {
                    Ok(v2) => {
                        assert(cur.0 == v2 && cur.1 == prev.1.push(Ok(())));
                    },
                    Err(e) => {
                        assert(cur.0 == prev.0 && cur.1 == prev.1.push(Err(e)));
                    },
                }
            }
            i += 1;
        }
        proof {
            assert(pv.take(n as int) =~= pv);
        }
        out
    }
}

/// After a successful write, the written file stands at `p`: it exists,
/// and reading it back yields exactly the written bytes (round trip).
pub proof fn lemma_write_round_trip(
    policy: CasePolicy,
    v: NodeView,
    p: Seq<Seq<u8>>,
    c: Seq<u8>,
    create_new: bool,
)
    requires
        spec_write(policy, v, p, c, create_new) is Ok,
    ensures
        node_get(policy, spec_write(policy, v, p, c, create_new)->Ok_0, p) == Some(
            NodeView::File { content: c, readable: true },
        ),
        spec_read(policy, spec_write(policy, v, p, c, create_new)->Ok_0, p) == Ok::<
            Seq<u8>,
            FsError,
        >(c),
    decreases p.len(),
{
    let r = spec_write(policy, v, p, c, create_new)->Ok_0;
    let filev = NodeView::File { content: c, readable: true };
    match v {
        NodeView::Dir { entries } => {
            if p.len() == 1 {
                lemma_entries_put_get(policy, entries, p[0], filev);
                assert(p.drop_first() =~= Seq::<Seq<u8>>::empty());
                assert(node_get(policy, filev, p.drop_first()) == Some(filev));
            } else {
                match entries_get(policy, entries, p[0]) {
                    Option::Some(old_child) => {
                        lemma_write_round_trip(policy, old_child, p.drop_first(), c, create_new);
                        let child2 = spec_write(policy, old_child, p.drop_first(), c, create_new)->Ok_0;
                        lemma_entries_put_get(policy, entries, p[0], child2);
                    },
                    Option::None => {},
                }
            }
        },
        _ => {},
    }
}

/// A non-recursive folder delete on a non-empty directory always fails
/// with `NotEmpty` (and, by the exec contract, the tree stays unchanged).
pub proof fn lemma_delete_nonempty_fails(policy: CasePolicy, v: NodeView, p: Seq<Seq<u8>>)
    requires
        p.len() > 0,
        match node_get(policy, v, p) {
            Option::Some(NodeView::Dir { entries }) => entries.len() > 0,
            _ => false,
        },
    ensures
        spec_apply(policy, v, p, TreeOp::DeleteDir { recursive: false }) == Err::<
            (NodeView, Option<(Seq<u8>, NodeView)>),
            FsError,
        >(FsError::NotEmpty),
    decreases p.len(),
{
    match v {
        NodeView::Dir { entries } => {
            match entries_get(policy, entries, p[0]) {
                Option::Some(child) => {
                    if p.len() > 1 {
                        lemma_delete_nonempty_fails(policy, child, p.drop_first());
                    }
                },
                Option::None => {},
            }
        },
        _ => {},
    }
}

/// Renaming onto an already occupied name always fails with
/// `AlreadyExists` (and, by the exec contract, both the source and the
/// conflicting destination stay untouched).
pub proof fn lemma_rename_occupied_fails(
    policy: CasePolicy,
    v: NodeView,
    p: Seq<Seq<u8>>,
    new_name: Seq<u8>,
)
    requires
        p.len() > 0,
        node_get(policy, v, p) is Some,
        node_get(policy, v, p.drop_last().push(new_name)) is Some,
    ensures
        spec_apply(policy, v, p, TreeOp::Rename { new_name }) == Err::<
            (NodeView, Option<(Seq<u8>, NodeView)>),
            FsError,
        >(FsError::AlreadyExists),
    decreases p.len(),
{
    let q = p.drop_last().push(new_name);
    match v {
        NodeView::Dir { entries } => {
            if p.len() == 1 {
                assert(q.len() == 1);
                assert(q[0] == new_name);
            } else {
                assert(q.len() == p.len());
                assert(q[0] == p[0]);
                match entries_get(policy, entries, p[0]) {
                    Option::Some(child) => {
                        assert(q.drop_first() =~= p.drop_first().drop_last().push(new_name));
                        lemma_rename_occupied_fails(policy, child, p.drop_first(), new_name);
                    },
                    Option::None => {},
                }
            }
        },
        _ => {},
    }
}

} // verus!
