use vstd::prelude::*;

verus! {

use crate::errors::FsError;
use crate::path::{CasePolicy, FsPath, fold_seg, fold_vec, nul_free};
use crate::tree::{FsNode, FsTree, NodeView, node_find, node_get};
use crate::walk::{EntryView, FileEntry, WalkOptions, fes_view, spec_walk, walk};

/// One search request: immutable, one per invocation.
pub struct SearchQuery {
    /// The folder the search is confined to.
    pub root: FsPath,
    /// Bytes to look for in entry names.
    pub name_pattern: Option<Vec<u8>>,
    /// Bytes to look for in file contents.
    pub content_pattern: Option<Vec<u8>>,
    /// Whether matching distinguishes ASCII letter case.
    pub case_sensitive: bool,
    /// Hard cap on the number of matches returned.
    pub max_results: u32,
}

/// The mathematical value of a query.
#[verifier::ext_equal]
pub struct QueryView {
    pub root: Seq<Seq<u8>>,
    pub name_pattern: Option<Seq<u8>>,
    pub content_pattern: Option<Seq<u8>>,
    pub case_sensitive: bool,
    pub max_results: u32,
}

impl View for SearchQuery {
    type V = QueryView;

    open spec fn view(&self) -> QueryView {
        QueryView {
            root: self.root@,
            name_pattern: match self.name_pattern {
                Option::Some(v) => Option::Some(v@),
                Option::None => Option::None,
            },
            content_pattern: match self.content_pattern {
                Option::Some(v) => Option::Some(v@),
                Option::None => Option::None,
            },
            case_sensitive: self.case_sensitive,
            max_results: self.max_results,
        }
    }
}

/// The folding policy a query asks for.
pub open spec fn query_policy(case_sensitive: bool) -> CasePolicy {
    if case_sensitive {
        CasePolicy::Sensitive
    } else {
        CasePolicy::Insensitive
    }
}

/// Whether `pat` occurs in `c` starting at `i`.
pub open spec fn is_match_at(c: Seq<u8>, pat: Seq<u8>, i: int) -> bool {
    0 <= i && i + pat.len() <= c.len() && forall|j: int|
        0 <= j < pat.len() ==> c[i + j] == #[trigger] pat[j]
}

/// All occurrences of `pat` in `c` from position `i` on, as byte-offset
/// spans `(start, end)`, ascending; overlapping occurrences all count.
pub open spec fn occ_from(c: Seq<u8>, pat: Seq<u8>, i: int) -> Seq<(usize, usize)>
    decreases c.len() - i + 1,
{
    if pat.len() == 0 || i < 0 || i + pat.len() > c.len() {
        Seq::<(usize, usize)>::empty()
    } else {
        (if is_match_at(c, pat, i) {
            seq![(i as usize, (i + pat.len()) as usize)]
        } else {
            Seq::<(usize, usize)>::empty()
        }) + occ_from(c, pat, i + 1)
    }
}

/// Whether `pat` occurs anywhere in `c`.  The empty pattern occurs
/// nowhere: a pattern must name at least one byte.
pub open spec fn contains_sub(c: Seq<u8>, pat: Seq<u8>) -> bool {
    occ_from(c, pat, 0).len() > 0
}

/// Exec test of `is_match_at`.
fn match_at(c: &Vec<u8>, pat: &Vec<u8>, i: usize) -> (r: bool)
    requires
        i + pat@.len() <= c@.len(),
    ensures
        r == is_match_at(c@, pat@, i as int),
{
    let n: usize = c.len();
    let m: usize = pat.len();
    let mut j: usize = 0;
    while j < m
        invariant
            n == c@.len(),
            m == pat@.len(),
            i + m <= c@.len(),
            0 <= j <= m,
            forall|k: int| 0 <= k < j ==> c@[i + k] == #[trigger] pat@[k],
        decreases m - j,
    {
        if c[i + j] != pat[j] {
            proof {
                assert(c@[i + j] != pat@[j as int]);
            }
            return false;
        }
        j += 1;
    }
    true
}

/// All occurrences of `pat` in `c`, ascending byte-offset spans.
pub fn occurrences(c: &Vec<u8>, pat: &Vec<u8>) -> (r: Vec<(usize, usize)>)
    ensures
        r@ == occ_from(c@, pat@, 0),
{
    let n: usize = c.len();
    let m: usize = pat.len();
    let mut out: Vec<(usize, usize)> = Vec::new();
    if m == 0 || m > n {
        return out;
    }
    let last: usize = n - m;
    let mut i: usize = 0;
    while i <= last
        invariant
            n == c@.len(),
            m == pat@.len(),
            1 <= m <= n,
            last == n - m,
            0 <= i <= last + 1,
            occ_from(c@, pat@, 0) == out@ + occ_from(c@, pat@, i as int),
        decreases last + 1 - i,
    {
        if match_at(c, pat, i) {
            out.push((i, i + m));
            proof {
                assert(occ_from(c@, pat@, i as int) =~= seq![(i as usize, (i + m) as usize)]
                    + occ_from(c@, pat@, i + 1));
            }
        } else {
            proof {
                assert(occ_from(c@, pat@, i as int) =~= occ_from(c@, pat@, i + 1));
            }
        }
        i += 1;
    }
    proof {
        assert(occ_from(c@, pat@, last + 1) =~= Seq::<(usize, usize)>::empty());
        assert(occ_from(c@, pat@, 0) =~= out@);
    }
    out
}

/// One search result: the entry, and the byte-offset spans where the
/// content pattern occurred (empty when the match is by name alone).
pub struct SearchMatch {
    pub entry: FileEntry,
    pub matched_ranges: Vec<(usize, usize)>,
}

/// The mathematical value of one match.
#[verifier::ext_equal]
pub struct MatchView {
    pub entry: EntryView,
    pub matched_ranges: Seq<(usize, usize)>,
}

impl View for SearchMatch {
    type V = MatchView;

    open spec fn view(&self) -> MatchView {
        MatchView { entry: self.entry@, matched_ranges: self.matched_ranges@ }
    }
}

pub open spec fn ms_view(s: Seq<SearchMatch>) -> Seq<MatchView> {
    s.map_values(|m: SearchMatch| m@)
}

/// Whether the entry's own name matches the name pattern exactly.
pub open spec fn name_exact(q: QueryView, e: EntryView) -> bool {
    let qp = query_policy(q.case_sensitive);
    &&& q.name_pattern is Some
    &&& e.path.len() > 0
    &&& fold_seg(qp, e.path.last()) == fold_seg(qp, q.name_pattern->0)
}

/// Whether the name pattern occurs inside the entry's name.
pub open spec fn name_sub(q: QueryView, e: EntryView) -> bool {
    let qp = query_policy(q.case_sensitive);
    &&& q.name_pattern is Some
    &&& e.path.len() > 0
    &&& contains_sub(fold_seg(qp, e.path.last()), fold_seg(qp, q.name_pattern->0))
}

/// The content-pattern occurrences inside the file at the entry's path,
/// if the entry is a readable text file that the pattern occurs in.
///
/// A file whose bytes contain a NUL is treated as binary and skipped for
/// content matching — a defined policy, not an error.
pub open spec fn content_occs(policy: CasePolicy, v: NodeView, q: QueryView, e: EntryView) -> Option<
    Seq<(usize, usize)>,
> {
    let qp = query_policy(q.case_sensitive);
    match q.content_pattern {
        Option::None => Option::None,
        Option::Some(pat) => {
            match node_get(policy, v, e.path) {
                Option::Some(NodeView::File { content, readable }) => {
                    if readable && nul_free(content) && contains_sub(
                        fold_seg(qp, content),
                        fold_seg(qp, pat),
                    ) {
                        Option::Some(occ_from(fold_seg(qp, content), fold_seg(qp, pat), 0))
                    } else {
                        Option::None
                    }
                },
                _ => Option::None,
            }
        },
    }
}

/// Whether the entry is a hit for the query at all.
pub open spec fn is_hit(policy: CasePolicy, v: NodeView, q: QueryView, e: EntryView) -> bool {
    name_exact(q, e) || name_sub(q, e) || content_occs(policy, v, q, e) is Some
}

/// The match record for a hit.
pub open spec fn match_of(policy: CasePolicy, v: NodeView, q: QueryView, e: EntryView) -> MatchView {
    MatchView {
        entry: e,
        matched_ranges: match content_occs(policy, v, q, e) {
            Option::Some(r) => r,
            Option::None => Seq::<(usize, usize)>::empty(),
        },
    }
}

/// The ordering group of a hit: exact name matches first, then substring
/// name matches, then content-only matches.
pub open spec fn group_of(q: QueryView, e: EntryView) -> u32 {
    if name_exact(q, e) {
        0
    } else if name_sub(q, e) {
        1
    } else {
        2
    }
}

/// The entries of `ws` standing at depth `d`, in their walk order.
pub open spec fn level_of(ws: Seq<EntryView>, d: int) -> Seq<EntryView>
    decreases ws.len(),
{
    if ws.len() == 0 {
        ws
    } else {
        level_of(ws.drop_last(), d) + (if ws.last().path.len() == d {
            seq![ws.last()]
        } else {
            Seq::<EntryView>::empty()
        })
    }
}

/// The walk reordered by depth, shallower entries first; inside one depth
/// the walk order — lexicographic by path — is kept.
pub open spec fn by_depth(ws: Seq<EntryView>, d: nat) -> Seq<EntryView>
    decreases d,
{
    if d == 0 {
        Seq::<EntryView>::empty()
    } else {
        by_depth(ws, (d - 1) as nat) + level_of(ws, d as int)
    }
}

/// The deepest path length present.
pub open spec fn max_depth_of(ws: Seq<EntryView>) -> nat
    decreases ws.len(),
{
    if ws.len() == 0 {
        0
    } else {
        let rest = max_depth_of(ws.drop_last());
        if ws.last().path.len() > rest {
            ws.last().path.len()
        } else {
            rest
        }
    }
}

/// The hits among `es`, in order, as match records.
pub open spec fn hits_of(policy: CasePolicy, v: NodeView, q: QueryView, es: Seq<EntryView>) -> Seq<
    MatchView,
>
    decreases es.len(),
{
    if es.len() == 0 {
        Seq::<MatchView>::empty()
    } else {
        hits_of(policy, v, q, es.drop_last()) + (if is_hit(policy, v, q, es.last()) {
            seq![match_of(policy, v, q, es.last())]
        } else {
            Seq::<MatchView>::empty()
        })
    }
}

/// The matches of group `g`, in order.
pub open spec fn group_filter(q: QueryView, ms: Seq<MatchView>, g: u32) -> Seq<MatchView>
    decreases ms.len(),
{
    if ms.len() == 0 {
        ms
    } else {
        group_filter(q, ms.drop_last(), g) + (if group_of(q, ms.last().entry) == g {
            seq![ms.last()]
        } else {
            Seq::<MatchView>::empty()
        })
    }
}

/// At most the first `k` elements.
pub open spec fn take_at_most(ms: Seq<MatchView>, k: int) -> Seq<MatchView> {
    if k <= ms.len() {
        ms.take(k)
    } else {
        ms
    }
}

/// What `search` returns on a tree value.
///
/// A query with neither pattern fails with `EmptyQuery`; a missing root
/// folder with `NotFound`.  Candidates are visited shallowest first and
/// lexicographically within one depth, hits are collected until
/// `max_results` of them are found (trading completeness for
/// responsiveness), and the collected hits are returned with exact name
/// matches first, then substring name matches, then content-only matches,
/// each group keeping the depth-then-lexicographic order.
pub open spec fn spec_search(policy: CasePolicy, v: NodeView, q: QueryView) -> Result<
    Seq<MatchView>,
    FsError,
> {
    if q.name_pattern is None && q.content_pattern is None {
        Err(FsError::EmptyQuery)
    } else {
        match spec_walk(policy, v, q.root, Seq::<Seq<u8>>::empty(), false, Option::None) {
            Err(e) => Err(e),
            Ok(ws) => {
                let ordered = by_depth(ws, max_depth_of(ws));
                let taken = take_at_most(
                    hits_of(policy, v, q, ordered),
                    q.max_results as int,
                );
                Ok(
                    group_filter(q, taken, 0) + group_filter(q, taken, 1) + group_filter(
                        q,
                        taken,
                        2,
                    ),
                )
            },
        }
    }
}

/// Running an unchanged query twice against an unmodified tree yields
/// identical ordered match sequences: the result is a function of the
/// tree value and the query alone.
pub proof fn lemma_search_idempotent(
    policy: CasePolicy,
    v: NodeView,
    q: QueryView,
    r1: Seq<MatchView>,
    r2: Seq<MatchView>,
)
    requires
        spec_search(policy, v, q) == Ok::<Seq<MatchView>, FsError>(r1),
        spec_search(policy, v, q) == Ok::<Seq<MatchView>, FsError>(r2),
    ensures
        r1 == r2,
{
}

/// An equal, independently owned entry.
pub fn copy_entry(e: &FileEntry) -> (r: FileEntry)
    ensures
        r@ == e@,
{
    FileEntry { path: e.path.duplicate(), kind: e.kind, size: e.size, modified: e.modified }
}

/// An equal, independently owned span list.
fn copy_ranges(v: &Vec<(usize, usize)>) -> (r: Vec<(usize, usize)>)
    ensures
        r@ == v@,
{
    let n: usize = v.len();
    let mut r: Vec<(usize, usize)> = Vec::new();
    let mut i: usize = 0;
    while i < n
        invariant
            n == v@.len(),
            0 <= i <= n,
            r@ == v@.take(i as int),
        decreases n - i,
    {
        r.push((v[i].0, v[i].1));
        proof {
            assert(v@[i as int] == (v@[i as int].0, v@[i as int].1));
            assert(v@.take(i + 1) =~= v@.take(i as int).push(v@[i as int]));
        }
        i += 1;
    }
    proof {
        assert(v@.take(n as int) =~= v@);
    }
    r
}

/// An equal, independently owned match.
pub fn copy_match(m: &SearchMatch) -> (r: SearchMatch)
    ensures
        r@ == m@,
{
    SearchMatch { entry: copy_entry(&m.entry), matched_ranges: copy_ranges(&m.matched_ranges) }
}

/// Exec mirror of `nul_free`.
fn nul_free_exec(c: &Vec<u8>) -> (r: bool)
    ensures
        r == nul_free(c@),
{
    let n: usize = c.len();
    let mut i: usize = 0;
    while i < n
        invariant
            n == c@.len(),
            0 <= i <= n,
            forall|j: int| 0 <= j < i ==> #[trigger] c@[j] != crate::path::NUL,
        decreases n - i,
    {
        if c[i] == crate::path::NUL {
            proof {
                assert(!nul_free(c@)) by {
                    assert(c@[i as int] == crate::path::NUL);
                }
            }
            return false;
        }
        i += 1;
    }
    true
}

/// The query's folding policy, exec side.
fn query_policy_exec(case_sensitive: bool) -> (r: CasePolicy)
    ensures
        r == query_policy(case_sensitive),
{
    if case_sensitive {
        CasePolicy::Sensitive
    } else {
        CasePolicy::Insensitive
    }
}

/// Classifies one walked entry against the query: the match record when
/// it is a hit, `None` otherwise.
fn hit_match(tree: &FsTree, q: &SearchQuery, e: &FileEntry) -> (r: Option<SearchMatch>)
    ensures
        match r {
            Some(m) => is_hit(tree.policy, tree.view_root(), q@, e@) && m@ == match_of(
                tree.policy,
                tree.view_root(),
                q@,
                e@,
            ),
            None => !is_hit(tree.policy, tree.view_root(), q@, e@),
        },
{
    let qp = query_policy_exec(q.case_sensitive);
    let mut name_is_hit: bool = false;
    match &q.name_pattern {
        Option::Some(pat) => {
            let d: usize = e.path.depth();
            if d > 0 {
                let name = e.path.seg_at(d - 1);
                proof {
                    assert(e.path@.last() == e.path@[d - 1]);
                }
                if crate::path::seg_eq(qp, name, pat) {
                    name_is_hit = true;
                    proof {
                        assert(name_exact(q@, e@));
                    }
                } else {
                    let fname = fold_vec(qp, name);
                    let fpat = fold_vec(qp, pat);
                    let occ = occurrences(&fname, &fpat);
                    if occ.len() > 0 {
                        name_is_hit = true;
                        proof {
                            assert(name_sub(q@, e@));
                        }
                    }
                }
            }
        },
        Option::None => {},
    }
    proof {
        if name_is_hit {
            assert(name_exact(q@, e@) || name_sub(q@, e@));
        } else {
            assert(!name_exact(q@, e@)) by {
                if name_exact(q@, e@) {
                    assert(contains_sub(
                        fold_seg(query_policy(q@.case_sensitive), e@.path.last()),
                        fold_seg(query_policy(q@.case_sensitive), q@.name_pattern->0),
                    ) || fold_seg(query_policy(q@.case_sensitive), e@.path.last()) == fold_seg(
                        query_policy(q@.case_sensitive),
                        q@.name_pattern->0,
                    ));
                }
            }
        }
    }
    let mut ranges: Option<Vec<(usize, usize)>> = None;
    match &q.content_pattern {
        Option::Some(pat) => {
            proof {
                assert(e.path@.skip(0) =~= e.path@);
            }
            match node_find(tree.policy, &tree.root, &e.path, 0) {
                Option::Some(n) => {
                    match n {
                        FsNode::File { content, readable } => {
                            if *readable && nul_free_exec(content) {
                                let fc = fold_vec(qp, content);
                                let fp = fold_vec(qp, pat);
                                let occ = occurrences(&fc, &fp);
                                if occ.len() > 0 {
                                    ranges = Some(occ);
                                }
                            }
                        },
                        _ => {},
                    }
                },
                Option::None => {},
            }
        },
        Option::None => {},
    }
    proof {
        match &ranges {
            Option::Some(v) => {
                assert(content_occs(tree.policy, tree.view_root(), q@, e@) == Some(v@));
            },
            Option::None => {
                assert(content_occs(tree.policy, tree.view_root(), q@, e@) is None);
            },
        }
    }
    match ranges {
        Option::Some(v) => Some(SearchMatch { entry: copy_entry(e), matched_ranges: v }),
        Option::None => {
            if name_is_hit {
                Some(SearchMatch { entry: copy_entry(e), matched_ranges: Vec::new() })
            } else {
                None
            }
        },
    }
}

/// The ordering group of a hit, exec side.
fn group_exec(q: &SearchQuery, e: &FileEntry) -> (g: u32)
    ensures
        g == group_of(q@, e@),
{
    let qp = query_policy_exec(q.case_sensitive);
    match &q.name_pattern {
        Option::Some(pat) => {
            let d: usize = e.path.depth();
            if d > 0 {
                let name = e.path.seg_at(d - 1);
                proof {
                    assert(e.path@.last() == e.path@[d - 1]);
                }
                if crate::path::seg_eq(qp, name, pat) {
                    return 0;
                }
                let fname = fold_vec(qp, name);
                let fpat = fold_vec(qp, pat);
                let occ = occurrences(&fname, &fpat);
                if occ.len() > 0 {
                    return 1;
                }
                return 2;
            }
            2
        },
        Option::None => 2,
    }
}

/// Answers a search query against the tree.
///
/// A query with neither a name pattern nor a content pattern fails with
/// `EmptyQuery`; a root that is missing or not a directory with
/// `NotFound`.  Candidates are visited shallowest first, in lexicographic
/// path order within one depth; hits are collected until `max_results`
/// are found; exact name matches are returned first, then substring name
/// matches, then content-only matches.  The tree is only read.
pub fn search(tree: &FsTree, q: &SearchQuery) -> (r: Result<Vec<SearchMatch>, FsError>)
    ensures
        match r {
            Ok(v) => spec_search(tree.policy, tree.view_root(), q@) == Ok::<
                Seq<MatchView>,
                FsError,
            >(ms_view(v@)),
            Err(e) => spec_search(tree.policy, tree.view_root(), q@) == Err::<
                Seq<MatchView>,
                FsError,
            >(e),
        },
{
    if matches!(&q.name_pattern, Option::None) && matches!(&q.content_pattern, Option::None) {
        return Err(FsError::EmptyQuery);
    }
    let opts = WalkOptions { max_depth: None, follow_symlinks: false, ignore: Vec::new() };
    proof {
        assert(opts.ignore.deep_view() =~= Seq::<Seq<u8>>::empty());
    }
    let ws: Vec<FileEntry> = match walk(tree, &q.root, &opts) {
        Ok(v) => v,
        Err(e) => {
            return Err(e);
        },
    };
    let ghost wsv = fes_view(ws@);
    let n: usize = ws.len();
    proof {
        assert(wsv.len() == n);
    }
    // deepest level present
    let mut maxd: usize = 0;
    let mut i: usize = 0;
    while i < n
        invariant
            n == ws@.len(),
            wsv == fes_view(ws@),
            wsv.len() == n,
            0 <= i <= n,
            maxd == max_depth_of(wsv.take(i as int)),
        decreases n - i,
    {
        let d: usize = ws[i].path.depth();
        if d > maxd {
            maxd = d;
        }
        proof {
            assert(wsv.take(i + 1).drop_last() =~= wsv.take(i as int));
            assert(wsv.take(i + 1).last() == wsv[i as int]);
            assert(wsv[i as int].path.len() == d);
        }
        i += 1;
    }
    proof {
        assert(wsv.take(n as int) =~= wsv);
    }
    // reorder by depth, keeping walk order inside one depth
    let mut ordered: Vec<FileEntry> = Vec::new();
    proof {
        assert(fes_view(ordered@) =~= by_depth(wsv, 0));
    }
    let mut dd: usize = 0;
    while dd < maxd
        invariant
            n == ws@.len(),
            wsv == fes_view(ws@),
            wsv.len() == n,
            0 <= dd <= maxd,
            fes_view(ordered@) == by_depth(wsv, dd as nat),
        decreases maxd - dd,
    {
        dd += 1;
        let mut j: usize = 0;
        proof {
            assert(level_of(wsv.take(0), dd as int) =~= Seq::<EntryView>::empty());
            assert(fes_view(ordered@) + level_of(wsv.take(0), dd as int) =~= fes_view(ordered@));
        }
        let ghost base = fes_view(ordered@);
        while j < n
            invariant
                n == ws@.len(),
                wsv == fes_view(ws@),
                wsv.len() == n,
                0 <= j <= n,
                1 <= dd,
                fes_view(ordered@) == base + level_of(wsv.take(j as int), dd as int),
            decreases n - j,
        {
            proof {
                assert(wsv.take(j + 1).drop_last() =~= wsv.take(j as int));
                assert(wsv.take(j + 1).last() == wsv[j as int]);
            }
            if ws[j].path.depth() == dd {
                let e2 = copy_entry(&ws[j]);
                let ghost e2v = e2@;
                ordered.push(e2);
                proof {
                    assert(fes_view(ordered@) =~= base + level_of(wsv.take(j as int), dd as int)
                        + seq![e2v]);
                    assert(level_of(wsv.take(j + 1), dd as int) =~= level_of(
                        wsv.take(j as int),
                        dd as int,
                    ) + seq![wsv[j as int]]);
                    assert(fes_view(ordered@) =~= base + level_of(wsv.take(j + 1), dd as int));
                }
            } else {
                proof {
                    assert(level_of(wsv.take(j + 1), dd as int) =~= level_of(
                        wsv.take(j as int),
                        dd as int,
                    ));
                }
            }
            j += 1;
        }
        proof {
            assert(wsv.take(n as int) =~= wsv);
            assert(fes_view(ordered@) =~= by_depth(wsv, dd as nat));
        }
    }
    let ghost ordv = fes_view(ordered@);
    proof {
        assert(ordv == by_depth(wsv, max_depth_of(wsv)));
    }
    // collect hits in order
    let m: usize = ordered.len();
    let mut hits: Vec<SearchMatch> = Vec::new();
    proof {
        assert(ordv.len() == m);
        assert(ms_view(hits@) =~= hits_of(tree.policy, tree.view_root(), q@, ordv.take(0)));
    }
    let mut j: usize = 0;
    while j < m
        invariant
            m == ordered@.len(),
            ordv == fes_view(ordered@),
            ordv.len() == m,
            0 <= j <= m,
            ms_view(hits@) == hits_of(tree.policy, tree.view_root(), q@, ordv.take(j as int)),
        decreases m - j,
    {
        proof {
            assert(ordv.take(j + 1).drop_last() =~= ordv.take(j as int));
            assert(ordv.take(j + 1).last() == ordv[j as int]);
        }
        match hit_match(tree, q, &ordered[j]) {
            Option::Some(mm) => {
                let ghost mv = mm@;
                hits.push(mm);
                proof {
                    assert(ms_view(hits@) =~= hits_of(
                        tree.policy,
                        tree.view_root(),
                        q@,
                        ordv.take(j as int),
                    ) + seq![mv]);
                    assert(ms_view(hits@) =~= hits_of(
                        tree.policy,
                        tree.view_root(),
                        q@,
                        ordv.take(j + 1),
                    ));
                }
            },
            Option::None => {
                proof {
                    assert(hits_of(tree.policy, tree.view_root(), q@, ordv.take(j + 1))
                        =~= hits_of(tree.policy, tree.view_root(), q@, ordv.take(j as int)));
                }
            },
        }
        j += 1;
    }
    proof {
        assert(ordv.take(m as int) =~= ordv);
    }
    // cap at max_results
    let cap: usize = q.max_results as usize;
    let ghost full_hits = ms_view(hits@);
    if cap < hits.len() {
        hits.truncate(cap);
        proof {
            assert(ms_view(hits@) =~= take_at_most(full_hits, q@.max_results as int));
        }
    }
    proof {
        assert(ms_view(hits@) =~= take_at_most(full_hits, q@.max_results as int));
    }
    let ghost takenv = ms_view(hits@);
    // exact name matches first, then substring name matches, then content
    let k: usize = hits.len();
    let mut res: Vec<SearchMatch> = Vec::new();
    let ghost groups: Seq<u32> = seq![0u32, 1u32, 2u32];
    let mut g: u32 = 0;
    let ghost done = Seq::<MatchView>::empty();
    proof {
        assert(res@ =~= Seq::<SearchMatch>::empty());
    }
    while g < 3
        invariant
            k == hits@.len(),
            takenv == ms_view(hits@),
            0 <= g <= 3,
            ms_view(res@) == (if g == 0 {
                Seq::<MatchView>::empty()
            } else if g == 1 {
                group_filter(q@, takenv, 0)
            } else if g == 2 {
                group_filter(q@, takenv, 0) + group_filter(q@, takenv, 1)
            } else {
                group_filter(q@, takenv, 0) + group_filter(q@, takenv, 1) + group_filter(
                    q@,
                    takenv,
                    2,
                )
            }),
        decreases 3 - g,
    {
        let ghost res0 = ms_view(res@);
        proof {
            assert(group_filter(q@, takenv.take(0), g) =~= Seq::<MatchView>::empty());
            assert(res0 + group_filter(q@, takenv.take(0), g) =~= res0);
        }
        let mut j2: usize = 0;
        while j2 < k
            invariant
                k == hits@.len(),
                takenv == ms_view(hits@),
                takenv.len() == k,
                0 <= j2 <= k,
                g < 3,
                ms_view(res@) == res0 + group_filter(q@, takenv.take(j2 as int), g),
            decreases k - j2,
        {
            proof {
                assert(takenv.take(j2 + 1).drop_last() =~= takenv.take(j2 as int));
                assert(takenv.take(j2 + 1).last() == takenv[j2 as int]);
            }
            let mg: u32 = group_exec(q, &hits[j2].entry);
            if mg == g {
                let c = copy_match(&hits[j2]);
                let ghost cv = c@;
                res.push(c);
                proof {
                    assert(ms_view(res@) =~= res0 + group_filter(q@, takenv.take(j2 as int), g)
                        + seq![cv]);
                    assert(group_filter(q@, takenv.take(j2 + 1), g) =~= group_filter(
                        q@,
                        takenv.take(j2 as int),
                        g,
                    ) + seq![takenv[j2 as int]]);
                    assert(ms_view(res@) =~= res0 + group_filter(q@, takenv.take(j2 + 1), g));
                }
            } else {
                proof {
                    assert(group_filter(q@, takenv.take(j2 + 1), g) =~= group_filter(
                        q@,
                        takenv.take(j2 as int),
                        g,
                    ));
                }
            }
            j2 += 1;
        }
        proof {
            assert(takenv.take(k as int) =~= takenv);
        }
        g += 1;
    }
    Ok(res)
}

} // verus!
