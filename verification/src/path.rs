use vstd::prelude::*;

verus! {

use crate::errors::FsError;
use vstd::string::StringSliceAdditionalSpecFns;
use vstd::utf8::encode_utf8;

/// Path separator accepted in raw path strings.
pub const SEP: u8 = 47;

/// Alternative separator accepted in raw path strings (backslash).
pub const SEP_ALT: u8 = 92;

/// The one byte that is illegal inside any path on every supported host.
pub const NUL: u8 = 0;

/// ASCII full stop, the byte of the `.` and `..` pseudo-segments.
pub const DOT: u8 = 46;

/// Whether two segments that differ only in ASCII letter case address the
/// same entry.  This is a configured property of the tree being addressed,
/// never inferred from the host at run time.
#[derive(Clone, Copy, Debug, PartialEq, Eq, Structural)]
pub enum CasePolicy {
    Sensitive,
    Insensitive,
}

pub open spec fn is_sep(b: u8) -> bool {
    b == SEP || b == SEP_ALT
}

/// The byte used for comparisons under `policy`: ASCII upper-case letters
/// fold to lower case when the policy is case-insensitive.
pub open spec fn fold_byte(policy: CasePolicy, b: u8) -> u8 {
    if policy is Insensitive && 65 <= b && b <= 90 {
        (b + 32) as u8
    } else {
        b
    }
}

/// A whole segment folded byte by byte under `policy`.
pub open spec fn fold_seg(policy: CasePolicy, s: Seq<u8>) -> Seq<u8> {
    s.map_values(|b: u8| fold_byte(policy, b))
}

/// No NUL byte anywhere in the sequence.
pub open spec fn nul_free(s: Seq<u8>) -> bool {
    forall|i: int| 0 <= i < s.len() ==> #[trigger] s[i] != NUL
}

/// A segment free of separators and of the illegal NUL byte.
pub open spec fn seg_clean(s: Seq<u8>) -> bool {
    forall|i: int| 0 <= i < s.len() ==> !is_sep(#[trigger] s[i]) && s[i] != NUL
}

pub open spec fn is_dot(s: Seq<u8>) -> bool {
    s.len() == 1 && s[0] == DOT
}

pub open spec fn is_dotdot(s: Seq<u8>) -> bool {
    s.len() == 2 && s[0] == DOT && s[1] == DOT
}

/// A segment as it may appear in a normalized path: non-empty, clean, and
/// not one of the two pseudo-segments (those are resolved away).
pub open spec fn seg_wf(s: Seq<u8>) -> bool {
    s.len() > 0 && !is_dot(s) && !is_dotdot(s) && seg_clean(s)
}

pub open spec fn path_wf(p: Seq<Seq<u8>>) -> bool {
    forall|i: int| 0 <= i < p.len() ==> seg_wf(#[trigger] p[i])
}

/// The raw bytes of a path string cut at every separator.  Pieces may be
/// empty (redundant separators) and may be the `.`/`..` pseudo-segments;
/// `resolve_segs` deals with those.
pub open spec fn split_raw(s: Seq<u8>) -> Seq<Seq<u8>>
    decreases s.len(),
{
    if s.len() == 0 {
        seq![Seq::<u8>::empty()]
    } else {
        let r = split_raw(s.drop_last());
        if is_sep(s.last()) {
            r.push(Seq::<u8>::empty())
        } else {
            r.update(r.len() - 1, r.last().push(s.last()))
        }
    }
}

/// One step of lexical `.`/`..` resolution: empty pieces and `.` vanish,
/// `..` discards the previous segment (or nothing at the root), and any
/// other piece is kept.
pub open spec fn resolve_step(acc: Seq<Seq<u8>>, seg: Seq<u8>) -> Seq<Seq<u8>> {
    if seg.len() == 0 || is_dot(seg) {
        acc
    } else if is_dotdot(seg) {
        if acc.len() == 0 {
            acc
        } else {
            acc.drop_last()
        }
    } else {
        acc.push(seg)
    }
}

/// Lexical resolution of a sequence of raw pieces on top of the already
/// resolved prefix `acc`.  No filesystem access, no symlink resolution.
pub open spec fn resolve_segs(acc: Seq<Seq<u8>>, segs: Seq<Seq<u8>>) -> Seq<Seq<u8>>
    decreases segs.len(),
{
    if segs.len() == 0 {
        acc
    } else {
        resolve_step(resolve_segs(acc, segs.drop_last()), segs.last())
    }
}

/// A raw absolute path string: non-empty, starts at the root, holds no NUL.
pub open spec fn raw_ok(s: Seq<u8>) -> bool {
    s.len() > 0 && is_sep(s[0]) && nul_free(s)
}

/// What `normalize` computes from the bytes of a raw path string.
pub open spec fn norm_of(s: Seq<u8>) -> Seq<Seq<u8>> {
    resolve_segs(Seq::<Seq<u8>>::empty(), split_raw(s))
}

/// What `join` computes: every fragment is split and resolved, in order,
/// on top of the base path.
pub open spec fn join_of(base: Seq<Seq<u8>>, frags: Seq<Seq<u8>>) -> Seq<Seq<u8>>
    decreases frags.len(),
{
    if frags.len() == 0 {
        base
    } else {
        resolve_segs(join_of(base, frags.drop_last()), split_raw(frags.last()))
    }
}

/// A platform-normalized, immutable path: the sequence of its segments,
/// root first.  The empty sequence is the root itself; `normalize` and
/// `join` never return it, but operations may be addressed to it.
#[derive(Debug, PartialEq, Eq)]
pub struct FsPath {
    pub segs: Vec<Vec<u8>>,
}

impl View for FsPath {
    type V = Seq<Seq<u8>>;

    open spec fn view(&self) -> Seq<Seq<u8>> {
        self.segs.deep_view()
    }
}

/// An equal, independently owned byte vector.
pub fn copy_bytes(v: &Vec<u8>) -> (r: Vec<u8>)
    ensures
        r@ == v@,
{
    let n: usize = v.len();
    let mut r: Vec<u8> = Vec::new();
    let mut i: usize = 0;
    while i < n
        invariant
            n == v@.len(),
            0 <= i <= n,
            r@ == v@.take(i as int),
        decreases n - i,
    {
        r.push(v[i]);
        proof {
            assert(v@.take(i + 1) =~= v@.take(i as int).push(v@[i as int]));
        }
        i += 1;
    }
    proof {
        assert(v@.take(n as int) =~= v@);
    }
    r
}

/// An equal, independently owned segment vector.
pub fn copy_segs(v: &Vec<Vec<u8>>) -> (r: Vec<Vec<u8>>)
    ensures
        r.deep_view() == v.deep_view(),
{
    let n: usize = v.len();
    let mut r: Vec<Vec<u8>> = Vec::new();
    proof {
        assert(v.deep_view().len() == v@.len());
        assert(r.deep_view() =~= v.deep_view().take(0));
    }
    let mut i: usize = 0;
    while i < n
        invariant
            n == v@.len(),
            0 <= i <= n,
            r.deep_view() == v.deep_view().take(i as int),
        decreases n - i,
    {
        proof {
            assert(r.deep_view().len() == i);
            assert(r@.len() == i);
        }
        let s: Vec<u8> = copy_bytes(&v[i]);
        r.push(s);
        proof {
            assert(s.deep_view() =~= s@);
            assert(v@[i as int].deep_view() =~= v@[i as int]@);
            assert(r.deep_view() =~= v.deep_view().take(i + 1));
        }
        i += 1;
    }
    proof {
        assert(v.deep_view().take(n as int) =~= v.deep_view());
    }
    r
}

impl FsPath {
    pub open spec fn wf(&self) -> bool {
        path_wf(self@)
    }

    /// The root path: no segments.
    pub fn root() -> (r: FsPath)
        ensures
            r@ =~= Seq::<Seq<u8>>::empty(),
            r.wf(),
    {
        FsPath { segs: Vec::new() }
    }

    pub fn depth(&self) -> (r: usize)
        ensures
            r == self@.len(),
    {
        self.segs.len()
    }

    pub fn seg_at(&self, i: usize) -> (r: &Vec<u8>)
        requires
            i < self@.len(),
        ensures
            r@ == self@[i as int],
    {
        let r: &Vec<u8> = &self.segs[i];
        proof {
            assert(r@ =~= self@[i as int]);
        }
        r
    }

    /// An equal, independently owned path.
    pub fn duplicate(&self) -> (r: FsPath)
        ensures
            r@ == self@,
    {
        FsPath { segs: copy_segs(&self.segs) }
    }

    /// The path with the last segment removed; the root is its own parent.
    pub fn parent(&self) -> (r: FsPath)
        ensures
            self@.len() == 0 ==> r@ == self@,
            self@.len() > 0 ==> r@ == self@.drop_last(),
            self.wf() ==> r.wf(),
    {
        let mut segs: Vec<Vec<u8>> = copy_segs(&self.segs);
        if segs.len() > 0 {
            segs.pop();
            proof {
                assert(segs.deep_view() =~= self@.drop_last());
            }
        }
        FsPath { segs }
    }
}

/// Strict lexicographic order on byte sequences: the shorter sequence
/// comes first among sequences that agree on their common prefix.
pub open spec fn bytes_lt(a: Seq<u8>, b: Seq<u8>) -> bool
    decreases a.len(),
{
    if b.len() == 0 {
        false
    } else if a.len() == 0 {
        true
    } else if a[0] < b[0] {
        true
    } else if a[0] > b[0] {
        false
    } else {
        bytes_lt(a.drop_first(), b.drop_first())
    }
}

pub proof fn lemma_bytes_lt_irrefl(a: Seq<u8>)
    ensures
        !bytes_lt(a, a),
    decreases a.len(),
{
    if a.len() > 0 {
        lemma_bytes_lt_irrefl(a.drop_first());
    }
}

pub proof fn lemma_bytes_lt_trans(a: Seq<u8>, b: Seq<u8>, c: Seq<u8>)
    requires
        bytes_lt(a, b),
        bytes_lt(b, c),
    ensures
        bytes_lt(a, c),
    decreases a.len(),
{
    if a.len() > 0 && b.len() > 0 && c.len() > 0 && a[0] == b[0] && b[0] == c[0] {
        lemma_bytes_lt_trans(a.drop_first(), b.drop_first(), c.drop_first());
    }
}

/// Any two distinct byte sequences are ordered one way or the other.
pub proof fn lemma_bytes_lt_connex(a: Seq<u8>, b: Seq<u8>)
    requires
        a != b,
    ensures
        bytes_lt(a, b) || bytes_lt(b, a),
    decreases a.len(),
{
    if a.len() == 0 && b.len() == 0 {
        assert(a =~= b);
    }
    if a.len() > 0 && b.len() > 0 && a[0] == b[0] {
        if a.drop_first() == b.drop_first() {
            assert(a.drop_first().len() == b.drop_first().len());
            assert(a.len() == b.len());
            assert forall|i: int| 0 <= i < a.len() implies a[i] == b[i] by {
                if i > 0 {
                    assert(a[i] == a.drop_first()[i - 1]);
                    assert(b[i] == b.drop_first()[i - 1]);
                }
            }
            assert(a =~= b);
        }
        lemma_bytes_lt_connex(a.drop_first(), b.drop_first());
    }
}

/// Result of a three-way comparison.
#[derive(Clone, Copy, Debug, PartialEq, Eq, Structural)]
pub enum Cmp {
    Less,
    Equal,
    Greater,
}

/// Three-way comparison of two segments under `policy`.
pub fn seg_cmp(policy: CasePolicy, a: &Vec<u8>, b: &Vec<u8>) -> (r: Cmp)
    ensures
        r is Less <==> bytes_lt(fold_seg(policy, a@), fold_seg(policy, b@)),
        r is Equal <==> fold_seg(policy, a@) == fold_seg(policy, b@),
        r is Greater <==> bytes_lt(fold_seg(policy, b@), fold_seg(policy, a@)),
{
    let ghost fa = fold_seg(policy, a@);
    let ghost fb = fold_seg(policy, b@);
    let an: usize = a.len();
    let bn: usize = b.len();
    let n: usize = if an < bn {
        an
    } else {
        bn
    };
    let mut i: usize = 0;
    proof {
        assert(fa.skip(0) =~= fa);
        assert(fb.skip(0) =~= fb);
    }
    while i < n
        invariant
            an == a@.len() && bn == b@.len(),
            n == (if an < bn {
                an
            } else {
                bn
            }),
            0 <= i <= n,
            fa == fold_seg(policy, a@) && fb == fold_seg(policy, b@),
            forall|j: int| 0 <= j < i ==> fa[j] == fb[j],
            bytes_lt(fa, fb) == bytes_lt(fa.skip(i as int), fb.skip(i as int)),
            bytes_lt(fb, fa) == bytes_lt(fb.skip(i as int), fa.skip(i as int)),
        decreases n - i,
    {
        let ca: u8 = fold_byte_exec(policy, a[i]);
        let cb: u8 = fold_byte_exec(policy, b[i]);
        proof {
            assert(fa.skip(i as int)[0] == fa[i as int]);
            assert(fb.skip(i as int)[0] == fb[i as int]);
        }
        if ca < cb {
            proof {
                assert(bytes_lt(fa.skip(i as int), fb.skip(i as int)));
                assert(!bytes_lt(fb.skip(i as int), fa.skip(i as int)));
                assert(fa[i as int] != fb[i as int]);
            }
            return Cmp::Less;
        }
        if ca > cb {
            proof {
                assert(bytes_lt(fb.skip(i as int), fa.skip(i as int)));
                assert(!bytes_lt(fa.skip(i as int), fb.skip(i as int)));
                assert(fa[i as int] != fb[i as int]);
            }
            return Cmp::Greater;
        }
        proof {
            assert(fa.skip(i as int).drop_first() =~= fa.skip(i + 1));
            assert(fb.skip(i as int).drop_first() =~= fb.skip(i + 1));
        }
        i += 1;
    }
    if an < bn {
        proof {
            assert(fa.skip(n as int).len() == 0 && fb.skip(n as int).len() > 0);
            assert(fa != fb);
        }
        return Cmp::Less;
    }
    if an > bn {
        proof {
            assert(fb.skip(n as int).len() == 0 && fa.skip(n as int).len() > 0);
            assert(fa != fb);
        }
        return Cmp::Greater;
    }
    proof {
        assert(fa =~= fb);
        lemma_bytes_lt_irrefl(fa);
    }
    Cmp::Equal
}

/// Exec mirror of `is_sep`.
pub fn sep_byte(b: u8) -> (r: bool)
    ensures
        r == is_sep(b),
{
    b == SEP || b == SEP_ALT
}

/// Exec mirror of `fold_byte`.
pub fn fold_byte_exec(policy: CasePolicy, b: u8) -> (r: u8)
    ensures
        r == fold_byte(policy, b),
{
    if matches!(policy, CasePolicy::Insensitive) && 65 <= b && b <= 90 {
        b + 32
    } else {
        b
    }
}

/// Whether two segments are the same name under `policy`.
pub fn seg_eq(policy: CasePolicy, a: &Vec<u8>, b: &Vec<u8>) -> (r: bool)
    ensures
        r == (fold_seg(policy, a@) == fold_seg(policy, b@)),
{
    if a.len() != b.len() {
        proof {
            assert(fold_seg(policy, a@).len() != fold_seg(policy, b@).len());
        }
        return false;
    }
    let n: usize = a.len();
    let mut i: usize = 0;
    while i < n
        invariant
            n == a@.len() && n == b@.len(),
            0 <= i <= n,
            forall|j: int| 0 <= j < i ==> fold_byte(policy, a@[j]) == fold_byte(policy, b@[j]),
        decreases n - i,
    {
        if fold_byte_exec(policy, a[i]) != fold_byte_exec(policy, b[i]) {
            proof {
                assert(fold_seg(policy, a@)[i as int] != fold_seg(policy, b@)[i as int]);
            }
            return false;
        }
        i += 1;
    }
    proof {
        assert(fold_seg(policy, a@) =~= fold_seg(policy, b@));
    }
    true
}

/// One exec step of lexical resolution on the accumulator.
fn resolve_push(acc: &mut Vec<Vec<u8>>, seg: Vec<u8>)
    requires
        path_wf(old(acc).deep_view()),
        seg_clean(seg@),
    ensures
        final(acc).deep_view() == resolve_step(old(acc).deep_view(), seg@),
        path_wf(final(acc).deep_view()),
{
    let ghost acc0 = acc.deep_view();
    if seg.len() == 0 {
        return ;
    }
    if seg.len() == 1 && seg[0] == DOT {
        proof {
            assert(is_dot(seg@));
        }
        return ;
    }
    if seg.len() == 2 && seg[0] == DOT && seg[1] == DOT {
        proof {
            assert(is_dotdot(seg@));
        }
        if acc.len() > 0 {
            acc.pop();
            proof {
                assert(acc.deep_view() =~= acc0.drop_last());
            }
        }
        return ;
    }
    proof {
        assert(!is_dot(seg@) && !is_dotdot(seg@));
        assert(seg_wf(seg@));
    }
    acc.push(seg);
    proof {
        assert(acc.deep_view() =~~= acc0.push(seg@));
    }
}

/// Feeds the bytes of one raw fragment through splitting and resolution,
/// on top of the already accumulated segments.
///
/// On success the accumulator holds `resolve_segs` of the split pieces;
/// when a NUL byte is found the accumulator is left in an unspecified but
/// well-formed state and the caller reports `InvalidPath`.
fn feed_fragment(acc: &mut Vec<Vec<u8>>, bytes: &[u8]) -> (ok: bool)
    requires
        path_wf(old(acc).deep_view()),
    ensures
        path_wf(final(acc).deep_view()),
        ok ==> final(acc).deep_view() == resolve_segs(old(acc).deep_view(), split_raw(bytes@)),
        ok == nul_free(bytes@),
{
    let ghost acc0 = acc.deep_view();
    let n: usize = bytes.len();
    let mut cur: Vec<u8> = Vec::new();
    let mut i: usize = 0;
    proof {
        assert(bytes@.take(0) =~= Seq::<u8>::empty());
        assert(split_raw(bytes@.take(0)) =~= seq![Seq::<u8>::empty()]);
        assert(split_raw(bytes@.take(0)).drop_last() =~= Seq::<Seq<u8>>::empty());
    }
    while i < n
        invariant
            n == bytes@.len(),
            0 <= i <= n,
            path_wf(acc.deep_view()),
            seg_clean(cur@),
            split_raw(bytes@.take(i as int)).len() >= 1,
            acc.deep_view() == resolve_segs(acc0, split_raw(bytes@.take(i as int)).drop_last()),
            cur@ == split_raw(bytes@.take(i as int)).last(),
            forall|j: int| 0 <= j < i ==> #[trigger] bytes@[j] != NUL,
        decreases n - i,
    {
        let b: u8 = bytes[i];
        let ghost parts = split_raw(bytes@.take(i as int));
        proof {
            assert(bytes@.take(i + 1).drop_last() =~= bytes@.take(i as int));
            assert(bytes@.take(i + 1).last() == bytes@[i as int]);
        }
        if b == NUL {
            proof {
                assert(!nul_free(bytes@)) by {
                    assert(bytes@[i as int] == NUL);
                }
            }
            return false;
        }
        if sep_byte(b) {
            proof {
                assert(split_raw(bytes@.take(i + 1)) =~= parts.push(Seq::<u8>::empty()));
                assert(parts.push(Seq::<u8>::empty()).drop_last() =~= parts);
                assert(parts =~= parts.drop_last().push(parts.last()));
            }
            resolve_push(acc, cur);
            cur = Vec::new();
        } else {
            cur.push(b);
            proof {
                let parts2 = parts.update(parts.len() - 1, parts.last().push(b));
                assert(split_raw(bytes@.take(i + 1)) =~= parts2);
                assert(parts2.drop_last() =~= parts.drop_last());
                assert(parts2.last() == parts.last().push(b));
            }
        }
        i += 1;
    }
    proof {
        assert(bytes@.take(n as int) =~= bytes@);
        let parts = split_raw(bytes@);
        assert(parts =~= parts.drop_last().push(parts.last()));
    }
    resolve_push(acc, cur);
    true
}

/// Normalizes a raw absolute path string into a canonical path.
///
/// Separators (`/` and `\`) are collapsed, `.` and `..` are resolved
/// lexically without touching the filesystem, and the result is the
/// sequence of remaining segments.  Fails with `InvalidPath` when the
/// string is empty, does not start at the root, contains a NUL byte, or
/// normalizes to nothing at all.
pub fn normalize(raw: &str) -> (r: Result<FsPath, FsError>)
    ensures
        match r {
            Ok(p) => {
                &&& raw_ok(raw.spec_bytes())
                &&& p@ == norm_of(raw.spec_bytes())
                &&& p@.len() > 0
                &&& p.wf()
            },
            Err(e) => {
                &&& e == FsError::InvalidPath
                &&& !(raw_ok(raw.spec_bytes()) && norm_of(raw.spec_bytes()).len() > 0)
            },
        },
{
    let bytes: &[u8] = raw.as_bytes();
    if bytes.len() == 0 {
        return Err(FsError::InvalidPath);
    }
    let first: u8 = bytes[0];
    if !sep_byte(first) {
        return Err(FsError::InvalidPath);
    }
    let mut segs: Vec<Vec<u8>> = Vec::new();
    proof {
        assert(segs.deep_view() =~= Seq::<Seq<u8>>::empty());
    }
    let ok: bool = feed_fragment(&mut segs, bytes);
    if !ok {
        return Err(FsError::InvalidPath);
    }
    if segs.len() == 0 {
        return Err(FsError::InvalidPath);
    }
    Ok(FsPath { segs })
}

/// Joins path fragments onto a base path, purely lexically.
///
/// Each fragment may itself contain separators and `.`/`..` pieces; they
/// are resolved in order on top of the base.  Fails with `InvalidPath`
/// exactly when a fragment holds a NUL byte or the joined path resolves
/// to nothing.  Performs no filesystem access.
pub fn join(base: &FsPath, fragments: &Vec<String>) -> (r: Result<FsPath, FsError>)
    requires
        base.wf(),
    ensures
        match r {
            Ok(p) => {
                &&& p@ == join_of(
                    base@,
                    Seq::new(fragments@.len(), |i: int| encode_utf8(fragments@[i]@)),
                )
                &&& p@.len() > 0
                &&& p.wf()
                &&& forall|i: int|
                    0 <= i < fragments@.len() ==> nul_free(#[trigger] encode_utf8(fragments@[i]@))
            },
            Err(e) => {
                &&& e == FsError::InvalidPath
                &&& {
                    ||| exists|i: int|
                        0 <= i < fragments@.len() && !nul_free(
                            #[trigger] encode_utf8(fragments@[i]@),
                        )
                    ||| join_of(
                        base@,
                        Seq::new(fragments@.len(), |i: int| encode_utf8(fragments@[i]@)),
                    ).len() == 0
                }
            },
        },
{
    let ghost fb = Seq::new(fragments@.len(), |i: int| encode_utf8(fragments@[i]@));
    let mut segs: Vec<Vec<u8>> = copy_segs(&base.segs);
    proof {
        assert(fb.take(0) =~= Seq::<Seq<u8>>::empty());
    }
    let k: usize = fragments.len();
    let mut i: usize = 0;
    while i < k
        invariant
            k == fragments@.len(),
            0 <= i <= k,
            fb == Seq::new(fragments@.len(), |j: int| encode_utf8(fragments@[j]@)),
            path_wf(segs.deep_view()),
            segs.deep_view() == join_of(base@, fb.take(i as int)),
            forall|j: int| 0 <= j < i ==> nul_free(#[trigger] encode_utf8(fragments@[j]@)),
        decreases k - i,
    {
        let frag: &String = &fragments[i];
        let ok: bool = feed_fragment(&mut segs, frag.as_str().as_bytes());
        proof {
            assert(fb.take(i + 1).drop_last() =~= fb.take(i as int));
            assert(fb.take(i + 1).last() == fb[i as int]);
        }
        if !ok {
            proof {
                assert(!nul_free(encode_utf8(fragments@[i as int]@)));
            }
            return Err(FsError::InvalidPath);
        }
        i += 1;
    }
    proof {
        assert(fb.take(k as int) =~= fb);
    }
    if segs.len() == 0 {
        return Err(FsError::InvalidPath);
    }
    Ok(FsPath { segs })
}

/// Validates one name segment given as a string: non-empty, no separator,
/// no NUL, not `.` or `..`.  Returns its bytes when valid.
pub fn check_segment(name: &str) -> (r: Option<Vec<u8>>)
    ensures
        match r {
            Some(v) => v@ == encode_utf8(name@) && seg_wf(v@),
            None => !seg_wf(encode_utf8(name@)),
        },
{
    let bytes: &[u8] = name.as_bytes();
    proof {
        assert(bytes@ == encode_utf8(name@));
    }
    let n: usize = bytes.len();
    if n == 0 {
        return None;
    }
    if n == 1 && bytes[0] == DOT {
        proof {
            assert(is_dot(bytes@));
        }
        return None;
    }
    if n == 2 && bytes[0] == DOT && bytes[1] == DOT {
        proof {
            assert(is_dotdot(bytes@));
        }
        return None;
    }
    let mut out: Vec<u8> = Vec::new();
    let mut i: usize = 0;
    while i < n
        invariant
            n == bytes@.len(),
            bytes@ == encode_utf8(name@),
            0 <= i <= n,
            out@ == bytes@.take(i as int),
            forall|j: int| 0 <= j < i ==> !is_sep(#[trigger] bytes@[j]) && bytes@[j] != NUL,
        decreases n - i,
    {
        let b: u8 = bytes[i];
        if sep_byte(b) || b == NUL {
            proof {
                assert(!seg_clean(bytes@)) by {
                    assert(is_sep(bytes@[i as int]) || bytes@[i as int] == NUL);
                }
            }
            return None;
        }
        out.push(b);
        proof {
            assert(bytes@.take(i + 1) =~= bytes@.take(i as int).push(bytes@[i as int]));
        }
        i += 1;
    }
    proof {
        assert(bytes@.take(n as int) =~= bytes@);
        assert(!is_dot(bytes@) && !is_dotdot(bytes@));
    }
    Some(out)
}

/// Whether `p` is a (non-strict) prefix of `q` under `policy`.
pub open spec fn is_path_prefix(policy: CasePolicy, p: Seq<Seq<u8>>, q: Seq<Seq<u8>>) -> bool {
    p.len() <= q.len() && forall|i: int|
        0 <= i < p.len() ==> fold_seg(policy, #[trigger] p[i]) == fold_seg(policy, q[i])
}

/// Exec mirror of `is_path_prefix`.
pub fn path_prefix_of(policy: CasePolicy, p: &FsPath, q: &FsPath) -> (r: bool)
    ensures
        r == is_path_prefix(policy, p@, q@),
{
    let np: usize = p.depth();
    if np > q.depth() {
        return false;
    }
    let mut i: usize = 0;
    while i < np
        invariant
            np == p@.len(),
            np <= q@.len(),
            0 <= i <= np,
            forall|j: int|
                0 <= j < i ==> fold_seg(policy, #[trigger] p@[j]) == fold_seg(policy, q@[j]),
        decreases np - i,
    {
        if !seg_eq(policy, p.seg_at(i), q.seg_at(i)) {
            return false;
        }
        i += 1;
    }
    true
}

/// A copy of `v` folded under `policy`.
pub fn fold_vec(policy: CasePolicy, v: &Vec<u8>) -> (r: Vec<u8>)
    ensures
        r@ == fold_seg(policy, v@),
{
    let n: usize = v.len();
    let mut r: Vec<u8> = Vec::new();
    let mut i: usize = 0;
    while i < n
        invariant
            n == v@.len(),
            0 <= i <= n,
            r@.len() == i,
            forall|j: int| 0 <= j < i ==> r@[j] == fold_byte(policy, #[trigger] v@[j]),
        decreases n - i,
    {
        r.push(fold_byte_exec(policy, v[i]));
        i += 1;
    }
    proof {
        assert(r@ =~= fold_seg(policy, v@));
    }
    r
}

} // verus!
