//! Cross-root differencing: a two-pointer merge-join over the two roots'
//! path-sorted snapshots.
//!
//! Paths equal on both sides are classified by precedence — deleted on one
//! side, then size, digest, modified time and permission bits. A path only
//! one side has is missing on the other; the directory-compression
//! heuristic then tries to stand a whole absent directory in for its files,
//! and a directory already proposed is not proposed again.

use vstd::prelude::*;

verus! {

use crate::compress::{compress_dirs, opt_path_view, spec_compress};
use crate::entry::{Entry, EntryModel};
use crate::paths::{lex_lt, under_dir};
use crate::scanner::{has_path, models, path_sorted};

/// What kind of discrepancy one difference reports.
#[derive(PartialEq, Eq, Structural, Clone, Copy, Debug)]
pub enum DiffKind {
    /// The path was deleted on one side and still exists on the other.
    Deleted,
    /// The two sides' contents differ, by size or by digest.
    Changed,
    /// Only the modified times differ.
    Time,
    /// Only the permission bits differ.
    Perms,
    /// The path exists on one side only.
    Missing,
}

/// Whether a difference names one file or a whole directory.
#[derive(PartialEq, Eq, Structural, Clone, Copy, Debug)]
pub enum PathType {
    File,
    Dir,
}

/// One discrepancy between the two roots.
pub struct Difference {
    /// The root-relative path of the file or directory.
    pub path: String,
    /// The kind of discrepancy.
    pub status: DiffKind,
    /// File or directory granularity.
    pub path_type: PathType,
    /// The side that has the object: 1 for the first root, 2 for the
    /// second, 0 when both have it and only the content differs.
    pub side: i32,
    /// The path under the first root.
    pub path1: String,
    /// The path under the second root.
    pub path2: String,
}

/// The mathematical image of a [`Difference`].
pub struct DifferenceModel {
    pub path: Seq<char>,
    pub status: DiffKind,
    pub path_type: PathType,
    pub side: int,
    pub path1: Seq<char>,
    pub path2: Seq<char>,
}

impl View for Difference {
    type V = DifferenceModel;

    open spec fn view(&self) -> DifferenceModel {
        DifferenceModel {
            path: self.path@,
            status: self.status,
            path_type: self.path_type,
            side: self.side as int,
            path1: self.path1@,
            path2: self.path2@,
        }
    }
}

/// The models of a vector of differences.
pub open spec fn diff_models(v: Seq<Difference>) -> Seq<DifferenceModel> {
    v.map_values(|d: Difference| d@)
}

/// Which difference kinds are reported and whether directories are
/// compressed.
#[derive(PartialEq, Eq, Structural, Clone, Copy, Debug)]
pub struct DiffOptions {
    /// Suppress differences in modified time alone.
    pub no_times: bool,
    /// Suppress differences in permission bits alone.
    pub no_perms: bool,
    /// Report each missing file by itself, never a whole directory.
    pub no_compress: bool,
}

/// A difference record for `path`, with the absolute paths under both
/// roots filled in.
pub open spec fn mk_diff(
    root1: Seq<char>,
    root2: Seq<char>,
    path: Seq<char>,
    status: DiffKind,
    path_type: PathType,
    side: int,
) -> DifferenceModel {
    DifferenceModel {
        path: path,
        status: status,
        path_type: path_type,
        side: side,
        path1: root1 + seq!['/'] + path,
        path2: root2 + seq!['/'] + path,
    }
}

/// Classifies one path present on both sides: the kind to report and the
/// side it concerns, or nothing when the sides agree. Deletion on exactly
/// one side wins over everything; the reported side is the one that still
/// has the file. Content differences (size, then digest) come next, then —
/// unless suppressed — modified time and permission bits, each charged to
/// side 1 as the source of truth.
pub open spec fn classify_pair(a: EntryModel, b: EntryModel, opts: DiffOptions) -> Option<
    (DiffKind, int),
> {
    if a.status is Deleted && b.status is Deleted {
        None
    } else if a.status is Deleted {
        Some((DiffKind::Deleted, 2))
    } else if b.status is Deleted {
        Some((DiffKind::Deleted, 1))
    } else if a.size != b.size {
        Some((DiffKind::Changed, 0))
    } else if a.hash != b.hash {
        Some((DiffKind::Changed, 0))
    } else if !opts.no_times && a.timestamp != b.timestamp {
        Some((DiffKind::Time, 1))
    } else if !opts.no_perms && a.perms != b.perms {
        Some((DiffKind::Perms, 1))
    } else {
        None
    }
}

/// What one missing entry contributes: the differences emitted (none for a
/// deleted entry or a directory already proposed) and the new
/// most-recently-proposed directory.
pub open spec fn missing_step(
    e: EntryModel,
    other_prev: Option<Seq<char>>,
    other_cur: Option<Seq<char>>,
    last_dir: Option<Seq<char>>,
    opts: DiffOptions,
    root1: Seq<char>,
    root2: Seq<char>,
    side: int,
) -> (Seq<DifferenceModel>, Option<Seq<char>>) {
    if e.status is Deleted {
        (Seq::empty(), last_dir)
    } else if opts.no_compress {
        (seq![mk_diff(root1, root2, e.path, DiffKind::Missing, PathType::File, side)], last_dir)
    } else {
        match spec_compress(other_prev, other_cur, e.path) {
            Some(d) => if last_dir == Some(d) {
                (Seq::empty(), last_dir)
            } else {
                (seq![mk_diff(root1, root2, d, DiffKind::Missing, PathType::Dir, side)], Some(d))
            },
            None => (
                seq![mk_diff(root1, root2, e.path, DiffKind::Missing, PathType::File, side)],
                last_dir,
            ),
        }
    }
}

/// The differ's walking state: the next position on each side, the last
/// path consumed on each side, and the directory most recently proposed.
pub struct DiffState {
    pub i: int,
    pub j: int,
    pub prev1: Option<Seq<char>>,
    pub prev2: Option<Seq<char>>,
    pub last_dir: Option<Seq<char>>,
}

/// The starting state.
pub open spec fn init_state() -> DiffState {
    DiffState { i: 0, j: 0, prev1: None, prev2: None, last_dir: None }
}

/// The differences the merge-join emits from a given state onwards.
pub open spec fn spec_diff_from(
    a: Seq<EntryModel>,
    b: Seq<EntryModel>,
    opts: DiffOptions,
    root1: Seq<char>,
    root2: Seq<char>,
    st: DiffState,
) -> Seq<DifferenceModel>
    decreases a.len() + b.len() - st.i - st.j,
    when 0 <= st.i <= a.len() && 0 <= st.j <= b.len()
{
    if st.i < a.len() && st.j < b.len() {
        let ae = a[st.i];
        let be = b[st.j];
        if ae.path == be.path {
            let rest = spec_diff_from(
                a,
                b,
                opts,
                root1,
                root2,
                DiffState {
                    i: st.i + 1,
                    j: st.j + 1,
                    prev1: Some(ae.path),
                    prev2: Some(be.path),
                    last_dir: st.last_dir,
                },
            );
            match classify_pair(ae, be, opts) {
                Some(ks) => seq![
                    mk_diff(root1, root2, ae.path, ks.0, PathType::File, ks.1),
                ] + rest,
                None => rest,
            }
        } else if lex_lt(ae.path, be.path) {
            let step = missing_step(
                ae,
                st.prev2,
                Some(be.path),
                st.last_dir,
                opts,
                root1,
                root2,
                1,
            );
            step.0 + spec_diff_from(
                a,
                b,
                opts,
                root1,
                root2,
                DiffState { i: st.i + 1, prev1: Some(ae.path), last_dir: step.1, ..st },
            )
        } else {
            let step = missing_step(
                be,
                st.prev1,
                Some(ae.path),
                st.last_dir,
                opts,
                root1,
                root2,
                2,
            );
            step.0 + spec_diff_from(
                a,
                b,
                opts,
                root1,
                root2,
                DiffState { j: st.j + 1, prev2: Some(be.path), last_dir: step.1, ..st },
            )
        }
    } else if st.i < a.len() {
        let ae = a[st.i];
        let step = missing_step(ae, st.prev2, None, st.last_dir, opts, root1, root2, 1);
        step.0 + spec_diff_from(
            a,
            b,
            opts,
            root1,
            root2,
            DiffState { i: st.i + 1, prev1: Some(ae.path), last_dir: step.1, ..st },
        )
    } else if st.j < b.len() {
        let be = b[st.j];
        let step = missing_step(be, st.prev1, None, st.last_dir, opts, root1, root2, 2);
        step.0 + spec_diff_from(
            a,
            b,
            opts,
            root1,
            root2,
            DiffState { j: st.j + 1, prev2: Some(be.path), last_dir: step.1, ..st },
        )
    } else {
        Seq::empty()
    }
}

/// The full difference list for two snapshots.
pub open spec fn spec_diff(
    a: Seq<EntryModel>,
    b: Seq<EntryModel>,
    opts: DiffOptions,
    root1: Seq<char>,
    root2: Seq<char>,
) -> Seq<DifferenceModel> {
    spec_diff_from(a, b, opts, root1, root2, init_state())
}

/// Scanning the differences in order, every directory-level one names a
/// directory other than the one most recently proposed before it — so two
/// missing files in one missing directory never yield the directory twice
/// in a row.
pub open spec fn dir_chain_ok(last: Option<Seq<char>>, s: Seq<DifferenceModel>) -> bool
    decreases s.len(),
{
    if s.len() == 0 {
        true
    } else if s[0].path_type is Dir {
        last != Some(s[0].path) && dir_chain_ok(Some(s[0].path), s.drop_first())
    } else {
        dir_chain_ok(last, s.drop_first())
    }
}

/// Deduplication of directory differences, from any state: every
/// directory-level difference the walk emits differs from the directory
/// most recently proposed before it.
proof fn lemma_dir_chain_from(
    a: Seq<EntryModel>,
    b: Seq<EntryModel>,
    opts: DiffOptions,
    root1: Seq<char>,
    root2: Seq<char>,
    st: DiffState,
)
    requires
        0 <= st.i <= a.len(),
        0 <= st.j <= b.len(),
    ensures
        dir_chain_ok(st.last_dir, spec_diff_from(a, b, opts, root1, root2, st)),
    decreases a.len() + b.len() - st.i - st.j,
{
    let out = spec_diff_from(a, b, opts, root1, root2, st);
    if st.i < a.len() && st.j < b.len() && a[st.i].path == b[st.j].path {
        let st2 = DiffState {
            i: st.i + 1,
            j: st.j + 1,
            prev1: Some(a[st.i].path),
            prev2: Some(b[st.j].path),
            last_dir: st.last_dir,
        };
        lemma_dir_chain_from(a, b, opts, root1, root2, st2);
        let rest = spec_diff_from(a, b, opts, root1, root2, st2);
        match classify_pair(a[st.i], b[st.j], opts) {
            Some(ks) => {
                assert(out == seq![
                    mk_diff(root1, root2, a[st.i].path, ks.0, PathType::File, ks.1),
                ] + rest);
                assert(out.drop_first() =~= rest);
            },
            None => {},
        }
    } else if st.i < a.len() && (st.j >= b.len() || lex_lt(a[st.i].path, b[st.j].path)) {
        let step = missing_step(
            a[st.i],
            st.prev2,
            if st.j < b.len() {
                Some(b[st.j].path)
            } else {
                None
            },
            st.last_dir,
            opts,
            root1,
            root2,
            1,
        );
        let st2 = DiffState { i: st.i + 1, prev1: Some(a[st.i].path), last_dir: step.1, ..st };
        lemma_dir_chain_from(a, b, opts, root1, root2, st2);
        let rest = spec_diff_from(a, b, opts, root1, root2, st2);
        assert(out == step.0 + rest);
        lemma_step_chain(step.0, step.1, st.last_dir, rest);
    } else if st.j < b.len() {
        let step = missing_step(
            b[st.j],
            st.prev1,
            if st.i < a.len() {
                Some(a[st.i].path)
            } else {
                None
            },
            st.last_dir,
            opts,
            root1,
            root2,
            2,
        );
        let st2 = DiffState { j: st.j + 1, prev2: Some(b[st.j].path), last_dir: step.1, ..st };
        lemma_dir_chain_from(a, b, opts, root1, root2, st2);
        let rest = spec_diff_from(a, b, opts, root1, root2, st2);
        assert(out == step.0 + rest);
        lemma_step_chain(step.0, step.1, st.last_dir, rest);
    } else {
        assert(out.len() == 0);
    }
}

/// Chaining one missing step's output before a well-chained rest.
proof fn lemma_step_chain(
    emitted: Seq<DifferenceModel>,
    new_last: Option<Seq<char>>,
    last: Option<Seq<char>>,
    rest: Seq<DifferenceModel>,
)
    requires
        dir_chain_ok(new_last, rest),
        emitted.len() == 0 ==> new_last == last,
        emitted.len() == 1 ==> (emitted[0].path_type is Dir ==> (last != Some(emitted[0].path)
            && new_last == Some(emitted[0].path))) && (emitted[0].path_type is File ==> new_last
            == last),
        emitted.len() <= 1,
    ensures
        dir_chain_ok(last, emitted + rest),
{
    if emitted.len() == 0 {
        assert(emitted + rest =~= rest);
    } else {
        let s = emitted + rest;
        assert(s[0] == emitted[0]);
        assert(s.drop_first() =~= rest);
    }
}

/// Deduplication: in the full difference list, no directory-level
/// difference repeats the directory proposed just before it; in
/// particular, two missing files in one wholly-missing directory never
/// produce two directory-level differences for it in a row.
pub proof fn lemma_no_repeated_dir(
    a: Seq<EntryModel>,
    b: Seq<EntryModel>,
    opts: DiffOptions,
    root1: Seq<char>,
    root2: Seq<char>,
)
    ensures
        dir_chain_ok(None, spec_diff(a, b, opts, root1, root2)),
{
    lemma_dir_chain_from(a, b, opts, root1, root2, init_state());
}

/// Differences in strictly ascending path order.
pub open spec fn diffs_path_sorted(s: Seq<DifferenceModel>) -> bool {
    forall|m: int, n: int| 0 <= m < n < s.len() ==> lex_lt(s[m].path, s[n].path)
}

/// One path names at most one difference of a sorted difference list.
pub proof fn lemma_diffs_sorted_unique(s: Seq<DifferenceModel>)
    requires
        diffs_path_sorted(s),
    ensures
        forall|m: int, n: int|
            0 <= m < s.len() && 0 <= n < s.len() && (#[trigger] s[m]).path == (
            #[trigger] s[n]).path ==> m == n,
{
    assert forall|m: int, n: int|
        0 <= m < s.len() && 0 <= n < s.len() && (#[trigger] s[m]).path == (
        #[trigger] s[n]).path implies m == n by {
        if m < n {
            crate::paths::lemma_lex_trichotomy(s[m].path, s[n].path);
        }
        if n < m {
            crate::paths::lemma_lex_trichotomy(s[n].path, s[m].path);
        }
    }
}

/// Membership in a difference list with one element put in front.
proof fn lemma_dcons_contains(x: DifferenceModel, t: Seq<DifferenceModel>, e: DifferenceModel)
    ensures
        (seq![x] + t).contains(e) <==> (e == x || t.contains(e)),
{
    let s = seq![x] + t;
    if s.contains(e) {
        let w = choose|i: int| 0 <= i < s.len() && s[i] == e;
        if w > 0 {
            assert(t[w - 1] == e);
        }
    }
    if t.contains(e) {
        let w = choose|i: int| 0 <= i < t.len() && t[i] == e;
        assert(s[w + 1] == e);
    }
    assert(s[0] == x);
}

/// A difference before a sorted rest, below everything in it, makes a
/// sorted whole.
proof fn lemma_dcons_sorted(x: DifferenceModel, t: Seq<DifferenceModel>)
    requires
        diffs_path_sorted(t),
        forall|k: int| 0 <= k < t.len() ==> lex_lt(x.path, (#[trigger] t[k]).path),
    ensures
        diffs_path_sorted(seq![x] + t),
{
    let s = seq![x] + t;
    assert forall|m: int, n: int| 0 <= m < n < s.len() implies lex_lt(s[m].path, s[n].path) by {
        if m == 0 {
            assert(s[n] == t[n - 1]);
        } else {
            assert(s[m] == t[m - 1]);
            assert(s[n] == t[n - 1]);
        }
    }
}

/// A path is in a snapshot's tail exactly when it names the entry at the
/// front of the tail or lies further on.
proof fn lemma_skip_shift(s: Seq<EntryModel>, i: int, p: Seq<char>)
    requires
        0 <= i < s.len(),
    ensures
        has_path(s.skip(i), p) <==> (s[i].path == p || has_path(s.skip(i + 1), p)),
{
    assert(s.skip(i).drop_first() =~= s.skip(i + 1));
    assert(s.skip(i)[0] == s[i]);
    crate::scanner::lemma_has_path_shift(s.skip(i), p);
}

/// The completeness statement for the walk from one state on, with
/// directory compression off: the differences are path-sorted (so no path
/// is reported twice); every difference names a remaining path of one
/// side; every remaining live entry whose path the other side's remainder
/// lacks yields its file-level missing difference; and every remaining
/// pair of equal paths yields exactly the difference its classification
/// asks for.
pub open spec fn differ_complete_stmt(
    a: Seq<EntryModel>,
    b: Seq<EntryModel>,
    opts: DiffOptions,
    root1: Seq<char>,
    root2: Seq<char>,
    st: DiffState,
) -> bool {
    let out = spec_diff_from(a, b, opts, root1, root2, st);
    &&& diffs_path_sorted(out)
    &&& forall|n: int|
        0 <= n < out.len() ==> has_path(a.skip(st.i), (#[trigger] out[n]).path) || has_path(
            b.skip(st.j),
            out[n].path,
        )
    &&& forall|k: int|
        st.i <= k < a.len() && !((#[trigger] a[k]).status is Deleted) && !has_path(
            b.skip(st.j),
            a[k].path,
        ) ==> out.contains(mk_diff(root1, root2, a[k].path, DiffKind::Missing, PathType::File, 1))
    &&& forall|l: int|
        st.j <= l < b.len() && !((#[trigger] b[l]).status is Deleted) && !has_path(
            a.skip(st.i),
            b[l].path,
        ) ==> out.contains(mk_diff(root1, root2, b[l].path, DiffKind::Missing, PathType::File, 2))
    &&& forall|k: int, l: int|
        st.i <= k < a.len() && st.j <= l < b.len() && (#[trigger] a[k]).path == (
        #[trigger] b[l]).path && classify_pair(a[k], b[l], opts) is Some ==> out.contains(
            mk_diff(
                root1,
                root2,
                a[k].path,
                classify_pair(a[k], b[l], opts)->Some_0.0,
                PathType::File,
                classify_pair(a[k], b[l], opts)->Some_0.1,
            ),
        )
}

/// A path found past a position of a sorted snapshot lies above that
/// position's path, and is still found from the position itself.
proof fn lemma_skip_above(s: Seq<EntryModel>, i: int, q: Seq<char>)
    requires
        path_sorted(s),
        0 <= i < s.len(),
        has_path(s.skip(i + 1), q),
    ensures
        lex_lt(s[i].path, q),
        has_path(s.skip(i), q),
{
    let w = choose|k: int| 0 <= k < s.skip(i + 1).len() && (#[trigger] s.skip(i + 1)[k]).path == q;
    assert(s[i + 1 + w].path == q);
    assert(lex_lt(s[i].path, s[i + 1 + w].path));
    assert(s.skip(i)[1 + w].path == q);
}

/// A path found from a position of a sorted snapshot is that position's
/// path or lies above it.
proof fn lemma_skip_ge(s: Seq<EntryModel>, i: int, q: Seq<char>)
    requires
        path_sorted(s),
        0 <= i <= s.len(),
        has_path(s.skip(i), q),
    ensures
        i < s.len(),
        s[i].path == q || lex_lt(s[i].path, q),
{
    let w = choose|k: int| 0 <= k < s.skip(i).len() && (#[trigger] s.skip(i)[k]).path == q;
    assert(s[i + w].path == q);
    if w > 0 {
        assert(lex_lt(s[i].path, s[i + w].path));
    }
}

/// The walk step that classifies one path present on both sides.
#[verifier::rlimit(100)]
#[verifier::spinoff_prover]
proof fn lemma_differ_case_pair(
    a: Seq<EntryModel>,
    b: Seq<EntryModel>,
    opts: DiffOptions,
    root1: Seq<char>,
    root2: Seq<char>,
    st: DiffState,
    st2: DiffState,
)
    requires
        path_sorted(a),
        path_sorted(b),
        opts.no_compress,
        0 <= st.i < a.len(),
        0 <= st.j < b.len(),
        a[st.i].path == b[st.j].path,
        st2 == (DiffState {
            i: st.i + 1,
            j: st.j + 1,
            prev1: Some(a[st.i].path),
            prev2: Some(b[st.j].path),
            last_dir: st.last_dir,
        }),
        differ_complete_stmt(a, b, opts, root1, root2, st2),
    ensures
        differ_complete_stmt(a, b, opts, root1, root2, st),
{
    let out = spec_diff_from(a, b, opts, root1, root2, st);
    let rest = spec_diff_from(a, b, opts, root1, root2, st2);
    let p0 = a[st.i].path;
    crate::scanner::lemma_sorted_unique_paths(a);
    crate::scanner::lemma_sorted_unique_paths(b);
    let emitted = match classify_pair(a[st.i], b[st.j], opts) {
        Some(ks) => seq![mk_diff(root1, root2, p0, ks.0, PathType::File, ks.1)],
        None => Seq::<DifferenceModel>::empty(),
    };
    assert(out == emitted + rest);
    if emitted.len() == 0 {
        assert(out =~= rest);
    } else {
        assert(out[0] == emitted[0]);
        assert(out.drop_first() =~= rest);
        assert forall|k: int| 0 <= k < rest.len() implies lex_lt(
            emitted[0].path,
            (#[trigger] rest[k]).path,
        ) by {
            let q = rest[k].path;
            assert(has_path(a.skip(st2.i), q) || has_path(b.skip(st2.j), q));
            if has_path(a.skip(st2.i), q) {
                lemma_skip_above(a, st.i, q);
            } else {
                lemma_skip_above(b, st.j, q);
            }
        }
        lemma_dcons_sorted(emitted[0], rest);
        assert(out =~= seq![emitted[0]] + rest);
    }
    assert forall|n: int| 0 <= n < out.len() implies has_path(
        a.skip(st.i),
        (#[trigger] out[n]).path,
    ) || has_path(b.skip(st.j), out[n].path) by {
        if emitted.len() == 1 && n == 0 {
            assert(a.skip(st.i)[0].path == p0);
            assert(has_path(a.skip(st.i), p0));
        } else {
            let m = if emitted.len() == 1 {
                n - 1
            } else {
                n
            };
            assert(out[n] == rest[m]);
            let q = rest[m].path;
            assert(has_path(a.skip(st2.i), q) || has_path(b.skip(st2.j), q));
            if has_path(a.skip(st2.i), q) {
                lemma_skip_above(a, st.i, q);
            } else {
                lemma_skip_above(b, st.j, q);
            }
        }
    }
    assert forall|k: int|
        st.i <= k < a.len() && !((#[trigger] a[k]).status is Deleted) && !has_path(
            b.skip(st.j),
            a[k].path,
        ) implies out.contains(
        mk_diff(root1, root2, a[k].path, DiffKind::Missing, PathType::File, 1),
    ) by {
        if k == st.i {
            assert(b.skip(st.j)[0].path == a[st.i].path);
            assert(has_path(b.skip(st.j), a[k].path));
        } else {
            lemma_skip_shift(b, st.j, a[k].path);
            assert(rest.contains(mk_diff(root1, root2, a[k].path, DiffKind::Missing, PathType::File, 1)));
            if emitted.len() == 1 {
                lemma_dcons_contains(
                    emitted[0],
                    rest,
                    mk_diff(root1, root2, a[k].path, DiffKind::Missing, PathType::File, 1),
                );
            }
        }
    }
    assert forall|l: int|
        st.j <= l < b.len() && !((#[trigger] b[l]).status is Deleted) && !has_path(
            a.skip(st.i),
            b[l].path,
        ) implies out.contains(
        mk_diff(root1, root2, b[l].path, DiffKind::Missing, PathType::File, 2),
    ) by {
        if l == st.j {
            assert(a.skip(st.i)[0].path == b[st.j].path);
            assert(has_path(a.skip(st.i), b[l].path));
        } else {
            lemma_skip_shift(a, st.i, b[l].path);
            assert(rest.contains(mk_diff(root1, root2, b[l].path, DiffKind::Missing, PathType::File, 2)));
            if emitted.len() == 1 {
                lemma_dcons_contains(
                    emitted[0],
                    rest,
                    mk_diff(root1, root2, b[l].path, DiffKind::Missing, PathType::File, 2),
                );
            }
        }
    }
    assert forall|k: int, l: int|
        st.i <= k < a.len() && st.j <= l < b.len() && (#[trigger] a[k]).path == (
        #[trigger] b[l]).path && classify_pair(a[k], b[l], opts) is Some implies out.contains(
        mk_diff(
            root1,
            root2,
            a[k].path,
            classify_pair(a[k], b[l], opts)->Some_0.0,
            PathType::File,
            classify_pair(a[k], b[l], opts)->Some_0.1,
        ),
    ) by {
        let d = mk_diff(
            root1,
            root2,
            a[k].path,
            classify_pair(a[k], b[l], opts)->Some_0.0,
            PathType::File,
            classify_pair(a[k], b[l], opts)->Some_0.1,
        );
        if k == st.i || l == st.j {
            assert(a[k].path == b[l].path);
            if k == st.i {
                assert(b[l].path == b[st.j].path);
                assert(l == st.j);
            } else {
                assert(a[k].path == a[st.i].path);
                assert(k == st.i);
            }
            assert(emitted.len() == 1 && emitted[0] == d);
            assert(out[0] == d);
            assert(out.contains(d));
        } else {
            assert(rest.contains(d));
            if emitted.len() == 1 {
                lemma_dcons_contains(emitted[0], rest, d);
            }
        }
    }
}

/// The walk step that takes one entry missing from the other side, with
/// directory compression off.
#[verifier::rlimit(100)]
#[verifier::spinoff_prover]
proof fn lemma_differ_case_missing(
    a: Seq<EntryModel>,
    b: Seq<EntryModel>,
    opts: DiffOptions,
    root1: Seq<char>,
    root2: Seq<char>,
    st: DiffState,
    st2: DiffState,
    from_a: bool,
)
    requires
        path_sorted(a),
        path_sorted(b),
        opts.no_compress,
        0 <= st.i <= a.len(),
        0 <= st.j <= b.len(),
        from_a ==> st.i < a.len() && (st.j == b.len() || lex_lt(a[st.i].path, b[st.j].path))
            && st2 == (DiffState { i: st.i + 1, prev1: Some(a[st.i].path), ..st }),
        !from_a ==> st.j < b.len() && (st.i == a.len() || lex_lt(b[st.j].path, a[st.i].path))
            && st2 == (DiffState { j: st.j + 1, prev2: Some(b[st.j].path), ..st }),
        differ_complete_stmt(a, b, opts, root1, root2, st2),
    ensures
        differ_complete_stmt(a, b, opts, root1, root2, st),
{
    let out = spec_diff_from(a, b, opts, root1, root2, st);
    let rest = spec_diff_from(a, b, opts, root1, root2, st2);
    crate::scanner::lemma_sorted_unique_paths(a);
    crate::scanner::lemma_sorted_unique_paths(b);
    let e = if from_a {
        a[st.i]
    } else {
        b[st.j]
    };
    let p0 = e.path;
    if from_a && st.j < b.len() {
        crate::paths::lemma_lex_trichotomy(a[st.i].path, b[st.j].path);
    }
    if !from_a && st.i < a.len() {
        crate::paths::lemma_lex_trichotomy(a[st.i].path, b[st.j].path);
    }
    let side: int = if from_a {
        1
    } else {
        2
    };
    let emitted = if e.status is Deleted {
        Seq::<DifferenceModel>::empty()
    } else {
        seq![mk_diff(root1, root2, p0, DiffKind::Missing, PathType::File, side)]
    };
    assert(out == emitted + rest);
    if emitted.len() == 0 {
        assert(out =~= rest);
    } else {
        assert(out[0] == emitted[0]);
        assert(out.drop_first() =~= rest);
        assert forall|k: int| 0 <= k < rest.len() implies lex_lt(
            emitted[0].path,
            (#[trigger] rest[k]).path,
        ) by {
            let q = rest[k].path;
            assert(has_path(a.skip(st2.i), q) || has_path(b.skip(st2.j), q));
            lemma_gap_above(a, b, st, st2, from_a, q);
        }
        lemma_dcons_sorted(emitted[0], rest);
        assert(out =~= seq![emitted[0]] + rest);
    }
    assert forall|n: int| 0 <= n < out.len() implies has_path(
        a.skip(st.i),
        (#[trigger] out[n]).path,
    ) || has_path(b.skip(st.j), out[n].path) by {
        if emitted.len() == 1 && n == 0 {
            if from_a {
                assert(a.skip(st.i)[0].path == p0);
                assert(has_path(a.skip(st.i), p0));
            } else {
                assert(b.skip(st.j)[0].path == p0);
                assert(has_path(b.skip(st.j), p0));
            }
        } else {
            let m = if emitted.len() == 1 {
                n - 1
            } else {
                n
            };
            assert(out[n] == rest[m]);
            let q = rest[m].path;
            assert(has_path(a.skip(st2.i), q) || has_path(b.skip(st2.j), q));
            lemma_gap_above(a, b, st, st2, from_a, q);
        }
    }
    assert forall|k: int|
        st.i <= k < a.len() && !((#[trigger] a[k]).status is Deleted) && !has_path(
            b.skip(st.j),
            a[k].path,
        ) implies out.contains(
        mk_diff(root1, root2, a[k].path, DiffKind::Missing, PathType::File, 1),
    ) by {
        let d = mk_diff(root1, root2, a[k].path, DiffKind::Missing, PathType::File, 1);
        if from_a && k == st.i {
            assert(emitted.len() == 1 && emitted[0] == d);
            assert(out[0] == d);
            assert(out.contains(d));
        } else {
            if from_a {
                assert(st2.j == st.j);
            } else {
                lemma_skip_shift(b, st.j, a[k].path);
            }
            assert(rest.contains(d));
            if emitted.len() == 1 {
                lemma_dcons_contains(emitted[0], rest, d);
            }
        }
    }
    assert forall|l: int|
        st.j <= l < b.len() && !((#[trigger] b[l]).status is Deleted) && !has_path(
            a.skip(st.i),
            b[l].path,
        ) implies out.contains(
        mk_diff(root1, root2, b[l].path, DiffKind::Missing, PathType::File, 2),
    ) by {
        let d = mk_diff(root1, root2, b[l].path, DiffKind::Missing, PathType::File, 2);
        if !from_a && l == st.j {
            assert(emitted.len() == 1 && emitted[0] == d);
            assert(out[0] == d);
            assert(out.contains(d));
        } else {
            if !from_a {
                assert(st2.i == st.i);
            } else {
                lemma_skip_shift(a, st.i, b[l].path);
            }
            assert(rest.contains(d));
            if emitted.len() == 1 {
                lemma_dcons_contains(emitted[0], rest, d);
            }
        }
    }
    assert forall|k: int, l: int|
        st.i <= k < a.len() && st.j <= l < b.len() && (#[trigger] a[k]).path == (
        #[trigger] b[l]).path && classify_pair(a[k], b[l], opts) is Some implies out.contains(
        mk_diff(
            root1,
            root2,
            a[k].path,
            classify_pair(a[k], b[l], opts)->Some_0.0,
            PathType::File,
            classify_pair(a[k], b[l], opts)->Some_0.1,
        ),
    ) by {
        let d = mk_diff(
            root1,
            root2,
            a[k].path,
            classify_pair(a[k], b[l], opts)->Some_0.0,
            PathType::File,
            classify_pair(a[k], b[l], opts)->Some_0.1,
        );
        if from_a && k == st.i {
            // the consumed path is below every remaining other-side path
            assert(lex_lt(a[st.i].path, b[st.j].path));
            if l > st.j {
                assert(lex_lt(b[st.j].path, b[l].path));
                crate::paths::lemma_lex_transitive(a[st.i].path, b[st.j].path, b[l].path);
            }
            crate::paths::lemma_lex_trichotomy(a[k].path, b[l].path);
            assert(false);
        } else if !from_a && l == st.j {
            assert(lex_lt(b[st.j].path, a[st.i].path));
            if k > st.i {
                assert(lex_lt(a[st.i].path, a[k].path));
                crate::paths::lemma_lex_transitive(b[st.j].path, a[st.i].path, a[k].path);
            }
            crate::paths::lemma_lex_trichotomy(a[k].path, b[l].path);
            assert(false);
        } else {
            assert(rest.contains(d));
            if emitted.len() == 1 {
                lemma_dcons_contains(emitted[0], rest, d);
            }
        }
    }
}

/// Every path of the walk's remainder after a one-sided step lies above
/// the consumed path, and is a remainder path of the unstepped state too.
proof fn lemma_gap_above(
    a: Seq<EntryModel>,
    b: Seq<EntryModel>,
    st: DiffState,
    st2: DiffState,
    from_a: bool,
    q: Seq<char>,
)
    requires
        path_sorted(a),
        path_sorted(b),
        0 <= st.i <= a.len(),
        0 <= st.j <= b.len(),
        from_a ==> st.i < a.len() && (st.j == b.len() || lex_lt(a[st.i].path, b[st.j].path))
            && st2.i == st.i + 1 && st2.j == st.j,
        !from_a ==> st.j < b.len() && (st.i == a.len() || lex_lt(b[st.j].path, a[st.i].path))
            && st2.j == st.j + 1 && st2.i == st.i,
        has_path(a.skip(st2.i), q) || has_path(b.skip(st2.j), q),
    ensures
        from_a ==> lex_lt(a[st.i].path, q),
        !from_a ==> lex_lt(b[st.j].path, q),
        has_path(a.skip(st.i), q) || has_path(b.skip(st.j), q),
{
    if from_a {
        if has_path(a.skip(st2.i), q) {
            lemma_skip_above(a, st.i, q);
        } else {
            lemma_skip_ge(b, st.j, q);
            if lex_lt(b[st.j].path, q) {
                crate::paths::lemma_lex_transitive(a[st.i].path, b[st.j].path, q);
            }
        }
    } else {
        if has_path(b.skip(st2.j), q) {
            lemma_skip_above(b, st.j, q);
        } else {
            lemma_skip_ge(a, st.i, q);
            if lex_lt(a[st.i].path, q) {
                crate::paths::lemma_lex_transitive(b[st.j].path, a[st.i].path, q);
            }
        }
    }
}

/// Differ completeness with directory compression off, by induction over
/// the walk.
proof fn lemma_differ_complete_from(
    a: Seq<EntryModel>,
    b: Seq<EntryModel>,
    opts: DiffOptions,
    root1: Seq<char>,
    root2: Seq<char>,
    st: DiffState,
)
    requires
        path_sorted(a),
        path_sorted(b),
        opts.no_compress,
        0 <= st.i <= a.len(),
        0 <= st.j <= b.len(),
    ensures
        differ_complete_stmt(a, b, opts, root1, root2, st),
    decreases a.len() + b.len() - st.i - st.j,
{
    if st.i < a.len() && st.j < b.len() && a[st.i].path == b[st.j].path {
        let st2 = DiffState {
            i: st.i + 1,
            j: st.j + 1,
            prev1: Some(a[st.i].path),
            prev2: Some(b[st.j].path),
            last_dir: st.last_dir,
        };
        lemma_differ_complete_from(a, b, opts, root1, root2, st2);
        lemma_differ_case_pair(a, b, opts, root1, root2, st, st2);
    } else if st.i < a.len() && (st.j == b.len() || lex_lt(a[st.i].path, b[st.j].path)) {
        let st2 = DiffState { i: st.i + 1, prev1: Some(a[st.i].path), ..st };
        lemma_differ_complete_from(a, b, opts, root1, root2, st2);
        lemma_differ_case_missing(a, b, opts, root1, root2, st, st2, true);
    } else if st.j < b.len() {
        if st.i < a.len() {
            crate::paths::lemma_lex_trichotomy(a[st.i].path, b[st.j].path);
        }
        let st2 = DiffState { j: st.j + 1, prev2: Some(b[st.j].path), ..st };
        lemma_differ_complete_from(a, b, opts, root1, root2, st2);
        lemma_differ_case_missing(a, b, opts, root1, root2, st, st2, false);
    } else {
        let out = spec_diff_from(a, b, opts, root1, root2, st);
        assert(out.len() == 0);
    }
}

/// Differ completeness, with directory compression off: the difference
/// list is path-sorted, so it reports each path at most once; every path
/// that is live on exactly one side yields exactly one file-level missing
/// difference for that side; every path on both sides yields exactly the
/// difference its classification asks for — where deleted-versus-present
/// takes precedence over every content difference — and nothing else is
/// reported.
pub proof fn lemma_differ_complete(
    a: Seq<EntryModel>,
    b: Seq<EntryModel>,
    opts: DiffOptions,
    root1: Seq<char>,
    root2: Seq<char>,
)
    requires
        path_sorted(a),
        path_sorted(b),
        opts.no_compress,
    ensures
        differ_complete_stmt(a, b, opts, root1, root2, init_state()),
        diffs_path_sorted(spec_diff(a, b, opts, root1, root2)),
        forall|k: int|
            0 <= k < a.len() && !((#[trigger] a[k]).status is Deleted) && !has_path(b, a[k].path)
                ==> spec_diff(a, b, opts, root1, root2).contains(
                mk_diff(root1, root2, a[k].path, DiffKind::Missing, PathType::File, 1),
            ),
        forall|l: int|
            0 <= l < b.len() && !((#[trigger] b[l]).status is Deleted) && !has_path(a, b[l].path)
                ==> spec_diff(a, b, opts, root1, root2).contains(
                mk_diff(root1, root2, b[l].path, DiffKind::Missing, PathType::File, 2),
            ),
        forall|k: int, l: int|
            0 <= k < a.len() && 0 <= l < b.len() && (#[trigger] a[k]).path == (
            #[trigger] b[l]).path && classify_pair(a[k], b[l], opts) is Some ==> spec_diff(
                a,
                b,
                opts,
                root1,
                root2,
            ).contains(
                mk_diff(
                    root1,
                    root2,
                    a[k].path,
                    classify_pair(a[k], b[l], opts)->Some_0.0,
                    PathType::File,
                    classify_pair(a[k], b[l], opts)->Some_0.1,
                ),
            ),
{
    lemma_differ_complete_from(a, b, opts, root1, root2, init_state());
    assert(a.skip(0) =~= a);
    assert(b.skip(0) =~= b);
}

/// The difference list answers a missing path when it holds a file-level
/// missing difference naming it, or a directory-level one naming an
/// ancestor directory of it.
pub open spec fn covers_missing(s: Seq<DifferenceModel>, m: Seq<char>) -> bool {
    exists|n: int|
        0 <= n < s.len() && (#[trigger] s[n]).status is Missing && ((s[n].path_type is File
            && s[n].path == m) || (s[n].path_type is Dir && crate::paths::dir_starts_with(
            m,
            s[n].path,
        )))
}

/// Covered by the list, or owed to the directory most recently proposed
/// before the walk began.
pub open spec fn covers_or_pending(
    s: Seq<DifferenceModel>,
    m: Seq<char>,
    last_dir: Option<Seq<char>>,
) -> bool {
    covers_missing(s, m) || (last_dir is Some && crate::paths::dir_starts_with(
        m,
        last_dir->Some_0,
    ))
}

/// Coverage survives one element put in front.
proof fn lemma_covers_cons(x: DifferenceModel, t: Seq<DifferenceModel>, m: Seq<char>)
    requires
        covers_missing(t, m),
    ensures
        covers_missing(seq![x] + t, m),
{
    let s = seq![x] + t;
    let w = choose|n: int|
        0 <= n < t.len() && (#[trigger] t[n]).status is Missing && ((t[n].path_type is File
            && t[n].path == m) || (t[n].path_type is Dir && crate::paths::dir_starts_with(
            m,
            t[n].path,
        )));
    assert(s[w + 1] == t[w]);
}

/// Coverage of missing paths along the walk: every live path of one side's
/// remainder that the other side's remainder lacks is answered by the
/// walk's output, or still owed to the directory proposed just before.
#[verifier::rlimit(100)]
#[verifier::spinoff_prover]
proof fn lemma_coverage_from(
    a: Seq<EntryModel>,
    b: Seq<EntryModel>,
    opts: DiffOptions,
    root1: Seq<char>,
    root2: Seq<char>,
    st: DiffState,
)
    requires
        path_sorted(a),
        path_sorted(b),
        0 <= st.i <= a.len(),
        0 <= st.j <= b.len(),
    ensures
        forall|k: int|
            st.i <= k < a.len() && !((#[trigger] a[k]).status is Deleted) && !has_path(
                b.skip(st.j),
                a[k].path,
            ) ==> covers_or_pending(
                spec_diff_from(a, b, opts, root1, root2, st),
                a[k].path,
                st.last_dir,
            ),
        forall|l: int|
            st.j <= l < b.len() && !((#[trigger] b[l]).status is Deleted) && !has_path(
                a.skip(st.i),
                b[l].path,
            ) ==> covers_or_pending(
                spec_diff_from(a, b, opts, root1, root2, st),
                b[l].path,
                st.last_dir,
            ),
    decreases a.len() + b.len() - st.i - st.j,
{
    let out = spec_diff_from(a, b, opts, root1, root2, st);
    if st.i < a.len() && st.j < b.len() && a[st.i].path == b[st.j].path {
        let st2 = DiffState {
            i: st.i + 1,
            j: st.j + 1,
            prev1: Some(a[st.i].path),
            prev2: Some(b[st.j].path),
            last_dir: st.last_dir,
        };
        lemma_coverage_from(a, b, opts, root1, root2, st2);
        let rest = spec_diff_from(a, b, opts, root1, root2, st2);
        let emitted = match classify_pair(a[st.i], b[st.j], opts) {
            Some(ks) => seq![mk_diff(root1, root2, a[st.i].path, ks.0, PathType::File, ks.1)],
            None => Seq::<DifferenceModel>::empty(),
        };
        assert(out == emitted + rest);
        if emitted.len() == 0 {
            assert(out =~= rest);
        }
        assert forall|k: int|
            st.i <= k < a.len() && !((#[trigger] a[k]).status is Deleted) && !has_path(
                b.skip(st.j),
                a[k].path,
            ) implies covers_or_pending(out, a[k].path, st.last_dir) by {
            if k == st.i {
                assert(b.skip(st.j)[0].path == a[st.i].path);
                assert(has_path(b.skip(st.j), a[k].path));
            } else {
                lemma_skip_shift(b, st.j, a[k].path);
                assert(covers_or_pending(rest, a[k].path, st2.last_dir));
                if covers_missing(rest, a[k].path) && emitted.len() == 1 {
                    lemma_covers_cons(emitted[0], rest, a[k].path);
                }
            }
        }
        assert forall|l: int|
            st.j <= l < b.len() && !((#[trigger] b[l]).status is Deleted) && !has_path(
                a.skip(st.i),
                b[l].path,
            ) implies covers_or_pending(out, b[l].path, st.last_dir) by {
            if l == st.j {
                assert(a.skip(st.i)[0].path == b[st.j].path);
                assert(has_path(a.skip(st.i), b[l].path));
            } else {
                lemma_skip_shift(a, st.i, b[l].path);
                assert(covers_or_pending(rest, b[l].path, st2.last_dir));
                if covers_missing(rest, b[l].path) && emitted.len() == 1 {
                    lemma_covers_cons(emitted[0], rest, b[l].path);
                }
            }
        }
    } else if st.i < a.len() && (st.j >= b.len() || lex_lt(a[st.i].path, b[st.j].path)) {
        let m = a[st.i].path;
        let cur = if st.j < b.len() {
            Some(b[st.j].path)
        } else {
            None
        };
        let step = missing_step(a[st.i], st.prev2, cur, st.last_dir, opts, root1, root2, 1);
        let st2 = DiffState { i: st.i + 1, prev1: Some(m), last_dir: step.1, ..st };
        lemma_coverage_from(a, b, opts, root1, root2, st2);
        let rest = spec_diff_from(a, b, opts, root1, root2, st2);
        assert(out == step.0 + rest);
        lemma_coverage_step(a, b, opts, root1, root2, st, st2, true, step.0, rest);
    } else if st.j < b.len() {
        if st.i < a.len() {
            crate::paths::lemma_lex_trichotomy(a[st.i].path, b[st.j].path);
        }
        let m = b[st.j].path;
        let cur = if st.i < a.len() {
            Some(a[st.i].path)
        } else {
            None
        };
        let step = missing_step(b[st.j], st.prev1, cur, st.last_dir, opts, root1, root2, 2);
        let st2 = DiffState { j: st.j + 1, prev2: Some(m), last_dir: step.1, ..st };
        lemma_coverage_from(a, b, opts, root1, root2, st2);
        let rest = spec_diff_from(a, b, opts, root1, root2, st2);
        assert(out == step.0 + rest);
        lemma_coverage_step(a, b, opts, root1, root2, st, st2, false, step.0, rest);
    } else {
    }
}

/// Coverage across one one-sided step: the consumed entry is answered by
/// what the step emits (or still owed), and everything the rest answers
/// stays answered.
#[verifier::rlimit(100)]
#[verifier::spinoff_prover]
proof fn lemma_coverage_step(
    a: Seq<EntryModel>,
    b: Seq<EntryModel>,
    opts: DiffOptions,
    root1: Seq<char>,
    root2: Seq<char>,
    st: DiffState,
    st2: DiffState,
    from_a: bool,
    emitted: Seq<DifferenceModel>,
    rest: Seq<DifferenceModel>,
)
    requires
        path_sorted(a),
        path_sorted(b),
        0 <= st.i <= a.len(),
        0 <= st.j <= b.len(),
        from_a ==> st.i < a.len() && (st.j == b.len() || lex_lt(a[st.i].path, b[st.j].path)) && ({
            let step = missing_step(
                a[st.i],
                st.prev2,
                crate::compress::cur_boundary(b, st.j),
                st.last_dir,
                opts,
                root1,
                root2,
                1,
            );
            emitted == step.0 && st2 == (DiffState {
                i: st.i + 1,
                prev1: Some(a[st.i].path),
                last_dir: step.1,
                ..st
            })
        }),
        !from_a ==> st.j < b.len() && (st.i == a.len() || lex_lt(b[st.j].path, a[st.i].path)) && ({
            let step = missing_step(
                b[st.j],
                st.prev1,
                crate::compress::cur_boundary(a, st.i),
                st.last_dir,
                opts,
                root1,
                root2,
                2,
            );
            emitted == step.0 && st2 == (DiffState {
                j: st.j + 1,
                prev2: Some(b[st.j].path),
                last_dir: step.1,
                ..st
            })
        }),
        rest == spec_diff_from(a, b, opts, root1, root2, st2),
        forall|k: int|
            st2.i <= k < a.len() && !((#[trigger] a[k]).status is Deleted) && !has_path(
                b.skip(st2.j),
                a[k].path,
            ) ==> covers_or_pending(rest, a[k].path, st2.last_dir),
        forall|l: int|
            st2.j <= l < b.len() && !((#[trigger] b[l]).status is Deleted) && !has_path(
                a.skip(st2.i),
                b[l].path,
            ) ==> covers_or_pending(rest, b[l].path, st2.last_dir),
    ensures
        forall|k: int|
            st.i <= k < a.len() && !((#[trigger] a[k]).status is Deleted) && !has_path(
                b.skip(st.j),
                a[k].path,
            ) ==> covers_or_pending(emitted + rest, a[k].path, st.last_dir),
        forall|l: int|
            st.j <= l < b.len() && !((#[trigger] b[l]).status is Deleted) && !has_path(
                a.skip(st.i),
                b[l].path,
            ) ==> covers_or_pending(emitted + rest, b[l].path, st.last_dir),
{
    let out = emitted + rest;
    let e = if from_a {
        a[st.i]
    } else {
        b[st.j]
    };
    let m = e.path;
    let op = if from_a {
        st.prev2
    } else {
        st.prev1
    };
    let oc = if from_a {
        crate::compress::cur_boundary(b, st.j)
    } else {
        crate::compress::cur_boundary(a, st.i)
    };
    if emitted.len() == 0 {
        assert(out =~= rest);
    }
    // how one answered path carries from the rest to the whole
    assert forall|q: Seq<char>| covers_or_pending(rest, q, st2.last_dir) implies covers_or_pending(
        out,
        q,
        st.last_dir,
    ) by {
        if covers_missing(rest, q) {
            if emitted.len() == 1 {
                lemma_covers_cons(emitted[0], rest, q);
            }
        } else {
            if st2.last_dir == st.last_dir {
            } else {
                // the step proposed a new directory, so it emitted it
                assert(emitted.len() == 1);
                assert(emitted[0].path_type is Dir && emitted[0].status is Missing);
                assert(Some(emitted[0].path) == st2.last_dir);
                assert(out[0] == emitted[0]);
                assert(covers_missing(out, q));
            }
        }
    }
    // the consumed entry itself is answered, unless deleted
    if !(e.status is Deleted) {
        if opts.no_compress {
            assert(out[0] == emitted[0]);
            assert(covers_missing(out, m));
        } else {
            match spec_compress(op, oc, m) {
                Some(d) => {
                    crate::compress::lemma_compress_ancestor(op, oc, m, d);
                    if st.last_dir == Some(d) {
                        assert(covers_or_pending(out, m, st.last_dir));
                    } else {
                        assert(out[0] == emitted[0]);
                        assert(covers_missing(out, m));
                    }
                },
                None => {
                    assert(out[0] == emitted[0]);
                    assert(covers_missing(out, m));
                },
            }
        }
    }
    assert forall|k: int|
        st.i <= k < a.len() && !((#[trigger] a[k]).status is Deleted) && !has_path(
            b.skip(st.j),
            a[k].path,
        ) implies covers_or_pending(out, a[k].path, st.last_dir) by {
        if from_a && k == st.i {
        } else {
            if !from_a {
                lemma_skip_shift(b, st.j, a[k].path);
            }
            assert(covers_or_pending(rest, a[k].path, st2.last_dir));
        }
    }
    assert forall|l: int|
        st.j <= l < b.len() && !((#[trigger] b[l]).status is Deleted) && !has_path(
            a.skip(st.i),
            b[l].path,
        ) implies covers_or_pending(out, b[l].path, st.last_dir) by {
        if !from_a && l == st.j {
        } else {
            if from_a {
                lemma_skip_shift(a, st.i, b[l].path);
            }
            assert(covers_or_pending(rest, b[l].path, st2.last_dir));
        }
    }
}

/// Coverage of missing paths, compression on or off: every path live on
/// exactly one side is answered by the difference list — by a file-level
/// missing difference naming it, or a directory-level one naming an
/// ancestor directory of it. Never is such a path passed over.
pub proof fn lemma_differ_coverage(
    a: Seq<EntryModel>,
    b: Seq<EntryModel>,
    opts: DiffOptions,
    root1: Seq<char>,
    root2: Seq<char>,
)
    requires
        path_sorted(a),
        path_sorted(b),
    ensures
        forall|k: int|
            0 <= k < a.len() && !((#[trigger] a[k]).status is Deleted) && !has_path(b, a[k].path)
                ==> covers_missing(spec_diff(a, b, opts, root1, root2), a[k].path),
        forall|l: int|
            0 <= l < b.len() && !((#[trigger] b[l]).status is Deleted) && !has_path(a, b[l].path)
                ==> covers_missing(spec_diff(a, b, opts, root1, root2), b[l].path),
{
    lemma_coverage_from(a, b, opts, root1, root2, init_state());
    assert(a.skip(0) =~= a);
    assert(b.skip(0) =~= b);
}

/// Every directory-level difference in the list points away from files the
/// other side still has: below a directory reported missing on side 1 no
/// entry of side 2's snapshot lies, and the other way round.
pub open spec fn dir_diffs_sound(
    a: Seq<EntryModel>,
    b: Seq<EntryModel>,
    s: Seq<DifferenceModel>,
) -> bool {
    &&& forall|n: int, k: int|
        0 <= n < s.len() && (#[trigger] s[n]).path_type is Dir && s[n].side == 1 && 0 <= k
            < b.len() ==> !under_dir((#[trigger] b[k]).path, s[n].path)
    &&& forall|n: int, k: int|
        0 <= n < s.len() && (#[trigger] s[n]).path_type is Dir && s[n].side == 2 && 0 <= k
            < a.len() ==> !under_dir((#[trigger] a[k]).path, s[n].path)
}

/// The walk's boundary bookkeeping is faithful: each remembered previous
/// path is the entry just consumed on that side, and it lies below the
/// other side's current entry.
pub open spec fn boundaries_ok(a: Seq<EntryModel>, b: Seq<EntryModel>, st: DiffState) -> bool {
    &&& 0 <= st.i <= a.len()
    &&& 0 <= st.j <= b.len()
    &&& st.prev1 == (if st.i > 0 {
        Some(a[st.i - 1].path)
    } else {
        None
    })
    &&& st.prev2 == (if st.j > 0 {
        Some(b[st.j - 1].path)
    } else {
        None
    })
    &&& (st.j > 0 && st.i < a.len() ==> lex_lt(b[st.j - 1].path, a[st.i].path))
    &&& (st.i > 0 && st.j < b.len() ==> lex_lt(a[st.i - 1].path, b[st.j].path))
}

/// Soundness of one element put before a sound rest.
proof fn lemma_dir_sound_cons(
    a: Seq<EntryModel>,
    b: Seq<EntryModel>,
    x: DifferenceModel,
    rest: Seq<DifferenceModel>,
)
    requires
        dir_diffs_sound(a, b, rest),
        x.path_type is Dir && x.side == 1 ==> forall|k: int|
            0 <= k < b.len() ==> !under_dir((#[trigger] b[k]).path, x.path),
        x.path_type is Dir && x.side == 2 ==> forall|k: int|
            0 <= k < a.len() ==> !under_dir((#[trigger] a[k]).path, x.path),
    ensures
        dir_diffs_sound(a, b, seq![x] + rest),
{
    let s = seq![x] + rest;
    assert forall|n: int, k: int|
        0 <= n < s.len() && (#[trigger] s[n]).path_type is Dir && s[n].side == 1 && 0 <= k
            < b.len() implies !under_dir((#[trigger] b[k]).path, s[n].path) by {
        if n == 0 {
            assert(s[0] == x);
        } else {
            assert(s[n] == rest[n - 1]);
        }
    }
    assert forall|n: int, k: int|
        0 <= n < s.len() && (#[trigger] s[n]).path_type is Dir && s[n].side == 2 && 0 <= k
            < a.len() implies !under_dir((#[trigger] a[k]).path, s[n].path) by {
        if n == 0 {
            assert(s[0] == x);
        } else {
            assert(s[n] == rest[n - 1]);
        }
    }
}

/// Directory-compression soundness along the whole walk: from any state
/// whose boundary bookkeeping is faithful, every directory-level
/// difference emitted covers only files absent from the other side.
#[verifier::rlimit(100)]
#[verifier::spinoff_prover]
proof fn lemma_dir_sound_from(
    a: Seq<EntryModel>,
    b: Seq<EntryModel>,
    opts: DiffOptions,
    root1: Seq<char>,
    root2: Seq<char>,
    st: DiffState,
)
    requires
        path_sorted(a),
        path_sorted(b),
        boundaries_ok(a, b, st),
    ensures
        dir_diffs_sound(a, b, spec_diff_from(a, b, opts, root1, root2, st)),
    decreases a.len() + b.len() - st.i - st.j,
{
    let out = spec_diff_from(a, b, opts, root1, root2, st);
    if st.i < a.len() && st.j < b.len() && a[st.i].path == b[st.j].path {
        let st2 = DiffState {
            i: st.i + 1,
            j: st.j + 1,
            prev1: Some(a[st.i].path),
            prev2: Some(b[st.j].path),
            last_dir: st.last_dir,
        };
        lemma_dir_sound_from(a, b, opts, root1, root2, st2);
        let rest = spec_diff_from(a, b, opts, root1, root2, st2);
        match classify_pair(a[st.i], b[st.j], opts) {
            Some(ks) => {
                let x = mk_diff(root1, root2, a[st.i].path, ks.0, PathType::File, ks.1);
                assert(out == seq![x] + rest);
                lemma_dir_sound_cons(a, b, x, rest);
            },
            None => {},
        }
    } else if st.i < a.len() && (st.j >= b.len() || lex_lt(a[st.i].path, b[st.j].path)) {
        let m = a[st.i].path;
        let step = missing_step(
            a[st.i],
            st.prev2,
            if st.j < b.len() {
                Some(b[st.j].path)
            } else {
                None
            },
            st.last_dir,
            opts,
            root1,
            root2,
            1,
        );
        let st2 = DiffState { i: st.i + 1, prev1: Some(m), last_dir: step.1, ..st };
        assert(boundaries_ok(a, b, st2)) by {
            if st.j > 0 && st.i + 1 < a.len() {
                crate::paths::lemma_lex_transitive(
                    b[st.j - 1].path,
                    a[st.i].path,
                    a[st.i + 1].path,
                );
            }
        }
        lemma_dir_sound_from(a, b, opts, root1, root2, st2);
        let rest = spec_diff_from(a, b, opts, root1, root2, st2);
        assert(out == step.0 + rest);
        if step.0.len() == 0 {
            assert(out =~= rest);
        } else {
            let x = step.0[0];
            assert(out =~= seq![x] + rest);
            if x.path_type is Dir {
                let d = x.path;
                assert(spec_compress(
                    crate::compress::prev_boundary(b, st.j),
                    crate::compress::cur_boundary(b, st.j),
                    m,
                ) == Some(d)) by {
                    assert(st.prev2 == crate::compress::prev_boundary(b, st.j));
                }
                crate::compress::lemma_compression_sound(b, st.j, m, d);
                lemma_dir_sound_cons(a, b, x, rest);
            } else {
                lemma_dir_sound_cons(a, b, x, rest);
            }
        }
    } else if st.j < b.len() {
        if st.i < a.len() {
            crate::paths::lemma_lex_trichotomy(a[st.i].path, b[st.j].path);
        }
        let m = b[st.j].path;
        let step = missing_step(
            b[st.j],
            st.prev1,
            if st.i < a.len() {
                Some(a[st.i].path)
            } else {
                None
            },
            st.last_dir,
            opts,
            root1,
            root2,
            2,
        );
        let st2 = DiffState { j: st.j + 1, prev2: Some(m), last_dir: step.1, ..st };
        assert(boundaries_ok(a, b, st2)) by {
            if st.i > 0 && st.j + 1 < b.len() {
                crate::paths::lemma_lex_transitive(
                    a[st.i - 1].path,
                    b[st.j].path,
                    b[st.j + 1].path,
                );
            }
        }
        lemma_dir_sound_from(a, b, opts, root1, root2, st2);
        let rest = spec_diff_from(a, b, opts, root1, root2, st2);
        assert(out == step.0 + rest);
        if step.0.len() == 0 {
            assert(out =~= rest);
        } else {
            let x = step.0[0];
            assert(out =~= seq![x] + rest);
            if x.path_type is Dir {
                let d = x.path;
                assert(spec_compress(
                    crate::compress::prev_boundary(a, st.i),
                    crate::compress::cur_boundary(a, st.i),
                    m,
                ) == Some(d)) by {
                    assert(st.prev1 == crate::compress::prev_boundary(a, st.i));
                }
                crate::compress::lemma_compression_sound(a, st.i, m, d);
                lemma_dir_sound_cons(a, b, x, rest);
            } else {
                lemma_dir_sound_cons(a, b, x, rest);
            }
        }
    } else {
        assert(out.len() == 0);
    }
}

/// Directory-compression soundness for the whole difference list of two
/// sorted snapshots: a directory reported missing on one side has no entry
/// of the other side's snapshot anywhere below it.
pub proof fn lemma_diff_dirs_sound(
    a: Seq<EntryModel>,
    b: Seq<EntryModel>,
    opts: DiffOptions,
    root1: Seq<char>,
    root2: Seq<char>,
)
    requires
        path_sorted(a),
        path_sorted(b),
    ensures
        dir_diffs_sound(a, b, spec_diff(a, b, opts, root1, root2)),
{
    lemma_dir_sound_from(a, b, opts, root1, root2, init_state());
}

/// The view of an optional owned path.
pub open spec fn opt_string_view(p: Option<String>) -> Option<Seq<char>> {
    match p {
        Some(s) => Some(s@),
        None => None,
    }
}

/// The action line proposed for a difference: what to copy, touch or look
/// at. `ts` is the rendered local time that a touch suggestion carries.
pub open spec fn spec_action_line(
    d: DifferenceModel,
    root1: Seq<char>,
    root2: Seq<char>,
    ts: Seq<char>,
) -> Seq<char> {
    match d.status {
        DiffKind::Deleted => seq!['D', 'E', 'L', 'E', 'T', 'E', 'D', ' '] + d.path,
        DiffKind::Changed => seq!['C', 'H', 'A', 'N', 'G', 'E', 'D', ' '] + d.path,
        DiffKind::Perms => seq!['P', 'E', 'R', 'M', 'S', ' '] + d.path,
        DiffKind::Time => seq!['T', 'I', 'M', 'E', ' '] + d.path + seq!['\t'] + seq![
            't',
            'o',
            'u',
            'c',
            'h',
            ' ',
            '-',
            't',
            ' ',
        ] + ts + seq![' '] + root2 + seq!['/'] + d.path,
        DiffKind::Missing => {
            let src = if d.side == 2 {
                root2
            } else {
                root1
            };
            let dst = if d.side == 2 {
                root1
            } else {
                root2
            };
            let cp = if d.path_type is Dir {
                seq!['c', 'p', ' ', '-', 'R', ' ']
            } else {
                seq!['c', 'p', ' ']
            };
            seq!['M', 'I', 'S', 'S', 'I', 'N', 'G', ' '] + d.path + seq!['\t'] + cp + src + seq![
                '/',
            ] + d.path + seq![' '] + dst + seq!['/'] + d.path
        },
    }
}

/// The action line fits its difference; a touch suggestion carries some
/// rendering of the local time.
pub open spec fn line_matches(
    d: DifferenceModel,
    l: Seq<char>,
    root1: Seq<char>,
    root2: Seq<char>,
) -> bool {
    if d.status is Time {
        exists|ts: Seq<char>| l == spec_action_line(d, root1, root2, ts)
    } else {
        l == spec_action_line(d, root1, root2, Seq::empty())
    }
}

/// A path under a root.
fn join_root(root: &str, path: &str) -> (r: String)
    ensures
        r@ == root@ + seq!['/'] + path@,
{
    proof {
        reveal_strlit("/");
        assert("/"@ =~= seq!['/']);
    }
    let mut r = root.to_owned();
    r.append("/");
    r.append(path);
    proof {
        assert(r@ =~= root@ + seq!['/'] + path@);
    }
    r
}

/// Writes the action line for a difference; `ts` is the rendered local
/// time for a touch suggestion and is ignored by every other kind.
pub fn build_action_line(d: &Difference, root1: &str, root2: &str, ts: &str) -> (r: String)
    ensures
        r@ == spec_action_line(d@, root1@, root2@, ts@),
{
    proof {
        reveal_strlit("DELETED ");
        reveal_strlit("CHANGED ");
        reveal_strlit("PERMS ");
        reveal_strlit("TIME ");
        reveal_strlit("MISSING ");
        reveal_strlit("touch -t ");
        reveal_strlit("cp ");
        reveal_strlit("cp -R ");
        reveal_strlit("\t");
        reveal_strlit(" ");
        reveal_strlit("/");
    }
    match d.status {
        DiffKind::Deleted => {
            let mut r: String = "DELETED ".to_owned();
            r.append(d.path.as_str());
            proof {
                assert(r@ =~= spec_action_line(d@, root1@, root2@, ts@));
            }
            r
        },
        DiffKind::Changed => {
            let mut r: String = "CHANGED ".to_owned();
            r.append(d.path.as_str());
            proof {
                assert(r@ =~= spec_action_line(d@, root1@, root2@, ts@));
            }
            r
        },
        DiffKind::Perms => {
            let mut r: String = "PERMS ".to_owned();
            r.append(d.path.as_str());
            proof {
                assert(r@ =~= spec_action_line(d@, root1@, root2@, ts@));
            }
            r
        },
        DiffKind::Time => {
            let mut r: String = "TIME ".to_owned();
            r.append(d.path.as_str());
            r.append("\t");
            r.append("touch -t ");
            r.append(ts);
            r.append(" ");
            r.append(root2);
            r.append("/");
            r.append(d.path.as_str());
            proof {
                assert(r@ =~= spec_action_line(d@, root1@, root2@, ts@));
            }
            r
        },
        DiffKind::Missing => {
            let (src, dst) = if d.side == 2 {
                (root2, root1)
            } else {
                (root1, root2)
            };
            let mut r: String = "MISSING ".to_owned();
            r.append(d.path.as_str());
            r.append("\t");
            match d.path_type {
                PathType::Dir => r.append("cp -R "),
                PathType::File => r.append("cp "),
            }
            r.append(src);
            r.append("/");
            r.append(d.path.as_str());
            r.append(" ");
            r.append(dst);
            r.append("/");
            r.append(d.path.as_str());
            proof {
                assert(r@ =~= spec_action_line(d@, root1@, root2@, ts@));
            }
            r
        },
    }
}

/// Classifies one path present on both sides, as [`classify_pair`] says.
fn classify_entries(a: &Entry, b: &Entry, opts: DiffOptions) -> (r: Option<(DiffKind, i32)>)
    ensures
        match r {
            Some(ks) => classify_pair(a@, b@, opts) == Some((ks.0, ks.1 as int)),
            None => classify_pair(a@, b@, opts) is None,
        },
{
    let a_deleted = matches!(a.status, crate::entry::EntryStatus::Deleted);
    let b_deleted = matches!(b.status, crate::entry::EntryStatus::Deleted);
    if a_deleted && b_deleted {
        None
    } else if a_deleted {
        Some((DiffKind::Deleted, 2))
    } else if b_deleted {
        Some((DiffKind::Deleted, 1))
    } else if a.size != b.size {
        Some((DiffKind::Changed, 0))
    } else if !crate::paths::str_eq(a.hash.as_str(), b.hash.as_str()) {
        Some((DiffKind::Changed, 0))
    } else if !opts.no_times && a.timestamp != b.timestamp {
        Some((DiffKind::Time, 1))
    } else if !opts.no_perms && a.perms != b.perms {
        Some((DiffKind::Perms, 1))
    } else {
        None
    }
}

/// Handles one entry missing from the other side: emits a directory or
/// file difference with its action line, or nothing for a deleted entry or
/// a directory already proposed.
fn emit_missing(
    e: &Entry,
    other_prev: Option<&String>,
    other_cur: Option<&String>,
    last_dir: &mut Option<String>,
    opts: DiffOptions,
    side: i32,
    root1: &str,
    root2: &str,
    out: &mut Vec<Difference>,
    lines: &mut Vec<String>,
)
    requires
        side == 1 || side == 2,
        old(out)@.len() == old(lines)@.len(),
        forall|k: int|
            0 <= k < old(out)@.len() ==> line_matches(
                #[trigger] diff_models(old(out)@)[k],
                old(lines)@[k]@,
                root1@,
                root2@,
            ),
    ensures
        ({
            let step = missing_step(
                e@,
                opt_path_view(other_prev),
                opt_path_view(other_cur),
                opt_string_view(*old(last_dir)),
                opts,
                root1@,
                root2@,
                side as int,
            );
            &&& diff_models(final(out)@) == diff_models(old(out)@) + step.0
            &&& opt_string_view(*final(last_dir)) == step.1
        }),
        final(out)@.len() == final(lines)@.len(),
        forall|k: int|
            0 <= k < final(out)@.len() ==> line_matches(
                #[trigger] diff_models(final(out)@)[k],
                final(lines)@[k]@,
                root1@,
                root2@,
            ),
{
    proof {
        reveal_strlit("");
        assert(""@ =~= Seq::<char>::empty());
    }
    if matches!(e.status, crate::entry::EntryStatus::Deleted) {
        proof {
            assert(diff_models(out@) =~= diff_models(out@) + Seq::<DifferenceModel>::empty());
        }
        return ;
    }
    let mut dir_path: Option<String> = None;
    if !opts.no_compress {
        match compress_dirs(other_prev, other_cur, &e.path) {
            Some(d) => {
                let duplicate = match last_dir {
                    Some(ld) => crate::paths::str_eq(ld.as_str(), d.as_str()),
                    None => false,
                };
                if duplicate {
                    proof {
                        assert(opt_string_view(*last_dir) == Some(d@));
                        assert(diff_models(out@) =~= diff_models(out@)
                            + Seq::<DifferenceModel>::empty());
                    }
                    return ;
                }
                dir_path = Some(d);
            },
            None => {},
        }
    }
    let ghost old_out = out@;
    let diff = match dir_path {
        Some(d) => {
            let r = Difference {
                path: d.clone(),
                status: DiffKind::Missing,
                path_type: PathType::Dir,
                side: side,
                path1: join_root(root1, d.as_str()),
                path2: join_root(root2, d.as_str()),
            };
            *last_dir = Some(d);
            r
        },
        None => Difference {
            path: e.path.clone(),
            status: DiffKind::Missing,
            path_type: PathType::File,
            side: side,
            path1: join_root(root1, e.path.as_str()),
            path2: join_root(root2, e.path.as_str()),
        },
    };
    let line = build_action_line(&diff, root1, root2, "");
    out.push(diff);
    lines.push(line);
    proof {
        let step = missing_step(
            e@,
            opt_path_view(other_prev),
            opt_path_view(other_cur),
            opt_string_view(*old(last_dir)),
            opts,
            root1@,
            root2@,
            side as int,
        );
        assert(diff_models(out@) =~= diff_models(old_out) + step.0);
        assert forall|k: int| 0 <= k < out@.len() implies line_matches(
            #[trigger] diff_models(out@)[k],
            lines@[k]@,
            root1@,
            root2@,
        ) by {
            if k < out@.len() - 1 {
                assert(diff_models(out@)[k] == diff_models(old_out)[k]);
                assert(line_matches(diff_models(old_out)[k], lines@[k]@, root1@, root2@));
            }
        }
    }
}

/// Joins the two roots' snapshots and returns every difference in path
/// order, beside one proposed action line for each.
pub fn diff_snapshots(
    a: &Vec<Entry>,
    b: &Vec<Entry>,
    opts: DiffOptions,
    root1: &str,
    root2: &str,
) -> (r: (Vec<Difference>, Vec<String>))
    ensures
        diff_models(r.0@) == spec_diff(models(a@), models(b@), opts, root1@, root2@),
        r.0@.len() == r.1@.len(),
        forall|k: int|
            0 <= k < r.0@.len() ==> line_matches(
                #[trigger] diff_models(r.0@)[k],
                r.1@[k]@,
                root1@,
                root2@,
            ),
{
    proof {
        reveal_strlit("");
        assert(""@ =~= Seq::<char>::empty());
    }
    let ghost am = models(a@);
    let ghost bm = models(b@);
    let ghost goal = spec_diff(am, bm, opts, root1@, root2@);
    let mut out: Vec<Difference> = Vec::new();
    let mut lines: Vec<String> = Vec::new();
    let mut i: usize = 0;
    let mut j: usize = 0;
    let mut prev1: Option<String> = None;
    let mut prev2: Option<String> = None;
    let mut last_dir: Option<String> = None;
    proof {
        assert(diff_models(out@) + spec_diff_from(am, bm, opts, root1@, root2@, init_state())
            =~= goal);
    }
    while i < a.len() || j < b.len()
        invariant
            0 <= i <= a@.len(),
            0 <= j <= b@.len(),
            am == models(a@),
            bm == models(b@),
            goal == spec_diff(am, bm, opts, root1@, root2@),
            out@.len() == lines@.len(),
            forall|k: int|
                0 <= k < out@.len() ==> line_matches(
                    #[trigger] diff_models(out@)[k],
                    lines@[k]@,
                    root1@,
                    root2@,
                ),
            diff_models(out@) + spec_diff_from(
                am,
                bm,
                opts,
                root1@,
                root2@,
                DiffState {
                    i: i as int,
                    j: j as int,
                    prev1: opt_string_view(prev1),
                    prev2: opt_string_view(prev2),
                    last_dir: opt_string_view(last_dir),
                },
            ) == goal,
        decreases a@.len() - i + b@.len() - j,
    {
        let ghost st = DiffState {
            i: i as int,
            j: j as int,
            prev1: opt_string_view(prev1),
            prev2: opt_string_view(prev2),
            last_dir: opt_string_view(last_dir),
        };
        let ghost old_out = out@;
        if j >= b.len() || (i < a.len() && crate::paths::path_lt(
            a[i].path.as_str(),
            b[j].path.as_str(),
        )) {
            // the entry at `i` is missing on side 2
            let ae = &a[i];
            proof {
                if j < b@.len() {
                    assert(lex_lt(am[i as int].path, bm[j as int].path));
                    crate::paths::lemma_lex_trichotomy(am[i as int].path, bm[j as int].path);
                }
            }
            let ghost step = missing_step(
                am[i as int],
                opt_string_view(prev2),
                if j < b@.len() {
                    Some(bm[j as int].path)
                } else {
                    None
                },
                opt_string_view(last_dir),
                opts,
                root1@,
                root2@,
                1,
            );
            if j < b.len() {
                let be = &b[j];
                emit_missing(
                    ae,
                    prev2.as_ref(),
                    Some(&be.path),
                    &mut last_dir,
                    opts,
                    1,
                    root1,
                    root2,
                    &mut out,
                    &mut lines,
                );
            } else {
                emit_missing(
                    ae,
                    prev2.as_ref(),
                    None,
                    &mut last_dir,
                    opts,
                    1,
                    root1,
                    root2,
                    &mut out,
                    &mut lines,
                );
            }
            prev1 = Some(ae.path.clone());
            i = i + 1;
            proof {
                assert(spec_diff_from(am, bm, opts, root1@, root2@, st) == step.0
                    + spec_diff_from(
                    am,
                    bm,
                    opts,
                    root1@,
                    root2@,
                    DiffState {
                        i: i as int,
                        j: j as int,
                        prev1: opt_string_view(prev1),
                        prev2: opt_string_view(prev2),
                        last_dir: opt_string_view(last_dir),
                    },
                ));
                assert(diff_models(out@) + spec_diff_from(
                    am,
                    bm,
                    opts,
                    root1@,
                    root2@,
                    DiffState {
                        i: i as int,
                        j: j as int,
                        prev1: opt_string_view(prev1),
                        prev2: opt_string_view(prev2),
                        last_dir: opt_string_view(last_dir),
                    },
                ) =~= goal);
            }
        } else if i >= a.len() || crate::paths::path_lt(b[j].path.as_str(), a[i].path.as_str()) {
            // the entry at `j` is missing on side 1
            let be = &b[j];
            proof {
                if i < a@.len() {
                    assert(lex_lt(bm[j as int].path, am[i as int].path));
                    crate::paths::lemma_lex_trichotomy(am[i as int].path, bm[j as int].path);
                }
            }
            let ghost step = missing_step(
                bm[j as int],
                opt_string_view(prev1),
                if i < a@.len() {
                    Some(am[i as int].path)
                } else {
                    None
                },
                opt_string_view(last_dir),
                opts,
                root1@,
                root2@,
                2,
            );
            if i < a.len() {
                let ae = &a[i];
                emit_missing(
                    be,
                    prev1.as_ref(),
                    Some(&ae.path),
                    &mut last_dir,
                    opts,
                    2,
                    root1,
                    root2,
                    &mut out,
                    &mut lines,
                );
            } else {
                emit_missing(
                    be,
                    prev1.as_ref(),
                    None,
                    &mut last_dir,
                    opts,
                    2,
                    root1,
                    root2,
                    &mut out,
                    &mut lines,
                );
            }
            prev2 = Some(be.path.clone());
            j = j + 1;
            proof {
                assert(spec_diff_from(am, bm, opts, root1@, root2@, st) == step.0
                    + spec_diff_from(
                    am,
                    bm,
                    opts,
                    root1@,
                    root2@,
                    DiffState {
                        i: i as int,
                        j: j as int,
                        prev1: opt_string_view(prev1),
                        prev2: opt_string_view(prev2),
                        last_dir: opt_string_view(last_dir),
                    },
                ));
                assert(diff_models(out@) + spec_diff_from(
                    am,
                    bm,
                    opts,
                    root1@,
                    root2@,
                    DiffState {
                        i: i as int,
                        j: j as int,
                        prev1: opt_string_view(prev1),
                        prev2: opt_string_view(prev2),
                        last_dir: opt_string_view(last_dir),
                    },
                ) =~= goal);
            }
        } else {
            // the same path on both sides
            let ae = &a[i];
            let be = &b[j];
            proof {
                crate::paths::lemma_lex_trichotomy(am[i as int].path, bm[j as int].path);
                assert(am[i as int].path == bm[j as int].path);
            }
            match classify_entries(ae, be, opts) {
                Some(ks) => {
                    let diff = Difference {
                        path: ae.path.clone(),
                        status: ks.0,
                        path_type: PathType::File,
                        side: ks.1,
                        path1: join_root(root1, ae.path.as_str()),
                        path2: join_root(root2, ae.path.as_str()),
                    };
                    let line = if matches!(ks.0, DiffKind::Time) {
                        let ts = crate::localtime::format_touch_timestamp(ae.timestamp);
                        build_action_line(&diff, root1, root2, ts.as_str())
                    } else {
                        build_action_line(&diff, root1, root2, "")
                    };
                    proof {
                        assert(diff@ == mk_diff(
                            root1@,
                            root2@,
                            am[i as int].path,
                            ks.0,
                            PathType::File,
                            ks.1 as int,
                        ));
                        assert(line_matches(diff@, line@, root1@, root2@));
                    }
                    out.push(diff);
                    lines.push(line);
                    proof {
                        assert(diff_models(out@) =~= diff_models(old_out) + seq![
                            mk_diff(
                                root1@,
                                root2@,
                                am[i as int].path,
                                ks.0,
                                PathType::File,
                                ks.1 as int,
                            ),
                        ]);
                        assert forall|k: int| 0 <= k < out@.len() implies line_matches(
                            #[trigger] diff_models(out@)[k],
                            lines@[k]@,
                            root1@,
                            root2@,
                        ) by {
                            if k < out@.len() - 1 {
                                assert(diff_models(out@)[k] == diff_models(old_out)[k]);
                            }
                        }
                    }
                },
                None => {
                    proof {
                        assert(diff_models(out@) =~= diff_models(old_out)
                            + Seq::<DifferenceModel>::empty());
                    }
                },
            }
            prev1 = Some(ae.path.clone());
            prev2 = Some(be.path.clone());
            i = i + 1;
            j = j + 1;
            proof {
                assert(diff_models(out@) + spec_diff_from(
                    am,
                    bm,
                    opts,
                    root1@,
                    root2@,
                    DiffState {
                        i: i as int,
                        j: j as int,
                        prev1: opt_string_view(prev1),
                        prev2: opt_string_view(prev2),
                        last_dir: opt_string_view(last_dir),
                    },
                ) =~= goal);
            }
        }
    }
    proof {
        assert(spec_diff_from(
            am,
            bm,
            opts,
            root1@,
            root2@,
            DiffState {
                i: i as int,
                j: j as int,
                prev1: opt_string_view(prev1),
                prev2: opt_string_view(prev2),
                last_dir: opt_string_view(last_dir),
            },
        ) =~= Seq::<DifferenceModel>::empty());
        assert(diff_models(out@) =~= goal);
    }
    (out, lines)
}

} // verus!
