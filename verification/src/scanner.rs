//! Merging a live directory listing against the previous snapshot.
//!
//! Both inputs arrive in ascending path order. The merge walks them with two
//! pointers: an entry only in the previous snapshot is reported deleted, an
//! entry only in the live listing is new, and an entry in both keeps its old
//! digest exactly when its modified time and size are unchanged, so that
//! only new and modified files are read again.

use vstd::prelude::*;

verus! {

use crate::entry::{Entry, EntryModel, EntryStatus};
use crate::paths::{lex_lt, lemma_lex_trichotomy, lemma_lex_transitive, path_lt};

/// The models of a vector of entries.
pub open spec fn models(v: Seq<Entry>) -> Seq<EntryModel> {
    v.map_values(|e: Entry| e@)
}

/// Entries in strictly ascending path order.
pub open spec fn path_sorted(s: Seq<EntryModel>) -> bool {
    forall|i: int, j: int| 0 <= i < j < s.len() ==> lex_lt(s[i].path, s[j].path)
}

/// Some entry of the snapshot has this path.
pub open spec fn has_path(s: Seq<EntryModel>, p: Seq<char>) -> bool {
    exists|i: int| 0 <= i < s.len() && s[i].path == p
}

/// A live entry as the merge records it: new unless its metadata could not
/// be read, with no digest yet.
pub open spec fn as_new(e: EntryModel) -> EntryModel {
    EntryModel {
        status: if e.status is Error {
            EntryStatus::Error
        } else {
            EntryStatus::New
        },
        hash: Seq::empty(),
        ..e
    }
}

/// A previous entry whose path no longer exists: reported deleted, with its
/// last known time, size, permissions and digest kept for audit.
pub open spec fn as_deleted(e: EntryModel) -> EntryModel {
    EntryModel { status: EntryStatus::Deleted, ..e }
}

/// The record for a path present in both the previous snapshot and the live
/// listing: the old digest is reused exactly when modified time and size
/// both match; otherwise the entry is modified and must be read again. A
/// live entry whose metadata could not be read stays an error record with
/// no digest — it is never classified unchanged or modified.
pub open spec fn merged_pair(prev: EntryModel, live: EntryModel) -> EntryModel {
    if live.status is Error {
        EntryModel { status: EntryStatus::Error, hash: Seq::empty(), ..live }
    } else if live.timestamp == prev.timestamp && live.size == prev.size {
        EntryModel { status: EntryStatus::Unchanged, hash: prev.hash, ..live }
    } else {
        EntryModel { status: EntryStatus::Modified, hash: Seq::empty(), ..live }
    }
}

/// The merge of a previous snapshot and a live listing, both path-sorted.
pub open spec fn spec_merge(prev: Seq<EntryModel>, live: Seq<EntryModel>) -> Seq<EntryModel>
    decreases prev.len() + live.len(),
{
    if prev.len() == 0 && live.len() == 0 {
        Seq::empty()
    } else if prev.len() == 0 {
        seq![as_new(live[0])] + spec_merge(prev, live.drop_first())
    } else if live.len() == 0 {
        seq![as_deleted(prev[0])] + spec_merge(prev.drop_first(), live)
    } else if lex_lt(prev[0].path, live[0].path) {
        seq![as_deleted(prev[0])] + spec_merge(prev.drop_first(), live)
    } else if lex_lt(live[0].path, prev[0].path) {
        seq![as_new(live[0])] + spec_merge(prev, live.drop_first())
    } else {
        seq![merged_pair(prev[0], live[0])] + spec_merge(prev.drop_first(), live.drop_first())
    }
}

/// The entry's digest still has to be computed from the file's bytes.
pub open spec fn spec_needs_digest(e: EntryModel) -> bool {
    e.status is New || e.status is Modified
}

impl Entry {
    /// True when the scan must read this file to fill in its digest.
    pub fn needs_digest(&self) -> (r: bool)
        ensures
            r == spec_needs_digest(self@),
    {
        match self.status {
            EntryStatus::New => true,
            EntryStatus::Modified => true,
            _ => false,
        }
    }
}

/// Checks that the entries are in strictly ascending path order.
pub fn is_path_sorted(v: &Vec<Entry>) -> (r: bool)
    ensures
        r == path_sorted(models(v@)),
{
    let n = v.len();
    if n == 0 {
        return true;
    }
    let mut i: usize = 1;
    while i < n
        invariant
            1 <= i <= n,
            n == v@.len(),
            forall|k: int| 0 <= k < i - 1 ==> lex_lt(#[trigger] models(v@)[k].path, models(v@)[k + 1].path),
        decreases n - i,
    {
        if !path_lt(v[i - 1].path.as_str(), v[i].path.as_str()) {
            proof {
                assert(!lex_lt(models(v@)[i - 1].path, models(v@)[i as int].path));
            }
            return false;
        }
        i = i + 1;
    }
    proof {
        lemma_adjacent_sorted(models(v@));
    }
    true
}

/// Adjacent order extends to all pairs.
proof fn lemma_adjacent_sorted(s: Seq<EntryModel>)
    requires
        forall|k: int| 0 <= k < s.len() - 1 ==> lex_lt(#[trigger] s[k].path, s[k + 1].path),
    ensures
        path_sorted(s),
{
    assert forall|i: int, j: int| 0 <= i < j < s.len() implies lex_lt(s[i].path, s[j].path) by {
        lemma_sorted_range(s, i, j);
    }
}

/// Order between two positions, by stepping through the ones between.
proof fn lemma_sorted_range(s: Seq<EntryModel>, i: int, j: int)
    requires
        forall|k: int| 0 <= k < s.len() - 1 ==> lex_lt(#[trigger] s[k].path, s[k + 1].path),
        0 <= i < j < s.len(),
    ensures
        lex_lt(s[i].path, s[j].path),
    decreases j - i,
{
    if j == i + 1 {
    } else {
        lemma_sorted_range(s, i, j - 1);
        assert(lex_lt(s[j - 1].path, s[j].path));
        lemma_lex_transitive(s[i].path, s[j - 1].path, s[j].path);
    }
}

/// Scanning an unchanged root again: the merge returns the previous
/// snapshot itself, every entry unchanged, every digest reused, and no
/// file left to read again. "Unchanged root" here means what a repeated
/// walk of untouched files yields: the same paths with the same times,
/// sizes and permission bits, and every metadata read succeeding — an
/// entry whose metadata cannot be read is recorded as an error instead of
/// unchanged, so such entries are excluded by hypothesis.
pub proof fn lemma_scan_idempotent(prev: Seq<EntryModel>, live: Seq<EntryModel>)
    requires
        prev.len() == live.len(),
        forall|k: int|
            0 <= k < prev.len() ==> {
                &&& (#[trigger] live[k]).path == prev[k].path
                &&& live[k].timestamp == prev[k].timestamp
                &&& live[k].size == prev[k].size
                &&& live[k].perms == prev[k].perms
                &&& !(live[k].status is Error)
            },
    ensures
        spec_merge(prev, live).len() == prev.len(),
        forall|k: int|
            0 <= k < prev.len() ==> #[trigger] spec_merge(prev, live)[k] == (EntryModel {
                status: EntryStatus::Unchanged,
                ..prev[k]
            }),
        forall|k: int|
            0 <= k < prev.len() ==> !spec_needs_digest(#[trigger] spec_merge(prev, live)[k]),
    decreases prev.len(),
{
    if prev.len() > 0 {
        lemma_lex_trichotomy(prev[0].path, live[0].path);
        let mp = merged_pair(prev[0], live[0]);
        assert(mp == EntryModel { status: EntryStatus::Unchanged, ..prev[0] });
        let pd = prev.drop_first();
        let ld = live.drop_first();
        assert forall|k: int| 0 <= k < pd.len() implies {
            &&& (#[trigger] ld[k]).path == pd[k].path
            &&& ld[k].timestamp == pd[k].timestamp
            &&& ld[k].size == pd[k].size
            &&& ld[k].perms == pd[k].perms
            &&& !(ld[k].status is Error)
        } by {
            assert(ld[k] == live[k + 1]);
            assert(pd[k] == prev[k + 1]);
        }
        lemma_scan_idempotent(pd, ld);
        let out = spec_merge(prev, live);
        assert(out == seq![mp] + spec_merge(pd, ld));
        assert forall|k: int| 0 <= k < prev.len() implies #[trigger] out[k] == (EntryModel {
            status: EntryStatus::Unchanged,
            ..prev[k]
        }) by {
            if k > 0 {
                assert(out[k] == spec_merge(pd, ld)[k - 1]);
                assert(prev[k] == pd[k - 1]);
            }
        }
    }
}

/// One path names at most one entry of a sorted snapshot.
pub proof fn lemma_sorted_unique_paths(s: Seq<EntryModel>)
    requires
        path_sorted(s),
    ensures
        forall|i: int, j: int|
            0 <= i < s.len() && 0 <= j < s.len() && (#[trigger] s[i]).path == (
            #[trigger] s[j]).path ==> i == j,
{
    assert forall|i: int, j: int|
        0 <= i < s.len() && 0 <= j < s.len() && (#[trigger] s[i]).path == (
        #[trigger] s[j]).path implies i == j by {
        if i < j {
            assert(lex_lt(s[i].path, s[j].path));
            lemma_lex_trichotomy(s[i].path, s[j].path);
        }
        if j < i {
            assert(lex_lt(s[j].path, s[i].path));
            lemma_lex_trichotomy(s[j].path, s[i].path);
        }
    }
}

/// A path is in a non-empty snapshot exactly when it names the first entry
/// or lies in the rest.
pub(crate) proof fn lemma_has_path_shift(s: Seq<EntryModel>, p: Seq<char>)
    requires
        s.len() > 0,
    ensures
        has_path(s, p) <==> (s[0].path == p || has_path(s.drop_first(), p)),
{
    if has_path(s, p) {
        let w = choose|i: int| 0 <= i < s.len() && s[i].path == p;
        if w > 0 {
            assert(s.drop_first()[w - 1].path == p);
        }
    }
    if has_path(s.drop_first(), p) {
        let w = choose|i: int| 0 <= i < s.drop_first().len() && s.drop_first()[i].path == p;
        assert(s[w + 1].path == p);
    }
}

/// Membership in a sequence with one element put in front.
proof fn lemma_cons_contains(x: EntryModel, t: Seq<EntryModel>, e: EntryModel)
    ensures
        (seq![x] + t).contains(e) <==> (e == x || t.contains(e)),
{
    let s = seq![x] + t;
    if s.contains(e) {
        let w = choose|i: int| 0 <= i < s.len() && s[i] == e;
        if w > 0 {
            assert(t[w - 1] == e);
        }
    }
    if t.contains(e) {
        let w = choose|i: int| 0 <= i < t.len() && t[i] == e;
        assert(s[w + 1] == e);
    }
    assert(s[0] == x);
}

/// An element before a sorted rest, smaller than everything in it, makes a
/// sorted whole.
proof fn lemma_cons_sorted(x: EntryModel, t: Seq<EntryModel>)
    requires
        path_sorted(t),
        forall|k: int| 0 <= k < t.len() ==> lex_lt(x.path, (#[trigger] t[k]).path),
    ensures
        path_sorted(seq![x] + t),
{
    let s = seq![x] + t;
    assert forall|i: int, j: int| 0 <= i < j < s.len() implies lex_lt(s[i].path, s[j].path) by {
        if i == 0 {
            assert(s[j] == t[j - 1]);
        } else {
            assert(s[i] == t[i - 1]);
            assert(s[j] == t[j - 1]);
        }
    }
}

/// The merge-correctness statement for one pair of snapshots: the merge is
/// sorted, covers exactly the union of the two sides' paths, and holds,
/// for each path, the record the classification asks for — deleted for a
/// path only the previous snapshot has, new for one only the live listing
/// has, and the classified pair for a path in both. The classification is
/// the one [`as_new`] and [`merged_pair`] spell out, where a live entry
/// with unreadable metadata stays an error record rather than becoming
/// new, unchanged or modified.
pub open spec fn merge_correct_stmt(prev: Seq<EntryModel>, live: Seq<EntryModel>) -> bool {
    &&& path_sorted(spec_merge(prev, live))
    &&& forall|p: Seq<char>|
        #![trigger has_path(spec_merge(prev, live), p)]
        has_path(spec_merge(prev, live), p) <==> (has_path(prev, p) || has_path(live, p))
    &&& forall|k: int|
        0 <= k < prev.len() && !has_path(live, (#[trigger] prev[k]).path) ==> spec_merge(
            prev,
            live,
        ).contains(as_deleted(prev[k]))
    &&& forall|k: int|
        0 <= k < live.len() && !has_path(prev, (#[trigger] live[k]).path) ==> spec_merge(
            prev,
            live,
        ).contains(as_new(live[k]))
    &&& forall|k: int, l: int|
        0 <= k < prev.len() && 0 <= l < live.len() && (#[trigger] prev[k]).path == (
        #[trigger] live[l]).path ==> spec_merge(prev, live).contains(
            merged_pair(prev[k], live[l]),
        )
}

/// The merge step that takes the first live entry as new.
#[verifier::rlimit(100)]
#[verifier::spinoff_prover]
proof fn lemma_merge_case_new(prev: Seq<EntryModel>, live: Seq<EntryModel>)
    requires
        path_sorted(prev),
        path_sorted(live),
        live.len() > 0,
        prev.len() == 0 || lex_lt(live[0].path, prev[0].path),
        merge_correct_stmt(prev, live.drop_first()),
    ensures
        merge_correct_stmt(prev, live),
{
    let out = spec_merge(prev, live);
    let x = as_new(live[0]);
    let ld = live.drop_first();
    lemma_sub_sorted(live);
    let rest = spec_merge(prev, ld);
    if prev.len() > 0 {
        lemma_lex_trichotomy(prev[0].path, live[0].path);
    }
    assert(out == seq![x] + rest);
    assert(out[0] == x);
    assert(out.drop_first() =~= rest);
    assert forall|k: int| 0 <= k < rest.len() implies lex_lt(x.path, (#[trigger] rest[k]).path) by {
        assert(has_path(rest, rest[k].path));
        lemma_first_below_rest(prev, live, rest[k].path, false);
    }
    lemma_cons_sorted(x, rest);
    assert forall|p: Seq<char>|
        #![trigger has_path(out, p)]
        #![trigger has_path(prev, p)]
        #![trigger has_path(live, p)]
        has_path(out, p) <==> (has_path(prev, p) || has_path(live, p)) by {
        lemma_has_path_shift(out, p);
        lemma_has_path_shift(live, p);
        assert(has_path(rest, p) <==> (has_path(prev, p) || has_path(ld, p)));
    }
    assert forall|k: int|
        0 <= k < prev.len() && !has_path(live, (#[trigger] prev[k]).path) implies out.contains(
        as_deleted(prev[k]),
    ) by {
        lemma_has_path_shift(live, prev[k].path);
        assert(rest.contains(as_deleted(prev[k])));
        lemma_cons_contains(x, rest, as_deleted(prev[k]));
    }
    assert forall|k: int|
        0 <= k < live.len() && !has_path(prev, (#[trigger] live[k]).path) implies out.contains(
        as_new(live[k]),
    ) by {
        if k == 0 {
            assert(out.contains(as_new(live[0])));
        } else {
            assert(ld[k - 1] == live[k]);
            assert(rest.contains(as_new(live[k])));
            lemma_cons_contains(x, rest, as_new(live[k]));
        }
    }
    assert forall|k: int, l: int|
        0 <= k < prev.len() && 0 <= l < live.len() && (#[trigger] prev[k]).path == (
        #[trigger] live[l]).path implies out.contains(merged_pair(prev[k], live[l])) by {
        if l == 0 {
            // live's first path is below every prev path, so no prev entry
            // matches it
            if k > 0 {
                assert(lex_lt(prev[0].path, prev[k].path));
                lemma_lex_transitive(live[0].path, prev[0].path, prev[k].path);
            }
            lemma_lex_trichotomy(live[l].path, prev[k].path);
        } else {
            assert(ld[l - 1] == live[l]);
            assert(rest.contains(merged_pair(prev[k], live[l])));
            lemma_cons_contains(x, rest, merged_pair(prev[k], live[l]));
        }
    }
}

/// The merge step that reports the first previous entry as deleted.
#[verifier::rlimit(100)]
#[verifier::spinoff_prover]
proof fn lemma_merge_case_deleted(prev: Seq<EntryModel>, live: Seq<EntryModel>)
    requires
        path_sorted(prev),
        path_sorted(live),
        prev.len() > 0,
        live.len() == 0 || lex_lt(prev[0].path, live[0].path),
        merge_correct_stmt(prev.drop_first(), live),
    ensures
        merge_correct_stmt(prev, live),
{
    let out = spec_merge(prev, live);
    let x = as_deleted(prev[0]);
    let pd = prev.drop_first();
    lemma_sub_sorted(prev);
    let rest = spec_merge(pd, live);
    if live.len() > 0 {
        lemma_lex_trichotomy(prev[0].path, live[0].path);
    }
    assert(out == seq![x] + rest);
    assert(out[0] == x);
    assert(out.drop_first() =~= rest);
    assert forall|k: int| 0 <= k < rest.len() implies lex_lt(x.path, (#[trigger] rest[k]).path) by {
        assert(has_path(rest, rest[k].path));
        lemma_first_below_rest(prev, live, rest[k].path, true);
    }
    lemma_cons_sorted(x, rest);
    assert forall|p: Seq<char>|
        #![trigger has_path(out, p)]
        #![trigger has_path(prev, p)]
        #![trigger has_path(live, p)]
        has_path(out, p) <==> (has_path(prev, p) || has_path(live, p)) by {
        lemma_has_path_shift(out, p);
        lemma_has_path_shift(prev, p);
        assert(has_path(rest, p) <==> (has_path(pd, p) || has_path(live, p)));
    }
    assert forall|k: int|
        0 <= k < prev.len() && !has_path(live, (#[trigger] prev[k]).path) implies out.contains(
        as_deleted(prev[k]),
    ) by {
        if k == 0 {
            assert(out.contains(as_deleted(prev[0])));
        } else {
            assert(pd[k - 1] == prev[k]);
            assert(rest.contains(as_deleted(prev[k])));
            lemma_cons_contains(x, rest, as_deleted(prev[k]));
        }
    }
    assert forall|k: int|
        0 <= k < live.len() && !has_path(prev, (#[trigger] live[k]).path) implies out.contains(
        as_new(live[k]),
    ) by {
        lemma_has_path_shift(prev, live[k].path);
        assert(rest.contains(as_new(live[k])));
        lemma_cons_contains(x, rest, as_new(live[k]));
    }
    assert forall|k: int, l: int|
        0 <= k < prev.len() && 0 <= l < live.len() && (#[trigger] prev[k]).path == (
        #[trigger] live[l]).path implies out.contains(merged_pair(prev[k], live[l])) by {
        if k == 0 {
            if l > 0 {
                assert(lex_lt(live[0].path, live[l].path));
                lemma_lex_transitive(prev[0].path, live[0].path, live[l].path);
            }
            lemma_lex_trichotomy(prev[k].path, live[l].path);
        } else {
            assert(pd[k - 1] == prev[k]);
            assert(rest.contains(merged_pair(prev[k], live[l])));
            lemma_cons_contains(x, rest, merged_pair(prev[k], live[l]));
        }
    }
}

/// The merge step that classifies one path present on both sides.
#[verifier::rlimit(100)]
#[verifier::spinoff_prover]
proof fn lemma_merge_case_pair(prev: Seq<EntryModel>, live: Seq<EntryModel>)
    requires
        path_sorted(prev),
        path_sorted(live),
        prev.len() > 0,
        live.len() > 0,
        prev[0].path == live[0].path,
        merge_correct_stmt(prev.drop_first(), live.drop_first()),
    ensures
        merge_correct_stmt(prev, live),
{
    let out = spec_merge(prev, live);
    lemma_lex_trichotomy(prev[0].path, live[0].path);
    let x = merged_pair(prev[0], live[0]);
    let pd = prev.drop_first();
    let ld = live.drop_first();
    lemma_sub_sorted(prev);
    lemma_sub_sorted(live);
    let rest = spec_merge(pd, ld);
    assert(out == seq![x] + rest);
    assert(out[0] == x);
    assert(out.drop_first() =~= rest);
    assert forall|k: int| 0 <= k < rest.len() implies lex_lt(x.path, (#[trigger] rest[k]).path) by {
        assert(has_path(rest, rest[k].path));
        let p = rest[k].path;
        assert(has_path(pd, p) || has_path(ld, p));
        if has_path(pd, p) {
            let w = choose|i: int| 0 <= i < pd.len() && pd[i].path == p;
            assert(prev[w + 1].path == p);
            assert(lex_lt(prev[0].path, p));
        } else {
            let w = choose|i: int| 0 <= i < ld.len() && ld[i].path == p;
            assert(live[w + 1].path == p);
            assert(lex_lt(live[0].path, p));
        }
    }
    lemma_cons_sorted(x, rest);
    assert forall|p: Seq<char>|
        #![trigger has_path(out, p)]
        #![trigger has_path(prev, p)]
        #![trigger has_path(live, p)]
        has_path(out, p) <==> (has_path(prev, p) || has_path(live, p)) by {
        lemma_has_path_shift(out, p);
        lemma_has_path_shift(prev, p);
        lemma_has_path_shift(live, p);
        assert(has_path(rest, p) <==> (has_path(pd, p) || has_path(ld, p)));
    }
    assert forall|k: int|
        0 <= k < prev.len() && !has_path(live, (#[trigger] prev[k]).path) implies out.contains(
        as_deleted(prev[k]),
    ) by {
        if k == 0 {
            assert(live[0].path == prev[0].path);
            assert(has_path(live, prev[0].path));
        } else {
            lemma_has_path_shift(live, prev[k].path);
            assert(pd[k - 1] == prev[k]);
            assert(rest.contains(as_deleted(prev[k])));
            lemma_cons_contains(x, rest, as_deleted(prev[k]));
        }
    }
    assert forall|k: int|
        0 <= k < live.len() && !has_path(prev, (#[trigger] live[k]).path) implies out.contains(
        as_new(live[k]),
    ) by {
        if k == 0 {
            assert(has_path(prev, live[0].path));
        } else {
            lemma_has_path_shift(prev, live[k].path);
            assert(ld[k - 1] == live[k]);
            assert(rest.contains(as_new(live[k])));
            lemma_cons_contains(x, rest, as_new(live[k]));
        }
    }
    assert forall|k: int, l: int|
        0 <= k < prev.len() && 0 <= l < live.len() && (#[trigger] prev[k]).path == (
        #[trigger] live[l]).path implies out.contains(merged_pair(prev[k], live[l])) by {
        if k == 0 && l > 0 {
            assert(lex_lt(live[0].path, live[l].path));
            lemma_lex_trichotomy(live[0].path, live[l].path);
        } else if l == 0 && k > 0 {
            assert(lex_lt(prev[0].path, prev[k].path));
            lemma_lex_trichotomy(prev[0].path, prev[k].path);
        } else if k == 0 && l == 0 {
            assert(out.contains(merged_pair(prev[0], live[0])));
        } else {
            assert(pd[k - 1] == prev[k]);
            assert(ld[l - 1] == live[l]);
            assert(rest.contains(merged_pair(prev[k], live[l])));
            lemma_cons_contains(x, rest, merged_pair(prev[k], live[l]));
        }
    }
}

/// Merge correctness, by induction over the two snapshots.
pub proof fn lemma_merge_correct(prev: Seq<EntryModel>, live: Seq<EntryModel>)
    requires
        path_sorted(prev),
        path_sorted(live),
    ensures
        merge_correct_stmt(prev, live),
    decreases prev.len() + live.len(),
{
    if prev.len() == 0 && live.len() == 0 {
        assert(spec_merge(prev, live).len() == 0);
    } else if prev.len() == 0 || (live.len() > 0 && lex_lt(live[0].path, prev[0].path)) {
        lemma_sub_sorted(live);
        lemma_merge_correct(prev, live.drop_first());
        lemma_merge_case_new(prev, live);
    } else if live.len() == 0 || lex_lt(prev[0].path, live[0].path) {
        lemma_sub_sorted(prev);
        lemma_merge_correct(prev.drop_first(), live);
        lemma_merge_case_deleted(prev, live);
    } else {
        lemma_lex_trichotomy(prev[0].path, live[0].path);
        lemma_sub_sorted(prev);
        lemma_sub_sorted(live);
        lemma_merge_correct(prev.drop_first(), live.drop_first());
        lemma_merge_case_pair(prev, live);
    }
}

/// Dropping the first entry keeps a snapshot sorted.
pub(crate) proof fn lemma_sub_sorted(s: Seq<EntryModel>)
    requires
        path_sorted(s),
        s.len() > 0,
    ensures
        path_sorted(s.drop_first()),
        forall|k: int|
            0 <= k < s.drop_first().len() ==> lex_lt(s[0].path, (#[trigger] s.drop_first()[k]).path),
{
    assert forall|i: int, j: int|
        0 <= i < j < s.drop_first().len() implies lex_lt(
        s.drop_first()[i].path,
        s.drop_first()[j].path,
    ) by {
        assert(s.drop_first()[i] == s[i + 1]);
        assert(s.drop_first()[j] == s[j + 1]);
    }
    assert forall|k: int| 0 <= k < s.drop_first().len() implies lex_lt(
        s[0].path,
        (#[trigger] s.drop_first()[k]).path,
    ) by {
        assert(s.drop_first()[k] == s[k + 1]);
    }
}

/// When the merge takes its first output from one side, every path of the
/// remaining merge lies strictly above that first path.
proof fn lemma_first_below_rest(
    prev: Seq<EntryModel>,
    live: Seq<EntryModel>,
    p: Seq<char>,
    from_prev: bool,
)
    requires
        path_sorted(prev),
        path_sorted(live),
        from_prev ==> prev.len() > 0 && (live.len() == 0 || lex_lt(prev[0].path, live[0].path))
            && (has_path(prev.drop_first(), p) || has_path(live, p)),
        !from_prev ==> live.len() > 0 && (prev.len() == 0 || lex_lt(live[0].path, prev[0].path))
            && (has_path(prev, p) || has_path(live.drop_first(), p)),
    ensures
        from_prev ==> lex_lt(prev[0].path, p),
        !from_prev ==> lex_lt(live[0].path, p),
{
    if from_prev {
        if has_path(prev.drop_first(), p) {
            let w = choose|i: int|
                0 <= i < prev.drop_first().len() && prev.drop_first()[i].path == p;
            assert(prev[w + 1].path == p);
            assert(lex_lt(prev[0].path, p));
        } else {
            let w = choose|i: int| 0 <= i < live.len() && live[i].path == p;
            if w > 0 {
                assert(lex_lt(live[0].path, live[w].path));
                lemma_lex_transitive(prev[0].path, live[0].path, live[w].path);
            }
        }
    } else {
        if has_path(live.drop_first(), p) {
            let w = choose|i: int|
                0 <= i < live.drop_first().len() && live.drop_first()[i].path == p;
            assert(live[w + 1].path == p);
            assert(lex_lt(live[0].path, p));
        } else {
            let w = choose|i: int| 0 <= i < prev.len() && prev[i].path == p;
            if w > 0 {
                assert(lex_lt(prev[0].path, prev[w].path));
                lemma_lex_transitive(live[0].path, prev[0].path, prev[w].path);
            }
        }
    }
}

/// Merges the previous snapshot with the live listing, reusing digests for
/// entries whose modified time and size are unchanged.
pub fn merge_snapshot(prev: &Vec<Entry>, live: &Vec<Entry>) -> (out: Vec<Entry>)
    ensures
        models(out@) == spec_merge(models(prev@), models(live@)),
{
    let ghost pm = models(prev@);
    let ghost lm = models(live@);
    let mut out: Vec<Entry> = Vec::new();
    let mut i: usize = 0;
    let mut j: usize = 0;
    proof {
        assert(pm.skip(0) =~= pm);
        assert(lm.skip(0) =~= lm);
        assert(models(out@) + spec_merge(pm, lm) =~= spec_merge(pm, lm));
    }
    while i < prev.len() || j < live.len()
        invariant
            0 <= i <= prev@.len(),
            0 <= j <= live@.len(),
            pm == models(prev@),
            lm == models(live@),
            models(out@) + spec_merge(pm.skip(i as int), lm.skip(j as int)) == spec_merge(pm, lm),
        decreases prev@.len() - i + live@.len() - j,
    {
        let ghost pr = pm.skip(i as int);
        let ghost lr = lm.skip(j as int);
        let ghost old_out = out@;
        if j >= live.len() {
            let p = &prev[i];
            out.push(
                Entry {
                    status: EntryStatus::Deleted,
                    timestamp: p.timestamp,
                    size: p.size,
                    perms: p.perms,
                    hash: p.hash.clone(),
                    path: p.path.clone(),
                },
            );
            i = i + 1;
            proof {
                assert(pr[0] == pm[i - 1]);
                assert(pr.drop_first() =~= pm.skip(i as int));
                assert(models(out@) =~= models(old_out) + seq![as_deleted(pr[0])]);
                assert(spec_merge(pr, lr) == seq![as_deleted(pr[0])] + spec_merge(
                    pr.drop_first(),
                    lr,
                ));
                assert(models(out@) + spec_merge(pm.skip(i as int), lr) =~= spec_merge(pm, lm));
            }
        } else if i >= prev.len() {
            let l = &live[j];
            out.push(
                Entry {
                    status: if matches!(l.status, EntryStatus::Error) {
                        EntryStatus::Error
                    } else {
                        EntryStatus::New
                    },
                    timestamp: l.timestamp,
                    size: l.size,
                    perms: l.perms,
                    hash: String::new(),
                    path: l.path.clone(),
                },
            );
            j = j + 1;
            proof {
                assert(lr[0] == lm[j - 1]);
                assert(lr.drop_first() =~= lm.skip(j as int));
                assert(models(out@) =~= models(old_out) + seq![as_new(lr[0])]);
                assert(spec_merge(pr, lr) == seq![as_new(lr[0])] + spec_merge(pr, lr.drop_first()));
                assert(models(out@) + spec_merge(pr, lm.skip(j as int)) =~= spec_merge(pm, lm));
            }
        } else {
            let p = &prev[i];
            let l = &live[j];
            proof {
                assert(pr[0] == pm[i as int]);
                assert(lr[0] == lm[j as int]);
            }
            if path_lt(p.path.as_str(), l.path.as_str()) {
                out.push(
                    Entry {
                        status: EntryStatus::Deleted,
                        timestamp: p.timestamp,
                        size: p.size,
                        perms: p.perms,
                        hash: p.hash.clone(),
                        path: p.path.clone(),
                    },
                );
                i = i + 1;
                proof {
                    assert(pr.drop_first() =~= pm.skip(i as int));
                    assert(models(out@) =~= models(old_out) + seq![as_deleted(pr[0])]);
                    assert(spec_merge(pr, lr) == seq![as_deleted(pr[0])] + spec_merge(
                        pr.drop_first(),
                        lr,
                    ));
                    assert(models(out@) + spec_merge(pm.skip(i as int), lr) =~= spec_merge(
                        pm,
                        lm,
                    ));
                }
            } else if path_lt(l.path.as_str(), p.path.as_str()) {
                out.push(
                    Entry {
                        status: if matches!(l.status, EntryStatus::Error) {
                            EntryStatus::Error
                        } else {
                            EntryStatus::New
                        },
                        timestamp: l.timestamp,
                        size: l.size,
                        perms: l.perms,
                        hash: String::new(),
                        path: l.path.clone(),
                    },
                );
                j = j + 1;
                proof {
                    assert(lr.drop_first() =~= lm.skip(j as int));
                    assert(models(out@) =~= models(old_out) + seq![as_new(lr[0])]);
                    assert(spec_merge(pr, lr) == seq![as_new(lr[0])] + spec_merge(
                        pr,
                        lr.drop_first(),
                    ));
                    assert(models(out@) + spec_merge(pr, lm.skip(j as int)) =~= spec_merge(
                        pm,
                        lm,
                    ));
                }
            } else {
                proof {
                    lemma_lex_trichotomy(pr[0].path, lr[0].path);
                }
                let e = if matches!(l.status, EntryStatus::Error) {
                    Entry {
                        status: EntryStatus::Error,
                        timestamp: l.timestamp,
                        size: l.size,
                        perms: l.perms,
                        hash: String::new(),
                        path: l.path.clone(),
                    }
                } else if l.timestamp == p.timestamp && l.size == p.size {
                    Entry {
                        status: EntryStatus::Unchanged,
                        timestamp: l.timestamp,
                        size: l.size,
                        perms: l.perms,
                        hash: p.hash.clone(),
                        path: l.path.clone(),
                    }
                } else {
                    Entry {
                        status: EntryStatus::Modified,
                        timestamp: l.timestamp,
                        size: l.size,
                        perms: l.perms,
                        hash: String::new(),
                        path: l.path.clone(),
                    }
                };
                out.push(e);
                i = i + 1;
                j = j + 1;
                proof {
                    assert(pr.drop_first() =~= pm.skip(i as int));
                    assert(lr.drop_first() =~= lm.skip(j as int));
                    assert(models(out@) =~= models(old_out) + seq![merged_pair(pr[0], lr[0])]);
                    assert(spec_merge(pr, lr) == seq![merged_pair(pr[0], lr[0])] + spec_merge(
                        pr.drop_first(),
                        lr.drop_first(),
                    ));
                    assert(models(out@) + spec_merge(pm.skip(i as int), lm.skip(j as int))
                        =~= spec_merge(pm, lm));
                }
            }
        }
    }
    proof {
        assert(pm.skip(i as int) =~= Seq::<EntryModel>::empty());
        assert(lm.skip(j as int) =~= Seq::<EntryModel>::empty());
        assert(spec_merge(pm.skip(i as int), lm.skip(j as int)) =~= Seq::<EntryModel>::empty());
        assert(models(out@) =~= spec_merge(pm, lm));
    }
    out
}

} // verus!
