//! The directory-compression heuristic.
//!
//! Given a path missing from the other side and the two nearest paths known
//! on that other side — the last one confirmed before the gap and the one
//! currently looked at — the heuristic climbs from the missing path's parent
//! towards the root and returns the highest ancestor directory that no
//! nearby other-side file lives under, so one directory copy can stand for
//! every missing file below it. It fails for a top-level file, or when
//! already the immediate parent holds a file known on the other side.

use vstd::prelude::*;

verus! {

use crate::entry::EntryModel;
use crate::paths::{
    dir_starts_with, lex_le, lex_lt, lemma_lex_between_prefix, lemma_parent_props,
    lemma_under_dir_parent, lemma_under_dir_trans, lemma_under_parent, parent_of,
    path_starts_with_dir, spec_parent, under_dir,
};
use crate::scanner::path_sorted;

/// A boundary path rules a candidate directory out when the boundary's
/// parent directory is the candidate or lies below it: a file known on the
/// other side then lives under the candidate.
pub open spec fn boundary_blocks(b: Option<Seq<char>>, cand: Seq<char>) -> bool {
    match b {
        Some(p) => match spec_parent(p) {
            Some(pp) => dir_starts_with(pp, cand),
            None => false,
        },
        None => false,
    }
}

/// A measure for the climb: how much path is left to strip.
pub open spec fn opt_seq_len(cand: Option<Seq<char>>) -> int {
    match cand {
        Some(c) => c.len() + 1 as int,
        None => 0,
    }
}

/// The climb from candidate ancestor to candidate ancestor: stops at the
/// first candidate some boundary rules out (or at the root) and yields the
/// deepest candidate that passed, if any did.
pub open spec fn spec_climb(
    b1: Option<Seq<char>>,
    b2: Option<Seq<char>>,
    cand: Option<Seq<char>>,
    last: Option<Seq<char>>,
) -> Option<Seq<char>>
    decreases opt_seq_len(cand),
    via spec_climb_dec
{
    match cand {
        None => last,
        Some(c) => if boundary_blocks(b1, c) || boundary_blocks(b2, c) {
            last
        } else {
            spec_climb(b1, b2, spec_parent(c), Some(c))
        },
    }
}

#[via_fn]
proof fn spec_climb_dec(
    b1: Option<Seq<char>>,
    b2: Option<Seq<char>>,
    cand: Option<Seq<char>>,
    last: Option<Seq<char>>,
) {
    match cand {
        Some(c) => {
            lemma_parent_props(c);
        },
        None => {},
    }
}

/// The directory the heuristic proposes for a missing path, given the two
/// boundary paths of the other side.
pub open spec fn spec_compress(
    b1: Option<Seq<char>>,
    b2: Option<Seq<char>>,
    m: Seq<char>,
) -> Option<Seq<char>> {
    spec_climb(b1, b2, spec_parent(m), None)
}

/// The view of an optional borrowed path.
pub open spec fn opt_path_view(p: Option<&String>) -> Option<Seq<char>> {
    match p {
        Some(s) => Some(s@),
        None => None,
    }
}

/// Whether this boundary path rules the candidate out.
fn boundary_blocked(b: Option<&String>, cand: &str) -> (r: bool)
    ensures
        r == boundary_blocks(opt_path_view(b), cand@),
{
    match b {
        None => false,
        Some(p) => match parent_of(p.as_str()) {
            Some(pp) => path_starts_with_dir(pp.as_str(), cand),
            None => false,
        },
    }
}

/// The length a candidate still has, as the loop measure.
pub open spec fn cand_measure(c: Option<String>) -> int {
    match c {
        Some(s) => s@.len() + 1 as int,
        None => 0,
    }
}

/// Proposes the highest wholly-missing ancestor directory of a missing
/// path, bounded by the other side's last confirmed path and its current
/// path; nothing when no such directory exists.
pub fn compress_dirs(path1: Option<&String>, path2: Option<&String>, path_missing: &String) -> (r:
    Option<String>)
    ensures
        match r {
            Some(d) => spec_compress(opt_path_view(path1), opt_path_view(path2), path_missing@)
                == Some(d@),
            None => spec_compress(opt_path_view(path1), opt_path_view(path2), path_missing@)
                is None,
        },
{
    let ghost b1 = opt_path_view(path1);
    let ghost b2 = opt_path_view(path2);
    let mut cand: Option<String> = parent_of(path_missing.as_str());
    let mut last: Option<String> = None;
    loop
        invariant
            b1 == opt_path_view(path1),
            b2 == opt_path_view(path2),
            spec_climb(
                b1,
                b2,
                match cand {
                    Some(ref c) => Some(c@),
                    None => None,
                },
                match last {
                    Some(ref l) => Some(l@),
                    None => None,
                },
            ) == spec_compress(b1, b2, path_missing@),
        decreases cand_measure(cand),
    {
        match cand {
            None => {
                return last;
            },
            Some(c) => {
                if boundary_blocked(path1, c.as_str()) || boundary_blocked(path2, c.as_str()) {
                    return last;
                }
                proof {
                    lemma_parent_props(c@);
                }
                let next = parent_of(c.as_str());
                cand = next;
                last = Some(c);
            },
        }
    }
}

/// The boundary before the gap: the other side's last consumed path.
pub open spec fn prev_boundary(other: Seq<EntryModel>, j: int) -> Option<Seq<char>> {
    if j > 0 {
        Some(other[j - 1].path)
    } else {
        None
    }
}

/// The boundary after the gap: the other side's current path.
pub open spec fn cur_boundary(other: Seq<EntryModel>, j: int) -> Option<Seq<char>> {
    if j < other.len() {
        Some(other[j].path)
    } else {
        None
    }
}

/// Every directory the climb yields is an ancestor of the missing path and
/// passed both boundary checks.
proof fn lemma_climb_sound(
    b1: Option<Seq<char>>,
    b2: Option<Seq<char>>,
    cand: Option<Seq<char>>,
    last: Option<Seq<char>>,
    m: Seq<char>,
    d: Seq<char>,
)
    requires
        spec_climb(b1, b2, cand, last) == Some(d),
        cand is Some ==> under_dir(m, cand->Some_0),
        last is Some ==> under_dir(m, last->Some_0) && !boundary_blocks(b1, last->Some_0)
            && !boundary_blocks(b2, last->Some_0),
    ensures
        under_dir(m, d),
        !boundary_blocks(b1, d),
        !boundary_blocks(b2, d),
    decreases opt_seq_len(cand),
{
    match cand {
        None => {},
        Some(c) => {
            if boundary_blocks(b1, c) || boundary_blocks(b2, c) {
            } else {
                lemma_parent_props(c);
                match spec_parent(c) {
                    Some(pp) => {
                        lemma_under_parent(c);
                        lemma_under_dir_trans(m, c, pp);
                    },
                    None => {},
                }
                lemma_climb_sound(b1, b2, spec_parent(c), Some(c), m, d);
            }
        },
    }
}

/// A directory the heuristic proposes is a proper ancestor of the missing
/// path.
pub proof fn lemma_compress_ancestor(
    b1: Option<Seq<char>>,
    b2: Option<Seq<char>>,
    m: Seq<char>,
    d: Seq<char>,
)
    requires
        spec_compress(b1, b2, m) == Some(d),
    ensures
        under_dir(m, d),
{
    if spec_parent(m) is Some {
        lemma_under_parent(m);
    }
    lemma_climb_sound(b1, b2, spec_parent(m), None, m, d);
}

/// Soundness of directory compression: when the other side's entries are
/// path-sorted and the missing path `m` falls in the gap before the other
/// side's position `j`, a directory the heuristic proposes has no
/// other-side entry anywhere below it.
pub proof fn lemma_compression_sound(other: Seq<EntryModel>, j: int, m: Seq<char>, d: Seq<char>)
    requires
        path_sorted(other),
        0 <= j <= other.len(),
        j > 0 ==> lex_lt(other[j - 1].path, m),
        j < other.len() ==> lex_lt(m, other[j].path),
        spec_compress(prev_boundary(other, j), cur_boundary(other, j), m) == Some(d),
    ensures
        forall|k: int| 0 <= k < other.len() ==> !under_dir(#[trigger] other[k].path, d),
{
    let b1 = prev_boundary(other, j);
    let b2 = cur_boundary(other, j);
    if spec_parent(m) is Some {
        lemma_under_parent(m);
    }
    lemma_climb_sound(b1, b2, spec_parent(m), None, m, d);
    let n = d.len() + 1 as int;
    assert(m.subrange(0, d.len() as int) == d);
    assert forall|k: int| 0 <= k < other.len() implies !under_dir(#[trigger] other[k].path, d) by {
        if under_dir(other[k].path, d) {
            let x = other[k].path;
            assert(x.subrange(0, n) =~= m.subrange(0, n)) by {
                assert forall|q: int| 0 <= q < n implies x.subrange(0, n)[q] == m.subrange(0, n)[q]
                    by {
                    if q < d.len() {
                        assert(x.subrange(0, d.len() as int)[q] == d[q]);
                        assert(m.subrange(0, d.len() as int)[q] == d[q]);
                    }
                }
            }
            if k <= j - 1 {
                let bp = other[j - 1].path;
                assert(lex_le(x, bp));
                assert(lex_le(bp, m)) by {
                    assert(lex_lt(bp, m));
                }
                lemma_lex_between_prefix(x, bp, m, n);
                assert(under_dir(bp, d)) by {
                    assert(bp.subrange(0, d.len() as int) =~= x.subrange(0, d.len() as int)) by {
                        assert forall|q: int| 0 <= q < d.len() implies bp.subrange(
                            0,
                            d.len() as int,
                        )[q] == x.subrange(0, d.len() as int)[q] by {
                            assert(bp.subrange(0, n)[q] == x.subrange(0, n)[q]);
                        }
                    }
                    assert(bp[d.len() as int] == bp.subrange(0, n)[d.len() as int]);
                    assert(x[d.len() as int] == x.subrange(0, n)[d.len() as int]);
                }
                lemma_under_dir_parent(bp, d);
                assert(boundary_blocks(b1, d));
            } else {
                let cp = other[j].path;
                assert(lex_le(cp, x));
                assert(lex_le(m, cp));
                lemma_lex_between_prefix(m, cp, x, n);
                assert(under_dir(cp, d)) by {
                    assert(cp.subrange(0, d.len() as int) =~= m.subrange(0, d.len() as int)) by {
                        assert forall|q: int| 0 <= q < d.len() implies cp.subrange(
                            0,
                            d.len() as int,
                        )[q] == m.subrange(0, d.len() as int)[q] by {
                            assert(cp.subrange(0, n)[q] == m.subrange(0, n)[q]);
                        }
                    }
                    assert(cp[d.len() as int] == cp.subrange(0, n)[d.len() as int]);
                    assert(m[d.len() as int] == m.subrange(0, n)[d.len() as int]);
                }
                lemma_under_dir_parent(cp, d);
                assert(boundary_blocks(b2, d));
            }
        }
    }
}

} // verus!
