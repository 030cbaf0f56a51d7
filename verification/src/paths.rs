//! Order and ancestry on root-relative, forward-slash separated paths.
//!
//! Paths are compared lexicographically by character scalar value, which for
//! UTF-8 encoded strings coincides with byte-lexicographic order. A directory
//! `d` is an ancestor of a path `p` when `p` begins with `d` followed by a
//! `/` separator.

use vstd::prelude::*;

verus! {

use vstd::string::StrSliceExecFns;

/// Strict order on characters by scalar value.
pub open spec fn char_lt(a: char, b: char) -> bool {
    (a as u32) < (b as u32)
}

/// Strict lexicographic order on character sequences.
pub open spec fn lex_lt(a: Seq<char>, b: Seq<char>) -> bool
    decreases a.len(),
{
    if b.len() == 0 {
        false
    } else if a.len() == 0 {
        true
    } else if char_lt(a[0], b[0]) {
        true
    } else if a[0] == b[0] {
        lex_lt(a.drop_first(), b.drop_first())
    } else {
        false
    }
}

/// Reflexive lexicographic order.
pub open spec fn lex_le(a: Seq<char>, b: Seq<char>) -> bool {
    lex_lt(a, b) || a == b
}

/// Exactly one of `a < b`, `a == b`, `b < a` holds.
pub proof fn lemma_lex_trichotomy(a: Seq<char>, b: Seq<char>)
    ensures
        lex_lt(a, b) || a == b || lex_lt(b, a),
        lex_lt(a, b) ==> a != b && !lex_lt(b, a),
        a == b ==> !lex_lt(a, b) && !lex_lt(b, a),
    decreases a.len(),
{
    if b.len() == 0 {
        if a.len() == 0 {
            assert(a =~= b);
        }
    } else if a.len() == 0 {
    } else if a[0] == b[0] {
        lemma_lex_trichotomy(a.drop_first(), b.drop_first());
        if a.drop_first() == b.drop_first() {
            assert forall|i: int| 0 <= i < a.len() implies a[i] == b[i] by {
                if i > 0 {
                    assert(a[i] == a.drop_first()[i - 1]);
                    assert(b[i] == b.drop_first()[i - 1]);
                }
            }
            assert(a =~= b);
        }
        if a == b {
            assert(a.drop_first() =~= b.drop_first());
        }
    } else {
        if !char_lt(a[0], b[0]) {
            vstd::utf8::char_u32_cast(a[0], a[0] as u32);
            vstd::utf8::char_u32_cast(b[0], b[0] as u32);
            assert(char_lt(b[0], a[0]));
        }
    }
}

/// Lexicographic order is transitive.
pub proof fn lemma_lex_transitive(a: Seq<char>, b: Seq<char>, c: Seq<char>)
    requires
        lex_lt(a, b),
        lex_lt(b, c),
    ensures
        lex_lt(a, c),
    decreases a.len(),
{
    if a.len() == 0 {
    } else {
        if char_lt(a[0], b[0]) {
            if char_lt(b[0], c[0]) {
            } else {
                assert(b[0] == c[0]);
            }
        } else {
            assert(a[0] == b[0]);
            if char_lt(b[0], c[0]) {
            } else {
                assert(b[0] == c[0]);
                lemma_lex_transitive(a.drop_first(), b.drop_first(), c.drop_first());
            }
        }
    }
}

/// When two sequences agree on their first `n` characters, their order is
/// decided by the remainders.
pub proof fn lemma_lex_skip(a: Seq<char>, b: Seq<char>, n: int)
    requires
        0 <= n <= a.len(),
        n <= b.len(),
        a.subrange(0, n) == b.subrange(0, n),
    ensures
        lex_lt(a, b) == lex_lt(a.skip(n), b.skip(n)),
    decreases n,
{
    if n == 0 {
        assert(a.skip(0) =~= a);
        assert(b.skip(0) =~= b);
    } else {
        assert(a[0] == a.subrange(0, n)[0]);
        assert(b[0] == b.subrange(0, n)[0]);
        assert(a[0] == b[0]);
        assert(a.drop_first().subrange(0, n - 1) =~= a.subrange(0, n).drop_first());
        assert(b.drop_first().subrange(0, n - 1) =~= b.subrange(0, n).drop_first());
        lemma_lex_skip(a.drop_first(), b.drop_first(), n - 1);
        assert(a.drop_first().skip(n - 1) =~= a.skip(n));
        assert(b.drop_first().skip(n - 1) =~= b.skip(n));
    }
}

/// Compares two paths, true when `a` is strictly before `b` in
/// lexicographic order by character scalar value.
pub fn path_lt(a: &str, b: &str) -> (r: bool)
    ensures
        r == lex_lt(a@, b@),
{
    let alen = a.unicode_len();
    let blen = b.unicode_len();
    let mut i: usize = 0;
    loop
        invariant
            i <= alen,
            i <= blen,
            alen == a@.len(),
            blen == b@.len(),
            a@.subrange(0, i as int) == b@.subrange(0, i as int),
        decreases alen - i,
    {
        proof {
            lemma_lex_skip(a@, b@, i as int);
        }
        if i == alen || i == blen {
            proof {
                if i == alen && i == blen {
                    assert(a@.subrange(0, i as int) =~= a@);
                    assert(b@.subrange(0, i as int) =~= b@);
                }
            }
            return i == alen && i < blen;
        }
        let ca = a.get_char(i);
        let cb = b.get_char(i);
        if (ca as u32) < (cb as u32) {
            return true;
        }
        if (ca as u32) > (cb as u32) {
            return false;
        }
        proof {
            vstd::utf8::char_u32_cast(ca, ca as u32);
            vstd::utf8::char_u32_cast(cb, cb as u32);
            assert(ca == cb);
            assert(a@.subrange(0, i + 1 as int) =~= b@.subrange(0, i + 1 as int));
        }
        i = i + 1;
    }
}

/// Character-wise equality of two string slices.
pub fn str_eq(a: &str, b: &str) -> (r: bool)
    ensures
        r == (a@ == b@),
{
    let alen = a.unicode_len();
    let blen = b.unicode_len();
    if alen != blen {
        proof {
            assert(a@ != b@);
        }
        return false;
    }
    let mut i: usize = 0;
    while i < alen
        invariant
            0 <= i <= alen,
            alen == a@.len(),
            alen == b@.len(),
            a@.subrange(0, i as int) == b@.subrange(0, i as int),
        decreases alen - i,
    {
        let ca = a.get_char(i);
        let cb = b.get_char(i);
        if (ca as u32) != (cb as u32) {
            return false;
        }
        proof {
            vstd::utf8::char_u32_cast(ca, ca as u32);
            vstd::utf8::char_u32_cast(cb, cb as u32);
            assert(a@.subrange(0, i + 1 as int) =~= b@.subrange(0, i + 1 as int));
        }
        i = i + 1;
    }
    proof {
        assert(a@.subrange(0, alen as int) =~= a@);
        assert(b@.subrange(0, alen as int) =~= b@);
    }
    true
}

/// `p` is a prefix of `s`, character for character.
pub open spec fn is_prefix(p: Seq<char>, s: Seq<char>) -> bool {
    p.len() <= s.len() && s.subrange(0, p.len() as int) == p
}

/// Takes a prefix off the front of a path; nothing when the path does not
/// begin with it.
pub fn strip_prefix(s: &str, prefix: &str) -> (r: Option<String>)
    ensures
        match r {
            Some(t) => is_prefix(prefix@, s@) && t@ == s@.skip(prefix@.len() as int),
            None => !is_prefix(prefix@, s@),
        },
{
    let slen = s.unicode_len();
    let plen = prefix.unicode_len();
    if plen > slen {
        return None;
    }
    let mut i: usize = 0;
    while i < plen
        invariant
            0 <= i <= plen <= slen,
            slen == s@.len(),
            plen == prefix@.len(),
            s@.subrange(0, i as int) == prefix@.subrange(0, i as int),
        decreases plen - i,
    {
        let cs = s.get_char(i);
        let cp = prefix.get_char(i);
        if (cs as u32) != (cp as u32) {
            proof {
                assert(s@.subrange(0, plen as int)[i as int] == s@[i as int]);
            }
            return None;
        }
        proof {
            vstd::utf8::char_u32_cast(cs, cs as u32);
            vstd::utf8::char_u32_cast(cp, cp as u32);
            assert(s@.subrange(0, i + 1 as int) =~= prefix@.subrange(0, i + 1 as int));
        }
        i = i + 1;
    }
    proof {
        assert(prefix@.subrange(0, plen as int) =~= prefix@);
    }
    let rest = s.substring_char(plen, slen);
    proof {
        assert(rest@ =~= s@.skip(plen as int));
    }
    Some(rest.to_owned())
}

/// The parent directory of a path: everything before the last `/` separator,
/// or nothing for a path that names a top-level object of its root.
pub open spec fn spec_parent(s: Seq<char>) -> Option<Seq<char>>
    decreases s.len(),
{
    if s.len() == 0 {
        None
    } else if s.last() == '/' {
        Some(s.drop_last())
    } else {
        spec_parent(s.drop_last())
    }
}

/// `d` is the path `p` itself, an ancestor directory of `p`, or empty.
pub open spec fn dir_starts_with(p: Seq<char>, d: Seq<char>) -> bool {
    d.len() == 0 || (p.len() >= d.len() && p.subrange(0, d.len() as int) == d && (p.len()
        == d.len() || p[d.len() as int] == '/'))
}

/// `p` lies strictly below directory `d`: it begins with `d` and a separator.
pub open spec fn under_dir(p: Seq<char>, d: Seq<char>) -> bool {
    p.len() > d.len() && p.subrange(0, d.len() as int) == d && p[d.len() as int] == '/'
}

/// The parent is the prefix of its path up to the last separator.
pub proof fn lemma_parent_props(s: Seq<char>)
    ensures
        spec_parent(s) is Some ==> {
            let p = spec_parent(s)->Some_0;
            &&& p.len() < s.len()
            &&& p == s.subrange(0, p.len() as int)
            &&& s[p.len() as int] == '/'
            &&& forall|j: int| p.len() < j < s.len() ==> s[j] != '/'
        },
        spec_parent(s) is None ==> forall|j: int| 0 <= j < s.len() ==> s[j] != '/',
    decreases s.len(),
{
    if s.len() == 0 {
    } else if s.last() == '/' {
        assert(s.drop_last() =~= s.subrange(0, s.len() - 1));
    } else {
        let t = s.drop_last();
        lemma_parent_props(t);
        assert(t =~= s.subrange(0, s.len() - 1));
        if spec_parent(t) is Some {
            let p = spec_parent(t)->Some_0;
            assert(p == t.subrange(0, p.len() as int));
            assert(t.subrange(0, p.len() as int) =~= s.subrange(0, p.len() as int));
            assert(s[p.len() as int] == t[p.len() as int]);
            assert forall|j: int| p.len() < j < s.len() implies s[j] != '/' by {
                if j < s.len() - 1 {
                    assert(t[j] != '/');
                } else {
                    assert(s[j] == s.last());
                }
            }
        } else {
            assert forall|j: int| 0 <= j < s.len() implies s[j] != '/' by {
                if j < s.len() - 1 {
                    assert(t[j] != '/');
                } else {
                    assert(s[j] == s.last());
                }
            }
        }
    }
}

/// A path is strictly below its own parent directory.
pub proof fn lemma_under_parent(s: Seq<char>)
    requires
        spec_parent(s) is Some,
    ensures
        under_dir(s, spec_parent(s)->Some_0),
{
    lemma_parent_props(s);
}

/// Lying strictly below a directory is transitive through parents.
pub proof fn lemma_under_dir_trans(m: Seq<char>, c: Seq<char>, d: Seq<char>)
    requires
        under_dir(m, c),
        under_dir(c, d),
    ensures
        under_dir(m, d),
{
    assert(m.subrange(0, d.len() as int) =~= c.subrange(0, d.len() as int));
}

/// A path strictly below `d` has a parent, and that parent is `d` itself or
/// lies below `d` as well.
pub proof fn lemma_under_dir_parent(p: Seq<char>, d: Seq<char>)
    requires
        under_dir(p, d),
    ensures
        spec_parent(p) is Some,
        dir_starts_with(spec_parent(p)->Some_0, d),
{
    lemma_parent_props(p);
    if spec_parent(p) is None {
        assert(p[d.len() as int] == '/');
        assert(false);
    }
    let pp = spec_parent(p)->Some_0;
    if pp.len() < d.len() {
        assert(p[d.len() as int] == '/');
        assert(false);
    }
    assert(pp.subrange(0, d.len() as int) =~= p.subrange(0, d.len() as int));
    if pp.len() > d.len() {
        assert(pp[d.len() as int] == p[d.len() as int]);
    } else {
        assert(pp =~= d);
    }
}

/// Anything ordered between two sequences that share a prefix shares that
/// prefix too.
pub proof fn lemma_lex_between_prefix(x: Seq<char>, y: Seq<char>, z: Seq<char>, n: int)
    requires
        0 <= n <= x.len(),
        n <= z.len(),
        x.subrange(0, n) == z.subrange(0, n),
        lex_le(x, y),
        lex_le(y, z),
    ensures
        y.len() >= n,
        y.subrange(0, n) == x.subrange(0, n),
    decreases n,
{
    if n == 0 {
        assert(y.subrange(0, 0) =~= x.subrange(0, 0));
    } else {
        assert(x[0] == x.subrange(0, n)[0]);
        assert(z[0] == z.subrange(0, n)[0]);
        assert(x[0] == z[0]);
        if x == y {
            assert(y.subrange(0, n) =~= x.subrange(0, n));
        } else {
            assert(lex_lt(x, y));
            assert(y.len() > 0);
            if char_lt(x[0], y[0]) {
                vstd::utf8::char_u32_cast(y[0], y[0] as u32);
                vstd::utf8::char_u32_cast(z[0], z[0] as u32);
                if y == z {
                    assert(false);
                } else {
                    assert(lex_lt(y, z));
                    assert(false);
                }
            }
            assert(x[0] == y[0]);
            let xd = x.drop_first();
            let yd = y.drop_first();
            let zd = z.drop_first();
            assert(lex_lt(xd, yd));
            if y == z {
                assert(yd =~= zd);
            } else {
                assert(lex_lt(y, z));
                assert(lex_lt(yd, zd));
            }
            assert(xd.subrange(0, n - 1) =~= x.subrange(0, n).drop_first());
            assert(zd.subrange(0, n - 1) =~= z.subrange(0, n).drop_first());
            lemma_lex_between_prefix(xd, yd, zd, n - 1);
            assert forall|i: int| 0 <= i < n implies y.subrange(0, n)[i] == x.subrange(0, n)[i] by {
                if i > 0 {
                    assert(yd.subrange(0, n - 1)[i - 1] == xd.subrange(0, n - 1)[i - 1]);
                }
            }
            assert(y.subrange(0, n) =~= x.subrange(0, n));
        }
    }
}

/// Returns the parent directory of `p`, or `None` for a top-level path.
pub fn parent_of(p: &str) -> (r: Option<String>)
    ensures
        match r {
            Some(d) => spec_parent(p@) == Some(d@),
            None => spec_parent(p@) is None,
        },
{
    let len = p.unicode_len();
    let mut i: usize = len;
    proof {
        assert(p@.subrange(0, len as int) =~= p@);
    }
    loop
        invariant
            0 <= i <= len,
            len == p@.len(),
            spec_parent(p@) == spec_parent(p@.subrange(0, i as int)),
        decreases i,
    {
        if i == 0 {
            return None;
        }
        let c = p.get_char(i - 1);
        proof {
            assert(p@.subrange(0, i as int).last() == p@[i - 1]);
            assert(p@.subrange(0, i as int).drop_last() =~= p@.subrange(0, i - 1));
        }
        if c == '/' {
            let d = p.substring_char(0, i - 1);
            return Some(d.to_owned());
        }
        i = i - 1;
    }
}

/// True when `d` is empty, equal to `p`, or an ancestor directory of `p`.
pub fn path_starts_with_dir(p: &str, d: &str) -> (r: bool)
    ensures
        r == dir_starts_with(p@, d@),
{
    let plen = p.unicode_len();
    let dlen = d.unicode_len();
    if dlen == 0 {
        return true;
    }
    if plen < dlen {
        return false;
    }
    let mut i: usize = 0;
    while i < dlen
        invariant
            0 <= i <= dlen <= plen,
            plen == p@.len(),
            dlen == d@.len(),
            p@.subrange(0, i as int) == d@.subrange(0, i as int),
        decreases dlen - i,
    {
        let cp = p.get_char(i);
        let cd = d.get_char(i);
        if (cp as u32) != (cd as u32) {
            proof {
                assert(p@.subrange(0, dlen as int)[i as int] == p@[i as int]);
            }
            return false;
        }
        proof {
            vstd::utf8::char_u32_cast(cp, cp as u32);
            vstd::utf8::char_u32_cast(cd, cd as u32);
            assert(p@.subrange(0, i + 1 as int) =~= d@.subrange(0, i + 1 as int));
        }
        i = i + 1;
    }
    proof {
        assert(d@.subrange(0, dlen as int) =~= d@);
    }
    if plen == dlen {
        return true;
    }
    let c = p.get_char(dlen);
    c == '/'
}

} // verus!
