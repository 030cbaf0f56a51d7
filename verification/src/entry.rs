//! One filesystem object's recorded state, and its manifest line format.
//!
//! A manifest line holds six tab-separated fields:
//! `status`, `modified time`, `size`, `permission bits`, `digest`, `path`,
//! with the numeric fields in decimal and the status one of the five tags.

use vstd::prelude::*;

verus! {

use crate::num::{all_digits, dec_val, parse_u64, spec_dec, u64_to_string};
use crate::paths::str_eq;
use vstd::string::StrSliceExecFns;
use vstd::string::StringExecFns;

/// Classification of one entry after a scan.
#[derive(PartialEq, Eq, Structural, Clone, Copy, Debug)]
pub enum EntryStatus {
    /// Present live, absent from the previous snapshot.
    New,
    /// Present in both, with a different modified time or size.
    Modified,
    /// Present in both with the same modified time and size.
    Unchanged,
    /// Present in the previous snapshot, absent live.
    Deleted,
    /// Present live, but its metadata could not be read.
    Error,
}

/// One filesystem object's known state at a point in time.
pub struct Entry {
    pub status: EntryStatus,
    pub timestamp: u64,
    pub size: u64,
    pub perms: u32,
    pub hash: String,
    pub path: String,
}

/// The mathematical image of an [`Entry`].
pub struct EntryModel {
    pub status: EntryStatus,
    pub timestamp: u64,
    pub size: u64,
    pub perms: u32,
    pub hash: Seq<char>,
    pub path: Seq<char>,
}

impl View for Entry {
    type V = EntryModel;

    open spec fn view(&self) -> EntryModel {
        EntryModel {
            status: self.status,
            timestamp: self.timestamp,
            size: self.size,
            perms: self.perms,
            hash: self.hash@,
            path: self.path@,
        }
    }
}

/// The manifest tag of a status.
pub open spec fn status_tag(st: EntryStatus) -> Seq<char> {
    match st {
        EntryStatus::New => seq!['N', 'E', 'W'],
        EntryStatus::Modified => seq!['M', 'O', 'D', 'I', 'F', 'I', 'E', 'D'],
        EntryStatus::Unchanged => seq!['U', 'N', 'C', 'H', 'A', 'N', 'G', 'E', 'D'],
        EntryStatus::Deleted => seq!['D', 'E', 'L', 'E', 'T', 'E', 'D'],
        EntryStatus::Error => seq!['E', 'R', 'R', 'O', 'R'],
    }
}

/// The index of the first tab character, or the length when there is none.
pub open spec fn first_tab(s: Seq<char>) -> int
    decreases s.len(),
{
    if s.len() == 0 {
        0
    } else if s[0] == '\t' {
        0
    } else {
        1 + first_tab(s.drop_first())
    }
}

/// A sequence with no tab before position `i` and a tab at `i` (or no tab at
/// all and `i` at the end) has its first tab at `i`.
pub proof fn lemma_first_tab_at(s: Seq<char>, i: int)
    requires
        0 <= i <= s.len(),
        forall|j: int| 0 <= j < i ==> s[j] != '\t',
        i < s.len() ==> s[i] == '\t',
        i == s.len() ==> forall|j: int| 0 <= j < s.len() ==> s[j] != '\t',
    ensures
        first_tab(s) == i,
    decreases s.len(),
{
    if s.len() > 0 && s[0] != '\t' {
        let t = s.drop_first();
        assert forall|j: int| 0 <= j < i - 1 implies t[j] != '\t' by {
            assert(t[j] == s[j + 1]);
        }
        if i == s.len() {
            assert forall|j: int| 0 <= j < t.len() implies t[j] != '\t' by {
                assert(t[j] == s[j + 1]);
            }
        }
        lemma_first_tab_at(t, i - 1);
    }
}

/// The fields of a line: the segments between its tab characters.
pub open spec fn tab_split(s: Seq<char>) -> Seq<Seq<char>>
    decreases s.len(),
{
    let ft = first_tab(s);
    if !(0 <= ft <= s.len()) {
        seq![s]
    } else if ft == s.len() {
        seq![s]
    } else {
        seq![s.subrange(0, ft)] + tab_split(s.subrange(ft + 1, s.len() as int))
    }
}

/// A sequence stripped of trailing newline and carriage-return characters.
pub open spec fn trim_newline(s: Seq<char>) -> Seq<char>
    decreases s.len(),
{
    if s.len() > 0 && (s.last() == '\n' || s.last() == '\r') {
        trim_newline(s.drop_last())
    } else {
        s
    }
}

/// A decimal field that fits the given bound.
pub open spec fn fits_dec(s: Seq<char>, bound: int) -> bool {
    s.len() > 0 && all_digits(s) && dec_val(s) <= bound
}

/// The status a manifest tag denotes.
pub open spec fn spec_parse_status(s: Seq<char>) -> Option<EntryStatus> {
    if s == status_tag(EntryStatus::New) {
        Some(EntryStatus::New)
    } else if s == status_tag(EntryStatus::Modified) {
        Some(EntryStatus::Modified)
    } else if s == status_tag(EntryStatus::Unchanged) {
        Some(EntryStatus::Unchanged)
    } else if s == status_tag(EntryStatus::Deleted) {
        Some(EntryStatus::Deleted)
    } else if s == status_tag(EntryStatus::Error) {
        Some(EntryStatus::Error)
    } else {
        None
    }
}

/// The entry a manifest line denotes, or nothing for a malformed line: a
/// line without exactly six fields, with an unknown status tag, or with a
/// numeric field that is empty, non-decimal or out of range.
pub open spec fn spec_parse_entry(line: Seq<char>) -> Option<EntryModel> {
    let fs = tab_split(line);
    if fs.len() != 6 {
        None
    } else if spec_parse_status(fs[0]) is None {
        None
    } else if !fits_dec(fs[1], u64::MAX as int) {
        None
    } else if !fits_dec(fs[2], u64::MAX as int) {
        None
    } else if !fits_dec(fs[3], u32::MAX as int) {
        None
    } else {
        Some(
            EntryModel {
                status: spec_parse_status(fs[0])->Some_0,
                timestamp: dec_val(fs[1]) as u64,
                size: dec_val(fs[2]) as u64,
                perms: dec_val(fs[3]) as u32,
                hash: fs[4],
                path: trim_newline(fs[5]),
            },
        )
    }
}

/// The manifest line of an entry.
pub open spec fn line_of(e: EntryModel) -> Seq<char> {
    status_tag(e.status) + seq!['\t'] + spec_dec(e.timestamp as int) + seq!['\t'] + spec_dec(
        e.size as int,
    ) + seq!['\t'] + spec_dec(e.perms as int) + seq!['\t'] + e.hash + seq!['\t'] + e.path
}

/// The position of the first tab character, if any.
fn find_tab(s: &str) -> (r: Option<usize>)
    ensures
        match r {
            Some(t) => first_tab(s@) == t && t < s@.len(),
            None => first_tab(s@) == s@.len(),
        },
{
    let len = s.unicode_len();
    let mut i: usize = 0;
    while i < len
        invariant
            0 <= i <= len,
            len == s@.len(),
            forall|j: int| 0 <= j < i ==> s@[j] != '\t',
        decreases len - i,
    {
        let c = s.get_char(i);
        if c == '\t' {
            proof {
                lemma_first_tab_at(s@, i as int);
            }
            return Some(i);
        }
        i = i + 1;
    }
    proof {
        lemma_first_tab_at(s@, len as int);
    }
    None
}

/// Splitting a line whose first field holds no tab takes that field off
/// the front.
proof fn lemma_tab_split_concat(x: Seq<char>, rest: Seq<char>)
    requires
        forall|i: int| 0 <= i < x.len() ==> x[i] != '\t',
    ensures
        tab_split(x + seq!['\t'] + rest) == seq![x] + tab_split(rest),
{
    let s = x + seq!['\t'] + rest;
    assert forall|i: int| 0 <= i < x.len() implies s[i] != '\t' by {
        assert(s[i] == x[i]);
    }
    assert(s[x.len() as int] == '\t');
    lemma_first_tab_at(s, x.len() as int);
    assert(s.subrange(0, x.len() as int) =~= x);
    assert(s.subrange(x.len() + 1 as int, s.len() as int) =~= rest);
}

/// Digits are never tabs.
proof fn lemma_digits_no_tab(s: Seq<char>)
    requires
        all_digits(s),
    ensures
        forall|i: int| 0 <= i < s.len() ==> s[i] != '\t',
{
    assert forall|i: int| 0 <= i < s.len() implies s[i] != '\t' by {
        assert(crate::num::is_digit(s[i]));
        assert(('\t' as u32) == 9);
    }
}

/// No status tag holds a tab.
proof fn lemma_tag_no_tab(st: EntryStatus)
    ensures
        forall|i: int| 0 <= i < status_tag(st).len() ==> status_tag(st)[i] != '\t',
{
}

/// A well-formed entry written as a manifest line reads back as itself:
/// the digest and the path must hold no tab, and the path must not end in
/// a newline character.
#[verifier::rlimit(100)]
#[verifier::spinoff_prover]
pub proof fn lemma_line_round_trip(e: EntryModel)
    requires
        forall|i: int| 0 <= i < e.hash.len() ==> e.hash[i] != '\t',
        forall|i: int| 0 <= i < e.path.len() ==> e.path[i] != '\t',
        e.path.len() > 0 ==> e.path.last() != '\n' && e.path.last() != '\r',
    ensures
        spec_parse_entry(line_of(e)) == Some(e),
{
    let tag = status_tag(e.status);
    let f1 = spec_dec(e.timestamp as int);
    let f2 = spec_dec(e.size as int);
    let f3 = spec_dec(e.perms as int);
    crate::num::lemma_spec_dec_val(e.timestamp as int);
    crate::num::lemma_spec_dec_val(e.size as int);
    crate::num::lemma_spec_dec_val(e.perms as int);
    lemma_tag_no_tab(e.status);
    lemma_digits_no_tab(f1);
    lemma_digits_no_tab(f2);
    lemma_digits_no_tab(f3);
    let tab = seq!['\t'];
    let r5 = e.hash + tab + e.path;
    let r4 = f3 + tab + r5;
    let r3 = f2 + tab + r4;
    let r2 = f1 + tab + r3;
    let line = line_of(e);
    assert(line =~= tag + tab + r2);
    lemma_tab_split_concat(tag, r2);
    assert(r2 =~= f1 + tab + r3);
    lemma_tab_split_concat(f1, r3);
    assert(r3 =~= f2 + tab + r4);
    lemma_tab_split_concat(f2, r4);
    assert(r4 =~= f3 + tab + r5);
    lemma_tab_split_concat(f3, r5);
    assert(r5 =~= e.hash + tab + e.path);
    lemma_tab_split_concat(e.hash, e.path);
    lemma_first_tab_at(e.path, e.path.len() as int);
    assert(tab_split(e.path) == seq![e.path]);
    let fs = tab_split(line);
    assert(fs =~= seq![tag, f1, f2, f3, e.hash, e.path]);
    assert(spec_parse_status(fs[0]) == Some(e.status));
    assert(fits_dec(fs[1], u64::MAX as int));
    assert(fits_dec(fs[2], u64::MAX as int));
    assert(fits_dec(fs[3], u32::MAX as int));
    assert(trim_newline(e.path) == e.path);
    assert(spec_parse_entry(line) == Some(e)) by {
        let parsed = spec_parse_entry(line)->Some_0;
        assert(parsed.timestamp == e.timestamp);
        assert(parsed.size == e.size);
        assert(parsed.perms == e.perms);
    }
}

/// Splits a line at its tab characters.
fn split_tabs(s: &str) -> (r: Vec<String>)
    ensures
        r@.map_values(|f: String| f@) == tab_split(s@),
{
    let mut fields: Vec<String> = Vec::new();
    let mut rest: String = s.to_owned();
    proof {
        assert(fields@.map_values(|f: String| f@) + tab_split(rest@) =~= tab_split(s@));
    }
    loop
        invariant
            fields@.map_values(|f: String| f@) + tab_split(rest@) == tab_split(s@),
        decreases rest@.len(),
    {
        let len = rest.as_str().unicode_len();
        let tab_at = find_tab(rest.as_str());
        match tab_at {
            None => {
                fields.push(rest);
                proof {
                    assert(fields@.map_values(|f: String| f@) =~= tab_split(s@));
                }
                return fields;
            },
            Some(t) => {
                let field = rest.as_str().substring_char(0, t);
                let tail = rest.as_str().substring_char(t + 1, len);
                let ghost old_fields = fields@;
                let ghost old_rest = rest@;
                fields.push(field.to_owned());
                rest = tail.to_owned();
                proof {
                    assert(tab_split(old_rest) == seq![old_rest.subrange(0, t as int)] + tab_split(
                        old_rest.subrange(t + 1, old_rest.len() as int),
                    ));
                    assert(fields@.map_values(|f: String| f@) =~= old_fields.map_values(
                        |f: String| f@,
                    ) + seq![old_rest.subrange(0, t as int)]);
                    assert(fields@.map_values(|f: String| f@) + tab_split(rest@) =~= tab_split(
                        s@,
                    ));
                }
            },
        }
    }
}

/// Strips trailing newline and carriage-return characters.
fn strip_newline(s: &String) -> (r: String)
    ensures
        r@ == trim_newline(s@),
{
    let mut i: usize = s.as_str().unicode_len();
    proof {
        assert(s@.subrange(0, i as int) =~= s@);
    }
    loop
        invariant
            0 <= i <= s@.len(),
            trim_newline(s@) == trim_newline(s@.subrange(0, i as int)),
        decreases i,
    {
        if i == 0 {
            proof {
                assert(trim_newline(s@) =~= Seq::<char>::empty());
            }
            return String::new();
        }
        let c = s.as_str().get_char(i - 1);
        if c == '\n' || c == '\r' {
            proof {
                assert(s@.subrange(0, i as int).last() == s@[i - 1]);
                assert(s@.subrange(0, i as int).drop_last() =~= s@.subrange(0, i - 1));
            }
            i = i - 1;
        } else {
            proof {
                assert(s@.subrange(0, i as int).last() == s@[i - 1]);
            }
            return s.as_str().substring_char(0, i).to_owned();
        }
    }
}

/// The manifest tag of a status, as a string slice.
pub fn status_str(st: EntryStatus) -> (r: &'static str)
    ensures
        r@ == status_tag(st),
{
    proof {
        reveal_strlit("NEW");
        reveal_strlit("MODIFIED");
        reveal_strlit("UNCHANGED");
        reveal_strlit("DELETED");
        reveal_strlit("ERROR");
    }
    match st {
        EntryStatus::New => {
            proof {
                assert("NEW"@ =~= status_tag(EntryStatus::New));
            }
            "NEW"
        },
        EntryStatus::Modified => {
            proof {
                assert("MODIFIED"@ =~= status_tag(EntryStatus::Modified));
            }
            "MODIFIED"
        },
        EntryStatus::Unchanged => {
            proof {
                assert("UNCHANGED"@ =~= status_tag(EntryStatus::Unchanged));
            }
            "UNCHANGED"
        },
        EntryStatus::Deleted => {
            proof {
                assert("DELETED"@ =~= status_tag(EntryStatus::Deleted));
            }
            "DELETED"
        },
        EntryStatus::Error => {
            proof {
                assert("ERROR"@ =~= status_tag(EntryStatus::Error));
            }
            "ERROR"
        },
    }
}

/// Reads a status tag.
fn parse_status(s: &str) -> (r: Option<EntryStatus>)
    ensures
        r == spec_parse_status(s@),
{
    proof {
        reveal_strlit("NEW");
        reveal_strlit("MODIFIED");
        reveal_strlit("UNCHANGED");
        reveal_strlit("DELETED");
        reveal_strlit("ERROR");
        assert("NEW"@ =~= status_tag(EntryStatus::New));
        assert("MODIFIED"@ =~= status_tag(EntryStatus::Modified));
        assert("UNCHANGED"@ =~= status_tag(EntryStatus::Unchanged));
        assert("DELETED"@ =~= status_tag(EntryStatus::Deleted));
        assert("ERROR"@ =~= status_tag(EntryStatus::Error));
    }
    if str_eq(s, "NEW") {
        Some(EntryStatus::New)
    } else if str_eq(s, "MODIFIED") {
        Some(EntryStatus::Modified)
    } else if str_eq(s, "UNCHANGED") {
        Some(EntryStatus::Unchanged)
    } else if str_eq(s, "DELETED") {
        Some(EntryStatus::Deleted)
    } else if str_eq(s, "ERROR") {
        Some(EntryStatus::Error)
    } else {
        None
    }
}

/// Reads one manifest line; nothing for a malformed one.
pub fn parse_line(line: &str) -> (r: Option<Entry>)
    ensures
        match r {
            Some(e) => spec_parse_entry(line@) == Some(e@),
            None => spec_parse_entry(line@) is None,
        },
{
    let fields = split_tabs(line);
    if fields.len() != 6 {
        return None;
    }
    let status = match parse_status(fields[0].as_str()) {
        Some(st) => st,
        None => {
            return None;
        },
    };
    let timestamp = match parse_u64(fields[1].as_str()) {
        Some(v) => v,
        None => {
            return None;
        },
    };
    let size = match parse_u64(fields[2].as_str()) {
        Some(v) => v,
        None => {
            return None;
        },
    };
    let perms_wide = match parse_u64(fields[3].as_str()) {
        Some(v) => v,
        None => {
            return None;
        },
    };
    if perms_wide > u32::MAX as u64 {
        proof {
            crate::num::lemma_dec_val_nonneg(fields@.map_values(|f: String| f@)[3]);
        }
        return None;
    }
    let perms: u32 = perms_wide as u32;
    let hash = fields[4].clone();
    let path = strip_newline(&fields[5]);
    Some(Entry { status, timestamp, size, perms, hash, path })
}

impl Entry {
    /// A copy with the same fields.
    pub fn clone(&self) -> (r: Self)
        ensures
            r@ == self@,
    {
        Entry {
            status: self.status,
            timestamp: self.timestamp,
            size: self.size,
            perms: self.perms,
            hash: self.hash.clone(),
            path: self.path.clone(),
        }
    }

    /// Reads one well-formed manifest line.
    pub fn new(line: String) -> (r: Self)
        requires
            spec_parse_entry(line@) is Some,
        ensures
            Some(r@) == spec_parse_entry(line@),
    {
        match parse_line(line.as_str()) {
            Some(e) => e,
            None => vstd::pervasive::unreached(),
        }
    }

    /// Writes the entry as a manifest line.
    pub fn to_string(&self) -> (r: String)
        ensures
            r@ == line_of(self@),
    {
        proof {
            reveal_strlit("\t");
            assert("\t"@ =~= seq!['\t']);
        }
        let mut r: String = status_str(self.status).to_owned();
        r.append("\t");
        let ts = u64_to_string(self.timestamp);
        r.append(ts.as_str());
        r.append("\t");
        let sz = u64_to_string(self.size);
        r.append(sz.as_str());
        r.append("\t");
        let pm = u64_to_string(self.perms as u64);
        r.append(pm.as_str());
        r.append("\t");
        r.append(self.hash.as_str());
        r.append("\t");
        r.append(self.path.as_str());
        proof {
            assert(r@ =~= line_of(self@));
        }
        r
    }
}

} // verus!
