//! The manifest file format.
//!
//! A manifest travels as a pretty-printed JSON array of objects, each with
//! the keys `name`, `filePath` and `checksum`:
//!
//! ```text
//! [
//!   {
//!     "name": "a.txt",
//!     "filePath": "charts/a.txt",
//!     "checksum": "9f..."
//!   }
//! ]
//! ```
//!
//! The writer emits exactly this canonical shape, and the parser accepts
//! exactly it; both are verified against the same grammar, and
//! [`lemma_round_trip`] proves that parsing a written manifest yields the
//! entries that were written.  Well-formed entries carry no quote,
//! backslash or control character, so strings are emitted verbatim and
//! the format needs no escapes.

use vstd::prelude::*;
use crate::manifest::{EntryModel, FileChecksum, entry_wf, manifest_wf};
use crate::text::{find_char, json_safe_char, lemma_find_char, lemma_find_char_exact};

verus! {

pub open spec fn lit_empty() -> Seq<char> {
    "[]"@
}

pub open spec fn lit_open() -> Seq<char> {
    "[\n"@
}

pub open spec fn lit_close() -> Seq<char> {
    "\n]"@
}

pub open spec fn lit_sep() -> Seq<char> {
    ",\n"@
}

pub open spec fn lit_head() -> Seq<char> {
    "  {\n    \"name\": \""@
}

pub open spec fn lit_mid_path() -> Seq<char> {
    "\",\n    \"filePath\": \""@
}

pub open spec fn lit_mid_digest() -> Seq<char> {
    "\",\n    \"checksum\": \""@
}

pub open spec fn lit_tail() -> Seq<char> {
    "\"\n  }"@
}

/// The serialized form of one entry.
pub open spec fn ser_entry(e: EntryModel) -> Seq<char> {
    lit_head() + e.name + lit_mid_path() + e.path + lit_mid_digest() + e.digest + lit_tail()
}

/// The serialized forms of one or more entries, joined by the separator.
pub open spec fn ser_entries(es: Seq<EntryModel>) -> Seq<char>
    decreases es.len(),
{
    if es.len() <= 1 {
        ser_entry(es[0])
    } else {
        ser_entry(es[0]) + lit_sep() + ser_entries(es.drop_first())
    }
}

/// The canonical serialized form of a manifest.
pub open spec fn ser_manifest(es: Seq<EntryModel>) -> Seq<char> {
    if es.len() == 0 {
        lit_empty()
    } else {
        lit_open() + ser_entries(es) + lit_close()
    }
}

/// The literal stands at position `i` of the text.
pub open spec fn match_at(s: Seq<char>, i: int, lit: Seq<char>) -> bool {
    0 <= i && i + lit.len() <= s.len() && s.subrange(i, i + lit.len()) == lit
}

/// A string body starting at `i`: everything up to the next quote, which
/// must exist; the returned position is that of the quote itself.
pub open spec fn parse_string_at(s: Seq<char>, i: int) -> Option<(Seq<char>, int)> {
    let j = find_char(s, '"', i);
    if 0 <= i <= s.len() && j < s.len() {
        Some((s.subrange(i, j), j))
    } else {
        None
    }
}

/// One serialized entry starting at position `i`.
pub open spec fn parse_entry_at(s: Seq<char>, i: int) -> Option<(EntryModel, int)> {
    if !match_at(s, i, lit_head()) {
        None
    } else {
        match parse_string_at(s, i + lit_head().len()) {
            None => None,
            Some((name, j1)) => if !match_at(s, j1, lit_mid_path()) {
                None
            } else {
                match parse_string_at(s, j1 + lit_mid_path().len()) {
                    None => None,
                    Some((path, j2)) => if !match_at(s, j2, lit_mid_digest()) {
                        None
                    } else {
                        match parse_string_at(s, j2 + lit_mid_digest().len()) {
                            None => None,
                            Some((digest, j3)) => if !match_at(s, j3, lit_tail()) {
                                None
                            } else {
                                Some(
                                    (
                                        EntryModel { name, path, digest },
                                        j3 + lit_tail().len(),
                                    ),
                                )
                            },
                        }
                    },
                }
            },
        }
    }
}

/// One or more serialized entries starting at position `i`, separated by
/// the separator literal.
pub open spec fn parse_entries_at(s: Seq<char>, i: int) -> Option<(Seq<EntryModel>, int)>
    decreases s.len() - i,
{
    match parse_entry_at(s, i) {
        None => None,
        Some((e, j)) => if match_at(s, j, lit_sep()) {
            if i < j + lit_sep().len() {
                match parse_entries_at(s, j + lit_sep().len()) {
                    None => None,
                    Some((rest, k)) => Some((seq![e] + rest, k)),
                }
            } else {
                None
            }
        } else {
            Some((seq![e], j))
        },
    }
}

/// A whole manifest: the empty array, or the bracketed entry list with
/// nothing after it.
pub open spec fn parse_manifest_at(s: Seq<char>) -> Option<Seq<EntryModel>> {
    if s == lit_empty() {
        Some(Seq::empty())
    } else if match_at(s, 0, lit_open()) {
        match parse_entries_at(s, lit_open().len() as int) {
            None => None,
            Some((es, j)) => if match_at(s, j, lit_close()) && j + lit_close().len() == s.len() {
                Some(es)
            } else {
                None
            },
        }
    } else {
        None
    }
}

proof fn reveal_lits()
    ensures
        lit_empty().len() == 2,
        lit_open().len() == 2,
        lit_close().len() == 2,
        lit_sep().len() == 2,
        lit_head().len() == 17,
        lit_mid_path().len() == 20,
        lit_mid_digest().len() == 20,
        lit_tail().len() == 5,
        lit_open()[0] == '[' && lit_open()[1] == '\n',
        lit_close()[0] == '\n' && lit_close()[1] == ']',
        lit_sep()[0] == ',' && lit_sep()[1] == '\n',
        lit_mid_path()[0] == '"',
        lit_mid_digest()[0] == '"',
        lit_tail()[0] == '"',
        lit_empty()[0] == '[' && lit_empty()[1] == ']',
{
    reveal_strlit("[]");
    reveal_strlit("[\n");
    reveal_strlit("\n]");
    reveal_strlit(",\n");
    reveal_strlit("  {\n    \"name\": \"");
    reveal_strlit("\",\n    \"filePath\": \"");
    reveal_strlit("\",\n    \"checksum\": \"");
    reveal_strlit("\"\n  }");
}

/// The characters of a region of `s` that equals `seg` are the characters
/// of `seg`.
proof fn lemma_segment(s: Seq<char>, i: int, seg: Seq<char>)
    requires
        0 <= i,
        i + seg.len() <= s.len(),
        s.subrange(i, i + seg.len()) == seg,
    ensures
        forall|k: int| 0 <= k < seg.len() ==> s[i + k] == seg[k],
{
    assert forall|k: int| 0 <= k < seg.len() implies s[i + k] == seg[k] by {
        assert(s.subrange(i, i + seg.len())[k] == s[i + k]);
    }
}

/// A literal inside a matched region of `s` matches in `s`.
proof fn lemma_match_within(s: Seq<char>, i: int, seg: Seq<char>, off: int, lit: Seq<char>)
    requires
        0 <= i,
        i + seg.len() <= s.len(),
        s.subrange(i, i + seg.len()) == seg,
        0 <= off,
        off + lit.len() <= seg.len(),
        seg.subrange(off, off + lit.len()) == lit,
    ensures
        match_at(s, i + off, lit),
{
    lemma_segment(s, i, seg);
    lemma_segment(seg, off, lit);
    assert(s.subrange(i + off, i + off + lit.len()) =~= lit);
}

/// Parsing a serialized entry that stands at position `i` of the text
/// yields exactly that entry and stops right after it.
proof fn lemma_parse_ser_entry(s: Seq<char>, i: int, e: EntryModel)
    requires
        entry_wf(e),
        0 <= i,
        i + ser_entry(e).len() <= s.len(),
        s.subrange(i, i + ser_entry(e).len()) == ser_entry(e),
    ensures
        parse_entry_at(s, i) == Some((e, i + ser_entry(e).len())),
{
    reveal_lits();
    let seg = ser_entry(e);
    lemma_segment(s, i, seg);
    let hl = lit_head().len() as int;
    let ml1 = lit_mid_path().len() as int;
    let ml2 = lit_mid_digest().len() as int;
    let tl = lit_tail().len() as int;
    let nl = e.name.len() as int;
    let pl = e.path.len() as int;
    let dl = e.digest.len() as int;
    // positions of the parts inside the entry
    let p0 = i + hl;  // name
    let q1 = p0 + nl;  // closing quote of name, start of mid_path
    let p1 = q1 + ml1;  // path
    let q2 = p1 + pl;  // start of mid_digest
    let p2 = q2 + ml2;  // digest
    let q3 = p2 + dl;  // start of tail
    assert(seg.subrange(0, hl) =~= lit_head());
    lemma_match_within(s, i, seg, 0, lit_head());
    assert(seg.subrange(hl, hl + nl) =~= e.name);
    assert(s.subrange(p0, p0 + nl) =~= e.name) by {
        lemma_match_within(s, i, seg, hl, seg.subrange(hl, hl + nl));
    }
    lemma_segment(s, p0, e.name);
    assert(seg.subrange(hl + nl, hl + nl + ml1) =~= lit_mid_path());
    lemma_match_within(s, i, seg, hl + nl, lit_mid_path());
    assert(seg.subrange(hl + nl + ml1, hl + nl + ml1 + pl) =~= e.path);
    assert(s.subrange(p1, p1 + pl) =~= e.path) by {
        lemma_match_within(s, i, seg, hl + nl + ml1, seg.subrange(hl + nl + ml1, hl + nl + ml1 + pl));
    }
    lemma_segment(s, p1, e.path);
    assert(seg.subrange(hl + nl + ml1 + pl, hl + nl + ml1 + pl + ml2) =~= lit_mid_digest());
    lemma_match_within(s, i, seg, hl + nl + ml1 + pl, lit_mid_digest());
    assert(seg.subrange(hl + nl + ml1 + pl + ml2, hl + nl + ml1 + pl + ml2 + dl) =~= e.digest);
    assert(s.subrange(p2, p2 + dl) =~= e.digest) by {
        lemma_match_within(
            s,
            i,
            seg,
            hl + nl + ml1 + pl + ml2,
            seg.subrange(hl + nl + ml1 + pl + ml2, hl + nl + ml1 + pl + ml2 + dl),
        );
    }
    lemma_segment(s, p2, e.digest);
    assert(seg.subrange(hl + nl + ml1 + pl + ml2 + dl, seg.len() as int) =~= lit_tail());
    lemma_match_within(s, i, seg, hl + nl + ml1 + pl + ml2 + dl, lit_tail());
    // the name, path and digest fields contain no quote, and a quote follows each
    assert(s[q1] == '"') by {
        assert(s[i + (hl + nl)] == lit_mid_path()[0]);
    }
    assert forall|j: int| p0 <= j < q1 implies s[j] != '"' by {
        assert(s[j] == e.name[j - p0]);
        assert(json_safe_char(e.name[j - p0]));
    }
    lemma_find_char_exact(s, '"', p0, q1);
    assert(parse_string_at(s, p0) == Some((s.subrange(p0, q1), q1)));
    assert(s.subrange(p0, q1) =~= e.name);
    assert(s[q2] == '"') by {
        assert(s[i + (hl + nl + ml1 + pl)] == lit_mid_digest()[0]);
    }
    assert forall|j: int| p1 <= j < q2 implies s[j] != '"' by {
        assert(s[j] == e.path[j - p1]);
        assert(json_safe_char(e.path[j - p1]));
    }
    lemma_find_char_exact(s, '"', p1, q2);
    assert(s.subrange(p1, q2) =~= e.path);
    assert(s[q3] == '"') by {
        assert(s[i + (hl + nl + ml1 + pl + ml2 + dl)] == lit_tail()[0]);
    }
    assert forall|j: int| p2 <= j < q3 implies s[j] != '"' by {
        assert(s[j] == e.digest[j - p2]);
        assert(json_safe_char(e.digest[j - p2]));
    }
    lemma_find_char_exact(s, '"', p2, q3);
    assert(s.subrange(p2, q3) =~= e.digest);
    assert(q3 + tl == i + seg.len());
}

/// Parsing a serialized entry list that stands at position `i`, followed
/// by something that is not a separator, yields exactly those entries.
proof fn lemma_parse_ser_entries(s: Seq<char>, i: int, es: Seq<EntryModel>)
    requires
        es.len() >= 1,
        forall|k: int| 0 <= k < es.len() ==> entry_wf(#[trigger] es[k]),
        0 <= i,
        i + ser_entries(es).len() <= s.len(),
        s.subrange(i, i + ser_entries(es).len()) == ser_entries(es),
        i + ser_entries(es).len() < s.len(),
        s[i + ser_entries(es).len()] != ',',
    ensures
        parse_entries_at(s, i) == Some((es, i + ser_entries(es).len())),
    decreases es.len(),
{
    reveal_lits();
    let seg = ser_entries(es);
    let e0 = es[0];
    let el = ser_entry(e0).len() as int;
    if es.len() == 1 {
        assert(seg == ser_entry(e0));
        lemma_parse_ser_entry(s, i, e0);
        let j = i + el;
        // what follows is not a separator
        assert(!match_at(s, j, lit_sep())) by {
            if match_at(s, j, lit_sep()) {
                lemma_segment(s, j, lit_sep());
                assert(s[j] == ',');
            }
        }
        assert(seq![e0] =~= es);
    } else {
        let rest = es.drop_first();
        let rl = ser_entries(rest).len() as int;
        assert(seg =~= ser_entry(e0) + lit_sep() + ser_entries(rest));
        assert(seg.subrange(0, el) =~= ser_entry(e0));
        assert(s.subrange(i, i + el) =~= ser_entry(e0)) by {
            lemma_match_within(s, i, seg, 0, seg.subrange(0, el));
        }
        lemma_parse_ser_entry(s, i, e0);
        let j = i + el;
        assert(seg.subrange(el, el + 2) =~= lit_sep());
        lemma_match_within(s, i, seg, el, lit_sep());
        assert(match_at(s, j, lit_sep()));
        let i2 = j + 2;
        assert(seg.subrange(el + 2, seg.len() as int) =~= ser_entries(rest));
        assert(s.subrange(i2, i2 + rl) =~= ser_entries(rest)) by {
            lemma_match_within(s, i, seg, el + 2, seg.subrange(el + 2, seg.len() as int));
        }
        assert forall|k: int| 0 <= k < rest.len() implies entry_wf(#[trigger] rest[k]) by {
            assert(rest[k] == es[k + 1]);
        }
        lemma_parse_ser_entries(s, i2, rest);
        assert(seq![e0] + rest =~= es);
    }
}

/// Round trip: parsing a serialized well-formed manifest yields exactly
/// the entries that were written.
pub proof fn lemma_round_trip(es: Seq<EntryModel>)
    requires
        manifest_wf(es),
    ensures
        parse_manifest_at(ser_manifest(es)) == Some(es),
{
    reveal_lits();
    let s = ser_manifest(es);
    if es.len() == 0 {
        assert(s == lit_empty());
        assert(parse_manifest_at(s) == Some(Seq::<EntryModel>::empty()));
        assert(Seq::<EntryModel>::empty() =~= es);
    } else {
        let body = ser_entries(es);
        let bl = body.len() as int;
        assert(s.len() == 2 + bl + 2);
        assert(s != lit_empty()) by {
            assert(s.len() != lit_empty().len());
        }
        assert(s.subrange(0, 2) =~= lit_open());
        assert(match_at(s, 0, lit_open()));
        assert(s.subrange(2, 2 + bl) =~= body);
        assert(s[2 + bl] == lit_close()[0]) by {
            assert(s.subrange(2 + bl, s.len() as int) =~= lit_close());
            lemma_segment(s, 2 + bl, lit_close());
        }
        lemma_parse_ser_entries(s, 2, es);
        assert(s.subrange(2 + bl, 2 + bl + 2) =~= lit_close());
        assert(match_at(s, 2 + bl, lit_close()));
    }
}

/// Writes a manifest in the canonical file format.
pub fn serialize_manifest(entries: &Vec<FileChecksum>) -> (r: String)
    ensures
        r@ == ser_manifest(entries.deep_view()),
{
    let ghost es = entries.deep_view();
    let n = entries.len();
    if n == 0 {
        let r = String::from_str("[]");
        proof {
            assert(r@ == lit_empty());
        }
        return r;
    }
    let mut out = String::from_str("[\n");
    let mut i: usize = 0;
    while i < n
        invariant
            n == es.len(),
            es == entries.deep_view(),
            0 < n,
            i <= n,
            i > 0 ==> out@ == lit_open() + ser_entries(es.subrange(0, i as int)),
            i == 0 ==> out@ == lit_open(),
        decreases n - i,
    {
        let ghost prev = out@;
        if i > 0 {
            out.append(",\n");
        }
        let e = &entries[i];
        out.append("  {\n    \"name\": \"");
        out.append(e.name.as_str());
        out.append("\",\n    \"filePath\": \"");
        out.append(e.file_path.as_str());
        out.append("\",\n    \"checksum\": \"");
        out.append(e.checksum.as_str());
        out.append("\"\n  }");
        proof {
            if i == 0 {
                assert(es.subrange(0, 1) =~= seq![es[0]]);
                assert(out@ =~= lit_open() + ser_entries(es.subrange(0, 1)));
            } else {
                lemma_ser_entries_snoc(es.subrange(0, i as int), es[i as int]);
                assert(es.subrange(0, i + 1) =~= es.subrange(0, i as int).push(es[i as int]));
                assert(out@ =~= lit_open() + (ser_entries(es.subrange(0, i as int)) + lit_sep()
                    + ser_entry(es[i as int])));
            }
        }
        i = i + 1;
    }
    out.append("\n]");
    proof {
        assert(es.subrange(0, n as int) =~= es);
        assert(out@ =~= lit_open() + ser_entries(es) + lit_close());
    }
    out
}

/// Serializing one more entry appends a separator and its form.
proof fn lemma_ser_entries_snoc(es: Seq<EntryModel>, e: EntryModel)
    requires
        es.len() >= 1,
    ensures
        ser_entries(es.push(e)) == ser_entries(es) + lit_sep() + ser_entry(e),
    decreases es.len(),
{
    if es.len() == 1 {
        assert(es.push(e)[0] == es[0]);
        assert(es.push(e).drop_first() =~= seq![e]);
        assert(ser_entries(es.push(e)) =~= ser_entry(es[0]) + lit_sep() + ser_entries(seq![e]));
        assert(ser_entries(seq![e]) == ser_entry(e));
        assert(ser_entries(es) == ser_entry(es[0]));
    } else {
        assert(es.push(e)[0] == es[0]);
        assert(es.push(e).drop_first() =~= es.drop_first().push(e));
        lemma_ser_entries_snoc(es.drop_first(), e);
        assert(ser_entry(es[0]) + lit_sep() + (ser_entries(es.drop_first()) + lit_sep()
            + ser_entry(e)) =~= (ser_entry(es[0]) + lit_sep() + ser_entries(es.drop_first()))
            + lit_sep() + ser_entry(e));
    }
}


/// The literal stands at position `i` of the text.
fn match_lit(s: &str, i: usize, lit: &str) -> (r: bool)
    ensures
        r == match_at(s@, i as int, lit@),
{
    let sl = s.unicode_len();
    let ll = lit.unicode_len();
    if i > sl || ll > sl - i {
        return false;
    }
    let mut k: usize = 0;
    while k < ll
        invariant
            sl == s@.len(),
            ll == lit@.len(),
            i + ll <= sl,
            k <= ll,
            forall|m: int| 0 <= m < k ==> s@[i + m] == lit@[m],
        decreases ll - k,
    {
        if s.get_char(i + k) != lit.get_char(k) {
            proof {
                assert(s@.subrange(i as int, i + ll)[k as int] == s@[i + k]);
            }
            return false;
        }
        k = k + 1;
    }
    proof {
        assert(s@.subrange(i as int, i + ll) =~= lit@);
    }
    true
}

/// The position of the next quote at or after `i`, or the text's length.
fn scan_quote(s: &str, i: usize) -> (r: usize)
    requires
        i <= s@.len(),
    ensures
        r == find_char(s@, '"', i as int),
        i <= r <= s@.len(),
{
    let len = s.unicode_len();
    let mut j: usize = i;
    while j < len && s.get_char(j) != '"'
        invariant
            len == s@.len(),
            i <= j <= len,
            forall|m: int| i <= m < j ==> s@[m] != '"',
        decreases len - j,
    {
        j = j + 1;
    }
    proof {
        if j < len {
            lemma_find_char_exact(s@, '"', i as int, j as int);
        } else {
            lemma_find_char(s@, '"', i as int);
            let f = find_char(s@, '"', i as int);
            if f < len {
                assert(s@[f] != '"');
            }
        }
    }
    j
}

/// One serialized entry starting at position `i` of the text.
fn parse_entry_str(s: &str, i: usize) -> (r: Option<(FileChecksum, usize)>)
    requires
        i <= s@.len(),
    ensures
        match r {
            Some(ej) => parse_entry_at(s@, i as int) == Some((ej.0@, ej.1 as int)) && i < ej.1
                <= s@.len(),
            None => parse_entry_at(s@, i as int) is None,
        },
{
    proof {
        reveal_lits();
    }
    let len = s.unicode_len();
    if !match_lit(s, i, "  {\n    \"name\": \"") {
        return None;
    }
    let p0 = i + 17;
    let q1 = scan_quote(s, p0);
    if q1 >= len {
        return None;
    }
    let name = s.substring_char(p0, q1).to_owned();
    if !match_lit(s, q1, "\",\n    \"filePath\": \"") {
        return None;
    }
    let p1 = q1 + 20;
    let q2 = scan_quote(s, p1);
    if q2 >= len {
        return None;
    }
    let path = s.substring_char(p1, q2).to_owned();
    if !match_lit(s, q2, "\",\n    \"checksum\": \"") {
        return None;
    }
    let p2 = q2 + 20;
    let q3 = scan_quote(s, p2);
    if q3 >= len {
        return None;
    }
    let digest = s.substring_char(p2, q3).to_owned();
    if !match_lit(s, q3, "\"\n  }") {
        return None;
    }
    Some((FileChecksum { name, file_path: path, checksum: digest }, q3 + 5))
}

/// One or more serialized entries starting at position `i` of the text.
fn parse_entries_str(s: &str, i: usize) -> (r: Option<(Vec<FileChecksum>, usize)>)
    requires
        i <= s@.len(),
    ensures
        match r {
            Some(vj) => parse_entries_at(s@, i as int) == Some((vj.0.deep_view(), vj.1 as int))
                && vj.1 <= s@.len(),
            None => parse_entries_at(s@, i as int) is None,
        },
    decreases s@.len() - i,
{
    proof {
        reveal_lits();
    }
    let len = s.unicode_len();
    match parse_entry_str(s, i) {
        Option::None => None,
        Option::Some((e, j)) => {
            if match_lit(s, j, ",\n") {
                let i2 = j + 2;
                match parse_entries_str(s, i2) {
                    Option::None => None,
                    Option::Some((rest, k)) => {
                        let mut v: Vec<FileChecksum> = Vec::new();
                        v.push(e);
                        let mut rest = rest;
                        v.append(&mut rest);
                        proof {
                            assert(v.deep_view() =~= seq![v@[0]@] + (parse_entries_at(
                                s@,
                                i2 as int,
                            )->Some_0).0);
                        }
                        Some((v, k))
                    },
                }
            } else {
                let mut v: Vec<FileChecksum> = Vec::new();
                let ghost em = e@;
                v.push(e);
                proof {
                    assert(v.deep_view() =~= seq![em]);
                }
                Some((v, j))
            }
        },
    }
}

/// Parses the canonical manifest file format.  The result is exactly what
/// the grammar assigns to the text: `None` for anything but a manifest the
/// writer could have produced.
pub fn parse_manifest(s: &str) -> (r: Option<Vec<FileChecksum>>)
    ensures
        r.deep_view() == parse_manifest_at(s@),
{
    proof {
        reveal_lits();
    }
    let len = s.unicode_len();
    if len == 2 && match_lit(s, 0, "[]") {
        proof {
            assert(s@ =~= lit_empty());
        }
        let v: Vec<FileChecksum> = Vec::new();
        proof {
            assert(v.deep_view() =~= Seq::<EntryModel>::empty());
        }
        return Some(v);
    }
    proof {
        if s@ == lit_empty() {
            assert(s@.len() == 2);
            assert(s@.subrange(0, 2) =~= s@);
        }
    }
    if !match_lit(s, 0, "[\n") {
        return None;
    }
    match parse_entries_str(s, 2) {
        Option::None => None,
        Option::Some((v, j)) => {
            if match_lit(s, j, "\n]") && j + 2 == len {
                Some(v)
            } else {
                None
            }
        },
    }
}

} // verus!
