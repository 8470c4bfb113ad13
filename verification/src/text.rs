//! Character and path utilities shared by the manifest engine.
//!
//! Relative paths in a manifest are POSIX style: `/`-separated, never
//! absolute, never containing a `..` segment.  Digest strings are compared
//! case-insensitively, so ASCII case folding is defined here as well.

use vstd::prelude::*;

verus! {

/// A character that may appear verbatim inside a JSON string literal of
/// the manifest file format: no control characters, no quote, no backslash.
pub open spec fn json_safe_char(c: char) -> bool {
    c != '"' && c != '\\' && (c as u32) >= 32
}

/// Every character of the string is safe for the manifest file format.
pub open spec fn json_safe(s: Seq<char>) -> bool {
    forall|i: int| 0 <= i < s.len() ==> json_safe_char(#[trigger] s[i])
}

/// ASCII lower-casing of one character; all other characters are unchanged.
pub open spec fn lower_char(c: char) -> char {
    if 'A' <= c && c <= 'Z' {
        ((c as u32) + 32) as char
    } else {
        c
    }
}

/// ASCII lower-casing of a whole string.
pub open spec fn lower(s: Seq<char>) -> Seq<char> {
    s.map_values(|c: char| lower_char(c))
}

/// ASCII lower-casing of one character.
pub fn to_lower(c: char) -> (r: char)
    ensures
        r == lower_char(c),
{
    if 'A' <= c && c <= 'Z' {
        (((c as u32) + 32) as u8) as char
    } else {
        c
    }
}

/// Case-insensitive equality of two strings, folding ASCII letters only.
/// Digest strings in manifests are compared with this relation, so a remote
/// manifest with upper-case hex digests never causes a spurious update.
pub fn eq_ignore_case(a: &str, b: &str) -> (r: bool)
    ensures
        r == (lower(a@) == lower(b@)),
{
    let a_len = a.unicode_len();
    let b_len = b.unicode_len();
    if a_len != b_len {
        assert(lower(a@).len() != lower(b@).len());
        return false;
    }
    let mut i: usize = 0;
    while i < a_len
        invariant
            a_len == a@.len(),
            b_len == b@.len(),
            a_len == b_len,
            i <= a_len,
            forall|j: int| 0 <= j < i ==> lower(a@)[j] == lower(b@)[j],
        decreases a_len - i,
    {
        let ca = to_lower(a.get_char(i));
        let cb = to_lower(b.get_char(i));
        if ca != cb {
            assert(lower(a@)[i as int] != lower(b@)[i as int]);
            return false;
        }
        i = i + 1;
    }
    proof {
        assert(lower(a@) =~= lower(b@));
    }
    true
}

/// The position of the first occurrence of `c` at or after `i`, or the
/// length of the string if there is none.
pub open spec fn find_char(s: Seq<char>, c: char, i: int) -> int
    decreases s.len() - i,
{
    if i < 0 || i >= s.len() {
        s.len() as int
    } else if s[i] == c {
        i
    } else {
        find_char(s, c, i + 1)
    }
}

pub proof fn lemma_find_char(s: Seq<char>, c: char, i: int)
    requires
        0 <= i <= s.len(),
    ensures
        i <= find_char(s, c, i) <= s.len(),
        forall|j: int| i <= j < find_char(s, c, i) ==> s[j] != c,
        find_char(s, c, i) < s.len() ==> s[find_char(s, c, i)] == c,
    decreases s.len() - i,
{
    if i < s.len() && s[i] != c {
        lemma_find_char(s, c, i + 1);
    }
}

/// `find_char` lands exactly on a known first occurrence.
pub proof fn lemma_find_char_exact(s: Seq<char>, c: char, i: int, at: int)
    requires
        0 <= i <= at < s.len(),
        forall|j: int| i <= j < at ==> s[j] != c,
        s[at] == c,
    ensures
        find_char(s, c, i) == at,
{
    lemma_find_char(s, c, i);
    let f = find_char(s, c, i);
    if f < at {
        assert(s[f] != c);
    } else if f > at {
        assert(s[at] != c);
    }
}

/// The first `/`-separated segment of a relative path: the part before the
/// first slash, or the whole path if it has none.  Root-level exclusions
/// are matched against this segment.
pub open spec fn first_segment(p: Seq<char>) -> Seq<char> {
    p.subrange(0, find_char(p, '/', 0))
}

/// The position of the last `/` of the path, or `-1` if it has none.
pub open spec fn last_slash(p: Seq<char>) -> int
    decreases p.len(),
{
    if p.len() == 0 {
        -1
    } else if p[p.len() - 1] == '/' {
        p.len() - 1
    } else {
        last_slash(p.drop_last())
    }
}

pub proof fn lemma_last_slash(p: Seq<char>)
    ensures
        -1 <= last_slash(p) < p.len(),
        last_slash(p) >= 0 ==> p[last_slash(p)] == '/',
        forall|j: int| last_slash(p) < j < p.len() ==> p[j] != '/',
    decreases p.len(),
{
    if p.len() > 0 && p[p.len() - 1] != '/' {
        lemma_last_slash(p.drop_last());
        assert forall|j: int| last_slash(p) < j < p.len() implies p[j] != '/' by {
            if j < p.len() - 1 {
                assert(p.drop_last()[j] == p[j]);
            }
        }
    }
}

/// The leaf filename of a relative path: the part after the last slash.
pub open spec fn leaf_name(p: Seq<char>) -> Seq<char> {
    p.subrange(last_slash(p) + 1, p.len() as int)
}

/// The first `/`-separated segment of a relative path, as a fresh string.
pub fn first_segment_str(p: &str) -> (r: String)
    ensures
        r@ == first_segment(p@),
{
    let len = p.unicode_len();
    let mut i: usize = 0;
    while i < len && p.get_char(i) != '/'
        invariant
            len == p@.len(),
            i <= len,
            forall|j: int| 0 <= j < i ==> p@[j] != '/',
        decreases len - i,
    {
        i = i + 1;
    }
    proof {
        lemma_find_char(p@, '/', 0);
        assert(find_char(p@, '/', 0) == i);
    }
    p.substring_char(0, i).to_owned()
}

/// The leaf filename of a relative path, as a fresh string.
pub fn leaf_name_str(p: &str) -> (r: String)
    ensures
        r@ == leaf_name(p@),
{
    let len = p.unicode_len();
    let mut k: usize = len;
    while k > 0 && p.get_char(k - 1) != '/'
        invariant
            len == p@.len(),
            k <= len,
            forall|j: int| k <= j < len ==> p@[j] != '/',
        decreases k,
    {
        k = k - 1;
    }
    proof {
        lemma_last_slash(p@);
        assert(last_slash(p@) == k - 1);
    }
    p.substring_char(k, len).to_owned()
}

/// A `..` path segment starts at position `i`.
pub open spec fn dotdot_at(p: Seq<char>, i: int) -> bool {
    &&& 0 <= i
    &&& i + 2 <= p.len()
    &&& p[i] == '.'
    &&& p[i + 1] == '.'
    &&& (i == 0 || p[i - 1] == '/')
    &&& (i + 2 == p.len() || p[i + 2] == '/')
}

pub open spec fn has_dotdot_segment(p: Seq<char>) -> bool {
    exists|i: int| dotdot_at(p, i)
}

/// A well-formed manifest path: non-empty, `/`-separated and relative,
/// with no empty segment, no `..` segment, and no character the manifest
/// file format would have to escape.
pub open spec fn path_wf(p: Seq<char>) -> bool {
    &&& p.len() > 0
    &&& json_safe(p)
    &&& p[0] != '/'
    &&& p[p.len() - 1] != '/'
    &&& (forall|i: int| 0 < i < p.len() ==> !(p[i - 1] == '/' && #[trigger] p[i] == '/'))
    &&& !has_dotdot_segment(p)
}

/// Checks the manifest-path invariant on a candidate relative path.
pub fn path_is_wf(p: &str) -> (r: bool)
    ensures
        r == path_wf(p@),
{
    let len = p.unicode_len();
    if len == 0 {
        return false;
    }
    if p.get_char(0) == '/' || p.get_char(len - 1) == '/' {
        return false;
    }
    let mut i: usize = 0;
    while i < len
        invariant
            len == p@.len(),
            i <= len,
            0 < len,
            forall|j: int| 0 <= j < i ==> json_safe_char(#[trigger] p@[j]),
            forall|j: int| 0 < j < i ==> !(p@[j - 1] == '/' && #[trigger] p@[j] == '/'),
            forall|j: int| j + 3 <= i ==> !dotdot_at(p@, j),
        decreases len - i,
    {
        let c = p.get_char(i);
        if c == '"' || c == '\\' || (c as u32) < 32 {
            assert(!json_safe_char(p@[i as int]));
            return false;
        }
        if i > 0 && c == '/' && p.get_char(i - 1) == '/' {
            return false;
        }
        if i >= 2 {
            if p.get_char(i - 2) == '.' && p.get_char(i - 1) == '.' && (i == 2 || p.get_char(
                i - 3,
            ) == '/') && c == '/' {
                assert(dotdot_at(p@, i - 2));
                return false;
            }
            assert(!dotdot_at(p@, i - 2));
        }
        i = i + 1;
    }
    if len >= 2 {
        if p.get_char(len - 2) == '.' && p.get_char(len - 1) == '.' && (len == 2 || p.get_char(
            len - 3,
        ) == '/') {
            assert(dotdot_at(p@, len - 2));
            return false;
        }
        assert(!dotdot_at(p@, len - 2));
    }
    proof {
        assert forall|j: int| !dotdot_at(p@, j) by {
            if 0 <= j && j + 2 <= len {
                if j + 3 <= len {
                    assert(!dotdot_at(p@, j));
                }
            }
        }
    }
    true
}


/// Exact equality of two string slices.
pub fn str_eq(a: &str, b: &str) -> (r: bool)
    ensures
        r == (a@ == b@),
{
    let a_len = a.unicode_len();
    let b_len = b.unicode_len();
    if a_len != b_len {
        return false;
    }
    let mut i: usize = 0;
    while i < a_len
        invariant
            a_len == a@.len(),
            b_len == b@.len(),
            a_len == b_len,
            i <= a_len,
            forall|j: int| 0 <= j < i ==> a@[j] == b@[j],
        decreases a_len - i,
    {
        if a.get_char(i) != b.get_char(i) {
            return false;
        }
        i = i + 1;
    }
    proof {
        assert(a@ =~= b@);
    }
    true
}

/// The string ends with the given suffix.
pub open spec fn ends_with(s: Seq<char>, suffix: Seq<char>) -> bool {
    s.len() >= suffix.len() && s.subrange(s.len() - suffix.len(), s.len() as int) == suffix
}

/// Checks whether the string ends with the given suffix.
pub fn ends_with_str(s: &str, suffix: &str) -> (r: bool)
    ensures
        r == ends_with(s@, suffix@),
{
    let s_len = s.unicode_len();
    let f_len = suffix.unicode_len();
    if f_len > s_len {
        return false;
    }
    let base = s_len - f_len;
    let mut i: usize = 0;
    while i < f_len
        invariant
            s_len == s@.len(),
            f_len == suffix@.len(),
            base == s_len - f_len,
            i <= f_len,
            forall|j: int| 0 <= j < i ==> s@[base + j] == suffix@[j],
        decreases f_len - i,
    {
        if s.get_char(base + i) != suffix.get_char(i) {
            proof {
                assert(s@.subrange(base as int, s@.len() as int)[i as int] == s@[base + i]);
            }
            return false;
        }
        i = i + 1;
    }
    proof {
        assert(s@.subrange(base as int, s@.len() as int) =~= suffix@);
    }
    true
}


/// Lexicographic order on strings, by code point: the order directory
/// listings are reported in.
pub open spec fn lex_le(a: Seq<char>, b: Seq<char>) -> bool
    decreases a.len(),
{
    if a.len() == 0 {
        true
    } else if b.len() == 0 {
        false
    } else if (a[0] as u32) < (b[0] as u32) {
        true
    } else if (b[0] as u32) < (a[0] as u32) {
        false
    } else {
        lex_le(a.drop_first(), b.drop_first())
    }
}

/// Any two strings are ordered one way or the other.
pub proof fn lemma_lex_le_total(a: Seq<char>, b: Seq<char>)
    ensures
        lex_le(a, b) || lex_le(b, a),
    decreases a.len(),
{
    if a.len() > 0 && b.len() > 0 && !((a[0] as u32) < (b[0] as u32)) && !((b[0] as u32) < (
    a[0] as u32)) {
        lemma_lex_le_total(a.drop_first(), b.drop_first());
    }
}

/// The order is transitive.
pub proof fn lemma_lex_le_trans(a: Seq<char>, b: Seq<char>, c: Seq<char>)
    requires
        lex_le(a, b),
        lex_le(b, c),
    ensures
        lex_le(a, c),
    decreases a.len(),
{
    if a.len() > 0 && b.len() > 0 && c.len() > 0 && (a[0] as u32) == (b[0] as u32) && (
    b[0] as u32) == (c[0] as u32) {
        lemma_lex_le_trans(a.drop_first(), b.drop_first(), c.drop_first());
    }
}

/// Compares two strings lexicographically by code point.
pub fn str_lex_le(a: &str, b: &str) -> (r: bool)
    ensures
        r == lex_le(a@, b@),
{
    let a_len = a.unicode_len();
    let b_len = b.unicode_len();
    proof {
        assert(a@.skip(0) =~= a@);
        assert(b@.skip(0) =~= b@);
    }
    let mut i: usize = 0;
    while i < a_len && i < b_len
        invariant
            a_len == a@.len(),
            b_len == b@.len(),
            i <= a_len,
            i <= b_len,
            lex_le(a@, b@) == lex_le(a@.skip(i as int), b@.skip(i as int)),
        decreases a_len - i,
    {
        let ca = a.get_char(i);
        let cb = b.get_char(i);
        proof {
            assert(a@.skip(i as int)[0] == a@[i as int]);
            assert(b@.skip(i as int)[0] == b@[i as int]);
        }
        if (ca as u32) < (cb as u32) {
            return true;
        }
        if (cb as u32) < (ca as u32) {
            return false;
        }
        proof {
            assert(a@.skip(i as int).drop_first() =~= a@.skip(i + 1));
            assert(b@.skip(i as int).drop_first() =~= b@.skip(i + 1));
        }
        i = i + 1;
    }
    proof {
        if i == a_len {
            assert(a@.skip(i as int).len() == 0);
        } else {
            assert(b@.skip(i as int).len() == 0);
            assert(a@.skip(i as int).len() > 0);
        }
    }
    a_len <= b_len
}

/// The names stand in lexicographic order.
pub open spec fn sorted_lex(s: Seq<Seq<char>>) -> bool {
    forall|i: int, j: int| 0 <= i < j < s.len() ==> lex_le(#[trigger] s[i], #[trigger] s[j])
}

/// Sorts names lexicographically by code point; the result holds the same
/// names, multiplicities included.  Listings are sorted with this before
/// they are shown, so equal inputs always list alike.
pub fn sort_strings(names: &Vec<String>) -> (r: Vec<String>)
    ensures
        sorted_lex(r.deep_view()),
        r.deep_view().to_multiset() == names.deep_view().to_multiset(),
{
    broadcast use vstd::seq_lib::group_to_multiset_ensures;

    let ghost nm = names.deep_view();
    let n = names.len();
    let mut out: Vec<String> = Vec::new();
    proof {
        assert(nm.subrange(0, 0) =~= Seq::<Seq<char>>::empty());
        assert(out.deep_view() =~= Seq::<Seq<char>>::empty());
        assert(out.deep_view().to_multiset() =~= nm.subrange(0, 0).to_multiset());
    }
    let mut i: usize = 0;
    while i < n
        invariant
            n == nm.len(),
            nm == names.deep_view(),
            i <= n,
            sorted_lex(out.deep_view()),
            out.deep_view().to_multiset() == nm.subrange(0, i as int).to_multiset(),
        decreases n - i,
    {
        broadcast use vstd::seq_lib::group_to_multiset_ensures;

        let ghost prev = out.deep_view();
        let x = names[i].clone();
        let ghost xv = x@;
        let out_len = out.len();
        let mut p: usize = 0;
        while p < out_len && str_lex_le(out[p].as_str(), x.as_str())
            invariant
                out_len == out.deep_view().len(),
                xv == x@,
                p <= out_len,
                forall|k: int| 0 <= k < p ==> lex_le(#[trigger] out.deep_view()[k], xv),
            decreases out_len - p,
        {
            p = p + 1;
        }
        proof {
            if p < out_len {
                lemma_lex_le_total(prev[p as int], xv);
            }
        }
        out.insert(p, x);
        proof {
            assert(out.deep_view() =~= prev.insert(p as int, xv));
            assert forall|k1: int, k2: int|
                0 <= k1 < k2 < out.deep_view().len() implies lex_le(
                #[trigger] out.deep_view()[k1],
                #[trigger] out.deep_view()[k2],
            ) by {
                let cur = out.deep_view();
                if k1 == p {
                    // the new element precedes everything from position p on
                    assert(cur[k2] == prev[k2 - 1]);
                    if k2 - 1 > p {
                        lemma_lex_le_trans(xv, prev[p as int], prev[k2 - 1]);
                    }
                } else if k2 == p {
                    // everything before position p precedes the new element
                    assert(cur[k1] == prev[k1]);
                } else {
                    let o1: int = if k1 < p { k1 } else { k1 - 1 };
                    let o2: int = if k2 < p { k2 } else { k2 - 1 };
                    assert(cur[k1] == prev[o1] && cur[k2] == prev[o2]);
                }
            }
            assert(nm.subrange(0, i + 1) =~= nm.subrange(0, i as int).push(nm[i as int]));
            assert(out.deep_view().to_multiset() =~= prev.to_multiset().insert(xv));
        }
        i = i + 1;
    }
    proof {
        assert(nm.subrange(0, n as int) =~= nm);
    }
    out
}


/// Host path separators normalized away: every backslash becomes a
/// forward slash, as manifest paths require.
pub open spec fn normalized_seps(s: Seq<char>) -> Seq<char> {
    s.map_values(|c: char| if c == '\\' { '/' } else { c })
}

/// Normalizes a relative path to `/`-separated form.
pub fn normalize_separators(s: &str) -> (r: String)
    ensures
        r@ == normalized_seps(s@),
{
    let len = s.unicode_len();
    let mut out = String::new();
    proof {
        assert(out@ =~= normalized_seps(s@.subrange(0, 0)));
    }
    let mut i: usize = 0;
    while i < len
        invariant
            len == s@.len(),
            i <= len,
            out@ == normalized_seps(s@.subrange(0, i as int)),
        decreases len - i,
    {
        let ghost prev = out@;
        let c = s.get_char(i);
        if c == '\\' {
            out.append("/");
            proof {
                reveal_strlit("/");
            }
        } else {
            out.append(s.substring_char(i, i + 1));
        }
        proof {
            assert(s@.subrange(i as int, i + 1) =~= seq![s@[i as int]]);
            assert(out@ =~= prev.push(if s@[i as int] == '\\' {
                '/'
            } else {
                s@[i as int]
            }));
            assert(out@ =~= normalized_seps(s@.subrange(0, i + 1)));
        }
        i = i + 1;
    }
    proof {
        assert(s@.subrange(0, len as int) =~= s@);
    }
    out
}

} // verus!
