//! Constraint extraction from project declaration text: find the first
//! `required_version` declaration, read its version-specifier string, and
//! derive the `min-required` version token or the `latest-allowed` mapping.
//!
//! The text handed in is the concatenated content of the declaration files
//! in enumeration order; the first matching line wins (a documented
//! best-effort policy).  A line counts only when no `#` stands before the
//! first `required_version` on it.  The specifier is what stands between
//! the first pair of double quotes on the line, or, failing quotes, the
//! trimmed remainder of the line after the keyword and an optional `:` or
//! `=` separator.

use vstd::prelude::*;
use crate::chars::{
    char_is_digit, char_is_space, digit_run_end, find_char_from, find_digit_from, find_sub_from,
    has_sub, idx_of, idx_where, is_digit, is_space, last_idx_of, lemma_idx_of, lemma_idx_of_is,
    lemma_idx_where_is, lemma_last_idx_of_is, lemma_sub_idx_is, lemma_sub_idx_none,
    lemma_trim_end_take, lemma_trim_start_skip, occurs_at, spec_trim_end, spec_trim_start, sub_idx,
    substr_copy,
};

verus! {

/// The declaration keyword the extractor scans for.
pub open spec fn rv() -> Seq<char> {
    "required_version"@
}

/// Split into lines at newline characters.
pub open spec fn spec_lines(s: Seq<char>) -> Seq<Seq<char>>
    decreases s.len(),
    via spec_lines_dec
{
    let i = idx_of(s, '\n');
    if i >= s.len() {
        seq![s]
    } else {
        seq![s.take(i)] + spec_lines(s.skip(i + 1))
    }
}

#[via_fn]
proof fn spec_lines_dec(s: Seq<char>) {
    lemma_idx_of(s, '\n');
}

/// A line declares a version requirement: it holds the keyword, with no
/// `#` before its first occurrence.
pub open spec fn line_has_decl(line: Seq<char>) -> bool {
    has_sub(line, rv()) && forall|m: int| 0 <= m < sub_idx(line, rv()) ==> line[m] != '#'
}

/// The remainder of a declaration line after the keyword, with an optional
/// `:` or `=` separator dropped and whitespace trimmed.
pub open spec fn spec_after_decl(line: Seq<char>) -> Seq<char> {
    let t = spec_trim_start(line.skip(sub_idx(line, rv()) + rv().len()));
    let t2 = if t.len() > 0 && (t[0] == ':' || t[0] == '=') {
        spec_trim_start(t.drop_first())
    } else {
        t
    };
    spec_trim_end(t2)
}

/// The specifier a declaration line carries: between the first pair of
/// double quotes, else the trimmed remainder after the keyword.
pub open spec fn spec_extract_from_line(line: Seq<char>) -> Seq<char> {
    let q1 = idx_of(line, '"');
    if q1 < line.len() && idx_of(line.skip(q1 + 1), '"') < line.len() - (q1 + 1) {
        line.skip(q1 + 1).take(idx_of(line.skip(q1 + 1), '"'))
    } else {
        spec_after_decl(line)
    }
}

/// The specifier of the first declaration line, if any line declares one.
pub open spec fn spec_first_decl(lines: Seq<Seq<char>>) -> Option<Seq<char>>
    decreases lines.len(),
{
    if lines.len() == 0 {
        None
    } else if line_has_decl(lines[0]) {
        Some(spec_extract_from_line(lines[0]))
    } else {
        spec_first_decl(lines.drop_first())
    }
}

/// The version specifier of the whole declaration text.
pub open spec fn spec_extract_specifier(text: Seq<char>) -> Option<Seq<char>> {
    spec_first_decl(spec_lines(text))
}

/// Read the specifier out of one declaration line.
fn extract_from_line(line: &str) -> (r: String)
    requires
        has_sub(line@, rv()),
    ensures
        r@ == spec_extract_from_line(line@),
{
    let n = line.unicode_len();
    let q1 = find_char_from(line, 0, '"');
    proof {
        lemma_idx_of_is(line@, '"', q1 as int);
    }
    if q1 < n {
        let q2 = find_char_from(line, q1 + 1, '"');
        proof {
            let t = line@.skip(q1 + 1 as int);
            assert forall|m: int| 0 <= m < q2 - (q1 + 1) implies t[m] != '"' by {
                assert(t[m] == line@[m + q1 + 1]);
            }
            if (q2 as int) < n {
                assert(t[q2 - (q1 + 1)] == line@[q2 as int]);
            }
            lemma_idx_of_is(t, '"', q2 - (q1 + 1) as int);
        }
        if q2 < n {
            let out = substr_copy(line, q1 + 1, q2);
            proof {
                assert(line@.skip(q1 + 1 as int).take(q2 - (q1 + 1) as int) =~= line@.subrange(
                    q1 + 1 as int,
                    q2 as int,
                ));
            }
            return out;
        }
    }
    // no quoted specifier: take the remainder after the keyword
    let d = match find_sub_from(line, "required_version", 0) {
        Some(d) => {
            proof {
                lemma_sub_idx_is(line@, rv(), d as int);
            }
            d
        },
        None => {
            proof {
                lemma_sub_idx_none(line@, rv());
                assert(false);
            }
            0
        },
    };
    let kw_len = "required_version".unicode_len();
    proof {
        assert(occurs_at(line@, rv(), d as int));
    }
    let de = d + kw_len;
    let ghost base = line@.skip(sub_idx(line@, rv()) + rv().len());
    let mut a = de;
    while a < n && char_is_space(line.get_char(a))
        invariant
            de <= a <= n,
            n == line@.len(),
            forall|m: int| de <= m < a ==> is_space(line@[m]),
        decreases n - a,
    {
        a += 1;
    }
    proof {
        assert(de == sub_idx(line@, rv()) + rv().len());
        assert forall|m: int| 0 <= m < a - de implies is_space(base[m]) by {
            assert(base[m] == line@[m + de]);
        }
        if a < n {
            assert(base[a - de] == line@[a as int]);
        }
        lemma_trim_start_skip(base, a - de);
        assert(spec_trim_start(base) =~= line@.skip(a as int));
    }
    let mut a2 = a;
    if a < n {
        let c = line.get_char(a);
        if c == ':' || c == '=' {
            proof {
                assert(line@.skip(a as int)[0] == line@[a as int]);
            }
            a2 = a + 1;
            let ghost base2 = line@.skip(a as int).drop_first();
            let mut a3 = a2;
            while a3 < n && char_is_space(line.get_char(a3))
                invariant
                    a2 <= a3 <= n,
                    a + 1 == a2,
                    n == line@.len(),
                    forall|m: int| a2 <= m < a3 ==> is_space(line@[m]),
                decreases n - a3,
            {
                a3 += 1;
            }
            proof {
                assert(base2 =~= line@.skip(a2 as int));
                assert forall|m: int| 0 <= m < a3 - a2 implies is_space(base2[m]) by {
                    assert(base2[m] == line@[m + a2]);
                }
                if a3 < n {
                    assert(base2[a3 - a2] == line@[a3 as int]);
                }
                lemma_trim_start_skip(base2, a3 - a2);
                assert(spec_trim_start(base2) =~= line@.skip(a3 as int));
            }
            a2 = a3;
        } else {
            proof {
                assert(line@.skip(a as int)[0] == line@[a as int]);
            }
        }
    }
    // trim the end
    let mut b = n;
    while b > a2 && char_is_space(line.get_char(b - 1))
        invariant
            a2 <= b <= n,
            n == line@.len(),
            forall|m: int| b <= m < n ==> is_space(line@[m]),
        decreases b,
    {
        b -= 1;
    }
    proof {
        let t2 = line@.skip(a2 as int);
        assert forall|m: int| (b - a2) <= m < t2.len() implies is_space(t2[m]) by {
            assert(t2[m] == line@[m + a2]);
        }
        if b > a2 {
            assert(t2[b - a2 - 1] == line@[b - 1]);
        }
        lemma_trim_end_take(t2, b - a2);
        assert(t2.take(b - a2) =~= line@.subrange(a2 as int, b as int));
    }
    substr_copy(line, a2, b)
}

/// Scan the declaration text for the first `required_version` line and
/// return its specifier string.
pub fn extract_specifier(text: &str) -> (r: Option<String>)
    ensures
        match r {
            Some(sp) => spec_extract_specifier(text@) == Some(sp@),
            None => spec_extract_specifier(text@) is None,
        },
{
    let n = text.unicode_len();
    let mut pos: usize = 0;
    proof {
        assert(text@.skip(0) =~= text@);
    }
    loop
        invariant
            pos <= n,
            n == text@.len(),
            spec_extract_specifier(text@) == spec_first_decl(spec_lines(text@.skip(pos as int))),
        decreases n - pos,
    {
        let ghost tail = text@.skip(pos as int);
        let e = find_char_from(text, pos, '\n');
        proof {
            assert forall|m: int| 0 <= m < e - pos implies tail[m] != '\n' by {
                assert(tail[m] == text@[m + pos]);
            }
            if (e as int) < n {
                assert(tail[e - pos] == text@[e as int]);
            }
            lemma_idx_of_is(tail, '\n', e - pos as int);
        }
        let line = substr_copy(text, pos, e);
        proof {
            assert(tail.take(e - pos as int) =~= line@);
            if (e as int) < n {
                assert(spec_lines(tail) == seq![line@] + spec_lines(tail.skip(e - pos + 1 as int)));
                assert(tail.skip(e - pos + 1 as int) =~= text@.skip(e + 1 as int));
            } else {
                assert(tail =~= line@);
                assert(spec_lines(tail) == seq![line@]);
            }
        }
        let has_decl: bool = match find_sub_from(line.as_str(), "required_version", 0) {
            Some(d) => {
                proof {
                    lemma_sub_idx_is(line@, rv(), d as int);
                }
                let h = find_char_from(line.as_str(), 0, '#');
                proof {
                    lemma_idx_of_is(line@, '#', h as int);
                }
                if h < d {
                    proof {
                        assert(line@[h as int] == '#');
                        assert(!line_has_decl(line@));
                    }
                    false
                } else {
                    proof {
                        assert forall|m: int| 0 <= m < sub_idx(line@, rv()) implies line@[m] != '#'
                            by {}
                        assert(line_has_decl(line@));
                    }
                    true
                }
            },
            None => {
                proof {
                    lemma_sub_idx_none(line@, rv());
                    assert(!line_has_decl(line@));
                }
                false
            },
        };
        if has_decl {
            let sp = extract_from_line(line.as_str());
            proof {
                assert(spec_lines(tail)[0] == line@);
                assert(spec_first_decl(spec_lines(tail)) == Some(spec_extract_from_line(line@)));
            }
            return Some(sp);
        }
        proof {
            assert(spec_lines(tail)[0] == line@);
            if (e as int) < n {
                assert(spec_lines(tail).drop_first() =~= spec_lines(text@.skip(e + 1 as int)));
            } else {
                assert(spec_lines(tail).drop_first() =~= Seq::<Seq<char>>::empty());
                assert(spec_first_decl(Seq::<Seq<char>>::empty()) is None);
            }
        }
        if e == n {
            return None;
        }
        pos = e + 1;
    }
}

// ---------- the min-required token ----------

/// A constraint-qualifier character.
pub open spec fn is_qual_char(c: char) -> bool {
    c == '~' || c == '=' || c == '!' || c == '<' || c == '>'
}

/// Walk backward over whitespace from position `i`.
pub open spec fn back_over_space(sp: Seq<char>, i: int) -> int
    decreases i,
{
    if 0 < i <= sp.len() && is_space(sp[i - 1]) {
        back_over_space(sp, i - 1)
    } else {
        i
    }
}

/// Walk backward over at most `k` qualifier characters from position `i`.
pub open spec fn back_over_qual(sp: Seq<char>, i: int, k: nat) -> int
    decreases k,
{
    if k > 0 && 0 < i <= sp.len() && is_qual_char(sp[i - 1]) {
        back_over_qual(sp, i - 1, (k - 1) as nat)
    } else {
        i
    }
}

/// Dotted-digit version token starting at the first digit `d`: a digit
/// run, then up to two more `.`-separated digit runs.
pub open spec fn token_end_1(sp: Seq<char>, d: int) -> int {
    d + idx_where(sp.skip(d), |c: char| !is_digit(c))
}

pub open spec fn next_comp_end(sp: Seq<char>, e: int) -> int {
    if e + 1 < sp.len() && sp[e] == '.' && is_digit(sp[e + 1]) {
        e + 1 + idx_where(sp.skip(e + 1), |c: char| !is_digit(c))
    } else {
        e
    }
}

/// How many `.0` paddings a token with `comps` components needs.
pub open spec fn pad_for(comps: int) -> Seq<char> {
    if comps == 1 {
        ".0.0"@
    } else if comps == 2 {
        ".0"@
    } else {
        Seq::<char>::empty()
    }
}

/// The optional prerelease suffix `-<lowercase letters><digits>` at `e`.
pub open spec fn suffix_at(sp: Seq<char>, e: int) -> Seq<char> {
    if e < sp.len() && sp[e] == '-' {
        let le = e + 1 + idx_where(sp.skip(e + 1), |c: char| !(97 <= (c as int) && (c as int) <= 122));
        if le > e + 1 {
            let de = le + idx_where(sp.skip(le), |c: char| !is_digit(c));
            if de > le {
                sp.subrange(e, de)
            } else {
                Seq::<char>::empty()
            }
        } else {
            Seq::<char>::empty()
        }
    } else {
        Seq::<char>::empty()
    }
}

/// The `min-required` version token of a specifier: the first dotted
/// numeric token padded to three components plus any prerelease suffix,
/// unless the qualifier before it is `!=` (a version to avoid is not a
/// minimum) or no digit occurs.
pub open spec fn spec_token_min(sp: Seq<char>) -> Option<Seq<char>> {
    let d = idx_where(sp, |c: char| is_digit(c));
    if d >= sp.len() {
        None
    } else {
        let qe = back_over_space(sp, d);
        let qs = back_over_qual(sp, qe, 2);
        if qe - qs == 2 && sp[qs] == '!' && sp[qs + 1] == '=' {
            None
        } else {
            let e1 = token_end_1(sp, d);
            let e2 = next_comp_end(sp, e1);
            let e3 = next_comp_end(sp, e2);
            let comps = 1 + (if e2 > e1 {
                1 as int
            } else {
                0 as int
            }) + (if e3 > e2 {
                1 as int
            } else {
                0 as int
            });
            Some(sp.subrange(d, e3) + pad_for(comps) + suffix_at(sp, e3))
        }
    }
}

/// `min_required` over the whole declaration text.
pub open spec fn spec_min_required(text: Seq<char>) -> Option<Seq<char>> {
    match spec_extract_specifier(text) {
        None => None,
        Some(sp) => spec_token_min(sp),
    }
}

fn char_is_lower(c: char) -> (r: bool)
    ensures
        r == (97 <= (c as int) && (c as int) <= 122),
{
    let u = c as u32;
    97 <= u && u <= 122
}

fn char_is_qual(c: char) -> (r: bool)
    ensures
        r == is_qual_char(c),
{
    c == '~' || c == '=' || c == '!' || c == '<' || c == '>'
}

/// The version token of one specifier string.
fn token_min(sp: &str) -> (r: Option<String>)
    ensures
        match r {
            Some(t) => spec_token_min(sp@) == Some(t@),
            None => spec_token_min(sp@) is None,
        },
{
    let n = sp.unicode_len();
    let d = find_digit_from(sp, 0);
    proof {
        lemma_idx_where_is(sp@, |c: char| is_digit(c), d as int);
    }
    if d == n {
        return None;
    }
    // walk back over spaces, then up to two qualifier characters
    let mut qe = d;
    while qe > 0 && char_is_space(sp.get_char(qe - 1))
        invariant
            0 <= qe <= d <= n,
            n == sp@.len(),
            back_over_space(sp@, d as int) == back_over_space(sp@, qe as int),
        decreases qe,
    {
        qe -= 1;
    }
    proof {
        assert(back_over_space(sp@, qe as int) == qe as int);
    }
    let mut qs = qe;
    if qs > 0 && char_is_qual(sp.get_char(qs - 1)) {
        if qs >= 2 && char_is_qual(sp.get_char(qs - 2)) {
            proof {
                assert(back_over_qual(sp@, qe as int, 2) == back_over_qual(sp@, qe - 1, 1));
                assert(back_over_qual(sp@, qe - 1, 1) == back_over_qual(sp@, qe - 2, 0));
                assert(back_over_qual(sp@, qe - 2, 0) == qe - 2);
            }
            qs -= 2;
        } else {
            proof {
                assert(back_over_qual(sp@, qe as int, 2) == back_over_qual(sp@, qe - 1, 1));
                assert(back_over_qual(sp@, qe - 1, 1) == qe - 1);
            }
            qs -= 1;
        }
    } else {
        proof {
            assert(back_over_qual(sp@, qe as int, 2) == qe as int);
        }
    }
    proof {
        assert(back_over_qual(sp@, qe as int, 2) == qs as int);
    }
    if qe - qs == 2 && sp.get_char(qs) == '!' && sp.get_char(qs + 1) == '=' {
        return None;
    }
    // the dotted numeric token
    let e1 = digit_run_end(sp, d);
    proof {
        assert forall|m: int| 0 <= m < e1 - d implies is_digit(#[trigger] sp@.skip(d as int)[m])
            by {
            assert(sp@.skip(d as int)[m] == sp@[m + d]);
        }
        if (e1 as int) < n {
            assert(sp@.skip(d as int)[e1 - d] == sp@[e1 as int]);
        }
        lemma_idx_where_is(sp@.skip(d as int), |c: char| !is_digit(c), e1 - d as int);
        assert(token_end_1(sp@, d as int) == e1 as int);
    }
    let ghost t1 = token_end_1(sp@, d as int);
    let ghost t2 = next_comp_end(sp@, t1);
    let ghost e3 = next_comp_end(sp@, t2);
    let mut comps: u64 = 1;
    let mut e = e1;
    // second component
    if e < n && n - e > 1 && sp.get_char(e) == '.' && char_is_digit(sp.get_char(e + 1)) {
        let e_next = digit_run_end(sp, e + 1);
        proof {
            assert forall|m: int|
                0 <= m < e_next - (e + 1) implies is_digit(
                #[trigger] sp@.skip(e + 1 as int)[m],
            ) by {
                assert(sp@.skip(e + 1 as int)[m] == sp@[m + e + 1]);
            }
            if (e_next as int) < n {
                assert(sp@.skip(e + 1 as int)[e_next - (e + 1)] == sp@[e_next as int]);
            }
            lemma_idx_where_is(sp@.skip(e + 1 as int), |c: char| !is_digit(c), e_next - (e + 1) as int);
            assert(t2 == e_next as int);
            assert(e_next > e);
        }
        e = e_next;
        comps = 2;
    } else {
        proof {
            assert(t2 == e as int);
        }
    }
    // third component
    if comps == 2 && e < n && n - e > 1 && sp.get_char(e) == '.' && char_is_digit(sp.get_char(e + 1)) {
        let e_next = digit_run_end(sp, e + 1);
        proof {
            assert forall|m: int|
                0 <= m < e_next - (e + 1) implies is_digit(
                #[trigger] sp@.skip(e + 1 as int)[m],
            ) by {
                assert(sp@.skip(e + 1 as int)[m] == sp@[m + e + 1]);
            }
            if (e_next as int) < n {
                assert(sp@.skip(e + 1 as int)[e_next - (e + 1)] == sp@[e_next as int]);
            }
            lemma_idx_where_is(sp@.skip(e + 1 as int), |c: char| !is_digit(c), e_next - (e + 1) as int);
            assert(e3 == e_next as int);
            assert(e_next > e);
        }
        e = e_next;
        comps = 3;
    } else {
        proof {
            if comps == 2 {
                assert(e3 == e as int);
            } else {
                assert(e3 == e as int);
            }
        }
    }
    proof {
        assert(e == e3);
        assert(comps == 1 + (if t2 > t1 { 1 as int } else { 0 as int }) + (if e3 > t2 {
            1 as int
        } else {
            0 as int
        }));
    }
    let mut out = substr_copy(sp, d, e);
    if comps == 1 {
        out.append(".0.0");
    } else if comps == 2 {
        out.append(".0");
    }
    proof {
        reveal_strlit(".0.0");
        reveal_strlit(".0");
        assert(out@ == sp@.subrange(d as int, e3) + pad_for(
            1 + (if t2 > t1 { 1 as int } else { 0 as int }) + (if e3 > t2 {
                1 as int
            } else {
                0 as int
            }),
        ));
    }
    // optional prerelease suffix
    if e < n && sp.get_char(e) == '-' {
        let mut le = e + 1;
        while le < n && char_is_lower(sp.get_char(le))
            invariant
                e + 1 <= le <= n,
                n == sp@.len(),
                forall|m: int| e + 1 <= m < le ==> 97 <= (sp@[m] as int) && (sp@[m] as int) <= 122,
            decreases n - le,
        {
            le += 1;
        }
        proof {
            let p = |c: char| !(97 <= (c as int) && (c as int) <= 122);
            assert forall|m: int|
                0 <= m < le - (e + 1) implies !p(#[trigger] sp@.skip(e + 1 as int)[m]) by {
                assert(sp@.skip(e + 1 as int)[m] == sp@[m + e + 1]);
            }
            if (le as int) < n {
                assert(sp@.skip(e + 1 as int)[le - (e + 1)] == sp@[le as int]);
            }
            lemma_idx_where_is(sp@.skip(e + 1 as int), p, le - (e + 1) as int);
        }
        if le > e + 1 {
            let de = digit_run_end(sp, le);
            proof {
                assert forall|m: int|
                    0 <= m < de - le implies is_digit(#[trigger] sp@.skip(le as int)[m]) by {
                    assert(sp@.skip(le as int)[m] == sp@[m + le]);
                }
                if (de as int) < n {
                    assert(sp@.skip(le as int)[de - le] == sp@[de as int]);
                }
                lemma_idx_where_is(sp@.skip(le as int), |c: char| !is_digit(c), de - le as int);
            }
            if de > le {
                let suf = substr_copy(sp, e, de);
                out.append(suf.as_str());
                proof {
                    assert(suffix_at(sp@, e3) == sp@.subrange(e as int, de as int));
                }
                return Some(out);
            }
        }
        proof {
            assert(suffix_at(sp@, e3) =~= Seq::<char>::empty());
            assert(out@ =~= out@ + suffix_at(sp@, e3));
        }
        return Some(out);
    }
    proof {
        assert(suffix_at(sp@, e3) =~= Seq::<char>::empty());
        assert(out@ =~= out@ + suffix_at(sp@, e3));
    }
    Some(out)
}

/// Extract the minimum version a declaration text requires, padded to
/// `major.minor.patch`; "none found" when no declaration, no numeric
/// token, or a `!=` exclusion stands there.
pub fn min_required(text: &str) -> (r: Option<String>)
    ensures
        match r {
            Some(t) => spec_min_required(text@) == Some(t@),
            None => spec_min_required(text@) is None,
        },
{
    match extract_specifier(text) {
        None => None,
        Some(sp) => token_min(sp.as_str()),
    }
}


// ---------- the latest-allowed mapping ----------

pub open spec fn is_num_or_dot(c: char) -> bool {
    is_digit(c) || c == '.'
}

/// First maximal run of digits and dots in the specifier.
pub open spec fn spec_version_num(sp: Seq<char>) -> Seq<char> {
    let v1 = idx_where(sp, |c: char| is_num_or_dot(c));
    if v1 >= sp.len() {
        Seq::<char>::empty()
    } else {
        sp.subrange(v1, v1 + idx_where(sp.skip(v1), |c: char| !is_num_or_dot(c)))
    }
}

/// Escape every dot for use inside a regular expression.
pub open spec fn escape_dots(s: Seq<char>) -> Seq<char>
    decreases s.len(),
{
    if s.len() == 0 {
        s
    } else if s[0] == '.' {
        seq!['\\', '.'] + escape_dots(s.drop_first())
    } else {
        seq![s[0]] + escape_dots(s.drop_first())
    }
}

proof fn lemma_escape_append(a: Seq<char>, b: Seq<char>)
    ensures
        escape_dots(a + b) == escape_dots(a) + escape_dots(b),
    decreases a.len(),
{
    if a.len() == 0 {
        assert(a + b =~= b);
        assert(escape_dots(a) + escape_dots(b) =~= escape_dots(b));
    } else {
        assert((a + b)[0] == a[0]);
        assert((a + b).drop_first() =~= a.drop_first() + b);
        lemma_escape_append(a.drop_first(), b);
        if a[0] == '.' {
            assert(seq!['\\', '.'] + (escape_dots(a.drop_first()) + escape_dots(b)) =~= (
            seq!['\\', '.'] + escape_dots(a.drop_first())) + escape_dots(b));
        } else {
            assert(seq![a[0]] + (escape_dots(a.drop_first()) + escape_dots(b)) =~= (seq![a[0]]
                + escape_dots(a.drop_first())) + escape_dots(b));
        }
    }
}

/// The `latest-allowed` mapping of one specifier: `>` is unconstrained
/// `latest`; `<` and `<=` pin the numeric token; `~>` drops the token's
/// rightmost component and filters `latest` by that prefix, dots escaped.
pub open spec fn spec_map_allowed(sp: Seq<char>) -> Option<Seq<char>> {
    let t = spec_trim_start(sp);
    let num = spec_version_num(sp);
    if t.len() > 0 && t[0] == '>' {
        Some("latest"@)
    } else if t.len() > 0 && t[0] == '<' {
        Some(num)
    } else if t.len() >= 2 && t[0] == '~' && t[1] == '>' {
        if last_idx_of(num, '.') >= 0 {
            Some("latest:^"@ + escape_dots(num.take(last_idx_of(num, '.'))) + seq!['\\', '.'])
        } else {
            None
        }
    } else {
        None
    }
}

/// The `latest-allowed` mapping over the whole declaration text.
pub open spec fn spec_latest_allowed(text: Seq<char>) -> Option<Seq<char>> {
    match spec_extract_specifier(text) {
        None => None,
        Some(sp) => spec_map_allowed(sp),
    }
}

fn char_is_num_or_dot(c: char) -> (r: bool)
    ensures
        r == is_num_or_dot(c),
{
    char_is_digit(c) || c == '.'
}

/// Map one specifier string as `latest-allowed` asks.
fn map_allowed(sp: &str) -> (r: Option<String>)
    ensures
        match r {
            Some(t) => spec_map_allowed(sp@) == Some(t@),
            None => spec_map_allowed(sp@) is None,
        },
{
    let n = sp.unicode_len();
    // left-trimmed view
    let mut a: usize = 0;
    while a < n && char_is_space(sp.get_char(a))
        invariant
            0 <= a <= n,
            n == sp@.len(),
            forall|m: int| 0 <= m < a ==> is_space(sp@[m]),
        decreases n - a,
    {
        a += 1;
    }
    proof {
        lemma_trim_start_skip(sp@, a as int);
    }
    let ghost t = spec_trim_start(sp@);
    // the numeric token
    let mut v1: usize = 0;
    while v1 < n && !char_is_num_or_dot(sp.get_char(v1))
        invariant
            0 <= v1 <= n,
            n == sp@.len(),
            forall|m: int| 0 <= m < v1 ==> !is_num_or_dot(sp@[m]),
        decreases n - v1,
    {
        v1 += 1;
    }
    proof {
        lemma_idx_where_is(sp@, |c: char| is_num_or_dot(c), v1 as int);
    }
    let mut v2 = v1;
    while v2 < n && char_is_num_or_dot(sp.get_char(v2))
        invariant
            v1 <= v2 <= n,
            n == sp@.len(),
            forall|m: int| v1 <= m < v2 ==> is_num_or_dot(sp@[m]),
        decreases n - v2,
    {
        v2 += 1;
    }
    let num = substr_copy(sp, v1, v2);
    proof {
        assert forall|m: int|
            0 <= m < v2 - v1 implies is_num_or_dot(#[trigger] sp@.skip(v1 as int)[m]) by {
            assert(sp@.skip(v1 as int)[m] == sp@[m + v1]);
        }
        if (v2 as int) < n {
            assert(sp@.skip(v1 as int)[v2 - v1] == sp@[v2 as int]);
        }
        lemma_idx_where_is(sp@.skip(v1 as int), |c: char| !is_num_or_dot(c), v2 - v1 as int);
        if (v1 as int) < n {
            assert(num@ == spec_version_num(sp@));
        } else {
            assert(num@ =~= spec_version_num(sp@));
        }
    }
    if a < n {
        let c0 = sp.get_char(a);
        proof {
            assert(t[0] == sp@[a as int]);
        }
        if c0 == '>' {
            return Some(String::from_str("latest"));
        }
        if c0 == '<' {
            return Some(num);
        }
        if c0 == '~' && a + 1 < n && sp.get_char(a + 1) == '>' {
            proof {
                assert(t[1] == sp@[a + 1]);
            }
            // drop the rightmost component of the numeric token
            let num_len = num.as_str().unicode_len();
            let mut ld = num_len;
            while ld > 0 && num.as_str().get_char(ld - 1) != '.'
                invariant
                    0 <= ld <= num_len,
                    num_len == num@.len(),
                    forall|m: int| ld <= m < num_len ==> num@[m] != '.',
                decreases ld,
            {
                ld -= 1;
            }
            proof {
                lemma_last_idx_of_is(num@, '.', ld - 1);
            }
            if ld == 0 {
                return None;
            }
            let mut out = String::from_str("latest:^");
            let ghost pre = num@.take(ld - 1);
            let mut i: usize = 0;
            proof {
                assert(pre.take(0) =~= Seq::<char>::empty());
                assert(out@ =~= "latest:^"@ + escape_dots(pre.take(0)));
            }
            while i < ld - 1
                invariant
                    0 <= i <= ld - 1 < num@.len(),
                    num_len == num@.len(),
                    pre == num@.take(ld - 1),
                    out@ == "latest:^"@ + escape_dots(pre.take(i as int)),
                decreases ld - 1 - i,
            {
                let c = num.as_str().get_char(i);
                if c == '.' {
                    out.append("\\.");
                } else {
                    out.append(num.as_str().substring_char(i, i + 1));
                }
                proof {
                    reveal_strlit("\\.");
                    assert(pre[i as int] == num@[i as int]);
                    assert(pre.take(i + 1) =~= pre.take(i as int) + seq![num@[i as int]]);
                    lemma_escape_append(pre.take(i as int), seq![num@[i as int]]);
                    assert(escape_dots(Seq::<char>::empty()) =~= Seq::<char>::empty());
                    assert(seq![num@[i as int]].drop_first() =~= Seq::<char>::empty());
                    assert(seq![num@[i as int]][0] == num@[i as int]);
                    if c == '.' {
                        assert(("\\.")@ =~= seq!['\\', '.']);
                        assert(escape_dots(seq![num@[i as int]]) =~= seq!['\\', '.']);
                    } else {
                        assert(num@.subrange(i as int, i + 1 as int) =~= seq![num@[i as int]]);
                        assert(escape_dots(seq![num@[i as int]]) =~= seq![num@[i as int]]);
                    }
                    assert(out@ =~= "latest:^"@ + escape_dots(pre.take(i + 1)));
                }
                i += 1;
            }
            out.append("\\.");
            proof {
                reveal_strlit("\\.");
                assert(("\\.")@ =~= seq!['\\', '.']);
                assert(pre.take(ld - 1) =~= pre);
                assert(out@ =~= "latest:^"@ + escape_dots(num@.take(ld - 1)) + seq!['\\', '.']);
            }
            return Some(out);
        }
    }
    None
}

/// The `latest-allowed` mapping of the whole declaration text, as a
/// `latest`-family requested string, an exact pin, or nothing.
pub fn latest_allowed_to_requested(text: &str) -> (r: Option<String>)
    ensures
        match r {
            Some(t) => spec_latest_allowed(text@) == Some(t@),
            None => spec_latest_allowed(text@) is None,
        },
{
    match extract_specifier(text) {
        None => None,
        Some(sp) => map_allowed(sp.as_str()),
    }
}

} // verus!
