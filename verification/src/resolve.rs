//! The version-resolution engine: precedence of the requested string,
//! classification into a constraint, and local-before-remote `latest`
//! matching.  Network and filesystem probing stay outside; this module
//! receives the override string, file contents and the installed version
//! names, and says exactly what resolution follows from them.

use vstd::prelude::*;
use crate::chars::{
    find_char_from, has_prefix, idx_of, is_digit, lemma_idx_of_is, occurs_at_exec, spec_trim,
    str_eq_str, substr_copy, trim_copy,
};
use crate::constraint::{
    latest_allowed_to_requested, min_required, spec_latest_allowed, spec_min_required,
};
use crate::version::{
    all_digits, is_version_chars, parse_version, spec_version_lt, str_version, valid_view,
    version_chars, version_lt, lemma_str_version_unique, lemma_version_lt_trans,
    lemma_version_shape, Version, VersionView,
};

verus! {

// ---------- regular expressions (outside crate) ----------

/// Whether the regex crate compiles this pattern.
pub uninterp spec fn regex_ok(pat: Seq<char>) -> bool;

/// Whether the compiled pattern matches this text.
pub uninterp spec fn regex_accepts(pat: Seq<char>, text: Seq<char>) -> bool;

/// Relies on regex::Regex::new and regex::Regex::is_match: whether the
/// pattern compiles depends on the pattern alone, and whether it matches
/// depends on the pattern and the text alone.
#[verifier::external_body]
fn regex_is_match(pat: &str, text: &str) -> (r: Option<bool>)
    ensures
        r is Some <==> regex_ok(pat@),
        r matches Some(b) ==> b == regex_accepts(pat@, text@),
{
    match regex::Regex::new(pat) {
        Ok(re) => Some(re.is_match(text)),
        Err(_) => None,
    }
}

// ---------- patterns ----------

pub ghost enum PatternView {
    ThreePart,
    Custom(Seq<char>),
}

/// The pattern a `latest` request filters by: the default exact
/// three-component numeric match, or a user-supplied regular expression.
#[derive(Debug)]
pub enum Pattern {
    ThreePart,
    Custom(String),
}

impl View for Pattern {
    type V = PatternView;

    open spec fn view(&self) -> PatternView {
        match self {
            Pattern::ThreePart => PatternView::ThreePart,
            Pattern::Custom(p) => PatternView::Custom(p@),
        }
    }
}

impl Clone for Pattern {
    fn clone(&self) -> (r: Self)
        ensures
            r@ == self@,
    {
        match self {
            Pattern::ThreePart => Pattern::ThreePart,
            Pattern::Custom(p) => Pattern::Custom(p.clone()),
        }
    }
}

/// An exact three-component numeric version string (the default `latest`
/// filter): digits, a dot, digits, a dot, digits.
pub open spec fn is_three_part(s: Seq<char>) -> bool {
    let i = idx_of(s, '.');
    let rest = s.skip(i + 1);
    let j = idx_of(rest, '.');
    &&& 0 < i < s.len()
    &&& all_digits(s.take(i))
    &&& 0 < j < rest.len()
    &&& all_digits(rest.take(j))
    &&& rest.len() - (j + 1) > 0
    &&& all_digits(rest.skip(j + 1))
}

pub open spec fn spec_pattern_ok(p: PatternView) -> bool {
    match p {
        PatternView::ThreePart => true,
        PatternView::Custom(pat) => regex_ok(pat),
    }
}

pub open spec fn pattern_matches(p: PatternView, s: Seq<char>) -> bool {
    match p {
        PatternView::ThreePart => is_three_part(s),
        PatternView::Custom(pat) => regex_accepts(pat, s),
    }
}

/// Is every character of `s[from..to]` a digit?
fn all_digits_range(s: &str, from: usize, to: usize) -> (r: bool)
    requires
        from <= to <= s@.len(),
    ensures
        r == all_digits(s@.subrange(from as int, to as int)),
{
    let ghost seg = s@.subrange(from as int, to as int);
    let mut i = from;
    while i < to
        invariant
            from <= i <= to <= s@.len(),
            seg == s@.subrange(from as int, to as int),
            forall|m: int| 0 <= m < i - from ==> is_digit(#[trigger] seg[m]),
        decreases to - i,
    {
        let c = s.get_char(i);
        proof {
            assert(seg[i - from] == s@[i as int]);
        }
        if !crate::chars::char_is_digit(c) {
            return false;
        }
        i += 1;
    }
    true
}

/// Does `s` match the default three-component numeric pattern?
pub fn is_three_part_str(s: &str) -> (r: bool)
    ensures
        r == is_three_part(s@),
{
    let n = s.unicode_len();
    let i = find_char_from(s, 0, '.');
    proof {
        lemma_idx_of_is(s@, '.', i as int);
    }
    if i == 0 || i == n {
        return false;
    }
    let ghost rest = s@.skip(i + 1 as int);
    let j = find_char_from(s, i + 1, '.');
    proof {
        assert forall|m: int| 0 <= m < j - (i + 1) implies #[trigger] rest[m] != '.' by {
            assert(rest[m] == s@[m + i + 1]);
        }
        if (j as int) < n {
            assert(rest[j - (i + 1)] == s@[j as int]);
        }
        lemma_idx_of_is(rest, '.', j - (i + 1) as int);
    }
    if j == i + 1 || j == n || j + 1 == n {
        return false;
    }
    let d1 = all_digits_range(s, 0, i);
    let d2 = all_digits_range(s, i + 1, j);
    let d3 = all_digits_range(s, j + 1, n);
    proof {
        assert(s@.take(i as int) =~= s@.subrange(0, i as int));
        assert(rest.take(j - (i + 1)) =~= s@.subrange(i + 1 as int, j as int));
        assert(rest.skip(j - (i + 1) + 1) =~= s@.subrange(j + 1 as int, n as int));
    }
    d1 && d2 && d3
}

/// Match a string against a pattern; `None` when the pattern does not
/// compile.
fn pattern_match(p: &Pattern, s: &str) -> (r: Option<bool>)
    ensures
        r is Some <==> spec_pattern_ok(p@),
        r matches Some(b) ==> b == pattern_matches(p@, s@),
{
    match p {
        Pattern::ThreePart => Some(is_three_part_str(s)),
        Pattern::Custom(pat) => regex_is_match(pat.as_str(), s),
    }
}

/// A three-part numeric string reads as a version with no prerelease tag:
/// the default `latest` pattern never selects a prerelease.
pub proof fn lemma_three_part_no_prerelease(v: VersionView)
    requires
        valid_view(v),
        is_three_part(version_chars(v)),
    ensures
        v.pre is None,
{
    let s = version_chars(v);
    let i = idx_of(s, '.');
    let rest = s.skip(i + 1);
    let j = idx_of(rest, '.');
    crate::chars::lemma_idx_of(s, '.');
    crate::chars::lemma_idx_of(rest, '.');
    assert forall|m: int| 0 <= m < s.len() implies is_digit(#[trigger] s[m]) || s[m] == '.' by {
        if m < i {
            assert(s.take(i)[m] == s[m]);
            assert(is_digit(s.take(i)[m]));
        } else if m == i {
        } else {
            let mr = m - (i + 1);
            assert(rest[mr] == s[m]);
            if mr < j {
                assert(rest.take(j)[mr] == rest[mr]);
                assert(is_digit(rest.take(j)[mr]));
            } else if mr == j {
                crate::chars::lemma_idx_of(rest, '.');
            } else {
                assert(rest.skip(j + 1)[mr - (j + 1)] == rest[mr]);
                assert(is_digit(rest.skip(j + 1)[mr - (j + 1)]));
            }
        }
    }
    match v.pre {
        Some(p) => {
            lemma_version_shape(v);
            let a = crate::version::canon_str(v.major).len() as int;
            let b = crate::version::canon_str(v.minor).len() as int;
            let c = crate::version::canon_str(v.patch).len() as int;
            assert(s[a + 2 + b + c] == '-');
            assert(is_digit('-') || '-' == '.');
        },
        None => {},
    }
}

// ---------- local matching ----------

/// A name is a candidate when it matches the pattern and is a version.
pub open spec fn is_latest_cand(name: Seq<char>, p: PatternView) -> bool {
    pattern_matches(p, name) && is_version_chars(name)
}

/// No installed name is a candidate.
pub open spec fn no_candidate(names: Seq<Seq<char>>, p: PatternView) -> bool {
    forall|i: int| 0 <= i < names.len() ==> !is_latest_cand(#[trigger] names[i], p)
}

/// `s` is a candidate from `names` whose version no candidate exceeds.
pub open spec fn is_best_match(names: Seq<Seq<char>>, p: PatternView, s: Seq<char>) -> bool {
    &&& exists|i: int| 0 <= i < names.len() && #[trigger] names[i] == s
    &&& is_latest_cand(s, p)
    &&& forall|i: int|
        0 <= i < names.len() && is_latest_cand(#[trigger] names[i], p) ==> !spec_version_lt(
            str_version(s),
            str_version(names[i]),
        )
}

/// Errors the resolver can report; each carries what it was resolving.
#[derive(Debug)]
pub enum ResolveError {
    /// The `latest:` filter does not compile as a regular expression.
    InvalidRegex(String),
    /// `min-required` found no usable declaration.
    MinRequiredNotFound,
    /// `latest-allowed` found no mappable declaration.
    LatestAllowedNotFound,
    /// Nothing installed matches and auto-install is disabled.
    NoLocalMatch(Pattern),
    /// The remote catalog has no matching version.
    NoRemoteMatch(Pattern),
}

/// The newest installed version whose directory name matches the pattern.
/// Returns the name itself (canonical, so formatting the parsed version
/// reproduces it); `Err` exactly when the pattern does not compile.
pub fn latest_local_matching(installed: &Vec<String>, p: &Pattern) -> (r: Result<
    Option<String>,
    ResolveError,
>)
    ensures
        match r {
            Ok(Some(s)) => spec_pattern_ok(p@) && is_best_match(installed.deep_view(), p@, s@),
            Ok(None) => spec_pattern_ok(p@) && no_candidate(installed.deep_view(), p@),
            Err(e) => !spec_pattern_ok(p@) && e is InvalidRegex,
        },
{
    let ghost names = installed.deep_view();
    // compile the pattern first, as a `latest` resolution does
    match pattern_match(p, "") {
        Some(_) => {},
        None => {
            let ps = match p {
                Pattern::ThreePart => String::from_str("^[0-9]+\\.[0-9]+\\.[0-9]+$"),
                Pattern::Custom(pat) => pat.clone(),
            };
            return Err(ResolveError::InvalidRegex(ps));
        },
    }
    let mut best: Option<Version> = None;
    let ghost mut bi: int = 0;
    let mut idx: usize = 0;
    while idx < installed.len()
        invariant
            spec_pattern_ok(p@),
            0 <= idx <= installed.len(),
            names == installed.deep_view(),
            names.len() == installed.len(),
            forall|m: int| 0 <= m < names.len() ==> names[m] == installed@[m]@,
            match best {
                Some(bv) => {
                    &&& 0 <= bi < idx
                    &&& valid_view(bv@)
                    &&& names[bi] == version_chars(bv@)
                    &&& is_latest_cand(version_chars(bv@), p@)
                    &&& forall|m: int|
                        0 <= m < idx && is_latest_cand(#[trigger] names[m], p@)
                            ==> !spec_version_lt(bv@, str_version(names[m]))
                },
                None => forall|m: int| 0 <= m < idx ==> !is_latest_cand(#[trigger] names[m], p@),
            },
        decreases installed.len() - idx,
    {
        let name = &installed[idx];
        let matched = match pattern_match(p, name.as_str()) {
            Some(b) => b,
            None => {
                let ps = match p {
                    Pattern::ThreePart => String::from_str("^[0-9]+\\.[0-9]+\\.[0-9]+$"),
                    Pattern::Custom(pat) => pat.clone(),
                };
                return Err(ResolveError::InvalidRegex(ps));
            },
        };
        if matched {
            match parse_version(name.as_str()) {
                Some(ver) => {
                    proof {
                        lemma_str_version_unique(name@, ver@);
                        assert(is_latest_cand(names[idx as int], p@));
                    }
                    match &best {
                        None => {
                            proof {
                                crate::version::lemma_version_lt_irrefl(ver@);
                                bi = idx as int;
                            }
                            best = Some(ver);
                        },
                        Some(bv) => {
                            if version_lt(bv, &ver) {
                                proof {
                                    let old_bv = bv@;
                                    assert forall|m: int|
                                        0 <= m < idx + 1 && is_latest_cand(
                                            #[trigger] names[m],
                                            p@,
                                        ) implies !spec_version_lt(ver@, str_version(names[m])) by {
                                        if m < idx {
                                            if spec_version_lt(ver@, str_version(names[m])) {
                                                lemma_version_lt_trans(
                                                    old_bv,
                                                    ver@,
                                                    str_version(names[m]),
                                                );
                                            }
                                        } else {
                                            crate::version::lemma_version_lt_irrefl(ver@);
                                        }
                                    }
                                    bi = idx as int;
                                }
                                best = Some(ver);
                            } else {
                                proof {
                                    assert(str_version(names[idx as int]) == ver@);
                                }
                            }
                        },
                    }
                },
                None => {
                    proof {
                        assert(!is_latest_cand(names[idx as int], p@));
                    }
                },
            }
        } else {
            proof {
                assert(!is_latest_cand(names[idx as int], p@));
            }
        }
        idx += 1;
    }
    match best {
        Some(bv) => {
            let out = crate::version::format_version(&bv);
            proof {
                lemma_str_version_unique(out@, bv@);
                assert(names[bi] == out@);
            }
            Ok(Some(out))
        },
        None => Ok(None),
    }
}

// ---------- the requested string and its classification ----------

/// Strip leading `v` characters from a requested string.
pub open spec fn spec_strip_v(s: Seq<char>) -> Seq<char>
    decreases s.len(),
{
    if s.len() > 0 && s[0] == 'v' {
        spec_strip_v(s.drop_first())
    } else {
        s
    }
}

proof fn lemma_strip_v_skip(s: Seq<char>, k: int)
    requires
        0 <= k <= s.len(),
        forall|m: int| 0 <= m < k ==> s[m] == 'v',
        k < s.len() ==> s[k] != 'v',
    ensures
        spec_strip_v(s) == s.skip(k),
    decreases s.len(),
{
    if s.len() > 0 && s[0] == 'v' {
        assert(k >= 1);
        assert forall|m: int| 0 <= m < k - 1 implies s.drop_first()[m] == 'v' by {
            assert(s.drop_first()[m] == s[m + 1]);
        }
        lemma_strip_v_skip(s.drop_first(), k - 1);
        assert(s.drop_first().skip(k - 1) =~= s.skip(k));
    } else {
        assert(k == 0);
        assert(s.skip(0) =~= s);
    }
}

/// The pattern a `latest`-family request names: what follows the first
/// `:`, or the default three-part pattern when no `:` stands there.
pub open spec fn spec_pattern_of(req: Seq<char>) -> PatternView {
    if idx_of(req, ':') < req.len() {
        PatternView::Custom(req.skip(idx_of(req, ':') + 1))
    } else {
        PatternView::ThreePart
    }
}

/// The requested string after the `latest-allowed` mapping, if it applies.
pub open spec fn effective_req(req: Seq<char>, text: Seq<char>) -> Option<Seq<char>> {
    if req == "latest-allowed"@ {
        spec_latest_allowed(text)
    } else {
        Some(req)
    }
}

/// Outcome of a resolution step: a concrete version string, a request to
/// consult the remote catalog with a pattern, or a failure.
pub enum Resolution {
    Resolved(String),
    NeedRemote(Pattern),
    Failed(ResolveError),
}

/// `r` resolved to exactly the string `m`.
pub open spec fn resolved_to(r: Resolution, m: Seq<char>) -> bool {
    match r {
        Resolution::Resolved(s) => s@ == m,
        _ => false,
    }
}

/// `r` resolved to a best local match for `p`.
pub open spec fn resolved_best(r: Resolution, inst: Seq<Seq<char>>, p: PatternView) -> bool {
    match r {
        Resolution::Resolved(s) => is_best_match(inst, p, s@),
        _ => false,
    }
}

pub open spec fn failed_min(r: Resolution) -> bool {
    match r {
        Resolution::Failed(e) => e is MinRequiredNotFound,
        _ => false,
    }
}

pub open spec fn failed_latest_allowed(r: Resolution) -> bool {
    match r {
        Resolution::Failed(e) => e is LatestAllowedNotFound,
        _ => false,
    }
}

pub open spec fn failed_invalid_regex(r: Resolution) -> bool {
    match r {
        Resolution::Failed(e) => e is InvalidRegex,
        _ => false,
    }
}

pub open spec fn failed_no_local(r: Resolution, p: PatternView) -> bool {
    match r {
        Resolution::Failed(e) => match e {
            ResolveError::NoLocalMatch(q) => q@ == p,
            _ => false,
        },
        _ => false,
    }
}

pub open spec fn need_remote_with(r: Resolution, p: PatternView) -> bool {
    match r {
        Resolution::NeedRemote(q) => q@ == p,
        _ => false,
    }
}

/// The full contract of `resolve_requested`, shared with the precedence
/// driver: what each outcome means for the stripped requested string.
pub open spec fn resolution_ok(
    raw: Seq<char>,
    text: Seq<char>,
    inst: Seq<Seq<char>>,
    auto: bool,
    r: Resolution,
) -> bool {
    let req = spec_strip_v(raw);
    &&& (req == "min-required"@ ==> (match spec_min_required(text) {
        Some(m) => resolved_to(r, m),
        None => failed_min(r),
    }))
    &&& (req == "latest-allowed"@ && spec_latest_allowed(text) is None ==> failed_latest_allowed(r))
    &&& (match (if req == "min-required"@ {
        None
    } else {
        effective_req(req, text)
    }) {
        Some(er) => {
            if !has_prefix(er, "latest"@) {
                resolved_to(r, er)
            } else {
                let p = spec_pattern_of(er);
                &&& (!spec_pattern_ok(p) ==> failed_invalid_regex(r))
                &&& (spec_pattern_ok(p) && !no_candidate(inst, p) ==> resolved_best(r, inst, p))
                &&& (spec_pattern_ok(p) && no_candidate(inst, p) && auto ==> need_remote_with(r, p))
                &&& (spec_pattern_ok(p) && no_candidate(inst, p) && !auto ==> failed_no_local(r, p))
            }
        },
        None => true,
    })
    // local before remote: the catalog is consulted only when nothing
    // installed matches the pattern
    &&& (match r {
        Resolution::NeedRemote(q) => auto && spec_pattern_ok(q@) && no_candidate(inst, q@),
        _ => true,
    })
}

/// Resolve a requested string against the declaration text and the
/// installed versions.  Local before remote: the remote catalog is asked
/// for (`NeedRemote`) only when nothing installed matches the pattern.
pub fn resolve_requested(
    requested: &str,
    tf_text: &str,
    installed: &Vec<String>,
    auto_install: bool,
) -> (r: Resolution)
    ensures
        resolution_ok(requested@, tf_text@, installed.deep_view(), auto_install, r),
{
    let n = requested.unicode_len();
    let mut k: usize = 0;
    while k < n && requested.get_char(k) == 'v'
        invariant
            0 <= k <= n,
            n == requested@.len(),
            forall|m: int| 0 <= m < k ==> requested@[m] == 'v',
        decreases n - k,
    {
        k += 1;
    }
    proof {
        lemma_strip_v_skip(requested@, k as int);
    }
    let req = substr_copy(requested, k, n);
    proof {
        assert(req@ =~= spec_strip_v(requested@));
    }
    if str_eq_str(req.as_str(), "min-required") {
        proof {
            reveal_strlit("min-required");
            reveal_strlit("latest-allowed");
        }
        return match min_required(tf_text) {
            Some(m) => Resolution::Resolved(m),
            None => Resolution::Failed(ResolveError::MinRequiredNotFound),
        };
    }
    let er: String = if str_eq_str(req.as_str(), "latest-allowed") {
        match latest_allowed_to_requested(tf_text) {
            Some(m) => m,
            None => {
                return Resolution::Failed(ResolveError::LatestAllowedNotFound);
            },
        }
    } else {
        req
    };
    if !occurs_at_exec(er.as_str(), "latest", 0) {
        return Resolution::Resolved(er);
    }
    let en = er.as_str().unicode_len();
    let ci = find_char_from(er.as_str(), 0, ':');
    proof {
        lemma_idx_of_is(er@, ':', ci as int);
    }
    let p: Pattern = if ci < en {
        Pattern::Custom(substr_copy(er.as_str(), ci + 1, en))
    } else {
        Pattern::ThreePart
    };
    proof {
        assert(p@ == spec_pattern_of(er@));
    }
    match latest_local_matching(installed, &p) {
        Ok(Some(s)) => Resolution::Resolved(s),
        Ok(None) => {
            if auto_install {
                Resolution::NeedRemote(p)
            } else {
                Resolution::Failed(ResolveError::NoLocalMatch(p))
            }
        },
        Err(e) => Resolution::Failed(e),
    }
}

// ---------- the precedence chain ----------

/// The requested string the precedence chain picks: the override variable
/// if non-empty, else the nearest project declaration file trimmed, else
/// the user-home declaration file trimmed, else the literal `latest`.
pub open spec fn spec_pick(
    ov: Option<Seq<char>>,
    loc: Option<Seq<char>>,
    home: Option<Seq<char>>,
) -> Seq<char> {
    if ov matches Some(o) && o.len() > 0 {
        ov->0
    } else if loc matches Some(l) && spec_trim(l).len() > 0 {
        spec_trim(loc->0)
    } else if home matches Some(h) && spec_trim(h).len() > 0 {
        spec_trim(home->0)
    } else {
        "latest"@
    }
}

/// Pick the requested string by precedence.
pub fn pick_requested(
    override_var: &Option<String>,
    local_file: &Option<String>,
    home_file: &Option<String>,
) -> (r: String)
    ensures
        r@ == spec_pick(
            match override_var {
                Some(o) => Some(o@),
                None => None,
            },
            match local_file {
                Some(l) => Some(l@),
                None => None,
            },
            match home_file {
                Some(h) => Some(h@),
                None => None,
            },
        ),
{
    match override_var {
        Some(o) => {
            if o.as_str().unicode_len() > 0 {
                return o.clone();
            }
        },
        None => {},
    }
    match local_file {
        Some(l) => {
            let t = trim_copy(l.as_str());
            if t.as_str().unicode_len() > 0 {
                return t;
            }
        },
        None => {},
    }
    match home_file {
        Some(h) => {
            let t = trim_copy(h.as_str());
            if t.as_str().unicode_len() > 0 {
                return t;
            }
        },
        None => {},
    }
    String::from_str("latest")
}

/// Resolve through the whole precedence chain: override variable, project
/// declaration file, home declaration file, then `latest`.
pub fn resolve_version_name(
    override_var: &Option<String>,
    local_file: &Option<String>,
    home_file: &Option<String>,
    tf_text: &str,
    installed: &Vec<String>,
    auto_install: bool,
) -> (r: Resolution)
    ensures
        resolution_ok(
            spec_pick(
                match override_var {
                    Some(o) => Some(o@),
                    None => None,
                },
                match local_file {
                    Some(l) => Some(l@),
                    None => None,
                },
                match home_file {
                    Some(h) => Some(h@),
                    None => None,
                },
            ),
            tf_text@,
            installed.deep_view(),
            auto_install,
            r,
        ),
{
    let req = pick_requested(override_var, local_file, home_file);
    resolve_requested(req.as_str(), tf_text, installed, auto_install)
}


/// The resolver's default `latest` pattern, restricted to exact
/// three-part numeric strings, never selects a prerelease-tagged version.
pub proof fn lemma_default_pattern_no_prerelease(names: Seq<Seq<char>>, s: Seq<char>)
    requires
        is_best_match(names, PatternView::ThreePart, s),
    ensures
        crate::version::str_version(s).pre is None,
{
    crate::version::lemma_str_version(s);
    lemma_three_part_no_prerelease(crate::version::str_version(s));
}


/// The resolver's answer is determined: two best matches for the same
/// installed set and pattern are the same string.
pub proof fn lemma_best_match_unique(names: Seq<Seq<char>>, p: PatternView, s1: Seq<char>, s2: Seq<char>)
    requires
        is_best_match(names, p, s1),
        is_best_match(names, p, s2),
    ensures
        s1 == s2,
{
    let i1 = choose|i: int| 0 <= i < names.len() && #[trigger] names[i] == s1;
    let i2 = choose|i: int| 0 <= i < names.len() && #[trigger] names[i] == s2;
    assert(!spec_version_lt(str_version(s1), str_version(names[i2])));
    assert(!spec_version_lt(str_version(s2), str_version(names[i1])));
    crate::version::lemma_version_lt_connex(str_version(s1), str_version(s2));
    crate::version::lemma_str_version(s1);
    crate::version::lemma_str_version(s2);
}

// ---------- the upward declaration-file walk ----------

/// One directory of the walk from the working directory up to the
/// filesystem root, with whether it holds a `.terraform-version` file.
/// The walk itself is probed outside; the choice is made here.
pub struct VfsDir {
    pub path: String,
    pub has_version_file: bool,
}

/// The nearest per-directory declaration file: the first ancestor on the
/// walk that has one wins.
pub fn find_local_version_file(walk: &Vec<VfsDir>) -> (r: Option<String>)
    ensures
        match r {
            Some(s) => exists|i: int|
                0 <= i < walk@.len() && (#[trigger] walk@[i]).has_version_file && (forall|m: int|
                    0 <= m < i ==> !walk@[m].has_version_file) && s@ == walk@[i].path@
                    + "/.terraform-version"@,
            None => forall|i: int| 0 <= i < walk@.len() ==> !(#[trigger] walk@[i]).has_version_file,
        },
{
    let mut i: usize = 0;
    while i < walk.len()
        invariant
            0 <= i <= walk.len(),
            forall|m: int| 0 <= m < i ==> !(#[trigger] walk@[m]).has_version_file,
        decreases walk.len() - i,
    {
        if walk[i].has_version_file {
            let mut out = walk[i].path.clone();
            out.append("/.terraform-version");
            return Some(out);
        }
        i += 1;
    }
    None
}

} // verus!
