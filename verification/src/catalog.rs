//! The remote catalog: parse a release-index document into the versions it
//! lists, descending.  The HTML itself is read by the scraper crate behind
//! one trusted wrapper; everything after the anchor targets is verified.
//!
//! Two grammars: the terraform release index links `/terraform/<version>/`,
//! and the opentofu release page links `.../opentofu/releases/tag/v<version>`.
//! Anchors that fit neither are skipped, as not every link is a version.

use vstd::prelude::*;
use crate::chars::{
    has_prefix, has_sub, lemma_sub_idx_is, lemma_sub_idx_none, occurs_at, occurs_at_exec,
    find_sub_from, str_eq_str, sub_idx, substr_copy,
};
use crate::resolve::{is_best_match, no_candidate, spec_pattern_ok, Pattern, ResolveError};
use crate::version::{
    format_version, is_version_chars, lemma_str_version_unique, parse_version, sort_versions_desc,
    sorted_desc, str_version, valid_view, version_chars, views_of, Version, VersionView,
};

verus! {

// ---------- the document's anchors (outside crate) ----------

/// The `href` targets of the anchors of an HTML document that carry one,
/// in document order.
pub uninterp spec fn doc_hrefs(html: Seq<char>) -> Seq<Seq<char>>;

/// Relies on scraper::Html::parse_document, scraper::Selector::parse and
/// scraper::ElementRef::attr: which anchors a document holds and their
/// `href` values depend on the document text alone.  Anchors without an
/// `href` are skipped.
#[verifier::external_body]
fn anchor_hrefs(html: &str) -> (r: Vec<String>)
    ensures
        r.deep_view() == doc_hrefs(html@),
{
    let doc = scraper::Html::parse_document(html);
    let sel = scraper::Selector::parse("a").unwrap();
    let mut out = Vec::new();
    for el in doc.select(&sel) {
        if let Some(h) = el.value().attr("href") {
            out.push(h.to_string());
        }
    }
    out
}

// ---------- the catalog grammar ----------

pub open spec fn tf_prefix() -> Seq<char> {
    "/terraform/"@
}

pub open spec fn tofu_tag() -> Seq<char> {
    "/opentofu/opentofu/releases/tag/v"@
}

/// Drop every trailing slash.
pub open spec fn strip_trailing_slashes(s: Seq<char>) -> Seq<char>
    decreases s.len(),
{
    if s.len() > 0 && s.last() == '/' {
        strip_trailing_slashes(s.drop_last())
    } else {
        s
    }
}

proof fn lemma_strip_slash_take(s: Seq<char>, k: int)
    requires
        0 <= k <= s.len(),
        forall|m: int| k <= m < s.len() ==> s[m] == '/',
        k > 0 ==> s[k - 1] != '/',
    ensures
        strip_trailing_slashes(s) == s.take(k),
    decreases s.len(),
{
    if s.len() > 0 && s.last() == '/' {
        assert(k < s.len());
        lemma_strip_slash_take(s.drop_last(), k);
        assert(s.drop_last().take(k) =~= s.take(k));
    } else {
        assert(k == s.len());
        assert(s.take(s.len() as int) =~= s);
    }
}

/// The version name an anchor target denotes under a product's grammar,
/// if it parses as a version once the path is stripped.
pub open spec fn href_version(href: Seq<char>, product: Seq<char>) -> Option<Seq<char>> {
    if product == "terraform"@ {
        if has_prefix(href, tf_prefix()) {
            let cand = strip_trailing_slashes(href.skip(tf_prefix().len() as int));
            if is_version_chars(cand) {
                Some(cand)
            } else {
                None
            }
        } else {
            None
        }
    } else if product == "opentofu"@ {
        if has_sub(href, tofu_tag()) {
            let cand = strip_trailing_slashes(
                href.skip(sub_idx(href, tofu_tag()) + tofu_tag().len()),
            );
            if is_version_chars(cand) {
                Some(cand)
            } else {
                None
            }
        } else {
            None
        }
    } else {
        None
    }
}

/// The version values a document's anchors denote, in document order.
pub open spec fn catalog_views(hrefs: Seq<Seq<char>>, product: Seq<char>) -> Seq<VersionView>
    decreases hrefs.len(),
{
    if hrefs.len() == 0 {
        Seq::<VersionView>::empty()
    } else {
        catalog_views(hrefs.drop_last(), product) + (match href_version(hrefs.last(), product) {
            Some(c) => seq![str_version(c)],
            None => Seq::<VersionView>::empty(),
        })
    }
}

/// The version names a document lists for a product.
pub open spec fn remote_names(html: Seq<char>, product: Seq<char>) -> Seq<Seq<char>> {
    catalog_views(doc_hrefs(html), product).map_values(|v: VersionView| version_chars(v))
}

/// First index at or after `start` of the trailing-slash run of `href`.
fn slash_run_start(href: &str, start: usize) -> (b: usize)
    requires
        start <= href@.len(),
    ensures
        start <= b <= href@.len(),
        forall|m: int| b <= m < href@.len() ==> href@[m] == '/',
        b > start ==> href@[b - 1] != '/',
{
    let n = href.unicode_len();
    let mut b = n;
    while b > start && href.get_char(b - 1) == '/'
        invariant
            start <= b <= n,
            n == href@.len(),
            forall|m: int| b <= m < n ==> href@[m] == '/',
        decreases b,
    {
        b -= 1;
    }
    b
}

/// Parse the whole catalog out of a document for one product.
fn collect_catalog(html: &str, product: &str) -> (r: Vec<Version>)
    ensures
        views_of(r@) == catalog_views(doc_hrefs(html@), product@),
        forall|i: int| 0 <= i < r@.len() ==> valid_view(#[trigger] views_of(r@)[i]),
{
    let hrefs = anchor_hrefs(html);
    let ghost hd = doc_hrefs(html@);
    let is_tf = str_eq_str(product, "terraform");
    let is_tofu = str_eq_str(product, "opentofu");
    let mut vs: Vec<Version> = Vec::new();
    let mut idx: usize = 0;
    proof {
        assert(views_of(vs@) =~= catalog_views(hd.take(0), product@));
        assert(hd.take(0) =~= Seq::<Seq<char>>::empty());
    }
    while idx < hrefs.len()
        invariant
            0 <= idx <= hrefs.len(),
            hrefs.deep_view() == hd,
            hd.len() == hrefs.len(),
            is_tf == (product@ == "terraform"@),
            is_tofu == (product@ == "opentofu"@),
            views_of(vs@) == catalog_views(hd.take(idx as int), product@),
            forall|i: int| 0 <= i < vs@.len() ==> valid_view(#[trigger] views_of(vs@)[i]),
        decreases hrefs.len() - idx,
    {
        let href = &hrefs[idx];
        proof {
            assert(hd[idx as int] == hrefs@[idx as int]@);
            assert(hd.take(idx + 1).drop_last() =~= hd.take(idx as int));
            assert(hd.take(idx + 1).last() == hd[idx as int]);
        }
        let ghost old_vs = vs@;
        let cand: Option<String> = if is_tf {
            if occurs_at_exec(href.as_str(), "/terraform/", 0) {
                let start = "/terraform/".unicode_len();
                let b = slash_run_start(href.as_str(), start);
                proof {
                    let base = href@.skip(start as int);
                    assert forall|m: int| (b - start) <= m < base.len() implies base[m] == '/' by {
                        assert(base[m] == href@[m + start]);
                    }
                    if b > start {
                        assert(base[b - start - 1] == href@[b - 1]);
                    }
                    lemma_strip_slash_take(base, b - start);
                    assert(base.take(b - start) =~= href@.subrange(start as int, b as int));
                }
                Some(substr_copy(href.as_str(), start, b))
            } else {
                None
            }
        } else if is_tofu {
            match find_sub_from(href.as_str(), "/opentofu/opentofu/releases/tag/v", 0) {
                Some(t) => {
                    proof {
                        lemma_sub_idx_is(href@, tofu_tag(), t as int);
                    }
                    let tag_len = "/opentofu/opentofu/releases/tag/v".unicode_len();
                    let hn = href.as_str().unicode_len();
                    proof {
                        assert(occurs_at(href@, tofu_tag(), t as int));
                        assert(t + tag_len <= hn);
                    }
                    let start = t + tag_len;
                    let b = slash_run_start(href.as_str(), start);
                    proof {
                        let base = href@.skip(start as int);
                        assert forall|m: int| (b - start) <= m < base.len() implies base[m] == '/'
                            by {
                            assert(base[m] == href@[m + start]);
                        }
                        if b > start {
                            assert(base[b - start - 1] == href@[b - 1]);
                        }
                        lemma_strip_slash_take(base, b - start);
                        assert(base.take(b - start) =~= href@.subrange(start as int, b as int));
                    }
                    Some(substr_copy(href.as_str(), start, b))
                },
                None => {
                    proof {
                        lemma_sub_idx_none(href@, tofu_tag());
                    }
                    None
                },
            }
        } else {
            None
        };
        match cand {
            Some(c) => {
                match parse_version(c.as_str()) {
                    Some(ver) => {
                        proof {
                            lemma_str_version_unique(c@, ver@);
                        }
                        vs.push(ver);
                        proof {
                            assert(views_of(vs@) =~= views_of(old_vs).push(ver@));
                            assert(href_version(hd[idx as int], product@) == Some(c@));
                            assert(catalog_views(hd.take(idx + 1), product@) =~= catalog_views(
                                hd.take(idx as int),
                                product@,
                            ).push(str_version(c@)));
                        }
                    },
                    None => {
                        proof {
                            assert(href_version(hd[idx as int], product@) is None);
                            assert(catalog_views(hd.take(idx + 1), product@) =~= catalog_views(
                                hd.take(idx as int),
                                product@,
                            ));
                        }
                    },
                }
            },
            None => {
                proof {
                    assert(href_version(hd[idx as int], product@) is None);
                    assert(catalog_views(hd.take(idx + 1), product@) =~= catalog_views(
                        hd.take(idx as int),
                        product@,
                    ));
                }
            },
        }
        idx += 1;
    }
    proof {
        assert(hd.take(hd.len() as int) =~= hd);
    }
    vs
}

/// Parse a release-index document into `(version, product)` pairs,
/// descending by version precedence.  The multiset of listed versions is
/// exactly what the document's anchors denote.
pub fn list_remote_versions(html: &str, product: &str) -> (r: Vec<(String, String)>)
    ensures
        ({
            let cs = catalog_views(doc_hrefs(html@), product@);
            exists|sv: Seq<VersionView>|
                {
                    &&& #[trigger] sv.to_multiset() == cs.to_multiset()
                    &&& sorted_desc(sv)
                    &&& r@.len() == sv.len()
                    &&& forall|i: int|
                        0 <= i < sv.len() ==> #[trigger] r@[i].0@ == version_chars(sv[i])
                            && r@[i].1@ == product@
                }
        }),
{
    let vs = collect_catalog(html, product);
    let sorted = sort_versions_desc(vs);
    let ghost sv = views_of(sorted@);
    let mut out: Vec<(String, String)> = Vec::new();
    let mut i: usize = 0;
    while i < sorted.len()
        invariant
            0 <= i <= sorted.len(),
            sv == views_of(sorted@),
            sv.len() == sorted.len(),
            out@.len() == i,
            forall|m: int|
                0 <= m < i ==> #[trigger] out@[m].0@ == version_chars(sv[m]) && out@[m].1@
                    == product@,
        decreases sorted.len() - i,
    {
        let name = format_version(&sorted[i]);
        out.push((name, product.to_owned()));
        i += 1;
    }
    out
}

/// The newest version in the catalog whose name matches the pattern;
/// `Err` exactly when the pattern does not compile.
pub fn latest_remote_matching(html: &str, product: &str, p: &Pattern) -> (r: Result<
    Option<String>,
    ResolveError,
>)
    ensures
        match r {
            Ok(Some(s)) => spec_pattern_ok(p@) && is_best_match(
                remote_names(html@, product@),
                p@,
                s@,
            ),
            Ok(None) => spec_pattern_ok(p@) && no_candidate(remote_names(html@, product@), p@),
            Err(e) => !spec_pattern_ok(p@) && e is InvalidRegex,
        },
{
    let vs = collect_catalog(html, product);
    let ghost names = remote_names(html@, product@);
    let mut namestrs: Vec<String> = Vec::new();
    let mut i: usize = 0;
    while i < vs.len()
        invariant
            0 <= i <= vs.len(),
            names == remote_names(html@, product@),
            names.len() == vs.len(),
            views_of(vs@) == catalog_views(doc_hrefs(html@), product@),
            namestrs@.len() == i,
            forall|m: int| 0 <= m < i ==> #[trigger] namestrs@[m]@ == names[m],
        decreases vs.len() - i,
    {
        let name = format_version(&vs[i]);
        proof {
            assert(names[i as int] == version_chars(views_of(vs@)[i as int]));
        }
        namestrs.push(name);
        i += 1;
    }
    proof {
        assert(namestrs.deep_view() =~= names);
    }
    crate::resolve::latest_local_matching(&namestrs, p)
}


/// Finish a resolution that needed the remote catalog: the newest listed
/// version matching the pattern, or the precise failure.
pub fn resolve_remote(html: &str, product: &str, p: &Pattern) -> (r: Result<String, ResolveError>)
    ensures
        match r {
            Ok(s) => spec_pattern_ok(p@) && is_best_match(remote_names(html@, product@), p@, s@),
            Err(e) => match e {
                ResolveError::NoRemoteMatch(q) => spec_pattern_ok(p@) && q@ == p@ && no_candidate(
                    remote_names(html@, product@),
                    p@,
                ),
                ResolveError::InvalidRegex(_) => !spec_pattern_ok(p@),
                _ => false,
            },
        },
{
    match latest_remote_matching(html, product, p) {
        Ok(Some(s)) => Ok(s),
        Ok(None) => Err(ResolveError::NoRemoteMatch(p.clone())),
        Err(e) => Err(e),
    }
}

} // verus!
