//! The trust chain's checksum stage: parse a published digest list, find
//! the line whose filename field is exactly the asset, and compare the
//! artifact's SHA-256 digest, case-normalized, byte for byte.
//!
//! The digest list and the detached signature are always fetched from the
//! fixed canonical release host, never from a configured mirror: a mirror
//! may serve the asset, but not the material it is checked against.

use vstd::prelude::*;
use crate::chars::{
    find_char_from, find_nonspace_from, find_space_from, idx_where, is_space, lemma_idx_of_is,
    lemma_idx_where_is, str_eq_str, substr_copy,
};
use crate::constraint::spec_lines;

verus! {

// ---------- the digest of the artifact's bytes (outside crates) ----------

/// The SHA-256 digest of a byte string, written as lowercase hex.
pub uninterp spec fn sha256_hex(data: Seq<u8>) -> Seq<char>;

/// Relies on sha2::Sha256 (through the Digest::digest one-shot) and
/// hex::encode: the digest depends on the bytes alone, and hex::encode
/// writes it as hex text.
#[verifier::external_body]
fn sha256_hex_digest(data: &Vec<u8>) -> (r: String)
    ensures
        r@ == sha256_hex(data@),
{
    hex::encode(<sha2::Sha256 as sha2::Digest>::digest(data.as_slice()))
}

// ---------- case normalization of hex digests ----------

/// Lowercase the six uppercase hex letters; every other character stays.
pub open spec fn lower_char(c: char) -> char {
    if c == 'A' {
        'a'
    } else if c == 'B' {
        'b'
    } else if c == 'C' {
        'c'
    } else if c == 'D' {
        'd'
    } else if c == 'E' {
        'e'
    } else if c == 'F' {
        'f'
    } else {
        c
    }
}

pub open spec fn lower_hex_seq(s: Seq<char>) -> Seq<char> {
    s.map_values(|c: char| lower_char(c))
}

/// Case-normalize a hex digest.
fn lower_hex(s: &str) -> (r: String)
    ensures
        r@ == lower_hex_seq(s@),
{
    let n = s.unicode_len();
    let mut out = String::new();
    let mut i: usize = 0;
    proof {
        assert(out@ =~= lower_hex_seq(s@.take(0)));
    }
    while i < n
        invariant
            0 <= i <= n,
            n == s@.len(),
            out@ == lower_hex_seq(s@.take(i as int)),
        decreases n - i,
    {
        let c = s.get_char(i);
        if c == 'A' {
            out.append("a");
        } else if c == 'B' {
            out.append("b");
        } else if c == 'C' {
            out.append("c");
        } else if c == 'D' {
            out.append("d");
        } else if c == 'E' {
            out.append("e");
        } else if c == 'F' {
            out.append("f");
        } else {
            out.append(s.substring_char(i, i + 1));
        }
        proof {
            reveal_strlit("a");
            reveal_strlit("b");
            reveal_strlit("c");
            reveal_strlit("d");
            reveal_strlit("e");
            reveal_strlit("f");
            assert(s@.subrange(i as int, i + 1 as int) =~= seq![s@[i as int]]);
            assert(out@ =~= lower_hex_seq(s@.take(i + 1)));
        }
        i += 1;
    }
    proof {
        assert(s@.take(n as int) =~= s@);
    }
    out
}

// ---------- the digest list ----------

/// The digest a list line publishes for `asset`: its first whitespace
/// field, provided its second field is exactly the asset name.
pub open spec fn line_digest_for(line: Seq<char>, asset: Seq<char>) -> Option<Seq<char>> {
    let a1 = idx_where(line, |c: char| !is_space(c));
    if a1 >= line.len() {
        None
    } else {
        let e1 = a1 + idx_where(line.skip(a1), |c: char| is_space(c));
        let a2 = e1 + idx_where(line.skip(e1), |c: char| !is_space(c));
        if a2 >= line.len() {
            None
        } else {
            let e2 = a2 + idx_where(line.skip(a2), |c: char| is_space(c));
            if line.subrange(a2, e2) == asset {
                Some(line.subrange(a1, e1))
            } else {
                None
            }
        }
    }
}

/// The digest the first matching line of the list publishes for `asset`.
pub open spec fn find_digest(lines: Seq<Seq<char>>, asset: Seq<char>) -> Option<Seq<char>>
    decreases lines.len(),
{
    if lines.len() == 0 {
        None
    } else if line_digest_for(lines[0], asset) is Some {
        line_digest_for(lines[0], asset)
    } else {
        find_digest(lines.drop_first(), asset)
    }
}

/// The digest a published list carries for `asset`, if any line does.
pub open spec fn spec_digest_for(sums: Seq<char>, asset: Seq<char>) -> Option<Seq<char>> {
    find_digest(spec_lines(sums), asset)
}

/// Read one list line's digest for `asset`.
fn line_digest(line: &str, asset: &str) -> (r: Option<String>)
    ensures
        match r {
            Some(d) => line_digest_for(line@, asset@) == Some(d@),
            None => line_digest_for(line@, asset@) is None,
        },
{
    let n = line.unicode_len();
    let a1 = find_nonspace_from(line, 0);
    proof {
        lemma_idx_where_is(line@, |c: char| !is_space(c), a1 as int);
    }
    if a1 == n {
        return None;
    }
    let e1 = find_space_from(line, a1);
    proof {
        assert forall|m: int|
            0 <= m < e1 - a1 implies !is_space(#[trigger] line@.skip(a1 as int)[m]) by {
            assert(line@.skip(a1 as int)[m] == line@[m + a1]);
        }
        if (e1 as int) < n {
            assert(line@.skip(a1 as int)[e1 - a1] == line@[e1 as int]);
        }
        lemma_idx_where_is(line@.skip(a1 as int), |c: char| is_space(c), e1 - a1 as int);
    }
    let a2 = find_nonspace_from(line, e1);
    proof {
        assert forall|m: int|
            0 <= m < a2 - e1 implies is_space(#[trigger] line@.skip(e1 as int)[m]) by {
            assert(line@.skip(e1 as int)[m] == line@[m + e1]);
        }
        if (a2 as int) < n {
            assert(line@.skip(e1 as int)[a2 - e1] == line@[a2 as int]);
        }
        lemma_idx_where_is(line@.skip(e1 as int), |c: char| !is_space(c), a2 - e1 as int);
    }
    if a2 == n {
        return None;
    }
    let e2 = find_space_from(line, a2);
    proof {
        assert forall|m: int|
            0 <= m < e2 - a2 implies !is_space(#[trigger] line@.skip(a2 as int)[m]) by {
            assert(line@.skip(a2 as int)[m] == line@[m + a2]);
        }
        if (e2 as int) < n {
            assert(line@.skip(a2 as int)[e2 - a2] == line@[e2 as int]);
        }
        lemma_idx_where_is(line@.skip(a2 as int), |c: char| is_space(c), e2 - a2 as int);
    }
    let f2 = substr_copy(line, a2, e2);
    if str_eq_str(f2.as_str(), asset) {
        Some(substr_copy(line, a1, e1))
    } else {
        None
    }
}

/// Find the digest the list publishes for `asset`: the first line whose
/// filename field matches the asset name exactly.
pub fn digest_for_asset(sums: &str, asset: &str) -> (r: Option<String>)
    ensures
        match r {
            Some(d) => spec_digest_for(sums@, asset@) == Some(d@),
            None => spec_digest_for(sums@, asset@) is None,
        },
{
    let n = sums.unicode_len();
    let mut pos: usize = 0;
    proof {
        assert(sums@.skip(0) =~= sums@);
    }
    loop
        invariant
            pos <= n,
            n == sums@.len(),
            spec_digest_for(sums@, asset@) == find_digest(
                spec_lines(sums@.skip(pos as int)),
                asset@,
            ),
        decreases n - pos,
    {
        let ghost tail = sums@.skip(pos as int);
        let e = find_char_from(sums, pos, '\n');
        proof {
            assert forall|m: int| 0 <= m < e - pos implies tail[m] != '\n' by {
                assert(tail[m] == sums@[m + pos]);
            }
            if (e as int) < n {
                assert(tail[e - pos] == sums@[e as int]);
            }
            lemma_idx_of_is(tail, '\n', e - pos as int);
        }
        let line = substr_copy(sums, pos, e);
        proof {
            assert(tail.take(e - pos as int) =~= line@);
            if (e as int) < n {
                assert(spec_lines(tail) == seq![line@] + spec_lines(tail.skip(e - pos + 1 as int)));
                assert(tail.skip(e - pos + 1 as int) =~= sums@.skip(e + 1 as int));
            } else {
                assert(tail =~= line@);
                assert(spec_lines(tail) == seq![line@]);
            }
            assert(spec_lines(tail)[0] == line@);
        }
        match line_digest(line.as_str(), asset) {
            Some(d) => {
                return Some(d);
            },
            None => {},
        }
        proof {
            if (e as int) < n {
                assert(spec_lines(tail).drop_first() =~= spec_lines(sums@.skip(e + 1 as int)));
            } else {
                assert(spec_lines(tail).drop_first() =~= Seq::<Seq<char>>::empty());
                assert(find_digest(Seq::<Seq<char>>::empty(), asset@) is None);
            }
        }
        if e == n {
            return None;
        }
        pos = e + 1;
    }
}

// ---------- checksum verification ----------

/// A trust-chain failure at the checksum stage.
#[derive(Debug)]
pub enum TrustError {
    /// The digest list has no line for the asset.
    ChecksumNotFound(String),
    /// The published digest and the computed digest differ.
    ChecksumMismatch { expected: String, actual: String },
}

/// The published digest for `asset` matches the bytes, case-normalized.
pub open spec fn checksum_ok(sums: Seq<char>, asset: Seq<char>, data: Seq<u8>) -> bool {
    match spec_digest_for(sums, asset) {
        Some(d) => lower_hex_seq(d) == sha256_hex(data),
        None => false,
    }
}

/// Verify the artifact's bytes against the published digest list.  `Ok`
/// exactly when a digest line for the asset exists and its value equals
/// the computed SHA-256 of the bytes; otherwise the precise failure.
pub fn verify_checksum(sums: &str, asset: &str, data: &Vec<u8>) -> (r: Result<(), TrustError>)
    ensures
        match r {
            Ok(()) => checksum_ok(sums@, asset@, data@),
            Err(e) => !checksum_ok(sums@, asset@, data@) && match e {
                TrustError::ChecksumNotFound(a) => spec_digest_for(sums@, asset@) is None && a@
                    == asset@,
                TrustError::ChecksumMismatch { expected, actual } => spec_digest_for(
                    sums@,
                    asset@,
                ) == Some(expected@) && actual@ == sha256_hex(data@) && lower_hex_seq(expected@)
                    != sha256_hex(data@),
            },
        },
{
    let expected = match digest_for_asset(sums, asset) {
        Some(d) => d,
        None => {
            return Err(TrustError::ChecksumNotFound(asset.to_owned()));
        },
    };
    let actual = sha256_hex_digest(data);
    let normalized = lower_hex(expected.as_str());
    if str_eq_str(normalized.as_str(), actual.as_str()) {
        Ok(())
    } else {
        Err(TrustError::ChecksumMismatch { expected, actual })
    }
}

// ---------- the canonical trust root ----------

/// The digest-list location for a terraform release: fixed canonical
/// host, never the configured mirror.
pub open spec fn spec_sums_url(version: Seq<char>) -> Seq<char> {
    "https://releases.hashicorp.com/terraform/"@ + version + "/terraform_"@ + version
        + "_SHA256SUMS"@
}

pub fn sums_url(version: &str) -> (r: String)
    ensures
        r@ == spec_sums_url(version@),
{
    let mut out = String::from_str("https://releases.hashicorp.com/terraform/");
    out.append(version);
    out.append("/terraform_");
    out.append(version);
    out.append("_SHA256SUMS");
    out
}

/// The detached-signature location beside the digest list.
pub open spec fn spec_sig_url(version: Seq<char>) -> Seq<char> {
    spec_sums_url(version) + ".sig"@
}

pub fn sig_url(version: &str) -> (r: String)
    ensures
        r@ == spec_sig_url(version@),
{
    let mut out = sums_url(version);
    out.append(".sig");
    out
}

/// Whether the optional signature stage runs: the trust variable says
/// `yes`, or the marker file stands in the tool's root directory.
pub open spec fn spec_signature_enabled(trust_var: Option<Seq<char>>, marker_exists: bool) -> bool {
    (trust_var matches Some(t) && t == "yes"@) || marker_exists
}

pub fn signature_enabled(trust_var: &Option<String>, marker_exists: bool) -> (r: bool)
    ensures
        r == spec_signature_enabled(
            match trust_var {
                Some(t) => Some(t@),
                None => None,
            },
            marker_exists,
        ),
{
    match trust_var {
        Some(t) => str_eq_str(t.as_str(), "yes") || marker_exists,
        None => marker_exists,
    }
}

} // verus!
