//! Semantic versions: the data model, parsing from free-form strings,
//! canonical formatting, and the round-trip and injectivity laws.
//!
//! A version string is `major.minor.patch` in canonical decimal (no leading
//! zeros), optionally followed by `-` and a prerelease tag made of ASCII
//! letters, digits, `-` and non-adjacent inner dots.  Parse failure is a
//! recoverable "not a version" signal.

use vstd::multiset::Multiset;
use vstd::prelude::*;
use crate::chars::{
    char_is_digit, digit_char, digit_val, find_char_from, idx_of, is_digit, lemma_digit_char_val,
    lemma_digit_val_char, lemma_idx_of_is, substr_copy,
};

verus! {

// ---------- canonical decimal numbers ----------

pub open spec fn all_digits(s: Seq<char>) -> bool {
    forall|i: int| 0 <= i < s.len() ==> is_digit(#[trigger] s[i])
}

/// Value of a digit string read in base ten.
pub open spec fn dec_value(s: Seq<char>) -> nat
    decreases s.len(),
{
    if s.len() == 0 {
        0
    } else {
        dec_value(s.drop_last()) * 10 + digit_val(s.last())
    }
}

/// A canonical decimal numeral: non-empty, digits only, no leading zero.
pub open spec fn is_canon_num(s: Seq<char>) -> bool {
    s.len() > 0 && all_digits(s) && (s.len() > 1 ==> s[0] != '0')
}

/// The canonical decimal numeral of `n`.
pub open spec fn canon_str(n: nat) -> Seq<char>
    decreases n,
{
    if n < 10 {
        seq![digit_char(n)]
    } else {
        canon_str(n / 10).push(digit_char(n % 10))
    }
}

pub open spec fn pow10(k: nat) -> nat
    decreases k,
{
    if k == 0 {
        1
    } else {
        10 * pow10((k - 1) as nat)
    }
}

pub proof fn lemma_pow10_pos(k: nat)
    ensures
        pow10(k) >= 1,
    decreases k,
{
    if k > 0 {
        lemma_pow10_pos((k - 1) as nat);
    }
}

/// `canon_str(n)` is a canonical numeral whose value is `n`, and its first
/// digit is not `0` unless `n` is `0`.
pub proof fn lemma_canon_str(n: nat)
    ensures
        is_canon_num(canon_str(n)),
        dec_value(canon_str(n)) == n,
        n >= 1 ==> canon_str(n)[0] != '0',
    decreases n,
{
    if n < 10 {
        lemma_digit_val_char(n);
        assert(canon_str(n).drop_last() =~= Seq::<char>::empty());
        assert(dec_value(Seq::<char>::empty()) == 0);
        assert(canon_str(n).last() == digit_char(n));
        assert(dec_value(canon_str(n)) == dec_value(canon_str(n).drop_last()) * 10 + digit_val(
            canon_str(n).last(),
        ));
    } else {
        lemma_canon_str(n / 10);
        lemma_digit_val_char(n % 10);
        let t = canon_str(n / 10);
        let c = canon_str(n);
        assert(c =~= t.push(digit_char(n % 10)));
        assert(c.drop_last() =~= t);
        assert forall|i: int| 0 <= i < c.len() implies is_digit(#[trigger] c[i]) by {
            if i < t.len() {
                assert(c[i] == t[i]);
            }
        }
        assert(dec_value(c) == (n / 10) * 10 + n % 10);
        assert((n / 10) * 10 + n % 10 == n) by (nonlinear_arith);
        assert(c[0] == t[0]);
    }
}

/// A digit string with a non-zero first digit has value at least one,
/// and at least ten if it is longer than one digit.
pub proof fn lemma_nonzero_first(s: Seq<char>)
    requires
        all_digits(s),
        s.len() >= 1,
        s[0] != '0',
    ensures
        dec_value(s) >= 1,
        s.len() >= 2 ==> dec_value(s) >= 10,
    decreases s.len(),
{
    if s.len() == 1 {
        assert(is_digit(s[0]));
        lemma_digit_char_val(s[0]);
        assert(digit_val(s[0]) >= 1) by {
            if digit_val(s[0]) == 0 {
                assert(digit_char(digit_val(s[0])) == '0');
            }
        }
    } else {
        let t = s.drop_last();
        assert forall|i: int| 0 <= i < t.len() implies is_digit(#[trigger] t[i]) by {
            assert(t[i] == s[i]);
        }
        assert(t[0] == s[0]);
        lemma_nonzero_first(t);
    }
}

/// Reading a digit string is splittable: the value of `t + w` is the value
/// of `t` scaled past `w` plus the value of `w`.
pub proof fn lemma_dec_value_append(t: Seq<char>, w: Seq<char>)
    ensures
        dec_value(t + w) == dec_value(t) * pow10(w.len()) + dec_value(w),
    decreases w.len(),
{
    if w.len() == 0 {
        assert(t + w =~= t);
        assert(pow10(0) == 1);
        assert(dec_value(w) == 0);
        assert(dec_value(t) * 1 == dec_value(t)) by (nonlinear_arith);
    } else {
        lemma_dec_value_append(t, w.drop_last());
        assert((t + w).drop_last() =~= t + w.drop_last());
        assert((t + w).last() == w.last());
        let a = dec_value(t);
        let p = pow10((w.len() - 1) as nat);
        assert(pow10(w.len()) == 10 * p);
        assert(dec_value(t + w) == dec_value(t + w.drop_last()) * 10 + digit_val(w.last()));
        assert(dec_value(t + w.drop_last()) == a * p + dec_value(w.drop_last()));
        assert(dec_value(w) == dec_value(w.drop_last()) * 10 + digit_val(w.last()));
        assert((a * p + dec_value(w.drop_last())) * 10 + digit_val(w.last()) == a * (10 * p)
            + (dec_value(w.drop_last()) * 10 + digit_val(w.last()))) by (nonlinear_arith);
        assert(dec_value(t + w) == a * pow10(w.len()) + dec_value(w));
    }
}

/// Canonical numerals are unique: a canonical digit string is the canonical
/// numeral of its own value.
pub proof fn lemma_canon_roundtrip(s: Seq<char>)
    requires
        is_canon_num(s),
    ensures
        canon_str(dec_value(s)) == s,
    decreases s.len(),
{
    if s.len() == 1 {
        lemma_digit_char_val(s[0]);
        assert(s.drop_last() =~= Seq::<char>::empty());
        assert(dec_value(Seq::<char>::empty()) == 0);
        assert(s.last() == s[0]);
        assert(dec_value(s) == digit_val(s[0]));
        assert(canon_str(dec_value(s)) =~= s);
    } else {
        let t = s.drop_last();
        let d = digit_val(s.last());
        assert forall|i: int| 0 <= i < t.len() implies is_digit(#[trigger] t[i]) by {
            assert(t[i] == s[i]);
        }
        assert(t[0] == s[0]);
        lemma_nonzero_first(t);
        lemma_canon_roundtrip(t);
        lemma_digit_char_val(s.last());
        let v = dec_value(s);
        assert(v == dec_value(t) * 10 + d);
        assert(v >= 10 && v / 10 == dec_value(t) && v % 10 == d) by (nonlinear_arith)
            requires
                v == dec_value(t) * 10 + d,
                dec_value(t) >= 1,
                d < 10,
        ;
        assert(canon_str(v) == canon_str(dec_value(t)).push(digit_char(d)));
        assert(canon_str(v) =~= s);
    }
}

/// Parse `s[from..to]` as a canonical decimal numeral fitting in `u64`.
pub fn parse_num_seg(s: &str, from: usize, to: usize) -> (r: Option<u64>)
    requires
        from <= to <= s@.len(),
    ensures
        ({
            let seg = s@.subrange(from as int, to as int);
            match r {
                Some(k) => is_canon_num(seg) && k as nat == dec_value(seg),
                None => !(is_canon_num(seg) && dec_value(seg) <= u64::MAX),
            }
        }),
{
    let ghost seg = s@.subrange(from as int, to as int);
    if from == to {
        return None;
    }
    if to - from > 1 && s.get_char(from) == '0' {
        assert(seg[0] == '0');
        return None;
    }
    let mut acc: u64 = 0;
    let mut i = from;
    while i < to
        invariant
            from <= i <= to <= s@.len(),
            seg == s@.subrange(from as int, to as int),
            seg.len() == to - from,
            acc as nat == dec_value(seg.take(i - from)),
            all_digits(seg.take(i - from)),
        decreases to - i,
    {
        let c = s.get_char(i);
        proof {
            assert(seg[i - from] == s@[i as int]);
        }
        if !char_is_digit(c) {
            assert(!all_digits(seg));
            return None;
        }
        let d: u64 = (c as u32 - 48) as u64;
        proof {
            lemma_digit_char_val(c);
            assert(d as nat == digit_val(c));
        }
        let ghost pref = seg.take(i - from);
        if acc > (u64::MAX - d) / 10 {
            proof {
                let m = u64::MAX as nat;
                assert(acc * 10 + d > m) by (nonlinear_arith)
                    requires
                        acc > (m - d) / 10,
                        d < 10,
                        acc >= 0,
                        m >= d,
                ;
                assert(seg.take(i + 1 - from).drop_last() =~= pref);
                assert(seg.take(i + 1 - from).last() == seg[i - from]);
                assert(dec_value(seg.take(i + 1 - from)) == acc * 10 + d);
                assert(seg =~= seg.take(i + 1 - from) + seg.skip(i + 1 - from));
                lemma_dec_value_append(seg.take(i + 1 - from), seg.skip(i + 1 - from));
                lemma_pow10_pos(seg.skip(i + 1 - from).len() as nat);
                assert(dec_value(seg) >= dec_value(seg.take(i + 1 - from)) * 1) by (nonlinear_arith)
                    requires
                        dec_value(seg) == dec_value(seg.take(i + 1 - from)) * pow10(
                            seg.skip(i + 1 - from).len() as nat,
                        ) + dec_value(seg.skip(i + 1 - from)),
                        pow10(seg.skip(i + 1 - from).len() as nat) >= 1,
                ;
            }
            return None;
        }
        proof {
            let m = u64::MAX as nat;
            assert(acc * 10 + d <= m) by (nonlinear_arith)
                requires
                    acc <= (m - d) / 10,
                    d < 10,
                    acc >= 0,
                    m >= d,
            ;
        }
        acc = acc * 10 + d;
        proof {
            assert(seg.take(i + 1 - from).drop_last() =~= seg.take(i - from));
            assert(seg.take(i + 1 - from).last() == seg[i - from]);
            assert forall|m: int| 0 <= m < i + 1 - from implies is_digit(
                #[trigger] seg.take(i + 1 - from)[m],
            ) by {
                assert(seg.take(i + 1 - from)[m] == seg[m]);
                if m < i - from {
                    assert(seg.take(i - from)[m] == seg[m]);
                }
            }
        }
        i += 1;
    }
    proof {
        assert(seg.take(to - from) =~= seg);
    }
    Some(acc)
}

// ---------- digit and number formatting ----------

fn digit_str(d: u64) -> (r: &'static str)
    requires
        d < 10,
    ensures
        r@ == seq![digit_char(d as nat)],
{
    proof {
        reveal_strlit("0");
        reveal_strlit("1");
        reveal_strlit("2");
        reveal_strlit("3");
        reveal_strlit("4");
        reveal_strlit("5");
        reveal_strlit("6");
        reveal_strlit("7");
        reveal_strlit("8");
        reveal_strlit("9");
    }
    if d == 0 {
        proof {
            assert(("0")@ =~= seq![digit_char(0)]);
        }
        "0"
    } else if d == 1 {
        proof {
            assert(("1")@ =~= seq![digit_char(1)]);
        }
        "1"
    } else if d == 2 {
        proof {
            assert(("2")@ =~= seq![digit_char(2)]);
        }
        "2"
    } else if d == 3 {
        proof {
            assert(("3")@ =~= seq![digit_char(3)]);
        }
        "3"
    } else if d == 4 {
        proof {
            assert(("4")@ =~= seq![digit_char(4)]);
        }
        "4"
    } else if d == 5 {
        proof {
            assert(("5")@ =~= seq![digit_char(5)]);
        }
        "5"
    } else if d == 6 {
        proof {
            assert(("6")@ =~= seq![digit_char(6)]);
        }
        "6"
    } else if d == 7 {
        proof {
            assert(("7")@ =~= seq![digit_char(7)]);
        }
        "7"
    } else if d == 8 {
        proof {
            assert(("8")@ =~= seq![digit_char(8)]);
        }
        "8"
    } else {
        proof {
            assert(("9")@ =~= seq![digit_char(9)]);
        }
        "9"
    }
}

/// Canonical decimal rendering of a `u64`.
pub fn u64_to_string(x: u64) -> (r: String)
    ensures
        r@ == canon_str(x as nat),
    decreases x,
{
    if x < 10 {
        String::from_str(digit_str(x))
    } else {
        let mut out = u64_to_string(x / 10);
        out.append(digit_str(x % 10));
        proof {
            assert(canon_str((x / 10) as nat) + seq![digit_char((x % 10) as nat)] =~= canon_str(
                (x / 10) as nat,
            ).push(digit_char((x % 10) as nat)));
        }
        out
    }
}

// ---------- the version type ----------

pub ghost struct VersionView {
    pub major: nat,
    pub minor: nat,
    pub patch: nat,
    pub pre: Option<Seq<char>>,
}

/// A semantic version; `pre` is the prerelease tag without its leading `-`.
pub struct Version {
    pub major: u64,
    pub minor: u64,
    pub patch: u64,
    pub pre: Option<String>,
}

impl View for Version {
    type V = VersionView;

    open spec fn view(&self) -> VersionView {
        VersionView {
            major: self.major as nat,
            minor: self.minor as nat,
            patch: self.patch as nat,
            pre: match self.pre {
                Some(p) => Some(p@),
                None => None,
            },
        }
    }
}

impl Clone for Version {
    fn clone(&self) -> (r: Self)
        ensures
            r@ == self@,
    {
        Version {
            major: self.major,
            minor: self.minor,
            patch: self.patch,
            pre: match &self.pre {
                Some(p) => Some(p.clone()),
                None => None,
            },
        }
    }
}

/// A character allowed inside a prerelease tag.
pub open spec fn is_pre_char(c: char) -> bool {
    is_digit(c) || (97 <= (c as int) && (c as int) <= 122) || (65 <= (c as int) && (c as int)
        <= 90) || c == '-' || c == '.'
}

/// A well-formed prerelease tag: non-empty, allowed characters, and dots
/// only strictly inside with no two adjacent.
pub open spec fn is_valid_pre(s: Seq<char>) -> bool {
    &&& s.len() > 0
    &&& forall|i: int| 0 <= i < s.len() ==> is_pre_char(#[trigger] s[i])
    &&& s[0] != '.'
    &&& s[s.len() - 1] != '.'
    &&& forall|i: int| 0 <= i < s.len() - 1 ==> !(#[trigger] s[i] == '.' && s[i + 1] == '.')
}

pub open spec fn valid_view(v: VersionView) -> bool {
    &&& v.major <= u64::MAX as nat
    &&& v.minor <= u64::MAX as nat
    &&& v.patch <= u64::MAX as nat
    &&& match v.pre {
        Some(p) => is_valid_pre(p),
        None => true,
    }
}

/// The canonical string of a version value.
pub open spec fn version_chars(v: VersionView) -> Seq<char> {
    canon_str(v.major) + seq!['.'] + canon_str(v.minor) + seq!['.'] + canon_str(v.patch) + match v
        .pre {
        Some(p) => seq!['-'] + p,
        None => Seq::<char>::empty(),
    }
}

/// `s` is the canonical string of some version value.
pub open spec fn is_version_chars(s: Seq<char>) -> bool {
    exists|v: VersionView| valid_view(v) && version_chars(v) == s
}

/// Where the dots, the dash and the segments of a version string stand.
pub proof fn lemma_version_shape(v: VersionView)
    requires
        valid_view(v),
    ensures
        ({
            let s = version_chars(v);
            let a = canon_str(v.major).len() as int;
            let b = canon_str(v.minor).len() as int;
            let c = canon_str(v.patch).len() as int;
            &&& s.len() == a + 1 + b + 1 + c + (match v.pre {
                Some(p) => 1 + p.len() as int,
                None => 0,
            })
            &&& s.subrange(0, a) == canon_str(v.major)
            &&& s[a] == '.'
            &&& s.subrange(a + 1, a + 1 + b) == canon_str(v.minor)
            &&& s[a + 1 + b] == '.'
            &&& s.subrange(a + 2 + b, a + 2 + b + c) == canon_str(v.patch)
            &&& match v.pre {
                Some(p) => s[a + 2 + b + c] == '-' && s.subrange(a + 3 + b + c, s.len() as int)
                    == p,
                None => true,
            }
            &&& idx_of(s, '.') == a
            &&& idx_of(s.skip(a + 1), '.') == b
            &&& match v.pre {
                Some(p) => idx_of(s.skip(a + 2 + b), '-') == c,
                None => idx_of(s.skip(a + 2 + b), '-') == s.len() - (a + 2 + b),
            }
        }),
{
    let s = version_chars(v);
    let ca = canon_str(v.major);
    let cb = canon_str(v.minor);
    let cc = canon_str(v.patch);
    let a = ca.len() as int;
    let b = cb.len() as int;
    let c = cc.len() as int;
    lemma_canon_str(v.major);
    lemma_canon_str(v.minor);
    lemma_canon_str(v.patch);
    assert(s.subrange(0, a) =~= ca);
    assert(s.subrange(a + 1, a + 1 + b) =~= cb);
    assert(s.subrange(a + 2 + b, a + 2 + b + c) =~= cc);
    assert(s[a] == '.');
    assert(s[a + 1 + b] == '.');
    match v.pre {
        Some(p) => {
            assert(s[a + 2 + b + c] == '-');
            assert(s.subrange(a + 3 + b + c, s.len() as int) =~= p);
        },
        None => {},
    }
    // first dot
    assert forall|m: int| 0 <= m < a implies s[m] != '.' by {
        assert(s[m] == ca[m]);
        assert(is_digit(ca[m]));
    }
    lemma_idx_of_is(s, '.', a);
    // second dot
    let t = s.skip(a + 1);
    assert forall|m: int| 0 <= m < b implies t[m] != '.' by {
        assert(t[m] == s[a + 1 + m]);
        assert(s[a + 1 + m] == cb[m]);
        assert(is_digit(cb[m]));
    }
    assert(t[b] == s[a + 1 + b]);
    lemma_idx_of_is(t, '.', b);
    // dash after the patch segment
    let u = s.skip(a + 2 + b);
    assert forall|m: int| 0 <= m < c implies u[m] != '-' by {
        assert(u[m] == s[a + 2 + b + m]);
        assert(s[a + 2 + b + m] == cc[m]);
        assert(is_digit(cc[m]));
    }
    match v.pre {
        Some(p) => {
            assert(u[c] == s[a + 2 + b + c]);
            lemma_idx_of_is(u, '-', c);
        },
        None => {
            assert(u.len() == c);
            lemma_idx_of_is(u, '-', c);
        },
    }
}

/// A version string has exactly one reading.
pub proof fn lemma_version_chars_injective(v1: VersionView, v2: VersionView)
    requires
        valid_view(v1),
        valid_view(v2),
        version_chars(v1) == version_chars(v2),
    ensures
        v1 == v2,
{
    let s = version_chars(v1);
    lemma_version_shape(v1);
    lemma_version_shape(v2);
    let a = canon_str(v1.major).len() as int;
    let b = canon_str(v1.minor).len() as int;
    let c = canon_str(v1.patch).len() as int;
    assert(canon_str(v2.major).len() as int == a);
    assert(canon_str(v2.minor).len() as int == b);
    assert(canon_str(v1.major) == canon_str(v2.major));
    lemma_canon_str(v1.major);
    lemma_canon_str(v2.major);
    assert(v1.major == v2.major);
    assert(canon_str(v1.minor) == canon_str(v2.minor));
    lemma_canon_str(v1.minor);
    lemma_canon_str(v2.minor);
    assert(v1.minor == v2.minor);
    // the dash position distinguishes a prerelease from none
    match v1.pre {
        Some(p1) => {
            match v2.pre {
                Some(p2) => {
                    assert(canon_str(v1.patch).len() as int == canon_str(v2.patch).len() as int);
                    assert(canon_str(v1.patch) == canon_str(v2.patch));
                    lemma_canon_str(v1.patch);
                    lemma_canon_str(v2.patch);
                    assert(p1 == p2);
                },
                None => {
                    assert(idx_of(s.skip(a + 2 + b), '-') == c);
                    assert(idx_of(s.skip(a + 2 + b), '-') == s.len() - (a + 2 + b));
                    assert(s.len() == a + 2 + b + c + 1 + p1.len());
                },
            }
        },
        None => {
            match v2.pre {
                Some(p2) => {
                    assert(idx_of(s.skip(a + 2 + b), '-') == s.len() - (a + 2 + b));
                    assert(idx_of(s.skip(a + 2 + b), '-') == canon_str(v2.patch).len() as int);
                    assert(s.len() == a + 2 + b + canon_str(v2.patch).len() + 1 + p2.len());
                },
                None => {
                    assert(canon_str(v1.patch).len() as int == canon_str(v2.patch).len() as int);
                    assert(canon_str(v1.patch) == canon_str(v2.patch));
                    lemma_canon_str(v1.patch);
                    lemma_canon_str(v2.patch);
                },
            }
        },
    }
}

fn char_is_pre(c: char) -> (r: bool)
    ensures
        r == is_pre_char(c),
{
    let u = c as u32;
    char_is_digit(c) || (97 <= u && u <= 122) || (65 <= u && u <= 90) || c == '-' || c == '.'
}

/// Is `s[from..to]` a well-formed prerelease tag?
fn check_pre_range(s: &str, from: usize, to: usize) -> (r: bool)
    requires
        from <= to <= s@.len(),
    ensures
        r == is_valid_pre(s@.subrange(from as int, to as int)),
{
    let ghost seg = s@.subrange(from as int, to as int);
    if from == to {
        return false;
    }
    if s.get_char(from) == '.' {
        assert(seg[0] == '.');
        return false;
    }
    if s.get_char(to - 1) == '.' {
        assert(seg[seg.len() - 1] == '.');
        return false;
    }
    let mut i = from;
    while i < to
        invariant
            from <= i <= to <= s@.len(),
            seg == s@.subrange(from as int, to as int),
            forall|m: int| 0 <= m < i - from ==> is_pre_char(#[trigger] seg[m]),
            forall|m: int|
                0 <= m < i - from - 1 ==> !(#[trigger] seg[m] == '.' && seg[m + 1] == '.'),
            i > from ==> !(seg[i - from - 1] == '.' && i < to && s@[i as int] == '.'),
            seg[0] != '.',
            seg[seg.len() - 1] != '.',
        decreases to - i,
    {
        let c = s.get_char(i);
        proof {
            assert(seg[i - from] == s@[i as int]);
        }
        if !char_is_pre(c) {
            return false;
        }
        if c == '.' && i + 1 < to && s.get_char(i + 1) == '.' {
            proof {
                assert(seg[i - from] == '.' && seg[i + 1 - from] == '.');
            }
            return false;
        }
        i += 1;
    }
    true
}

/// Parse a free-form string as a semantic version.  Returns `Some` exactly
/// when the string is the canonical form of a version value, and then the
/// returned value reads back as the input (round trip).
#[verifier::rlimit(100)]
pub fn parse_version(s: &str) -> (r: Option<Version>)
    ensures
        match r {
            Some(ver) => valid_view(ver@) && version_chars(ver@) == s@,
            None => !is_version_chars(s@),
        },
{
    let n = s.unicode_len();
    let i = find_char_from(s, 0, '.');
    proof {
        lemma_idx_of_is(s@, '.', i as int);
    }
    if i == n {
        proof {
            if is_version_chars(s@) {
                let v = choose|v: VersionView| valid_view(v) && version_chars(v) == s@;
                lemma_version_shape(v);
            }
        }
        return None;
    }
    let j = find_char_from(s, i + 1, '.');
    proof {
        assert forall|m: int| 0 <= m < j - (i + 1) implies #[trigger] s@.skip(i + 1 as int)[m] != '.' by {
            assert(s@.skip(i + 1 as int)[m] == s@[m + i + 1]);
        }
        if (j as int) < n {
            assert(s@.skip(i + 1 as int)[j - (i + 1)] == s@[j as int]);
        }
        lemma_idx_of_is(s@.skip(i + 1 as int), '.', j - (i + 1) as int);
    }
    if j == n {
        proof {
            if is_version_chars(s@) {
                let v = choose|v: VersionView| valid_view(v) && version_chars(v) == s@;
                lemma_version_shape(v);
            }
        }
        return None;
    }
    let k = find_char_from(s, j + 1, '-');
    proof {
        assert forall|m: int| 0 <= m < k - (j + 1) implies #[trigger] s@.skip(j + 1 as int)[m] != '-' by {
            assert(s@.skip(j + 1 as int)[m] == s@[m + j + 1]);
        }
        if (k as int) < n {
            assert(s@.skip(j + 1 as int)[k - (j + 1)] == s@[k as int]);
        }
        lemma_idx_of_is(s@.skip(j + 1 as int), '-', k - (j + 1) as int);
    }
    let maj = match parse_num_seg(s, 0, i) {
        Some(x) => x,
        None => {
            proof {
                if is_version_chars(s@) {
                    let v = choose|v: VersionView| valid_view(v) && version_chars(v) == s@;
                    lemma_version_shape(v);
                    lemma_canon_str(v.major);
                }
            }
            return None;
        },
    };
    let min = match parse_num_seg(s, i + 1, j) {
        Some(x) => x,
        None => {
            proof {
                if is_version_chars(s@) {
                    let v = choose|v: VersionView| valid_view(v) && version_chars(v) == s@;
                    lemma_version_shape(v);
                    lemma_canon_str(v.minor);
                }
            }
            return None;
        },
    };
    let pat = match parse_num_seg(s, j + 1, k) {
        Some(x) => x,
        None => {
            proof {
                if is_version_chars(s@) {
                    let v = choose|v: VersionView| valid_view(v) && version_chars(v) == s@;
                    lemma_version_shape(v);
                    lemma_canon_str(v.patch);
                }
            }
            return None;
        },
    };
    let pre: Option<String> = if k < n {
        if !check_pre_range(s, k + 1, n) {
            proof {
                if is_version_chars(s@) {
                    let v = choose|v: VersionView| valid_view(v) && version_chars(v) == s@;
                    lemma_version_shape(v);
                }
            }
            return None;
        }
        Some(substr_copy(s, k + 1, n))
    } else {
        None
    };
    let ver = Version { major: maj, minor: min, patch: pat, pre };
    proof {
        lemma_canon_roundtrip(s@.subrange(0, i as int));
        lemma_canon_roundtrip(s@.subrange(i + 1 as int, j as int));
        lemma_canon_roundtrip(s@.subrange(j + 1 as int, k as int));
        assert(version_chars(ver@) =~= s@);
    }
    Some(ver)
}

/// Canonical rendering of a version value; the inverse of `parse_version`.
pub fn format_version(v: &Version) -> (r: String)
    ensures
        r@ == version_chars(v@),
{
    proof {
        reveal_strlit(".");
        reveal_strlit("-");
    }
    let mut out = u64_to_string(v.major);
    out.append(".");
    let mid = u64_to_string(v.minor);
    out.append(mid.as_str());
    out.append(".");
    let pa = u64_to_string(v.patch);
    out.append(pa.as_str());
    match &v.pre {
        Some(p) => {
            out.append("-");
            out.append(p.as_str());
        },
        None => {},
    }
    proof {
        assert((".")@ =~= seq!['.']);
        assert(("-")@ =~= seq!['-']);
        assert(out@ =~= version_chars(v@));
    }
    out
}

// ---------- the denoted version of a canonical string ----------

/// The version value a canonical version string denotes (meaningful only
/// when `is_version_chars(s)` holds).
pub open spec fn str_version(s: Seq<char>) -> VersionView {
    choose|v: VersionView| valid_view(v) && version_chars(v) == s
}

pub proof fn lemma_str_version(s: Seq<char>)
    requires
        is_version_chars(s),
    ensures
        valid_view(str_version(s)),
        version_chars(str_version(s)) == s,
{
}

/// Any valid reading of a version string is `str_version` of it.
pub proof fn lemma_str_version_unique(s: Seq<char>, v: VersionView)
    requires
        valid_view(v),
        version_chars(v) == s,
    ensures
        str_version(s) == v,
{
    assert(is_version_chars(s));
    lemma_str_version(s);
    lemma_version_chars_injective(str_version(s), v);
}

// ---------- ordering ----------

/// Strict lexicographic order on character sequences, by code point.
pub open spec fn lex_lt(a: Seq<char>, b: Seq<char>) -> bool
    decreases a.len(),
{
    if b.len() == 0 {
        false
    } else if a.len() == 0 {
        true
    } else if (a[0] as int) < (b[0] as int) {
        true
    } else if (b[0] as int) < (a[0] as int) {
        false
    } else {
        lex_lt(a.drop_first(), b.drop_first())
    }
}

/// Order on prerelease tags: any prerelease sorts below no prerelease,
/// and two prereleases compare lexicographically.
pub open spec fn pre_lt(a: Option<Seq<char>>, b: Option<Seq<char>>) -> bool {
    match (a, b) {
        (Some(x), Some(y)) => lex_lt(x, y),
        (Some(x), None) => true,
        _ => false,
    }
}

/// Strict version precedence: numeric on major, minor, patch; a
/// prerelease-tagged version sorts below its corresponding release.
pub open spec fn spec_version_lt(a: VersionView, b: VersionView) -> bool {
    ||| a.major < b.major
    ||| (a.major == b.major && a.minor < b.minor)
    ||| (a.major == b.major && a.minor == b.minor && a.patch < b.patch)
    ||| (a.major == b.major && a.minor == b.minor && a.patch == b.patch && pre_lt(a.pre, b.pre))
}

proof fn lemma_lex_lt_asym(a: Seq<char>, b: Seq<char>)
    requires
        lex_lt(a, b),
    ensures
        !lex_lt(b, a),
    decreases a.len(),
{
    if b.len() == 0 {
    } else if a.len() == 0 {
    } else if (a[0] as int) < (b[0] as int) {
    } else if (b[0] as int) < (a[0] as int) {
    } else {
        lemma_lex_lt_asym(a.drop_first(), b.drop_first());
    }
}

proof fn lemma_lex_lt_irrefl(a: Seq<char>)
    ensures
        !lex_lt(a, a),
    decreases a.len(),
{
    if a.len() > 0 {
        lemma_lex_lt_irrefl(a.drop_first());
    }
}

/// Version precedence is irreflexive.
pub proof fn lemma_version_lt_irrefl(v: VersionView)
    ensures
        !spec_version_lt(v, v),
{
    match v.pre {
        Some(x) => lemma_lex_lt_irrefl(x),
        None => {},
    }
}

proof fn lemma_lex_lt_trans(a: Seq<char>, b: Seq<char>, c: Seq<char>)
    requires
        lex_lt(a, b),
        lex_lt(b, c),
    ensures
        lex_lt(a, c),
    decreases a.len(),
{
    if c.len() == 0 {
    } else if b.len() == 0 {
    } else if a.len() == 0 {
    } else {
        if (a[0] as int) == (b[0] as int) && (b[0] as int) == (c[0] as int) {
            lemma_lex_lt_trans(a.drop_first(), b.drop_first(), c.drop_first());
        }
    }
}


proof fn lemma_lex_lt_connex(a: Seq<char>, b: Seq<char>)
    requires
        !lex_lt(a, b),
        !lex_lt(b, a),
    ensures
        a == b,
    decreases a.len(),
{
    if b.len() == 0 {
        if a.len() > 0 {
            assert(lex_lt(b, a));
        }
        assert(a =~= b);
    } else if a.len() == 0 {
        assert(lex_lt(a, b));
    } else if (a[0] as int) < (b[0] as int) {
        assert(lex_lt(a, b));
    } else if (b[0] as int) < (a[0] as int) {
        assert(lex_lt(b, a));
    } else {
        assert(a[0] == b[0]);
        lemma_lex_lt_connex(a.drop_first(), b.drop_first());
        assert forall|i: int| 0 <= i < a.len() implies a[i] == b[i] by {
            if i > 0 {
                assert(a.drop_first()[i - 1] == b.drop_first()[i - 1]);
            }
        }
        assert(a =~= b);
    }
}

/// Version precedence is connex: two incomparable versions are equal.
pub proof fn lemma_version_lt_connex(a: VersionView, b: VersionView)
    requires
        !spec_version_lt(a, b),
        !spec_version_lt(b, a),
    ensures
        a == b,
{
    match (a.pre, b.pre) {
        (Some(x), Some(y)) => {
            lemma_lex_lt_connex(x, y);
        },
        _ => {},
    }
}

/// Version precedence is asymmetric.
pub proof fn lemma_version_lt_asym(a: VersionView, b: VersionView)
    requires
        spec_version_lt(a, b),
    ensures
        !spec_version_lt(b, a),
{
    match (a.pre, b.pre) {
        (Some(x), Some(y)) => {
            if lex_lt(x, y) {
                lemma_lex_lt_asym(x, y);
            }
        },
        _ => {},
    }
}

/// Version precedence is transitive.
pub proof fn lemma_version_lt_trans(a: VersionView, b: VersionView, c: VersionView)
    requires
        spec_version_lt(a, b),
        spec_version_lt(b, c),
    ensures
        spec_version_lt(a, c),
{
    match (a.pre, b.pre) {
        (Some(x), Some(y)) => {
            match c.pre {
                Some(z) => {
                    if lex_lt(x, y) && lex_lt(y, z) {
                        lemma_lex_lt_trans(x, y, z);
                    }
                },
                None => {},
            }
        },
        _ => {},
    }
}

fn chars_lex_lt(a: &str, b: &str) -> (r: bool)
    ensures
        r == lex_lt(a@, b@),
{
    let n = a.unicode_len();
    let m = b.unicode_len();
    let mut i: usize = 0;
    proof {
        assert(a@.skip(0) =~= a@);
        assert(b@.skip(0) =~= b@);
    }
    while i < n && i < m
        invariant
            0 <= i <= n,
            0 <= i <= m,
            n == a@.len(),
            m == b@.len(),
            lex_lt(a@, b@) == lex_lt(a@.skip(i as int), b@.skip(i as int)),
        decreases n - i,
    {
        let ca = a.get_char(i);
        let cb = b.get_char(i);
        proof {
            assert(a@.skip(i as int)[0] == a@[i as int]);
            assert(b@.skip(i as int)[0] == b@[i as int]);
        }
        if (ca as u32) < (cb as u32) {
            return true;
        }
        if (cb as u32) < (ca as u32) {
            return false;
        }
        proof {
            assert(a@.skip(i as int).drop_first() =~= a@.skip(i + 1 as int));
            assert(b@.skip(i as int).drop_first() =~= b@.skip(i + 1 as int));
        }
        i += 1;
    }
    proof {
        assert(a@.skip(i as int).len() == n - i);
        assert(b@.skip(i as int).len() == m - i);
    }
    i < m
}

/// Strict version precedence, executable.
pub fn version_lt(a: &Version, b: &Version) -> (r: bool)
    ensures
        r == spec_version_lt(a@, b@),
{
    if a.major != b.major {
        return a.major < b.major;
    }
    if a.minor != b.minor {
        return a.minor < b.minor;
    }
    if a.patch != b.patch {
        return a.patch < b.patch;
    }
    match (&a.pre, &b.pre) {
        (Some(x), Some(y)) => chars_lex_lt(x.as_str(), y.as_str()),
        (Some(_), None) => true,
        _ => false,
    }
}

// ---------- sorting descending ----------

pub open spec fn views_of(s: Seq<Version>) -> Seq<VersionView> {
    s.map_values(|v: Version| v@)
}

/// Non-increasing by version precedence.
pub open spec fn sorted_desc(s: Seq<VersionView>) -> bool {
    forall|i: int, j: int|
        0 <= i < j < s.len() ==> !spec_version_lt(#[trigger] s[i], #[trigger] s[j])
}

/// Sort versions in descending precedence order; the multiset of version
/// values is preserved.
pub fn sort_versions_desc(input: Vec<Version>) -> (r: Vec<Version>)
    ensures
        sorted_desc(views_of(r@)),
        views_of(r@).to_multiset() == views_of(input@).to_multiset(),
{
    broadcast use vstd::seq_lib::group_seq_properties;

    let ghost all = views_of(input@);
    let mut rest = input;
    let mut out: Vec<Version> = Vec::new();
    proof {
        assert(views_of(out@) =~= Seq::<VersionView>::empty());
        assert(views_of(out@).to_multiset().add(views_of(rest@).to_multiset()) =~= all.to_multiset());
    }
    while rest.len() > 0
        invariant
            views_of(out@).to_multiset().add(views_of(rest@).to_multiset()) == all.to_multiset(),
            sorted_desc(views_of(out@)),
            forall|i: int, j: int|
                0 <= i < out@.len() && 0 <= j < rest@.len() ==> !spec_version_lt(
                    #[trigger] views_of(out@)[i],
                    #[trigger] views_of(rest@)[j],
                ),
        decreases rest.len(),
    {
        let mut mi: usize = 0;
        let mut t: usize = 1;
        proof {
            lemma_version_lt_irrefl(views_of(rest@)[0]);
        }
        while t < rest.len()
            invariant
                0 < rest.len(),
                mi < t <= rest.len(),
                forall|m: int|
                    0 <= m < t ==> !spec_version_lt(views_of(rest@)[mi as int], #[trigger] views_of(
                        rest@,
                    )[m]),
            decreases rest.len() - t,
        {
            if version_lt(&rest[mi], &rest[t]) {
                proof {
                    lemma_version_lt_asym(rest@[mi as int]@, rest@[t as int]@);
                    assert forall|m: int|
                        0 <= m < t + 1 implies !spec_version_lt(
                        views_of(rest@)[t as int],
                        #[trigger] views_of(rest@)[m],
                    ) by {
                        if m < t && spec_version_lt(views_of(rest@)[t as int], views_of(rest@)[m]) {
                            lemma_version_lt_trans(
                                views_of(rest@)[mi as int],
                                views_of(rest@)[t as int],
                                views_of(rest@)[m],
                            );
                        }
                        if m == t {
                            lemma_version_lt_irrefl(views_of(rest@)[t as int]);
                        }
                    }
                }
                mi = t;
            }
            t += 1;
        }
        let ghost rest_old = rest@;
        let ghost out_old = out@;
        let x = rest.remove(mi);
        out.push(x);
        proof {
            let xv = rest_old[mi as int]@;
            assert(views_of(out@) =~= views_of(out_old).push(xv));
            assert(views_of(rest@) =~= views_of(rest_old).remove(mi as int));
            views_of(rest_old).to_multiset_ensures();
            views_of(out_old).to_multiset_ensures();
            assert(views_of(rest_old)[mi as int] == xv);
            assert(views_of(rest@).to_multiset() =~= views_of(rest_old).to_multiset().remove(xv));
            assert(views_of(out@).to_multiset() =~= views_of(out_old).to_multiset().insert(xv));
            assert(views_of(rest_old).to_multiset().count(xv) > 0);
            assert(views_of(out@).to_multiset().add(views_of(rest@).to_multiset()) =~= all.to_multiset());
            // sortedness and the cross bound
            assert forall|i: int, j: int|
                0 <= i < out@.len() && 0 <= j < rest@.len() implies !spec_version_lt(
                #[trigger] views_of(out@)[i],
                #[trigger] views_of(rest@)[j],
            ) by {
                let rv = views_of(rest@)[j];
                if j < mi as int {
                    assert(views_of(rest_old)[j] == rv);
                } else {
                    assert(views_of(rest_old)[j + 1] == rv);
                }
                if i < out@.len() - 1 {
                    assert(views_of(out_old)[i] == views_of(out@)[i]);
                    if spec_version_lt(views_of(out@)[i], rv) {
                    }
                } else {
                    assert(views_of(out@)[i] == xv);
                }
            }
            assert forall|i: int, j: int|
                0 <= i < j < views_of(out@).len() implies !spec_version_lt(
                #[trigger] views_of(out@)[i],
                #[trigger] views_of(out@)[j],
            ) by {
                if j == out@.len() - 1 {
                    assert(views_of(out_old)[i] == views_of(out@)[i]);
                    assert(views_of(rest_old)[mi as int] == xv);
                } else {
                    assert(views_of(out_old)[i] == views_of(out@)[i]);
                    assert(views_of(out_old)[j] == views_of(out@)[j]);
                }
            }
        }
    }
    proof {
        assert(views_of(rest@) =~= Seq::<VersionView>::empty());
        assert(views_of(rest@).to_multiset() =~= Multiset::<VersionView>::empty());
        assert(views_of(out@).to_multiset() =~= all.to_multiset());
    }
    out
}



} // verus!
