//! Character and string-scanning primitives shared by the version parser,
//! the constraint extractor and the catalog reader.  Everything here is
//! ordinary verified code over `Seq<char>` views.

use vstd::prelude::*;

verus! {

// ---------- digits ----------

/// A decimal digit.
pub open spec fn is_digit(c: char) -> bool {
    48 <= (c as int) && (c as int) <= 57
}

/// Numeric value of a decimal digit.
pub open spec fn digit_val(c: char) -> nat {
    ((c as int) - 48) as nat
}

/// The digit character for a value below ten.
pub open spec fn digit_char(d: nat) -> char {
    if d == 0 {
        '0'
    } else if d == 1 {
        '1'
    } else if d == 2 {
        '2'
    } else if d == 3 {
        '3'
    } else if d == 4 {
        '4'
    } else if d == 5 {
        '5'
    } else if d == 6 {
        '6'
    } else if d == 7 {
        '7'
    } else if d == 8 {
        '8'
    } else {
        '9'
    }
}

pub proof fn lemma_digit_char_val(c: char)
    requires
        is_digit(c),
    ensures
        digit_val(c) < 10,
        digit_char(digit_val(c)) == c,
{
}

pub proof fn lemma_digit_val_char(d: nat)
    requires
        d < 10,
    ensures
        is_digit(digit_char(d)),
        digit_val(digit_char(d)) == d,
{
}

pub fn char_is_digit(c: char) -> (r: bool)
    ensures
        r == is_digit(c),
{
    let u = c as u32;
    48 <= u && u <= 57
}

// ---------- whitespace ----------

/// The whitespace characters the scanners recognise.
pub open spec fn is_space(c: char) -> bool {
    c == ' ' || c == '\t' || c == '\r' || c == '\n'
}

pub fn char_is_space(c: char) -> (r: bool)
    ensures
        r == is_space(c),
{
    c == ' ' || c == '\t' || c == '\r' || c == '\n'
}

// ---------- first occurrence of a character ----------

/// Index of the first occurrence of `c` in `s`, or `s.len()` if absent.
pub open spec fn idx_of(s: Seq<char>, c: char) -> int
    decreases s.len(),
{
    if s.len() == 0 {
        0
    } else if s[0] == c {
        0
    } else {
        1 + idx_of(s.drop_first(), c)
    }
}

pub proof fn lemma_idx_of(s: Seq<char>, c: char)
    ensures
        0 <= idx_of(s, c) <= s.len(),
        idx_of(s, c) < s.len() ==> s[idx_of(s, c)] == c,
        forall|m: int| 0 <= m < idx_of(s, c) ==> s[m] != c,
    decreases s.len(),
{
    if s.len() == 0 {
    } else if s[0] == c {
    } else {
        lemma_idx_of(s.drop_first(), c);
        assert forall|m: int| 0 <= m < idx_of(s, c) implies s[m] != c by {
            if m > 0 {
                assert(s.drop_first()[m - 1] == s[m]);
            }
        }
    }
}

/// A position that sees `c` for the first time is `idx_of`.
pub proof fn lemma_idx_of_is(s: Seq<char>, c: char, i: int)
    requires
        0 <= i <= s.len(),
        forall|m: int| 0 <= m < i ==> s[m] != c,
        i < s.len() ==> s[i] == c,
    ensures
        idx_of(s, c) == i,
    decreases s.len(),
{
    if s.len() == 0 {
    } else if s[0] == c {
        assert(i == 0);
    } else {
        assert(i >= 1) by {
            if i == 0 {
                assert(s[0] == c);
            }
        }
        assert forall|m: int| 0 <= m < i - 1 implies s.drop_first()[m] != c by {
            assert(s.drop_first()[m] == s[m + 1]);
        }
        assert(i - 1 < s.drop_first().len() ==> s.drop_first()[i - 1] == c);
        lemma_idx_of_is(s.drop_first(), c, i - 1);
    }
}

/// First index at or after `from` holding `c`, or the length if absent.
pub fn find_char_from(s: &str, from: usize, c: char) -> (r: usize)
    requires
        from <= s@.len(),
    ensures
        from <= r <= s@.len(),
        r < s@.len() ==> s@[r as int] == c,
        forall|m: int| from <= m < r ==> s@[m] != c,
{
    let n = s.unicode_len();
    let mut i = from;
    while i < n
        invariant
            from <= i <= n,
            n == s@.len(),
            forall|m: int| from <= m < i ==> s@[m] != c,
        decreases n - i,
    {
        if s.get_char(i) == c {
            return i;
        }
        i += 1;
    }
    i
}

// ---------- substring occurrence ----------

/// `p` occurs in `s` at position `i`.
pub open spec fn occurs_at(s: Seq<char>, p: Seq<char>, i: int) -> bool {
    0 <= i && i + p.len() <= s.len() && s.subrange(i, i + p.len() as int) == p
}

/// `p` is a prefix of `s`.
pub open spec fn has_prefix(s: Seq<char>, p: Seq<char>) -> bool {
    occurs_at(s, p, 0)
}

/// Index of the first occurrence of `p` in `s`; larger than
/// `s.len() - p.len()` if `p` does not occur.
pub open spec fn sub_idx(s: Seq<char>, p: Seq<char>) -> int
    decreases s.len(),
{
    if has_prefix(s, p) {
        0
    } else if s.len() == 0 {
        1
    } else {
        1 + sub_idx(s.drop_first(), p)
    }
}

/// `p` occurs somewhere in `s`.
pub open spec fn has_sub(s: Seq<char>, p: Seq<char>) -> bool {
    sub_idx(s, p) + p.len() <= s.len()
}

proof fn lemma_occurs_drop_first(s: Seq<char>, p: Seq<char>, i: int)
    requires
        s.len() > 0,
        i >= 1,
    ensures
        occurs_at(s, p, i) == occurs_at(s.drop_first(), p, i - 1),
{
    if occurs_at(s, p, i) {
        assert(s.drop_first().subrange(i - 1, i - 1 + p.len() as int) =~= s.subrange(
            i,
            i + p.len() as int,
        ));
    }
    if occurs_at(s.drop_first(), p, i - 1) {
        assert(s.subrange(i, i + p.len() as int) =~= s.drop_first().subrange(
            i - 1,
            i - 1 + p.len() as int,
        ));
    }
}

pub proof fn lemma_sub_idx(s: Seq<char>, p: Seq<char>)
    ensures
        0 <= sub_idx(s, p) <= s.len() + 1,
        has_sub(s, p) ==> occurs_at(s, p, sub_idx(s, p)),
        forall|m: int| 0 <= m < sub_idx(s, p) ==> !occurs_at(s, p, m),
        !has_sub(s, p) ==> forall|m: int| !occurs_at(s, p, m),
    decreases s.len(),
{
    if has_prefix(s, p) {
    } else if s.len() == 0 {
        assert forall|m: int| !occurs_at(s, p, m) by {
            if occurs_at(s, p, m) {
                assert(m == 0);
            }
        }
    } else {
        lemma_sub_idx(s.drop_first(), p);
        assert forall|m: int| 0 <= m < sub_idx(s, p) implies !occurs_at(s, p, m) by {
            if m >= 1 {
                lemma_occurs_drop_first(s, p, m);
            }
        }
        if has_sub(s, p) {
            lemma_occurs_drop_first(s, p, sub_idx(s, p));
        } else {
            assert forall|m: int| !occurs_at(s, p, m) by {
                if m >= 1 {
                    lemma_occurs_drop_first(s, p, m);
                } else if m == 0 {
                    assert(!has_prefix(s, p));
                }
            }
        }
    }
}

/// A first occurrence pins `sub_idx`.
pub proof fn lemma_sub_idx_is(s: Seq<char>, p: Seq<char>, i: int)
    requires
        occurs_at(s, p, i),
        forall|m: int| 0 <= m < i ==> !occurs_at(s, p, m),
    ensures
        sub_idx(s, p) == i,
        has_sub(s, p),
    decreases s.len(),
{
    if has_prefix(s, p) {
        assert(i == 0);
    } else {
        assert(i >= 1);
        assert(s.len() > 0);
        lemma_occurs_drop_first(s, p, i);
        assert forall|m: int| 0 <= m < i - 1 implies !occurs_at(s.drop_first(), p, m) by {
            lemma_occurs_drop_first(s, p, m + 1);
        }
        lemma_sub_idx_is(s.drop_first(), p, i - 1);
    }
}

/// No occurrence anywhere means no `sub_idx` occurrence either.
pub proof fn lemma_sub_idx_none(s: Seq<char>, p: Seq<char>)
    requires
        forall|m: int| !occurs_at(s, p, m),
    ensures
        !has_sub(s, p),
{
    lemma_sub_idx(s, p);
    if has_sub(s, p) {
        assert(occurs_at(s, p, sub_idx(s, p)));
    }
}

/// Does `p` occur in `s` at exactly position `at`?
pub fn occurs_at_exec(s: &str, p: &str, at: usize) -> (r: bool)
    requires
        at <= s@.len(),
    ensures
        r == occurs_at(s@, p@, at as int),
{
    let n = s.unicode_len();
    let m = p.unicode_len();
    if m > n - at {
        assert(!occurs_at(s@, p@, at as int));
        return false;
    }
    let mut j: usize = 0;
    while j < m
        invariant
            0 <= j <= m,
            at + m <= n,
            n == s@.len(),
            m == p@.len(),
            forall|k: int| 0 <= k < j ==> s@[at + k] == p@[k],
        decreases m - j,
    {
        if s.get_char(at + j) != p.get_char(j) {
            assert(s@.subrange(at as int, at + m as int)[j as int] == s@[at + j]);
            assert(!occurs_at(s@, p@, at as int));
            return false;
        }
        j += 1;
    }
    assert(s@.subrange(at as int, at + m as int) =~= p@);
    true
}

/// First occurrence of `p` at or after `from`, as `Some(index)`.
pub fn find_sub_from(s: &str, p: &str, from: usize) -> (r: Option<usize>)
    requires
        from <= s@.len(),
    ensures
        match r {
            Some(i) => from <= i && occurs_at(s@, p@, i as int) && forall|m: int|
                from <= m < i ==> !occurs_at(s@, p@, m),
            None => forall|m: int| m >= from ==> !occurs_at(s@, p@, m),
        },
{
    let n = s.unicode_len();
    let mut i = from;
    while i < n
        invariant
            from <= i <= n,
            n == s@.len(),
            forall|m: int| from <= m < i ==> !occurs_at(s@, p@, m),
        decreases n - i,
    {
        if occurs_at_exec(s, p, i) {
            return Some(i);
        }
        i += 1;
    }
    if occurs_at_exec(s, p, n) {
        return Some(n);
    }
    assert forall|m: int| m >= from implies !occurs_at(s@, p@, m) by {
        if occurs_at(s@, p@, m) {
            assert(m + p@.len() <= s@.len());
        }
    }
    None
}

// ---------- equality and slicing ----------

/// Character-for-character equality of two string slices.
pub fn str_eq_str(a: &str, b: &str) -> (r: bool)
    ensures
        r == (a@ == b@),
{
    let n = a.unicode_len();
    let m = b.unicode_len();
    if n != m {
        return false;
    }
    let mut i: usize = 0;
    while i < n
        invariant
            0 <= i <= n,
            n == a@.len(),
            n == b@.len(),
            forall|k: int| 0 <= k < i ==> a@[k] == b@[k],
        decreases n - i,
    {
        if a.get_char(i) != b.get_char(i) {
            return false;
        }
        i += 1;
    }
    proof {
        assert(a@ =~= b@);
    }
    true
}

/// Owned copy of `s[from..to]` (in characters).
pub fn substr_copy(s: &str, from: usize, to: usize) -> (r: String)
    requires
        from <= to <= s@.len(),
    ensures
        r@ == s@.subrange(from as int, to as int),
{
    String::from_str(s.substring_char(from, to))
}

// ---------- trimming ----------

/// Drop leading whitespace.
pub open spec fn spec_trim_start(s: Seq<char>) -> Seq<char>
    decreases s.len(),
{
    if s.len() > 0 && is_space(s[0]) {
        spec_trim_start(s.drop_first())
    } else {
        s
    }
}

/// Drop trailing whitespace.
pub open spec fn spec_trim_end(s: Seq<char>) -> Seq<char>
    decreases s.len(),
{
    if s.len() > 0 && is_space(s[s.len() - 1]) {
        spec_trim_end(s.drop_last())
    } else {
        s
    }
}

/// Drop whitespace at both ends.
pub open spec fn spec_trim(s: Seq<char>) -> Seq<char> {
    spec_trim_end(spec_trim_start(s))
}

pub proof fn lemma_trim_start_skip(s: Seq<char>, k: int)
    requires
        0 <= k <= s.len(),
        forall|m: int| 0 <= m < k ==> is_space(s[m]),
        k < s.len() ==> !is_space(s[k]),
    ensures
        spec_trim_start(s) == s.skip(k),
    decreases s.len(),
{
    if s.len() > 0 && is_space(s[0]) {
        assert(k >= 1);
        assert forall|m: int| 0 <= m < k - 1 implies is_space(s.drop_first()[m]) by {
            assert(s.drop_first()[m] == s[m + 1]);
        }
        lemma_trim_start_skip(s.drop_first(), k - 1);
        assert(s.drop_first().skip(k - 1) =~= s.skip(k));
    } else {
        assert(k == 0);
        assert(s.skip(0) =~= s);
    }
}

pub proof fn lemma_trim_end_take(s: Seq<char>, k: int)
    requires
        0 <= k <= s.len(),
        forall|m: int| k <= m < s.len() ==> is_space(s[m]),
        k > 0 ==> !is_space(s[k - 1]),
    ensures
        spec_trim_end(s) == s.take(k),
    decreases s.len(),
{
    if s.len() > 0 && is_space(s[s.len() - 1]) {
        assert(k < s.len());
        lemma_trim_end_take(s.drop_last(), k);
        assert(s.drop_last().take(k) =~= s.take(k));
    } else {
        assert(k == s.len());
        assert(s.take(s.len() as int) =~= s);
    }
}

/// Owned copy of `s` with leading and trailing whitespace removed.
pub fn trim_copy(s: &str) -> (r: String)
    ensures
        r@ == spec_trim(s@),
{
    let n = s.unicode_len();
    let mut a: usize = 0;
    while a < n && char_is_space(s.get_char(a))
        invariant
            0 <= a <= n,
            n == s@.len(),
            forall|m: int| 0 <= m < a ==> is_space(s@[m]),
        decreases n - a,
    {
        a += 1;
    }
    proof {
        lemma_trim_start_skip(s@, a as int);
    }
    let mut b: usize = n;
    while b > a && char_is_space(s.get_char(b - 1))
        invariant
            a <= b <= n,
            n == s@.len(),
            forall|m: int| b <= m < n ==> is_space(s@[m]),
        decreases b,
    {
        b -= 1;
    }
    proof {
        let t = s@.skip(a as int);
        assert forall|m: int| (b - a) <= m < t.len() implies is_space(t[m]) by {
            assert(t[m] == s@[m + a]);
        }
        if b > a {
            assert(t[b - a - 1] == s@[b as int - 1]);
        }
        lemma_trim_end_take(t, b - a);
        assert(t.take(b - a) =~= s@.subrange(a as int, b as int));
    }
    substr_copy(s, a, b)
}

// ---------- first character satisfying a predicate ----------

/// Index of the first character of `s` satisfying `p`, or `s.len()`.
pub open spec fn idx_where(s: Seq<char>, p: spec_fn(char) -> bool) -> int
    decreases s.len(),
{
    if s.len() == 0 {
        0
    } else if p(s[0]) {
        0
    } else {
        1 + idx_where(s.drop_first(), p)
    }
}

/// A position that satisfies `p` for the first time is `idx_where`.
pub proof fn lemma_idx_where_is(s: Seq<char>, p: spec_fn(char) -> bool, i: int)
    requires
        0 <= i <= s.len(),
        forall|m: int| 0 <= m < i ==> !p(s[m]),
        i < s.len() ==> p(s[i]),
    ensures
        idx_where(s, p) == i,
    decreases s.len(),
{
    if s.len() == 0 {
    } else if p(s[0]) {
        assert(i == 0);
    } else {
        assert(i >= 1) by {
            if i == 0 {
                assert(p(s[0]));
            }
        }
        assert forall|m: int| 0 <= m < i - 1 implies !p(s.drop_first()[m]) by {
            assert(s.drop_first()[m] == s[m + 1]);
        }
        assert(i - 1 < s.drop_first().len() ==> p(s.drop_first()[i - 1]));
        lemma_idx_where_is(s.drop_first(), p, i - 1);
    }
}

// ---------- last occurrence of a character ----------

/// Index of the last occurrence of `c` in `s`, or `-1` if absent.
pub open spec fn last_idx_of(s: Seq<char>, c: char) -> int
    decreases s.len(),
{
    if s.len() == 0 {
        -1
    } else if s.last() == c {
        s.len() - 1
    } else {
        last_idx_of(s.drop_last(), c)
    }
}

/// A position that is the last to hold `c` is `last_idx_of`.
pub proof fn lemma_last_idx_of_is(s: Seq<char>, c: char, i: int)
    requires
        -1 <= i < s.len(),
        i >= 0 ==> s[i] == c,
        forall|m: int| i < m < s.len() ==> s[m] != c,
    ensures
        last_idx_of(s, c) == i,
    decreases s.len(),
{
    if s.len() == 0 {
    } else if s.last() == c {
        assert(i == s.len() - 1);
    } else {
        assert(i < s.len() - 1);
        assert forall|m: int| i < m < s.drop_last().len() implies s.drop_last()[m] != c by {
            assert(s.drop_last()[m] == s[m]);
        }
        if i >= 0 {
            assert(s.drop_last()[i] == s[i]);
        }
        lemma_last_idx_of_is(s.drop_last(), c, i);
    }
}

/// First index at or after `from` whose character is a decimal digit.
pub fn find_digit_from(s: &str, from: usize) -> (r: usize)
    requires
        from <= s@.len(),
    ensures
        from <= r <= s@.len(),
        r < s@.len() ==> is_digit(s@[r as int]),
        forall|m: int| from <= m < r ==> !is_digit(s@[m]),
{
    let n = s.unicode_len();
    let mut i = from;
    while i < n
        invariant
            from <= i <= n,
            n == s@.len(),
            forall|m: int| from <= m < i ==> !is_digit(s@[m]),
        decreases n - i,
    {
        if char_is_digit(s.get_char(i)) {
            return i;
        }
        i += 1;
    }
    i
}

/// Last index of a digit run: first index at or after `from` that is not a
/// digit.
pub fn digit_run_end(s: &str, from: usize) -> (r: usize)
    requires
        from <= s@.len(),
    ensures
        from <= r <= s@.len(),
        r < s@.len() ==> !is_digit(s@[r as int]),
        forall|m: int| from <= m < r ==> is_digit(s@[m]),
{
    let n = s.unicode_len();
    let mut i = from;
    while i < n
        invariant
            from <= i <= n,
            n == s@.len(),
            forall|m: int| from <= m < i ==> is_digit(s@[m]),
        decreases n - i,
    {
        if !char_is_digit(s.get_char(i)) {
            return i;
        }
        i += 1;
    }
    i
}

/// First index at or after `from` holding whitespace.
pub fn find_space_from(s: &str, from: usize) -> (r: usize)
    requires
        from <= s@.len(),
    ensures
        from <= r <= s@.len(),
        r < s@.len() ==> is_space(s@[r as int]),
        forall|m: int| from <= m < r ==> !is_space(s@[m]),
{
    let n = s.unicode_len();
    let mut i = from;
    while i < n
        invariant
            from <= i <= n,
            n == s@.len(),
            forall|m: int| from <= m < i ==> !is_space(s@[m]),
        decreases n - i,
    {
        if char_is_space(s.get_char(i)) {
            return i;
        }
        i += 1;
    }
    i
}

/// First index at or after `from` holding a non-whitespace character.
pub fn find_nonspace_from(s: &str, from: usize) -> (r: usize)
    requires
        from <= s@.len(),
    ensures
        from <= r <= s@.len(),
        r < s@.len() ==> !is_space(s@[r as int]),
        forall|m: int| from <= m < r ==> is_space(s@[m]),
{
    let n = s.unicode_len();
    let mut i = from;
    while i < n
        invariant
            from <= i <= n,
            n == s@.len(),
            forall|m: int| from <= m < i ==> is_space(s@[m]),
        decreases n - i,
    {
        if !char_is_space(s.get_char(i)) {
            return i;
        }
        i += 1;
    }
    i
}

} // verus!
