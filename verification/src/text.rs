//! Character classes, identifier patterns, decimal formatting and ordering of
//! text, stated over the characters of a string.

use vstd::prelude::*;

verus! {

/// `a` to `z`.
pub open spec fn is_lower(c: char) -> bool {
    'a' <= c && c <= 'z'
}

/// `A` to `Z`.
pub open spec fn is_upper(c: char) -> bool {
    'A' <= c && c <= 'Z'
}

/// `0` to `9`.
pub open spec fn is_digit(c: char) -> bool {
    '0' <= c && c <= '9'
}

/// The decimal digits of `n`, most significant first, without leading zeros.
pub open spec fn decimal(n: nat) -> Seq<char>
    decreases n,
{
    if n < 10 {
        seq![digit_char(n)]
    } else {
        decimal(n / 10).push(digit_char(n % 10))
    }
}

/// The character of the decimal digit `d`.
pub open spec fn digit_char(d: nat) -> char {
    (48 + d) as char
}

/// Appends `c` to `s`.
#[verifier::external_body]
pub(crate) fn push_char(s: &mut String, c: char)
    ensures
        final(s)@ == old(s)@.push(c),
{
    s.push(c);
}

/// The character of the decimal digit `d`.
pub(crate) fn exec_digit_char(d: u64) -> (c: char)
    requires
        d < 10,
    ensures
        c == digit_char(d as nat),
{
    ((48u8 + d as u8) as char)
}

/// Appends the decimal digits of `n` to `s`.
pub fn push_decimal(s: &mut String, n: u64)
    ensures
        final(s)@ == old(s)@ + decimal(n as nat),
    decreases n,
{
    if n >= 10 {
        push_decimal(s, n / 10);
    }
    let c = exec_digit_char(n % 10);
    push_char(s, c);
    proof {
        if n >= 10 {
            assert(old(s)@ + decimal(n as nat) =~= (old(s)@ + decimal((n / 10) as nat)).push(c));
        }
    }
}

/// The characters of `s`, in order.
pub fn chars_of(s: &str) -> (v: Vec<char>)
    ensures
        v@ == s@,
{
    let n = s.unicode_len();
    let mut v: Vec<char> = Vec::new();
    let mut i: usize = 0;
    while i < n
        invariant
            n == s@.len(),
            i <= n,
            v@ == s@.subrange(0, i as int),
        decreases n - i,
    {
        v.push(s.get_char(i));
        i = i + 1;
    }
    assert(v@ =~= s@);
    v
}

/// A character an id may hold after its first.
pub open spec fn is_id_char(c: char) -> bool {
    is_lower(c) || is_digit(c) || c == ':' || c == '-'
}

/// `^[a-z][a-z0-9:-]*$`
pub open spec fn matches_id(s: Seq<char>) -> bool {
    &&& s.len() > 0
    &&& is_lower(s[0])
    &&& forall|i: int| 1 <= i < s.len() ==> is_id_char(#[trigger] s[i])
}

/// A character that may separate the parts of a token.
pub open spec fn is_token_separator(c: char) -> bool {
    c == '.' || c == '_' || c == '-'
}

/// A lowercase token: a lowercase letter, then lowercase letters, digits and
/// single separators (`.`, `_`, `-`), never ending in a separator.
pub open spec fn matches_token(s: Seq<char>) -> bool {
    &&& s.len() > 0
    &&& is_lower(s[0])
    &&& !is_token_separator(s.last())
    &&& forall|i: int|
        1 <= i < s.len() ==> (is_lower(#[trigger] s[i]) || is_digit(s[i])) || (
        is_token_separator(s[i]) && !is_token_separator(s[i - 1]))
}

/// A character a signal name may hold after its first.
pub open spec fn is_signal_suffix_char(c: char) -> bool {
    is_lower(c) || is_upper(c) || is_digit(c) || c == '_' || c == '.' || c == '-'
}

/// `namespace` followed by `[a-z][A-Za-z0-9_.-]*`.
pub open spec fn matches_signal_name(s: Seq<char>, namespace: Seq<char>) -> bool {
    &&& namespace.len() <= s.len()
    &&& s.subrange(0, namespace.len() as int) == namespace
    &&& s.len() > namespace.len()
    &&& is_lower(s[namespace.len() as int])
    &&& forall|i: int|
        namespace.len() < i < s.len() ==> is_signal_suffix_char(#[trigger] s[i])
}

/// A weight name: a signal name in the `source.` or the `analysis.` namespace.
pub open spec fn matches_weight_name(s: Seq<char>) -> bool {
    matches_signal_name(s, "source."@) || matches_signal_name(s, "analysis."@)
}

/// Whether every character of `s` is a digit.
pub open spec fn all_digits(s: Seq<char>) -> bool {
    forall|i: int| 0 <= i < s.len() ==> is_digit(#[trigger] s[i])
}

/// Exactly three non-empty runs of digits separated by single dots.
pub open spec fn matches_version_core(c: Seq<char>) -> bool {
    exists|i: int, j: int|
        0 < i && i + 1 < j && j + 1 < c.len() && c[i] == '.' && c[j] == '.' && all_digits(
            #[trigger] c.subrange(0, i),
        ) && all_digits(#[trigger] c.subrange(i + 1, j)) && all_digits(
            #[trigger] c.subrange(j + 1, c.len() as int),
        )
}

/// A character of a version's pre-release or build suffix.
pub open spec fn is_version_suffix_char(c: char) -> bool {
    is_lower(c) || is_upper(c) || is_digit(c) || c == '.' || c == '-'
}

/// A character that starts a version's suffix.
pub open spec fn is_version_mark(c: char) -> bool {
    c == '-' || c == '+'
}

/// Whether `p` is where the version core ends: the first `-` or `+`, or the
/// end of the text when it has neither.
pub open spec fn is_core_end(s: Seq<char>, p: int) -> bool {
    &&& 0 <= p <= s.len()
    &&& forall|q: int| 0 <= q < p ==> !is_version_mark(#[trigger] s[q])
    &&& p < s.len() ==> is_version_mark(s[p])
}

/// A three-part version `MAJOR.MINOR.PATCH`, optionally followed by `-` or `+`
/// and a non-empty suffix of letters, digits, dots and hyphens; the suffix
/// starts after the first `-` or `+` of the text.
pub open spec fn matches_component_version(s: Seq<char>) -> bool {
    exists|p: int|
        #![trigger is_core_end(s, p)]
        is_core_end(s, p) && matches_version_core(s.subrange(0, p)) && (p < s.len() ==> (p + 1
            < s.len() && forall|i: int| p < i < s.len() ==> is_version_suffix_char(#[trigger] s[i])))
}

fn all_digits_in(v: &Vec<char>, a: usize, b: usize) -> (r: bool)
    requires
        a <= b <= v.len(),
    ensures
        r == all_digits(v@.subrange(a as int, b as int)),
{
    let mut k = a;
    while k < b
        invariant
            a <= k <= b <= v.len(),
            forall|t: int| a <= t < k ==> is_digit(#[trigger] v@[t]),
        decreases b - k,
    {
        if !('0' <= v[k] && v[k] <= '9') {
            assert(!is_digit(v@.subrange(a as int, b as int)[k - a]));
            return false;
        }
        k = k + 1;
    }
    assert forall|t: int| 0 <= t < b - a implies is_digit(
        #[trigger] v@.subrange(a as int, b as int)[t],
    ) by {
        assert(v@.subrange(a as int, b as int)[t] == v@[a + t]);
    }
    true
}

fn version_core_in(v: &Vec<char>, end: usize) -> (r: bool)
    requires
        end <= v.len(),
    ensures
        r == matches_version_core(v@.subrange(0, end as int)),
{
    let ghost c = v@.subrange(0, end as int);
    let mut i: usize = 0;
    while i < end && v[i] != '.'
        invariant
            i <= end <= v.len(),
            forall|k: int| 0 <= k < i ==> v@[k] != '.',
        decreases end - i,
    {
        i = i + 1;
    }
    if i == end {
        proof {
            if matches_version_core(c) {
                let (a, b) = choose|a: int, b: int|
                    0 < a && a + 1 < b && b + 1 < c.len() && c[a] == '.' && c[b] == '.'
                        && all_digits(#[trigger] c.subrange(0, a)) && all_digits(
                        #[trigger] c.subrange(a + 1, b),
                    ) && all_digits(#[trigger] c.subrange(b + 1, c.len() as int));
                assert(v@[a] == '.');
            }
        }
        return false;
    }
    let mut j: usize = i + 1;
    while j < end && v[j] != '.'
        invariant
            i < j <= end <= v.len(),
            forall|k: int| i < k < j ==> v@[k] != '.',
        decreases end - j,
    {
        j = j + 1;
    }
    proof {
        if matches_version_core(c) {
            let (a, b) = choose|a: int, b: int|
                0 < a && a + 1 < b && b + 1 < c.len() && c[a] == '.' && c[b] == '.' && all_digits(
                    #[trigger] c.subrange(0, a),
                ) && all_digits(#[trigger] c.subrange(a + 1, b)) && all_digits(
                    #[trigger] c.subrange(b + 1, c.len() as int),
                );
            if a < i {
                assert(v@[a] == '.');
            }
            if i < a {
                assert(c.subrange(0, a)[i as int] == v@[i as int]);
            }
            assert(a == i);
            if b < j {
                assert(v@[b] == '.');
            }
            if j < b && j < end {
                assert(c.subrange(a + 1, b)[j - a - 1] == v@[j as int]);
            }
            assert(j < end);
            assert(b == j);
        }
    }
    if j == end {
        return false;
    }
    if !(0 < i && i + 1 < j && j + 1 < end) {
        return false;
    }
    let d1 = all_digits_in(v, 0, i);
    let d2 = all_digits_in(v, i + 1, j);
    let d3 = all_digits_in(v, j + 1, end);
    proof {
        assert(c.subrange(0, i as int) =~= v@.subrange(0, i as int));
        assert(c.subrange(i + 1, j as int) =~= v@.subrange(i + 1, j as int));
        assert(c.subrange(j + 1, c.len() as int) =~= v@.subrange(j + 1, end as int));
        if d1 && d2 && d3 {
            assert(c[i as int] == '.' && c[j as int] == '.');
            assert(all_digits(c.subrange(0, i as int)));
            assert(all_digits(c.subrange(i + 1, j as int)));
            assert(all_digits(c.subrange(j + 1, c.len() as int)));
        }
    }
    d1 && d2 && d3
}

/// Whether `value` is a three-part component version with an optional suffix.
pub fn is_component_version(value: &str) -> (r: bool)
    ensures
        r == matches_component_version(value@),
{
    let v = chars_of(value);
    let mut p: usize = 0;
    while p < v.len() && !(v[p] == '-' || v[p] == '+')
        invariant
            v@ == value@,
            p <= v.len(),
            forall|q: int| 0 <= q < p ==> !is_version_mark(#[trigger] v@[q]),
        decreases v.len() - p,
    {
        p = p + 1;
    }
    let ghost s = value@;
    assert(is_core_end(s, p as int));
    proof {
        assert forall|p2: int| is_core_end(s, p2) implies p2 == p by {
            if p2 < p {
                assert(is_version_mark(s[p2]));
            } else if p < p2 {
                assert(!is_version_mark(s[p as int]));
            }
        }
    }
    if !version_core_in(&v, p) {
        return false;
    }
    if p == v.len() {
        return true;
    }
    if p + 1 == v.len() {
        return false;
    }
    let mut k: usize = p + 1;
    while k < v.len()
        invariant
            v@ == value@,
            s == value@,
            is_core_end(s, p as int),
            forall|p2: int| is_core_end(s, p2) ==> p2 == p,
            p < k <= v.len(),
            forall|t: int| p < t < k ==> is_version_suffix_char(#[trigger] v@[t]),
        decreases v.len() - k,
    {
        let c = v[k];
        if !(('a' <= c && c <= 'z') || ('A' <= c && c <= 'Z') || ('0' <= c && c <= '9') || c
            == '.' || c == '-') {
            assert(!is_version_suffix_char(s[k as int]));
            return false;
        }
        k = k + 1;
    }
    true
}

/// Whether `value` matches `^[a-z][a-z0-9:-]*$`.
pub fn is_id(value: &str) -> (r: bool)
    ensures
        r == matches_id(value@),
{
    let v = chars_of(value);
    if v.len() == 0 {
        return false;
    }
    let c0 = v[0];
    if !('a' <= c0 && c0 <= 'z') {
        return false;
    }
    let mut i: usize = 1;
    while i < v.len()
        invariant
            v@ == value@,
            1 <= i <= v.len(),
            forall|k: int| 1 <= k < i ==> is_id_char(#[trigger] v@[k]),
        decreases v.len() - i,
    {
        let c = v[i];
        if !(('a' <= c && c <= 'z') || ('0' <= c && c <= '9') || c == ':' || c == '-') {
            return false;
        }
        i = i + 1;
    }
    true
}

/// Whether `value` is a lowercase token.
pub fn is_token(value: &str) -> (r: bool)
    ensures
        r == matches_token(value@),
{
    let v = chars_of(value);
    if v.len() == 0 {
        return false;
    }
    let c0 = v[0];
    if !('a' <= c0 && c0 <= 'z') {
        return false;
    }
    let mut separator = false;
    let mut i: usize = 1;
    while i < v.len()
        invariant
            v@ == value@,
            v@.len() > 0,
            is_lower(v@[0]),
            1 <= i <= v.len(),
            separator == is_token_separator(v@[i - 1]),
            forall|k: int|
                1 <= k < i ==> (is_lower(#[trigger] v@[k]) || is_digit(v@[k])) || (
                is_token_separator(v@[k]) && !is_token_separator(v@[k - 1])),
        decreases v.len() - i,
    {
        let c = v[i];
        if ('a' <= c && c <= 'z') || ('0' <= c && c <= '9') {
            separator = false;
        } else if (c == '.' || c == '_' || c == '-') && !separator {
            separator = true;
        } else {
            return false;
        }
        i = i + 1;
    }
    !separator
}

/// Whether `value` is `namespace` followed by `[a-z][A-Za-z0-9_.-]*`.
pub fn is_signal_name(value: &str, namespace: &str) -> (r: bool)
    ensures
        r == matches_signal_name(value@, namespace@),
{
    let v = chars_of(value);
    let ns = chars_of(namespace);
    if ns.len() > v.len() {
        return false;
    }
    let mut i: usize = 0;
    while i < ns.len()
        invariant
            v@ == value@,
            ns@ == namespace@,
            ns.len() <= v.len(),
            i <= ns.len(),
            v@.subrange(0, i as int) == ns@.subrange(0, i as int),
        decreases ns.len() - i,
    {
        if v[i] != ns[i] {
            assert(v@.subrange(0, ns.len() as int)[i as int] != ns@[i as int]);
            return false;
        }
        i = i + 1;
        assert(v@.subrange(0, i as int) =~= ns@.subrange(0, i as int));
    }
    assert(ns@.subrange(0, ns.len() as int) =~= ns@);
    let n = ns.len();
    if v.len() == n {
        return false;
    }
    let c0 = v[n];
    if !('a' <= c0 && c0 <= 'z') {
        return false;
    }
    let mut j: usize = n + 1;
    while j < v.len()
        invariant
            v@ == value@,
            ns@ == namespace@,
            n == ns.len(),
            n < j <= v.len(),
            forall|k: int| n < k < j ==> is_signal_suffix_char(#[trigger] v@[k]),
        decreases v.len() - j,
    {
        let c = v[j];
        if !(('a' <= c && c <= 'z') || ('A' <= c && c <= 'Z') || ('0' <= c && c <= '9') || c
            == '_' || c == '.' || c == '-') {
            assert(!is_signal_suffix_char(value@[j as int]));
            return false;
        }
        j = j + 1;
    }
    true
}

/// Whether `value` names a weight in the `source.` or `analysis.` namespace.
pub fn is_weight_name(value: &str) -> (r: bool)
    ensures
        r == matches_weight_name(value@),
{
    is_signal_name(value, "source.") || is_signal_name(value, "analysis.")
}


/// An id is a lowercase ASCII letter followed by lowercase ASCII letters,
/// ASCII digits, `:` and `-`, and nothing else: no capital letter, space,
/// underscore or other character anywhere.
pub proof fn lemma_id_characters(s: Seq<char>)
    ensures
        matches_id(s) <==> (s.len() > 0 && 'a' <= s[0] <= 'z' && forall|i: int|
            1 <= i < s.len() ==> ('a' <= #[trigger] s[i] <= 'z') || ('0' <= s[i] <= '9') || s[i]
                == ':' || s[i] == '-'),
        matches_id(s) ==> forall|i: int| 0 <= i < s.len() ==> !('A' <= #[trigger] s[i] <= 'Z'),
{
}

/// A token is a lowercase ASCII letter followed by lowercase letters, digits
/// and the separators `.`, `_`, `-`, with no two separators in a row and no
/// separator at the end.
pub proof fn lemma_token_characters(s: Seq<char>)
    ensures
        matches_token(s) <==> (s.len() > 0 && 'a' <= s[0] <= 'z' && !(s.last() == '.' || s.last()
            == '_' || s.last() == '-') && forall|i: int|
            1 <= i < s.len() ==> ('a' <= #[trigger] s[i] <= 'z') || ('0' <= s[i] <= '9') || ((
            s[i] == '.' || s[i] == '_' || s[i] == '-') && !(s[i - 1] == '.' || s[i - 1] == '_'
                || s[i - 1] == '-'))),
        matches_token(s) ==> forall|i: int| 0 <= i < s.len() ==> !('A' <= #[trigger] s[i] <= 'Z'),
{
}

/// A signal name in `namespace` is the namespace itself, then a lowercase
/// ASCII letter, then ASCII letters of either case, digits, `_`, `.` and `-`.
pub proof fn lemma_signal_name_characters(s: Seq<char>, namespace: Seq<char>)
    ensures
        matches_signal_name(s, namespace) <==> (s.len() > namespace.len() && (forall|i: int|
            0 <= i < namespace.len() ==> #[trigger] s[i] == namespace[i]) && 'a' <= s[namespace.len() as int]
            <= 'z' && forall|i: int|
            namespace.len() < i < s.len() ==> ('a' <= #[trigger] s[i] <= 'z') || ('A' <= s[i]
                <= 'Z') || ('0' <= s[i] <= '9') || s[i] == '_' || s[i] == '.' || s[i] == '-'),
{
    if s.len() > namespace.len() && (forall|i: int|
        0 <= i < namespace.len() ==> #[trigger] s[i] == namespace[i]) {
        assert(s.subrange(0, namespace.len() as int) =~= namespace);
    }
    if namespace.len() <= s.len() && s.subrange(0, namespace.len() as int) == namespace {
        assert forall|i: int| 0 <= i < namespace.len() implies #[trigger] s[i] == namespace[i] by {
            assert(s.subrange(0, namespace.len() as int)[i] == s[i]);
        }
    }
}

/// A weight name is a signal name in the `source.` namespace or in the
/// `analysis.` namespace, and no other.
pub proof fn lemma_weight_name_namespaces(s: Seq<char>)
    ensures
        matches_weight_name(s) <==> (matches_signal_name(s, seq!['s', 'o', 'u', 'r', 'c', 'e', '.'])
            || matches_signal_name(s, seq!['a', 'n', 'a', 'l', 'y', 's', 'i', 's', '.'])),
{
    reveal_strlit("source.");
    reveal_strlit("analysis.");
    assert("source."@ =~= seq!['s', 'o', 'u', 'r', 'c', 'e', '.']);
    assert("analysis."@ =~= seq!['a', 'n', 'a', 'l', 'y', 's', 'i', 's', '.']);
}


/// Whether `a` is a proper prefix of `b`.
pub open spec fn proper_prefix(a: Seq<char>, b: Seq<char>) -> bool {
    a.len() < b.len() && forall|i: int| 0 <= i < a.len() ==> #[trigger] a[i] == b[i]
}

/// Whether `a` and `b` agree before position `k` and `a` holds the smaller
/// character at `k`.
pub open spec fn first_smaller_at(a: Seq<char>, b: Seq<char>, k: int) -> bool {
    &&& 0 <= k < a.len()
    &&& k < b.len()
    &&& forall|i: int| 0 <= i < k ==> #[trigger] a[i] == b[i]
    &&& a[k] < b[k]
}

/// Text order is lexicographic by character: `a` comes before `b` exactly
/// when `a` is a proper prefix of `b`, or at the first position where they
/// differ `a` holds the smaller character.
pub proof fn lemma_text_less_lexicographic(a: Seq<char>, b: Seq<char>)
    ensures
        text_less(a, b) <==> (proper_prefix(a, b) || exists|k: int| #[trigger] first_smaller_at(a, b, k)),
    decreases a.len(),
{
    if a.len() > 0 && b.len() > 0 {
        let a1 = a.drop_first();
        let b1 = b.drop_first();
        lemma_text_less_lexicographic(a1, b1);
        if a[0] == b[0] {
            if proper_prefix(a1, b1) {
                assert forall|i: int| 0 <= i < a.len() implies #[trigger] a[i] == b[i] by {
                    if i > 0 {
                        assert(a1[i - 1] == b1[i - 1]);
                    }
                }
            }
            if proper_prefix(a, b) {
                assert forall|i: int| 0 <= i < a1.len() implies #[trigger] a1[i] == b1[i] by {
                    assert(a[i + 1] == b[i + 1]);
                }
            }
            if exists|k: int| #[trigger] first_smaller_at(a1, b1, k) {
                let k = choose|k: int| #[trigger] first_smaller_at(a1, b1, k);
                assert forall|i: int| 0 <= i < k + 1 implies #[trigger] a[i] == b[i] by {
                    if i > 0 {
                        assert(a1[i - 1] == b1[i - 1]);
                    }
                }
                assert(first_smaller_at(a, b, k + 1));
            }
            if exists|k: int| #[trigger] first_smaller_at(a, b, k) {
                let k = choose|k: int| #[trigger] first_smaller_at(a, b, k);
                assert(k != 0);
                assert forall|i: int| 0 <= i < k - 1 implies #[trigger] a1[i] == b1[i] by {
                    assert(a[i + 1] == b[i + 1]);
                }
                assert(first_smaller_at(a1, b1, k - 1));
            }
        } else {
            if a[0] < b[0] {
                assert(first_smaller_at(a, b, 0));
            }
            if proper_prefix(a, b) {
                assert(a[0] == b[0]);
            }
            if exists|k: int| #[trigger] first_smaller_at(a, b, k) {
                let k = choose|k: int| #[trigger] first_smaller_at(a, b, k);
                if k > 0 {
                    assert(a[0] == b[0]);
                }
            }
        }
    } else if a.len() == 0 && b.len() > 0 {
        assert(proper_prefix(a, b));
    }
}


/// Whether `s` is digits, a dot at `i`, digits, a dot at `j`, digits up to
/// `p` (each run non-empty), and then either the end, or `-` or `+` at `p`
/// followed by one or more ASCII letters, digits, dots and hyphens.
pub open spec fn version_shape(s: Seq<char>, i: int, j: int, p: int) -> bool {
    &&& 0 < i && i + 1 < j && j + 1 < p && p <= s.len()
    &&& s[i] == '.' && s[j] == '.'
    &&& forall|q: int|
        0 <= q < p && q != i && q != j ==> '0' <= #[trigger] s[q] <= '9'
    &&& p < s.len() ==> ((s[p] == '-' || s[p] == '+') && p + 1 < s.len() && forall|q: int|
        p < q < s.len() ==> ('a' <= #[trigger] s[q] <= 'z') || ('A' <= s[q] <= 'Z') || ('0'
            <= s[q] <= '9') || s[q] == '.' || s[q] == '-')
}

/// A component version is `MAJOR.MINOR.PATCH` in ASCII digits, each part
/// non-empty, optionally followed by `-` or `+` and a non-empty suffix of
/// ASCII letters, digits, dots and hyphens.
pub proof fn lemma_component_version_shape(s: Seq<char>)
    ensures
        matches_component_version(s) <==> exists|i: int, j: int, p: int| #[trigger] version_shape(s, i, j, p),
{
    if matches_component_version(s) {
        let p = choose|p: int|
            #![trigger is_core_end(s, p)]
            is_core_end(s, p) && matches_version_core(s.subrange(0, p)) && (p < s.len() ==> (p + 1
                < s.len() && forall|i: int| p < i < s.len() ==> is_version_suffix_char(#[trigger] s[i])));
        let c = s.subrange(0, p);
        let (i, j) = choose|i: int, j: int|
            0 < i && i + 1 < j && j + 1 < c.len() && c[i] == '.' && c[j] == '.' && all_digits(
                #[trigger] c.subrange(0, i),
            ) && all_digits(#[trigger] c.subrange(i + 1, j)) && all_digits(
                #[trigger] c.subrange(j + 1, c.len() as int),
            );
        assert forall|q: int| 0 <= q < p && q != i && q != j implies '0' <= #[trigger] s[q] <= '9' by {
            if q < i {
                assert(c.subrange(0, i)[q] == s[q]);
            } else if q < j {
                assert(c.subrange(i + 1, j)[q - i - 1] == s[q]);
            } else {
                assert(c.subrange(j + 1, c.len() as int)[q - j - 1] == s[q]);
            }
        }
        assert(version_shape(s, i, j, p));
    }
    if exists|i: int, j: int, p: int| #[trigger] version_shape(s, i, j, p) {
        let (i, j, p) = choose|i: int, j: int, p: int| #[trigger] version_shape(s, i, j, p);
        let c = s.subrange(0, p);
        assert(c[i] == '.' && c[j] == '.');
        assert(all_digits(c.subrange(0, i))) by {
            assert forall|q: int| 0 <= q < i implies is_digit(#[trigger] c.subrange(0, i)[q]) by {
                assert(c.subrange(0, i)[q] == s[q]);
            }
        }
        assert(all_digits(c.subrange(i + 1, j))) by {
            assert forall|q: int| 0 <= q < j - i - 1 implies is_digit(#[trigger] c.subrange(i + 1, j)[q]) by {
                assert(c.subrange(i + 1, j)[q] == s[q + i + 1]);
            }
        }
        assert(all_digits(c.subrange(j + 1, c.len() as int))) by {
            assert forall|q: int| 0 <= q < c.len() - j - 1 implies is_digit(
                #[trigger] c.subrange(j + 1, c.len() as int)[q],
            ) by {
                assert(c.subrange(j + 1, c.len() as int)[q] == s[q + j + 1]);
            }
        }
        assert(matches_version_core(c));
        assert forall|q: int| 0 <= q < p implies !is_version_mark(#[trigger] s[q]) by {
            if q != i && q != j {
                assert('0' <= s[q] <= '9');
            }
        }
        assert(is_core_end(s, p));
    }
}

} // verus!

verus! {

/// Lexicographic order of texts by character, which is the order `str`
/// compares in: byte order of UTF-8 agrees with character order.
pub open spec fn text_less(a: Seq<char>, b: Seq<char>) -> bool
    decreases a.len(),
{
    if a.len() == 0 {
        b.len() > 0
    } else if b.len() == 0 {
        false
    } else if a[0] != b[0] {
        a[0] < b[0]
    } else {
        text_less(a.drop_first(), b.drop_first())
    }
}

/// No two texts each come before the other.
pub proof fn lemma_text_less_asymmetric(a: Seq<char>, b: Seq<char>)
    ensures
        !(text_less(a, b) && text_less(b, a)),
    decreases a.len(),
{
    if a.len() > 0 && b.len() > 0 && a[0] == b[0] {
        lemma_text_less_asymmetric(a.drop_first(), b.drop_first());
    }
}

/// Of two different texts, one comes first.
pub proof fn lemma_text_less_total(a: Seq<char>, b: Seq<char>)
    ensures
        a == b || text_less(a, b) || text_less(b, a),
    decreases a.len(),
{
    if a.len() > 0 && b.len() > 0 && a[0] == b[0] {
        lemma_text_less_total(a.drop_first(), b.drop_first());
        if a.drop_first() == b.drop_first() {
            assert(a =~= seq![a[0]] + a.drop_first());
            assert(b =~= seq![b[0]] + b.drop_first());
        }
    } else if a.len() == 0 && b.len() == 0 {
        assert(a =~= b);
    }
}

/// Text order is transitive.
pub proof fn lemma_text_less_transitive(a: Seq<char>, b: Seq<char>, c: Seq<char>)
    requires
        text_less(a, b),
        text_less(b, c),
    ensures
        text_less(a, c),
    decreases a.len(),
{
    if a.len() > 0 && b.len() > 0 && c.len() > 0 && a[0] == b[0] && b[0] == c[0] {
        lemma_text_less_transitive(a.drop_first(), b.drop_first(), c.drop_first());
    }
}

proof fn lemma_text_less_skip(a: Seq<char>, b: Seq<char>, i: int)
    requires
        0 <= i <= a.len(),
        i <= b.len(),
        a.subrange(0, i) == b.subrange(0, i),
    ensures
        text_less(a, b) == text_less(a.skip(i), b.skip(i)),
    decreases i,
{
    if i > 0 {
        assert(a[0] == a.subrange(0, i)[0]);
        assert(b[0] == b.subrange(0, i)[0]);
        assert(a.drop_first().subrange(0, i - 1) =~= b.drop_first().subrange(0, i - 1)) by {
            assert forall|k: int| 0 <= k < i - 1 implies a.drop_first()[k] == b.drop_first()[k] by {
                assert(a.subrange(0, i)[k + 1] == b.subrange(0, i)[k + 1]);
                assert(a.subrange(0, i)[k + 1] == a[k + 1]);
                assert(b.subrange(0, i)[k + 1] == b[k + 1]);
            }
        }
        lemma_text_less_skip(a.drop_first(), b.drop_first(), i - 1);
        assert(a.drop_first().skip(i - 1) =~= a.skip(i));
        assert(b.drop_first().skip(i - 1) =~= b.skip(i));
    } else {
        assert(a.skip(0) =~= a);
        assert(b.skip(0) =~= b);
    }
}

/// Whether the characters `a` come before `b` in text order.
pub fn chars_less(a: &Vec<char>, b: &Vec<char>) -> (r: bool)
    ensures
        r == text_less(a@, b@),
{
    let mut i: usize = 0;
    while i < a.len() && i < b.len() && a[i] == b[i]
        invariant
            i <= a.len(),
            i <= b.len(),
            a@.subrange(0, i as int) == b@.subrange(0, i as int),
        decreases a.len() - i,
    {
        assert(a@.subrange(0, i + 1) =~= a@.subrange(0, i as int).push(a@[i as int]));
        assert(b@.subrange(0, i + 1) =~= b@.subrange(0, i as int).push(b@[i as int]));
        i = i + 1;
    }
    proof {
        lemma_text_less_skip(a@, b@, i as int);
    }
    if i == a.len() {
        i < b.len()
    } else if i == b.len() {
        false
    } else {
        a[i] < b[i]
    }
}

/// Whether `a` comes before `b` in text order.
pub fn str_less(a: &str, b: &str) -> (r: bool)
    ensures
        r == text_less(a@, b@),
{
    let va = chars_of(a);
    let vb = chars_of(b);
    chars_less(&va, &vb)
}

} // verus!

verus! {

/// `base[index]`
pub open spec fn indexed_path(base: Seq<char>, index: nat) -> Seq<char> {
    base + "["@ + decimal(index) + "]"@
}

/// `a` followed by `b`.
pub fn concat(a: &str, b: &str) -> (s: String)
    ensures
        s@ == a@ + b@,
{
    let mut s = String::from_str(a);
    s.append(b);
    s
}

/// Whether `a` and `b` are the same text.
pub fn same_text(a: &String, b: &str) -> (r: bool)
    ensures
        r == (a@ == b@),
{
    *a == String::from_str(b)
}

/// `base[index]`
pub fn indexed(base: &str, index: usize) -> (s: String)
    ensures
        s@ == indexed_path(base@, index as nat),
{
    let mut s = String::from_str(base);
    s.append("[");
    push_decimal(&mut s, index as u64);
    s.append("]");
    s
}

/// The texts of a sequence of strings.
pub open spec fn texts(v: Seq<String>) -> Seq<Seq<char>> {
    v.map_values(|s: String| s@)
}

/// Whether the text at position `k` already occurs before it.
pub open spec fn repeats_earlier(v: Seq<Seq<char>>, k: int) -> bool {
    exists|j: int| 0 <= j < k && v[j] == v[k]
}

/// Whether the string at position `k` of `v` already occurs before it.
pub fn occurs_before(v: &Vec<String>, k: usize) -> (r: bool)
    requires
        k < v.len(),
    ensures
        r == repeats_earlier(texts(v@), k as int),
{
    let ghost t = texts(v@);
    let mut j: usize = 0;
    while j < k
        invariant
            k < v.len(),
            j <= k,
            t == texts(v@),
            forall|i: int| 0 <= i < j ==> t[i] != t[k as int],
        decreases k - j,
    {
        if v[j] == v[k] {
            assert(t[j as int] == t[k as int]);
            return true;
        }
        j = j + 1;
    }
    false
}

/// Whether `x` is one of the strings of `v`.
pub fn contains_text(v: &Vec<String>, x: &String) -> (r: bool)
    ensures
        r == texts(v@).contains(x@),
{
    let ghost t = texts(v@);
    let mut j: usize = 0;
    while j < v.len()
        invariant
            j <= v.len(),
            t == texts(v@),
            forall|i: int| 0 <= i < j ==> t[i] != x@,
        decreases v.len() - j,
    {
        if v[j] == *x {
            assert(t[j as int] == x@);
            return true;
        }
        j = j + 1;
    }
    false
}

} // verus!
