//! Character-level text utilities shared by the configuration and
//! sourcetable parsers: prefix tests, separator splitting, trimming and
//! decimal parsing, each specified over `Seq<char>`.

use vstd::prelude::*;
use vstd::string::StrSliceExecFns;
use vstd::string::StringExecFns;

verus! {

/// A sequence `p` is a prefix of `s`.
pub open spec fn has_prefix(s: Seq<char>, p: Seq<char>) -> bool {
    p.len() <= s.len() && s.subrange(0, p.len() as int) == p
}

/// Index of the first occurrence of `sep` in `s`, or -1 when absent.
pub open spec fn first_occurrence(s: Seq<char>, sep: char) -> int
    decreases s.len(),
{
    if s.len() == 0 {
        -1
    } else if s[0] == sep {
        0
    } else {
        let r = first_occurrence(s.skip(1), sep);
        if r < 0 {
            -1
        } else {
            r + 1
        }
    }
}

pub proof fn lemma_first_occurrence(s: Seq<char>, sep: char)
    ensures
        first_occurrence(s, sep) < 0 ==> forall|i: int| 0 <= i < s.len() ==> s[i] != sep,
        first_occurrence(s, sep) >= 0 ==> {
            &&& first_occurrence(s, sep) < s.len()
            &&& s[first_occurrence(s, sep)] == sep
            &&& forall|i: int| 0 <= i < first_occurrence(s, sep) ==> s[i] != sep
        },
    decreases s.len(),
{
    if s.len() > 0 && s[0] != sep {
        lemma_first_occurrence(s.skip(1), sep);
        let r = first_occurrence(s.skip(1), sep);
        if r >= 0 {
            assert(s[r + 1] == s.skip(1)[r]);
            assert forall|i: int| 0 <= i < r + 1 implies s[i] != sep by {
                if i > 0 {
                    assert(s.skip(1)[i - 1] == s[i]);
                }
            }
        } else {
            assert forall|i: int| 0 <= i < s.len() implies s[i] != sep by {
                if i > 0 {
                    assert(s.skip(1)[i - 1] == s[i]);
                }
            }
        }
    }
}

/// `s` split at every occurrence of `sep`; always at least one part.
pub open spec fn split_chars(s: Seq<char>, sep: char) -> Seq<Seq<char>>
    decreases s.len(),
{
    if s.len() == 0 {
        seq![Seq::<char>::empty()]
    } else if s[0] == sep {
        seq![Seq::<char>::empty()] + split_chars(s.skip(1), sep)
    } else {
        let rest = split_chars(s.skip(1), sep);
        seq![seq![s[0]] + rest[0]] + rest.skip(1)
    }
}

pub proof fn lemma_split_nonempty(s: Seq<char>, sep: char)
    ensures
        split_chars(s, sep).len() >= 1,
    decreases s.len(),
{
    if s.len() > 0 {
        lemma_split_nonempty(s.skip(1), sep);
    }
}

/// A separator-free sequence splits into exactly itself.
pub proof fn lemma_split_no_sep(s: Seq<char>, sep: char)
    requires
        forall|i: int| 0 <= i < s.len() ==> s[i] != sep,
    ensures
        split_chars(s, sep) =~= seq![s],
    decreases s.len(),
{
    if s.len() > 0 {
        assert forall|i: int| 0 <= i < s.skip(1).len() implies s.skip(1)[i] != sep by {
            assert(s.skip(1)[i] == s[i + 1]);
        }
        lemma_split_no_sep(s.skip(1), sep);
        let rest = split_chars(s.skip(1), sep);
        assert(s[0] != sep);
        assert(split_chars(s, sep) == seq![seq![s[0]] + rest[0]] + rest.skip(1));
        assert(rest == seq![s.skip(1)]);
        assert(rest[0] == s.skip(1));
        assert(rest.skip(1) =~= Seq::<Seq<char>>::empty());
        assert((seq![s[0]] + rest[0]) =~= s);
        assert(split_chars(s, sep) =~= seq![s]);
    } else {
        assert(s =~= Seq::<char>::empty());
    }
}

/// Splitting at the first separator peels off one part.
pub proof fn lemma_split_at_first(s: Seq<char>, sep: char, j: int)
    requires
        0 <= j < s.len(),
        s[j] == sep,
        forall|i: int| 0 <= i < j ==> s[i] != sep,
    ensures
        split_chars(s, sep) =~= seq![s.take(j)] + split_chars(s.skip(j + 1), sep),
    decreases s.len(),
{
    if j == 0 {
        assert(s.take(0) =~= Seq::<char>::empty());
    } else {
        assert(forall|i: int| 0 <= i < s.skip(1).len() ==> s.skip(1)[i] == s[i + 1]);
        lemma_split_at_first(s.skip(1), sep, j - 1);
        lemma_split_nonempty(s.skip(1).skip(j), sep);
        assert(s.skip(1).take(j - 1) =~= s.take(j).skip(1));
        assert(seq![s[0]] + s.take(j).skip(1) =~= s.take(j));
        assert(s.skip(1).skip(j) =~= s.skip(j + 1));
    }
}

/// Whitespace recognized by trimming.
pub open spec fn is_space_char(c: char) -> bool {
    c == ' ' || c == '\t' || c == '\r' || c == '\n'
}

pub open spec fn leading_spaces(s: Seq<char>) -> int
    decreases s.len(),
{
    if s.len() == 0 || !is_space_char(s[0]) {
        0
    } else {
        1 + leading_spaces(s.skip(1))
    }
}

pub open spec fn trailing_spaces(s: Seq<char>) -> int
    decreases s.len(),
{
    if s.len() == 0 || !is_space_char(s.last()) {
        0
    } else {
        1 + trailing_spaces(s.drop_last())
    }
}

/// `s` with leading and trailing whitespace removed.
pub open spec fn trim_chars(s: Seq<char>) -> Seq<char> {
    if leading_spaces(s) == s.len() {
        Seq::<char>::empty()
    } else {
        s.subrange(leading_spaces(s), s.len() - trailing_spaces(s))
    }
}

pub proof fn lemma_leading_spaces(s: Seq<char>)
    ensures
        0 <= leading_spaces(s) <= s.len(),
        forall|i: int| 0 <= i < leading_spaces(s) ==> is_space_char(s[i]),
        leading_spaces(s) < s.len() ==> !is_space_char(s[leading_spaces(s)]),
    decreases s.len(),
{
    if s.len() > 0 && is_space_char(s[0]) {
        lemma_leading_spaces(s.skip(1));
        let a = leading_spaces(s.skip(1));
        assert forall|i: int| 0 <= i < a + 1 implies is_space_char(s[i]) by {
            if i > 0 {
                assert(s.skip(1)[i - 1] == s[i]);
            }
        }
        if a + 1 < s.len() {
            assert(s.skip(1)[a] == s[a + 1]);
        }
    }
}

pub proof fn lemma_trailing_spaces(s: Seq<char>)
    ensures
        0 <= trailing_spaces(s) <= s.len(),
        forall|i: int| s.len() - trailing_spaces(s) <= i < s.len() ==> is_space_char(s[i]),
        trailing_spaces(s) < s.len() ==> !is_space_char(s[s.len() - trailing_spaces(s) - 1]),
    decreases s.len(),
{
    if s.len() > 0 && is_space_char(s.last()) {
        lemma_trailing_spaces(s.drop_last());
        let b = trailing_spaces(s.drop_last());
        assert forall|i: int| s.len() - (b + 1) <= i < s.len() implies is_space_char(s[i]) by {
            if i < s.len() - 1 {
                assert(s.drop_last()[i] == s[i]);
            }
        }
        if b + 1 < s.len() {
            assert(s.drop_last()[s.len() - b - 2] == s[s.len() - b - 2]);
        }
    }
}

/// When any non-space character exists, the trimmed range is well formed.
pub proof fn lemma_trim_range(s: Seq<char>)
    ensures
        leading_spaces(s) < s.len() ==> leading_spaces(s) < s.len() - trailing_spaces(s),
{
    lemma_leading_spaces(s);
    lemma_trailing_spaces(s);
    let a = leading_spaces(s);
    if a < s.len() && a >= s.len() - trailing_spaces(s) {
        assert(is_space_char(s[a]));
    }
}

/// A decimal digit.
pub open spec fn is_digit_char(c: char) -> bool {
    48 <= c as int && c as int <= 57
}

pub open spec fn digit_val(c: char) -> int {
    c as int - 48
}

pub open spec fn all_digits(s: Seq<char>) -> bool {
    forall|i: int| 0 <= i < s.len() ==> is_digit_char(s[i])
}

/// Value of an unsigned decimal numeral.
pub open spec fn dec_value(s: Seq<char>) -> int
    decreases s.len(),
{
    if s.len() == 0 {
        0
    } else {
        dec_value(s.drop_last()) * 10 + digit_val(s.last())
    }
}

pub proof fn lemma_dec_value_nonneg(s: Seq<char>)
    requires
        all_digits(s),
    ensures
        dec_value(s) >= 0,
    decreases s.len(),
{
    if s.len() > 0 {
        assert(forall|i: int| 0 <= i < s.drop_last().len() ==> #[trigger] s.drop_last()[i] == s[i]);
        lemma_dec_value_nonneg(s.drop_last());
    }
}

/// A numeral is worth at least any of its prefixes.
pub proof fn lemma_dec_value_prefix(s: Seq<char>, i: int)
    requires
        all_digits(s),
        0 <= i <= s.len(),
    ensures
        dec_value(s.take(i)) <= dec_value(s),
    decreases s.len() - i,
{
    assert(forall|k: int, j: int| 0 <= j <= s.len() && 0 <= k < j ==> #[trigger] s.take(j)[k] == s[k]);
    if i < s.len() {
        lemma_dec_value_prefix(s, i + 1);
        assert(s.take(i + 1).drop_last() =~= s.take(i));
        assert(all_digits(s.take(i)));
        lemma_dec_value_nonneg(s.take(i));
        assert(dec_value(s.take(i + 1)) == dec_value(s.take(i)) * 10 + digit_val(s[i]));
    } else {
        assert(s.take(i) =~= s);
    }
}

/// The digit character for `d`.
pub open spec fn digit_char(d: int) -> char {
    if d == 0 { '0' }
    else if d == 1 { '1' }
    else if d == 2 { '2' }
    else if d == 3 { '3' }
    else if d == 4 { '4' }
    else if d == 5 { '5' }
    else if d == 6 { '6' }
    else if d == 7 { '7' }
    else if d == 8 { '8' }
    else { '9' }
}

/// Decimal numeral of a nonnegative integer, most significant digit first.
pub open spec fn dec_chars(n: int) -> Seq<char>
    decreases n,
{
    if n < 10 {
        seq![digit_char(n)]
    } else {
        dec_chars(n / 10).push(digit_char(n % 10))
    }
}

pub open spec fn pow10(k: int) -> int
    decreases k,
{
    if k <= 0 {
        1
    } else {
        10 * pow10(k - 1)
    }
}

/// Largest integer part accepted when parsing a coordinate, in degrees.
pub const COORD_INT_LIMIT: u64 = 999_999_999;

/// Microdegree value of a fraction part: the first six fractional digits.
pub open spec fn frac_micro(fp: Seq<char>) -> int {
    if fp.len() >= 6 {
        dec_value(fp.take(6))
    } else {
        dec_value(fp) * pow10(6 - fp.len())
    }
}

/// Microdegree value of an unsigned decimal numeral with an optional
/// fraction, such as `46.44`; `None` when malformed or out of range.
pub open spec fn unsigned_decimal_micro(s: Seq<char>) -> Option<int> {
    let dot = first_occurrence(s, '.');
    if dot < 0 {
        if s.len() > 0 && all_digits(s) && dec_value(s) <= COORD_INT_LIMIT as int {
            Some(dec_value(s) * 1_000_000)
        } else {
            None
        }
    } else {
        let ip = s.take(dot);
        let fp = s.skip(dot + 1);
        if ip.len() + fp.len() > 0 && all_digits(ip) && all_digits(fp) && dec_value(ip)
            <= COORD_INT_LIMIT as int {
            Some(dec_value(ip) * 1_000_000 + frac_micro(fp))
        } else {
            None
        }
    }
}

/// Microdegree value of an optionally signed decimal numeral.
pub open spec fn signed_decimal_micro(s: Seq<char>) -> Option<int> {
    if s.len() == 0 {
        None
    } else if s[0] == '-' {
        match unsigned_decimal_micro(s.skip(1)) {
            Some(v) => Some(-v),
            None => None,
        }
    } else if s[0] == '+' {
        unsigned_decimal_micro(s.skip(1))
    } else {
        unsigned_decimal_micro(s)
    }
}

/// Character-for-character string equality.
pub fn str_eq(a: &str, b: &str) -> (r: bool)
    ensures
        r == (a@ == b@),
{
    let na = a.unicode_len();
    let nb = b.unicode_len();
    if na != nb {
        return false;
    }
    let mut i: usize = 0;
    while i < na
        invariant
            0 <= i <= na,
            na == a@.len(),
            na == b@.len(),
            forall|k: int| 0 <= k < i ==> a@[k] == b@[k],
        decreases na - i,
    {
        if a.get_char(i) != b.get_char(i) {
            return false;
        }
        i += 1;
    }
    proof {
        assert(a@ =~= b@);
    }
    true
}

/// Whether `p` is a prefix of `s`.
pub fn begins_with(s: &str, p: &str) -> (r: bool)
    ensures
        r == has_prefix(s@, p@),
{
    let np = p.unicode_len();
    if np > s.unicode_len() {
        return false;
    }
    let mut i: usize = 0;
    while i < np
        invariant
            0 <= i <= np,
            np == p@.len(),
            np <= s@.len(),
            forall|k: int| 0 <= k < i ==> s@[k] == p@[k],
        decreases np - i,
    {
        if s.get_char(i) != p.get_char(i) {
            proof {
                assert(s@.subrange(0, np as int)[i as int] != p@[i as int]);
            }
            return false;
        }
        i += 1;
    }
    proof {
        assert(s@.subrange(0, np as int) =~= p@);
    }
    true
}

/// `s` without the prefix `p`, or `None` when `p` is not a prefix.
pub fn strip_prefix_str(s: &str, p: &str) -> (r: Option<String>)
    ensures
        match r {
            Some(t) => has_prefix(s@, p@) && t@ == s@.skip(p@.len() as int),
            None => !has_prefix(s@, p@),
        },
{
    if begins_with(s, p) {
        let t = s.substring_char(p.unicode_len(), s.unicode_len());
        proof {
            assert(s@.subrange(p@.len() as int, s@.len() as int) =~= s@.skip(p@.len() as int));
        }
        Some(t.to_owned())
    } else {
        None
    }
}

/// `s` split at every occurrence of `sep`.
pub fn split_str(s: &str, sep: char) -> (r: Vec<String>)
    ensures
        r.deep_view() == split_chars(s@, sep),
{
    let n = s.unicode_len();
    let mut out: Vec<String> = Vec::new();
    let mut start: usize = 0;
    let mut i: usize = 0;
    proof {
        assert(s@.skip(0) =~= s@);
        assert(out.deep_view() =~= Seq::<Seq<char>>::empty());
        assert(out.deep_view() + split_chars(s@, sep) =~= split_chars(s@, sep));
    }
    while i < n
        invariant
            0 <= start <= i <= n,
            n == s@.len(),
            forall|k: int| start <= k < i ==> s@[k] != sep,
            split_chars(s@, sep) == out.deep_view() + split_chars(s@.skip(start as int), sep),
        decreases n - i,
    {
        if s.get_char(i) == sep {
            let chunk: String = s.substring_char(start, i).to_owned();
            let ghost dv0 = out.deep_view();
            let ghost cv = chunk@;
            out.push(chunk);
            proof {
                let rest = split_chars(s@.skip(i + 1), sep);
                let tail = s@.skip(start as int);
                assert(forall|k: int| 0 <= k < tail.len() ==> #[trigger] tail[k] == s@[k + start]);
                lemma_split_at_first(tail, sep, i - start);
                assert(tail.take(i - start) =~= s@.subrange(start as int, i as int));
                assert(tail.skip(i - start + 1) =~= s@.skip(i + 1));
                assert(out.deep_view() =~= dv0.push(cv));
                assert((dv0 + (seq![cv] + rest)) =~= (dv0.push(cv) + rest));
            }
            start = i + 1;
        }
        i += 1;
    }
    let chunk: String = s.substring_char(start, n).to_owned();
    let ghost dv0 = out.deep_view();
    let ghost cv = chunk@;
    out.push(chunk);
    proof {
        let tail = s@.skip(start as int);
        assert(forall|k: int| 0 <= k < tail.len() ==> #[trigger] tail[k] == s@[k + start]);
        lemma_split_no_sep(tail, sep);
        assert(tail =~= s@.subrange(start as int, n as int));
        assert(out.deep_view() =~= dv0.push(cv));
        assert((dv0 + seq![cv]) =~= dv0.push(cv));
    }
    out
}

/// `s` with leading and trailing whitespace removed.
pub fn trim_str(s: &str) -> (r: String)
    ensures
        r@ == trim_chars(s@),
{
    proof {
        lemma_leading_spaces(s@);
        lemma_trailing_spaces(s@);
        lemma_trim_range(s@);
    }
    let n = s.unicode_len();
    let mut a: usize = 0;
    while a < n && is_space(s.get_char(a))
        invariant
            0 <= a <= n,
            n == s@.len(),
            forall|k: int| 0 <= k < a ==> is_space_char(s@[k]),
        decreases n - a,
    {
        a += 1;
    }
    proof {
        // `a` is exactly the number of leading space characters
        let l = leading_spaces(s@);
        if a < l {
            assert(is_space_char(s@[a as int]));
        }
        if l < a {
            assert(!is_space_char(s@[l]));
        }
        assert(a == l);
    }
    if a == n {
        return String::new();
    }
    let mut b: usize = 0;
    while is_space(s.get_char(n - 1 - b))
        invariant
            0 <= b < n,
            n == s@.len(),
            leading_spaces(s@) == a < n,
            !is_space_char(s@[a as int]),
            forall|k: int| n - b <= k < n ==> is_space_char(s@[k]),
            b <= n - 1 - a,
        decreases n - b,
    {
        proof {
            // the character at `a` is not a space, so the scan stops before it
            lemma_trailing_spaces(s@);
            let t = trailing_spaces(s@);
            if t <= b {
                assert(t <= n - 1 - a < n);
                assert(!is_space_char(s@[n - t - 1]));
                if n - t - 1 == n - 1 - b {
                    assert(is_space_char(s@[n - 1 - b]));
                } else {
                    assert(n - b <= n - t - 1 < n);
                    assert(is_space_char(s@[n - t - 1]));
                }
            }
            assert(b + 1 <= t);
            if t > n - 1 - a {
                assert(n - t <= a < n);
                assert(is_space_char(s@[a as int]));
            }
            assert(t <= n - 1 - a);
        }
        b += 1;
    }
    proof {
        let t = trailing_spaces(s@);
        if b < t {
            assert(is_space_char(s@[n - 1 - b]));
        }
        if t < b {
            assert(!is_space_char(s@[n - t - 1]));
        }
        assert(b == t);
    }
    s.substring_char(a, n - b).to_owned()
}

/// Whether `c` is whitespace.
pub fn is_space(c: char) -> (r: bool)
    ensures
        r == is_space_char(c),
{
    c == ' ' || c == '\t' || c == '\r' || c == '\n'
}

/// Parses an unsigned decimal numeral no greater than `limit`.
pub fn parse_dec_limit(s: &str, limit: u64) -> (r: Option<u64>)
    ensures
        r is Some <==> (s@.len() > 0 && all_digits(s@) && dec_value(s@) <= limit as int),
        r matches Some(v) ==> v as int == dec_value(s@),
{
    let n = s.unicode_len();
    if n == 0 {
        return None;
    }
    let mut acc: u64 = 0;
    let mut i: usize = 0;
    while i < n
        invariant
            0 <= i <= n,
            n == s@.len(),
            n > 0,
            forall|k: int| 0 <= k < i ==> is_digit_char(s@[k]),
            acc as int == dec_value(s@.take(i as int)),
            acc <= limit,
        decreases n - i,
    {
        let c = s.get_char(i);
        let u = c as u32;
        if u < 48 || u > 57 {
            return None;
        }
        let d = (u - 48) as u64;
        proof {
            assert(s@.take(i + 1).drop_last() =~= s@.take(i as int));
            assert(s@.take(i + 1).last() == s@[i as int]);
            assert(dec_value(s@.take(i + 1)) == acc as int * 10 + d as int);
            assert(forall|k: int, j: int| 0 <= j <= s@.len() && 0 <= k < j
                ==> #[trigger] s@.take(j)[k] == s@[k]);
        }
        if acc > limit / 10 || (acc == limit / 10 && d > limit % 10) {
            proof {
                if all_digits(s@) {
                    lemma_dec_value_prefix(s@, i + 1);
                    assert(dec_value(s@.take(i + 1)) > limit as int);
                }
            }
            return None;
        }
        acc = acc * 10 + d;
        i += 1;
    }
    proof {
        assert(s@.take(n as int) =~= s@);
    }
    Some(acc)
}

/// The one-character string for digit `d`.
pub fn digit_str(d: u8) -> (r: &'static str)
    requires
        d < 10,
    ensures
        r@ == seq![digit_char(d as int)],
{
    if d == 0 {
        proof { reveal_strlit("0"); assert("0"@ =~= seq![digit_char(0)]); }
        "0"
    } else if d == 1 {
        proof { reveal_strlit("1"); assert("1"@ =~= seq![digit_char(1)]); }
        "1"
    } else if d == 2 {
        proof { reveal_strlit("2"); assert("2"@ =~= seq![digit_char(2)]); }
        "2"
    } else if d == 3 {
        proof { reveal_strlit("3"); assert("3"@ =~= seq![digit_char(3)]); }
        "3"
    } else if d == 4 {
        proof { reveal_strlit("4"); assert("4"@ =~= seq![digit_char(4)]); }
        "4"
    } else if d == 5 {
        proof { reveal_strlit("5"); assert("5"@ =~= seq![digit_char(5)]); }
        "5"
    } else if d == 6 {
        proof { reveal_strlit("6"); assert("6"@ =~= seq![digit_char(6)]); }
        "6"
    } else if d == 7 {
        proof { reveal_strlit("7"); assert("7"@ =~= seq![digit_char(7)]); }
        "7"
    } else if d == 8 {
        proof { reveal_strlit("8"); assert("8"@ =~= seq![digit_char(8)]); }
        "8"
    } else {
        proof { reveal_strlit("9"); assert("9"@ =~= seq![digit_char(9)]); }
        "9"
    }
}

/// Decimal numeral of `n`.
pub fn u16_string(n: u16) -> (r: String)
    ensures
        r@ == dec_chars(n as int),
    decreases n,
{
    if n < 10 {
        digit_str(n as u8).to_owned()
    } else {
        let mut front = u16_string(n / 10);
        front.append(digit_str((n % 10) as u8));
        proof {
            assert((n / 10) as int == n as int / 10);
            assert((n % 10) as int == n as int % 10);
            assert(front@ =~= dec_chars(n as int / 10).push(digit_char(n as int % 10)));
        }
        front
    }
}

/// Ten to the power `k`.
fn pow10_u64(k: usize) -> (r: u64)
    requires
        k <= 6,
    ensures
        r as int == pow10(k as int),
{
    proof {
        reveal_with_fuel(pow10, 8);
    }
    if k == 0 { 1 }
    else if k == 1 { 10 }
    else if k == 2 { 100 }
    else if k == 3 { 1_000 }
    else if k == 4 { 10_000 }
    else if k == 5 { 100_000 }
    else { 1_000_000 }
}

/// Microdegree value of a fraction part; `None` unless all digits.
fn parse_frac_micro(t: &str) -> (r: Option<u64>)
    ensures
        r is Some <==> all_digits(t@),
        r matches Some(v) ==> v as int == frac_micro(t@) && v < 1_000_000,
{
    let n = t.unicode_len();
    let mut i: usize = 0;
    while i < n
        invariant
            0 <= i <= n,
            n == t@.len(),
            forall|k: int| 0 <= k < i ==> is_digit_char(t@[k]),
        decreases n - i,
    {
        let u = t.get_char(i) as u32;
        if u < 48 || u > 57 {
            return None;
        }
        i += 1;
    }
    let m: usize = if n < 6 { n } else { 6 };
    let mut acc: u64 = 0;
    let mut j: usize = 0;
    while j < m
        invariant
            0 <= j <= m <= 6,
            m <= n == t@.len(),
            m == (if n < 6 { n as int } else { 6 }),
            all_digits(t@),
            acc as int == dec_value(t@.take(j as int)),
            (acc as int) < pow10(j as int),
        decreases m - j,
    {
        let d = (t.get_char(j) as u32 - 48) as u64;
        proof {
            reveal_with_fuel(pow10, 8);
            assert(pow10(0) == 1 && pow10(1) == 10 && pow10(2) == 100 && pow10(3) == 1000 && pow10(4) == 10_000 && pow10(5) == 100_000 && pow10(6) == 1_000_000);
            assert(j == 0 || j == 1 || j == 2 || j == 3 || j == 4 || j == 5);
            assert(pow10(j as int) <= 100_000);
            assert(t@.take(j + 1).drop_last() =~= t@.take(j as int));
            assert(t@.take(j + 1).last() == t@[j as int]);
        }
        acc = acc * 10 + d;
        j += 1;
    }
    if n >= 6 {
        proof {
            reveal_with_fuel(pow10, 8);
            assert(frac_micro(t@) == dec_value(t@.take(6)));
        }
        Some(acc)
    } else {
        let mult = pow10_u64(6 - n);
        proof {
            reveal_with_fuel(pow10, 8);
            assert(pow10(0) == 1 && pow10(1) == 10 && pow10(2) == 100 && pow10(3) == 1000 && pow10(4) == 10_000 && pow10(5) == 100_000 && pow10(6) == 1_000_000);
            assert(m == 0 || m == 1 || m == 2 || m == 3 || m == 4 || m == 5);
            assert((acc as int) * pow10(6 - m as int) < 1_000_000);
            assert(t@.take(n as int) =~= t@);
        }
        Some(acc * mult)
    }
}

/// Position of the first `.` in `t`, agreeing with `first_occurrence`.
fn find_dot(t: &str) -> (r: Option<usize>)
    ensures
        match r {
            Some(j) => first_occurrence(t@, '.') == j as int,
            None => first_occurrence(t@, '.') < 0,
        },
{
    let n = t.unicode_len();
    let mut i: usize = 0;
    while i < n
        invariant
            0 <= i <= n,
            n == t@.len(),
            forall|k: int| 0 <= k < i ==> t@[k] != '.',
        decreases n - i,
    {
        if t.get_char(i) == '.' {
            proof {
                lemma_first_occurrence(t@, '.');
                let fo = first_occurrence(t@, '.');
                if fo < 0 || fo > i {
                    assert(t@[i as int] != '.');
                }
                if 0 <= fo < i {
                    assert(t@[fo] != '.');
                }
            }
            return Some(i);
        }
        i += 1;
    }
    proof {
        lemma_first_occurrence(t@, '.');
        let fo = first_occurrence(t@, '.');
        if fo >= 0 {
            assert(t@[fo] != '.');
        }
    }
    None
}

/// Microdegree value of an unsigned decimal numeral with optional fraction.
fn parse_unsigned_micro(t: &str) -> (r: Option<i64>)
    ensures
        r is Some <==> unsigned_decimal_micro(t@) is Some,
        r matches Some(v) ==> Some(v as int) == unsigned_decimal_micro(t@) && 0 <= v,
{
    let n = t.unicode_len();
    match find_dot(t) {
        None => {
            match parse_dec_limit(t, COORD_INT_LIMIT) {
                Some(v) => Some((v as i64) * 1_000_000),
                None => None,
            }
        },
        Some(j) => {
            proof {
                lemma_first_occurrence(t@, '.');
            }
            let ip = t.substring_char(0, j);
            let fp = t.substring_char(j + 1, n);
            proof {
                assert(ip@ =~= t@.take(j as int));
                assert(fp@ =~= t@.skip(j + 1));
            }
            if j == 0 && fp.unicode_len() == 0 {
                return None;
            }
            let ipv: u64 = if j == 0 {
                0
            } else {
                match parse_dec_limit(ip, COORD_INT_LIMIT) {
                    Some(v) => v,
                    None => {
                        return None;
                    },
                }
            };
            proof {
                if j == 0 {
                    assert(t@.take(0) =~= Seq::<char>::empty());
                }
                lemma_dec_value_nonneg(t@.take(j as int));
            }
            match parse_frac_micro(fp) {
                Some(fm) => Some((ipv as i64) * 1_000_000 + (fm as i64)),
                None => None,
            }
        },
    }
}

/// Microdegree value of an optionally signed decimal numeral, such as
/// `46.44` or `-16.5`; `None` when malformed or out of range.
pub fn parse_coord_micro(s: &str) -> (r: Option<i64>)
    ensures
        r is Some <==> signed_decimal_micro(s@) is Some,
        r matches Some(v) ==> Some(v as int) == signed_decimal_micro(s@),
{
    let n = s.unicode_len();
    if n == 0 {
        return None;
    }
    let c0 = s.get_char(0);
    if c0 == '-' || c0 == '+' {
        let rest = s.substring_char(1, n);
        proof {
            assert(rest@ =~= s@.skip(1));
        }
        match parse_unsigned_micro(rest) {
            Some(v) => if c0 == '-' {
                Some(-v)
            } else {
                Some(v)
            },
            None => None,
        }
    } else {
        parse_unsigned_micro(s)
    }
}

/// Index of the first occurrence of byte `v` in `b`, or -1 when absent.
pub open spec fn first_byte_pos(b: Seq<u8>, v: u8) -> int
    decreases b.len(),
{
    if b.len() == 0 {
        -1
    } else if b[0] == v {
        0
    } else {
        let r = first_byte_pos(b.skip(1), v);
        if r < 0 {
            -1
        } else {
            r + 1
        }
    }
}

pub proof fn lemma_first_byte_pos(b: Seq<u8>, v: u8)
    ensures
        first_byte_pos(b, v) < 0 ==> forall|i: int| 0 <= i < b.len() ==> b[i] != v,
        first_byte_pos(b, v) >= 0 ==> {
            &&& first_byte_pos(b, v) < b.len()
            &&& b[first_byte_pos(b, v)] == v
            &&& forall|i: int| 0 <= i < first_byte_pos(b, v) ==> b[i] != v
        },
    decreases b.len(),
{
    if b.len() > 0 && b[0] != v {
        lemma_first_byte_pos(b.skip(1), v);
        let r = first_byte_pos(b.skip(1), v);
        if r >= 0 {
            assert(b[r + 1] == b.skip(1)[r]);
            assert forall|i: int| 0 <= i < r + 1 implies b[i] != v by {
                if i > 0 {
                    assert(b.skip(1)[i - 1] == b[i]);
                }
            }
        } else {
            assert forall|i: int| 0 <= i < b.len() implies b[i] != v by {
                if i > 0 {
                    assert(b.skip(1)[i - 1] == b[i]);
                }
            }
        }
    }
}

/// Index of the first occurrence of `v`, agreeing with `first_byte_pos`.
pub fn find_byte(b: &Vec<u8>, v: u8) -> (r: Option<usize>)
    ensures
        match r {
            Some(i) => first_byte_pos(b@, v) == i as int,
            None => first_byte_pos(b@, v) < 0,
        },
{
    let mut i: usize = 0;
    while i < b.len()
        invariant
            0 <= i <= b@.len(),
            forall|k: int| 0 <= k < i ==> b@[k] != v,
        decreases b@.len() - i,
    {
        if b[i] == v {
            proof {
                lemma_first_byte_pos(b@, v);
                let fo = first_byte_pos(b@, v);
                if fo < 0 || fo > i {
                    assert(b@[i as int] != v);
                }
                if 0 <= fo < i {
                    assert(b@[fo] != v);
                }
            }
            return Some(i);
        }
        i += 1;
    }
    proof {
        lemma_first_byte_pos(b@, v);
        let fo = first_byte_pos(b@, v);
        if fo >= 0 {
            assert(b@[fo] != v);
        }
    }
    None
}

/// A copy of `b[from..to]`.
pub fn vec_range(b: &Vec<u8>, from: usize, to: usize) -> (r: Vec<u8>)
    requires
        from <= to <= b@.len(),
    ensures
        r@ == b@.subrange(from as int, to as int),
{
    let mut out: Vec<u8> = Vec::new();
    let mut i: usize = from;
    while i < to
        invariant
            from <= i <= to <= b@.len(),
            out@ =~= b@.subrange(from as int, i as int),
        decreases to - i,
    {
        out.push(b[i]);
        proof {
            assert(out@ =~= b@.subrange(from as int, i + 1));
        }
        i += 1;
    }
    out
}

} // verus!
