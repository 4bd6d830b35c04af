//! Verified string helpers shared by the parsers: splitting on a separator
//! character, splitting on whitespace runs, trimming, prefix tests and
//! decimal parsing, each proved against a spec function over `Seq<char>`.

use vstd::prelude::*;

verus! {

use vstd::arithmetic::div_mod::{lemma_fundamental_div_mod, lemma_mod_division_less_than_divisor};
use vstd::arithmetic::mul::lemma_mul_inequality;

/// ASCII whitespace, the whitespace notion used throughout the parsers.
pub open spec fn is_ws_char(c: char) -> bool {
    c == ' ' || c == '\t' || c == '\n' || c == '\r' || c == '\x0c'
}

/// Executable mirror of [`is_ws_char`].
pub fn is_ws(c: char) -> (r: bool)
    ensures
        r == is_ws_char(c),
{
    c == ' ' || c == '\t' || c == '\n' || c == '\r' || c == '\x0c'
}

/// Whether `c` occurs in `s`.
pub open spec fn has_char(s: Seq<char>, c: char) -> bool {
    exists|i: int| 0 <= i < s.len() && s[i] == c
}

/// The pieces of `s` split on `sep`: always at least one piece, with empty
/// pieces kept between, before and after adjacent separators.
pub open spec fn split_char_spec(s: Seq<char>, sep: char) -> Seq<Seq<char>>
    decreases s.len(),
{
    if s.len() == 0 {
        seq![Seq::<char>::empty()]
    } else if s[0] == sep {
        seq![Seq::<char>::empty()] + split_char_spec(s.skip(1), sep)
    } else {
        let rest = split_char_spec(s.skip(1), sep);
        seq![seq![s[0]] + rest[0]] + rest.skip(1)
    }
}

pub proof fn lemma_split_char_len(s: Seq<char>, sep: char)
    ensures
        split_char_spec(s, sep).len() >= 1,
    decreases s.len(),
{
    if s.len() == 0 {
    } else {
        lemma_split_char_len(s.skip(1), sep);
    }
}

/// If `s` holds no separator, the split is the single piece `s`.
pub proof fn lemma_split_char_no_sep(s: Seq<char>, sep: char)
    requires
        forall|j: int| 0 <= j < s.len() ==> s[j] != sep,
    ensures
        split_char_spec(s, sep) == seq![s],
    decreases s.len(),
{
    if s.len() == 0 {
        assert(s =~= Seq::<char>::empty());
        assert(split_char_spec(s, sep) =~= seq![s]);
    } else {
        assert(forall|j: int| 0 <= j < s.skip(1).len() ==> s.skip(1)[j] == s[j + 1]);
        lemma_split_char_no_sep(s.skip(1), sep);
        let rest = split_char_spec(s.skip(1), sep);
        assert(rest[0] == s.skip(1));
        assert(seq![s[0]] + s.skip(1) =~= s);
        assert(rest.skip(1) =~= Seq::<Seq<char>>::empty());
        assert(split_char_spec(s, sep) =~= seq![s]);
    }
}

/// Splitting at the first separator: the piece before it, then the split of
/// what follows it.
pub proof fn lemma_split_char_step(s: Seq<char>, sep: char, p: int)
    requires
        0 <= p < s.len(),
        s[p] == sep,
        forall|j: int| 0 <= j < p ==> s[j] != sep,
    ensures
        split_char_spec(s, sep) == seq![s.take(p)] + split_char_spec(s.skip(p + 1), sep),
    decreases s.len(),
{
    if p == 0 {
        assert(s.take(0) =~= Seq::<char>::empty());
        assert(split_char_spec(s, sep) =~= seq![s.take(0)] + split_char_spec(s.skip(1), sep));
    } else {
        let t = s.skip(1);
        assert(forall|j: int| 0 <= j < t.len() ==> t[j] == s[j + 1]);
        lemma_split_char_step(t, sep, p - 1);
        let rest = split_char_spec(t, sep);
        assert(rest == seq![t.take(p - 1)] + split_char_spec(t.skip(p), sep));
        assert(rest[0] == t.take(p - 1));
        assert(seq![s[0]] + t.take(p - 1) =~= s.take(p));
        assert(t.skip(p) =~= s.skip(p + 1));
        assert(rest.skip(1) =~= split_char_spec(s.skip(p + 1), sep));
        assert(split_char_spec(s, sep) =~= seq![s.take(p)] + split_char_spec(s.skip(p + 1), sep));
    }
}

/// Split `s` on the character `sep`, keeping empty pieces.
pub fn split_on_char(s: &str, sep: char) -> (r: Vec<String>)
    ensures
        r.deep_view() == split_char_spec(s@, sep),
{
    let n = s.unicode_len();
    let mut parts: Vec<String> = Vec::new();
    let mut start: usize = 0;
    let mut i: usize = 0;
    proof {
        assert(parts.deep_view() =~= Seq::<Seq<char>>::empty());
        assert(s@.subrange(0, n as int) =~= s@);
        assert(parts.deep_view() + split_char_spec(s@, sep) =~= split_char_spec(s@, sep));
    }
    while i < n
        invariant
            start <= i <= n,
            n == s@.len(),
            split_char_spec(s@, sep) == parts.deep_view() + split_char_spec(
                s@.subrange(start as int, n as int),
                sep,
            ),
            forall|j: int| start <= j < i ==> s@[j] != sep,
        decreases n - i,
    {
        if s.get_char(i) == sep {
            let piece = s.substring_char(start, i).to_owned();
            proof {
                let suffix = s@.subrange(start as int, n as int);
                assert(forall|j: int| 0 <= j < suffix.len() ==> suffix[j] == s@[start + j]);
                lemma_split_char_step(suffix, sep, i - start);
                assert(suffix.take(i - start) =~= s@.subrange(start as int, i as int));
                assert(suffix.skip(i - start + 1) =~= s@.subrange(i + 1, n as int));
            }
            let ghost old_parts = parts.deep_view();
            parts.push(piece);
            proof {
                assert(parts.deep_view() =~= old_parts.push(piece@));
                assert(old_parts.push(piece@) =~= old_parts + seq![s@.subrange(
                    start as int,
                    i as int,
                )]);
                assert(parts.deep_view() + split_char_spec(s@.subrange(i + 1, n as int), sep)
                    =~= old_parts + (seq![s@.subrange(start as int, i as int)] + split_char_spec(
                    s@.subrange(i + 1, n as int),
                    sep,
                )));
            }
            start = i + 1;
        }
        i += 1;
    }
    let piece = s.substring_char(start, n).to_owned();
    proof {
        let suffix = s@.subrange(start as int, n as int);
        assert(forall|j: int| 0 <= j < suffix.len() ==> suffix[j] == s@[start + j]);
        lemma_split_char_no_sep(suffix, sep);
    }
    let ghost old_parts = parts.deep_view();
    parts.push(piece);
    proof {
        assert(parts.deep_view() =~= old_parts.push(piece@));
        assert(parts.deep_view() =~= old_parts + seq![s@.subrange(start as int, n as int)]);
    }
    parts
}

/// Whether the chars of `a` equal the chars of `b`.
pub fn str_eq(a: &str, b: &str) -> (r: bool)
    ensures
        r == (a@ == b@),
{
    let na = a.unicode_len();
    let nb = b.unicode_len();
    if na != nb {
        return false;
    }
    let mut i: usize = 0;
    while i < na
        invariant
            i <= na,
            na == a@.len(),
            na == b@.len(),
            forall|j: int| 0 <= j < i ==> a@[j] == b@[j],
        decreases na - i,
    {
        if a.get_char(i) != b.get_char(i) {
            return false;
        }
        i += 1;
    }
    proof {
        assert(a@ =~= b@);
    }
    true
}

/// Whether `p` is a prefix of `s`.
pub open spec fn is_prefix_of(p: Seq<char>, s: Seq<char>) -> bool {
    p.len() <= s.len() && s.subrange(0, p.len() as int) == p
}

/// Whether the string `s` starts with `prefix`.
pub fn starts_with(s: &str, prefix: &str) -> (r: bool)
    ensures
        r == is_prefix_of(prefix@, s@),
{
    let n = s.unicode_len();
    let np = prefix.unicode_len();
    if np > n {
        proof {
            assert(!is_prefix_of(prefix@, s@));
        }
        return false;
    }
    let mut i: usize = 0;
    while i < np
        invariant
            i <= np <= n,
            n == s@.len(),
            np == prefix@.len(),
            forall|j: int| 0 <= j < i ==> s@[j] == prefix@[j],
        decreases np - i,
    {
        if s.get_char(i) != prefix.get_char(i) {
            proof {
                assert(s@.subrange(0, np as int)[i as int] != prefix@[i as int]);
            }
            return false;
        }
        i += 1;
    }
    proof {
        assert(s@.subrange(0, np as int) =~= prefix@);
    }
    true
}

/// `s` with leading ASCII whitespace removed.
pub open spec fn trim_start_spec(s: Seq<char>) -> Seq<char>
    decreases s.len(),
{
    if s.len() > 0 && is_ws_char(s[0]) {
        trim_start_spec(s.skip(1))
    } else {
        s
    }
}

/// `s` with trailing ASCII whitespace removed.
pub open spec fn trim_end_spec(s: Seq<char>) -> Seq<char>
    decreases s.len(),
{
    if s.len() > 0 && is_ws_char(s.last()) {
        trim_end_spec(s.drop_last())
    } else {
        s
    }
}

/// `s` with ASCII whitespace removed from both ends.
pub open spec fn trim_spec(s: Seq<char>) -> Seq<char> {
    trim_end_spec(trim_start_spec(s))
}

pub proof fn lemma_trim_start_at(s: Seq<char>, a: int)
    requires
        0 <= a <= s.len(),
        forall|j: int| 0 <= j < a ==> is_ws_char(s[j]),
        a < s.len() ==> !is_ws_char(s[a]),
    ensures
        trim_start_spec(s) == s.skip(a),
    decreases a,
{
    if a == 0 {
        assert(s.skip(0) =~= s);
    } else {
        assert(is_ws_char(s[0]));
        let t = s.skip(1);
        assert(forall|j: int| 0 <= j < t.len() ==> t[j] == s[j + 1]);
        lemma_trim_start_at(t, a - 1);
        assert(t.skip(a - 1) =~= s.skip(a));
    }
}

pub proof fn lemma_trim_end_at(s: Seq<char>, b: int)
    requires
        0 <= b <= s.len(),
        forall|j: int| b <= j < s.len() ==> is_ws_char(s[j]),
        b > 0 ==> !is_ws_char(s[b - 1]),
    ensures
        trim_end_spec(s) == s.take(b),
    decreases s.len() - b,
{
    if b == s.len() {
        assert(s.take(b) =~= s);
    } else {
        assert(is_ws_char(s.last()));
        let t = s.drop_last();
        lemma_trim_end_at(t, b);
        assert(t.take(b) =~= s.take(b));
    }
}

/// Remove ASCII whitespace from both ends of `s`.
pub fn trim_str(s: &str) -> (r: String)
    ensures
        r@ == trim_spec(s@),
{
    let n = s.unicode_len();
    let mut a: usize = 0;
    while a < n && is_ws(s.get_char(a))
        invariant
            a <= n,
            n == s@.len(),
            forall|j: int| 0 <= j < a ==> is_ws_char(s@[j]),
        decreases n - a,
    {
        a += 1;
    }
    let mut b: usize = n;
    while b > a && is_ws(s.get_char(b - 1))
        invariant
            a <= b <= n,
            n == s@.len(),
            forall|j: int| b <= j < n ==> is_ws_char(s@[j]),
        decreases b,
    {
        b -= 1;
    }
    proof {
        lemma_trim_start_at(s@, a as int);
        let t = s@.skip(a as int);
        assert(forall|j: int| 0 <= j < t.len() ==> t[j] == s@[a + j]);
        lemma_trim_end_at(t, b - a);
        assert(t.take(b - a) =~= s@.subrange(a as int, b as int));
    }
    s.substring_char(a, b).to_owned()
}

/// `s` with every leading occurrence of `c` removed.
pub open spec fn strip_leading_spec(s: Seq<char>, c: char) -> Seq<char>
    decreases s.len(),
{
    if s.len() > 0 && s[0] == c {
        strip_leading_spec(s.skip(1), c)
    } else {
        s
    }
}

/// `s` with every trailing occurrence of `c` removed.
pub open spec fn strip_trailing_spec(s: Seq<char>, c: char) -> Seq<char>
    decreases s.len(),
{
    if s.len() > 0 && s.last() == c {
        strip_trailing_spec(s.drop_last(), c)
    } else {
        s
    }
}

pub proof fn lemma_strip_leading_at(s: Seq<char>, c: char, a: int)
    requires
        0 <= a <= s.len(),
        forall|j: int| 0 <= j < a ==> s[j] == c,
        a < s.len() ==> s[a] != c,
    ensures
        strip_leading_spec(s, c) == s.skip(a),
    decreases a,
{
    if a == 0 {
        assert(s.skip(0) =~= s);
    } else {
        let t = s.skip(1);
        assert(forall|j: int| 0 <= j < t.len() ==> t[j] == s[j + 1]);
        lemma_strip_leading_at(t, c, a - 1);
        assert(t.skip(a - 1) =~= s.skip(a));
    }
}

pub proof fn lemma_strip_trailing_at(s: Seq<char>, c: char, b: int)
    requires
        0 <= b <= s.len(),
        forall|j: int| b <= j < s.len() ==> s[j] == c,
        b > 0 ==> s[b - 1] != c,
    ensures
        strip_trailing_spec(s, c) == s.take(b),
    decreases s.len() - b,
{
    if b == s.len() {
        assert(s.take(b) =~= s);
    } else {
        let t = s.drop_last();
        lemma_strip_trailing_at(t, c, b);
        assert(t.take(b) =~= s.take(b));
    }
}

/// Remove every leading `lead` and every trailing `trail` from `s`.
pub fn strip_char_ends(s: &str, lead: char, trail: char) -> (r: String)
    ensures
        r@ == strip_trailing_spec(strip_leading_spec(s@, lead), trail),
{
    let n = s.unicode_len();
    let mut a: usize = 0;
    while a < n && s.get_char(a) == lead
        invariant
            a <= n,
            n == s@.len(),
            forall|j: int| 0 <= j < a ==> s@[j] == lead,
        decreases n - a,
    {
        a += 1;
    }
    let mut b: usize = n;
    while b > a && s.get_char(b - 1) == trail
        invariant
            a <= b <= n,
            n == s@.len(),
            forall|j: int| b <= j < n ==> s@[j] == trail,
        decreases b,
    {
        b -= 1;
    }
    proof {
        lemma_strip_leading_at(s@, lead, a as int);
        let t = s@.skip(a as int);
        assert(forall|j: int| 0 <= j < t.len() ==> t[j] == s@[a + j]);
        lemma_strip_trailing_at(t, trail, b - a);
        assert(t.take(b - a) =~= s@.subrange(a as int, b as int));
    }
    s.substring_char(a, b).to_owned()
}

/// The whitespace-separated tokens of `s`, in order, with no empty tokens.
pub open spec fn split_ws_spec(s: Seq<char>) -> Seq<Seq<char>>
    decreases s.len(),
{
    if s.len() == 0 {
        Seq::<Seq<char>>::empty()
    } else if is_ws_char(s[0]) {
        split_ws_spec(s.skip(1))
    } else {
        let rest = split_ws_spec(s.skip(1));
        if s.len() >= 2 && !is_ws_char(s[1]) {
            seq![seq![s[0]] + rest[0]] + rest.skip(1)
        } else {
            seq![seq![s[0]]] + rest
        }
    }
}

/// If the head of `s` is a token of length `p`, the split is that token
/// followed by the split of the rest.
pub proof fn lemma_split_ws_token(s: Seq<char>, p: int)
    requires
        0 < p <= s.len(),
        forall|j: int| 0 <= j < p ==> !is_ws_char(s[j]),
        p < s.len() ==> is_ws_char(s[p]),
    ensures
        split_ws_spec(s) == seq![s.take(p)] + split_ws_spec(s.skip(p)),
    decreases p,
{
    let rest = split_ws_spec(s.skip(1));
    if p == 1 {
        if s.len() >= 2 {
            assert(is_ws_char(s[1]));
            assert(s.skip(1) =~= s.skip(p));
            assert(s.take(1) =~= seq![s[0]]);
        } else {
            assert(s.skip(1) =~= s.skip(p));
            assert(s.take(1) =~= seq![s[0]]);
        }
        assert(split_ws_spec(s) =~= seq![s.take(p)] + split_ws_spec(s.skip(p)));
    } else {
        let t = s.skip(1);
        assert(forall|j: int| 0 <= j < t.len() ==> t[j] == s[j + 1]);
        lemma_split_ws_token(t, p - 1);
        assert(rest == seq![t.take(p - 1)] + split_ws_spec(t.skip(p - 1)));
        assert(rest[0] == t.take(p - 1));
        assert(seq![s[0]] + t.take(p - 1) =~= s.take(p));
        assert(t.skip(p - 1) =~= s.skip(p));
        assert(rest.skip(1) =~= split_ws_spec(s.skip(p)));
        assert(s.len() >= 2 && !is_ws_char(s[1]));
        assert(split_ws_spec(s) =~= seq![s.take(p)] + split_ws_spec(s.skip(p)));
    }
}

/// Split `s` on runs of ASCII whitespace; empty tokens never occur.
pub fn split_whitespace_str(s: &str) -> (r: Vec<String>)
    ensures
        r.deep_view() == split_ws_spec(s@),
{
    let n = s.unicode_len();
    let mut parts: Vec<String> = Vec::new();
    let mut i: usize = 0;
    proof {
        assert(parts.deep_view() =~= Seq::<Seq<char>>::empty());
        assert(s@.subrange(0, n as int) =~= s@);
        assert(parts.deep_view() + split_ws_spec(s@) =~= split_ws_spec(s@));
    }
    while i < n
        invariant
            i <= n,
            n == s@.len(),
            split_ws_spec(s@) == parts.deep_view() + split_ws_spec(s@.subrange(i as int, n as int)),
        decreases n - i,
    {
        if is_ws(s.get_char(i)) {
            proof {
                let suffix = s@.subrange(i as int, n as int);
                assert(suffix[0] == s@[i as int]);
                assert(suffix.skip(1) =~= s@.subrange(i + 1, n as int));
            }
            i += 1;
        } else {
            let mut j: usize = i + 1;
            while j < n && !is_ws(s.get_char(j))
                invariant
                    i < j <= n,
                    n == s@.len(),
                    forall|k: int| i <= k < j ==> !is_ws_char(s@[k]),
                decreases n - j,
            {
                j += 1;
            }
            let piece = s.substring_char(i, j).to_owned();
            proof {
                let suffix = s@.subrange(i as int, n as int);
                assert(forall|k: int| 0 <= k < suffix.len() ==> suffix[k] == s@[i + k]);
                lemma_split_ws_token(suffix, j - i);
                assert(suffix.take(j - i) =~= s@.subrange(i as int, j as int));
                assert(suffix.skip(j - i) =~= s@.subrange(j as int, n as int));
            }
            let ghost old_parts = parts.deep_view();
            parts.push(piece);
            proof {
                assert(parts.deep_view() =~= old_parts.push(piece@));
                assert(parts.deep_view() + split_ws_spec(s@.subrange(j as int, n as int))
                    =~= old_parts + (seq![s@.subrange(i as int, j as int)] + split_ws_spec(
                    s@.subrange(j as int, n as int),
                )));
            }
            i = j;
        }
    }
    proof {
        assert(s@.subrange(n as int, n as int) =~= Seq::<char>::empty());
        assert(parts.deep_view() + Seq::<Seq<char>>::empty() =~= parts.deep_view());
    }
    parts
}

/// Whether `c` is a decimal digit.
pub open spec fn is_digit_char(c: char) -> bool {
    48 <= c as u32 && c as u32 <= 57
}

/// Whether `c` is a hexadecimal digit.
pub open spec fn is_hex_digit_char(c: char) -> bool {
    (48 <= c as u32 && c as u32 <= 57) || (97 <= c as u32 && c as u32 <= 102) || (65 <= c as u32
        && c as u32 <= 70)
}

/// Executable mirror of [`is_hex_digit_char`].
pub fn is_hex_digit(c: char) -> (r: bool)
    ensures
        r == is_hex_digit_char(c),
{
    let u = c as u32;
    (48 <= u && u <= 57) || (97 <= u && u <= 102) || (65 <= u && u <= 70)
}

/// Numeric value of the digit `c`.
pub open spec fn digit_of(c: char) -> int {
    c as u32 - 48
}

/// Whether every character of `s` is a decimal digit.
pub open spec fn all_digits(s: Seq<char>) -> bool {
    forall|i: int| 0 <= i < s.len() ==> is_digit_char(s[i])
}

/// The value of `s` read as a decimal numeral.
pub open spec fn dec_val(s: Seq<char>) -> int
    decreases s.len(),
{
    if s.len() == 0 {
        0
    } else {
        10 * dec_val(s.drop_last()) + digit_of(s.last())
    }
}

pub proof fn lemma_dec_val_nonneg(s: Seq<char>)
    requires
        all_digits(s),
    ensures
        dec_val(s) >= 0,
    decreases s.len(),
{
    if s.len() > 0 {
        lemma_dec_val_nonneg(s.drop_last());
    }
}

/// A decimal numeral is at least as large as the value of any prefix of it.
pub proof fn lemma_dec_val_extend(s: Seq<char>, k: int)
    requires
        all_digits(s),
        0 <= k <= s.len(),
    ensures
        dec_val(s) >= dec_val(s.take(k)),
    decreases s.len() - k,
{
    if k == s.len() {
        assert(s.take(k) =~= s);
    } else {
        lemma_dec_val_extend(s, k + 1);
        assert(s.take(k + 1).drop_last() =~= s.take(k));
        assert(all_digits(s.take(k)));
        lemma_dec_val_nonneg(s.take(k));
        assert(dec_val(s.take(k + 1)) == 10 * dec_val(s.take(k)) + digit_of(s.take(k + 1).last()));
    }
}

/// The value of `s` parsed as an unsigned 64-bit decimal integer, with an
/// optional leading `+`: `None` on an empty numeral, a non-digit, or a value
/// over `u64::MAX`.
pub open spec fn sign_stripped(s: Seq<char>) -> Seq<char> {
    if s.len() > 0 && s[0] == '+' {
        s.skip(1)
    } else {
        s
    }
}

pub open spec fn parse_u64_spec(s: Seq<char>) -> Option<u64> {
    let t = sign_stripped(s);
    if t.len() > 0 && all_digits(t) && dec_val(t) <= u64::MAX {
        Some(dec_val(t) as u64)
    } else {
        None
    }
}

/// Like [`parse_u64_spec`] with the range of `u32`.
pub open spec fn parse_u32_spec(s: Seq<char>) -> Option<u32> {
    let t = sign_stripped(s);
    if t.len() > 0 && all_digits(t) && dec_val(t) <= u32::MAX {
        Some(dec_val(t) as u32)
    } else {
        None
    }
}

/// [`parse_u64_spec`] with parse failures read as zero.
pub open spec fn parse_u64_or_zero_spec(s: Seq<char>) -> u64 {
    match parse_u64_spec(s) {
        Some(v) => v,
        None => 0,
    }
}

/// Parse `s` as a decimal `u64` (optional leading `+` accepted).
pub fn parse_u64(s: &str) -> (r: Option<u64>)
    ensures
        r == parse_u64_spec(s@),
{
    let n = s.unicode_len();
    let start: usize = if n > 0 && s.get_char(0) == '+' {
        1
    } else {
        0
    };
    let ghost t = s@.skip(start as int);
    proof {
        assert(forall|k: int| 0 <= k < t.len() ==> t[k] == s@[start + k]);
        if start == 0 {
            assert(t =~= s@);
        }
    }
    if start >= n {
        return None;
    }
    let mut acc: u64 = 0;
    let mut j: usize = start;
    proof {
        assert(t.subrange(0, 0) =~= Seq::<char>::empty());
    }
    while j < n
        invariant
            start <= j <= n,
            n == s@.len(),
            t == s@.skip(start as int),
            t == sign_stripped(s@),
            t.len() == n - start,
            forall|k: int| 0 <= k < t.len() ==> t[k] == s@[start + k],
            all_digits(t.subrange(0, j - start)),
            acc == dec_val(t.subrange(0, j - start)),
        decreases n - j,
    {
        let c = s.get_char(j);
        let u = c as u32;
        if !(48 <= u && u <= 57) {
            proof {
                assert(t[j - start] == s@[j as int]);
                assert(!all_digits(t));
            }
            return None;
        }
        let d: u64 = (u - 48) as u64;
        let ghost pre = t.subrange(0, j - start);
        let ghost pre1 = t.subrange(0, j - start + 1);
        proof {
            assert(pre1.drop_last() =~= pre);
            assert(pre1.last() == t[j - start]);
            assert(dec_val(pre1) == 10 * dec_val(pre) + digit_of(t[j - start]));
            lemma_dec_val_nonneg(pre);
        }
        let m: u64 = u64::MAX;
        if acc > (m - d) / 10 {
            proof {
                let mi = m as int;
                let di = d as int;
                let q = (mi - di) / 10;
                lemma_fundamental_div_mod(mi - di, 10);
                lemma_mod_division_less_than_divisor(mi - di, 10);
                lemma_mul_inequality(q + 1, acc as int, 10);
                assert((acc as int) * 10 >= (q + 1) * 10);
                assert(dec_val(pre1) > mi);
                if all_digits(t) {
                    lemma_dec_val_extend(t, j - start + 1);
                    assert(pre1 =~= t.take(j - start + 1));
                    assert(dec_val(t) > mi);
                }
            }
            return None;
        }
        proof {
            let mi = m as int;
            let di = d as int;
            let q = (mi - di) / 10;
            lemma_fundamental_div_mod(mi - di, 10);
            lemma_mod_division_less_than_divisor(mi - di, 10);
            lemma_mul_inequality(acc as int, q, 10);
            assert((acc as int) * 10 <= q * 10);
            assert((acc as int) * 10 + di <= mi);
        }
        acc = acc * 10 + d;
        j += 1;
    }
    proof {
        assert(t.subrange(0, (n - start) as int) =~= t);
        lemma_dec_val_nonneg(t);
    }
    Some(acc)
}

/// Parse `s` as a decimal `u32` (optional leading `+` accepted).
pub fn parse_u32(s: &str) -> (r: Option<u32>)
    ensures
        r == parse_u32_spec(s@),
{
    let ghost t = sign_stripped(s@);
    proof {
        if t.len() > 0 && all_digits(t) {
            lemma_dec_val_nonneg(t);
        }
    }
    match parse_u64(s) {
        Some(v) => {
            if v <= 0xffff_ffff {
                Some(v as u32)
            } else {
                None
            }
        },
        None => None,
    }
}

/// Parse `s` as a decimal `u64`, reading failures as zero.
pub fn parse_u64_or_zero(s: &str) -> (r: u64)
    ensures
        r == parse_u64_or_zero_spec(s@),
{
    match parse_u64(s) {
        Some(v) => v,
        None => 0,
    }
}

/// Remove trailing ASCII whitespace from `s`.
pub fn trim_end_str(s: &str) -> (r: String)
    ensures
        r@ == trim_end_spec(s@),
{
    let n = s.unicode_len();
    let mut b: usize = n;
    while b > 0 && is_ws(s.get_char(b - 1))
        invariant
            b <= n,
            n == s@.len(),
            forall|j: int| b <= j < n ==> is_ws_char(s@[j]),
        decreases b,
    {
        b -= 1;
    }
    proof {
        lemma_trim_end_at(s@, b as int);
        assert(s@.take(b as int) =~= s@.subrange(0, b as int));
    }
    s.substring_char(0, b).to_owned()
}

/// Strip `prefix` from the front of `s`, if present.
pub fn strip_prefix_str(s: &str, prefix: &str) -> (r: Option<String>)
    ensures
        r is Some <==> is_prefix_of(prefix@, s@),
        r is Some ==> r->0@ == s@.skip(prefix@.len() as int),
{
    if starts_with(s, prefix) {
        let np = prefix.unicode_len();
        let n = s.unicode_len();
        let rest = s.substring_char(np, n).to_owned();
        proof {
            assert(s@.subrange(np as int, n as int) =~= s@.skip(np as int));
        }
        Some(rest)
    } else {
        None
    }
}

/// Relies on `core::str::from_utf8`: it succeeds exactly on valid UTF-8
/// input (vstd's `valid_utf8`) and yields its decoded characters (vstd's
/// `decode_utf8`).
#[verifier::external_body]
pub fn decode_utf8_str(raw: &[u8]) -> (r: Option<&str>)
    ensures
        r is Some <==> vstd::utf8::valid_utf8(raw@),
        r is Some ==> r->0@ == vstd::utf8::decode_utf8(raw@),
{
    core::str::from_utf8(raw).ok()
}

/// Whether `c` occurs in the string `s`.
pub fn contains_char(s: &str, c: char) -> (r: bool)
    ensures
        r == has_char(s@, c),
{
    let n = s.unicode_len();
    let mut i: usize = 0;
    while i < n
        invariant
            i <= n,
            n == s@.len(),
            forall|j: int| 0 <= j < i ==> s@[j] != c,
        decreases n - i,
    {
        if s.get_char(i) == c {
            return true;
        }
        i += 1;
    }
    false
}

} // verus!
