//! Character-level helpers: equality, decimal parsing and formatting,
//! lexicographic order, substring search, and case folding.

use vstd::prelude::*;
use vstd::string::StrSliceExecFns;
use vstd::string::StringExecFns;

verus! {

/// True when `a` and `b` hold the same characters.
pub fn str_eq(a: &str, b: &str) -> (r: bool)
    ensures
        r == (a@ == b@),
{
    let n = a.unicode_len();
    if n != b.unicode_len() {
        return false;
    }
    let mut i: usize = 0;
    while i < n
        invariant
            i <= n,
            n == a@.len(),
            n == b@.len(),
            forall|j: int| 0 <= j < i ==> a@[j] == b@[j],
        decreases n - i,
    {
        if a.get_char(i) != b.get_char(i) {
            return false;
        }
        i = i + 1;
    }
    proof {
        assert(a@ =~= b@);
    }
    true
}

/// A decimal digit.
pub open spec fn is_digit_char(c: char) -> bool {
    '0' <= c && c <= '9'
}

/// Numeric value of one decimal digit.
pub open spec fn digit_value(c: char) -> nat
    recommends
        is_digit_char(c),
{
    (c as int - '0' as int) as nat
}

/// Every character of `s` is a decimal digit.
pub open spec fn all_digits(s: Seq<char>) -> bool {
    forall|i: int| 0 <= i < s.len() ==> is_digit_char(#[trigger] s[i])
}

/// Value of a digit string read most-significant first.
pub open spec fn digits_val(s: Seq<char>) -> nat
    decreases s.len(),
{
    if s.len() == 0 {
        0
    } else {
        digits_val(s.drop_last()) * 10 + digit_value(s.last())
    }
}

/// Meaning of a string as a 32-bit unsigned integer: defined exactly when the
/// string is non-empty, consists of decimal digits only, and its value fits.
pub open spec fn parse_u32_spec(s: Seq<char>) -> Option<u32> {
    if s.len() > 0 && all_digits(s) && digits_val(s) <= u32::MAX {
        Some(digits_val(s) as u32)
    } else {
        None
    }
}

/// A longer digit prefix never has a smaller value.
proof fn lemma_digits_val_prefix_le(s: Seq<char>, i: int, j: int)
    requires
        0 <= i <= j <= s.len(),
    ensures
        digits_val(s.take(i)) <= digits_val(s.take(j)),
    decreases j - i,
{
    if i < j {
        lemma_digits_val_prefix_le(s, i, j - 1);
        assert(s.take(j).drop_last() =~= s.take(j - 1));
        assert(digits_val(s.take(j - 1)) * 10 >= digits_val(s.take(j - 1)));
    }
}

/// Parses a decimal digit string into a `u32`; `None` on an empty string, a
/// non-digit character, or overflow.
pub fn parse_u32(s: &str) -> (r: Option<u32>)
    ensures
        r == parse_u32_spec(s@),
{
    let n = s.unicode_len();
    if n == 0 {
        return None;
    }
    let mut i: usize = 0;
    let mut acc: u32 = 0;
    while i < n
        invariant
            i <= n,
            0 < n == s@.len(),
            all_digits(s@.take(i as int)),
            acc == digits_val(s@.take(i as int)),
        decreases n - i,
    {
        let c = s.get_char(i);
        if c < '0' || '9' < c {
            return None;
        }
        let d: u32 = c as u32 - 48;
        assert(d == digit_value(c) && d <= 9);
        if acc > (u32::MAX - d) / 10 {
            proof {
                assert(s@.take(i + 1).drop_last() =~= s@.take(i as int));
                assert(s@.take(i + 1).last() == s@[i as int]);
                assert(digits_val(s@.take(i + 1)) == acc * 10 + d);
                assert(acc * 10 + d > u32::MAX) by (nonlinear_arith)
                    requires
                        acc > (u32::MAX - d) / 10,
                        d <= 9,
                ;
                lemma_digits_val_prefix_le(s@, i + 1, n as int);
                assert(s@.take(n as int) =~= s@);
            }
            return None;
        }
        assert(acc * 10 + d <= u32::MAX) by (nonlinear_arith)
            requires
                acc <= (u32::MAX - d) / 10,
                d <= 9,
        ;
        let ghost prev = acc;
        acc = acc * 10 + d;
        proof {
            assert(s@.take(i + 1).drop_last() =~= s@.take(i as int));
            assert(s@.take(i + 1).last() == s@[i as int]);
            assert(acc == digits_val(s@.take(i + 1)));
        }
        i = i + 1;
    }
    proof {
        assert(s@.take(n as int) =~= s@);
    }
    Some(acc)
}

/// Ten to the power `n`.
pub open spec fn pow10(n: nat) -> nat
    decreases n,
{
    if n == 0 {
        1
    } else {
        10 * pow10((n - 1) as nat)
    }
}

/// A string of `n` digits is worth less than ten to the `n`.
proof fn lemma_digits_val_bound(s: Seq<char>)
    requires
        all_digits(s),
    ensures
        digits_val(s) < pow10(s.len()),
    decreases s.len(),
{
    if s.len() > 0 {
        assert(forall|i: int| 0 <= i < s.drop_last().len() ==> is_digit_char(
            #[trigger] s.drop_last()[i],
        ));
        lemma_digits_val_bound(s.drop_last());
        assert(digit_value(s.last()) <= 9);
        assert(digits_val(s.drop_last()) * 10 <= (pow10((s.len() - 1) as nat) - 1) * 10)
            by (nonlinear_arith)
            requires
                digits_val(s.drop_last()) < pow10((s.len() - 1) as nat),
        ;
    }
}

/// The small powers of ten, spelled out.
proof fn lemma_pow10_small()
    ensures
        pow10(0) == 1,
        pow10(1) == 10,
        pow10(2) == 100,
        pow10(3) == 1000,
        pow10(4) == 10000,
        pow10(5) == 100000,
{
    assert(pow10(0) == 1);
    assert(pow10(1) == 10);
    assert(pow10(2) == 100);
    assert(pow10(3) == 1000);
    assert(pow10(4) == 10000);
    assert(pow10(5) == 100000);
}

/// Index of the first `.` in `s`, or `s.len()` when there is none.
pub open spec fn first_dot(s: Seq<char>) -> int
    decreases s.len(),
{
    if s.len() == 0 {
        0
    } else if s[0] == '.' {
        0
    } else {
        1 + first_dot(s.drop_first())
    }
}

/// `first_dot` is the index of the first dot: everything before `i` differs
/// from `.`, and `i` is either the length or a dot.
proof fn lemma_first_dot_at(s: Seq<char>, i: int)
    requires
        0 <= i <= s.len(),
        forall|j: int| 0 <= j < i ==> s[j] != '.',
        i < s.len() ==> s[i] == '.',
    ensures
        first_dot(s) == i,
    decreases i,
{
    if i == 0 {
    } else {
        assert(s[0] != '.');
        let t = s.drop_first();
        assert(forall|j: int| 0 <= j < i - 1 ==> #[trigger] t[j] == s[j + 1] && t[j] != '.');
        assert(i - 1 < t.len() ==> t[i - 1] == s[i] && t[i - 1] == '.');
        lemma_first_dot_at(t, i - 1);
    }
}

/// Value of a fractional digit string in hundred-thousandths: the first five
/// digits, padded on the right with zeros.
pub open spec fn frac_scaled(f: Seq<char>) -> nat {
    if f.len() >= 5 {
        digits_val(f.take(5))
    } else {
        digits_val(f) * pow10((5 - f.len()) as nat)
    }
}

/// The scaled fractional part stays under one whole unit.
proof fn lemma_frac_scaled_bound(f: Seq<char>)
    requires
        all_digits(f),
    ensures
        frac_scaled(f) < 100000,
{
    lemma_pow10_small();
    if f.len() >= 5 {
        assert(forall|i: int| 0 <= i < 5 ==> is_digit_char(#[trigger] f.take(5)[i]));
        lemma_digits_val_bound(f.take(5));
    } else {
        lemma_digits_val_bound(f);
        assert(digits_val(f) * pow10((5 - f.len()) as nat) <= (pow10(f.len()) - 1) * pow10(
            (5 - f.len()) as nat,
        )) by (nonlinear_arith)
            requires
                digits_val(f) < pow10(f.len()),
        ;
        assert(pow10(f.len()) * pow10((5 - f.len()) as nat) == pow10(5)) by {
            lemma_pow10_add(f.len(), (5 - f.len()) as nat);
        }
        assert((pow10(f.len()) - 1) * pow10((5 - f.len()) as nat) == pow10(f.len()) * pow10(
            (5 - f.len()) as nat,
        ) - pow10((5 - f.len()) as nat)) by (nonlinear_arith);
    }
}

/// Powers of ten multiply by adding exponents.
proof fn lemma_pow10_add(a: nat, b: nat)
    ensures
        pow10(a) * pow10(b) == pow10((a + b) as nat),
    decreases a,
{
    if a == 0 {
        assert(pow10(a) == 1);
        assert(pow10(a) * pow10(b) == pow10(b)) by (nonlinear_arith)
            requires
                pow10(a) == 1,
        ;
        assert(pow10((a + b) as nat) == pow10(b));
    } else {
        let a1 = (a - 1) as nat;
        lemma_pow10_add(a1, b);
        assert(pow10(a) == 10 * pow10(a1));
        assert(pow10((a + b) as nat) == 10 * pow10((a1 + b) as nat));
        assert(pow10(a) * pow10(b) == 10 * (pow10(a1) * pow10(b))) by (nonlinear_arith)
            requires
                pow10(a) == 10 * pow10(a1),
        ;
        assert(10 * (pow10(a1) * pow10(b)) == 10 * pow10((a1 + b) as nat));
        assert(pow10(a) * pow10(b) == pow10((a + b) as nat));
    }
}

/// Meaning of a string as a non-negative decimal rating in hundred-
/// thousandths of a unit: defined when the string reads `digits` or
/// `digits.digits` (the fractional digits may be empty), and the whole part
/// fits in a `u32`. Fractional digits beyond the first five are dropped.
pub open spec fn parse_rating_spec(s: Seq<char>) -> Option<u64> {
    let dot = first_dot(s);
    let whole = s.take(dot);
    let frac = if dot < s.len() {
        s.skip(dot + 1)
    } else {
        Seq::empty()
    };
    if whole.len() > 0 && all_digits(whole) && digits_val(whole) <= u32::MAX && all_digits(frac) {
        Some((digits_val(whole) * 100000 + frac_scaled(frac)) as u64)
    } else {
        None
    }
}

/// Index of the first `.` of `s`, or its length when there is none.
fn find_dot(s: &str) -> (d: usize)
    ensures
        d as int == first_dot(s@),
        d <= s@.len(),
{
    let n = s.unicode_len();
    let mut i: usize = 0;
    while i < n
        invariant
            i <= n == s@.len(),
            forall|j: int| 0 <= j < i ==> s@[j] != '.',
        decreases n - i,
    {
        if s.get_char(i) == '.' {
            proof {
                lemma_first_dot_at(s@, i as int);
            }
            return i;
        }
        i = i + 1;
    }
    proof {
        lemma_first_dot_at(s@, n as int);
    }
    n
}

/// Every character of `s` is a decimal digit.
pub fn all_digits_exec(s: &str) -> (r: bool)
    ensures
        r == all_digits(s@),
{
    let n = s.unicode_len();
    let mut i: usize = 0;
    while i < n
        invariant
            i <= n == s@.len(),
            forall|j: int| 0 <= j < i ==> is_digit_char(#[trigger] s@[j]),
        decreases n - i,
    {
        let c = s.get_char(i);
        if c < '0' || '9' < c {
            proof {
                assert(!is_digit_char(s@[i as int]));
            }
            return false;
        }
        i = i + 1;
    }
    true
}

/// Parses a decimal rating string into hundred-thousandths of a unit.
pub fn parse_rating(s: &str) -> (r: Option<u64>)
    ensures
        r == parse_rating_spec(s@),
{
    let n = s.unicode_len();
    let dot = find_dot(s);
    let whole_str = s.substring_char(0, dot);
    proof {
        assert(whole_str@ =~= s@.take(first_dot(s@)));
    }
    let w: u32 = match parse_u32(whole_str) {
        Some(w) => w,
        None => {
            return None;
        },
    };
    let frac_str = if dot < n {
        s.substring_char(dot + 1, n)
    } else {
        proof {
            reveal_strlit("");
        }
        ""
    };
    let ghost frac: Seq<char> = if first_dot(s@) < s@.len() {
        s@.skip(first_dot(s@) + 1)
    } else {
        Seq::empty()
    };
    proof {
        assert(frac_str@ =~= frac);
    }
    if !all_digits_exec(frac_str) {
        return None;
    }
    let fl = frac_str.unicode_len();
    let take5: usize = if fl >= 5 {
        5
    } else {
        fl
    };
    let f5 = frac_str.substring_char(0, take5);
    let fv: u32 = if fl == 0 {
        0
    } else {
        match parse_u32(f5) {
            Some(v) => v,
            None => {
                proof {
                    assert(f5@ =~= frac.take(take5 as int));
                    assert(forall|i: int| 0 <= i < f5@.len() ==> is_digit_char(
                        #[trigger] f5@[i],
                    ));
                    lemma_digits_val_bound(f5@);
                    lemma_pow10_small();
                    assert(pow10(f5@.len()) <= pow10(5));
                    assert(false);
                }
                0
            },
        }
    };
    let scale: u32 = if take5 == 0 {
        100000
    } else if take5 == 1 {
        10000
    } else if take5 == 2 {
        1000
    } else if take5 == 3 {
        100
    } else if take5 == 4 {
        10
    } else {
        1
    };
    proof {
        lemma_pow10_small();
        assert(scale == pow10((5 - take5) as nat));
        assert(f5@ =~= frac.take(take5 as int));
        if fl >= 5 {
            assert(fv == digits_val(frac.take(5)));
            assert(fv * scale == frac_scaled(frac));
        } else {
            assert(frac.take(take5 as int) =~= frac);
            if fl == 0 {
                assert(frac =~= Seq::<char>::empty());
                assert(digits_val(frac) == 0);
                assert(0 * pow10((5 - frac.len()) as nat) == 0) by (nonlinear_arith);
                assert(frac_scaled(frac) == 0);
            } else {
                assert(fv == digits_val(frac));
            }
            assert(fv * scale == frac_scaled(frac));
        }
        lemma_frac_scaled_bound(frac);
        assert(fv * scale < 100000);
    }
    let value: u64 = (w as u64) * 100000 + (fv as u64) * (scale as u64);
    proof {
        assert(value == digits_val(s@.take(first_dot(s@))) * 100000 + frac_scaled(frac));
    }
    Some(value)
}

/// Lexicographic order on character sequences: the empty sequence first,
/// then by first difference.
pub open spec fn lex_le(a: Seq<char>, b: Seq<char>) -> bool
    decreases a.len(),
{
    if a.len() == 0 {
        true
    } else if b.len() == 0 {
        false
    } else if a[0] < b[0] {
        true
    } else if b[0] < a[0] {
        false
    } else {
        lex_le(a.drop_first(), b.drop_first())
    }
}

/// Strict lexicographic order.
pub open spec fn lex_lt(a: Seq<char>, b: Seq<char>) -> bool {
    lex_le(a, b) && a != b
}

/// Any two sequences are lexicographically comparable.
pub proof fn lemma_lex_le_total(a: Seq<char>, b: Seq<char>)
    ensures
        lex_le(a, b) || lex_le(b, a),
    decreases a.len(),
{
    if a.len() > 0 && b.len() > 0 && a[0] == b[0] {
        lemma_lex_le_total(a.drop_first(), b.drop_first());
    }
}

/// Two sequences each no later than the other are equal.
pub proof fn lemma_lex_le_antisym(a: Seq<char>, b: Seq<char>)
    requires
        lex_le(a, b),
        lex_le(b, a),
    ensures
        a == b,
    decreases a.len(),
{
    if a.len() > 0 && b.len() > 0 {
        lemma_lex_le_antisym(a.drop_first(), b.drop_first());
        assert(a =~= seq![a[0]] + a.drop_first());
        assert(b =~= seq![b[0]] + b.drop_first());
    } else {
        assert(a.len() == 0 && b.len() == 0);
        assert(a =~= b);
    }
}

/// Lexicographic order is transitive.
pub proof fn lemma_lex_le_trans(a: Seq<char>, b: Seq<char>, c: Seq<char>)
    requires
        lex_le(a, b),
        lex_le(b, c),
    ensures
        lex_le(a, c),
    decreases a.len(),
{
    if a.len() > 0 && b.len() > 0 && c.len() > 0 {
        if a[0] == b[0] && b[0] == c[0] {
            lemma_lex_le_trans(a.drop_first(), b.drop_first(), c.drop_first());
        }
    }
}

/// Compares two strings lexicographically by characters.
pub fn str_le(a: &str, b: &str) -> (r: bool)
    ensures
        r == lex_le(a@, b@),
{
    let an = a.unicode_len();
    let bn = b.unicode_len();
    let mut i: usize = 0;
    proof {
        assert(a@.skip(0) =~= a@);
        assert(b@.skip(0) =~= b@);
    }
    loop
        invariant
            i <= an,
            i <= bn,
            an == a@.len(),
            bn == b@.len(),
            forall|j: int| 0 <= j < i ==> a@[j] == b@[j],
            lex_le(a@, b@) == lex_le(a@.skip(i as int), b@.skip(i as int)),
        ensures
            lex_le(a@, b@) == lex_le(a@.skip(i as int), b@.skip(i as int)),
            i <= an && i <= bn,
            (i == an || i == bn) || a@[i as int] != b@[i as int],
        decreases an - i,
    {
        if i == an || i == bn {
            break ;
        }
        let ca = a.get_char(i);
        let cb = b.get_char(i);
        if ca != cb {
            break ;
        }
        proof {
            assert(a@.skip(i as int).drop_first() =~= a@.skip(i + 1));
            assert(b@.skip(i as int).drop_first() =~= b@.skip(i + 1));
            assert(a@.skip(i as int)[0] == a@[i as int]);
            assert(b@.skip(i as int)[0] == b@[i as int]);
        }
        i = i + 1;
    }
    if i == an {
        proof {
            assert(a@.skip(i as int).len() == 0);
        }
        true
    } else if i == bn {
        proof {
            assert(b@.skip(i as int).len() == 0 && a@.skip(i as int).len() > 0);
        }
        false
    } else {
        let ca = a.get_char(i);
        let cb = b.get_char(i);
        proof {
            assert(a@.skip(i as int)[0] == a@[i as int]);
            assert(b@.skip(i as int)[0] == b@[i as int]);
        }
        ca < cb
    }
}

/// Compares two strings strictly.
pub fn str_lt(a: &str, b: &str) -> (r: bool)
    ensures
        r == lex_lt(a@, b@),
{
    let le = str_le(a, b);
    if le {
        let eq = str_eq(a, b);
        !eq
    } else {
        proof {
            if a@ == b@ {
                assert(lex_le(a@, b@) == lex_le(b@, b@));
                lemma_lex_le_total(b@, b@);
            }
        }
        false
    }
}

/// `n` occurs in `h` as a contiguous run of characters.
pub open spec fn is_substring(h: Seq<char>, n: Seq<char>) -> bool {
    exists|i: int| 0 <= i <= h.len() - n.len() && #[trigger] h.subrange(i, i + n.len()) == n
}

/// `n` occurs in `h` starting at `i`.
spec fn matches_at(h: Seq<char>, n: Seq<char>, i: int) -> bool {
    0 <= i <= h.len() - n.len() && h.subrange(i, i + n.len()) == n
}

/// Whether `n` occurs in `h` starting at position `i`.
fn check_match_at(h: &str, n: &str, i: usize) -> (r: bool)
    requires
        i + n@.len() <= h@.len(),
    ensures
        r == matches_at(h@, n@, i as int),
{
    let hn = h.unicode_len();
    let nn = n.unicode_len();
    let mut k: usize = 0;
    while k < nn
        invariant
            k <= nn == n@.len(),
            hn == h@.len(),
            i + nn <= hn,
            forall|j: int| 0 <= j < k ==> h@[i + j] == n@[j],
        decreases nn - k,
    {
        if h.get_char(i + k) != n.get_char(k) {
            proof {
                assert(h@[i + k] != n@[k as int]);
                if matches_at(h@, n@, i as int) {
                    assert(h@.subrange(i as int, i + n@.len())[k as int] == h@[i + k]);
                }
            }
            return false;
        }
        k = k + 1;
    }
    proof {
        assert(h@.subrange(i as int, i + n@.len()) =~= n@);
    }
    true
}

/// Substring search: true exactly when `n` occurs in `h`.
pub fn contains_sub(h: &str, n: &str) -> (r: bool)
    ensures
        r == is_substring(h@, n@),
{
    let hn = h.unicode_len();
    let nn = n.unicode_len();
    if nn > hn {
        return false;
    }
    if nn == 0 {
        proof {
            assert(h@.subrange(0, 0 + n@.len() as int) =~= n@);
        }
        return true;
    }
    let mut i: usize = 0;
    while i <= hn - nn
        invariant
            1 <= nn <= hn,
            hn == h@.len(),
            nn == n@.len(),
            i <= hn - nn + 1,
            forall|j: int| 0 <= j < i ==> !matches_at(h@, n@, j),
        decreases hn - nn - i + 1,
    {
        if check_match_at(h, n, i) {
            proof {
                assert(h@.subrange(i as int, i + n@.len()) == n@);
            }
            return true;
        }
        i = i + 1;
    }
    proof {
        assert forall|j: int| 0 <= j <= h@.len() - n@.len() implies #[trigger] h@.subrange(
            j,
            j + n@.len(),
        ) != n@ by {
            assert(!matches_at(h@, n@, j));
        }
    }
    false
}

/// Case-folded form of a character sequence, as `str::to_lowercase`
/// computes it; the result depends on the characters alone.
pub uninterp spec fn lower_of(s: Seq<char>) -> Seq<char>;

/// Relies on `str::to_lowercase`: the Unicode lowercase mapping of the
/// string, a function of its characters alone; an empty string stays empty.
#[verifier::external_body]
fn to_lowercase(s: &str) -> (r: String)
    ensures
        r@ == lower_of(s@),
        s@.len() == 0 ==> r@.len() == 0,
{
    s.to_lowercase()
}

/// Case-insensitive containment: `needle` occurs in `haystack` after both
/// are folded to lowercase. An empty needle always matches.
pub fn str_contains(haystack: &str, needle: &str) -> (r: bool)
    ensures
        r == is_substring(lower_of(haystack@), lower_of(needle@)),
        needle@.len() == 0 ==> r,
{
    let h = to_lowercase(haystack);
    let n = to_lowercase(needle);
    proof {
        if needle@.len() == 0 {
            assert(lower_of(needle@).len() == 0);
            assert(lower_of(haystack@).subrange(0, 0 + lower_of(needle@).len() as int) =~= lower_of(
                needle@,
            ));
        }
    }
    contains_sub(h.as_str(), n.as_str())
}

/// Decimal digit character for `d`.
pub open spec fn digit_char(d: nat) -> char {
    if d == 0 {
        '0'
    } else if d == 1 {
        '1'
    } else if d == 2 {
        '2'
    } else if d == 3 {
        '3'
    } else if d == 4 {
        '4'
    } else if d == 5 {
        '5'
    } else if d == 6 {
        '6'
    } else if d == 7 {
        '7'
    } else if d == 8 {
        '8'
    } else {
        '9'
    }
}

/// Decimal digits of `n`, most significant first.
pub open spec fn u32_digits(n: nat) -> Seq<char>
    decreases n,
{
    if n < 10 {
        seq![digit_char(n)]
    } else {
        u32_digits(n / 10).push(digit_char(n % 10))
    }
}

/// The one-character string for a decimal digit.
fn digit_str(d: u32) -> (r: &'static str)
    requires
        d < 10,
    ensures
        r@ == seq![digit_char(d as nat)],
{
    if d == 0 {
        proof {
            reveal_strlit("0");
            assert("0"@ =~= seq![digit_char(0)]);
        }
        "0"
    } else if d == 1 {
        proof {
            reveal_strlit("1");
            assert("1"@ =~= seq![digit_char(1)]);
        }
        "1"
    } else if d == 2 {
        proof {
            reveal_strlit("2");
            assert("2"@ =~= seq![digit_char(2)]);
        }
        "2"
    } else if d == 3 {
        proof {
            reveal_strlit("3");
            assert("3"@ =~= seq![digit_char(3)]);
        }
        "3"
    } else if d == 4 {
        proof {
            reveal_strlit("4");
            assert("4"@ =~= seq![digit_char(4)]);
        }
        "4"
    } else if d == 5 {
        proof {
            reveal_strlit("5");
            assert("5"@ =~= seq![digit_char(5)]);
        }
        "5"
    } else if d == 6 {
        proof {
            reveal_strlit("6");
            assert("6"@ =~= seq![digit_char(6)]);
        }
        "6"
    } else if d == 7 {
        proof {
            reveal_strlit("7");
            assert("7"@ =~= seq![digit_char(7)]);
        }
        "7"
    } else if d == 8 {
        proof {
            reveal_strlit("8");
            assert("8"@ =~= seq![digit_char(8)]);
        }
        "8"
    } else {
        proof {
            reveal_strlit("9");
            assert("9"@ =~= seq![digit_char(9)]);
        }
        "9"
    }
}

/// Formats `n` in decimal, most significant digit first.
pub fn u32_to_string(n: u32) -> (r: String)
    ensures
        r@ == u32_digits(n as nat),
    decreases n,
{
    if n < 10 {
        let s = digit_str(n);
        s.to_owned()
    } else {
        let mut r = u32_to_string(n / 10);
        r.append(digit_str(n % 10));
        proof {
            assert(u32_digits(n as nat) =~= u32_digits((n as nat) / 10) + seq![
                digit_char((n as nat) % 10),
            ]);
        }
        r
    }
}

/// Strict lexicographic order is transitive.
pub proof fn lemma_lex_lt_trans(a: Seq<char>, b: Seq<char>, c: Seq<char>)
    requires
        lex_lt(a, b),
        lex_lt(b, c),
    ensures
        lex_lt(a, c),
{
    lemma_lex_le_trans(a, b, c);
    if a == c {
        lemma_lex_le_antisym(a, b);
    }
}

} // verus!
