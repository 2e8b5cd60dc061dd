//! Reading byte counts from human-readable text (decimal units: 1 KB = 1000 B).
use vstd::prelude::*;

use crate::text::{
    ascii_upper, ascii_upper_exec, chars_of, dec, digit_char, is_ascii_alpha, is_digit, is_white_space, pow10,
    push_str, string_from_chars, trim, trim_bounds, trim_end, trim_start,
};

verus! {
// ---------------------------------------------------------------------------
// parse_size
// ---------------------------------------------------------------------------

/// Why a size text was refused; each variant holds the text as given.
#[derive(Debug)]
pub enum SizeError {
    /// The number part is not a decimal number.
    InvalidSize(String),
    /// The unit part is none of B, K, KB, M, MB, G, GB, T, TB (any case).
    InvalidUnit(String),
}

impl SizeError {
    /// The message shown to the user: "invalid size: <text>" or
    /// "invalid size unit: <text>".
    pub fn message(&self) -> (m: String)
        ensures
            m@ == match self {
                SizeError::InvalidSize(t) => "invalid size: "@ + t@,
                SizeError::InvalidUnit(t) => "invalid size unit: "@ + t@,
            },
    {
        let mut out: Vec<char> = Vec::new();
        match self {
            SizeError::InvalidSize(t) => {
                push_str(&mut out, "invalid size: ");
                push_str(&mut out, t.as_str());
            },
            SizeError::InvalidUnit(t) => {
                push_str(&mut out, "invalid size unit: ");
                push_str(&mut out, t.as_str());
            },
        }
        string_from_chars(&out)
    }
}

/// How a size text reads.
pub ghost enum SizeText {
    /// A well-formed number (its text) and the power of ten of its unit.
    Parts(Seq<char>, nat),
    /// The number part is malformed.
    BadNumber,
    /// The number is well formed but the unit is unknown.
    BadUnit,
}

/// Index of the first ASCII letter of `s` (its length if there is none).
pub open spec fn first_alpha(s: Seq<char>) -> nat
    decreases s.len(),
{
    if s.len() == 0 || is_ascii_alpha(s[0]) {
        0
    } else {
        1 + first_alpha(s.drop_first())
    }
}

/// Length of the longest prefix of `s` made of ASCII digits.
pub open spec fn digit_prefix_len(s: Seq<char>) -> nat
    decreases s.len(),
{
    if s.len() > 0 && is_digit(s[0]) {
        1 + digit_prefix_len(s.drop_first())
    } else {
        0
    }
}

pub open spec fn all_digits(s: Seq<char>) -> bool {
    forall|i: int| 0 <= i < s.len() ==> #[trigger] is_digit(s[i])
}

/// A decimal number `[+-]? (D+ | D+ '.' D* | D* '.' D+)`, as
/// `(negative, integer digits, fraction digits)`.
pub open spec fn number_parts(s: Seq<char>) -> Option<(bool, Seq<char>, Seq<char>)> {
    let signed = s.len() > 0 && (s[0] == '+' || s[0] == '-');
    let neg = s.len() > 0 && s[0] == '-';
    let body = if signed {
        s.drop_first()
    } else {
        s
    };
    let n = digit_prefix_len(body);
    let rest = body.skip(n as int);
    if rest.len() == 0 {
        if n > 0 {
            Some((neg, body, Seq::<char>::empty()))
        } else {
            None
        }
    } else if rest[0] == '.' && all_digits(rest.drop_first()) && n + rest.len() > 1 {
        Some((neg, body.take(n as int), rest.drop_first()))
    } else {
        None
    }
}

/// The power of ten a unit stands for: B (or nothing) 0, K/KB 3, M/MB 6,
/// G/GB 9, T/TB 12 (the unit text is already upper case).
pub open spec fn unit_exponent(u: Seq<char>) -> Option<nat> {
    if u == Seq::<char>::empty() || u == seq!['B'] {
        Some(0)
    } else if u == seq!['K'] || u == seq!['K', 'B'] {
        Some(3)
    } else if u == seq!['M'] || u == seq!['M', 'B'] {
        Some(6)
    } else if u == seq!['G'] || u == seq!['G', 'B'] {
        Some(9)
    } else if u == seq!['T'] || u == seq!['T', 'B'] {
        Some(12)
    } else {
        None
    }
}

pub open spec fn digit_value(c: char) -> nat {
    ((c as int) - 48) as nat
}

/// The value of a string of decimal digits.
pub open spec fn dec_value(s: Seq<char>) -> nat
    decreases s.len(),
{
    if s.len() == 0 {
        0
    } else {
        10 * dec_value(s.drop_last()) + digit_value(s.last())
    }
}

/// The upper-cased, trimmed text a size is read from.
pub open spec fn size_text(input: Seq<char>) -> Seq<char> {
    trim(input).map_values(|c: char| ascii_upper(c))
}

/// How `input` reads: the text is trimmed and upper-cased, then split
/// before its first ASCII letter into a number and a unit, each trimmed
/// again. The number must be a decimal number, the unit one of the known
/// ones.
pub open spec fn size_of_text(input: Seq<char>) -> SizeText {
    let s = size_text(input);
    let k = first_alpha(s);
    let num = trim(s.take(k as int));
    let unit = trim(s.skip(k as int));
    match number_parts(num) {
        None => SizeText::BadNumber,
        Some(_) => match unit_exponent(unit) {
            None => SizeText::BadUnit,
            Some(e) => SizeText::Parts(num, e),
        },
    }
}

/// A size text taken apart: a decimal number and the unit it is counted in.
/// The byte count is the number times `scale`, rounded toward zero; the
/// command computes it in floating point.
#[derive(Debug)]
pub struct SizeParts {
    /// The number, trimmed: `[+-]? (D+ | D+ '.' D* | D* '.' D+)`.
    pub number: String,
    /// What one unit is worth in bytes: 1, 10^3, 10^6, 10^9 or 10^12.
    pub scale: u64,
}

/// Parse "500", "10KB", "1.5GB", "2 gb" into a number and a unit (decimal
/// units). A malformed number is reported before an unknown unit.
pub fn parse_size(input: &str) -> (r: Result<SizeParts, SizeError>)
    ensures
        match size_of_text(input@) {
            SizeText::Parts(num, e) => r matches Ok(p) && p.number@ == num && p.scale == pow10(e),
            SizeText::BadNumber => r matches Err(SizeError::InvalidSize(t)) && t@ == input@,
            SizeText::BadUnit => r matches Err(SizeError::InvalidUnit(t)) && t@ == input@,
        },
{
    let raw = chars_of(input);
    let (a, b) = trim_bounds(&raw, 0, raw.len());
    let mut s: Vec<char> = Vec::new();
    let mut i = a;
    while i < b
        invariant
            a <= i <= b <= raw.len(),
            s@ == raw@.subrange(a as int, i as int).map_values(|c: char| ascii_upper(c)),
        decreases b - i,
    {
        s.push(ascii_upper_exec(raw[i]));
        i += 1;
        assert(s@ =~= raw@.subrange(a as int, i as int).map_values(|c: char| ascii_upper(c)));
    }
    assert(raw@.subrange(0, raw@.len() as int) == raw@);
    assert(s@ == size_text(input@));
    let k = first_alpha_exec(&s);
    let (na, nb) = trim_bounds(&s, 0, k);
    let (ua, ub) = trim_bounds(&s, k, s.len());
    assert(s@.subrange(0, k as int) == s@.take(k as int));
    assert(s@.subrange(k as int, s@.len() as int) == s@.skip(k as int));
    let parts = number_bounds(&s, na, nb);
    match parts {
        None => Err(SizeError::InvalidSize(input.to_owned())),
        Some(_) => {
            match unit_exponent_exec(&s, ua, ub) {
                None => Err(SizeError::InvalidUnit(input.to_owned())),
                Some(e) => {
                    let mut num: Vec<char> = Vec::new();
                    let mut j = na;
                    while j < nb
                        invariant
                            na <= j <= nb <= s.len(),
                            num@ == s@.subrange(na as int, j as int),
                        decreases nb - j,
                    {
                        num.push(s[j]);
                        j += 1;
                        assert(num@ =~= s@.subrange(na as int, j as int));
                    }
                    Ok(SizeParts { number: string_from_chars(&num), scale: scale_of(e) })
                },
            }
        },
    }
}

fn first_alpha_exec(s: &Vec<char>) -> (k: usize)
    ensures
        k == first_alpha(s@),
        k <= s.len(),
{
    let mut k: usize = 0;
    assert(s@.skip(0) == s@);
    while k < s.len() && !(('a' <= s[k] && s[k] <= 'z') || ('A' <= s[k] && s[k] <= 'Z'))
        invariant
            k <= s.len(),
            first_alpha(s@) == k + first_alpha(s@.skip(k as int)),
        decreases s.len() - k,
    {
        assert(s@.skip(k as int).drop_first() == s@.skip(k + 1));
        k += 1;
    }
    k
}

/// Splits the number in `s[lo..hi]` into sign, integer digits `s[ia..ib]`
/// and fraction digits `s[fa..fb]`.
fn number_bounds(s: &Vec<char>, lo: usize, hi: usize) -> (r: Option<
    (bool, usize, usize, usize, usize),
>)
    requires
        lo <= hi <= s.len(),
    ensures
        match number_parts(s@.subrange(lo as int, hi as int)) {
            None => r is None,
            Some((neg, ip, fp)) => r matches Some((n, ia, ib, fa, fb)) && n == neg && ia <= ib
                <= s.len() && fa <= fb <= s.len() && s@.subrange(ia as int, ib as int) == ip
                && s@.subrange(fa as int, fb as int) == fp && all_digits(ip) && all_digits(fp),
        },
{
    let ghost num = s@.subrange(lo as int, hi as int);
    let mut i = lo;
    let mut neg = false;
    if i < hi && (s[i] == '+' || s[i] == '-') {
        neg = s[i] == '-';
        i += 1;
    }
    let ghost body = s@.subrange(i as int, hi as int);
    assert(body == (if num.len() > 0 && (num[0] == '+' || num[0] == '-') {
        num.drop_first()
    } else {
        num
    }));
    let mut j = i;
    while j < hi && '0' <= s[j] && s[j] <= '9'
        invariant
            i <= j <= hi <= s.len(),
            digit_prefix_len(body) == (j - i) + digit_prefix_len(s@.subrange(j as int, hi as int)),
            body == s@.subrange(i as int, hi as int),
            forall|x: int| i <= x < j ==> is_digit(#[trigger] s@[x]),
        decreases hi - j,
    {
        assert(s@.subrange(j as int, hi as int).drop_first() == s@.subrange(j + 1, hi as int));
        j += 1;
    }
    let ghost n = digit_prefix_len(body);
    assert(n == j - i);
    assert(body.skip(n as int) == s@.subrange(j as int, hi as int));
    if j == hi {
        if j > i {
            assert(body.take(n as int) == body);
            assert(all_digits(s@.subrange(i as int, j as int)));
            assert(all_digits(s@.subrange(j as int, j as int)));
            Some((neg, i, j, j, j))
        } else {
            None
        }
    } else if s[j] == '.' {
        let mut t = j + 1;
        while t < hi && '0' <= s[t] && s[t] <= '9'
            invariant
                j + 1 <= t <= hi <= s.len(),
                forall|x: int| j + 1 <= x < t ==> is_digit(#[trigger] s@[x]),
            decreases hi - t,
        {
            t += 1;
        }
        let ghost rest = s@.subrange(j as int, hi as int);
        assert(rest.drop_first() == s@.subrange(j + 1, hi as int));
        if t == hi && (j - i) + (hi - j) > 1 {
            assert(all_digits(rest.drop_first()));
            assert(body.take(n as int) == s@.subrange(i as int, j as int));
            assert(all_digits(s@.subrange(i as int, j as int)));
            Some((neg, i, j, j + 1, hi))
        } else {
            assert(!all_digits(rest.drop_first()) || n + rest.len() <= 1) by {
                if t < hi {
                    assert(!is_digit(rest.drop_first()[t - j - 1]));
                }
            }
            None
        }
    } else {
        None
    }
}

/// What one unit of exponent `e` is worth: `10^e`.
fn scale_of(e: u32) -> (r: u64)
    requires
        e == 0 || e == 3 || e == 6 || e == 9 || e == 12,
    ensures
        r == pow10(e as nat),
{
    reveal_with_fuel(pow10, 13);
    if e == 0 {
        1
    } else if e == 3 {
        1000
    } else if e == 6 {
        1_000_000
    } else if e == 9 {
        1_000_000_000
    } else {
        1_000_000_000_000
    }
}

proof fn lemma_seq1_eq(c: char, d: char)
    ensures
        (seq![c] == seq![d]) == (c == d),
{
    if seq![c] == seq![d] {
        assert(seq![c][0] == seq![d][0]);
    }
}

proof fn lemma_seq2_eq(c: char, x: char, d: char, y: char)
    ensures
        (seq![c, x] == seq![d, y]) == (c == d && x == y),
{
    if seq![c, x] == seq![d, y] {
        assert(seq![c, x][0] == seq![d, y][0]);
        assert(seq![c, x][1] == seq![d, y][1]);
    }
    if c == d && x == y {
        assert(seq![c, x] =~= seq![d, y]);
    }
}

/// The exponent of the unit `s[lo..hi]`.
fn unit_exponent_exec(s: &Vec<char>, lo: usize, hi: usize) -> (r: Option<u32>)
    requires
        lo <= hi <= s.len(),
    ensures
        match unit_exponent(s@.subrange(lo as int, hi as int)) {
            None => r is None,
            Some(e) => r == Some(e as u32),
        },
{
    let ghost u = s@.subrange(lo as int, hi as int);
    if hi == lo {
        assert(u =~= Seq::<char>::empty());
        return Some(0);
    }
    let len = hi - lo;
    if len > 2 {
        assert(u.len() > 2);
        return None;
    }
    let c = s[lo];
    let x = if len == 2 {
        s[lo + 1]
    } else {
        ' '
    };
    proof {
        lemma_seq1_eq(c, 'B');
        lemma_seq1_eq(c, 'K');
        lemma_seq1_eq(c, 'M');
        lemma_seq1_eq(c, 'G');
        lemma_seq1_eq(c, 'T');
        lemma_seq2_eq(c, x, 'K', 'B');
        lemma_seq2_eq(c, x, 'M', 'B');
        lemma_seq2_eq(c, x, 'G', 'B');
        lemma_seq2_eq(c, x, 'T', 'B');
        if len == 1 {
            assert(u =~= seq![c]);
        } else {
            assert(u =~= seq![c, x]);
        }
    }
    if len == 1 {
        if c == 'B' {
            Some(0)
        } else if c == 'K' {
            Some(3)
        } else if c == 'M' {
            Some(6)
        } else if c == 'G' {
            Some(9)
        } else if c == 'T' {
            Some(12)
        } else {
            None
        }
    } else if x != 'B' {
        None
    } else if c == 'K' {
        Some(3)
    } else if c == 'M' {
        Some(6)
    } else if c == 'G' {
        Some(9)
    } else if c == 'T' {
        Some(12)
    } else {
        None
    }
}

// ---------------------------------------------------------------------------
// Decimal units
// ---------------------------------------------------------------------------

proof fn lemma_dec_digits(n: nat)
    ensures
        dec(n).len() > 0,
        all_digits(dec(n)),
        dec_value(dec(n)) == n,
    decreases n,
{
    if n < 10 {
        assert(digit_value(digit_char(n)) == n);
        assert(dec(n).drop_last() =~= Seq::<char>::empty());
        assert(dec_value(Seq::<char>::empty()) == 0);
    } else {
        lemma_dec_digits(n / 10);
        let d = dec(n / 10);
        assert(dec(n) == d.push(digit_char(n % 10)));
        assert(dec(n).drop_last() == d);
        assert(digit_value(digit_char(n % 10)) == n % 10);
        assert(dec_value(dec(n)) == 10 * (n / 10) + n % 10);
        assert(n == 10 * (n / 10) + n % 10) by (nonlinear_arith);
        assert forall|i: int| 0 <= i < dec(n).len() implies #[trigger] is_digit(dec(n)[i]) by {
            if i < d.len() {
                assert(dec(n)[i] == d[i]);
            }
        }
    }
}

proof fn lemma_digit_prefix_all(s: Seq<char>)
    requires
        all_digits(s),
    ensures
        digit_prefix_len(s) == s.len(),
    decreases s.len(),
{
    if s.len() > 0 {
        assert(is_digit(s[0]));
        assert forall|i: int| 0 <= i < s.drop_first().len() implies #[trigger] is_digit(
            s.drop_first()[i],
        ) by {
            assert(is_digit(s[i + 1]));
        }
        lemma_digit_prefix_all(s.drop_first());
    }
}

proof fn lemma_first_alpha_concat(a: Seq<char>, b: Seq<char>)
    requires
        forall|i: int| 0 <= i < a.len() ==> !is_ascii_alpha(#[trigger] a[i]),
    ensures
        first_alpha(a + b) == a.len() + first_alpha(b),
    decreases a.len(),
{
    if a.len() > 0 {
        assert((a + b)[0] == a[0]);
        assert((a + b).drop_first() == a.drop_first() + b);
        assert forall|i: int| 0 <= i < a.drop_first().len() implies !is_ascii_alpha(
            #[trigger] a.drop_first()[i],
        ) by {
            assert(!is_ascii_alpha(a[i + 1]));
        }
        lemma_first_alpha_concat(a.drop_first(), b);
    } else {
        assert(a + b == b);
    }
}

/// `trim` leaves a text alone when neither end is white space.
proof fn lemma_trim_noop(s: Seq<char>)
    requires
        s.len() == 0 || (!is_white_space(s[0]) && !is_white_space(s.last())),
    ensures
        trim(s) == s,
{
}

/// A unit letter reads the same in either case, and is a letter.
proof fn lemma_unit_chars(unit: Seq<char>, e: nat)
    requires
        unit_exponent(unit.map_values(|c: char| ascii_upper(c))) == Some(e),
    ensures
        forall|i: int| 0 <= i < unit.len() ==> #[trigger] is_ascii_alpha(unit[i]),
        unit.len() <= 2,
{
    let u = unit.map_values(|c: char| ascii_upper(c));
    assert(u.len() == unit.len());
    assert forall|i: int| 0 <= i < unit.len() implies #[trigger] is_ascii_alpha(unit[i]) by {
        let c = unit[i];
        assert(u[i] == ascii_upper(c));
        if u =~= seq!['B'] || u =~= seq!['K'] || u =~= seq!['M'] || u =~= seq!['G'] || u
            =~= seq!['T'] {
            assert(i == 0);
        } else {
            assert(i == 0 || i == 1);
        }
    }
}

/// Decimal units: a whole number followed by a unit (B or none, K/KB, M/MB,
/// G/GB, T/TB, in any case) reads as that number times the unit's power of
/// ten: 10^0, 10^3, 10^6, 10^9, 10^12.
pub proof fn lemma_whole_number_with_unit(n: nat, unit: Seq<char>, e: nat)
    requires
        unit_exponent(unit.map_values(|c: char| ascii_upper(c))) == Some(e),
    ensures
        size_of_text(dec(n) + unit) == SizeText::Parts(dec(n), e),
        number_parts(dec(n)) == Some((false, dec(n), Seq::<char>::empty())),
        dec_value(dec(n)) == n,
{
    let d = dec(n);
    let x = d + unit;
    let u = unit.map_values(|c: char| ascii_upper(c));
    lemma_dec_digits(n);
    lemma_unit_chars(unit, e);
    assert(!is_white_space(x[0])) by {
        assert(x[0] == d[0]);
        assert(is_digit(d[0]));
    }
    assert(!is_white_space(x.last())) by {
        if unit.len() > 0 {
            assert(x.last() == unit.last());
            assert(is_ascii_alpha(unit[unit.len() - 1]));
        } else {
            assert(x.last() == d.last());
            assert(is_digit(d[d.len() - 1]));
        }
    }
    lemma_trim_noop(x);
    let s = size_text(x);
    assert(s =~= d + u) by {
        assert forall|i: int| 0 <= i < d.len() implies #[trigger] ascii_upper(d[i]) == d[i] by {
            assert(is_digit(d[i]));
        }
    }
    assert forall|i: int| 0 <= i < d.len() implies !is_ascii_alpha(#[trigger] d[i]) by {
        assert(is_digit(d[i]));
    }
    lemma_first_alpha_concat(d, u);
    assert(first_alpha(u) == 0) by {
        if u.len() > 0 {
            assert(u[0] == ascii_upper(unit[0]));
            assert(is_ascii_alpha(unit[0]));
        }
    }
    let k = first_alpha(s);
    assert(k == d.len());
    assert(s.take(k as int) == d);
    assert(s.skip(k as int) == u);
    assert(!is_white_space(d.last())) by {
        assert(is_digit(d[d.len() - 1]));
    }
    lemma_trim_noop(d);
    assert(trim(u) == u) by {
        if u.len() > 0 {
            assert(u[0] == ascii_upper(unit[0]));
            assert(is_ascii_alpha(unit[0]));
            assert(u.last() == ascii_upper(unit[unit.len() - 1]));
            assert(is_ascii_alpha(unit[unit.len() - 1]));
        }
        lemma_trim_noop(u);
    }
    lemma_digit_prefix_all(d);
    assert(is_digit(d[0]));
    assert(d.skip(d.len() as int) =~= Seq::<char>::empty());
    assert(number_parts(d) == Some((false, d, Seq::<char>::empty())));
}


// ---------------------------------------------------------------------------
// Case and surrounding white space
// ---------------------------------------------------------------------------

/// Whether `a` and `b` differ at most in the case of ASCII letters.
pub open spec fn same_but_case(a: Seq<char>, b: Seq<char>) -> bool {
    &&& a.len() == b.len()
    &&& forall|i: int| 0 <= i < a.len() ==> ascii_upper(#[trigger] a[i]) == ascii_upper(b[i])
}

/// Whether every character of `s` is white space.
pub open spec fn all_white(s: Seq<char>) -> bool {
    forall|i: int| 0 <= i < s.len() ==> is_white_space(#[trigger] s[i])
}

proof fn lemma_upper_keeps_white(c: char, d: char)
    requires
        ascii_upper(c) == ascii_upper(d),
    ensures
        is_white_space(c) == is_white_space(d),
{
}

proof fn lemma_trim_start_white(s: Seq<char>)
    requires
        all_white(s),
    ensures
        trim_start(s) == Seq::<char>::empty(),
    decreases s.len(),
{
    if s.len() > 0 {
        assert(is_white_space(s[0]));
        assert forall|i: int| 0 <= i < s.drop_first().len() implies is_white_space(
            #[trigger] s.drop_first()[i],
        ) by {
            assert(is_white_space(s[i + 1]));
        }
        lemma_trim_start_white(s.drop_first());
    }
}

proof fn lemma_trim_start_prefix(pre: Seq<char>, x: Seq<char>)
    requires
        all_white(pre),
    ensures
        trim_start(pre + x) == trim_start(x),
    decreases pre.len(),
{
    if pre.len() > 0 {
        assert(is_white_space(pre[0]));
        assert((pre + x)[0] == pre[0]);
        assert((pre + x).drop_first() == pre.drop_first() + x);
        assert forall|i: int| 0 <= i < pre.drop_first().len() implies is_white_space(
            #[trigger] pre.drop_first()[i],
        ) by {
            assert(is_white_space(pre[i + 1]));
        }
        lemma_trim_start_prefix(pre.drop_first(), x);
    } else {
        assert(pre + x == x);
    }
}

proof fn lemma_trim_end_suffix(x: Seq<char>, post: Seq<char>)
    requires
        all_white(post),
    ensures
        trim_end(x + post) == trim_end(x),
    decreases post.len(),
{
    if post.len() > 0 {
        assert(is_white_space(post[post.len() - 1]));
        assert((x + post).last() == post.last());
        assert((x + post).drop_last() == x + post.drop_last());
        assert forall|i: int| 0 <= i < post.drop_last().len() implies is_white_space(
            #[trigger] post.drop_last()[i],
        ) by {
            assert(is_white_space(post[i]));
        }
        lemma_trim_end_suffix(x, post.drop_last());
    } else {
        assert(x + post == x);
    }
}

proof fn lemma_trim_suffix(x: Seq<char>, post: Seq<char>)
    requires
        all_white(post),
    ensures
        trim(x + post) == trim(x),
    decreases x.len(),
{
    if x.len() == 0 {
        assert(x + post == post);
        lemma_trim_start_white(post);
        assert(trim_start(x) == x);
    } else if is_white_space(x[0]) {
        assert((x + post)[0] == x[0]);
        assert((x + post).drop_first() == x.drop_first() + post);
        lemma_trim_suffix(x.drop_first(), post);
    } else {
        assert((x + post)[0] == x[0]);
        lemma_trim_end_suffix(x, post);
    }
}

proof fn lemma_trim_start_case(a: Seq<char>, b: Seq<char>)
    requires
        same_but_case(a, b),
    ensures
        same_but_case(trim_start(a), trim_start(b)),
    decreases a.len(),
{
    if a.len() > 0 {
        assert(ascii_upper(a[0]) == ascii_upper(b[0]));
        lemma_upper_keeps_white(a[0], b[0]);
        if is_white_space(a[0]) {
            assert forall|i: int| 0 <= i < a.drop_first().len() implies ascii_upper(
                #[trigger] a.drop_first()[i],
            ) == ascii_upper(b.drop_first()[i]) by {
                assert(ascii_upper(a[i + 1]) == ascii_upper(b[i + 1]));
            }
            lemma_trim_start_case(a.drop_first(), b.drop_first());
        }
    }
}

proof fn lemma_trim_end_case(a: Seq<char>, b: Seq<char>)
    requires
        same_but_case(a, b),
    ensures
        same_but_case(trim_end(a), trim_end(b)),
    decreases a.len(),
{
    if a.len() > 0 {
        let n = a.len() - 1;
        assert(ascii_upper(a[n]) == ascii_upper(b[n]));
        lemma_upper_keeps_white(a[n], b[n]);
        if is_white_space(a.last()) {
            assert forall|i: int| 0 <= i < a.drop_last().len() implies ascii_upper(
                #[trigger] a.drop_last()[i],
            ) == ascii_upper(b.drop_last()[i]) by {
                assert(ascii_upper(a[i]) == ascii_upper(b[i]));
            }
            lemma_trim_end_case(a.drop_last(), b.drop_last());
        }
    }
}

/// Units are read in any case and white space around a size is ignored:
/// a text that differs from `input` only in the case of its ASCII letters,
/// with white space added at either end, reads exactly as `input` does
/// (the same number and unit, or the same kind of error).
pub proof fn lemma_size_text_ignores_case_and_space(
    input: Seq<char>,
    other: Seq<char>,
    pre: Seq<char>,
    post: Seq<char>,
)
    requires
        same_but_case(input, other),
        all_white(pre),
        all_white(post),
    ensures
        size_text(pre + other + post) == size_text(input),
        size_of_text(pre + other + post) == size_of_text(input),
{
    let x = pre + other + post;
    assert(x == pre + (other + post));
    lemma_trim_start_prefix(pre, other + post);
    assert(trim(x) == trim(other + post));
    lemma_trim_suffix(other, post);
    lemma_trim_start_case(input, other);
    lemma_trim_end_case(trim_start(input), trim_start(other));
    let a = trim(input);
    let b = trim(other);
    assert(a.map_values(|c: char| ascii_upper(c)) =~= b.map_values(|c: char| ascii_upper(c))) by {
        assert forall|i: int| 0 <= i < a.len() implies ascii_upper(#[trigger] a[i]) == ascii_upper(
            b[i],
        ) by {}
    }
}


/// The decimal units: after a whole number, B (or no unit) counts bytes,
/// K 10^3, M 10^6, G 10^9 and T 10^12 of them, and each letter followed by
/// B means the same as the letter alone.
pub proof fn lemma_unit_scales(n: nat)
    ensures
        size_of_text(dec(n)) == SizeText::Parts(dec(n), 0),
        size_of_text(dec(n) + seq!['B']) == SizeText::Parts(dec(n), 0),
        size_of_text(dec(n) + seq!['K']) == SizeText::Parts(dec(n), 3),
        size_of_text(dec(n) + seq!['K', 'B']) == SizeText::Parts(dec(n), 3),
        size_of_text(dec(n) + seq!['M']) == SizeText::Parts(dec(n), 6),
        size_of_text(dec(n) + seq!['M', 'B']) == SizeText::Parts(dec(n), 6),
        size_of_text(dec(n) + seq!['G']) == SizeText::Parts(dec(n), 9),
        size_of_text(dec(n) + seq!['G', 'B']) == SizeText::Parts(dec(n), 9),
        size_of_text(dec(n) + seq!['T']) == SizeText::Parts(dec(n), 12),
        size_of_text(dec(n) + seq!['T', 'B']) == SizeText::Parts(dec(n), 12),
        pow10(3) == 1000,
        pow10(12) == 1_000_000_000_000,
{
    reveal_with_fuel(pow10, 13);
    let e = Seq::<char>::empty();
    assert(e.map_values(|c: char| ascii_upper(c)) =~= e);
    lemma_whole_number_with_unit(n, e, 0);
    assert(dec(n) + e =~= dec(n));
    assert(seq!['B'].map_values(|c: char| ascii_upper(c)) =~= seq!['B']);
    lemma_whole_number_with_unit(n, seq!['B'], 0);
    assert(seq!['K'].map_values(|c: char| ascii_upper(c)) =~= seq!['K']);
    lemma_whole_number_with_unit(n, seq!['K'], 3);
    assert(seq!['K', 'B'].map_values(|c: char| ascii_upper(c)) =~= seq!['K', 'B']);
    lemma_whole_number_with_unit(n, seq!['K', 'B'], 3);
    assert(seq!['M'].map_values(|c: char| ascii_upper(c)) =~= seq!['M']);
    lemma_whole_number_with_unit(n, seq!['M'], 6);
    assert(seq!['M', 'B'].map_values(|c: char| ascii_upper(c)) =~= seq!['M', 'B']);
    lemma_whole_number_with_unit(n, seq!['M', 'B'], 6);
    assert(seq!['G'].map_values(|c: char| ascii_upper(c)) =~= seq!['G']);
    lemma_whole_number_with_unit(n, seq!['G'], 9);
    assert(seq!['G', 'B'].map_values(|c: char| ascii_upper(c)) =~= seq!['G', 'B']);
    lemma_whole_number_with_unit(n, seq!['G', 'B'], 9);
    assert(seq!['T'].map_values(|c: char| ascii_upper(c)) =~= seq!['T']);
    lemma_whole_number_with_unit(n, seq!['T'], 12);
    assert(seq!['T', 'B'].map_values(|c: char| ascii_upper(c)) =~= seq!['T', 'B']);
    lemma_whole_number_with_unit(n, seq!['T', 'B'], 12);
}

}
