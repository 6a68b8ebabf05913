//! The fixed-point money type and the record vocabulary of the ledger.

use vstd::prelude::*;

verus! {

/// Why a decimal amount string was rejected.
#[derive(Debug, Clone, Copy, PartialEq, Eq, Structural)]
pub enum ParseError {
    /// The text was empty, or held nothing but whitespace.
    EmptyInput,
    /// More than one `.` appeared in the text.
    MultipleDecimalPoints,
    /// The text before the `.` was empty.
    MissingWholePart,
    /// A character of the whole part, or a consumed fractional character,
    /// was not an ASCII digit; or the scaled value does not fit in `i64`.
    InvalidDigit,
}

/// A monetary value held as a signed count of ten-thousandths of a unit.
///
/// All arithmetic on it is exact integer arithmetic: no floating point ever
/// enters the monetary path.
#[derive(Debug, Clone, Copy, PartialEq, Eq, Structural)]
pub struct Centicents(pub i64);

/// The value lies in the range of `i64`.
pub open spec fn in_i64(v: int) -> bool {
    i64::MIN <= v <= i64::MAX
}

/// True of the ASCII decimal digits.
pub open spec fn is_ascii_digit(c: char) -> bool {
    '0' <= c && c <= '9'
}

/// The numeric value of an ASCII digit character.
pub open spec fn digit_value(c: char) -> int {
    c as int - '0' as int
}

/// The ASCII digit character for a value below ten.
pub open spec fn digit_char(d: int) -> char {
    (('0' as u8 + d as u8) as u8) as char
}

/// Every character of the sequence is an ASCII digit.
pub open spec fn all_digits(s: Seq<char>) -> bool {
    forall|i: int| 0 <= i < s.len() ==> is_ascii_digit(#[trigger] s[i])
}

/// The value of a digit sequence read as a base-ten numeral.
pub open spec fn digits_val(s: Seq<char>) -> int
    decreases s.len(),
{
    if s.len() == 0 {
        0
    } else {
        digits_val(s.drop_last()) * 10 + digit_value(s.last())
    }
}

/// The whitespace characters that make a text blank.
pub open spec fn char_is_space(c: char) -> bool {
    c == ' ' || c == '\t' || c == '\n' || c == '\r'
}

/// The text is empty or holds nothing but whitespace.
pub open spec fn is_blank(t: Seq<char>) -> bool {
    forall|i: int| 0 <= i < t.len() ==> char_is_space(#[trigger] t[i])
}

/// The index of the first `.` in the text, or its length when it has none.
pub open spec fn first_dot(t: Seq<char>) -> int
    decreases t.len(),
{
    if t.len() == 0 {
        0
    } else if t[0] == '.' {
        0
    } else {
        1 + first_dot(t.drop_first())
    }
}

/// Ten to the given power.
pub open spec fn pow10(n: nat) -> int
    decreases n,
{
    if n == 0 {
        1
    } else {
        10 * pow10((n - 1) as nat)
    }
}

/// The contribution of the consumed fractional digits to the scaled value:
/// the digits are read as a numeral and padded with zeros to four places.
pub open spec fn frac_scaled(s: Seq<char>) -> int {
    digits_val(s) * pow10((4 - s.len()) as nat)
}

/// What `Centicents::try_from` returns on a given text, as the scaled value.
///
/// The grammar is `WHOLE` or `WHOLE.FRACTION`: the whole part is one or more
/// ASCII digits, and of the fraction only the first four characters are
/// consumed, which must be ASCII digits; anything beyond them is discarded
/// unread.  A scaled value above `i64::MAX` is rejected like a whole part
/// that fails integer parsing.
pub open spec fn spec_parse(t: Seq<char>) -> Result<i64, ParseError> {
    if is_blank(t) {
        Err(ParseError::EmptyInput)
    } else {
        let d = first_dot(t);
        if d < t.len() && first_dot(t.skip(d + 1)) < t.len() - d - 1 {
            Err(ParseError::MultipleDecimalPoints)
        } else if d == 0 {
            Err(ParseError::MissingWholePart)
        } else {
            let whole = t.take(d);
            if !all_digits(whole) {
                Err(ParseError::InvalidDigit)
            } else {
                let frac = if d < t.len() {
                    t.skip(d + 1)
                } else {
                    Seq::<char>::empty()
                };
                let taken = if frac.len() < 4 {
                    frac
                } else {
                    frac.take(4)
                };
                if !all_digits(taken) {
                    Err(ParseError::InvalidDigit)
                } else {
                    let v = digits_val(whole) * 10000 + frac_scaled(taken);
                    if v > i64::MAX {
                        Err(ParseError::InvalidDigit)
                    } else {
                        Ok(v as i64)
                    }
                }
            }
        }
    }
}

/// `first_dot` is the one index with no dot before it that is a dot or the end.
proof fn lemma_first_dot_is(t: Seq<char>, k: int)
    requires
        0 <= k <= t.len(),
        forall|i: int| 0 <= i < k ==> t[i] != '.',
        k < t.len() ==> t[k] == '.',
    ensures
        first_dot(t) == k,
    decreases t.len(),
{
    if t.len() == 0 {
    } else if t[0] == '.' {
        assert(k == 0);
    } else {
        assert(t[0] != '.');
        assert(k >= 1) by {
            if k == 0 {
                assert(t[k] == '.');
            }
        }
        let u = t.drop_first();
        assert(forall|i: int| 0 <= i < k - 1 ==> #[trigger] u[i] != '.');
        assert(k - 1 < u.len() ==> u[k - 1] == '.');
        lemma_first_dot_is(u, k - 1);
    }
}

/// A dot at some index bounds `first_dot` from above.
proof fn lemma_first_dot_le(t: Seq<char>, j: int)
    requires
        0 <= j < t.len(),
        t[j] == '.',
    ensures
        first_dot(t) <= j,
    decreases t.len(),
{
    if t[0] == '.' {
    } else {
        let u = t.drop_first();
        assert(u[j - 1] == '.');
        lemma_first_dot_le(u, j - 1);
    }
}

/// A digit numeral is never negative.
proof fn lemma_digits_val_nonneg(s: Seq<char>)
    requires
        all_digits(s),
    ensures
        digits_val(s) >= 0,
    decreases s.len(),
{
    if s.len() > 0 {
        assert(all_digits(s.drop_last()));
        lemma_digits_val_nonneg(s.drop_last());
    }
}

/// A digit numeral is bounded by ten to its length.
proof fn lemma_digits_val_upper(s: Seq<char>)
    requires
        all_digits(s),
    ensures
        digits_val(s) < pow10(s.len()),
    decreases s.len(),
{
    if s.len() > 0 {
        assert(all_digits(s.drop_last()));
        lemma_digits_val_upper(s.drop_last());
    }
}

/// Extending a digit numeral on the right never shrinks its value.
proof fn lemma_digits_val_mono(s: Seq<char>, i: int)
    requires
        all_digits(s),
        0 <= i <= s.len(),
    ensures
        digits_val(s) >= digits_val(s.take(i)),
    decreases s.len(),
{
    lemma_digits_val_nonneg(s.take(i));
    if i < s.len() {
        let u = s.drop_last();
        assert(all_digits(u));
        assert(u.take(i) =~= s.take(i));
        lemma_digits_val_mono(u, i);
        lemma_digits_val_nonneg(u);
    } else {
        assert(s.take(i) =~= s);
    }
}

/// Whether a character is one of the whitespace characters.
fn is_space_char(c: char) -> (r: bool)
    ensures
        r == char_is_space(c),
{
    c == ' ' || c == '\t' || c == '\n' || c == '\r'
}

/// Whether the text is empty or all whitespace.
#[verifier::loop_isolation(false)]
fn scan_blank(s: &str) -> (r: bool)
    ensures
        r == is_blank(s@),
{
    let n = s.unicode_len();
    let mut blank = true;
    let mut i: usize = 0;
    while i < n
        invariant
            0 <= i <= n,
            blank ==> forall|j: int| 0 <= j < i ==> char_is_space(#[trigger] s@[j]),
            !blank ==> exists|j: int| 0 <= j < i && !char_is_space(#[trigger] s@[j]),
        decreases n - i,
    {
        if !is_space_char(s.get_char(i)) {
            blank = false;
        }
        i += 1;
    }
    blank
}

/// The index of the first `.`, or the length when the text has none.
#[verifier::loop_isolation(false)]
fn find_dot(s: &str) -> (dot: usize)
    ensures
        dot as int == first_dot(s@),
        dot <= s@.len(),
{
    let n = s.unicode_len();
    let mut dot: usize = n;
    let mut i: usize = 0;
    while i < n
        invariant
            0 <= i <= n,
            dot <= n,
            dot == n ==> forall|j: int| 0 <= j < i ==> s@[j] != '.',
            dot < n ==> dot < i && s@[dot as int] == '.' && forall|j: int| 0 <= j < dot ==> s@[j]
                != '.',
        decreases n - i,
    {
        if dot == n && s.get_char(i) == '.' {
            dot = i;
        }
        i += 1;
    }
    proof {
        lemma_first_dot_is(s@, dot as int);
    }
    dot
}

/// Whether a second `.` follows the one at `dot`.
#[verifier::loop_isolation(false)]
fn scan_second_dot(s: &str, dot: usize) -> (r: bool)
    requires
        dot < s@.len(),
    ensures
        r == (first_dot(s@.skip(dot + 1)) < s@.len() - dot - 1),
{
    let n = s.unicode_len();
    let rest_len = n - dot - 1;
    let mut i: usize = 0;
    while i < rest_len
        invariant
            0 <= i <= rest_len,
            forall|j: int| 0 <= j < i ==> #[trigger] s@[dot + 1 + j] != '.',
        decreases rest_len - i,
    {
        if s.get_char(dot + 1 + i) == '.' {
            proof {
                let u = s@.skip(dot + 1);
                assert(u[i as int] == s@[dot + 1 + i]);
                lemma_first_dot_le(u, i as int);
            }
            return true;
        }
        i += 1;
    }
    proof {
        let u = s@.skip(dot + 1);
        assert forall|j: int| 0 <= j < u.len() implies #[trigger] u[j] != '.' by {
            assert(u[j] == s@[dot + 1 + j]);
        }
        lemma_first_dot_is(u, u.len() as int);
    }
    false
}

/// Reads the whole part as a numeral.  `None` stands for a character that is
/// no digit, or a numeral that cannot be scaled within `i64`.
#[verifier::loop_isolation(false)]
fn read_whole(s: &str, dot: usize) -> (r: Option<i64>)
    requires
        0 < dot <= s@.len(),
    ensures
        match r {
            Some(v) => all_digits(s@.take(dot as int)) && v == digits_val(s@.take(dot as int))
                && v >= 0,
            None => !all_digits(s@.take(dot as int)) || digits_val(s@.take(dot as int)) * 10000
                > i64::MAX,
        },
{
    let ghost whole = s@.take(dot as int);
    let mut acc: i64 = 0;
    let mut i: usize = 0;
    while i < dot
        invariant
            0 <= i <= dot,
            all_digits(whole.take(i as int)),
            acc == digits_val(whole.take(i as int)),
            acc >= 0,
        decreases dot - i,
    {
        let c = s.get_char(i);
        let u = c as u32;
        if !(48 <= u && u <= 57) {
            assert(!is_ascii_digit(whole[i as int]));
            return None;
        }
        let d = (u - 48) as i64;
        proof {
            assert(whole.take(i + 1).drop_last() =~= whole.take(i as int));
            assert(whole.take(i + 1).last() == c);
        }
        let step = match acc.checked_mul(10) {
            Some(m) => m.checked_add(d),
            None => None,
        };
        match step {
            Some(v) => {
                acc = v;
            },
            None => {
                proof {
                    // The numeral already exceeds the range here, so it does
                    // so as a whole, whatever digits follow.
                    assert(all_digits(whole.take(i + 1)));
                    assert(digits_val(whole.take(i + 1)) > i64::MAX);
                    if all_digits(whole) {
                        lemma_digits_val_mono(whole, i + 1);
                        lemma_digits_val_nonneg(whole);
                        assert(digits_val(whole) * 10000 > i64::MAX) by (nonlinear_arith)
                            requires
                                digits_val(whole) > i64::MAX,
                        ;
                    }
                }
                return None;
            },
        }
        i += 1;
    }
    proof {
        assert(whole.take(dot as int) =~= whole);
    }
    Some(acc)
}

/// Reads the consumed fractional digits, already scaled to four places.
/// `None` stands for a consumed character that is no digit.
#[verifier::loop_isolation(false)]
fn read_frac(s: &str, dot: usize) -> (r: Option<i64>)
    requires
        dot < s@.len(),
    ensures
        ({
            let frac = s@.skip(dot + 1);
            let taken = if frac.len() < 4 {
                frac
            } else {
                frac.take(4)
            };
            match r {
                Some(v) => all_digits(taken) && v == frac_scaled(taken) && 0 <= v <= 9999,
                None => !all_digits(taken),
            }
        }),
{
    let n = s.unicode_len();
    let ghost frac = s@.skip(dot + 1);
    let ghost taken = if frac.len() < 4 {
        frac
    } else {
        frac.take(4)
    };
    let flen = n - dot - 1;
    let k = if flen < 4 {
        flen
    } else {
        4
    };
    assert(k as int == taken.len());
    let mut facc: i64 = 0;
    let mut i: usize = 0;
    while i < k
        invariant
            0 <= i <= k,
            all_digits(taken.take(i as int)),
            facc == digits_val(taken.take(i as int)) * pow10((4 - i) as nat),
            0 <= facc <= 9999,
        decreases k - i,
    {
        assert(taken[i as int] == s@[dot + 1 + i]);
        let c = s.get_char(dot + 1 + i);
        let u = c as u32;
        if !(48 <= u && u <= 57) {
            assert(!is_ascii_digit(taken[i as int]));
            return None;
        }
        let d = (u - 48) as i64;
        let mult: i64 = if i == 0 {
            1000
        } else if i == 1 {
            100
        } else if i == 2 {
            10
        } else {
            1
        };
        proof {
            reveal_with_fuel(pow10, 6);
            assert(mult == pow10((3 - i) as nat));
            assert(taken.take(i + 1).drop_last() =~= taken.take(i as int));
            assert(taken.take(i + 1).last() == c);
            assert(all_digits(taken.take(i + 1)));
            lemma_digits_val_upper(taken.take(i + 1));
            lemma_digits_val_nonneg(taken.take(i + 1));
            assert(digits_val(taken.take(i + 1)) * pow10((4 - (i + 1)) as nat) == facc + d
                * mult) by {
                assert(digits_val(taken.take(i + 1)) == digits_val(taken.take(i as int)) * 10
                    + d);
                assert(pow10((4 - i) as nat) == 10 * pow10((3 - i) as nat));
                lemma_mul_distributes(digits_val(taken.take(i as int)), d as int, pow10((3
                    - i) as nat));
            }
            lemma_frac_bound(digits_val(taken.take(i + 1)), (i + 1) as nat);
        }
        facc = facc + d * mult;
        i += 1;
    }
    proof {
        assert(taken.take(k as int) =~= taken);
    }
    Some(facc)
}

/// A parsed amount is never negative: the grammar has no sign.
pub proof fn lemma_parse_nonneg(t: Seq<char>)
    ensures
        match spec_parse(t) {
            Ok(v) => v >= 0,
            Err(_) => true,
        },
{
    if spec_parse(t) is Ok {
        let d = first_dot(t);
        let whole = t.take(d);
        let frac = if d < t.len() {
            t.skip(d + 1)
        } else {
            Seq::<char>::empty()
        };
        let taken = if frac.len() < 4 {
            frac
        } else {
            frac.take(4)
        };
        lemma_digits_val_nonneg(whole);
        lemma_digits_val_nonneg(taken);
        assert(pow10((4 - taken.len()) as nat) >= 0) by {
            reveal_with_fuel(pow10, 6);
        }
        assert(digits_val(taken) * pow10((4 - taken.len()) as nat) >= 0) by (nonlinear_arith)
            requires
                digits_val(taken) >= 0 && pow10((4 - taken.len()) as nat) >= 0,
        ;
    }
}

/// Parses decimal text into the scaled value it denotes.
///
/// The result is exactly `spec_parse` of the text: the accepted grammar and
/// every rejection are stated there.
pub fn parse_amount(s: &str) -> (r: Result<i64, ParseError>)
    ensures
        r == spec_parse(s@),
{
    let n = s.unicode_len();

    // A blank text has no value to parse.
    if scan_blank(s) {
        return Err(ParseError::EmptyInput);
    }

    // A second decimal point is one too many.
    let dot = find_dot(s);
    if dot < n && scan_second_dot(s, dot) {
        return Err(ParseError::MultipleDecimalPoints);
    }

    // The whole part may not be empty.
    if dot == 0 {
        return Err(ParseError::MissingWholePart);
    }

    // Read the whole part as a numeral, scaled by ten thousand.
    let scaled = match read_whole(s, dot) {
        Some(v) => match v.checked_mul(10000) {
            Some(w) => w,
            None => {
                proof {
                    lemma_scaled_overflow_is_invalid(s@, dot as int);
                }
                return Err(ParseError::InvalidDigit);
            },
        },
        None => {
            proof {
                if all_digits(s@.take(dot as int)) {
                    lemma_scaled_overflow_is_invalid(s@, dot as int);
                }
            }
            return Err(ParseError::InvalidDigit);
        },
    };
    proof {
        lemma_digits_val_nonneg(s@.take(dot as int));
    }

    // Read at most four fractional digits; the rest is discarded unread.
    let facc = if dot < n {
        match read_frac(s, dot) {
            Some(v) => v,
            None => {
                return Err(ParseError::InvalidDigit);
            },
        }
    } else {
        assert(frac_scaled(Seq::<char>::empty()) == 0) by {
            reveal_with_fuel(pow10, 6);
        }
        0
    };

    match scaled.checked_add(facc) {
        Some(v) => {
            assert(spec_parse(s@) == Ok::<i64, ParseError>(v));
            Ok(v)
        },
        None => {
            assert(spec_parse(s@) == Err::<i64, ParseError>(ParseError::InvalidDigit));
            Err(ParseError::InvalidDigit)
        },
    }
}

/// `(a + b) * m == a * m + b * m`.
proof fn lemma_mul_distributes(a: int, b: int, m: int)
    ensures
        (a * 10 + b) * m == a * (10 * m) + b * m,
{
    assert((a * 10 + b) * m == a * (10 * m) + b * m) by (nonlinear_arith);
}

/// A numeral of `i` digits, each at most nine, scaled to four places stays
/// below ten thousand.
proof fn lemma_frac_bound(v: int, i: nat)
    requires
        1 <= i <= 4,
        0 <= v <= pow10(i) - 1,
    ensures
        0 <= v * pow10((4 - i) as nat) <= 9999,
{
    reveal_with_fuel(pow10, 6);
    let m = pow10((4 - i) as nat);
    let b = pow10(i) - 1;
    assert(if i == 1 {
        m == 1000 && b == 9
    } else if i == 2 {
        m == 100 && b == 99
    } else if i == 3 {
        m == 10 && b == 999
    } else {
        m == 1 && b == 9999
    });
    assert(0 <= v * m) by (nonlinear_arith)
        requires
            0 <= v && 0 <= m,
    ;
    assert(v * m <= b * m) by (nonlinear_arith)
        requires
            v <= b && 0 <= m,
    ;
    assert(b * m <= 9999) by (nonlinear_arith)
        requires
            (m == 1000 && b == 9) || (m == 100 && b == 99) || (m == 10 && b == 999) || (m == 1
                && b == 9999),
    ;
}

/// When the whole part alone exceeds the range once scaled, the text parses
/// to `InvalidDigit`.
proof fn lemma_scaled_overflow_is_invalid(t: Seq<char>, d: int)
    requires
        !is_blank(t),
        first_dot(t) == d,
        0 < d <= t.len(),
        d < t.len() ==> first_dot(t.skip(d + 1)) >= t.len() - d - 1,
        all_digits(t.take(d)),
        digits_val(t.take(d)) * 10000 > i64::MAX,
    ensures
        spec_parse(t) == Err::<i64, ParseError>(ParseError::InvalidDigit),
{
    let whole = t.take(d);
    let frac = if d < t.len() {
        t.skip(d + 1)
    } else {
        Seq::<char>::empty()
    };
    let taken = if frac.len() < 4 {
        frac
    } else {
        frac.take(4)
    };
    if all_digits(taken) {
        lemma_digits_val_nonneg(taken);
        assert(pow10((4 - taken.len()) as nat) >= 0) by {
            reveal_with_fuel(pow10, 6);
        }
        assert(digits_val(taken) * pow10((4 - taken.len()) as nat) >= 0) by (nonlinear_arith)
            requires
                digits_val(taken) >= 0 && pow10((4 - taken.len()) as nat) >= 0,
        ;
        assert(frac_scaled(taken) >= 0);
    }
}

/// The decimal digits of a nonnegative number, most significant first.
pub open spec fn spec_digits(n: int) -> Seq<char>
    decreases n,
{
    if n < 10 {
        seq![digit_char(n)]
    } else {
        spec_digits(n / 10).push(digit_char(n % 10))
    }
}

/// The digit sequence with its trailing zeros removed.
pub open spec fn trim_trailing_zeros(s: Seq<char>) -> Seq<char>
    decreases s.len(),
{
    if s.len() > 0 && s.last() == '0' {
        trim_trailing_zeros(s.drop_last())
    } else {
        s
    }
}

/// The four fractional digit characters of a value below ten thousand.
pub open spec fn frac4(f: int) -> Seq<char> {
    seq![
        digit_char(f / 1000),
        digit_char((f / 100) % 10),
        digit_char((f / 10) % 10),
        digit_char(f % 10),
    ]
}

/// The decimal rendering of a nonnegative scaled value: the whole part and,
/// after a dot, exactly the fractional digits the value carries.
pub open spec fn spec_format_nonneg(v: int) -> Seq<char> {
    if v % 10000 == 0 {
        spec_digits(v / 10000)
    } else {
        spec_digits(v / 10000) + seq!['.'] + trim_trailing_zeros(frac4(v % 10000))
    }
}

/// The decimal rendering of a scaled value, a minus sign before a negative
/// one.
pub open spec fn spec_format(v: int) -> Seq<char> {
    if v < 0 {
        seq!['-'] + spec_format_nonneg(-v)
    } else {
        spec_format_nonneg(v)
    }
}

/// The characters that a sequence of ASCII bytes decodes to.
pub open spec fn chars_of(bs: Seq<u8>) -> Seq<char> {
    bs.map_values(|b: u8| b as char)
}

/// Relies on `String::from_utf8`: bytes below 128 are valid UTF-8 and decode
/// to exactly those code points, one character per byte.
#[verifier::external_body]
fn ascii_to_string(bytes: Vec<u8>) -> (r: String)
    requires
        forall|i: int| 0 <= i < bytes@.len() ==> bytes@[i] < 128,
    ensures
        r@ == chars_of(bytes@),
{
    match String::from_utf8(bytes) {
        Ok(s) => s,
        Err(_) => String::new(),
    }
}

/// Reversing after one more byte puts its character first.
proof fn lemma_rev_push(s: Seq<u8>, x: u8)
    ensures
        chars_of(s.push(x)).reverse() =~= seq![x as char] + chars_of(s).reverse(),
{
    assert(chars_of(s.push(x)).len() == s.len() + 1);
}

impl Centicents {
    /// Parses decimal text into a fixed-point amount.
    ///
    /// The accepted grammar and every rejection are stated by `spec_parse`.
    pub fn try_from(value: String) -> (r: Result<Centicents, ParseError>)
        ensures
            match r {
                Ok(c) => spec_parse(value@) == Ok::<i64, ParseError>(c.0),
                Err(e) => spec_parse(value@) == Err::<i64, ParseError>(e),
            },
    {
        match parse_amount(value.as_str()) {
            Ok(v) => Ok(Centicents(v)),
            Err(e) => Err(e),
        }
    }

    /// Exact addition on the scaled representation.
    pub fn add_assign(&mut self, rhs: Centicents)
        requires
            i64::MIN <= old(self).0 + rhs.0 <= i64::MAX,
        ensures
            final(self).0 == old(self).0 + rhs.0,
    {
        self.0 = self.0 + rhs.0;
    }

    /// Exact subtraction on the scaled representation.
    pub fn sub(self, rhs: Centicents) -> (r: Centicents)
        requires
            i64::MIN <= self.0 - rhs.0 <= i64::MAX,
        ensures
            r.0 == self.0 - rhs.0,
    {
        Centicents(self.0 - rhs.0)
    }

    /// Renders the amount as decimal text, exactly as `spec_format` states:
    /// the unscaled value with up to four fractional digits, trailing zeros
    /// dropped.
    #[verifier::loop_isolation(false)]
    #[verifier::rlimit(60)]
    pub fn format(&self) -> (r: String)
        ensures
            r@ == spec_format(self.0 as int),
    {
        let v = self.0;
        let neg = v < 0;
        let mag: u64 = if v < 0 {
            (-(v as i128)) as u64
        } else {
            v as u64
        };
        assert(mag as int == if v < 0 {
            -(v as int)
        } else {
            v as int
        });
        let whole: u64 = mag / 10000;
        let fr: u64 = mag % 10000;

        let mut bytes: Vec<u8> = Vec::new();
        let ghost base: Seq<char> = if neg {
            seq!['-']
        } else {
            Seq::<char>::empty()
        };
        if neg {
            bytes.push(45);
            assert('-' as u8 == 45);
        }
        assert(chars_of(bytes@) =~= base);

        // The digits of the whole part, least significant first.
        let mut tmp: Vec<u8> = Vec::new();
        let mut w: u64 = whole;
        let d0 = (w % 10) as u8;
        tmp.push(48 + d0);
        proof {
            assert(chars_of(tmp@).reverse() =~= seq![digit_char(w as int % 10)]);
        }
        w = w / 10;
        while w > 0
            invariant
                forall|j: int| 0 <= j < tmp@.len() ==> 48 <= #[trigger] tmp@[j] < 58,
                w > 0 ==> spec_digits(whole as int) == spec_digits(w as int) + chars_of(
                    tmp@,
                ).reverse(),
                w == 0 ==> chars_of(tmp@).reverse() == spec_digits(whole as int),
            decreases w,
        {
            let d = (w % 10) as u8;
            proof {
                lemma_rev_push(tmp@, (48 + d) as u8);
                assert(((48 + d) as u8) as char == digit_char(w as int % 10));
                if w >= 10 {
                    assert(spec_digits(w as int) == spec_digits(w as int / 10).push(
                        digit_char(w as int % 10),
                    ));
                    assert(spec_digits(w as int / 10).push(digit_char(w as int % 10))
                        + chars_of(tmp@).reverse() =~= spec_digits(w as int / 10) + (seq![
                            digit_char(w as int % 10),
                        ] + chars_of(tmp@).reverse()));
                } else {
                    assert(spec_digits(w as int) =~= seq![digit_char(w as int % 10)]);
                    assert(seq![digit_char(w as int % 10)] + chars_of(tmp@).reverse()
                        =~= spec_digits(w as int) + chars_of(tmp@).reverse());
                }
            }
            tmp.push(48 + d);
            w = w / 10;
        }

        // Most significant digit first.
        let tlen = tmp.len();
        let mut j: usize = 0;
        while j < tlen
            invariant
                0 <= j <= tlen,
                chars_of(bytes@) == base + spec_digits(whole as int).take(j as int),
                forall|i: int| 0 <= i < bytes@.len() ==> #[trigger] bytes@[i] < 128,
            decreases tlen - j,
        {
            let b = tmp[tlen - 1 - j];
            proof {
                assert(chars_of(tmp@).reverse()[j as int] == tmp@[tlen - 1 - j] as char);
                assert(spec_digits(whole as int).take(j + 1) =~= spec_digits(
                    whole as int,
                ).take(j as int).push(b as char));
                assert(chars_of(bytes@.push(b)) =~= chars_of(bytes@).push(b as char));
                assert(base + spec_digits(whole as int).take(j as int).push(b as char)
                    =~= (base + spec_digits(whole as int).take(j as int)).push(b as char));
            }
            bytes.push(b);
            j += 1;
        }
        proof {
            assert(spec_digits(whole as int).take(tlen as int) =~= spec_digits(whole as int));
        }

        // The fractional digits the value carries, if any.
        if fr > 0 {
            let c0 = (fr / 1000) as u8;
            let c1 = ((fr / 100) % 10) as u8;
            let c2 = ((fr / 10) % 10) as u8;
            let c3 = (fr % 10) as u8;
            let ghost padded = frac4(fr as int);
            proof {
                assert(padded == seq![
                    digit_char(c0 as int),
                    digit_char(c1 as int),
                    digit_char(c2 as int),
                    digit_char(c3 as int),
                ]);
            }
            let mut k: usize = 4;
            if c3 == 0 {
                k = 3;
                if c2 == 0 {
                    k = 2;
                    if c1 == 0 {
                        k = 1;
                    }
                }
            }
            proof {
                lemma_trim_cases(padded, c0 as int, c1 as int, c2 as int, c3 as int, k as int);
            }
            let ghost before = chars_of(bytes@);
            bytes.push(46);
            assert('.' as u8 == 46);
            bytes.push(48 + c0);
            if k > 1 {
                bytes.push(48 + c1);
            }
            if k > 2 {
                bytes.push(48 + c2);
            }
            if k > 3 {
                bytes.push(48 + c3);
            }
            proof {
                assert(chars_of(bytes@) =~= before + seq!['.'] + padded.take(k as int));
                assert(base + spec_digits(whole as int) + seq!['.'] + trim_trailing_zeros(
                    padded,
                ) =~= spec_format(v as int));
            }
        }

        let r = ascii_to_string(bytes);
        proof {
            assert(r@ =~= spec_format(v as int));
        }
        r
    }
}

/// Which prefix of the four padded digits survives the trimming of trailing
/// zeros.
proof fn lemma_trim_cases(padded: Seq<char>, c0: int, c1: int, c2: int, c3: int, k: int)
    requires
        padded == seq![digit_char(c0), digit_char(c1), digit_char(c2), digit_char(c3)],
        0 <= c0 < 10,
        0 <= c1 < 10,
        0 <= c2 < 10,
        0 <= c3 < 10,
        !(c0 == 0 && c1 == 0 && c2 == 0 && c3 == 0),
        k == (if c3 != 0 {
            4int
        } else if c2 != 0 {
            3int
        } else if c1 != 0 {
            2int
        } else {
            1int
        }),
    ensures
        trim_trailing_zeros(padded) == padded.take(k),
{
    let s3 = seq![digit_char(c0), digit_char(c1), digit_char(c2)];
    let s2 = seq![digit_char(c0), digit_char(c1)];
    let s1 = seq![digit_char(c0)];
    assert(forall|d: int| 0 <= d < 10 ==> (#[trigger] digit_char(d) == '0' <==> d == 0));
    assert(padded.drop_last() =~= s3);
    assert(s3.drop_last() =~= s2);
    assert(s2.drop_last() =~= s1);
    if c3 != 0 {
        assert(trim_trailing_zeros(padded) == padded);
        assert(padded.take(4) =~= padded);
    } else {
        assert(trim_trailing_zeros(padded) == trim_trailing_zeros(s3));
        if c2 != 0 {
            assert(trim_trailing_zeros(s3) == s3);
            assert(padded.take(3) =~= s3);
        } else {
            assert(trim_trailing_zeros(s3) == trim_trailing_zeros(s2));
            if c1 != 0 {
                assert(trim_trailing_zeros(s2) == s2);
                assert(padded.take(2) =~= s2);
            } else {
                assert(trim_trailing_zeros(s2) == trim_trailing_zeros(s1));
                assert(trim_trailing_zeros(s1) == s1);
                assert(padded.take(1) =~= s1);
            }
        }
    }
}

/// Rendered digits are digits, one at least, and never a dot or whitespace.
proof fn lemma_spec_digits_are_digits(n: int)
    requires
        n >= 0,
    ensures
        all_digits(spec_digits(n)),
        spec_digits(n).len() >= 1,
    decreases n,
{
    if n < 10 {
        assert(spec_digits(n) =~= seq![digit_char(n)]);
    } else {
        lemma_spec_digits_are_digits(n / 10);
        let s = spec_digits(n / 10);
        let c = digit_char(n % 10);
        assert forall|i: int| 0 <= i < s.push(c).len() implies is_ascii_digit(
            #[trigger] s.push(c)[i],
        ) by {
            if i < s.len() {
                assert(s.push(c)[i] == s[i]);
            } else {
                assert(s.push(c)[i] == c);
            }
        }
    }
}

/// Reading rendered digits as a numeral gives the number back.
proof fn lemma_digits_val_of_spec_digits(n: int)
    requires
        n >= 0,
    ensures
        digits_val(spec_digits(n)) == n,
    decreases n,
{
    reveal_with_fuel(digits_val, 3);
    if n < 10 {
        assert(seq![digit_char(n)].drop_last() =~= Seq::<char>::empty());
        assert(seq![digit_char(n)].last() == digit_char(n));
        assert(digit_value(digit_char(n)) == n);
    } else {
        lemma_digits_val_of_spec_digits(n / 10);
        vstd::arithmetic::div_mod::lemma_fundamental_div_mod(n, 10);
        let s = spec_digits(n / 10);
        let c = digit_char(n % 10);
        assert(s.push(c).drop_last() =~= s);
        assert(s.push(c).last() == c);
        assert(digit_value(c) == n % 10);
        assert(spec_digits(n) == s.push(c));
        assert(digits_val(s.push(c)) == digits_val(s) * 10 + digit_value(c));
        assert((n / 10) * 10 + n % 10 == n);
    }
}

/// Trimming trailing zeros keeps the scaled value of the fraction.
proof fn lemma_trim_keeps_scaled(s: Seq<char>)
    requires
        all_digits(s),
        s.len() <= 4,
    ensures
        all_digits(trim_trailing_zeros(s)),
        trim_trailing_zeros(s).len() <= s.len(),
        frac_scaled(trim_trailing_zeros(s)) == frac_scaled(s),
    decreases s.len(),
{
    if s.len() > 0 && s.last() == '0' {
        let u = s.drop_last();
        assert(all_digits(u));
        lemma_trim_keeps_scaled(u);
        assert(digits_val(s) == digits_val(u) * 10 + digit_value('0'));
        assert(pow10((4 - u.len()) as nat) == 10 * pow10((4 - s.len()) as nat));
        assert(digits_val(u) * (10 * pow10((4 - s.len()) as nat)) == (digits_val(u) * 10)
            * pow10((4 - s.len()) as nat)) by (nonlinear_arith);
    }
}

/// The four padded fractional digits read back as the fraction.
proof fn lemma_frac4_val(f: int)
    requires
        0 <= f < 10000,
    ensures
        all_digits(frac4(f)),
        digits_val(frac4(f)) == f,
{
    reveal_with_fuel(digits_val, 6);
    vstd::arithmetic::div_mod::lemma_div_denominator(f, 10, 10);
    vstd::arithmetic::div_mod::lemma_div_denominator(f, 100, 10);
    let q1 = f / 10;
    let q2 = f / 100;
    let q3 = f / 1000;
    assert(q1 / 10 == q2);
    assert(q2 / 10 == q3);
    vstd::arithmetic::div_mod::lemma_fundamental_div_mod(f, 10);
    vstd::arithmetic::div_mod::lemma_fundamental_div_mod(q1, 10);
    vstd::arithmetic::div_mod::lemma_fundamental_div_mod(q2, 10);
    let s = frac4(f);
    let s3 = seq![digit_char(q3), digit_char(q2 % 10), digit_char(q1 % 10)];
    let s2 = seq![digit_char(q3), digit_char(q2 % 10)];
    let s1 = seq![digit_char(q3)];
    assert(s.drop_last() =~= s3);
    assert(s3.drop_last() =~= s2);
    assert(s2.drop_last() =~= s1);
    assert(s1.drop_last() =~= Seq::<char>::empty());
    assert(digit_value(digit_char(q3)) == q3);
    assert(digit_value(digit_char(q2 % 10)) == q2 % 10);
    assert(digit_value(digit_char(q1 % 10)) == q1 % 10);
    assert(digit_value(digit_char(f % 10)) == f % 10);
    assert(digits_val(s1) == q3);
    assert(digits_val(s2) == q3 * 10 + q2 % 10);
    assert(digits_val(s3) == digits_val(s2) * 10 + q1 % 10);
    assert(digits_val(s) == digits_val(s3) * 10 + f % 10);
}

/// Formatting keeps the numeric value: the rendering of a nonnegative
/// scaled value parses back to exactly that value.
pub proof fn lemma_format_parse_round_trip(v: i64)
    requires
        v >= 0,
    ensures
        spec_parse(spec_format(v as int)) == Ok::<i64, ParseError>(v),
{
    let whole = v as int / 10000;
    let fr = v as int % 10000;
    let ds = spec_digits(whole);
    lemma_spec_digits_are_digits(whole);
    lemma_digits_val_of_spec_digits(whole);
    let t = spec_format(v as int);
    assert(is_ascii_digit(t[0]));
    assert(!char_is_space(t[0]));
    assert(!is_blank(t));
    if fr == 0 {
        assert(t == ds);
        assert(forall|i: int| 0 <= i < t.len() ==> #[trigger] t[i] != '.');
        lemma_first_dot_is(t, t.len() as int);
        assert(t.take(t.len() as int) =~= t);
        assert(frac_scaled(Seq::<char>::empty()) == 0);
        assert(digits_val(t) * 10000 + 0 == v);
        assert(spec_parse(t) == Ok::<i64, ParseError>(v));
    } else {
        let padded = frac4(fr);
        lemma_frac4_val(fr);
        lemma_trim_keeps_scaled(padded);
        let trimmed = trim_trailing_zeros(padded);
        assert(t == ds + seq!['.'] + trimmed);
        assert forall|i: int| 0 <= i < ds.len() implies #[trigger] t[i] != '.' by {
            assert(t[i] == ds[i]);
        }
        assert(t[ds.len() as int] == '.');
        lemma_first_dot_is(t, ds.len() as int);
        let d = ds.len() as int;
        let rest = t.skip(d + 1);
        assert(rest =~= trimmed);
        assert forall|i: int| 0 <= i < rest.len() implies #[trigger] rest[i] != '.' by {
            assert(rest[i] == trimmed[i]);
        }
        lemma_first_dot_is(rest, rest.len() as int);
        assert(t.take(d) =~= ds);
        assert(trimmed.len() < 4 ==> (if rest.len() < 4 {
            rest
        } else {
            rest.take(4)
        }) == trimmed);
        assert(trimmed.len() == 4 ==> rest.take(4) =~= trimmed);
        assert(frac_scaled(trimmed) == frac_scaled(padded));
        assert(frac_scaled(padded) == digits_val(padded) * pow10(0));
        assert(pow10(0) == 1);
        assert(digits_val(t.take(d)) * 10000 + frac_scaled(trimmed) == whole * 10000 + fr);
        assert(whole * 10000 + fr == v);
        assert(spec_parse(t) == Ok::<i64, ParseError>(v));
    }
}

/// Formatting a parsed amount keeps its numeric value: the rendering of
/// what valid text parses to parses back to the same scaled value.
pub proof fn lemma_parse_format_value(t: Seq<char>)
    requires
        spec_parse(t) is Ok,
    ensures
        spec_parse(spec_format(spec_parse(t)->Ok_0 as int)) == spec_parse(t),
{
    lemma_parse_nonneg(t);
    lemma_format_parse_round_trip(spec_parse(t)->Ok_0);
}

/// Fractional digits beyond the fourth never matter: a text parses exactly
/// as it does with its fraction cut to four characters.
pub proof fn lemma_parse_truncates(w: Seq<char>, f: Seq<char>)
    requires
        f.len() >= 4,
        forall|i: int| 0 <= i < f.len() ==> #[trigger] f[i] != '.',
    ensures
        spec_parse(w + seq!['.'] + f) == spec_parse(w + seq!['.'] + f.take(4)),
{
    let t1 = w + seq!['.'] + f;
    let t2 = w + seq!['.'] + f.take(4);
    let wl = w.len() as int;
    assert(t1[wl] == '.');
    assert(t2[wl] == '.');
    assert(!is_blank(t1));
    assert(!is_blank(t2));
    assert(forall|i: int| 0 <= i < wl ==> t1[i] == w[i] && t2[i] == #[trigger] w[i]);
    let k = first_dot(w);
    lemma_first_dot_bound(w);
    lemma_first_dot_props(w);
    if k < wl {
        // The first dot already lies in the whole part; a second follows it
        // in both texts.
        assert(t1[k] == w[k]);
        assert forall|i: int| 0 <= i < k implies t1[i] != '.' && t2[i] != '.' by {
            assert(t1[i] == w[i]);
            assert(t2[i] == w[i]);
        }
        lemma_first_dot_is(t1, k);
        lemma_first_dot_is(t2, k);
        let r1 = t1.skip(k + 1);
        let r2 = t2.skip(k + 1);
        assert(r1[wl - k - 1] == '.');
        assert(r2[wl - k - 1] == '.');
        lemma_first_dot_le(r1, wl - k - 1);
        lemma_first_dot_le(r2, wl - k - 1);
        assert(spec_parse(t1) == Err::<i64, ParseError>(ParseError::MultipleDecimalPoints));
        assert(spec_parse(t2) == Err::<i64, ParseError>(ParseError::MultipleDecimalPoints));
    } else {
        assert forall|i: int| 0 <= i < wl implies t1[i] != '.' && t2[i] != '.' by {
            assert(t1[i] == w[i]);
            assert(t2[i] == w[i]);
        }
        lemma_first_dot_is(t1, wl);
        lemma_first_dot_is(t2, wl);
        let r1 = t1.skip(wl + 1);
        let r2 = t2.skip(wl + 1);
        assert(r1 =~= f);
        assert(r2 =~= f.take(4));
        assert forall|i: int| 0 <= i < r2.len() implies #[trigger] r2[i] != '.' by {
            assert(r2[i] == f[i]);
        }
        lemma_first_dot_is(r1, r1.len() as int);
        lemma_first_dot_is(r2, r2.len() as int);
        if wl == 0 {
            assert(spec_parse(t1) == Err::<i64, ParseError>(ParseError::MissingWholePart));
            assert(spec_parse(t2) == Err::<i64, ParseError>(ParseError::MissingWholePart));
        } else {
            assert(t1.take(wl) =~= w);
            assert(t2.take(wl) =~= w);
            assert(r1.take(4) =~= f.take(4));
            assert(r2.len() == 4);
            assert((if r2.len() < 4 {
                r2
            } else {
                r2.take(4)
            }) =~= f.take(4));
            assert(spec_parse(t1) == spec_parse(t2));
        }
    }
}

/// `first_dot` never passes the end of the text.
proof fn lemma_first_dot_bound(t: Seq<char>)
    ensures
        0 <= first_dot(t) <= t.len(),
    decreases t.len(),
{
    if t.len() > 0 && t[0] != '.' {
        lemma_first_dot_bound(t.drop_first());
    }
}

/// No dot stands before `first_dot`, and a dot stands at it when it is
/// inside the text.
proof fn lemma_first_dot_props(t: Seq<char>)
    ensures
        forall|i: int| 0 <= i < first_dot(t) && i < t.len() ==> #[trigger] t[i] != '.',
        first_dot(t) < t.len() ==> t[first_dot(t)] == '.',
    decreases t.len(),
{
    if t.len() > 0 && t[0] != '.' {
        lemma_first_dot_props(t.drop_first());
        lemma_first_dot_bound(t.drop_first());
        let u = t.drop_first();
        assert forall|i: int| 0 <= i < first_dot(t) && i < t.len() implies #[trigger] t[i]
            != '.' by {
            if i > 0 {
                assert(t[i] == u[i - 1]);
            }
        }
        if first_dot(t) < t.len() {
            assert(t[first_dot(t)] == u[first_dot(u)]);
        }
    }
}

/// Adding a parsed amount to a balance and subtracting it again is the
/// identity on the scaled value.
pub proof fn lemma_parse_add_sub_identity(t: Seq<char>, v: i64)
    requires
        spec_parse(t) is Ok,
        in_i64(v + spec_parse(t)->Ok_0),
    ensures
        (v + spec_parse(t)->Ok_0) - spec_parse(t)->Ok_0 == v,
{
}

impl Default for Centicents {
    /// Zero.
    fn default() -> (r: Self)
        ensures
            r.0 == 0,
    {
        Centicents(0)
    }
}

/// A client identifier; accounts are keyed by it.
#[derive(Debug, Clone, Copy, PartialEq, Eq, Hash, Structural)]
pub struct ClientId(pub u16);

/// A transaction identifier, unique over the whole run.
#[derive(Debug, Clone, Copy, PartialEq, Eq, Hash, Structural)]
pub struct TransactionId(pub u32);

/// A client's two balances.  The total balance is available less held; it is
/// derived, never stored.
#[derive(Debug, Clone, Copy, PartialEq, Eq, Structural)]
pub struct Balances {
    pub available: Centicents,
    pub held: Centicents,
}

impl Balances {
    /// The total balance, available less held, when it is representable.
    pub fn total(&self) -> (r: Option<Centicents>)
        ensures
            match r {
                Some(t) => t.0 == self.available.0 - self.held.0,
                None => !(i64::MIN <= self.available.0 - self.held.0 <= i64::MAX),
            },
    {
        match self.available.0.checked_sub(self.held.0) {
            Some(v) => Some(Centicents(v)),
            None => None,
        }
    }
}

impl Default for Balances {
    /// Both balances zero.
    fn default() -> (r: Self)
        ensures
            r.available.0 == 0,
            r.held.0 == 0,
    {
        Balances { available: Centicents(0), held: Centicents(0) }
    }
}

/// Everything the ledger keeps of one client.
#[derive(Debug, Clone, Copy, PartialEq, Eq, Structural)]
pub struct ClientState {
    pub balances: Balances,
    pub is_frozen: bool,
}

impl Default for ClientState {
    /// A fresh account: zero balances, not frozen.
    fn default() -> (r: Self)
        ensures
            r.balances.available.0 == 0,
            r.balances.held.0 == 0,
            !r.is_frozen,
    {
        ClientState { balances: Balances { available: Centicents(0), held: Centicents(0) }, is_frozen: false }
    }
}

/// What the ledger keeps of a deposit or withdrawal: its amount and whether
/// it is under dispute.
#[derive(Debug, Clone, Copy, PartialEq, Eq, Structural)]
pub struct TransactionInfo {
    pub amount: Centicents,
    pub is_disputed: bool,
}

/// The five kinds of input record.
#[derive(Debug, Clone, Copy, PartialEq, Eq, Structural)]
pub enum RecordType {
    Deposit,
    Withdrawal,
    Dispute,
    Resolve,
    Chargeback,
}

/// One input record.  `amount` is decimal text, present only for deposits
/// and withdrawals; the other kinds ignore it.
#[derive(Debug)]
pub struct Record {
    pub record_type: RecordType,
    pub client_id: u16,
    pub transaction_id: u32,
    pub amount: Option<String>,
}

} // verus!
