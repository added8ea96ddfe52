use vstd::prelude::*;
use vstd::string::StringSliceAdditionalSpecFns;

verus! {

/// Fixed-point scale of configuration numbers: one unit is written as
/// `MICRO_SCALE` micro-units, so values carry six decimal places.
pub const MICRO_SCALE: i64 = 1_000_000;

/// ASCII code of `+`.
pub const BYTE_PLUS: u8 = 43;

/// ASCII code of `-`.
pub const BYTE_MINUS: u8 = 45;

/// ASCII code of `.`.
pub const BYTE_DOT: u8 = 46;

/// ASCII code of `%`.
pub const BYTE_PERCENT: u8 = 37;

/// ASCII code of `0`.
pub const BYTE_ZERO: u8 = 48;

/// ASCII code of `9`.
pub const BYTE_NINE: u8 = 57;

/// Why a configuration number was rejected.
#[derive(Clone, Copy, Debug, PartialEq, Eq, Structural)]
pub enum NumberFormatError {
    /// The text does not match the decimal grammar.
    Syntax,
    /// The number is well formed but its magnitude cannot be represented.
    Overflow,
}

pub open spec fn is_ascii_digit(b: u8) -> bool {
    BYTE_ZERO <= b <= BYTE_NINE
}

pub open spec fn digit_value(b: u8) -> int {
    b - BYTE_ZERO
}

pub open spec fn all_ascii_digits(s: Seq<u8>) -> bool {
    forall|i: int| 0 <= i < s.len() ==> is_ascii_digit(#[trigger] s[i])
}

/// The text starts with an explicit sign byte.
pub open spec fn has_sign(s: Seq<u8>) -> bool {
    s.len() > 0 && (s[0] == BYTE_PLUS || s[0] == BYTE_MINUS)
}

/// The text denotes a negative number.
pub open spec fn is_negative_text(s: Seq<u8>) -> bool {
    s.len() > 0 && s[0] == BYTE_MINUS
}

/// The digits-and-dot part of the text, after any sign.
pub open spec fn number_body(s: Seq<u8>) -> Seq<u8> {
    if has_sign(s) {
        s.drop_first()
    } else {
        s
    }
}

pub open spec fn has_dot(b: Seq<u8>) -> bool {
    exists|d: int| 0 <= d < b.len() && b[d] == BYTE_DOT
}

pub open spec fn dot_index(b: Seq<u8>) -> int {
    choose|d: int| 0 <= d < b.len() && b[d] == BYTE_DOT
}

/// Decimal grammar: an optional sign, then digits with at most one dot
/// among them and at least one digit in all.  No exponent and no other
/// byte is admitted.
pub open spec fn wf_decimal(s: Seq<u8>) -> bool {
    let b = number_body(s);
    ||| (b.len() >= 1 && all_ascii_digits(b))
    ||| (b.len() >= 2 && has_dot(b) && all_ascii_digits(b.take(dot_index(b)))
        && all_ascii_digits(b.skip(dot_index(b) + 1)))
}

/// Value of a digit string read in base ten.
pub open spec fn digits_value(s: Seq<u8>) -> int
    decreases s.len(),
{
    if s.len() == 0 {
        0
    } else {
        digits_value(s.drop_last()) * 10 + digit_value(s.last())
    }
}

pub open spec fn pow10(k: nat) -> int
    decreases k,
{
    if k == 0 {
        1
    } else {
        10 * pow10((k - 1) as nat)
    }
}

/// Micro-units contributed by the fraction digits.  Digits beyond the
/// sixth are below the fixed-point resolution and are dropped.
pub open spec fn frac_micro(f: Seq<u8>) -> int {
    if f.len() >= 6 {
        digits_value(f.take(6))
    } else {
        digits_value(f) * pow10((6 - f.len()) as nat)
    }
}

/// Magnitude of the text in micro-units, ignoring the sign.
pub open spec fn magnitude_micro(s: Seq<u8>) -> int {
    let b = number_body(s);
    if has_dot(b) {
        digits_value(b.take(dot_index(b))) * MICRO_SCALE + frac_micro(b.skip(dot_index(b) + 1))
    } else {
        digits_value(b) * MICRO_SCALE
    }
}

/// Signed value of the text in micro-units.
pub open spec fn decimal_micro(s: Seq<u8>) -> int {
    if is_negative_text(s) {
        -magnitude_micro(s)
    } else {
        magnitude_micro(s)
    }
}

proof fn lemma_pow10_six()
    ensures
        pow10(6) == 1_000_000,
{
    assert(pow10(6) == 10 * pow10(5));
    assert(pow10(5) == 10 * pow10(4));
    assert(pow10(4) == 10 * pow10(3));
    assert(pow10(3) == 10 * pow10(2));
    assert(pow10(2) == 10 * pow10(1));
    assert(pow10(1) == 10 * pow10(0));
    assert(pow10(0) == 1);
}

proof fn lemma_pow10_pos(k: nat)
    ensures
        1 <= pow10(k),
    decreases k,
{
    if k > 0 {
        lemma_pow10_pos((k - 1) as nat);
    }
}

proof fn lemma_pow10_mul(a: nat, b: nat)
    ensures
        pow10(a) * pow10(b) == pow10(a + b),
    decreases a,
{
    if a == 0 {
        assert(pow10(0) == 1);
    } else {
        lemma_pow10_mul((a - 1) as nat, b);
        assert((10 * pow10((a - 1) as nat)) * pow10(b) == 10 * (pow10((a - 1) as nat) * pow10(b)))
            by (nonlinear_arith);
    }
}

/// A digit string's value is non-negative and below ten to its length.
proof fn lemma_digits_value_bounds(s: Seq<u8>)
    requires
        all_ascii_digits(s),
    ensures
        0 <= digits_value(s) < pow10(s.len()),
    decreases s.len(),
{
    if s.len() == 0 {
        assert(pow10(0) == 1);
    } else {
        let head = s.drop_last();
        assert(all_ascii_digits(head)) by {
            assert(forall|i: int| 0 <= i < head.len() ==> head[i] == s[i]);
        }
        lemma_digits_value_bounds(head);
        assert(pow10(s.len()) == 10 * pow10(head.len()));
        assert(is_ascii_digit(s.last()));
        assert(digits_value(head) * 10 + digit_value(s.last()) < 10 * pow10(head.len()))
            by (nonlinear_arith)
            requires
                digits_value(head) <= pow10(head.len()) - 1,
                digit_value(s.last()) <= 9,
        ;
        assert(0 <= digits_value(head) * 10 + digit_value(s.last())) by (nonlinear_arith)
            requires
                0 <= digits_value(head),
                0 <= digit_value(s.last()),
        ;
    }
}

/// A prefix of a digit string never exceeds the whole string's value.
proof fn lemma_digits_value_prefix(s: Seq<u8>, k: int)
    requires
        all_ascii_digits(s),
        0 <= k <= s.len(),
    ensures
        digits_value(s.take(k)) <= digits_value(s),
    decreases s.len() - k,
{
    if k == s.len() {
        assert(s.take(k) =~= s);
    } else {
        let shorter = s.take(k);
        let longer = s.take(k + 1);
        assert(longer.drop_last() =~= shorter);
        assert(longer.last() == s[k]);
        assert(all_ascii_digits(shorter)) by {
            assert(forall|i: int| 0 <= i < shorter.len() ==> shorter[i] == s[i]);
        }
        lemma_digits_value_bounds(shorter);
        assert(digits_value(shorter) <= digits_value(shorter) * 10 + digit_value(s[k]))
            by (nonlinear_arith)
            requires
                0 <= digits_value(shorter),
                0 <= digit_value(s[k]),
        ;
        lemma_digits_value_prefix(s, k + 1);
    }
}

/// The fraction contribution always fits under one whole unit.
proof fn lemma_frac_micro_bounds(f: Seq<u8>)
    requires
        all_ascii_digits(f),
    ensures
        0 <= frac_micro(f) < MICRO_SCALE,
{
    if f.len() >= 6 {
        let head = f.take(6);
        assert(all_ascii_digits(head)) by {
            assert(forall|i: int| 0 <= i < head.len() ==> head[i] == f[i]);
        }
        lemma_digits_value_bounds(head);
        lemma_pow10_six();
    } else {
        let rest = (6 - f.len()) as nat;
        lemma_digits_value_bounds(f);
        lemma_pow10_pos(rest);
        lemma_pow10_mul(f.len(), rest);
        lemma_pow10_six();
        assert(f.len() + rest == 6);
        assert(0 <= digits_value(f) * pow10(rest) && digits_value(f) * pow10(rest) <= (pow10(
            f.len(),
        ) - 1) * pow10(rest)) by (nonlinear_arith)
            requires
                0 <= digits_value(f) <= pow10(f.len()) - 1,
                1 <= pow10(rest),
        ;
        assert((pow10(f.len()) - 1) * pow10(rest) == pow10(f.len()) * pow10(rest) - pow10(rest))
            by (nonlinear_arith);
    }
}

/// Parses ASCII text as a signed fixed-point decimal, exact to
/// micro-units; fraction digits below the resolution are dropped.
/// Succeeds exactly on grammar-conforming text whose magnitude is
/// representable.  Exponent notation and non-finite spellings are not
/// part of the grammar: configuration values are plain decimals, and a
/// non-finite value would have to be rejected anyway.
#[verifier::rlimit(100)]
pub fn parse_decimal_micro(text: &[u8]) -> (r: Result<i64, NumberFormatError>)
    ensures
        match r {
            Ok(v) => wf_decimal(text@) && magnitude_micro(text@) <= i64::MAX && v == decimal_micro(
                text@,
            ),
            Err(NumberFormatError::Syntax) => !wf_decimal(text@),
            Err(NumberFormatError::Overflow) => wf_decimal(text@) && magnitude_micro(text@)
                > i64::MAX,
        },
{
    let n = text.len();
    let mut start: usize = 0;
    if n > 0 && (text[0] == BYTE_PLUS || text[0] == BYTE_MINUS) {
        start = 1;
    }
    let neg = n > 0 && text[0] == BYTE_MINUS;
    let ghost body = number_body(text@);
    proof {
        assert(body =~= text@.subrange(start as int, n as int));
        assert(neg == is_negative_text(text@));
    }
    // First pass: check the grammar and locate the dot.
    let mut has_dot_at: Option<usize> = None;
    let mut any_digit = false;
    let mut i = start;
    while i < n
        invariant
            start <= i <= n,
            n == text@.len(),
            body == number_body(text@),
            body =~= text@.subrange(start as int, n as int),
            start == if has_sign(text@) {
                1int
            } else {
                0int
            },
            match has_dot_at {
                Option::None => forall|k: int| start <= k < i ==> text@[k] != BYTE_DOT,
                Option::Some(d) => start <= d < i && text@[d as int] == BYTE_DOT && forall|k: int|
                    start <= k < i && k != d ==> text@[k] != BYTE_DOT,
            },
            forall|k: int|
                start <= k < i && text@[k] != BYTE_DOT ==> is_ascii_digit(#[trigger] text@[k]),
            any_digit ==> exists|k: int| start <= k < i && is_ascii_digit(#[trigger] text@[k]),
            !any_digit ==> forall|k: int| start <= k < i ==> !is_ascii_digit(#[trigger] text@[k]),
        decreases n - i,
    {
        let c = text[i];
        if c == BYTE_DOT {
            match has_dot_at {
                Option::Some(d) => {
                    // a second dot: no reading of the text fits the grammar
                    proof {
                        lemma_two_dots_ill_formed(text@, body, start as int, d as int, i as int);
                    }
                    return Err(NumberFormatError::Syntax);
                },
                Option::None => {
                    has_dot_at = Some(i);
                },
            }
        } else if c >= BYTE_ZERO && c <= BYTE_NINE {
            any_digit = true;
        } else {
            proof {
                lemma_stray_byte_ill_formed(text@, body, start as int, i as int);
            }
            return Err(NumberFormatError::Syntax);
        }
        i = i + 1;
    }
    if !any_digit {
        proof {
            lemma_no_digit_ill_formed(text@, body, start as int, has_dot_at);
        }
        return Err(NumberFormatError::Syntax);
    }
    proof {
        lemma_scan_well_formed(text@, body, start as int, has_dot_at);
    }
    // Second pass: accumulate the integer part.
    let int_end = match has_dot_at {
        Option::Some(d) => d,
        Option::None => n,
    };
    let ghost ipart = if has_dot(body) {
        body.take(dot_index(body))
    } else {
        body
    };
    proof {
        match has_dot_at {
            Option::Some(d) => {
                assert(dot_index(body) == d - start) by {
                    assert(body[d - start] == BYTE_DOT);
                    let e = dot_index(body);
                    assert(0 <= e < body.len() && body[e] == BYTE_DOT);
                    assert(body[e] == text@[e + start]);
                }
                assert(ipart =~= text@.subrange(start as int, int_end as int));
            },
            Option::None => {
                assert(!has_dot(body)) by {
                    if has_dot(body) {
                        let e = dot_index(body);
                        assert(body[e] == text@[e + start]);
                    }
                }
                assert(ipart =~= text@.subrange(start as int, int_end as int));
            },
        }
        assert(all_ascii_digits(ipart));
    }
    let mut acc: u128 = 0;
    let mut i = start;
    while i < int_end
        invariant
            start <= i <= int_end <= n,
            n == text@.len(),
            ipart =~= text@.subrange(start as int, int_end as int),
            all_ascii_digits(ipart),
            wf_decimal(text@),
            body == number_body(text@),
            has_dot(body) ==> ipart == body.take(dot_index(body)),
            !has_dot(body) ==> ipart == body,
            acc == digits_value(ipart.take(i - start)),
            acc <= i64::MAX,
        decreases int_end - i,
    {
        proof {
            let m = i - start;
            assert(ipart[m] == text@[i as int]);
            assert(is_ascii_digit(ipart[m]));
            assert(ipart.take(m + 1).drop_last() =~= ipart.take(m));
            assert(ipart.take(m + 1).last() == ipart[m]);
        }
        let d = text[i] - BYTE_ZERO;
        acc = acc * 10 + (d as u128);
        i = i + 1;
        if acc > i64::MAX as u128 {
            proof {
                lemma_magnitude_exceeds(text@, body, ipart, (i - start) as int);
            }
            return Err(NumberFormatError::Overflow);
        }
    }
    proof {
        assert(ipart.take(int_end - start) =~= ipart);
    }
    // Fraction digits, at most six of them carry micro-unit weight.
    let ghost fpart = if has_dot(body) {
        body.skip(dot_index(body) + 1)
    } else {
        Seq::<u8>::empty()
    };
    let mut frac: u128 = 0;
    let mut taken: usize = 0;
    match has_dot_at {
        Option::Some(d) => {
            proof {
                assert(fpart =~= text@.subrange(d + 1, n as int));
                assert(all_ascii_digits(fpart));
            }
            let mut j = d + 1;
            while j < n && taken < 6
                invariant
                    d + 1 <= j <= n,
                    n == text@.len(),
                    taken == j - (d + 1),
                    taken <= 6,
                    fpart =~= text@.subrange(d + 1, n as int),
                    all_ascii_digits(fpart),
                    frac == digits_value(fpart.take(taken as int)),
                    frac < 1_000_000,
                decreases n - j,
            {
                proof {
                    let m = j - (d + 1);
                    assert(fpart[m] == text@[j as int]);
                    assert(is_ascii_digit(fpart[m]));
                    assert(fpart.take(m + 1).drop_last() =~= fpart.take(m));
                    assert(fpart.take(m + 1).last() == fpart[m]);
                    let head = fpart.take(m + 1);
                    assert(all_ascii_digits(head)) by {
                        assert(forall|k: int| 0 <= k < head.len() ==> head[k] == fpart[k]);
                    }
                    lemma_digits_value_bounds(head);
                    lemma_pow10_six();
                    lemma_pow10_ascending(head.len(), 6);
                }
                let g = text[j] - BYTE_ZERO;
                frac = frac * 10 + (g as u128);
                taken = taken + 1;
                j = j + 1;
            }
            // scale up short fractions to micro-units
            let ghost scanned = taken as int;
            while taken < 6
                invariant
                    scanned <= taken <= 6,
                    frac == digits_value(fpart.take(scanned)) * pow10((taken - scanned) as nat),
                    fpart =~= text@.subrange(d + 1, n as int),
                    all_ascii_digits(fpart),
                    frac < 1_000_000,
                    scanned == if fpart.len() >= 6 {
                        6int
                    } else {
                        fpart.len() as int
                    },
                decreases 6 - taken,
            {
                proof {
                    let k = (taken - scanned) as nat;
                    assert(pow10(k + 1) == 10 * pow10(k));
                    let v = digits_value(fpart.take(scanned));
                    assert((v * pow10(k)) * 10 == v * pow10(k + 1)) by (nonlinear_arith)
                        requires
                            pow10(k + 1) == 10 * pow10(k),
                    ;
                    lemma_frac_scale_bound(fpart, scanned, k + 1);
                }
                frac = frac * 10;
                taken = taken + 1;
            }
            proof {
                if fpart.len() >= 6 {
                    assert(scanned == 6);
                    assert(pow10(0) == 1);
                    assert(frac == digits_value(fpart.take(6)));
                } else {
                    assert(scanned == fpart.len());
                    assert(fpart.take(scanned) =~= fpart);
                }
                assert(frac == frac_micro(fpart));
            }
        },
        Option::None => {
            proof {
                assert(frac == 0);
                assert(frac_micro(fpart) == 0) by {
                    assert(fpart.len() == 0);
                    assert(fpart.take(0) =~= fpart);
                }
            }
        },
    }
    let magnitude: u128 = acc * 1_000_000 + frac;
    proof {
        assert(magnitude_micro(text@) == acc * 1_000_000 + frac) by {
            if has_dot(body) {
                assert(digits_value(body.take(dot_index(body))) == acc);
                assert(frac_micro(body.skip(dot_index(body) + 1)) == frac);
            } else {
                assert(digits_value(body) == acc);
                assert(frac_micro(fpart) == 0);
            }
        }
    }
    if magnitude > i64::MAX as u128 {
        return Err(NumberFormatError::Overflow);
    }
    let v = magnitude as i64;
    if neg {
        Ok(-v)
    } else {
        Ok(v)
    }
}

/// Two dots in the body rule out every reading of the grammar.
proof fn lemma_two_dots_ill_formed(s: Seq<u8>, body: Seq<u8>, start: int, d1: int, d2: int)
    requires
        body == number_body(s),
        start == if has_sign(s) {
            1int
        } else {
            0int
        },
        0 <= start <= d1 < d2 < s.len(),
        s[d1] == BYTE_DOT,
        s[d2] == BYTE_DOT,
    ensures
        !wf_decimal(s),
{
    assert(body =~= s.subrange(start, s.len() as int));
    let p1 = d1 - start;
    let p2 = d2 - start;
    assert(body[p1] == BYTE_DOT && body[p2] == BYTE_DOT);
    if wf_decimal(s) {
        if body.len() >= 1 && all_ascii_digits(body) {
            assert(is_ascii_digit(body[p1]));
            assert(false);
        } else {
            let e = dot_index(body);
            assert(0 <= e < body.len() && body[e] == BYTE_DOT);
            if p1 != e {
                if p1 < e {
                    assert(body.take(e)[p1] == body[p1]);
                    assert(is_ascii_digit(body[p1]));
                } else {
                    assert(body.skip(e + 1)[p1 - e - 1] == body[p1]);
                    assert(is_ascii_digit(body[p1]));
                }
                assert(false);
            } else {
                assert(p2 != e);
                assert(body.skip(e + 1)[p2 - e - 1] == body[p2]);
                assert(is_ascii_digit(body[p2]));
                assert(false);
            }
        }
    }
}

/// A byte that is neither digit nor dot rules out the grammar.
proof fn lemma_stray_byte_ill_formed(s: Seq<u8>, body: Seq<u8>, start: int, at: int)
    requires
        body == number_body(s),
        start == if has_sign(s) {
            1int
        } else {
            0int
        },
        0 <= start <= at < s.len(),
        s[at] != BYTE_DOT,
        !is_ascii_digit(s[at]),
    ensures
        !wf_decimal(s),
{
    assert(body =~= s.subrange(start, s.len() as int));
    let p = at - start;
    assert(body[p] == s[at]);
    if wf_decimal(s) {
        if body.len() >= 1 && all_ascii_digits(body) {
            assert(is_ascii_digit(body[p]));
            assert(false);
        } else {
            let e = dot_index(body);
            assert(0 <= e < body.len() && body[e] == BYTE_DOT);
            assert(p != e);
            if p < e {
                assert(body.take(e)[p] == body[p]);
            } else {
                assert(body.skip(e + 1)[p - e - 1] == body[p]);
            }
            assert(is_ascii_digit(body[p]));
            assert(false);
        }
    }
}

/// Without a single digit the grammar cannot match.
proof fn lemma_no_digit_ill_formed(s: Seq<u8>, body: Seq<u8>, start: int, dot: Option<usize>)
    requires
        body == number_body(s),
        start == if has_sign(s) {
            1int
        } else {
            0int
        },
        0 <= start <= s.len(),
        forall|k: int| start <= k < s.len() ==> !is_ascii_digit(#[trigger] s[k]),
        match dot {
            Option::None => forall|k: int| start <= k < s.len() ==> s[k] != BYTE_DOT,
            Option::Some(d) => start <= d < s.len() && s[d as int] == BYTE_DOT && forall|k: int|
                start <= k < s.len() && k != d ==> s[k] != BYTE_DOT,
        },
    ensures
        !wf_decimal(s),
{
    assert(body =~= s.subrange(start, s.len() as int));
    if wf_decimal(s) {
        if body.len() >= 1 && all_ascii_digits(body) {
            assert(is_ascii_digit(body[0]));
            assert(body[0] == s[start]);
            assert(false);
        } else {
            let e = dot_index(body);
            assert(0 <= e < body.len() && body[e] == BYTE_DOT);
            assert(body.len() >= 2);
            if e + 1 < body.len() {
                assert(body.skip(e + 1)[0] == body[e + 1]);
                assert(is_ascii_digit(body[e + 1]));
                assert(body[e + 1] == s[e + 1 + start]);
                assert(false);
            } else {
                assert(e >= 1);
                assert(body.take(e)[0] == body[0]);
                assert(is_ascii_digit(body[0]));
                assert(body[0] == s[start]);
                assert(false);
            }
        }
    }
}

/// A completed scan with only digits and at most one dot, and at least
/// one digit, establishes the grammar.
proof fn lemma_scan_well_formed(s: Seq<u8>, body: Seq<u8>, start: int, dot: Option<usize>)
    requires
        body == number_body(s),
        start == if has_sign(s) {
            1int
        } else {
            0int
        },
        0 <= start <= s.len(),
        forall|k: int| start <= k < s.len() && s[k] != BYTE_DOT ==> is_ascii_digit(#[trigger] s[k]),
        exists|k: int| start <= k < s.len() && is_ascii_digit(#[trigger] s[k]),
        match dot {
            Option::None => forall|k: int| start <= k < s.len() ==> s[k] != BYTE_DOT,
            Option::Some(d) => start <= d < s.len() && s[d as int] == BYTE_DOT && forall|k: int|
                start <= k < s.len() && k != d ==> s[k] != BYTE_DOT,
        },
    ensures
        wf_decimal(s),
        has_dot(body) <==> dot is Some,
        match dot {
            Option::Some(d) => dot_index(body) == d - start,
            Option::None => true,
        },
{
    assert(body =~= s.subrange(start, s.len() as int));
    match dot {
        Option::None => {
            assert(forall|p: int| 0 <= p < body.len() ==> body[p] == s[p + start]);
            assert(all_ascii_digits(body));
            let w = choose|k: int| start <= k < s.len() && is_ascii_digit(#[trigger] s[k]);
            assert(body[w - start] == s[w]);
            assert(body.len() >= 1);
            assert(!has_dot(body)) by {
                if has_dot(body) {
                    let e = dot_index(body);
                    assert(body[e] == s[e + start]);
                }
            }
        },
        Option::Some(d) => {
            let p = d - start;
            assert(body[p] == BYTE_DOT);
            assert(has_dot(body));
            let e = dot_index(body);
            assert(0 <= e < body.len() && body[e] == BYTE_DOT);
            assert(body[e] == s[e + start]);
            assert(e == p);
            assert(forall|q: int|
                0 <= q < body.len() && q != p ==> is_ascii_digit(#[trigger] body[q])) by {
                assert(forall|q: int| 0 <= q < body.len() ==> body[q] == s[q + start]);
            }
            assert(all_ascii_digits(body.take(e))) by {
                assert(forall|q: int| 0 <= q < e ==> body.take(e)[q] == body[q]);
            }
            assert(all_ascii_digits(body.skip(e + 1))) by {
                assert(forall|q: int|
                    0 <= q < body.len() - e - 1 ==> #[trigger] body.skip(e + 1)[q] == body[q + e
                        + 1]);
            }
            let w = choose|k: int| start <= k < s.len() && is_ascii_digit(#[trigger] s[k]);
            assert(body[w - start] == s[w]);
            assert(w - start != p);
            assert(body.len() >= 2);
        },
    }
}

/// Scaling a fraction prefix by the remaining weight stays under a unit.
proof fn lemma_frac_scale_bound(fpart: Seq<u8>, scanned: int, k: nat)
    requires
        all_ascii_digits(fpart),
        0 <= scanned <= fpart.len(),
        scanned + k <= 6,
    ensures
        digits_value(fpart.take(scanned)) * pow10(k) < 1_000_000,
{
    let head = fpart.take(scanned);
    assert(all_ascii_digits(head)) by {
        assert(forall|i: int| 0 <= i < head.len() ==> head[i] == fpart[i]);
    }
    lemma_digits_value_bounds(head);
    lemma_pow10_pos(k);
    lemma_pow10_mul(scanned as nat, k);
    lemma_pow10_ascending((scanned + k) as nat, 6);
    lemma_pow10_six();
    assert(digits_value(head) * pow10(k) <= (pow10(scanned as nat) - 1) * pow10(k))
        by (nonlinear_arith)
        requires
            digits_value(head) <= pow10(scanned as nat) - 1,
            1 <= pow10(k),
            0 <= digits_value(head),
    ;
    assert((pow10(scanned as nat) - 1) * pow10(k) == pow10(scanned as nat) * pow10(k) - pow10(k))
        by (nonlinear_arith);
}

/// Ten's powers do not descend as the exponent grows.
proof fn lemma_pow10_ascending(a: nat, b: nat)
    requires
        a <= b,
    ensures
        pow10(a) <= pow10(b),
    decreases b,
{
    if a < b {
        lemma_pow10_ascending(a, (b - 1) as nat);
        lemma_pow10_pos((b - 1) as nat);
    }
}

/// Once the integer digits alone pass the representable range, the whole
/// magnitude does.
proof fn lemma_magnitude_exceeds(s: Seq<u8>, body: Seq<u8>, ipart: Seq<u8>, m: int)
    requires
        wf_decimal(s),
        body == number_body(s),
        ipart == if has_dot(body) {
            body.take(dot_index(body))
        } else {
            body
        },
        all_ascii_digits(ipart),
        0 <= m <= ipart.len(),
        digits_value(ipart.take(m)) > i64::MAX,
    ensures
        magnitude_micro(s) > i64::MAX,
{
    lemma_digits_value_prefix(ipart, m);
    lemma_digits_value_bounds(ipart);
    let v = digits_value(ipart);
    assert(v > i64::MAX);
    assert(v <= v * MICRO_SCALE) by (nonlinear_arith)
        requires
            0 <= v,
    ;
    if has_dot(body) {
        let f = body.skip(dot_index(body) + 1);
        assert(all_ascii_digits(f)) by {
            if body.len() >= 1 && all_ascii_digits(body) {
                assert(is_ascii_digit(body[dot_index(body)]));
                assert(false);
            }
        }
        lemma_frac_micro_bounds(f);
    }
}

/// A tagged configuration level: either an absolute value, or a
/// percentile rank to resolve against a histogram.  Values are in
/// micro-units (`MICRO_SCALE` to one).
#[derive(Clone, Copy, Debug, PartialEq, Eq, Structural)]
pub enum Level {
    Scalar(i64),
    Percentile(i64),
}

/// The text selects a percentile: it ends in a percent sign.
pub open spec fn has_percent_suffix(s: Seq<u8>) -> bool {
    s.len() > 0 && s.last() == BYTE_PERCENT
}

/// The number part of a level text: everything before a percent suffix.
pub open spec fn level_number(s: Seq<u8>) -> Seq<u8> {
    if has_percent_suffix(s) {
        s.drop_last()
    } else {
        s
    }
}

impl Level {
    /// Parses a level: text ending in `%` is a percentile rank, any other
    /// text an absolute scalar.  The number itself follows the decimal
    /// grammar, exact to micro-units; exponent notation and non-finite
    /// spellings are rejected as malformed.
    pub fn with_str(source: &str) -> (r: Result<Level, NumberFormatError>)
        ensures
            ({
                let sb = source.spec_bytes();
                let num = level_number(sb);
                match r {
                    Ok(Level::Percentile(v)) => has_percent_suffix(sb) && wf_decimal(num)
                        && magnitude_micro(num) <= i64::MAX && v == decimal_micro(num),
                    Ok(Level::Scalar(v)) => !has_percent_suffix(sb) && wf_decimal(num)
                        && magnitude_micro(num) <= i64::MAX && v == decimal_micro(num),
                    Err(NumberFormatError::Syntax) => !wf_decimal(num),
                    Err(NumberFormatError::Overflow) => wf_decimal(num) && magnitude_micro(num)
                        > i64::MAX,
                }
            }),
    {
        let bytes = source.as_bytes();
        let n = bytes.len();
        if n > 0 && bytes[n - 1] == BYTE_PERCENT {
            let number = &bytes[0..n - 1];
            proof {
                assert(number@ =~= level_number(source.spec_bytes()));
            }
            match parse_decimal_micro(number) {
                Ok(v) => Ok(Level::Percentile(v)),
                Err(e) => Err(e),
            }
        } else {
            proof {
                assert(bytes@ =~= level_number(source.spec_bytes()));
            }
            match parse_decimal_micro(bytes) {
                Ok(v) => Ok(Level::Scalar(v)),
                Err(e) => Err(e),
            }
        }
    }
}

} // verus!
