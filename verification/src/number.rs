//! Decimal value fields, held exactly.
//!
//! A value field is an optional sign, a run of integer digits, and an
//! optional `.` followed by a run of fractional digits. The parser turns it
//! into an integer count of billionths (the literal scaled by [`crate::SCALE`]),
//! so `-96.9` becomes `-96_900_000_000`. The representation is exact: no
//! rounding happens anywhere in the library.

use vstd::prelude::*;

verus! {

use crate::{FRAC_DIGITS, MAX_INT_DIGITS, SCALE};

/// ASCII digit.
pub open spec fn is_digit(b: u8) -> bool {
    48 <= b <= 57
}

/// Every byte of `s` is an ASCII digit.
pub open spec fn all_digits(s: Seq<u8>) -> bool {
    forall|i: int| 0 <= i < s.len() ==> is_digit(#[trigger] s[i])
}

/// The integer a run of digits denotes, most significant digit first.
pub open spec fn digits_val(s: Seq<u8>) -> int
    decreases s.len(),
{
    if s.len() == 0 {
        0
    } else {
        digits_val(s.drop_last()) * 10 + (s.last() - 48)
    }
}

/// Ten to the `n`.
pub open spec fn pow10(n: nat) -> int
    decreases n,
{
    if n == 0 {
        1
    } else {
        10 * pow10((n - 1) as nat)
    }
}

/// Index of the first occurrence of `b` in `s`, or `-1` if there is none.
pub open spec fn find_byte(s: Seq<u8>, b: u8) -> int
    decreases s.len(),
{
    if s.len() == 0 {
        -1
    } else if s[0] == b {
        0
    } else if find_byte(s.drop_first(), b) < 0 {
        -1
    } else {
        find_byte(s.drop_first(), b) + 1
    }
}

/// An unsigned value field: integer digits, then optionally a dot and
/// fractional digits, within the digit-count limits the library holds
/// values under.
pub open spec fn is_unsigned_number(s: Seq<u8>) -> bool {
    let d = find_byte(s, 46);
    if d < 0 {
        1 <= s.len() <= MAX_INT_DIGITS && all_digits(s)
    } else {
        let ip = s.subrange(0, d);
        let fp = s.subrange(d + 1, s.len() as int);
        &&& 1 <= ip.len() <= MAX_INT_DIGITS
        &&& 1 <= fp.len() <= FRAC_DIGITS
        &&& all_digits(ip)
        &&& all_digits(fp)
    }
}

/// The scaled integer an unsigned value field denotes.
pub open spec fn unsigned_number_val(s: Seq<u8>) -> int {
    let d = find_byte(s, 46);
    if d < 0 {
        digits_val(s) * (SCALE as int)
    } else {
        let ip = s.subrange(0, d);
        let fp = s.subrange(d + 1, s.len() as int);
        digits_val(ip) * (SCALE as int) + digits_val(fp) * pow10(
            (FRAC_DIGITS - fp.len()) as nat,
        )
    }
}

/// A value field: an optional `+` or `-` sign before an unsigned field.
pub open spec fn is_number(s: Seq<u8>) -> bool {
    if s.len() == 0 {
        false
    } else if s[0] == 43 || s[0] == 45 {
        is_unsigned_number(s.drop_first())
    } else {
        is_unsigned_number(s)
    }
}

/// The scaled integer a value field denotes.
pub open spec fn number_val(s: Seq<u8>) -> int {
    if s.len() > 0 && s[0] == 45 {
        -unsigned_number_val(s.drop_first())
    } else if s.len() > 0 && s[0] == 43 {
        unsigned_number_val(s.drop_first())
    } else {
        unsigned_number_val(s)
    }
}

pub proof fn lemma_pow10_pos(n: nat)
    ensures
        pow10(n) >= 1,
    decreases n,
{
    if n > 0 {
        lemma_pow10_pos((n - 1) as nat);
    }
}

pub proof fn lemma_pow10_adds(a: nat, b: nat)
    ensures
        pow10(a + b) == pow10(a) * pow10(b),
    decreases a,
{
    if a == 0 {
    } else {
        lemma_pow10_adds((a - 1) as nat, b);
        assert((a + b - 1) as nat == ((a - 1) as nat) + b);
        assert(10 * (pow10((a - 1) as nat) * pow10(b)) == (10 * pow10((a - 1) as nat)) * pow10(b))
            by (nonlinear_arith);
    }
}

pub proof fn lemma_pow10_increases(a: nat, b: nat)
    requires
        a <= b,
    ensures
        pow10(a) <= pow10(b),
    decreases b,
{
    if a < b {
        lemma_pow10_increases(a, (b - 1) as nat);
        lemma_pow10_pos((b - 1) as nat);
    }
}

/// Concrete powers of ten the executable code measures itself against.
pub proof fn lemma_pow10_values()
    ensures
        pow10(FRAC_DIGITS as nat) == SCALE as int,
        pow10(28) == 10000000000000000000000000000,
        pow10((MAX_INT_DIGITS + FRAC_DIGITS) as nat) == pow10(27) * pow10(9),
        pow10(36) < i128::MAX,
{
    reveal_with_fuel(pow10, 30);
    assert(pow10(9) == 1000000000);
    assert(pow10(28) == 10000000000000000000000000000);
    lemma_pow10_adds(27, 9);
    assert(pow10(27) == 1000000000000000000000000000);
    assert(pow10(36) == 1000000000000000000000000000int * 1000000000int);
}

pub proof fn lemma_digits_val_bound(s: Seq<u8>)
    requires
        all_digits(s),
    ensures
        0 <= digits_val(s) < pow10(s.len()),
    decreases s.len(),
{
    if s.len() == 0 {
    } else {
        assert forall|i: int| 0 <= i < s.drop_last().len() implies is_digit(
            #[trigger] s.drop_last()[i],
        ) by {
            assert(s.drop_last()[i] == s[i]);
        }
        lemma_digits_val_bound(s.drop_last());
        assert(is_digit(s[s.len() - 1]));
    }
}

/// What the first-occurrence index says of the bytes of `s`.
pub proof fn lemma_find_byte(s: Seq<u8>, b: u8)
    ensures
        find_byte(s, b) >= 0 ==> find_byte(s, b) < s.len() && s[find_byte(s, b)] == b,
        find_byte(s, b) >= 0 ==> forall|i: int| 0 <= i < find_byte(s, b) ==> s[i] != b,
        find_byte(s, b) < 0 ==> forall|i: int| 0 <= i < s.len() ==> s[i] != b,
    decreases s.len(),
{
    if s.len() == 0 {
    } else if s[0] == b {
    } else {
        lemma_find_byte(s.drop_first(), b);
        let df = s.drop_first();
        assert forall|i: int| 1 <= i < s.len() implies s[i] == df[i - 1] by {}
        if find_byte(df, b) >= 0 {
            assert(s[find_byte(s, b)] == df[find_byte(df, b)]);
        }
    }
}

/// The first-occurrence index is the one position that carries `b` with no
/// earlier occurrence.
pub proof fn lemma_find_byte_at(s: Seq<u8>, b: u8, j: int)
    requires
        0 <= j < s.len(),
        s[j] == b,
        forall|i: int| 0 <= i < j ==> s[i] != b,
    ensures
        find_byte(s, b) == j,
{
    lemma_find_byte(s, b);
    let f = find_byte(s, b);
    if f < 0 {
        assert(s[j] != b);
    } else if f < j {
        assert(s[f] != b);
    } else if f > j {
        assert(s[j] != b);
    }
}

/// Digit runs of an accepted unsigned field keep its value under
/// ten to the `MAX_INT_DIGITS + FRAC_DIGITS`.
pub proof fn lemma_unsigned_val_bound(s: Seq<u8>)
    requires
        is_unsigned_number(s),
    ensures
        0 <= unsigned_number_val(s) < pow10((MAX_INT_DIGITS + FRAC_DIGITS) as nat),
{
    lemma_pow10_values();
    lemma_pow10_adds(27, 9);
    let d = find_byte(s, 46);
    if d < 0 {
        lemma_digits_val_bound(s);
        lemma_pow10_increases(s.len(), 27);
        assert(digits_val(s) * (SCALE as int) < pow10(27) * pow10(9)) by (nonlinear_arith)
            requires
                0 <= digits_val(s),
                digits_val(s) < pow10(27),
                SCALE as int == pow10(9),
                pow10(9) >= 1,
        ;
        assert(digits_val(s) * (SCALE as int) >= 0) by (nonlinear_arith)
            requires
                0 <= digits_val(s),
                SCALE as int >= 1,
        ;
    } else {
        let ip = s.subrange(0, d);
        let fp = s.subrange(d + 1, s.len() as int);
        lemma_digits_val_bound(ip);
        lemma_digits_val_bound(fp);
        lemma_pow10_increases(ip.len(), 27);
        lemma_pow10_pos((FRAC_DIGITS - fp.len()) as nat);
        lemma_pow10_adds(fp.len(), (FRAC_DIGITS - fp.len()) as nat);
        // the fractional contribution stays under one whole unit
        assert(digits_val(fp) * pow10((FRAC_DIGITS - fp.len()) as nat) < pow10(fp.len()) * pow10(
            (FRAC_DIGITS - fp.len()) as nat,
        )) by (nonlinear_arith)
            requires
                0 <= digits_val(fp) < pow10(fp.len()),
                pow10((FRAC_DIGITS - fp.len()) as nat) >= 1,
        ;
        assert(digits_val(fp) * pow10((FRAC_DIGITS - fp.len()) as nat) >= 0) by (nonlinear_arith)
            requires
                0 <= digits_val(fp),
                pow10((FRAC_DIGITS - fp.len()) as nat) >= 1,
        ;
        // the integer contribution stays at least one whole unit under the cap
        assert(digits_val(ip) * (SCALE as int) <= (pow10(27) - 1) * pow10(9)) by (nonlinear_arith)
            requires
                0 <= digits_val(ip),
                digits_val(ip) <= pow10(27) - 1,
                SCALE as int == pow10(9),
                pow10(9) >= 1,
        ;
        assert(digits_val(ip) * (SCALE as int) >= 0) by (nonlinear_arith)
            requires
                0 <= digits_val(ip),
                SCALE as int >= 1,
        ;
        assert((pow10(27) - 1) * pow10(9) == pow10(27) * pow10(9) - pow10(9)) by (nonlinear_arith);
    }
}

/// The digits of `s` between `from` and `to`, as a number, or `None` where a
/// byte in that range is no digit.
fn digits_value(s: &[u8], from: usize, to: usize) -> (r: Option<i128>)
    requires
        from <= to <= s@.len(),
        to - from <= MAX_INT_DIGITS,
    ensures
        r is Some <==> all_digits(s@.subrange(from as int, to as int)),
        r matches Some(v) ==> v == digits_val(s@.subrange(from as int, to as int)) && 0 <= v
            < pow10((to - from) as nat),
{
    proof {
        lemma_pow10_values();
    }
    let mut acc: i128 = 0;
    let mut i: usize = from;
    while i < to
        invariant
            from <= i <= to <= s@.len(),
            to - from <= MAX_INT_DIGITS,
            all_digits(s@.subrange(from as int, i as int)),
            acc == digits_val(s@.subrange(from as int, i as int)),
            0 <= acc < pow10((i - from) as nat),
            pow10(28) == 10000000000000000000000000000,
        decreases to - i,
    {
        let b = s[i];
        if b < 48 || b > 57 {
            proof {
                assert(s@.subrange(from as int, to as int)[i - from] == s@[i as int]);
            }
            return None;
        }
        proof {
            lemma_pow10_increases((i - from) as nat, 27);
            lemma_pow10_increases(27, 28);
            assert(pow10(((i + 1) - from) as nat) == 10 * pow10((i - from) as nat));
        }
        acc = acc * 10 + (b - 48) as i128;
        proof {
            let pre = s@.subrange(from as int, i as int);
            let post = s@.subrange(from as int, (i + 1) as int);
            assert(post.drop_last() =~= pre);
            assert(post.last() == s@[i as int]);
            assert forall|j: int| 0 <= j < post.len() implies is_digit(#[trigger] post[j]) by {
                if j < post.len() - 1 {
                    assert(post[j] == pre[j]);
                }
            }
        }
        i = i + 1;
    }
    proof {
        assert(s@.subrange(from as int, i as int) =~= s@.subrange(from as int, to as int));
    }
    Some(acc)
}

/// Ten to the `n`, as a machine integer, for the small exponents the
/// fractional scaling needs.
fn pow10_i128(n: usize) -> (r: i128)
    requires
        n <= FRAC_DIGITS,
    ensures
        r == pow10(n as nat),
{
    proof {
        lemma_pow10_values();
    }
    let mut r: i128 = 1;
    let mut i: usize = 0;
    while i < n
        invariant
            i <= n <= FRAC_DIGITS,
            r == pow10(i as nat),
            1 <= r,
        decreases n - i,
    {
        proof {
            lemma_pow10_increases(i as nat, 8);
            lemma_pow10_values();
            assert(pow10(8) == 100000000) by {
                reveal_with_fuel(pow10, 10);
            }
            assert(pow10((i + 1) as nat) == 10 * pow10(i as nat));
        }
        r = r * 10;
        i = i + 1;
    }
    r
}

/// An unsigned value field as its scaled integer, or `None` where the field
/// is not one the library accepts.
fn parse_unsigned(s: &[u8]) -> (r: Option<i128>)
    ensures
        r is Some <==> is_unsigned_number(s@),
        r matches Some(v) ==> v == unsigned_number_val(s@) && 0 <= v < pow10(
            (MAX_INT_DIGITS + FRAC_DIGITS) as nat,
        ),
{
    proof {
        lemma_pow10_values();
        lemma_pow10_adds(27, 9);
    }
    let n = s.len();
    // locate the first dot, if any
    let mut dot: usize = n;
    let mut i: usize = 0;
    while i < n
        invariant
            i <= n == s@.len(),
            dot <= n,
            dot == n ==> forall|j: int| 0 <= j < i ==> s@[j] != 46,
            dot < n ==> s@[dot as int] == 46 && dot < i && forall|j: int|
                0 <= j < dot ==> s@[j] != 46,
        decreases n - i,
    {
        if s[i] == 46 && dot == n {
            dot = i;
        }
        i = i + 1;
    }
    proof {
        if dot == n {
            lemma_find_byte(s@, 46);
            if find_byte(s@, 46) >= 0 {
                assert(s@[find_byte(s@, 46)] != 46);
            }
        } else {
            lemma_find_byte_at(s@, 46, dot as int);
        }
    }
    if dot == n {
        // digits only
        if n < 1 || n > MAX_INT_DIGITS {
            return None;
        }
        match digits_value(s, 0, n) {
            None => {
                proof {
                    assert(s@.subrange(0, n as int) =~= s@);
                }
                None
            },
            Some(v) => {
                proof {
                    assert(s@.subrange(0, n as int) =~= s@);
                    lemma_digits_val_bound(s@);
                    lemma_pow10_increases(s@.len(), 27);
                    assert(v * (SCALE as int) < pow10(27) * pow10(9)) by (nonlinear_arith)
                        requires
                            0 <= v < pow10(27),
                            SCALE as int == pow10(9),
                            pow10(9) >= 1,
                    ;
                    assert(v * (SCALE as int) >= 0) by (nonlinear_arith)
                        requires
                            0 <= v,
                            SCALE as int >= 1,
                    ;
                }
                Some(v * SCALE)
            },
        }
    } else {
        // integer digits, a dot, fractional digits
        let fl = n - dot - 1;
        if dot < 1 || dot > MAX_INT_DIGITS || fl < 1 || fl > FRAC_DIGITS {
            return None;
        }
        let ip_val = match digits_value(s, 0, dot) {
            None => {
                return None;
            },
            Some(v) => v,
        };
        let fp_val = match digits_value(s, dot + 1, n) {
            None => {
                return None;
            },
            Some(v) => v,
        };
        let mult = pow10_i128(FRAC_DIGITS - fl);
        proof {
            let ip = s@.subrange(0, dot as int);
            let fp = s@.subrange(dot as int + 1, n as int);
            lemma_pow10_increases(ip.len(), 27);
            lemma_pow10_pos((FRAC_DIGITS - fl) as nat);
            lemma_pow10_adds(fl as nat, (FRAC_DIGITS - fl) as nat);
            assert(fp_val * (mult as int) < pow10(fl as nat) * pow10((FRAC_DIGITS - fl) as nat))
                by (nonlinear_arith)
                requires
                    0 <= fp_val < pow10(fl as nat),
                    mult as int == pow10((FRAC_DIGITS - fl) as nat),
                    pow10((FRAC_DIGITS - fl) as nat) >= 1,
            ;
            assert(fp_val * (mult as int) >= 0) by (nonlinear_arith)
                requires
                    0 <= fp_val,
                    mult as int >= 1,
            ;
            assert(ip_val * (SCALE as int) <= (pow10(27) - 1) * pow10(9)) by (nonlinear_arith)
                requires
                    0 <= ip_val,
                    ip_val <= pow10(27) - 1,
                    SCALE as int == pow10(9),
                    pow10(9) >= 1,
            ;
            assert(ip_val * (SCALE as int) >= 0) by (nonlinear_arith)
                requires
                    0 <= ip_val,
                    SCALE as int >= 1,
            ;
            assert((pow10(27) - 1) * pow10(9) == pow10(27) * pow10(9) - pow10(9))
                by (nonlinear_arith);
        }
        Some(ip_val * SCALE + fp_val * mult)
    }
}

/// A value field as its scaled integer, or `None` where the field is not one
/// the library accepts.
pub fn parse_number(s: &[u8]) -> (r: Option<i128>)
    ensures
        r is Some <==> is_number(s@),
        r matches Some(v) ==> v == number_val(s@),
{
    if s.len() == 0 {
        return None;
    }
    let b0 = s[0];
    if b0 == 43 || b0 == 45 {
        let body = vstd::slice::slice_subrange(s, 1, s.len());
        proof {
            assert(body@ =~= s@.drop_first());
        }
        match parse_unsigned(body) {
            None => None,
            Some(v) => {
                proof {
                    lemma_pow10_values();
                }
                if b0 == 45 {
                    Some(-v)
                } else {
                    Some(v)
                }
            },
        }
    } else {
        parse_unsigned(s)
    }
}

} // verus!
