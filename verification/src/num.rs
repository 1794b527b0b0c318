//! Decimal digit strings: formatting of unsigned and signed integers as
//! ASCII bytes, a cursor-based parser, and the round-trip lemmas between
//! them that the persistence codec builds on.

use vstd::prelude::*;
use vstd::arithmetic::div_mod::lemma_fundamental_div_mod;

verus! {

/// Is `b` an ASCII decimal digit?
pub open spec fn is_digit(b: u8) -> bool {
    48 <= b <= 57
}

/// The decimal digit string of `n`, most significant digit first.
pub open spec fn dec_digits(n: nat) -> Seq<u8>
    decreases n,
{
    if n < 10 {
        seq![(48 + n) as u8]
    } else {
        dec_digits(n / 10).push((48 + n % 10) as u8)
    }
}

/// The decimal form of a signed integer: a minus sign before the digits
/// of the magnitude when negative.
pub open spec fn dec_int(i: int) -> Seq<u8> {
    if i < 0 {
        seq![45u8] + dec_digits((-i) as nat)
    } else {
        dec_digits(i as nat)
    }
}

/// Every byte of `dec_digits(n)` is a digit, and there is at least one.
pub proof fn lemma_dec_digits_shape(n: nat)
    ensures
        dec_digits(n).len() >= 1,
        forall|i: int| 0 <= i < dec_digits(n).len() ==> is_digit(#[trigger] dec_digits(n)[i]),
    decreases n,
{
    if n < 10 {
    } else {
        lemma_dec_digits_shape(n / 10);
        let s = dec_digits(n / 10);
        assert forall|i: int| 0 <= i < dec_digits(n).len() implies is_digit(
            #[trigger] dec_digits(n)[i],
        ) by {
            if i < s.len() {
                assert(dec_digits(n)[i] == s[i]);
            }
        }
    }
}

/// The first ten powers of ten, spelled out for the length bounds.
pub proof fn lemma_pow10_table()
    ensures
        pow10(0) == 1,
        pow10(10) == 10_000_000_000,
{
    assert(pow10(0) == 1);
    assert(pow10(1) == 10);
    assert(pow10(2) == 100);
    assert(pow10(3) == 1000);
    assert(pow10(4) == 10000);
    assert(pow10(5) == 100000);
    assert(pow10(6) == 1000000);
    assert(pow10(7) == 10000000);
    assert(pow10(8) == 100000000);
    assert(pow10(9) == 1000000000);
    assert(pow10(10) == 10_000_000_000);
}

/// `dec_digits(n)` has at most `d` digits when `n < 10^d`.
pub proof fn lemma_dec_digits_len_bound(n: nat, d: nat)
    requires
        d >= 1,
        n < pow10(d),
    ensures
        dec_digits(n).len() <= d,
    decreases n,
{
    if n < 10 {
    } else {
        assert(d >= 2) by {
            if d == 1 {
                assert(pow10(0) == 1);
                assert(pow10(1) == 10);
            }
        }
        assert(pow10(d) == 10 * pow10((d - 1) as nat));
        assert(n / 10 < pow10((d - 1) as nat)) by {
            if n / 10 >= pow10((d - 1) as nat) {
                lemma_fundamental_div_mod(n as int, 10);
                assert(n >= 10 * (n / 10));
                assert(10 * (n / 10) >= 10 * pow10((d - 1) as nat)) by (nonlinear_arith)
                    requires
                        n / 10 >= pow10((d - 1) as nat),
                ;
            }
        }
        lemma_dec_digits_len_bound(n / 10, (d - 1) as nat);
    }
}

/// Ten to the power `d`.
pub open spec fn pow10(d: nat) -> nat
    decreases d,
{
    if d == 0 {
        1
    } else {
        10 * pow10((d - 1) as nat)
    }
}

/// The number of consecutive digits in `s` starting at `i`.
pub open spec fn digit_run(s: Seq<u8>, i: int) -> int
    decreases s.len() - i,
{
    if 0 <= i < s.len() && is_digit(s[i]) {
        1 + digit_run(s, i + 1)
    } else {
        0
    }
}

/// The value of the digits of `s` from `i` (inclusive) to `end`
/// (exclusive), folded onto the accumulator `acc`.
pub open spec fn digits_value(s: Seq<u8>, i: int, end: int, acc: int) -> int
    decreases end - i,
{
    if i < end {
        digits_value(s, i + 1, end, acc * 10 + (s[i] - 48))
    } else {
        acc
    }
}

/// Parse an unsigned integer at `i`: its value and the position after it,
/// or nothing if no digit starts at `i` or the run is too long to fit.
pub open spec fn sp_parse_u64(s: Seq<u8>, i: int) -> Option<(int, int)> {
    let run = digit_run(s, i);
    if run < 1 || run > 19 {
        None
    } else {
        let v = digits_value(s, i, i + run, 0);
        if 0 <= v < 0x1_0000_0000_0000_0000 {
            Some((v, i + run))
        } else {
            None
        }
    }
}

/// Parse a signed 32-bit integer at `i`: an optional minus sign, digits,
/// and a range check.
pub open spec fn sp_parse_i32(s: Seq<u8>, i: int) -> Option<(int, int)> {
    if 0 <= i < s.len() && s[i] == 45 {
        match sp_parse_u64(s, i + 1) {
            Some((v, j)) => if v <= 0x8000_0000 {
                Some((-v, j))
            } else {
                None
            },
            None => None,
        }
    } else {
        match sp_parse_u64(s, i) {
            Some((v, j)) => if v < 0x8000_0000 {
                Some((v, j))
            } else {
                None
            },
            None => None,
        }
    }
}

/// Extending a digit fold by one position multiplies by ten and adds the
/// new digit.
proof fn lemma_digits_value_extend(s: Seq<u8>, i: int, end: int, acc: int)
    requires
        i <= end < s.len(),
    ensures
        digits_value(s, i, end + 1, acc) == digits_value(s, i, end, acc) * 10 + (s[end] - 48),
    decreases end - i,
{
    if i < end {
        lemma_digits_value_extend(s, i + 1, end, acc * 10 + (s[i] - 48));
    } else {
        assert(digits_value(s, i, end + 1, acc) == digits_value(
            s,
            i + 1,
            end + 1,
            acc * 10 + (s[i] - 48),
        ));
        assert(digits_value(s, i + 1, end + 1, acc * 10 + (s[i] - 48)) == acc * 10 + (s[i] - 48));
    }
}

/// A digit string placed inside `s` folds to the value it denotes.
proof fn lemma_digits_value_of_dec(s: Seq<u8>, i: int, n: nat)
    requires
        0 <= i,
        i + dec_digits(n).len() <= s.len(),
        forall|q: int| 0 <= q < dec_digits(n).len() ==> s[i + q] == #[trigger] dec_digits(n)[q],
    ensures
        digits_value(s, i, i + dec_digits(n).len(), 0) == n,
    decreases n,
{
    let d = dec_digits(n);
    if n < 10 {
        assert(s[i + 0] == d[0]);
        assert(digits_value(s, i, i + 1, 0) == digits_value(s, i + 1, i + 1, 0 * 10 + (s[i] - 48)));
        assert(digits_value(s, i + 1, i + 1, (s[i] - 48) as int) == s[i] - 48);
    } else {
        let p = dec_digits(n / 10);
        assert forall|q: int| 0 <= q < p.len() implies s[i + q] == #[trigger] p[q] by {
            assert(d[q] == p[q]);
        }
        lemma_digits_value_of_dec(s, i, n / 10);
        assert(s[i + p.len()] == d[p.len() as int]);
        lemma_digits_value_extend(s, i, i + p.len(), 0);
        lemma_fundamental_div_mod(n as int, 10);
    }
}

/// A digit string placed inside `s`, with a non-digit (or the end) just
/// after it, is exactly the digit run at its position.
proof fn lemma_digit_run_of_dec(s: Seq<u8>, i: int, n: nat)
    requires
        0 <= i,
        i + dec_digits(n).len() <= s.len(),
        forall|q: int| 0 <= q < dec_digits(n).len() ==> s[i + q] == #[trigger] dec_digits(n)[q],
        i + dec_digits(n).len() == s.len() || !is_digit(s[i + dec_digits(n).len()]),
    ensures
        digit_run(s, i) == dec_digits(n).len(),
{
    lemma_dec_digits_shape(n);
    let end = i + dec_digits(n).len();
    assert forall|q: int| i <= q < end implies is_digit(#[trigger] s[q]) by {
        assert(s[i + (q - i)] == dec_digits(n)[q - i]);
    }
    lemma_digit_run_all_digits(s, i, end);
}

/// The digit run from `i` reaches exactly to `end` when everything before
/// `end` is a digit and `end` is a boundary.
proof fn lemma_digit_run_all_digits(s: Seq<u8>, i: int, end: int)
    requires
        0 <= i <= end <= s.len(),
        forall|q: int| i <= q < end ==> is_digit(#[trigger] s[q]),
        end == s.len() || !is_digit(s[end]),
    ensures
        digit_run(s, i) == end - i,
    decreases end - i,
{
    if i < end {
        lemma_digit_run_all_digits(s, i + 1, end);
    }
}

/// Parsing the decimal form of `n` placed inside `s` yields `n` and stops
/// right after it.
pub proof fn lemma_parse_u64_of_dec(s: Seq<u8>, i: int, n: nat)
    requires
        0 <= i,
        n < 0x1_0000_0000,
        i + dec_digits(n).len() <= s.len(),
        forall|q: int| 0 <= q < dec_digits(n).len() ==> s[i + q] == #[trigger] dec_digits(n)[q],
        i + dec_digits(n).len() == s.len() || !is_digit(s[i + dec_digits(n).len()]),
    ensures
        sp_parse_u64(s, i) == Some((n as int, i + dec_digits(n).len())),
{
    lemma_dec_digits_shape(n);
    lemma_pow10_table();
    lemma_dec_digits_len_bound(n, 10);
    lemma_digit_run_of_dec(s, i, n);
    lemma_digits_value_of_dec(s, i, n);
}

/// Parsing the decimal form of a signed 32-bit value placed inside `s`
/// yields that value and stops right after it.
pub proof fn lemma_parse_i32_of_dec(s: Seq<u8>, i: int, v: int)
    requires
        0 <= i,
        -0x8000_0000 <= v < 0x8000_0000,
        i + dec_int(v).len() <= s.len(),
        forall|q: int| 0 <= q < dec_int(v).len() ==> s[i + q] == #[trigger] dec_int(v)[q],
        i + dec_int(v).len() == s.len() || !is_digit(s[i + dec_int(v).len()]),
    ensures
        sp_parse_i32(s, i) == Some((v, i + dec_int(v).len())),
{
    if v < 0 {
        let mag = (-v) as nat;
        assert(s[i + 0] == dec_int(v)[0]);
        assert(dec_int(v)[0] == 45);
        assert(!is_digit(45));
        assert forall|q: int| 0 <= q < dec_digits(mag).len() implies s[i + 1 + q]
            == #[trigger] dec_digits(mag)[q] by {
            assert(dec_int(v)[1 + q] == dec_digits(mag)[q]);
        }
        lemma_parse_u64_of_dec(s, i + 1, mag);
    } else {
        lemma_parse_u64_of_dec(s, i, v as nat);
        lemma_dec_digits_shape(v as nat);
        assert(s[i + 0] == dec_int(v)[0]);
        assert(dec_int(v)[0] == dec_digits(v as nat)[0]);
        assert(is_digit(s[i]));
    }
}

/// Format an unsigned 64-bit value as its decimal digit string.
pub fn fmt_u64(n: u64) -> (r: Vec<u8>)
    ensures
        r@ == dec_digits(n as nat),
    decreases n,
{
    if n < 10 {
        let mut r: Vec<u8> = Vec::new();
        r.push(48 + (n as u8));
        proof {
            assert(r@ =~= dec_digits(n as nat));
        }
        r
    } else {
        let mut r = fmt_u64(n / 10);
        r.push(48 + ((n % 10) as u8));
        proof {
            assert(r@ =~= dec_digits(n as nat));
        }
        r
    }
}

/// Format a signed 32-bit value as its decimal form.
pub fn fmt_i32(v: i32) -> (r: Vec<u8>)
    ensures
        r@ == dec_int(v as int),
{
    if v >= 0 {
        fmt_u64(v as u64)
    } else {
        let mag: u64 = ((-(v as i64)) as u64);
        let mut r: Vec<u8> = Vec::new();
        r.push(45);
        let mut digits = fmt_u64(mag);
        let mut q: usize = 0;
        while q < digits.len()
            invariant
                q <= digits@.len(),
                digits@ == dec_digits((-(v as int)) as nat),
                r@ == seq![45u8] + digits@.take(q as int),
            decreases digits@.len() - q,
        {
            let b = digits[q];
            r.push(b);
            proof {
                assert(r@ =~= seq![45u8] + digits@.take(q as int + 1));
            }
            q = q + 1;
        }
        proof {
            assert(digits@.take(digits@.len() as int) =~= digits@);
            assert(r@ =~= dec_int(v as int));
        }
        r
    }
}

/// Parse the digit run at `pos`, mirroring `sp_parse_u64`.
pub fn parse_u64(s: &Vec<u8>, pos: usize) -> (r: Option<(u64, usize)>)
    requires
        pos <= s@.len(),
    ensures
        match r {
            Some((v, j)) => sp_parse_u64(s@, pos as int) == Some((v as int, j as int)) && pos < j
                <= s@.len(),
            None => sp_parse_u64(s@, pos as int) is None,
        },
{
    let ghost run = digit_run(s@, pos as int);
    proof {
        assert(pow10(0) == 1);
    }
    let mut j: usize = pos;
    let mut acc: u64 = 0;
    let mut overflowed: bool = false;
    while j < s.len() && s[j] >= 48 && s[j] <= 57 && j - pos < 19
        invariant
            pos <= j <= s@.len(),
            j - pos <= 19,
            forall|q: int| pos <= q < j ==> is_digit(#[trigger] s@[q]),
            digit_run(s@, pos as int) == (j - pos) + digit_run(s@, j as int),
            !overflowed ==> acc == digits_value(s@, pos as int, j as int, 0),
            !overflowed ==> acc < pow10((j - pos) as nat),
            overflowed ==> digits_value(s@, pos as int, j as int, 0) >= 0x1_0000_0000_0000_0000,
            digits_value(s@, pos as int, j as int, 0) >= 0,
        decreases s@.len() - j,
    {
        let d: u64 = (s[j] - 48) as u64;
        proof {
            lemma_digits_value_extend(s@, pos as int, j as int, 0);
            assert(digit_run(s@, j as int) == 1 + digit_run(s@, j as int + 1));
        }
        if !overflowed {
            if acc > 0xFFFF_FFFF_FFFF_FFFFu64 / 10 || (acc == 0xFFFF_FFFF_FFFF_FFFFu64 / 10 && d
                > 0xFFFF_FFFF_FFFF_FFFFu64 % 10) {
                overflowed = true;
                proof {
                    assert(digits_value(s@, pos as int, j as int + 1, 0) == acc * 10 + d);
                    assert(acc * 10 + d > 0xFFFF_FFFF_FFFF_FFFFu64) by (nonlinear_arith)
                        requires
                            acc > 0x1999999999999999u64 || (acc == 0x1999999999999999u64 && d > 5),
                            acc >= 0,
                            d >= 0,
                    ;
                }
            } else {
                proof {
                    assert(acc * 10 + d <= 0xFFFF_FFFF_FFFF_FFFFu64) by (nonlinear_arith)
                        requires
                            acc <= 0x1999999999999999u64,
                            !(acc == 0x1999999999999999u64 && d > 5),
                            0 <= d <= 9,
                            acc >= 0,
                    ;
                    assert(acc * 10 + d < 10 * pow10(((j - pos)) as nat)) by (nonlinear_arith)
                        requires
                            acc < pow10((j - pos) as nat),
                            0 <= d <= 9,
                            acc >= 0,
                            pow10((j - pos) as nat) >= 1,
                    ;
                    assert(pow10((j - pos + 1) as nat) == 10 * pow10((j - pos) as nat));
                    lemma_pow10_pos((j - pos) as nat);
                }
                acc = acc * 10 + d;
            }
        } else {
            proof {
                assert(digits_value(s@, pos as int, j as int + 1, 0) >= digits_value(
                    s@,
                    pos as int,
                    j as int,
                    0,
                ) * 10) by (nonlinear_arith)
                    requires
                        digits_value(s@, pos as int, j as int + 1, 0) == digits_value(
                            s@,
                            pos as int,
                            j as int,
                            0,
                        ) * 10 + (s@[j as int] - 48),
                        is_digit(s@[j as int]),
                ;
                assert(digits_value(s@, pos as int, j as int, 0) * 10 >= digits_value(
                    s@,
                    pos as int,
                    j as int,
                    0,
                )) by (nonlinear_arith)
                    requires
                        digits_value(s@, pos as int, j as int, 0) >= 0,
                ;
            }
        }
        j = j + 1;
    }
    proof {
        if j == s@.len() || !is_digit(s@[j as int]) {
            assert(digit_run(s@, j as int) == 0);
            assert(run == j - pos);
        }
    }
    if j == pos {
        return None;
    }
    if j < s.len() && s[j] >= 48 && s[j] <= 57 {
        proof {
            assert(j - pos == 19);
            assert(digit_run(s@, j as int) == 1 + digit_run(s@, (j + 1) as int));
            lemma_digit_run_nonneg(s@, (j + 1) as int);
            assert(digit_run(s@, pos as int) >= 20);
        }
        return None;
    }
    if overflowed {
        return None;
    }
    proof {
        assert(1 <= run <= 19);
        assert(acc < 0x1_0000_0000_0000_0000);
    }
    Some((acc, j))
}

/// A digit run is never negative.
proof fn lemma_digit_run_nonneg(s: Seq<u8>, i: int)
    ensures
        digit_run(s, i) >= 0,
    decreases s.len() - i,
{
    if 0 <= i < s.len() && is_digit(s[i]) {
        lemma_digit_run_nonneg(s, i + 1);
    }
}

/// A digit run stays inside the sequence.
pub proof fn lemma_digit_run_range(s: Seq<u8>, i: int)
    requires
        0 <= i <= s.len(),
    ensures
        0 <= digit_run(s, i),
        i + digit_run(s, i) <= s.len(),
    decreases s.len() - i,
{
    if i < s.len() && is_digit(s[i]) {
        lemma_digit_run_range(s, i + 1);
    }
}

/// Ten to any power is positive.
proof fn lemma_pow10_pos(d: nat)
    ensures
        pow10(d) >= 1,
    decreases d,
{
    if d > 0 {
        lemma_pow10_pos((d - 1) as nat);
        assert(pow10(d) == 10 * pow10((d - 1) as nat));
    }
}

/// Parse a signed 32-bit value at `pos`, mirroring `sp_parse_i32`.
pub fn parse_i32(s: &Vec<u8>, pos: usize) -> (r: Option<(i32, usize)>)
    requires
        pos <= s@.len(),
    ensures
        match r {
            Some((v, j)) => sp_parse_i32(s@, pos as int) == Some((v as int, j as int)) && pos < j
                <= s@.len(),
            None => sp_parse_i32(s@, pos as int) is None,
        },
{
    if pos < s.len() && s[pos] == 45 {
        match parse_u64(s, pos + 1) {
            Some((v, j)) => {
                if v <= 0x8000_0000u64 {
                    Some(((-(v as i64)) as i32, j))
                } else {
                    None
                }
            },
            None => None,
        }
    } else {
        match parse_u64(s, pos) {
            Some((v, j)) => {
                if v < 0x8000_0000u64 {
                    Some((v as i32, j))
                } else {
                    None
                }
            },
            None => None,
        }
    }
}

} // verus!
