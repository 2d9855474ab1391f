//! Decimal text: the meaning of the protocol's integer and length lines,
//! and the rendering the encoder writes.
//!
//! A line names an integer when it is an optional `+` or `-` sign followed
//! by one or more ASCII digits; its value must fit a signed 64-bit integer.
//! Rendering writes the minimal form: no sign for zero and positive values,
//! a leading `-` otherwise, and no redundant leading zeros.

use vstd::prelude::*;

verus! {

/// `b` is an ASCII decimal digit.
pub open spec fn is_digit(b: u8) -> bool {
    48 <= b && b <= 57
}

/// Every byte of `s` is an ASCII decimal digit.
pub open spec fn all_digits(s: Seq<u8>) -> bool {
    forall|i: int| 0 <= i < s.len() ==> is_digit(#[trigger] s[i])
}

/// Numeric value of a digit string, most significant digit first.
pub open spec fn digits_val(s: Seq<u8>) -> nat
    recommends
        all_digits(s),
    decreases s.len(),
{
    if s.len() == 0 {
        0
    } else {
        digits_val(s.drop_last()) * 10 + (s.last() - 48) as nat
    }
}

/// The digit part of a line: what follows an optional leading sign.
pub open spec fn line_digits(s: Seq<u8>) -> Seq<u8> {
    if s.len() > 0 && (s[0] == 43 || s[0] == 45) {
        s.drop_first()
    } else {
        s
    }
}

/// The integer a line names: an optional sign, then at least one digit.
/// `None` when the line has any other form.
pub open spec fn int_of_line(s: Seq<u8>) -> Option<int> {
    let digits = line_digits(s);
    if digits.len() >= 1 && all_digits(digits) {
        if s[0] == 45 {
            Some(-(digits_val(digits) as int))
        } else {
            Some(digits_val(digits) as int)
        }
    } else {
        None
    }
}

/// The signed 64-bit integer a line names; `None` on a malformed line and
/// on a value outside the 64-bit range.
pub open spec fn i64_of_line(s: Seq<u8>) -> Option<i64> {
    match int_of_line(s) {
        Option::Some(v) => if i64::MIN <= v <= i64::MAX {
            Option::Some(v as i64)
        } else {
            Option::None
        },
        Option::None => Option::None,
    }
}

/// Minimal decimal rendering of a natural number.
pub open spec fn dec_nat(n: nat) -> Seq<u8>
    decreases n,
{
    if n < 10 {
        seq![(48 + n) as u8]
    } else {
        dec_nat(n / 10) + seq![(48 + n % 10) as u8]
    }
}

/// Minimal decimal rendering of an integer: a `-` sign when negative.
pub open spec fn dec_int(i: int) -> Seq<u8> {
    if i < 0 {
        seq![45u8] + dec_nat((-i) as nat)
    } else {
        dec_nat(i as nat)
    }
}

/// A digit string's value only grows as digits are appended to it.
pub proof fn lemma_digits_val_prefix(s: Seq<u8>, k: int)
    requires
        0 <= k <= s.len(),
        all_digits(s),
    ensures
        digits_val(s.take(k)) <= digits_val(s),
    decreases s.len(),
{
    if k < s.len() {
        assert(s.drop_last().take(k) =~= s.take(k));
        assert(all_digits(s.drop_last()));
        lemma_digits_val_prefix(s.drop_last(), k);
    } else {
        assert(s.take(k) =~= s);
    }
}

/// The rendering of a natural number is all digits and reads back to it.
pub proof fn lemma_dec_nat(n: nat)
    ensures
        dec_nat(n).len() >= 1,
        all_digits(dec_nat(n)),
        digits_val(dec_nat(n)) == n,
    decreases n,
{
    if n < 10 {
        let s = seq![(48 + n) as u8];
        assert(s.drop_last() =~= Seq::<u8>::empty());
        assert(digits_val(Seq::<u8>::empty()) == 0);
        assert(digits_val(s) == (s.last() - 48) as nat);
    } else {
        lemma_dec_nat(n / 10);
        let prefix = dec_nat(n / 10);
        let d = (48 + n % 10) as u8;
        assert((prefix + seq![d]).drop_last() =~= prefix);
        assert((prefix + seq![d]).last() == d);
        assert(digits_val(prefix + seq![d]) == n / 10 * 10 + n % 10);
        assert(n / 10 * 10 + n % 10 == n) by {
            vstd::arithmetic::div_mod::lemma_fundamental_div_mod(n as int, 10);
        }
    }
}

/// The rendering of an in-range integer reads back to that integer.
pub proof fn lemma_dec_int_reads_back(i: int)
    requires
        i64::MIN <= i <= i64::MAX,
    ensures
        i64_of_line(dec_int(i)) == Option::Some(i as i64),
{
    if i < 0 {
        lemma_dec_nat((-i) as nat);
        let s = seq![45u8] + dec_nat((-i) as nat);
        assert(s[0] == 45);
        assert(s.drop_first() =~= dec_nat((-i) as nat));
        assert(int_of_line(s) == Option::Some(-(digits_val(dec_nat((-i) as nat)) as int)));
    } else {
        lemma_dec_nat(i as nat);
        let s = dec_nat(i as nat);
        assert(is_digit(s[0]));
        assert(s[0] != 43 && s[0] != 45);
        assert(int_of_line(s) == Option::Some(digits_val(s) as int));
    }
}

/// The rendering of a natural number holds no carriage return or line feed.
pub proof fn lemma_dec_int_no_crlf(i: int)
    ensures
        forall|j: int|
            0 <= j < dec_int(i).len() ==> #[trigger] dec_int(i)[j] != 13 && dec_int(i)[j] != 10,
{
    if i < 0 {
        lemma_dec_nat((-i) as nat);
        assert forall|j: int| 0 <= j < dec_int(i).len() implies #[trigger] dec_int(i)[j] != 13
            && dec_int(i)[j] != 10 by {
            if j >= 1 {
                assert(is_digit(dec_nat((-i) as nat)[j - 1]));
            }
        }
    } else {
        lemma_dec_nat(i as nat);
        assert forall|j: int| 0 <= j < dec_int(i).len() implies #[trigger] dec_int(i)[j] != 13
            && dec_int(i)[j] != 10 by {
            assert(is_digit(dec_nat(i as nat)[j]));
        }
    }
}

/// Parse the decimal integer a whole line names, exactly as `i64_of_line`
/// describes: sign, digits, 64-bit range check.
pub fn parse_i64(s: &[u8]) -> (r: Option<i64>)
    ensures
        r == i64_of_line(s@),
{
    let n = s.len();
    let mut i: usize = 0;
    let mut neg = false;
    if n > 0 && (*vstd::slice::slice_index_get(s, 0) == 43 || *vstd::slice::slice_index_get(s, 0)
        == 45) {
        neg = *vstd::slice::slice_index_get(s, 0) == 45;
        i = 1;
    }
    let ghost digits = line_digits(s@);
    assert(digits =~= s@.subrange(i as int, n as int));
    if i == n {
        return None;
    }
    let start = i;
    let mut acc: u64 = 0;
    while i < n
        invariant
            start <= i <= n,
            start < n,
            n == s@.len(),
            start <= 1,
            digits == line_digits(s@),
            neg == (s@.len() > 0 && s@[0] == 45),
            digits =~= s@.subrange(start as int, n as int),
            all_digits(s@.subrange(start as int, i as int)),
            acc == digits_val(s@.subrange(start as int, i as int)),
        decreases n - i,
    {
        let b = *vstd::slice::slice_index_get(s, i);
        if b < 48 || b > 57 {
            proof {
                assert(0 <= i - start < digits.len());
                assert(digits[i - start] == s@[i as int]);
                assert(!is_digit(digits[i - start]));
                assert(!all_digits(digits));
                assert(int_of_line(s@) is None);
            }
            return None;
        }
        let d = (b - 48) as u64;
        if acc > (u64::MAX - d) / 10 {
            // The digits seen so far already name a value beyond the 64-bit
            // range; further digits can only make it larger.
            assert(acc * 10 + d > u64::MAX) by (nonlinear_arith)
                requires
                    acc > (u64::MAX - d) / 10,
                    d <= 9,
            ;
            proof {
                if all_digits(digits) {
                    let upto = s@.subrange(start as int, i + 1);
                    assert(upto.drop_last() =~= s@.subrange(start as int, i as int));
                    assert(upto.last() == b);
                    assert(digits_val(upto) == acc * 10 + d);
                    assert(upto =~= digits.take(i + 1 - start));
                    lemma_digits_val_prefix(digits, i + 1 - start);
                    assert(digits_val(digits) > u64::MAX);
                }
            }
            return None;
        }
        assert(acc * 10 + d <= u64::MAX) by (nonlinear_arith)
            requires
                acc <= (u64::MAX - d) / 10,
                d <= 9,
        ;
        let ghost old_acc = acc;
        acc = acc * 10 + d;
        proof {
            let upto = s@.subrange(start as int, i + 1);
            assert(upto.drop_last() =~= s@.subrange(start as int, i as int));
            assert(upto.last() == b);
            assert(digits_val(upto) == old_acc * 10 + (b - 48) as nat);
        }
        i = i + 1;
    }
    assert(s@.subrange(start as int, n as int) =~= digits);
    if neg {
        if acc > 9223372036854775808u64 {
            return None;
        } else if acc == 9223372036854775808u64 {
            return Some(i64::MIN);
        } else {
            return Some(-(acc as i64));
        }
    } else {
        if acc > 9223372036854775807u64 {
            return None;
        } else {
            return Some(acc as i64);
        }
    }
}

/// Append the minimal decimal rendering of a natural number (given as u64).
pub fn push_dec_u64(out: &mut Vec<u8>, n: u64)
    ensures
        final(out)@ == old(out)@ + dec_nat(n as nat),
    decreases n,
{
    if n < 10 {
        out.push(48 + n as u8);
        assert(out@ =~= old(out)@ + dec_nat(n as nat));
    } else {
        push_dec_u64(out, n / 10);
        out.push(48 + (n % 10) as u8);
        assert(out@ =~= old(out)@ + (dec_nat(n as nat / 10) + seq![(48 + n as nat % 10) as u8]));
    }
}

/// Append the minimal decimal rendering of a signed 64-bit integer.
pub fn push_dec_i64(out: &mut Vec<u8>, i: i64)
    ensures
        final(out)@ == old(out)@ + dec_int(i as int),
{
    if i < 0 {
        out.push(45);
        let mag: u64 = ((-(i + 1)) as u64) + 1;
        assert(mag == -(i as int));
        push_dec_u64(out, mag);
        assert(out@ =~= old(out)@ + (seq![45u8] + dec_nat((-(i as int)) as nat)));
    } else {
        push_dec_u64(out, i as u64);
    }
}

} // verus!
