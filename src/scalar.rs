use vstd::prelude::*;

use crate::value::{SValue, Value};

verus! {

/// Whitespace that separates fields: space, tab and carriage return.
pub open spec fn is_ws(b: u8) -> bool {
    b == 32u8 || b == 9u8 || b == 13u8
}

/// An ASCII decimal digit.
pub open spec fn is_digit(b: u8) -> bool {
    48u8 <= b && b <= 57u8
}

/// `+` or `-`.
pub open spec fn is_sign(b: u8) -> bool {
    b == 43u8 || b == 45u8
}

/// Tells whether `b` separates fields.
pub fn byte_is_ws(b: u8) -> (r: bool)
    ensures
        r == is_ws(b),
{
    b == 32u8 || b == 9u8 || b == 13u8
}

/// The literals that read as `true`: `T` and `True`.
pub open spec fn is_true_lit(s: Seq<u8>) -> bool {
    s == seq![84u8] || s == seq![84u8, 114u8, 117u8, 101u8]
}

/// The literals that read as `false`: `F` and `False`.
pub open spec fn is_false_lit(s: Seq<u8>) -> bool {
    s == seq![70u8] || s == seq![70u8, 97u8, 108u8, 115u8, 101u8]
}

/// A boolean literal is exactly one of `T`, `F`, `True`, `False`.
pub open spec fn is_bool_lit(s: Seq<u8>) -> bool {
    is_true_lit(s) || is_false_lit(s)
}

/// The value of a run of decimal digits.
pub open spec fn digits_value(s: Seq<u8>) -> int
    decreases s.len(),
{
    if s.len() == 0 {
        0
    } else {
        digits_value(s.drop_last()) * 10 + (s.last() - 48u8)
    }
}

/// Every byte is a decimal digit.
pub open spec fn all_digits(s: Seq<u8>) -> bool {
    forall|k: int| 0 <= k < s.len() ==> is_digit(#[trigger] s[k])
}

/// The text after an optional leading sign.
pub open spec fn unsigned_part(s: Seq<u8>) -> Seq<u8> {
    if s.len() > 0 && is_sign(s[0]) {
        s.drop_first()
    } else {
        s
    }
}

/// The value of an optionally signed decimal integer literal.
pub open spec fn int_text_value(s: Seq<u8>) -> int {
    if s.len() > 0 && s[0] == 45u8 {
        -digits_value(unsigned_part(s))
    } else {
        digits_value(unsigned_part(s))
    }
}

/// An integer literal: an optional sign, then one or more digits, whose value
/// fits in an `i32`.
pub open spec fn is_int_lit(s: Seq<u8>) -> bool {
    let d = unsigned_part(s);
    d.len() > 0 && all_digits(d) && i32::MIN <= int_text_value(s) <= i32::MAX
}

/// The end of the run of digits that starts at `i`.
pub open spec fn digit_run_end(s: Seq<u8>, i: int) -> int
    decreases s.len() - i,
{
    if i < 0 || i >= s.len() || !is_digit(s[i]) {
        i
    } else {
        digit_run_end(s, i + 1)
    }
}

/// Where the mantissa of a real literal ends: after the integer digits and an
/// optional fraction.
pub open spec fn mantissa_end(s: Seq<u8>) -> int {
    let a: int = if s.len() > 0 && is_sign(s[0]) { 1 } else { 0 };
    let b = digit_run_end(s, a);
    if b < s.len() && s[b] == 46u8 {
        digit_run_end(s, b + 1)
    } else {
        b
    }
}

/// The mantissa holds at least one digit, before or after the point.
pub open spec fn mantissa_has_digit(s: Seq<u8>) -> bool {
    let a: int = if s.len() > 0 && is_sign(s[0]) { 1 } else { 0 };
    let b = digit_run_end(s, a);
    b > a || (b < s.len() && s[b] == 46u8 && digit_run_end(s, b + 1) > b + 1)
}

/// A real literal: `[+-]digits[.digits][(e|E)[+-]digits]`, where the mantissa
/// has at least one digit (either side of the point may be empty).
pub open spec fn is_float_lit(s: Seq<u8>) -> bool {
    let c = mantissa_end(s);
    mantissa_has_digit(s) && (c == s.len() || ((s[c] == 101u8 || s[c] == 69u8) && {
        let d: int = if c + 1 < s.len() && is_sign(s[c + 1]) { c + 2 } else { c + 1 };
        digit_run_end(s, d) > d && digit_run_end(s, d) == s.len()
    }))
}

/// How a literal is typed: a boolean first, then an integer, then a real
/// number, and anything else is a string.
pub open spec fn scalar_of(s: Seq<u8>) -> SValue {
    if is_bool_lit(s) {
        SValue::Bool(is_true_lit(s))
    } else if is_int_lit(s) {
        SValue::Int(int_text_value(s))
    } else if is_float_lit(s) {
        SValue::Float(s)
    } else {
        SValue::Str(s)
    }
}

/// Tells whether `s` is a boolean literal, and which.
pub fn bool_literal(s: &[u8]) -> (r: Option<bool>)
    ensures
        r == (if is_bool_lit(s@) { Some(is_true_lit(s@)) } else { None::<bool> }),
{
    if s.len() == 1 && s[0] == 84u8 {
        assert(s@ =~= seq![84u8]);
        Some(true)
    } else if s.len() == 4 && s[0] == 84u8 && s[1] == 114u8 && s[2] == 117u8 && s[3] == 101u8 {
        assert(s@ =~= seq![84u8, 114u8, 117u8, 101u8]);
        Some(true)
    } else if s.len() == 1 && s[0] == 70u8 {
        assert(s@ =~= seq![70u8]);
        Some(false)
    } else if s.len() == 5 && s[0] == 70u8 && s[1] == 97u8 && s[2] == 108u8 && s[3] == 115u8
        && s[4] == 101u8 {
        assert(s@ =~= seq![70u8, 97u8, 108u8, 115u8, 101u8]);
        Some(false)
    } else {
        None
    }
}

proof fn lemma_digits_prefix_bound(s: Seq<u8>, k: int)
    requires
        0 <= k <= s.len(),
        all_digits(s),
    ensures
        digits_value(s.take(k)) <= digits_value(s),
        0 <= digits_value(s.take(k)),
    decreases s.len(),
{
    if s.len() > 0 {
        if k == s.len() {
            assert(s.take(k) =~= s);
            lemma_digits_prefix_bound(s.drop_last(), s.len() - 1);
            assert(s.drop_last().take(s.len() - 1) =~= s.drop_last());
        } else {
            let t = s.drop_last();
            assert(all_digits(t)) by {
                assert forall|j: int| 0 <= j < t.len() implies is_digit(#[trigger] t[j]) by {
                    assert(t[j] == s[j]);
                }
            }
            lemma_digits_prefix_bound(t, k);
            lemma_digits_prefix_bound(t, t.len() as int);
            assert(t.take(k) =~= s.take(k));
            assert(t.take(t.len() as int) =~= t);
        }
    }
}

/// Reads an integer literal; `None` where the text is not one or does not fit
/// in an `i32`.
pub fn int_literal(s: &[u8]) -> (r: Option<i32>)
    ensures
        r == (if is_int_lit(s@) { Some(int_text_value(s@) as i32) } else { None::<i32> }),
{
    let n = s.len();
    let neg = n > 0 && s[0] == 45u8;
    let start: usize = if n > 0 && (s[0] == 43u8 || s[0] == 45u8) { 1 } else { 0 };
    let ghost d = unsigned_part(s@);
    assert(d =~= s@.subrange(start as int, n as int));
    if start == n {
        return None;
    }
    let mut acc: i64 = 0;
    let mut i: usize = start;
    while i < n
        invariant
            n == s.len(),
            d == unsigned_part(s@),
            start == s@.len() - d.len(),
            start <= i <= n,
            d =~= s@.subrange(start as int, n as int),
            all_digits(d.take(i - start)),
            acc == digits_value(d.take(i - start)),
            0 <= acc <= 2147483648,
        decreases n - i,
    {
        let b = s[i];
        if b < 48u8 || b > 57u8 {
            assert(d[i - start] == b);
            return None;
        }
        let next = acc * 10 + (b - 48u8) as i64;
        let ghost k = i - start;
        assert(d.take(k + 1).drop_last() =~= d.take(k));
        assert(d.take(k + 1).last() == b);
        assert(all_digits(d.take(k + 1))) by {
            assert forall|j: int| 0 <= j < k + 1 implies is_digit(#[trigger] d.take(k + 1)[j]) by {
                if j < k {
                    assert(d.take(k + 1)[j] == d.take(k)[j]);
                }
            }
        }
        if next > 2147483648 {
            proof {
                if all_digits(d) {
                    lemma_digits_prefix_bound(d, k + 1);
                }
            }
            return None;
        }
        acc = next;
        i = i + 1;
    }
    assert(d.take(n - start) =~= d);
    if neg {
        Some((0 - acc) as i32)
    } else if acc > 2147483647 {
        None
    } else {
        Some(acc as i32)
    }
}

/// The end of the run of digits that starts at `i`.
pub fn digit_run(s: &[u8], i: usize) -> (r: usize)
    requires
        i <= s.len(),
    ensures
        r as int == digit_run_end(s@, i as int),
        i <= r <= s.len(),
{
    let mut j = i;
    while j < s.len() && s[j] >= 48u8 && s[j] <= 57u8
        invariant
            i <= j <= s.len(),
            digit_run_end(s@, i as int) == digit_run_end(s@, j as int),
        decreases s.len() - j,
    {
        j = j + 1;
    }
    j
}

/// Tells whether `s` is a real-number literal.
pub fn float_literal(s: &[u8]) -> (r: bool)
    ensures
        r == is_float_lit(s@),
{
    let n = s.len();
    let a: usize = if n > 0 && (s[0] == 43u8 || s[0] == 45u8) { 1 } else { 0 };
    let b = digit_run(s, a);
    let mut has_digit = b > a;
    let mut c = b;
    if b < n && s[b] == 46u8 {
        c = digit_run(s, b + 1);
        has_digit = has_digit || c > b + 1;
    }
    if !has_digit {
        return false;
    }
    if c == n {
        return true;
    }
    if s[c] != 101u8 && s[c] != 69u8 {
        return false;
    }
    let d: usize = if c + 1 < n && (s[c + 1] == 43u8 || s[c + 1] == 45u8) { c + 2 } else { c + 1 };
    let e = digit_run(s, d);
    e > d && e == n
}

/// Types a literal: a boolean, else an integer, else a real number, else a
/// string.
pub fn coerce_scalar(s: &Vec<u8>) -> (r: Value)
    ensures
        r@ == scalar_of(s@),
{
    match bool_literal(s.as_slice()) {
        Some(b) => Value::Bool(b),
        None => match int_literal(s.as_slice()) {
            Some(x) => Value::Int(x),
            None => if float_literal(s.as_slice()) {
                Value::Float(s.clone())
            } else {
                Value::Str(s.clone())
            },
        },
    }
}

} // verus!
