use vstd::prelude::*;
use crate::strutil::push_char;

verus! {

/// The character for one decimal digit `d`: 0 is `0`, 9 is `9`.
pub open spec fn digit_char(d: int) -> char
    recommends
        0 <= d < 10,
{
    ((d + 48) as u8) as char
}

/// Whether `c` is a decimal digit character.
pub open spec fn is_digit(c: char) -> bool {
    '0' <= c && c <= '9'
}

/// The numeric value of a digit character.
pub open spec fn digit_val(c: char) -> int {
    c as int - 48
}

/// The decimal text of a non-negative number, without sign and without
/// leading zeros (`0` stands alone).
pub open spec fn dec_str(n: nat) -> Seq<char>
    decreases n,
{
    if n < 10 {
        seq![digit_char(n as int)]
    } else {
        dec_str(n / 10).push(digit_char((n as int) % 10))
    }
}

/// The decimal text of an integer: a `-` sign for negative numbers,
/// then the digits.
pub open spec fn int_str(v: int) -> Seq<char> {
    if v < 0 {
        seq!['-'] + dec_str((-v) as nat)
    } else {
        dec_str(v as nat)
    }
}

/// Whether every character of `s` is a decimal digit.
pub open spec fn all_digits(s: Seq<char>) -> bool {
    forall|i: int| 0 <= i < s.len() ==> is_digit(#[trigger] s[i])
}

/// The number that a digit run denotes, most significant digit first.
pub open spec fn digits_val(s: Seq<char>) -> int
    decreases s.len(),
{
    if s.len() == 0 {
        0
    } else {
        digits_val(s.drop_last()) * 10 + digit_val(s.last())
    }
}

/// The digit run of an integer literal: what follows an optional single
/// leading `-` or `+` sign.
pub open spec fn int_text_body(s: Seq<char>) -> Seq<char> {
    if s.len() >= 1 && (s[0] == '-' || s[0] == '+') {
        s.skip(1)
    } else {
        s
    }
}

/// Whether the literal carries a leading `-` sign.
pub open spec fn int_text_negative(s: Seq<char>) -> bool {
    s.len() >= 1 && s[0] == '-'
}

/// Whether `s` is an integer literal: an optional `-` or `+` sign, then
/// one or more decimal digits.
pub open spec fn is_int_text(s: Seq<char>) -> bool {
    int_text_body(s).len() >= 1 && all_digits(int_text_body(s))
}

/// The value of an integer literal.
pub open spec fn int_text_val(s: Seq<char>) -> int {
    if int_text_negative(s) {
        -digits_val(int_text_body(s))
    } else {
        digits_val(int_text_body(s))
    }
}

/// A digit run denotes a non-negative number, and extending it can only
/// grow that number.
proof fn lemma_digits_val_bounds(s: Seq<char>, k: int)
    requires
        0 <= k <= s.len(),
        all_digits(s),
    ensures
        0 <= digits_val(s.take(k)) <= digits_val(s),
    decreases s.len() - k,
{
    if k == s.len() {
        assert(s.take(k) =~= s);
        lemma_digits_val_nonneg(s);
    } else {
        lemma_digits_val_bounds(s, k + 1);
        let t = s.take(k);
        let u = s.take(k + 1);
        assert(u.drop_last() =~= t);
        assert(u.last() == s[k]);
        assert(digits_val(u) == digits_val(t) * 10 + digit_val(s[k]));
        assert(all_digits(t)) by {
            assert(forall|i: int| 0 <= i < t.len() ==> t[i] == s[i]);
        }
        lemma_digits_val_nonneg(t);
        assert(digits_val(t) <= digits_val(t) * 10 + digit_val(s[k]));
    }
}

/// A digit run never denotes a negative number.
proof fn lemma_digits_val_nonneg(s: Seq<char>)
    requires
        all_digits(s),
    ensures
        digits_val(s) >= 0,
    decreases s.len(),
{
    if s.len() > 0 {
        let t = s.drop_last();
        assert(all_digits(t)) by {
            assert(forall|i: int| 0 <= i < t.len() ==> t[i] == s[i]);
        }
        lemma_digits_val_nonneg(t);
        assert(is_digit(s.last()));
        assert(digits_val(t) * 10 >= 0);
    }
}

/// Appends the decimal text of `n` to `out`.
pub fn push_u64(out: &mut String, n: u64)
    ensures
        final(out)@ == old(out)@ + dec_str(n as nat),
    decreases n,
{
    if n >= 10 {
        assert(n / 10 < n);
        push_u64(out, n / 10);
    }
    let d = n % 10;
    let c = ((48 + d as u8)) as char;
    assert(c == digit_char(d as int));
    push_char(out, c);
    proof {
        if n < 10 {
            assert(old(out)@ + dec_str(n as nat) =~= out@);
        } else {
            assert(old(out)@ + dec_str(n as nat) =~= (old(out)@ + dec_str((n / 10) as nat)).push(
                digit_char(d as int),
            ));
        }
    }
}

/// Appends the decimal text of `v`, sign included, to `out`.
pub fn push_i64(out: &mut String, v: i64)
    ensures
        final(out)@ == old(out)@ + int_str(v as int),
{
    if v < 0 {
        push_char(out, '-');
        let mag = (-(v as i128)) as u64;
        push_u64(out, mag);
        proof {
            assert(old(out)@ + int_str(v as int) =~= (old(out)@.push('-')) + dec_str(
                (-(v as int)) as nat,
            ));
        }
    } else {
        push_u64(out, v as u64);
    }
}

/// The last `w` decimal digits of `n`, zero-padded at the front: the
/// text of a fraction part of `w` decimal places.
pub open spec fn frac_str(n: nat, w: nat) -> Seq<char>
    decreases w,
{
    if w == 0 {
        Seq::empty()
    } else {
        frac_str(n / 10, (w - 1) as nat).push(digit_char((n as int) % 10))
    }
}

/// Appends the last `w` decimal digits of `n`, zero-padded, to `out`.
pub fn push_frac(out: &mut String, n: u64, w: u32)
    ensures
        final(out)@ == old(out)@ + frac_str(n as nat, w as nat),
    decreases w,
{
    if w == 0 {
        proof {
            assert(old(out)@ + frac_str(n as nat, 0) =~= old(out)@);
        }
    } else {
        push_frac(out, n / 10, w - 1);
        let d = n % 10;
        let c = ((48 + d as u8)) as char;
        assert(c == digit_char(d as int));
        push_char(out, c);
        proof {
            assert(old(out)@ + frac_str(n as nat, w as nat) =~= (old(out)@ + frac_str(
                (n / 10) as nat,
                (w - 1) as nat,
            )).push(digit_char(d as int)));
        }
    }
}

/// The decimal text of `v` as a fresh string.
pub fn i64_to_string(v: i64) -> (r: String)
    ensures
        r@ == int_str(v as int),
{
    let mut out = String::new();
    push_i64(&mut out, v);
    proof {
        assert(out@ =~= int_str(v as int));
    }
    out
}

/// Reads `s` as an integer literal: an optional sign, then decimal
/// digits. Returns the value when `s` has that shape and the value fits
/// the result type, and nothing otherwise.
pub fn parse_i64(s: &str) -> (r: Option<i64>)
    ensures
        r matches Some(v) ==> is_int_text(s@) && v as int == int_text_val(s@),
        r is Some <==> is_int_text(s@) && i64::MIN <= int_text_val(s@) <= i64::MAX,
{
    let len = s.unicode_len();
    if len == 0 {
        return None;
    }
    let first = s.get_char(0);
    let neg = first == '-';
    let start: usize = if first == '-' || first == '+' {
        1
    } else {
        0
    };
    proof {
        assert(int_text_body(s@) =~= s@.skip(start as int));
        assert(int_text_negative(s@) == neg);
    }
    let body_len = len - start;
    if body_len == 0 {
        return None;
    }
    let ghost body = s@.skip(start as int);
    let mut i: usize = 0;
    let mut mag: u64 = 0;
    // The magnitude bound below is one more than `i64::MAX`, so that the
    // most negative value is still accepted.
    while i < body_len
        invariant
            len == s@.len(),
            start <= 1,
            body_len == len - start,
            0 < body_len,
            0 <= i <= body_len,
            body == s@.skip(start as int),
            int_text_body(s@) == body,
            int_text_negative(s@) == neg,
            forall|k: int| 0 <= k < i ==> is_digit(#[trigger] body[k]),
            mag as int == digits_val(body.take(i as int)),
            mag <= 9223372036854775808u64,
        decreases body_len - i,
    {
        let c = s.get_char(start + i);
        assert(c == body[i as int]);
        if c < '0' || c > '9' {
            return None;
        }
        let d = (c as u32) - 48;
        let wide = (mag as u128) * 10 + (d as u128);
        proof {
            let t = body.take(i as int);
            let u = body.take(i as int + 1);
            assert(u.drop_last() =~= t);
            assert(u.last() == body[i as int]);
            assert(digits_val(u) == digits_val(t) * 10 + digit_val(c));
            assert(wide as int == digits_val(u));
        }
        if wide > 9223372036854775808u128 {
            proof {
                assert(int_text_body(s@) == body);
                if all_digits(body) {
                    lemma_digits_val_bounds(body, i as int + 1);
                    assert(digits_val(body) >= wide as int);
                    assert(digits_val(body) > 9223372036854775808);
                    if int_text_negative(s@) {
                        assert(int_text_val(s@) < i64::MIN);
                    } else {
                        assert(int_text_val(s@) > i64::MAX);
                    }
                } else {
                    assert(!is_int_text(s@));
                }
            }
            return None;
        }
        mag = wide as u64;
        i = i + 1;
    }
    proof {
        assert(body.take(body_len as int) =~= body);
        assert(is_int_text(s@));
    }
    if neg {
        Some((-(mag as i128)) as i64)
    } else {
        if mag > 9223372036854775807u64 {
            proof {
                assert(int_text_body(s@) == body);
                assert(!int_text_negative(s@));
                assert(int_text_val(s@) == digits_val(body));
                assert(int_text_val(s@) == mag as int);
                assert(int_text_val(s@) > i64::MAX);
            }
            return None;
        }
        Some(mag as i64)
    }
}

} // verus!
