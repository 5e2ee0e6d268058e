use vstd::prelude::*;
use vstd::arithmetic::div_mod::lemma_fundamental_div_mod;
use crate::strutil::push_char;
use crate::numtext::{
    digits_val, all_digits, int_str, is_int_text, int_text_val, int_text_body, int_text_negative,
    is_digit, parse_i64, push_u64, i64_to_string, dec_str, frac_str, push_frac,
};
use crate::table_error::ParseError;

verus! {

/// A literal numeric scalar of one cell. `Int` is a plain integer.
/// `Float` is a decimal-point number held exactly as
/// `mantissa / 10^scale`, the way it is written in a cell (`1.5` is
/// mantissa 15 at scale 1); a well-formed value keeps the scale at most
/// [`MAX_SCALE`] and never ends in a redundant zero digit.
#[derive(Debug, Clone, Copy, PartialEq, Eq, Structural)]
pub enum Value {
    Int(i64),
    Float { mantissa: i64, scale: u32 },
}

/// The largest number of decimal places a `Float` value carries.
pub const MAX_SCALE: u32 = 18;

/// Ten to the `k`.
pub open spec fn pow10(k: nat) -> nat
    decreases k,
{
    if k == 0 {
        1
    } else {
        10 * pow10((k - 1) as nat)
    }
}

pub broadcast proof fn lemma_pow10_pos(k: nat)
    ensures
        #[trigger] pow10(k) >= 1,
    decreases k,
{
    if k > 0 {
        lemma_pow10_pos((k - 1) as nat);
    }
}

proof fn lemma_pow10_add(a: nat, b: nat)
    ensures
        pow10(a + b) == pow10(a) * pow10(b),
    decreases a,
{
    if a == 0 {
        assert(pow10(b) == 1 * pow10(b));
    } else {
        lemma_pow10_add((a - 1) as nat, b);
        assert(pow10(a + b) == 10 * pow10((a + b - 1) as nat));
        assert(10 * (pow10((a - 1) as nat) * pow10(b)) == (10 * pow10((a - 1) as nat)) * pow10(
            b,
        )) by (nonlinear_arith);
    }
}

pub proof fn lemma_pow10_le(a: nat, b: nat)
    requires
        a <= b,
    ensures
        pow10(a) <= pow10(b),
{
    lemma_pow10_add(a, (b - a) as nat);
    lemma_pow10_pos(a);
    lemma_pow10_pos((b - a) as nat);
    assert(pow10(a) * 1 <= pow10(a) * pow10((b - a) as nat)) by (nonlinear_arith)
        requires
            pow10(a) >= 1,
            pow10((b - a) as nat) >= 1,
    ;
}

pub proof fn lemma_pow10_18()
    ensures
        pow10(18) == 1000000000000000000,
{
    reveal_with_fuel(pow10, 19);
}

/// Ten to the `k`, executable.
pub fn pow10_u64(k: u32) -> (r: u64)
    requires
        k <= MAX_SCALE,
    ensures
        r as nat == pow10(k as nat),
        r >= 1,
{
    let mut i: u32 = 0;
    let mut acc: u64 = 1;
    while i < k
        invariant
            0 <= i <= k <= 18,
            acc as nat == pow10(i as nat),
            acc >= 1,
        decreases k - i,
    {
        proof {
            lemma_pow10_le((i + 1) as nat, 18);
            lemma_pow10_18();
            assert(pow10((i + 1) as nat) == 10 * pow10(i as nat));
        }
        acc = acc * 10;
        i = i + 1;
    }
    acc
}

/// Strips redundant trailing zero digits from a mantissa: while the scale
/// is positive and the mantissa ends in a zero digit, drops both.
pub open spec fn norm_spec(m: int, s: nat) -> (int, nat)
    decreases s,
{
    if s > 0 && m % 10 == 0 {
        norm_spec(m / 10, (s - 1) as nat)
    } else {
        (m, s)
    }
}

/// Normalization keeps the denoted number: the normalized mantissa at the
/// normalized scale stands for the same multiple of `10^-18`.
proof fn lemma_norm(m: int, s: nat)
    requires
        s <= 18,
    ensures
        norm_spec(m, s).1 <= s,
        norm_spec(m, s).1 > 0 ==> norm_spec(m, s).0 % 10 != 0,
        norm_spec(m, s).0 * pow10((18 - norm_spec(m, s).1) as nat) == m * pow10((18 - s) as nat),
        m >= 0 ==> 0 <= norm_spec(m, s).0 <= m,
        m < 0 ==> m <= norm_spec(m, s).0 < 0,
    decreases s,
{
    if s > 0 && m % 10 == 0 {
        lemma_norm(m / 10, (s - 1) as nat);
        let k = (18 - s) as nat;
        assert(m == 10 * (m / 10)) by {
            lemma_fundamental_div_mod(m, 10);
        }
        assert(pow10(k + 1) == 10 * pow10(k));
        assert((m / 10) * (10 * pow10(k)) == (10 * (m / 10)) * pow10(k)) by (nonlinear_arith);
        assert((m / 10) * pow10((18 - (s - 1)) as nat) == m * pow10((18 - s) as nat));
    }
}

impl Value {
    /// A well-formed value: the scale within range, the mantissa with no
    /// redundant trailing zero digit.
    pub open spec fn wf(self) -> bool {
        match self {
            Value::Int(_) => true,
            Value::Float { mantissa, scale } => scale <= MAX_SCALE && (scale > 0 ==> mantissa
                % 10 != 0),
        }
    }

    /// The mantissa: an `Int` is its own mantissa at scale zero.
    pub open spec fn mantissa_of(self) -> int {
        match self {
            Value::Int(x) => x as int,
            Value::Float { mantissa, .. } => mantissa as int,
        }
    }

    /// The scale: how many decimal places the value carries.
    pub open spec fn scale_of(self) -> nat {
        match self {
            Value::Int(_) => 0,
            Value::Float { scale, .. } => scale as nat,
        }
    }

    /// The number a value denotes, expressed exactly as a multiple of
    /// `10^-18`: comparisons and sums of values are comparisons and sums
    /// of their `scaled` images.
    pub open spec fn scaled(self) -> int
        recommends
            self.wf(),
    {
        self.mantissa_of() * pow10((18 - self.scale_of()) as nat)
    }

    fn parts(self) -> (r: (i64, u32))
        requires
            self.wf(),
        ensures
            r.0 as int == self.mantissa_of(),
            r.1 as nat == self.scale_of(),
            r.1 <= MAX_SCALE,
    {
        match self {
            Value::Int(x) => (x, 0),
            Value::Float { mantissa, scale } => (mantissa, scale),
        }
    }

    /// The exact sum (or difference, when `sub` holds) of two values:
    /// integer with integer stays integer, any other pairing aligns the
    /// mantissas at the larger scale, combines them, and normalizes.
    /// Nothing is returned when the result's mantissa does not fit.
    pub open spec fn spec_combine(a: Value, b: Value, sub: bool) -> Option<Value> {
        if a is Int && b is Int {
            let v = a.mantissa_of() + (if sub {
                -b.mantissa_of()
            } else {
                b.mantissa_of()
            });
            if i64::MIN <= v <= i64::MAX {
                Some(Value::Int(v as i64))
            } else {
                None
            }
        } else {
            let m1 = a.mantissa_of();
            let m2 = if sub {
                -b.mantissa_of()
            } else {
                b.mantissa_of()
            };
            let s1 = a.scale_of();
            let s2 = b.scale_of();
            let s = if s1 >= s2 {
                s1
            } else {
                s2
            };
            let sum = m1 * pow10((s - s1) as nat) + m2 * pow10((s - s2) as nat);
            let n = norm_spec(sum, s);
            if i64::MIN <= n.0 <= i64::MAX {
                Some(
                    Value::Float {
                        mantissa: n.0 as i64,
                        scale: n.1 as u32,
                    },
                )
            } else {
                None
            }
        }
    }

    /// What a combined value denotes and which tag it carries: the sum is
    /// exact on the `scaled` images, and the result is an `Int` exactly
    /// when both operands are.
    pub proof fn lemma_combine(a: Value, b: Value, sub: bool)
        requires
            a.wf(),
            b.wf(),
        ensures
            Value::spec_combine(a, b, sub) matches Some(v) ==> v.wf() && v.scaled() == a.scaled()
                + (if sub {
                -b.scaled()
            } else {
                b.scaled()
            }) && ((v is Int) <==> (a is Int && b is Int)),
    {
        let r = Value::spec_combine(a, b, sub);
        if r is Some {
            let v = r->Some_0;
            let m1 = a.mantissa_of();
            let m2 = if sub {
                -b.mantissa_of()
            } else {
                b.mantissa_of()
            };
            let s1 = a.scale_of();
            let s2 = b.scale_of();
            if a is Int && b is Int {
                lemma_pow10_pos(18);
                let p = pow10(18) as int;
                assert((m1 + m2) * p == m1 * p + m2 * p) by (nonlinear_arith);
                assert((-b.mantissa_of()) * p == -(b.mantissa_of() * p)) by (nonlinear_arith);
                assert(v.scaled() == (m1 + m2) * p);
                assert(a.scaled() == m1 * p);
            } else {
                let s = if s1 >= s2 {
                    s1
                } else {
                    s2
                };
                let d1 = (s - s1) as nat;
                let d2 = (s - s2) as nat;
                let sum = m1 * pow10(d1) + m2 * pow10(d2);
                let n = norm_spec(sum, s);
                lemma_norm(sum, s);
                assert(n.0 * pow10((18 - n.1) as nat) == sum * pow10((18 - s) as nat));
                let e = (18 - s) as nat;
                lemma_pow10_add(d1, e);
                lemma_pow10_add(d2, e);
                assert((m1 * pow10(d1) + m2 * pow10(d2)) * pow10(e) == m1 * (pow10(d1) * pow10(e))
                    + m2 * (pow10(d2) * pow10(e))) by (nonlinear_arith);
                assert(sum * pow10(e) == m1 * pow10((18 - s1) as nat) + m2 * pow10(
                    (18 - s2) as nat,
                ));
                if sub {
                    assert((-b.mantissa_of()) * pow10((18 - s2) as nat) == -(b.mantissa_of()
                        * pow10((18 - s2) as nat))) by (nonlinear_arith);
                }
                assert(v.scaled() == a.scaled() + (if sub {
                    -b.scaled()
                } else {
                    b.scaled()
                }));
            }
        }
    }

    fn combine(self, rhs: Value, sub: bool) -> (r: Option<Value>)
        requires
            self.wf(),
            rhs.wf(),
        ensures
            r == Value::spec_combine(self, rhs, sub),
    {
        if (self matches Value::Int(_)) && (rhs matches Value::Int(_)) {
            let x = self.parts().0;
            let y = rhs.parts().0;
            let v: i128 = (x as i128) + (if sub {
                -(y as i128)
            } else {
                y as i128
            });
            if i64::MIN as i128 <= v && v <= i64::MAX as i128 {
                Some(Value::Int(v as i64))
            } else {
                None
            }
        } else {
            let (m1, s1) = self.parts();
            let (m2r, s2) = rhs.parts();
            let m2: i128 = if sub {
                -(m2r as i128)
            } else {
                m2r as i128
            };
            let s = if s1 >= s2 {
                s1
            } else {
                s2
            };
            let p1 = pow10_u64(s - s1);
            let p2 = pow10_u64(s - s2);
            proof {
                lemma_pow10_le((s - s1) as nat, 18);
                lemma_pow10_le((s - s2) as nat, 18);
                lemma_pow10_18();
            }
            proof {
                lemma_mul_bound(m1 as int, p1 as int);
                lemma_mul_bound(m2 as int, p2 as int);
            }
            let a1 = (m1 as i128) * (p1 as i128);
            let a2 = m2 * (p2 as i128);
            let sum = a1 + a2;
            let (nm, ns) = norm_exec(sum, s);
            if i64::MIN as i128 <= nm && nm <= i64::MAX as i128 {
                Some(Value::Float { mantissa: nm as i64, scale: ns })
            } else {
                None
            }
        }
    }

    /// The exact sum of two values: `Int` with `Int` stays `Int`, any
    /// pairing with a `Float` yields a `Float`, and the result denotes
    /// exactly the sum of what the operands denote. Nothing is returned
    /// when the exact result does not fit the representation.
    pub fn checked_add(self, rhs: Value) -> (r: Option<Value>)
        requires
            self.wf(),
            rhs.wf(),
        ensures
            r == Value::spec_combine(self, rhs, false),
            r matches Some(v) ==> v.wf() && v.scaled() == self.scaled() + rhs.scaled() && ((
            v is Int) <==> (self is Int && rhs is Int)),
    {
        proof {
            Value::lemma_combine(self, rhs, false);
        }
        self.combine(rhs, false)
    }

    /// The exact difference of two values, with the same promotion and
    /// overflow behaviour as [`Value::checked_add`].
    pub fn checked_sub(self, rhs: Value) -> (r: Option<Value>)
        requires
            self.wf(),
            rhs.wf(),
        ensures
            r == Value::spec_combine(self, rhs, true),
            r matches Some(v) ==> v.wf() && v.scaled() == self.scaled() - rhs.scaled() && ((
            v is Int) <==> (self is Int && rhs is Int)),
    {
        proof {
            Value::lemma_combine(self, rhs, true);
        }
        self.combine(rhs, true)
    }

    /// Whether this value denotes a strictly smaller number than `other`,
    /// comparing `Int` and `Float` by their numeric value.
    pub fn num_lt(&self, other: &Value) -> (r: bool)
        requires
            self.wf(),
            other.wf(),
        ensures
            r == (self.scaled() < other.scaled()),
    {
        let (m1, s1) = self.parts();
        let (m2, s2) = other.parts();
        let p1 = pow10_u64(s1);
        let p2 = pow10_u64(s2);
        proof {
            lemma_pow10_le(s1 as nat, 18);
            lemma_pow10_le(s2 as nat, 18);
            lemma_pow10_18();
        }
        proof {
            lemma_mul_bound(m1 as int, p2 as int);
            lemma_mul_bound(m2 as int, p1 as int);
        }
        let v1 = (m1 as i128) * (p2 as i128);
        let v2 = (m2 as i128) * (p1 as i128);
        proof {
            lemma_cross_cmp(m1 as int, s1 as nat, m2 as int, s2 as nat);
        }
        v1 < v2
    }

    /// The numerically smaller of two values; the left one when they
    /// denote the same number.
    pub open spec fn spec_min(a: Value, b: Value) -> Value {
        if b.scaled() < a.scaled() {
            b
        } else {
            a
        }
    }

    /// Returns the numerically smaller of `self` and `other`, keeping
    /// `self` on a tie.
    pub fn num_min(self, other: Value) -> (r: Value)
        requires
            self.wf(),
            other.wf(),
        ensures
            r == Value::spec_min(self, other),
            r.wf(),
    {
        if other.num_lt(&self) {
            other
        } else {
            self
        }
    }
}

/// The index of the first `.` in `t` at or after `i`, or -1 when there
/// is none.
pub open spec fn first_dot(t: Seq<char>, i: int) -> int
    decreases t.len() - i when 0 <= i <= t.len()
{
    if i >= t.len() {
        -1
    } else if t[i] == '.' {
        i
    } else {
        first_dot(t, i + 1)
    }
}

impl Value {
    /// The display text of a value: an `Int` as its decimal text, a
    /// `Float` as integer part, `.`, and exactly `scale` fraction digits.
    /// A `Float` of scale zero reads like an integer.
    pub open spec fn text_of(self) -> Seq<char>
        recommends
            self.wf(),
    {
        match self {
            Value::Int(x) => int_str(x as int),
            Value::Float { mantissa, scale } => if scale == 0 {
                int_str(mantissa as int)
            } else {
                let mag = (if mantissa < 0 {
                    -(mantissa as int)
                } else {
                    mantissa as int
                }) as nat;
                let p = pow10(scale as nat);
                (if mantissa < 0 {
                    seq!['-']
                } else {
                    Seq::<char>::empty()
                }) + dec_str(mag / p) + seq!['.'] + frac_str(mag % p, scale as nat)
            },
        }
    }

    /// Renders the value as its display text.
    pub fn to_text(&self) -> (r: String)
        requires
            self.wf(),
        ensures
            r@ == self.text_of(),
    {
        match *self {
            Value::Int(x) => i64_to_string(x),
            Value::Float { mantissa, scale } => {
                if scale == 0 {
                    i64_to_string(mantissa)
                } else {
                    let mut out = String::new();
                    let mag: u64 = if mantissa < 0 {
                        push_char(&mut out, '-');
                        (-(mantissa as i128)) as u64
                    } else {
                        mantissa as u64
                    };
                    let p = pow10_u64(scale);
                    let ip = mag / p;
                    let fp = mag % p;
                    push_u64(&mut out, ip);
                    push_char(&mut out, '.');
                    push_frac(&mut out, fp, scale);
                    proof {
                        assert(out@ =~= self.text_of());
                    }
                    out
                }
            },
        }
    }

    /// The run of mantissa digits of a decimal-point literal: the digits
    /// before and after the dot, sign excluded.
    pub open spec fn float_digits(s: Seq<char>) -> Seq<char> {
        let t = int_text_body(s);
        let k = first_dot(t, 0);
        t.take(k) + t.skip(k + 1)
    }

    /// How many digits follow the dot in a decimal-point literal.
    pub open spec fn float_scale(s: Seq<char>) -> int {
        let t = int_text_body(s);
        let k = first_dot(t, 0);
        t.len() - k - 1
    }

    /// Whether `s` is a decimal-point literal: an optional sign, digits,
    /// one `.`, digits again, with at least one digit in all.
    pub open spec fn is_float_text(s: Seq<char>) -> bool {
        let t = int_text_body(s);
        let k = first_dot(t, 0);
        k >= 0 && t.len() >= 2 && all_digits(t.take(k)) && all_digits(t.skip(k + 1))
    }

    /// The signed mantissa of a decimal-point literal.
    pub open spec fn float_mantissa(s: Seq<char>) -> int {
        if int_text_negative(s) {
            -digits_val(Value::float_digits(s))
        } else {
            digits_val(Value::float_digits(s))
        }
    }

    /// The value a decimal-point literal denotes, normalized, when its
    /// shape is right, its scale is within range, and its mantissa fits.
    pub open spec fn parse_float_text(s: Seq<char>) -> Option<Value> {
        if Value::is_float_text(s) && Value::float_scale(s) <= MAX_SCALE && i64::MIN
            <= Value::float_mantissa(s) <= i64::MAX {
            let n = norm_spec(Value::float_mantissa(s), Value::float_scale(s) as nat);
            Some(Value::Float { mantissa: n.0 as i64, scale: n.1 as u32 })
        } else {
            None
        }
    }

    /// The value a literal denotes: an integer literal that fits, or
    /// else a decimal-point literal that fits, or nothing.
    pub open spec fn parse_text(s: Seq<char>) -> Option<Value> {
        if is_int_text(s) && i64::MIN <= int_text_val(s) <= i64::MAX {
            Some(Value::Int(int_text_val(s) as i64))
        } else {
            Value::parse_float_text(s)
        }
    }
}

/// Comparing two decimal-scaled numbers by cross-multiplied mantissas
/// agrees with comparing their `10^-18`-scaled images.
proof fn lemma_cross_cmp(m1: int, s1: nat, m2: int, s2: nat)
    requires
        s1 <= 18,
        s2 <= 18,
    ensures
        (m1 * pow10(s2) < m2 * pow10(s1)) <==> (m1 * pow10((18 - s1) as nat) < m2 * pow10(
        (18 - s2) as nat)),
{
    let p1 = pow10(s1) as int;
    let p2 = pow10(s2) as int;
    let q1 = pow10((18 - s1) as nat) as int;
    let q2 = pow10((18 - s2) as nat) as int;
    let pp = pow10(18) as int;
    lemma_pow10_pos(s1);
    lemma_pow10_pos(s2);
    lemma_pow10_pos((18 - s1) as nat);
    lemma_pow10_pos((18 - s2) as nat);
    lemma_pow10_pos(18);
    lemma_pow10_add(s1, (18 - s1) as nat);
    lemma_pow10_add(s2, (18 - s2) as nat);
    assert(p1 * q1 == pp);
    assert(p2 * q2 == pp);
    assert((m1 * p2 < m2 * p1) <==> (m1 * q1 < m2 * q2)) by (nonlinear_arith)
        requires
            p1 * q1 == pp,
            p2 * q2 == pp,
            p1 >= 1,
            p2 >= 1,
            q1 >= 1,
            q2 >= 1,
            pp >= 1,
    ;
}

/// The digits of `t` strictly before index `j`, skipping the dot that
/// stands at index `k`.
spec fn dot_stripped(t: Seq<char>, k: int, j: int) -> Seq<char> {
    if j <= k {
        t.take(j)
    } else {
        t.take(k) + t.subrange(k + 1, j)
    }
}

/// The index of the first `.` of `s` at or after `start`, if any.
fn find_dot(s: &str, start: usize) -> (r: Option<usize>)
    requires
        start as int <= s@.len(),
    ensures
        r matches Some(k) ==> first_dot(s@.skip(start as int), 0) == k && start + k < s@.len()
            && s@[start as int + k] == '.',
        r is None ==> first_dot(s@.skip(start as int), 0) == -1,
{
    let ghost t = s@.skip(start as int);
    let len = s.unicode_len();
    let tlen = len - start;
    let mut k: usize = 0;
    while k < tlen
        invariant
            t == s@.skip(start as int),
            s@.len() == len,
            start + tlen == len,
            0 <= k <= tlen,
            tlen == t.len(),
            first_dot(t, 0) == first_dot(t, k as int),
        decreases tlen - k,
    {
        let c = s.get_char(start + k);
        assert(c == t[k as int]);
        if c == '.' {
            return Some(k);
        }
        assert(first_dot(t, k as int) == first_dot(t, k as int + 1));
        k = k + 1;
    }
    None
}

impl Value {
    /// Reads `s` as a decimal-point literal and returns the normalized
    /// value it denotes, or nothing when the shape is wrong, the scale is
    /// out of range, or the mantissa does not fit.
    fn parse_float(s: &str) -> (r: Option<Value>)
        ensures
            r == Value::parse_float_text(s@),
            r matches Some(v) ==> v.wf(),
    {
        let len = s.unicode_len();
        if len == 0 {
            return None;
        }
        let first = s.get_char(0);
        let neg = first == '-';
        let start: usize = if first == '-' || first == '+' {
            1
        } else {
            0
        };
        let ghost t = s@.skip(start as int);
        proof {
            assert(int_text_body(s@) =~= t);
            assert(int_text_negative(s@) == neg);
        }
        let tlen = len - start;
        if tlen < 2 {
            return None;
        }
        let k = match find_dot(s, start) {
            Some(k) => k,
            None => {
                return None;
            },
        };
        let scale = tlen - k - 1;
        if scale > MAX_SCALE as usize {
            return None;
        }
        let mut digs = String::new();
        if neg {
            push_char(&mut digs, '-');
        }
        let ghost sign: Seq<char> = if neg {
            seq!['-']
        } else {
            Seq::empty()
        };
        proof {
            assert(digs@ =~= sign + dot_stripped(t, k as int, 0));
        }
        let mut j: usize = 0;
        while j < tlen
            invariant
                t == s@.skip(start as int),
                int_text_body(s@) == t,
                int_text_negative(s@) == neg,
                s@.len() == len,
                start + tlen == len,
                start <= 1,
                0 <= k < tlen,
                tlen == t.len(),
                t[k as int] == '.',
                first_dot(t, 0) == k,
                0 <= j <= tlen,
                digs@ == sign + dot_stripped(t, k as int, j as int),
                sign == (if neg {
                    seq!['-']
                } else {
                    Seq::<char>::empty()
                }),
                forall|i: int| 0 <= i < j && i != k ==> is_digit(#[trigger] t[i]),
            decreases tlen - j,
        {
            if j != k {
                let c = s.get_char(start + j);
                assert(c == t[j as int]);
                if c < '0' || c > '9' {
                    proof {
                        if j < k {
                            assert(t.take(k as int)[j as int] == t[j as int]);
                            assert(!all_digits(t.take(k as int)));
                        } else {
                            assert(t.skip(k as int + 1)[j - k - 1] == t[j as int]);
                            assert(!all_digits(t.skip(k as int + 1)));
                        }
                        assert(!Value::is_float_text(s@));
                    }
                    return None;
                }
                push_char(&mut digs, c);
                proof {
                    if j < k {
                        assert(dot_stripped(t, k as int, j + 1) =~= dot_stripped(
                            t,
                            k as int,
                            j as int,
                        ).push(t[j as int]));
                    } else {
                        assert(dot_stripped(t, k as int, j + 1) =~= dot_stripped(
                            t,
                            k as int,
                            j as int,
                        ).push(t[j as int]));
                    }
                    assert(digs@ =~= sign + dot_stripped(t, k as int, j + 1));
                }
            } else {
                proof {
                    assert(dot_stripped(t, k as int, j + 1) =~= dot_stripped(t, k as int, j as int));
                }
            }
            j = j + 1;
        }
        let ghost dd = Value::float_digits(s@);
        proof {
            assert(dd =~= dot_stripped(t, k as int, tlen as int));
            assert(digs@ == sign + dd);
            assert(all_digits(dd)) by {
                assert(forall|i: int| 0 <= i < k ==> dd[i] == t[i]);
                assert(forall|i: int| k <= i < dd.len() ==> dd[i] == t[i + 1]);
            }
            assert(dd.len() == tlen - 1 >= 1);
            assert(int_text_body(digs@) =~= dd);
            assert(is_int_text(digs@));
            assert(int_text_negative(digs@) == neg);
            assert(int_text_val(digs@) == Value::float_mantissa(s@));
            assert(Value::is_float_text(s@));
            assert(Value::float_scale(s@) == scale as int);
        }
        let x = match parse_i64(digs.as_str()) {
            Some(x) => x,
            None => {
                return None;
            },
        };
        proof {
            lemma_norm(x as int, scale as nat);
        }
        let (nm, ns) = norm_exec(x as i128, scale as u32);
        Some(Value::Float { mantissa: nm as i64, scale: ns })
    }

    /// Reads raw cell text as a numeric literal: an integer literal that
    /// fits becomes `Int`, else a decimal-point literal that fits becomes
    /// a normalized `Float`, and any other text is returned inside the
    /// error.
    pub fn from_str(s: &str) -> (r: Result<Value, ParseError>)
        ensures
            r matches Ok(v) ==> Value::parse_text(s@) == Some(v) && v.wf(),
            r is Ok <==> Value::parse_text(s@) is Some,
            r matches Err(e) ==> e matches ParseError::UnparseableCell(t) && t@ == s@,
    {
        match parse_i64(s) {
            Some(x) => Ok(Value::Int(x)),
            None => {
                match Value::parse_float(s) {
                    Some(v) => Ok(v),
                    None => Err(ParseError::UnparseableCell(s.to_owned())),
                }
            },
        }
    }
}

/// A mantissa times a power of ten within range stays far inside the
/// wide intermediate integer type.
proof fn lemma_mul_bound(m: int, p: int)
    requires
        -9223372036854775808 <= m <= 9223372036854775808,
        1 <= p <= 1000000000000000000,
    ensures
        -9223372036854775808000000000000000000 <= m * p
            <= 9223372036854775808000000000000000000,
{
    assert(-9223372036854775808000000000000000000 <= m * p
        <= 9223372036854775808000000000000000000) by (nonlinear_arith)
        requires
            -9223372036854775808 <= m <= 9223372036854775808,
            1 <= p <= 1000000000000000000,
    ;
}

/// Strips redundant trailing zero digits, executable.
fn norm_exec(m: i128, s: u32) -> (r: (i128, u32))
    requires
        s <= MAX_SCALE,
    ensures
        (r.0 as int, r.1 as nat) == norm_spec(m as int, s as nat),
        r.1 <= s,
{
    let mut mm = m;
    let mut ss = s;
    while ss > 0 && mm % 10 == 0
        invariant
            ss <= s,
            norm_spec(mm as int, ss as nat) == norm_spec(m as int, s as nat),
        decreases ss,
    {
        mm = mm / 10;
        ss = ss - 1;
    }
    (mm, ss)
}

} // verus!
