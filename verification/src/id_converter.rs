use vstd::prelude::*;
use vstd::arithmetic::div_mod::lemma_fundamental_div_mod_converse;
use crate::strutil::push_char;
use crate::table_error::IdError;

verus! {

/// The letter that stands for one base-26 digit `d`: 0 is `A`, 25 is `Z`.
pub open spec fn letter_of(d: int) -> char
    recommends
        0 <= d < 26,
{
    ((d + 65) as u8) as char
}

/// Whether `c` is one of the label letters `A` to `Z`.
pub open spec fn is_upper(c: char) -> bool {
    'A' <= c && c <= 'Z'
}

/// Whether `c` is a label letter, executable.
pub fn is_upper_char(c: char) -> (r: bool)
    ensures
        r == is_upper(c),
{
    'A' <= c && c <= 'Z'
}

/// A label: one or more letters `A` to `Z`.
pub open spec fn valid_label(s: Seq<char>) -> bool {
    s.len() >= 1 && forall|i: int| 0 <= i < s.len() ==> is_upper(#[trigger] s[i])
}

/// The base-26 letter label of the 1-based position `n`: 1 is `A`,
/// 26 is `Z`, 27 is `AA`. No digit stands for zero, so a remainder of
/// zero is carried as a final `Z` digit. Position 0 has no label and is
/// mapped to the empty sequence.
pub open spec fn label_of(n: nat) -> Seq<char>
    decreases n,
{
    if n == 0 {
        Seq::empty()
    } else {
        label_of((((n - 1) as int) / 26) as nat).push(letter_of(((n - 1) as int) % 26))
    }
}

/// The 1-based position that a label denotes, reading it as a base-26
/// numeral with digits `A` = 1 to `Z` = 26, most significant first.
pub open spec fn position_of(s: Seq<char>) -> int
    decreases s.len(),
{
    if s.len() == 0 {
        0
    } else {
        position_of(s.drop_last()) * 26 + (s.last() as int - 64)
    }
}

/// A valid label denotes a positive position.
pub proof fn lemma_position_positive(s: Seq<char>)
    requires
        valid_label(s),
    ensures
        position_of(s) >= 1,
    decreases s.len(),
{
    let t = s.drop_last();
    let c = s.last();
    assert(is_upper(c));
    assert(position_of(s) == position_of(t) * 26 + (c as int - 64));
    if s.len() > 1 {
        assert(valid_label(t)) by {
            assert(forall|i: int| 0 <= i < t.len() ==> t[i] == s[i]);
        }
        lemma_position_positive(t);
        assert(position_of(t) * 26 >= 26);
    } else {
        assert(t.len() == 0);
        assert(position_of(t) == 0);
    }
}

/// Round-trip law of the address codec, label first: decoding a valid
/// label to its position and encoding that position again yields the
/// label unchanged.
pub proof fn lemma_label_round_trip(s: Seq<char>)
    requires
        valid_label(s),
    ensures
        label_of(position_of(s) as nat) == s,
    decreases s.len(),
{
    let t = s.drop_last();
    let c = s.last();
    let p = position_of(s);
    let d = c as int - 65;
    assert(0 <= d < 26);
    assert(p == position_of(t) * 26 + d + 1);
    if t.len() == 0 {
        assert(position_of(t) == 0);
    } else {
        assert(valid_label(t));
        lemma_position_positive(t);
    }
    lemma_fundamental_div_mod_converse(p - 1, 26, position_of(t), d);
    assert((p - 1) / 26 == position_of(t));
    assert((p - 1) % 26 == d);
    assert(letter_of(d) == c) by {
        assert(65 <= c as int <= 90);
    }
    if t.len() == 0 {
        assert(label_of(p as nat) == label_of(0).push(c));
        assert(label_of(p as nat) =~= s);
    } else {
        lemma_label_round_trip(t);
        assert(label_of(p as nat) == t.push(c));
        assert(t.push(c) =~= s);
    }
}

/// Round-trip law of the address codec, position first: the label of a
/// positive position is a valid label and decodes to that position.
pub proof fn lemma_position_round_trip(n: nat)
    requires
        n >= 1,
    ensures
        valid_label(label_of(n)),
        position_of(label_of(n)) == n,
    decreases n,
{
    let q = (((n - 1) as int) / 26) as nat;
    let d = ((n - 1) as int) % 26;
    assert(0 <= d < 26);
    assert(n - 1 == q * 26 + d) by {
        vstd::arithmetic::div_mod::lemma_fundamental_div_mod((n - 1) as int, 26);
    }
    let s = label_of(n);
    assert(s == label_of(q).push(letter_of(d)));
    assert(is_upper(letter_of(d)));
    if q == 0 {
        assert(s.len() == 1);
        assert(position_of(s.drop_last()) == 0) by {
            assert(s.drop_last() =~= label_of(0));
        }
        assert(position_of(s) == d + 1);
    } else {
        lemma_position_round_trip(q);
        assert(s.drop_last() =~= label_of(q));
        assert(position_of(s) == position_of(label_of(q)) * 26 + (letter_of(d) as int - 64));
        assert(letter_of(d) as int - 64 == d + 1);
        assert(forall|i: int|
            0 <= i < s.len() ==> is_upper(#[trigger] s[i])) by {
            assert(forall|i: int|
                0 <= i < label_of(q).len() ==> is_upper(#[trigger] label_of(q)[i]));
        }
    }
}

/// The position of a prefix of a label never exceeds the position of the
/// whole label.
pub proof fn lemma_position_take_le(s: Seq<char>, k: int)
    requires
        0 <= k <= s.len(),
        forall|i: int| 0 <= i < s.len() ==> is_upper(#[trigger] s[i]),
    ensures
        0 <= position_of(s.take(k)) <= position_of(s),
    decreases s.len() - k,
{
    if k == s.len() {
        assert(s.take(k) =~= s);
        if s.len() == 0 {
        } else {
            lemma_position_positive(s);
        }
    } else {
        lemma_position_take_le(s, k + 1);
        let t = s.take(k);
        let u = s.take(k + 1);
        assert(u.drop_last() =~= t);
        assert(u.last() == s[k]);
        assert(position_of(u) == position_of(t) * 26 + (s[k] as int - 64));
        assert(position_of(t) >= 0) by {
            if t.len() == 0 {
            } else {
                assert(valid_label(t));
                lemma_position_positive(t);
            }
        }
        assert(position_of(t) <= position_of(t) * 26 + (s[k] as int - 64));
    }
}

/// Appends the letter label of position `n` to `out`.
fn push_label(out: &mut String, n: usize)
    requires
        n >= 1,
    ensures
        final(out)@ == old(out)@ + label_of(n as nat),
    decreases n,
{
    let q = (n - 1) / 26;
    let d = (n - 1) % 26;
    if q > 0 {
        push_label(out, q);
    }
    let letter = ((65 + d) as u8) as char;
    assert(letter == letter_of(d as int));
    push_char(out, letter);
    proof {
        assert(label_of(n as nat) == label_of(q as nat).push(letter_of(d as int)));
        if q == 0 {
            assert(label_of(0) =~= Seq::<char>::empty());
            assert(old(out)@ + label_of(n as nat) =~= out@);
        } else {
            assert(old(out)@ + label_of(n as nat) =~= (old(out)@ + label_of(q as nat)).push(
                letter_of(d as int),
            ));
        }
    }
}

/// Encodes a 1-based column position as its base-26 letter label:
/// 1 is `A`, 26 is `Z`, 27 is `AA`, 28 is `AB`. Position 0 has no label.
pub fn base10_to_base26(number: usize) -> (r: Result<String, IdError>)
    ensures
        number == 0 <==> r is Err,
        r matches Err(e) ==> e == IdError::InvalidPosition,
        r matches Ok(s) ==> s@ == label_of(number as nat),
{
    if number == 0 {
        return Err(IdError::InvalidPosition);
    }
    let mut out = String::new();
    push_label(&mut out, number);
    proof {
        assert(out@ =~= label_of(number as nat));
    }
    Ok(out)
}

/// Decodes a base-26 letter label into the 1-based column position it
/// denotes: `A` is 1, `Z` is 26, `AB` is 28. Fails on the empty string,
/// on a character outside `A`-`Z`, and on a position too large for the
/// result type.
pub fn base26_to_base10(letter: String) -> (r: Result<u32, IdError>)
    ensures
        r matches Ok(p) ==> valid_label(letter@) && p as int == position_of(letter@),
        r matches Err(e) ==> e == IdError::InvalidLabel && (!valid_label(letter@)
            || position_of(letter@) > u32::MAX),
        r is Ok <==> valid_label(letter@) && position_of(letter@) <= u32::MAX,
{
    let s = letter.as_str();
    let len = s.unicode_len();
    if len == 0 {
        return Err(IdError::InvalidLabel);
    }
    let mut i: usize = 0;
    let mut acc: u32 = 0;
    while i < len
        invariant
            0 < len == s@.len(),
            s@ == letter@,
            0 <= i <= len,
            forall|k: int| 0 <= k < i ==> is_upper(#[trigger] s@[k]),
            acc as int == position_of(s@.take(i as int)),
        decreases len - i,
    {
        let c = s.get_char(i);
        if c < 'A' || c > 'Z' {
            return Err(IdError::InvalidLabel);
        }
        let d = (c as u32) - 64;
        let wide = (acc as u64) * 26 + (d as u64);
        proof {
            let t = s@.take(i as int);
            let u = s@.take(i as int + 1);
            assert(u.drop_last() =~= t);
            assert(u.last() == s@[i as int]);
            assert(position_of(u) == position_of(t) * 26 + (c as int - 64));
            assert(wide as int == position_of(u));
        }
        if wide > u32::MAX as u64 {
            proof {
                if valid_label(letter@) {
                    lemma_position_take_le(s@, i as int + 1);
                }
            }
            return Err(IdError::InvalidLabel);
        }
        acc = wide as u32;
        i = i + 1;
    }
    proof {
        assert(s@.take(len as int) =~= s@);
    }
    Ok(acc)
}

} // verus!
