use vstd::prelude::*;

verus! {

/// Whether `c` separates tokens of an expression.
pub open spec fn is_space(c: char) -> bool {
    c == ' ' || c == '\t' || c == '\r' || c == '\n'
}

/// The first index at or after `i` holding a non-space character, or the
/// length when spaces run to the end.
pub open spec fn next_nonspace(s: Seq<char>, i: int) -> int
    decreases s.len() - i when 0 <= i <= s.len()
{
    if i >= s.len() {
        i
    } else if !is_space(s[i]) {
        i
    } else {
        next_nonspace(s, i + 1)
    }
}

/// The first index at or after `i` holding a space, or the length when
/// the token runs to the end.
pub open spec fn token_end(s: Seq<char>, i: int) -> int
    decreases s.len() - i when 0 <= i <= s.len()
{
    if i >= s.len() {
        i
    } else if is_space(s[i]) {
        i
    } else {
        token_end(s, i + 1)
    }
}

pub proof fn lemma_next_nonspace_bounds(s: Seq<char>, i: int)
    requires
        0 <= i <= s.len(),
    ensures
        i <= next_nonspace(s, i) <= s.len(),
        next_nonspace(s, i) < s.len() ==> !is_space(s[next_nonspace(s, i)]),
    decreases s.len() - i,
{
    if i < s.len() && is_space(s[i]) {
        lemma_next_nonspace_bounds(s, i + 1);
    }
}

pub proof fn lemma_token_end_bounds(s: Seq<char>, i: int)
    requires
        0 <= i <= s.len(),
    ensures
        i <= token_end(s, i) <= s.len(),
    decreases s.len() - i,
{
    if i < s.len() && !is_space(s[i]) {
        lemma_token_end_bounds(s, i + 1);
    }
}

/// The maximal space-separated tokens of `s`, from index `i` on, in
/// order.
pub open spec fn tokens_from(s: Seq<char>, i: int) -> Seq<Seq<char>>
    decreases s.len() - i when 0 <= i <= s.len() via tokens_from_decreases
{
    let j = next_nonspace(s, i);
    if j >= s.len() {
        Seq::empty()
    } else {
        seq![s.subrange(j, token_end(s, j))] + tokens_from(s, token_end(s, j))
    }
}

#[via_fn]
proof fn tokens_from_decreases(s: Seq<char>, i: int) {
    lemma_next_nonspace_bounds(s, i);
    let j = next_nonspace(s, i);
    if j < s.len() {
        lemma_token_end_bounds(s, j);
        assert(!is_space(s[j]));
        assert(token_end(s, j) == token_end(s, j + 1));
        lemma_token_end_bounds(s, j + 1);
    }
}

/// Whether `c` separates tokens, executable.
pub fn is_space_char(c: char) -> (r: bool)
    ensures
        r == is_space(c),
{
    c == ' ' || c == '\t' || c == '\r' || c == '\n'
}

/// Whether `c` is one of the four formula delimiters, executable.
pub fn is_delim_char(c: char) -> (r: bool)
    ensures
        r == is_delim(c),
{
    c == '=' || c == '(' || c == ':' || c == ')'
}

/// Whether `c` occurs anywhere in `s`.
pub open spec fn contains_char(s: Seq<char>, c: char) -> bool {
    exists|i: int| 0 <= i < s.len() && s[i] == c
}

/// Whether `c` occurs anywhere in `s`, executable.
pub fn find_char(s: &str, c: char) -> (r: bool)
    ensures
        r == contains_char(s@, c),
{
    let len = s.unicode_len();
    let mut i: usize = 0;
    while i < len
        invariant
            0 <= i <= len == s@.len(),
            forall|k: int| 0 <= k < i ==> s@[k] != c,
        decreases len - i,
    {
        if s.get_char(i) == c {
            return true;
        }
        i = i + 1;
    }
    false
}

/// Whether two strings hold the same characters.
pub fn str_eq(a: &str, b: &str) -> (r: bool)
    ensures
        r == (a@ == b@),
{
    let alen = a.unicode_len();
    let blen = b.unicode_len();
    if alen != blen {
        return false;
    }
    let mut i: usize = 0;
    while i < alen
        invariant
            0 <= i <= alen == a@.len(),
            alen == b@.len(),
            forall|k: int| 0 <= k < i ==> a@[k] == b@[k],
        decreases alen - i,
    {
        if a.get_char(i) != b.get_char(i) {
            return false;
        }
        i = i + 1;
    }
    proof {
        assert(a@ =~= b@);
    }
    true
}

/// Whether `a` is exactly the one character `c`.
pub fn is_single(a: &str, c: char) -> (r: bool)
    ensures
        r == (a@ == seq![c]),
{
    let len = a.unicode_len();
    if len != 1 {
        return false;
    }
    let r = a.get_char(0) == c;
    proof {
        if r {
            assert(a@ =~= seq![c]);
        }
    }
    r
}

/// The space-separated tokens of `s`, in order.
pub fn tokenize(s: &str) -> (r: Vec<String>)
    ensures
        r.deep_view() == tokens_from(s@, 0),
{
    let len = s.unicode_len();
    let mut toks: Vec<String> = Vec::new();
    let mut i: usize = 0;
    while i < len
        invariant
            0 <= i <= len == s@.len(),
            toks.deep_view() + tokens_from(s@, i as int) == tokens_from(s@, 0),
        decreases len - i,
    {
        let c = s.get_char(i);
        if c == ' ' || c == '\t' || c == '\r' || c == '\n' {
            proof {
                assert(is_space(s@[i as int]));
                assert(next_nonspace(s@, i as int) == next_nonspace(s@, i as int + 1));
                assert(tokens_from(s@, i as int) == tokens_from(s@, i as int + 1));
            }
            i = i + 1;
        } else {
            let start = i;
            let mut j = i + 1;
            proof {
                assert(!is_space(s@[start as int]));
                assert(token_end(s@, start as int) == token_end(s@, start as int + 1));
            }
            while j < len && !is_space_char(s.get_char(j))
                invariant
                    0 <= start < j <= len == s@.len(),
                    token_end(s@, start as int) == token_end(s@, j as int),
                decreases len - j,
            {
                proof {
                    assert(!is_space(s@[j as int]));
                    assert(token_end(s@, j as int) == token_end(s@, j as int + 1));
                }
                j = j + 1;
            }
            proof {
                assert(token_end(s@, j as int) == j as int);
                assert(token_end(s@, start as int) == j as int);
                assert(next_nonspace(s@, start as int) == start as int);
            }
            let tok = s.substring_char(start, j).to_owned();
            let ghost old_toks = toks.deep_view();
            toks.push(tok);
            proof {
                assert(toks.deep_view() =~= old_toks.push(s@.subrange(start as int, j as int)));
                assert(tokens_from(s@, start as int) == seq![
                    s@.subrange(start as int, j as int),
                ] + tokens_from(s@, j as int));
                assert(toks.deep_view() + tokens_from(s@, j as int) =~= old_toks + tokens_from(
                    s@,
                    start as int,
                ));
            }
            i = j;
        }
    }
    proof {
        lemma_next_nonspace_bounds(s@, len as int);
        assert(tokens_from(s@, len as int) =~= Seq::<Seq<char>>::empty());
        assert(toks.deep_view() =~= tokens_from(s@, 0));
    }
    toks
}

/// Whether `c` is one of the four formula delimiters.
pub open spec fn is_delim(c: char) -> bool {
    c == '=' || c == '(' || c == ':' || c == ')'
}

/// The first index at or after `i` holding a delimiter, or the length.
pub open spec fn next_delim(s: Seq<char>, i: int) -> int
    decreases s.len() - i when 0 <= i <= s.len()
{
    if i >= s.len() {
        i
    } else if is_delim(s[i]) {
        i
    } else {
        next_delim(s, i + 1)
    }
}

pub proof fn lemma_next_delim_bounds(s: Seq<char>, i: int)
    requires
        0 <= i <= s.len(),
    ensures
        i <= next_delim(s, i) <= s.len(),
    decreases s.len() - i,
{
    if i < s.len() && !is_delim(s[i]) {
        lemma_next_delim_bounds(s, i + 1);
    }
}

/// The parts of `s` between delimiters, from `i` on: splitting keeps
/// empty parts, and a string without delimiters is one part.
pub open spec fn parts_from(s: Seq<char>, i: int) -> Seq<Seq<char>>
    decreases s.len() - i when 0 <= i <= s.len() via parts_from_decreases
{
    let j = next_delim(s, i);
    if j >= s.len() {
        seq![s.subrange(i, s.len() as int)]
    } else {
        seq![s.subrange(i, j)] + parts_from(s, j + 1)
    }
}

#[via_fn]
proof fn parts_from_decreases(s: Seq<char>, i: int) {
    lemma_next_delim_bounds(s, i);
}

/// Splits `s` on the four formula delimiters, keeping empty parts.
pub fn split_delims(s: &str) -> (r: Vec<String>)
    ensures
        r.deep_view() == parts_from(s@, 0),
{
    let len = s.unicode_len();
    let mut out: Vec<String> = Vec::new();
    let mut p: usize = 0;
    let mut done = false;
    while !done
        invariant
            0 <= p <= len == s@.len(),
            !done ==> out.deep_view() + parts_from(s@, p as int) == parts_from(s@, 0),
            done ==> out.deep_view() == parts_from(s@, 0),
        decreases (if done {
            0int
        } else {
            s@.len() - p + 1
        }),
    {
        let mut j = p;
        while j < len && !is_delim_char(s.get_char(j))
            invariant
                0 <= p <= j <= len == s@.len(),
                next_delim(s@, p as int) == next_delim(s@, j as int),
            decreases len - j,
        {
            proof {
                assert(!is_delim(s@[j as int]));
                assert(next_delim(s@, j as int) == next_delim(s@, j as int + 1));
            }
            j = j + 1;
        }
        proof {
            assert(next_delim(s@, j as int) == j as int);
            assert(next_delim(s@, p as int) == j as int);
        }
        let part = s.substring_char(p, j).to_owned();
        let ghost old_out = out.deep_view();
        out.push(part);
        proof {
            assert(out.deep_view() =~= old_out.push(s@.subrange(p as int, j as int)));
        }
        if j < len {
            proof {
                assert(parts_from(s@, p as int) == seq![s@.subrange(p as int, j as int)]
                    + parts_from(s@, j as int + 1));
                assert(out.deep_view() + parts_from(s@, j as int + 1) =~= old_out + parts_from(
                    s@,
                    p as int,
                ));
            }
            p = j + 1;
        } else {
            proof {
                assert(parts_from(s@, p as int) =~= seq![s@.subrange(p as int, len as int)]);
                assert(out.deep_view() =~= old_out + parts_from(s@, p as int));
            }
            p = j;
            done = true;
        }
    }
    out
}

} // verus!
