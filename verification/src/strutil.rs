use vstd::prelude::*;

verus! {

/// Relies on `String::push`: appends exactly the one given character at
/// the end of the string.
#[verifier::external_body]
pub fn push_char(s: &mut String, c: char)
    ensures
        final(s)@ == old(s)@.push(c),
{
    s.push(c);
}

/// Appends `n` space characters to `s`.
pub fn push_spaces(s: &mut String, n: usize)
    ensures
        final(s)@ == old(s)@ + spaces(n as nat),
{
    let mut i: usize = 0;
    while i < n
        invariant
            i <= n,
            s@ == old(s)@ + spaces(i as nat),
        decreases n - i,
    {
        proof {
            lemma_spaces_push(i as nat);
        }
        push_char(s, ' ');
        i = i + 1;
    }
}

/// A run of `n` space characters.
pub open spec fn spaces(n: nat) -> Seq<char>
    decreases n,
{
    if n == 0 {
        Seq::empty()
    } else {
        spaces((n - 1) as nat).push(' ')
    }
}

proof fn lemma_spaces_push(n: nat)
    ensures
        spaces(n).push(' ') == spaces(n + 1),
{
    assert(spaces(n + 1) == spaces(n).push(' '));
}

} // verus!
