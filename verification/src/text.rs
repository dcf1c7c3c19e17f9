//! Strings as sequences of characters.

use vstd::prelude::*;

verus! {

/// `String::push` of the standard library: the string afterwards is the string before
/// with the character appended at its end.
pub assume_specification[ String::push ](s: &mut String, c: char)
    ensures
        final(s)@ == old(s)@.push(c),
;

/// The characters of a string, one by one.
pub fn chars_of(s: &str) -> (v: Vec<char>)
    ensures
        v@ == s@,
{
    let mut v: Vec<char> = Vec::new();
    for c in it: s.chars()
        invariant
            v@ == it.seq().take(it.index() as int),
            it.seq() == s@,
    {
        v.push(c);
    }
    v
}

/// The string that holds the characters of `v` from the last to the first.
pub(crate) fn string_of_reversed(v: &Vec<char>) -> (s: String)
    ensures
        s@ == v@.reverse(),
{
    let mut s = String::new();
    let mut k: usize = v.len();
    while k > 0
        invariant
            k <= v@.len(),
            s@ == v@.reverse().take(v@.len() - k),
        decreases k,
    {
        k = k - 1;
        s.push(v[k]);
        proof {
            assert(v@.reverse().take(v@.len() - k) =~= v@.reverse().take(v@.len() - k - 1).push(
                v@[k as int],
            ));
        }
    }
    proof {
        assert(v@.reverse().take(v@.len() as int) =~= v@.reverse());
    }
    s
}

/// The text of `chars` from `from` up to, not including, `to`.
pub(crate) fn text_between(chars: &Vec<char>, from: usize, to: usize) -> (text: String)
    requires
        from <= to <= chars@.len(),
    ensures
        text@ == chars@.subrange(from as int, to as int),
{
    let mut text = String::new();
    let mut k: usize = from;
    while k < to
        invariant
            from <= k <= to,
            to <= chars@.len(),
            text@ == chars@.subrange(from as int, k as int),
        decreases to - k,
    {
        text.push(chars[k]);
        proof {
            assert(chars@.subrange(from as int, k + 1) =~= chars@.subrange(
                from as int,
                k as int,
            ).push(chars@[k as int]));
        }
        k = k + 1;
    }
    text
}

/// Whether two strings hold the same text.
pub fn same_text(a: &str, b: &str) -> (same: bool)
    ensures
        same == (a@ == b@),
{
    let x = chars_of(a);
    let y = chars_of(b);
    if x.len() != y.len() {
        return false;
    }
    let mut k: usize = 0;
    while k < x.len()
        invariant
            k <= x@.len(),
            x@.len() == y@.len(),
            x@ == a@,
            y@ == b@,
            forall|l: int| 0 <= l < k ==> x@[l] == y@[l],
        decreases x@.len() - k,
    {
        if x[k] != y[k] {
            return false;
        }
        k = k + 1;
    }
    assert(x@ =~= y@);
    true
}

} // verus!
