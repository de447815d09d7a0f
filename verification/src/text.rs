//! Character-level helpers on `String` and `Vec<char>`.
use vstd::prelude::*;
use vstd::std_specs::iter::IteratorSpec;

verus! {

/// `String::push` from std: appends one character.
/// Trusted to do exactly that: the new view is the old one with `c` at the end.
#[verifier::external_body]
pub(crate) fn push_char(s: &mut String, c: char)
    ensures
        final(s)@ == old(s)@.push(c),
{
    s.push(c)
}

/// The characters of `s`, in order.
pub fn chars_of(s: &str) -> (v: Vec<char>)
    ensures
        v@ == s@,
{
    let mut v: Vec<char> = Vec::new();
    let mut it = s.chars();
    loop
        invariant
            v@ + it.remaining() == s@,
        decreases s@.len() - v@.len(),
    {
        match it.next() {
            Some(c) => {
                v.push(c);
            },
            None => {
                return v;
            },
        }
    }
}

/// The characters `v[from..to]` as a `String`.
pub fn string_of_range(v: &Vec<char>, from: usize, to: usize) -> (s: String)
    requires
        from <= to <= v@.len(),
    ensures
        s@ == v@.subrange(from as int, to as int),
{
    let mut s = String::new();
    let mut i = from;
    while i < to
        invariant
            from <= i <= to <= v@.len(),
            s@ == v@.subrange(from as int, i as int),
        decreases to - i,
    {
        push_char(&mut s, v[i]);
        assert(v@.subrange(from as int, i as int).push(v@[i as int]) =~= v@.subrange(
            from as int,
            i + 1,
        ));
        i = i + 1;
    }
    s
}

/// The characters of `v` as a `String`.
pub fn string_of(v: &Vec<char>) -> (s: String)
    ensures
        s@ == v@,
{
    let s = string_of_range(v, 0, v.len());
    assert(v@.subrange(0, v@.len() as int) =~= v@);
    s
}

/// Number of characters (not bytes) in `s`.
pub fn char_count(s: &String) -> (n: usize)
    ensures
        n == s@.len(),
{
    s.as_str().unicode_len()
}

/// Does `b` begin with `p`?
pub open spec fn is_prefix(b: Seq<char>, p: Seq<char>) -> bool {
    p.len() <= b.len() && b.subrange(0, p.len() as int) == p
}

/// Executable `is_prefix`.
pub fn has_prefix(b: &Vec<char>, p: &Vec<char>) -> (r: bool)
    ensures
        r == is_prefix(b@, p@),
{
    if p.len() > b.len() {
        return false;
    }
    let mut i: usize = 0;
    while i < p.len()
        invariant
            p@.len() <= b@.len(),
            i <= p@.len(),
            forall|j: int| 0 <= j < i ==> b@[j] == p@[j],
        decreases p@.len() - i,
    {
        if b[i] != p[i] {
            assert(b@.subrange(0, p@.len() as int)[i as int] != p@[i as int]);
            return false;
        }
        i = i + 1;
    }
    assert(b@.subrange(0, p@.len() as int) =~= p@);
    true
}

/// Executable equality of two character vectors.
pub fn same_chars(b: &Vec<char>, p: &Vec<char>) -> (r: bool)
    ensures
        r == (b@ == p@),
{
    if b.len() != p.len() {
        return false;
    }
    let r = has_prefix(b, p);
    assert(b@.subrange(0, p@.len() as int) =~= b@);
    r
}

} // verus!
