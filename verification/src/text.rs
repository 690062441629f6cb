//! Lines, characters and strings: how a line becomes a term, and the few
//! string primitives of the standard library that the rest builds on.

use vstd::prelude::*;

verus! {

/// Whether `c` has the Unicode `White_Space` property, as `char::is_whitespace`
/// decides it.
pub uninterp spec fn is_whitespace(c: char) -> bool;

/// The characters of a line that are kept in its term: all but whitespace, in
/// their order.
pub open spec fn normalized(line: Seq<char>) -> Seq<char> {
    line.filter(|c: char| !is_whitespace(c))
}

/// Calls `char::is_whitespace`. Trusted: the result is the `White_Space`
/// property of `c`, which `is_whitespace` names.
#[verifier::external_body]
pub(crate) fn char_is_whitespace(c: char) -> (b: bool)
    ensures
        b == is_whitespace(c),
{
    c.is_whitespace()
}

/// Calls `String::push`. Trusted: the string afterwards is the string before
/// with `c` appended.
#[verifier::external_body]
pub(crate) fn push_char(s: &mut String, c: char)
    ensures
        final(s)@ == old(s)@.push(c),
{
    s.push(c)
}

/// Calls `str::starts_with` with a string as the pattern. Trusted: the result
/// tells whether the characters of `s` begin with those of `prefix`.
#[verifier::external_body]
pub(crate) fn str_starts_with(s: &str, prefix: &str) -> (b: bool)
    ensures
        b == prefix@.is_prefix_of(s@),
{
    s.starts_with(prefix)
}

/// Calls `==` on two string slices. Trusted: the result tells whether the two
/// hold the same characters.
#[verifier::external_body]
pub(crate) fn str_eq(a: &str, b: &str) -> (same: bool)
    ensures
        same == (a@ == b@),
{
    a == b
}

/// Whether `code` is the code point of a character: at most `0x10FFFF` and no
/// surrogate.
pub open spec fn is_scalar_value(code: u32) -> bool {
    code <= 0xD7FF || (0xE000 <= code && code <= 0x10FFFF)
}

/// Different characters have different code points.
pub proof fn lemma_code_injective(a: char, b: char)
    ensures
        (a as u32 == b as u32) == (a == b),
{
}

/// Calls `char::from_u32`. Trusted: the result is the character whose code
/// point is `code`, and `None` exactly when `code` is the code point of no
/// character.
#[verifier::external_body]
pub(crate) fn char_from_code(code: u32) -> (r: Option<char>)
    ensures
        r == (if is_scalar_value(code) { Some(code as char) } else { None }),
{
    char::from_u32(code)
}

/// Appends `c` to `term`, unless it is to be skipped.
pub fn push_unless(term: &mut String, c: char, skip: bool)
    ensures
        final(term)@ == if skip {
            old(term)@
        } else {
            old(term)@.push(c)
        },
{
    if !skip {
        push_char(term, c);
    }
}

/// The term of a line: the line with every whitespace character removed.
pub fn normalize(line: &str) -> (term: String)
    ensures
        term@ == normalized(line@),
{
    let mut term = String::new();
    let ghost keep = |c: char| !is_whitespace(c);
    for c in it: line.chars()
        invariant
            it.seq() == line@,
            keep == (|c: char| !is_whitespace(c)),
            term@ == line@.take(it.index()).filter(keep),
    {
        proof {
            let done = line@.take(it.index());
            assert(line@.take(it.index() + 1) == done.push(c));
            assert(done.push(c).drop_last() == done);
            reveal(Seq::filter);
        }
        push_unless(&mut term, c, char_is_whitespace(c));
    }
    proof {
        assert(line@.take(line@.len() as int) == line@);
    }
    term
}

} // verus!
