//! The vocabulary of the contracts: terms as character sequences, sets and
//! lists of them, and what the searches say of those.

use vstd::prelude::*;
use crate::text::normalized;

verus! {

/// The character sequences of a list of strings, in order.
pub open spec fn term_views(list: Seq<String>) -> Seq<Seq<char>> {
    list.map_values(|s: String| s@)
}

/// The terms that a sequence of lines gives: the term of each line, in order,
/// but for the lines whose term is empty.
pub open spec fn loaded(lines: Seq<Seq<char>>) -> Seq<Seq<char>> {
    lines.map_values(|line: Seq<char>| normalized(line)).filter(|t: Seq<char>| t.len() > 0)
}

/// Whether some term of `terms` begins with `prefix`; the empty prefix
/// always counts, as it leads nowhere beyond the root of a tree.
pub open spec fn reaches(terms: Set<Seq<char>>, prefix: Seq<char>) -> bool {
    prefix.len() == 0 || exists|t: Seq<char>| #[trigger] terms.contains(t) && prefix.is_prefix_of(t)
}

/// The terms of `terms` that begin with `prefix`.
pub open spec fn completions(terms: Set<Seq<char>>, prefix: Seq<char>) -> Set<Seq<char>> {
    Set::new(|t: Seq<char>| terms.contains(t) && prefix.is_prefix_of(t))
}

/// Whether `listed` is in an order in which a depth-first walk of a prefix
/// tree can list its terms: a term comes before the terms that it begins, and
/// the terms that share a beginning stand together.
pub open spec fn depth_first(listed: Seq<Seq<char>>) -> bool {
    &&& forall|i: int, j: int|
        0 <= i < listed.len() && 0 <= j < listed.len() && #[trigger] listed[i].is_prefix_of(
            #[trigger] listed[j],
        ) ==> i <= j
    &&& forall|p: Seq<char>, i: int, j: int, k: int|
        0 <= i <= j <= k < listed.len() && #[trigger] p.is_prefix_of(listed[i])
            && #[trigger] p.is_prefix_of(listed[k]) ==> #[trigger] p.is_prefix_of(listed[j])
}

/// The terms of `terms` that begin with `prefix`, in their order and as often
/// as they occur.
pub open spec fn matching(terms: Seq<Seq<char>>, prefix: Seq<char>) -> Seq<Seq<char>> {
    terms.filter(|t: Seq<char>| prefix.is_prefix_of(t))
}

/// Whether `at` is the first place of `term` in `terms`, or `None` where it
/// has no place there.
pub open spec fn is_first_match(terms: Seq<Seq<char>>, term: Seq<char>, at: Option<usize>) -> bool {
    match at {
        Some(i) => {
            &&& i < terms.len()
            &&& terms[i as int] == term
            &&& forall|j: int| 0 <= j < i ==> terms[j] != term
        },
        None => forall|j: int| 0 <= j < terms.len() ==> terms[j] != term,
    }
}

/// One more line gives one more term, unless its term is empty.
pub proof fn lemma_loaded_push(lines: Seq<Seq<char>>, line: Seq<char>)
    ensures
        loaded(lines.push(line)) == if normalized(line).len() > 0 {
            loaded(lines).push(normalized(line))
        } else {
            loaded(lines)
        },
{
    let term_of = |line: Seq<char>| normalized(line);
    assert(lines.push(line).map_values(term_of) =~= lines.map_values(term_of).push(
        normalized(line),
    ));
    assert(lines.map_values(term_of).push(normalized(line)).drop_last() =~= lines.map_values(
        term_of,
    ));
    reveal(Seq::filter);
}

/// A beginning of a beginning is a beginning.
pub proof fn lemma_prefix_transitive(a: Seq<char>, b: Seq<char>, c: Seq<char>)
    requires
        a.is_prefix_of(b),
        b.is_prefix_of(c),
    ensures
        a.is_prefix_of(c),
{
}

/// Of two beginnings of one sequence the shorter begins the longer.
pub proof fn lemma_prefixes_nest(a: Seq<char>, b: Seq<char>, whole: Seq<char>)
    requires
        a.is_prefix_of(whole),
        b.is_prefix_of(whole),
        a.len() <= b.len(),
    ensures
        a.is_prefix_of(b),
{
}

} // verus!
