//! What holds of the tree and of the linear index across calls, stated over
//! the views and spec functions that the contracts of their functions use.

use vstd::prelude::*;
use crate::terms::{completions, is_first_match, loaded, matching, reaches};
use crate::trie::TrieNode;

verus! {

/// The terms stored once each of `terms` in turn has been inserted into a
/// tree that stored `stored`.
pub open spec fn after_inserts(stored: Set<Seq<char>>, terms: Seq<Seq<char>>) -> Set<Seq<char>>
    decreases terms.len(),
{
    if terms.len() == 0 {
        stored
    } else {
        after_inserts(stored, terms.drop_last()).insert(terms.last())
    }
}

/// A term is found right after it was inserted, and so is each of its
/// beginnings as a prefix.
pub proof fn law_inserted_term_is_found(
    tree: TrieNode,
    grown: TrieNode,
    term: Seq<char>,
    prefix: Seq<char>,
)
    requires
        grown@ == tree@.insert(term),
        prefix.is_prefix_of(term),
    ensures
        grown@.contains(term),
        reaches(grown@, prefix),
{
    assert(grown@.contains(term) && prefix.is_prefix_of(term));
}

/// A tree that was empty and had `inserted` inserted stores those terms and
/// no others: a term that was never inserted is not found, whether or not it
/// begins one that was.
pub proof fn law_only_inserted_terms_are_found(inserted: Seq<Seq<char>>, term: Seq<char>)
    ensures
        after_inserts(Set::empty(), inserted).contains(term) <==> inserted.contains(term),
    decreases inserted.len(),
{
    if inserted.len() > 0 {
        let before = inserted.drop_last();
        law_only_inserted_terms_are_found(before, term);
        if inserted.contains(term) && term != inserted.last() {
            let i = choose|i: int| 0 <= i < inserted.len() && inserted[i] == term;
            assert(before[i] == term);
        }
    }
}

/// A well-formed tree has a node exactly where a stored term leads through or
/// ends, and the root: none that no term needs.
pub proof fn law_nodes_lead_to_terms(tree: TrieNode, path: Seq<char>)
    requires
        tree.wf(),
    ensures
        tree.has_path(path) == reaches(tree@, path),
{
    tree.lemma_path_reaches(path);
}

/// Inserting a term adds at most one node for each of its characters: a node
/// that is new stands behind a beginning of the term that is not empty.
pub proof fn law_insert_adds_nodes_along_term(
    tree: TrieNode,
    grown: TrieNode,
    term: Seq<char>,
    path: Seq<char>,
)
    requires
        grown.has_path(path) == (tree.has_path(path) || path.is_prefix_of(term)),
        grown.has_path(path),
        !tree.has_path(path),
    ensures
        exists|n: int| 1 <= n <= term.len() && path == #[trigger] term.take(n),
{
    if path.len() == 0 {
        tree.lemma_root_has_path();
        assert(path =~= Seq::<char>::empty());
    }
}

/// Inserting a term a second time changes nothing: the tree stores the same
/// terms, so every exact search and every prefix search answers as before.
pub proof fn law_insert_is_idempotent(tree: TrieNode, once: TrieNode, twice: TrieNode, term: Seq<char>)
    requires
        once@ == tree@.insert(term),
        twice@ == once@.insert(term),
    ensures
        twice@ == once@,
        forall|query: Seq<char>| twice@.contains(query) == once@.contains(query),
        forall|query: Seq<char>| reaches(twice@, query) == reaches(once@, query),
        forall|query: Seq<char>| completions(twice@, query) == completions(once@, query),
{
}

/// What a prefix search lists of a tree that was empty and had `inserted`
/// inserted is, whatever the order, every inserted term that begins with the
/// prefix and nothing else.
pub proof fn law_enumeration_is_exact(
    inserted: Seq<Seq<char>>,
    prefix: Seq<char>,
    listed: Seq<Seq<char>>,
)
    requires
        listed.to_set() == completions(after_inserts(Set::empty(), inserted), prefix),
    ensures
        forall|t: Seq<char>| #[trigger]
            listed.contains(t) <==> inserted.contains(t) && prefix.is_prefix_of(t),
{
    assert forall|t: Seq<char>| #[trigger]
        listed.contains(t) <==> inserted.contains(t) && prefix.is_prefix_of(t) by {
        law_only_inserted_terms_are_found(inserted, t);
        assert(listed.to_set().contains(t) == listed.contains(t));
    }
}

/// Loading the same lines into an empty tree and into an empty list gives
/// both the same terms.
pub proof fn law_same_lines_same_terms(tree: TrieNode, list: Seq<Seq<char>>, lines: Seq<Seq<char>>)
    requires
        tree@ == Set::<Seq<char>>::empty().union(loaded(lines).to_set()),
        list == Seq::<Seq<char>>::empty() + loaded(lines),
    ensures
        tree@ == list.to_set(),
{
    assert(list =~= loaded(lines));
    assert(tree@ =~= list.to_set());
}

/// A tree and a list that hold the same terms answer alike: an exact search
/// finds a term in both or in neither, and a prefix search gives the same set
/// of terms.
pub proof fn law_linear_agrees_with_tree(
    tree: TrieNode,
    list: Seq<Seq<char>>,
    query: Seq<char>,
    at: Option<usize>,
)
    requires
        tree@ == list.to_set(),
        is_first_match(list, query, at),
    ensures
        at is Some <==> tree@.contains(query),
        matching(list, query).to_set() == completions(tree@, query),
{
    let begins = |t: Seq<char>| query.is_prefix_of(t);
    assert forall|t: Seq<char>| matching(list, query).to_set().contains(t) == completions(
        tree@,
        query,
    ).contains(t) by {
        if matching(list, query).contains(t) {
            list.lemma_filter_contains_rev(begins, t);
        }
        if list.contains(t) && query.is_prefix_of(t) {
            let i = choose|i: int| 0 <= i < list.len() && list[i] == t;
            list.lemma_filter_contains(begins, i);
        }
    }
}

/// With nothing loaded, no exact search finds anything and every prefix
/// search lists nothing, in the tree and in the list.
pub proof fn law_empty_finds_nothing(
    tree: TrieNode,
    query: Seq<char>,
    at: Option<usize>,
    listed: Seq<Seq<char>>,
)
    requires
        tree@ == Set::<Seq<char>>::empty(),
        is_first_match(Seq::empty(), query, at),
        listed.to_set() == completions(tree@, query),
    ensures
        !tree@.contains(query),
        listed.len() == 0,
        at is None,
        matching(Seq::empty(), query).len() == 0,
{
    if listed.len() > 0 {
        assert(listed.to_set().contains(listed[0]));
    }
    reveal(Seq::filter);
}

} // verus!
