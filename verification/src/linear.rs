//! The linear index: the terms in the order in which they were loaded, every
//! occurrence kept, searched by scanning.

use vstd::prelude::*;
use crate::terms::{is_first_match, lemma_loaded_push, loaded, matching, term_views};
use crate::text::{normalize, normalized, str_eq, str_starts_with};

verus! {

/// Appends the term of `line` to `list`, unless the term is empty; tells
/// whether it did.
pub fn push_line(list: &mut Vec<String>, line: &str) -> (stored: bool)
    ensures
        stored == (normalized(line@).len() > 0),
        term_views(final(list)@) == if stored {
            term_views(old(list)@).push(normalized(line@))
        } else {
            term_views(old(list)@)
        },
{
    let term = normalize(line);
    if term.as_str().is_empty() {
        false
    } else {
        list.push(term);
        true
    }
}

/// Appends to `list` the terms that `lines` give, in order.
pub fn insert_into_vec(lines: &[String], list: &mut Vec<String>)
    ensures
        term_views(final(list)@) == term_views(old(list)@) + loaded(term_views(lines@)),
{
    let mut i: usize = 0;
    proof {
        reveal(Seq::filter);
    }
    while i < lines.len()
        invariant
            i <= lines@.len(),
            term_views(list@) == term_views(old(list)@) + loaded(term_views(lines@).take(i as int)),
        decreases lines@.len() - i,
    {
        proof {
            let before = term_views(lines@).take(i as int);
            assert(term_views(lines@).take(i + 1) =~= before.push(lines@[i as int]@));
            lemma_loaded_push(before, lines@[i as int]@);
        }
        push_line(list, lines[i].as_str());
        i += 1;
    }
    proof {
        assert(term_views(lines@).take(lines@.len() as int) =~= term_views(lines@));
    }
}

/// Scans `list` for `term` and returns the place of its first occurrence.
pub fn search_in_vec(list: &[String], term: &str) -> (at: Option<usize>)
    ensures
        is_first_match(term_views(list@), term@, at),
{
    let mut i: usize = 0;
    while i < list.len()
        invariant
            i <= list@.len(),
            forall|j: int| 0 <= j < i ==> term_views(list@)[j] != term@,
        decreases list@.len() - i,
    {
        if str_eq(list[i].as_str(), term) {
            return Some(i);
        }
        i += 1;
    }
    None
}

/// Scans `list` and returns, in order, a copy of every term that begins with
/// `prefix`.
pub fn search_prefix_in_vec(list: &[String], prefix: &str) -> (found: Vec<String>)
    ensures
        term_views(found@) == matching(term_views(list@), prefix@),
{
    let mut found: Vec<String> = Vec::new();
    let ghost begins = |t: Seq<char>| prefix@.is_prefix_of(t);
    let mut i: usize = 0;
    proof {
        reveal(Seq::filter);
    }
    while i < list.len()
        invariant
            i <= list@.len(),
            begins == (|t: Seq<char>| prefix@.is_prefix_of(t)),
            term_views(found@) == term_views(list@).take(i as int).filter(begins),
        decreases list@.len() - i,
    {
        proof {
            let before = term_views(list@).take(i as int);
            assert(term_views(list@).take(i + 1) =~= before.push(list@[i as int]@));
            assert(before.push(list@[i as int]@).drop_last() =~= before);
            reveal(Seq::filter);
        }
        if str_starts_with(list[i].as_str(), prefix) {
            found.push(list[i].clone());
        }
        i += 1;
    }
    proof {
        assert(term_views(list@).take(list@.len() as int) =~= term_views(list@));
    }
    found
}

} // verus!
