//! The prefix tree: one node per character of a stored term, with the
//! children of a node keyed by the code point of the character that leads to
//! them.

use vstd::prelude::*;
use std::collections::HashMap;
use crate::terms::{
    completions, depth_first, lemma_loaded_push, lemma_prefix_transitive, lemma_prefixes_nest,
    loaded, reaches, term_views,
};
use crate::text::{
    char_from_code, is_scalar_value, lemma_code_injective, normalize, normalized, push_char,
};

verus! {

/// A node of the prefix tree, and through its children the subtree below it.
/// The root node is the tree.
pub struct TrieNode {
    children: HashMap<u32, TrieNode>,
    is_complete_term: bool,
}

/// What an exact search found.
pub struct SearchOutcome {
    /// Whether the term is stored.
    pub found: bool,
    /// The leading characters of the term that the tree could follow.
    pub path: String,
}

impl SearchOutcome {
    /// How many leading characters of the term the tree could follow.
    pub fn matched(&self) -> (n: usize)
        ensures
            n == self.path@.len(),
    {
        self.path.as_str().unicode_len()
    }
}

/// What a prefix search found.
pub struct PrefixOutcome {
    /// Whether the tree could follow the whole prefix.
    pub found: bool,
    /// The stored terms that begin with the prefix.
    pub terms: Vec<String>,
}

impl View for TrieNode {
    type V = Set<Seq<char>>;

    /// The terms stored in the tree.
    closed spec fn view(&self) -> Set<Seq<char>> {
        Set::new(|t: Seq<char>| self.holds(t))
    }
}

impl TrieNode {
    /// Whether following `term` from this node ends on a node that closes a
    /// term.
    spec fn holds(self, term: Seq<char>) -> bool
        decreases term.len(),
    {
        if term.len() == 0 {
            self.is_complete_term
        } else {
            let k = term[0] as u32;
            self.children@.contains_key(k) && self.children@[k].holds(term.drop_first())
        }
    }

    /// Whether the tree has a node behind `path`: every character of `path` in
    /// turn leads from a node to a child.
    pub closed spec fn has_path(self, path: Seq<char>) -> bool
        decreases path.len(),
    {
        if path.len() == 0 {
            true
        } else {
            let k = path[0] as u32;
            self.children@.contains_key(k) && self.children@[k].has_path(path.drop_first())
        }
    }

    /// The node that `path` leads to from this one, where `has_path(path)`.
    spec fn node_at(self, path: Seq<char>) -> TrieNode
        decreases path.len(),
    {
        if path.len() == 0 {
            self
        } else {
            self.children@[path[0] as u32].node_at(path.drop_first())
        }
    }

    /// Whether this node closes a term or has a child.
    spec fn live(self) -> bool {
        self.is_complete_term || exists|k: u32| self.children@.contains_key(k)
    }

    /// Every node below this one is keyed by a character, and was created on
    /// the way to a term: it closes one or leads to one.
    pub closed spec fn wf(self) -> bool
        decreases self,
    {
        forall|k: u32| #[trigger]
            self.children@.contains_key(k) ==> {
                &&& is_scalar_value(k)
                &&& self.children@[k].live()
                &&& self.children@[k].wf()
            }
    }
}

impl TrieNode {
    /// A tree that stores no term.
    pub fn new() -> (node: Self)
        ensures
            node.wf(),
            node@ == Set::<Seq<char>>::empty(),
    {
        TrieNode { children: HashMap::new(), is_complete_term: false }
    }

    /// Stores `term`: walks down from the root one character at a time,
    /// creating the nodes that are missing, and marks the node it ends on.
    /// For the empty term that node is the root.
    pub fn insert(&mut self, term: &str)
        requires
            old(self).wf(),
        ensures
            final(self).wf(),
            final(self)@ == old(self)@.insert(term@),
            forall|path: Seq<char>| #[trigger]
                final(self).has_path(path) == (old(self).has_path(path) || path.is_prefix_of(
                    term@,
                )),
    {
        let mut node = self;
        proof {
            assert(forall|t: Seq<char>| t.skip(0) == t);
        }
        for ch in it: term.chars()
            invariant
                it.seq() == term@,
                node.wf(),
                below(*old(self), term@.take(it.index()), *node),
                grafted(*final(self), *old(self), term@.take(it.index()), *final(node)),
                final(node).wf() && (it.index() > 0 ==> final(node).live()) ==> final(self).wf(),
        {
            let ghost done = term@.take(it.index());
            let ghost here = *node;
            let ghost here_final = *final(node);
            node = node.children.entry(ch as u32).or_insert(TrieNode::new());
            proof {
                assert(term@.take(it.index() + 1) == done.push(ch));
                lemma_below_step(*old(self), done, ch, here, *node);
                lemma_grafted_step(*final(self), *old(self), done, ch, here, here_final, *final(node));
                lemma_wf_step(ch, here, here_final, *final(node));
            }
        }
        let ghost here = *node;
        node.is_complete_term = true;
        proof {
            lemma_grafted_end(*final(self), *old(self), term@, here, *node);
            assert forall|path: Seq<char>| #[trigger]
                final(self).has_path(path) == (old(self).has_path(path) || path.is_prefix_of(
                    term@,
                )) by {
                lemma_paths_after_insert(*old(self), *final(self), term@, path);
            }
        }
    }

    /// Stores the term of `line`, unless the term is empty; tells whether it
    /// did.
    pub fn insert_line(&mut self, line: &str) -> (stored: bool)
        requires
            old(self).wf(),
        ensures
            final(self).wf(),
            stored == (normalized(line@).len() > 0),
            final(self)@ == if stored {
                old(self)@.insert(normalized(line@))
            } else {
                old(self)@
            },
    {
        let term = normalize(line);
        if term.as_str().is_empty() {
            false
        } else {
            self.insert(term.as_str());
            true
        }
    }

    /// Stores the terms that `lines` give.
    pub fn insert_lines(&mut self, lines: &[String])
        requires
            old(self).wf(),
        ensures
            final(self).wf(),
            final(self)@ == old(self)@.union(loaded(term_views(lines@)).to_set()),
    {
        let mut i: usize = 0;
        while i < lines.len()
            invariant
                i <= lines@.len(),
                self.wf(),
                self@ == old(self)@.union(loaded(term_views(lines@).take(i as int)).to_set()),
            decreases lines@.len() - i,
        {
            proof {
                let before = term_views(lines@).take(i as int);
                assert(term_views(lines@).take(i + 1) =~= before.push(lines@[i as int]@));
                lemma_loaded_push(before, lines@[i as int]@);
                let term = normalized(lines@[i as int]@);
                assert(loaded(before).push(term).to_set() =~= loaded(before).to_set().insert(term))
                    by {
                    let longer = loaded(before).push(term);
                    assert(longer[longer.len() - 1] == term);
                    assert forall|t: Seq<char>| longer.contains(t) <==> loaded(before).contains(t)
                        || t == term by {
                        if loaded(before).contains(t) {
                            let j = choose|j: int|
                                0 <= j < loaded(before).len() && loaded(before)[j] == t;
                            assert(longer[j] == t);
                        }
                    }
                }
            }
            self.insert_line(lines[i].as_str());
            i += 1;
        }
        proof {
            assert(term_views(lines@).take(lines@.len() as int) =~= term_views(lines@));
        }
    }

    /// Looks `term` up: walks down from the root one character at a time, and
    /// reports whether the walk ended on a stored term, with the part of
    /// `term` that it could follow.
    pub fn search(&self, term: &str) -> (out: SearchOutcome)
        requires
            self.wf(),
        ensures
            out.found == self@.contains(term@),
            out.path@.is_prefix_of(term@),
            reaches(self@, out.path@),
            out.path@.len() < term@.len() ==> !reaches(self@, term@.take(out.path@.len() as int + 1)),
    {
        let mut node = self;
        let mut path = String::new();
        for ch in it: term.chars()
            invariant
                it.seq() == term@,
                self.wf(),
                path@ == term@.take(it.index()),
                self.has_path(path@),
                *node == self.node_at(path@),
        {
            let ghost before = path@;
            proof {
                self.lemma_node_at_push(before, ch);
            }
            match node.children.get(&(ch as u32)) {
                Some(next) => {
                    node = next;
                    push_char(&mut path, ch);
                },
                None => {
                    proof {
                        self.lemma_path_reaches(before.push(ch));
                        self.lemma_path_reaches(before);
                        if self.holds(term@) {
                            self.lemma_holds_has_path(term@);
                            self.lemma_has_path_prefix(term@, before.push(ch));
                        }
                    }
                    return SearchOutcome { found: false, path };
                },
            }
        }
        proof {
            assert(term@.take(term@.len() as int) == term@);
            self.lemma_path_reaches(term@);
            self.lemma_node_at_holds(term@, Seq::empty());
        }
        SearchOutcome { found: node.is_complete_term, path }
    }

    /// Looks `prefix` up: walks down from the root one character at a time,
    /// and where the tree can follow the whole prefix lists the terms stored
    /// below the node it ends on, depth first, a node's own term before those
    /// of its children. The order among the children of a node is not fixed.
    pub fn starts_with(&self, prefix: &str) -> (out: PrefixOutcome)
        requires
            self.wf(),
        ensures
            out.found == reaches(self@, prefix@),
            !out.found ==> out.terms@.len() == 0,
            term_views(out.terms@).to_set() == completions(self@, prefix@),
            term_views(out.terms@).no_duplicates(),
            depth_first(term_views(out.terms@)),
    {
        let mut node = self;
        for ch in it: prefix.chars()
            invariant
                it.seq() == prefix@,
                self.wf(),
                self.has_path(prefix@.take(it.index())),
                *node == self.node_at(prefix@.take(it.index())),
        {
            let ghost before = prefix@.take(it.index());
            proof {
                self.lemma_node_at_push(before, ch);
                assert(prefix@.take(it.index() + 1) == before.push(ch));
            }
            match node.children.get(&(ch as u32)) {
                Some(next) => {
                    node = next;
                },
                None => {
                    let terms: Vec<String> = Vec::new();
                    proof {
                        self.lemma_path_reaches(prefix@);
                        if self.has_path(prefix@) {
                            self.lemma_has_path_prefix(prefix@, before.push(ch));
                        }
                    }
                    return PrefixOutcome { found: false, terms };
                },
            }
        }
        let mut terms: Vec<String> = Vec::new();
        proof {
            assert(prefix@.take(prefix@.len() as int) == prefix@);
            self.lemma_path_reaches(prefix@);
            self.lemma_node_at_wf(prefix@);
        }
        let start = prefix.to_string();
        node.collect_terms(&start, &mut terms);
        proof {
            assert(terms@.skip(0) =~= terms@);
            self.lemma_lists_completions(prefix@, term_views(terms@));
        }
        PrefixOutcome { found: true, terms }
    }

    /// Lists the terms below this node, each behind `prefix`: this node's own
    /// first, then those of each child in turn.
    fn collect_terms(&self, prefix: &String, out: &mut Vec<String>)
        requires
            self.wf(),
        ensures
            old(out)@.len() <= final(out)@.len(),
            final(out)@.take(old(out)@.len() as int) == old(out)@,
            lists_subtree(*self, prefix@, term_views(final(out)@.skip(old(out)@.len() as int))),
        decreases self,
    {
        let ghost start = out@.len() as int;
        if self.is_complete_term {
            out.push(prefix.clone());
        }
        let ghost mut visited: Set<u32> = Set::empty();
        proof {
            lemma_lists_start(*self, prefix@);
            if self.is_complete_term {
                assert(term_views(out@.skip(start)) =~= seq![prefix@]);
            }
        }
        for entry in it: self.children.iter()
            invariant
                self.wf(),
                start == old(out)@.len(),
                start <= out@.len(),
                out@.take(start) == old(out)@,
                it.seq().no_duplicates(),
                forall|j: int|
                    0 <= j < it.seq().len() ==> self.children@.contains_key(
                        *(#[trigger] it.seq()[j]).0,
                    ) && self.children@[*it.seq()[j].0] == *it.seq()[j].1,
                forall|k: u32| #[trigger]
                    self.children@.contains_key(k) ==> exists|j: int|
                        0 <= j < it.seq().len() && *(#[trigger] it.seq()[j]).0 == k,
                forall|k: u32| #[trigger]
                    visited.contains(k) <==> exists|j: int|
                        0 <= j < it.index() && *(#[trigger] it.seq()[j]).0 == k,
                lists_visited(*self, prefix@, visited, term_views(out@.skip(start))),
        {
            let (k, child) = entry;
            let ghost before = out@;
            if let Some(ch) = char_from_code(*k) {
                let mut longer = prefix.clone();
                push_char(&mut longer, ch);
                child.collect_terms(&longer, out);
                proof {
                    let block = out@.skip(before.len() as int);
                    assert(term_views(out@.skip(start)) =~= term_views(before.skip(start))
                        + term_views(block));
                    lemma_lists_step(
                        *self,
                        prefix@,
                        visited,
                        term_views(before.skip(start)),
                        *k,
                        term_views(block),
                    );
                }
            }
            proof {
                visited = visited.insert(*k);
            }
        }
        proof {
            lemma_lists_done(*self, prefix@, visited, term_views(out@.skip(start)));
        }
    }
}

impl Default for TrieNode {
    /// A tree that stores no term.
    fn default() -> (node: Self)
        ensures
            node.wf(),
            node@ == Set::<Seq<char>>::empty(),
    {
        TrieNode::new()
    }
}

impl TrieNode {
    /// In a well-formed tree the paths are the beginnings of the stored terms.
    pub proof fn lemma_path_reaches(self, path: Seq<char>)
        requires
            self.wf(),
        ensures
            self.has_path(path) == reaches(self@, path),
    {
        if path.len() > 0 {
            if self.has_path(path) {
                self.lemma_node_at_wf(path);
                let rest = self.node_at(path).lemma_live_holds();
                self.lemma_node_at_holds(path, rest);
                assert(self@.contains(path + rest));
            }
            if reaches(self@, path) {
                let t = choose|t: Seq<char>| #[trigger] self@.contains(t) && path.is_prefix_of(t);
                self.lemma_holds_has_path(t);
                self.lemma_has_path_prefix(t, path);
            }
        }
    }

    /// The root is a node of every tree.
    pub proof fn lemma_root_has_path(self)
        ensures
            self.has_path(Seq::empty()),
    {
    }

    /// One more step of a path: `path.push(c)` can be followed exactly when
    /// `path` can and the node it leads to has a child for `c`, which is then
    /// where the longer path leads.
    proof fn lemma_node_at_push(self, path: Seq<char>, c: char)
        requires
            self.has_path(path),
        ensures
            self.has_path(path.push(c)) == self.node_at(path).children@.contains_key(c as u32),
            self.has_path(path.push(c)) ==> self.node_at(path.push(c)) == self.node_at(
                path,
            ).children@[c as u32],
        decreases path.len(),
    {
        if path.len() == 0 {
            reveal_with_fuel(TrieNode::has_path, 2);
            reveal_with_fuel(TrieNode::node_at, 2);
        } else {
            assert(path.push(c).drop_first() =~= path.drop_first().push(c));
            self.children@[path[0] as u32].lemma_node_at_push(path.drop_first(), c);
        }
    }

    /// Below the end of a path the tree holds what this node holds behind the
    /// path.
    proof fn lemma_node_at_holds(self, path: Seq<char>, rest: Seq<char>)
        requires
            self.has_path(path),
        ensures
            self.holds(path + rest) == self.node_at(path).holds(rest),
            self.has_path(path + rest) == self.node_at(path).has_path(rest),
        decreases path.len(),
    {
        if path.len() > 0 {
            assert((path + rest).drop_first() =~= path.drop_first() + rest);
            self.children@[path[0] as u32].lemma_node_at_holds(path.drop_first(), rest);
        }
    }

    /// Every node on a path of a well-formed tree is well formed, and every one
    /// but the first is live.
    proof fn lemma_node_at_wf(self, path: Seq<char>)
        requires
            self.wf(),
            self.has_path(path),
        ensures
            self.node_at(path).wf(),
            path.len() > 0 ==> self.node_at(path).live(),
        decreases path.len(),
    {
        if path.len() > 0 {
            self.children@[path[0] as u32].lemma_node_at_wf(path.drop_first());
        }
    }

    /// A live node of a well-formed tree has a term below it.
    proof fn lemma_live_holds(self) -> (t: Seq<char>)
        requires
            self.wf(),
            self.live(),
        ensures
            self.holds(t),
        decreases self,
    {
        if self.is_complete_term {
            Seq::empty()
        } else {
            let k = choose|k: u32| self.children@.contains_key(k);
            let rest = self.children@[k].lemma_live_holds();
            let t = seq![k as char] + rest;
            assert(t.drop_first() =~= rest);
            t
        }
    }

    /// A stored term is a path.
    proof fn lemma_holds_has_path(self, term: Seq<char>)
        requires
            self.holds(term),
        ensures
            self.has_path(term),
        decreases term.len(),
    {
        if term.len() > 0 {
            self.children@[term[0] as u32].lemma_holds_has_path(term.drop_first());
        }
    }

    /// The beginning of a path is a path.
    proof fn lemma_has_path_prefix(self, path: Seq<char>, prefix: Seq<char>)
        requires
            self.has_path(path),
            prefix.is_prefix_of(path),
        ensures
            self.has_path(prefix),
        decreases path.len(),
    {
        if prefix.len() > 0 {
            self.children@[path[0] as u32].lemma_has_path_prefix(
                path.drop_first(),
                prefix.drop_first(),
            );
        }
    }

    /// A list of the subtree behind a path of the tree is a list, without
    /// repeats, of the stored terms that begin with the path.
    proof fn lemma_lists_completions(self, prefix: Seq<char>, listed: Seq<Seq<char>>)
        requires
            self.has_path(prefix),
            lists_subtree(self.node_at(prefix), prefix, listed),
        ensures
            listed.to_set() == completions(self@, prefix),
            listed.no_duplicates(),
    {
        assert forall|t: Seq<char>| listed.to_set().contains(t) == completions(
            self@,
            prefix,
        ).contains(t) by {
            if prefix.is_prefix_of(t) {
                let rest = t.skip(prefix.len() as int);
                assert(prefix + rest =~= t);
                self.lemma_node_at_holds(prefix, rest);
            }
        }
        assert forall|i: int, j: int|
            0 <= i < listed.len() && 0 <= j < listed.len() && i != j implies listed[i]
            != listed[j] by {
            if listed[i] == listed[j] {
                assert(listed[i].is_prefix_of(listed[j]));
            }
        }
    }
}

/// Inserting a term adds nodes only along the term, and takes none away.
proof fn lemma_paths_after_insert(tree: TrieNode, grown: TrieNode, term: Seq<char>, path: Seq<char>)
    requires
        tree.wf(),
        grown.wf(),
        grown@ == tree@.insert(term),
    ensures
        grown.has_path(path) == (tree.has_path(path) || path.is_prefix_of(term)),
{
    tree.lemma_path_reaches(path);
    grown.lemma_path_reaches(path);
    if path.is_prefix_of(term) {
        assert(grown@.contains(term));
    }
    if reaches(tree@, path) && path.len() > 0 {
        let t = choose|t: Seq<char>| #[trigger] tree@.contains(t) && path.is_prefix_of(t);
        assert(grown@.contains(t));
    }
}

/// Whether `node` holds what `base` holds behind `path`.
spec fn below(base: TrieNode, path: Seq<char>, node: TrieNode) -> bool {
    forall|rest: Seq<char>| #[trigger] node.holds(rest) == base.holds(path + rest)
}

/// Whether `whole` holds what `base` holds, but behind `path`, where it holds
/// what `node` holds.
spec fn grafted(whole: TrieNode, base: TrieNode, path: Seq<char>, node: TrieNode) -> bool {
    forall|t: Seq<char>| #[trigger]
        whole.holds(t) == if path.is_prefix_of(t) {
            node.holds(t.skip(path.len() as int))
        } else {
            base.holds(t)
        }
}

/// One step down, in the tree as it is: the child for `c`, or where there is
/// none a node that holds nothing, holds what `base` holds behind the longer
/// path.
proof fn lemma_below_step(base: TrieNode, path: Seq<char>, c: char, here: TrieNode, next: TrieNode)
    requires
        below(base, path, here),
        here.children@.contains_key(c as u32) ==> next == here.children@[c as u32],
        !here.children@.contains_key(c as u32) ==> next@ == Set::<Seq<char>>::empty(),
    ensures
        below(base, path.push(c), next),
{
    assert forall|rest: Seq<char>| #[trigger] next.holds(rest) == base.holds(path.push(c) + rest) by {
        let longer = seq![c] + rest;
        assert(longer.drop_first() =~= rest);
        assert(path.push(c) + rest =~= path + longer);
        assert(here.holds(longer) == base.holds(path + longer));
        if !here.children@.contains_key(c as u32) {
            assert(next@.contains(rest) == next.holds(rest));
        }
    }
}

/// One step down, in the tree as it will be: if the node behind `path` ends
/// up as it is but for its child for `c`, then the tree is grafted behind the
/// longer path with what that child ends up as.
proof fn lemma_grafted_step(
    whole: TrieNode,
    base: TrieNode,
    path: Seq<char>,
    c: char,
    here: TrieNode,
    here_final: TrieNode,
    next_final: TrieNode,
)
    requires
        grafted(whole, base, path, here_final),
        below(base, path, here),
        here_final.is_complete_term == here.is_complete_term,
        here_final.children@ == here.children@.insert(c as u32, next_final),
    ensures
        grafted(whole, base, path.push(c), next_final),
{
    let longer = path.push(c);
    assert forall|t: Seq<char>| #[trigger]
        whole.holds(t) == if longer.is_prefix_of(t) {
            next_final.holds(t.skip(longer.len() as int))
        } else {
            base.holds(t)
        } by {
        if path.is_prefix_of(t) {
            let rest = t.skip(path.len() as int);
            assert(path + rest =~= t);
            assert(here.holds(rest) == base.holds(path + rest));
            if rest.len() > 0 {
                assert(rest.drop_first() =~= t.skip(longer.len() as int));
                if rest[0] != c {
                    lemma_code_injective(rest[0], c);
                    if longer.is_prefix_of(t) {
                        assert(longer[path.len() as int] == t[path.len() as int]);
                    }
                }
            }
        }
    }
}

/// One step down, for the shape of the tree: if the child for `c` ends up
/// well formed and live, so does its parent, which is otherwise as it was.
proof fn lemma_wf_step(c: char, here: TrieNode, here_final: TrieNode, next_final: TrieNode)
    requires
        here.wf(),
        here_final.children@ == here.children@.insert(c as u32, next_final),
    ensures
        next_final.wf() && next_final.live() ==> here_final.wf() && here_final.live(),
{
    if next_final.wf() && next_final.live() {
        assert(here_final.children@.contains_key(c as u32));
    }
}

/// The last step: marking the node behind `term` adds `term` to what the tree
/// holds, and nothing else.
proof fn lemma_grafted_end(
    whole: TrieNode,
    base: TrieNode,
    term: Seq<char>,
    here: TrieNode,
    here_final: TrieNode,
)
    requires
        grafted(whole, base, term, here_final),
        below(base, term, here),
        here_final.is_complete_term,
        here_final.children == here.children,
    ensures
        whole@ == base@.insert(term),
{
    assert forall|t: Seq<char>| whole@.contains(t) == base@.insert(term).contains(t) by {
        if term.is_prefix_of(t) {
            let rest = t.skip(term.len() as int);
            assert(term + rest =~= t);
            assert(here.holds(rest) == base.holds(term + rest));
        }
    }
}

/// Whether `listed` holds the terms of `node`, each behind `prefix`, in a
/// depth-first order.
spec fn lists_subtree(node: TrieNode, prefix: Seq<char>, listed: Seq<Seq<char>>) -> bool {
    &&& forall|t: Seq<char>| #[trigger]
        listed.contains(t) <==> prefix.is_prefix_of(t) && node.holds(t.skip(prefix.len() as int))
    &&& depth_first(listed)
}

/// The same of a walk that is under way: of the terms that go on behind
/// `prefix`, `listed` holds those whose next character is keyed in `visited`.
spec fn lists_visited(
    node: TrieNode,
    prefix: Seq<char>,
    visited: Set<u32>,
    listed: Seq<Seq<char>>,
) -> bool {
    &&& forall|t: Seq<char>| #[trigger]
        listed.contains(t) <==> {
            &&& prefix.is_prefix_of(t)
            &&& node.holds(t.skip(prefix.len() as int))
            &&& (t.len() == prefix.len() || visited.contains(t[prefix.len() as int] as u32))
        }
    &&& depth_first(listed)
}

/// Before any child is visited the walk has listed the node's own term, if it
/// closes one.
proof fn lemma_lists_start(node: TrieNode, prefix: Seq<char>)
    ensures
        lists_visited(
            node,
            prefix,
            Set::empty(),
            if node.is_complete_term {
                seq![prefix]
            } else {
                Seq::empty()
            },
        ),
{
    let listed = if node.is_complete_term {
        seq![prefix]
    } else {
        Seq::<Seq<char>>::empty()
    };
    assert forall|t: Seq<char>| #[trigger]
        listed.contains(t) <==> {
            &&& prefix.is_prefix_of(t)
            &&& node.holds(t.skip(prefix.len() as int))
            &&& (t.len() == prefix.len() || Set::<u32>::empty().contains(
                t[prefix.len() as int] as u32,
            ))
        } by {
        if prefix.is_prefix_of(t) && t.len() == prefix.len() && node.is_complete_term {
            assert(listed[0] == t);
        }
    }
}

/// Visiting one more child: what the walk has listed, followed by the terms
/// below that child, is what it has listed once the child counts as visited.
proof fn lemma_lists_step(
    node: TrieNode,
    prefix: Seq<char>,
    visited: Set<u32>,
    listed: Seq<Seq<char>>,
    k: u32,
    block: Seq<Seq<char>>,
)
    requires
        lists_visited(node, prefix, visited, listed),
        node.children@.contains_key(k),
        is_scalar_value(k),
        !visited.contains(k),
        lists_subtree(node.children@[k], prefix.push(k as char), block),
    ensures
        lists_visited(node, prefix, visited.insert(k), listed + block),
{
    let c = k as char;
    let longer = prefix.push(c);
    let n = prefix.len() as int;
    let all = listed + block;
    // What stands in the two parts.
    assert forall|i: int| 0 <= i < listed.len() implies prefix.is_prefix_of(
        #[trigger] listed[i],
    ) && !longer.is_prefix_of(listed[i]) by {
        assert(listed.contains(listed[i]));
        if longer.is_prefix_of(listed[i]) {
            assert(longer[n] == listed[i][n]);
        }
    }
    assert forall|i: int| 0 <= i < block.len() implies longer.is_prefix_of(#[trigger] block[i]) by {
        assert(block.contains(block[i]));
    }
    // Which terms are listed.
    assert forall|t: Seq<char>| #[trigger]
        all.contains(t) <==> {
            &&& prefix.is_prefix_of(t)
            &&& node.holds(t.skip(n))
            &&& (t.len() == n || visited.insert(k).contains(t[n] as u32))
        } by {
        let rest = t.skip(n);
        if all.contains(t) {
            let i = choose|i: int| 0 <= i < all.len() && all[i] == t;
            if i < listed.len() {
                assert(listed.contains(listed[i]));
            } else {
                assert(block.contains(t));
                lemma_prefix_transitive(prefix, longer, t);
                assert(t[n] == longer[n]);
                assert(rest.drop_first() =~= t.skip(n + 1));
            }
        }
        if prefix.is_prefix_of(t) && node.holds(rest) {
            if t.len() == n || visited.contains(t[n] as u32) {
                assert(listed.contains(t));
                let i = choose|i: int| 0 <= i < listed.len() && listed[i] == t;
                assert(all[i] == t);
            } else if t[n] as u32 == k {
                lemma_code_injective(t[n], c);
                assert(rest.drop_first() =~= t.skip(n + 1));
                assert(block.contains(t));
                let i = choose|i: int| 0 <= i < block.len() && block[i] == t;
                assert(all[listed.len() + i] == t);
            }
        }
    }
    // The order.
    assert forall|i: int, j: int|
        0 <= i < all.len() && 0 <= j < all.len() && #[trigger] all[i].is_prefix_of(
            #[trigger] all[j],
        ) implies i <= j by {
        if i >= listed.len() && j < listed.len() {
            lemma_prefix_transitive(longer, block[i - listed.len()], listed[j]);
        }
    }
    assert forall|p: Seq<char>, i: int, j: int, m: int|
        0 <= i <= j <= m < all.len() && #[trigger] p.is_prefix_of(all[i]) && #[trigger] p.is_prefix_of(
            all[m],
        ) implies #[trigger] p.is_prefix_of(all[j]) by {
        if i < listed.len() && m >= listed.len() {
            let last = block[m - listed.len()];
            if p.len() > n {
                lemma_prefixes_nest(longer, p, last);
                lemma_prefix_transitive(longer, p, listed[i]);
            }
            lemma_prefix_transitive(prefix, longer, last);
            lemma_prefixes_nest(p, prefix, last);
            if j < listed.len() {
                lemma_prefix_transitive(p, prefix, listed[j]);
            } else {
                lemma_prefix_transitive(prefix, longer, block[j - listed.len()]);
                lemma_prefix_transitive(p, prefix, block[j - listed.len()]);
            }
        }
    }
}

/// Once every child is visited the walk has listed the subtree.
proof fn lemma_lists_done(
    node: TrieNode,
    prefix: Seq<char>,
    visited: Set<u32>,
    listed: Seq<Seq<char>>,
)
    requires
        lists_visited(node, prefix, visited, listed),
        forall|k: u32| #[trigger] node.children@.contains_key(k) ==> visited.contains(k),
    ensures
        lists_subtree(node, prefix, listed),
{
}

} // verus!
