use prefix_trie::trie::TrieNode;

fn tree_of(terms: &[&str]) -> TrieNode {
    let mut tree = TrieNode::new();
    for term in terms {
        tree.insert(term);
    }
    tree
}

fn sorted(mut terms: Vec<String>) -> Vec<String> {
    terms.sort();
    terms
}

fn strings(terms: &[&str]) -> Vec<String> {
    terms.iter().map(|t| t.to_string()).collect()
}

#[test]
fn new_tree_stores_nothing() {
    let tree = TrieNode::new();
    assert!(!tree.search("a").found);
    assert!(!tree.search("").found);
    assert_eq!(tree.search("abc").path, "");
}

#[test]
fn example_exact_search() {
    let tree = tree_of(&["cat", "car", "cart", "dog"]);
    assert!(tree.search("car").found);
    assert!(tree.search("cat").found);
    assert!(tree.search("cart").found);
    assert!(tree.search("dog").found);
    assert!(!tree.search("ca").found);
}

#[test]
fn example_prefix_search() {
    let tree = tree_of(&["cat", "car", "cart", "dog"]);
    let car = tree.starts_with("car");
    assert!(car.found);
    assert_eq!(sorted(car.terms), strings(&["car", "cart"]));
    let dog = tree.starts_with("do");
    assert!(dog.found);
    assert_eq!(dog.terms, strings(&["dog"]));
    let none = tree.starts_with("z");
    assert!(!none.found);
    assert!(none.terms.is_empty());
}

#[test]
fn inserted_term_and_each_of_its_prefixes_are_found() {
    let mut tree = TrieNode::new();
    tree.insert("hello");
    assert!(tree.search("hello").found);
    for prefix in ["", "h", "he", "hel", "hell", "hello"] {
        let out = tree.starts_with(prefix);
        assert!(out.found, "prefix {:?}", prefix);
        assert_eq!(out.terms, strings(&["hello"]));
    }
}

#[test]
fn terms_never_inserted_are_not_found() {
    let tree = tree_of(&["cat", "car", "cart", "dog"]);
    for term in ["c", "ca", "do", "d", "", "carts", "cab", "dot", "x", "catcar"] {
        assert!(!tree.search(term).found, "term {:?}", term);
    }
}

#[test]
fn search_reports_the_path_it_could_follow() {
    let tree = tree_of(&["cat", "car", "cart", "dog"]);
    let whole = tree.search("cart");
    assert!(whole.found);
    assert_eq!(whole.path, "cart");
    let prefix_only = tree.search("ca");
    assert!(!prefix_only.found);
    assert_eq!(prefix_only.path, "ca");
    let fails_at_third = tree.search("cab");
    assert!(!fails_at_third.found);
    assert_eq!(fails_at_third.path, "ca");
    let fails_at_first = tree.search("xyz");
    assert!(!fails_at_first.found);
    assert_eq!(fails_at_first.path, "");
    let too_long = tree.search("dogs");
    assert!(!too_long.found);
    assert_eq!(too_long.path, "dog");
}

#[test]
fn inserting_twice_changes_nothing() {
    let mut once = TrieNode::new();
    once.insert("car");
    once.insert("cart");
    let mut twice = TrieNode::new();
    twice.insert("car");
    twice.insert("cart");
    twice.insert("car");
    twice.insert("cart");
    for query in ["", "c", "ca", "car", "cart", "carts", "d"] {
        assert_eq!(once.search(query).found, twice.search(query).found);
        assert_eq!(once.search(query).path, twice.search(query).path);
        let a = once.starts_with(query);
        let b = twice.starts_with(query);
        assert_eq!(a.found, b.found);
        assert_eq!(sorted(a.terms), sorted(b.terms));
    }
    assert_eq!(twice.starts_with("").terms.len(), 2);
    assert_eq!(twice.starts_with("car").terms.len(), 2);
}

#[test]
fn enumeration_is_exactly_the_terms_with_the_prefix() {
    let terms = ["a", "ab", "abc", "abd", "b", "ba", "cab", "abcde", "ac"];
    let tree = tree_of(&terms);
    for prefix in ["", "a", "ab", "abc", "abcd", "b", "c", "ca", "cab", "d", "abx"] {
        let expected: Vec<String> =
            sorted(terms.iter().filter(|t| t.starts_with(prefix)).map(|t| t.to_string()).collect());
        let out = tree.starts_with(prefix);
        assert_eq!(sorted(out.terms), expected, "prefix {:?}", prefix);
    }
}

#[test]
fn enumeration_is_depth_first() {
    let terms = ["a", "ab", "abc", "abd", "b", "ba", "cab", "abcde", "ac", "bab", "baa"];
    let tree = tree_of(&terms);
    let listed = tree.starts_with("").terms;
    assert_eq!(listed.len(), terms.len());
    for i in 0..listed.len() {
        for j in 0..listed.len() {
            if listed[j].starts_with(listed[i].as_str()) {
                assert!(i <= j, "{:?} listed after {:?}", listed[i], listed[j]);
            }
        }
    }
    for beginning in ["a", "ab", "abc", "b", "ba", "c"] {
        let places: Vec<usize> =
            (0..listed.len()).filter(|i| listed[*i].starts_with(beginning)).collect();
        assert_eq!(places.last().unwrap() - places[0] + 1, places.len());
    }
}

#[test]
fn prefix_search_on_empty_tree() {
    let tree = TrieNode::new();
    let out = tree.starts_with("a");
    assert!(!out.found);
    assert!(out.terms.is_empty());
    let root = tree.starts_with("");
    assert!(root.found);
    assert!(root.terms.is_empty());
}

#[test]
fn prefix_that_is_a_path_but_no_term() {
    let tree = tree_of(&["cart"]);
    let out = tree.starts_with("ca");
    assert!(out.found);
    assert_eq!(out.terms, strings(&["cart"]));
    let past = tree.starts_with("carts");
    assert!(!past.found);
    assert!(past.terms.is_empty());
}

#[test]
fn terms_beyond_ascii() {
    let tree = tree_of(&["ação", "açaí", "日本語", "日本", "\u{10FFFF}x", "\u{D7FF}\u{E000}"]);
    assert!(tree.search("ação").found);
    assert!(tree.search("日本").found);
    assert!(!tree.search("日").found);
    assert_eq!(tree.search("日本人").path, "日本");
    assert_eq!(sorted(tree.starts_with("aç").terms), strings(&["açaí", "ação"]));
    assert_eq!(sorted(tree.starts_with("日").terms), strings(&["日本", "日本語"]));
    assert_eq!(tree.starts_with("\u{10FFFF}").terms, strings(&["\u{10FFFF}x"]));
    assert_eq!(tree.starts_with("\u{D7FF}").terms, strings(&["\u{D7FF}\u{E000}"]));
    assert_eq!(tree.starts_with("").terms.len(), 6);
}

#[test]
fn empty_term_marks_the_root() {
    let mut tree = TrieNode::new();
    tree.insert("");
    assert!(tree.search("").found);
    assert_eq!(tree.starts_with("").terms, strings(&[""]));
    assert!(!tree.search("a").found);
}

#[test]
fn insert_line_strips_whitespace_and_skips_empty_lines() {
    let mut tree = TrieNode::new();
    assert!(tree.insert_line("a b c"));
    assert!(!tree.insert_line(""));
    assert!(!tree.insert_line("  \t "));
    assert!(tree.insert_line("  d e\t"));
    assert!(tree.search("abc").found);
    assert!(tree.search("de").found);
    assert!(!tree.search("").found);
    assert!(!tree.search("a b c").found);
    assert_eq!(sorted(tree.starts_with("").terms), strings(&["abc", "de"]));
}

#[test]
fn insert_lines_loads_every_term() {
    let lines = strings(&["c a t", "", "car", "   ", "c a r t", "dog", "car"]);
    let mut tree = TrieNode::new();
    tree.insert_lines(&lines);
    assert_eq!(sorted(tree.starts_with("").terms), strings(&["car", "cart", "cat", "dog"]));
    tree.insert_lines(&strings(&["e m u"]));
    assert_eq!(sorted(tree.starts_with("").terms), strings(&["car", "cart", "cat", "dog", "emu"]));
}

#[test]
fn long_query_on_loaded_tree() {
    let lines = strings(&["h g h h c d d f b b h c d b h a c a b", "f g h d a b c", "f g h d a"]);
    let mut tree = TrieNode::new();
    tree.insert_lines(&lines);
    let out = tree.search("hghhcddfbbhcdbhacab");
    assert!(out.found);
    assert_eq!(out.path.chars().count(), 19);
    assert_eq!(sorted(tree.starts_with("fghda").terms), strings(&["fghda", "fghdabc"]));
}

#[test]
fn matched_counts_the_characters_of_the_path() {
    let tree = tree_of(&["cat", "car", "cart", "dog", "日本"]);
    assert_eq!(tree.search("cart").matched(), 4);
    assert_eq!(tree.search("cab").matched(), 2);
    assert_eq!(tree.search("xyz").matched(), 0);
    assert_eq!(tree.search("").matched(), 0);
    assert_eq!(tree.search("日本語").matched(), 2);
}

#[test]
fn default_tree_stores_nothing() {
    let tree = TrieNode::default();
    assert!(!tree.search("a").found);
    assert!(tree.starts_with("").terms.is_empty());
}
