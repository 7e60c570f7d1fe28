use spellchecker::freq::count_from_text;
use spellchecker::freq::CountTable;
use spellchecker::render::write_correct_words;
use spellchecker::render::write_word_frequency;
use spellchecker::search::check_spelling;
use spellchecker::search::correct;
use spellchecker::text::parse_query_words;
use spellchecker::text::train_from_text;
use spellchecker::trie::insert_trie;
use spellchecker::trie::search_trie;
use spellchecker::trie::Trie;

fn get_child<'a>(t: &'a Trie, c: char) -> Option<&'a Trie> {
    for (ch, sub) in &t.children {
        if *ch == c {
            return Some(sub);
        }
    }
    None
}

fn word_count(t: &Trie, word: &str) -> usize {
    let mut node = t;
    for c in word.chars() {
        match get_child(node, c) {
            Some(sub) => node = sub,
            None => return 0,
        }
    }
    node.count
}

/// Exact membership: every inserted word is found exactly, and a query equal
/// to it corrects to itself.
#[test]
fn exact_membership() {
    let mut t = Trie::new();
    for w in ["pear", "peach", "plum", "p"] {
        insert_trie(&mut t, w.to_string());
    }
    for w in ["pear", "peach", "plum", "p"] {
        assert!(search_trie(&t, w.to_string()));
        assert_eq!(Some(w.to_string()), correct(&t, w.to_string(), 2));
        assert_eq!(Some(w.to_string()), correct(&t, w.to_string(), 0));
    }
    assert!(!search_trie(&t, "pea".to_string()));
}

/// Frequency accumulation: inserting the same word n times gives count n.
#[test]
fn frequency_accumulates() {
    let mut t = Trie::new();
    for i in 1..=5 {
        insert_trie(&mut t, "xy".to_string());
        assert_eq!(i, word_count(&t, "xy"));
    }
    assert_eq!(0, word_count(&t, "x"));
}

/// Edit-budget enforcement: nothing farther than the budget is returned.
#[test]
fn no_match_beyond_budget() {
    let mut t = Trie::new();
    insert_trie(&mut t, "banana".to_string());
    assert_eq!(None, correct(&t, "xyz".to_string(), 2));
    assert_eq!(None, correct(&t, "banan".to_string(), 0));
    assert_eq!(Some("banana".to_string()), correct(&t, "banan".to_string(), 1));
}

/// Fewest edits win over frequency; frequency breaks ties on edits.
#[test]
fn fewest_edits_then_frequency() {
    let mut t = Trie::new();
    insert_trie(&mut t, "abc".to_string());
    insert_trie(&mut t, "b".to_string());
    for _ in 0..9 {
        insert_trie(&mut t, "b".to_string());
    }
    // an exact hit beats the much more frequent alternative
    assert_eq!(Some("abc".to_string()), correct(&t, "abc".to_string(), 2));

    let mut u = Trie::new();
    insert_trie(&mut u, "ape".to_string());
    insert_trie(&mut u, "apple".to_string());
    insert_trie(&mut u, "apple".to_string());
    // "aple" is one edit from both; the more frequent word wins
    assert_eq!(Some("apple".to_string()), correct(&u, "aple".to_string(), 2));
}

/// An adjacent transposition costs one edit, not two.
#[test]
fn transposition_is_one_edit() {
    let mut t = Trie::new();
    insert_trie(&mut t, "an".to_string());
    assert_eq!(Some("an".to_string()), correct(&t, "na".to_string(), 1));
}

/// The end-to-end example: train on two corpus lines, correct seven queries.
#[test]
fn end_to_end_example() {
    let t = train_from_text("hello world,\nbye world");
    assert_eq!(1, word_count(&t, "hello"));
    assert_eq!(2, word_count(&t, "world"));
    assert_eq!(1, word_count(&t, "bye"));

    let words = vec![
        "hello".to_string(),
        "hell".to_string(),
        "word".to_string(),
        "wordl".to_string(),
        "wor".to_string(),
        "wo".to_string(),
        "w".to_string(),
    ];
    let out = write_correct_words(words, &t);
    assert_eq!(
        out,
        "hello\nhell, hello\nword, world\nwordl, world\nwor, world\nwo, -\nw, -\n",
    );
}

/// Searching is read-only: the same query always gives the same answer.
#[test]
fn repeated_search_is_stable() {
    let mut t = Trie::new();
    insert_trie(&mut t, "apple".to_string());
    insert_trie(&mut t, "ape".to_string());
    let first = check_spelling(&t, "aple".to_string());
    for _ in 0..10 {
        assert_eq!(first, check_spelling(&t, "aple".to_string()));
    }
    assert_eq!(1, word_count(&t, "apple"));
    assert_eq!(1, word_count(&t, "ape"));
}

/// Counts render in full decimal.
#[test]
fn decimal_rendering() {
    let mut table = CountTable::new();
    table.insert("k".to_owned(), 1234);
    assert_eq!(write_word_frequency(&table), "k\t:\t1234\n");

    let mut small = CountTable::new();
    small.insert("z".to_owned(), 10);
    assert_eq!(write_word_frequency(&small), "z\t:\t10\n");
}

/// A query of the bare dash with no correction still gets the placeholder.
#[test]
fn dash_query_gets_placeholder() {
    let t = Trie::new();
    let out = write_correct_words(vec!["-".to_string()], &t);
    assert_eq!(out, "-, -\n");
}

/// A whitespace-only input line yields an empty query word; a line with
/// nothing at all yields none.
#[test]
fn whitespace_query_line_kept() {
    let words = parse_query_words("  \nx\n\n");
    assert_eq!(words, vec!["".to_string(), "x".to_string()]);
}

/// Tokenization edges: empty text, marks-only tokens, the empty word.
#[test]
fn tokenization_edges() {
    let empty = train_from_text("");
    assert_eq!(0, empty.children.len());
    assert_eq!(0, empty.count);

    let marks = count_from_text("--- ?! (.)\n");
    assert_eq!(0, marks.len());

    let mut t = Trie::new();
    insert_trie(&mut t, "".to_string());
    assert!(search_trie(&t, "".to_string()));
    assert_eq!(1, t.count);

    // an inner mark stays part of the word
    let inner = count_from_text("don't stop\n");
    assert_eq!(Some(1), inner.get("don't"));
    assert_eq!(Some(1), inner.get("stop"));
}
