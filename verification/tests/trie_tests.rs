use spellchecker::text::train_from_text;
use spellchecker::trie::insert_trie;
use spellchecker::trie::search_trie;
use spellchecker::trie::Trie;

fn get_child<'a>(t: &'a Trie, c: char) -> Option<&'a Trie> {
    for (ch, sub) in &t.children {
        if *ch == c {
            return Some(sub);
        }
    }
    None
}

/// The counts of `a` agree with `b` wherever `a` has a node.
fn assert_eq_trie(a: &Trie, b: &Trie) {
    assert_eq!(a.count, b.count);
    for (ch, sub) in &a.children {
        if let Some(cor) = get_child(b, *ch) {
            assert_eq_trie(sub, cor);
        } else {
            assert!(false);
        }
    }
}

fn number_trie() -> Trie {
    let mut t = Trie::new();
    insert_trie(&mut t, "two".to_owned());
    insert_trie(&mut t, "three".to_owned());
    insert_trie(&mut t, "three".to_owned());
    insert_trie(&mut t, "two".to_owned());
    insert_trie(&mut t, "three".to_owned());

    return t;
}

#[test]
fn trie_insert() {
    let mut t = Trie::new();
    insert_trie(&mut t, "a".to_string());
    assert_eq!(1, get_child(&t, 'a').unwrap().count);
    assert_eq!(1, t.children.len());

    insert_trie(&mut t, "an".to_string());
    insert_trie(&mut t, "an".to_string());
    if let Some(c) = get_child(&t, 'a') {
        assert_eq!(2, get_child(c, 'n').unwrap().count);
        assert_eq!(1, c.children.len());
    } else {
        assert!(false);
    }
}

#[test]
fn trie_search() {
    let mut t = Trie::new();
    insert_trie(&mut t, "a".to_string());
    insert_trie(&mut t, "an".to_string());
    insert_trie(&mut t, "apple".to_string());

    assert!(search_trie(&t, "a".to_string()));
    assert!(search_trie(&t, "an".to_string()));
    assert!(search_trie(&t, "apple".to_string()));
    assert!(!search_trie(&t, "app".to_string()));
}

#[test]
fn main_read_five_words() {
    let under_test = train_from_text("two three\n two three three\n");
    let expected = number_trie();
    assert_eq_trie(&under_test, &expected);
}

#[test]
fn main_read_words_uppercase() {
    let under_test = train_from_text("Two  tHree\n TWO THREE three\n");
    let expected = number_trie();

    assert_eq_trie(&under_test, &expected);
}

#[test]
fn main_read_words_n_marks() {
    let under_test = train_from_text("\'one\' two, : \"three\"\n two? three (three)\n");
    let mut expected = number_trie();
    insert_trie(&mut expected, "one".to_owned());

    assert_eq_trie(&under_test, &expected);
}
