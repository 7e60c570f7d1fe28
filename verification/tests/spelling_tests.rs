use spellchecker::render::write_correct_words;
use spellchecker::search::check_spelling;
use spellchecker::text::parse_query_words;
use spellchecker::trie::insert_trie;
use spellchecker::trie::Trie;

#[test]
fn find_or_not() {
    let mut t = Trie::new();

    assert_eq!(None, check_spelling(&t, "banana".to_string()));
    assert_eq!(None, check_spelling(&t, "apple".to_string()));

    insert_trie(&mut t, "apple".to_string());
    insert_trie(&mut t, "banana".to_string());

    assert_eq!(Some("banana".to_string()), check_spelling(&t, "banana".to_string()));
    assert_eq!(Some("apple".to_string()), check_spelling(&t, "apple".to_string()));
    assert_eq!(None, check_spelling(&t, "blueberry".to_string()));

    insert_trie(&mut t, "grapes".to_string());
    insert_trie(&mut t, "blueberry".to_string());

    assert_eq!(Some("blueberry".to_string()), check_spelling(&t, "blueberry".to_string()));
    assert_eq!(Some("grapes".to_string()), check_spelling(&t, "grapes".to_string()));
}

#[test]
fn insert_spelling() {
    let mut t = Trie::new();

    insert_trie(&mut t, "an".to_string());
    insert_trie(&mut t, "apple".to_string());
    insert_trie(&mut t, "banana".to_string());
    insert_trie(&mut t, "ban".to_string());
    insert_trie(&mut t, "watermelon".to_string());

    assert_eq!(Some("an".to_string()), check_spelling(&t, "a".to_string()));
    assert_eq!(Some("an".to_string()), check_spelling(&t, "n".to_string()));
    assert_eq!(Some("ban".to_string()), check_spelling(&t, "b".to_string()));
    assert_eq!(Some("watermelon".to_string()), check_spelling(&t, "aterelon".to_string()));
    assert_eq!(Some("banana".to_string()), check_spelling(&t, "anana".to_string()));
    assert_eq!(Some("apple".to_string()), check_spelling(&t, "aple".to_string()));
}

#[test]
fn replace_spelling() {
    let mut t = Trie::new();

    insert_trie(&mut t, "an".to_string());
    insert_trie(&mut t, "apple".to_string());
    insert_trie(&mut t, "banana".to_string());
    insert_trie(&mut t, "ban".to_string());
    insert_trie(&mut t, "watermelon".to_string());

    assert_eq!(Some("an".to_string()), check_spelling(&t, "en".to_string()));
    assert_eq!(Some("apple".to_string()), check_spelling(&t, "abpla".to_string()));
    assert_eq!(Some("ban".to_string()), check_spelling(&t, "ben".to_string()));
    assert_eq!(Some("watermelon".to_string()), check_spelling(&t, "watermalen".to_string()));
}

#[test]
fn delete_spelling() {
    let mut t = Trie::new();

    insert_trie(&mut t, "an".to_string());
    insert_trie(&mut t, "apple".to_string());
    insert_trie(&mut t, "banana".to_string());
    insert_trie(&mut t, "ban".to_string());
    insert_trie(&mut t, "watermelon".to_string());

    assert_eq!(Some("an".to_string()), check_spelling(&t, "and".to_string()));
    assert_eq!(Some("apple".to_string()), check_spelling(&t, "iaiple".to_string()));
    assert_eq!(Some("ban".to_string()), check_spelling(&t, "abano".to_string()));
    assert_eq!(Some("watermelon".to_string()), check_spelling(&t, "watormaelon".to_string()));
}

#[test]
fn transpose_spelling() {
    let mut t = Trie::new();

    insert_trie(&mut t, "an".to_string());
    insert_trie(&mut t, "apple".to_string());
    insert_trie(&mut t, "banana".to_string());
    insert_trie(&mut t, "ban".to_string());
    insert_trie(&mut t, "watermelon".to_string());

    assert_eq!(Some("an".to_string()), check_spelling(&t, "na".to_string()));
    assert_eq!(Some("apple".to_string()), check_spelling(&t, "appel".to_string()));
    assert_eq!(Some("ban".to_string()), check_spelling(&t, "bnae".to_string()));
    assert_eq!(Some("watermelon".to_string()), check_spelling(&t, "watermoeln".to_string()));
}

#[test]
fn correct_base_on_frequency() {
    let mut t = Trie::new();

    insert_trie(&mut t, "an".to_string());
    insert_trie(&mut t, "apple".to_string());
    insert_trie(&mut t, "ape".to_string());
    insert_trie(&mut t, "banana".to_string());
    insert_trie(&mut t, "banny".to_string());

    assert_eq!(Some("ape".to_string()), check_spelling(&t, "aple".to_string()));
    assert_eq!(Some("banny".to_string()), check_spelling(&t, "banna".to_string()));

    insert_trie(&mut t, "apple".to_string());
    insert_trie(&mut t, "banana".to_string());

    assert_eq!(Some("apple".to_string()), check_spelling(&t, "aple".to_string()));
    assert_eq!(Some("banana".to_string()), check_spelling(&t, "banna".to_string()));
}

fn number_trie() -> Trie {
    let mut t = Trie::new();
    insert_trie(&mut t, "two".to_owned());
    insert_trie(&mut t, "three".to_owned());
    insert_trie(&mut t, "three".to_owned());
    insert_trie(&mut t, "two".to_owned());
    insert_trie(&mut t, "three".to_owned());

    return t;
}

fn fruit_trie() -> Trie {
    let mut t = Trie::new();
    insert_trie(&mut t, "apple".to_owned());
    insert_trie(&mut t, "banana".to_owned());
    insert_trie(&mut t, "watermelon".to_owned());
    insert_trie(&mut t, "grapes".to_owned());
    insert_trie(&mut t, "apple".to_owned());

    return t;
}

#[test]
fn main_write_empty_table() {
    let table = Trie::new();

    let out = write_correct_words([].to_vec(), &table);
    assert_eq!(out, "");
}

#[test]
fn correct_two_string() {
    let table = number_trie();
    let words = vec!["thre".to_string(), "to".to_string()];
    let out = write_correct_words(words, &table);
    assert_eq!(out, "thre, three\nto, two\n");
}

#[test]
fn correct_three_string() {
    let table = fruit_trie();
    let words = vec!["app".to_string(), "ban".to_string(), "watrmeoln".to_string()];

    let out = write_correct_words(words, &table);
    assert_eq!(out, "app, apple\nban, -\nwatrmeoln, watermelon\n");
}

#[test]
fn read_three_words() {
    assert_read(
        vec!["One".to_owned(), "Two".to_owned(), "Three".to_owned()],
        "One\nTwo\nThree\n",
    );
}

#[test]
fn read_empty() {
    assert_read(vec![], "\n");
}

fn assert_read(expected: Vec<String>, input: &str) {
    let read_in = parse_query_words(input);
    assert_eq!(expected, read_in);
}
