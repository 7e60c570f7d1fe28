use spellchecker::freq::eq_table;
use spellchecker::freq::increment_word;
use spellchecker::freq::count_from_text;
use spellchecker::freq::CountTable;
use spellchecker::render::write_word_frequency;

fn fixture() -> CountTable {
    let mut h = CountTable::new();
    h.insert("two".to_owned(), 2);
    h.insert("three".to_owned(), 3);

    return h;
}

#[test]
fn inserts_if_empty() {
    let mut h = CountTable::new();
    increment_word(&mut h, "one".to_owned());

    assert_eq!(Some(1), h.get("one"));
    assert_eq!(1, h.len());
}

#[test]
fn increments_if_present() {
    let mut under_test = fixture();
    let mut expected = fixture();

    increment_word(&mut under_test, "three".to_owned());
    expected.insert("three".to_owned(), 4);

    assert!(eq_table(&expected, &under_test));
}

#[test]
fn insert_if_absent() {
    let mut under_test = fixture();
    let mut expected = fixture();

    increment_word(&mut under_test, "one".to_owned());
    expected.insert("one".to_owned(), 1);

    assert!(eq_table(&expected, &under_test));
}

#[test]
fn read_five_words() {
    let under_test = count_from_text("two three\n two three three\n");
    let expected = fixture();

    assert!(eq_table(&under_test, &expected));
}

#[test]
fn read_words_uppercase() {
    let under_test = count_from_text("Two  tHree\n TWO THREE three\n");
    let expected = fixture();

    assert!(eq_table(&under_test, &expected));
}

#[test]
fn read_words_n_marks() {
    let under_test = count_from_text("\'one\' two, : \"three\"\n two? three (three)\n");
    let mut expected = fixture();
    expected.insert("one".to_owned(), 1);

    assert!(eq_table(&under_test, &expected));
}

#[test]
fn write_empty_table() {
    let table = CountTable::new();

    assert_eq!(write_word_frequency(&table), "");
}

#[test]
fn write_two_string() {
    let table = fixture();

    assert_eq!(write_word_frequency(&table), "three\t:\t3\ntwo\t:\t2\n");
}

#[test]
fn write_three_string() {
    let mut table = fixture();

    table.insert("one".to_owned(), 1);
    assert_eq!(write_word_frequency(&table), "three\t:\t3\ntwo\t:\t2\none\t:\t1\n");
}
