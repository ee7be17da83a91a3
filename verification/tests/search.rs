use aurora_tlk_explorer::model::{Document, DocumentData};
use aurora_tlk_explorer::search::{
    contains_text, numeric_strref, replace_text, search_needle, visible_rows, FindOutcome,
};
use aurora_tlk_explorer::tlk::{TlkEntry, TlkFile};
use aurora_tlk_explorer::twoda::TwoDaFile;

fn entry(text: &str) -> TlkEntry {
    TlkEntry { text: text.into(), flags: 1, ..Default::default() }
}

fn talk_table(texts: &[&str]) -> Document {
    let mut document = Document::new_tlk();
    match &mut document.data {
        DocumentData::Tlk(tlk) => tlk.entries = texts.iter().map(|t| entry(t)).collect(),
        _ => unreachable!(),
    }
    document
}

fn tlk(document: &Document) -> &TlkFile {
    match &document.data {
        DocumentData::Tlk(tlk) => tlk,
        _ => unreachable!(),
    }
}

fn table(document: &Document) -> &TwoDaFile {
    match &document.data {
        DocumentData::TwoDa(table) => table,
        _ => unreachable!(),
    }
}

fn strings(values: &[&str]) -> Vec<String> {
    values.iter().map(|v| v.to_string()).collect()
}

#[test]
fn text_search_helpers() {
    assert!(contains_text("hello", "ell"));
    assert!(contains_text("a", ""));
    assert!(!contains_text("ab", "abc"));
    assert_eq!(replace_text("aaa", "aa", "b"), "ba");
    assert_eq!(replace_text("a-b-c", "-", "+"), "a+b+c");
    assert_eq!(search_needle("  FoO "), "foo");
    assert_eq!(numeric_strref("0x1f"), Some(31));
    assert_eq!(numeric_strref("42"), Some(42));
    assert_eq!(numeric_strref("x"), None);
}

#[test]
fn finding_moves_to_the_next_matching_row() {
    let mut document = talk_table(&["Alpha", "beta", "Gamma"]);
    document.find_query = "GAM".into();
    assert_eq!(document.find_match(false, false, false), FindOutcome::Found(2));
    assert_eq!(document.selected_row, Some(2));
    document.find_query = "a".into();
    assert_eq!(document.find_match(true, false, false), FindOutcome::Found(1));
    assert_eq!(document.find_match(false, false, false), FindOutcome::Found(2));
    assert_eq!(document.find_match(false, false, false), FindOutcome::Found(0));
}

#[test]
fn finding_by_string_reference() {
    let mut document = talk_table(&["x", "y", "z"]);
    document.find_query = "1".into();
    assert_eq!(document.find_match(false, false, false), FindOutcome::Found(1));
    document.find_query = "0x2".into();
    assert_eq!(document.find_match(false, false, true), FindOutcome::Found(2));
}

#[test]
fn finding_reports_why_nothing_was_found() {
    let mut document = talk_table(&["x"]);
    assert_eq!(document.find_match(false, false, false), FindOutcome::NeedQuery);
    document.find_query = "nothing".into();
    assert_eq!(document.find_match(false, false, false), FindOutcome::NotFound);
    assert_eq!(document.selected_row, None);
    let mut empty = talk_table(&[]);
    empty.find_query = "x".into();
    assert_eq!(empty.find_match(false, false, false), FindOutcome::NoRows);
}

#[test]
fn replacing_in_the_current_entry_marks_it() {
    let mut document = talk_table(&["hello world", "world"]);
    document.find_query = "world".into();
    document.replace = "there".into();
    document.selected_row = Some(0);
    assert!(document.replace_selected_match());
    assert_eq!(tlk(&document).entries[0].text, "hello there");
    assert_eq!(tlk(&document).entries[1].text, "world");
    assert!(document.tlk_modified.contains(&0));
    assert!(!document.replace_selected_match());
    assert!(document.undo());
    assert_eq!(tlk(&document).entries[0].text, "hello world");
}

#[test]
fn replacing_everywhere_records_each_change() {
    let mut document = Document::new_twoda();
    match &mut document.data {
        DocumentData::TwoDa(t) => t.rows = vec![strings(&["0", "aXa", "X"]), strings(&["1", "b", "c"])],
        _ => unreachable!(),
    }
    document.find_query = "X".into();
    assert_eq!(document.replace_all_matches(), Some(2));
    assert_eq!(table(&document).rows[0], strings(&["0", "aa", ""]));
    assert!(document.undo());
    assert_eq!(table(&document).rows[0], strings(&["0", "aa", "X"]));
    let mut entries = talk_table(&["cat", "dog", "cat food"]);
    entries.find_query = "cat".into();
    entries.replace = "".into();
    assert_eq!(entries.replace_all_matches(), Some(2));
    assert_eq!(tlk(&entries).entries[0].text, "");
    assert_eq!(tlk(&entries).entries[0].flags, 0);
    assert_eq!(tlk(&entries).entries[2].text, " food");
    assert!(entries.tlk_modified.contains(&0) && entries.tlk_modified.contains(&2));
    entries.find_query = String::new();
    assert_eq!(entries.replace_all_matches(), None);
}

#[test]
fn the_filter_shows_matching_rows() {
    let mut document = talk_table(&["Alpha", "beta", "Gamma"]);
    assert_eq!(visible_rows(&document, false, false), None);
    document.search = "MA".into();
    assert_eq!(visible_rows(&document, false, false), Some(vec![2]));
    document.search = "1".into();
    assert_eq!(visible_rows(&document, false, false), Some(vec![1]));
    let mut rows = Document::new_twoda();
    match &mut rows.data {
        DocumentData::TwoDa(t) => t.rows = vec![strings(&["0", "Sword"]), strings(&["1", "shield"])],
        _ => unreachable!(),
    }
    rows.search = "s".into();
    assert_eq!(visible_rows(&rows, false, false), Some(vec![0, 1]));
    rows.search = "wor".into();
    assert_eq!(visible_rows(&rows, false, false), Some(vec![0]));
}

#[test]
fn an_entry_whose_sound_length_is_not_a_number_always_counts_as_changed() {
    let mut document = talk_table(&["same"]);
    match &mut document.data {
        DocumentData::Tlk(tlk) => tlk.entries[0].sound_length_bits = f32::NAN.to_bits(),
        _ => unreachable!(),
    }
    document.find_query = "absent".into();
    document.selected_row = Some(0);
    assert!(document.replace_selected_match());
    assert!(document.tlk_modified.contains(&0));
    assert_eq!(document.replace_all_matches(), Some(1));
}
