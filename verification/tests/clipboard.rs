use aurora_tlk_explorer::clipboard::{copy_selection, ClipboardRows, PasteOutcome};
use aurora_tlk_explorer::cliptext::{
    clipboard_text, escape_text, external_clipboard, join_with, lines_of, parse_tlk_clipboard,
    parse_twoda_clipboard, split_all, split_fields, split_words, unescape_text,
};
use aurora_tlk_explorer::model::{Document, DocumentData};
use aurora_tlk_explorer::tlk::{TlkEntry, TlkFile};
use aurora_tlk_explorer::twoda::TwoDaFile;
use std::collections::BTreeSet;

fn strings(values: &[&str]) -> Vec<String> {
    values.iter().map(|v| v.to_string()).collect()
}

fn table(document: &Document) -> &TwoDaFile {
    match &document.data {
        DocumentData::TwoDa(table) => table,
        _ => unreachable!(),
    }
}

fn table_mut(document: &mut Document) -> &mut TwoDaFile {
    match &mut document.data {
        DocumentData::TwoDa(table) => table,
        _ => unreachable!(),
    }
}

fn tlk(document: &Document) -> &TlkFile {
    match &document.data {
        DocumentData::Tlk(tlk) => tlk,
        _ => unreachable!(),
    }
}

fn tlk_mut(document: &mut Document) -> &mut TlkFile {
    match &mut document.data {
        DocumentData::Tlk(tlk) => tlk,
        _ => unreachable!(),
    }
}

#[test]
fn copied_entries_are_written_as_tab_separated_lines() {
    let entry = TlkEntry {
        flags: 7,
        sound_resref: "vo_1".into(),
        text: "a\tb\nc".into(),
        ..Default::default()
    };
    let clip = ClipboardRows::Tlk(vec![(3, entry.clone()), (10, TlkEntry::default())]);
    let text = clipboard_text(&clip, false, false, &strings(&["1.5", "0"]));
    assert_eq!(text, "3\t7\tvo_1\t1.5\ta\\tb\\nc\n10\t0\t\t0\t");
    let hex = clipboard_text(&ClipboardRows::Tlk(vec![(3, entry)]), true, true, &strings(&["2"]));
    assert!(hex.starts_with("0x1000003\t7\t"));
}

#[test]
fn copied_rows_and_values_are_written_with_tabs() {
    let rows = ClipboardRows::TwoDa(vec![strings(&["0", "a"]), strings(&["1", "b"])]);
    assert_eq!(clipboard_text(&rows, false, false, &Vec::new()), "0\ta\n1\tb");
    let cells = ClipboardRows::TwoDaCells(vec![(1, "x".into()), (2, "y".into())]);
    assert_eq!(clipboard_text(&cells, false, false, &Vec::new()), "x\ty");
}

#[test]
fn talk_table_text_is_read_back_as_entries() {
    let text = "12\t5\tres\t2.5\thello\\nworld\n\nplain line\r\n9\tx\tr\t1\tt";
    let parsed = parse_tlk_clipboard(text);
    assert_eq!(parsed.len(), 3);
    assert_eq!(parsed[0].0, 0);
    assert_eq!(parsed[0].1.flags, 5);
    assert_eq!(parsed[0].1.sound_resref, "res");
    assert_eq!(parsed[0].1.text, "hello\nworld");
    assert_eq!(parsed[0].2, Some("2.5".to_string()));
    assert_eq!(parsed[1].0, 1);
    assert_eq!(parsed[1].1.flags, 1);
    assert_eq!(parsed[1].1.text, "plain line");
    assert_eq!(parsed[1].2, None);
    assert_eq!(parsed[2].1.flags, 1);
    assert_eq!(parsed[2].1.text, "t");
}

#[test]
fn table_text_is_read_back_as_rows() {
    let rows = parse_twoda_clipboard("0\ta\t\n   \n1 b  c\n");
    assert_eq!(rows, vec![strings(&["0", "a", ""]), strings(&["1", "b", "c"])]);
}

#[test]
fn text_helpers_follow_the_standard_library() {
    assert_eq!(lines_of("a\r\nb\n"), strings(&["a", "b"]));
    assert_eq!(lines_of("x\r"), strings(&["x\r"]));
    assert_eq!(lines_of("\n"), strings(&[""]));
    assert!(lines_of("").is_empty());
    assert_eq!(split_fields("a\tb\tc", 2, '\t'), strings(&["a", "b\tc"]));
    assert_eq!(split_all("a\t\tb", '\t'), strings(&["a", "", "b"]));
    assert_eq!(split_words("  a  bc "), strings(&["a", "bc"]));
    assert_eq!(join_with(&strings(&["a", "b", "c"]), ','), "a,b,c");
    assert_eq!(escape_text("x\ty\n"), "x\\ty\\n");
    assert_eq!(unescape_text("x\\ty\\n"), "x\ty\n");
}

#[test]
fn only_new_system_clipboard_text_is_pasted() {
    assert_eq!(external_clipboard(Some("a".into()), &Some("a".into())), None);
    assert_eq!(external_clipboard(Some("b".into()), &Some("a".into())), Some("b".into()));
    assert_eq!(external_clipboard(Some("b".into()), &None), Some("b".into()));
    assert_eq!(external_clipboard(None, &Some("a".into())), None);
}

#[test]
fn pasted_entries_are_inserted_marked_and_selected() {
    let mut document = Document::new_tlk();
    tlk_mut(&mut document).entries = vec![TlkEntry::default(), TlkEntry::default()];
    document.tlk_modified.insert(1);
    document.selected_row = Some(0);
    document.selected_rows.insert(0);
    let entry = TlkEntry { text: "new".into(), flags: 1, ..Default::default() };
    let clip = ClipboardRows::Tlk(vec![(0, entry.clone()), (1, entry.clone())]);
    assert!(document.can_paste(&clip, false));
    assert_eq!(document.paste(clip, false, false), PasteOutcome::Rows(2));
    assert_eq!(tlk(&document).entries.len(), 4);
    assert_eq!(tlk(&document).entries[1], entry);
    assert_eq!(document.tlk_modified, BTreeSet::from([1, 2, 3]));
    assert_eq!(document.selected_row, Some(1));
    assert!(document.undo());
    assert_eq!(tlk(&document).entries.len(), 2);
}

#[test]
fn pasted_rows_are_fitted_to_the_columns() {
    let mut document = Document::new_twoda();
    let clip = ClipboardRows::TwoDa(vec![strings(&["5"]), strings(&["6", "a", "b", "extra"])]);
    assert_eq!(document.paste(clip, false, false), PasteOutcome::Rows(2));
    assert_eq!(table(&document).rows, vec![strings(&["5", "****", "****"]), strings(&["6", "a", "b"])]);
}

#[test]
fn pasted_entry_gives_its_string_reference_to_the_current_cell() {
    let mut document = Document::new_twoda();
    table_mut(&mut document).rows = vec![strings(&["0", "a", "b"]), strings(&["1", "c", "d"])];
    document.selected_row = Some(0);
    document.selected_column = Some(2);
    let clip = ClipboardRows::Tlk(vec![(5, TlkEntry::default())]);
    assert!(document.can_paste(&clip, true));
    assert_eq!(document.paste(clip, true, false), PasteOutcome::Rows(1));
    assert_eq!(table(&document).rows[0][2], "16777221");
    assert_eq!(document.selected_row, Some(1));
}

#[test]
fn pasting_past_the_end_is_refused_beforehand() {
    let mut document = Document::new_twoda();
    document.selected_row = Some(3);
    let clip = ClipboardRows::TwoDa(vec![strings(&["0"])]);
    assert!(!document.can_paste(&clip, false));
}

#[test]
fn copying_nothing_gives_nothing() {
    let document = Document::new_tlk();
    assert!(copy_selection(&document).is_none());
}

#[test]
fn copied_rows_read_back_from_their_text() {
    let rows = vec![strings(&["0", "a b", "****"]), strings(&["1", "x", "y"]), strings(&["solo"])];
    let text = clipboard_text(&ClipboardRows::TwoDa(rows.clone()), false, false, &Vec::new());
    assert_eq!(parse_twoda_clipboard(&text), rows);
}

#[test]
fn copied_entries_read_back_from_their_text() {
    let first = TlkEntry { flags: 7, sound_resref: "vo_1".into(), text: "two\nlines\tand tabs".into(), ..Default::default() };
    let second = TlkEntry { flags: 0, text: "plain".into(), ..Default::default() };
    let lengths = strings(&["1.5", "0"]);
    let text = clipboard_text(&ClipboardRows::Tlk(vec![(4, first.clone()), (9, second.clone())]), true, true, &lengths);
    let back = parse_tlk_clipboard(&text);
    assert_eq!(back.len(), 2);
    assert_eq!((back[0].0, back[0].1.flags, back[0].1.sound_resref.as_str(), back[0].1.text.as_str()), (0, 7, "vo_1", first.text.as_str()));
    assert_eq!(back[0].2, Some("1.5".to_string()));
    assert_eq!((back[1].0, back[1].1.flags, back[1].1.text.as_str()), (1, 0, "plain"));
}
