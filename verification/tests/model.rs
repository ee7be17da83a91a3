use aurora_tlk_explorer::itp::{ItpFile, JsonValue};
use aurora_tlk_explorer::model::{
    file_kind, Document, DocumentData, EditAction, EditHistory, FileKind, MAX_ACTIONS,
};
use aurora_tlk_explorer::tlk::{TlkEncoding, TlkEntry, TlkFile};
use aurora_tlk_explorer::twoda::{TwoDaFile, TwoDaFormat};

fn tlk_of(document: &Document) -> &TlkFile {
    match &document.data {
        DocumentData::Tlk(tlk) => tlk,
        _ => unreachable!(),
    }
}

fn tlk_of_mut(document: &mut Document) -> &mut TlkFile {
    match &mut document.data {
        DocumentData::Tlk(tlk) => tlk,
        _ => unreachable!(),
    }
}

fn twoda_of(document: &Document) -> &TwoDaFile {
    match &document.data {
        DocumentData::TwoDa(table) => table,
        _ => unreachable!(),
    }
}

#[test]
fn undo_redo_tracks_saved_state() {
    let mut document = Document::new_tlk();
    tlk_of_mut(&mut document)
        .entries
        .push(TlkEntry { text: "original".into(), ..Default::default() });
    document.history = EditHistory::new_saved();
    document.dirty = false;
    let tlk = tlk_of_mut(&mut document);
    let before = tlk.entries[0].clone();
    tlk.entries[0].text = "changed".into();
    let after = tlk.entries[0].clone();
    document.record(EditAction::TlkEntry { row: 0, before: before.clone(), after });
    assert!(document.dirty);
    assert!(document.undo());
    assert_eq!(tlk_of(&document).entries[0], before);
    assert!(!document.dirty);
    assert!(document.redo());
    assert_eq!(tlk_of(&document).entries[0].text, "changed");
}

#[test]
fn undo_history_is_bounded() {
    let mut history = EditHistory::default();
    for row in 0..(MAX_ACTIONS + 25) {
        history.record(EditAction::TlkRows {
            index: row,
            removed: Vec::new(),
            inserted: vec![TlkEntry::default()],
        });
    }
    assert_eq!(history.action_count(), MAX_ACTIONS);
    assert_eq!(history.position(), MAX_ACTIONS);
}

#[test]
fn undo_then_redo_restores_rows() {
    let mut document = Document::new_tlk();
    let inserted = vec![
        TlkEntry { text: "first".into(), ..Default::default() },
        TlkEntry { text: "second".into(), ..Default::default() },
    ];
    tlk_of_mut(&mut document).entries.extend(inserted.iter().cloned());
    document.record(EditAction::TlkRows { index: 0, removed: Vec::new(), inserted });
    assert!(document.undo());
    assert!(tlk_of(&document).entries.is_empty());
    assert!(!document.undo());
    assert!(document.redo());
    assert_eq!(tlk_of(&document).entries.len(), 2);
    assert_eq!(tlk_of(&document).entries[1].text, "second");
    assert!(!document.redo());
}

#[test]
fn undo_on_an_empty_history_changes_nothing() {
    let mut document = Document::new_twoda();
    assert!(!document.undo());
    assert!(!document.redo());
    assert!(document.dirty);
    assert!(!document.history.can_undo());
    assert!(!document.history.can_redo());
}

#[test]
fn edits_to_one_cell_merge_into_one_action() {
    let mut document = Document::new_twoda();
    match &mut document.data {
        DocumentData::TwoDa(table) => {
            table.rows.push(vec!["0".into(), "a".into(), "b".into()]);
            table.rows[0][1] = "abc".into();
        }
        _ => unreachable!(),
    }
    document.record(EditAction::TwoDaCell {
        row: 0,
        column: 1,
        before: "a".into(),
        after: "ab".into(),
    });
    document.record(EditAction::TwoDaCell {
        row: 0,
        column: 1,
        before: "ab".into(),
        after: "abc".into(),
    });
    assert_eq!(document.history.action_count(), 1);
    assert!(document.undo());
    assert_eq!(twoda_of(&document).rows[0][1], "a");
    assert!(document.redo());
    assert_eq!(twoda_of(&document).rows[0][1], "abc");
}

#[test]
fn saving_marks_the_current_position_clean() {
    let mut document = Document::new_tlk();
    assert!(document.dirty);
    document.mark_saved();
    assert!(!document.dirty);
    assert!(document.history.is_clean());
    document.record(EditAction::TlkSettings {
        before: (0, TlkEncoding::Windows1252),
        after: (3, TlkEncoding::Utf8),
    });
    match &mut document.data {
        DocumentData::Tlk(tlk) => {
            tlk.language_id = 3;
            tlk.encoding = TlkEncoding::Utf8;
        }
        _ => unreachable!(),
    }
    assert!(document.dirty);
    assert!(document.undo());
    assert!(!document.dirty);
    assert_eq!(tlk_of(&document).language_id, 0);
    assert_eq!(tlk_of(&document).encoding, TlkEncoding::Windows1252);
}

#[test]
fn documents_report_kind_names_and_titles() {
    let tlk = Document::new_tlk();
    assert_eq!(tlk.kind(), FileKind::Tlk);
    assert_eq!(tlk.kind_name(), "TLK");
    assert_eq!(tlk.default_extension(), "tlk");
    assert_eq!(tlk.title(None), "Untitled.tlk");
    assert_eq!(tlk.title(Some("dialog.tlk")), "dialog.tlk");
    let table = Document::new_twoda();
    assert_eq!(table.kind_name(), "2DA");
    assert_eq!(table.title(None), "Untitled.2da");
    assert_eq!(twoda_of(&table).columns, vec!["Row", "Label", "Value"]);
    assert_eq!(twoda_of(&table).format, TwoDaFormat::Text);
    let itp = Document::open(DocumentData::Itp(ItpFile { root: JsonValue::Null }));
    assert!(!itp.dirty);
    assert_eq!(itp.kind_name(), "ITP");
    assert_eq!(itp.default_extension(), "itp");
    assert_eq!(itp.title(None), "Untitled.itp");
}

#[test]
fn file_kinds_ignore_ascii_case() {
    assert_eq!(file_kind("TLK"), Some(FileKind::Tlk));
    assert_eq!(file_kind("2dA"), Some(FileKind::TwoDa));
    assert_eq!(file_kind("itp"), Some(FileKind::Itp));
    assert_eq!(file_kind("txt"), None);
    assert_eq!(file_kind(""), None);
}

#[test]
fn new_edit_after_undoing_a_saved_edit_is_unsaved() {
    let mut document = Document::new_tlk();
    tlk_of_mut(&mut document).entries.push(TlkEntry { text: "e0".into(), ..Default::default() });
    document.history = EditHistory::new_saved();
    document.dirty = false;
    let e0 = tlk_of(&document).entries[0].clone();
    let e1 = TlkEntry { text: "e1".into(), ..Default::default() };
    tlk_of_mut(&mut document).entries[0] = e1.clone();
    document.record(EditAction::TlkEntry { row: 0, before: e0.clone(), after: e1 });
    document.mark_saved();
    assert!(!document.dirty);
    assert!(document.undo());
    assert!(document.dirty);
    let e2 = TlkEntry { text: "e2".into(), ..Default::default() };
    tlk_of_mut(&mut document).entries[0] = e2.clone();
    document.record(EditAction::TlkEntry { row: 0, before: e0, after: e2 });
    assert!(document.dirty);
    assert!(!document.history.can_redo());
    assert!(!document.history.is_clean());
}

#[test]
fn each_recorded_edit_adds_one_undo() {
    let mut history = EditHistory::new_saved();
    for row in 0..3 {
        history.record(EditAction::TlkRows {
            index: row,
            removed: Vec::new(),
            inserted: vec![TlkEntry::default()],
        });
        assert_eq!(history.position(), row + 1);
        assert!(history.can_undo());
        assert!(!history.can_redo());
        assert!(!history.is_clean());
    }
}
