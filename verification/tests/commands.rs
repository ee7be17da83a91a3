use aurora_tlk_explorer::commands::{
    menu_entry, shortcut, shortcut_state, Chord, ClipboardEvents, Command, MenuEntry, ShortcutState,
};
use aurora_tlk_explorer::model::{Document, DocumentData};
use aurora_tlk_explorer::session::save_all_targets;

const NO_EVENTS: ClipboardEvents = ClipboardEvents { copy: false, cut: false, paste: false };

fn state(text_focused: bool, rows: bool, cells: bool, columns: bool) -> ShortcutState {
    ShortcutState {
        search_open: false,
        text_focused,
        row_selection: rows,
        cell_selection: cells,
        column_selection: columns,
    }
}

#[test]
fn find_dialog_keeps_every_shortcut() {
    let mut st = state(false, true, false, false);
    st.search_open = true;
    let ev = ClipboardEvents { copy: true, cut: true, paste: true };
    assert_eq!(shortcut(st, ev, &[Chord::CtrlZ, Chord::Delete]), None);
}

#[test]
fn clipboard_events_need_a_table_selection() {
    let ev = ClipboardEvents { copy: true, cut: true, paste: true };
    assert_eq!(shortcut(state(false, true, false, false), ev, &[]), Some((Command::Cut, None)));
    assert_eq!(shortcut(state(false, false, true, false), ev, &[]), Some((Command::Copy, None)));
    let paste_only = ClipboardEvents { copy: false, cut: false, paste: true };
    assert_eq!(shortcut(state(false, false, true, false), paste_only, &[]), Some((Command::Paste, None)));
    assert_eq!(shortcut(state(false, false, false, false), ev, &[]), None);
}

#[test]
fn delete_prefers_rows_then_columns() {
    let keys = [Chord::Delete];
    assert_eq!(
        shortcut(state(false, true, false, true), NO_EVENTS, &keys),
        Some((Command::DeleteRows, Some(Chord::Delete)))
    );
    assert_eq!(
        shortcut(state(false, false, true, true), NO_EVENTS, &keys),
        Some((Command::DeleteColumns, Some(Chord::Delete)))
    );
    assert_eq!(shortcut(state(false, false, false, false), NO_EVENTS, &keys), None);
}

#[test]
fn redo_is_checked_before_undo() {
    let keys = [Chord::CtrlZ, Chord::CtrlShiftZ];
    assert_eq!(
        shortcut(state(false, false, false, false), NO_EVENTS, &keys),
        Some((Command::Redo, Some(Chord::CtrlShiftZ)))
    );
    assert_eq!(
        shortcut(state(true, false, false, false), NO_EVENTS, &[Chord::CtrlZ]),
        Some((Command::Undo, Some(Chord::CtrlZ)))
    );
    assert_eq!(
        shortcut(state(true, false, false, false), NO_EVENTS, &[Chord::CtrlN, Chord::CtrlS]),
        Some((Command::Save, Some(Chord::CtrlS)))
    );
}

#[test]
fn focused_text_keeps_clipboard_keys_without_a_selection() {
    let keys = [Chord::CtrlC, Chord::CtrlV, Chord::CtrlX];
    assert_eq!(shortcut(state(true, false, false, false), NO_EVENTS, &keys), None);
    assert_eq!(
        shortcut(state(false, false, false, false), NO_EVENTS, &keys),
        Some((Command::Cut, Some(Chord::CtrlX)))
    );
    assert_eq!(
        shortcut(state(true, false, true, false), NO_EVENTS, &keys),
        Some((Command::Copy, Some(Chord::CtrlC)))
    );
    assert_eq!(
        shortcut(state(true, false, true, false), NO_EVENTS, &[Chord::CtrlV]),
        Some((Command::Paste, Some(Chord::CtrlV)))
    );
}

#[test]
fn shortcut_state_reads_the_active_selection() {
    let none = shortcut_state(None, false, true);
    assert_eq!(none, state(true, false, false, false));
    let mut document = Document::new_twoda();
    if let DocumentData::TwoDa(table) = &mut document.data {
        table.rows = vec![vec!["0".into(), "a".into(), "b".into()]];
    }
    document.selected_rows.insert(0);
    assert_eq!(shortcut_state(Some(&document), false, false), state(false, true, false, false));
    document.selected_column = Some(1);
    document.selected_cells.insert((0, 1));
    assert_eq!(shortcut_state(Some(&document), false, false), state(false, false, true, true));
}

#[test]
fn menus_follow_the_active_document() {
    let mut tlk = Document::new_tlk();
    let twoda = Document::new_twoda();
    let docs = vec![twoda, Document::new_tlk()];
    assert_eq!(menu_entry(Command::Save, &docs, None, false), MenuEntry::Disabled);
    assert_eq!(menu_entry(Command::Save, &docs, Some(7), false), MenuEntry::Enabled);
    assert_eq!(menu_entry(Command::ResizeTable, &docs, Some(7), false), MenuEntry::Hidden);
    assert_eq!(menu_entry(Command::RenumberTwoDa, &docs, Some(0), false), MenuEntry::Enabled);
    assert_eq!(menu_entry(Command::RenumberTwoDa, &docs, Some(1), false), MenuEntry::Hidden);
    assert_eq!(menu_entry(Command::SaveDiff, &docs, Some(1), false), MenuEntry::Enabled);
    assert_eq!(menu_entry(Command::SaveDiff, &docs, Some(0), false), MenuEntry::Hidden);
    assert_eq!(menu_entry(Command::SaveAll, &docs, Some(0), false), MenuEntry::Enabled);
    assert_eq!(menu_entry(Command::Undo, &docs, Some(0), false), MenuEntry::Disabled);
    assert_eq!(menu_entry(Command::Paste, &docs, None, true), MenuEntry::Enabled);
    assert_eq!(menu_entry(Command::DeleteRows, &docs, Some(0), true), MenuEntry::Hidden);
    assert_eq!(menu_entry(Command::Quit, &Vec::new(), None, false), MenuEntry::Enabled);

    let mut clean_twoda = Document::new_twoda();
    clean_twoda.mark_saved();
    let mut clean_tlk = Document::new_tlk();
    clean_tlk.mark_saved();
    let saved = vec![clean_twoda, clean_tlk];
    assert_eq!(menu_entry(Command::SaveAll, &saved, Some(0), false), MenuEntry::Disabled);

    tlk.mark_saved();
    tlk.add_row();
    tlk.selected_row = Some(0);
    let docs = vec![tlk];
    assert_eq!(menu_entry(Command::SaveAll, &docs, None, false), MenuEntry::Enabled);
    assert_eq!(menu_entry(Command::Undo, &docs, Some(0), false), MenuEntry::Enabled);
    assert_eq!(menu_entry(Command::Redo, &docs, Some(0), false), MenuEntry::Disabled);
    assert_eq!(menu_entry(Command::Copy, &docs, Some(0), false), MenuEntry::Enabled);
}

#[test]
fn save_all_writes_only_unsaved_documents() {
    assert_eq!(save_all_targets(&vec![true, false, true, false]), vec![0, 2]);
    assert_eq!(save_all_targets(&vec![false, false]), Vec::<usize>::new());
}

#[test]
fn tab_label_marks_unsaved_documents() {
    let mut document = Document::new_tlk();
    assert_eq!(document.tab_label(None), "* Untitled.tlk");
    document.mark_saved();
    assert_eq!(document.tab_label(Some("dialog.tlk")), "dialog.tlk");
    assert_eq!(Document::new_twoda().title(None), "Untitled.2da");
}

#[test]
fn delete_button_counts_selected_rows() {
    let mut document = Document::new_twoda();
    assert_eq!(document.delete_button(), ("Delete row".to_string(), false));
    document.selected_row = Some(0);
    document.selected_rows.extend([0, 1, 2, 10, 11, 12, 13, 14, 15, 16, 17, 18]);
    assert_eq!(document.delete_button(), ("Delete 12 rows".to_string(), true));
}
