use aurora_tlk_explorer::clipboard::{copy_selection, PasteOutcome};
use aurora_tlk_explorer::editing::{
    displayed_strref, fully_selected_twoda_columns, new_row, tlk_rows_deleted, tlk_rows_inserted,
    ColumnAction, ColumnError, RowMenuAction,
};
use aurora_tlk_explorer::model::{Document, DocumentData};
use aurora_tlk_explorer::selection::{
    keyboard_target, scroll_target, selected_rows, table_window, update_cell_selection, update_row_selection,
};
use aurora_tlk_explorer::tlk::{TlkEntry, TlkFile};
use aurora_tlk_explorer::twoda::TwoDaFile;
use std::collections::BTreeSet;

fn table_mut(document: &mut Document) -> &mut TwoDaFile {
    match &mut document.data {
        DocumentData::TwoDa(table) => table,
        _ => unreachable!(),
    }
}

fn table(document: &Document) -> &TwoDaFile {
    match &document.data {
        DocumentData::TwoDa(table) => table,
        _ => unreachable!(),
    }
}

fn tlk(document: &Document) -> &TlkFile {
    match &document.data {
        DocumentData::Tlk(tlk) => tlk,
        _ => unreachable!(),
    }
}

fn tlk_mut(document: &mut Document) -> &mut TlkFile {
    match &mut document.data {
        DocumentData::Tlk(tlk) => tlk,
        _ => unreachable!(),
    }
}

fn row(values: &[&str]) -> Vec<String> {
    values.iter().map(|v| v.to_string()).collect()
}

#[test]
fn deleting_fully_selected_twoda_columns_is_one_undoable_edit() {
    let mut document = Document::new_twoda();
    table_mut(&mut document).rows = vec![row(&["0", "a", "b"]), row(&["1", "c", "d"])];
    document.selected_cells.extend([(0, 1), (1, 1)]);
    let columns = fully_selected_twoda_columns(&document);
    assert_eq!(columns, vec![1]);
    assert_eq!(document.delete_twoda_columns(columns), 1);
    assert_eq!(table(&document).columns, ["Row", "Value"]);
    document.undo();
    assert_eq!(table(&document).columns, ["Row", "Label", "Value"]);
}

#[test]
fn plain_row_click_replaces_selection_but_modifiers_preserve_multi_select() {
    let mut selected_row = None;
    let mut selected_rows = BTreeSet::new();
    let mut anchor = None;
    let mut column = None;

    update_row_selection(&mut selected_row, &mut selected_rows, &mut anchor, &mut column, 4, None, false, false);
    update_row_selection(&mut selected_row, &mut selected_rows, &mut anchor, &mut column, 7, None, false, true);
    assert_eq!(selected_rows, BTreeSet::from([4, 7]));

    update_row_selection(&mut selected_row, &mut selected_rows, &mut anchor, &mut column, 9, None, false, false);
    assert_eq!(selected_rows, BTreeSet::from([9]));
    assert_eq!(selected_row, Some(9));
}

#[test]
fn copied_index_selection_pastes_duplicate_below() {
    let mut document = Document::new_twoda();
    let t = table_mut(&mut document);
    t.columns = row(&["Row", "Label"]);
    t.rows = vec![row(&["0", "first"]), row(&["1", "second"])];
    document.selected_row = Some(0);
    document.selected_rows.insert(0);
    document.selection_anchor = Some(0);
    document.selected_column = None;

    let clip = copy_selection(&document).expect("a row is selected");
    assert!(document.can_paste(&clip, false));
    document.paste(clip, false, false);

    assert_eq!(
        table(&document).rows,
        vec![row(&["0", "first"]), row(&["0", "first"]), row(&["1", "second"])]
    );
    assert_eq!(document.selected_row, Some(1));
}

#[test]
fn copied_fields_fill_same_columns_on_selected_destination_row() {
    let mut document = Document::new_twoda();
    let t = table_mut(&mut document);
    t.columns = row(&["Row", "Label", "Value"]);
    t.rows = vec![row(&["0", "source", "42"]), row(&["1", "destination", "0"])];
    document.selected_row = Some(0);
    document.selected_column = Some(2);
    document.selected_cells.extend([(0, 1), (0, 2)]);

    let clip = copy_selection(&document).expect("fields are selected");
    document.selected_cells.clear();
    document.selected_column = None;
    document.selected_row = Some(1);
    document.selected_rows.insert(1);
    assert!(document.can_paste(&clip, false));
    document.paste(clip, false, false);

    assert_eq!(table(&document).rows[1], row(&["1", "source", "42"]));
    assert_eq!(document.selected_cells, BTreeSet::from([(1, 1), (1, 2)]));
}

#[test]
fn delete_removes_all_selected_rows_as_one_undoable_edit() {
    let mut document = Document::new_twoda();
    let t = table_mut(&mut document);
    t.columns = row(&["Row", "Label"]);
    t.rows = vec![row(&["0", "first"]), row(&["1", "second"]), row(&["2", "third"])];
    document.selected_row = Some(2);
    document.selected_rows.extend([0, 2]);
    document.selection_anchor = Some(0);
    document.selected_column = None;

    assert_eq!(document.delete_document_rows(), 2);
    assert_eq!(table(&document).rows, vec![row(&["1", "second"])]);

    document.undo();
    assert_eq!(
        table(&document).rows,
        vec![row(&["0", "first"]), row(&["1", "second"]), row(&["2", "third"])]
    );
}

#[test]
fn shift_click_selects_the_span_from_the_anchor() {
    let mut selected_row = Some(2);
    let mut selected_rows = BTreeSet::from([2]);
    let mut anchor = Some(2);
    let mut column = None;
    update_row_selection(&mut selected_row, &mut selected_rows, &mut anchor, &mut column, 5, Some(1), true, false);
    assert_eq!(selected_rows, BTreeSet::from([2, 3, 4, 5]));
    assert_eq!(selected_row, Some(5));
    assert_eq!(anchor, Some(2));
    assert_eq!(column, Some(1));
}

#[test]
fn toggling_the_current_row_off_moves_to_the_last_selected() {
    let mut selected_row = Some(7);
    let mut selected_rows = BTreeSet::from([3, 7]);
    let mut anchor = Some(3);
    let mut column = None;
    update_row_selection(&mut selected_row, &mut selected_rows, &mut anchor, &mut column, 7, None, false, true);
    assert_eq!(selected_rows, BTreeSet::from([3]));
    assert_eq!(selected_row, Some(3));
    assert_eq!(anchor, Some(7));
}

#[test]
fn shift_click_on_cells_selects_a_rectangle() {
    let mut cells = BTreeSet::new();
    let mut anchor = None;
    update_cell_selection(&mut cells, &mut anchor, 1, 1, false, false);
    update_cell_selection(&mut cells, &mut anchor, 2, 3, true, false);
    assert_eq!(cells, BTreeSet::from([(1, 1), (1, 2), (1, 3), (2, 1), (2, 2), (2, 3)]));
    update_cell_selection(&mut cells, &mut anchor, 1, 2, false, true);
    assert!(!cells.contains(&(1, 2)));
    assert_eq!(anchor, Some((1, 2)));
}

#[test]
fn keyboard_moves_within_the_visible_rows() {
    let rows = [2, 5, 9];
    assert_eq!(keyboard_target(&rows, Some(5), true), 9);
    assert_eq!(keyboard_target(&rows, Some(5), false), 2);
    assert_eq!(keyboard_target(&rows, Some(9), true), 9);
    assert_eq!(keyboard_target(&rows, None, true), 5);
    assert_eq!(keyboard_target(&rows, None, false), 2);
}

#[test]
fn chosen_rows_fall_back_to_the_current_row() {
    let mut document = Document::new_twoda();
    document.selected_row = Some(1);
    assert_eq!(selected_rows(&document, 3), vec![1]);
    document.selected_rows.extend([2, 0, 7]);
    assert_eq!(selected_rows(&document, 3), vec![0, 2]);
}

#[test]
fn marks_follow_inserted_and_deleted_rows() {
    let mut marks = BTreeSet::from([1, 4]);
    tlk_rows_inserted(&mut marks, 2, 2);
    assert_eq!(marks, BTreeSet::from([1, 2, 3, 6]));
    tlk_rows_deleted(&mut marks, 1, 2);
    assert_eq!(marks, BTreeSet::from([1, 4]));
    let mut again = BTreeSet::from([0, 5, 9]);
    tlk_rows_inserted(&mut again, 5, 3);
    tlk_rows_deleted(&mut again, 5, 3);
    assert_eq!(again, BTreeSet::from([0, 5, 9]));
}

#[test]
fn string_references_are_shown_in_decimal_or_hex() {
    assert_eq!(displayed_strref(42, false, false), "42");
    assert_eq!(displayed_strref(42, true, false), "16777258");
    assert_eq!(displayed_strref(255, false, true), "0xff");
    assert_eq!(displayed_strref(1, true, true), "0x1000001");
}

#[test]
fn new_rows_are_labelled_and_empty() {
    assert_eq!(new_row(3, 12), row(&["12", "****", "****"]));
    assert!(new_row(0, 5).is_empty());
}

#[test]
fn row_menu_inserts_above_and_below() {
    let mut document = Document::new_twoda();
    table_mut(&mut document).rows = vec![row(&["0", "a", "b"])];
    document.apply_row_menu_action(RowMenuAction::InsertBelow(0));
    assert_eq!(table(&document).rows[1], row(&["1", "****", "****"]));
    assert_eq!(document.selected_row, Some(1));
    document.apply_row_menu_action(RowMenuAction::InsertAbove(0));
    assert_eq!(table(&document).rows[0], row(&["0", "****", "****"]));
    assert_eq!(table(&document).rows.len(), 3);
    assert!(document.undo());
    assert_eq!(table(&document).rows.len(), 2);
}

#[test]
fn adding_a_talk_table_row_marks_it() {
    let mut document = Document::new_tlk();
    tlk_mut(&mut document).entries = vec![TlkEntry::default(), TlkEntry::default()];
    document.tlk_modified.insert(1);
    document.selected_row = Some(0);
    document.add_row();
    assert_eq!(tlk(&document).entries.len(), 3);
    assert_eq!(document.tlk_modified, BTreeSet::from([1, 2]));
    assert_eq!(document.selected_row, Some(1));
}

#[test]
fn resizing_pads_and_truncates_as_one_edit() {
    let mut document = Document::new_twoda();
    table_mut(&mut document).rows = vec![row(&["0", "a", "b"])];
    document.resize(3);
    assert_eq!(table(&document).rows.len(), 3);
    assert_eq!(table(&document).rows[2], row(&["2", "****", "****"]));
    document.resize(1);
    assert_eq!(table(&document).rows, vec![row(&["0", "a", "b"])]);
    assert!(document.undo());
    assert_eq!(table(&document).rows.len(), 3);
}

#[test]
fn renumbering_rewrites_the_row_labels() {
    let mut document = Document::new_twoda();
    table_mut(&mut document).rows = vec![row(&["7", "a", "b"]), row(&["9", "c", "d"])];
    document.renumber_twoda(false);
    assert_eq!(table(&document).rows[0][0], "0");
    assert_eq!(table(&document).rows[1][0], "1");
    table_mut(&mut document).rows[1][0] = "!keep".into();
    document.renumber_twoda(true);
    assert_eq!(table(&document).rows[1][0], "!keep");
    document.renumber_twoda(false);
    assert_eq!(table(&document).rows[1][0], "1");
}

#[test]
fn columns_are_inserted_renamed_and_dropped() {
    let mut document = Document::new_twoda();
    table_mut(&mut document).rows = vec![row(&["0", "a", "b"])];
    assert_eq!(document.alter_column(ColumnAction::Insert, 2, "Cost", "5"), Some(Ok(())));
    assert_eq!(table(&document).columns, ["Row", "Label", "Cost", "Value"]);
    assert_eq!(table(&document).rows[0], row(&["0", "a", "5", "b"]));
    assert_eq!(document.alter_column(ColumnAction::Rename, 2, "Price", ""), Some(Ok(())));
    assert_eq!(table(&document).columns[2], "Price");
    assert_eq!(document.alter_column(ColumnAction::Insert, 9, "X", ""), Some(Err(ColumnError::OutsideTable)));
    assert_eq!(document.alter_column(ColumnAction::Insert, 1, "bad name", ""), Some(Err(ColumnError::BadName)));
    assert_eq!(document.alter_column(ColumnAction::Drop, 2, "", ""), Some(Ok(())));
    assert_eq!(table(&document).columns, ["Row", "Label", "Value"]);
    assert_eq!(document.alter_column(ColumnAction::Drop, 7, "", ""), Some(Err(ColumnError::CannotRemove)));
    table_mut(&mut document).columns = row(&["Row"]);
    assert_eq!(document.alter_column(ColumnAction::Drop, 0, "", ""), Some(Err(ColumnError::CannotRemove)));
}

#[test]
fn column_errors_have_messages() {
    assert!(!ColumnError::BadName.message().is_empty());
    assert!(!ColumnError::OutsideTable.message().is_empty());
    assert!(!ColumnError::CannotRemove.message().is_empty());
}

#[test]
fn user_flag_toggles_in_the_current_cell() {
    let mut document = Document::new_twoda();
    table_mut(&mut document).rows = vec![row(&["0", "12", "0x10"])];
    document.selected_row = Some(0);
    document.selected_column = Some(1);
    assert!(document.toggle_user_flag_cell());
    assert_eq!(table(&document).rows[0][1], "16777228");
    assert!(document.toggle_user_flag_cell());
    assert_eq!(table(&document).rows[0][1], "12");
    document.selected_column = Some(2);
    assert!(document.toggle_user_flag_cell());
    assert_eq!(table(&document).rows[0][2], "0x1000010");
}

#[test]
fn merged_entries_replace_and_mark_rows() {
    let mut document = Document::new_tlk();
    tlk_mut(&mut document).entries = vec![TlkEntry::default(), TlkEntry::default()];
    let entry = TlkEntry { text: "merged".into(), flags: 1, ..Default::default() };
    let count = document.merge_tlk_entries(vec![(1, entry.clone()), (3, entry.clone())]);
    assert_eq!(count, 2);
    assert_eq!(tlk(&document).entries.len(), 4);
    assert_eq!(tlk(&document).entries[1], entry);
    assert_eq!(tlk(&document).entries[3], entry);
    assert!(document.tlk_modified.contains(&1) && document.tlk_modified.contains(&3));
}

#[test]
fn setting_entry_text_keeps_the_text_flag_in_step() {
    let mut document = Document::new_tlk();
    tlk_mut(&mut document).entries = vec![TlkEntry { flags: 6, ..Default::default() }];
    assert!(document.set_entry_text(0, "hello".into()));
    assert_eq!(tlk(&document).entries[0].flags, 7);
    assert!(!document.set_entry_text(0, "hello".into()));
    assert!(document.set_entry_text(0, String::new()));
    assert_eq!(tlk(&document).entries[0].flags, 6);
    assert!(document.tlk_modified.contains(&0));
}

#[test]
fn pasting_table_rows_into_a_talk_table_reports_the_wrong_kind() {
    let mut document = Document::new_twoda();
    table_mut(&mut document).rows = vec![row(&["0", "a", "b"])];
    document.selected_row = Some(0);
    let clip = copy_selection(&document).unwrap();
    let mut other = Document::new_tlk();
    assert!(other.can_paste(&clip, false));
    assert_eq!(other.paste(clip, false, false), PasteOutcome::WrongKind);
}

#[test]
fn the_table_window_follows_the_current_row() {
    assert_eq!(table_window(10, Some(50), 20, 100), (40, 20));
    assert_eq!(table_window(10, None, 20, 100), (10, 20));
    assert_eq!(table_window(95, None, 20, 100), (80, 20));
    assert_eq!(table_window(5, None, 20, 12), (0, 12));
    assert_eq!(scroll_target(Some(7), &Some(vec![2, 7, 9])), Some(1));
    assert_eq!(scroll_target(Some(8), &Some(vec![2, 7, 9])), None);
    assert_eq!(scroll_target(Some(8), &None), Some(8));
    assert_eq!(scroll_target(None, &None), None);
}
