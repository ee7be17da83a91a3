//! The editor's commands: which one a keyboard shortcut or clipboard event
//! asks for, and which menu entries are shown and enabled.
use crate::editing::{fully_selected_columns, fully_selected_twoda_columns};
use crate::model::{kind_of, title_of, Document, FileKind};
use crate::numtext::{digits, push_digits};
use crate::text::{chars_of, push_chars};
use vstd::prelude::*;

verus! {

/// A command of the editor, from a menu or a shortcut.
#[derive(Clone, Copy, Debug, PartialEq, Eq, Structural)]
pub enum Command {
    NewTlk,
    NewTwoDa,
    Open,
    Save,
    SaveAs,
    SaveAll,
    Close,
    Quit,
    Cut,
    Copy,
    Paste,
    DeleteRows,
    DeleteColumns,
    Undo,
    Redo,
    ResizeTable,
    RenumberTwoDa,
    AlterColumns,
    ToggleUserFlag,
    Find,
    FindNext,
    MarkModified,
    MarkUnmodified,
    SaveDiff,
    MergeDiff,
    MergeDtu,
    DiscardDiff,
    DiffOverview,
}

/// A key press that a shortcut listens for.
#[derive(Clone, Copy, Debug, PartialEq, Eq, Structural)]
pub enum Chord {
    Delete,
    CtrlShiftZ,
    CtrlZ,
    CtrlF,
    CtrlG,
    CtrlU,
    CtrlO,
    CtrlS,
    CtrlW,
    CtrlN,
    CtrlX,
    CtrlC,
    CtrlV,
}

/// What the shortcuts depend on besides the keys: whether the find dialog is
/// open, whether a text field has the focus, and what the active document has
/// selected.
#[derive(Clone, Copy, Debug, PartialEq, Eq, Structural)]
pub struct ShortcutState {
    pub search_open: bool,
    pub text_focused: bool,
    pub row_selection: bool,
    pub cell_selection: bool,
    pub column_selection: bool,
}

/// The system clipboard events of one frame.
#[derive(Clone, Copy, Debug, PartialEq, Eq, Structural)]
pub struct ClipboardEvents {
    pub copy: bool,
    pub cut: bool,
    pub paste: bool,
}

/// Whole rows are selected (and no single column of them).
pub open spec fn row_selection_of(d: Document) -> bool {
    !d.selected_rows@.is_empty() && d.selected_column is None
}

/// Cells or columns are selected.
pub open spec fn cell_selection_of(d: Document) -> bool {
    !d.selected_cells@.is_empty() || !d.selected_columns@.is_empty()
}

/// The shortcut state of the active document, if there is one.
pub open spec fn shortcut_state_spec(
    document: Option<Document>,
    search_open: bool,
    text_focused: bool,
) -> ShortcutState {
    match document {
        Some(d) => ShortcutState {
            search_open,
            text_focused,
            row_selection: row_selection_of(d),
            cell_selection: cell_selection_of(d),
            column_selection: fully_selected_columns(d).len() > 0,
        },
        None => ShortcutState {
            search_open,
            text_focused,
            row_selection: false,
            cell_selection: false,
            column_selection: false,
        },
    }
}

/// Reads the shortcut state off the active document.
pub fn shortcut_state(document: Option<&Document>, search_open: bool, text_focused: bool) -> (r:
    ShortcutState)
    ensures
        r == shortcut_state_spec(
            match document {
                Some(d) => Some(*d),
                None => None,
            },
            search_open,
            text_focused,
        ),
{
    match document {
        Some(d) => {
            let columns = fully_selected_twoda_columns(d);
            ShortcutState {
                search_open,
                text_focused,
                row_selection: !d.selected_rows.is_empty() && d.selected_column.is_none(),
                cell_selection: !d.selected_cells.is_empty() || !d.selected_columns.is_empty(),
                column_selection: columns.len() > 0,
            }
        },
        None => ShortcutState {
            search_open,
            text_focused,
            row_selection: false,
            cell_selection: false,
            column_selection: false,
        },
    }
}

/// The command a frame's input asks for, and the key press it uses up.
/// Nothing while the find dialog is open, so that its text field keeps the
/// clipboard keys. Clipboard events come first, then the keys in a fixed
/// order; Ctrl+Shift+Z is looked at before Ctrl+Z. Ctrl+X, Ctrl+C and Ctrl+V
/// are left to a focused text field unless the table has a selection that
/// they act on.
pub open spec fn shortcut_spec(st: ShortcutState, ev: ClipboardEvents, pressed: Seq<Chord>) -> Option<
    (Command, Option<Chord>),
> {
    let clip = st.row_selection || st.cell_selection;
    if st.search_open {
        None
    } else if st.row_selection && ev.cut {
        Some((Command::Cut, None))
    } else if clip && ev.copy {
        Some((Command::Copy, None))
    } else if clip && ev.paste {
        Some((Command::Paste, None))
    } else if st.row_selection && pressed.contains(Chord::Delete) {
        Some((Command::DeleteRows, Some(Chord::Delete)))
    } else if st.column_selection && pressed.contains(Chord::Delete) {
        Some((Command::DeleteColumns, Some(Chord::Delete)))
    } else if pressed.contains(Chord::CtrlShiftZ) {
        Some((Command::Redo, Some(Chord::CtrlShiftZ)))
    } else if pressed.contains(Chord::CtrlZ) {
        Some((Command::Undo, Some(Chord::CtrlZ)))
    } else if pressed.contains(Chord::CtrlF) {
        Some((Command::Find, Some(Chord::CtrlF)))
    } else if pressed.contains(Chord::CtrlG) {
        Some((Command::FindNext, Some(Chord::CtrlG)))
    } else if pressed.contains(Chord::CtrlU) {
        Some((Command::ToggleUserFlag, Some(Chord::CtrlU)))
    } else if pressed.contains(Chord::CtrlO) {
        Some((Command::Open, Some(Chord::CtrlO)))
    } else if pressed.contains(Chord::CtrlS) {
        Some((Command::Save, Some(Chord::CtrlS)))
    } else if pressed.contains(Chord::CtrlW) {
        Some((Command::Close, Some(Chord::CtrlW)))
    } else if pressed.contains(Chord::CtrlN) {
        Some((Command::NewTlk, Some(Chord::CtrlN)))
    } else if (!st.text_focused || st.row_selection) && pressed.contains(Chord::CtrlX) {
        Some((Command::Cut, Some(Chord::CtrlX)))
    } else if (!st.text_focused || clip) && pressed.contains(Chord::CtrlC) {
        Some((Command::Copy, Some(Chord::CtrlC)))
    } else if (!st.text_focused || clip) && pressed.contains(Chord::CtrlV) {
        Some((Command::Paste, Some(Chord::CtrlV)))
    } else {
        None
    }
}

fn has_chord(pressed: &[Chord], c: Chord) -> (r: bool)
    ensures
        r == pressed@.contains(c),
{
    let mut i: usize = 0;
    while i < pressed.len()
        invariant
            i <= pressed@.len(),
            forall|j: int| 0 <= j < i ==> pressed@[j] != c,
        decreases pressed@.len() - i,
    {
        if pressed[i] == c {
            assert(pressed@[i as int] == c);
            return true;
        }
        i = i + 1;
    }
    false
}

/// Picks the command for a frame's input (see `shortcut_spec`).
pub fn shortcut(st: ShortcutState, ev: ClipboardEvents, pressed: &[Chord]) -> (r: Option<
    (Command, Option<Chord>),
>)
    ensures
        r == shortcut_spec(st, ev, pressed@),
{
    let clip = st.row_selection || st.cell_selection;
    if st.search_open {
        None
    } else if st.row_selection && ev.cut {
        Some((Command::Cut, None))
    } else if clip && ev.copy {
        Some((Command::Copy, None))
    } else if clip && ev.paste {
        Some((Command::Paste, None))
    } else if st.row_selection && has_chord(pressed, Chord::Delete) {
        Some((Command::DeleteRows, Some(Chord::Delete)))
    } else if st.column_selection && has_chord(pressed, Chord::Delete) {
        Some((Command::DeleteColumns, Some(Chord::Delete)))
    } else if has_chord(pressed, Chord::CtrlShiftZ) {
        Some((Command::Redo, Some(Chord::CtrlShiftZ)))
    } else if has_chord(pressed, Chord::CtrlZ) {
        Some((Command::Undo, Some(Chord::CtrlZ)))
    } else if has_chord(pressed, Chord::CtrlF) {
        Some((Command::Find, Some(Chord::CtrlF)))
    } else if has_chord(pressed, Chord::CtrlG) {
        Some((Command::FindNext, Some(Chord::CtrlG)))
    } else if has_chord(pressed, Chord::CtrlU) {
        Some((Command::ToggleUserFlag, Some(Chord::CtrlU)))
    } else if has_chord(pressed, Chord::CtrlO) {
        Some((Command::Open, Some(Chord::CtrlO)))
    } else if has_chord(pressed, Chord::CtrlS) {
        Some((Command::Save, Some(Chord::CtrlS)))
    } else if has_chord(pressed, Chord::CtrlW) {
        Some((Command::Close, Some(Chord::CtrlW)))
    } else if has_chord(pressed, Chord::CtrlN) {
        Some((Command::NewTlk, Some(Chord::CtrlN)))
    } else if (!st.text_focused || st.row_selection) && has_chord(pressed, Chord::CtrlX) {
        Some((Command::Cut, Some(Chord::CtrlX)))
    } else if (!st.text_focused || clip) && has_chord(pressed, Chord::CtrlC) {
        Some((Command::Copy, Some(Chord::CtrlC)))
    } else if (!st.text_focused || clip) && has_chord(pressed, Chord::CtrlV) {
        Some((Command::Paste, Some(Chord::CtrlV)))
    } else {
        None
    }
}

/// How a menu shows a command.
#[derive(Clone, Copy, Debug, PartialEq, Eq, Structural)]
pub enum MenuEntry {
    Hidden,
    Disabled,
    Enabled,
}

/// The active document: none when no index is active or it is out of range.
pub open spec fn active_document(documents: Seq<Document>, active: Option<usize>) -> Option<Document> {
    match active {
        Some(i) => if i < documents.len() {
            Some(documents[i as int])
        } else {
            None
        },
        None => None,
    }
}

pub open spec fn enabled_if(b: bool) -> MenuEntry {
    if b {
        MenuEntry::Enabled
    } else {
        MenuEntry::Disabled
    }
}

pub open spec fn shown_if(b: bool) -> MenuEntry {
    if b {
        MenuEntry::Enabled
    } else {
        MenuEntry::Hidden
    }
}

pub open spec fn active_is(documents: Seq<Document>, active: Option<usize>, kind: FileKind) -> bool {
    active_document(documents, active) matches Some(d) && kind_of(d.data@) == kind
}

/// How the menus show `command`. File, Edit and Find entries are always shown:
/// saving and closing need an active tab, Save All an unsaved document, undo
/// and redo an edit to step over, cutting and copying a selected row, pasting
/// copied rows. The Table menu is there for any active document, its 2DA
/// entries only for a 2DA, and the TLK Diff menu only for a talk table.
/// Deleting rows or columns has no menu entry.
pub open spec fn menu_entry_spec(
    command: Command,
    documents: Seq<Document>,
    active: Option<usize>,
    has_clipboard: bool,
) -> MenuEntry {
    let doc = active_document(documents, active);
    match command {
        Command::NewTlk | Command::NewTwoDa | Command::Open | Command::Quit | Command::Find
        | Command::FindNext => MenuEntry::Enabled,
        Command::Save | Command::SaveAs | Command::Close => enabled_if(active is Some),
        Command::SaveAll => enabled_if(exists|i: int| 0 <= i < documents.len() && #[trigger] documents[i].dirty),
        Command::Undo => enabled_if(doc matches Some(d) && d.history@.cursor > 0),
        Command::Redo => enabled_if(doc matches Some(d) && d.history@.cursor < d.history@.actions.len()),
        Command::Cut | Command::Copy => enabled_if(doc matches Some(d) && d.selected_row is Some),
        Command::Paste => enabled_if(has_clipboard),
        Command::ResizeTable => shown_if(doc is Some),
        Command::RenumberTwoDa | Command::AlterColumns | Command::ToggleUserFlag => shown_if(
            active_is(documents, active, FileKind::TwoDa),
        ),
        Command::MarkModified | Command::MarkUnmodified | Command::SaveDiff | Command::MergeDiff
        | Command::MergeDtu | Command::DiscardDiff | Command::DiffOverview => shown_if(
            active_is(documents, active, FileKind::Tlk),
        ),
        Command::DeleteRows | Command::DeleteColumns => MenuEntry::Hidden,
    }
}

fn any_dirty(documents: &Vec<Document>) -> (r: bool)
    ensures
        r == exists|i: int| 0 <= i < documents@.len() && #[trigger] documents@[i].dirty,
{
    let mut i: usize = 0;
    while i < documents.len()
        invariant
            i <= documents@.len(),
            forall|j: int| 0 <= j < i ==> !(#[trigger] documents@[j]).dirty,
        decreases documents@.len() - i,
    {
        if documents[i].dirty {
            return true;
        }
        i = i + 1;
    }
    false
}

/// How the menus show `command` (see `menu_entry_spec`).
pub fn menu_entry(command: Command, documents: &Vec<Document>, active: Option<usize>, has_clipboard: bool) -> (r:
    MenuEntry)
    ensures
        r == menu_entry_spec(command, documents@, active, has_clipboard),
{
    let doc: Option<&Document> = match active {
        Some(i) => if i < documents.len() {
            Some(&documents[i])
        } else {
            None
        },
        None => None,
    };
    let enabled = match command {
        Command::NewTlk | Command::NewTwoDa | Command::Open | Command::Quit | Command::Find
        | Command::FindNext => {
            return MenuEntry::Enabled;
        },
        Command::DeleteRows | Command::DeleteColumns => {
            return MenuEntry::Hidden;
        },
        Command::Save | Command::SaveAs | Command::Close => active.is_some(),
        Command::SaveAll => any_dirty(documents),
        Command::Undo => match doc {
            Some(d) => d.history.can_undo(),
            None => false,
        },
        Command::Redo => match doc {
            Some(d) => d.history.can_redo(),
            None => false,
        },
        Command::Cut | Command::Copy => match doc {
            Some(d) => d.selected_row.is_some(),
            None => false,
        },
        Command::Paste => has_clipboard,
        Command::ResizeTable => {
            return if doc.is_some() {
                MenuEntry::Enabled
            } else {
                MenuEntry::Hidden
            };
        },
        Command::RenumberTwoDa | Command::AlterColumns | Command::ToggleUserFlag => {
            let shown = match doc {
                Some(d) => d.kind() == FileKind::TwoDa,
                None => false,
            };
            return if shown {
                MenuEntry::Enabled
            } else {
                MenuEntry::Hidden
            };
        },
        Command::MarkModified | Command::MarkUnmodified | Command::SaveDiff | Command::MergeDiff
        | Command::MergeDtu | Command::DiscardDiff | Command::DiffOverview => {
            let shown = match doc {
                Some(d) => d.kind() == FileKind::Tlk,
                None => false,
            };
            return if shown {
                MenuEntry::Enabled
            } else {
                MenuEntry::Hidden
            };
        },
    };
    if enabled {
        MenuEntry::Enabled
    } else {
        MenuEntry::Disabled
    }
}

/// The label of a document's tab: its title, after `* ` when it has unsaved
/// changes.
pub open spec fn tab_label_of(d: Document, file_name: Option<Seq<char>>) -> Seq<char> {
    (if d.dirty {
        "* "@
    } else {
        Seq::empty()
    }) + title_of(kind_of(d.data@), file_name)
}

/// The toolbar's delete button: its label names the number of selected rows
/// when there are several, and it is enabled when a row is current.
pub open spec fn delete_button_of(d: Document) -> (Seq<char>, bool) {
    (
        if d.selected_rows@.len() > 1 {
            "Delete "@ + digits(d.selected_rows@.len(), 10) + " rows"@
        } else {
            "Delete row"@
        },
        d.selected_row is Some,
    )
}

impl Document {
    /// The label of the document's tab (see `tab_label_of`).
    pub fn tab_label(&self, file_name: Option<&str>) -> (r: String)
        ensures
            r@ == tab_label_of(
                *self,
                match file_name {
                    Some(n) => Some(n@),
                    None => None,
                },
            ),
    {
        let title = self.title(file_name);
        let mut out = if self.dirty {
            "* ".to_owned()
        } else {
            String::new()
        };
        let t = chars_of(title.as_str());
        push_chars(&mut out, t.as_slice());
        out
    }

    /// The toolbar's delete button: its label and whether it is enabled (see
    /// `delete_button_of`).
    pub fn delete_button(&self) -> (r: (String, bool))
        ensures
            r.0@ == delete_button_of(*self).0,
            r.1 == delete_button_of(*self).1,
    {
        broadcast use vstd::std_specs::btree::group_btree_axioms;

        let n = self.selected_rows.len();
        let label = if n > 1 {
            let mut out = "Delete ".to_owned();
            push_digits(&mut out, n as u64, 10);
            let rest = chars_of(" rows");
            push_chars(&mut out, rest.as_slice());
            out
        } else {
            "Delete row".to_owned()
        };
        (label, self.selected_row.is_some())
    }
}

} // verus!
