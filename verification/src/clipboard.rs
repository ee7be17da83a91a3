//! Copying talk-table entries, table rows and table values, and pasting them.
use crate::diff::patch_views;
use crate::editing::{displayed_strref, marks_inserted, row_count, stars, strref_text, strref_value, tlk_rows_inserted};
use crate::itp::str_eq;
use crate::model::{
    action_views, applicable, applicable_forward, apply_forward, apply_spec, history_wf, is_clean_spec,
    lemma_views_index, lemma_views_len, lemma_views_push, record_spec, ActionView, DocView, Document, DocumentData, EditAction,
};
use crate::selection::{chosen_rows, in_order_below, lemma_in_order_below, selected_rows};
use crate::tlk::{entry_views, EntryView, TlkEntry};
use crate::twoda::{empty_tag, row_views, str_views, TableView};
use std::collections::BTreeSet;
use vstd::prelude::*;

verus! {

broadcast use vstd::laws_cmp::group_laws_cmp, vstd::std_specs::btree::group_btree_axioms;

/// What was copied: talk-table entries with the rows they came from, whole
/// table rows, or values of one table row with their columns.
#[derive(Debug)]
pub enum ClipboardRows {
    Tlk(Vec<(usize, TlkEntry)>),
    TwoDa(Vec<Vec<String>>),
    TwoDaCells(Vec<(usize, String)>),
}

pub enum ClipView {
    Tlk(Seq<(usize, EntryView)>),
    TwoDa(Seq<Seq<Seq<char>>>),
    TwoDaCells(Seq<(usize, Seq<char>)>),
}

pub open spec fn cell_views(v: Seq<(usize, String)>) -> Seq<(usize, Seq<char>)> {
    v.map_values(|p: (usize, String)| (p.0, p.1@))
}

impl View for ClipboardRows {
    type V = ClipView;

    open spec fn view(&self) -> ClipView {
        match self {
            ClipboardRows::Tlk(v) => ClipView::Tlk(patch_views(v@)),
            ClipboardRows::TwoDa(v) => ClipView::TwoDa(row_views(v@)),
            ClipboardRows::TwoDaCells(v) => ClipView::TwoDaCells(cell_views(v@)),
        }
    }
}

pub open spec fn clip_view(c: Option<ClipboardRows>) -> Option<ClipView> {
    match c {
        Some(c) => Some(c@),
        None => None,
    }
}

// ---------------------------------------------------------------------------
// Copying.
/// The row whose values are copied: the current row, or the first.
pub open spec fn source_row(d: Document) -> usize {
    match d.selected_row {
        Some(r) => r,
        None => 0,
    }
}

/// Whether values rather than rows are copied: some cell or column is selected.
pub open spec fn copies_values(d: Document) -> bool {
    !d.selected_cells@.is_empty() || !d.selected_columns@.is_empty()
}

/// The columns whose values are copied from `row`: those of its selected
/// cells and the selected columns, below `ncols`, in increasing order.
pub open spec fn copied_columns(d: Document, row: usize, ncols: nat) -> Seq<usize> {
    in_order_below(
        Set::new(|c: usize| d.selected_cells@.contains((row, c)) || d.selected_columns@.contains(c)),
        ncols,
    )
}

/// What copying the selection gives, if anything: the chosen entries with
/// their rows; the values of the source row in the copied columns; or the
/// chosen table rows.
pub open spec fn copied(d: Document) -> Option<ClipView> {
    match d.data@ {
        DocView::Tlk(t) => {
            let rows = chosen_rows(d, t.entries.len() as usize);
            if rows.len() == 0 {
                None
            } else {
                Some(ClipView::Tlk(Seq::new(rows.len(), |i: int| (rows[i], t.entries[rows[i] as int]))))
            }
        },
        DocView::TwoDa(t) => if copies_values(d) {
            let r = source_row(d);
            if r >= t.rows.len() {
                None
            } else {
                let cols = copied_columns(d, r, t.columns.len());
                if cols.len() == 0 {
                    None
                } else {
                    Some(
                        ClipView::TwoDaCells(
                            Seq::new(cols.len(), |i: int| (cols[i], t.rows[r as int][cols[i] as int])),
                        ),
                    )
                }
            }
        } else {
            let rows = chosen_rows(d, t.rows.len() as usize);
            if rows.len() == 0 {
                None
            } else {
                Some(ClipView::TwoDa(Seq::new(rows.len(), |i: int| t.rows[rows[i] as int])))
            }
        },
        DocView::Itp(_) => None,
    }
}

/// Every copied column has a value in the source row.
pub open spec fn copy_in_bounds(d: Document) -> bool {
    d.data@ matches DocView::TwoDa(t) ==> (copies_values(d) && source_row(d) < t.rows.len() ==> forall|
        c: usize,
    |
        #![trigger d.selected_cells@.contains((source_row(d), c))]
        #![trigger d.selected_columns@.contains(c)]
        (d.selected_cells@.contains((source_row(d), c)) || d.selected_columns@.contains(c)) && c
            < t.columns.len() ==> c < t.rows[source_row(d) as int].len())
}

/// Whether every copied column has a value in the source row (see
/// `copy_in_bounds`).
#[verifier::loop_isolation(false)]
pub fn copy_in_bounds_holds(document: &Document) -> (r: bool)
    ensures
        r == copy_in_bounds(*document),
{
    match &document.data {
        DocumentData::TwoDa(t) => {
            if document.selected_cells.is_empty() && document.selected_columns.is_empty() {
                return true;
            }
            let source = match document.selected_row {
                Some(r) => r,
                None => 0,
            };
            if source >= t.rows.len() {
                return true;
            }
            proof {
                assert(row_views(t.rows@)[source as int] == str_views(t.rows@[source as int]@));
            }
            let width = t.rows[source].len();
            let ncols = t.columns.len();
            let mut c = width;
            while c < ncols
                invariant
                    width <= c,
                    width == t.rows@[source as int]@.len(),
                    forall|k: usize| width <= k < c ==> !#[trigger] document.selected_cells@.contains((source, k)),
                    forall|k: usize| width <= k < c ==> !#[trigger] document.selected_columns@.contains(k),
                decreases ncols - c,
            {
                if document.selected_cells.contains(&(source, c)) || document.selected_columns.contains(&c) {
                    proof {
                        assert(document.data@ == DocView::TwoDa(t@));
                        assert(t@.rows[source as int].len() == width);
                        assert(c < t@.columns.len());
                        assert(document.selected_cells@.contains((source_row(*document), c))
                            || document.selected_columns@.contains(c));
                    }
                    return false;
                }
                assert(!document.selected_cells@.contains((source, c)));
                assert(!document.selected_columns@.contains(c));
                c = c + 1;
            }
            proof {
                assert(document.data@ == DocView::TwoDa(t@));
                assert(t@.rows[source as int].len() == width);
                assert(t@.columns.len() == ncols);
                assert forall|k: usize|
                    (document.selected_cells@.contains((source_row(*document), k))
                        || document.selected_columns@.contains(k)) && k < t@.columns.len() implies k
                    < t@.rows[source_row(*document) as int].len() by {
                    if k >= width {
                        assert(width <= k < c);
                        assert(!document.selected_cells@.contains((source, k)));
                        assert(!document.selected_columns@.contains(k));
                    }
                }
            }
            true
        },
        _ => true,
    }
}

/// Copies the selection of a document (see `copied`).
pub fn copy_selection(document: &Document) -> (r: Option<ClipboardRows>)
    requires
        copy_in_bounds(*document),
    ensures
        clip_view(r) == copied(*document),
{
    match &document.data {
        DocumentData::Tlk(t) => {
            let rows = selected_rows(document, t.entries.len());
            if rows.len() == 0 {
                return None;
            }
            let mut out: Vec<(usize, TlkEntry)> = Vec::new();
            let mut i: usize = 0;
            while i < rows.len()
                invariant
                    i <= rows@.len(),
                    out@.len() == i,
                    forall|j: int| 0 <= j < rows@.len() ==> #[trigger] rows@[j] < t.entries@.len(),
                    patch_views(out@) == Seq::new(
                        i as nat,
                        |j: int| (rows@[j], entry_views(t.entries@)[rows@[j] as int]),
                    ),
                decreases rows@.len() - i,
            {
                let r = rows[i];
                let ghost prev = out@;
                let e = t.entries[r].duplicate();
                out.push((r, e));
                proof {
                    assert(out@ == prev.push((r, e)));
                    assert(entry_views(t.entries@)[r as int] == t.entries@[r as int]@);
                    assert(prev.len() == i);
                    assert(out@[i as int] == (r, e));
                    assert(patch_views(out@).len() == i + 1);
                    assert(patch_views(out@)[i as int] == (r, e@));
                    assert forall|j: int| 0 <= j < i implies patch_views(out@)[j] == (rows@[j], entry_views(t.entries@)[rows@[j] as int]) by {
                        assert(out@[j] == prev[j]);
                        assert(patch_views(prev)[j] == (rows@[j], entry_views(t.entries@)[rows@[j] as int]));
                    }
                    assert(r == rows@[i as int]);
                    assert(e@ == entry_views(t.entries@)[r as int]);
                    assert(patch_views(out@) =~= Seq::new(
                        (i + 1) as nat,
                        |j: int| (rows@[j], entry_views(t.entries@)[rows@[j] as int]),
                    ));
                }
                i = i + 1;
            }
            Some(ClipboardRows::Tlk(out))
        },
        DocumentData::TwoDa(t) => {
            if !document.selected_cells.is_empty() || !document.selected_columns.is_empty() {
                let source = match document.selected_row {
                    Some(r) => r,
                    None => 0,
                };
                if source >= t.rows.len() {
                    return None;
                }
                let ncols = t.columns.len();
                let ghost wanted = Set::new(
                    |c: usize| document.selected_cells@.contains((source, c)) || document.selected_columns@.contains(c),
                );
                let mut out: Vec<(usize, String)> = Vec::new();
                let mut c: usize = 0;
                while c < ncols
                    invariant
                        c <= ncols,
                        ncols == t.columns@.len(),
                        source < t.rows@.len(),
                        copy_in_bounds(*document),
                        source == source_row(*document),
                        copies_values(*document),
                        document.data@ == DocView::TwoDa(t@),
                        wanted == Set::new(
                            |c: usize|
                                document.selected_cells@.contains((source, c))
                                    || document.selected_columns@.contains(c),
                        ),
                        cell_views(out@) == in_order_below(wanted, c as nat).map_values(
                            |k: usize| (k, row_views(t.rows@)[source as int][k as int]),
                        ),
                    decreases ncols - c,
                {
                    if document.selected_cells.contains(&(source, c)) || document.selected_columns.contains(
                        &c,
                    ) {
                        assert(wanted.contains(c));
                        assert(document.selected_cells@.contains((source_row(*document), c))
                            || document.selected_columns@.contains(c));
                        assert(str_views(t.columns@).len() == t.columns@.len());
                        assert(row_views(t.rows@).len() == t.rows@.len());
                        assert(copy_in_bounds(*document));
                        assert(source_row(*document) < t@.rows.len());
                        assert(row_views(t.rows@)[source as int] == str_views(t.rows@[source as int]@));
                        let ghost tv = t@;
                        assert(c < tv.columns.len());
                        assert(c < tv.rows[source_row(*document) as int].len());
                        assert(c < t.rows@[source as int]@.len());
                        let v = t.rows[source][c].clone();
                        let ghost prev = out@;
                        out.push((c, v));
                        proof {
                            assert(out@ == prev.push((c, v)));
                            assert(cell_views(out@) =~= cell_views(prev).push((c, v@)));
                            assert(row_views(t.rows@)[source as int] == str_views(t.rows@[source as int]@));
                        }
                    }
                    proof {
                        assert(cell_views(out@) =~= in_order_below(wanted, (c + 1) as nat).map_values(
                            |k: usize| (k, row_views(t.rows@)[source as int][k as int]),
                        ));
                    }
                    c = c + 1;
                }
                proof {
                    assert(wanted =~= Set::new(
                        |k: usize|
                            document.selected_cells@.contains((source_row(*document), k))
                                || document.selected_columns@.contains(k),
                    ));
                    let cols = copied_columns(*document, source, t.columns@.len());
                    assert(cols == in_order_below(wanted, ncols as nat));
                    assert(cell_views(out@) =~= Seq::new(
                        cols.len(),
                        |i: int| (cols[i], row_views(t.rows@)[source as int][cols[i] as int]),
                    ));
                }
                if out.len() == 0 {
                    return None;
                }
                return Some(ClipboardRows::TwoDaCells(out));
            }
            let rows = selected_rows(document, t.rows.len());
            if rows.len() == 0 {
                return None;
            }
            let mut out: Vec<Vec<String>> = Vec::new();
            let mut i: usize = 0;
            while i < rows.len()
                invariant
                    i <= rows@.len(),
                    out@.len() == i,
                    forall|j: int| 0 <= j < rows@.len() ==> #[trigger] rows@[j] < t.rows@.len(),
                    row_views(out@) == Seq::new(i as nat, |j: int| row_views(t.rows@)[rows@[j] as int]),
                decreases rows@.len() - i,
            {
                let r = rows[i];
                let copy = crate::model::dup_strings(&t.rows[r]);
                let ghost prev = out@;
                out.push(copy);
                proof {
                    assert(out@ == prev.push(copy));
                    assert(row_views(out@) =~= row_views(prev).push(str_views(copy@)));
                    assert(row_views(out@) =~= Seq::new(
                        (i + 1) as nat,
                        |j: int| row_views(t.rows@)[rows@[j] as int],
                    ));
                }
                i = i + 1;
            }
            Some(ClipboardRows::TwoDa(out))
        },
        DocumentData::Itp(_) => None,
    }
}

// ---------------------------------------------------------------------------
// Pasting.
/// What a paste did: it inserted rows, or filled values, or could not be
/// made because the copied rows are for another kind of file, or did nothing.
#[derive(Clone, Copy, Debug, PartialEq, Eq, Structural)]
pub enum PasteOutcome {
    Rows(usize),
    Fields(usize),
    WrongKind,
    Nothing,
}

/// Where pasted rows go: below the current row, or at the end.
pub open spec fn paste_position(selected: Option<usize>, count: nat) -> nat {
    match selected {
        Some(r) => (r + 1) as nat,
        None => count,
    }
}

/// A copied table row fitted to `width` columns: missing values are `****`
/// and extra values are dropped.
pub open spec fn fit_row(row: Seq<Seq<char>>, width: nat) -> Seq<Seq<char>> {
    Seq::new(
        width,
        |i: int|
            if i < row.len() {
                row[i]
            } else {
                empty_tag()
            },
    )
}

/// `row` after each copied value was written to its column, in order; a value
/// for a column past the row's end is dropped.
pub open spec fn set_cells(row: Seq<Seq<char>>, cells: Seq<(usize, Seq<char>)>) -> Seq<Seq<char>>
    decreases cells.len(),
{
    if cells.len() == 0 {
        row
    } else {
        let prev = set_cells(row, cells.drop_last());
        let (c, v) = cells.last();
        if c < prev.len() {
            prev.update(c as int, v)
        } else {
            prev
        }
    }
}

/// The value edits that writing `cells` into row `dest` makes: one for each
/// value that differs from what the column holds at that point.
pub open spec fn cell_edits(row: Seq<Seq<char>>, dest: usize, cells: Seq<(usize, Seq<char>)>) -> Seq<
    ActionView,
>
    decreases cells.len(),
{
    if cells.len() == 0 {
        seq![]
    } else {
        let prev = set_cells(row, cells.drop_last());
        let earlier = cell_edits(row, dest, cells.drop_last());
        let (c, v) = cells.last();
        if c < prev.len() && prev[c as int] != v {
            earlier.push(ActionView::TwoDaCell { row: dest, column: c, before: prev[c as int], after: v })
        } else {
            earlier
        }
    }
}

/// The cells of row `dest` that `cells` write to, in a row of `width` values.
pub open spec fn cell_targets(dest: usize, cells: Seq<(usize, Seq<char>)>, width: nat) -> Set<
    (usize, usize),
>
    decreases cells.len(),
{
    if cells.len() == 0 {
        Set::empty()
    } else {
        let prev = cell_targets(dest, cells.drop_last(), width);
        if cells.last().0 < width {
            prev.insert((dest, cells.last().0))
        } else {
            prev
        }
    }
}

/// The smallest column that `cells` write to, in a row of `width` values.
pub open spec fn least_target(cells: Seq<(usize, Seq<char>)>, width: nat) -> Option<usize>
    decreases cells.len(),
{
    if cells.len() == 0 {
        None
    } else {
        let prev = least_target(cells.drop_last(), width);
        let c = cells.last().0;
        if c < width {
            match prev {
                Some(m) => if c < m {
                    Some(c)
                } else {
                    Some(m)
                },
                None => Some(c),
            }
        } else {
            prev
        }
    }
}

/// A list of edits recorded as one: none, the single edit, or a batch.
pub open spec fn one_edit(s: Seq<ActionView>) -> Option<ActionView> {
    if s.len() == 0 {
        None
    } else if s.len() == 1 {
        Some(s[0])
    } else {
        Some(ActionView::Batch(s))
    }
}

/// The search texts, the palette selection and the scroll position agree.
pub open spec fn keeps_searches(a: Document, b: Document) -> bool {
    &&& a.search@ == b.search@
    &&& a.find_query@ == b.find_query@
    &&& a.replace@ == b.replace@
    &&& a.table_first_row == b.table_first_row
    &&& a.itp_selected_path@ == b.itp_selected_path@
}

/// After pasting rows: only `row` is selected and shown, no cell or column is
/// selected, and the current column and the searches are kept.
pub open spec fn paste_selected(old: Document, new: Document, row: usize) -> bool {
    &&& new.selected_row == Some(row)
    &&& new.selected_rows@ == set![row]
    &&& new.selection_anchor == Some(row)
    &&& new.selected_cells@.is_empty()
    &&& new.selected_columns@.is_empty()
    &&& new.cell_selection_anchor is None
    &&& new.scroll_to_selected
    &&& new.selected_column == old.selected_column
    &&& keeps_searches(old, new)
}

/// An edit made and recorded: the contents are those the edit gives.
pub open spec fn edit_made(old: Document, new: Document, a: ActionView) -> bool {
    &&& new.data@ == apply_spec(a, old.data@, true)
    &&& new.history@ == record_spec(old.history@, a)
    &&& new.dirty == !is_clean_spec(new.history@)
    &&& history_wf(new.history@)
}

pub open spec fn nothing_pasted(old: Document, new: Document, r: PasteOutcome) -> bool {
    new == old && r == PasteOutcome::Nothing
}

/// Pasting entries into a talk table: they are inserted at the paste
/// position as one undoable edit, later marks move down and the new entries
/// are marked, and the first new entry is selected.
pub open spec fn entries_pasted(
    old: Document,
    new: Document,
    count: nat,
    rows: Seq<(usize, EntryView)>,
    r: PasteOutcome,
) -> bool {
    let at = paste_position(old.selected_row, count) as usize;
    let a = ActionView::TlkRows {
        index: at,
        removed: seq![],
        inserted: rows.map_values(|p: (usize, EntryView)| p.1),
    };
    if rows.len() == 0 {
        nothing_pasted(old, new, r)
    } else {
        &&& r == PasteOutcome::Rows(rows.len() as usize)
        &&& edit_made(old, new, a)
        &&& new.tlk_modified@ == marks_inserted(old.tlk_modified@, at, rows.len() as usize)
        &&& paste_selected(old, new, at)
    }
}

/// Pasting rows into a table: fitted to its columns, they are inserted at the
/// paste position as one undoable edit, and the first new row is selected.
pub open spec fn rows_pasted(
    old: Document,
    new: Document,
    t: TableView,
    rows: Seq<Seq<Seq<char>>>,
    r: PasteOutcome,
) -> bool {
    let at = paste_position(old.selected_row, t.rows.len()) as usize;
    let a = ActionView::TwoDaRows {
        index: at,
        removed: seq![],
        inserted: rows.map_values(|row: Seq<Seq<char>>| fit_row(row, t.columns.len())),
    };
    if rows.len() == 0 {
        nothing_pasted(old, new, r)
    } else {
        &&& r == PasteOutcome::Rows(rows.len() as usize)
        &&& edit_made(old, new, a)
        &&& new.tlk_modified@ == old.tlk_modified@
        &&& paste_selected(old, new, at)
    }
}

/// Pasting values into a table: when the current row exists and some copied
/// column is within it, the values are written to their columns of the
/// current row, the changed ones as one undoable edit, and the written cells
/// become the selected cells.
pub open spec fn cells_pasted(
    old: Document,
    new: Document,
    t: TableView,
    cells: Seq<(usize, Seq<char>)>,
    r: PasteOutcome,
) -> bool {
    match old.selected_row {
        Some(dest) => if dest < t.rows.len() && cell_targets(dest, cells, t.rows[dest as int].len())
            !== Set::empty() {
            let row = t.rows[dest as int];
            let targets = cell_targets(dest, cells, row.len());
            &&& r == PasteOutcome::Fields(targets.len() as usize)
            &&& new.data@ == DocView::TwoDa(
                TableView { rows: t.rows.update(dest as int, set_cells(row, cells)), ..t },
            )
            &&& match one_edit(cell_edits(row, dest, cells)) {
                Some(a) => edit_made(old, new, a),
                None => new.history == old.history && new.dirty == old.dirty,
            }
            &&& new.selected_cells@ == targets
            &&& new.cell_selection_anchor == Some((dest, least_target(cells, row.len())->0))
            &&& new.selected_rows@.is_empty()
            &&& new.selection_anchor is None
            &&& new.scroll_to_selected
            &&& new.selected_row == old.selected_row
            &&& new.selected_column == old.selected_column
            &&& new.selected_columns@ == old.selected_columns@
            &&& new.tlk_modified@ == old.tlk_modified@
            &&& keeps_searches(old, new)
        } else {
            nothing_pasted(old, new, r)
        },
        None => nothing_pasted(old, new, r),
    }
}

/// Pasting talk-table entries into a table: when a cell is current, the
/// string reference of the first copied entry, as the editor shows it, is
/// written there as one undoable edit, and the next row is selected.
pub open spec fn strref_pasted(
    old: Document,
    new: Document,
    t: TableView,
    rows: Seq<(usize, EntryView)>,
    user: bool,
    hex: bool,
    r: PasteOutcome,
) -> bool {
    if rows.len() > 0 && old.selected_row is Some && old.selected_column is Some {
        let row = old.selected_row->0;
        let column = old.selected_column->0;
        if row < t.rows.len() && column < t.rows[row as int].len() {
            let a = ActionView::TwoDaCell {
                row,
                column,
                before: t.rows[row as int][column as int],
                after: strref_text(rows[0].0, user, hex),
            };
            let next = if row + 1 < t.rows.len() {
                (row + 1) as usize
            } else {
                row
            };
            &&& r == PasteOutcome::Rows(1)
            &&& edit_made(old, new, a)
            &&& new.tlk_modified@ == old.tlk_modified@
            &&& paste_selected(old, new, next)
        } else {
            nothing_pasted(old, new, r)
        }
    } else {
        nothing_pasted(old, new, r)
    }
}

/// What pasting `c` into `d` does (see the cases above); into a document of
/// another kind it does nothing and says so.
pub open spec fn pasted(old: Document, new: Document, c: ClipView, user: bool, hex: bool, r: PasteOutcome) -> bool {
    match (old.data@, c) {
        (DocView::Tlk(t), ClipView::Tlk(rows)) => entries_pasted(old, new, t.entries.len(), rows, r),
        (DocView::TwoDa(t), ClipView::TwoDa(rows)) => rows_pasted(old, new, t, rows, r),
        (DocView::TwoDa(t), ClipView::TwoDaCells(cells)) => cells_pasted(old, new, t, cells, r),
        (DocView::TwoDa(t), ClipView::Tlk(rows)) => strref_pasted(old, new, t, rows, user, hex, r),
        _ => new == old && r == PasteOutcome::WrongKind,
    }
}

/// A paste can be made: inserted rows start within the document and their
/// count fits the machine's lengths, and a pasted string reference fits 32
/// bits.
pub open spec fn paste_fits(d: Document, c: ClipView, user: bool) -> bool {
    match (d.data@, c) {
        (DocView::Tlk(t), ClipView::Tlk(rows)) => {
            let at = paste_position(d.selected_row, t.entries.len());
            &&& at <= t.entries.len()
            &&& at + rows.len() <= usize::MAX
            &&& forall|x: usize| d.tlk_modified@.contains(x) && x >= at ==> x + rows.len() <= usize::MAX
        },
        (DocView::TwoDa(t), ClipView::TwoDa(rows)) => {
            let at = paste_position(d.selected_row, t.rows.len());
            at <= t.rows.len() && at + rows.len() <= usize::MAX
        },
        (DocView::TwoDa(t), ClipView::Tlk(rows)) => rows.len() > 0 ==> strref_value(rows[0].0, user)
            <= u32::MAX,
        _ => true,
    }
}

proof fn lemma_set_cells_len(row: Seq<Seq<char>>, cells: Seq<(usize, Seq<char>)>)
    ensures
        set_cells(row, cells).len() == row.len(),
    decreases cells.len(),
{
    if cells.len() > 0 {
        lemma_set_cells_len(row, cells.drop_last());
    }
}

/// Replaying the value edits of a paste writes the values.
proof fn lemma_cell_edits_apply(t: TableView, dest: usize, cells: Seq<(usize, Seq<char>)>)
    requires
        dest < t.rows.len(),
    ensures
        apply_forward(cell_edits(t.rows[dest as int], dest, cells), DocView::TwoDa(t)) == DocView::TwoDa(
            TableView { rows: t.rows.update(dest as int, set_cells(t.rows[dest as int], cells)), ..t },
        ),
        applicable_forward(cell_edits(t.rows[dest as int], dest, cells), DocView::TwoDa(t)),
    decreases cells.len(),
{
    let row = t.rows[dest as int];
    if cells.len() == 0 {
        assert(t.rows.update(dest as int, row) =~= t.rows);
    } else {
        let prefix = cells.drop_last();
        lemma_cell_edits_apply(t, dest, prefix);
        lemma_set_cells_len(row, prefix);
        let prev = set_cells(row, prefix);
        let (c, v) = cells.last();
        let earlier = cell_edits(row, dest, prefix);
        let t1 = TableView { rows: t.rows.update(dest as int, prev), ..t };
        let d = DocView::TwoDa(t);
        assert(apply_forward(earlier, d) == DocView::TwoDa(t1));
        assert(applicable_forward(earlier, d));
        if c < prev.len() && prev[c as int] != v {
            let e = ActionView::TwoDaCell { row: dest, column: c, before: prev[c as int], after: v };
            let s = earlier.push(e);
            assert(cell_edits(row, dest, cells) == s);
            assert(s.drop_last() =~= earlier);
            assert(s.last() == e);
            assert(t1.rows[dest as int] == prev);
            let t2 = TableView { rows: t1.rows.update(dest as int, prev.update(c as int, v)), ..t1 };
            assert(apply_spec(e, DocView::TwoDa(t1), true) == DocView::TwoDa(t2));
            assert(apply_forward(s, d) == apply_spec(e, apply_forward(earlier, d), true));
            assert(set_cells(row, cells) == prev.update(c as int, v));
            assert(t1.rows.update(dest as int, prev.update(c as int, v)) =~= t.rows.update(
                dest as int,
                prev.update(c as int, v),
            ));
            assert(applicable(e, apply_forward(earlier, d), true));
            assert(applicable_forward(s, d));
        } else {
            assert(cell_edits(row, dest, cells) == earlier);
            if c < prev.len() {
                assert(prev.update(c as int, v) =~= prev);
            }
            assert(set_cells(row, cells) == prev);
        }
    }
}

proof fn lemma_one_edit(s: Seq<ActionView>, d: DocView)
    requires
        applicable_forward(s, d),
        one_edit(s) is Some,
    ensures
        apply_spec(one_edit(s)->0, d, true) == apply_forward(s, d),
        applicable(one_edit(s)->0, d, true),
{
    if s.len() == 1 {
        assert(s.drop_last() =~= Seq::<ActionView>::empty());
    }
}

impl Document {
    /// Selects only `row` and shows it.
    fn select_pasted_row(&mut self, row: usize)
        ensures
            paste_selected(*old(self), *final(self), row),
            final(self).data == old(self).data,
            final(self).history == old(self).history,
            final(self).dirty == old(self).dirty,
            final(self).tlk_modified == old(self).tlk_modified,
    {
        self.selected_row = Some(row);
        self.selected_rows.clear();
        self.selected_rows.insert(row);
        self.selection_anchor = Some(row);
        self.selected_cells.clear();
        self.selected_columns.clear();
        self.cell_selection_anchor = None;
        self.scroll_to_selected = true;
        assert(self.selected_rows@ =~= set![row]);
    }

    fn paste_entries(&mut self, rows: Vec<(usize, TlkEntry)>, user: bool) -> (r: PasteOutcome)
        requires
            history_wf(old(self).history@),
            old(self).data@ is Tlk,
            paste_fits(*old(self), ClipView::Tlk(patch_views(rows@)), user),
        ensures
            pasted(*old(self), *final(self), ClipView::Tlk(patch_views(rows@)), user, false, r),
    {
        let count = match &self.data {
            DocumentData::Tlk(t) => t.entries.len(),
            _ => 0,
        };
        let at = match self.selected_row {
            Some(r) => r + 1,
            None => count,
        };
        if rows.len() == 0 {
            return PasteOutcome::Nothing;
        }
        let ghost pv = patch_views(rows@);
        let mut entries: Vec<TlkEntry> = Vec::new();
        let mut i: usize = 0;
        while i < rows.len()
            invariant
                i <= rows@.len(),
                pv == patch_views(rows@),
                entry_views(entries@) == pv.take(i as int).map_values(|p: (usize, EntryView)| p.1),
            decreases rows@.len() - i,
        {
            let e = rows[i].1.duplicate();
            let ghost prev = entries@;
            entries.push(e);
            proof {
                assert(entries@ == prev.push(e));
                assert(pv[i as int] == (rows@[i as int].0, rows@[i as int].1@));
                assert(entry_views(entries@) =~= entry_views(prev).push(e@));
                assert(pv.take(i + 1).map_values(|p: (usize, EntryView)| p.1) =~= pv.take(i as int).map_values(
                    |p: (usize, EntryView)| p.1,
                ).push(pv[i as int].1));
            }
            i = i + 1;
        }
        proof {
            assert(pv.take(rows@.len() as int) =~= pv);
            assert(entry_views(Seq::<TlkEntry>::empty()) =~= Seq::<EntryView>::empty());
        }
        let n = entries.len();
        tlk_rows_inserted(&mut self.tlk_modified, at, n);
        self.commit(EditAction::TlkRows { index: at, removed: Vec::new(), inserted: entries });
        self.select_pasted_row(at);
        PasteOutcome::Rows(n)
    }

    fn paste_table_rows(&mut self, rows: Vec<Vec<String>>, user: bool) -> (r: PasteOutcome)
        requires
            history_wf(old(self).history@),
            old(self).data@ is TwoDa,
            paste_fits(*old(self), ClipView::TwoDa(row_views(rows@)), user),
        ensures
            pasted(*old(self), *final(self), ClipView::TwoDa(row_views(rows@)), user, false, r),
    {
        let (count, width) = match &self.data {
            DocumentData::TwoDa(t) => (t.rows.len(), t.columns.len()),
            _ => (0, 0),
        };
        let at = match self.selected_row {
            Some(r) => r + 1,
            None => count,
        };
        if rows.len() == 0 {
            return PasteOutcome::Nothing;
        }
        let ghost rv = row_views(rows@);
        let mut fitted: Vec<Vec<String>> = Vec::new();
        let mut i: usize = 0;
        while i < rows.len()
            invariant
                i <= rows@.len(),
                rv == row_views(rows@),
                row_views(fitted@) == rv.take(i as int).map_values(
                    |row: Seq<Seq<char>>| fit_row(row, width as nat),
                ),
            decreases rows@.len() - i,
        {
            let f = fit(&rows[i], width);
            let ghost prev = fitted@;
            fitted.push(f);
            proof {
                assert(fitted@ == prev.push(f));
                assert(rv[i as int] == str_views(rows@[i as int]@));
                assert(row_views(fitted@) =~= row_views(prev).push(str_views(f@)));
                assert(rv.take(i + 1).map_values(|row: Seq<Seq<char>>| fit_row(row, width as nat))
                    =~= rv.take(i as int).map_values(|row: Seq<Seq<char>>| fit_row(row, width as nat)).push(
                    fit_row(rv[i as int], width as nat),
                ));
            }
            i = i + 1;
        }
        proof {
            assert(rv.take(rows@.len() as int) =~= rv);
            assert(row_views(Seq::<Vec<String>>::empty()) =~= Seq::<Seq<Seq<char>>>::empty());
        }
        let n = fitted.len();
        self.commit(EditAction::TwoDaRows { index: at, removed: Vec::new(), inserted: fitted });
        self.select_pasted_row(at);
        PasteOutcome::Rows(n)
    }

    fn paste_cells(&mut self, cells: Vec<(usize, String)>) -> (r: PasteOutcome)
        requires
            history_wf(old(self).history@),
            old(self).data@ is TwoDa,
        ensures
            pasted(*old(self), *final(self), ClipView::TwoDaCells(cell_views(cells@)), false, false, r),
    {
        let dest = match self.selected_row {
            Some(d) => d,
            None => {
                return PasteOutcome::Nothing;
            },
        };
        let ghost t = match self.data@ {
            DocView::TwoDa(t) => t,
            _ => arbitrary(),
        };
        let mut cur = match &self.data {
            DocumentData::TwoDa(table) => {
                if dest >= table.rows.len() {
                    return PasteOutcome::Nothing;
                }
                proof {
                    assert(t.rows[dest as int] == str_views(table.rows@[dest as int]@));
                }
                crate::model::dup_strings(&table.rows[dest])
            },
            _ => {
                return PasteOutcome::Nothing;
            },
        };
        let ghost row = t.rows[dest as int];
        let ghost cv = cell_views(cells@);
        let width = cur.len();
        let mut edits: Vec<EditAction> = Vec::new();
        let mut selected: BTreeSet<(usize, usize)> = BTreeSet::new();
        let mut least: Option<usize> = None;
        let mut i: usize = 0;
        proof {
            assert(cv.take(0) =~= Seq::<(usize, Seq<char>)>::empty());
            assert(action_views(edits@) =~= Seq::<ActionView>::empty());
            assert(selected@ =~= Set::<(usize, usize)>::empty());
        }
        while i < cells.len()
            invariant
                i <= cells@.len(),
                cv == cell_views(cells@),
                width == row.len(),
                str_views(cur@) == set_cells(row, cv.take(i as int)),
                action_views(edits@) == cell_edits(row, dest, cv.take(i as int)),
                selected@ == cell_targets(dest, cv.take(i as int), width as nat),
                least == least_target(cv.take(i as int), width as nat),
                least is None <==> selected@ == Set::<(usize, usize)>::empty(),
            decreases cells@.len() - i,
        {
            proof {
                lemma_set_cells_len(row, cv.take(i as int));
                assert(cv.take(i + 1).drop_last() =~= cv.take(i as int));
                assert(cv.take(i + 1).last() == (cells@[i as int].0, cells@[i as int].1@));
            }
            let c = cells[i].0;
            if c < width {
                assert(cur@.len() == width);
                let same = str_eq(cur[c].as_str(), cells[i].1.as_str());
                if !same {
                    let before = cur[c].clone();
                    let after = cells[i].1.clone();
                    let a = EditAction::TwoDaCell { row: dest, column: c, before, after };
                    proof {
                        lemma_views_push(edits@, a);
                        assert(str_views(cur@)[c as int] == cur@[c as int]@);
                    }
                    edits.push(a);
                    let ghost before_cur = cur@;
                    cur.set(c, cells[i].1.clone());
                    proof {
                        assert(str_views(cur@) =~= str_views(before_cur).update(c as int, cells@[i as int].1@));
                    }
                } else {
                    proof {
                        assert(str_views(cur@)[c as int] == cur@[c as int]@);
                        assert(str_views(cur@).update(c as int, cells@[i as int].1@) =~= str_views(cur@));
                    }
                }
                selected.insert((dest, c));
                assert(selected@.contains((dest, c)));
                least = match least {
                    Some(m) => if c < m {
                        Some(c)
                    } else {
                        Some(m)
                    },
                    None => Some(c),
                };
            }
            i = i + 1;
        }
        proof {
            assert(cv.take(cells@.len() as int) =~= cv);
        }
        if selected.is_empty() {
            return PasteOutcome::Nothing;
        }
        let n = selected.len();
        proof {
            lemma_cell_edits_apply(t, dest, cv);
            lemma_views_len(edits@);
        }
        let ne = edits.len();
        if ne == 1 {
            proof {
                lemma_views_index(edits@, 0);
            }
            let a = edits.pop().unwrap();
            proof {
                lemma_one_edit(cell_edits(row, dest, cv), self.data@);
            }
            self.commit(a);
        } else if ne > 1 {
            proof {
                lemma_one_edit(cell_edits(row, dest, cv), self.data@);
            }
            self.commit(EditAction::Batch(edits));
        }
        self.selected_cells = selected;
        self.cell_selection_anchor = match least {
            Some(m) => Some((dest, m)),
            None => None,
        };
        self.selected_rows.clear();
        self.selection_anchor = None;
        self.scroll_to_selected = true;
        PasteOutcome::Fields(n)
    }

    fn paste_strref(&mut self, rows: &Vec<(usize, TlkEntry)>, user: bool, hex: bool) -> (r: PasteOutcome)
        requires
            history_wf(old(self).history@),
            old(self).data@ is TwoDa,
            paste_fits(*old(self), ClipView::Tlk(patch_views(rows@)), user),
        ensures
            pasted(*old(self), *final(self), ClipView::Tlk(patch_views(rows@)), user, hex, r),
    {
        let (row, column) = match (self.selected_row, self.selected_column) {
            (Some(r), Some(c)) => (r, c),
            _ => {
                return PasteOutcome::Nothing;
            },
        };
        if rows.len() == 0 {
            return PasteOutcome::Nothing;
        }
        let (count, before) = match &self.data {
            DocumentData::TwoDa(t) => {
                if row >= t.rows.len() || column >= t.rows[row].len() {
                    return PasteOutcome::Nothing;
                }
                assert(row_views(t.rows@)[row as int] == str_views(t.rows@[row as int]@));
                (t.rows.len(), t.rows[row][column].clone())
            },
            _ => {
                return PasteOutcome::Nothing;
            },
        };
        assert(patch_views(rows@)[0] == (rows@[0].0, rows@[0].1@));
        let text = displayed_strref(rows[0].0, user, hex);
        self.commit(EditAction::TwoDaCell { row, column, before, after: text });
        let next = if row + 1 < count {
            row + 1
        } else {
            row
        };
        self.select_pasted_row(next);
        PasteOutcome::Rows(1)
    }

    /// Whether `clip` can be pasted here (see `paste_fits`).
    pub fn can_paste(&self, clip: &ClipboardRows, user: bool) -> (r: bool)
        ensures
            r == paste_fits(*self, clip@, user),
    {
        match (&self.data, clip) {
            (DocumentData::Tlk(t), ClipboardRows::Tlk(rows)) => {
                let count = t.entries.len();
                let n = rows.len();
                let at = match self.selected_row {
                    Some(r) => {
                        if r >= count {
                            return false;
                        }
                        r + 1
                    },
                    None => count,
                };
                if n > usize::MAX - at {
                    return false;
                }
                match crate::selection::last_of(&self.tlk_modified) {
                    Some(m) => {
                        proof {
                            assert(self.tlk_modified@.contains(m));
                        }
                        if m >= at && n > usize::MAX - m {
                            return false;
                        }
                        true
                    },
                    None => true,
                }
            },
            (DocumentData::TwoDa(t), ClipboardRows::TwoDa(rows)) => {
                let count = t.rows.len();
                let at = match self.selected_row {
                    Some(r) => {
                        if r >= count {
                            return false;
                        }
                        r + 1
                    },
                    None => count,
                };
                rows.len() <= usize::MAX - at
            },
            (DocumentData::TwoDa(_), ClipboardRows::Tlk(rows)) => {
                if rows.len() == 0 {
                    return true;
                }
                assert(patch_views(rows@)[0] == (rows@[0].0, rows@[0].1@));
                let base = #[verifier::truncate] (rows[0].0 as u32);
                !user || base <= u32::MAX - 0x100_0000
            },
            _ => true,
        }
    }

    /// Pastes `clip` (see `pasted`). `user` and `hex` say how a pasted
    /// string reference is written.
    pub fn paste(&mut self, clip: ClipboardRows, user: bool, hex: bool) -> (r: PasteOutcome)
        requires
            history_wf(old(self).history@),
            paste_fits(*old(self), clip@, user),
        ensures
            pasted(*old(self), *final(self), clip@, user, hex, r),
            history_wf(final(self).history@),
    {
        match clip {
            ClipboardRows::Tlk(rows) => match &self.data {
                DocumentData::Tlk(_) => self.paste_entries(rows, user),
                DocumentData::TwoDa(_) => self.paste_strref(&rows, user, hex),
                DocumentData::Itp(_) => PasteOutcome::WrongKind,
            },
            ClipboardRows::TwoDa(rows) => match &self.data {
                DocumentData::TwoDa(_) => self.paste_table_rows(rows, user),
                _ => PasteOutcome::WrongKind,
            },
            ClipboardRows::TwoDaCells(cells) => match &self.data {
                DocumentData::TwoDa(_) => self.paste_cells(cells),
                _ => PasteOutcome::WrongKind,
            },
        }
    }
}

/// A copied row fitted to `width` columns (see `fit_row`).
fn fit(row: &Vec<String>, width: usize) -> (r: Vec<String>)
    ensures
        str_views(r@) == fit_row(str_views(row@), width as nat),
{
    let mut out: Vec<String> = Vec::new();
    let mut i: usize = 0;
    while i < width
        invariant
            i <= width,
            str_views(out@) == fit_row(str_views(row@), width as nat).take(i as int),
        decreases width - i,
    {
        let v = if i < row.len() {
            row[i].clone()
        } else {
            stars()
        };
        let ghost prev = out@;
        out.push(v);
        proof {
            assert(out@ == prev.push(v));
            assert(str_views(out@) =~= str_views(prev).push(v@));
            assert(str_views(row@).len() == row@.len());
            if i < row@.len() {
                assert(str_views(row@)[i as int] == row@[i as int]@);
            }
            assert(fit_row(str_views(row@), width as nat).take(i + 1) =~= fit_row(
                str_views(row@),
                width as nat,
            ).take(i as int).push(v@));
        }
        i = i + 1;
    }
    proof {
        assert(fit_row(str_views(row@), width as nat).take(width as int) =~= fit_row(
            str_views(row@),
            width as nat,
        ));
    }
    out
}

} // verus!
