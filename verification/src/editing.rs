//! Edits that the editor makes to a document's rows and columns.
use crate::diff::patch_views;
use crate::model::{
    HistoryView, action_view, applicable, apply_spec, history_wf, is_clean_spec, record_spec, ActionView,
    DocView, Document, DocumentData, EditAction,
};
use crate::numtext::{decimal, digits, hex, parse_u32, parse_u32_spec};
use crate::selection::{chosen_rows, in_order_below, increasing, lemma_in_order_below, selected_rows};
use crate::tlk::{entry_views, EntryView, TlkEncoding, TlkEntry};
use crate::twoda::{empty_tag, opt_view, row_views, str_views, TableView, TwoDaFile};
use std::collections::BTreeSet;
use vstd::prelude::*;
use vstd::std_specs::iter::IteratorSpec;

verus! {

broadcast use vstd::laws_cmp::group_laws_cmp, vstd::std_specs::btree::group_btree_axioms;

// ---------------------------------------------------------------------------
// Rows marked as modified.
/// Marks after `count` rows were inserted at `index`: later marks move down
/// and the inserted rows are marked.
pub open spec fn marks_inserted(m: Set<usize>, index: usize, count: usize) -> Set<usize> {
    Set::new(
        |x: usize|
            (x < index && m.contains(x)) || (index <= x < index + count) || (x >= index + count
                && m.contains((x - count) as usize)),
    )
}

/// Marks after `count` rows were deleted at `index`: marks of deleted rows go
/// and later marks move up.
pub open spec fn marks_deleted(m: Set<usize>, index: usize, count: usize) -> Set<usize> {
    Set::new(
        |x: usize|
            (x < index && m.contains(x)) || (x >= index && x + count <= usize::MAX && m.contains(
                (x + count) as usize,
            )),
    )
}

/// The elements of a set, in the order the set yields them.
fn set_elements(s: &BTreeSet<usize>) -> (v: Vec<usize>)
    ensures
        v@.to_set() == s@,
{
    let ghost full = vstd::std_specs::btree::spec_btree_keys_iter(s).remaining().unref();
    proof {
        vstd::std_specs::btree::axiom_spec_btree_keys_iter(s);
    }
    let mut v: Vec<usize> = Vec::new();
    for x in it: s.iter()
        invariant
            it.seq().unref() == full,
            v@ == full.take(it.index()),
    {
        proof {
            assert(full.take(it.index() + 1) =~= full.take(it.index()).push(full[it.index()]));
        }
        v.push(*x);
    }
    proof {
        assert(v@ =~= full);
    }
    v
}

proof fn lemma_take_contains(s: Seq<usize>, i: int, v: usize)
    requires
        0 <= i < s.len(),
    ensures
        s.take(i + 1).contains(v) <==> (s.take(i).contains(v) || s[i] == v),
{
    let a = s.take(i);
    let b = s.take(i + 1);
    if a.contains(v) {
        let j = choose|j: int| 0 <= j < a.len() && #[trigger] a[j] == v;
        assert(b[j] == v);
    }
    if s[i] == v {
        assert(b[i] == v);
    }
    if b.contains(v) {
        let j = choose|j: int| 0 <= j < b.len() && #[trigger] b[j] == v;
        if j < i {
            assert(a[j] == v);
        }
    }
}

/// Law: the marks moved for `count` rows inserted at `index` and then for
/// the same rows deleted are the marks before.
pub proof fn lemma_marks_insert_then_delete(m: Set<usize>, index: usize, count: usize)
    requires
        index + count <= usize::MAX,
        forall|x: usize| m.contains(x) && x >= index ==> x + count <= usize::MAX,
    ensures
        marks_deleted(marks_inserted(m, index, count), index, count) == m,
{
    let back = marks_deleted(marks_inserted(m, index, count), index, count);
    assert forall|x: usize| back.contains(x) <==> m.contains(x) by {
        if x >= index && x + count <= usize::MAX {
            assert(marks_inserted(m, index, count).contains((x + count) as usize) <==> m.contains(x));
        }
    }
    assert(back =~= m);
}

/// The row a mark at `y` came from when rows were inserted, if it moved.
pub open spec fn source_before_insert(y: usize, index: usize, count: usize) -> Option<usize> {
    if y < index {
        Some(y)
    } else if y >= index + count {
        Some((y - count) as usize)
    } else {
        None
    }
}

/// Moves the marks after rows were inserted (see `marks_inserted`).
pub fn tlk_rows_inserted(modified: &mut BTreeSet<usize>, index: usize, count: usize)
    requires
        index + count <= usize::MAX,
        forall|x: usize| old(modified)@.contains(x) && x >= index ==> x + count <= usize::MAX,
    ensures
        final(modified)@ == marks_inserted(old(modified)@, index, count),
{
    let old_marks = set_elements(modified);
    let mut marks: BTreeSet<usize> = BTreeSet::new();
    let mut i: usize = 0;
    while i < old_marks.len()
        invariant
            i <= old_marks@.len(),
            old_marks@.to_set() == old(modified)@,
            index + count <= usize::MAX,
            forall|x: usize| old(modified)@.contains(x) && x >= index ==> x + count <= usize::MAX,
            forall|y: usize|
                #[trigger] marks@.contains(y) <==> (source_before_insert(y, index, count) matches Some(
                    src,
                ) && old_marks@.take(i as int).contains(src)),
        decreases old_marks@.len() - i,
    {
        let x = old_marks[i];
        assert(old(modified)@.contains(x)) by {
            assert(old_marks@.contains(x));
        }
        let y = if x >= index {
            x + count
        } else {
            x
        };
        marks.insert(y);
        proof {
            assert forall|z: usize| #[trigger] marks@.contains(z) <==> (source_before_insert(
                z,
                index,
                count,
            ) matches Some(src) && old_marks@.take(i + 1).contains(src)) by {
                if let Some(src) = source_before_insert(z, index, count) {
                    lemma_take_contains(old_marks@, i as int, src);
                }
            }
        }
        i = i + 1;
    }
    let mut j: usize = index;
    let end = index + count;
    let ghost moved = marks@;
    while j < end
        invariant
            index <= j <= end,
            end == index + count,
            marks@ == moved.union(Set::new(|x: usize| index <= x < j)),
        decreases end - j,
    {
        marks.insert(j);
        j = j + 1;
        assert(marks@ =~= moved.union(Set::new(|x: usize| index <= x < j)));
    }
    proof {
        assert(old_marks@.take(old_marks@.len() as int) =~= old_marks@);
        assert forall|x: usize| #[trigger] marks@.contains(x) == marks_inserted(old(modified)@, index, count).contains(x) by {
            assert(moved.contains(x) <==> (source_before_insert(x, index, count) matches Some(src)
                && old_marks@.contains(src)));
        }
        assert(marks@ =~= marks_inserted(old(modified)@, index, count));
    }
    *modified = marks;
}

/// Moves the marks after rows were deleted (see `marks_deleted`).
pub fn tlk_rows_deleted(modified: &mut BTreeSet<usize>, index: usize, count: usize)
    requires
        index + count <= usize::MAX,
    ensures
        final(modified)@ == marks_deleted(old(modified)@, index, count),
{
    let old_marks = set_elements(modified);
    let mut marks: BTreeSet<usize> = BTreeSet::new();
    let mut i: usize = 0;
    while i < old_marks.len()
        invariant
            i <= old_marks@.len(),
            old_marks@.to_set() == old(modified)@,
            index + count <= usize::MAX,
            forall|y: usize|
                #[trigger] marks@.contains(y) <==> ((y < index && old_marks@.take(i as int).contains(y))
                    || (y >= index && y + count <= usize::MAX && old_marks@.take(i as int).contains(
                    (y + count) as usize,
                ))),
        decreases old_marks@.len() - i,
    {
        let x = old_marks[i];
        if x < index {
            marks.insert(x);
        } else if x >= index + count {
            marks.insert(x - count);
        }
        proof {
            assert forall|z: usize| #[trigger] marks@.contains(z) <==> ((z < index && old_marks@.take(
                i + 1,
            ).contains(z)) || (z >= index && z + count <= usize::MAX && old_marks@.take(
                i + 1,
            ).contains((z + count) as usize))) by {
                lemma_take_contains(old_marks@, i as int, z);
                if z + count <= usize::MAX {
                    lemma_take_contains(old_marks@, i as int, (z + count) as usize);
                }
            }
        }
        i = i + 1;
    }
    proof {
        assert(old_marks@.take(old_marks@.len() as int) =~= old_marks@);
        assert forall|x: usize| #[trigger] marks@.contains(x) == marks_deleted(old(modified)@, index, count).contains(x) by {
            assert(old_marks@.contains(x) <==> old(modified)@.contains(x));
            if x + count <= usize::MAX {
                assert(old_marks@.contains((x + count) as usize) <==> old(modified)@.contains(
                    (x + count) as usize,
                ));
            }
        }
        assert(marks@ =~= marks_deleted(old(modified)@, index, count));
    }
    *modified = marks;
}

// ---------------------------------------------------------------------------
// String references.
/// The number shown for a talk-table row: the row, plus the user-table flag
/// (bit 24) when user string references are shown.
pub open spec fn strref_value(row: usize, user: bool) -> nat {
    (row as u32) as nat + if user {
        0x100_0000nat
    } else {
        0nat
    }
}

pub open spec fn strref_text(row: usize, user: bool, hex: bool) -> Seq<char> {
    if hex {
        seq!['0', 'x'] + digits(strref_value(row, user), 16)
    } else {
        digits(strref_value(row, user), 10)
    }
}

/// The string reference shown for a row, in decimal or as `0x` and hexadecimal.
pub fn displayed_strref(row: usize, user: bool, hex_display: bool) -> (s: String)
    requires
        strref_value(row, user) <= u32::MAX,
    ensures
        s@ == strref_text(row, user, hex_display),
{
    let base = row as u32;
    let value: u32 = if user {
        base + 0x100_0000
    } else {
        base
    };
    if hex_display {
        hex(value as u64)
    } else {
        decimal(value as u64)
    }
}

// ---------------------------------------------------------------------------
// Inserting rows.
pub open spec fn row_count(d: DocView) -> nat {
    match d {
        DocView::Tlk(t) => t.entries.len(),
        DocView::TwoDa(t) => t.rows.len(),
        DocView::Itp(_) => 0,
    }
}

/// A new talk-table entry: everything zero or empty.
pub open spec fn blank_entry() -> EntryView {
    EntryView {
        flags: 0,
        sound_resref: seq![],
        volume_variance: 0,
        pitch_variance: 0,
        sound_length_bits: 0,
        text: seq![],
    }
}

/// A new 2DA row of `ncols` values: its label, then `****` in every column.
pub open spec fn blank_row(ncols: nat, label: nat) -> Seq<Seq<char>> {
    if ncols == 0 {
        seq![]
    } else {
        seq![digits(label, 10)] + Seq::new((ncols - 1) as nat, |_i: int| empty_tag())
    }
}

pub fn new_entry() -> (e: TlkEntry)
    ensures
        e@ == blank_entry(),
{
    TlkEntry {
        flags: 0,
        sound_resref: String::new(),
        volume_variance: 0,
        pitch_variance: 0,
        sound_length_bits: 0,
        text: String::new(),
    }
}

pub(crate) fn stars() -> (s: String)
    ensures
        s@ == empty_tag(),
{
    let v = vec!['*', '*', '*', '*'];
    let s = crate::text::string_of(v.as_slice());
    assert(v@ =~= empty_tag());
    s
}

/// A new row for a table of `ncols` columns, labelled `label`.
pub fn new_row(ncols: usize, label: usize) -> (r: Vec<String>)
    ensures
        str_views(r@) == blank_row(ncols as nat, label as nat),
{
    let mut row: Vec<String> = Vec::new();
    if ncols == 0 {
        assert(str_views(row@) =~= blank_row(ncols as nat, label as nat));
        return row;
    }
    row.push(decimal(label as u64));
    let mut i: usize = 1;
    while i < ncols
        invariant
            1 <= i <= ncols,
            str_views(row@) == seq![digits(label as nat, 10)] + Seq::new((i - 1) as nat, |_i: int| empty_tag()),
        decreases ncols - i,
    {
        let ghost before = row@;
        row.push(stars());
        assert(str_views(row@) =~= str_views(before).push(empty_tag()));
        assert(seq![digits(label as nat, 10)] + Seq::new(i as nat, |_i: int| empty_tag()) =~= (seq![
            digits(label as nat, 10),
        ] + Seq::new((i - 1) as nat, |_i: int| empty_tag())).push(empty_tag()));
        i = i + 1;
    }
    row
}

/// The edit that inserts a new row at `position`; there is none for a palette.
pub open spec fn insert_action(d: DocView, position: usize) -> Option<ActionView> {
    match d {
        DocView::Tlk(_) => Some(
            ActionView::TlkRows { index: position, removed: seq![], inserted: seq![blank_entry()] },
        ),
        DocView::TwoDa(t) => Some(
            ActionView::TwoDaRows {
                index: position,
                removed: seq![],
                inserted: seq![blank_row(t.columns.len(), position as nat)],
            },
        ),
        DocView::Itp(_) => None,
    }
}

/// No mark is at the last possible row, so marks can move down.
pub open spec fn marks_movable(d: Document) -> bool {
    forall|x: usize| d.tlk_modified@.contains(x) ==> x < usize::MAX
}

/// After an edit was made at `position`: only that row is selected and shown.
pub open spec fn row_selected(d: Document, position: usize) -> bool {
    &&& d.selected_rows@ == set![position]
    &&& d.selected_row == Some(position)
    &&& d.selection_anchor == Some(position)
    &&& d.scroll_to_selected
}

impl Document {
    /// Inserts a new row at `position` as one undoable edit, moves the marks of
    /// later rows down and marks the new row, and selects it. A palette has no
    /// rows and is left as it is.
    pub fn insert_blank_row(&mut self, position: usize)
        requires
            history_wf(old(self).history@),
            position <= row_count(old(self).data@),
            position < usize::MAX,
            marks_movable(*old(self)),
        ensures
            insert_action(old(self).data@, position) is None ==> *final(self) == *old(self),
            insert_action(old(self).data@, position) matches Some(a) ==> {
                &&& final(self).data@ == apply_spec(a, old(self).data@, true)
                &&& final(self).history@ == record_spec(old(self).history@, a)
                &&& final(self).dirty == !is_clean_spec(final(self).history@)
                &&& history_wf(final(self).history@)
                &&& row_selected(*final(self), position)
                &&& final(self).selected_column == old(self).selected_column
                &&& final(self).tlk_modified@ == (if old(self).data@ is Tlk {
                    marks_inserted(old(self).tlk_modified@, position, 1)
                } else {
                    old(self).tlk_modified@
                })
            },
    {
        let action = match &self.data {
            DocumentData::Tlk(_) => {
                let e = new_entry();
                let inserted = vec![e];
                assert(entry_views(inserted@) =~= seq![blank_entry()]);
                EditAction::TlkRows { index: position, removed: Vec::new(), inserted }
            },
            DocumentData::TwoDa(t) => {
                let row = new_row(t.columns.len(), position);
                let inserted = vec![row];
                assert(row_views(inserted@) =~= seq![blank_row(t.columns@.len() as nat, position as nat)]);
                EditAction::TwoDaRows { index: position, removed: Vec::new(), inserted }
            },
            DocumentData::Itp(_) => {
                return;
            },
        };
        proof {
            assert(entry_views(Seq::<TlkEntry>::empty()) =~= Seq::<EntryView>::empty());
            assert(row_views(Seq::<Vec<String>>::empty()) =~= Seq::<Seq<Seq<char>>>::empty());
            assert(action@ == insert_action(old(self).data@, position)->0);
        }
        if let DocumentData::Tlk(_) = &self.data {
            tlk_rows_inserted(&mut self.tlk_modified, position, 1);
        }
        self.commit(action);
        self.selected_rows.clear();
        self.selected_rows.insert(position);
        self.selected_row = Some(position);
        self.selection_anchor = Some(position);
        self.scroll_to_selected = true;
    }
}

/// What a row's context menu asks for.
#[derive(Clone, Copy, Debug, PartialEq, Eq, Structural)]
pub enum RowMenuAction {
    Delete,
    InsertAbove(usize),
    InsertBelow(usize),
}

/// Where the toolbar's "add row" puts the new row: after the current row, or
/// at the end.
pub open spec fn add_position(selected: Option<usize>, count: nat) -> nat {
    match selected {
        Some(r) => if r + 1 <= count {
            (r + 1) as nat
        } else {
            count
        },
        None => count,
    }
}

/// Where a row menu's insertion puts the new row.
pub open spec fn menu_position(action: RowMenuAction, count: nat) -> nat {
    let requested: nat = match action {
        RowMenuAction::InsertAbove(r) => r as nat,
        RowMenuAction::InsertBelow(r) => if r == usize::MAX {
            r as nat
        } else {
            (r + 1) as nat
        },
        RowMenuAction::Delete => 0,
    };
    if requested <= count {
        requested
    } else {
        count
    }
}

impl Document {
    fn row_total(&self) -> (n: usize)
        ensures
            n == row_count(self.data@),
    {
        match &self.data {
            DocumentData::Tlk(t) => t.entries.len(),
            DocumentData::TwoDa(t) => t.rows.len(),
            DocumentData::Itp(_) => 0,
        }
    }

    /// The toolbar's "add row": a new row after the current row, or at the end
    /// (see `insert_blank_row`).
    pub fn add_row(&mut self)
        requires
            history_wf(old(self).history@),
            row_count(old(self).data@) < usize::MAX,
            marks_movable(*old(self)),
        ensures
            insert_action(old(self).data@, add_position(old(self).selected_row, row_count(old(self).data@)) as usize) is None ==> *final(self) == *old(self),
            insert_action(old(self).data@, add_position(old(self).selected_row, row_count(old(self).data@)) as usize) matches Some(a) ==> {
                let position = add_position(old(self).selected_row, row_count(old(self).data@)) as usize;
                &&& final(self).data@ == apply_spec(a, old(self).data@, true)
                &&& final(self).history@ == record_spec(old(self).history@, a)
                &&& final(self).dirty == !is_clean_spec(final(self).history@)
                &&& row_selected(*final(self), position)
                &&& final(self).tlk_modified@ == (if old(self).data@ is Tlk {
                    marks_inserted(old(self).tlk_modified@, position, 1)
                } else {
                    old(self).tlk_modified@
                })
            },
    {
        let count = self.row_total();
        let position = match self.selected_row {
            Some(r) => if r < count {
                r + 1
            } else {
                count
            },
            None => count,
        };
        self.insert_blank_row(position);
    }

    /// Carries out a row menu's choice: deletes the selected rows (see
    /// `delete_document_rows`), or inserts a new row above or below a row (see
    /// `insert_blank_row`), leaving no column current.
    pub fn apply_row_menu_action(&mut self, action: RowMenuAction)
        requires
            history_wf(old(self).history@),
            row_count(old(self).data@) < usize::MAX,
            marks_movable(*old(self)),
        ensures
            action is Delete ==> deleted_rows(*old(self), *final(self)),
            !(action is Delete) && insert_action(old(self).data@, menu_position(action, row_count(old(self).data@)) as usize) is None ==> *final(self) == *old(self),
            !(action is Delete) ==> (insert_action(old(self).data@, menu_position(action, row_count(old(self).data@)) as usize) matches Some(a) ==> {
                let position = menu_position(action, row_count(old(self).data@)) as usize;
                &&& final(self).data@ == apply_spec(a, old(self).data@, true)
                &&& final(self).history@ == record_spec(old(self).history@, a)
                &&& final(self).dirty == !is_clean_spec(final(self).history@)
                &&& row_selected(*final(self), position)
                &&& final(self).selected_column is None
                &&& final(self).tlk_modified@ == (if old(self).data@ is Tlk {
                    marks_inserted(old(self).tlk_modified@, position, 1)
                } else {
                    old(self).tlk_modified@
                })
            }),
    {
        let count = self.row_total();
        let requested = match action {
            RowMenuAction::Delete => {
                self.delete_document_rows();
                return;
            },
            RowMenuAction::InsertAbove(r) => r,
            RowMenuAction::InsertBelow(r) => if r == usize::MAX {
                r
            } else {
                r + 1
            },
        };
        let position = if requested <= count {
            requested
        } else {
            count
        };
        if let DocumentData::Itp(_) = &self.data {
            return;
        }
        self.insert_blank_row(position);
        self.selected_column = None;
    }
}

// ---------------------------------------------------------------------------
// Deleting rows.
/// The edit that deletes row `r`.
pub open spec fn delete_one(d: DocView, r: usize) -> ActionView {
    match d {
        DocView::Tlk(t) => ActionView::TlkRows {
            index: r,
            removed: seq![t.entries[r as int]],
            inserted: seq![],
        },
        DocView::TwoDa(t) => ActionView::TwoDaRows {
            index: r,
            removed: seq![t.rows[r as int]],
            inserted: seq![],
        },
        DocView::Itp(_) => ActionView::Batch(seq![]),
    }
}

/// The edit that deletes the increasing `rows`: one deletion per row, from the
/// last row up, so that each row is still where it was; several make one edit.
pub open spec fn delete_action(d: DocView, rows: Seq<usize>) -> ActionView {
    if rows.len() == 1 {
        delete_one(d, rows[0])
    } else {
        ActionView::Batch(Seq::new(rows.len(), |i: int| delete_one(d, rows[rows.len() - 1 - i])))
    }
}

/// Marks after the increasing `rows` were deleted, from the last row up.
pub open spec fn marks_after_deletes(m: Set<usize>, rows: Seq<usize>) -> Set<usize>
    decreases rows.len(),
{
    if rows.len() == 0 {
        m
    } else {
        marks_after_deletes(marks_deleted(m, rows.last(), 1), rows.drop_last())
    }
}

/// The current row after deleting: where the first deleted row was, or the
/// last row left; none when no row is left.
pub open spec fn row_after_delete(first: usize, remaining: nat) -> Option<usize> {
    if remaining > 0 {
        Some(
            if first < remaining {
                first
            } else {
                (remaining - 1) as usize
            },
        )
    } else {
        None
    }
}

/// `new` is `old` after "delete the selected rows": the rows that
/// `chosen_rows` names go as one undoable edit, the marks move up, and the row
/// at the first deleted position (or the last row) becomes the only selection.
pub open spec fn deleted_rows(old: Document, new: Document) -> bool {
    let count = row_count(old.data@) as usize;
    let rows = chosen_rows(old, count);
    if rows.len() == 0 || old.data@ is Itp {
        new == old
    } else {
        let a = delete_action(old.data@, rows);
        let current = row_after_delete(rows[0], (count - rows.len()) as nat);
        &&& new.data@ == apply_spec(a, old.data@, true)
        &&& row_count(new.data@) == count - rows.len()
        &&& new.history@ == record_spec(old.history@, a)
        &&& new.dirty == !is_clean_spec(new.history@)
        &&& history_wf(new.history@)
        &&& new.tlk_modified@ == (if old.data@ is Tlk {
            marks_after_deletes(old.tlk_modified@, rows)
        } else {
            old.tlk_modified@
        })
        &&& new.selected_row == current
        &&& new.selected_rows@ == (match current {
            Some(r) => set![r],
            None => Set::empty(),
        })
        &&& new.selection_anchor == current
        &&& new.scroll_to_selected == current is Some
        &&& new.selected_column == old.selected_column
    }
}

proof fn lemma_increasing_bound(rows: Seq<usize>, n: nat, j: int)
    requires
        increasing(rows),
        rows.len() > 0,
        rows[rows.len() - 1] < n,
        0 <= j < rows.len(),
    ensures
        rows[j] + (rows.len() - 1 - j) < n,
    decreases rows.len() - j,
{
    if j < rows.len() - 1 {
        lemma_increasing_bound(rows, n, j + 1);
        assert(rows[j] < rows[j + 1]);
    }
}

/// Deleting the rows from the last up: each deletion finds its row, and each
/// takes one row away.
proof fn lemma_delete_batch(d: DocView, rows: Seq<usize>, m: int)
    requires
        !(d is Itp),
        increasing(rows),
        rows.len() > 0,
        forall|i: int| 0 <= i < rows.len() ==> #[trigger] rows[i] < row_count(d),
        row_count(d) <= usize::MAX,
        0 <= m <= rows.len(),
    ensures
        ({
            let s = Seq::new(rows.len(), |i: int| delete_one(d, rows[rows.len() - 1 - i]));
            &&& crate::model::applicable_forward(s.take(m), d)
            &&& row_count(crate::model::apply_forward(s.take(m), d)) == row_count(d) - m
            &&& (d is Tlk <==> crate::model::apply_forward(s.take(m), d) is Tlk)
            &&& (d is TwoDa <==> crate::model::apply_forward(s.take(m), d) is TwoDa)
        }),
    decreases m,
{
    let s = Seq::new(rows.len(), |i: int| delete_one(d, rows[rows.len() - 1 - i]));
    if m > 0 {
        lemma_delete_batch(d, rows, m - 1);
        assert(s.take(m).drop_last() =~= s.take(m - 1));
        let k = rows.len() - 1 - (m - 1);
        lemma_increasing_bound(rows, row_count(d), k);
        assert(s.take(m).last() == delete_one(d, rows[k]));
        let e = crate::model::apply_forward(s.take(m - 1), d);
        let r = rows[k];
        assert(r < row_count(e));
        assert(crate::model::apply_forward(s.take(m), d) == apply_spec(delete_one(d, r), e, true));
        assert(crate::model::applicable_forward(s.take(m), d) == (crate::model::applicable_forward(
            s.take(m - 1),
            d,
        ) && applicable(delete_one(d, r), e, true)));
        match e {
            DocView::Tlk(t) => {
                let put = Seq::<EntryView>::empty();
                assert(crate::model::splice(t.entries, r as int, 1, put).len() == t.entries.len() - 1);
            },
            DocView::TwoDa(t) => {
                let put = Seq::<Seq<Seq<char>>>::empty();
                assert(crate::model::splice(t.rows, r as int, 1, put).len() == t.rows.len() - 1);
            },
            DocView::Itp(_) => {},
        }
    } else {
        assert(s.take(0) =~= Seq::<ActionView>::empty());
    }
}

proof fn lemma_delete_action(d: DocView, rows: Seq<usize>)
    requires
        !(d is Itp),
        increasing(rows),
        rows.len() > 0,
        forall|i: int| 0 <= i < rows.len() ==> #[trigger] rows[i] < row_count(d),
        row_count(d) <= usize::MAX,
    ensures
        applicable(delete_action(d, rows), d, true),
        row_count(apply_spec(delete_action(d, rows), d, true)) == row_count(d) - rows.len(),
{
    if rows.len() > 1 {
        lemma_delete_batch(d, rows, rows.len() as int);
        let s = Seq::new(rows.len(), |i: int| delete_one(d, rows[rows.len() - 1 - i]));
        assert(s.take(rows.len() as int) =~= s);
    }
}

/// Moves the marks for the deletion of the increasing `rows`.
fn marks_after_row_deletes(marks: &mut BTreeSet<usize>, rows: &Vec<usize>)
    requires
        forall|j: int| 0 <= j < rows@.len() ==> #[trigger] rows@[j] < usize::MAX,
    ensures
        final(marks)@ == marks_after_deletes(old(marks)@, rows@),
{
    let k = rows.len();
    let mut i: usize = 0;
    assert(rows@.take(k as int) =~= rows@);
    while i < k
        invariant
            i <= k,
            k == rows@.len(),
            forall|j: int| 0 <= j < k ==> #[trigger] rows@[j] < usize::MAX,
            marks_after_deletes(marks@, rows@.take(k - i)) == marks_after_deletes(old(marks)@, rows@),
        decreases k - i,
    {
        let r = rows[k - 1 - i];
        proof {
            assert(rows@.take(k - i).last() == r);
            assert(rows@.take(k - i).drop_last() =~= rows@.take(k - i - 1));
        }
        tlk_rows_deleted(marks, r, 1);
        i = i + 1;
    }
    assert(rows@.take(0) =~= Seq::<usize>::empty());
}

impl Document {
    /// Deletes the rows that `chosen_rows` names (see `deleted_rows`) and
    /// gives how many went.
    pub fn delete_document_rows(&mut self) -> (removed: usize)
        requires
            history_wf(old(self).history@),
        ensures
            deleted_rows(*old(self), *final(self)),
            removed == (if old(self).data@ is Itp {
                0
            } else {
                chosen_rows(*old(self), row_count(old(self).data@) as usize).len()
            }),
    {
        let count = self.row_total();
        if let DocumentData::Itp(_) = &self.data {
            return 0;
        }
        let rows = selected_rows(self, count);
        let k = rows.len();
        if k == 0 {
            return 0;
        }
        let ghost d = self.data@;
        let mut actions: Vec<EditAction> = Vec::new();
        let mut i: usize = 0;
        while i < k
            invariant
                i <= k,
                k == rows@.len(),
                d == self.data@,
                history_wf(self.history@),
                !(d is Itp),
                forall|j: int| 0 <= j < k ==> #[trigger] rows@[j] < row_count(d),
                crate::model::action_views(actions@) == Seq::new(
                    i as nat,
                    |j: int| delete_one(d, rows@[k - 1 - j]),
                ),
            decreases k - i,
        {
            let r = rows[k - 1 - i];
            let action = match &self.data {
                DocumentData::Tlk(t) => {
                    let removed = vec![t.entries[r].duplicate()];
                    assert(entry_views(removed@) =~= seq![t.entries@[r as int]@]);
                    assert(entry_views(Seq::<TlkEntry>::empty()) =~= Seq::<EntryView>::empty());
                    EditAction::TlkRows { index: r, removed, inserted: Vec::new() }
                },
                DocumentData::TwoDa(t) => {
                    let removed = vec![crate::model::dup_strings(&t.rows[r])];
                    assert(row_views(removed@) =~= seq![str_views(t.rows@[r as int]@)]);
                    assert(row_views(Seq::<Vec<String>>::empty()) =~= Seq::<Seq<Seq<char>>>::empty());
                    EditAction::TwoDaRows { index: r, removed, inserted: Vec::new() }
                },
                DocumentData::Itp(_) => {
                    return 0;
                },
            };
            let ghost before = actions@;
            actions.push(action);
            proof {
                crate::model::lemma_views_push(before, action);
                assert(Seq::new((i + 1) as nat, |j: int| delete_one(d, rows@[k - 1 - j])) =~= Seq::new(
                    i as nat,
                    |j: int| delete_one(d, rows@[k - 1 - j]),
                ).push(delete_one(d, rows@[k - 1 - i])));
            }
            i = i + 1;
        }
        proof {
            crate::model::lemma_views_len(actions@);
        }
        let action = if k == 1 {
            let ghost all = actions@;
            let a = actions.pop().unwrap();
            proof {
                assert(all =~= seq![a]);
                assert(crate::model::action_views(all).last() == action_view(a));
            }
            a
        } else {
            EditAction::Batch(actions)
        };
        proof {
            assert(action@ == delete_action(d, rows@));
            lemma_delete_action(d, rows@);
        }
        if let DocumentData::Tlk(_) = &self.data {
            marks_after_row_deletes(&mut self.tlk_modified, &rows);
        }
        self.commit(action);
        let remaining = count - k;
        let first = rows[0];
        self.selected_rows.clear();
        if remaining > 0 {
            let current = if first < remaining {
                first
            } else {
                remaining - 1
            };
            self.selected_row = Some(current);
            self.selected_rows.insert(current);
        } else {
            self.selected_row = None;
        }
        self.selection_anchor = self.selected_row;
        self.scroll_to_selected = self.selected_row.is_some();
        proof {
            let a = delete_action(d, rows@);
            assert(self.data@ == apply_spec(a, old(self).data@, true));
            assert(row_count(self.data@) == count - rows@.len());
            assert(self.history@ == record_spec(old(self).history@, a));
            assert(self.tlk_modified@ == (if old(self).data@ is Tlk {
                marks_after_deletes(old(self).tlk_modified@, rows@)
            } else {
                old(self).tlk_modified@
            }));
            assert(self.selected_row == row_after_delete(rows@[0], (count - rows@.len()) as nat));
        }
        k
    }
}

// ---------------------------------------------------------------------------
// Resizing and renumbering.
/// The edit that gives a table `size` rows: new rows at the end, or the rows
/// from `size` on removed; none when the size stays or for a palette.
pub open spec fn resize_action(d: DocView, size: usize) -> Option<ActionView> {
    match d {
        DocView::Tlk(t) => if size > t.entries.len() {
            Some(
                ActionView::TlkRows {
                    index: t.entries.len() as usize,
                    removed: seq![],
                    inserted: Seq::new((size - t.entries.len()) as nat, |_i: int| blank_entry()),
                },
            )
        } else if size < t.entries.len() {
            Some(
                ActionView::TlkRows {
                    index: size,
                    removed: t.entries.subrange(size as int, t.entries.len() as int),
                    inserted: seq![],
                },
            )
        } else {
            None
        },
        DocView::TwoDa(t) => if size > t.rows.len() {
            Some(
                ActionView::TwoDaRows {
                    index: t.rows.len() as usize,
                    removed: seq![],
                    inserted: Seq::new(
                        (size - t.rows.len()) as nat,
                        |i: int| blank_row(t.columns.len(), (t.rows.len() + i) as nat),
                    ),
                },
            )
        } else if size < t.rows.len() {
            Some(
                ActionView::TwoDaRows {
                    index: size,
                    removed: t.rows.subrange(size as int, t.rows.len() as int),
                    inserted: seq![],
                },
            )
        } else {
            None
        },
        DocView::Itp(_) => None,
    }
}

fn blank_entries(n: usize) -> (v: Vec<TlkEntry>)
    ensures
        entry_views(v@) == Seq::new(n as nat, |_i: int| blank_entry()),
{
    let mut v: Vec<TlkEntry> = Vec::new();
    let mut i: usize = 0;
    while i < n
        invariant
            i <= n,
            entry_views(v@) == Seq::new(i as nat, |_i: int| blank_entry()),
        decreases n - i,
    {
        let ghost before = v@;
        v.push(new_entry());
        assert(entry_views(v@) =~= entry_views(before).push(blank_entry()));
        i = i + 1;
        assert(entry_views(v@) =~= Seq::new(i as nat, |_i: int| blank_entry()));
    }
    v
}

fn blank_rows(ncols: usize, from: usize, to: usize) -> (v: Vec<Vec<String>>)
    requires
        from <= to,
    ensures
        row_views(v@) == Seq::new((to - from) as nat, |i: int| blank_row(ncols as nat, (from + i) as nat)),
{
    let mut v: Vec<Vec<String>> = Vec::new();
    let mut i: usize = from;
    while i < to
        invariant
            from <= i <= to,
            row_views(v@) == Seq::new((i - from) as nat, |j: int| blank_row(ncols as nat, (from + j) as nat)),
        decreases to - i,
    {
        let ghost before = v@;
        v.push(new_row(ncols, i));
        assert(row_views(v@) =~= row_views(before).push(blank_row(ncols as nat, i as nat)));
        i = i + 1;
        assert(row_views(v@) =~= Seq::new((i - from) as nat, |j: int| blank_row(ncols as nat, (from + j) as nat)));
    }
    v
}

impl Document {
    /// Gives the table `size` rows as one undoable edit (see `resize_action`),
    /// moves the marks, and selects the last row.
    pub fn resize(&mut self, size: usize)
        requires
            history_wf(old(self).history@),
            size > row_count(old(self).data@) ==> forall|x: usize|
                old(self).tlk_modified@.contains(x) && x >= row_count(old(self).data@) ==> x + (size
                    - row_count(old(self).data@)) <= usize::MAX,
        ensures
            resize_action(old(self).data@, size) is None ==> *final(self) == *old(self),
            resize_action(old(self).data@, size) matches Some(a) ==> {
                let n = row_count(old(self).data@) as usize;
                let current = if size > 0 {
                    Some((size - 1) as usize)
                } else {
                    None::<usize>
                };
                &&& final(self).data@ == apply_spec(a, old(self).data@, true)
                &&& row_count(final(self).data@) == size
                &&& final(self).history@ == record_spec(old(self).history@, a)
                &&& final(self).dirty == !is_clean_spec(final(self).history@)
                &&& history_wf(final(self).history@)
                &&& final(self).tlk_modified@ == (if !(old(self).data@ is Tlk) {
                    old(self).tlk_modified@
                } else if size > n {
                    marks_inserted(old(self).tlk_modified@, n, (size - n) as usize)
                } else {
                    marks_deleted(old(self).tlk_modified@, size, (n - size) as usize)
                })
                &&& final(self).selected_row == current
                &&& final(self).selected_rows@ == (match current {
                    Some(r) => set![r],
                    None => Set::empty(),
                })
                &&& final(self).selection_anchor == current
            },
    {
        let n = self.row_total();
        if size == n {
            return;
        }
        let action = match &self.data {
            DocumentData::Tlk(t) => {
                if size > n {
                    let inserted = blank_entries(size - n);
                    assert(entry_views(Seq::<TlkEntry>::empty()) =~= Seq::<EntryView>::empty());
                    EditAction::TlkRows { index: n, removed: Vec::new(), inserted }
                } else {
                    let mut removed: Vec<TlkEntry> = Vec::new();
                    crate::model::dup_entries_range(&t.entries, size, n, &mut removed);
                    assert(entry_views(Seq::<TlkEntry>::empty()) =~= Seq::<EntryView>::empty());
                    assert(entry_views(removed@) =~= entry_views(t.entries@).subrange(size as int, n as int));
                    EditAction::TlkRows { index: size, removed, inserted: Vec::new() }
                }
            },
            DocumentData::TwoDa(t) => {
                if size > n {
                    let inserted = blank_rows(t.columns.len(), n, size);
                    assert(row_views(Seq::<Vec<String>>::empty()) =~= Seq::<Seq<Seq<char>>>::empty());
                    EditAction::TwoDaRows { index: n, removed: Vec::new(), inserted }
                } else {
                    let mut removed: Vec<Vec<String>> = Vec::new();
                    crate::model::dup_rows_range(&t.rows, size, n, &mut removed);
                    assert(row_views(Seq::<Vec<String>>::empty()) =~= Seq::<Seq<Seq<char>>>::empty());
                    assert(row_views(removed@) =~= row_views(t.rows@).subrange(size as int, n as int));
                    EditAction::TwoDaRows { index: size, removed, inserted: Vec::new() }
                }
            },
            DocumentData::Itp(_) => {
                return;
            },
        };
        proof {
            assert(action@ == resize_action(old(self).data@, size)->0);
        }
        if let DocumentData::Tlk(_) = &self.data {
            if size > n {
                tlk_rows_inserted(&mut self.tlk_modified, n, size - n);
            } else {
                tlk_rows_deleted(&mut self.tlk_modified, size, n - size);
            }
        }
        self.commit(action);
        self.selected_rows.clear();
        if size > 0 {
            self.selected_row = Some(size - 1);
            self.selected_rows.insert(size - 1);
        } else {
            self.selected_row = None;
        }
        self.selection_anchor = self.selected_row;
    }
}

/// The label a renumbering gives row `i`: its index, unless the row has no
/// label or, when `keep_marked`, its label starts with `!`.
pub open spec fn renumbered_row(row: Seq<Seq<char>>, i: int, keep_marked: bool) -> Seq<Seq<char>> {
    if row.len() > 0 && !(keep_marked && row[0].len() > 0 && row[0][0] == '!') {
        row.update(0, digits(i as nat, 10))
    } else {
        row
    }
}

pub open spec fn renumbered(t: TableView, keep_marked: bool) -> TableView {
    TableView {
        rows: Seq::new(t.rows.len(), |i: int| renumbered_row(t.rows[i], i, keep_marked)),
        ..t
    }
}

impl Document {
    /// Sets each row's label to its index (keeping labels that start with `!`
    /// when `keep_marked`), as one undoable edit when anything changes.
    pub fn renumber_twoda(&mut self, keep_marked: bool)
        requires
            history_wf(old(self).history@),
        ensures
            !(old(self).data@ is TwoDa) ==> *final(self) == *old(self),
            old(self).data@ matches DocView::TwoDa(t) ==> {
                let after = renumbered(t, keep_marked);
                &&& after == t ==> *final(self) == *old(self)
                &&& after != t ==> {
                    let a = ActionView::TwoDaTable { before: t, after };
                    &&& final(self).data@ == DocView::TwoDa(after)
                    &&& final(self).data@ == apply_spec(a, old(self).data@, true)
                    &&& final(self).history@ == record_spec(old(self).history@, a)
                    &&& final(self).dirty == !is_clean_spec(final(self).history@)
                    &&& crate::model::same_view_state(*final(self), *old(self))
                }
            },
    {
        let (before, after, changed) = match &self.data {
            DocumentData::TwoDa(t) => {
                let before = t.duplicate();
                let mut rows: Vec<Vec<String>> = Vec::new();
                let mut changed = false;
                let mut i: usize = 0;
                while i < t.rows.len()
                    invariant
                        i <= t.rows@.len(),
                        row_views(rows@) == Seq::new(
                            i as nat,
                            |j: int| renumbered_row(row_views(t.rows@)[j], j, keep_marked),
                        ),
                        changed <==> exists|j: int|
                            0 <= j < i && renumbered_row(row_views(t.rows@)[j], j, keep_marked)
                                != row_views(t.rows@)[j],
                    decreases t.rows@.len() - i,
                {
                    let mut row = crate::model::dup_strings(&t.rows[i]);
                    let ghost old_row = str_views(t.rows@[i as int]@);
                    let ghost was_changed = changed;
                    assert(row_views(t.rows@)[i as int] == old_row);
                    if row.len() > 0 {
                        let first = crate::text::chars_of(row[0].as_str());
                        let marked = first.len() > 0 && first[0] == '!';
                        if !(keep_marked && marked) {
                            let label = decimal(i as u64);
                            let same = crate::itp::str_eq(row[0].as_str(), label.as_str());
                            if !same {
                                changed = true;
                                assert(old_row[0] != digits(i as nat, 10));
                                assert(renumbered_row(old_row, i as int, keep_marked)[0] != old_row[0]);
                            } else {
                                assert(old_row.update(0, digits(i as nat, 10)) =~= old_row);
                            }
                            let ghost before_row = row@;
                            row.set(0, label);
                            assert(str_views(row@) =~= str_views(before_row).update(0, digits(i as nat, 10)));
                        }
                    }
                    assert(str_views(row@) == renumbered_row(old_row, i as int, keep_marked));
                    assert(changed == (was_changed || renumbered_row(old_row, i as int, keep_marked)
                        != old_row));
                    assert(changed <==> exists|j: int|
                        0 <= j < i + 1 && renumbered_row(row_views(t.rows@)[j], j, keep_marked)
                            != row_views(t.rows@)[j]) by {
                        if renumbered_row(old_row, i as int, keep_marked) != old_row {
                            assert(renumbered_row(row_views(t.rows@)[i as int], i as int, keep_marked)
                                != row_views(t.rows@)[i as int]);
                        }
                    }
                    let ghost before_rows = rows@;
                    rows.push(row);
                    assert(row_views(rows@) =~= row_views(before_rows).push(
                        renumbered_row(old_row, i as int, keep_marked),
                    ));
                    assert(Seq::new(
                        (i + 1) as nat,
                        |j: int| renumbered_row(row_views(t.rows@)[j], j, keep_marked),
                    ) =~= Seq::new(
                        i as nat,
                        |j: int| renumbered_row(row_views(t.rows@)[j], j, keep_marked),
                    ).push(renumbered_row(old_row, i as int, keep_marked)));
                    i = i + 1;
                }
                let after = TwoDaFile {
                    default_value: crate::model::dup_opt(&t.default_value),
                    columns: crate::model::dup_strings(&t.columns),
                    rows,
                    format: t.format,
                };
                (before, after, changed)
            },
            _ => {
                return;
            },
        };
        proof {
            let t = before@;
            assert(after@.rows =~= renumbered(t, keep_marked).rows);
            assert(after@ == renumbered(t, keep_marked));
            if !changed {
                assert(after@.rows =~= t.rows) by {
                    assert forall|j: int| 0 <= j < t.rows.len() implies after@.rows[j] == t.rows[j] by {
                        assert(renumbered_row(t.rows[j], j, keep_marked) == t.rows[j]);
                    }
                }
            }
        }
        if !changed {
            return;
        }
        self.commit(EditAction::TwoDaTable { before, after });
    }
}

// ---------------------------------------------------------------------------
// Columns.
/// Every one of the `nrows` cells of column `c` is selected.
pub open spec fn column_full(cells: Set<(usize, usize)>, nrows: nat, c: usize) -> bool {
    forall|r: usize| r < nrows ==> #[trigger] cells.contains((r, c))
}

/// The columns below `n` all of whose `nrows` cells are selected, in order.
pub open spec fn full_columns(cells: Set<(usize, usize)>, nrows: nat, n: nat) -> Seq<usize>
    decreases n,
{
    if n == 0 {
        seq![]
    } else if column_full(cells, nrows, (n - 1) as usize) {
        full_columns(cells, nrows, (n - 1) as nat).push((n - 1) as usize)
    } else {
        full_columns(cells, nrows, (n - 1) as nat)
    }
}

/// The columns that "delete columns" removes: the selected columns of the
/// table, or else those whose every cell is selected.
pub open spec fn fully_selected_columns(d: Document) -> Seq<usize> {
    match d.data@ {
        DocView::TwoDa(t) => if !d.selected_columns@.is_empty() {
            in_order_below(d.selected_columns@, t.columns.len())
        } else {
            full_columns(d.selected_cells@, t.rows.len(), t.columns.len())
        },
        _ => seq![],
    }
}

fn column_fully_selected(cells: &BTreeSet<(usize, usize)>, nrows: usize, c: usize) -> (r: bool)
    ensures
        r == column_full(cells@, nrows as nat, c),
{
    let mut row: usize = 0;
    while row < nrows
        invariant
            row <= nrows,
            forall|x: usize| x < row ==> #[trigger] cells@.contains((x, c)),
        decreases nrows - row,
    {
        if !cells.contains(&(row, c)) {
            return false;
        }
        row = row + 1;
    }
    true
}

/// See `fully_selected_columns`.
pub fn fully_selected_twoda_columns(document: &Document) -> (r: Vec<usize>)
    ensures
        r@ == fully_selected_columns(*document),
{
    let mut out: Vec<usize> = Vec::new();
    match &document.data {
        DocumentData::TwoDa(t) => {
            let n = t.columns.len();
            let by_columns = !document.selected_columns.is_empty();
            let mut c: usize = 0;
            while c < n
                invariant
                    c <= n,
                    n == t.columns@.len(),
                    by_columns == !document.selected_columns@.is_empty(),
                    out@ == (if by_columns {
                        in_order_below(document.selected_columns@, c as nat)
                    } else {
                        full_columns(document.selected_cells@, t.rows@.len(), c as nat)
                    }),
                decreases n - c,
            {
                let keep = if by_columns {
                    document.selected_columns.contains(&c)
                } else {
                    column_fully_selected(&document.selected_cells, t.rows.len(), c)
                };
                if keep {
                    out.push(c);
                }
                c = c + 1;
            }
        },
        _ => {},
    }
    out
}

/// `s` without the elements whose index is in `del`.
pub open spec fn without<A>(s: Seq<A>, del: Set<usize>) -> Seq<A>
    decreases s.len(),
{
    if s.len() == 0 {
        seq![]
    } else if del.contains((s.len() - 1) as usize) {
        without(s.drop_last(), del)
    } else {
        without(s.drop_last(), del).push(s.last())
    }
}

/// The table without the columns in `del`, in its header and in every row.
pub open spec fn without_columns(t: TableView, del: Set<usize>) -> TableView {
    TableView {
        columns: without(t.columns, del),
        rows: t.rows.map_values(|row: Seq<Seq<char>>| without(row, del)),
        ..t
    }
}

fn strings_without(v: &Vec<String>, del: &Vec<bool>) -> (r: Vec<String>)
    ensures
        str_views(r@) == without(str_views(v@), Set::new(|j: usize| j < del@.len() && del@[j as int])),
{
    let ghost dset = Set::new(|j: usize| j < del@.len() && del@[j as int]);
    let mut out: Vec<String> = Vec::new();
    let mut i: usize = 0;
    while i < v.len()
        invariant
            i <= v@.len(),
            dset == Set::new(|j: usize| j < del@.len() && del@[j as int]),
            str_views(out@) == without(str_views(v@).take(i as int), dset),
        decreases v@.len() - i,
    {
        let ghost before = out@;
        let drop = i < del.len() && del[i];
        assert(str_views(v@).take(i + 1).drop_last() =~= str_views(v@).take(i as int));
        if !drop {
            out.push(v[i].clone());
            assert(str_views(out@) =~= str_views(before).push(v@[i as int]@));
        }
        i = i + 1;
    }
    assert(str_views(v@).take(v@.len() as int) =~= str_views(v@));
    out
}

impl Document {
    /// Removes the distinct `columns` that exist, as one undoable edit, unless
    /// none would be removed or none would be left; unselects cells and
    /// columns. Gives how many columns went.
    pub fn delete_twoda_columns(&mut self, columns: Vec<usize>) -> (removed: usize)
        requires
            history_wf(old(self).history@),
        ensures
            match old(self).data@ {
                DocView::TwoDa(t) => {
                    let del = Set::new(|j: usize| columns@.contains(j) && j < t.columns.len());
                    let gone = in_order_below(del, t.columns.len());
                    if gone.len() == 0 || gone.len() >= t.columns.len() {
                        removed == 0 && *final(self) == *old(self)
                    } else {
                        let after = without_columns(t, del);
                        let a = ActionView::TwoDaTable { before: t, after };
                        &&& removed == gone.len()
                        &&& final(self).data@ == DocView::TwoDa(after)
                        &&& final(self).data@ == apply_spec(a, old(self).data@, true)
                        &&& final(self).history@ == record_spec(old(self).history@, a)
                        &&& final(self).dirty == !is_clean_spec(final(self).history@)
                        &&& final(self).selected_cells@.is_empty()
                        &&& final(self).selected_columns@.is_empty()
                        &&& final(self).cell_selection_anchor is None
                        &&& final(self).selected_column is None
                        &&& final(self).selected_rows@ == old(self).selected_rows@
                        &&& final(self).selected_row == old(self).selected_row
                    }
                },
                _ => removed == 0 && *final(self) == *old(self),
            },
    {
        let (before, after, count) = match &self.data {
            DocumentData::TwoDa(t) => {
                let n = t.columns.len();
                let mut mask: Vec<bool> = Vec::new();
                let mut c: usize = 0;
                while c < n
                    invariant
                        c <= n,
                        mask@.len() == c,
                        forall|j: int| 0 <= j < c ==> mask@[j] == columns@.contains(j as usize),
                    decreases n - c,
                {
                    let mut found = false;
                    let mut k: usize = 0;
                    while k < columns.len()
                        invariant
                            k <= columns@.len(),
                            found == columns@.take(k as int).contains(c),
                        decreases columns@.len() - k,
                    {
                        proof {
                            lemma_take_contains(columns@, k as int, c);
                        }
                        if columns[k] == c {
                            found = true;
                        }
                        k = k + 1;
                    }
                    assert(columns@.take(columns@.len() as int) =~= columns@);
                    mask.push(found);
                    c = c + 1;
                }
                let ghost dset = Set::new(|j: usize| j < mask@.len() && mask@[j as int]);
                let ghost del = Set::new(|j: usize| columns@.contains(j) && j < n);
                assert(dset =~= del);
                let mut count: usize = 0;
                let mut j: usize = 0;
                while j < n
                    invariant
                        j <= n,
                        mask@.len() == n,
                        forall|x: int| 0 <= x < n ==> mask@[x] == columns@.contains(x as usize),
                        del == Set::new(|j: usize| columns@.contains(j) && j < n),
                        count == in_order_below(del, j as nat).len(),
                        count <= j,
                    decreases n - j,
                {
                    if mask[j] {
                        count = count + 1;
                    }
                    j = j + 1;
                }
                if count == 0 || count >= n {
                    return 0;
                }
                let before = t.duplicate();
                let new_columns = strings_without(&t.columns, &mask);
                let mut rows: Vec<Vec<String>> = Vec::new();
                let mut r: usize = 0;
                while r < t.rows.len()
                    invariant
                        r <= t.rows@.len(),
                        dset == Set::new(|j: usize| j < mask@.len() && mask@[j as int]),
                        row_views(rows@) == row_views(t.rows@).take(r as int).map_values(
                            |row: Seq<Seq<char>>| without(row, dset),
                        ),
                    decreases t.rows@.len() - r,
                {
                    let ghost before_rows = rows@;
                    let nr = strings_without(&t.rows[r], &mask);
                    assert(row_views(t.rows@)[r as int] == str_views(t.rows@[r as int]@));
                    assert(str_views(nr@) == without(row_views(t.rows@)[r as int], dset));
                    rows.push(nr);
                    assert(row_views(rows@) =~= row_views(before_rows).push(str_views(nr@)));
                    assert(row_views(t.rows@).take(r + 1) =~= row_views(t.rows@).take(r as int).push(
                        row_views(t.rows@)[r as int],
                    ));
                    assert(row_views(rows@) =~= row_views(t.rows@).take(r + 1).map_values(
                        |row: Seq<Seq<char>>| without(row, dset),
                    ));
                    r = r + 1;
                }
                assert(row_views(t.rows@).take(t.rows@.len() as int) =~= row_views(t.rows@));
                let after = TwoDaFile {
                    default_value: crate::model::dup_opt(&t.default_value),
                    columns: new_columns,
                    rows,
                    format: t.format,
                };
                proof {
                    assert(after@.rows =~= without_columns(t@, del).rows);
                    assert(after@ == without_columns(t@, del));
                }
                (before, after, count)
            },
            _ => {
                return 0;
            },
        };
        self.selected_cells.clear();
        self.selected_columns.clear();
        self.cell_selection_anchor = None;
        self.selected_column = None;
        self.commit(EditAction::TwoDaTable { before, after });
        count
    }
}

/// What the column dialog asks for.
#[derive(Clone, Copy, Debug, PartialEq, Eq, Structural)]
pub enum ColumnAction {
    Insert,
    Drop,
    Rename,
}

/// Why the column dialog's request was refused.
#[derive(Clone, Copy, Debug, PartialEq, Eq, Structural)]
pub enum ColumnError {
    BadName,
    OutsideTable,
    CannotRemove,
}

impl ColumnError {
    pub fn message(self) -> (r: &'static str)
        ensures
            r@ == (match self {
                ColumnError::BadName => "Column names cannot be empty or contain spaces"@,
                ColumnError::OutsideTable => "The column position is outside the table"@,
                ColumnError::CannotRemove => "That column cannot be removed"@,
            }),
    {
        match self {
            ColumnError::BadName => "Column names cannot be empty or contain spaces",
            ColumnError::OutsideTable => "The column position is outside the table",
            ColumnError::CannotRemove => "That column cannot be removed",
        }
    }
}

pub open spec fn bad_name(name: Seq<char>) -> bool {
    name.len() == 0 || crate::text::has_ws(name)
}

/// The table after the column dialog's request, or why it is refused: a new
/// column `name` at `index` with `default` in every row, removing column
/// `index` (not the only column), or renaming it.
pub open spec fn altered(
    t: TableView,
    action: ColumnAction,
    index: usize,
    name: Seq<char>,
    default: Seq<char>,
) -> Result<TableView, ColumnError> {
    match action {
        ColumnAction::Insert => if index <= t.columns.len() {
            if bad_name(name) {
                Err(ColumnError::BadName)
            } else {
                Ok(
                    TableView {
                        columns: t.columns.insert(index as int, name),
                        rows: t.rows.map_values(|row: Seq<Seq<char>>| row.insert(index as int, default)),
                        ..t
                    },
                )
            }
        } else {
            Err(ColumnError::OutsideTable)
        },
        ColumnAction::Drop => if index < t.columns.len() && t.columns.len() > 1 {
            Ok(
                TableView {
                    columns: t.columns.remove(index as int),
                    rows: t.rows.map_values(
                        |row: Seq<Seq<char>>| if index < row.len() {
                            row.remove(index as int)
                        } else {
                            row
                        },
                    ),
                    ..t
                },
            )
        } else {
            Err(ColumnError::CannotRemove)
        },
        ColumnAction::Rename => if index < t.columns.len() {
            if bad_name(name) {
                Err(ColumnError::BadName)
            } else {
                Ok(TableView { columns: t.columns.update(index as int, name), ..t })
            }
        } else {
            Err(ColumnError::OutsideTable)
        },
    }
}

fn has_space(s: &str) -> (r: bool)
    ensures
        r == crate::text::has_ws(s@),
{
    let v = crate::text::chars_of(s);
    let mut i: usize = 0;
    while i < v.len()
        invariant
            v@ == s@,
            i <= v@.len(),
            forall|j: int| 0 <= j < i ==> !crate::text::is_ws(#[trigger] v@[j]),
        decreases v@.len() - i,
    {
        if crate::text::is_whitespace(v[i]) {
            return true;
        }
        i = i + 1;
    }
    false
}

fn altered_table(t: &TwoDaFile, action: ColumnAction, index: usize, name: &str, default: &str) -> (r: Result<TwoDaFile, ColumnError>)
    requires
        action is Insert && index <= t@.columns.len() ==> forall|i: int| 0 <= i < t@.rows.len() ==> index <= #[trigger] t@.rows[i].len(),
    ensures
        match r {
            Ok(after) => altered(t@, action, index, name@, default@) == Ok::<TableView, ColumnError>(after@),
            Err(e) => altered(t@, action, index, name@, default@) == Err::<TableView, ColumnError>(e),
        },
{
    let n = t.columns.len();
    let name_chars = crate::text::chars_of(name);
    let bad = name_chars.len() == 0 || has_space(name);
    match action {
        ColumnAction::Insert => {
            if index > n {
                return Err(ColumnError::OutsideTable);
            }
            if bad {
                return Err(ColumnError::BadName);
            }
            let mut columns = crate::model::dup_strings(&t.columns);
            let ghost c0 = columns@;
            columns.insert(index, name.to_owned());
            assert(str_views(columns@) =~= str_views(c0).insert(index as int, name@));
            let mut rows: Vec<Vec<String>> = Vec::new();
            let mut r: usize = 0;
            while r < t.rows.len()
                invariant
                    r <= t.rows@.len(),
                    forall|i: int| 0 <= i < t@.rows.len() ==> index <= #[trigger] t@.rows[i].len(),
                    row_views(rows@) == row_views(t.rows@).take(r as int).map_values(
                        |row: Seq<Seq<char>>| row.insert(index as int, default@),
                    ),
                decreases t.rows@.len() - r,
            {
                let mut row = crate::model::dup_strings(&t.rows[r]);
                assert(row_views(t.rows@)[r as int] == str_views(t.rows@[r as int]@));
                assert(t@.rows[r as int] == row_views(t.rows@)[r as int]);
                let ghost r0 = row@;
                row.insert(index, default.to_owned());
                assert(str_views(row@) =~= str_views(r0).insert(index as int, default@));
                let ghost before_rows = rows@;
                rows.push(row);
                assert(row_views(rows@) =~= row_views(before_rows).push(str_views(row@)));
                assert(row_views(t.rows@).take(r + 1) =~= row_views(t.rows@).take(r as int).push(
                    row_views(t.rows@)[r as int],
                ));
                assert(row_views(rows@) =~= row_views(t.rows@).take(r + 1).map_values(
                    |row: Seq<Seq<char>>| row.insert(index as int, default@),
                ));
                r = r + 1;
            }
            assert(row_views(t.rows@).take(t.rows@.len() as int) =~= row_views(t.rows@));
            let after = TwoDaFile {
                default_value: crate::model::dup_opt(&t.default_value),
                columns,
                rows,
                format: t.format,
            };
            assert(after@.rows =~= t@.rows.map_values(|row: Seq<Seq<char>>| row.insert(index as int, default@)));
            Ok(after)
        },
        ColumnAction::Drop => {
            if !(index < n && n > 1) {
                return Err(ColumnError::CannotRemove);
            }
            let mut columns = crate::model::dup_strings(&t.columns);
            let ghost c0 = columns@;
            columns.remove(index);
            assert(str_views(columns@) =~= str_views(c0).remove(index as int));
            let mut rows: Vec<Vec<String>> = Vec::new();
            let mut r: usize = 0;
            while r < t.rows.len()
                invariant
                    r <= t.rows@.len(),
                    row_views(rows@) == row_views(t.rows@).take(r as int).map_values(
                        |row: Seq<Seq<char>>| if index < row.len() {
                            row.remove(index as int)
                        } else {
                            row
                        },
                    ),
                decreases t.rows@.len() - r,
            {
                let mut row = crate::model::dup_strings(&t.rows[r]);
                assert(row_views(t.rows@)[r as int] == str_views(t.rows@[r as int]@));
                let ghost r0 = row@;
                if index < row.len() {
                    row.remove(index);
                    assert(str_views(row@) =~= str_views(r0).remove(index as int));
                }
                let ghost before_rows = rows@;
                rows.push(row);
                assert(row_views(rows@) =~= row_views(before_rows).push(str_views(row@)));
                assert(row_views(t.rows@).take(r + 1) =~= row_views(t.rows@).take(r as int).push(
                    row_views(t.rows@)[r as int],
                ));
                assert(row_views(rows@) =~= row_views(t.rows@).take(r + 1).map_values(
                    |row: Seq<Seq<char>>| if index < row.len() {
                        row.remove(index as int)
                    } else {
                        row
                    },
                ));
                r = r + 1;
            }
            assert(row_views(t.rows@).take(t.rows@.len() as int) =~= row_views(t.rows@));
            let after = TwoDaFile {
                default_value: crate::model::dup_opt(&t.default_value),
                columns,
                rows,
                format: t.format,
            };
            assert(after@.rows =~= t@.rows.map_values(
                |row: Seq<Seq<char>>| if index < row.len() {
                    row.remove(index as int)
                } else {
                    row
                },
            ));
            Ok(after)
        },
        ColumnAction::Rename => {
            if index >= n {
                return Err(ColumnError::OutsideTable);
            }
            if bad {
                return Err(ColumnError::BadName);
            }
            let mut after = t.duplicate();
            let ghost c0 = after.columns@;
            after.columns.set(index, name.to_owned());
            assert(str_views(after.columns@) =~= str_views(c0).update(index as int, name@));
            Ok(after)
        },
    }
}

impl Document {
    /// Carries out the column dialog's request as one undoable edit (see
    /// `altered`): `None` when the document is not a table, the refusal when
    /// the request is refused, in both cases with nothing changed.
    pub fn alter_column(&mut self, action: ColumnAction, index: usize, name: &str, default: &str) -> (r: Option<Result<(), ColumnError>>)
        requires
            history_wf(old(self).history@),
            old(self).data@ matches DocView::TwoDa(t) ==> (action is Insert && index <= t.columns.len() ==> forall|i: int| 0 <= i < t.rows.len() ==> index <= #[trigger] t.rows[i].len()),
        ensures
            match old(self).data@ {
                DocView::TwoDa(t) => match altered(t, action, index, name@, default@) {
                    Err(e) => r == Some(Err::<(), ColumnError>(e)) && *final(self) == *old(self),
                    Ok(after) => {
                        let a = ActionView::TwoDaTable { before: t, after };
                        &&& r == Some(Ok::<(), ColumnError>(()))
                        &&& final(self).data@ == DocView::TwoDa(after)
                        &&& final(self).data@ == apply_spec(a, old(self).data@, true)
                        &&& final(self).history@ == record_spec(old(self).history@, a)
                        &&& final(self).dirty == !is_clean_spec(final(self).history@)
                        &&& crate::model::same_view_state(*final(self), *old(self))
                    },
                },
                _ => r is None && *final(self) == *old(self),
            },
    {
        let (before, after) = match &self.data {
            DocumentData::TwoDa(t) => match altered_table(t, action, index, name, default) {
                Err(e) => {
                    return Some(Err(e));
                },
                Ok(after) => (t.duplicate(), after),
            },
            _ => {
                return None;
            },
        };
        self.commit(EditAction::TwoDaTable { before, after });
        Some(Ok(()))
    }
}

// ---------------------------------------------------------------------------
// String references in 2DA cells, and talk-table marks.
/// A string reference written in a cell: `0x` or `0X` and hexadecimal digits,
/// or decimal digits; with whether it was hexadecimal.
pub open spec fn parse_strref(s: Seq<char>) -> Option<(u32, bool)> {
    if s.len() >= 2 && s[0] == '0' && (s[1] == 'x' || s[1] == 'X') {
        match parse_u32_spec(s.skip(2), 16) {
            Some(v) => Some((v, true)),
            None => None,
        }
    } else {
        match parse_u32_spec(s, 10) {
            Some(v) => Some((v, false)),
            None => None,
        }
    }
}

/// A string reference with its user-table flag (bit 24) flipped, written as it
/// was read.
pub open spec fn flipped_strref(v: u32, hex: bool) -> Seq<char> {
    let w = (v ^ 0x100_0000u32) as nat;
    if hex {
        seq!['0', 'x'] + digits(w, 16)
    } else {
        digits(w, 10)
    }
}

fn read_strref(s: &String) -> (r: Option<(u32, bool)>)
    ensures
        r == parse_strref(s@),
{
    let v = crate::text::chars_of(s.as_str());
    if v.len() >= 2 && v[0] == '0' && (v[1] == 'x' || v[1] == 'X') {
        let rest = crate::text::string_of_range(v.as_slice(), 2, v.len());
        assert(rest@ =~= s@.skip(2));
        match parse_u32(rest.as_str(), 16) {
            Some(x) => Some((x, true)),
            None => None,
        }
    } else {
        match parse_u32(s.as_str(), 10) {
            Some(x) => Some((x, false)),
            None => None,
        }
    }
}

/// The edit that flips the user-table flag of the string reference in the
/// current cell of a table, if there is one.
pub open spec fn flag_toggle_action(d: Document) -> Option<ActionView> {
    match (d.data@, d.selected_row, d.selected_column) {
        (DocView::TwoDa(t), Some(row), Some(column)) => if row < t.rows.len() && column
            < t.rows[row as int].len() {
            match parse_strref(t.rows[row as int][column as int]) {
                Some(p) => Some(
                    ActionView::TwoDaCell {
                        row,
                        column,
                        before: t.rows[row as int][column as int],
                        after: flipped_strref(p.0, p.1),
                    },
                ),
                None => None,
            }
        } else {
            None
        },
        _ => None,
    }
}

impl Document {
    /// Flips the user-table flag of the string reference in the current cell
    /// of a table, as one undoable edit; a cell that holds no string reference
    /// is left as it is. Gives whether the cell changed.
    pub fn toggle_user_flag_cell(&mut self) -> (changed: bool)
        requires
            history_wf(old(self).history@),
        ensures
            changed == flag_toggle_action(*old(self)) is Some,
            flag_toggle_action(*old(self)) is None ==> *final(self) == *old(self),
            flag_toggle_action(*old(self)) matches Some(a) ==> {
                &&& final(self).data@ == apply_spec(a, old(self).data@, true)
                &&& final(self).history@ == record_spec(old(self).history@, a)
                &&& final(self).dirty == !is_clean_spec(final(self).history@)
                &&& crate::model::same_view_state(*final(self), *old(self))
            },
    {
        let (row, column) = match (self.selected_row, self.selected_column) {
            (Some(r), Some(c)) => (r, c),
            _ => {
                return false;
            },
        };
        let action = match &self.data {
            DocumentData::TwoDa(t) => {
                if row >= t.rows.len() || column >= t.rows[row].len() {
                    return false;
                }
                let cell = &t.rows[row][column];
                assert(row_views(t.rows@)[row as int] == str_views(t.rows@[row as int]@));
                match read_strref(cell) {
                    None => {
                        return false;
                    },
                    Some((v, is_hex)) => {
                        let w = v ^ 0x100_0000u32;
                        let after = if is_hex {
                            hex(w as u64)
                        } else {
                            decimal(w as u64)
                        };
                        EditAction::TwoDaCell { row, column, before: cell.clone(), after }
                    },
                }
            },
            _ => {
                return false;
            },
        };
        self.commit(action);
        true
    }

    /// Marks the current talk-table row as modified, or unmarks it.
    pub fn mark_selected_tlk(&mut self, modified: bool)
        ensures
            final(self).data == old(self).data,
            final(self).history == old(self).history,
            final(self).dirty == old(self).dirty,
            final(self).tlk_modified@ == (match (old(self).selected_row, old(self).data@) {
                (Some(row), DocView::Tlk(_)) => if modified {
                    old(self).tlk_modified@.insert(row)
                } else {
                    old(self).tlk_modified@.remove(row)
                },
                _ => old(self).tlk_modified@,
            }),
            final(self).selected_row == old(self).selected_row,
            final(self).selected_rows@ == old(self).selected_rows@,
    {
        let row = match self.selected_row {
            Some(r) => r,
            None => {
                return;
            },
        };
        if let DocumentData::Tlk(_) = &self.data {
            if modified {
                self.tlk_modified.insert(row);
            } else {
                self.tlk_modified.remove(&row);
            }
        }
    }
}

// ---------------------------------------------------------------------------
// Merging entries from a diff.
/// Contents, history and marks while entries are merged in.
pub struct MergeState {
    pub data: DocView,
    pub history: HistoryView,
    pub marks: Set<usize>,
}

/// Merging one entry: a table too short for its row first grows with new
/// entries (one edit); then the entry replaces the row (another edit) and the
/// row is marked.
pub open spec fn merge_one(st: MergeState, row: usize, e: EntryView) -> MergeState {
    let n = row_count(st.data);
    let st1 = if row >= n {
        let a = ActionView::TlkRows {
            index: n as usize,
            removed: seq![],
            inserted: Seq::new((row + 1 - n) as nat, |_i: int| blank_entry()),
        };
        MergeState { data: apply_spec(a, st.data, true), history: record_spec(st.history, a), ..st }
    } else {
        st
    };
    let before = match st1.data {
        DocView::Tlk(t) => t.entries[row as int],
        _ => blank_entry(),
    };
    let a2 = ActionView::TlkEntry { row, before, after: e };
    MergeState {
        data: apply_spec(a2, st1.data, true),
        history: record_spec(st1.history, a2),
        marks: st1.marks.insert(row),
    }
}

pub open spec fn merged(st: MergeState, es: Seq<(usize, EntryView)>) -> MergeState
    decreases es.len(),
{
    if es.len() == 0 {
        st
    } else {
        let prev = merged(st, es.drop_last());
        merge_one(prev, es.last().0, es.last().1)
    }
}

pub open spec fn merge_state(d: Document) -> MergeState {
    MergeState { data: d.data@, history: d.history@, marks: d.tlk_modified@ }
}

impl Document {
    /// Merges diff entries into a talk table, in order (see `merged`). Other
    /// documents are left as they are. Gives how many entries were given.
    pub fn merge_tlk_entries(&mut self, entries: Vec<(usize, TlkEntry)>) -> (count: usize)
        requires
            history_wf(old(self).history@),
            forall|i: int| 0 <= i < entries@.len() ==> #[trigger] entries@[i].0 < usize::MAX,
        ensures
            count == entries@.len(),
            !(old(self).data@ is Tlk) ==> *final(self) == *old(self),
            old(self).data@ is Tlk ==> {
                &&& merge_state(*final(self)) == merged(merge_state(*old(self)), patch_views(entries@))
                &&& final(self).dirty == !is_clean_spec(final(self).history@)
                &&& history_wf(final(self).history@)
            },
    {
        let count = entries.len();
        if let DocumentData::Tlk(_) = &self.data {
        } else {
            return count;
        }
        let mut i: usize = 0;
        while i < entries.len()
            invariant
                i <= entries@.len(),
                count == entries@.len(),
                self.data@ is Tlk,
                history_wf(self.history@),
                forall|j: int| 0 <= j < entries@.len() ==> #[trigger] entries@[j].0 < usize::MAX,
                merge_state(*self) == merged(merge_state(*old(self)), patch_views(entries@).take(i as int)),
                i > 0 ==> self.dirty == !is_clean_spec(self.history@),
                old(self).data@ is Tlk,
                i == 0 ==> *self == *old(self),
            decreases entries@.len() - i,
        {
            let row = entries[i].0;
            let ghost st0 = merge_state(*self);
            let n = self.row_total();
            if row >= n {
                let inserted = blank_entries(row + 1 - n);
                assert(entry_views(Seq::<TlkEntry>::empty()) =~= Seq::<EntryView>::empty());
                self.commit(EditAction::TlkRows { index: n, removed: Vec::new(), inserted });
            }
            let action = match &self.data {
                DocumentData::Tlk(t) => {
                    let before = t.entries[row].duplicate();
                    EditAction::TlkEntry { row, before, after: entries[i].1.duplicate() }
                },
                _ => {
                    return count;
                },
            };
            self.commit(action);
            self.tlk_modified.insert(row);
            proof {
                let es = patch_views(entries@);
                assert(es.take(i + 1).drop_last() =~= es.take(i as int));
                assert(es.take(i + 1).last() == (row, entries@[i as int].1@));
            }
            i = i + 1;
        }
        proof {
            assert(patch_views(entries@).take(entries@.len() as int) =~= patch_views(entries@));
        }
        self.dirty = !self.history.is_clean();
        count
    }
}

// ---------------------------------------------------------------------------
// Editing values in place.
/// An entry with new text; the "has text" flag (bit 0) follows the text.
pub open spec fn with_text(e: EntryView, text: Seq<char>) -> EntryView {
    EntryView { text, flags: (e.flags & !1u32) | (if text.len() > 0 { 1u32 } else { 0u32 }), ..e }
}

impl Document {
    /// Sets the text of a talk-table entry as one undoable edit and marks the
    /// entry, when the text differs. Gives whether anything changed.
    pub fn set_entry_text(&mut self, row: usize, text: String) -> (changed: bool)
        requires
            history_wf(old(self).history@),
        ensures
            changed <==> (old(self).data@ matches DocView::Tlk(t) && row < t.entries.len()
                && t.entries[row as int].text != text@),
            !changed ==> *final(self) == *old(self),
            changed ==> (old(self).data@ matches DocView::Tlk(t) && {
                let before = t.entries[row as int];
                let a = ActionView::TlkEntry { row, before, after: with_text(before, text@) };
                &&& final(self).data@ == apply_spec(a, old(self).data@, true)
                &&& final(self).history@ == record_spec(old(self).history@, a)
                &&& final(self).dirty == !is_clean_spec(final(self).history@)
                &&& final(self).tlk_modified@ == old(self).tlk_modified@.insert(row)
                &&& final(self).selected_row == old(self).selected_row
                &&& final(self).selected_rows@ == old(self).selected_rows@
            }),
    {
        let action = match &self.data {
            DocumentData::Tlk(t) => {
                if row >= t.entries.len() {
                    return false;
                }
                let e = &t.entries[row];
                if crate::itp::str_eq(e.text.as_str(), text.as_str()) {
                    return false;
                }
                let nonempty = crate::text::chars_of(text.as_str()).len() > 0;
                let flags = (e.flags & !1u32) | (if nonempty {
                    1u32
                } else {
                    0u32
                });
                let after = TlkEntry {
                    flags,
                    sound_resref: e.sound_resref.clone(),
                    volume_variance: e.volume_variance,
                    pitch_variance: e.pitch_variance,
                    sound_length_bits: e.sound_length_bits,
                    text,
                };
                EditAction::TlkEntry { row, before: e.duplicate(), after }
            },
            _ => {
                return false;
            },
        };
        self.commit(action);
        self.tlk_modified.insert(row);
        true
    }

    /// Sets a talk table's language id and encoding as one undoable edit, when
    /// either differs. Gives whether anything changed.
    pub fn set_tlk_settings(&mut self, language_id: u32, encoding: TlkEncoding) -> (changed: bool)
        requires
            history_wf(old(self).history@),
        ensures
            changed <==> (old(self).data@ matches DocView::Tlk(t) && (t.language_id, t.encoding)
                != (language_id, encoding)),
            !changed ==> *final(self) == *old(self),
            changed ==> (old(self).data@ matches DocView::Tlk(t) && {
                let a = ActionView::TlkSettings {
                    before: (t.language_id, t.encoding),
                    after: (language_id, encoding),
                };
                &&& final(self).data@ == apply_spec(a, old(self).data@, true)
                &&& final(self).history@ == record_spec(old(self).history@, a)
                &&& final(self).dirty == !is_clean_spec(final(self).history@)
                &&& crate::model::same_view_state(*final(self), *old(self))
            }),
    {
        let before = match &self.data {
            DocumentData::Tlk(t) => (t.language_id, t.encoding),
            _ => {
                return false;
            },
        };
        if before.0 == language_id && before.1 == encoding {
            return false;
        }
        self.commit(EditAction::TlkSettings { before, after: (language_id, encoding) });
        true
    }

    /// Sets a table's `DEFAULT:` value (none when `text` is empty) as one
    /// undoable edit, when it differs. Gives whether anything changed.
    pub fn set_default_value(&mut self, text: String) -> (changed: bool)
        requires
            history_wf(old(self).history@),
        ensures
            ({
                let value = if text@.len() > 0 {
                    Some(text@)
                } else {
                    None::<Seq<char>>
                };
                &&& changed <==> (old(self).data@ matches DocView::TwoDa(t) && t.default_value != value)
                &&& !changed ==> *final(self) == *old(self)
                &&& changed ==> (old(self).data@ matches DocView::TwoDa(t) && {
                    let a = ActionView::TwoDaDefault { before: t.default_value, after: value };
                    &&& final(self).data@ == apply_spec(a, old(self).data@, true)
                    &&& final(self).history@ == record_spec(old(self).history@, a)
                    &&& final(self).dirty == !is_clean_spec(final(self).history@)
                    &&& crate::model::same_view_state(*final(self), *old(self))
                })
            }),
    {
        let nonempty = crate::text::chars_of(text.as_str()).len() > 0;
        let value: Option<String> = if nonempty {
            Some(text)
        } else {
            None
        };
        let before = match &self.data {
            DocumentData::TwoDa(t) => {
                let same = match (&t.default_value, &value) {
                    (Some(a), Some(b)) => crate::itp::str_eq(a.as_str(), b.as_str()),
                    (None, None) => true,
                    _ => false,
                };
                if same {
                    return false;
                }
                crate::model::dup_opt(&t.default_value)
            },
            _ => {
                return false;
            },
        };
        self.commit(EditAction::TwoDaDefault { before, after: value });
        true
    }

    /// Sets one value of a table as one undoable edit, when it differs. Gives
    /// whether anything changed.
    pub fn set_cell(&mut self, row: usize, column: usize, text: String) -> (changed: bool)
        requires
            history_wf(old(self).history@),
        ensures
            changed <==> (old(self).data@ matches DocView::TwoDa(t) && row < t.rows.len() && column
                < t.rows[row as int].len() && t.rows[row as int][column as int] != text@),
            !changed ==> *final(self) == *old(self),
            changed ==> (old(self).data@ matches DocView::TwoDa(t) && {
                let a = ActionView::TwoDaCell {
                    row,
                    column,
                    before: t.rows[row as int][column as int],
                    after: text@,
                };
                &&& final(self).data@ == apply_spec(a, old(self).data@, true)
                &&& final(self).history@ == record_spec(old(self).history@, a)
                &&& final(self).dirty == !is_clean_spec(final(self).history@)
                &&& crate::model::same_view_state(*final(self), *old(self))
            }),
    {
        let before = match &self.data {
            DocumentData::TwoDa(t) => {
                if row >= t.rows.len() || column >= t.rows[row].len() {
                    return false;
                }
                assert(row_views(t.rows@)[row as int] == str_views(t.rows@[row as int]@));
                if crate::itp::str_eq(t.rows[row][column].as_str(), text.as_str()) {
                    return false;
                }
                t.rows[row][column].clone()
            },
            _ => {
                return false;
            },
        };
        self.commit(EditAction::TwoDaCell { row, column, before, after: text });
        true
    }
}

} // verus!
