//! Selecting rows, cells and columns in a table editor.
use crate::model::{same_content, Document};
use std::collections::BTreeSet;
use vstd::prelude::*;
use vstd::std_specs::iter::IteratorSpec;

verus! {

broadcast use vstd::laws_cmp::group_laws_cmp, vstd::std_specs::btree::group_btree_axioms;

/// The largest element of a set of rows, if any.
pub open spec fn largest(s: Set<usize>) -> Option<usize> {
    if s.is_empty() {
        None
    } else {
        Some(choose|m: usize| s.contains(m) && forall|x: usize| s.contains(x) ==> x <= m)
    }
}

proof fn lemma_largest(s: Set<usize>, full: Seq<usize>, best: usize)
    requires
        full.to_set() == s,
        full.len() > 0,
        full.contains(best),
        forall|j: int| 0 <= j < full.len() ==> full[j] <= best,
    ensures
        largest(s) == Some(best),
        s.contains(best),
        forall|x: usize| s.contains(x) ==> x <= best,
{
    assert(s.contains(best));
    assert forall|x: usize| s.contains(x) implies x <= best by {
        assert(full.contains(x));
    }
    let m = choose|m: usize| s.contains(m) && forall|x: usize| s.contains(x) ==> x <= m;
    assert(s.contains(m) && forall|x: usize| s.contains(x) ==> x <= m);
    assert(m <= best && best <= m);
}

/// The largest selected row.
pub fn last_of(s: &BTreeSet<usize>) -> (r: Option<usize>)
    ensures
        r == largest(s@),
        r matches Some(m) ==> s@.contains(m) && forall|x: usize| s@.contains(x) ==> x <= m,
        r is None ==> s@.is_empty(),
{
    let ghost full = vstd::std_specs::btree::spec_btree_keys_iter(s).remaining().unref();
    proof {
        vstd::std_specs::btree::axiom_spec_btree_keys_iter(s);
    }
    let mut best: usize = 0;
    let mut found = false;
    let ghost mut k: int = 0;
    for x in it: s.iter()
        invariant
            it.seq().unref() == full,
            k == it.index(),
            found <==> k > 0,
            found ==> full.take(k).contains(best),
            forall|j: int| 0 <= j < k ==> full[j] <= best,
    {
        proof {
            assert(*x == full[k]);
        }
        if !found || *x > best {
            best = *x;
        }
        found = true;
        proof {
            assert(full.take(k + 1)[k] == full[k]);
            k = k + 1;
        }
    }
    proof {
        assert(k == full.len());
        assert(full.take(k) =~= full);
        if found {
            lemma_largest(s@, full, best);
        } else {
            assert(full.to_set() =~= Set::<usize>::empty());
        }
    }
    if found {
        Some(best)
    } else {
        None
    }
}

pub open spec fn min_u(a: usize, b: usize) -> usize {
    if a <= b {
        a
    } else {
        b
    }
}

pub open spec fn max_u(a: usize, b: usize) -> usize {
    if a <= b {
        b
    } else {
        a
    }
}

/// The rows from `a` to `b`, both included, in either order.
pub open spec fn span(a: usize, b: usize) -> Set<usize> {
    Set::new(|x: usize| min_u(a, b) <= x <= max_u(a, b))
}

/// `s` with `x` added, or removed if it was there.
pub open spec fn toggled<A>(s: Set<A>, x: A) -> Set<A> {
    if s.contains(x) {
        s.remove(x)
    } else {
        s.insert(x)
    }
}

/// Replaces `s` with the rows from `lo` to `hi`.
fn fill_span(s: &mut BTreeSet<usize>, lo: usize, hi: usize)
    requires
        lo <= hi,
    ensures
        final(s)@ == Set::new(|x: usize| lo <= x <= hi),
{
    s.clear();
    let mut i = lo;
    loop
        invariant
            lo <= i <= hi,
            s@ == Set::new(|x: usize| lo <= x < i),
        decreases hi - i,
    {
        s.insert(i);
        if i == hi {
            assert(s@ =~= Set::new(|x: usize| lo <= x <= hi));
            return;
        }
        i = i + 1;
        assert(s@ =~= Set::new(|x: usize| lo <= x < i));
    }
}

/// The anchor a shift-click extends from: the anchor, else the selected row,
/// else the clicked row.
pub open spec fn shift_anchor(anchor: Option<usize>, selected: Option<usize>, row: usize) -> usize {
    match anchor {
        Some(a) => a,
        None => match selected {
            Some(r) => r,
            None => row,
        },
    }
}

/// A click on `row`: with shift the rows between the anchor and `row` are
/// selected; with the toggle modifier `row` is added or removed; otherwise only
/// `row` is selected. The current row is `row` when it stays selected, else the
/// largest selected row.
pub fn update_row_selection(
    selected_row: &mut Option<usize>,
    selected_rows: &mut BTreeSet<usize>,
    selection_anchor: &mut Option<usize>,
    selected_column: &mut Option<usize>,
    row: usize,
    column: Option<usize>,
    shift: bool,
    toggle: bool,
)
    ensures
        shift ==> final(selected_rows)@ == span(
            shift_anchor(*old(selection_anchor), *old(selected_row), row),
            row,
        ) && *final(selection_anchor) == *old(selection_anchor),
        !shift && toggle ==> final(selected_rows)@ == toggled(old(selected_rows)@, row)
            && *final(selection_anchor) == Some(row),
        !shift && !toggle ==> final(selected_rows)@ == set![row] && *final(selection_anchor) == Some(
            row,
        ),
        *final(selected_row) == (if final(selected_rows)@.contains(row) {
            Some(row)
        } else {
            largest(final(selected_rows)@)
        }),
        *final(selected_column) == column,
{
    if shift {
        let anchor = match *selection_anchor {
            Some(a) => a,
            None => match *selected_row {
                Some(r) => r,
                None => row,
            },
        };
        let lo = if anchor <= row {
            anchor
        } else {
            row
        };
        let hi = if anchor <= row {
            row
        } else {
            anchor
        };
        fill_span(selected_rows, lo, hi);
        assert(selected_rows@ =~= span(anchor, row));
    } else if toggle {
        if !selected_rows.remove(&row) {
            selected_rows.insert(row);
        }
        *selection_anchor = Some(row);
    } else {
        selected_rows.clear();
        selected_rows.insert(row);
        *selection_anchor = Some(row);
    }
    *selected_row = if selected_rows.contains(&row) {
        Some(row)
    } else {
        last_of(selected_rows)
    };
    *selected_column = column;
}

/// The cells of the rectangle between two corners, both included.
pub open spec fn rect(a: (usize, usize), b: (usize, usize)) -> Set<(usize, usize)> {
    Set::new(
        |p: (usize, usize)|
            min_u(a.0, b.0) <= p.0 <= max_u(a.0, b.0) && min_u(a.1, b.1) <= p.1 <= max_u(a.1, b.1),
    )
}

fn fill_row_of_cells(s: &mut BTreeSet<(usize, usize)>, r: usize, lo: usize, hi: usize)
    requires
        lo <= hi,
    ensures
        final(s)@ == old(s)@.union(Set::new(|p: (usize, usize)| p.0 == r && lo <= p.1 <= hi)),
{
    let mut c = lo;
    let ghost start = s@;
    loop
        invariant
            lo <= c <= hi,
            start == old(s)@,
            s@ == start.union(Set::new(|p: (usize, usize)| p.0 == r && lo <= p.1 < c)),
        decreases hi - c,
    {
        s.insert((r, c));
        if c == hi {
            assert(s@ =~= start.union(Set::new(|p: (usize, usize)| p.0 == r && lo <= p.1 <= hi)));
            return;
        }
        c = c + 1;
        assert(s@ =~= start.union(Set::new(|p: (usize, usize)| p.0 == r && lo <= p.1 < c)));
    }
}

fn fill_rect(s: &mut BTreeSet<(usize, usize)>, r0: usize, r1: usize, c0: usize, c1: usize)
    requires
        r0 <= r1,
        c0 <= c1,
    ensures
        final(s)@ == Set::new(|p: (usize, usize)| r0 <= p.0 <= r1 && c0 <= p.1 <= c1),
{
    s.clear();
    let mut r = r0;
    loop
        invariant
            r0 <= r <= r1,
            c0 <= c1,
            s@ == Set::new(|p: (usize, usize)| r0 <= p.0 < r && c0 <= p.1 <= c1),
        decreases r1 - r,
    {
        fill_row_of_cells(s, r, c0, c1);
        if r == r1 {
            assert(s@ =~= Set::new(|p: (usize, usize)| r0 <= p.0 <= r1 && c0 <= p.1 <= c1));
            return;
        }
        r = r + 1;
        assert(s@ =~= Set::new(|p: (usize, usize)| r0 <= p.0 < r && c0 <= p.1 <= c1));
    }
}

/// A click on a cell: with shift the rectangle from the anchor cell is
/// selected; with the toggle modifier the cell is added or removed; otherwise
/// only the cell is selected.
pub fn update_cell_selection(
    selected_cells: &mut BTreeSet<(usize, usize)>,
    cell_selection_anchor: &mut Option<(usize, usize)>,
    row: usize,
    column: usize,
    shift: bool,
    toggle: bool,
)
    ensures
        shift ==> final(selected_cells)@ == rect(
            match *old(cell_selection_anchor) {
                Some(a) => a,
                None => (row, column),
            },
            (row, column),
        ) && *final(cell_selection_anchor) == *old(cell_selection_anchor),
        !shift && toggle ==> final(selected_cells)@ == toggled(old(selected_cells)@, (row, column))
            && *final(cell_selection_anchor) == Some((row, column)),
        !shift && !toggle ==> final(selected_cells)@ == set![(row, column)]
            && *final(cell_selection_anchor) == Some((row, column)),
{
    if shift {
        let anchor = match *cell_selection_anchor {
            Some(a) => a,
            None => (row, column),
        };
        let r0 = if anchor.0 <= row {
            anchor.0
        } else {
            row
        };
        let r1 = if anchor.0 <= row {
            row
        } else {
            anchor.0
        };
        let c0 = if anchor.1 <= column {
            anchor.1
        } else {
            column
        };
        let c1 = if anchor.1 <= column {
            column
        } else {
            anchor.1
        };
        fill_rect(selected_cells, r0, r1, c0, c1);
        assert(selected_cells@ =~= rect(anchor, (row, column)));
    } else if toggle {
        if !selected_cells.remove(&(row, column)) {
            selected_cells.insert((row, column));
        }
        *cell_selection_anchor = Some((row, column));
    } else {
        selected_cells.clear();
        selected_cells.insert((row, column));
        *cell_selection_anchor = Some((row, column));
    }
}

/// The elements of `s` below `n`, in increasing order.
pub open spec fn in_order_below(s: Set<usize>, n: nat) -> Seq<usize>
    decreases n,
{
    if n == 0 {
        seq![]
    } else if s.contains((n - 1) as usize) {
        in_order_below(s, (n - 1) as nat).push((n - 1) as usize)
    } else {
        in_order_below(s, (n - 1) as nat)
    }
}

pub open spec fn increasing(s: Seq<usize>) -> bool {
    forall|i: int, j: int| 0 <= i < j < s.len() ==> s[i] < s[j]
}

/// The rows an action applies to: the selected rows below `count`, in
/// increasing order, or else the current row if it is below `count`.
pub open spec fn chosen_rows(d: Document, count: usize) -> Seq<usize> {
    let rows = in_order_below(d.selected_rows@, count as nat);
    if rows.len() > 0 {
        rows
    } else {
        match d.selected_row {
            Some(s) => if s < count {
                seq![s]
            } else {
                seq![]
            },
            None => seq![],
        }
    }
}

pub proof fn lemma_in_order_below(s: Set<usize>, n: nat)
    requires
        n <= usize::MAX + 1,
    ensures
        increasing(in_order_below(s, n)),
        forall|i: int| 0 <= i < in_order_below(s, n).len() ==> #[trigger] in_order_below(s, n)[i] < n,
        in_order_below(s, n).to_set() == Set::new(|x: usize| s.contains(x) && x < n),
        in_order_below(s, n).len() <= n,
    decreases n,
{
    if n > 0 {
        lemma_in_order_below(s, (n - 1) as nat);
        let prev = in_order_below(s, (n - 1) as nat);
        if s.contains((n - 1) as usize) {
            let cur = prev.push((n - 1) as usize);
            assert forall|x: usize| cur.contains(x) <==> (s.contains(x) && x < n) by {
                assert(prev.to_set().contains(x) == prev.contains(x));
                if prev.contains(x) {
                    let j = choose|j: int| 0 <= j < prev.len() && prev[j] == x;
                    assert(cur[j] == x);
                }
                if x == n - 1 {
                    assert(cur[cur.len() - 1] == x);
                }
                if cur.contains(x) {
                    let j = choose|j: int| 0 <= j < cur.len() && cur[j] == x;
                    if j < prev.len() {
                        assert(prev[j] == x);
                    }
                }
            }
            assert(cur.to_set() =~= Set::new(|x: usize| s.contains(x) && x < n));
        } else {
            assert forall|x: usize| prev.to_set().contains(x) <==> (s.contains(x) && x < n) by {
                assert(prev.to_set().contains(x) == prev.contains(x));
            }
            assert(prev.to_set() =~= Set::new(|x: usize| s.contains(x) && x < n));
        }
    }
}

/// The rows an action applies to (see `chosen_rows`).
pub fn selected_rows(document: &Document, count: usize) -> (r: Vec<usize>)
    ensures
        r@ == chosen_rows(*document, count),
        increasing(r@),
        forall|i: int| 0 <= i < r@.len() ==> #[trigger] r@[i] < count,
{
    let mut rows: Vec<usize> = Vec::new();
    let mut x: usize = 0;
    while x < count
        invariant
            x <= count,
            rows@ == in_order_below(document.selected_rows@, x as nat),
        decreases count - x,
    {
        if document.selected_rows.contains(&x) {
            rows.push(x);
        }
        x = x + 1;
    }
    proof {
        lemma_in_order_below(document.selected_rows@, count as nat);
    }
    if rows.len() == 0 {
        if let Some(row) = document.selected_row {
            if row < count {
                rows.push(row);
                assert(rows@ =~= seq![row]);
            }
        }
    }
    rows
}

/// Position of the first occurrence of `x` in `rows`.
pub open spec fn first_pos(rows: Seq<usize>, x: usize) -> Option<int>
    decreases rows.len(),
{
    if rows.len() == 0 {
        None
    } else if rows[0] == x {
        Some(0)
    } else {
        match first_pos(rows.drop_first(), x) {
            Some(i) => Some(i + 1),
            None => None,
        }
    }
}

/// The position of the current row among the shown rows, or 0.
pub open spec fn current_pos(rows: Seq<usize>, selected: Option<usize>) -> int {
    match selected {
        Some(v) => match first_pos(rows, v) {
            Some(i) => i,
            None => 0,
        },
        None => 0,
    }
}

proof fn lemma_first_pos(rows: Seq<usize>, x: usize, i: int)
    requires
        0 <= i <= rows.len(),
        forall|j: int| 0 <= j < i ==> rows[j] != x,
    ensures
        i < rows.len() && rows[i] == x ==> first_pos(rows, x) == Some(i),
        i == rows.len() ==> first_pos(rows, x) is None,
    decreases rows.len(),
{
    if rows.len() > 0 && i > 0 {
        assert forall|j: int| 0 <= j < i - 1 implies rows.drop_first()[j] != x by {
            assert(rows.drop_first()[j] == rows[j + 1]);
        }
        lemma_first_pos(rows.drop_first(), x, i - 1);
    }
}

/// The row that an arrow key moves to among the shown rows: one step down or
/// up from the current row (from the first shown row when the current row is
/// not shown), staying within the shown rows.
pub fn keyboard_target(rows: &[usize], selected_row: Option<usize>, down: bool) -> (r: usize)
    requires
        rows@.len() > 0,
    ensures
        r == rows@[if down {
            if current_pos(rows@, selected_row) + 1 < rows@.len() {
                current_pos(rows@, selected_row) + 1
            } else {
                rows@.len() - 1
            }
        } else {
            if current_pos(rows@, selected_row) > 0 {
                current_pos(rows@, selected_row) - 1
            } else {
                0
            }
        }],
{
    let mut current: usize = 0;
    if let Some(sel) = selected_row {
        let mut i: usize = 0;
        while i < rows.len()
            invariant
                i <= rows@.len(),
                forall|j: int| 0 <= j < i ==> rows@[j] != sel,
            ensures
                i <= rows@.len(),
                forall|j: int| 0 <= j < i ==> rows@[j] != sel,
                i < rows@.len() ==> rows@[i as int] == sel,
            decreases rows@.len() - i,
        {
            if rows[i] == sel {
                break;
            }
            i = i + 1;
        }
        proof {
            lemma_first_pos(rows@, sel, i as int);
        }
        if i < rows.len() {
            current = i;
        }
    }
    let target = if down {
        if current + 1 < rows.len() {
            current + 1
        } else {
            rows.len() - 1
        }
    } else if current > 0 {
        current - 1
    } else {
        0
    };
    rows[target]
}

impl Document {
    /// A click on the row-number header: every row is selected and the first
    /// becomes the current row.
    pub fn select_all_rows(&mut self, count: usize)
        ensures
            same_content(*final(self), *old(self)),
            final(self).selected_rows@ == Set::new(|x: usize| x < count),
            final(self).selected_row == (if count > 0 {
                Some(0usize)
            } else {
                None
            }),
            final(self).selection_anchor == final(self).selected_row,
            final(self).selected_column is None,
            final(self).selected_columns@.is_empty(),
            final(self).selected_cells@.is_empty(),
            final(self).cell_selection_anchor is None,
            final(self).scroll_to_selected == old(self).scroll_to_selected,
    {
        self.selected_cells.clear();
        self.selected_columns.clear();
        self.cell_selection_anchor = None;
        if count > 0 {
            fill_span(&mut self.selected_rows, 0, count - 1);
            assert(self.selected_rows@ =~= Set::new(|x: usize| x < count));
            self.selected_row = Some(0);
        } else {
            self.selected_rows.clear();
            assert(self.selected_rows@ =~= Set::new(|x: usize| x < count));
            self.selected_row = None;
        }
        self.selection_anchor = self.selected_row;
        self.selected_column = None;
    }

    /// A click on a column header: with shift the columns between the current
    /// column and this one are selected, with the toggle modifier this column is
    /// added or removed, otherwise only this column is selected. Rows and cells
    /// are unselected, and the first row becomes the current row.
    pub fn click_column_header(&mut self, column: usize, row_count: usize, shift: bool, toggle: bool)
        ensures
            same_content(*final(self), *old(self)),
            final(self).selected_rows@.is_empty(),
            final(self).selection_anchor is None,
            final(self).selected_cells@.is_empty(),
            shift ==> final(self).selected_columns@ == span(
                match old(self).selected_column {
                    Some(c) => c,
                    None => column,
                },
                column,
            ),
            !shift && toggle ==> final(self).selected_columns@ == toggled(
                old(self).selected_columns@,
                column,
            ),
            !shift && !toggle ==> final(self).selected_columns@ == set![column],
            final(self).selected_row == (if row_count > 0 {
                Some(0usize)
            } else {
                None
            }),
            final(self).selected_column == Some(column),
            final(self).cell_selection_anchor == (if row_count > 0 {
                Some((0usize, column))
            } else {
                None
            }),
            final(self).scroll_to_selected == old(self).scroll_to_selected,
    {
        self.selected_rows.clear();
        self.selection_anchor = None;
        self.selected_cells.clear();
        if shift {
            let anchor = match self.selected_column {
                Some(c) => c,
                None => column,
            };
            let lo = if anchor <= column {
                anchor
            } else {
                column
            };
            let hi = if anchor <= column {
                column
            } else {
                anchor
            };
            fill_span(&mut self.selected_columns, lo, hi);
            assert(self.selected_columns@ =~= span(anchor, column));
        } else if toggle {
            if !self.selected_columns.remove(&column) {
                self.selected_columns.insert(column);
            }
        } else {
            self.selected_columns.clear();
            self.selected_columns.insert(column);
        }
        self.selected_row = if row_count > 0 {
            Some(0)
        } else {
            None
        };
        self.selected_column = Some(column);
        self.cell_selection_anchor = if row_count > 0 {
            Some((0, column))
        } else {
            None
        };
    }

    /// A secondary click on a column header that is not selected selects only
    /// that column, as a plain click does, before its menu opens.
    pub fn open_column_menu(&mut self, column: usize, row_count: usize)
        ensures
            same_content(*final(self), *old(self)),
            old(self).selected_columns@.contains(column) ==> *final(self) == *old(self),
            !old(self).selected_columns@.contains(column) ==> {
                &&& final(self).selected_rows@.is_empty()
                &&& final(self).selected_cells@.is_empty()
                &&& final(self).selected_columns@ == set![column]
                &&& final(self).selection_anchor == old(self).selection_anchor
                &&& final(self).selected_row == (if row_count > 0 {
                    Some(0usize)
                } else {
                    None
                })
                &&& final(self).selected_column == Some(column)
                &&& final(self).cell_selection_anchor == (if row_count > 0 {
                    Some((0usize, column))
                } else {
                    None
                })
            },
    {
        if self.selected_columns.contains(&column) {
            return;
        }
        self.selected_rows.clear();
        self.selected_cells.clear();
        self.selected_columns.clear();
        self.selected_columns.insert(column);
        self.selected_row = if row_count > 0 {
            Some(0)
        } else {
            None
        };
        self.selected_column = Some(column);
        self.cell_selection_anchor = if row_count > 0 {
            Some((0, column))
        } else {
            None
        };
    }

    /// A click on a row's label: cells (and, when `clear_columns`, columns)
    /// are unselected, then the row is selected as `update_row_selection` says.
    pub fn click_row_label(&mut self, row: usize, shift: bool, toggle: bool, clear_columns: bool)
        ensures
            same_content(*final(self), *old(self)),
            final(self).selected_cells@.is_empty(),
            final(self).cell_selection_anchor is None,
            clear_columns ==> final(self).selected_columns@.is_empty(),
            !clear_columns ==> final(self).selected_columns@ == old(self).selected_columns@,
            shift ==> final(self).selected_rows@ == span(
                shift_anchor(old(self).selection_anchor, old(self).selected_row, row),
                row,
            ) && final(self).selection_anchor == old(self).selection_anchor,
            !shift && toggle ==> final(self).selected_rows@ == toggled(old(self).selected_rows@, row)
                && final(self).selection_anchor == Some(row),
            !shift && !toggle ==> final(self).selected_rows@ == set![row]
                && final(self).selection_anchor == Some(row),
            final(self).selected_row == (if final(self).selected_rows@.contains(row) {
                Some(row)
            } else {
                largest(final(self).selected_rows@)
            }),
            final(self).selected_column is None,
            final(self).scroll_to_selected == old(self).scroll_to_selected,
    {
        self.selected_cells.clear();
        self.cell_selection_anchor = None;
        if clear_columns {
            self.selected_columns.clear();
        }
        update_row_selection(
            &mut self.selected_row,
            &mut self.selected_rows,
            &mut self.selection_anchor,
            &mut self.selected_column,
            row,
            None,
            shift,
            toggle,
        );
    }

    /// A secondary click on a row that is not selected selects only that row.
    pub fn open_row_menu(&mut self, row: usize)
        ensures
            same_content(*final(self), *old(self)),
            old(self).selected_rows@.contains(row) ==> *final(self) == *old(self),
            !old(self).selected_rows@.contains(row) ==> {
                &&& final(self).selected_rows@ == set![row]
                &&& final(self).selected_row == Some(row)
                &&& final(self).selection_anchor == Some(row)
                &&& final(self).selected_column is None
                &&& final(self).selected_columns@ == old(self).selected_columns@
                &&& final(self).selected_cells@ == old(self).selected_cells@
            },
    {
        if self.selected_rows.contains(&row) {
            return;
        }
        update_row_selection(
            &mut self.selected_row,
            &mut self.selected_rows,
            &mut self.selection_anchor,
            &mut self.selected_column,
            row,
            None,
            false,
            false,
        );
    }

    /// A click in a value cell of a table: rows and columns are unselected,
    /// the cell is selected as `update_cell_selection` says, and it becomes the
    /// current cell.
    pub fn click_cell(&mut self, row: usize, column: usize, shift: bool, toggle: bool)
        ensures
            same_content(*final(self), *old(self)),
            final(self).selected_rows@.is_empty(),
            final(self).selection_anchor is None,
            final(self).selected_columns@.is_empty(),
            shift ==> final(self).selected_cells@ == rect(
                match old(self).cell_selection_anchor {
                    Some(a) => a,
                    None => (row, column),
                },
                (row, column),
            ) && final(self).cell_selection_anchor == old(self).cell_selection_anchor,
            !shift && toggle ==> final(self).selected_cells@ == toggled(
                old(self).selected_cells@,
                (row, column),
            ) && final(self).cell_selection_anchor == Some((row, column)),
            !shift && !toggle ==> final(self).selected_cells@ == set![(row, column)]
                && final(self).cell_selection_anchor == Some((row, column)),
            final(self).selected_row == Some(row),
            final(self).selected_column == Some(column),
    {
        self.selected_rows.clear();
        self.selection_anchor = None;
        self.selected_columns.clear();
        update_cell_selection(
            &mut self.selected_cells,
            &mut self.cell_selection_anchor,
            row,
            column,
            shift,
            toggle,
        );
        self.selected_row = Some(row);
        self.selected_column = Some(column);
    }

    /// A click in a talk-table entry's text: only that entry is current, with
    /// its text field as the current column, and nothing else is selected.
    pub fn click_entry_text(&mut self, row: usize)
        ensures
            same_content(*final(self), *old(self)),
            final(self).selected_rows@.is_empty(),
            final(self).selection_anchor is None,
            final(self).selected_cells@.is_empty(),
            final(self).cell_selection_anchor is None,
            final(self).selected_columns@ == old(self).selected_columns@,
            final(self).selected_row == Some(row),
            final(self).selected_column == Some(4usize),
    {
        self.selected_rows.clear();
        self.selection_anchor = None;
        self.selected_cells.clear();
        self.cell_selection_anchor = None;
        self.selected_row = Some(row);
        self.selected_column = Some(4);
    }
}

// ---------------------------------------------------------------------------
// The window of rows a table shows.
/// The position among the shown rows to bring into view: the current row's
/// position among the filtered rows (none when it is filtered out), or the
/// current row itself when nothing is filtered.
pub open spec fn scroll_position(selected: Option<usize>, visible: Option<Seq<usize>>) -> Option<usize> {
    match selected {
        None => None,
        Some(s) => match visible {
            None => Some(s),
            Some(rows) => match first_pos(rows, s) {
                Some(i) => Some(i as usize),
                None => None,
            },
        },
    }
}

/// The position among the shown rows to bring into view (see
/// `scroll_position`).
#[verifier::loop_isolation(false)]
pub fn scroll_target(selected: Option<usize>, visible: &Option<Vec<usize>>) -> (r: Option<usize>)
    ensures
        r == scroll_position(
            selected,
            match visible {
                Some(v) => Some(v@),
                None => None,
            },
        ),
{
    let s = match selected {
        Some(s) => s,
        None => {
            return None;
        },
    };
    match visible {
        None => Some(s),
        Some(rows) => {
            let mut i: usize = 0;
            while i < rows.len()
                invariant
                    i <= rows@.len(),
                    forall|j: int| 0 <= j < i ==> rows@[j] != s,
                decreases rows@.len() - i,
            {
                if rows[i] == s {
                    proof {
                        lemma_first_pos(rows@, s, i as int);
                    }
                    return Some(i);
                }
                i = i + 1;
            }
            proof {
                lemma_first_pos(rows@, s, i as int);
            }
            None
        },
    }
}

pub open spec fn less_or_zero(a: usize, b: usize) -> usize {
    if a >= b {
        (a - b) as usize
    } else {
        0
    }
}

/// The first row a table of `count` shown rows displays in a window of
/// `window` rows: the row brought into view, half a window up, or else the
/// first row it displayed; in either case no later than the last full
/// window.
pub open spec fn window_start(first: usize, scroll_to: Option<usize>, window: usize, count: usize) -> usize {
    let wanted = match scroll_to {
        Some(r) => less_or_zero(r, window / 2),
        None => first,
    };
    min_u(wanted, less_or_zero(count, window))
}

/// The first row and the number of rows that a table's window displays (see
/// `window_start`).
pub fn table_window(first: usize, scroll_to: Option<usize>, window: usize, count: usize) -> (r: (
    usize,
    usize,
))
    ensures
        r.0 == window_start(first, scroll_to, window, count),
        r.1 == min_u(window, less_or_zero(count, r.0)),
{
    let wanted = match scroll_to {
        Some(r) => r.saturating_sub(window / 2),
        None => first,
    };
    let start = wanted.min(count.saturating_sub(window));
    let shown = window.min(count.saturating_sub(start));
    (start, shown)
}

} // verus!
