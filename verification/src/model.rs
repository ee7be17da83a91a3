//! Open documents, edit actions, and the undo history.
use crate::itp::{ItpFile, JsonView};
use crate::tlk::{entry_views, EntryView, TlkEncoding, TlkEntry, TlkFile, TlkView};
use crate::twoda::{opt_view, row_views, str_views, TableView, TwoDaFile, TwoDaFormat};
use std::collections::BTreeSet;
use vstd::prelude::*;

verus! {

/// The contents of an open document.
#[derive(Debug)]
pub enum DocumentData {
    Itp(ItpFile),
    Tlk(TlkFile),
    TwoDa(TwoDaFile),
}

pub enum DocView {
    Itp(JsonView),
    Tlk(TlkView),
    TwoDa(TableView),
}

impl View for DocumentData {
    type V = DocView;

    open spec fn view(&self) -> DocView {
        match self {
            DocumentData::Itp(f) => DocView::Itp(f.root@),
            DocumentData::Tlk(f) => DocView::Tlk(f@),
            DocumentData::TwoDa(f) => DocView::TwoDa(f@),
        }
    }
}

/// One undoable edit. Each variant records the state before and after, so that
/// the edit can be replayed in either direction.
#[derive(Debug)]
pub enum EditAction {
    Batch(Vec<EditAction>),
    ItpTree { before: ItpFile, after: ItpFile },
    TlkEntry { row: usize, before: TlkEntry, after: TlkEntry },
    TlkRows { index: usize, removed: Vec<TlkEntry>, inserted: Vec<TlkEntry> },
    TlkSettings { before: (u32, TlkEncoding), after: (u32, TlkEncoding) },
    TwoDaCell { row: usize, column: usize, before: String, after: String },
    TwoDaRows { index: usize, removed: Vec<Vec<String>>, inserted: Vec<Vec<String>> },
    TwoDaDefault { before: Option<String>, after: Option<String> },
    TwoDaTable { before: TwoDaFile, after: TwoDaFile },
}

pub enum ActionView {
    Batch(Seq<ActionView>),
    ItpTree { before: JsonView, after: JsonView },
    TlkEntry { row: usize, before: EntryView, after: EntryView },
    TlkRows { index: usize, removed: Seq<EntryView>, inserted: Seq<EntryView> },
    TlkSettings { before: (u32, TlkEncoding), after: (u32, TlkEncoding) },
    TwoDaCell { row: usize, column: usize, before: Seq<char>, after: Seq<char> },
    TwoDaRows { index: usize, removed: Seq<Seq<Seq<char>>>, inserted: Seq<Seq<Seq<char>>> },
    TwoDaDefault { before: Option<Seq<char>>, after: Option<Seq<char>> },
    TwoDaTable { before: TableView, after: TableView },
}

pub open spec fn action_view(a: EditAction) -> ActionView
    decreases a,
{
    match a {
        EditAction::Batch(v) => ActionView::Batch(action_views(v@)),
        EditAction::ItpTree { before, after } => ActionView::ItpTree {
            before: before.root@,
            after: after.root@,
        },
        EditAction::TlkEntry { row, before, after } => ActionView::TlkEntry {
            row,
            before: before@,
            after: after@,
        },
        EditAction::TlkRows { index, removed, inserted } => ActionView::TlkRows {
            index,
            removed: entry_views(removed@),
            inserted: entry_views(inserted@),
        },
        EditAction::TlkSettings { before, after } => ActionView::TlkSettings { before, after },
        EditAction::TwoDaCell { row, column, before, after } => ActionView::TwoDaCell {
            row,
            column,
            before: before@,
            after: after@,
        },
        EditAction::TwoDaRows { index, removed, inserted } => ActionView::TwoDaRows {
            index,
            removed: row_views(removed@),
            inserted: row_views(inserted@),
        },
        EditAction::TwoDaDefault { before, after } => ActionView::TwoDaDefault {
            before: opt_view(before),
            after: opt_view(after),
        },
        EditAction::TwoDaTable { before, after } => ActionView::TwoDaTable {
            before: before@,
            after: after@,
        },
    }
}

pub open spec fn action_views(s: Seq<EditAction>) -> Seq<ActionView>
    decreases s,
{
    if s.len() == 0 {
        seq![]
    } else {
        action_views(s.drop_last()).push(action_view(s.last()))
    }
}

impl View for EditAction {
    type V = ActionView;

    open spec fn view(&self) -> ActionView {
        action_view(*self)
    }
}

/// `s` with `s[index..end]` replaced by `put`, where `end` is `index + take`
/// capped at the length.
pub open spec fn splice<A>(s: Seq<A>, index: int, take: int, put: Seq<A>) -> Seq<A> {
    let end = if index + take <= s.len() {
        index + take
    } else {
        s.len() as int
    };
    s.take(index) + put + s.skip(end)
}

/// What applying an edit forward (redo) or backward (undo) does to a document.
/// An edit for another kind of document, or for a row or cell that does not
/// exist, changes nothing.
pub open spec fn apply_spec(a: ActionView, d: DocView, forward: bool) -> DocView
    decreases a,
{
    match a {
        ActionView::Batch(s) => if forward {
            apply_forward(s, d)
        } else {
            apply_backward(s, d)
        },
        ActionView::ItpTree { before, after } => match d {
            DocView::Itp(_) => DocView::Itp(
                if forward {
                    after
                } else {
                    before
                },
            ),
            _ => d,
        },
        ActionView::TlkEntry { row, before, after } => match d {
            DocView::Tlk(t) => if row < t.entries.len() {
                DocView::Tlk(
                    TlkView {
                        entries: t.entries.update(
                            row as int,
                            if forward {
                                after
                            } else {
                                before
                            },
                        ),
                        ..t
                    },
                )
            } else {
                d
            },
            _ => d,
        },
        ActionView::TlkRows { index, removed, inserted } => match d {
            DocView::Tlk(t) => {
                let (take, put) = if forward {
                    (removed, inserted)
                } else {
                    (inserted, removed)
                };
                DocView::Tlk(
                    TlkView { entries: splice(t.entries, index as int, take.len() as int, put), ..t },
                )
            },
            _ => d,
        },
        ActionView::TlkSettings { before, after } => match d {
            DocView::Tlk(t) => {
                let v = if forward {
                    after
                } else {
                    before
                };
                DocView::Tlk(TlkView { language_id: v.0, encoding: v.1, entries: t.entries })
            },
            _ => d,
        },
        ActionView::TwoDaCell { row, column, before, after } => match d {
            DocView::TwoDa(t) => if row < t.rows.len() && column < t.rows[row as int].len() {
                DocView::TwoDa(
                    TableView {
                        rows: t.rows.update(
                            row as int,
                            t.rows[row as int].update(
                                column as int,
                                if forward {
                                    after
                                } else {
                                    before
                                },
                            ),
                        ),
                        ..t
                    },
                )
            } else {
                d
            },
            _ => d,
        },
        ActionView::TwoDaRows { index, removed, inserted } => match d {
            DocView::TwoDa(t) => {
                let (take, put) = if forward {
                    (removed, inserted)
                } else {
                    (inserted, removed)
                };
                DocView::TwoDa(
                    TableView { rows: splice(t.rows, index as int, take.len() as int, put), ..t },
                )
            },
            _ => d,
        },
        ActionView::TwoDaDefault { before, after } => match d {
            DocView::TwoDa(t) => DocView::TwoDa(
                TableView {
                    default_value: if forward {
                        after
                    } else {
                        before
                    },
                    ..t
                },
            ),
            _ => d,
        },
        ActionView::TwoDaTable { before, after } => match d {
            DocView::TwoDa(_) => DocView::TwoDa(
                if forward {
                    after
                } else {
                    before
                },
            ),
            _ => d,
        },
    }
}

/// The edits of a batch applied in order.
pub open spec fn apply_forward(s: Seq<ActionView>, d: DocView) -> DocView
    decreases s,
{
    if s.len() == 0 {
        d
    } else {
        apply_spec(s.last(), apply_forward(s.drop_last(), d), true)
    }
}

/// The edits of a batch undone in reverse order.
pub open spec fn apply_backward(s: Seq<ActionView>, d: DocView) -> DocView
    decreases s,
{
    if s.len() == 0 {
        d
    } else {
        apply_backward(s.drop_last(), apply_spec(s.last(), d, false))
    }
}

} // verus!

verus! {

/// Whether an edit can be replayed: a row splice starts within the rows, and
/// its end fits the machine's lengths.
pub open spec fn applicable(a: ActionView, d: DocView, forward: bool) -> bool
    decreases a,
{
    match a {
        ActionView::Batch(s) => if forward {
            applicable_forward(s, d)
        } else {
            applicable_backward(s, d)
        },
        ActionView::TlkRows { index, removed, inserted } => match d {
            DocView::Tlk(t) => index <= t.entries.len() && index + removed.len() <= usize::MAX
                && index + inserted.len() <= usize::MAX,
            _ => true,
        },
        ActionView::TwoDaRows { index, removed, inserted } => match d {
            DocView::TwoDa(t) => index <= t.rows.len() && index + removed.len() <= usize::MAX
                && index + inserted.len() <= usize::MAX,
            _ => true,
        },
        _ => true,
    }
}

pub open spec fn applicable_forward(s: Seq<ActionView>, d: DocView) -> bool
    decreases s,
{
    if s.len() == 0 {
        true
    } else {
        applicable_forward(s.drop_last(), d) && applicable(
            s.last(),
            apply_forward(s.drop_last(), d),
            true,
        )
    }
}

pub open spec fn applicable_backward(s: Seq<ActionView>, d: DocView) -> bool
    decreases s,
{
    if s.len() == 0 {
        true
    } else {
        applicable(s.last(), d, false) && applicable_backward(
            s.drop_last(),
            apply_spec(s.last(), d, false),
        )
    }
}

impl TlkEntry {
    /// A copy of the entry.
    pub fn duplicate(&self) -> (r: TlkEntry)
        ensures
            r@ == self@,
    {
        TlkEntry {
            flags: self.flags,
            sound_resref: self.sound_resref.clone(),
            volume_variance: self.volume_variance,
            pitch_variance: self.pitch_variance,
            sound_length_bits: self.sound_length_bits,
            text: self.text.clone(),
        }
    }
}

pub(crate) fn dup_strings(v: &Vec<String>) -> (r: Vec<String>)
    ensures
        str_views(r@) == str_views(v@),
{
    let mut out: Vec<String> = Vec::new();
    let mut i: usize = 0;
    while i < v.len()
        invariant
            i <= v@.len(),
            str_views(out@) == str_views(v@.take(i as int)),
        decreases v@.len() - i,
    {
        let ghost before = out@;
        out.push(v[i].clone());
        assert(str_views(out@) =~= str_views(before).push(v@[i as int]@));
        assert(str_views(v@.take(i + 1)) =~= str_views(v@.take(i as int)).push(v@[i as int]@));
        i = i + 1;
    }
    assert(v@.take(v@.len() as int) =~= v@);
    out
}

pub(crate) fn dup_opt(o: &Option<String>) -> (r: Option<String>)
    ensures
        opt_view(r) == opt_view(*o),
{
    match o {
        Some(s) => Some(s.clone()),
        None => None,
    }
}

/// `v[from..to]` copied.
pub(crate) fn dup_entries_range(v: &Vec<TlkEntry>, from: usize, to: usize, out: &mut Vec<TlkEntry>)
    requires
        from <= to <= v@.len(),
    ensures
        entry_views(final(out)@) == entry_views(old(out)@) + entry_views(v@).subrange(
            from as int,
            to as int,
        ),
{
    let mut i = from;
    while i < to
        invariant
            from <= i <= to <= v@.len(),
            entry_views(out@) == entry_views(old(out)@) + entry_views(v@).subrange(
                from as int,
                i as int,
            ),
        decreases to - i,
    {
        let ghost before = out@;
        out.push(v[i].duplicate());
        assert(entry_views(out@) =~= entry_views(before).push(v@[i as int]@));
        assert(entry_views(v@).subrange(from as int, i + 1) =~= entry_views(v@).subrange(
            from as int,
            i as int,
        ).push(v@[i as int]@));
        i = i + 1;
    }
}

pub(crate) fn dup_rows_range(v: &Vec<Vec<String>>, from: usize, to: usize, out: &mut Vec<Vec<String>>)
    requires
        from <= to <= v@.len(),
    ensures
        row_views(final(out)@) == row_views(old(out)@) + row_views(v@).subrange(
            from as int,
            to as int,
        ),
{
    let mut i = from;
    while i < to
        invariant
            from <= i <= to <= v@.len(),
            row_views(out@) == row_views(old(out)@) + row_views(v@).subrange(
                from as int,
                i as int,
            ),
        decreases to - i,
    {
        let ghost before = out@;
        let r = dup_strings(&v[i]);
        out.push(r);
        assert(row_views(out@) =~= row_views(before).push(str_views(v@[i as int]@)));
        assert(row_views(v@).subrange(from as int, i + 1) =~= row_views(v@).subrange(
            from as int,
            i as int,
        ).push(str_views(v@[i as int]@)));
        i = i + 1;
    }
}

impl TwoDaFile {
    /// A copy of the table.
    pub fn duplicate(&self) -> (r: TwoDaFile)
        ensures
            r@ == self@,
    {
        let mut rows: Vec<Vec<String>> = Vec::new();
        dup_rows_range(&self.rows, 0, self.rows.len(), &mut rows);
        assert(row_views(self.rows@).subrange(0, self.rows@.len() as int) =~= row_views(
            self.rows@,
        ));
        let r = TwoDaFile {
            default_value: dup_opt(&self.default_value),
            columns: dup_strings(&self.columns),
            rows,
            format: self.format,
        };
        assert(row_views(r.rows@) =~= row_views(self.rows@));
        r
    }
}

fn splice_entries(v: &Vec<TlkEntry>, index: usize, take: usize, put: &Vec<TlkEntry>) -> (r: Vec<
    TlkEntry,
>)
    requires
        index <= v@.len(),
        index + take <= usize::MAX,
    ensures
        entry_views(r@) == splice(entry_views(v@), index as int, take as int, entry_views(put@)),
{
    let end = if index + take <= v.len() {
        index + take
    } else {
        v.len()
    };
    let mut out: Vec<TlkEntry> = Vec::new();
    dup_entries_range(v, 0, index, &mut out);
    dup_entries_range(put, 0, put.len(), &mut out);
    dup_entries_range(v, end, v.len(), &mut out);
    let ghost ev = entry_views(v@);
    assert(entry_views(put@).subrange(0, put@.len() as int) =~= entry_views(put@));
    assert(ev.subrange(0, index as int) =~= ev.take(index as int));
    assert(ev.subrange(end as int, v@.len() as int) =~= ev.skip(end as int));
    assert(entry_views(Seq::<TlkEntry>::empty()) =~= Seq::<EntryView>::empty());
    out
}

fn splice_rows(v: &Vec<Vec<String>>, index: usize, take: usize, put: &Vec<Vec<String>>) -> (r: Vec<
    Vec<String>,
>)
    requires
        index <= v@.len(),
        index + take <= usize::MAX,
    ensures
        row_views(r@) == splice(row_views(v@), index as int, take as int, row_views(put@)),
{
    let end = if index + take <= v.len() {
        index + take
    } else {
        v.len()
    };
    let mut out: Vec<Vec<String>> = Vec::new();
    dup_rows_range(v, 0, index, &mut out);
    dup_rows_range(put, 0, put.len(), &mut out);
    dup_rows_range(v, end, v.len(), &mut out);
    let ghost rv = row_views(v@);
    assert(row_views(put@).subrange(0, put@.len() as int) =~= row_views(put@));
    assert(rv.subrange(0, index as int) =~= rv.take(index as int));
    assert(rv.subrange(end as int, v@.len() as int) =~= rv.skip(end as int));
    assert(row_views(Seq::<Vec<String>>::empty()) =~= Seq::<Seq<Seq<char>>>::empty());
    out
}

} // verus!

verus! {

impl EditAction {
    /// Replays the edit forward (redo) or backward (undo) on `data` (see `apply_spec`).
    pub fn apply(&self, data: &mut DocumentData, forward: bool)
        requires
            applicable(self@, old(data)@, forward),
        ensures
            final(data)@ == apply_spec(self@, old(data)@, forward),
        decreases self,
    {
        match self {
            EditAction::Batch(actions) => {
                let ghost s = action_views(actions@);
                let n = actions.len();
                proof {
                    lemma_views_len(actions@);
                }
                if forward {
                    let mut i: usize = 0;
                    let ghost d0 = data@;
                    assert(s.take(0) =~= Seq::<ActionView>::empty());
                    while i < n
                        invariant
                            n == actions@.len(),
                            s == action_views(actions@),
                            s.len() == n,
                            i <= n,
                            applicable_forward(s, d0),
                            data@ == apply_forward(s.take(i as int), d0),
                            *self == EditAction::Batch(*actions),
                        decreases n - i,
                    {
                        proof {
                            lemma_views_index(actions@, i as int);
                            lemma_applicable_forward_prefix(s, d0, i + 1);
                            assert(s.take(i + 1).drop_last() =~= s.take(i as int));
                            let a = *actions;
                            assert(decreases_to!(*self => (*self)->Batch_0));
                            assert((*self)->Batch_0 == a);
                            assert(decreases_to!(a => a@));
                            assert(decreases_to!(a@ => a@[i as int]));
                        }
                        actions[i].apply(data, true);
                        i = i + 1;
                    }
                    assert(s.take(n as int) =~= s);
                } else {
                    let mut i: usize = n;
                    let ghost d0 = data@;
                    assert(s.take(n as int) =~= s);
                    while i > 0
                        invariant
                            n == actions@.len(),
                            s == action_views(actions@),
                            s.len() == n,
                            i <= n,
                            applicable_backward(s.take(i as int), data@),
                            apply_backward(s, d0) == apply_backward(s.take(i as int), data@),
                            *self == EditAction::Batch(*actions),
                        decreases i,
                    {
                        proof {
                            lemma_views_index(actions@, i - 1);
                            assert(s.take(i as int).drop_last() =~= s.take(i - 1));
                            let a = *actions;
                            assert(decreases_to!(*self => (*self)->Batch_0));
                            assert((*self)->Batch_0 == a);
                            assert(decreases_to!(a => a@));
                            assert(decreases_to!(a@ => a@[i - 1]));
                        }
                        actions[i - 1].apply(data, false);
                        i = i - 1;
                    }
                }
            },
            EditAction::ItpTree { before, after } => {
                match data {
                    DocumentData::Itp(itp) => {
                        *itp = if forward {
                            after.duplicate()
                        } else {
                            before.duplicate()
                        };
                    },
                    _ => {},
                }
            },
            EditAction::TlkEntry { row, before, after } => {
                match data {
                    DocumentData::Tlk(tlk) => {
                        if *row < tlk.entries.len() {
                            let e = if forward {
                                after.duplicate()
                            } else {
                                before.duplicate()
                            };
                            let ghost old_e = tlk.entries@;
                            tlk.entries.set(*row, e);
                            assert(entry_views(tlk.entries@) =~= entry_views(old_e).update(
                                *row as int,
                                e@,
                            ));
                        }
                    },
                    _ => {},
                }
            },
            EditAction::TlkRows { index, removed, inserted } => {
                match data {
                    DocumentData::Tlk(tlk) => {
                        let (take, put) = if forward {
                            (removed, inserted)
                        } else {
                            (inserted, removed)
                        };
                        let entries = splice_entries(&tlk.entries, *index, take.len(), put);
                        tlk.entries = entries;
                    },
                    _ => {},
                }
            },
            EditAction::TlkSettings { before, after } => {
                match data {
                    DocumentData::Tlk(tlk) => {
                        let v = if forward {
                            *after
                        } else {
                            *before
                        };
                        tlk.language_id = v.0;
                        tlk.encoding = v.1;
                    },
                    _ => {},
                }
            },
            EditAction::TwoDaCell { row, column, before, after } => {
                match data {
                    DocumentData::TwoDa(table) => {
                        if *row < table.rows.len() && *column < table.rows[*row].len() {
                            let mut r = dup_strings(&table.rows[*row]);
                            let v = if forward {
                                after.clone()
                            } else {
                                before.clone()
                            };
                            let ghost old_r = r@;
                            r.set(*column, v);
                            assert(str_views(r@) =~= str_views(old_r).update(*column as int, v@));
                            let ghost old_rows = table.rows@;
                            table.rows.set(*row, r);
                            assert(row_views(table.rows@) =~= row_views(old_rows).update(
                                *row as int,
                                str_views(r@),
                            ));
                        }
                    },
                    _ => {},
                }
            },
            EditAction::TwoDaRows { index, removed, inserted } => {
                match data {
                    DocumentData::TwoDa(table) => {
                        let (take, put) = if forward {
                            (removed, inserted)
                        } else {
                            (inserted, removed)
                        };
                        let rows = splice_rows(&table.rows, *index, take.len(), put);
                        table.rows = rows;
                    },
                    _ => {},
                }
            },
            EditAction::TwoDaDefault { before, after } => {
                match data {
                    DocumentData::TwoDa(table) => {
                        table.default_value = if forward {
                            dup_opt(after)
                        } else {
                            dup_opt(before)
                        };
                    },
                    _ => {},
                }
            },
            EditAction::TwoDaTable { before, after } => {
                match data {
                    DocumentData::TwoDa(table) => {
                        *table = if forward {
                            after.duplicate()
                        } else {
                            before.duplicate()
                        };
                    },
                    _ => {},
                }
            },
        }
    }
}

pub proof fn lemma_views_index(v: Seq<EditAction>, i: int)
    requires
        0 <= i < v.len(),
    ensures
        action_views(v).len() == v.len(),
        action_views(v)[i] == action_view(v[i]),
    decreases v.len(),
{
    lemma_views_len(v);
    if i < v.len() - 1 {
        lemma_views_index(v.drop_last(), i);
    }
}

pub proof fn lemma_views_len(v: Seq<EditAction>)
    ensures
        action_views(v).len() == v.len(),
    decreases v.len(),
{
    if v.len() > 0 {
        lemma_views_len(v.drop_last());
    }
}

pub proof fn lemma_applicable_forward_prefix(s: Seq<ActionView>, d: DocView, k: int)
    requires
        0 <= k <= s.len(),
        applicable_forward(s, d),
    ensures
        applicable_forward(s.take(k), d),
    decreases s.len(),
{
    if k < s.len() {
        assert(s.drop_last().take(k) =~= s.take(k));
        lemma_applicable_forward_prefix(s.drop_last(), d, k);
    } else {
        assert(s.take(k) =~= s);
    }
}

} // verus!

verus! {

/// Whether the document is in the state that an edit starts from in the given
/// direction: the edited entry, rows, cell, setting or tree hold the values that
/// the edit records as their prior state.
pub open spec fn matches_pre(a: ActionView, d: DocView, forward: bool) -> bool
    decreases a,
{
    match a {
        ActionView::Batch(s) => if forward {
            matches_forward(s, d)
        } else {
            matches_backward(s, d)
        },
        ActionView::ItpTree { before, after } => match d {
            DocView::Itp(v) => v == (if forward {
                before
            } else {
                after
            }),
            _ => true,
        },
        ActionView::TlkEntry { row, before, after } => match d {
            DocView::Tlk(t) => row < t.entries.len() ==> t.entries[row as int] == (if forward {
                before
            } else {
                after
            }),
            _ => true,
        },
        ActionView::TlkRows { index, removed, inserted } => match d {
            DocView::Tlk(t) => {
                let take = if forward {
                    removed
                } else {
                    inserted
                };
                index + take.len() <= t.entries.len() && t.entries.subrange(
                    index as int,
                    index + take.len(),
                ) == take
            },
            _ => true,
        },
        ActionView::TlkSettings { before, after } => match d {
            DocView::Tlk(t) => (t.language_id, t.encoding) == (if forward {
                before
            } else {
                after
            }),
            _ => true,
        },
        ActionView::TwoDaCell { row, column, before, after } => match d {
            DocView::TwoDa(t) => (row < t.rows.len() && column < t.rows[row as int].len())
                ==> t.rows[row as int][column as int] == (if forward {
                before
            } else {
                after
            }),
            _ => true,
        },
        ActionView::TwoDaRows { index, removed, inserted } => match d {
            DocView::TwoDa(t) => {
                let take = if forward {
                    removed
                } else {
                    inserted
                };
                index + take.len() <= t.rows.len() && t.rows.subrange(index as int, index + take.len())
                    == take
            },
            _ => true,
        },
        ActionView::TwoDaDefault { before, after } => match d {
            DocView::TwoDa(t) => t.default_value == (if forward {
                before
            } else {
                after
            }),
            _ => true,
        },
        ActionView::TwoDaTable { before, after } => match d {
            DocView::TwoDa(t) => t == (if forward {
                before
            } else {
                after
            }),
            _ => true,
        },
    }
}

pub open spec fn matches_forward(s: Seq<ActionView>, d: DocView) -> bool
    decreases s,
{
    if s.len() == 0 {
        true
    } else {
        matches_forward(s.drop_last(), d) && matches_pre(s.last(), apply_forward(s.drop_last(), d), true)
    }
}

pub open spec fn matches_backward(s: Seq<ActionView>, d: DocView) -> bool
    decreases s,
{
    if s.len() == 0 {
        true
    } else {
        matches_pre(s.last(), d, false) && matches_backward(
            s.drop_last(),
            apply_spec(s.last(), d, false),
        )
    }
}

pub proof fn lemma_splice_inverse<A>(e: Seq<A>, i: int, take: Seq<A>, put: Seq<A>)
    requires
        0 <= i,
        i + take.len() <= e.len(),
        e.subrange(i, i + take.len()) == take,
    ensures
        i + put.len() <= splice(e, i, take.len() as int, put).len(),
        splice(e, i, take.len() as int, put).subrange(i, i + put.len()) == put,
        splice(splice(e, i, take.len() as int, put), i, put.len() as int, take) == e,
{
    let e2 = splice(e, i, take.len() as int, put);
    assert(e2 =~= e.take(i) + put + e.skip(i + take.len()));
    assert(e2.subrange(i, i + put.len()) =~= put);
    assert(e2.take(i) =~= e.take(i));
    assert(e2.skip(i + put.len()) =~= e.skip(i + take.len()));
    assert(e.take(i) + take + e.skip(i + take.len()) =~= e);
}

/// Law: an edit replayed in one direction and then in the other leaves the
/// document as it was, provided the document is in the edit's starting state.
pub proof fn lemma_apply_inverse(a: ActionView, d: DocView, forward: bool)
    requires
        applicable(a, d, forward),
        matches_pre(a, d, forward),
    ensures
        applicable(a, apply_spec(a, d, forward), !forward),
        matches_pre(a, apply_spec(a, d, forward), !forward),
        apply_spec(a, apply_spec(a, d, forward), !forward) == d,
    decreases a,
{
    match a {
        ActionView::Batch(s) => {
            if forward {
                lemma_batch_forward_inverse(s, d);
            } else {
                lemma_batch_backward_inverse(s, d);
            }
        },
        ActionView::TlkEntry { row, before, after } => {
            match d {
                DocView::Tlk(t) => {
                    if row < t.entries.len() {
                        let pre = if forward {
                            before
                        } else {
                            after
                        };
                        let post = if forward {
                            after
                        } else {
                            before
                        };
                        assert(t.entries.update(row as int, post).update(row as int, pre)
                            =~= t.entries);
                    }
                },
                _ => {},
            }
        },
        ActionView::TlkRows { index, removed, inserted } => {
            match d {
                DocView::Tlk(t) => {
                    if forward {
                        lemma_splice_inverse(t.entries, index as int, removed, inserted);
                    } else {
                        lemma_splice_inverse(t.entries, index as int, inserted, removed);
                    }
                },
                _ => {},
            }
        },
        ActionView::TwoDaCell { row, column, before, after } => {
            match d {
                DocView::TwoDa(t) => {
                    if row < t.rows.len() && column < t.rows[row as int].len() {
                        let pre = if forward {
                            before
                        } else {
                            after
                        };
                        let post = if forward {
                            after
                        } else {
                            before
                        };
                        let r1 = t.rows[row as int].update(column as int, post);
                        let rows1 = t.rows.update(row as int, r1);
                        assert(rows1[row as int].update(column as int, pre) =~= t.rows[row as int]);
                        assert(rows1.update(row as int, rows1[row as int].update(column as int, pre))
                            =~= t.rows);
                    }
                },
                _ => {},
            }
        },
        ActionView::TwoDaRows { index, removed, inserted } => {
            match d {
                DocView::TwoDa(t) => {
                    if forward {
                        lemma_splice_inverse(t.rows, index as int, removed, inserted);
                    } else {
                        lemma_splice_inverse(t.rows, index as int, inserted, removed);
                    }
                },
                _ => {},
            }
        },
        _ => {},
    }
}

pub proof fn lemma_batch_forward_inverse(s: Seq<ActionView>, d: DocView)
    requires
        applicable_forward(s, d),
        matches_forward(s, d),
    ensures
        applicable_backward(s, apply_forward(s, d)),
        matches_backward(s, apply_forward(s, d)),
        apply_backward(s, apply_forward(s, d)) == d,
    decreases s,
{
    if s.len() > 0 {
        let y = apply_forward(s.drop_last(), d);
        lemma_batch_forward_inverse(s.drop_last(), d);
        lemma_apply_inverse(s.last(), y, true);
    }
}

pub proof fn lemma_batch_backward_inverse(s: Seq<ActionView>, d: DocView)
    requires
        applicable_backward(s, d),
        matches_backward(s, d),
    ensures
        applicable_forward(s, apply_backward(s, d)),
        matches_forward(s, apply_backward(s, d)),
        apply_forward(s, apply_backward(s, d)) == d,
    decreases s,
{
    if s.len() > 0 {
        let x = apply_spec(s.last(), d, false);
        lemma_apply_inverse(s.last(), d, false);
        lemma_batch_backward_inverse(s.drop_last(), x);
    }
}

} // verus!

verus! {

/// Two consecutive edits of the same entry, cell, settings or default value
/// merge into one that goes from the older edit's prior state to the newer
/// edit's result.
pub open spec fn merge_spec(a: ActionView, b: ActionView) -> Option<ActionView> {
    match (a, b) {
        (
            ActionView::TlkEntry { row, before, after: _ },
            ActionView::TlkEntry { row: next, before: _, after: value },
        ) => if row == next {
            Some(ActionView::TlkEntry { row, before, after: value })
        } else {
            None
        },
        (
            ActionView::TwoDaCell { row, column, before, after: _ },
            ActionView::TwoDaCell { row: next_row, column: next_column, before: _, after: value },
        ) => if row == next_row && column == next_column {
            Some(ActionView::TwoDaCell { row, column, before, after: value })
        } else {
            None
        },
        (
            ActionView::TlkSettings { before, after: _ },
            ActionView::TlkSettings { before: _, after: value },
        ) => Some(ActionView::TlkSettings { before, after: value }),
        (
            ActionView::TwoDaDefault { before, after: _ },
            ActionView::TwoDaDefault { before: _, after: value },
        ) => Some(ActionView::TwoDaDefault { before, after: value }),
        _ => None,
    }
}

impl EditAction {
    /// Folds `newer` into this edit when both change the same thing (see `merge_spec`).
    pub fn merge(&mut self, newer: &EditAction) -> (merged: bool)
        ensures
            merged == merge_spec(old(self)@, newer@) is Some,
            merged ==> final(self)@ == merge_spec(old(self)@, newer@)->0,
            !merged ==> final(self)@ == old(self)@,
    {
        match newer {
            EditAction::TlkEntry { row: next, before: _, after: value } => {
                if let EditAction::TlkEntry { row, before, after } = self {
                    if *row == *next {
                        *after = value.duplicate();
                        return true;
                    }
                }
                false
            },
            EditAction::TwoDaCell { row: next_row, column: next_column, before: _, after: value } => {
                if let EditAction::TwoDaCell { row, column, before, after } = self {
                    if *row == *next_row && *column == *next_column {
                        *after = value.clone();
                        return true;
                    }
                }
                false
            },
            EditAction::TlkSettings { before: _, after: value } => {
                if let EditAction::TlkSettings { before, after } = self {
                    *after = *value;
                    return true;
                }
                false
            },
            EditAction::TwoDaDefault { before: _, after: value } => {
                if let EditAction::TwoDaDefault { before, after } = self {
                    *after = dup_opt(value);
                    return true;
                }
                false
            },
            _ => false,
        }
    }
}

/// Law: a merged edit does what the two edits do one after the other, in
/// either direction.
pub proof fn lemma_merge_composes(a: ActionView, b: ActionView, d: DocView)
    requires
        merge_spec(a, b) is Some,
    ensures
        apply_spec(merge_spec(a, b)->0, d, true) == apply_spec(b, apply_spec(a, d, true), true),
        apply_spec(merge_spec(a, b)->0, d, false) == apply_spec(a, apply_spec(b, d, false), false),
{
    let m = merge_spec(a, b)->0;
    match (a, b) {
        (ActionView::TlkEntry { row, before, after }, ActionView::TlkEntry { row: _, before: b2, after: value }) => {
            match d {
                DocView::Tlk(t) => {
                    if row < t.entries.len() {
                        assert(t.entries.update(row as int, after).update(row as int, value)
                            =~= t.entries.update(row as int, value));
                        assert(t.entries.update(row as int, b2).update(row as int, before)
                            =~= t.entries.update(row as int, before));
                    }
                },
                _ => {},
            }
        },
        (
            ActionView::TwoDaCell { row, column, before, after },
            ActionView::TwoDaCell { row: _, column: _, before: b2, after: value },
        ) => {
            match d {
                DocView::TwoDa(t) => {
                    if row < t.rows.len() && column < t.rows[row as int].len() {
                        let r = t.rows[row as int];
                        assert(r.update(column as int, after).update(column as int, value)
                            =~= r.update(column as int, value));
                        assert(t.rows.update(row as int, r.update(column as int, after)).update(
                            row as int,
                            r.update(column as int, after).update(column as int, value),
                        ) =~= t.rows.update(row as int, r.update(column as int, value)));
                        assert(r.update(column as int, b2).update(column as int, before)
                            =~= r.update(column as int, before));
                        assert(t.rows.update(row as int, r.update(column as int, b2)).update(
                            row as int,
                            r.update(column as int, b2).update(column as int, before),
                        ) =~= t.rows.update(row as int, r.update(column as int, before)));
                    }
                },
                _ => {},
            }
        },
        _ => {},
    }
}

} // verus!

verus! {

pub const MAX_ACTIONS: usize = 512;

/// The undo history: recorded edits, the position between done and undone
/// edits, and the position at which the document was last saved.
#[derive(Debug)]
pub struct EditHistory {
    actions: Vec<EditAction>,
    cursor: usize,
    saved_cursor: Option<usize>,
}

pub struct HistoryView {
    pub actions: Seq<ActionView>,
    pub cursor: nat,
    pub saved: Option<nat>,
}

pub open spec fn opt_nat(o: Option<usize>) -> Option<nat> {
    match o {
        Some(c) => Some(c as nat),
        None => None,
    }
}

impl View for EditHistory {
    type V = HistoryView;

    closed spec fn view(&self) -> HistoryView {
        HistoryView {
            actions: action_views(self.actions@),
            cursor: self.cursor as nat,
            saved: opt_nat(self.saved_cursor),
        }
    }
}

/// At most `MAX_ACTIONS` edits are kept, and the cursor lies within them.
pub open spec fn history_wf(h: HistoryView) -> bool {
    h.cursor <= h.actions.len() <= MAX_ACTIONS
}

/// The saved position once the undone edits are discarded: a saved state
/// that lay among them can no longer be reached, so none is left.
pub open spec fn saved_within(h: HistoryView) -> Option<nat> {
    match h.saved {
        Some(s) => if s > h.cursor {
            None
        } else {
            Some(s)
        },
        None => None,
    }
}

/// Recording `a` merges it into the last done edit: there is one, the
/// document is not at its saved position, and the two edits combine.
pub open spec fn record_merges(h: HistoryView, a: ActionView) -> bool {
    h.cursor > 0 && h.saved != Some(h.cursor) && merge_spec(
        h.actions.take(h.cursor as int)[h.cursor - 1],
        a,
    ) is Some
}

/// Recording an edit discards the undone edits (and a saved position among
/// them), then merges the edit into the last one when possible (never across
/// the saved position), or appends it and drops the oldest edit beyond
/// `MAX_ACTIONS`.
pub open spec fn record_spec(h: HistoryView, a: ActionView) -> HistoryView {
    let acts = h.actions.take(h.cursor as int);
    let saved = saved_within(h);
    if record_merges(h, a) {
        HistoryView {
            actions: acts.update(h.cursor - 1, merge_spec(acts[h.cursor - 1], a)->0),
            cursor: h.cursor,
            saved,
        }
    } else if acts.len() + 1 > MAX_ACTIONS {
        let remove = (acts.len() + 1 - MAX_ACTIONS) as nat;
        HistoryView {
            actions: acts.push(a).skip(remove as int),
            cursor: if h.cursor + 1 >= remove {
                (h.cursor + 1 - remove) as nat
            } else {
                0
            },
            saved: match saved {
                Some(s) => if s >= remove {
                    Some((s - remove) as nat)
                } else {
                    None
                },
                None => None,
            },
        }
    } else {
        HistoryView { actions: acts.push(a), cursor: h.cursor + 1, saved }
    }
}

impl Default for EditHistory {
    fn default() -> (r: EditHistory)
        ensures
            r@.actions.len() == 0,
            r@.cursor == 0,
            r@.saved is None,
    {
        EditHistory { actions: Vec::new(), cursor: 0, saved_cursor: None }
    }
}

impl EditHistory {
    /// An empty history of a document that is saved as it is.
    pub fn new_saved() -> (r: EditHistory)
        ensures
            r@.actions.len() == 0,
            r@.cursor == 0,
            r@.saved == Some(0nat),
    {
        EditHistory { actions: Vec::new(), cursor: 0, saved_cursor: Some(0) }
    }

    /// Records an edit (see `record_spec`).
    pub fn record(&mut self, action: EditAction)
        requires
            history_wf(old(self)@),
        ensures
            history_wf(final(self)@),
            final(self)@ == record_spec(old(self)@, action@),
    {
        proof {
            lemma_views_len(self.actions@);
        }
        let ghost h = self@;
        let ghost a = action@;
        self.actions.truncate(self.cursor);
        proof {
            lemma_views_take(old(self).actions@, self.cursor as int);
        }
        self.saved_cursor = match self.saved_cursor {
            Some(c) => if c > self.cursor {
                None
            } else {
                Some(c)
            },
            None => None,
        };
        let can_merge = self.cursor > 0 && (match self.saved_cursor {
            Some(c) => c != self.cursor,
            None => true,
        });
        if can_merge {
            let ghost before = self.actions@;
            let mut last = self.actions.pop().unwrap();
            proof {
                lemma_views_index(before, self.cursor - 1);
                assert(before.drop_last() =~= self.actions@);
            }
            let merged = last.merge(&action);
            self.actions.push(last);
            proof {
                lemma_views_push(before.drop_last(), last);
                assert(h.actions.take(h.cursor as int) == action_views(before));
                lemma_views_push(before.drop_last(), before.last());
                assert(before.drop_last().push(before.last()) =~= before);
            }
            if merged {
                assert(self@.actions =~= h.actions.take(h.cursor as int).update(
                    h.cursor - 1,
                    merge_spec(h.actions.take(h.cursor as int)[h.cursor - 1], a)->0,
                ));
                return;
            }
            assert(action_views(self.actions@) == action_views(before));
        }
        let ghost acts = self.actions@;
        self.actions.push(action);
        self.cursor = self.cursor + 1;
        proof {
            lemma_views_push(acts, action);
        }
        if self.actions.len() > MAX_ACTIONS {
            let ghost full = self.actions@;
            self.actions.remove(0);
            proof {
                assert(self.actions@ =~= full.skip(1));
                lemma_views_skip1(full);
            }
            self.cursor = self.cursor - 1;
            self.saved_cursor = match self.saved_cursor {
                Some(c) => if c >= 1 {
                    Some(c - 1)
                } else {
                    None
                },
                None => None,
            };
        }
    }

    /// Steps back over the last done edit, undoing it on `data`.
    pub fn undo(&mut self, data: &mut DocumentData) -> (changed: bool)
        requires
            history_wf(old(self)@),
            old(self)@.cursor > 0 ==> applicable(
                old(self)@.actions[old(self)@.cursor - 1],
                old(data)@,
                false,
            ),
        ensures
            history_wf(final(self)@),
            changed == (old(self)@.cursor > 0),
            changed ==> final(self)@ == (HistoryView { cursor: (old(self)@.cursor - 1) as nat, ..old(self)@ })
                && final(data)@ == apply_spec(
                old(self)@.actions[old(self)@.cursor - 1],
                old(data)@,
                false,
            ),
            !changed ==> final(self)@ == old(self)@ && final(data)@ == old(data)@,
    {
        if self.cursor == 0 {
            return false;
        }
        proof {
            lemma_views_len(self.actions@);
            lemma_views_index(self.actions@, self.cursor - 1);
        }
        self.cursor = self.cursor - 1;
        self.actions[self.cursor].apply(data, false);
        true
    }

    /// Steps forward over the next undone edit, redoing it on `data`.
    pub fn redo(&mut self, data: &mut DocumentData) -> (changed: bool)
        requires
            history_wf(old(self)@),
            old(self)@.cursor < old(self)@.actions.len() ==> applicable(
                old(self)@.actions[old(self)@.cursor as int],
                old(data)@,
                true,
            ),
        ensures
            history_wf(final(self)@),
            changed == (old(self)@.cursor < old(self)@.actions.len()),
            changed ==> final(self)@ == (HistoryView { cursor: old(self)@.cursor + 1, ..old(self)@ })
                && final(data)@ == apply_spec(
                old(self)@.actions[old(self)@.cursor as int],
                old(data)@,
                true,
            ),
            !changed ==> final(self)@ == old(self)@ && final(data)@ == old(data)@,
    {
        proof {
            lemma_views_len(self.actions@);
        }
        if self.cursor >= self.actions.len() {
            return false;
        }
        proof {
            lemma_views_index(self.actions@, self.cursor as int);
        }
        self.actions[self.cursor].apply(data, true);
        self.cursor = self.cursor + 1;
        true
    }

    pub fn can_undo(&self) -> (r: bool)
        ensures
            r == (self@.cursor > 0),
    {
        self.cursor > 0
    }

    pub fn can_redo(&self) -> (r: bool)
        ensures
            r == (self@.cursor < self@.actions.len()),
    {
        proof {
            lemma_views_len(self.actions@);
        }
        self.cursor < self.actions.len()
    }

    /// Remembers the current position as the saved one.
    pub fn mark_saved(&mut self)
        ensures
            final(self)@ == (HistoryView { saved: Some(old(self)@.cursor), ..old(self)@ }),
    {
        self.saved_cursor = Some(self.cursor);
    }

    /// Whether the document is at its saved position.
    pub fn is_clean(&self) -> (r: bool)
        ensures
            r == (self@.saved == Some(self@.cursor)),
    {
        match self.saved_cursor {
            Some(c) => c == self.cursor,
            None => false,
        }
    }

    /// The number of recorded edits.
    pub fn action_count(&self) -> (r: usize)
        ensures
            r == self@.actions.len(),
    {
        proof {
            lemma_views_len(self.actions@);
        }
        self.actions.len()
    }

    /// The number of done edits.
    pub fn position(&self) -> (r: usize)
        ensures
            r == self@.cursor,
    {
        self.cursor
    }
}

pub proof fn lemma_views_take(v: Seq<EditAction>, k: int)
    requires
        0 <= k <= v.len(),
    ensures
        action_views(v.take(k)) == action_views(v).take(k),
    decreases v.len(),
{
    lemma_views_len(v);
    lemma_views_len(v.take(k));
    if k < v.len() {
        assert(v.drop_last().take(k) =~= v.take(k));
        lemma_views_take(v.drop_last(), k);
        assert(action_views(v).take(k) =~= action_views(v.drop_last()).take(k));
    } else {
        assert(v.take(k) =~= v);
        assert(action_views(v).take(k) =~= action_views(v));
    }
}

pub proof fn lemma_views_push(v: Seq<EditAction>, a: EditAction)
    ensures
        action_views(v.push(a)) == action_views(v).push(action_view(a)),
{
    assert(v.push(a).drop_last() =~= v);
}

pub proof fn lemma_views_skip1(v: Seq<EditAction>)
    requires
        v.len() > 0,
    ensures
        action_views(v.skip(1)) == action_views(v).skip(1),
    decreases v.len(),
{
    lemma_views_len(v);
    lemma_views_len(v.skip(1));
    if v.len() == 1 {
        assert(v.skip(1) =~= Seq::<EditAction>::empty());
        assert(action_views(v).skip(1) =~= Seq::<ActionView>::empty());
    } else {
        lemma_views_skip1(v.drop_last());
        assert(v.skip(1).drop_last() =~= v.drop_last().skip(1));
        assert(action_views(v).skip(1) =~= action_views(v.drop_last()).skip(1).push(
            action_view(v.last()),
        ));
    }
}

} // verus!

verus! {

pub open spec fn is_clean_spec(h: HistoryView) -> bool {
    h.saved == Some(h.cursor)
}

/// Law: after recording an edit there is something to undo, nothing to redo,
/// and the document counts as unsaved.
pub proof fn lemma_record_marks_dirty(h: HistoryView, a: ActionView)
    requires
        history_wf(h),
    ensures
        record_spec(h, a).cursor > 0,
        record_spec(h, a).cursor == record_spec(h, a).actions.len(),
        !is_clean_spec(record_spec(h, a)),
{
}

/// Law: after recording an edit, the number of undos that succeed in a row
/// (the cursor) is what it was when the edit merged into the last one, and
/// otherwise one more, at most `MAX_ACTIONS`; nothing can be redone; and the
/// first undo reverts the new edit, or the merged edit that now holds it.
pub proof fn lemma_record_undo_count(h: HistoryView, a: ActionView)
    requires
        history_wf(h),
    ensures
        ({
            let h1 = record_spec(h, a);
            &&& history_wf(h1)
            &&& h1.cursor == h1.actions.len()
            &&& h1.cursor == (if record_merges(h, a) {
                h.cursor
            } else if h.cursor + 1 <= MAX_ACTIONS {
                h.cursor + 1
            } else {
                MAX_ACTIONS as nat
            })
            &&& h1.cursor > 0
            &&& h1.actions[h1.cursor - 1] == (if record_merges(h, a) {
                merge_spec(h.actions[h.cursor - 1], a)->0
            } else {
                a
            })
        }),
{
    let acts = h.actions.take(h.cursor as int);
    if h.cursor > 0 {
        assert(acts[h.cursor - 1] == h.actions[h.cursor - 1]);
    }
    if !record_merges(h, a) && acts.len() + 1 > MAX_ACTIONS {
        let remove = (acts.len() + 1 - MAX_ACTIONS) as nat;
        let h1 = record_spec(h, a);
        assert(h1.actions[h1.cursor - 1] == acts.push(a)[h1.cursor - 1 + remove]);
    }
}

/// Law: undoing the last done edit and then redoing it restores both the
/// history and the document, provided the document is in the state that the
/// edit produced.
pub proof fn lemma_undo_then_redo(h: HistoryView, d: DocView)
    requires
        history_wf(h),
        h.cursor > 0,
        applicable(h.actions[h.cursor - 1], d, false),
        matches_pre(h.actions[h.cursor - 1], d, false),
    ensures
        ({
            let h1 = HistoryView { cursor: (h.cursor - 1) as nat, ..h };
            let d1 = apply_spec(h.actions[h.cursor - 1], d, false);
            &&& h1.cursor < h1.actions.len()
            &&& applicable(h1.actions[h1.cursor as int], d1, true)
            &&& apply_spec(h1.actions[h1.cursor as int], d1, true) == d
            &&& (HistoryView { cursor: h1.cursor + 1, ..h1 }) == h
        }),
{
    lemma_apply_inverse(h.actions[h.cursor - 1], d, false);
}

/// Law: redoing the next undone edit and then undoing it restores both the
/// history and the document, provided the document is in the edit's starting
/// state.
pub proof fn lemma_redo_then_undo(h: HistoryView, d: DocView)
    requires
        history_wf(h),
        h.cursor < h.actions.len(),
        applicable(h.actions[h.cursor as int], d, true),
        matches_pre(h.actions[h.cursor as int], d, true),
    ensures
        ({
            let h1 = HistoryView { cursor: h.cursor + 1, ..h };
            let d1 = apply_spec(h.actions[h.cursor as int], d, true);
            &&& applicable(h1.actions[h1.cursor - 1], d1, false)
            &&& apply_spec(h1.actions[h1.cursor - 1], d1, false) == d
            &&& (HistoryView { cursor: (h1.cursor - 1) as nat, ..h1 }) == h
        }),
{
    lemma_apply_inverse(h.actions[h.cursor as int], d, true);
}

/// Law: an edit made on the contents it starts from and recorded is the edit
/// that the next undo replays backward, and that gives back the contents
/// before it; unless it merged into the last edit (see `lemma_merge_composes`).
pub proof fn lemma_edit_then_undo(h: HistoryView, d: DocView, a: ActionView)
    requires
        history_wf(h),
        applicable(a, d, true),
        matches_pre(a, d, true),
        !record_merges(h, a),
    ensures
        ({
            let h1 = record_spec(h, a);
            let d1 = apply_spec(a, d, true);
            &&& h1.cursor > 0
            &&& h1.actions[h1.cursor - 1] == a
            &&& applicable(a, d1, false)
            &&& apply_spec(a, d1, false) == d
        }),
{
    lemma_apply_inverse(a, d, true);
    let acts = h.actions.take(h.cursor as int);
    assert(h.cursor > 0 ==> acts[h.cursor - 1] == h.actions[h.cursor - 1]);
    if acts.len() + 1 > MAX_ACTIONS {
        let remove = (acts.len() + 1 - MAX_ACTIONS) as nat;
        let h1 = record_spec(h, a);
        assert(h1.cursor == MAX_ACTIONS);
        assert(h1.actions[h1.cursor - 1] == acts.push(a)[h1.cursor - 1 + remove]);
    }
}

/// An open document: its contents, whether they differ from the saved file,
/// its undo history, and what the editor shows of it: search texts, the
/// selected rows, columns and cells, and the talk-table entries marked as
/// modified.
#[derive(Debug)]
pub struct Document {
    pub data: DocumentData,
    pub dirty: bool,
    pub search: String,
    pub find_query: String,
    pub replace: String,
    pub selected_row: Option<usize>,
    pub selected_rows: BTreeSet<usize>,
    pub selection_anchor: Option<usize>,
    pub selected_column: Option<usize>,
    pub selected_columns: BTreeSet<usize>,
    pub selected_cells: BTreeSet<(usize, usize)>,
    pub cell_selection_anchor: Option<(usize, usize)>,
    pub scroll_to_selected: bool,
    pub table_first_row: usize,
    pub history: EditHistory,
    pub tlk_modified: BTreeSet<usize>,
    pub itp_selected_path: Vec<usize>,
}

/// Nothing is searched, selected or marked.
pub open spec fn view_cleared(d: Document) -> bool {
    &&& d.search@.len() == 0
    &&& d.find_query@.len() == 0
    &&& d.replace@.len() == 0
    &&& d.selected_row is None
    &&& d.selected_rows@.is_empty()
    &&& d.selection_anchor is None
    &&& d.selected_column is None
    &&& d.selected_columns@.is_empty()
    &&& d.selected_cells@.is_empty()
    &&& d.cell_selection_anchor is None
    &&& !d.scroll_to_selected
    &&& d.table_first_row == 0
    &&& d.tlk_modified@.is_empty()
    &&& d.itp_selected_path@.len() == 0
}

/// The searches, selections and marks of two documents agree.
pub open spec fn same_view_state(a: Document, b: Document) -> bool {
    &&& a.search@ == b.search@
    &&& a.find_query@ == b.find_query@
    &&& a.replace@ == b.replace@
    &&& a.selected_row == b.selected_row
    &&& a.selected_rows@ == b.selected_rows@
    &&& a.selection_anchor == b.selection_anchor
    &&& a.selected_column == b.selected_column
    &&& a.selected_columns@ == b.selected_columns@
    &&& a.selected_cells@ == b.selected_cells@
    &&& a.cell_selection_anchor == b.cell_selection_anchor
    &&& a.scroll_to_selected == b.scroll_to_selected
    &&& a.table_first_row == b.table_first_row
    &&& a.tlk_modified@ == b.tlk_modified@
    &&& a.itp_selected_path@ == b.itp_selected_path@
}

/// Two documents hold the same contents, history, marks and searches.
pub open spec fn same_content(a: Document, b: Document) -> bool {
    &&& a.data@ == b.data@
    &&& a.dirty == b.dirty
    &&& a.history@ == b.history@
    &&& a.tlk_modified@ == b.tlk_modified@
    &&& a.search@ == b.search@
    &&& a.find_query@ == b.find_query@
    &&& a.replace@ == b.replace@
    &&& a.itp_selected_path@ == b.itp_selected_path@
    &&& a.table_first_row == b.table_first_row
}

fn fresh_document(data: DocumentData, dirty: bool, history: EditHistory) -> (r: Document)
    ensures
        r.data == data,
        r.dirty == dirty,
        r.history == history,
        view_cleared(r),
{
    Document {
        data,
        dirty,
        search: String::new(),
        find_query: String::new(),
        replace: String::new(),
        selected_row: None,
        selected_rows: BTreeSet::new(),
        selection_anchor: None,
        selected_column: None,
        selected_columns: BTreeSet::new(),
        selected_cells: BTreeSet::new(),
        cell_selection_anchor: None,
        scroll_to_selected: false,
        table_first_row: 0,
        history,
        tlk_modified: BTreeSet::new(),
        itp_selected_path: Vec::new(),
    }
}

/// The kinds of file a document can hold.
#[derive(Clone, Copy, Debug, PartialEq, Eq, Structural)]
pub enum FileKind {
    Tlk,
    TwoDa,
    Itp,
}

pub open spec fn ext_matches(ext: Seq<char>, target: Seq<char>) -> bool {
    crate::text::eq_ignore_ascii_case(ext, target)
}

/// The kind of file an extension names, in any ASCII case.
pub open spec fn file_kind_spec(ext: Seq<char>) -> Option<FileKind> {
    if ext_matches(ext, seq!['t', 'l', 'k']) {
        Some(FileKind::Tlk)
    } else if ext_matches(ext, seq!['2', 'd', 'a']) {
        Some(FileKind::TwoDa)
    } else if ext_matches(ext, seq!['i', 't', 'p']) {
        Some(FileKind::Itp)
    } else {
        None
    }
}

fn eq_ascii_ci(a: &[char], b: &[char]) -> (r: bool)
    ensures
        r == crate::text::eq_ignore_ascii_case(a@, b@),
{
    if a.len() != b.len() {
        return false;
    }
    let mut i: usize = 0;
    while i < a.len()
        invariant
            a@.len() == b@.len(),
            i <= a@.len(),
            forall|j: int|
                0 <= j < i ==> crate::text::ascii_lower(#[trigger] a@[j]) == crate::text::ascii_lower(
                    b@[j],
                ),
        decreases a@.len() - i,
    {
        if crate::text::to_ascii_lower(a[i]) != crate::text::to_ascii_lower(b[i]) {
            return false;
        }
        i = i + 1;
    }
    true
}

/// The kind of file that an extension (without the dot) names.
pub fn file_kind(extension: &str) -> (r: Option<FileKind>)
    ensures
        r == file_kind_spec(extension@),
{
    let e = crate::text::chars_of(extension);
    let tlk = vec!['t', 'l', 'k'];
    let twoda = vec!['2', 'd', 'a'];
    let itp = vec!['i', 't', 'p'];
    assert(tlk@ =~= seq!['t', 'l', 'k']);
    assert(twoda@ =~= seq!['2', 'd', 'a']);
    assert(itp@ =~= seq!['i', 't', 'p']);
    if eq_ascii_ci(e.as_slice(), tlk.as_slice()) {
        Some(FileKind::Tlk)
    } else if eq_ascii_ci(e.as_slice(), twoda.as_slice()) {
        Some(FileKind::TwoDa)
    } else if eq_ascii_ci(e.as_slice(), itp.as_slice()) {
        Some(FileKind::Itp)
    } else {
        None
    }
}

/// The title of a document of `kind`: the file's name, or
/// `Untitled.<extension>` when it has none.
pub open spec fn title_of(kind: FileKind, file_name: Option<Seq<char>>) -> Seq<char> {
    match file_name {
        Some(n) => n,
        None => match kind {
            FileKind::Tlk => "Untitled.tlk"@,
            FileKind::TwoDa => "Untitled.2da"@,
            FileKind::Itp => "Untitled.itp"@,
        },
    }
}

pub open spec fn kind_of(d: DocView) -> FileKind {
    match d {
        DocView::Tlk(_) => FileKind::Tlk,
        DocView::TwoDa(_) => FileKind::TwoDa,
        DocView::Itp(_) => FileKind::Itp,
    }
}

impl Document {
    /// A document for contents just read from a file: saved, with no history.
    pub fn open(data: DocumentData) -> (r: Document)
        ensures
            r.data@ == data@,
            !r.dirty,
            r.history@.actions.len() == 0,
            r.history@.cursor == 0,
            r.history@.saved == Some(0nat),
            view_cleared(r),
    {
        fresh_document(data, false, EditHistory::new_saved())
    }

    /// A new, unsaved talk table.
    pub fn new_tlk() -> (r: Document)
        ensures
            r.data matches DocumentData::Tlk(f) && f.language_id == 0 && f.encoding
                == TlkEncoding::Windows1252 && f.entries@.len() == 0,
            r.dirty,
            r.history@.actions.len() == 0,
            r.history@.cursor == 0,
            r.history@.saved is None,
            view_cleared(r),
    {
        fresh_document(DocumentData::Tlk(TlkFile::default()), true, EditHistory::default())
    }

    /// A new, unsaved text table with the columns "Row", "Label" and "Value".
    pub fn new_twoda() -> (r: Document)
        ensures
            r.data@ == DocView::TwoDa(
                TableView {
                    default_value: None,
                    columns: seq![seq!['R', 'o', 'w'], "Label"@, "Value"@],
                    rows: seq![],
                    format: TwoDaFormat::Text,
                },
            ),
            r.dirty,
            r.history@.actions.len() == 0,
            r.history@.cursor == 0,
            r.history@.saved is None,
            view_cleared(r),
    {
        let row = crate::text::string_of_range(&vec!['R', 'o', 'w'], 0, 3);
        let label = "Label".to_owned();
        let value = "Value".to_owned();
        assert(label@ == "Label"@ && value@ == "Value"@);
        let columns = vec![row, label, value];
        let table = TwoDaFile { default_value: None, columns, rows: Vec::new(), format: TwoDaFormat::Text };
        assert(str_views(table.columns@) =~= seq![seq!['R', 'o', 'w'], "Label"@, "Value"@]) by {
            assert(table.columns@[0]@ == seq!['R', 'o', 'w']);
            assert(table.columns@[1]@ == "Label"@);
            assert(table.columns@[2]@ == "Value"@);
        }
        assert(row_views(table.rows@) =~= Seq::<Seq<Seq<char>>>::empty());
        fresh_document(DocumentData::TwoDa(table), true, EditHistory::default())
    }

    /// The kind of file the document holds.
    pub fn kind(&self) -> (r: FileKind)
        ensures
            r == kind_of(self.data@),
    {
        match &self.data {
            DocumentData::Tlk(_) => FileKind::Tlk,
            DocumentData::TwoDa(_) => FileKind::TwoDa,
            DocumentData::Itp(_) => FileKind::Itp,
        }
    }

    pub fn kind_name(&self) -> (r: &'static str)
        ensures
            r@ == (match kind_of(self.data@) {
                FileKind::Tlk => "TLK"@,
                FileKind::TwoDa => "2DA"@,
                FileKind::Itp => "ITP"@,
            }),
    {
        match &self.data {
            DocumentData::Tlk(_) => "TLK",
            DocumentData::TwoDa(_) => "2DA",
            DocumentData::Itp(_) => "ITP",
        }
    }

    pub fn default_extension(&self) -> (r: &'static str)
        ensures
            r@ == (match kind_of(self.data@) {
                FileKind::Tlk => "tlk"@,
                FileKind::TwoDa => "2da"@,
                FileKind::Itp => "itp"@,
            }),
    {
        match &self.data {
            DocumentData::Tlk(_) => "tlk",
            DocumentData::TwoDa(_) => "2da",
            DocumentData::Itp(_) => "itp",
        }
    }

    /// The tab title: the file's name, or `Untitled.<extension>` for a document
    /// that was never saved (see `title_of`).
    pub fn title(&self, file_name: Option<&str>) -> (r: String)
        ensures
            r@ == title_of(
                kind_of(self.data@),
                match file_name {
                    Some(n) => Some(n@),
                    None => None,
                },
            ),
    {
        match file_name {
            Some(n) => n.to_owned(),
            None => match &self.data {
                DocumentData::Tlk(_) => "Untitled.tlk".to_owned(),
                DocumentData::TwoDa(_) => "Untitled.2da".to_owned(),
                DocumentData::Itp(_) => "Untitled.itp".to_owned(),
            },
        }
    }

    /// Makes an edit: applies it to the contents and records it.
    pub fn commit(&mut self, action: EditAction)
        requires
            history_wf(old(self).history@),
            applicable(action@, old(self).data@, true),
        ensures
            history_wf(final(self).history@),
            final(self).data@ == apply_spec(action@, old(self).data@, true),
            final(self).history@ == record_spec(old(self).history@, action@),
            final(self).dirty == !is_clean_spec(final(self).history@),
            final(self).dirty,
            same_view_state(*final(self), *old(self)),
    {
        action.apply(&mut self.data, true);
        self.record(action);
    }

    /// Records an edit that was made to the contents.
    pub fn record(&mut self, action: EditAction)
        requires
            history_wf(old(self).history@),
        ensures
            history_wf(final(self).history@),
            final(self).history@ == record_spec(old(self).history@, action@),
            final(self).dirty == !is_clean_spec(final(self).history@),
            final(self).dirty,
            final(self).data@ == old(self).data@,
            same_view_state(*final(self), *old(self)),
    {
        proof {
            lemma_record_marks_dirty(self.history@, action@);
        }
        self.history.record(action);
        self.dirty = !self.history.is_clean();
    }

    /// Undoes the last done edit, if any.
    pub fn undo(&mut self) -> (changed: bool)
        requires
            history_wf(old(self).history@),
            old(self).history@.cursor > 0 ==> applicable(
                old(self).history@.actions[old(self).history@.cursor - 1],
                old(self).data@,
                false,
            ),
        ensures
            history_wf(final(self).history@),
            changed == (old(self).history@.cursor > 0),
            changed ==> final(self).history@ == (HistoryView {
                cursor: (old(self).history@.cursor - 1) as nat,
                ..old(self).history@
            }) && final(self).data@ == apply_spec(
                old(self).history@.actions[old(self).history@.cursor - 1],
                old(self).data@,
                false,
            ),
            !changed ==> final(self).history@ == old(self).history@ && final(self).data@ == old(
                self,
            ).data@,
            final(self).dirty == !is_clean_spec(final(self).history@),
            same_view_state(*final(self), *old(self)),
    {
        let changed = self.history.undo(&mut self.data);
        self.dirty = !self.history.is_clean();
        changed
    }

    /// Redoes the next undone edit, if any.
    pub fn redo(&mut self) -> (changed: bool)
        requires
            history_wf(old(self).history@),
            old(self).history@.cursor < old(self).history@.actions.len() ==> applicable(
                old(self).history@.actions[old(self).history@.cursor as int],
                old(self).data@,
                true,
            ),
        ensures
            history_wf(final(self).history@),
            changed == (old(self).history@.cursor < old(self).history@.actions.len()),
            changed ==> final(self).history@ == (HistoryView {
                cursor: old(self).history@.cursor + 1,
                ..old(self).history@
            }) && final(self).data@ == apply_spec(
                old(self).history@.actions[old(self).history@.cursor as int],
                old(self).data@,
                true,
            ),
            !changed ==> final(self).history@ == old(self).history@ && final(self).data@ == old(
                self,
            ).data@,
            final(self).dirty == !is_clean_spec(final(self).history@),
            same_view_state(*final(self), *old(self)),
    {
        let changed = self.history.redo(&mut self.data);
        self.dirty = !self.history.is_clean();
        changed
    }

    /// Records that the contents were just written to the document's file.
    pub fn mark_saved(&mut self)
        ensures
            !final(self).dirty,
            final(self).history@ == (HistoryView {
                saved: Some(old(self).history@.cursor),
                ..old(self).history@
            }),
            is_clean_spec(final(self).history@),
            final(self).data@ == old(self).data@,
            same_view_state(*final(self), *old(self)),
    {
        self.dirty = false;
        self.history.mark_saved();
    }
}

} // verus!
