//! Finding rows that hold a text, and replacing text.
use crate::editing::{displayed_strref, row_count, strref_text, strref_value, with_text};
use crate::itp::str_eq;
use crate::model::{
    apply_spec, history_wf, is_clean_spec, record_spec, ActionView, DocView, Document, DocumentData,
    EditAction, HistoryView,
};
use crate::numtext::{digits, lemma_digits_parse, parse_u32, parse_u32_spec};
use crate::text::{chars_of, push_chars, string_of, string_of_range, trim, trim_end_range, trim_start_from};
use crate::tlk::{entry_views, EntryView, TlkEntry};
use crate::twoda::{row_views, str_views, TableView};
use vstd::prelude::*;

verus! {

broadcast use vstd::string::group_string_axioms;

/// What `str::to_lowercase` gives for a text. The Unicode lower-case mapping
/// it applies is not written out here.
pub uninterp spec fn lowercase(s: Seq<char>) -> Seq<char>;

/// `str::to_lowercase`: the text in lower case. Claimed: the result is
/// `lowercase` of the argument, the same for the same text.
#[verifier::external_body]
fn to_lower(s: &str) -> (r: String)
    ensures
        r@ == lowercase(s@),
{
    s.to_lowercase()
}

// ---------------------------------------------------------------------------
// Texts within texts.
/// `n` occurs in `h` at `i`.
pub open spec fn occurs_at(h: Seq<char>, n: Seq<char>, i: int) -> bool {
    0 <= i && i + n.len() <= h.len() && h.subrange(i, i + n.len()) == n
}

/// `n` occurs somewhere in `h` (the empty text occurs in every text).
pub open spec fn contains_sub(h: Seq<char>, n: Seq<char>) -> bool {
    exists|i: int| occurs_at(h, n, i)
}

fn occurs_at_exec(h: &Vec<char>, n: &Vec<char>, i: usize) -> (r: bool)
    requires
        i + n@.len() <= h@.len(),
    ensures
        r == occurs_at(h@, n@, i as int),
{
    let hl = h.len();
    let mut j: usize = 0;
    while j < n.len()
        invariant
            j <= n@.len(),
            hl == h@.len(),
            i + n@.len() <= h@.len(),
            forall|k: int| 0 <= k < j ==> h@[i + k] == n@[k],
        decreases n@.len() - j,
    {
        if h[i + j] != n[j] {
            assert(h@.subrange(i as int, i + n@.len())[j as int] != n@[j as int]);
            return false;
        }
        j = j + 1;
    }
    assert(h@.subrange(i as int, i + n@.len()) =~= n@);
    true
}

/// Whether `needle` occurs in `haystack` (`str::contains`).
pub fn contains_text(haystack: &str, needle: &str) -> (r: bool)
    ensures
        r == contains_sub(haystack@, needle@),
{
    let h = chars_of(haystack);
    let n = chars_of(needle);
    if n.len() > h.len() {
        assert forall|i: int| !occurs_at(h@, n@, i) by {}
        return false;
    }
    if n.len() == 0 {
        assert(h@.subrange(0, 0) =~= n@);
        assert(occurs_at(h@, n@, 0));
        return true;
    }
    let end = h.len() - n.len() + 1;
    let mut i: usize = 0;
    while i < end
        invariant
            end == h@.len() - n@.len() + 1,
            i <= end,
            h@ == haystack@,
            n@ == needle@,
            forall|k: int| 0 <= k < i ==> !occurs_at(h@, n@, k),
        decreases end - i,
    {
        if occurs_at_exec(&h, &n, i) {
            return true;
        }
        i = i + 1;
    }
    assert forall|k: int| !occurs_at(h@, n@, k) by {
        if 0 <= k < end {
            assert(k < i);
        }
    }
    false
}

/// `s` with each occurrence of `from` replaced by `to`, left to right
/// (`str::replace`, for a non-empty `from`).
pub open spec fn replace_all(s: Seq<char>, from: Seq<char>, to: Seq<char>) -> Seq<char>
    decreases s.len(),
{
    if from.len() == 0 || s.len() < from.len() {
        s
    } else if s.take(from.len() as int) == from {
        to + replace_all(s.skip(from.len() as int), from, to)
    } else {
        seq![s[0]] + replace_all(s.skip(1), from, to)
    }
}

/// `s` with each occurrence of `from` replaced by `to` (see `replace_all`).
pub fn replace_text(s: &str, from: &str, to: &str) -> (r: String)
    requires
        from@.len() > 0,
    ensures
        r@ == replace_all(s@, from@, to@),
{
    let v = chars_of(s);
    let f = chars_of(from);
    let t = chars_of(to);
    let mut out = String::new();
    let mut i: usize = 0;
    assert(v@.skip(0) =~= v@);
    assert(out@ + v@ =~= v@);
    while i < v.len() && v.len() - i >= f.len()
        invariant
            i <= v@.len(),
            v@ == s@,
            f@ == from@,
            t@ == to@,
            f@.len() > 0,
            out@ + replace_all(v@.skip(i as int), f@, t@) == replace_all(v@, f@, t@),
        decreases v@.len() - i,
    {
        let ghost rest = v@.skip(i as int);
        let ghost before = out@;
        if occurs_at_exec(&v, &f, i) {
            push_chars(&mut out, t.as_slice());
            proof {
                assert(rest.take(f@.len() as int) =~= v@.subrange(i as int, i + f@.len()));
                assert(rest.skip(f@.len() as int) =~= v@.skip(i + f@.len()));
                assert(out@ + replace_all(v@.skip(i + f@.len()), f@, t@) =~= before + replace_all(
                    rest,
                    f@,
                    t@,
                ));
            }
            i = i + f.len();
        } else {
            crate::text::push_char(&mut out, v[i]);
            proof {
                assert(rest.take(f@.len() as int) =~= v@.subrange(i as int, i + f@.len()));
                assert(rest.skip(1) =~= v@.skip(i + 1));
                assert(out@ + replace_all(v@.skip(i + 1), f@, t@) =~= before + replace_all(rest, f@, t@));
            }
            i = i + 1;
        }
    }
    proof {
        assert(replace_all(v@.skip(i as int), f@, t@) == v@.skip(i as int));
    }
    while i < v.len()
        invariant
            i <= v@.len(),
            out@ + v@.skip(i as int) == replace_all(v@, f@, t@),
        decreases v@.len() - i,
    {
        let ghost before = out@;
        crate::text::push_char(&mut out, v[i]);
        proof {
            assert(v@.skip(i as int) =~= seq![v@[i as int]] + v@.skip(i + 1));
            assert(out@ + v@.skip(i + 1) =~= before + v@.skip(i as int));
        }
        i = i + 1;
    }
    proof {
        assert(out@ + v@.skip(i as int) =~= out@);
    }
    out
}

// ---------------------------------------------------------------------------
// What a search looks for.
/// The text a search looks for: the query without surrounding whitespace, in
/// lower case.
pub open spec fn needle_of(query: Seq<char>) -> Seq<char> {
    lowercase(trim(query))
}

/// The query trimmed and in lower case (see `needle_of`).
pub fn search_needle(query: &str) -> (r: String)
    ensures
        r@ == needle_of(query@),
{
    let v = chars_of(query);
    let end = trim_end_range(v.as_slice(), 0, v.len());
    let start = trim_start_from(v.as_slice(), 0, end);
    proof {
        assert(v@.subrange(0, v@.len() as int) =~= v@);
    }
    let trimmed = string_of_range(v.as_slice(), start, end);
    to_lower(trimmed.as_str())
}

/// The string reference a search text names: `0x` and hexadecimal digits, or
/// decimal digits, fitting 32 bits.
pub open spec fn strref_number(needle: Seq<char>) -> Option<u32> {
    if needle.len() >= 2 && needle[0] == '0' && needle[1] == 'x' {
        parse_u32_spec(needle.skip(2), 16)
    } else {
        parse_u32_spec(needle, 10)
    }
}

/// The string reference a search text names (see `strref_number`).
pub fn numeric_strref(needle: &str) -> (r: Option<u32>)
    ensures
        r == strref_number(needle@),
{
    let v = chars_of(needle);
    if v.len() >= 2 && v[0] == '0' && v[1] == 'x' {
        let rest = string_of_range(v.as_slice(), 2, v.len());
        proof {
            assert(v@.subrange(2, v@.len() as int) =~= v@.skip(2));
        }
        parse_u32(rest.as_str(), 16)
    } else {
        parse_u32(needle, 10)
    }
}

// ---------------------------------------------------------------------------
// Finding the next row that holds the text.
/// Every row of a talk table of `count` entries has a string reference that
/// fits 32 bits as the editor shows it.
pub open spec fn strrefs_fit(count: nat, user: bool) -> bool {
    !user || count <= 0xFF00_0000
}

/// A talk-table row holds the search text: the text names its string
/// reference, or is that reference as shown in hexadecimal, or occurs in the
/// entry's text in lower case.
pub open spec fn tlk_row_matches(row: usize, text: Seq<char>, needle: Seq<char>, user: bool, hex: bool) -> bool {
    ||| strref_number(needle) == Some(strref_value(row, user) as u32)
    ||| (hex && strref_text(row, user, true) == needle)
    ||| contains_sub(lowercase(text), needle)
}

/// Law: a search for the string reference that the StrRef column shows for a
/// talk-table row, in decimal or as `0x` and hexadecimal, with or without the
/// User StrRef offset as displayed, finds that row whatever its text, in
/// either display mode; and a number names exactly one row's reference.
pub proof fn lemma_displayed_strref_found(row: usize, other: usize, text: Seq<char>, user: bool, hex: bool)
    requires
        strref_value(row, user) <= u32::MAX,
        strref_value(other, user) <= u32::MAX,
        row <= u32::MAX,
        other <= u32::MAX,
    ensures
        strref_number(strref_text(row, user, false)) == Some(strref_value(row, user) as u32),
        strref_number(strref_text(row, user, true)) == Some(strref_value(row, user) as u32),
        tlk_row_matches(row, text, strref_text(row, user, false), user, hex),
        tlk_row_matches(row, text, strref_text(row, user, true), user, hex),
        user ==> strref_number(strref_text(row, user, false)) == Some((row + 0x100_0000) as u32),
        !user ==> strref_number(strref_text(row, user, false)) == Some(row as u32),
        other != row ==> strref_number(strref_text(row, user, false)) != Some(
            strref_value(other, user) as u32,
        ),
{
    let v = strref_value(row, user);
    lemma_digits_parse(v, 10);
    lemma_digits_parse(v, 16);
    let dec = digits(v, 10);
    assert(!(dec.len() >= 2 && dec[0] == '0' && dec[1] == 'x')) by {
        if dec.len() >= 2 {
            assert(dec[1] != 'x');
        }
    }
    let hx = seq!['0', 'x'] + digits(v, 16);
    assert(hx.skip(2) =~= digits(v, 16));
    assert(hx[0] == '0' && hx[1] == 'x');
}

/// A table row holds the search text: it occurs in one of its values in
/// lower case.
pub open spec fn table_row_matches(values: Seq<Seq<char>>, needle: Seq<char>) -> bool {
    exists|k: int| 0 <= k < values.len() && contains_sub(lowercase(#[trigger] values[k]), needle)
}

pub open spec fn row_matches(d: DocView, row: int, needle: Seq<char>, user: bool, hex: bool) -> bool {
    match d {
        DocView::Tlk(t) => tlk_row_matches(row as usize, t.entries[row].text, needle, user, hex),
        DocView::TwoDa(t) => table_row_matches(t.rows[row], needle),
        DocView::Itp(_) => false,
    }
}

/// Where a search starts: after (or, backwards, before) the current row,
/// wrapping around, or at the first (last) row.
pub open spec fn search_start(selected: Option<usize>, count: nat, backwards: bool) -> nat {
    match selected {
        None => if backwards {
            (count - 1) as nat
        } else {
            0
        },
        Some(r) => if backwards {
            ((r + count - 1) % (count as int)) as nat
        } else {
            ((r + 1) as nat) % count
        },
    }
}

/// The row a search looks at after `offset` steps from `start`.
pub open spec fn search_row(start: nat, count: nat, offset: nat, backwards: bool) -> nat {
    if backwards {
        ((start + count - offset) % (count as int)) as nat
    } else {
        (start + offset) % count
    }
}

/// The first row, from step `offset` on, that holds the search text.
pub open spec fn first_hit(
    d: DocView,
    needle: Seq<char>,
    user: bool,
    hex: bool,
    start: nat,
    count: nat,
    offset: nat,
    backwards: bool,
) -> Option<nat>
    decreases count - offset,
{
    if offset >= count {
        None
    } else {
        let row = search_row(start, count, offset, backwards);
        if row_matches(d, row as int, needle, user, hex) {
            Some(row)
        } else {
            first_hit(d, needle, user, hex, start, count, offset + 1, backwards)
        }
    }
}

/// The row a search for the document's query finds, going through every row
/// once from the start.
pub open spec fn search_hit(d: Document, backwards: bool, user: bool, hex: bool) -> Option<nat> {
    let count = row_count(d.data@);
    first_hit(
        d.data@,
        needle_of(d.find_query@),
        user,
        hex,
        search_start(d.selected_row, count, backwards),
        count,
        0,
        backwards,
    )
}

/// What a search did.
#[derive(Clone, Copy, Debug, PartialEq, Eq, Structural)]
pub enum FindOutcome {
    /// There is no query: the search window should be shown.
    NeedQuery,
    /// There are no rows to search.
    NoRows,
    Found(usize),
    NotFound,
}

/// After a search found `row`: it alone is selected and shown; nothing else
/// changed.
pub open spec fn found_selected(old: Document, new: Document, row: usize) -> bool {
    &&& new.selected_row == Some(row)
    &&& new.selected_rows@ == set![row]
    &&& new.selection_anchor == Some(row)
    &&& new.scroll_to_selected
    &&& new.data == old.data
    &&& new.history == old.history
    &&& new.dirty == old.dirty
    &&& new.tlk_modified == old.tlk_modified
    &&& new.selected_column == old.selected_column
    &&& new.selected_columns == old.selected_columns
    &&& new.selected_cells == old.selected_cells
    &&& new.cell_selection_anchor == old.cell_selection_anchor
    &&& new.search == old.search
    &&& new.find_query == old.find_query
    &&& new.replace == old.replace
    &&& new.table_first_row == old.table_first_row
    &&& new.itp_selected_path == old.itp_selected_path
}

proof fn lemma_mod_is(x: int, d: int, q: int, r: int)
    requires
        d > 0,
        0 <= r < d,
        x == q * d + r,
    ensures
        x % d == r,
{
    vstd::arithmetic::div_mod::lemma_fundamental_div_mod_converse(x, d, q, r);
}

fn start_row(selected: Option<usize>, count: usize, backwards: bool) -> (s: usize)
    requires
        count > 0,
    ensures
        s == search_start(selected, count as nat, backwards),
        s < count,
{
    match selected {
        None => if backwards {
            count - 1
        } else {
            0
        },
        Some(r) => {
            let m = r % count;
            let ghost q = (r / count) as int;
            proof {
                vstd::arithmetic::div_mod::lemma_fundamental_div_mod(r as int, count as int);
                assert(r == count * q + m);
                assert((q + 1) * count == q * count + count) by (nonlinear_arith);
                assert(count * q == q * count) by (nonlinear_arith);
            }
            if backwards {
                if m == 0 {
                    proof {
                        lemma_mod_is(r + count - 1, count as int, q, count - 1);
                    }
                    count - 1
                } else {
                    proof {
                        lemma_mod_is(r + count - 1, count as int, q + 1, m - 1);
                    }
                    m - 1
                }
            } else {
                if m + 1 == count {
                    proof {
                        lemma_mod_is(r + 1, count as int, q + 1, 0);
                    }
                    0
                } else {
                    proof {
                        lemma_mod_is(r + 1, count as int, q, m + 1);
                    }
                    m + 1
                }
            }
        },
    }
}

fn row_at(start: usize, count: usize, offset: usize, backwards: bool) -> (r: usize)
    requires
        start < count,
        offset < count,
    ensures
        r == search_row(start as nat, count as nat, offset as nat, backwards),
        r < count,
{
    if backwards {
        if offset <= start {
            proof {
                lemma_mod_is(start + count - offset, count as int, 1, start - offset);
            }
            start - offset
        } else {
            proof {
                lemma_mod_is(start + count - offset, count as int, 0, start + count - offset);
            }
            count - (offset - start)
        }
    } else {
        if offset < count - start {
            proof {
                lemma_mod_is(start + offset, count as int, 0, start + offset);
            }
            start + offset
        } else {
            proof {
                lemma_mod_is(start + offset, count as int, 1, start + offset - count);
            }
            offset - (count - start)
        }
    }
}

/// Whether some value holds `needle` in lower case (see `table_row_matches`).
fn values_hold(values: &Vec<String>, needle: &str) -> (r: bool)
    ensures
        r == table_row_matches(str_views(values@), needle@),
{
    let mut k: usize = 0;
    while k < values.len()
        invariant
            k <= values@.len(),
            forall|j: int| 0 <= j < k ==> !contains_sub(lowercase(#[trigger] str_views(values@)[j]), needle@),
        decreases values@.len() - k,
    {
        let lowered = to_lower(values[k].as_str());
        assert(str_views(values@)[k as int] == values@[k as int]@);
        if contains_text(lowered.as_str(), needle) {
            assert(contains_sub(lowercase(str_views(values@)[k as int]), needle@));
            return true;
        }
        k = k + 1;
    }
    false
}

impl Document {
    fn row_holds(&self, row: usize, needle: &str, numeric: Option<u32>, user: bool, hex: bool) -> (r: bool)
        requires
            row < row_count(self.data@),
            numeric == strref_number(needle@),
            self.data@ is Tlk ==> strrefs_fit(row_count(self.data@), user),
        ensures
            r == row_matches(self.data@, row as int, needle@, user, hex),
    {
        match &self.data {
            DocumentData::Tlk(t) => {
                proof {
                    if user {
                        assert(row < 0xFF00_0000);
                    }
                }
                let base = #[verifier::truncate] (row as u32);
                proof {
                    if user {
                        assert(base == row);
                    }
                }
                let value: u32 = if user {
                    base + 0x100_0000
                } else {
                    base
                };
                assert(value == strref_value(row, user));
                let by_number = match numeric {
                    Some(n) => n == value,
                    None => false,
                };
                if by_number {
                    return true;
                }
                if hex {
                    let shown = displayed_strref(row, user, true);
                    if str_eq(shown.as_str(), needle) {
                        return true;
                    }
                }
                let lowered = to_lower(t.entries[row].text.as_str());
                contains_text(lowered.as_str(), needle)
            },
            DocumentData::TwoDa(t) => {
                assert(row_views(t.rows@)[row as int] == str_views(t.rows@[row as int]@));
                values_hold(&t.rows[row], needle)
            },
            DocumentData::Itp(_) => false,
        }
    }

    /// Searches the rows for the query, from the current row on (or back),
    /// and selects the first row that holds it (see `search_hit`).
    pub fn find_match(&mut self, backwards: bool, user: bool, hex: bool) -> (r: FindOutcome)
        requires
            old(self).data@ is Tlk ==> strrefs_fit(row_count(old(self).data@), user),
        ensures
            old(self).find_query@.len() == 0 ==> r == FindOutcome::NeedQuery && *final(self) == *old(self),
            old(self).find_query@.len() > 0 && row_count(old(self).data@) == 0 ==> r == FindOutcome::NoRows
                && *final(self) == *old(self),
            old(self).find_query@.len() > 0 && row_count(old(self).data@) > 0 ==> match search_hit(
                *old(self),
                backwards,
                user,
                hex,
            ) {
                Some(row) => r == FindOutcome::Found(row as usize) && found_selected(
                    *old(self),
                    *final(self),
                    row as usize,
                ),
                None => r == FindOutcome::NotFound && *final(self) == *old(self),
            },
    {
        if self.find_query.as_str().is_empty() {
            return FindOutcome::NeedQuery;
        }
        let needle = search_needle(self.find_query.as_str());
        let numeric = numeric_strref(needle.as_str());
        let count = match &self.data {
            DocumentData::Tlk(t) => t.entries.len(),
            DocumentData::TwoDa(t) => t.rows.len(),
            DocumentData::Itp(_) => 0,
        };
        if count == 0 {
            return FindOutcome::NoRows;
        }
        let start = start_row(self.selected_row, count, backwards);
        let ghost hit = search_hit(*self, backwards, user, hex);
        let mut offset: usize = 0;
        while offset < count
            invariant
                *self == *old(self),
                self.find_query@.len() > 0,
                offset <= count,
                count == row_count(self.data@),
                start < count,
                start == search_start(self.selected_row, count as nat, backwards),
                needle@ == needle_of(self.find_query@),
                numeric == strref_number(needle@),
                self.data@ is Tlk ==> strrefs_fit(row_count(self.data@), user),
                hit == search_hit(*self, backwards, user, hex),
                hit == first_hit(self.data@, needle@, user, hex, start as nat, count as nat, offset as nat, backwards),
            decreases count - offset,
        {
            let row = row_at(start, count, offset, backwards);
            if self.row_holds(row, needle.as_str(), numeric, user, hex) {
                self.selected_row = Some(row);
                self.selected_rows.clear();
                self.selected_rows.insert(row);
                self.selection_anchor = Some(row);
                self.scroll_to_selected = true;
                proof {
                    assert(self.selected_rows@ =~= set![row]);
                }
                return FindOutcome::Found(row);
            }
            offset = offset + 1;
        }
        FindOutcome::NotFound
    }
}

// ---------------------------------------------------------------------------
// Replacing text.
/// An entry's sound length is not a number (NaN), so the entry never
/// compares equal to itself.
pub open spec fn nan_length(e: EntryView) -> bool {
    (e.sound_length_bits & 0x7f80_0000u32) == 0x7f80_0000u32 && (e.sound_length_bits & 0x007f_ffffu32) != 0u32
}

fn is_nan_length(bits: u32) -> (r: bool)
    ensures
        r == ((bits & 0x7f80_0000u32) == 0x7f80_0000u32 && (bits & 0x007f_ffffu32) != 0u32),
{
    (bits & 0x7f80_0000u32) == 0x7f80_0000u32 && (bits & 0x007f_ffffu32) != 0u32
}

/// An entry after the query was replaced in its text; the "has text" flag
/// follows the text.
pub open spec fn entry_replaced(e: EntryView, find: Seq<char>, to: Seq<char>) -> EntryView {
    with_text(e, replace_all(e.text, find, to))
}

/// Replacing in the current entry or value: when the query is not empty and
/// the current entry (or, in a table, the current cell) exists, its text with
/// the query replaced, if the entry then differs (an entry whose sound length
/// is not a number always does), is written as one undoable edit, and an
/// entry is marked.
pub open spec fn replaced_selected(old: Document, new: Document, changed: bool) -> bool {
    let find = old.find_query@;
    let to = old.replace@;
    let unchanged = !changed && new == old;
    if find.len() == 0 || old.selected_row is None {
        unchanged
    } else {
        let row = old.selected_row->0;
        match old.data@ {
            DocView::Tlk(t) => if row < t.entries.len() {
                let e = t.entries[row as int];
                let a = ActionView::TlkEntry { row, before: e, after: entry_replaced(e, find, to) };
                if entry_replaced(e, find, to) == e && !nan_length(e) {
                    unchanged
                } else {
                    &&& changed
                    &&& new.data@ == apply_spec(a, old.data@, true)
                    &&& new.history@ == record_spec(old.history@, a)
                    &&& new.dirty == !is_clean_spec(new.history@)
                    &&& new.tlk_modified@ == old.tlk_modified@.insert(row)
                    &&& new.selected_row == old.selected_row
                    &&& new.selected_rows@ == old.selected_rows@
                    &&& new.selected_cells@ == old.selected_cells@
                    &&& new.find_query@ == old.find_query@
                    &&& new.replace@ == old.replace@
                }
            } else {
                unchanged
            },
            DocView::TwoDa(t) => match old.selected_column {
                Some(column) => if row < t.rows.len() && column < t.rows[row as int].len() {
                    let v = t.rows[row as int][column as int];
                    let after = replace_all(v, find, to);
                    let a = ActionView::TwoDaCell { row, column, before: v, after };
                    if after == v {
                        unchanged
                    } else {
                        &&& changed
                        &&& new.data@ == apply_spec(a, old.data@, true)
                        &&& new.history@ == record_spec(old.history@, a)
                        &&& new.dirty == !is_clean_spec(new.history@)
                        &&& crate::model::same_view_state(new, old)
                    }
                } else {
                    unchanged
                },
                None => unchanged,
            },
            DocView::Itp(_) => unchanged,
        }
    }
}

impl Document {
    /// Replaces the query in the current entry or value (see
    /// `replaced_selected`). Gives whether anything changed.
    pub fn replace_selected_match(&mut self) -> (changed: bool)
        requires
            history_wf(old(self).history@),
        ensures
            replaced_selected(*old(self), *final(self), changed),
            history_wf(final(self).history@),
    {
        if self.find_query.as_str().is_empty() {
            return false;
        }
        let row = match self.selected_row {
            Some(r) => r,
            None => {
                return false;
            },
        };
        let column = self.selected_column;
        let find = self.find_query.clone();
        let to = self.replace.clone();
        let action = match &self.data {
            DocumentData::Tlk(t) => {
                if row >= t.entries.len() {
                    return false;
                }
                let e = &t.entries[row];
                let text = replace_text(e.text.as_str(), find.as_str(), to.as_str());
                let nonempty = !text.as_str().is_empty();
                let flags = (e.flags & !1u32) | (if nonempty {
                    1u32
                } else {
                    0u32
                });
                if flags == e.flags && str_eq(text.as_str(), e.text.as_str()) && !is_nan_length(
                    e.sound_length_bits,
                ) {
                    assert(entry_replaced(e@, find@, to@) =~= e@);
                    return false;
                }
                let after = TlkEntry {
                    flags,
                    sound_resref: e.sound_resref.clone(),
                    volume_variance: e.volume_variance,
                    pitch_variance: e.pitch_variance,
                    sound_length_bits: e.sound_length_bits,
                    text,
                };
                assert(after@ == entry_replaced(e@, find@, to@));
                EditAction::TlkEntry { row, before: e.duplicate(), after }
            },
            DocumentData::TwoDa(t) => {
                let column = match column {
                    Some(c) => c,
                    None => {
                        return false;
                    },
                };
                if row >= t.rows.len() || column >= t.rows[row].len() {
                    return false;
                }
                assert(row_views(t.rows@)[row as int] == str_views(t.rows@[row as int]@));
                let v = &t.rows[row][column];
                let after = replace_text(v.as_str(), find.as_str(), to.as_str());
                if str_eq(after.as_str(), v.as_str()) {
                    return false;
                }
                EditAction::TwoDaCell { row, column, before: v.clone(), after }
            },
            DocumentData::Itp(_) => {
                return false;
            },
        };
        let is_entry = match &action {
            EditAction::TlkEntry { .. } => true,
            _ => false,
        };
        self.commit(action);
        if is_entry {
            self.tlk_modified.insert(row);
        }
        true
    }
}

/// The edits that replacing the query in every entry makes, in row order:
/// one for each entry that changes (or whose sound length is not a number).
pub open spec fn tlk_replace_edits(es: Seq<EntryView>, find: Seq<char>, to: Seq<char>) -> Seq<ActionView>
    decreases es.len(),
{
    if es.len() == 0 {
        seq![]
    } else {
        let prev = tlk_replace_edits(es.drop_last(), find, to);
        let e = es.last();
        let a = entry_replaced(e, find, to);
        if a != e || nan_length(e) {
            prev.push(ActionView::TlkEntry { row: (es.len() - 1) as usize, before: e, after: a })
        } else {
            prev
        }
    }
}

/// The edits that replacing the query in every value of row `row` makes, in
/// column order: one for each value that changes.
pub open spec fn cell_replace_edits(values: Seq<Seq<char>>, row: usize, find: Seq<char>, to: Seq<char>) -> Seq<
    ActionView,
>
    decreases values.len(),
{
    if values.len() == 0 {
        seq![]
    } else {
        let prev = cell_replace_edits(values.drop_last(), row, find, to);
        let v = values.last();
        let a = replace_all(v, find, to);
        if a != v {
            prev.push(
                ActionView::TwoDaCell { row, column: (values.len() - 1) as usize, before: v, after: a },
            )
        } else {
            prev
        }
    }
}

/// The edits that replacing the query in every value of a table makes, row
/// by row.
pub open spec fn table_replace_edits(rows: Seq<Seq<Seq<char>>>, find: Seq<char>, to: Seq<char>) -> Seq<
    ActionView,
>
    decreases rows.len(),
{
    if rows.len() == 0 {
        seq![]
    } else {
        table_replace_edits(rows.drop_last(), find, to) + cell_replace_edits(
            rows.last(),
            (rows.len() - 1) as usize,
            find,
            to,
        )
    }
}

/// The history after each edit was recorded in turn.
pub open spec fn record_all(h: HistoryView, s: Seq<ActionView>) -> HistoryView
    decreases s.len(),
{
    if s.len() == 0 {
        h
    } else {
        record_spec(record_all(h, s.drop_last()), s.last())
    }
}

/// The rows of entries that replacing the query changes.
pub open spec fn changed_entries(es: Seq<EntryView>, find: Seq<char>, to: Seq<char>) -> Set<usize> {
    Set::new(
        |r: usize|
            r < es.len() && (entry_replaced(es[r as int], find, to) != es[r as int] || nan_length(es[r as int])),
    )
}

/// A table's values after the query was replaced in each.
pub open spec fn table_replaced(rows: Seq<Seq<Seq<char>>>, find: Seq<char>, to: Seq<char>) -> Seq<
    Seq<Seq<char>>,
> {
    rows.map_values(|r: Seq<Seq<char>>| r.map_values(|v: Seq<char>| replace_all(v, find, to)))
}

/// Replacing in every entry or value: when the query is not empty, each
/// entry's (or value's) text has the query replaced; each change is recorded
/// as an undoable edit of its own, in order, and changed entries are marked.
/// Gives how many edits were made.
pub open spec fn replaced_all(old: Document, new: Document, r: Option<usize>) -> bool {
    let find = old.find_query@;
    let to = old.replace@;
    if find.len() == 0 {
        r is None && new == old
    } else {
        let edits = match old.data@ {
            DocView::Tlk(t) => tlk_replace_edits(t.entries, find, to),
            DocView::TwoDa(t) => table_replace_edits(t.rows, find, to),
            DocView::Itp(_) => seq![],
        };
        &&& r == Some(edits.len() as usize)
        &&& new.data@ == match old.data@ {
            DocView::Tlk(t) => DocView::Tlk(
                crate::tlk::TlkView {
                    entries: t.entries.map_values(|e: EntryView| entry_replaced(e, find, to)),
                    ..t
                },
            ),
            DocView::TwoDa(t) => DocView::TwoDa(TableView { rows: table_replaced(t.rows, find, to), ..t }),
            DocView::Itp(j) => DocView::Itp(j),
        }
        &&& new.history@ == record_all(old.history@, edits)
        &&& new.dirty == !is_clean_spec(new.history@)
        &&& new.tlk_modified@ == match old.data@ {
            DocView::Tlk(t) => old.tlk_modified@.union(changed_entries(t.entries, find, to)),
            _ => old.tlk_modified@,
        }
        &&& new.selected_row == old.selected_row
        &&& new.selected_rows@ == old.selected_rows@
        &&& new.selected_cells@ == old.selected_cells@
        &&& new.find_query@ == old.find_query@
        &&& new.replace@ == old.replace@
    }
}

/// Row `k` of a table during a replace over all values: rows before `i` are
/// done, row `i` is done before column `j`.
pub open spec fn partly_replaced(
    rows: Seq<Seq<Seq<char>>>,
    i: int,
    j: int,
    find: Seq<char>,
    to: Seq<char>,
) -> Seq<Seq<Seq<char>>> {
    Seq::new(
        rows.len(),
        |k: int|
            if k < i {
                rows[k].map_values(|v: Seq<char>| replace_all(v, find, to))
            } else if k == i {
                Seq::new(
                    rows[k].len(),
                    |c: int|
                        if c < j {
                            replace_all(rows[k][c], find, to)
                        } else {
                            rows[k][c]
                        },
                )
            } else {
                rows[k]
            },
    )
}

impl Document {
    fn replace_in_entries(&mut self, find: &String, to: &String) -> (count: usize)
        requires
            history_wf(old(self).history@),
            old(self).data@ is Tlk,
            find@.len() > 0,
        ensures
            old(self).data@ matches DocView::Tlk(t) && {
                let edits = tlk_replace_edits(t.entries, find@, to@);
                &&& count == edits.len()
                &&& final(self).data@ == DocView::Tlk(
                    crate::tlk::TlkView {
                        entries: t.entries.map_values(|e: EntryView| entry_replaced(e, find@, to@)),
                        ..t
                    },
                )
                &&& final(self).history@ == record_all(old(self).history@, edits)
                &&& history_wf(final(self).history@)
                &&& final(self).tlk_modified@ == old(self).tlk_modified@.union(
                    changed_entries(t.entries, find@, to@),
                )
                &&& final(self).selected_row == old(self).selected_row
                &&& final(self).selected_rows@ == old(self).selected_rows@
                &&& final(self).selected_cells@ == old(self).selected_cells@
                &&& final(self).find_query@ == old(self).find_query@
                &&& final(self).replace@ == old(self).replace@
            },
    {
        let ghost t0 = match self.data@ {
            DocView::Tlk(t) => t,
            _ => arbitrary(),
        };
        let ghost es0 = t0.entries;
        let n = match &self.data {
            DocumentData::Tlk(t) => t.entries.len(),
            _ => 0,
        };
        let mut changed: Vec<usize> = Vec::new();
        let mut i: usize = 0;
        proof {
            assert(es0.take(0) =~= Seq::<EntryView>::empty());
            assert(changed_entries(es0.take(0), find@, to@) =~= Set::<usize>::empty());
            assert(old(self).tlk_modified@.union(Set::<usize>::empty()) =~= old(self).tlk_modified@);
            assert(Seq::new(n as nat, |j: int| if j < 0 { entry_replaced(es0[j], find@, to@) } else { es0[j] }) =~= es0);
        }
        while i < n
            invariant
                i <= n,
                n == es0.len(),
                old(self).data@ == DocView::Tlk(t0),
                es0 == t0.entries,
                find@.len() > 0,
                self.data@ == DocView::Tlk(
                    crate::tlk::TlkView {
                        entries: Seq::new(
                            n as nat,
                            |j: int|
                                if j < i {
                                    entry_replaced(es0[j], find@, to@)
                                } else {
                                    es0[j]
                                },
                        ),
                        ..t0
                    },
                ),
                self.history@ == record_all(old(self).history@, tlk_replace_edits(es0.take(i as int), find@, to@)),
                history_wf(self.history@),
                changed@.len() == tlk_replace_edits(es0.take(i as int), find@, to@).len(),
                self.tlk_modified@ == old(self).tlk_modified@.union(changed_entries(es0.take(i as int), find@, to@)),
                self.selected_row == old(self).selected_row,
                self.selected_rows@ == old(self).selected_rows@,
                self.selected_cells@ == old(self).selected_cells@,
                self.find_query@ == old(self).find_query@,
                self.replace@ == old(self).replace@,
            decreases n - i,
        {
            let action = match &self.data {
                DocumentData::Tlk(t) => {
                    proof {
                        assert(entry_views(t.entries@).len() == t.entries@.len());
                        assert(t.entries@.len() == n);
                        assert(t@.entries[i as int] == es0[i as int]);
                        assert(entry_views(t.entries@)[i as int] == t.entries@[i as int]@);
                    }
                    let e = &t.entries[i];
                    let text = replace_text(e.text.as_str(), find.as_str(), to.as_str());
                    let nonempty = !text.as_str().is_empty();
                    let flags = (e.flags & !1u32) | (if nonempty {
                        1u32
                    } else {
                        0u32
                    });
                    if flags == e.flags && str_eq(text.as_str(), e.text.as_str()) && !is_nan_length(
                        e.sound_length_bits,
                    ) {
                        assert(entry_replaced(e@, find@, to@) =~= e@);
                        None
                    } else {
                        let after = TlkEntry {
                            flags,
                            sound_resref: e.sound_resref.clone(),
                            volume_variance: e.volume_variance,
                            pitch_variance: e.pitch_variance,
                            sound_length_bits: e.sound_length_bits,
                            text,
                        };
                        assert(after@ == entry_replaced(e@, find@, to@));
                        Some(EditAction::TlkEntry { row: i, before: e.duplicate(), after })
                    }
                },
                _ => None,
            };
            let ghost prev_edits = tlk_replace_edits(es0.take(i as int), find@, to@);
            proof {
                assert(es0.take(i + 1).drop_last() =~= es0.take(i as int));
                assert(es0.take(i + 1).last() == es0[i as int]);
            }
            match action {
                Some(a) => {
                    let ghost av = a@;
                    self.commit(a);
                    self.tlk_modified.insert(i);
                    changed.push(i);
                    proof {
                        assert(tlk_replace_edits(es0.take(i + 1), find@, to@) == prev_edits.push(av));
                        assert(prev_edits.push(av).drop_last() =~= prev_edits);
                        assert(changed_entries(es0.take(i + 1), find@, to@) =~= changed_entries(
                            es0.take(i as int),
                            find@,
                            to@,
                        ).insert(i));
                    }
                },
                None => {
                    proof {
                        assert(tlk_replace_edits(es0.take(i + 1), find@, to@) == prev_edits);
                        assert(changed_entries(es0.take(i + 1), find@, to@) =~= changed_entries(
                            es0.take(i as int),
                            find@,
                            to@,
                        ));
                    }
                },
            }
            proof {
                let cur = Seq::new(
                    n as nat,
                    |j: int|
                        if j < i + 1 {
                            entry_replaced(es0[j], find@, to@)
                        } else {
                            es0[j]
                        },
                );
                let was = Seq::new(
                    n as nat,
                    |j: int|
                        if j < i {
                            entry_replaced(es0[j], find@, to@)
                        } else {
                            es0[j]
                        },
                );
                assert(cur =~= was.update(i as int, entry_replaced(es0[i as int], find@, to@)));
                if entry_replaced(es0[i as int], find@, to@) == es0[i as int] {
                    assert(cur =~= was);
                }
            }
            i = i + 1;
        }
        proof {
            assert(es0.take(n as int) =~= es0);
            assert(Seq::new(
                n as nat,
                |j: int|
                    if j < n {
                        entry_replaced(es0[j], find@, to@)
                    } else {
                        es0[j]
                    },
            ) =~= es0.map_values(|e: EntryView| entry_replaced(e, find@, to@)));
        }
        changed.len()
    }
}

impl Document {
    fn replace_in_table(&mut self, find: &String, to: &String) -> (count: usize)
        requires
            history_wf(old(self).history@),
            old(self).data@ is TwoDa,
            find@.len() > 0,
        ensures
            old(self).data@ matches DocView::TwoDa(t) && {
                let edits = table_replace_edits(t.rows, find@, to@);
                &&& count == edits.len()
                &&& final(self).data@ == DocView::TwoDa(TableView { rows: table_replaced(t.rows, find@, to@), ..t })
                &&& final(self).history@ == record_all(old(self).history@, edits)
                &&& history_wf(final(self).history@)
                &&& final(self).tlk_modified@ == old(self).tlk_modified@
                &&& final(self).selected_row == old(self).selected_row
                &&& final(self).selected_rows@ == old(self).selected_rows@
                &&& final(self).selected_cells@ == old(self).selected_cells@
                &&& final(self).find_query@ == old(self).find_query@
                &&& final(self).replace@ == old(self).replace@
            },
    {
        let ghost t0 = match self.data@ {
            DocView::TwoDa(t) => t,
            _ => arbitrary(),
        };
        let ghost rows0 = t0.rows;
        let n = match &self.data {
            DocumentData::TwoDa(t) => t.rows.len(),
            _ => 0,
        };
        let mut changed: Vec<(usize, usize)> = Vec::new();
        let mut i: usize = 0;
        proof {
            assert(rows0.take(0) =~= Seq::<Seq<Seq<char>>>::empty());
            assert(partly_replaced(rows0, 0, 0, find@, to@) =~= rows0) by {
                assert forall|k: int| 0 <= k < rows0.len() implies #[trigger] partly_replaced(
                    rows0,
                    0,
                    0,
                    find@,
                    to@,
                )[k] == rows0[k] by {
                    if k == 0 {
                        assert(partly_replaced(rows0, 0, 0, find@, to@)[k] =~= rows0[k]);
                    }
                }
            }
        }
        while i < n
            invariant
                i <= n,
                n == rows0.len(),
                old(self).data@ == DocView::TwoDa(t0),
                rows0 == t0.rows,
                find@.len() > 0,
                self.data@ == DocView::TwoDa(TableView { rows: partly_replaced(rows0, i as int, 0, find@, to@), ..t0 }),
                self.history@ == record_all(old(self).history@, table_replace_edits(rows0.take(i as int), find@, to@)),
                history_wf(self.history@),
                changed@.len() == table_replace_edits(rows0.take(i as int), find@, to@).len(),
                self.tlk_modified@ == old(self).tlk_modified@,
                self.selected_row == old(self).selected_row,
                self.selected_rows@ == old(self).selected_rows@,
                self.selected_cells@ == old(self).selected_cells@,
                self.find_query@ == old(self).find_query@,
                self.replace@ == old(self).replace@,
            decreases n - i,
        {
            let width = match &self.data {
                DocumentData::TwoDa(t) => {
                    assert(row_views(t.rows@).len() == t.rows@.len());
                    assert(row_views(t.rows@)[i as int] == str_views(t.rows@[i as int]@));
                    t.rows[i].len()
                },
                _ => 0,
            };
            let ghost r0 = rows0[i as int];
            let ghost before_row = table_replace_edits(rows0.take(i as int), find@, to@);
            assert(width == r0.len());
            let mut j: usize = 0;
            proof {
                assert(r0.take(0) =~= Seq::<Seq<char>>::empty());
                assert(before_row + Seq::<ActionView>::empty() =~= before_row);
            }
            while j < width
                invariant
                    i < n,
                    j <= width,
                    width == r0.len(),
                    n == rows0.len(),
                    r0 == rows0[i as int],
                    old(self).data@ == DocView::TwoDa(t0),
                    rows0 == t0.rows,
                    find@.len() > 0,
                    before_row == table_replace_edits(rows0.take(i as int), find@, to@),
                    self.data@ == DocView::TwoDa(
                        TableView { rows: partly_replaced(rows0, i as int, j as int, find@, to@), ..t0 },
                    ),
                    self.history@ == record_all(
                        old(self).history@,
                        before_row + cell_replace_edits(r0.take(j as int), i, find@, to@),
                    ),
                    history_wf(self.history@),
                    changed@.len() == (before_row + cell_replace_edits(r0.take(j as int), i, find@, to@)).len(),
                    self.tlk_modified@ == old(self).tlk_modified@,
                    self.selected_row == old(self).selected_row,
                    self.selected_rows@ == old(self).selected_rows@,
                    self.selected_cells@ == old(self).selected_cells@,
                    self.find_query@ == old(self).find_query@,
                    self.replace@ == old(self).replace@,
                decreases width - j,
            {
                let action = match &self.data {
                    DocumentData::TwoDa(t) => {
                        proof {
                            assert(row_views(t.rows@).len() == t.rows@.len());
                            assert(row_views(t.rows@)[i as int] == str_views(t.rows@[i as int]@));
                            assert(str_views(t.rows@[i as int]@)[j as int] == t.rows@[i as int]@[j as int]@);
                            assert(t@.rows[i as int][j as int] == r0[j as int]);
                        }
                        let v = &t.rows[i][j];
                        let after = replace_text(v.as_str(), find.as_str(), to.as_str());
                        if str_eq(after.as_str(), v.as_str()) {
                            None
                        } else {
                            Some(EditAction::TwoDaCell { row: i, column: j, before: v.clone(), after })
                        }
                    },
                    _ => None,
                };
                let ghost prev_cells = cell_replace_edits(r0.take(j as int), i, find@, to@);
                proof {
                    assert(r0.take(j + 1).drop_last() =~= r0.take(j as int));
                    assert(r0.take(j + 1).last() == r0[j as int]);
                }
                let ghost was = partly_replaced(rows0, i as int, j as int, find@, to@);
                let ghost cur = partly_replaced(rows0, i as int, j + 1, find@, to@);
                proof {
                    let nv = replace_all(r0[j as int], find@, to@);
                    assert forall|k: int| 0 <= k < rows0.len() implies #[trigger] cur[k] == was.update(
                        i as int,
                        was[i as int].update(j as int, nv),
                    )[k] by {
                        if k == i {
                            assert(cur[k] =~= was[i as int].update(j as int, nv));
                        }
                    }
                    assert(cur =~= was.update(i as int, was[i as int].update(j as int, nv)));
                }
                match action {
                    Some(a) => {
                        let ghost av = a@;
                        self.commit(a);
                        changed.push((i, j));
                        proof {
                            assert(cell_replace_edits(r0.take(j + 1), i, find@, to@) == prev_cells.push(av));
                            assert(before_row + prev_cells.push(av) =~= (before_row + prev_cells).push(av));
                            assert((before_row + prev_cells).push(av).drop_last() =~= before_row + prev_cells);
                        }
                    },
                    None => {
                        proof {
                            assert(cell_replace_edits(r0.take(j + 1), i, find@, to@) == prev_cells);
                            assert(was[i as int].update(j as int, replace_all(r0[j as int], find@, to@)) =~= was[i as int]);
                            assert(cur =~= was);
                        }
                    },
                }
                j = j + 1;
            }
            proof {
                assert(r0.take(width as int) =~= r0);
                assert(rows0.take(i + 1).drop_last() =~= rows0.take(i as int));
                assert(rows0.take(i + 1).last() == r0);
                assert(table_replace_edits(rows0.take(i + 1), find@, to@) == before_row + cell_replace_edits(r0, i, find@, to@));
                assert forall|k: int| 0 <= k < rows0.len() implies #[trigger] partly_replaced(
                    rows0,
                    i + 1,
                    0,
                    find@,
                    to@,
                )[k] == partly_replaced(rows0, i as int, width as int, find@, to@)[k] by {
                    if k == i {
                        assert(partly_replaced(rows0, i + 1, 0, find@, to@)[k] =~= partly_replaced(
                            rows0,
                            i as int,
                            width as int,
                            find@,
                            to@,
                        )[k]);
                    }
                    if k == i + 1 {
                        assert(partly_replaced(rows0, i + 1, 0, find@, to@)[k] =~= rows0[k]);
                    }
                }
                assert(partly_replaced(rows0, i + 1, 0, find@, to@) =~= partly_replaced(
                    rows0,
                    i as int,
                    width as int,
                    find@,
                    to@,
                ));
            }
            i = i + 1;
        }
        proof {
            assert(rows0.take(n as int) =~= rows0);
            assert(partly_replaced(rows0, n as int, 0, find@, to@) =~= table_replaced(rows0, find@, to@));
        }
        changed.len()
    }

    /// Replaces the query in every entry or value (see `replaced_all`).
    /// Gives how many edits were made, or nothing when there is no query.
    pub fn replace_all_matches(&mut self) -> (r: Option<usize>)
        requires
            history_wf(old(self).history@),
        ensures
            replaced_all(*old(self), *final(self), r),
            history_wf(final(self).history@),
    {
        if self.find_query.as_str().is_empty() {
            return None;
        }
        let find = self.find_query.clone();
        let to = self.replace.clone();
        let count = match &self.data {
            DocumentData::Tlk(_) => self.replace_in_entries(&find, &to),
            DocumentData::TwoDa(_) => self.replace_in_table(&find, &to),
            DocumentData::Itp(_) => 0,
        };
        self.dirty = !self.history.is_clean();
        Some(count)
    }
}

// ---------------------------------------------------------------------------
// Filtering the rows shown.
/// The rows below `n` for which `keep` holds, in order.
pub open spec fn rows_where(n: nat, keep: spec_fn(nat) -> bool) -> Seq<usize>
    decreases n,
{
    if n == 0 {
        seq![]
    } else if keep((n - 1) as nat) {
        rows_where((n - 1) as nat, keep).push((n - 1) as usize)
    } else {
        rows_where((n - 1) as nat, keep)
    }
}

/// The rows a document's filter shows: all (none given) when the filter text
/// in lower case is empty; else the entries whose string reference as shown,
/// or whose text, holds it in lower case, or the table rows with a value
/// that holds it.
pub open spec fn filtered_rows(d: Document, user: bool, hex: bool) -> Option<Seq<usize>> {
    let needle = lowercase(d.search@);
    if needle.len() == 0 {
        None
    } else {
        match d.data@ {
            DocView::Tlk(t) => Some(
                rows_where(
                    t.entries.len(),
                    |i: nat|
                        contains_sub(lowercase(strref_text(i as usize, user, hex)), needle) || contains_sub(
                            lowercase(t.entries[i as int].text),
                            needle,
                        ),
                ),
            ),
            DocView::TwoDa(t) => Some(rows_where(t.rows.len(), |i: nat| table_row_matches(t.rows[i as int], needle))),
            DocView::Itp(_) => None,
        }
    }
}

/// The rows the filter shows (see `filtered_rows`).
pub fn visible_rows(document: &Document, user: bool, hex: bool) -> (r: Option<Vec<usize>>)
    requires
        document.data@ is Tlk ==> strrefs_fit(row_count(document.data@), user),
    ensures
        match r {
            Some(v) => filtered_rows(*document, user, hex) == Some(v@),
            None => filtered_rows(*document, user, hex) is None,
        },
{
    let needle = to_lower(document.search.as_str());
    if needle.as_str().is_empty() {
        return None;
    }
    match &document.data {
        DocumentData::Tlk(t) => {
            let ghost keep = |i: nat|
                contains_sub(lowercase(strref_text(i as usize, user, hex)), needle@) || contains_sub(
                    lowercase(t@.entries[i as int].text),
                    needle@,
                );
            let mut out: Vec<usize> = Vec::new();
            let mut i: usize = 0;
            while i < t.entries.len()
                invariant
                    i <= t.entries@.len(),
                    strrefs_fit(t.entries@.len(), user),
                    out@ == rows_where(i as nat, keep),
                    keep == (|i: nat|
                        contains_sub(lowercase(strref_text(i as usize, user, hex)), needle@) || contains_sub(
                            lowercase(t@.entries[i as int].text),
                            needle@,
                        )),
                decreases t.entries@.len() - i,
            {
                proof {
                    if user {
                        assert(i < 0xFF00_0000);
                    }
                    assert(strref_value(i, user) <= u32::MAX);
                    assert(entry_views(t.entries@)[i as int] == t.entries@[i as int]@);
                }
                let shown = to_lower(displayed_strref(i, user, hex).as_str());
                let hit = contains_text(shown.as_str(), needle.as_str()) || {
                    let text = to_lower(t.entries[i].text.as_str());
                    contains_text(text.as_str(), needle.as_str())
                };
                if hit {
                    out.push(i);
                }
                i = i + 1;
            }
            Some(out)
        },
        DocumentData::TwoDa(t) => {
            let ghost keep = |i: nat| table_row_matches(t@.rows[i as int], needle@);
            let mut out: Vec<usize> = Vec::new();
            let mut i: usize = 0;
            while i < t.rows.len()
                invariant
                    i <= t.rows@.len(),
                    out@ == rows_where(i as nat, keep),
                    keep == (|i: nat| table_row_matches(t@.rows[i as int], needle@)),
                decreases t.rows@.len() - i,
            {
                assert(row_views(t.rows@)[i as int] == str_views(t.rows@[i as int]@));
                if values_hold(&t.rows[i], needle.as_str()) {
                    out.push(i);
                }
                i = i + 1;
            }
            Some(out)
        },
        DocumentData::Itp(_) => None,
    }
}

} // verus!
