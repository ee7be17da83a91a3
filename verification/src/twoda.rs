//! 2DA tables: text `2DA V2.0` and binary `2DA V2.b`.
use crate::bytes::{
    le16, le16_bytes, le32, le32_bytes, lemma_le16_round_trip, lemma_le32_round_trip, push_le16,
    push_le32, read_le16, read_le32,
};
use crate::text::{
    ascii_lower, contains_char, eq_ignore_ascii_case, has_ws, is_whitespace, is_ws, string_of_range,
    to_ascii_lower,
    trim, trim_end, trim_end_range, trim_start, trim_start_from,
};
use vstd::prelude::*;

verus! {

pub const MAX_COLUMNS: usize = 4096;

pub const MAX_ROWS: usize = 250000;

pub const MAX_CELLS: usize = 2000000;

#[derive(Clone, Copy, Debug, Default, PartialEq, Eq)]
pub enum TwoDaFormat {
    #[default]
    Text,
    Binary,
}

/// A 2DA table. `columns` includes the synthetic first "Row" column, and each row
/// starts with its row label.
#[derive(Clone, Debug, Default, PartialEq)]
pub struct TwoDaFile {
    pub default_value: Option<String>,
    pub columns: Vec<String>,
    pub rows: Vec<Vec<String>>,
    pub format: TwoDaFormat,
}

/// Why a 2DA could not be read or written.
#[derive(Clone, Copy, Debug, PartialEq, Eq)]
pub enum TwoDaError {
    Empty,
    BinaryNotSupported,
    NotText,
    NoColumnHeader,
    UnterminatedQuote,
    NoDataColumns,
    TooManyColumns,
    InvalidRow { row: usize },
    RowLength { row: usize, found: usize, expected: usize },
    TooManyRows,
    NotBinary,
    Truncated,
    TruncatedString,
    TruncatedRowCount,
    TooLarge,
    RowCountExceedsData,
    TooManyCells,
    TruncatedIndex,
    TruncatedDataSize,
    TruncatedData,
    OffsetOutOfRange,
    UnterminatedValue,
    MissingRowColumn,
    InvalidColumnName,
    QuoteInValue,
    DefaultInBinary,
    NotSingleByte,
    BlockTooLarge,
    InvalidUtf8,
}

/// The mathematical content of a table.
pub struct TableView {
    pub default_value: Option<Seq<char>>,
    pub columns: Seq<Seq<char>>,
    pub rows: Seq<Seq<Seq<char>>>,
    pub format: TwoDaFormat,
}

pub open spec fn str_views(v: Seq<String>) -> Seq<Seq<char>> {
    v.map_values(|s: String| s@)
}

pub open spec fn row_views(v: Seq<Vec<String>>) -> Seq<Seq<Seq<char>>> {
    v.map_values(|r: Vec<String>| str_views(r@))
}

pub open spec fn opt_view(o: Option<String>) -> Option<Seq<char>> {
    match o {
        Some(s) => Some(s@),
        None => None,
    }
}

impl View for TwoDaFile {
    type V = TableView;

    open spec fn view(&self) -> TableView {
        TableView {
            default_value: opt_view(self.default_value),
            columns: str_views(self.columns@),
            rows: row_views(self.rows@),
            format: self.format,
        }
    }
}

pub open spec fn row_tag() -> Seq<char> {
    seq!['R', 'o', 'w']
}

pub open spec fn empty_tag() -> Seq<char> {
    seq!['*', '*', '*', '*']
}

// ---------------------------------------------------------------------------
// Tokenizing one line into whitespace-separated, optionally quoted fields.
#[derive(Clone, Copy, PartialEq, Eq)]
pub enum TokMode {
    Gap,
    Word,
    Quoted,
}

pub struct TokState {
    pub fields: Seq<Seq<char>>,
    pub cur: Seq<char>,
    pub mode: TokMode,
}

pub open spec fn tok_start() -> TokState {
    TokState { fields: seq![], cur: seq![], mode: TokMode::Gap }
}

/// One character of the tokenizer: whitespace separates fields, and a field that
/// starts with a double quote runs to the next double quote.
pub open spec fn tok_step(st: TokState, c: char) -> TokState {
    match st.mode {
        TokMode::Gap => {
            if is_ws(c) {
                st
            } else if c == '"' {
                TokState { fields: st.fields, cur: seq![], mode: TokMode::Quoted }
            } else {
                TokState { fields: st.fields, cur: seq![c], mode: TokMode::Word }
            }
        },
        TokMode::Word => {
            if is_ws(c) {
                TokState { fields: st.fields.push(st.cur), cur: seq![], mode: TokMode::Gap }
            } else {
                TokState { fields: st.fields, cur: st.cur.push(c), mode: TokMode::Word }
            }
        },
        TokMode::Quoted => {
            if c == '"' {
                TokState { fields: st.fields.push(st.cur), cur: seq![], mode: TokMode::Gap }
            } else {
                TokState { fields: st.fields, cur: st.cur.push(c), mode: TokMode::Quoted }
            }
        },
    }
}

pub open spec fn tok_run(st: TokState, s: Seq<char>) -> TokState
    decreases s.len(),
{
    if s.len() == 0 {
        st
    } else {
        tok_step(tok_run(st, s.drop_last()), s.last())
    }
}

/// The fields of a line; an unterminated quoted field is an error.
pub open spec fn tokenize_spec(s: Seq<char>) -> Result<Seq<Seq<char>>, ()> {
    let st = tok_run(tok_start(), s);
    match st.mode {
        TokMode::Gap => Ok(st.fields),
        TokMode::Word => Ok(st.fields.push(st.cur)),
        TokMode::Quoted => Err(()),
    }
}

/// Splits `s[from..to]` into fields.
pub fn tokenize(s: &[char], from: usize, to: usize) -> (r: Result<Vec<String>, ()>)
    requires
        from <= to <= s@.len(),
    ensures
        r matches Ok(v) ==> tokenize_spec(s@.subrange(from as int, to as int)) == Ok::<
            Seq<Seq<char>>,
            (),
        >(str_views(v@)),
        r is Err ==> tokenize_spec(s@.subrange(from as int, to as int)) is Err,
{
    let mut fields: Vec<String> = Vec::new();
    let mut mode = TokMode::Gap;
    let mut start = from;
    let mut i = from;
    assert(s@.subrange(from as int, from as int) =~= Seq::<char>::empty());
    assert(str_views(fields@) =~= Seq::<Seq<char>>::empty());
    while i < to
        invariant
            from <= start <= i <= to <= s@.len(),
            tok_run(tok_start(), s@.subrange(from as int, i as int)).fields == str_views(fields@),
            tok_run(tok_start(), s@.subrange(from as int, i as int)).cur == s@.subrange(
                start as int,
                i as int,
            ),
            tok_run(tok_start(), s@.subrange(from as int, i as int)).mode == mode,
            mode == TokMode::Gap ==> start == i,
        decreases to - i,
    {
        let c = s[i];
        let ghost old_fields = fields@;
        assert(s@.subrange(from as int, i + 1).drop_last() == s@.subrange(from as int, i as int));
        assert(s@.subrange(start as int, i + 1) == s@.subrange(start as int, i as int).push(c));
        match mode {
            TokMode::Gap => {
                if is_whitespace(c) {
                    start = i + 1;
                } else if c == '"' {
                    mode = TokMode::Quoted;
                    start = i + 1;
                } else {
                    mode = TokMode::Word;
                    start = i;
                    assert(s@.subrange(start as int, i + 1) =~= seq![c]);
                }
            },
            TokMode::Word => {
                if is_whitespace(c) {
                    let f = string_of_range(s, start, i);
                    fields.push(f);
                    assert(str_views(fields@) =~= str_views(old_fields).push(f@));
                    mode = TokMode::Gap;
                    start = i + 1;
                }
            },
            TokMode::Quoted => {
                if c == '"' {
                    let f = string_of_range(s, start, i);
                    fields.push(f);
                    assert(str_views(fields@) =~= str_views(old_fields).push(f@));
                    mode = TokMode::Gap;
                    start = i + 1;
                }
            },
        }
        i = i + 1;
    }
    match mode {
        TokMode::Gap => Ok(fields),
        TokMode::Word => {
            let ghost old_fields = fields@;
            let f = string_of_range(s, start, to);
            fields.push(f);
            assert(str_views(fields@) =~= str_views(old_fields).push(f@));
            Ok(fields)
        },
        TokMode::Quoted => Err(()),
    }
}

} // verus!

verus! {

// ---------------------------------------------------------------------------
// Splitting text into significant lines.
pub struct LineState {
    pub done: Seq<Seq<char>>,
    pub cur: Seq<char>,
}

pub open spec fn line_start() -> LineState {
    LineState { done: seq![], cur: seq![] }
}

/// A finished line is kept, without its trailing whitespace, unless it is blank.
pub open spec fn push_line(done: Seq<Seq<char>>, cur: Seq<char>) -> Seq<Seq<char>> {
    if trim_end(cur).len() > 0 {
        done.push(trim_end(cur))
    } else {
        done
    }
}

pub open spec fn line_step(st: LineState, c: char) -> LineState {
    if c == '\n' {
        LineState { done: push_line(st.done, st.cur), cur: seq![] }
    } else {
        LineState { done: st.done, cur: st.cur.push(c) }
    }
}

pub open spec fn line_run(st: LineState, s: Seq<char>) -> LineState
    decreases s.len(),
{
    if s.len() == 0 {
        st
    } else {
        line_step(line_run(st, s.drop_last()), s.last())
    }
}

/// The non-blank lines of a text, each without trailing whitespace.
pub open spec fn text_lines(s: Seq<char>) -> Seq<Seq<char>> {
    let st = line_run(line_start(), s);
    push_line(st.done, st.cur)
}

pub open spec fn ranges_view(s: Seq<char>, r: Seq<(usize, usize)>) -> Seq<Seq<char>> {
    r.map_values(|p: (usize, usize)| s.subrange(p.0 as int, p.1 as int))
}

pub open spec fn ranges_ok(r: Seq<(usize, usize)>, len: nat) -> bool {
    forall|k: int| 0 <= k < r.len() ==> #[trigger] r[k].0 <= r[k].1 <= len
}

/// The significant lines of `s`, as ranges of `s`.
fn significant_lines(s: &[char]) -> (r: Vec<(usize, usize)>)
    ensures
        ranges_ok(r@, s@.len()),
        ranges_view(s@, r@) == text_lines(s@),
{
    let mut r: Vec<(usize, usize)> = Vec::new();
    let mut start: usize = 0;
    let mut i: usize = 0;
    assert(s@.take(0) =~= Seq::<char>::empty());
    assert(ranges_view(s@, r@) =~= Seq::<Seq<char>>::empty());
    while i < s.len()
        invariant
            start <= i <= s@.len(),
            ranges_ok(r@, s@.len()),
            line_run(line_start(), s@.take(i as int)).done == ranges_view(s@, r@),
            line_run(line_start(), s@.take(i as int)).cur == s@.subrange(start as int, i as int),
        decreases s@.len() - i,
    {
        assert(s@.take(i + 1).drop_last() == s@.take(i as int));
        let ghost old_r = r@;
        if s[i] == '\n' {
            let e = trim_end_range(s, start, i);
            if e > start {
                r.push((start, e));
                assert(ranges_view(s@, r@) =~= ranges_view(s@, old_r).push(
                    s@.subrange(start as int, e as int),
                ));
                assert forall|k: int| 0 <= k < r@.len() implies #[trigger] r@[k].0 <= r@[k].1
                    <= s@.len() by {
                    if k < old_r.len() {
                        assert(r@[k] == old_r[k]);
                        assert(ranges_ok(old_r, s@.len()));
                        assert(old_r[k].0 <= old_r[k].1 <= s@.len());
                    } else {
                        assert(r@[k] == (start, e));
                    }
                }
                assert(ranges_ok(r@, s@.len()));
            }
            start = i + 1;
        } else {
            assert(s@.subrange(start as int, i + 1) == s@.subrange(start as int, i as int).push(
                s@[i as int],
            ));
        }
        i = i + 1;
    }
    assert(s@.take(s@.len() as int) == s@);
    let ghost old_r = r@;
    let e = trim_end_range(s, start, s.len());
    if e > start {
        r.push((start, e));
        assert(ranges_view(s@, r@) =~= ranges_view(s@, old_r).push(
            s@.subrange(start as int, e as int),
        ));
    }
    r
}

// ---------------------------------------------------------------------------
// Parsing text tables.
pub open spec fn text_signature() -> Seq<char> {
    seq!['2', 'D', 'A', ' ', 'V', '2', '.', '0']
}

pub open spec fn binary_signature() -> Seq<char> {
    seq!['2', 'D', 'A', ' ', 'V', '2', '.', 'b']
}

pub open spec fn default_tag() -> Seq<char> {
    seq!['d', 'e', 'f', 'a', 'u', 'l', 't', ':']
}

/// A line that, after leading whitespace, starts with `default:` in any ASCII case.
pub open spec fn is_default_line(line: Seq<char>) -> bool {
    let t = trim_start(line);
    t.len() >= 8 && forall|i: int| 0 <= i < 8 ==> ascii_lower(#[trigger] t[i]) == default_tag()[i]
}

/// The value of a `DEFAULT:` line: what follows the colon, trimmed.
pub open spec fn default_of(line: Seq<char>) -> Seq<char> {
    trim(trim_start(line).skip(8))
}

/// Rows of a text table from body line `k` on.
pub open spec fn parse_rows(lines: Seq<Seq<char>>, ncols: nat, k: nat) -> Result<
    Seq<Seq<Seq<char>>>,
    TwoDaError,
>
    decreases lines.len() - k,
{
    if k >= lines.len() {
        Ok(seq![])
    } else {
        match tokenize_spec(lines[k as int]) {
            Err(_) => Err(TwoDaError::InvalidRow { row: (k + 1) as usize }),
            Ok(row) => {
                if row.len() != ncols {
                    Err(
                        TwoDaError::RowLength {
                            row: (k + 1) as usize,
                            found: row.len() as usize,
                            expected: ncols as usize,
                        },
                    )
                } else if k >= MAX_ROWS || (k + 1) * ncols > MAX_CELLS {
                    Err(TwoDaError::TooManyRows)
                } else {
                    match parse_rows(lines, ncols, k + 1) {
                        Ok(rest) => Ok(seq![row] + rest),
                        Err(e) => Err(e),
                    }
                }
            },
        }
    }
}

/// Column header and rows of a text table.
pub open spec fn parse_body(
    default_value: Option<Seq<char>>,
    header: Seq<char>,
    body: Seq<Seq<char>>,
) -> Result<TableView, TwoDaError> {
    match tokenize_spec(header) {
        Err(_) => Err(TwoDaError::UnterminatedQuote),
        Ok(names) => {
            if names.len() < 1 {
                Err(TwoDaError::NoDataColumns)
            } else if names.len() > MAX_COLUMNS {
                Err(TwoDaError::TooManyColumns)
            } else {
                match parse_rows(body, names.len() + 1, 0) {
                    Err(e) => Err(e),
                    Ok(rows) => Ok(
                        TableView {
                            default_value,
                            columns: seq![row_tag()] + names,
                            rows,
                            format: TwoDaFormat::Text,
                        },
                    ),
                }
            }
        },
    }
}

/// A text `2DA V2.0` table: signature line, optional `DEFAULT:` line, column
/// header, then one line per row.
pub open spec fn parse_text(text: Seq<char>) -> Result<TableView, TwoDaError> {
    let lines = text_lines(text);
    if lines.len() == 0 {
        Err(TwoDaError::Empty)
    } else if !eq_ignore_ascii_case(trim(lines[0]), text_signature()) {
        if eq_ignore_ascii_case(trim(lines[0]), binary_signature()) {
            Err(TwoDaError::BinaryNotSupported)
        } else {
            Err(TwoDaError::NotText)
        }
    } else if lines.len() < 2 {
        Err(TwoDaError::NoColumnHeader)
    } else if is_default_line(lines[1]) {
        if lines.len() < 3 {
            Err(TwoDaError::NoColumnHeader)
        } else {
            parse_body(Some(default_of(lines[1])), lines[2], lines.skip(3))
        }
    } else {
        parse_body(None, lines[1], lines.skip(2))
    }
}

pub open spec fn view_result(r: Result<TwoDaFile, TwoDaError>) -> Result<TableView, TwoDaError> {
    match r {
        Ok(t) => Ok(t@),
        Err(e) => Err(e),
    }
}

fn text_signature_chars() -> (v: Vec<char>)
    ensures
        v@ == text_signature(),
{
    let v = vec!['2', 'D', 'A', ' ', 'V', '2', '.', '0'];
    assert(v@ =~= text_signature());
    v
}

fn binary_signature_chars() -> (v: Vec<char>)
    ensures
        v@ == binary_signature(),
{
    let v = vec!['2', 'D', 'A', ' ', 'V', '2', '.', 'b'];
    assert(v@ =~= binary_signature());
    v
}

/// Whether `s[from..to]` equals `t` up to ASCII case.
fn eq_ascii_range(s: &[char], from: usize, to: usize, t: &[char]) -> (r: bool)
    requires
        from <= to <= s@.len(),
    ensures
        r == eq_ignore_ascii_case(s@.subrange(from as int, to as int), t@),
{
    if to - from != t.len() {
        return false;
    }
    let mut i: usize = 0;
    while i < t.len()
        invariant
            to - from == t@.len(),
            from <= to <= s@.len(),
            i <= t@.len(),
            forall|j: int|
                0 <= j < i ==> ascii_lower(#[trigger] s@.subrange(from as int, to as int)[j])
                    == ascii_lower(t@[j]),
        decreases t@.len() - i,
    {
        if to_ascii_lower(s[from + i]) != to_ascii_lower(t[i]) {
            assert(s@.subrange(from as int, to as int)[i as int] == s@[from + i]);
            return false;
        }
        i = i + 1;
    }
    true
}

fn is_default_line_range(s: &[char], from: usize, to: usize) -> (r: bool)
    requires
        from <= to <= s@.len(),
    ensures
        r == is_default_line(s@.subrange(from as int, to as int)),
{
    let a = trim_start_from(s, from, to);
    if to - a < 8 {
        return false;
    }
    let tag = vec!['d', 'e', 'f', 'a', 'u', 'l', 't', ':'];
    assert(tag@ =~= default_tag());
    let r = eq_ascii_range(s, a, a + 8, tag.as_slice());
    proof {
        let t = s@.subrange(a as int, to as int);
        assert forall|i: int| 0 <= i < 8 implies #[trigger] t[i] == s@.subrange(
            a as int,
            a + 8,
        )[i] by {}
        assert(forall|i: int| 0 <= i < 8 ==> ascii_lower(#[trigger] default_tag()[i])
            == default_tag()[i]);
    }
    r
}

impl TwoDaFile {
    /// Parses a text `2DA V2.0` table (see `parse_text`).
    pub fn parse(text: &str) -> (r: Result<TwoDaFile, TwoDaError>)
        ensures
            view_result(r) == parse_text(text@),
    {
        let chars = crate::text::chars_of(text);
        let s = chars.as_slice();
        let lines = significant_lines(s);
        let ghost lv = text_lines(s@);
        if lines.len() == 0 {
            return Err(TwoDaError::Empty);
        }
        let (a, b) = lines[0];
        assert(lv[0] == s@.subrange(a as int, b as int));
        let b2 = trim_end_range(s, a, b);
        let a2 = trim_start_from(s, a, b2);
        let text_sig = text_signature_chars();
        if !eq_ascii_range(s, a2, b2, text_sig.as_slice()) {
            let binary_sig = binary_signature_chars();
            if eq_ascii_range(s, a2, b2, binary_sig.as_slice()) {
                return Err(TwoDaError::BinaryNotSupported);
            }
            return Err(TwoDaError::NotText);
        }
        if lines.len() < 2 {
            return Err(TwoDaError::NoColumnHeader);
        }
        let (a, b) = lines[1];
        assert(lv[1] == s@.subrange(a as int, b as int));
        if is_default_line_range(s, a, b) {
            if lines.len() < 3 {
                return Err(TwoDaError::NoColumnHeader);
            }
            let t = trim_start_from(s, a, b);
            let e = trim_end_range(s, t + 8, b);
            let v0 = trim_start_from(s, t + 8, e);
            let value = string_of_range(s, v0, e);
            assert(trim_start(lv[1]).skip(8) == s@.subrange(t + 8, b as int));
            parse_body_exec(Some(value), s, &lines, 2)
        } else {
            parse_body_exec(None, s, &lines, 1)
        }
    }
}

#[verifier::loop_isolation(false)]
fn parse_body_exec(
    default_value: Option<String>,
    s: &[char],
    lines: &Vec<(usize, usize)>,
    h: usize,
) -> (r: Result<TwoDaFile, TwoDaError>)
    requires
        h < lines@.len(),
        ranges_ok(lines@, s@.len()),
    ensures
        view_result(r) == parse_body(
            opt_view(default_value),
            ranges_view(s@, lines@)[h as int],
            ranges_view(s@, lines@).skip(h + 1),
        ),
{
    let ghost lv = ranges_view(s@, lines@);
    let (a, b) = lines[h];
    let names = match tokenize(s, a, b) {
        Err(_) => {
            return Err(TwoDaError::UnterminatedQuote);
        },
        Ok(names) => names,
    };
    if names.len() < 1 {
        return Err(TwoDaError::NoDataColumns);
    }
    if names.len() > MAX_COLUMNS {
        return Err(TwoDaError::TooManyColumns);
    }
    let mut columns: Vec<String> = Vec::new();
    columns.push(string_of_range(&vec!['R', 'o', 'w'], 0, 3));
    let ghost row_name = columns@[0]@;
    assert(row_name =~= row_tag());
    let mut n: usize = 0;
    while n < names.len()
        invariant
            n <= names@.len(),
            columns@.len() == n + 1,
            str_views(columns@) =~= seq![row_tag()] + str_views(names@).take(n as int),
        decreases names@.len() - n,
    {
        let ghost old_cols = columns@;
        columns.push(names[n].clone());
        assert(str_views(columns@) =~= str_views(old_cols).push(names@[n as int]@));
        assert(str_views(names@).take(n + 1) =~= str_views(names@).take(n as int).push(
            names@[n as int]@,
        ));
        n = n + 1;
    }
    assert(str_views(names@).take(names@.len() as int) == str_views(names@));
    let ncols = columns.len();
    let ghost body = lv.skip(h + 1);
    let mut rows: Vec<Vec<String>> = Vec::new();
    let mut k: usize = 0;
    assert(row_views(rows@) =~= Seq::<Seq<Seq<char>>>::empty());
    let nbody = lines.len() - h - 1;
    while k < nbody
        invariant
            h < lines@.len(),
            ranges_ok(lines@, s@.len()),
            lv == ranges_view(s@, lines@),
            body == lv.skip(h + 1),
            k <= body.len(),
            nbody == lines@.len() - h - 1,
            body.len() == lines@.len() - h - 1,
            rows@.len() == k,
            ncols == names@.len() + 1,
            2 <= ncols <= MAX_COLUMNS + 1,
            parse_rows(body, ncols as nat, 0) == (match parse_rows(body, ncols as nat, k as nat) {
                Ok(rest) => Ok(row_views(rows@) + rest),
                Err(e) => Err(e),
            }),
        decreases body.len() - k,
    {
        let (a, b) = lines[h + 1 + k];
        assert(body[k as int] == s@.subrange(a as int, b as int));
        let row = match tokenize(s, a, b) {
            Err(_) => {
                return Err(TwoDaError::InvalidRow { row: k + 1 });
            },
            Ok(row) => row,
        };
        assert(str_views(row@).len() == row@.len());
        if row.len() != ncols {
            assert(parse_rows(body, ncols as nat, k as nat) == Err::<Seq<Seq<Seq<char>>>, TwoDaError>(
                TwoDaError::RowLength { row: (k + 1) as usize, found: row.len(), expected: ncols },
            ));
            return Err(TwoDaError::RowLength { row: k + 1, found: row.len(), expected: ncols });
        }
        if k >= MAX_ROWS {
            return Err(TwoDaError::TooManyRows);
        }
        assert((k + 1) * ncols <= 250000 * 4097) by (nonlinear_arith)
            requires
                k < 250000,
                ncols <= 4097,
        ;
        if (k + 1) * ncols > MAX_CELLS {
            return Err(TwoDaError::TooManyRows);
        }
        let ghost old_rows = rows@;
        rows.push(row);
        proof {
            assert(row_views(rows@) =~= row_views(old_rows).push(str_views(row@)));
            match parse_rows(body, ncols as nat, (k + 1) as nat) {
                Ok(rest) => {
                    assert(row_views(rows@) + rest =~= row_views(old_rows) + (seq![str_views(row@)] + rest));
                },
                Err(e) => {},
            }
        }
        k = k + 1;
    }
    proof {
        assert(parse_rows(body, ncols as nat, k as nat) == Ok::<Seq<Seq<Seq<char>>>, TwoDaError>(seq![]));
        assert(row_views(rows@) + seq![] =~= row_views(rows@));
    }
    Ok(TwoDaFile { default_value, columns, rows, format: TwoDaFormat::Text })
}

} // verus!

verus! {

// ---------------------------------------------------------------------------
// Validation and text output.
/// Validity of rows `k..` against the column count.
pub open spec fn validate_rows(rows: Seq<Seq<Seq<char>>>, ncols: nat, k: nat) -> Result<
    (),
    TwoDaError,
>
    decreases rows.len() - k,
{
    if k >= rows.len() {
        Ok(())
    } else if rows[k as int].len() != ncols {
        Err(
            TwoDaError::RowLength {
                row: k as usize,
                found: rows[k as int].len() as usize,
                expected: ncols as usize,
            },
        )
    } else {
        validate_rows(rows, ncols, k + 1)
    }
}

pub open spec fn bad_column_name(name: Seq<char>) -> bool {
    name.len() == 0 || has_ws(name)
}

/// A table can be written when it has the "Row" column and at least one data
/// column, every column name is non-empty without whitespace, and every row has
/// one value per column.
pub open spec fn validate_spec(t: TableView) -> Result<(), TwoDaError> {
    if t.columns.len() < 2 || t.columns[0] != row_tag() {
        Err(TwoDaError::MissingRowColumn)
    } else if exists|i: int| 1 <= i < t.columns.len() && bad_column_name(#[trigger] t.columns[i]) {
        Err(TwoDaError::InvalidColumnName)
    } else {
        validate_rows(t.rows, t.columns.len(), 0)
    }
}

fn has_whitespace(s: &String) -> (r: bool)
    ensures
        r == has_ws(s@),
{
    let v = crate::text::chars_of(s.as_str());
    let mut i: usize = 0;
    while i < v.len()
        invariant
            v@ == s@,
            i <= v@.len(),
            forall|j: int| 0 <= j < i ==> !is_ws(#[trigger] v@[j]),
        decreases v@.len() - i,
    {
        if is_whitespace(v[i]) {
            return true;
        }
        i = i + 1;
    }
    false
}

fn has_quote(s: &String) -> (r: bool)
    ensures
        r == contains_char(s@, '"'),
{
    let v = crate::text::chars_of(s.as_str());
    let mut i: usize = 0;
    while i < v.len()
        invariant
            v@ == s@,
            i <= v@.len(),
            forall|j: int| 0 <= j < i ==> #[trigger] v@[j] != '"',
        decreases v@.len() - i,
    {
        if v[i] == '"' {
            return true;
        }
        i = i + 1;
    }
    false
}

fn is_row_tag(s: &String) -> (r: bool)
    ensures
        r == (s@ == row_tag()),
{
    let v = crate::text::chars_of(s.as_str());
    if v.len() != 3 {
        return false;
    }
    let r = v[0] == 'R' && v[1] == 'o' && v[2] == 'w';
    assert(r ==> v@ =~= row_tag());
    r
}

impl TwoDaFile {
    /// Checks that the table can be written (see `validate_spec`).
    #[verifier::loop_isolation(false)]
    pub fn validate(&self) -> (r: Result<(), TwoDaError>)
        ensures
            r == validate_spec(self@),
    {
        let ghost t = self@;
        if self.columns.len() < 2 || !is_row_tag(&self.columns[0]) {
            return Err(TwoDaError::MissingRowColumn);
        }
        let mut i: usize = 1;
        while i < self.columns.len()
            invariant
                t == self@,
                1 <= i <= self.columns@.len(),
                forall|j: int| 1 <= j < i ==> !bad_column_name(#[trigger] t.columns[j]),
            decreases self.columns@.len() - i,
        {
            assert(t.columns[i as int] == self.columns@[i as int]@);
            if self.columns[i].as_str().is_empty() || has_whitespace(&self.columns[i]) {
                assert(bad_column_name(t.columns[i as int]));
                return Err(TwoDaError::InvalidColumnName);
            }
            i = i + 1;
        }
        let ncols = self.columns.len();
        let mut k: usize = 0;
        while k < self.rows.len()
            invariant
                t == self@,
                ncols == t.columns.len(),
                k <= self.rows@.len(),
                validate_rows(t.rows, ncols as nat, 0) == validate_rows(
                    t.rows,
                    ncols as nat,
                    k as nat,
                ),
            decreases self.rows@.len() - k,
        {
            assert(t.rows[k as int].len() == self.rows@[k as int]@.len());
            if self.rows[k].len() != ncols {
                return Err(
                    TwoDaError::RowLength { row: k, found: self.rows[k].len(), expected: ncols },
                );
            }
            k = k + 1;
        }
        Ok(())
    }
}

/// How a value is written in a text table: quoted when it holds whitespace,
/// `****` when empty, otherwise as is.
pub open spec fn render_cell(v: Seq<char>) -> Seq<char> {
    if has_ws(v) {
        seq!['"'] + v + seq!['"']
    } else if v.len() == 0 {
        empty_tag()
    } else {
        v
    }
}

/// A value with a double quote cannot be written without loss.
pub open spec fn quoted_spec(v: Seq<char>) -> Result<Seq<char>, TwoDaError> {
    if contains_char(v, '"') {
        Err(TwoDaError::QuoteInValue)
    } else {
        Ok(render_cell(v))
    }
}

/// Renders one value for a text table.
pub fn quoted(value: &String) -> (r: Result<String, TwoDaError>)
    ensures
        r matches Ok(q) ==> quoted_spec(value@) == Ok::<Seq<char>, TwoDaError>(q@),
        r matches Err(e) ==> quoted_spec(value@) == Err::<Seq<char>, TwoDaError>(e),
{
    if has_quote(value) {
        return Err(TwoDaError::QuoteInValue);
    }
    if has_whitespace(value) {
        let mut out = String::new();
        let q = vec!['"'];
        crate::text::push_chars(&mut out, q.as_slice());
        let v = crate::text::chars_of(value.as_str());
        crate::text::push_chars(&mut out, v.as_slice());
        crate::text::push_chars(&mut out, q.as_slice());
        assert(out@ =~= seq!['"'] + value@ + seq!['"']);
        Ok(out)
    } else if value.as_str().is_empty() {
        let star = vec!['*', '*', '*', '*'];
        let out = crate::text::string_of(star.as_slice());
        assert(out@ =~= empty_tag());
        Ok(out)
    } else {
        Ok(value.clone())
    }
}

} // verus!

verus! {

/// Length of a string in UTF-8 bytes.
pub open spec fn ulen(s: Seq<char>) -> nat {
    (vstd::utf8::encode_utf8(s).len() as usize) as nat
}

pub open spec fn sat2(n: nat) -> nat {
    if n + 2 > usize::MAX {
        usize::MAX as nat
    } else {
        n + 2
    }
}

pub open spec fn max_nat(a: nat, b: nat) -> nat {
    if a >= b {
        a
    } else {
        b
    }
}

/// Width of column `i` over the first `n` rows: two more than the widest entry.
pub open spec fn col_width(t: TableView, i: int, n: nat) -> nat
    decreases n,
{
    if n == 0 {
        sat2(ulen(t.columns[i]))
    } else {
        max_nat(col_width(t, i, (n - 1) as nat), sat2(ulen(render_cell(t.rows[n - 1][i]))))
    }
}

pub open spec fn widths(t: TableView) -> Seq<nat> {
    Seq::new(t.columns.len(), |i: int| col_width(t, i, t.rows.len()))
}

pub open spec fn spaces(n: nat) -> Seq<char> {
    Seq::new(n, |_i: int| ' ')
}

/// `s` followed by spaces up to `w` bytes.
pub open spec fn pad(s: Seq<char>, w: nat) -> Seq<char> {
    s + spaces(if w >= ulen(s) { (w - ulen(s)) as nat } else { 0 })
}

pub open spec fn crlf() -> Seq<char> {
    seq!['\r', '\n']
}

pub open spec fn header_cells(cols: Seq<Seq<char>>, w: Seq<nat>, k: nat) -> Seq<char>
    decreases k,
{
    if k <= 1 {
        seq![]
    } else {
        header_cells(cols, w, (k - 1) as nat) + pad(cols[k - 1], w[k - 1])
    }
}

pub open spec fn row_cells(row: Seq<Seq<char>>, w: Seq<nat>, k: nat) -> Seq<char>
    decreases k,
{
    if k == 0 {
        seq![]
    } else {
        row_cells(row, w, (k - 1) as nat) + pad(render_cell(row[k - 1]), w[k - 1])
    }
}

pub open spec fn rows_text(rows: Seq<Seq<Seq<char>>>, w: Seq<nat>, k: nat) -> Seq<char>
    decreases k,
{
    if k == 0 {
        seq![]
    } else {
        rows_text(rows, w, (k - 1) as nat) + row_cells(rows[k - 1], w, rows[k - 1].len()) + crlf()
    }
}

pub open spec fn any_quote(t: TableView) -> bool {
    exists|r: int, i: int|
        0 <= r < t.rows.len() && 0 <= i < t.rows[r].len() && contains_char(
            #[trigger] t.rows[r][i],
            '"',
        )
}

pub open spec fn text_prefix() -> Seq<char> {
    text_signature() + crlf() + crlf()
}

pub open spec fn default_tag_out() -> Seq<char> {
    seq!['D', 'E', 'F', 'A', 'U', 'L', 'T', ':', ' ']
}

pub open spec fn default_part(d: Option<Seq<char>>) -> Seq<char> {
    match d {
        Some(v) => default_tag_out() + v + crlf() + crlf(),
        None => seq![],
    }
}

/// The text form of a valid table whose values hold no double quote: signature,
/// optional `DEFAULT:` line, padded column header, then one padded line per row.
pub open spec fn render_text(t: TableView) -> Seq<char> {
    let w = widths(t);
    text_prefix() + default_part(t.default_value) + spaces(w[0]) + header_cells(
        t.columns,
        w,
        t.columns.len(),
    ) + crlf() + rows_text(t.rows, w, t.rows.len())
}

pub open spec fn to_text_spec(t: TableView) -> Result<Seq<char>, TwoDaError> {
    match validate_spec(t) {
        Err(e) => Err(e),
        Ok(_) => if any_quote(t) {
            Err(TwoDaError::QuoteInValue)
        } else {
            Ok(render_text(t))
        },
    }
}

pub open spec fn string_result(r: Result<String, TwoDaError>) -> Result<Seq<char>, TwoDaError> {
    match r {
        Ok(s) => Ok(s@),
        Err(e) => Err(e),
    }
}

fn sat_add2(n: usize) -> (r: usize)
    ensures
        r == sat2(n as nat),
{
    if n > usize::MAX - 2 {
        usize::MAX
    } else {
        n + 2
    }
}

fn byte_len(s: &String) -> (n: usize)
    ensures
        n == ulen(s@),
{
    s.as_str().len()
}

fn push_padded(out: &mut String, s: &String, w: usize)
    ensures
        final(out)@ == old(out)@ + pad(s@, w as nat),
{
    let v = crate::text::chars_of(s.as_str());
    crate::text::push_chars(out, v.as_slice());
    let n = byte_len(s);
    let k = if w >= n {
        w - n
    } else {
        0
    };
    crate::text::push_spaces(out, k);
    assert(final(out)@ =~= old(out)@ + pad(s@, w as nat));
}

fn push_literal(out: &mut String, v: Vec<char>)
    ensures
        final(out)@ == old(out)@ + v@,
{
    crate::text::push_chars(out, v.as_slice());
}

/// Column widths of a valid table, or the error of its first value with a quote.
fn compute_widths(tf: &TwoDaFile) -> (r: Result<Vec<usize>, TwoDaError>)
    requires
        validate_spec(tf@) is Ok,
    ensures
        r matches Ok(w) ==> !any_quote(tf@) && w@.map_values(|x: usize| x as nat) == widths(tf@),
        r matches Err(e) ==> any_quote(tf@) && e == TwoDaError::QuoteInValue,
{
    let ghost t = tf@;
    proof {
        lemma_validate_rows(t.rows, t.columns.len(), 0);
    }
    let ncols = tf.columns.len();
    let nrows = tf.rows.len();
    let mut w: Vec<usize> = Vec::new();
    let mut i: usize = 0;
    while i < ncols
        invariant
            t == tf@,
            ncols == t.columns.len(),
            i <= ncols,
            w@.len() == i,
            forall|j: int| 0 <= j < i ==> w@[j] == col_width(t, j, 0),
        decreases ncols - i,
    {
        assert(t.columns[i as int] == tf.columns@[i as int]@);
        w.push(sat_add2(byte_len(&tf.columns[i])));
        i = i + 1;
    }
    let mut r: usize = 0;
    while r < nrows
        invariant
            t == tf@,
            ncols == t.columns.len(),
            nrows == t.rows.len(),
            forall|j: int| 0 <= j < t.rows.len() ==> #[trigger] t.rows[j].len() == ncols,
            r <= nrows,
            w@.len() == ncols,
            forall|j: int| 0 <= j < ncols ==> w@[j] == col_width(t, j, r as nat),
            forall|r2: int, j: int|
                0 <= r2 < r && 0 <= j < t.rows[r2].len() ==> !contains_char(
                    #[trigger] t.rows[r2][j],
                    '"',
                ),
        decreases nrows - r,
    {
        let mut c: usize = 0;
        assert(t.rows[r as int].len() == ncols);
        while c < ncols
            invariant
                t == tf@,
                ncols == t.columns.len(),
                nrows == t.rows.len(),
                t.rows[r as int].len() == ncols,
                r < nrows,
                c <= ncols,
                w@.len() == ncols,
                forall|j: int| 0 <= j < c ==> w@[j] == col_width(t, j, (r + 1) as nat),
                forall|j: int| c <= j < ncols ==> w@[j] == col_width(t, j, r as nat),
                forall|r2: int, j: int|
                    0 <= r2 < r && 0 <= j < t.rows[r2].len() ==> !contains_char(
                        #[trigger] t.rows[r2][j],
                        '"',
                    ),
                forall|j: int| 0 <= j < c ==> !contains_char(#[trigger] t.rows[r as int][j], '"'),
            decreases ncols - c,
        {
            assert(t.rows[r as int][c as int] == tf.rows@[r as int]@[c as int]@);
            let q = match quoted(&tf.rows[r][c]) {
                Err(e) => {
                    assert(contains_char(t.rows[r as int][c as int], '"'));
                    return Err(e);
                },
                Ok(q) => q,
            };
            let qw = sat_add2(byte_len(&q));
            if qw > w[c] {
                w.set(c, qw);
            }
            c = c + 1;
        }
        r = r + 1;
    }
    assert(w@.map_values(|x: usize| x as nat) =~= widths(t));
    Ok(w)
}

fn push_header(out: &mut String, tf: &TwoDaFile, w: &Vec<usize>)
    requires
        tf@.columns.len() >= 1,
        w@.map_values(|x: usize| x as nat) == widths(tf@),
    ensures
        final(out)@ == old(out)@ + spaces(widths(tf@)[0]) + header_cells(
            tf@.columns,
            widths(tf@),
            tf@.columns.len(),
        ) + crlf(),
{
    let ghost t = tf@;
    let ghost ws = widths(t);
    let ncols = tf.columns.len();
    assert(w@.map_values(|x: usize| x as nat).len() == w@.len());
    assert(w@.len() == ncols);
    assert(ws[0] == w@[0]);
    crate::text::push_spaces(out, w[0]);
    let ghost base = out@;
    let mut i: usize = 1;
    assert(header_cells(t.columns, ws, 1) =~= Seq::<char>::empty());
    while i < ncols
        invariant
            t == tf@,
            ws == widths(t),
            w@.map_values(|x: usize| x as nat) == ws,
            w@.len() == ncols,
            ncols == t.columns.len(),
            1 <= i <= ncols,
            out@ == base + header_cells(t.columns, ws, i as nat),
        decreases ncols - i,
    {
        assert(t.columns[i as int] == tf.columns@[i as int]@);
        assert(ws[i as int] == w@[i as int]);
        push_padded(out, &tf.columns[i], w[i]);
        assert(out@ =~= base + header_cells(t.columns, ws, (i + 1) as nat));
        i = i + 1;
    }
    push_literal(out, vec!['\r', '\n']);
    assert(out@ =~= old(out)@ + spaces(ws[0]) + header_cells(t.columns, ws, ncols as nat) + crlf());
}

fn push_rows(out: &mut String, tf: &TwoDaFile, w: &Vec<usize>)
    requires
        validate_spec(tf@) is Ok,
        !any_quote(tf@),
        w@.map_values(|x: usize| x as nat) == widths(tf@),
    ensures
        final(out)@ == old(out)@ + rows_text(tf@.rows, widths(tf@), tf@.rows.len()),
{
    let ghost t = tf@;
    let ghost ws = widths(t);
    proof {
        lemma_validate_rows(t.rows, t.columns.len(), 0);
    }
    let ncols = tf.columns.len();
    let nrows = tf.rows.len();
    assert(w@.map_values(|x: usize| x as nat).len() == w@.len());
    assert(w@.len() == ncols);
    let ghost base = out@;
    let mut r: usize = 0;
    assert(rows_text(t.rows, ws, 0) =~= Seq::<char>::empty());
    while r < nrows
        invariant
            t == tf@,
            ws == widths(t),
            w@.map_values(|x: usize| x as nat) == ws,
            w@.len() == ncols,
            ncols == t.columns.len(),
            nrows == t.rows.len(),
            !any_quote(t),
            forall|j: int| 0 <= j < t.rows.len() ==> #[trigger] t.rows[j].len() == ncols,
            r <= nrows,
            out@ == base + rows_text(t.rows, ws, r as nat),
        decreases nrows - r,
    {
        let ghost row_base = out@;
        let mut c: usize = 0;
        assert(row_cells(t.rows[r as int], ws, 0) =~= Seq::<char>::empty());
        assert(t.rows[r as int].len() == ncols);
        while c < ncols
            invariant
                t == tf@,
                ws == widths(t),
                w@.map_values(|x: usize| x as nat) == ws,
                w@.len() == ncols,
                ncols == t.columns.len(),
                nrows == t.rows.len(),
                !any_quote(t),
                t.rows[r as int].len() == ncols,
                r < nrows,
                c <= ncols,
                out@ == row_base + row_cells(t.rows[r as int], ws, c as nat),
            decreases ncols - c,
        {
            assert(t.rows[r as int][c as int] == tf.rows@[r as int]@[c as int]@);
            assert(ws[c as int] == w@[c as int]);
            let q = match quoted(&tf.rows[r][c]) {
                Err(e) => {
                    assert(contains_char(t.rows[r as int][c as int], '"'));
                    assert(false);
                    return;
                },
                Ok(q) => q,
            };
            push_padded(out, &q, w[c]);
            assert(out@ =~= row_base + row_cells(t.rows[r as int], ws, (c + 1) as nat));
            c = c + 1;
        }
        push_literal(out, vec!['\r', '\n']);
        assert(out@ =~= base + rows_text(t.rows, ws, (r + 1) as nat));
        r = r + 1;
    }
}

impl TwoDaFile {
    /// Writes the table as text `2DA V2.0` (see `to_text_spec`).
    pub fn to_text(&self) -> (r: Result<String, TwoDaError>)
        ensures
            string_result(r) == to_text_spec(self@),
    {
        let ghost t = self@;
        match self.validate() {
            Err(e) => {
                return Err(e);
            },
            Ok(()) => {},
        }
        let w = match compute_widths(self) {
            Err(e) => {
                return Err(e);
            },
            Ok(w) => w,
        };
        let mut out = String::new();
        push_literal(&mut out, vec!['2', 'D', 'A', ' ', 'V', '2', '.', '0', '\r', '\n', '\r', '\n']);
        assert(out@ =~= text_prefix());
        match &self.default_value {
            Some(d) => {
                push_literal(&mut out, vec!['D', 'E', 'F', 'A', 'U', 'L', 'T', ':', ' ']);
                let dv = crate::text::chars_of(d.as_str());
                crate::text::push_chars(&mut out, dv.as_slice());
                push_literal(&mut out, vec!['\r', '\n', '\r', '\n']);
            },
            None => {},
        }
        assert(out@ =~= text_prefix() + default_part(t.default_value));
        push_header(&mut out, self, &w);
        push_rows(&mut out, self, &w);
        assert(out@ =~= render_text(t));
        Ok(out)
    }
}

pub proof fn lemma_validate_rows(rows: Seq<Seq<Seq<char>>>, ncols: nat, k: nat)
    requires
        validate_rows(rows, ncols, k) is Ok,
    ensures
        forall|j: int| k <= j < rows.len() ==> #[trigger] rows[j].len() == ncols,
    decreases rows.len() - k,
{
    if k < rows.len() {
        lemma_validate_rows(rows, ncols, k + 1);
    }
}

} // verus!

verus! {

// ---------------------------------------------------------------------------
// Reading binary tables.
/// Bytes read as Latin-1 characters.
pub open spec fn latin1(bs: Seq<u8>) -> Seq<char> {
    bs.map_values(|b: u8| b as char)
}

/// First position at or after `from` that holds `b`.
pub open spec fn find_from(data: Seq<u8>, from: int, b: u8) -> Option<int>
    decreases data.len() - from,
{
    if from < 0 || from >= data.len() {
        None
    } else if data[from] == b {
        Some(from)
    } else {
        find_from(data, from + 1, b)
    }
}

pub proof fn lemma_find_from(data: Seq<u8>, from: int, b: u8)
    ensures
        find_from(data, from, b) matches Some(e) ==> from <= e < data.len() && data[e] == b
            && forall|j: int| from <= j < e ==> data[j] != b,
        find_from(data, from, b) is None && 0 <= from ==> forall|j: int|
            from <= j < data.len() ==> data[j] != b,
    decreases data.len() - from,
{
    if from < 0 || from >= data.len() {
    } else if data[from] == b {
    } else {
        lemma_find_from(data, from + 1, b);
    }
}

pub open spec fn binary_signature_bytes() -> Seq<u8> {
    seq![0x32u8, 0x44, 0x41, 0x20, 0x56, 0x32, 0x2e, 0x62, 0x0a]
}

/// A tab-terminated string starting at `c`, and the position after the tab.
pub open spec fn read_tab(data: Seq<u8>, c: int) -> Result<(Seq<char>, int), TwoDaError> {
    if c > data.len() {
        Err(TwoDaError::Truncated)
    } else {
        match find_from(data, c, 9) {
            None => Err(TwoDaError::TruncatedString),
            Some(e) => Ok((latin1(data.subrange(c, e)), e + 1)),
        }
    }
}

/// Column names: tab-terminated strings up to a NUL byte.
pub open spec fn read_columns(data: Seq<u8>, c: int) -> Result<(Seq<Seq<char>>, int), TwoDaError>
    decreases data.len() + 1 - c,
{
    if c < 0 {
        Err(TwoDaError::Truncated)
    } else {
        match read_tab(data, c) {
            Err(e) => Err(e),
            Ok((s, c2)) => {
                proof {
                    lemma_find_from(data, c, 9);
                }
                if c2 < data.len() && data[c2] == 0 {
                    Ok((seq![s], c2 + 1))
                } else {
                    match read_columns(data, c2) {
                        Ok((rest, c3)) => Ok((seq![s] + rest, c3)),
                        Err(e) => Err(e),
                    }
                }
            },
        }
    }
}

/// `n` tab-terminated strings from `c` on.
pub open spec fn read_tabs(data: Seq<u8>, c: int, n: nat) -> Result<(Seq<Seq<char>>, int), TwoDaError>
    decreases n,
{
    if n == 0 {
        Ok((seq![], c))
    } else {
        match read_tab(data, c) {
            Err(e) => Err(e),
            Ok((s, c2)) => match read_tabs(data, c2, (n - 1) as nat) {
                Ok((rest, c3)) => Ok((seq![s] + rest, c3)),
                Err(e) => Err(e),
            },
        }
    }
}

/// A stored value, trimmed; an empty value reads as `****`.
pub open spec fn stored_value(raw: Seq<char>) -> Seq<char> {
    if trim(raw).len() == 0 {
        empty_tag()
    } else {
        trim(raw)
    }
}

/// The value of cell `k` (in row-major order): a NUL-terminated string of the
/// data block at the offset that the index gives.
pub open spec fn cell_value(index: Seq<u8>, block: Seq<u8>, k: int) -> Result<Seq<char>, TwoDaError> {
    let off = le16(index, 2 * k) as int;
    if off > block.len() {
        Err(TwoDaError::OffsetOutOfRange)
    } else {
        match find_from(block, off, 0) {
            None => Err(TwoDaError::UnterminatedValue),
            Some(e) => Ok(stored_value(latin1(block.subrange(off, e)))),
        }
    }
}

pub open spec fn decode_row(index: Seq<u8>, block: Seq<u8>, dc: nat, r: nat, c: nat) -> Result<
    Seq<Seq<char>>,
    TwoDaError,
>
    decreases dc - c,
{
    if c >= dc {
        Ok(seq![])
    } else {
        match cell_value(index, block, (r * dc + c) as int) {
            Err(e) => Err(e),
            Ok(v) => match decode_row(index, block, dc, r, c + 1) {
                Ok(rest) => Ok(seq![v] + rest),
                Err(e) => Err(e),
            },
        }
    }
}

pub open spec fn decode_rows(
    index: Seq<u8>,
    block: Seq<u8>,
    dc: nat,
    headers: Seq<Seq<char>>,
    r: nat,
) -> Result<Seq<Seq<Seq<char>>>, TwoDaError>
    decreases headers.len() - r,
{
    if r >= headers.len() {
        Ok(seq![])
    } else {
        match decode_row(index, block, dc, r, 0) {
            Err(e) => Err(e),
            Ok(cells) => match decode_rows(index, block, dc, headers, r + 1) {
                Ok(rest) => Ok(seq![seq![headers[r as int]] + cells] + rest),
                Err(e) => Err(e),
            },
        }
    }
}

/// Rows, index and data block of a binary table whose columns end at `c`.
pub open spec fn parse_binary_body(data: Seq<u8>, names: Seq<Seq<char>>, c: int) -> Result<
    TableView,
    TwoDaError,
> {
    let dc = names.len();
    if dc > MAX_COLUMNS {
        Err(TwoDaError::TooManyColumns)
    } else if c + 4 > data.len() {
        Err(TwoDaError::TruncatedRowCount)
    } else {
        let rc = le32(data, c);
        let c = c + 4;
        if rc > MAX_ROWS {
            Err(TwoDaError::TooManyRows)
        } else if rc + 2 * rc * dc + 2 > data.len() - c {
            Err(TwoDaError::RowCountExceedsData)
        } else if rc * (dc + 1) > MAX_CELLS {
            Err(TwoDaError::TooManyCells)
        } else {
            match read_tabs(data, c, rc) {
                Err(e) => Err(e),
                Ok((headers, c)) => {
                    let ie = c + 2 * rc * dc;
                    if ie > usize::MAX {
                        Err(TwoDaError::TooLarge)
                    } else if ie > data.len() {
                        Err(TwoDaError::TruncatedIndex)
                    } else if ie + 2 > data.len() {
                        Err(TwoDaError::TruncatedDataSize)
                    } else {
                        let bs = le16(data, ie);
                        let bstart = ie + 2;
                        if bstart + bs > data.len() {
                            Err(TwoDaError::TruncatedData)
                        } else {
                            match decode_rows(
                                data.subrange(c, ie),
                                data.subrange(bstart, bstart + bs),
                                dc,
                                headers,
                                0,
                            ) {
                                Err(e) => Err(e),
                                Ok(rows) => Ok(
                                    TableView {
                                        default_value: None,
                                        columns: seq![row_tag()] + names,
                                        rows,
                                        format: TwoDaFormat::Binary,
                                    },
                                ),
                            }
                        }
                    }
                },
            }
        }
    }
}

/// A binary `2DA V2.b` table: signature, tab-terminated column names ended by a
/// NUL, the row count, tab-terminated row labels, a 16-bit offset per cell, the
/// data block size and the data block of NUL-terminated values.
pub open spec fn parse_binary_spec(data: Seq<u8>) -> Result<TableView, TwoDaError> {
    if data.len() < 9 || data.take(9) != binary_signature_bytes() {
        Err(TwoDaError::NotBinary)
    } else {
        match read_columns(data, 9) {
            Err(e) => Err(e),
            Ok((names, c)) => parse_binary_body(data, names, c),
        }
    }
}

} // verus!

verus! {

fn find_byte(data: &[u8], from: usize, b: u8) -> (r: Option<usize>)
    ensures
        r matches Some(e) ==> find_from(data@, from as int, b) == Some(e as int),
        r is None ==> find_from(data@, from as int, b) is None,
{
    let mut i = from;
    while i < data.len()
        invariant
            from <= i,
            find_from(data@, from as int, b) == find_from(data@, i as int, b),
        decreases data@.len() - i,
    {
        if data[i] == b {
            return Some(i);
        }
        i = i + 1;
    }
    None
}

fn latin1_chars(data: &[u8], from: usize, to: usize) -> (v: Vec<char>)
    requires
        from <= to <= data@.len(),
    ensures
        v@ == latin1(data@.subrange(from as int, to as int)),
{
    let mut v: Vec<char> = Vec::new();
    let mut i = from;
    while i < to
        invariant
            from <= i <= to <= data@.len(),
            v@ == latin1(data@.subrange(from as int, i as int)),
        decreases to - i,
    {
        v.push(data[i] as char);
        assert(latin1(data@.subrange(from as int, i + 1)) =~= latin1(
            data@.subrange(from as int, i as int),
        ).push(data@[i as int] as char));
        i = i + 1;
    }
    v
}

fn read_tab_string(data: &[u8], c: usize) -> (r: Result<(String, usize), TwoDaError>)
    ensures
        r matches Ok((s, c2)) ==> read_tab(data@, c as int) == Ok::<
            (Seq<char>, int),
            TwoDaError,
        >((s@, c2 as int)),
        r matches Err(e) ==> read_tab(data@, c as int) == Err::<(Seq<char>, int), TwoDaError>(e),
        r matches Ok((s, c2)) ==> c < c2 <= data@.len(),
{
    if c > data.len() {
        return Err(TwoDaError::Truncated);
    }
    match find_byte(data, c, 9) {
        None => Err(TwoDaError::TruncatedString),
        Some(e) => {
            proof {
                lemma_find_from(data@, c as int, 9);
            }
            let v = latin1_chars(data, c, e);
            Ok((crate::text::string_of(v.as_slice()), e + 1))
        },
    }
}

pub open spec fn columns_after(prefix: Seq<Seq<char>>, r: Result<(Seq<Seq<char>>, int), TwoDaError>) -> Result<
    (Seq<Seq<char>>, int),
    TwoDaError,
> {
    match r {
        Ok((rest, c)) => Ok((prefix + rest, c)),
        Err(e) => Err(e),
    }
}

fn read_column_names(data: &[u8]) -> (r: Result<(Vec<String>, usize), TwoDaError>)
    requires
        data@.len() >= 9,
    ensures
        r matches Ok((v, c)) ==> read_columns(data@, 9) == Ok::<(Seq<Seq<char>>, int), TwoDaError>(
            (str_views(v@), c as int),
        ) && c <= data@.len(),
        r matches Err(e) ==> read_columns(data@, 9) == Err::<(Seq<Seq<char>>, int), TwoDaError>(e),
{
    let mut names: Vec<String> = Vec::new();
    let mut c: usize = 9;
    assert(str_views(names@) + seq![] =~= Seq::<Seq<char>>::empty());
    loop
        invariant
            c <= data@.len() + 1,
            read_columns(data@, 9) == columns_after(str_views(names@), read_columns(data@, c as int)),
        decreases data@.len() + 1 - c,
    {
        let ghost old_names = str_views(names@);
        match read_tab_string(data, c) {
            Err(e) => {
                return Err(e);
            },
            Ok((s, c2)) => {
                proof {
                    lemma_find_from(data@, c as int, 9);
                }
                names.push(s);
                assert(str_views(names@) =~= old_names.push(s@));
                if c2 < data.len() && data[c2] == 0 {
                    assert(old_names + seq![s@] =~= str_views(names@));
                    return Ok((names, c2 + 1));
                }
                proof {
                    match read_columns(data@, c2 as int) {
                        Ok((rest, c3)) => {
                            assert(old_names + (seq![s@] + rest) =~= str_views(names@) + rest);
                        },
                        Err(_) => {},
                    }
                }
                c = c2;
            },
        }
    }
}

fn read_row_labels(data: &[u8], c0: usize, n: usize) -> (r: Result<(Vec<String>, usize), TwoDaError>)
    requires
        c0 <= data@.len(),
    ensures
        r matches Ok((v, c)) ==> c <= data@.len(),
        r matches Ok((v, c)) ==> read_tabs(data@, c0 as int, n as nat) == Ok::<
            (Seq<Seq<char>>, int),
            TwoDaError,
        >((str_views(v@), c as int)) && v@.len() == n,
        r matches Err(e) ==> read_tabs(data@, c0 as int, n as nat) == Err::<
            (Seq<Seq<char>>, int),
            TwoDaError,
        >(e),
{
    let mut labels: Vec<String> = Vec::new();
    let mut c = c0;
    let mut k: usize = 0;
    assert(str_views(labels@) + seq![] =~= Seq::<Seq<char>>::empty());
    while k < n
        invariant
            k <= n,
            c <= data@.len(),
            labels@.len() == k,
            read_tabs(data@, c0 as int, n as nat) == columns_after(
                str_views(labels@),
                read_tabs(data@, c as int, (n - k) as nat),
            ),
        decreases n - k,
    {
        let ghost old_labels = str_views(labels@);
        match read_tab_string(data, c) {
            Err(e) => {
                return Err(e);
            },
            Ok((s, c2)) => {
                labels.push(s);
                assert(str_views(labels@) =~= old_labels.push(s@));
                proof {
                    match read_tabs(data@, c2 as int, (n - k - 1) as nat) {
                        Ok((rest, c3)) => {
                            assert(old_labels + (seq![s@] + rest) =~= str_views(labels@) + rest);
                        },
                        Err(_) => {},
                    }
                }
                c = c2;
                k = k + 1;
            },
        }
    }
    assert(str_views(labels@) + seq![] =~= str_views(labels@));
    Ok((labels, c))
}

fn read_cell(data: &[u8], istart: usize, iend: usize, bstart: usize, bend: usize, k: usize) -> (r:
    Result<String, TwoDaError>)
    requires
        istart <= iend <= data@.len(),
        bstart <= bend <= data@.len(),
        2 * k + 2 <= iend - istart,
    ensures
        r matches Ok(s) ==> cell_value(
            data@.subrange(istart as int, iend as int),
            data@.subrange(bstart as int, bend as int),
            k as int,
        ) == Ok::<Seq<char>, TwoDaError>(s@),
        r matches Err(e) ==> cell_value(
            data@.subrange(istart as int, iend as int),
            data@.subrange(bstart as int, bend as int),
            k as int,
        ) == Err::<Seq<char>, TwoDaError>(e),
{
    let ghost index = data@.subrange(istart as int, iend as int);
    let ghost block = data@.subrange(bstart as int, bend as int);
    let off = read_le16(data, istart + 2 * k) as usize;
    assert(off == le16(index, 2 * k));
    if off > bend - bstart {
        return Err(TwoDaError::OffsetOutOfRange);
    }
    let mut e = bstart + off;
    while e < bend && data[e] != 0
        invariant
            bstart + off <= e <= bend <= data@.len(),
            block == data@.subrange(bstart as int, bend as int),
            find_from(block, off as int, 0) == find_from(block, e - bstart, 0),
        decreases bend - e,
    {
        assert(block[e - bstart] == data@[e as int]);
        e = e + 1;
    }
    if e < bend {
        assert(block[e - bstart] == data@[e as int]);
    }
    if e == bend {
        return Err(TwoDaError::UnterminatedValue);
    }
    let v = latin1_chars(data, bstart + off, e);
    assert(v@ == latin1(block.subrange(off as int, e - bstart)));
    let te = crate::text::trim_end_range(v.as_slice(), 0, v.len());
    let ts = crate::text::trim_start_from(v.as_slice(), 0, te);
    assert(v@.subrange(0, v@.len() as int) == v@);
    if ts == te {
        let star = vec!['*', '*', '*', '*'];
        let out = crate::text::string_of(star.as_slice());
        assert(out@ =~= empty_tag());
        Ok(out)
    } else {
        Ok(string_of_range(v.as_slice(), ts, te))
    }
}

impl TwoDaFile {
    /// Reads a binary `2DA V2.b` table (see `parse_binary_spec`).
    pub fn parse_binary(data: &[u8]) -> (r: Result<TwoDaFile, TwoDaError>)
        requires
            data@.len() <= isize::MAX,
        ensures
            view_result(r) == parse_binary_spec(data@),
    {
        if data.len() < 9 {
            return Err(TwoDaError::NotBinary);
        }
        let sig = vec![0x32u8, 0x44, 0x41, 0x20, 0x56, 0x32, 0x2e, 0x62, 0x0a];
        let mut i: usize = 0;
        while i < 9
            invariant
                data@.len() >= 9,
                sig@ == binary_signature_bytes(),
                i <= 9,
                forall|j: int| 0 <= j < i ==> data@[j] == sig@[j],
            decreases 9 - i,
        {
            if data[i] != sig[i] {
                assert(data@.take(9)[i as int] != binary_signature_bytes()[i as int]);
                return Err(TwoDaError::NotBinary);
            }
            i = i + 1;
        }
        assert(data@.take(9) =~= binary_signature_bytes());
        let (names, c) = match read_column_names(data) {
            Err(e) => {
                return Err(e);
            },
            Ok(x) => x,
        };
        Self::parse_binary_rest(data, names, c)
    }

    #[verifier::loop_isolation(false)]
    fn parse_binary_rest(data: &[u8], names: Vec<String>, c: usize) -> (r: Result<
        TwoDaFile,
        TwoDaError,
    >)
        requires
            data@.len() <= isize::MAX,
            c <= data@.len(),
        ensures
            view_result(r) == parse_binary_body(data@, str_views(names@), c as int),
    {
        let dc = names.len();
        if dc > MAX_COLUMNS {
            return Err(TwoDaError::TooManyColumns);
        }
        if data.len() - c < 4 {
            return Err(TwoDaError::TruncatedRowCount);
        }
        let rc = read_le32(data, c) as usize;
        let c = c + 4;
        if rc > MAX_ROWS {
            return Err(TwoDaError::TooManyRows);
        }
        assert(rc * dc <= 250000 * 4096) by (nonlinear_arith)
            requires
                rc <= 250000,
                dc <= 4096,
        ;
        assert(rc * (dc + 1) <= 250000 * 4097) by (nonlinear_arith)
            requires
                rc <= 250000,
                dc <= 4096,
        ;
        let index_bytes = rc * dc * 2;
        assert(index_bytes == 2 * rc * dc) by (nonlinear_arith)
            requires
                index_bytes == rc * dc * 2,
        ;
        if rc + index_bytes + 2 > data.len() - c {
            return Err(TwoDaError::RowCountExceedsData);
        }
        if rc * (dc + 1) > MAX_CELLS {
            return Err(TwoDaError::TooManyCells);
        }
        let (labels, c) = match read_row_labels(data, c, rc) {
            Err(e) => {
                return Err(e);
            },
            Ok(x) => x,
        };
        if c > usize::MAX - index_bytes {
            return Err(TwoDaError::TooLarge);
        }
        let ie = c + index_bytes;
        if ie > data.len() {
            return Err(TwoDaError::TruncatedIndex);
        }
        if data.len() - ie < 2 {
            return Err(TwoDaError::TruncatedDataSize);
        }
        let bs = read_le16(data, ie) as usize;
        let bstart = ie + 2;
        if bstart + bs > data.len() {
            return Err(TwoDaError::TruncatedData);
        }
        let bend = bstart + bs;
        let ghost index = data@.subrange(c as int, ie as int);
        let ghost block = data@.subrange(bstart as int, bend as int);
        let ghost headers = str_views(labels@);
        let mut rows: Vec<Vec<String>> = Vec::new();
        let mut r: usize = 0;
        assert(row_views(rows@) =~= Seq::<Seq<Seq<char>>>::empty());
        while r < rc
            invariant
                r <= rc,
                rows@.len() == r,
                labels@.len() == rc,
                c <= ie <= data@.len(),
                ie - c == 2 * rc * dc,
                rc * dc <= 250000 * 4096,
                bstart <= bend <= data@.len(),
                index == data@.subrange(c as int, ie as int),
                block == data@.subrange(bstart as int, bend as int),
                headers == str_views(labels@),
                decode_rows(index, block, dc as nat, headers, 0) == rows_after(
                    row_views(rows@),
                    decode_rows(index, block, dc as nat, headers, r as nat),
                ),
            decreases rc - r,
        {
            let ghost old_rows = row_views(rows@);
            let mut row: Vec<String> = Vec::new();
            row.push(labels[r].clone());
            let mut col: usize = 0;
            assert(str_views(row@) =~= seq![headers[r as int]]);
            assert(r * dc + dc <= rc * dc) by (nonlinear_arith)
                requires
                    r < rc,
            ;
            while col < dc
                invariant
                    r < rc,
                    col <= dc,
                    r * dc + dc <= rc * dc,
                    rc * dc <= 250000 * 4096,
                    c <= ie <= data@.len(),
                    ie - c == 2 * rc * dc,
                    bstart <= bend <= data@.len(),
                    index == data@.subrange(c as int, ie as int),
                    block == data@.subrange(bstart as int, bend as int),
                    row@.len() == col + 1,
                    headers == str_views(labels@),
                    labels@.len() == rc,
                    str_views(row@)[0] == headers[r as int],
                    decode_row(index, block, dc as nat, r as nat, 0) == cells_after(
                        str_views(row@).skip(1),
                        decode_row(index, block, dc as nat, r as nat, col as nat),
                    ),
                decreases dc - col,
            {
                let ghost old_row = str_views(row@);
                let k = r * dc + col;
                assert(2 * k + 2 <= 2 * rc * dc) by (nonlinear_arith)
                    requires
                        k == r * dc + col,
                        col < dc,
                        r * dc + dc <= rc * dc,
                ;
                let v = match read_cell(data, c, ie, bstart, bend, k) {
                    Err(e) => {
                        return Err(e);
                    },
                    Ok(v) => v,
                };
                row.push(v);
                proof {
                    assert(str_views(row@) =~= old_row.push(v@));
                    match decode_row(index, block, dc as nat, r as nat, (col + 1) as nat) {
                        Ok(rest) => {
                            assert(old_row.skip(1) + (seq![v@] + rest) =~= str_views(row@).skip(1)
                                + rest);
                        },
                        Err(_) => {},
                    }
                }
                col = col + 1;
            }
            proof {
                assert(str_views(row@).skip(1) + seq![] =~= str_views(row@).skip(1));
                assert(seq![headers[r as int]] + str_views(row@).skip(1) =~= str_views(row@));
                match decode_rows(index, block, dc as nat, headers, (r + 1) as nat) {
                    Ok(rest) => {
                        assert(old_rows + (seq![str_views(row@)] + rest) =~= old_rows.push(
                            str_views(row@),
                        ) + rest);
                    },
                    Err(_) => {},
                }
            }
            rows.push(row);
            assert(row_views(rows@) =~= old_rows.push(str_views(row@)));
            r = r + 1;
        }
        assert(row_views(rows@) + seq![] =~= row_views(rows@));
        let mut columns: Vec<String> = Vec::new();
        columns.push(string_of_range(&vec!['R', 'o', 'w'], 0, 3));
        assert(columns@[0]@ =~= row_tag());
        assert(str_views(columns@) =~= seq![row_tag()] + str_views(names@).take(0));
        let mut n: usize = 0;
        while n < names.len()
            invariant
                n <= names@.len(),
                str_views(columns@) =~= seq![row_tag()] + str_views(names@).take(n as int),
            decreases names@.len() - n,
        {
            let ghost old_cols = columns@;
            columns.push(names[n].clone());
            assert(str_views(columns@) =~= str_views(old_cols).push(names@[n as int]@));
            assert(str_views(names@).take(n + 1) =~= str_views(names@).take(n as int).push(
                names@[n as int]@,
            ));
            n = n + 1;
        }
        assert(str_views(names@).take(names@.len() as int) == str_views(names@));
        Ok(TwoDaFile { default_value: None, columns, rows, format: TwoDaFormat::Binary })
    }
}

pub open spec fn cells_after(prefix: Seq<Seq<char>>, r: Result<Seq<Seq<char>>, TwoDaError>) -> Result<
    Seq<Seq<char>>,
    TwoDaError,
> {
    match r {
        Ok(rest) => Ok(prefix + rest),
        Err(e) => Err(e),
    }
}

pub open spec fn rows_after(prefix: Seq<Seq<Seq<char>>>, r: Result<Seq<Seq<Seq<char>>>, TwoDaError>) -> Result<
    Seq<Seq<Seq<char>>>,
    TwoDaError,
> {
    match r {
        Ok(rest) => Ok(prefix + rest),
        Err(e) => Err(e),
    }
}


} // verus!

verus! {

// ---------------------------------------------------------------------------
// Writing binary tables.
pub open spec fn single_byte_ok(s: Seq<char>) -> bool {
    forall|i: int| 0 <= i < s.len() ==> (#[trigger] s[i] as u32) < 256
}

/// The bytes of a string whose characters are all below 256.
pub open spec fn sb_bytes(s: Seq<char>) -> Seq<u8> {
    s.map_values(|c: char| (c as u32) as u8)
}

pub open spec fn names_bytes(cols: Seq<Seq<char>>, k: nat) -> Seq<u8>
    decreases k,
{
    if k <= 1 {
        seq![]
    } else {
        names_bytes(cols, (k - 1) as nat) + sb_bytes(cols[k - 1]) + seq![9u8]
    }
}

pub open spec fn labels_bytes(rows: Seq<Seq<Seq<char>>>, k: nat) -> Seq<u8>
    decreases k,
{
    if k == 0 {
        seq![]
    } else {
        labels_bytes(rows, (k - 1) as nat) + sb_bytes(rows[k - 1][0]) + seq![9u8]
    }
}

/// The data values of the first `k` rows, in row-major order.
pub open spec fn flat_cells(rows: Seq<Seq<Seq<char>>>, k: nat) -> Seq<Seq<char>>
    decreases k,
{
    if k == 0 {
        seq![]
    } else {
        flat_cells(rows, (k - 1) as nat) + rows[k - 1].skip(1)
    }
}

/// The data block, the offset of each distinct value, and the cell index.
pub struct BinState {
    pub block: Seq<u8>,
    pub dict: Map<Seq<char>, u16>,
    pub index: Seq<u8>,
}

/// Each value is stored once, NUL-terminated, at the offset where it first
/// occurs; every cell records the offset of its value.
pub open spec fn bin_run(cells: Seq<Seq<char>>) -> Result<BinState, TwoDaError>
    decreases cells.len(),
{
    if cells.len() == 0 {
        Ok(BinState { block: seq![], dict: Map::empty(), index: seq![] })
    } else {
        match bin_run(cells.drop_last()) {
            Err(e) => Err(e),
            Ok(st) => {
                let v = cells.last();
                if st.dict.contains_key(v) {
                    Ok(
                        BinState {
                            block: st.block,
                            dict: st.dict,
                            index: st.index + le16_bytes(st.dict[v]),
                        },
                    )
                } else if st.block.len() > 65535 {
                    Err(TwoDaError::BlockTooLarge)
                } else if !single_byte_ok(v) {
                    Err(TwoDaError::NotSingleByte)
                } else {
                    let off = st.block.len() as u16;
                    Ok(
                        BinState {
                            block: st.block + sb_bytes(v) + seq![0u8],
                            dict: st.dict.insert(v, off),
                            index: st.index + le16_bytes(off),
                        },
                    )
                }
            },
        }
    }
}

pub open spec fn binary_layout(t: TableView, st: BinState) -> Seq<u8> {
    binary_signature_bytes() + names_bytes(t.columns, t.columns.len()) + seq![0u8] + le32_bytes(
        t.rows.len() as u32,
    ) + labels_bytes(t.rows, t.rows.len()) + st.index + le16_bytes(st.block.len() as u16)
        + st.block
}

/// The binary form of a valid table without a `DEFAULT` value whose strings
/// hold only characters below 256 and whose data block fits 16-bit offsets.
pub open spec fn to_binary_spec(t: TableView) -> Result<Seq<u8>, TwoDaError> {
    match validate_spec(t) {
        Err(e) => Err(e),
        Ok(_) => {
            if t.default_value is Some {
                Err(TwoDaError::DefaultInBinary)
            } else if exists|i: int|
                1 <= i < t.columns.len() && !single_byte_ok(#[trigger] t.columns[i]) {
                Err(TwoDaError::NotSingleByte)
            } else if t.rows.len() > u32::MAX {
                Err(TwoDaError::TooManyRows)
            } else if exists|r: int| 0 <= r < t.rows.len() && !single_byte_ok(#[trigger] t.rows[r][0]) {
                Err(TwoDaError::NotSingleByte)
            } else {
                match bin_run(flat_cells(t.rows, t.rows.len())) {
                    Err(e) => Err(e),
                    Ok(st) => if st.block.len() > 65535 {
                        Err(TwoDaError::BlockTooLarge)
                    } else {
                        Ok(binary_layout(t, st))
                    },
                }
            }
        },
    }
}

pub open spec fn is_prefix<A>(a: Seq<A>, b: Seq<A>) -> bool {
    a.len() <= b.len() && b.take(a.len() as int) == a
}

/// Once storing a value fails, storing more values fails the same way.
pub proof fn lemma_bin_run_err(a: Seq<Seq<char>>, b: Seq<Seq<char>>)
    requires
        bin_run(a) is Err,
        is_prefix(a, b),
    ensures
        bin_run(b) == bin_run(a),
    decreases b.len(),
{
    if b.len() > a.len() {
        assert(b.drop_last().take(a.len() as int) =~= b.take(a.len() as int));
        lemma_bin_run_err(a, b.drop_last());
    } else {
        assert(b.take(a.len() as int) =~= b);
    }
}

pub proof fn lemma_flat_cells_prefix(rows: Seq<Seq<Seq<char>>>, r: nat, n: nat)
    requires
        r <= n,
    ensures
        is_prefix(flat_cells(rows, r), flat_cells(rows, n)),
    decreases n,
{
    if r < n {
        lemma_flat_cells_prefix(rows, r, (n - 1) as nat);
        let a = flat_cells(rows, r);
        let m = flat_cells(rows, (n - 1) as nat);
        assert((m + rows[n - 1].skip(1)).take(a.len() as int) =~= m.take(a.len() as int));
    } else {
        assert(flat_cells(rows, n).take(flat_cells(rows, n).len() as int) =~= flat_cells(rows, n));
    }
}

/// The cells of the first `r` rows and the first `c` data values of row `r`
/// come first among all cells.
pub proof fn lemma_flat_prefix_of(rows: Seq<Seq<Seq<char>>>, r: nat, c: nat, n: nat)
    requires
        r < n <= rows.len(),
        c + 1 <= rows[r as int].len(),
    ensures
        is_prefix(flat_cells(rows, r) + rows[r as int].skip(1).take(c as int), flat_cells(rows, n)),
{
    lemma_flat_cells_prefix(rows, r + 1, n);
    let a = flat_cells(rows, r) + rows[r as int].skip(1).take(c as int);
    let m = flat_cells(rows, r + 1);
    assert(m == flat_cells(rows, r) + rows[r as int].skip(1));
    assert(m.take(a.len() as int) =~= a);
    assert(flat_cells(rows, n).take(a.len() as int) =~= flat_cells(rows, n).take(m.len() as int).take(a.len() as int));
}

pub open spec fn bytes_result(r: Result<Vec<u8>, TwoDaError>) -> Result<Seq<u8>, TwoDaError> {
    match r {
        Ok(v) => Ok(v@),
        Err(e) => Err(e),
    }
}

/// Appends the single-byte form of `s`, or reports a character above 255.
fn push_single_byte(out: &mut Vec<u8>, s: &String) -> (ok: bool)
    ensures
        ok == single_byte_ok(s@),
        ok ==> final(out)@ == old(out)@ + sb_bytes(s@),
{
    let v = crate::text::chars_of(s.as_str());
    let mut i: usize = 0;
    let ghost start = out@;
    while i < v.len()
        invariant
            v@ == s@,
            i <= v@.len(),
            out@ == start + sb_bytes(v@.take(i as int)),
            forall|j: int| 0 <= j < i ==> (#[trigger] v@[j] as u32) < 256,
        decreases v@.len() - i,
    {
        let u = v[i] as u32;
        if u > 255 {
            return false;
        }
        out.push(u as u8);
        assert(sb_bytes(v@.take(i + 1)) =~= sb_bytes(v@.take(i as int)).push(u as u8));
        i = i + 1;
    }
    assert(v@.take(v@.len() as int) == v@);
    true
}

impl TwoDaFile {
    /// Writes the table as binary `2DA V2.b` (see `to_binary_spec`).
    #[verifier::loop_isolation(false)]
    pub fn to_binary(&self) -> (r: Result<Vec<u8>, TwoDaError>)
        ensures
            bytes_result(r) == to_binary_spec(self@),
    {
        let ghost t = self@;
        match self.validate() {
            Err(e) => {
                return Err(e);
            },
            Ok(()) => {},
        }
        proof {
            lemma_validate_rows(t.rows, t.columns.len(), 0);
        }
        if self.default_value.is_some() {
            return Err(TwoDaError::DefaultInBinary);
        }
        let ncols = self.columns.len();
        let nrows = self.rows.len();
        let mut out: Vec<u8> = vec![0x32u8, 0x44, 0x41, 0x20, 0x56, 0x32, 0x2e, 0x62, 0x0a];
        assert(out@ =~= binary_signature_bytes() + names_bytes(t.columns, 1));
        let mut i: usize = 1;
        while i < ncols
            invariant
                1 <= i <= ncols,
                out@ == binary_signature_bytes() + names_bytes(t.columns, i as nat),
                forall|j: int| 1 <= j < i ==> single_byte_ok(#[trigger] t.columns[j]),
            decreases ncols - i,
        {
            assert(t.columns[i as int] == self.columns@[i as int]@);
            if !push_single_byte(&mut out, &self.columns[i]) {
                return Err(TwoDaError::NotSingleByte);
            }
            out.push(9u8);
            assert(out@ =~= binary_signature_bytes() + names_bytes(t.columns, (i + 1) as nat));
            i = i + 1;
        }
        out.push(0u8);
        if nrows > 0xffff_ffff {
            return Err(TwoDaError::TooManyRows);
        }
        push_le32(&mut out, nrows as u32);
        let ghost base = out@;
        assert(labels_bytes(t.rows, 0) =~= Seq::<u8>::empty());
        let mut r: usize = 0;
        while r < nrows
            invariant
                r <= nrows,
                out@ == base + labels_bytes(t.rows, r as nat),
                forall|j: int| 0 <= j < r ==> single_byte_ok(#[trigger] t.rows[j][0]),
            decreases nrows - r,
        {
            assert(t.rows[r as int].len() == ncols);
            assert(t.rows[r as int][0] == self.rows@[r as int]@[0]@);
            if !push_single_byte(&mut out, &self.rows[r][0]) {
                return Err(TwoDaError::NotSingleByte);
            }
            out.push(9u8);
            assert(out@ =~= base + labels_bytes(t.rows, (r + 1) as nat));
            r = r + 1;
        }
        let ghost head = out@;
        let mut block: Vec<u8> = Vec::new();
        let mut index: Vec<u8> = Vec::new();
        let mut offsets: vstd::hash_map::StringHashMap<u16> = vstd::hash_map::StringHashMap::new();
        let mut r: usize = 0;
        assert(flat_cells(t.rows, 0) =~= Seq::<Seq<char>>::empty());
        while r < nrows
            invariant
                r <= nrows,
                bin_run(flat_cells(t.rows, r as nat)) == Ok::<BinState, TwoDaError>(
                    BinState { block: block@, dict: offsets@, index: index@ },
                ),
            decreases nrows - r,
        {
            let mut c: usize = 1;
            let ghost before = flat_cells(t.rows, r as nat);
            assert(t.rows[r as int].len() == ncols);
            assert(before + t.rows[r as int].skip(1).take(0) =~= before);
            while c < ncols
                invariant
                    r < nrows,
                    1 <= c <= ncols,
                    before == flat_cells(t.rows, r as nat),
                    bin_run(before + t.rows[r as int].skip(1).take(c - 1)) == Ok::<
                        BinState,
                        TwoDaError,
                    >(BinState { block: block@, dict: offsets@, index: index@ }),
                decreases ncols - c,
            {
                let ghost cells = before + t.rows[r as int].skip(1).take(c - 1);
                let ghost next = before + t.rows[r as int].skip(1).take(c as int);
                assert(next.drop_last() =~= cells);
                assert(next.last() == self.rows@[r as int]@[c as int]@);
                let value = &self.rows[r][c];
                match offsets.get(value.as_str()) {
                    Some(off) => {
                        let off = *off;
                        push_le16(&mut index, off);
                    },
                    None => {
                        if block.len() > 65535 {
                            proof {
                                lemma_flat_prefix_of(t.rows, r as nat, c as nat, nrows as nat);
                                lemma_bin_run_err(next, flat_cells(t.rows, nrows as nat));
                            }
                            return Err(TwoDaError::BlockTooLarge);
                        }
                        let off = block.len() as u16;
                        if !push_single_byte(&mut block, value) {
                            proof {
                                lemma_flat_prefix_of(t.rows, r as nat, c as nat, nrows as nat);
                                lemma_bin_run_err(next, flat_cells(t.rows, nrows as nat));
                            }
                            return Err(TwoDaError::NotSingleByte);
                        }
                        block.push(0u8);
                        offsets.insert(value.clone(), off);
                        push_le16(&mut index, off);
                    },
                }
                proof {
                    let st2 = bin_run(next)->Ok_0;
                    assert(bin_run(next) is Ok);
                    assert(st2.block =~= block@);
                    assert(st2.dict =~= offsets@);
                    assert(st2.index =~= index@);
                }
                c = c + 1;
            }
            assert(t.rows[r as int].skip(1).take(ncols - 1) =~= t.rows[r as int].skip(1));
            r = r + 1;
        }
        if block.len() > 65535 {
            return Err(TwoDaError::BlockTooLarge);
        }
        let ghost st = BinState { block: block@, dict: offsets@, index: index@ };
        out.append(&mut index);
        push_le16(&mut out, block.len() as u16);
        out.append(&mut block);
        assert(out@ =~= binary_layout(t, st));
        Ok(out)
    }
}

} // verus!

verus! {

/// The table that a file's bytes hold: binary when they start with the binary
/// signature, otherwise UTF-8 text.
pub open spec fn read_spec(data: Seq<u8>) -> Result<TableView, TwoDaError> {
    if data.len() >= 9 && data.take(9) == binary_signature_bytes() {
        parse_binary_spec(data)
    } else if !vstd::utf8::valid_utf8(data) {
        Err(TwoDaError::InvalidUtf8)
    } else {
        parse_text(vstd::utf8::decode_utf8(data))
    }
}

/// The bytes that a table is saved as, in its own format.
pub open spec fn write_spec(t: TableView) -> Result<Seq<u8>, TwoDaError> {
    match t.format {
        TwoDaFormat::Text => match to_text_spec(t) {
            Ok(s) => Ok(vstd::utf8::encode_utf8(s)),
            Err(e) => Err(e),
        },
        TwoDaFormat::Binary => to_binary_spec(t),
    }
}

impl TwoDaFile {
    /// Reads a table from a file's bytes (see `read_spec`).
    pub fn read(data: &[u8]) -> (r: Result<TwoDaFile, TwoDaError>)
        requires
            data@.len() <= isize::MAX,
        ensures
            view_result(r) == read_spec(data@),
    {
        let sig = vec![0x32u8, 0x44, 0x41, 0x20, 0x56, 0x32, 0x2e, 0x62, 0x0a];
        let mut binary = data.len() >= 9;
        let mut i: usize = 0;
        while binary && i < 9
            invariant
                sig@ == binary_signature_bytes(),
                i <= 9,
                binary ==> data@.len() >= 9 && forall|j: int| 0 <= j < i ==> data@[j] == sig@[j],
                !binary ==> !(data@.len() >= 9 && data@.take(9) == binary_signature_bytes()),
            decreases 9 - i,
        {
            if data[i] != sig[i] {
                assert(data@.take(9)[i as int] != binary_signature_bytes()[i as int]);
                binary = false;
            }
            i = i + 1;
        }
        if binary {
            assert(data@.take(9) =~= binary_signature_bytes());
            return TwoDaFile::parse_binary(data);
        }
        match crate::text::utf8_decode(data) {
            None => Err(TwoDaError::InvalidUtf8),
            Some(text) => TwoDaFile::parse(text.as_str()),
        }
    }

    /// The bytes to save the table as (see `write_spec`).
    pub fn write(&self) -> (r: Result<Vec<u8>, TwoDaError>)
        ensures
            bytes_result(r) == write_spec(self@),
    {
        match self.format {
            TwoDaFormat::Text => match self.to_text() {
                Ok(s) => Ok(vstd::slice::slice_to_vec(s.as_str().as_bytes())),
                Err(e) => Err(e),
            },
            TwoDaFormat::Binary => self.to_binary(),
        }
    }
}

} // verus!
