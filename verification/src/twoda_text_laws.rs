//! Round trip of text tables: what `parse` gives back of `to_text`.
use crate::text::{eq_ignore_ascii_case, ascii_lower, contains_char, has_ws, is_ws, trim, trim_end, trim_start};
use crate::twoda::{
    parse_text, parse_body, read_spec, write_spec, binary_signature_bytes, TwoDaFormat, widths, validate_spec, to_text_spec, render_text, text_prefix, default_part, text_signature,
    any_quote, lemma_validate_rows, bad_column_name, row_tag, MAX_COLUMNS, parse_rows, rows_text, empty_tag, TwoDaError, MAX_ROWS, MAX_CELLS, default_of, default_tag, default_tag_out, is_default_line, col_width, sat2, TableView, header_cells, pad, render_cell, row_cells, spaces, ulen, crlf, line_run, line_start, line_step, push_line, text_lines, tok_run, tok_start, tok_step,
    tokenize_spec, quoted_spec, LineState, TokMode, TokState,
};
use crate::cliptext::join;
use vstd::prelude::*;
use vstd::utf8::encode_utf8;

verus! {

// ---------------------------------------------------------------------------
// Lines.
/// Segments written one after the other, each ended by CR LF.
pub open spec fn crlf_lines(segs: Seq<Seq<char>>) -> Seq<char>
    decreases segs.len(),
{
    if segs.len() == 0 {
        seq![]
    } else {
        crlf_lines(segs.drop_last()) + segs.last() + crlf()
    }
}

/// The lines that splitting keeps of the segments: the non-blank ones, without
/// trailing whitespace.
pub open spec fn kept_lines(segs: Seq<Seq<char>>) -> Seq<Seq<char>>
    decreases segs.len(),
{
    if segs.len() == 0 {
        seq![]
    } else {
        push_line(kept_lines(segs.drop_last()), segs.last())
    }
}

pub open spec fn no_newline(s: Seq<char>) -> bool {
    !contains_char(s, '\n')
}

proof fn lemma_line_run_append(st: LineState, x: Seq<char>, y: Seq<char>)
    ensures
        line_run(st, x + y) == line_run(line_run(st, x), y),
    decreases y.len(),
{
    if y.len() == 0 {
        assert(x + y =~= x);
    } else {
        assert((x + y).drop_last() =~= x + y.drop_last());
        assert((x + y).last() == y.last());
        lemma_line_run_append(st, x, y.drop_last());
    }
}

proof fn lemma_line_run_plain(done: Seq<Seq<char>>, cur: Seq<char>, x: Seq<char>)
    requires
        no_newline(x),
    ensures
        line_run(LineState { done, cur }, x) == (LineState { done, cur: cur + x }),
    decreases x.len(),
{
    if x.len() == 0 {
        assert(cur + x =~= cur);
    } else {
        assert(no_newline(x.drop_last())) by {
            if contains_char(x.drop_last(), '\n') {
                let j = choose|j: int| 0 <= j < x.drop_last().len() && x.drop_last()[j] == '\n';
                assert(x[j] == '\n');
            }
        }
        lemma_line_run_plain(done, cur, x.drop_last());
        assert(x.last() != '\n') by {
            if x.last() == '\n' {
                assert(x[x.len() - 1] == '\n');
            }
        }
        assert((cur + x.drop_last()).push(x.last()) =~= cur + x);
    }
}

proof fn lemma_line_run_one(st: LineState, c: char)
    ensures
        line_run(st, seq![c]) == line_step(st, c),
{
    assert(seq![c].drop_last() =~= Seq::<char>::empty());
    assert(line_run(st, Seq::<char>::empty()) == st);
    assert(seq![c].last() == c);
}

proof fn lemma_trim_end_cr(s: Seq<char>)
    ensures
        trim_end(s.push('\r')) == trim_end(s),
{
    assert(is_ws('\r'));
    assert(s.push('\r').drop_last() =~= s);
}

/// Splitting segments written with CR LF keeps their non-blank lines.
proof fn lemma_crlf_lines(segs: Seq<Seq<char>>)
    requires
        forall|i: int| 0 <= i < segs.len() ==> no_newline(#[trigger] segs[i]),
    ensures
        line_run(line_start(), crlf_lines(segs)) == (LineState { done: kept_lines(segs), cur: seq![] }),
    decreases segs.len(),
{
    if segs.len() > 0 {
        let prev = segs.drop_last();
        let seg = segs.last();
        assert forall|i: int| 0 <= i < prev.len() implies no_newline(#[trigger] prev[i]) by {
            assert(prev[i] == segs[i]);
        }
        lemma_crlf_lines(prev);
        let st = line_run(line_start(), crlf_lines(prev));
        lemma_line_run_append(line_start(), crlf_lines(prev) + seg, crlf());
        lemma_line_run_append(line_start(), crlf_lines(prev), seg);
        assert(segs[segs.len() - 1] == seg);
        lemma_line_run_plain(st.done, seq![], seg);
        let st2 = LineState { done: st.done, cur: seq![] + seg };
        assert(seq![] + seg =~= seg);
        assert(crlf() =~= seq!['\r'] + seq!['\n']);
        lemma_line_run_append(st2, seq!['\r'], seq!['\n']);
        lemma_line_run_one(st2, '\r');
        let st3 = line_step(st2, '\r');
        assert(st3.cur == seg.push('\r'));
        lemma_line_run_one(st3, '\n');
        lemma_trim_end_cr(seg);
    }
}

/// The lines of a text made of CR LF ended segments.
pub proof fn lemma_text_lines(segs: Seq<Seq<char>>)
    requires
        forall|i: int| 0 <= i < segs.len() ==> no_newline(#[trigger] segs[i]),
    ensures
        text_lines(crlf_lines(segs)) == kept_lines(segs),
{
    lemma_crlf_lines(segs);
    assert(trim_end(Seq::<char>::empty()) == Seq::<char>::empty());
}

proof fn lemma_crlf_append(a: Seq<Seq<char>>, b: Seq<Seq<char>>)
    ensures
        crlf_lines(a + b) == crlf_lines(a) + crlf_lines(b),
    decreases b.len(),
{
    if b.len() == 0 {
        assert(a + b =~= a);
        assert(crlf_lines(a) + crlf_lines(b) =~= crlf_lines(a));
    } else {
        assert((a + b).drop_last() =~= a + b.drop_last());
        assert((a + b).last() == b.last());
        lemma_crlf_append(a, b.drop_last());
        assert(crlf_lines(a + b) =~= crlf_lines(a) + crlf_lines(b));
    }
}

pub open spec fn trimmed_all(b: Seq<Seq<char>>) -> Seq<Seq<char>> {
    b.map_values(|s: Seq<char>| trim_end(s))
}

proof fn lemma_kept_append(a: Seq<Seq<char>>, b: Seq<Seq<char>>)
    requires
        forall|i: int| 0 <= i < b.len() ==> trim_end(#[trigger] b[i]).len() > 0,
    ensures
        kept_lines(a + b) == kept_lines(a) + trimmed_all(b),
    decreases b.len(),
{
    if b.len() == 0 {
        assert(a + b =~= a);
        assert(kept_lines(a) + trimmed_all(b) =~= kept_lines(a));
    } else {
        assert((a + b).drop_last() =~= a + b.drop_last());
        assert((a + b).last() == b.last());
        assert(b[b.len() - 1] == b.last());
        lemma_kept_append(a, b.drop_last());
        assert(kept_lines(a) + trimmed_all(b.drop_last()) + seq![trim_end(b.last())] =~= kept_lines(
            a,
        ) + trimmed_all(b));
    }
}

// ---------------------------------------------------------------------------
// Fields.
pub open spec fn all_ws(x: Seq<char>) -> bool {
    forall|i: int| 0 <= i < x.len() ==> is_ws(#[trigger] x[i])
}

proof fn lemma_tok_run_append(st: TokState, x: Seq<char>, y: Seq<char>)
    ensures
        tok_run(st, x + y) == tok_run(tok_run(st, x), y),
    decreases y.len(),
{
    if y.len() == 0 {
        assert(x + y =~= x);
    } else {
        assert((x + y).drop_last() =~= x + y.drop_last());
        assert((x + y).last() == y.last());
        lemma_tok_run_append(st, x, y.drop_last());
    }
}

proof fn lemma_tok_one(st: TokState, c: char)
    ensures
        tok_run(st, seq![c]) == tok_step(st, c),
{
    assert(seq![c].drop_last() =~= Seq::<char>::empty());
    assert(tok_run(st, Seq::<char>::empty()) == st);
    assert(seq![c].last() == c);
}

proof fn lemma_tok_gap_ws(st: TokState, x: Seq<char>)
    requires
        st.mode == TokMode::Gap,
        all_ws(x),
    ensures
        tok_run(st, x) == st,
    decreases x.len(),
{
    if x.len() > 0 {
        assert(is_ws(x[x.len() - 1]));
        lemma_tok_gap_ws(st, x.drop_last());
    }
}

proof fn lemma_tok_word(fields: Seq<Seq<char>>, cur: Seq<char>, x: Seq<char>)
    requires
        !has_ws(x),
    ensures
        tok_run(TokState { fields, cur, mode: TokMode::Word }, x) == (TokState {
            fields,
            cur: cur + x,
            mode: TokMode::Word,
        }),
    decreases x.len(),
{
    if x.len() == 0 {
        assert(cur + x =~= cur);
    } else {
        assert(!has_ws(x.drop_last())) by {
            if has_ws(x.drop_last()) {
                let j = choose|j: int| 0 <= j < x.drop_last().len() && is_ws(#[trigger] x.drop_last()[j]);
                assert(x[j] == x.drop_last()[j]);
            }
        }
        lemma_tok_word(fields, cur, x.drop_last());
        assert(!is_ws(x.last())) by {
            if is_ws(x.last()) {
                assert(is_ws(x[x.len() - 1]));
            }
        }
        assert((cur + x.drop_last()).push(x.last()) =~= cur + x);
    }
}

proof fn lemma_tok_quoted(fields: Seq<Seq<char>>, cur: Seq<char>, x: Seq<char>)
    requires
        !contains_char(x, '"'),
    ensures
        tok_run(TokState { fields, cur, mode: TokMode::Quoted }, x) == (TokState {
            fields,
            cur: cur + x,
            mode: TokMode::Quoted,
        }),
    decreases x.len(),
{
    if x.len() == 0 {
        assert(cur + x =~= cur);
    } else {
        assert(!contains_char(x.drop_last(), '"')) by {
            if contains_char(x.drop_last(), '"') {
                let j = choose|j: int| 0 <= j < x.drop_last().len() && #[trigger] x.drop_last()[j] == '"';
                assert(x[j] == x.drop_last()[j]);
            }
        }
        lemma_tok_quoted(fields, cur, x.drop_last());
        assert(x.last() != '"') by {
            if x.last() == '"' {
                assert(x[x.len() - 1] == '"');
            }
        }
        assert((cur + x.drop_last()).push(x.last()) =~= cur + x);
    }
}

pub open spec fn gap(fields: Seq<Seq<char>>) -> TokState {
    TokState { fields, cur: seq![], mode: TokMode::Gap }
}

/// A field written bare: non-empty, without whitespace, not starting with a quote.
pub open spec fn word_ok(v: Seq<char>) -> bool {
    v.len() > 0 && !has_ws(v) && v[0] != '"'
}

proof fn lemma_tok_word_field(fields: Seq<Seq<char>>, v: Seq<char>, tail: Seq<char>)
    requires
        word_ok(v),
        tail.len() >= 1,
        all_ws(tail),
    ensures
        tok_run(gap(fields), v + tail) == gap(fields.push(v)),
{
    let first = seq![v[0]];
    let rest = v.drop_first();
    assert(v + tail =~= first + rest + seq![tail[0]] + tail.drop_first());
    lemma_tok_run_append(gap(fields), first + rest + seq![tail[0]], tail.drop_first());
    lemma_tok_run_append(gap(fields), first + rest, seq![tail[0]]);
    lemma_tok_run_append(gap(fields), first, rest);
    lemma_tok_one(gap(fields), v[0]);
    assert(!is_ws(v[0]));
    assert(!has_ws(rest)) by {
        if has_ws(rest) {
            let j = choose|j: int| 0 <= j < rest.len() && is_ws(#[trigger] rest[j]);
            assert(v[j + 1] == rest[j]);
        }
    }
    lemma_tok_word(fields, seq![v[0]], rest);
    assert(seq![v[0]] + rest =~= v);
    lemma_tok_one(TokState { fields, cur: v, mode: TokMode::Word }, tail[0]);
    assert(is_ws(tail[0]));
    assert(all_ws(tail.drop_first())) by {
        assert forall|i: int| 0 <= i < tail.drop_first().len() implies is_ws(
            #[trigger] tail.drop_first()[i],
        ) by {
            assert(tail.drop_first()[i] == tail[i + 1]);
        }
    }
    lemma_tok_gap_ws(gap(fields.push(v)), tail.drop_first());
}

proof fn lemma_tok_quoted_field(fields: Seq<Seq<char>>, v: Seq<char>, tail: Seq<char>)
    requires
        !contains_char(v, '"'),
        all_ws(tail),
    ensures
        tok_run(gap(fields), seq!['"'] + v + seq!['"'] + tail) == gap(fields.push(v)),
{
    lemma_tok_run_append(gap(fields), seq!['"'] + v + seq!['"'], tail);
    lemma_tok_run_append(gap(fields), seq!['"'] + v, seq!['"']);
    lemma_tok_run_append(gap(fields), seq!['"'], v);
    lemma_tok_one(gap(fields), '"');
    assert(!is_ws('"'));
    lemma_tok_quoted(fields, seq![], v);
    assert(seq![] + v =~= v);
    lemma_tok_one(TokState { fields, cur: v, mode: TokMode::Quoted }, '"');
    lemma_tok_gap_ws(gap(fields.push(v)), tail);
}

/// Once a line's fields are all read, its trailing whitespace does not matter.
proof fn lemma_tok_trailing(s: Seq<char>, fields: Seq<Seq<char>>)
    requires
        tok_run(tok_start(), s) == gap(fields),
    ensures
        tokenize_spec(trim_end(s)) == Ok::<Seq<Seq<char>>, ()>(fields),
{
    let t = trim_end(s);
    crate::text::lemma_trim_end_prefix(s);
    let tail = s.skip(t.len() as int);
    assert(s =~= t + tail);
    lemma_trim_end_tail(s);
    lemma_tok_run_append(tok_start(), t, tail);
    let st = tok_run(tok_start(), t);
    lemma_tok_ws_tail(st, tail);
}

proof fn lemma_trim_end_tail(s: Seq<char>)
    ensures
        all_ws(s.skip(trim_end(s).len() as int)),
    decreases s.len(),
{
    crate::text::lemma_trim_end_prefix(s);
    if s.len() > 0 && is_ws(s.last()) {
        lemma_trim_end_tail(s.drop_last());
        let n = trim_end(s).len() as int;
        assert forall|i: int| 0 <= i < s.skip(n).len() implies is_ws(#[trigger] s.skip(n)[i]) by {
            if n + i < s.len() - 1 {
                assert(s.skip(n)[i] == s.drop_last().skip(n)[i]);
            } else {
                assert(s.skip(n)[i] == s.last());
            }
        }
    } else {
        assert(s.skip(s.len() as int) =~= Seq::<char>::empty());
    }
}

/// Whitespace after the fields of a line closes a bare field and changes nothing else.
proof fn lemma_tok_ws_tail(st: TokState, tail: Seq<char>)
    requires
        all_ws(tail),
    ensures
        tail.len() == 0 ==> tok_run(st, tail) == st,
        tail.len() > 0 && st.mode == TokMode::Gap ==> tok_run(st, tail) == st,
        tail.len() > 0 && st.mode == TokMode::Word ==> tok_run(st, tail) == gap(
            st.fields.push(st.cur),
        ),
        st.mode == TokMode::Quoted ==> tok_run(st, tail).mode == TokMode::Quoted,
    decreases tail.len(),
{
    if tail.len() > 0 {
        let prev = tail.drop_last();
        assert(all_ws(prev)) by {
            assert forall|i: int| 0 <= i < prev.len() implies is_ws(#[trigger] prev[i]) by {
                assert(prev[i] == tail[i]);
            }
        }
        lemma_tok_ws_tail(st, prev);
        assert(is_ws(tail[tail.len() - 1]));
        assert(tail.last() != '"') by {
            assert(!is_ws('"'));
        }
    }
}

/// A value that a text table writes and reads back unchanged: non-empty and
/// without double quotes.
pub open spec fn cell_ok(v: Seq<char>) -> bool {
    v.len() > 0 && !contains_char(v, '"')
}

proof fn lemma_spaces_ws(n: nat)
    ensures
        all_ws(spaces(n)),
        spaces(n).len() == n,
{
    assert(is_ws(' '));
}

proof fn lemma_tok_cell(fields: Seq<Seq<char>>, v: Seq<char>, tail: Seq<char>)
    requires
        cell_ok(v),
        tail.len() >= 1,
        all_ws(tail),
    ensures
        tok_run(gap(fields), render_cell(v) + tail) == gap(fields.push(v)),
{
    if has_ws(v) {
        lemma_tok_quoted_field(fields, v, tail);
    } else {
        assert(v[0] != '"') by {
            if v[0] == '"' {
                assert(contains_char(v, '"'));
            }
        }
        lemma_tok_word_field(fields, v, tail);
    }
}

proof fn lemma_pad_tail(s: Seq<char>, w: nat)
    requires
        w >= ulen(s) + 1,
    ensures
        pad(s, w) == s + spaces((w - ulen(s)) as nat),
        all_ws(spaces((w - ulen(s)) as nat)),
        spaces((w - ulen(s)) as nat).len() >= 1,
{
    lemma_spaces_ws((w - ulen(s)) as nat);
}

/// The column names of a header line read back as they were written.
proof fn lemma_tok_header(cols: Seq<Seq<char>>, w: Seq<nat>, k: nat)
    requires
        1 <= k <= cols.len(),
        k <= w.len(),
        forall|i: int| 1 <= i < k ==> word_ok(#[trigger] cols[i]) && w[i] >= ulen(cols[i]) + 1,
    ensures
        tok_run(gap(seq![]), header_cells(cols, w, k)) == gap(cols.subrange(1, k as int)),
    decreases k,
{
    if k <= 1 {
        assert(header_cells(cols, w, k) == Seq::<char>::empty());
        assert(cols.subrange(1, k as int) =~= Seq::<Seq<char>>::empty());
    } else {
        let k1 = (k - 1) as nat;
        lemma_tok_header(cols, w, k1);
        let v = cols[k - 1];
        assert(word_ok(v) && w[k - 1] >= ulen(v) + 1);
        lemma_pad_tail(v, w[k - 1]);
        lemma_tok_run_append(gap(seq![]), header_cells(cols, w, k1), pad(v, w[k - 1]));
        lemma_tok_word_field(cols.subrange(1, k - 1), v, spaces((w[k - 1] - ulen(v)) as nat));
        assert(cols.subrange(1, k - 1).push(v) =~= cols.subrange(1, k as int));
    }
}

/// The values of a row line read back as they were written.
proof fn lemma_tok_row(row: Seq<Seq<char>>, w: Seq<nat>, k: nat)
    requires
        k <= row.len(),
        k <= w.len(),
        forall|i: int| 0 <= i < k ==> cell_ok(#[trigger] row[i]) && w[i] >= ulen(render_cell(row[i])) + 1,
    ensures
        tok_run(gap(seq![]), row_cells(row, w, k)) == gap(row.take(k as int)),
    decreases k,
{
    if k == 0 {
        assert(row.take(0) =~= Seq::<Seq<char>>::empty());
    } else {
        let k1 = (k - 1) as nat;
        lemma_tok_row(row, w, k1);
        let v = row[k - 1];
        assert(cell_ok(v) && w[k - 1] >= ulen(render_cell(v)) + 1);
        lemma_pad_tail(render_cell(v), w[k - 1]);
        lemma_tok_run_append(gap(seq![]), row_cells(row, w, k1), pad(render_cell(v), w[k - 1]));
        lemma_tok_cell(row.take(k1 as int), v, spaces((w[k - 1] - ulen(render_cell(v))) as nat));
        assert(render_cell(v) + spaces((w[k - 1] - ulen(render_cell(v))) as nat) == pad(
            render_cell(v),
            w[k - 1],
        ));
        assert(row.take(k1 as int).push(v) =~= row.take(k as int));
    }
}

// ---------------------------------------------------------------------------
// Trimming and widths.
proof fn lemma_trim_start_ws_prefix(a: Seq<char>, x: Seq<char>)
    requires
        all_ws(a),
    ensures
        trim_start(a + x) == trim_start(x),
    decreases a.len(),
{
    if a.len() > 0 {
        assert(is_ws(a[0]));
        assert((a + x)[0] == a[0]);
        assert((a + x).drop_first() =~= a.drop_first() + x);
        assert(all_ws(a.drop_first())) by {
            assert forall|i: int| 0 <= i < a.drop_first().len() implies is_ws(
                #[trigger] a.drop_first()[i],
            ) by {
                assert(a.drop_first()[i] == a[i + 1]);
            }
        }
        lemma_trim_start_ws_prefix(a.drop_first(), x);
    } else {
        assert(a + x =~= x);
    }
}

proof fn lemma_trim_end_keeps(s: Seq<char>, j: int)
    requires
        0 <= j < s.len(),
        !is_ws(s[j]),
    ensures
        trim_end(s).len() > j,
    decreases s.len(),
{
    if is_ws(s.last()) {
        assert(j < s.len() - 1);
        assert(s.drop_last()[j] == s[j]);
        lemma_trim_end_keeps(s.drop_last(), j);
    }
}

/// `s` is trimmed at both ends.
proof fn lemma_trimmed_ends(v: Seq<char>)
    requires
        crate::text::trim(v) == v,
        v.len() > 0,
    ensures
        !is_ws(v[0]),
        !is_ws(v.last()),
        trim_end(v) == v,
{
    crate::text::lemma_trim_end_prefix(v);
    crate::text::lemma_trim_start_suffix(trim_end(v));
    assert(trim_end(v).len() == v.len());
    assert(trim_end(v) =~= v);
}

proof fn lemma_col_width(t: TableView, i: int, n: nat)
    ensures
        col_width(t, i, n) >= sat2(ulen(t.columns[i])),
        forall|r: int| 0 <= r < n ==> col_width(t, i, n) >= sat2(ulen(render_cell(#[trigger] t.rows[r][i]))),
    decreases n,
{
    if n > 0 {
        lemma_col_width(t, i, (n - 1) as nat);
    }
}

// ---------------------------------------------------------------------------
// The DEFAULT line.
proof fn lemma_lower_letter(c: char, l: char)
    requires
        'A' <= c <= 'Z',
        l as u32 == (c as u32) + 32,
    ensures
        ascii_lower(c) == l,
{
    vstd::utf8::char_u32_cast(l, ((c as u32) + 32) as u32);
}

/// `DEFAULT:` in upper case, which reads as the default tag.
proof fn lemma_default_tag_line(line: Seq<char>)
    requires
        line.len() >= 8,
        line.take(8) == default_tag_out().take(8),
    ensures
        is_default_line(line),
{
    let up = default_tag_out();
    assert(!is_ws(line[0])) by {
        assert(line[0] == line.take(8)[0]);
    }
    assert(trim_start(line) == line);
    assert forall|i: int| 0 <= i < 8 implies ascii_lower(#[trigger] line[i]) == default_tag()[i] by {
        assert(line[i] == line.take(8)[i]);
        assert(line.take(8)[i] == up[i]);
        if i == 0 {
            lemma_lower_letter('D', 'd');
        } else if i == 1 {
            lemma_lower_letter('E', 'e');
        } else if i == 2 {
            lemma_lower_letter('F', 'f');
        } else if i == 3 {
            lemma_lower_letter('A', 'a');
        } else if i == 4 {
            lemma_lower_letter('U', 'u');
        } else if i == 5 {
            lemma_lower_letter('L', 'l');
        } else if i == 6 {
            lemma_lower_letter('T', 't');
        }
    }
}

/// The `DEFAULT:` line that `to_text` writes reads back as its value.
proof fn lemma_default_line(v: Seq<char>)
    requires
        trim(v) == v,
    ensures
        trim_end(default_tag_out() + v).len() > 0,
        is_default_line(trim_end(default_tag_out() + v)),
        default_of(trim_end(default_tag_out() + v)) == v,
{
    let d = default_tag_out() + v;
    let tag8 = default_tag_out().take(8);
    if v.len() > 0 {
        lemma_trimmed_ends(v);
        assert(d.last() == v.last());
        assert(trim_end(d) == d);
        assert(d.take(8) =~= tag8);
        lemma_default_tag_line(d);
        assert(trim_start(d) == d);
        assert(d.skip(8) =~= seq![' '] + v);
        assert((seq![' '] + v).last() == v.last());
        assert(trim_end(seq![' '] + v) == seq![' '] + v);
        assert(all_ws(seq![' '])) by {
            assert(is_ws(' '));
        }
        lemma_trim_start_ws_prefix(seq![' '], v);
        assert(trim_start(v) == v);
    } else {
        assert(d =~= default_tag_out());
        assert(is_ws(d.last()));
        assert(d.drop_last() =~= tag8);
        assert(!is_ws(tag8.last()));
        assert(trim_end(tag8) == tag8);
        assert(trim_end(d) == tag8);
        assert(tag8.take(8) =~= tag8);
        lemma_default_tag_line(tag8);
        assert(trim_start(tag8) == tag8);
        assert(tag8.skip(8) =~= Seq::<char>::empty());
        assert(trim_end(Seq::<char>::empty()) == Seq::<char>::empty());
        assert(trim_start(Seq::<char>::empty()) == Seq::<char>::empty());
        assert(v =~= Seq::<char>::empty());
    }
}

proof fn lemma_header_first(cols: Seq<Seq<char>>, w: Seq<nat>, k: nat)
    requires
        2 <= k <= cols.len(),
    ensures
        header_cells(cols, w, k).len() >= pad(cols[1], w[1]).len(),
        header_cells(cols, w, k).take(pad(cols[1], w[1]).len() as int) == pad(cols[1], w[1]),
    decreases k,
{
    let p1 = pad(cols[1], w[1]);
    if k == 2 {
        assert(header_cells(cols, w, 1) == Seq::<char>::empty());
        assert(header_cells(cols, w, 2) =~= p1);
    } else {
        lemma_header_first(cols, w, (k - 1) as nat);
        let prev = header_cells(cols, w, (k - 1) as nat);
        assert(header_cells(cols, w, k) == prev + pad(cols[k - 1], w[k - 1]));
        assert((prev + pad(cols[k - 1], w[k - 1])).take(p1.len() as int) =~= prev.take(
            p1.len() as int,
        ));
    }
}

/// Without a `DEFAULT:` line, the header line is not mistaken for one.
proof fn lemma_header_not_default(cols: Seq<Seq<char>>, w: Seq<nat>, w0: nat)
    requires
        cols.len() >= 2,
        w.len() >= 2,
        word_ok(cols[1]),
        w[1] >= ulen(cols[1]) + 1,
        !is_default_line(cols[1]),
    ensures
        !is_default_line(trim_end(spaces(w0) + header_cells(cols, w, cols.len()))),
{
    let c1 = cols[1];
    let x = header_cells(cols, w, cols.len());
    let h = spaces(w0) + x;
    let p1 = pad(c1, w[1]);
    lemma_header_first(cols, w, cols.len());
    lemma_pad_tail(c1, w[1]);
    lemma_spaces_ws(w0);
    let j0 = w0 + c1.len() - 1;
    assert(x[c1.len() - 1] == x.take(p1.len() as int)[c1.len() - 1]);
    assert(h[j0] == c1.last());
    assert(!is_ws(c1.last())) by {
        if is_ws(c1.last()) {
            assert(is_ws(c1[c1.len() - 1]));
        }
    }
    lemma_trim_end_keeps(h, j0);
    crate::text::lemma_trim_end_prefix(h);
    let m = trim_end(h).len() as int;
    let tt = x.take(m - w0);
    assert(trim_end(h) =~= spaces(w0) + tt);
    lemma_trim_start_ws_prefix(spaces(w0), tt);
    assert(tt[0] == c1[0]);
    assert(!is_ws(c1[0])) by {
        if is_ws(c1[0]) {
            assert(has_ws(c1));
        }
    }
    assert(trim_start(tt) == tt);
    if is_default_line(trim_end(h)) {
        assert(trim_start(trim_end(h)) == tt);
        if c1.len() >= 8 {
            assert(trim_start(c1) == c1);
            assert forall|i: int| 0 <= i < 8 implies ascii_lower(#[trigger] c1[i]) == default_tag()[i] by {
                assert(tt[i] == c1[i]);
                assert(ascii_lower(tt[i]) == default_tag()[i]);
            }
            assert(is_default_line(c1));
        } else {
            let j = c1.len() as int;
            assert(tt[j] == p1[j]);
            assert(p1[j] == ' ');
            assert(ascii_lower(tt[j]) == default_tag()[j]);
            assert(ascii_lower(' ') == ' ');
        }
    }
}

// ---------------------------------------------------------------------------
// Rows and newlines.
proof fn lemma_no_nl_concat(a: Seq<char>, b: Seq<char>)
    requires
        no_newline(a),
        no_newline(b),
    ensures
        no_newline(a + b),
{
    if contains_char(a + b, '\n') {
        let j = choose|j: int| 0 <= j < (a + b).len() && #[trigger] (a + b)[j] == '\n';
        if j < a.len() {
            assert(a[j] == '\n');
        } else {
            assert(b[j - a.len()] == '\n');
        }
    }
}

proof fn lemma_no_nl_ws_free(v: Seq<char>)
    requires
        !has_ws(v),
    ensures
        no_newline(v),
{
    if contains_char(v, '\n') {
        let j = choose|j: int| 0 <= j < v.len() && #[trigger] v[j] == '\n';
        assert(is_ws(v[j]));
    }
}

proof fn lemma_no_nl_spaces(n: nat)
    ensures
        no_newline(spaces(n)),
{
    lemma_spaces_ws(n);
    if contains_char(spaces(n), '\n') {
        let j = choose|j: int| 0 <= j < spaces(n).len() && #[trigger] spaces(n)[j] == '\n';
    }
}

proof fn lemma_no_nl_pad(v: Seq<char>, w: nat)
    requires
        no_newline(v),
    ensures
        no_newline(pad(v, w)),
{
    lemma_no_nl_spaces(if w >= ulen(v) { (w - ulen(v)) as nat } else { 0 });
    lemma_no_nl_concat(v, spaces(if w >= ulen(v) { (w - ulen(v)) as nat } else { 0 }));
}

proof fn lemma_no_nl_render(v: Seq<char>)
    requires
        no_newline(v),
    ensures
        no_newline(render_cell(v)),
{
    if has_ws(v) {
        assert(!contains_char(seq!['"'], '\n')) by {
            if contains_char(seq!['"'], '\n') {
                let j = choose|j: int| 0 <= j < 1 && #[trigger] seq!['"'][j] == '\n';
            }
        }
        lemma_no_nl_concat(seq!['"'], v);
        lemma_no_nl_concat(seq!['"'] + v, seq!['"']);
    } else if v.len() == 0 {
        if contains_char(empty_tag(), '\n') {
            let j = choose|j: int| 0 <= j < 4 && #[trigger] empty_tag()[j] == '\n';
        }
    }
}

proof fn lemma_no_nl_header(cols: Seq<Seq<char>>, w: Seq<nat>, k: nat)
    requires
        k <= cols.len(),
        forall|i: int| 1 <= i < k ==> no_newline(#[trigger] cols[i]),
    ensures
        no_newline(header_cells(cols, w, k)),
    decreases k,
{
    if k <= 1 {
        assert(header_cells(cols, w, k) == Seq::<char>::empty());
        if contains_char(Seq::<char>::empty(), '\n') {
            let j = choose|j: int| 0 <= j < 0 && #[trigger] Seq::<char>::empty()[j] == '\n';
        }
    } else {
        lemma_no_nl_header(cols, w, (k - 1) as nat);
        assert(no_newline(cols[k - 1]));
        lemma_no_nl_pad(cols[k - 1], w[k - 1]);
        lemma_no_nl_concat(header_cells(cols, w, (k - 1) as nat), pad(cols[k - 1], w[k - 1]));
    }
}

proof fn lemma_no_nl_row(row: Seq<Seq<char>>, w: Seq<nat>, k: nat)
    requires
        k <= row.len(),
        forall|i: int| 0 <= i < k ==> no_newline(#[trigger] row[i]),
    ensures
        no_newline(row_cells(row, w, k)),
    decreases k,
{
    if k == 0 {
        if contains_char(Seq::<char>::empty(), '\n') {
            let j = choose|j: int| 0 <= j < 0 && #[trigger] Seq::<char>::empty()[j] == '\n';
        }
    } else {
        lemma_no_nl_row(row, w, (k - 1) as nat);
        assert(no_newline(row[k - 1]));
        lemma_no_nl_render(row[k - 1]);
        lemma_no_nl_pad(render_cell(row[k - 1]), w[k - 1]);
        lemma_no_nl_concat(row_cells(row, w, (k - 1) as nat), pad(render_cell(row[k - 1]), w[k - 1]));
    }
}

pub open spec fn row_segs(rows: Seq<Seq<Seq<char>>>, w: Seq<nat>) -> Seq<Seq<char>> {
    Seq::new(rows.len(), |i: int| row_cells(rows[i], w, rows[i].len()))
}

proof fn lemma_rows_text(rows: Seq<Seq<Seq<char>>>, w: Seq<nat>, k: nat)
    requires
        k <= rows.len(),
    ensures
        rows_text(rows, w, k) == crlf_lines(row_segs(rows, w).take(k as int)),
    decreases k,
{
    if k == 0 {
        assert(row_segs(rows, w).take(0) =~= Seq::<Seq<char>>::empty());
    } else {
        lemma_rows_text(rows, w, (k - 1) as nat);
        let segs = row_segs(rows, w).take(k as int);
        assert(segs.drop_last() =~= row_segs(rows, w).take(k - 1));
        assert(segs.last() == row_cells(rows[k - 1], w, rows[k - 1].len()));
    }
}

proof fn lemma_parse_rows(lines: Seq<Seq<char>>, rows: Seq<Seq<Seq<char>>>, ncols: nat, k: nat)
    requires
        lines.len() == rows.len(),
        k <= rows.len(),
        rows.len() <= MAX_ROWS,
        rows.len() * ncols <= MAX_CELLS,
        forall|j: int|
            0 <= j < rows.len() ==> tokenize_spec(#[trigger] lines[j]) == Ok::<Seq<Seq<char>>, ()>(
                rows[j],
            ) && rows[j].len() == ncols,
    ensures
        parse_rows(lines, ncols, k) == Ok::<Seq<Seq<Seq<char>>>, TwoDaError>(
            rows.subrange(k as int, rows.len() as int),
        ),
    decreases rows.len() - k,
{
    if k < rows.len() {
        assert(tokenize_spec(lines[k as int]) == Ok::<Seq<Seq<char>>, ()>(rows[k as int]));
        assert((k + 1) * ncols <= rows.len() * ncols) by (nonlinear_arith)
            requires
                k + 1 <= rows.len(),
        ;
        lemma_parse_rows(lines, rows, ncols, k + 1);
        assert(seq![rows[k as int]] + rows.subrange(k as int + 1, rows.len() as int) =~= rows.subrange(
            k as int,
            rows.len() as int,
        ));
    } else {
        assert(rows.subrange(k as int, rows.len() as int) =~= Seq::<Seq<Seq<char>>>::empty());
    }
}

// ---------------------------------------------------------------------------
// The whole text.
/// What a text table needs, beyond what `to_text` checks, to read back as it
/// was written: the reader's limits, no column name that starts with a double
/// quote, a first data column name that does not read as a `DEFAULT:` line when
/// there is no default value, a default value without surrounding whitespace
/// or newline, values that are non-empty and without newline, and names and
/// values whose padded width fits a `usize`.
pub open spec fn text_readable(t: TableView) -> bool {
    &&& t.columns.len() <= MAX_COLUMNS + 1
    &&& t.rows.len() <= MAX_ROWS
    &&& t.rows.len() * t.columns.len() <= MAX_CELLS
    &&& forall|i: int|
        1 <= i < t.columns.len() && (#[trigger] t.columns[i]).len() > 0 ==> t.columns[i][0] != '"'
    &&& forall|i: int|
        0 <= i < t.columns.len() ==> encode_utf8(#[trigger] t.columns[i]).len() + 2 <= usize::MAX
    &&& match t.default_value {
        None => t.columns.len() >= 2 ==> !is_default_line(t.columns[1]),
        Some(v) => trim(v) == v && no_newline(v),
    }
    &&& forall|r: int, i: int|
        0 <= r < t.rows.len() && 0 <= i < t.rows[r].len() ==> (#[trigger] t.rows[r][i]).len() > 0
            && no_newline(t.rows[r][i]) && encode_utf8(render_cell(t.rows[r][i])).len() + 2
            <= usize::MAX
}

/// What `to_text` accepting a table tells about it.
proof fn lemma_text_accepts(t: TableView)
    requires
        to_text_spec(t) is Ok,
    ensures
        t.columns.len() >= 2,
        t.columns[0] == row_tag(),
        forall|i: int| 1 <= i < t.columns.len() ==> !bad_column_name(#[trigger] t.columns[i]),
        forall|r: int| 0 <= r < t.rows.len() ==> (#[trigger] t.rows[r]).len() == t.columns.len(),
        !any_quote(t),
        to_text_spec(t)->Ok_0 == render_text(t),
{
    lemma_validate_rows(t.rows, t.columns.len(), 0);
}

/// Every column is wide enough for its name and its values and two spaces.
proof fn lemma_text_widths(t: TableView)
    requires
        to_text_spec(t) is Ok,
        text_readable(t),
    ensures
        widths(t).len() == t.columns.len(),
        forall|i: int| 0 <= i < t.columns.len() ==> #[trigger] widths(t)[i] >= ulen(t.columns[i]) + 2,
        forall|r: int, i: int|
            0 <= r < t.rows.len() && 0 <= i < t.columns.len() ==> widths(t)[i] >= ulen(
                render_cell(#[trigger] t.rows[r][i]),
            ) + 2,
{
    lemma_text_accepts(t);
    let w = widths(t);
    assert forall|i: int| 0 <= i < t.columns.len() implies #[trigger] w[i] >= ulen(t.columns[i]) + 2 by {
        lemma_col_width(t, i, t.rows.len());
        assert(encode_utf8(t.columns[i]).len() + 2 <= usize::MAX);
    }
    assert forall|r: int, i: int| 0 <= r < t.rows.len() && 0 <= i < t.columns.len() implies w[i]
        >= ulen(render_cell(#[trigger] t.rows[r][i])) + 2 by {
        lemma_col_width(t, i, t.rows.len());
        assert(t.rows[r].len() == t.columns.len());
        assert(t.rows[r][i].len() > 0);
        assert(encode_utf8(render_cell(t.rows[r][i])).len() + 2 <= usize::MAX);
    }
}

pub open spec fn prefix_segs(d: Option<Seq<char>>) -> Seq<Seq<char>> {
    match d {
        Some(v) => seq![text_signature(), seq![], default_tag_out() + v, seq![]],
        None => seq![text_signature(), seq![]],
    }
}

pub open spec fn header_seg(t: TableView) -> Seq<char> {
    spaces(widths(t)[0]) + header_cells(t.columns, widths(t), t.columns.len())
}

/// The lines of `to_text`'s output, without their CR LF.
pub open spec fn text_segs(t: TableView) -> Seq<Seq<char>> {
    prefix_segs(t.default_value) + (seq![header_seg(t)] + row_segs(t.rows, widths(t)))
}

proof fn lemma_crlf_one(a: Seq<char>)
    ensures
        crlf_lines(seq![a]) == a + crlf(),
{
    assert(seq![a].drop_last() =~= Seq::<Seq<char>>::empty());
    assert(crlf_lines(Seq::<Seq<char>>::empty()) == Seq::<char>::empty());
    assert(seq![a].last() == a);
    assert(crlf_lines(seq![a]) =~= a + crlf());
}

proof fn lemma_crlf_two(a: Seq<char>, b: Seq<char>)
    ensures
        crlf_lines(seq![a, b]) == a + crlf() + b + crlf(),
{
    assert(seq![a, b].drop_last() =~= seq![a]);
    assert(seq![a, b].last() == b);
    lemma_crlf_one(a);
}

proof fn lemma_text_layout(t: TableView)
    ensures
        render_text(t) == crlf_lines(text_segs(t)),
{
    let w = widths(t);
    let pre = prefix_segs(t.default_value);
    let rs = row_segs(t.rows, w);
    let h = header_seg(t);
    lemma_crlf_two(text_signature(), seq![]);
    assert(crlf_lines(seq![text_signature(), seq![]]) =~= text_prefix());
    match t.default_value {
        Some(v) => {
            lemma_crlf_two(default_tag_out() + v, seq![]);
            assert(seq![text_signature(), seq![], default_tag_out() + v, seq![]] =~= seq![
                text_signature(),
                seq![],
            ] + seq![default_tag_out() + v, seq![]]);
            lemma_crlf_append(seq![text_signature(), seq![]], seq![default_tag_out() + v, seq![]]);
            assert(crlf_lines(seq![default_tag_out() + v, seq![]]) =~= default_part(t.default_value));
        },
        None => {
            assert(default_part(t.default_value) =~= Seq::<char>::empty());
        },
    }
    assert(crlf_lines(pre) =~= text_prefix() + default_part(t.default_value));
    lemma_crlf_append(seq![h], rs);
    lemma_crlf_one(h);
    lemma_rows_text(t.rows, w, t.rows.len());
    assert(rs.take(t.rows.len() as int) =~= rs);
    lemma_crlf_append(pre, seq![h] + rs);
    assert(render_text(t) =~= crlf_lines(text_segs(t)));
}

proof fn lemma_tokenize_empty()
    ensures
        tokenize_spec(Seq::<char>::empty()) == Ok::<Seq<Seq<char>>, ()>(seq![]),
{
    assert(tok_run(tok_start(), Seq::<char>::empty()) == tok_start());
}

/// The header line reads back as the column names.
proof fn lemma_text_header(t: TableView)
    requires
        to_text_spec(t) is Ok,
        text_readable(t),
    ensures
        no_newline(header_seg(t)),
        trim_end(header_seg(t)).len() > 0,
        tokenize_spec(trim_end(header_seg(t))) == Ok::<Seq<Seq<char>>, ()>(t.columns.skip(1)),
        t.default_value is None ==> !is_default_line(trim_end(header_seg(t))),
{
    lemma_text_accepts(t);
    lemma_text_widths(t);
    let cols = t.columns;
    let w = widths(t);
    let hc = header_cells(cols, w, cols.len());
    assert forall|i: int| 1 <= i < cols.len() implies word_ok(#[trigger] cols[i]) && w[i] >= ulen(
        cols[i],
    ) + 1 by {
        assert(!bad_column_name(cols[i]));
        assert(cols[i].len() > 0 ==> cols[i][0] != '"');
    }
    lemma_tok_header(cols, w, cols.len());
    assert(cols.subrange(1, cols.len() as int) =~= cols.skip(1));
    lemma_spaces_ws(w[0]);
    lemma_tok_run_append(gap(seq![]), spaces(w[0]), hc);
    lemma_tok_gap_ws(gap(seq![]), spaces(w[0]));
    assert(tok_start() == gap(seq![]));
    lemma_tok_trailing(header_seg(t), cols.skip(1));
    if trim_end(header_seg(t)).len() == 0 {
        assert(trim_end(header_seg(t)) =~= Seq::<char>::empty());
        lemma_tokenize_empty();
        assert(cols.skip(1).len() >= 1);
        assert(Seq::<Seq<char>>::empty().len() == 0);
    }
    assert forall|i: int| 1 <= i < cols.len() implies no_newline(#[trigger] cols[i]) by {
        assert(word_ok(cols[i]));
        lemma_no_nl_ws_free(cols[i]);
    }
    lemma_no_nl_header(cols, w, cols.len());
    lemma_no_nl_spaces(w[0]);
    lemma_no_nl_concat(spaces(w[0]), hc);
    if t.default_value is None {
        assert(word_ok(cols[1]));
        lemma_header_not_default(cols, w, w[0]);
    }
}

/// Each row line reads back as the row.
proof fn lemma_text_row(t: TableView, r: int)
    requires
        to_text_spec(t) is Ok,
        text_readable(t),
        0 <= r < t.rows.len(),
    ensures
        no_newline(row_segs(t.rows, widths(t))[r]),
        trim_end(row_segs(t.rows, widths(t))[r]).len() > 0,
        tokenize_spec(trim_end(row_segs(t.rows, widths(t))[r])) == Ok::<Seq<Seq<char>>, ()>(t.rows[r]),
{
    lemma_text_accepts(t);
    lemma_text_widths(t);
    let w = widths(t);
    let row = t.rows[r];
    let seg = row_segs(t.rows, w)[r];
    assert(seg == row_cells(row, w, row.len()));
    assert forall|i: int| 0 <= i < row.len() implies cell_ok(#[trigger] row[i]) && w[i] >= ulen(
        render_cell(row[i]),
    ) + 1 by {
        assert(t.rows[r][i] == row[i]);
        assert(row[i].len() > 0);
        if contains_char(row[i], '"') {
            assert(any_quote(t));
        }
    }
    lemma_tok_row(row, w, row.len());
    assert(row.take(row.len() as int) =~= row);
    assert(tok_start() == gap(seq![]));
    lemma_tok_trailing(seg, row);
    if trim_end(seg).len() == 0 {
        assert(trim_end(seg) =~= Seq::<char>::empty());
        lemma_tokenize_empty();
        assert(row.len() >= 2);
    }
    assert forall|i: int| 0 <= i < row.len() implies no_newline(#[trigger] row[i]) by {
        assert(t.rows[r][i] == row[i]);
    }
    lemma_no_nl_row(row, w, row.len());
}

pub open spec fn prefix_lines(d: Option<Seq<char>>) -> Seq<Seq<char>> {
    match d {
        Some(v) => seq![text_signature(), trim_end(default_tag_out() + v)],
        None => seq![text_signature()],
    }
}

proof fn lemma_no_nl_literal(s: Seq<char>)
    requires
        forall|i: int| 0 <= i < s.len() ==> #[trigger] s[i] != '\n',
    ensures
        no_newline(s),
{
}

proof fn lemma_prefix_kept(d: Option<Seq<char>>)
    requires
        d matches Some(v) ==> trim(v) == v && no_newline(v),
    ensures
        kept_lines(prefix_segs(d)) == prefix_lines(d),
        forall|i: int| 0 <= i < prefix_segs(d).len() ==> no_newline(#[trigger] prefix_segs(d)[i]),
{
    let sig = text_signature();
    let e = Seq::<char>::empty();
    assert(!is_ws(sig.last()));
    assert(trim_end(sig) == sig);
    assert(trim_end(e) == e);
    assert(seq![sig].drop_last() =~= Seq::<Seq<char>>::empty());
    assert(kept_lines(Seq::<Seq<char>>::empty()) == Seq::<Seq<char>>::empty());
    assert(seq![sig].last() == sig);
    assert(sig.len() > 0);
    assert(push_line(Seq::<Seq<char>>::empty(), sig) =~= seq![sig]);
    assert(kept_lines(seq![sig]) =~= seq![sig]);
    assert(seq![sig, e].drop_last() =~= seq![sig]);
    assert(kept_lines(seq![sig, e]) =~= seq![sig]);
    lemma_no_nl_literal(sig);
    lemma_no_nl_literal(e);
    match d {
        Some(v) => {
            let dl = default_tag_out() + v;
            lemma_default_line(v);
            lemma_no_nl_literal(default_tag_out());
            lemma_no_nl_concat(default_tag_out(), v);
            assert(seq![sig, e, dl].drop_last() =~= seq![sig, e]);
            assert(kept_lines(seq![sig, e, dl]) =~= seq![sig, trim_end(dl)]);
            assert(seq![sig, e, dl, e].drop_last() =~= seq![sig, e, dl]);
            assert(kept_lines(seq![sig, e, dl, e]) =~= seq![sig, trim_end(dl)]);
            assert forall|i: int| 0 <= i < prefix_segs(d).len() implies no_newline(
                #[trigger] prefix_segs(d)[i],
            ) by {
                assert(prefix_segs(d) == seq![sig, e, dl, e]);
            }
        },
        None => {
            assert forall|i: int| 0 <= i < prefix_segs(d).len() implies no_newline(
                #[trigger] prefix_segs(d)[i],
            ) by {
                assert(prefix_segs(d) == seq![sig, e]);
            }
        },
    }
}

/// The lines that `parse` finds in what `to_text` writes.
proof fn lemma_text_lines_of(t: TableView)
    requires
        to_text_spec(t) is Ok,
        text_readable(t),
    ensures
        text_lines(render_text(t)) == prefix_lines(t.default_value) + (seq![
            trim_end(header_seg(t)),
        ] + trimmed_all(row_segs(t.rows, widths(t)))),
{
    let pre = prefix_segs(t.default_value);
    let h = header_seg(t);
    let rs = row_segs(t.rows, widths(t));
    let body = seq![h] + rs;
    lemma_text_layout(t);
    lemma_prefix_kept(t.default_value);
    lemma_text_header(t);
    assert forall|i: int| 0 <= i < body.len() implies no_newline(#[trigger] body[i]) && trim_end(
        body[i],
    ).len() > 0 by {
        if i > 0 {
            assert(body[i] == rs[i - 1]);
            lemma_text_row(t, i - 1);
        }
    }
    let segs = text_segs(t);
    assert forall|i: int| 0 <= i < segs.len() implies no_newline(#[trigger] segs[i]) by {
        if i < pre.len() {
            assert(segs[i] == pre[i]);
        } else {
            assert(segs[i] == body[i - pre.len()]);
        }
    }
    lemma_text_lines(segs);
    lemma_kept_append(pre, body);
    assert(trimmed_all(body) =~= seq![trim_end(h)] + trimmed_all(rs));
}

proof fn lemma_encode_concat(a: Seq<char>, b: Seq<char>)
    ensures
        encode_utf8(a + b) == encode_utf8(a) + encode_utf8(b),
    decreases a.len(),
{
    if a.len() == 0 {
        assert(a + b =~= b);
        assert(encode_utf8(a) == Seq::<u8>::empty());
        assert(encode_utf8(a) + encode_utf8(b) =~= encode_utf8(b));
    } else {
        assert((a + b)[0] == a[0]);
        assert((a + b).drop_first() =~= a.drop_first() + b);
        lemma_encode_concat(a.drop_first(), b);
        assert(encode_utf8(a + b) =~= encode_utf8(a) + encode_utf8(b));
    }
}

/// The bytes of a text table do not start with the binary signature.
proof fn lemma_text_not_binary(rest: Seq<char>)
    ensures
        !(encode_utf8(text_signature() + rest).len() >= 9 && encode_utf8(text_signature() + rest).take(9)
            == binary_signature_bytes()),
{
    let sig = text_signature();
    lemma_encode_concat(sig, rest);
    assert(vstd::utf8::is_ascii_chars(sig));
    vstd::utf8::is_ascii_chars_encode_utf8(sig);
    let data = encode_utf8(sig + rest);
    assert(sig[7] == '0');
    assert(encode_utf8(sig)[7] == sig[7] as u8);
    assert(('0' as u8) == 48u8);
    assert(data[7] == encode_utf8(sig)[7]);
    if data.len() >= 9 && data.take(9) == binary_signature_bytes() {
        assert(data.take(9)[7] == data[7]);
        assert(binary_signature_bytes()[7] == 0x2eu8 || binary_signature_bytes()[7] == 0x62u8);
    }
}

/// Law: a text table that `to_text` writes reads back unchanged, with `parse`
/// and with `read` on what `write` gives, whenever it is `text_readable`.
pub proof fn lemma_text_round_trip(t: TableView)
    requires
        t.format == TwoDaFormat::Text,
        to_text_spec(t) is Ok,
        text_readable(t),
    ensures
        parse_text(to_text_spec(t)->Ok_0) == Ok::<TableView, TwoDaError>(t),
        read_spec(write_spec(t)->Ok_0) == Ok::<TableView, TwoDaError>(t),
{
    lemma_text_accepts(t);
    lemma_text_lines_of(t);
    lemma_text_header(t);
    let text = render_text(t);
    let lines = text_lines(text);
    let h = trim_end(header_seg(t));
    let rs = row_segs(t.rows, widths(t));
    let body = trimmed_all(rs);
    let names = t.columns.skip(1);
    let sig = text_signature();
    assert(lines[0] == sig);
    assert(trim_end(sig) == sig);
    assert(trim_start(sig) == sig);
    assert(trim(lines[0]) == sig);
    assert(eq_ignore_ascii_case(sig, sig));
    assert forall|j: int| 0 <= j < t.rows.len() implies tokenize_spec(#[trigger] body[j]) == Ok::<
        Seq<Seq<char>>,
        (),
    >(t.rows[j]) && t.rows[j].len() == names.len() + 1 by {
        lemma_text_row(t, j);
    }
    lemma_parse_rows(body, t.rows, names.len() + 1, 0);
    assert(t.rows.subrange(0, t.rows.len() as int) =~= t.rows);
    assert(t.columns =~= seq![row_tag()] + names);
    assert(parse_body(t.default_value, h, body) == Ok::<TableView, TwoDaError>(t));
    match t.default_value {
        Some(v) => {
            lemma_default_line(v);
            assert(lines[1] == trim_end(default_tag_out() + v));
            assert(lines[2] == h);
            assert(lines.skip(3) =~= body);
        },
        None => {
            assert(lines[1] == h);
            assert(lines.skip(2) =~= body);
        },
    }
    assert(parse_text(text) == Ok::<TableView, TwoDaError>(t));
    assert(text =~= sig + text.skip(8)) by {
        assert(text.take(8) =~= sig);
    }
    lemma_text_not_binary(text.skip(8));
    vstd::utf8::encode_utf8_valid_utf8(text);
    vstd::utf8::encode_utf8_decode_utf8(text);
}

// ---------------------------------------------------------------------------
// Values written on one line.
/// Each value as `quoted` writes it.
pub open spec fn rendered(vs: Seq<Seq<char>>) -> Seq<Seq<char>> {
    vs.map_values(|v: Seq<char>| render_cell(v))
}

proof fn lemma_rendered_spaced(vs: Seq<Seq<char>>)
    requires
        vs.len() > 0,
        forall|i: int| 0 <= i < vs.len() ==> cell_ok(#[trigger] vs[i]),
    ensures
        tok_run(gap(seq![]), join(rendered(vs), seq![' ']) + seq![' ']) == gap(vs),
    decreases vs.len(),
{
    let p = vs.drop_last();
    let v = vs.last();
    assert(cell_ok(vs[vs.len() - 1]));
    assert(is_ws(' '));
    assert(all_ws(seq![' ']));
    assert(rendered(vs).last() == render_cell(v));
    if p.len() == 0 {
        assert(join(rendered(vs), seq![' ']) == render_cell(v));
        lemma_tok_cell(seq![], v, seq![' ']);
        assert(seq![].push(v) =~= vs);
    } else {
        assert forall|i: int| 0 <= i < p.len() implies cell_ok(#[trigger] p[i]) by {
            assert(p[i] == vs[i]);
        }
        lemma_rendered_spaced(p);
        assert(rendered(vs).drop_last() =~= rendered(p));
        let jp = join(rendered(p), seq![' ']);
        assert(join(rendered(vs), seq![' ']) + seq![' '] =~= (jp + seq![' ']) + (render_cell(v)
            + seq![' ']));
        lemma_tok_run_append(gap(seq![]), jp + seq![' '], render_cell(v) + seq![' ']);
        lemma_tok_cell(p, v, seq![' ']);
        assert(p.push(v) =~= vs);
    }
}

proof fn lemma_spaced_last(vs: Seq<Seq<char>>)
    requires
        vs.len() > 0,
        forall|i: int| 0 <= i < vs.len() ==> cell_ok(#[trigger] vs[i]),
    ensures
        join(rendered(vs), seq![' ']).len() > 0,
        !is_ws(join(rendered(vs), seq![' ']).last()),
{
    let v = vs.last();
    assert(cell_ok(vs[vs.len() - 1]));
    let r = render_cell(v);
    assert(rendered(vs).last() == r);
    assert(r.len() > 0 && !is_ws(r.last())) by {
        if has_ws(v) {
            assert(r.last() == '"');
        } else {
            assert(r == v);
            if is_ws(v.last()) {
                assert(is_ws(v[v.len() - 1]));
            }
        }
    }
    if vs.len() > 1 {
        let jp = join(rendered(vs).drop_last(), seq![' ']);
        assert(join(rendered(vs), seq![' ']) == jp + seq![' '] + r);
        assert((jp + seq![' '] + r).last() == r.last());
    }
}

/// Law: values written as `quoted` writes them and joined by single spaces
/// tokenize back to the same values, when each is non-empty and holds no
/// double quote.
pub proof fn lemma_tokenize_quoted_values(vs: Seq<Seq<char>>)
    requires
        forall|i: int| 0 <= i < vs.len() ==> cell_ok(#[trigger] vs[i]),
    ensures
        forall|i: int|
            0 <= i < vs.len() ==> quoted_spec(#[trigger] vs[i]) == Ok::<Seq<char>, TwoDaError>(
                rendered(vs)[i],
            ),
        tokenize_spec(join(rendered(vs), seq![' '])) == Ok::<Seq<Seq<char>>, ()>(vs),
{
    if vs.len() == 0 {
        assert(join(rendered(vs), seq![' ']) =~= Seq::<char>::empty());
        assert(tok_run(tok_start(), Seq::<char>::empty()) == tok_start());
        assert(vs =~= Seq::<Seq<char>>::empty());
    } else {
        lemma_rendered_spaced(vs);
        lemma_spaced_last(vs);
        let j = join(rendered(vs), seq![' ']);
        let s = j + seq![' '];
        assert(tok_start() == gap(seq![]));
        assert(s.drop_last() =~= j);
        assert(is_ws(s.last()));
        assert(trim_end(s) == trim_end(j));
        assert(trim_end(j) == j);
        lemma_tok_trailing(s, vs);
    }
}

} // verus!
