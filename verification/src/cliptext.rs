//! The clipboard's text: copied rows written as tab-separated lines, and text
//! from other programs read back as rows.
use crate::clipboard::{ClipView, ClipboardRows};
use crate::diff::patch_views;
use crate::editing::{displayed_strref, strref_text, strref_value};
use crate::numtext::{decimal, digits, parse_u32, parse_u32_spec};
use crate::text::{
    chars_of, contains_char, is_whitespace, is_ws, push_char, push_chars, string_of, string_of_range, trim,
    trim_end, trim_end_len, trim_start,
};
use crate::tlk::{EntryView, TlkEntry};
use crate::twoda::{opt_view, row_views, str_views};
use vstd::prelude::*;

verus! {

broadcast use vstd::string::group_string_axioms;

// ---------------------------------------------------------------------------
// Joining and escaping.
/// The parts with `sep` between each two.
pub open spec fn join(parts: Seq<Seq<char>>, sep: Seq<char>) -> Seq<char>
    decreases parts.len(),
{
    if parts.len() == 0 {
        seq![]
    } else if parts.len() == 1 {
        parts[0]
    } else {
        join(parts.drop_last(), sep) + sep + parts.last()
    }
}

/// How one character of an entry's text is written on the clipboard.
pub open spec fn escape_char(c: char) -> Seq<char> {
    if c == '\t' {
        seq!['\\', 't']
    } else if c == '\n' {
        seq!['\\', 'n']
    } else {
        seq![c]
    }
}

/// An entry's text on the clipboard: tabs and newlines as `\t` and `\n`.
pub open spec fn escaped(s: Seq<char>) -> Seq<char>
    decreases s.len(),
{
    if s.len() == 0 {
        seq![]
    } else {
        escaped(s.drop_last()) + escape_char(s.last())
    }
}

/// `s` with each `\` followed by `x` replaced by `to`, left to right.
pub open spec fn replace_pair(s: Seq<char>, x: char, to: char) -> Seq<char>
    decreases s.len(),
{
    if s.len() < 2 {
        s
    } else if s[0] == '\\' && s[1] == x {
        seq![to] + replace_pair(s.skip(2), x, to)
    } else {
        seq![s[0]] + replace_pair(s.skip(1), x, to)
    }
}

/// Clipboard text read back as an entry's text: `\n` and then `\t` replaced
/// by a newline and a tab.
pub open spec fn unescaped(s: Seq<char>) -> Seq<char> {
    replace_pair(replace_pair(s, 'n', '\n'), 't', '\t')
}

/// One copied entry as a line: its string reference as the editor shows it,
/// its flags, its sound, its sound length as written by the caller, and its
/// escaped text, separated by tabs.
pub open spec fn tlk_line(row: usize, e: EntryView, length: Seq<char>, user: bool, hex: bool) -> Seq<
    char,
> {
    join(
        seq![
            strref_text(row, user, hex),
            digits(e.flags as nat, 10),
            e.sound_resref,
            length,
            escaped(e.text),
        ],
        seq!['\t'],
    )
}

/// The text put on the clipboard for what was copied: a line per entry or
/// row, and values separated by tabs. `lengths` holds each copied entry's
/// sound length as text.
pub open spec fn clip_text(c: ClipView, lengths: Seq<Seq<char>>, user: bool, hex: bool) -> Seq<char> {
    match c {
        ClipView::Tlk(rows) => join(
            Seq::new(rows.len(), |i: int| tlk_line(rows[i].0, rows[i].1, lengths[i], user, hex)),
            seq!['\n'],
        ),
        ClipView::TwoDa(rows) => join(
            rows.map_values(|r: Seq<Seq<char>>| join(r, seq!['\t'])),
            seq!['\n'],
        ),
        ClipView::TwoDaCells(cells) => join(
            cells.map_values(|p: (usize, Seq<char>)| p.1),
            seq!['\t'],
        ),
    }
}

pub proof fn lemma_str_views_push(v: Seq<String>, s: String)
    ensures
        str_views(v.push(s)) == str_views(v).push(s@),
{
    assert(str_views(v.push(s)) =~= str_views(v).push(s@));
}

fn push_str(out: &mut String, s: &str)
    ensures
        final(out)@ == old(out)@ + s@,
{
    let v = chars_of(s);
    push_chars(out, v.as_slice());
}

/// The parts with `sep` between each two (see `join`).
pub fn join_with(parts: &Vec<String>, sep: char) -> (r: String)
    ensures
        r@ == join(str_views(parts@), seq![sep]),
{
    let mut out = String::new();
    let mut i: usize = 0;
    while i < parts.len()
        invariant
            i <= parts@.len(),
            out@ == join(str_views(parts@).take(i as int), seq![sep]),
        decreases parts@.len() - i,
    {
        let ghost before = out@;
        if i > 0 {
            push_char(&mut out, sep);
        }
        push_str(&mut out, parts[i].as_str());
        proof {
            let p = str_views(parts@);
            assert(p.take(i + 1).drop_last() =~= p.take(i as int));
            assert(p[i as int] == parts@[i as int]@);
            if i == 0 {
                assert(out@ =~= p.take(1)[0]);
            } else {
                assert(out@ =~= before + seq![sep] + p[i as int]);
            }
        }
        i = i + 1;
    }
    proof {
        assert(str_views(parts@).take(parts@.len() as int) =~= str_views(parts@));
    }
    out
}

/// An entry's text with tabs and newlines escaped (see `escaped`).
pub fn escape_text(text: &str) -> (r: String)
    ensures
        r@ == escaped(text@),
{
    let v = chars_of(text);
    let mut out = String::new();
    let mut i: usize = 0;
    while i < v.len()
        invariant
            i <= v@.len(),
            v@ == text@,
            out@ == escaped(v@.take(i as int)),
        decreases v@.len() - i,
    {
        let c = v[i];
        let ghost before = out@;
        if c == '\t' {
            push_char(&mut out, '\\');
            push_char(&mut out, 't');
        } else if c == '\n' {
            push_char(&mut out, '\\');
            push_char(&mut out, 'n');
        } else {
            push_char(&mut out, c);
        }
        proof {
            assert(v@.take(i + 1).drop_last() =~= v@.take(i as int));
            assert(out@ =~= before + escape_char(c));
        }
        i = i + 1;
    }
    proof {
        assert(v@.take(v@.len() as int) =~= v@);
    }
    out
}

fn replace_pair_chars(v: &Vec<char>, x: char, to: char) -> (r: Vec<char>)
    ensures
        r@ == replace_pair(v@, x, to),
{
    let mut out: Vec<char> = Vec::new();
    let mut i: usize = 0;
    assert(v@.skip(0) =~= v@);
    assert(out@ + v@ =~= v@);
    while i < v.len()
        invariant
            i <= v@.len(),
            out@ + replace_pair(v@.skip(i as int), x, to) == replace_pair(v@, x, to),
        decreases v@.len() - i,
    {
        let ghost rest = v@.skip(i as int);
        if i + 1 < v.len() && v[i] == '\\' && v[i + 1] == x {
            out.push(to);
            proof {
                assert(rest.skip(2) =~= v@.skip(i + 2));
                assert(out@ + replace_pair(v@.skip(i + 2), x, to) =~= out@.drop_last() + replace_pair(
                    rest,
                    x,
                    to,
                ));
            }
            i = i + 2;
        } else {
            out.push(v[i]);
            proof {
                assert(rest.skip(1) =~= v@.skip(i + 1));
                assert(out@ + replace_pair(v@.skip(i + 1), x, to) =~= out@.drop_last() + replace_pair(
                    rest,
                    x,
                    to,
                ));
            }
            i = i + 1;
        }
    }
    proof {
        assert(v@.skip(i as int) =~= Seq::<char>::empty());
        assert(out@ + Seq::<char>::empty() =~= out@);
    }
    out
}

/// Clipboard text read back as an entry's text (see `unescaped`).
pub fn unescape_text(text: &str) -> (r: String)
    ensures
        r@ == unescaped(text@),
{
    let v = chars_of(text);
    let a = replace_pair_chars(&v, 'n', '\n');
    let b = replace_pair_chars(&a, 't', '\t');
    string_of(b.as_slice())
}

/// The text for what was copied (see `clip_text`). `lengths` holds each
/// copied entry's sound length as text.
pub fn clipboard_text(clip: &ClipboardRows, user: bool, hex: bool, lengths: &Vec<String>) -> (r: String)
    requires
        clip@ matches ClipView::Tlk(rows) ==> lengths@.len() == rows.len() && forall|i: int|
            0 <= i < rows.len() ==> strref_value(#[trigger] rows[i].0, user) <= u32::MAX,
    ensures
        r@ == clip_text(clip@, str_views(lengths@), user, hex),
{
    match clip {
        ClipboardRows::Tlk(rows) => {
            let ghost pv = patch_views(rows@);
            let mut lines: Vec<String> = Vec::new();
            let mut i: usize = 0;
            while i < rows.len()
                invariant
                    i <= rows@.len(),
                    pv == patch_views(rows@),
                    clip@ == ClipView::Tlk(pv),
                    lengths@.len() == rows@.len(),
                    forall|i: int| 0 <= i < pv.len() ==> strref_value(#[trigger] pv[i].0, user) <= u32::MAX,
                    str_views(lines@) == Seq::new(
                        i as nat,
                        |j: int| tlk_line(pv[j].0, pv[j].1, str_views(lengths@)[j], user, hex),
                    ),
                decreases rows@.len() - i,
            {
                let (row, entry) = (rows[i].0, &rows[i].1);
                assert(pv[i as int] == (row, entry@));
                assert(strref_value(pv[i as int].0, user) <= u32::MAX);
                let mut parts: Vec<String> = Vec::new();
                parts.push(displayed_strref(row, user, hex));
                parts.push(decimal(entry.flags as u64));
                parts.push(entry.sound_resref.clone());
                parts.push(lengths[i].clone());
                parts.push(escape_text(entry.text.as_str()));
                let line = join_with(&parts, '\t');
                let ghost prev = lines@;
                lines.push(line);
                proof {
                    assert(str_views(lengths@)[i as int] == lengths@[i as int]@);
                    assert(str_views(parts@) =~= seq![
                        strref_text(row, user, hex),
                        digits(entry@.flags as nat, 10),
                        entry@.sound_resref,
                        str_views(lengths@)[i as int],
                        escaped(entry@.text),
                    ]);
                    assert(lines@ == prev.push(line));
                    lemma_str_views_push(prev, line);
                    assert(str_views(lines@) =~= Seq::new(
                        (i + 1) as nat,
                        |j: int| tlk_line(pv[j].0, pv[j].1, str_views(lengths@)[j], user, hex),
                    ));
                }
                i = i + 1;
            }
            join_with(&lines, '\n')
        },
        ClipboardRows::TwoDa(rows) => {
            let mut lines: Vec<String> = Vec::new();
            let mut i: usize = 0;
            while i < rows.len()
                invariant
                    i <= rows@.len(),
                    str_views(lines@) == row_views(rows@).take(i as int).map_values(
                        |r: Seq<Seq<char>>| join(r, seq!['\t']),
                    ),
                decreases rows@.len() - i,
            {
                let line = join_with(&rows[i], '\t');
                let ghost prev = lines@;
                lines.push(line);
                proof {
                    assert(row_views(rows@)[i as int] == str_views(rows@[i as int]@));
                    assert(lines@ == prev.push(line));
                    lemma_str_views_push(prev, line);
                    assert(row_views(rows@).take(i + 1) =~= row_views(rows@).take(i as int).push(
                        row_views(rows@)[i as int],
                    ));
                    assert(str_views(lines@) =~= row_views(rows@).take(i + 1).map_values(
                        |r: Seq<Seq<char>>| join(r, seq!['\t']),
                    ));
                }
                i = i + 1;
            }
            proof {
                assert(row_views(rows@).take(rows@.len() as int) =~= row_views(rows@));
            }
            join_with(&lines, '\n')
        },
        ClipboardRows::TwoDaCells(cells) => {
            let mut values: Vec<String> = Vec::new();
            let mut i: usize = 0;
            while i < cells.len()
                invariant
                    i <= cells@.len(),
                    str_views(values@) == Seq::new(i as nat, |j: int| cells@[j].1@),
                decreases cells@.len() - i,
            {
                let v = cells[i].1.clone();
                let ghost prev = values@;
                values.push(v);
                proof {
                    assert(values@ == prev.push(v));
                    lemma_str_views_push(prev, v);
                    assert(str_views(values@) =~= Seq::new((i + 1) as nat, |j: int| cells@[j].1@));
                }
                i = i + 1;
            }
            proof {
                assert(str_views(values@) =~= crate::clipboard::cell_views(cells@).map_values(
                    |p: (usize, Seq<char>)| p.1,
                ));
            }
            join_with(&values, '\t')
        },
    }
}

// ---------------------------------------------------------------------------
// Reading text from other programs.
/// The pieces of `s` between the separators (`str::split`).
pub open spec fn split_on(s: Seq<char>, sep: char) -> Seq<Seq<char>>
    decreases s.len(),
{
    if s.len() == 0 {
        seq![seq![]]
    } else {
        let prev = split_on(s.drop_last(), sep);
        if s.last() == sep {
            prev.push(seq![])
        } else {
            prev.update(prev.len() - 1, prev.last().push(s.last()))
        }
    }
}

pub proof fn lemma_split_on_len(s: Seq<char>, sep: char)
    ensures
        split_on(s, sep).len() >= 1,
    decreases s.len(),
{
    if s.len() > 0 {
        lemma_split_on_len(s.drop_last(), sep);
    }
}

/// `k` is the position of the first `c` in `s`.
pub open spec fn is_first(s: Seq<char>, c: char, k: int) -> bool {
    &&& 0 <= k < s.len()
    &&& s[k] == c
    &&& forall|j: int| 0 <= j < k ==> s[j] != c
}

/// The position of the first `c` in `s`, if any.
pub open spec fn first_index(s: Seq<char>, c: char) -> Option<int> {
    if exists|k: int| is_first(s, c, k) {
        Some(choose|k: int| is_first(s, c, k))
    } else {
        None
    }
}

/// At most `n` pieces of `s` between the separators, the last piece holding
/// the rest (`str::splitn`, for `n` at least 1).
pub open spec fn split_n(s: Seq<char>, n: nat, sep: char) -> Seq<Seq<char>>
    decreases n,
{
    if n <= 1 {
        seq![s]
    } else {
        match first_index(s, sep) {
            Some(k) => seq![s.take(k)] + split_n(s.skip(k + 1), (n - 1) as nat, sep),
            None => seq![s],
        }
    }
}

/// A line without the carriage return of a `\r\n` ending.
pub open spec fn strip_cr(s: Seq<char>) -> Seq<char> {
    if s.len() > 0 && s.last() == '\r' {
        s.drop_last()
    } else {
        s
    }
}

/// The lines of `s` (`str::lines`): split at newlines, a carriage return
/// before a newline dropped, and no empty line after a final newline.
pub open spec fn lines(s: Seq<char>) -> Seq<Seq<char>> {
    let pieces = split_on(s, '\n');
    let ended = pieces.take(pieces.len() - 1).map_values(|p: Seq<char>| strip_cr(p));
    if pieces.last().len() == 0 {
        ended
    } else {
        ended.push(pieces.last())
    }
}

/// The runs of non-whitespace characters of `s` (`str::split_whitespace`).
pub open spec fn words(s: Seq<char>) -> Seq<Seq<char>>
    decreases s.len(),
{
    if s.len() == 0 {
        seq![]
    } else {
        let prev = words(s.drop_last());
        if is_ws(s.last()) {
            prev
        } else if s.len() >= 2 && !is_ws(s[s.len() - 2]) {
            prev.update(prev.len() - 1, prev.last().push(s.last()))
        } else {
            prev.push(seq![s.last()])
        }
    }
}

pub proof fn lemma_words_nonempty(s: Seq<char>)
    requires
        s.len() > 0,
        !is_ws(s.last()),
    ensures
        words(s).len() > 0,
    decreases s.len(),
{
    if s.len() >= 2 && !is_ws(s[s.len() - 2]) {
        lemma_words_nonempty(s.drop_last());
    }
}

/// The lines that are not empty.
pub open spec fn filled_lines(ls: Seq<Seq<char>>) -> Seq<Seq<char>>
    decreases ls.len(),
{
    if ls.len() == 0 {
        seq![]
    } else if ls.last().len() > 0 {
        filled_lines(ls.drop_last()).push(ls.last())
    } else {
        filled_lines(ls.drop_last())
    }
}

/// The lines that hold something besides whitespace.
pub open spec fn text_lines(ls: Seq<Seq<char>>) -> Seq<Seq<char>>
    decreases ls.len(),
{
    if ls.len() == 0 {
        seq![]
    } else if trim(ls.last()).len() > 0 {
        text_lines(ls.drop_last()).push(ls.last())
    } else {
        text_lines(ls.drop_last())
    }
}

/// A line of talk-table text read back as an entry, with its sound length
/// as text: five tab-separated fields give the flags (1 when they are not a
/// number), the sound and the escaped text; any other line is the text of an
/// entry whose flags are 1.
pub open spec fn tlk_line_entry(line: Seq<char>) -> (EntryView, Option<Seq<char>>) {
    let parts = split_n(line, 5, '\t');
    if parts.len() == 5 {
        (
            EntryView {
                flags: match parse_u32_spec(parts[1], 10) {
                    Some(f) => f,
                    None => 1,
                },
                sound_resref: parts[2],
                volume_variance: 0,
                pitch_variance: 0,
                sound_length_bits: 0,
                text: unescaped(parts[4]),
            },
            Some(parts[3]),
        )
    } else {
        (
            EntryView {
                flags: 1,
                sound_resref: seq![],
                volume_variance: 0,
                pitch_variance: 0,
                sound_length_bits: 0,
                text: line,
            },
            None,
        )
    }
}

/// Talk-table text from another program read back: an entry for each
/// non-empty line, numbered from 0, with its sound length as text.
pub open spec fn tlk_clipboard(s: Seq<char>) -> Seq<(usize, EntryView, Option<Seq<char>>)> {
    let ls = filled_lines(lines(s));
    Seq::new(ls.len(), |i: int| (i as usize, tlk_line_entry(ls[i]).0, tlk_line_entry(ls[i]).1))
}

pub open spec fn pasted_views(v: Seq<(usize, TlkEntry, Option<String>)>) -> Seq<
    (usize, EntryView, Option<Seq<char>>),
> {
    v.map_values(|p: (usize, TlkEntry, Option<String>)| (p.0, p.1@, opt_view(p.2)))
}

/// A line of table text read back as a row: its tab-separated values when it
/// holds a tab, else its whitespace-separated words.
pub open spec fn table_line_row(line: Seq<char>) -> Seq<Seq<char>> {
    if contains_char(line, '\t') {
        split_on(line, '\t')
    } else {
        words(line)
    }
}

/// Table text from another program read back: a row for each line that holds
/// something besides whitespace.
pub open spec fn twoda_clipboard(s: Seq<char>) -> Seq<Seq<Seq<char>>> {
    text_lines(lines(s)).map_values(|l: Seq<char>| table_line_row(l))
}

/// The pieces of `s` between the separators (see `split_on`).
pub fn split_all(s: &str, sep: char) -> (r: Vec<String>)
    ensures
        str_views(r@) == split_on(s@, sep),
{
    let v = chars_of(s);
    let mut out: Vec<String> = Vec::new();
    let mut cur: Vec<char> = Vec::new();
    let mut i: usize = 0;
    proof {
        assert(v@.take(0) =~= Seq::<char>::empty());
        assert(str_views(out@).push(cur@) =~= seq![Seq::<char>::empty()]);
    }
    while i < v.len()
        invariant
            i <= v@.len(),
            v@ == s@,
            str_views(out@).push(cur@) == split_on(v@.take(i as int), sep),
        decreases v@.len() - i,
    {
        let c = v[i];
        proof {
            assert(v@.take(i + 1).drop_last() =~= v@.take(i as int));
        }
        if c == sep {
            let piece = string_of(cur.as_slice());
            let ghost prev = out@;
            out.push(piece);
            cur = Vec::new();
            proof {
                lemma_str_views_push(prev, piece);
                assert(str_views(out@).push(cur@) =~= split_on(v@.take(i as int), sep).push(seq![]));
            }
        } else {
            let ghost before = cur@;
            cur.push(c);
            proof {
                let prev = split_on(v@.take(i as int), sep);
                assert(str_views(out@).push(cur@) =~= prev.update(prev.len() - 1, prev.last().push(c)));
            }
        }
        i = i + 1;
    }
    let piece = string_of(cur.as_slice());
    let ghost prev = out@;
    out.push(piece);
    proof {
        lemma_str_views_push(prev, piece);
        assert(v@.take(v@.len() as int) =~= v@);
    }
    out
}

/// The first `c` at or after `from`.
fn find_from(v: &Vec<char>, from: usize, c: char) -> (r: Option<usize>)
    requires
        from <= v@.len(),
    ensures
        match r {
            Some(k) => from <= k < v@.len() && first_index(v@.skip(from as int), c) == Some(k - from),
            None => first_index(v@.skip(from as int), c) is None,
        },
{
    let ghost s = v@.skip(from as int);
    let mut i = from;
    while i < v.len()
        invariant
            from <= i <= v@.len(),
            s == v@.skip(from as int),
            forall|j: int| 0 <= j < i - from ==> s[j] != c,
        decreases v@.len() - i,
    {
        if v[i] == c {
            proof {
                let k = (i - from) as int;
                assert(s[k] == c);
                assert(is_first(s, c, k));
                let m = choose|m: int| is_first(s, c, m);
                assert(is_first(s, c, m));
                if m < k {
                    assert(s[m] != c);
                }
                if m > k {
                    assert(s[k] != c);
                }
            }
            return Some(i);
        }
        i = i + 1;
    }
    proof {
        assert forall|k: int| !is_first(s, c, k) by {
            if 0 <= k < s.len() {
                assert(s[k] != c);
            }
        }
    }
    None
}

fn split_n_from(v: &Vec<char>, from: usize, n: usize, sep: char) -> (r: Vec<String>)
    requires
        from <= v@.len(),
        n >= 1,
    ensures
        str_views(r@) == split_n(v@.skip(from as int), n as nat, sep),
    decreases n,
{
    proof {
        assert(v@.subrange(from as int, v@.len() as int) =~= v@.skip(from as int));
    }
    if n <= 1 {
        let piece = string_of_range(v.as_slice(), from, v.len());
        let r = vec![piece];
        assert(str_views(r@) =~= seq![piece@]);
        return r;
    }
    match find_from(v, from, sep) {
        None => {
            let piece = string_of_range(v.as_slice(), from, v.len());
            let r = vec![piece];
            assert(str_views(r@) =~= seq![piece@]);
            r
        },
        Some(k) => {
            let piece = string_of_range(v.as_slice(), from, k);
            assert(k < v.len());
            let rest = split_n_from(v, k + 1, n - 1, sep);
            let mut r = vec![piece];
            let ghost rest_views = str_views(rest@);
            let mut j: usize = 0;
            assert(str_views(r@) =~= seq![piece@]);
            while j < rest.len()
                invariant
                    j <= rest@.len(),
                    rest_views == str_views(rest@),
                    str_views(r@) == seq![piece@] + rest_views.take(j as int),
                decreases rest@.len() - j,
            {
                let x = rest[j].clone();
                let ghost prev = r@;
                r.push(x);
                proof {
                    lemma_str_views_push(prev, x);
                    assert(rest_views[j as int] == rest@[j as int]@);
                    assert(seq![piece@] + rest_views.take(j + 1) =~= (seq![piece@] + rest_views.take(
                        j as int,
                    )).push(x@));
                }
                j = j + 1;
            }
            proof {
                let s = v@.skip(from as int);
                assert(rest_views.take(rest@.len() as int) =~= rest_views);
                assert(s.take(k - from) =~= v@.subrange(from as int, k as int));
                assert(s.skip(k - from + 1) =~= v@.skip(k + 1));
            }
            r
        },
    }
}

/// At most `n` pieces of `s` between the separators (see `split_n`).
pub fn split_fields(s: &str, n: usize, sep: char) -> (r: Vec<String>)
    requires
        n >= 1,
    ensures
        str_views(r@) == split_n(s@, n as nat, sep),
{
    let v = chars_of(s);
    assert(v@.skip(0) =~= v@);
    split_n_from(&v, 0, n, sep)
}

/// The lines of `s` (see `lines`).
pub fn lines_of(s: &str) -> (r: Vec<String>)
    ensures
        str_views(r@) == lines(s@),
{
    let pieces = split_all(s, '\n');
    let ghost pv = str_views(pieces@);
    proof {
        lemma_split_on_len(s@, '\n');
    }
    let last = pieces.len() - 1;
    let mut out: Vec<String> = Vec::new();
    let mut i: usize = 0;
    while i < last
        invariant
            i <= last,
            last == pieces@.len() - 1,
            pv == str_views(pieces@),
            str_views(out@) == pv.take(i as int).map_values(|p: Seq<char>| strip_cr(p)),
        decreases last - i,
    {
        let v = chars_of(pieces[i].as_str());
        let line = if v.len() > 0 && v[v.len() - 1] == '\r' {
            string_of_range(v.as_slice(), 0, v.len() - 1)
        } else {
            string_of(v.as_slice())
        };
        let ghost prev = out@;
        out.push(line);
        proof {
            lemma_str_views_push(prev, line);
            assert(pv[i as int] == pieces@[i as int]@);
            assert(v@.subrange(0, v@.len() - 1) =~= v@.drop_last());
            assert(pv.take(i + 1).map_values(|p: Seq<char>| strip_cr(p)) =~= pv.take(i as int).map_values(
                |p: Seq<char>| strip_cr(p),
            ).push(strip_cr(pv[i as int])));
        }
        i = i + 1;
    }
    let tail = chars_of(pieces[last].as_str());
    proof {
        assert(pv.last() == pieces@[last as int]@);
    }
    if tail.len() > 0 {
        let line = string_of(tail.as_slice());
        let ghost prev = out@;
        out.push(line);
        proof {
            lemma_str_views_push(prev, line);
        }
    }
    out
}

/// The runs of non-whitespace characters of `s` (see `words`).
pub fn split_words(s: &str) -> (r: Vec<String>)
    ensures
        str_views(r@) == words(s@),
{
    let v = chars_of(s);
    let mut out: Vec<String> = Vec::new();
    let mut cur: Vec<char> = Vec::new();
    let mut in_word = false;
    let mut i: usize = 0;
    proof {
        assert(v@.take(0) =~= Seq::<char>::empty());
    }
    while i < v.len()
        invariant
            i <= v@.len(),
            v@ == s@,
            in_word == (i > 0 && !is_ws(v@[i - 1])),
            in_word ==> words(v@.take(i as int)).len() > 0,
            in_word ==> str_views(out@).push(cur@) == words(v@.take(i as int)),
            !in_word ==> str_views(out@) == words(v@.take(i as int)),
        decreases v@.len() - i,
    {
        let c = v[i];
        proof {
            assert(v@.take(i + 1).drop_last() =~= v@.take(i as int));
            assert(v@.take(i + 1).last() == c);
            if i > 0 {
                assert(v@.take(i + 1)[i - 1] == v@[i - 1]);
            }
        }
        if is_whitespace(c) {
            if in_word {
                let piece = string_of(cur.as_slice());
                let ghost prev = out@;
                out.push(piece);
                cur = Vec::new();
                proof {
                    lemma_str_views_push(prev, piece);
                }
            }
            in_word = false;
        } else {
            if in_word {
                let ghost before = cur@;
                cur.push(c);
                proof {
                    let w = words(v@.take(i as int));
                    assert(str_views(out@).push(cur@) =~= w.update(w.len() - 1, w.last().push(c)));
                }
            } else {
                cur = Vec::new();
                cur.push(c);
                proof {
                    assert(str_views(out@).push(cur@) =~= words(v@.take(i as int)).push(seq![c]));
                }
            }
            proof {
                lemma_words_nonempty(v@.take(i + 1));
            }
            in_word = true;
        }
        i = i + 1;
    }
    if in_word {
        let piece = string_of(cur.as_slice());
        let ghost prev = out@;
        out.push(piece);
        proof {
            lemma_str_views_push(prev, piece);
        }
    }
    proof {
        assert(v@.take(v@.len() as int) =~= v@);
    }
    out
}

/// A line of talk-table text read back (see `tlk_line_entry`).
fn parse_tlk_line(line: &str) -> (r: (TlkEntry, Option<String>))
    ensures
        (r.0@, opt_view(r.1)) == tlk_line_entry(line@),
{
    let parts = split_fields(line, 5, '\t');
    if parts.len() == 5 {
        let flags = match parse_u32(parts[1].as_str(), 10) {
            Some(f) => f,
            None => 1,
        };
        let entry = TlkEntry {
            flags,
            sound_resref: parts[2].clone(),
            volume_variance: 0,
            pitch_variance: 0,
            sound_length_bits: 0,
            text: unescape_text(parts[4].as_str()),
        };
        proof {
            assert(str_views(parts@)[1] == parts@[1]@);
            assert(str_views(parts@)[2] == parts@[2]@);
            assert(str_views(parts@)[3] == parts@[3]@);
            assert(str_views(parts@)[4] == parts@[4]@);
        }
        (entry, Some(parts[3].clone()))
    } else {
        let v = chars_of(line);
        let entry = TlkEntry {
            flags: 1,
            sound_resref: String::new(),
            volume_variance: 0,
            pitch_variance: 0,
            sound_length_bits: 0,
            text: string_of(v.as_slice()),
        };
        (entry, None)
    }
}

/// Talk-table text from another program read back (see `tlk_clipboard`).
/// Each entry comes with its sound length as text, for the caller to read.
pub fn parse_tlk_clipboard(text: &str) -> (r: Vec<(usize, TlkEntry, Option<String>)>)
    ensures
        pasted_views(r@) == tlk_clipboard(text@),
{
    let ls = lines_of(text);
    let ghost lv = str_views(ls@);
    let mut out: Vec<(usize, TlkEntry, Option<String>)> = Vec::new();
    let mut i: usize = 0;
    while i < ls.len()
        invariant
            i <= ls@.len(),
            lv == str_views(ls@),
            out@.len() == filled_lines(lv.take(i as int)).len(),
            out@.len() <= i,
            pasted_views(out@) == Seq::new(
                filled_lines(lv.take(i as int)).len(),
                |j: int|
                    (
                        j as usize,
                        tlk_line_entry(filled_lines(lv.take(i as int))[j]).0,
                        tlk_line_entry(filled_lines(lv.take(i as int))[j]).1,
                    ),
            ),
        decreases ls@.len() - i,
    {
        proof {
            assert(lv.take(i + 1).drop_last() =~= lv.take(i as int));
            assert(lv.take(i + 1).last() == ls@[i as int]@);
        }
        let nonempty = chars_of(ls[i].as_str()).len() > 0;
        if nonempty {
            let index = out.len();
            let (entry, length) = parse_tlk_line(ls[i].as_str());
            let ghost prev = out@;
            out.push((index, entry, length));
            proof {
                let f = filled_lines(lv.take(i + 1));
                let g = filled_lines(lv.take(i as int));
                assert(f == g.push(ls@[i as int]@));
                assert(out@ == prev.push((index, entry, length)));
                assert(pasted_views(out@) =~= pasted_views(prev).push((index, entry@, opt_view(length))));
                assert(f[g.len() as int] == ls@[i as int]@);
                assert forall|j: int| 0 <= j < g.len() implies #[trigger] f[j] == g[j] by {}
                assert(pasted_views(out@) =~= Seq::new(
                    f.len(),
                    |j: int| (j as usize, tlk_line_entry(f[j]).0, tlk_line_entry(f[j]).1),
                ));
            }
        } else {
            proof {
                assert(filled_lines(lv.take(i + 1)) == filled_lines(lv.take(i as int)));
            }
        }
        i = i + 1;
    }
    proof {
        assert(lv.take(ls@.len() as int) =~= lv);
    }
    out
}

fn has_tab(s: &str) -> (r: bool)
    ensures
        r == contains_char(s@, '\t'),
{
    let v = chars_of(s);
    let mut i: usize = 0;
    while i < v.len()
        invariant
            i <= v@.len(),
            v@ == s@,
            forall|j: int| 0 <= j < i ==> v@[j] != '\t',
        decreases v@.len() - i,
    {
        if v[i] == '\t' {
            assert(v@[i as int] == '\t');
            return true;
        }
        i = i + 1;
    }
    false
}

proof fn lemma_trim_start_empty(s: Seq<char>)
    requires
        trim_start(s).len() == 0,
    ensures
        forall|i: int| 0 <= i < s.len() ==> is_ws(s[i]),
    decreases s.len(),
{
    if s.len() > 0 {
        lemma_trim_start_empty(s.drop_first());
        assert forall|i: int| 0 <= i < s.len() implies is_ws(s[i]) by {
            if i > 0 {
                assert(s[i] == s.drop_first()[i - 1]);
            }
        }
    }
}

fn is_blank(s: &str) -> (r: bool)
    ensures
        r == (trim(s@).len() == 0),
{
    let v = chars_of(s);
    let n = trim_end_len(v.as_slice());
    proof {
        crate::text::lemma_trim_end_prefix(s@);
        let te = trim_end(s@);
        if te.len() > 0 && trim_start(te).len() == 0 {
            lemma_trim_start_empty(te);
            assert(is_ws(te[te.len() - 1]));
        }
    }
    n == 0
}

/// Table text from another program read back (see `twoda_clipboard`).
pub fn parse_twoda_clipboard(text: &str) -> (r: Vec<Vec<String>>)
    ensures
        row_views(r@) == twoda_clipboard(text@),
{
    let ls = lines_of(text);
    let ghost lv = str_views(ls@);
    let mut out: Vec<Vec<String>> = Vec::new();
    let mut i: usize = 0;
    while i < ls.len()
        invariant
            i <= ls@.len(),
            lv == str_views(ls@),
            row_views(out@) == text_lines(lv.take(i as int)).map_values(|l: Seq<char>| table_line_row(l)),
        decreases ls@.len() - i,
    {
        proof {
            assert(lv.take(i + 1).drop_last() =~= lv.take(i as int));
            assert(lv.take(i + 1).last() == ls@[i as int]@);
        }
        if !is_blank(ls[i].as_str()) {
            let row = if has_tab(ls[i].as_str()) {
                split_all(ls[i].as_str(), '\t')
            } else {
                split_words(ls[i].as_str())
            };
            let ghost prev = out@;
            out.push(row);
            proof {
                let tl = text_lines(lv.take(i + 1));
                assert(tl == text_lines(lv.take(i as int)).push(ls@[i as int]@));
                assert(row_views(out@) =~= row_views(prev).push(str_views(row@)));
                assert(row_views(out@) =~= tl.map_values(|l: Seq<char>| table_line_row(l)));
            }
        }
        i = i + 1;
    }
    proof {
        assert(lv.take(ls@.len() as int) =~= lv);
    }
    out
}

/// The text from another program to paste: the system clipboard's text,
/// when there is some and it is not the text this editor copied last.
pub fn external_clipboard(external: Option<String>, copied: &Option<String>) -> (r: Option<String>)
    ensures
        r == (match external {
            Some(t) => match copied {
                Some(c) => if t@ == c@ {
                    None
                } else {
                    Some(t)
                },
                None => Some(t),
            },
            None => None::<String>,
        }),
{
    match external {
        Some(t) => match copied {
            Some(c) => if str_eq_text(t.as_str(), c.as_str()) {
                None
            } else {
                Some(t)
            },
            None => Some(t),
        },
        None => None,
    }
}

fn str_eq_text(a: &str, b: &str) -> (r: bool)
    ensures
        r == (a@ == b@),
{
    crate::itp::str_eq(a, b)
}

} // verus!
