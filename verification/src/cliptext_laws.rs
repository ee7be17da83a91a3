//! Clipboard text read back: rows copied as text come back as the same rows.
use crate::clipboard::ClipView;
use crate::cliptext::{
    clip_text, escape_char, escaped, filled_lines, first_index, is_first, join, lines, replace_pair, split_n,
    split_on, strip_cr, table_line_row, text_lines, tlk_clipboard, tlk_line, tlk_line_entry, twoda_clipboard,
    unescaped, words,
};
use crate::editing::strref_text;
use crate::numtext::{all_digits, digit_char, digit_value, digits, digits_value, parse_u32_spec};
use crate::tlk::EntryView;
use crate::text::{contains_char, is_ws, trim};
use vstd::prelude::*;

verus! {

/// `c` occurs nowhere in the parts.
pub open spec fn free_of(parts: Seq<Seq<char>>, c: char) -> bool {
    forall|i: int| 0 <= i < parts.len() ==> !contains_char(#[trigger] parts[i], c)
}

proof fn lemma_join_free(parts: Seq<Seq<char>>, sep: char, c: char)
    requires
        free_of(parts, c),
        c != sep,
    ensures
        !contains_char(join(parts, seq![sep]), c),
    decreases parts.len(),
{
    if parts.len() > 1 {
        let prefix = parts.drop_last();
        assert(free_of(prefix, c)) by {
            assert forall|i: int| 0 <= i < prefix.len() implies !contains_char(#[trigger] prefix[i], c) by {
                assert(prefix[i] == parts[i]);
            }
        }
        lemma_join_free(prefix, sep, c);
        let a = join(prefix, seq![sep]);
        let b = parts.last();
        assert(!contains_char(b, c)) by {
            assert(b == parts[parts.len() - 1]);
        }
        let whole = a + seq![sep] + b;
        assert forall|i: int| 0 <= i < whole.len() implies whole[i] != c by {
            if i < a.len() {
                assert(whole[i] == a[i]);
            } else if i == a.len() {
                assert(whole[i] == sep);
            } else {
                assert(whole[i] == b[i - a.len() - 1]);
            }
        }
    } else if parts.len() == 1 {
        assert(parts[0] == parts[0]);
    }
}

proof fn lemma_join_has_sep(parts: Seq<Seq<char>>, sep: char)
    requires
        parts.len() >= 2,
    ensures
        contains_char(join(parts, seq![sep]), sep),
{
    let a = join(parts.drop_last(), seq![sep]);
    let whole = a + seq![sep] + parts.last();
    assert(whole[a.len() as int] == sep);
}

/// Splitting a text that ends in a piece without separators extends the last
/// piece.
proof fn lemma_split_append(s: Seq<char>, t: Seq<char>, sep: char)
    requires
        !contains_char(t, sep),
    ensures
        ({
            let p = split_on(s, sep);
            split_on(s + t, sep) == p.update(p.len() - 1, p.last() + t)
        }),
    decreases t.len(),
{
    crate::cliptext::lemma_split_on_len(s, sep);
    let p = split_on(s, sep);
    if t.len() == 0 {
        assert(s + t =~= s);
        assert(p.last() + t =~= p.last());
        assert(p.update(p.len() - 1, p.last()) =~= p);
    } else {
        let t1 = t.drop_last();
        assert(!contains_char(t1, sep)) by {
            assert forall|i: int| 0 <= i < t1.len() implies t1[i] != sep by {
                assert(t1[i] == t[i]);
            }
        }
        lemma_split_append(s, t1, sep);
        assert((s + t).drop_last() =~= s + t1);
        assert((s + t).last() == t.last());
        assert(t.last() != sep) by {
            assert(t[t.len() - 1] == t.last());
        }
        let q = split_on(s + t1, sep);
        assert(q.len() == p.len());
        assert(q.update(q.len() - 1, q.last().push(t.last())) =~= p.update(p.len() - 1, p.last() + t)) by {
            assert(q.last() == p.last() + t1);
            assert((p.last() + t1).push(t.last()) =~= p.last() + t);
        }
    }
}

/// Joined parts without separators split back into the parts.
proof fn lemma_split_join(parts: Seq<Seq<char>>, sep: char)
    requires
        parts.len() >= 1,
        free_of(parts, sep),
    ensures
        split_on(join(parts, seq![sep]), sep) == parts,
    decreases parts.len(),
{
    if parts.len() == 1 {
        assert(!contains_char(parts[0], sep));
        lemma_split_append(seq![], parts[0], sep);
        assert(Seq::<char>::empty() + parts[0] =~= parts[0]);
        assert(split_on(Seq::<char>::empty(), sep) =~= seq![Seq::<char>::empty()]);
        assert(seq![Seq::<char>::empty()].update(0, Seq::<char>::empty() + parts[0]) =~= parts);
    } else {
        let prefix = parts.drop_last();
        assert(free_of(prefix, sep)) by {
            assert forall|i: int| 0 <= i < prefix.len() implies !contains_char(#[trigger] prefix[i], sep) by {
                assert(prefix[i] == parts[i]);
            }
        }
        lemma_split_join(prefix, sep);
        let a = join(prefix, seq![sep]);
        let b = parts.last();
        assert(!contains_char(b, sep)) by {
            assert(b == parts[parts.len() - 1]);
        }
        let with_sep = a + seq![sep];
        assert(with_sep.drop_last() =~= a);
        assert(split_on(with_sep, sep) == prefix.push(seq![]));
        lemma_split_append(with_sep, b, sep);
        assert(with_sep + b =~= a + seq![sep] + b);
        let q = prefix.push(Seq::<char>::empty());
        assert(q.update(q.len() - 1, q.last() + b) =~= parts) by {
            assert(Seq::<char>::empty() + b =~= b);
        }
    }
}

proof fn lemma_words_single(s: Seq<char>)
    requires
        s.len() > 0,
        forall|i: int| 0 <= i < s.len() ==> !is_ws(#[trigger] s[i]),
    ensures
        words(s) == seq![s],
    decreases s.len(),
{
    if s.len() == 1 {
        assert(s.drop_last() =~= Seq::<char>::empty());
        assert(seq![s.last()] =~= s);
        assert(!is_ws(s.last())) by {
            assert(s[0] == s.last());
        }
        assert(words(s.drop_last()) =~= Seq::<Seq<char>>::empty());
        assert(Seq::<Seq<char>>::empty().push(seq![s.last()]) =~= seq![s]);
    } else {
        let t = s.drop_last();
        assert forall|i: int| 0 <= i < t.len() implies !is_ws(#[trigger] t[i]) by {
            assert(t[i] == s[i]);
        }
        lemma_words_single(t);
        assert(!is_ws(s[s.len() - 2]));
        assert(!is_ws(s.last())) by {
            assert(s[s.len() - 1] == s.last());
        }
        assert(t.push(s.last()) =~= s);
        assert(seq![t].update(0, t.push(s.last())) =~= seq![s]);
    }
}

proof fn lemma_text_lines_all(ls: Seq<Seq<char>>)
    requires
        forall|i: int| 0 <= i < ls.len() ==> trim(#[trigger] ls[i]).len() > 0,
    ensures
        text_lines(ls) == ls,
    decreases ls.len(),
{
    if ls.len() > 0 {
        let t = ls.drop_last();
        assert forall|i: int| 0 <= i < t.len() implies trim(#[trigger] t[i]).len() > 0 by {
            assert(t[i] == ls[i]);
        }
        lemma_text_lines_all(t);
        assert(trim(ls.last()).len() > 0) by {
            assert(ls[ls.len() - 1] == ls.last());
        }
        assert(t.push(ls.last()) =~= ls);
    }
}

/// Lines without line breaks joined with newlines read back as those lines,
/// the last being non-empty.
proof fn lemma_lines_join(ls: Seq<Seq<char>>)
    requires
        ls.len() >= 1,
        free_of(ls, '\n'),
        free_of(ls, '\r'),
        ls.last().len() > 0,
    ensures
        lines(join(ls, seq!['\n'])) == ls,
{
    lemma_split_join(ls, '\n');
    let pieces = split_on(join(ls, seq!['\n']), '\n');
    let ended = pieces.take(pieces.len() - 1).map_values(|p: Seq<char>| strip_cr(p));
    assert forall|i: int| 0 <= i < ls.len() - 1 implies #[trigger] ended[i] == ls[i] by {
        assert(!contains_char(ls[i], '\r'));
        if ls[i].len() > 0 {
            assert(ls[i][ls[i].len() - 1] != '\r');
        }
    }
    assert(ended.push(pieces.last()) =~= ls);
}

/// The rows that copy and paste through the system clipboard's text keep:
/// values hold no tab, newline or carriage return; each row has a value that
/// is not only whitespace; and a row of one value holds no whitespace at all.
pub open spec fn rows_survive_text(rows: Seq<Seq<Seq<char>>>) -> bool {
    forall|r: int|
        0 <= r < rows.len() ==> {
            let row = #[trigger] rows[r];
            &&& row.len() >= 1
            &&& free_of(row, '\t')
            &&& free_of(row, '\n')
            &&& free_of(row, '\r')
            &&& trim(join(row, seq!['\t'])).len() > 0
            &&& row.len() == 1 ==> forall|i: int| 0 <= i < row[0].len() ==> !is_ws(#[trigger] row[0][i])
        }
}

/// Law: table rows copied as clipboard text and read back from that text are
/// the same rows, whenever they `rows_survive_text` (at least one row).
pub proof fn lemma_table_clipboard_round_trip(rows: Seq<Seq<Seq<char>>>, user: bool, hex: bool)
    requires
        rows.len() >= 1,
        rows_survive_text(rows),
    ensures
        twoda_clipboard(clip_text(ClipView::TwoDa(rows), seq![], user, hex)) == rows,
{
    let ls = rows.map_values(|r: Seq<Seq<char>>| join(r, seq!['\t']));
    assert forall|r: int| 0 <= r < ls.len() implies !contains_char(#[trigger] ls[r], '\n') && !contains_char(
        ls[r],
        '\r',
    ) && trim(ls[r]).len() > 0 && table_line_row(ls[r]) == rows[r] by {
        let row = rows[r];
        assert(ls[r] == join(row, seq!['\t']));
        lemma_join_free(row, '\t', '\n');
        lemma_join_free(row, '\t', '\r');
        if row.len() >= 2 {
            lemma_join_has_sep(row, '\t');
            lemma_split_join(row, '\t');
        } else {
            assert(join(row, seq!['\t']) == row[0]);
            assert(!contains_char(row[0], '\t'));
            lemma_words_single(row[0]);
            assert(seq![row[0]] =~= row);
        }
    }
    assert(free_of(ls, '\n'));
    assert(free_of(ls, '\r'));
    assert(ls.last().len() > 0) by {
        let last = ls[ls.len() - 1];
        assert(trim(last).len() > 0);
        crate::text::lemma_trim_end_prefix(last);
    }
    lemma_lines_join(ls);
    lemma_text_lines_all(ls);
    assert(ls.map_values(|l: Seq<char>| table_line_row(l)) =~= rows);
}

// ---------------------------------------------------------------------------
// Talk-table entries through the clipboard's text.
/// A digit of a number as this crate writes it.
pub open spec fn is_digit_char(c: char) -> bool {
    ('0' <= c && c <= '9') || ('a' <= c && c <= 'f')
}

proof fn lemma_digits_chars(n: nat, base: nat)
    requires
        2 <= base <= 16,
    ensures
        digits(n, base).len() >= 1,
        forall|i: int| 0 <= i < digits(n, base).len() ==> is_digit_char(#[trigger] digits(n, base)[i]),
    decreases n,
{
    if n >= base {
        assert(n / base < n) by (nonlinear_arith)
            requires
                n >= base,
                base >= 2,
        ;
        lemma_digits_chars(n / base, base);
        assert(n % base < base) by (nonlinear_arith)
            requires
                base >= 2,
        ;
    }
}

proof fn lemma_digits_value(n: nat)
    ensures
        all_digits(digits(n, 10), 10),
        digits_value(digits(n, 10), 10) == n,
        digits(n, 10).len() >= 1,
        digits(n, 10)[0] != '+',
    decreases n,
{
    lemma_digits_chars(n, 10);
    if n >= 10 {
        assert(n / 10 < n);
        lemma_digits_value(n / 10);
        let prev = digits(n / 10, 10);
        let s = prev.push(digit_char(n % 10));
        assert(s.drop_last() =~= prev);
        assert(digit_value(digit_char(n % 10), 10) == Some(n % 10));
        assert(s.last() == digit_char(n % 10));
        assert(digits(n, 10) == s);
        assert(digits_value(s, 10) == digits_value(prev, 10) * 10 + n % 10);
        assert(digits_value(s, 10) == (n / 10) * 10 + n % 10);
        assert((n / 10) * 10 + n % 10 == n) by (nonlinear_arith);
        assert forall|i: int| 0 <= i < s.len() implies (#[trigger] digit_value(s[i], 10)) is Some by {
            if i < prev.len() {
                assert(s[i] == prev[i]);
            }
        }
        assert(s[0] == prev[0]);
    } else {
        let s = digits(n, 10);
        assert(s == seq![digit_char(n)]);
        assert(s.drop_last() =~= Seq::<char>::empty());
        assert(s.last() == digit_char(n));
        assert(digits_value(s.drop_last(), 10) == 0);
        assert(digit_value(digit_char(n), 10) == Some(n));
        assert(digits_value(s, 10) == n);
    }
}

/// Flags written in decimal read back as the same flags.
proof fn lemma_flags_parse(f: u32)
    ensures
        parse_u32_spec(digits(f as nat, 10), 10) == Some(f),
{
    lemma_digits_value(f as nat);
}

proof fn lemma_escaped_concat(a: Seq<char>, b: Seq<char>)
    ensures
        escaped(a + b) == escaped(a) + escaped(b),
    decreases b.len(),
{
    if b.len() == 0 {
        assert(a + b =~= a);
        assert(escaped(a) + escaped(b) =~= escaped(a));
    } else {
        lemma_escaped_concat(a, b.drop_last());
        assert((a + b).drop_last() =~= a + b.drop_last());
        assert((a + b).last() == b.last());
        assert(escaped(a) + escaped(b.drop_last()) + escape_char(b.last()) =~= escaped(a) + (escaped(
            b.drop_last(),
        ) + escape_char(b.last())));
    }
}

/// A text with only its tabs written as `\t`.
pub open spec fn tabs_escaped(s: Seq<char>) -> Seq<char>
    decreases s.len(),
{
    if s.len() == 0 {
        seq![]
    } else if s[0] == '\t' {
        seq!['\\', 't'] + tabs_escaped(s.skip(1))
    } else {
        seq![s[0]] + tabs_escaped(s.skip(1))
    }
}

proof fn lemma_escaped_front(s: Seq<char>)
    requires
        s.len() > 0,
    ensures
        escaped(s) == escape_char(s[0]) + escaped(s.skip(1)),
{
    lemma_escaped_concat(seq![s[0]], s.skip(1));
    assert(seq![s[0]] + s.skip(1) =~= s);
    assert(seq![s[0]].drop_last() =~= Seq::<char>::empty());
    assert(seq![s[0]].last() == s[0]);
    assert(escaped(Seq::<char>::empty()) == Seq::<char>::empty());
    assert(Seq::<char>::empty() + escape_char(s[0]) =~= escape_char(s[0]));
    assert(escaped(seq![s[0]]) =~= escape_char(s[0]));
}

proof fn lemma_unescape_newlines(s: Seq<char>)
    requires
        forall|i: int| 0 <= i < s.len() ==> #[trigger] s[i] != '\\',
    ensures
        replace_pair(escaped(s), 'n', '\n') == tabs_escaped(s),
    decreases s.len(),
{
    if s.len() == 0 {
        assert(escaped(s) =~= Seq::<char>::empty());
        assert(tabs_escaped(s) =~= Seq::<char>::empty());
    } else {
        let rest = s.skip(1);
        assert forall|i: int| 0 <= i < rest.len() implies #[trigger] rest[i] != '\\' by {
            assert(rest[i] == s[i + 1]);
        }
        lemma_unescape_newlines(rest);
        lemma_escaped_front(s);
        let e = escaped(s);
        let er = escaped(rest);
        let c = s[0];
        assert(c != '\\');
        let target = replace_pair(er, 'n', '\n');
        assert(target == tabs_escaped(rest));
        if c == '\n' {
            assert(e =~= seq!['\\', 'n'] + er);
            assert(e[0] == '\\' && e[1] == 'n');
            assert(e.skip(2) =~= er);
            assert(replace_pair(e, 'n', '\n') == seq!['\n'] + target);
            assert(tabs_escaped(s) == seq![c] + tabs_escaped(rest));
        } else if c == '\t' {
            assert(e =~= seq!['\\', 't'] + er);
            let e1 = e.skip(1);
            assert(e1 =~= seq!['t'] + er);
            assert(replace_pair(e, 'n', '\n') == seq!['\\'] + replace_pair(e1, 'n', '\n'));
            if e1.len() >= 2 {
                assert(e1.skip(1) =~= er);
                assert(replace_pair(e1, 'n', '\n') == seq!['t'] + target);
            } else {
                assert(er.len() == 0);
                assert(target == er);
                assert(replace_pair(e1, 'n', '\n') == e1);
            }
            assert(replace_pair(e, 'n', '\n') =~= seq!['\\', 't'] + target);
            assert(tabs_escaped(s) == seq!['\\', 't'] + tabs_escaped(rest));
        } else {
            assert(e =~= seq![c] + er);
            if e.len() >= 2 {
                assert(e.skip(1) =~= er);
                assert(replace_pair(e, 'n', '\n') == seq![c] + target);
            } else {
                assert(er.len() == 0);
                assert(target == er);
                assert(replace_pair(e, 'n', '\n') == e);
            }
            assert(replace_pair(e, 'n', '\n') =~= seq![c] + target);
            assert(tabs_escaped(s) == seq![c] + tabs_escaped(rest));
        }
    }
}

proof fn lemma_unescape_tabs(s: Seq<char>)
    requires
        forall|i: int| 0 <= i < s.len() ==> #[trigger] s[i] != '\\',
    ensures
        replace_pair(tabs_escaped(s), 't', '\t') == s,
    decreases s.len(),
{
    if s.len() == 0 {
        assert(tabs_escaped(s) =~= Seq::<char>::empty());
    } else {
        let rest = s.skip(1);
        assert forall|i: int| 0 <= i < rest.len() implies #[trigger] rest[i] != '\\' by {
            assert(rest[i] == s[i + 1]);
        }
        lemma_unescape_tabs(rest);
        let e = tabs_escaped(s);
        let er = tabs_escaped(rest);
        let c = s[0];
        if c == '\t' {
            assert(e[0] == '\\' && e[1] == 't');
            assert(e.skip(2) =~= er);
        } else {
            assert(e[0] == c);
            assert(e.skip(1) =~= er);
            if e.len() < 2 {
                assert(er.len() == 0);
                assert(rest.len() == 0) by {
                    if rest.len() > 0 {
                        assert(er.len() >= 1);
                    }
                }
                assert(e =~= seq![c] + er);
            }
        }
        assert(seq![c] + rest =~= s);
    }
}

/// An entry's text written escaped reads back unchanged when it holds no
/// backslash.
proof fn lemma_unescaped_escaped(s: Seq<char>)
    requires
        forall|i: int| 0 <= i < s.len() ==> #[trigger] s[i] != '\\',
    ensures
        unescaped(escaped(s)) == s,
{
    lemma_unescape_newlines(s);
    lemma_unescape_tabs(s);
}

proof fn lemma_escaped_free(s: Seq<char>, c: char)
    requires
        c == '\t' || c == '\n' || (c == '\r' && !contains_char(s, '\r')),
    ensures
        !contains_char(escaped(s), c),
    decreases s.len(),
{
    if s.len() > 0 {
        let t = s.drop_last();
        if c == '\r' {
            assert(!contains_char(t, '\r')) by {
                assert forall|i: int| 0 <= i < t.len() implies t[i] != '\r' by {
                    assert(t[i] == s[i]);
                }
            }
            assert(s.last() != '\r') by {
                assert(s[s.len() - 1] == s.last());
            }
        }
        lemma_escaped_free(t, c);
        let a = escaped(t);
        let b = escape_char(s.last());
        assert forall|i: int| 0 <= i < (a + b).len() implies (a + b)[i] != c by {
            if i < a.len() {
                assert((a + b)[i] == a[i]);
            }
        }
    }
}

proof fn lemma_first_tab(a: Seq<char>, rest: Seq<char>)
    requires
        !contains_char(a, '\t'),
    ensures
        first_index(a + seq!['\t'] + rest, '\t') == Some(a.len() as int),
{
    let s = a + seq!['\t'] + rest;
    let k = a.len() as int;
    assert(s[k] == '\t');
    assert forall|j: int| 0 <= j < k implies s[j] != '\t' by {
        assert(s[j] == a[j]);
    }
    assert(is_first(s, '\t', k));
    let m = choose|m: int| is_first(s, '\t', m);
    assert(is_first(s, '\t', m));
    if m < k {
        assert(s[m] == a[m]);
    }
    if m > k {
        assert(s[k] != '\t');
    }
}

proof fn lemma_split_step(a: Seq<char>, rest: Seq<char>, n: nat)
    requires
        !contains_char(a, '\t'),
        n >= 1,
    ensures
        split_n(a + seq!['\t'] + rest, n + 1, '\t') == seq![a] + split_n(rest, n, '\t'),
{
    let l = a + seq!['\t'] + rest;
    lemma_first_tab(a, rest);
    assert(l.take(a.len() as int) =~= a);
    assert(l.skip(a.len() as int + 1) =~= rest);
}

/// A line of five tab-free fields split at its first four tabs gives back
/// the fields.
proof fn lemma_split_five(p: Seq<Seq<char>>)
    requires
        p.len() == 5,
        free_of(p, '\t'),
    ensures
        split_n(join(p, seq!['\t']), 5, '\t') == p,
{
    let tab = seq!['\t'];
    let r3 = p[3] + tab + p[4];
    let r2 = p[2] + tab + r3;
    let r1 = p[1] + tab + r2;
    let l = p[0] + tab + r1;
    assert(join(p, tab) =~= l) by {
        assert(p.take(1).drop_last() =~= Seq::<Seq<char>>::empty());
        assert(join(p.take(1), tab) == p[0]);
        assert(p.take(2).drop_last() =~= p.take(1));
        assert(p.take(3).drop_last() =~= p.take(2));
        assert(p.take(4).drop_last() =~= p.take(3));
        assert(p.drop_last() =~= p.take(4));
        assert(join(p.take(2), tab) == p[0] + tab + p[1]);
        assert(join(p.take(3), tab) == p[0] + tab + p[1] + tab + p[2]);
        assert(join(p.take(4), tab) == p[0] + tab + p[1] + tab + p[2] + tab + p[3]);
        assert(join(p, tab) == p[0] + tab + p[1] + tab + p[2] + tab + p[3] + tab + p[4]);
    }
    assert(!contains_char(p[0], '\t') && !contains_char(p[1], '\t'));
    assert(!contains_char(p[2], '\t') && !contains_char(p[3], '\t'));
    lemma_split_step(p[3], p[4], 1);
    lemma_split_step(p[2], r3, 2);
    lemma_split_step(p[1], r2, 3);
    lemma_split_step(p[0], r1, 4);
    assert(split_n(p[4], 1, '\t') == seq![p[4]]);
    assert(seq![p[0]] + (seq![p[1]] + (seq![p[2]] + (seq![p[3]] + seq![p[4]]))) =~= p);
}

proof fn lemma_filled_lines_all(ls: Seq<Seq<char>>)
    requires
        forall|i: int| 0 <= i < ls.len() ==> (#[trigger] ls[i]).len() > 0,
    ensures
        filled_lines(ls) == ls,
    decreases ls.len(),
{
    if ls.len() > 0 {
        let t = ls.drop_last();
        assert forall|i: int| 0 <= i < t.len() implies (#[trigger] t[i]).len() > 0 by {
            assert(t[i] == ls[i]);
        }
        lemma_filled_lines_all(t);
        assert(ls.last().len() > 0) by {
            assert(ls[ls.len() - 1] == ls.last());
        }
        assert(t.push(ls.last()) =~= ls);
    }
}

/// The copied entries that copy and paste through the system clipboard's
/// text keep: texts hold no backslash and no carriage return, and sounds
/// and sound lengths hold no tab, newline or carriage return.
pub open spec fn entries_survive_text(rows: Seq<(usize, EntryView)>, lengths: Seq<Seq<char>>) -> bool {
    &&& lengths.len() == rows.len()
    &&& forall|i: int|
        0 <= i < rows.len() ==> {
            let e = (#[trigger] rows[i]).1;
            &&& forall|k: int| 0 <= k < e.text.len() ==> #[trigger] e.text[k] != '\\'
            &&& !contains_char(e.text, '\r')
            &&& free_of(seq![e.sound_resref, lengths[i]], '\t')
            &&& free_of(seq![e.sound_resref, lengths[i]], '\n')
            &&& free_of(seq![e.sound_resref, lengths[i]], '\r')
        }
}

/// What reading back the clipboard text of copied entries gives: each entry,
/// numbered from 0, with its flags, sound and text (its other fields zero),
/// and its sound length as it was written.
pub open spec fn entries_read_back(rows: Seq<(usize, EntryView)>, lengths: Seq<Seq<char>>) -> Seq<
    (usize, EntryView, Option<Seq<char>>),
> {
    Seq::new(
        rows.len(),
        |i: int|
            (
                i as usize,
                EntryView {
                    flags: rows[i].1.flags,
                    sound_resref: rows[i].1.sound_resref,
                    volume_variance: 0,
                    pitch_variance: 0,
                    sound_length_bits: 0,
                    text: rows[i].1.text,
                },
                Some(lengths[i]),
            ),
    )
}

proof fn lemma_tlk_line(row: usize, e: EntryView, length: Seq<char>, user: bool, hex: bool)
    requires
        forall|k: int| 0 <= k < e.text.len() ==> #[trigger] e.text[k] != '\\',
        !contains_char(e.text, '\r'),
        free_of(seq![e.sound_resref, length], '\t'),
        free_of(seq![e.sound_resref, length], '\n'),
        free_of(seq![e.sound_resref, length], '\r'),
    ensures
        tlk_line(row, e, length, user, hex).len() > 0,
        !contains_char(tlk_line(row, e, length, user, hex), '\n'),
        !contains_char(tlk_line(row, e, length, user, hex), '\r'),
        tlk_line_entry(tlk_line(row, e, length, user, hex)) == (
            EntryView {
                flags: e.flags,
                sound_resref: e.sound_resref,
                volume_variance: 0,
                pitch_variance: 0,
                sound_length_bits: 0,
                text: e.text,
            },
            Some(length),
        ),
{
    let st = strref_text(row, user, hex);
    let fl = digits(e.flags as nat, 10);
    let p = seq![st, fl, e.sound_resref, length, escaped(e.text)];
    lemma_digits_chars(e.flags as nat, 10);
    lemma_digits_chars(crate::editing::strref_value(row, user), 10);
    lemma_digits_chars(crate::editing::strref_value(row, user), 16);
    assert(!contains_char(e.sound_resref, '\t') && !contains_char(length, '\t')) by {
        assert(seq![e.sound_resref, length][0] == e.sound_resref);
        assert(seq![e.sound_resref, length][1] == length);
    }
    assert(!contains_char(e.sound_resref, '\n') && !contains_char(length, '\n')) by {
        assert(seq![e.sound_resref, length][0] == e.sound_resref);
        assert(seq![e.sound_resref, length][1] == length);
    }
    assert(!contains_char(e.sound_resref, '\r') && !contains_char(length, '\r')) by {
        assert(seq![e.sound_resref, length][0] == e.sound_resref);
        assert(seq![e.sound_resref, length][1] == length);
    }
    lemma_escaped_free(e.text, '\t');
    lemma_escaped_free(e.text, '\n');
    lemma_escaped_free(e.text, '\r');
    assert forall|c: char| c == '\t' || c == '\n' || c == '\r' implies free_of(p, c) by {
        assert forall|i: int| 0 <= i < p.len() implies !contains_char(#[trigger] p[i], c) by {
            if i == 0 {
                if hex {
                    assert forall|k: int| 0 <= k < st.len() implies st[k] != c by {
                        if k >= 2 {
                            assert(st[k] == digits(crate::editing::strref_value(row, user), 16)[k - 2]);
                        }
                    }
                } else {
                    assert forall|k: int| 0 <= k < st.len() implies st[k] != c by {
                        assert(is_digit_char(st[k]));
                    }
                }
            } else if i == 1 {
                assert forall|k: int| 0 <= k < fl.len() implies fl[k] != c by {
                    assert(is_digit_char(fl[k]));
                }
            }
        }
    }
    lemma_split_five(p);
    let line = join(p, seq!['\t']);
    assert(line == tlk_line(row, e, length, user, hex));
    lemma_join_free(p, '\t', '\n');
    lemma_join_free(p, '\t', '\r');
    lemma_join_has_sep(p, '\t');
    lemma_flags_parse(e.flags);
    lemma_unescaped_escaped(e.text);
}

/// Law: talk-table entries copied as clipboard text and read back from that
/// text come back in order, numbered from 0, with their flags, sounds, texts
/// and sound lengths, whenever they `entries_survive_text` (at least one).
pub proof fn lemma_tlk_clipboard_round_trip(
    rows: Seq<(usize, EntryView)>,
    lengths: Seq<Seq<char>>,
    user: bool,
    hex: bool,
)
    requires
        rows.len() >= 1,
        entries_survive_text(rows, lengths),
    ensures
        tlk_clipboard(clip_text(ClipView::Tlk(rows), lengths, user, hex)) == entries_read_back(rows, lengths),
{
    let ls = Seq::new(rows.len(), |i: int| tlk_line(rows[i].0, rows[i].1, lengths[i], user, hex));
    assert forall|i: int| 0 <= i < ls.len() implies (#[trigger] ls[i]).len() > 0 && !contains_char(ls[i], '\n')
        && !contains_char(ls[i], '\r') && tlk_line_entry(ls[i]) == (entries_read_back(rows, lengths)[i].1, entries_read_back(rows, lengths)[i].2) by {
        let e = rows[i].1;
        lemma_tlk_line(rows[i].0, e, lengths[i], user, hex);
    }
    assert(free_of(ls, '\n'));
    assert(free_of(ls, '\r'));
    assert(ls.last().len() > 0) by {
        assert(ls[ls.len() - 1] == ls.last());
    }
    lemma_lines_join(ls);
    lemma_filled_lines_all(ls);
    assert(tlk_clipboard(clip_text(ClipView::Tlk(rows), lengths, user, hex)) =~= entries_read_back(rows, lengths));
}

} // verus!
