//! Round trips of the 2DA formats: what a read gives back of a write.
use crate::bytes::{le16, le16_bytes, le32, le32_bytes, lemma_le16_round_trip, lemma_le32_round_trip};
use crate::twoda::{
    bin_run, binary_layout, binary_signature_bytes, cell_value, decode_row, decode_rows,
    find_from, flat_cells, labels_bytes, latin1, names_bytes, parse_binary_body,
    parse_binary_spec, read_columns, read_spec, read_tab, read_tabs, row_tag, sb_bytes,
    single_byte_ok, stored_value, to_binary_spec, validate_rows, validate_spec, write_spec,
    lemma_validate_rows, TwoDaError, bad_column_name,
    BinState, TableView, TwoDaFormat, MAX_CELLS, MAX_COLUMNS, MAX_ROWS,
};
use crate::text::contains_char;
use vstd::prelude::*;

verus! {

/// Strings written one after the other, each followed by a tab.
pub open spec fn tab_list(s: Seq<Seq<char>>) -> Seq<u8>
    decreases s.len(),
{
    if s.len() == 0 {
        seq![]
    } else {
        sb_bytes(s[0]) + seq![9u8] + tab_list(s.drop_first())
    }
}

pub open spec fn row_labels(rows: Seq<Seq<Seq<char>>>) -> Seq<Seq<char>> {
    rows.map_values(|r: Seq<Seq<char>>| r[0])
}

/// `v` followed by a NUL is stored in `block` at `off`.
pub open spec fn stored_at(block: Seq<u8>, off: int, v: Seq<char>) -> bool {
    &&& 0 <= off
    &&& off + v.len() < block.len()
    &&& block.subrange(off, off + v.len()) == sb_bytes(v)
    &&& block[off + v.len()] == 0
}

proof fn lemma_tab_list_push(s: Seq<Seq<char>>, x: Seq<char>)
    ensures
        tab_list(s.push(x)) == tab_list(s) + sb_bytes(x) + seq![9u8],
    decreases s.len(),
{
    if s.len() == 0 {
        assert(s.push(x).drop_first() =~= Seq::<Seq<char>>::empty());
        assert(s.push(x)[0] == x);
        assert(tab_list(Seq::<Seq<char>>::empty()) == Seq::<u8>::empty());
        assert(tab_list(s) == Seq::<u8>::empty());
        assert(tab_list(s.push(x)) =~= sb_bytes(x) + seq![9u8]);
    } else {
        assert(s.push(x).drop_first() =~= s.drop_first().push(x));
        lemma_tab_list_push(s.drop_first(), x);
        assert(tab_list(s.push(x)) =~= tab_list(s) + sb_bytes(x) + seq![9u8]);
    }
}

proof fn lemma_tab_list_len(s: Seq<Seq<char>>)
    ensures
        tab_list(s).len() >= s.len(),
    decreases s.len(),
{
    if s.len() > 0 {
        lemma_tab_list_len(s.drop_first());
    }
}

proof fn lemma_names_bytes(cols: Seq<Seq<char>>, k: nat)
    requires
        1 <= k <= cols.len(),
    ensures
        names_bytes(cols, k) == tab_list(cols.subrange(1, k as int)),
    decreases k,
{
    if k <= 1 {
        assert(cols.subrange(1, k as int) =~= Seq::<Seq<char>>::empty());
    } else {
        lemma_names_bytes(cols, (k - 1) as nat);
        lemma_tab_list_push(cols.subrange(1, k - 1), cols[k - 1]);
        assert(cols.subrange(1, k - 1).push(cols[k - 1]) =~= cols.subrange(1, k as int));
    }
}

proof fn lemma_labels_bytes(rows: Seq<Seq<Seq<char>>>, k: nat)
    requires
        k <= rows.len(),
    ensures
        labels_bytes(rows, k) == tab_list(row_labels(rows).take(k as int)),
    decreases k,
{
    if k == 0 {
        assert(row_labels(rows).take(0) =~= Seq::<Seq<char>>::empty());
    } else {
        lemma_labels_bytes(rows, (k - 1) as nat);
        lemma_tab_list_push(row_labels(rows).take(k - 1), rows[k - 1][0]);
        assert(row_labels(rows).take(k - 1).push(rows[k - 1][0]) =~= row_labels(rows).take(
            k as int,
        ));
    }
}

proof fn lemma_find_exact(data: Seq<u8>, from: int, e: int, b: u8)
    requires
        0 <= from <= e < data.len(),
        data[e] == b,
        forall|j: int| from <= j < e ==> data[j] != b,
    ensures
        find_from(data, from, b) == Some(e),
    decreases e - from,
{
    if from < e {
        lemma_find_exact(data, from + 1, e, b);
    }
}

proof fn lemma_latin1_sb(x: Seq<char>)
    requires
        single_byte_ok(x),
    ensures
        latin1(sb_bytes(x)) == x,
{
    assert forall|i: int| 0 <= i < x.len() implies #[trigger] latin1(sb_bytes(x))[i] == x[i] by {
        lemma_char_byte(x[i]);
    }
    assert(latin1(sb_bytes(x)) =~= x);
}

proof fn lemma_char_byte(c: char)
    requires
        (c as u32) < 256,
    ensures
        ((c as u32) as u8) as char == c,
        ((c as u32) as u8) as u32 == c as u32,
{
    let u = c as u32;
    let b = u as u8;
    assert(b as u32 == u);
    assert((b as char) as u32 == b as u32);
}

/// The byte of a single-byte character is the character's code.
proof fn lemma_sb_byte(x: Seq<char>, i: int)
    requires
        single_byte_ok(x),
        0 <= i < x.len(),
    ensures
        sb_bytes(x)[i] as u32 == x[i] as u32,
{
    assert((x[i] as u32) < 256);
}

/// A string without tabs, written with its tab at `c`, reads back with `read_tab`.
proof fn lemma_read_tab(data: Seq<u8>, c: int, x: Seq<char>)
    requires
        0 <= c,
        c + x.len() + 1 <= data.len(),
        data.subrange(c, c + x.len() + 1) == sb_bytes(x) + seq![9u8],
        single_byte_ok(x),
        !contains_char(x, '\t'),
    ensures
        read_tab(data, c) == Ok::<(Seq<char>, int), crate::twoda::TwoDaError>((x, c + x.len() + 1)),
{
    let e = c + x.len();
    assert forall|j: int| c <= j < e implies data[j] != 9 by {
        assert(data[j] == data.subrange(c, c + x.len() + 1)[j - c]);
        assert((sb_bytes(x) + seq![9u8])[j - c] == sb_bytes(x)[j - c]);
        lemma_sb_byte(x, j - c);
        assert(x[j - c] != '\t');
        if x[j - c] as u32 == 9 {
            vstd::utf8::char_u32_cast(x[j - c], 9);
            vstd::utf8::char_u32_cast('\t', 9);
        }
    }
    assert(data[e] == data.subrange(c, c + x.len() + 1)[x.len() as int]);
    lemma_find_exact(data, c, e, 9);
    assert(data.subrange(c, e) =~= sb_bytes(x));
    lemma_latin1_sb(x);
}

pub open spec fn tab_free(s: Seq<Seq<char>>) -> bool {
    forall|i: int| 0 <= i < s.len() ==> single_byte_ok(#[trigger] s[i]) && !contains_char(s[i], '\t')
}

/// Strings written with `tab_list` read back with `read_tabs`.
proof fn lemma_read_tabs(data: Seq<u8>, c: int, s: Seq<Seq<char>>)
    requires
        0 <= c,
        c + tab_list(s).len() <= data.len(),
        data.subrange(c, c + tab_list(s).len()) == tab_list(s),
        tab_free(s),
    ensures
        read_tabs(data, c, s.len()) == Ok::<(Seq<Seq<char>>, int), crate::twoda::TwoDaError>(
            (s, c + tab_list(s).len()),
        ),
    decreases s.len(),
{
    if s.len() == 0 {
        assert(read_tabs(data, c, 0) == Ok::<(Seq<Seq<char>>, int), crate::twoda::TwoDaError>((seq![], c)));
        assert(s =~= seq![]);
    } else {
        let x = s[0];
        let n0 = x.len() + 1;
        let rest = s.drop_first();
        assert(tab_list(s) == sb_bytes(x) + seq![9u8] + tab_list(rest));
        assert(data.subrange(c, c + n0) =~= sb_bytes(x) + seq![9u8]) by {
            assert forall|j: int| 0 <= j < n0 implies data.subrange(c, c + n0)[j] == (sb_bytes(x)
                + seq![9u8])[j] by {
                assert(data.subrange(c, c + tab_list(s).len())[j] == tab_list(s)[j]);
            }
        }
        assert(single_byte_ok(s[0]) && !contains_char(s[0], '\t'));
        lemma_read_tab(data, c, x);
        assert(data.subrange(c + n0, c + n0 + tab_list(rest).len()) =~= tab_list(rest)) by {
            assert forall|j: int| 0 <= j < tab_list(rest).len() implies data.subrange(
                c + n0,
                c + n0 + tab_list(rest).len(),
            )[j] == tab_list(rest)[j] by {
                assert(data.subrange(c, c + tab_list(s).len())[n0 + j] == tab_list(s)[n0 + j]);
            }
        }
        assert(tab_free(rest)) by {
            assert forall|i: int| 0 <= i < rest.len() implies single_byte_ok(#[trigger] rest[i])
                && !contains_char(rest[i], '\t') by {
                assert(rest[i] == s[i + 1]);
            }
        }
        lemma_read_tabs(data, c + n0, rest);
        assert(seq![x] + rest =~= s);
    }
}

/// No name after the first starts with a NUL, which would end the list early.
pub open spec fn no_leading_nul(s: Seq<Seq<char>>) -> bool {
    forall|i: int| 1 <= i < s.len() && (#[trigger] s[i]).len() > 0 ==> s[i][0] != '\0'
}

/// Column names written with `tab_list` and a NUL read back with `read_columns`.
proof fn lemma_read_columns(data: Seq<u8>, c: int, s: Seq<Seq<char>>)
    requires
        0 <= c,
        s.len() >= 1,
        c + tab_list(s).len() + 1 <= data.len(),
        data.subrange(c, c + tab_list(s).len() + 1) == tab_list(s) + seq![0u8],
        tab_free(s),
        no_leading_nul(s),
    ensures
        read_columns(data, c) == Ok::<(Seq<Seq<char>>, int), crate::twoda::TwoDaError>(
            (s, c + tab_list(s).len() + 1),
        ),
    decreases s.len(),
{
    let x = s[0];
    let n0: int = x.len() + 1int;
    let rest = s.drop_first();
    let all = tab_list(s) + seq![0u8];
    assert(tab_list(s) == sb_bytes(x) + seq![9u8] + tab_list(rest));
    assert(data.subrange(c, c + n0) =~= sb_bytes(x) + seq![9u8]) by {
        assert forall|j: int| 0 <= j < n0 implies data.subrange(c, c + n0)[j] == (sb_bytes(x)
            + seq![9u8])[j] by {
            assert(data.subrange(c, c + tab_list(s).len() + 1)[j] == all[j]);
        }
    }
    assert(single_byte_ok(s[0]) && !contains_char(s[0], '\t'));
    lemma_read_tab(data, c, x);
    let c2 = c + n0;
    assert(data[c2] == all[n0]) by {
        assert(data.subrange(c, c + tab_list(s).len() + 1)[n0] == all[n0]);
    }
    if rest.len() == 0 {
        assert(tab_list(rest) == Seq::<u8>::empty());
        assert(all[n0] == 0);
        assert(seq![x] =~= s);
    } else {
        assert(tab_list(rest) == sb_bytes(rest[0]) + seq![9u8] + tab_list(rest.drop_first()));
        assert(rest[0] == s[1]);
        assert(tab_free(rest)) by {
            assert forall|i: int| 0 <= i < rest.len() implies single_byte_ok(#[trigger] rest[i])
                && !contains_char(rest[i], '\t') by {
                assert(rest[i] == s[i + 1]);
            }
        }
        assert(no_leading_nul(rest)) by {
            assert forall|i: int| 1 <= i < rest.len() && (#[trigger] rest[i]).len() > 0 implies rest[i][0]
                != '\0' by {
                assert(rest[i] == s[i + 1]);
            }
        }
        if rest[0].len() > 0 {
            assert(all[n0] == sb_bytes(rest[0])[0]);
            lemma_sb_byte(rest[0], 0);
            assert(s[1][0] != '\0');
            if rest[0][0] as u32 == 0 {
                vstd::utf8::char_u32_cast(rest[0][0], 0);
                vstd::utf8::char_u32_cast('\0', 0);
            }
        } else {
            assert(all[n0] == 9);
        }
        assert(data[c2] != 0);
        assert(data.subrange(c2, c2 + tab_list(rest).len() + 1) =~= tab_list(rest) + seq![0u8]) by {
            assert forall|j: int| 0 <= j < tab_list(rest).len() + 1 implies data.subrange(
                c2,
                c2 + tab_list(rest).len() + 1,
            )[j] == (tab_list(rest) + seq![0u8])[j] by {
                assert(data.subrange(c, c + tab_list(s).len() + 1)[n0 + j] == all[n0 + j]);
            }
        }
        lemma_read_columns(data, c2, rest);
        assert(seq![x] + rest =~= s);
    }
}

proof fn lemma_stored_extend(block: Seq<u8>, more: Seq<u8>, off: int, v: Seq<char>)
    requires
        stored_at(block, off, v),
    ensures
        stored_at(block + more, off, v),
{
    assert((block + more).subrange(off, off + v.len()) =~= block.subrange(off, off + v.len()));
    assert((block + more)[off + v.len()] == block[off + v.len()]);
}

pub open spec fn bin_layout_ok(cells: Seq<Seq<char>>, st: BinState) -> bool {
    &&& st.index.len() == 2 * cells.len()
    &&& forall|k: int|
        0 <= k < cells.len() ==> stored_at(st.block, le16(st.index, 2 * k) as int, #[trigger] cells[k])
            && single_byte_ok(cells[k])
    &&& forall|v: Seq<char>|
        #[trigger] st.dict.contains_key(v) ==> stored_at(st.block, st.dict[v] as int, v)
            && single_byte_ok(v)
}

proof fn lemma_bin_run_seen(cells: Seq<Seq<char>>)
    requires
        cells.len() > 0,
        bin_run(cells) is Ok,
        bin_run(cells.drop_last()) is Ok,
        bin_layout_ok(cells.drop_last(), bin_run(cells.drop_last())->Ok_0),
        bin_run(cells.drop_last())->Ok_0.dict.contains_key(cells.last()),
    ensures
        bin_layout_ok(cells, bin_run(cells)->Ok_0),
{
    let prev = cells.drop_last();
    let st0 = bin_run(prev)->Ok_0;
    let st = bin_run(cells)->Ok_0;
    let v = cells.last();
    let n = cells.len() - 1;
    let off = st0.dict[v];
    assert(st.index == st0.index + le16_bytes(off));
    assert(st.block == st0.block);
    assert(st.dict == st0.dict);
    assert forall|k: int| 0 <= k < cells.len() implies stored_at(
        st.block,
        le16(st.index, 2 * k) as int,
        #[trigger] cells[k],
    ) && single_byte_ok(cells[k]) by {
        if k < n {
            assert(cells[k] == prev[k]);
            assert(le16(st.index, 2 * k) == le16(st0.index, 2 * k));
        } else {
            lemma_le16_round_trip(off, st0.index, seq![]);
            assert(st0.index + le16_bytes(off) + seq![] =~= st.index);
        }
    }
}

proof fn lemma_bin_run_new(cells: Seq<Seq<char>>)
    requires
        cells.len() > 0,
        bin_run(cells) is Ok,
        bin_run(cells.drop_last()) is Ok,
        bin_layout_ok(cells.drop_last(), bin_run(cells.drop_last())->Ok_0),
        !bin_run(cells.drop_last())->Ok_0.dict.contains_key(cells.last()),
    ensures
        bin_layout_ok(cells, bin_run(cells)->Ok_0),
{
    let prev = cells.drop_last();
    let st0 = bin_run(prev)->Ok_0;
    let st = bin_run(cells)->Ok_0;
    let v = cells.last();
    let n = cells.len() - 1;
    let off = st0.block.len() as u16;
    assert(st0.block.len() <= 65535);
    assert(off == st0.block.len());
    let added = sb_bytes(v) + seq![0u8];
    assert(st.block == st0.block + sb_bytes(v) + seq![0u8]);
    assert(st0.block + sb_bytes(v) + seq![0u8] =~= st0.block + added);
    assert(st.index == st0.index + le16_bytes(off));
    assert(st.dict == st0.dict.insert(v, off));
    assert(stored_at(st.block, off as int, v)) by {
        assert(st.block.subrange(off as int, off + v.len()) =~= sb_bytes(v));
        assert(st.block[off + v.len()] == 0);
    }
    assert forall|k: int| 0 <= k < cells.len() implies stored_at(
        st.block,
        le16(st.index, 2 * k) as int,
        #[trigger] cells[k],
    ) && single_byte_ok(cells[k]) by {
        if k < n {
            assert(cells[k] == prev[k]);
            assert(le16(st.index, 2 * k) == le16(st0.index, 2 * k));
            lemma_stored_extend(st0.block, added, le16(st0.index, 2 * k) as int, cells[k]);
        } else {
            lemma_le16_round_trip(off, st0.index, seq![]);
            assert(st0.index + le16_bytes(off) + seq![] =~= st.index);
        }
    }
    assert forall|w: Seq<char>| #[trigger] st.dict.contains_key(w) implies stored_at(
        st.block,
        st.dict[w] as int,
        w,
    ) && single_byte_ok(w) by {
        if w != v {
            assert(st0.dict.contains_key(w));
            lemma_stored_extend(st0.block, added, st0.dict[w] as int, w);
        }
    }
}

/// Every value that `bin_run` stores can be found again through the index.
proof fn lemma_bin_run_layout(cells: Seq<Seq<char>>)
    requires
        bin_run(cells) is Ok,
    ensures
        bin_layout_ok(cells, bin_run(cells)->Ok_0),
    decreases cells.len(),
{
    if cells.len() > 0 {
        let prev = cells.drop_last();
        lemma_bin_run_layout(prev);
        if bin_run(prev)->Ok_0.dict.contains_key(cells.last()) {
            lemma_bin_run_seen(cells);
        } else {
            lemma_bin_run_new(cells);
        }
    }
}

/// A value kept as it reads back: trimmed, non-empty and without NUL.
pub open spec fn value_kept(v: Seq<char>) -> bool {
    &&& !contains_char(v, '\0')
    &&& stored_value(v) == v
}

proof fn lemma_cell_value(index: Seq<u8>, block: Seq<u8>, k: int, v: Seq<char>)
    requires
        stored_at(block, le16(index, 2 * k) as int, v),
        single_byte_ok(v),
        value_kept(v),
    ensures
        cell_value(index, block, k) == Ok::<Seq<char>, crate::twoda::TwoDaError>(v),
{
    let off = le16(index, 2 * k) as int;
    let e = off + v.len();
    assert forall|j: int| off <= j < e implies block[j] != 0 by {
        assert(block[j] == block.subrange(off, e)[j - off]);
        lemma_sb_byte(v, j - off);
        if v[j - off] as u32 == 0 {
            vstd::utf8::char_u32_cast(v[j - off], 0);
            vstd::utf8::char_u32_cast('\0', 0);
            assert(contains_char(v, '\0'));
        }
    }
    lemma_find_exact(block, off, e, 0);
    lemma_latin1_sb(v);
}

/// The data values of rows that each hold `dc` of them, in row-major order.
proof fn lemma_flat_cells(rows: Seq<Seq<Seq<char>>>, k: nat, dc: nat)
    requires
        k <= rows.len(),
        forall|r: int| 0 <= r < k ==> (#[trigger] rows[r]).len() == dc + 1,
    ensures
        flat_cells(rows, k).len() == k * dc,
        forall|r: int, c: int|
            0 <= r < k && 1 <= c <= dc ==> flat_cells(rows, k)[r * dc + c - 1] == #[trigger] rows[r][c],
    decreases k,
{
    if k == 0 {
        assert(0 * dc == 0) by (nonlinear_arith);
    } else {
        let k1 = (k - 1) as nat;
        lemma_flat_cells(rows, k1, dc);
        let prev = flat_cells(rows, k1);
        let last = rows[k - 1].skip(1);
        assert(flat_cells(rows, k) == prev + last);
        assert(k1 * dc + dc == k * dc) by (nonlinear_arith)
            requires
                k1 + 1 == k,
        ;
        assert forall|r: int, c: int| 0 <= r < k && 1 <= c <= dc implies flat_cells(rows, k)[r * dc
            + c - 1] == #[trigger] rows[r][c] by {
            if r < k1 {
                assert(r * dc + c - 1 < k1 * dc) by (nonlinear_arith)
                    requires
                        0 <= r < k1,
                        1 <= c <= dc,
                ;
                assert(0 <= r * dc) by (nonlinear_arith)
                    requires
                        0 <= r,
                ;
            } else {
                assert(r * dc == k1 * dc);
            }
        }
    }
}

proof fn lemma_decode_row(
    index: Seq<u8>,
    block: Seq<u8>,
    dc: nat,
    r: nat,
    c: nat,
    row: Seq<Seq<char>>,
)
    requires
        c <= dc,
        row.len() == dc + 1,
        forall|j: int|
            c <= j < dc ==> cell_value(index, block, r * dc + j) == Ok::<
                Seq<char>,
                crate::twoda::TwoDaError,
            >(#[trigger] row[j + 1]),
    ensures
        decode_row(index, block, dc, r, c) == Ok::<Seq<Seq<char>>, crate::twoda::TwoDaError>(
            row.subrange(c as int + 1, dc as int + 1),
        ),
    decreases dc - c,
{
    if c < dc {
        lemma_decode_row(index, block, dc, r, c + 1, row);
        let ci = c as int;
        let d = dc as int;
        assert(cell_value(index, block, r * dc + ci) == Ok::<Seq<char>, crate::twoda::TwoDaError>(
            row[ci + 1],
        ));
        assert(seq![row[ci + 1]] + row.subrange(ci + 2, d + 1) =~= row.subrange(ci + 1, d + 1));
    } else {
        assert(row.subrange(c as int + 1, dc as int + 1) =~= Seq::<Seq<char>>::empty());
    }
}

/// Index and data block that hold every data value of `rows`.
pub open spec fn cells_readable(index: Seq<u8>, block: Seq<u8>, dc: nat, rows: Seq<Seq<Seq<char>>>) -> bool {
    forall|r: int, j: int|
        0 <= r < rows.len() && 0 <= j < dc ==> cell_value(index, block, r * dc + j) == Ok::<
            Seq<char>,
            crate::twoda::TwoDaError,
        >(#[trigger] rows[r][j + 1])
}

proof fn lemma_decode_rows(
    index: Seq<u8>,
    block: Seq<u8>,
    dc: nat,
    rows: Seq<Seq<Seq<char>>>,
    r: nat,
)
    requires
        r <= rows.len(),
        forall|i: int| 0 <= i < rows.len() ==> (#[trigger] rows[i]).len() == dc + 1,
        cells_readable(index, block, dc, rows),
    ensures
        decode_rows(index, block, dc, row_labels(rows), r) == Ok::<
            Seq<Seq<Seq<char>>>,
            crate::twoda::TwoDaError,
        >(rows.subrange(r as int, rows.len() as int)),
    decreases rows.len() - r,
{
    let headers = row_labels(rows);
    if r < rows.len() {
        let row = rows[r as int];
        assert forall|j: int| 0 <= j < dc implies cell_value(index, block, r * dc + j) == Ok::<
            Seq<char>,
            crate::twoda::TwoDaError,
        >(#[trigger] row[j + 1]) by {
            assert(row[j + 1] == rows[r as int][j + 1]);
        }
        lemma_decode_row(index, block, dc, r, 0, row);
        lemma_decode_rows(index, block, dc, rows, r + 1);
        assert(headers[r as int] == row[0]);
        assert(seq![headers[r as int]] + row.subrange(1, dc as int + 1) =~= row);
        assert(seq![row] + rows.subrange(r as int + 1, rows.len() as int) =~= rows.subrange(
            r as int,
            rows.len() as int,
        ));
    } else {
        assert(rows.subrange(r as int, rows.len() as int) =~= Seq::<Seq<Seq<char>>>::empty());
    }
}

/// What a binary table needs, beyond what `to_binary` checks, to read back
/// as it was written: the reader's limits, row labels without tabs, data values
/// that are trimmed, non-empty and without NUL, and no column name after the
/// first data column that starts with NUL.
pub open spec fn binary_readable(t: TableView) -> bool {
    &&& t.columns.len() <= MAX_COLUMNS + 1
    &&& t.rows.len() <= MAX_ROWS
    &&& t.rows.len() * t.columns.len() <= MAX_CELLS
    &&& no_leading_nul(t.columns.skip(1))
    &&& forall|r: int| 0 <= r < t.rows.len() ==> !contains_char(#[trigger] t.rows[r][0], '\t')
    &&& forall|r: int, c: int|
        0 <= r < t.rows.len() && 1 <= c < t.rows[r].len() ==> value_kept(#[trigger] t.rows[r][c])
}

/// What `to_binary` accepting a table tells about it.
proof fn lemma_binary_accepts(t: TableView)
    requires
        to_binary_spec(t) is Ok,
    ensures
        t.columns.len() >= 2,
        t.columns[0] == row_tag(),
        t.default_value is None,
        t.rows.len() <= u32::MAX,
        forall|i: int| 0 <= i < t.rows.len() ==> (#[trigger] t.rows[i]).len() == t.columns.len(),
        tab_free(t.columns.skip(1)),
        forall|r: int| 0 <= r < t.rows.len() ==> single_byte_ok(#[trigger] t.rows[r][0]),
        bin_run(flat_cells(t.rows, t.rows.len())) is Ok,
        bin_run(flat_cells(t.rows, t.rows.len()))->Ok_0.block.len() <= 65535,
        to_binary_spec(t)->Ok_0 == binary_layout(t, bin_run(flat_cells(t.rows, t.rows.len()))->Ok_0),
{
    lemma_validate_rows(t.rows, t.columns.len(), 0);
    let names = t.columns.skip(1);
    assert forall|i: int| 0 <= i < names.len() implies single_byte_ok(#[trigger] names[i])
        && !contains_char(names[i], '\t') by {
        assert(names[i] == t.columns[i + 1]);
        assert(!bad_column_name(t.columns[i + 1]));
        if contains_char(names[i], '\t') {
            let j = choose|j: int| 0 <= j < names[i].len() && names[i][j] == '\t';
            assert(crate::text::is_ws(names[i][j]));
        }
    }
}

proof fn lemma_layout_pieces(
    sig: Seq<u8>,
    nb: Seq<u8>,
    n: u32,
    lb: Seq<u8>,
    idx: Seq<u8>,
    b: u16,
    blk: Seq<u8>,
)
    requires
        sig.len() == 9,
    ensures
        ({
            let data = sig + nb + seq![0u8] + le32_bytes(n) + lb + idx + le16_bytes(b) + blk;
            let c = 9 + nb.len() as int + 1;
            let c2 = c + 4;
            let c3 = c2 + lb.len();
            let ie = c3 + idx.len();
            &&& data.len() == ie + 2 + blk.len()
            &&& data.take(9) == sig
            &&& data.subrange(9, c) == nb + seq![0u8]
            &&& le32(data, c) == n
            &&& data.subrange(c2, c3) == lb
            &&& data.subrange(c3, ie) == idx
            &&& le16(data, ie) == b
            &&& data.subrange(ie + 2, ie + 2 + blk.len()) == blk
        }),
{
    let data = sig + nb + seq![0u8] + le32_bytes(n) + lb + idx + le16_bytes(b) + blk;
    let p2 = sig + nb + seq![0u8];
    let c = 9 + nb.len() as int + 1;
    let c2 = c + 4;
    let c3 = c2 + lb.len();
    let ie = c3 + idx.len();
    assert(data.take(9) =~= sig);
    assert(data.subrange(9, c) =~= nb + seq![0u8]);
    lemma_le32_round_trip(n, p2, lb + idx + le16_bytes(b) + blk);
    assert(p2 + le32_bytes(n) + (lb + idx + le16_bytes(b) + blk) =~= data);
    assert(data.subrange(c2, c3) =~= lb);
    assert(data.subrange(c3, ie) =~= idx);
    lemma_le16_round_trip(b, p2 + le32_bytes(n) + lb + idx, blk);
    assert(data.subrange(ie + 2, ie + 2 + blk.len()) =~= blk);
}

proof fn lemma_cells_readable(rows: Seq<Seq<Seq<char>>>, dc: nat)
    requires
        forall|i: int| 0 <= i < rows.len() ==> (#[trigger] rows[i]).len() == dc + 1,
        bin_run(flat_cells(rows, rows.len())) is Ok,
        forall|r: int, c: int|
            0 <= r < rows.len() && 1 <= c < rows[r].len() ==> value_kept(#[trigger] rows[r][c]),
    ensures
        flat_cells(rows, rows.len()).len() == rows.len() * dc,
        cells_readable(
            bin_run(flat_cells(rows, rows.len()))->Ok_0.index,
            bin_run(flat_cells(rows, rows.len()))->Ok_0.block,
            dc,
            rows,
        ),
{
    let rc = rows.len();
    let cells = flat_cells(rows, rc);
    let st = bin_run(cells)->Ok_0;
    lemma_flat_cells(rows, rc, dc);
    lemma_bin_run_layout(cells);
    assert forall|r: int, j: int| 0 <= r < rows.len() && 0 <= j < dc implies cell_value(
        st.index,
        st.block,
        r * dc + j,
    ) == Ok::<Seq<char>, TwoDaError>(#[trigger] rows[r][j + 1]) by {
        let k = r * dc + j;
        assert(cells[r * dc + (j + 1) - 1] == rows[r][j + 1]);
        assert(0 <= k < cells.len()) by (nonlinear_arith)
            requires
                0 <= r < rc,
                0 <= j < dc,
                k == r * dc + j,
                cells.len() == rc * dc,
        ;
        assert(stored_at(st.block, le16(st.index, 2 * k) as int, cells[k]) && single_byte_ok(
            cells[k],
        ));
        assert(value_kept(rows[r][j + 1]));
        lemma_cell_value(st.index, st.block, k, rows[r][j + 1]);
    }
}

proof fn lemma_binary_body(
    data: Seq<u8>,
    names: Seq<Seq<char>>,
    c: int,
    rows: Seq<Seq<Seq<char>>>,
    idx: Seq<u8>,
    blk: Seq<u8>,
)
    requires
        0 <= c,
        data.len() <= usize::MAX,
        names.len() <= MAX_COLUMNS,
        rows.len() <= MAX_ROWS,
        rows.len() * (names.len() + 1) <= MAX_CELLS,
        forall|i: int| 0 <= i < rows.len() ==> (#[trigger] rows[i]).len() == names.len() + 1,
        tab_free(row_labels(rows)),
        idx.len() == 2 * (rows.len() * names.len()),
        ({
            let lb = tab_list(row_labels(rows));
            let c2 = c + 4;
            let c3 = c2 + lb.len();
            let ie = c3 + idx.len();
            &&& data.len() == ie + 2 + blk.len()
            &&& le32(data, c) == rows.len()
            &&& data.subrange(c2, c3) == lb
            &&& data.subrange(c3, ie) == idx
            &&& le16(data, ie) == blk.len()
            &&& data.subrange(ie + 2, ie + 2 + blk.len()) == blk
        }),
        cells_readable(idx, blk, names.len(), rows),
    ensures
        parse_binary_body(data, names, c) == Ok::<TableView, TwoDaError>(
            TableView {
                default_value: None,
                columns: seq![row_tag()] + names,
                rows,
                format: TwoDaFormat::Binary,
            },
        ),
{
    let rc = rows.len();
    let dc = names.len();
    let labels = row_labels(rows);
    let lb = tab_list(labels);
    let c2 = c + 4;
    let c3 = c2 + lb.len();
    lemma_tab_list_len(labels);
    lemma_read_tabs(data, c2, labels);
    assert(labels.len() == rc);
    assert(2 * rc * dc == 2 * (rc * dc)) by (nonlinear_arith);
    assert(rc * (dc + 1) <= MAX_CELLS);
    lemma_decode_rows(idx, blk, dc, rows, 0);
    assert(rows.subrange(0, rc as int) =~= rows);
}

/// Law: a binary table that `to_binary` writes reads back unchanged, with
/// `parse_binary` and with `read` on what `write` gives, whenever it is
/// `binary_readable`.
#[verifier::rlimit(50)]
#[verifier::spinoff_prover]
pub proof fn lemma_binary_round_trip(t: TableView)
    requires
        t.format == TwoDaFormat::Binary,
        to_binary_spec(t) is Ok,
        to_binary_spec(t)->Ok_0.len() <= usize::MAX,
        binary_readable(t),
    ensures
        parse_binary_spec(to_binary_spec(t)->Ok_0) == Ok::<TableView, TwoDaError>(t),
        read_spec(write_spec(t)->Ok_0) == Ok::<TableView, TwoDaError>(t),
{
    lemma_binary_accepts(t);
    let cols = t.columns;
    let names = cols.skip(1);
    let rows = t.rows;
    let rc = rows.len();
    let dc = names.len();
    let cells = flat_cells(rows, rc);
    let st = bin_run(cells)->Ok_0;
    let data = to_binary_spec(t)->Ok_0;
    let labels = row_labels(rows);
    let nb = names_bytes(cols, cols.len());
    let lb = labels_bytes(rows, rc);
    lemma_names_bytes(cols, cols.len());
    assert(cols.subrange(1, cols.len() as int) =~= names);
    lemma_labels_bytes(rows, rc);
    assert(labels.take(rc as int) =~= labels);
    lemma_layout_pieces(
        binary_signature_bytes(),
        nb,
        rc as u32,
        lb,
        st.index,
        st.block.len() as u16,
        st.block,
    );
    let c = 9 + nb.len() as int + 1;
    lemma_read_columns(data, 9, names);
    assert(tab_free(labels)) by {
        assert forall|r: int| 0 <= r < labels.len() implies single_byte_ok(#[trigger] labels[r])
            && !contains_char(labels[r], '\t') by {
            assert(labels[r] == rows[r][0]);
        }
    }
    lemma_cells_readable(rows, dc);
    lemma_bin_run_layout(cells);
    lemma_binary_body(data, names, c, rows, st.index, st.block);
    assert(cols =~= seq![row_tag()] + names);
}

} // verus!
