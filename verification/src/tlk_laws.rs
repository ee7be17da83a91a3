//! Round trip of talk tables: what `from_bytes` gives back of `to_bytes`.
use crate::bytes::{le32, le32_bytes, lemma_le32_round_trip};
use crate::text::{contains_char, trim};
use crate::tlk::{
    decode_spec, encode_spec, encoded_strings, entries_spec, entry_base, entry_spec,
    from_bytes_spec, joined, lemma_total_len_prefix, likely_encoding_spec, magic, raw_strings, record_spec,
    non_ascii, records_spec, resref_len, string_ranges, to_bytes_spec, total_len, zeros, EntryView,
    TlkEncoding, TlkError, TlkView,
};
use vstd::prelude::*;
use vstd::utf8::{decode_utf8, encode_utf8, is_ascii_chars, valid_utf8};

verus! {

proof fn lemma_le32_at(data: Seq<u8>, p: int, v: u32)
    requires
        0 <= p,
        p + 4 <= data.len(),
        data.subrange(p, p + 4) == le32_bytes(v),
    ensures
        le32(data, p) == v,
{
    lemma_le32_round_trip(v, data.take(p), data.skip(p + 4));
    assert(data.take(p) + le32_bytes(v) + data.skip(p + 4) =~= data);
}

/// Offset of string `i` in the string data.
pub open spec fn string_offset(ss: Seq<Seq<u8>>, i: int) -> int {
    total_len(ss.take(i)) as int
}

proof fn lemma_offset_step(ss: Seq<Seq<u8>>, i: int)
    requires
        0 <= i < ss.len(),
    ensures
        string_offset(ss, i + 1) == string_offset(ss, i) + ss[i].len(),
{
    assert(ss.take(i + 1).drop_last() =~= ss.take(i));
}

proof fn lemma_joined_len(ss: Seq<Seq<u8>>)
    ensures
        joined(ss).len() == total_len(ss),
    decreases ss.len(),
{
    if ss.len() > 0 {
        lemma_joined_len(ss.drop_last());
    }
}

proof fn lemma_joined_at(ss: Seq<Seq<u8>>, i: int)
    requires
        0 <= i < ss.len(),
    ensures
        joined(ss).subrange(string_offset(ss, i), string_offset(ss, i) + ss[i].len()) == ss[i],
    decreases ss.len(),
{
    let prev = ss.drop_last();
    let n = ss.len() - 1;
    lemma_joined_len(prev);
    assert(joined(ss) == joined(prev) + ss.last());
    if i < n {
        lemma_joined_at(prev, i);
        assert(ss.take(i) =~= prev.take(i));
        lemma_offset_step(prev, i);
        lemma_total_len_prefix(prev, i + 1);
        assert(joined(ss).subrange(string_offset(ss, i), string_offset(ss, i) + ss[i].len())
            =~= joined(prev).subrange(string_offset(prev, i), string_offset(prev, i) + prev[i].len()));
    } else {
        assert(ss.take(i) =~= prev);
        assert(joined(ss).subrange(string_offset(ss, i), string_offset(ss, i) + ss[i].len())
            =~= ss.last());
    }
}

proof fn lemma_record_len(e: EntryView, offset: nat, len: nat)
    requires
        record_spec(e, offset, len) is Ok,
    ensures
        record_spec(e, offset, len)->Ok_0.len() == 40,
{
}

/// The records that `records_spec` writes, 40 bytes each.
proof fn lemma_records(entries: Seq<EntryView>, ss: Seq<Seq<u8>>, k: nat)
    requires
        k <= entries.len(),
        k <= ss.len(),
        records_spec(entries, ss, k) is Ok,
    ensures
        records_spec(entries, ss, k)->Ok_0.len() == 40 * k,
        forall|i: int|
            0 <= i < k ==> record_spec(#[trigger] entries[i], string_offset(ss, i) as nat, ss[i].len())
                is Ok && records_spec(entries, ss, k)->Ok_0.subrange(40 * i, 40 * i + 40)
                == record_spec(entries[i], string_offset(ss, i) as nat, ss[i].len())->Ok_0,
    decreases k,
{
    if k > 0 {
        let k1 = (k - 1) as nat;
        lemma_records(entries, ss, k1);
        let p = records_spec(entries, ss, k1)->Ok_0;
        let r = record_spec(entries[k - 1], total_len(ss.take(k - 1)), ss[k - 1].len())->Ok_0;
        lemma_record_len(entries[k - 1], total_len(ss.take(k - 1)), ss[k - 1].len());
        assert(records_spec(entries, ss, k)->Ok_0 == p + r);
        assert forall|i: int| 0 <= i < k implies record_spec(
            #[trigger] entries[i],
            string_offset(ss, i) as nat,
            ss[i].len(),
        ) is Ok && records_spec(entries, ss, k)->Ok_0.subrange(40 * i, 40 * i + 40)
            == record_spec(entries[i], string_offset(ss, i) as nat, ss[i].len())->Ok_0 by {
            if i < k1 {
                assert((p + r).subrange(40 * i, 40 * i + 40) =~= p.subrange(40 * i, 40 * i + 40));
            } else {
                assert((p + r).subrange(40 * i, 40 * i + 40) =~= r);
            }
        }
    }
}

proof fn lemma_resref_len(rb: Seq<u8>, m: int)
    requires
        0 <= m,
        forall|j: int| 0 <= j < rb.len() ==> rb[j] != 0,
    ensures
        resref_len(rb + zeros(m)) == rb.len(),
    decreases rb.len(),
{
    let f = rb + zeros(m);
    if rb.len() == 0 {
        assert(f =~= zeros(m));
        if m > 0 {
            assert(f[0] == 0);
        }
    } else {
        assert(f[0] == rb[0]);
        assert(f.drop_first() =~= rb.drop_first() + zeros(m));
        lemma_resref_len(rb.drop_first(), m);
    }
}

/// The UTF-8 bytes of an ASCII name without NUL hold no zero byte.
proof fn lemma_ascii_no_zero(name: Seq<char>)
    requires
        is_ascii_chars(name),
        !contains_char(name, '\0'),
    ensures
        forall|j: int| 0 <= j < encode_utf8(name).len() ==> encode_utf8(name)[j] != 0,
{
    vstd::utf8::is_ascii_chars_encode_utf8(name);
    assert forall|j: int| 0 <= j < encode_utf8(name).len() implies encode_utf8(name)[j] != 0 by {
        assert(name[j] as u8 == encode_utf8(name)[j]);
        assert(name[j] as u32 <= 0x7f);
        if name[j] as u8 == 0 {
            assert(name[j] as u32 == 0);
            vstd::utf8::char_u32_cast(name[j], 0);
            vstd::utf8::char_u32_cast('\0', 0);
            assert(contains_char(name, '\0'));
        }
    }
}

/// A name that reads back as written: ASCII, without NUL, and trimmed.
pub open spec fn resref_kept(name: Seq<char>) -> bool {
    &&& !contains_char(name, '\0')
    &&& trim(name) == name
}

proof fn lemma_piece(data: Seq<u8>, base: int, rec: Seq<u8>, k: int, v: u32)
    requires
        0 <= base,
        base + rec.len() <= data.len(),
        data.subrange(base, base + rec.len()) == rec,
        0 <= k,
        k + 4 <= rec.len(),
        rec.subrange(k, k + 4) == le32_bytes(v),
    ensures
        le32(data, base + k) == v,
{
    assert(data.subrange(base + k, base + k + 4) =~= rec.subrange(k, k + 4));
    lemma_le32_at(data, base + k, v);
}

#[verifier::spinoff_prover]
proof fn lemma_record_fields(
    data: Seq<u8>,
    base: int,
    flags: u32,
    rb: Seq<u8>,
    vol: u32,
    pitch: u32,
    off: u32,
    len: u32,
    slb: u32,
)
    requires
        0 <= base,
        base + 40 <= data.len(),
        rb.len() <= 16,
        data.subrange(base, base + 40) == le32_bytes(flags) + rb + zeros(16 - rb.len())
            + le32_bytes(vol) + le32_bytes(pitch) + le32_bytes(off) + le32_bytes(len) + le32_bytes(
            slb,
        ),
    ensures
        le32(data, base) == flags,
        data.subrange(base + 4, base + 20) == rb + zeros(16 - rb.len()),
        le32(data, base + 20) == vol,
        le32(data, base + 24) == pitch,
        le32(data, base + 28) == off,
        le32(data, base + 32) == len,
        le32(data, base + 36) == slb,
{
    let z = zeros(16 - rb.len());
    let rec = le32_bytes(flags) + rb + z + le32_bytes(vol) + le32_bytes(pitch) + le32_bytes(off)
        + le32_bytes(len) + le32_bytes(slb);
    assert(z.len() == 16 - rb.len());
    assert(rec.len() == 40);
    assert(rec.subrange(0, 4) =~= le32_bytes(flags));
    lemma_piece(data, base, rec, 0, flags);
    assert(rec.subrange(20, 24) =~= le32_bytes(vol));
    lemma_piece(data, base, rec, 20, vol);
    assert(rec.subrange(24, 28) =~= le32_bytes(pitch));
    lemma_piece(data, base, rec, 24, pitch);
    assert(rec.subrange(28, 32) =~= le32_bytes(off));
    lemma_piece(data, base, rec, 28, off);
    assert(rec.subrange(32, 36) =~= le32_bytes(len));
    lemma_piece(data, base, rec, 32, len);
    assert(rec.subrange(36, 40) =~= le32_bytes(slb));
    lemma_piece(data, base, rec, 36, slb);
    assert(data.subrange(base + 4, base + 20) =~= rec.subrange(4, 20));
    assert(rec.subrange(4, 20) =~= rb + z);
}

proof fn lemma_entry(
    data: Seq<u8>,
    i: int,
    e: EntryView,
    offset: nat,
    len: nat,
    range: (int, int),
    encoding: TlkEncoding,
)
    requires
        0 <= i,
        entry_base(i) + 40 <= data.len(),
        record_spec(e, offset, len) is Ok,
        data.subrange(entry_base(i), entry_base(i) + 40) == record_spec(e, offset, len)->Ok_0,
        resref_kept(e.sound_resref),
        0 <= range.0 <= range.1 <= data.len(),
        decode_spec(data.subrange(range.0, range.1), encoding) == Some(e.text),
    ensures
        le32(data, entry_base(i) + 28) == offset,
        le32(data, entry_base(i) + 32) == len,
        entry_spec(data, i, range, encoding) == Ok::<EntryView, TlkError>(e),
{
    let base = entry_base(i);
    let rb = encode_utf8(e.sound_resref);
    lemma_record_fields(
        data,
        base,
        e.flags,
        rb,
        e.volume_variance,
        e.pitch_variance,
        offset as u32,
        len as u32,
        e.sound_length_bits,
    );
    let field = data.subrange(base + 4, base + 20);
    lemma_ascii_no_zero(e.sound_resref);
    lemma_resref_len(rb, 16 - rb.len());
    assert(field.take(resref_len(field)) =~= rb);
    vstd::utf8::encode_utf8_valid_utf8(e.sound_resref);
    vstd::utf8::encode_utf8_decode_utf8(e.sound_resref);
}

/// Where each string lies when the string data starts at `s0`.
pub open spec fn string_range(ss: Seq<Seq<u8>>, s0: int, i: int) -> (int, int) {
    (s0 + string_offset(ss, i), s0 + string_offset(ss, i) + ss[i].len())
}

pub open spec fn string_range_seq(ss: Seq<Seq<u8>>, s0: int) -> Seq<(int, int)> {
    Seq::new(ss.len(), |i: int| string_range(ss, s0, i))
}

proof fn lemma_string_ranges(data: Seq<u8>, s0: nat, ss: Seq<Seq<u8>>, k: nat)
    requires
        k <= ss.len(),
        s0 + total_len(ss) <= data.len(),
        data.len() <= usize::MAX,
        forall|i: int|
            0 <= i < ss.len() ==> le32(data, entry_base(i) + 28) == string_offset(ss, i) && le32(
                data,
                entry_base(i) + 32,
            ) == (#[trigger] ss[i]).len(),
    ensures
        string_ranges(data, s0, k) == Ok::<Seq<(int, int)>, TlkError>(
            string_range_seq(ss, s0 as int).take(k as int),
        ),
    decreases k,
{
    if k == 0 {
        assert(string_range_seq(ss, s0 as int).take(0) =~= Seq::<(int, int)>::empty());
    } else {
        let i = k - 1;
        lemma_string_ranges(data, s0, ss, (k - 1) as nat);
        lemma_offset_step(ss, i);
        lemma_total_len_prefix(ss, i + 1);
        assert(le32(data, entry_base(i) + 28) == string_offset(ss, i));
        assert(le32(data, entry_base(i) + 32) == ss[i].len());
        let start = s0 + le32(data, entry_base(i) + 28);
        let end = start + le32(data, entry_base(i) + 32);
        assert(end == s0 + string_offset(ss, i + 1));
        assert(end <= data.len());
        assert((start as int, end as int) == string_range(ss, s0 as int, i));
        assert(string_range_seq(ss, s0 as int).take(k - 1).push(string_range(ss, s0 as int, i))
            =~= string_range_seq(ss, s0 as int).take(k as int));
    }
}

proof fn lemma_entries(
    data: Seq<u8>,
    ranges: Seq<(int, int)>,
    encoding: TlkEncoding,
    entries: Seq<EntryView>,
    k: nat,
)
    requires
        k <= entries.len(),
        forall|i: int|
            0 <= i < entries.len() ==> entry_spec(data, i, ranges[i], encoding) == Ok::<
                EntryView,
                TlkError,
            >(#[trigger] entries[i]),
    ensures
        entries_spec(data, ranges, encoding, k) == Ok::<Seq<EntryView>, TlkError>(
            entries.take(k as int),
        ),
    decreases k,
{
    if k == 0 {
        assert(entries.take(0) =~= Seq::<EntryView>::empty());
    } else {
        lemma_entries(data, ranges, encoding, entries, (k - 1) as nat);
        assert(entries[k - 1] == entries[k - 1]);
        assert(entries.take(k - 1).push(entries[k - 1]) =~= entries.take(k as int));
    }
}

proof fn lemma_header(
    language_id: u32,
    n: u32,
    s0: u32,
    idx: Seq<u8>,
    strings: Seq<u8>,
)
    ensures
        ({
            let data = magic() + le32_bytes(language_id) + le32_bytes(n) + le32_bytes(s0) + idx
                + strings;
            &&& data.len() == 20 + idx.len() + strings.len()
            &&& data.take(8) == magic()
            &&& le32(data, 8) == language_id
            &&& le32(data, 12) == n
            &&& le32(data, 16) == s0
            &&& data.subrange(20, 20 + idx.len() as int) == idx
            &&& data.subrange(20 + idx.len() as int, data.len() as int) == strings
        }),
{
    let data = magic() + le32_bytes(language_id) + le32_bytes(n) + le32_bytes(s0) + idx + strings;
    assert(data.take(8) =~= magic());
    assert(data.subrange(8, 12) =~= le32_bytes(language_id));
    lemma_le32_at(data, 8, language_id);
    assert(data.subrange(12, 16) =~= le32_bytes(n));
    lemma_le32_at(data, 12, n);
    assert(data.subrange(16, 20) =~= le32_bytes(s0));
    lemma_le32_at(data, 16, s0);
    assert(data.subrange(20, 20 + idx.len() as int) =~= idx);
    assert(data.subrange(20 + idx.len() as int, data.len() as int) =~= strings);
}

proof fn lemma_encoded(entries: Seq<EntryView>, encoding: TlkEncoding, k: nat)
    requires
        k <= entries.len(),
        encoded_strings(entries, encoding, k) is Ok,
    ensures
        encoded_strings(entries, encoding, k)->Ok_0.len() == k,
        forall|i: int|
            0 <= i < k ==> encode_spec(#[trigger] entries[i].text, encoding) == Some(
                encoded_strings(entries, encoding, k)->Ok_0[i],
            ),
    decreases k,
{
    if k > 0 {
        lemma_encoded(entries, encoding, (k - 1) as nat);
    }
}

/// The strings that `to_bytes` writes, in their encoding.
pub open spec fn written_strings(f: TlkView) -> Seq<Seq<u8>> {
    encoded_strings(f.entries, f.encoding, f.entries.len())->Ok_0
}

/// The encoding that `from_bytes` detects in what `to_bytes` writes.
pub open spec fn detected_encoding(f: TlkView) -> TlkEncoding {
    likely_encoding_spec(f.language_id, written_strings(f))
}

proof fn lemma_entry_at(f: TlkView, i: int)
    requires
        to_bytes_spec(f) is Ok,
        0 <= i < f.entries.len(),
        resref_kept(f.entries[i].sound_resref),
        decode_spec(written_strings(f)[i], detected_encoding(f)) == Some(f.entries[i].text),
    ensures
        ({
            let ss = written_strings(f);
            let data = to_bytes_spec(f)->Ok_0;
            let r = string_range(ss, 20 + 40 * f.entries.len() as int, i);
            &&& le32(data, entry_base(i) + 28) == string_offset(ss, i)
            &&& le32(data, entry_base(i) + 32) == ss[i].len()
            &&& entry_spec(data, i, r, detected_encoding(f)) == Ok::<EntryView, TlkError>(f.entries[i])
            &&& data.subrange(r.0, r.1) == ss[i]
        }),
{
    let n = f.entries.len();
    let ss = written_strings(f);
    lemma_encoded(f.entries, f.encoding, n);
    let s0 = 20 + 40 * n;
    let idx = records_spec(f.entries, ss, n)->Ok_0;
    lemma_records(f.entries, ss, n);
    lemma_joined_len(ss);
    let data = to_bytes_spec(f)->Ok_0;
    assert(data == magic() + le32_bytes(f.language_id) + le32_bytes(n as u32) + le32_bytes(
        s0 as u32,
    ) + idx + joined(ss));
    lemma_header(f.language_id, n as u32, s0 as u32, idx, joined(ss));
    let r = string_range(ss, s0 as int, i);
    assert(data.subrange(entry_base(i), entry_base(i) + 40) =~= idx.subrange(40 * i, 40 * i + 40));
    lemma_total_len_prefix(ss, i);
    lemma_offset_step(ss, i);
    lemma_total_len_prefix(ss, i + 1);
    lemma_joined_at(ss, i);
    assert(data.subrange(r.0, r.1) =~= joined(ss).subrange(
        string_offset(ss, i),
        string_offset(ss, i) + ss[i].len(),
    ));
    lemma_entry(data, i, f.entries[i], string_offset(ss, i) as nat, ss[i].len(), r, detected_encoding(f));
}

/// Law: a talk table that `to_bytes` writes reads back with `from_bytes` with
/// its language id and every entry (flags, sound ResRef, variances, sound
/// length and text) unchanged, when each sound ResRef holds no NUL and no
/// surrounding whitespace and each written string decodes back to its text in
/// the encoding that reading detects.
#[verifier::spinoff_prover]
pub proof fn lemma_tlk_round_trip(f: TlkView)
    requires
        to_bytes_spec(f) is Ok,
        forall|i: int| 0 <= i < f.entries.len() ==> resref_kept(#[trigger] f.entries[i].sound_resref),
        forall|i: int|
            0 <= i < f.entries.len() ==> decode_spec(
                #[trigger] written_strings(f)[i],
                detected_encoding(f),
            ) == Some(f.entries[i].text),
    ensures
        from_bytes_spec(to_bytes_spec(f)->Ok_0) == Ok::<TlkView, TlkError>(
            TlkView { language_id: f.language_id, encoding: detected_encoding(f), entries: f.entries },
        ),
{
    let n = f.entries.len();
    let ss = written_strings(f);
    lemma_encoded(f.entries, f.encoding, n);
    let s0 = 20 + 40 * n;
    let idx = records_spec(f.entries, ss, n)->Ok_0;
    lemma_records(f.entries, ss, n);
    lemma_joined_len(ss);
    let data = to_bytes_spec(f)->Ok_0;
    assert(data == magic() + le32_bytes(f.language_id) + le32_bytes(n as u32) + le32_bytes(
        s0 as u32,
    ) + idx + joined(ss));
    lemma_header(f.language_id, n as u32, s0 as u32, idx, joined(ss));
    let d = detected_encoding(f);
    let ranges = string_range_seq(ss, s0 as int);
    assert forall|i: int| 0 <= i < n implies le32(data, entry_base(i) + 28) == string_offset(ss, i)
        && le32(data, entry_base(i) + 32) == (#[trigger] ss[i]).len() && entry_spec(
        data,
        i,
        ranges[i],
        d,
    ) == Ok::<EntryView, TlkError>(f.entries[i]) && data.subrange(ranges[i].0, ranges[i].1) == ss[i] by {
        lemma_entry_at(f, i);
    }
    lemma_string_ranges(data, s0, ss, n);
    assert(ranges.take(n as int) =~= ranges);
    assert(raw_strings(data, ranges) =~= ss);
    lemma_entries(data, ranges, d, f.entries, n);
    assert(f.entries.take(n as int) =~= f.entries);
}

/// Law: a UTF-8 talk table that reading detects as UTF-8 reads back exactly
/// as it was written, when each sound ResRef holds no NUL and no surrounding
/// whitespace.
pub proof fn lemma_tlk_utf8_round_trip(f: TlkView)
    requires
        f.encoding == TlkEncoding::Utf8,
        to_bytes_spec(f) is Ok,
        detected_encoding(f) == TlkEncoding::Utf8,
        forall|i: int| 0 <= i < f.entries.len() ==> resref_kept(#[trigger] f.entries[i].sound_resref),
    ensures
        from_bytes_spec(to_bytes_spec(f)->Ok_0) == Ok::<TlkView, TlkError>(f),
{
    let n = f.entries.len();
    lemma_encoded(f.entries, f.encoding, n);
    assert forall|i: int| 0 <= i < n implies decode_spec(
        #[trigger] written_strings(f)[i],
        detected_encoding(f),
    ) == Some(f.entries[i].text) by {
        assert(encode_spec(f.entries[i].text, f.encoding) == Some(written_strings(f)[i]));
        vstd::utf8::encode_utf8_valid_utf8(f.entries[i].text);
        vstd::utf8::encode_utf8_decode_utf8(f.entries[i].text);
    }
    lemma_tlk_round_trip(f);
}

// ---------------------------------------------------------------------------
// Which encoding reading detects.
/// Bytes that are all ASCII.
pub open spec fn all_ascii(s: Seq<u8>) -> bool {
    forall|i: int| 0 <= i < s.len() ==> #[trigger] s[i] < 0x80
}

proof fn lemma_non_ascii_of_ascii(s: Seq<u8>)
    requires
        all_ascii(s),
    ensures
        non_ascii(s).len() == 0,
    decreases s.len(),
{
    if s.len() > 0 {
        assert(s[s.len() - 1] < 0x80);
        lemma_non_ascii_of_ascii(s.drop_last());
    }
}

proof fn lemma_joined_ascii(strings: Seq<Seq<u8>>)
    requires
        forall|i: int| 0 <= i < strings.len() ==> all_ascii(#[trigger] strings[i]),
    ensures
        all_ascii(joined(strings)),
    decreases strings.len(),
{
    if strings.len() > 0 {
        let p = strings.drop_last();
        assert forall|i: int| 0 <= i < p.len() implies all_ascii(#[trigger] p[i]) by {
            assert(p[i] == strings[i]);
        }
        lemma_joined_ascii(p);
        let l = strings.last();
        assert(all_ascii(strings[strings.len() - 1]));
        let j = joined(p) + l;
        assert forall|k: int| 0 <= k < j.len() implies #[trigger] j[k] < 0x80 by {
            if k < joined(p).len() {
                assert(j[k] == joined(p)[k]);
            } else {
                assert(j[k] == l[k - joined(p).len()]);
            }
        }
    }
}

/// Law: the encoding that reading a talk table detects. When the non-ASCII
/// bytes of its strings are there and form valid UTF-8, it is UTF-8.
/// Otherwise (and in particular when every string is plain ASCII) the
/// language id decides: Polish (5) is Windows-1250, Korean (128) Windows-949,
/// Traditional Chinese (129) Big5, Simplified Chinese (130) GBK, Japanese
/// (131) Shift-JIS, and every other language, English, French, German,
/// Italian and Spanish among them, Windows-1252.
pub proof fn lemma_detected_encoding(language_id: u32, strings: Seq<Seq<u8>>)
    ensures
        ({
            let na = non_ascii(joined(strings));
            let r = likely_encoding_spec(language_id, strings);
            &&& na.len() > 0 && valid_utf8(na) ==> r == TlkEncoding::Utf8
            &&& !(na.len() > 0 && valid_utf8(na)) ==> {
                &&& language_id == 5 ==> r == TlkEncoding::Windows1250
                &&& language_id == 128 ==> r == TlkEncoding::Korean
                &&& language_id == 129 ==> r == TlkEncoding::Big5
                &&& language_id == 130 ==> r == TlkEncoding::Gbk
                &&& language_id == 131 ==> r == TlkEncoding::ShiftJis
                &&& (language_id != 5 && language_id != 128 && language_id != 129
                    && language_id != 130 && language_id != 131) ==> r == TlkEncoding::Windows1252
            }
            &&& language_id <= 4 && !(na.len() > 0 && valid_utf8(na)) ==> r
                == TlkEncoding::Windows1252
        }),
        (forall|i: int| 0 <= i < strings.len() ==> all_ascii(#[trigger] strings[i]))
            ==> likely_encoding_spec(language_id, strings) == (if language_id == 5 {
            TlkEncoding::Windows1250
        } else if language_id == 128 {
            TlkEncoding::Korean
        } else if language_id == 129 {
            TlkEncoding::Big5
        } else if language_id == 130 {
            TlkEncoding::Gbk
        } else if language_id == 131 {
            TlkEncoding::ShiftJis
        } else {
            TlkEncoding::Windows1252
        }),
{
    if forall|i: int| 0 <= i < strings.len() ==> all_ascii(#[trigger] strings[i]) {
        lemma_joined_ascii(strings);
        lemma_non_ascii_of_ascii(joined(strings));
    }
}

/// Law: a talk table that `from_bytes` reads has the encoding that its
/// language id names (see `lemma_detected_encoding`) unless its strings'
/// non-ASCII bytes are valid UTF-8, in which case UTF-8; a French (1) or
/// English (0) table is never read as Windows-1250.
pub proof fn lemma_read_encoding(data: Seq<u8>)
    ensures
        from_bytes_spec(data) matches Ok(v) ==> {
            ||| v.encoding == TlkEncoding::Utf8
            ||| v.language_id == 5 && v.encoding == TlkEncoding::Windows1250
            ||| v.language_id == 128 && v.encoding == TlkEncoding::Korean
            ||| v.language_id == 129 && v.encoding == TlkEncoding::Big5
            ||| v.language_id == 130 && v.encoding == TlkEncoding::Gbk
            ||| v.language_id == 131 && v.encoding == TlkEncoding::ShiftJis
            ||| (v.language_id != 5 && v.language_id != 128 && v.language_id != 129
                && v.language_id != 130 && v.language_id != 131) && v.encoding
                == TlkEncoding::Windows1252
        },
{
    if from_bytes_spec(data) is Ok {
        let count = le32(data, 12);
        let ss = le32(data, 16);
        let ranges = string_ranges(data, ss, count)->Ok_0;
        lemma_detected_encoding(le32(data, 8) as u32, raw_strings(data, ranges));
    }
}

} // verus!
