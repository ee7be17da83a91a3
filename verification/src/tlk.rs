//! Talk tables (`TLK V3.0`).
use crate::bytes::{le32, le32_bytes, push_bytes, push_le32, read_le32};
use crate::text::{is_ws, trim, trim_end_range, trim_start_from, utf8_decode};
use vstd::prelude::*;
use vstd::utf8::{decode_utf8, encode_utf8, is_ascii_chars, valid_utf8};

verus! {

pub const HEADER_SIZE: usize = 20;

pub const ENTRY_SIZE: usize = 40;

/// The text encoding of a talk table's strings.
#[derive(Clone, Copy, Debug, Default, PartialEq, Eq, Structural)]
pub enum TlkEncoding {
    #[default]
    Utf8,
    Windows1252,
    Windows1250,
    Korean,
    Big5,
    Gbk,
    ShiftJis,
}

pub open spec fn encoding_label(e: TlkEncoding) -> Seq<char> {
    match e {
        TlkEncoding::Utf8 => "UTF-8 (NWN2 / modern)"@,
        TlkEncoding::Windows1252 => "Windows-1252 (Western NWN1)"@,
        TlkEncoding::Windows1250 => "Windows-1250 (Polish NWN1)"@,
        TlkEncoding::Korean => "Windows-949 (Korean)"@,
        TlkEncoding::Big5 => "Big5 (Traditional Chinese)"@,
        TlkEncoding::Gbk => "GBK (Simplified Chinese)"@,
        TlkEncoding::ShiftJis => "Shift-JIS (Japanese)"@,
    }
}

/// The WHATWG label of the codec that reads and writes a legacy encoding.
pub open spec fn codec_label(e: TlkEncoding) -> Seq<char> {
    match e {
        TlkEncoding::Utf8 => "utf-8"@,
        TlkEncoding::Windows1252 => "windows-1252"@,
        TlkEncoding::Windows1250 => "windows-1250"@,
        TlkEncoding::Korean => "euc-kr"@,
        TlkEncoding::Big5 => "big5"@,
        TlkEncoding::Gbk => "gbk"@,
        TlkEncoding::ShiftJis => "shift_jis"@,
    }
}

pub open spec fn is_legacy_label(l: Seq<char>) -> bool {
    ||| l == "windows-1252"@
    ||| l == "windows-1250"@
    ||| l == "euc-kr"@
    ||| l == "big5"@
    ||| l == "gbk"@
    ||| l == "shift_jis"@
}

impl TlkEncoding {
    /// A human-readable name of the encoding.
    pub fn label(self) -> (r: &'static str)
        ensures
            r@ == encoding_label(self),
    {
        match self {
            TlkEncoding::Utf8 => "UTF-8 (NWN2 / modern)",
            TlkEncoding::Windows1252 => "Windows-1252 (Western NWN1)",
            TlkEncoding::Windows1250 => "Windows-1250 (Polish NWN1)",
            TlkEncoding::Korean => "Windows-949 (Korean)",
            TlkEncoding::Big5 => "Big5 (Traditional Chinese)",
            TlkEncoding::Gbk => "GBK (Simplified Chinese)",
            TlkEncoding::ShiftJis => "Shift-JIS (Japanese)",
        }
    }
}

fn codec_label_str(e: TlkEncoding) -> (r: &'static str)
    ensures
        r@ == codec_label(e),
        e != TlkEncoding::Utf8 ==> is_legacy_label(r@),
{
    match e {
        TlkEncoding::Utf8 => "utf-8",
        TlkEncoding::Windows1252 => "windows-1252",
        TlkEncoding::Windows1250 => "windows-1250",
        TlkEncoding::Korean => "euc-kr",
        TlkEncoding::Big5 => "big5",
        TlkEncoding::Gbk => "gbk",
        TlkEncoding::ShiftJis => "shift_jis",
    }
}

/// What `encoding_rs` decodes `bytes` to with the codec of `label`, and whether
/// it met malformed input.
pub uninterp spec fn legacy_decode(label: Seq<char>, bytes: Seq<u8>) -> (Seq<char>, bool);

/// What `encoding_rs` encodes `text` to with the codec of `label`, and whether
/// it met unmappable characters.
pub uninterp spec fn legacy_encode(label: Seq<char>, text: Seq<char>) -> (Seq<u8>, bool);

/// `encoding_rs::Encoding::decode` on the codec that `Encoding::for_label` finds
/// for `label`: the result is `legacy_decode(label, bytes)`; nothing more is
/// claimed about the codec's tables.
#[verifier::external_body]
fn decode_legacy(label: &str, bytes: &[u8]) -> (r: (String, bool))
    requires
        is_legacy_label(label@),
        bytes@.len() <= usize::MAX / 8,
    ensures
        r.0@ == legacy_decode(label@, bytes@).0,
        r.1 == legacy_decode(label@, bytes@).1,
{
    let codec = encoding_rs::Encoding::for_label(label.as_bytes()).unwrap();
    let (text, _, had_errors) = codec.decode(bytes);
    (text.into_owned(), had_errors)
}

/// `encoding_rs::Encoding::encode` on the codec that `Encoding::for_label` finds
/// for `label`: the result is `legacy_encode(label, text)`; nothing more is
/// claimed about the codec's tables.
#[verifier::external_body]
fn encode_legacy(label: &str, text: &str) -> (r: (Vec<u8>, bool))
    requires
        is_legacy_label(label@),
        encode_utf8(text@).len() <= usize::MAX / 8,
    ensures
        r.0@ == legacy_encode(label@, text@).0,
        r.1 == legacy_encode(label@, text@).1,
{
    let codec = encoding_rs::Encoding::for_label(label.as_bytes()).unwrap();
    let (bytes, _, had_errors) = codec.encode(text);
    (bytes.into_owned(), had_errors)
}

/// The text that `bytes` hold in `encoding`, if they are valid for it.
pub open spec fn decode_spec(bytes: Seq<u8>, encoding: TlkEncoding) -> Option<Seq<char>> {
    if encoding == TlkEncoding::Utf8 {
        if valid_utf8(bytes) {
            Some(decode_utf8(bytes))
        } else {
            None
        }
    } else if legacy_decode(codec_label(encoding), bytes).1 {
        None
    } else {
        Some(legacy_decode(codec_label(encoding), bytes).0)
    }
}

/// The bytes of `text` in `encoding`, if every character is representable.
pub open spec fn encode_spec(text: Seq<char>, encoding: TlkEncoding) -> Option<Seq<u8>> {
    if encoding == TlkEncoding::Utf8 {
        Some(encode_utf8(text))
    } else if legacy_encode(codec_label(encoding), text).1 {
        None
    } else {
        Some(legacy_encode(codec_label(encoding), text).0)
    }
}

pub fn decode(bytes: &[u8], encoding: TlkEncoding) -> (r: Option<String>)
    requires
        bytes@.len() <= usize::MAX / 8,
    ensures
        r matches Some(s) ==> decode_spec(bytes@, encoding) == Some(s@),
        r is None ==> decode_spec(bytes@, encoding) is None,
{
    if encoding == TlkEncoding::Utf8 {
        utf8_decode(bytes)
    } else {
        let (text, had_errors) = decode_legacy(codec_label_str(encoding), bytes);
        if had_errors {
            None
        } else {
            Some(text)
        }
    }
}

pub fn encode(text: &String, encoding: TlkEncoding) -> (r: Option<Vec<u8>>)
    requires
        encode_utf8(text@).len() <= usize::MAX / 8,
    ensures
        r matches Some(b) ==> encode_spec(text@, encoding) == Some(b@),
        r is None ==> encode_spec(text@, encoding) is None,
{
    if encoding == TlkEncoding::Utf8 {
        Some(vstd::slice::slice_to_vec(text.as_str().as_bytes()))
    } else {
        let (bytes, had_errors) = encode_legacy(codec_label_str(encoding), text.as_str());
        if had_errors {
            None
        } else {
            Some(bytes)
        }
    }
}

} // verus!

verus! {

/// One talk-table string with its sound metadata. The sound length is kept as
/// the bits of its 32-bit float.
#[derive(Clone, Debug, Default, PartialEq)]
pub struct TlkEntry {
    pub flags: u32,
    pub sound_resref: String,
    pub volume_variance: u32,
    pub pitch_variance: u32,
    pub sound_length_bits: u32,
    pub text: String,
}

#[derive(Clone, Debug, PartialEq)]
pub struct TlkFile {
    pub language_id: u32,
    pub encoding: TlkEncoding,
    pub entries: Vec<TlkEntry>,
}

pub struct EntryView {
    pub flags: u32,
    pub sound_resref: Seq<char>,
    pub volume_variance: u32,
    pub pitch_variance: u32,
    pub sound_length_bits: u32,
    pub text: Seq<char>,
}

pub struct TlkView {
    pub language_id: u32,
    pub encoding: TlkEncoding,
    pub entries: Seq<EntryView>,
}

impl View for TlkEntry {
    type V = EntryView;

    open spec fn view(&self) -> EntryView {
        EntryView {
            flags: self.flags,
            sound_resref: self.sound_resref@,
            volume_variance: self.volume_variance,
            pitch_variance: self.pitch_variance,
            sound_length_bits: self.sound_length_bits,
            text: self.text@,
        }
    }
}

pub open spec fn entry_views(v: Seq<TlkEntry>) -> Seq<EntryView> {
    v.map_values(|e: TlkEntry| e@)
}

impl View for TlkFile {
    type V = TlkView;

    open spec fn view(&self) -> TlkView {
        TlkView { language_id: self.language_id, encoding: self.encoding, entries: entry_views(self.entries@) }
    }
}

impl Default for TlkFile {
    fn default() -> (r: Self)
        ensures
            r.language_id == 0,
            r.encoding == TlkEncoding::Windows1252,
            r.entries@.len() == 0,
    {
        TlkFile { language_id: 0, encoding: TlkEncoding::Windows1252, entries: Vec::new() }
    }
}

/// Why a talk table could not be read or written.
#[derive(Clone, Copy, Debug, PartialEq, Eq)]
pub enum TlkError {
    NotTlk,
    UnexpectedEnd,
    TooLarge,
    IndexBeyondEnd,
    InvalidOffset,
    InvalidLength,
    StringBeyondEnd { index: usize },
    NonUtf8ResRef,
    Decode { index: usize },
    Encode { index: usize },
    IndexTooLarge,
    StringsTooLarge,
    TooManyEntries,
    ResRefTooLong,
    ResRefNotAscii,
    StringTooLarge,
}

/// The 32-bit little-endian value at `pos`.
pub fn u32_at(data: &[u8], pos: usize) -> (r: Result<u32, TlkError>)
    ensures
        pos + 4 <= data@.len() ==> r == Ok::<u32, TlkError>(le32(data@, pos as int) as u32),
        pos + 4 > data@.len() ==> r == Err::<u32, TlkError>(TlkError::UnexpectedEnd),
{
    if data.len() < 4 || pos > data.len() - 4 {
        return Err(TlkError::UnexpectedEnd);
    }
    Ok(read_le32(data, pos))
}

/// Non-ASCII bytes of `s`, in order.
pub open spec fn non_ascii(s: Seq<u8>) -> Seq<u8>
    decreases s.len(),
{
    if s.len() == 0 {
        seq![]
    } else if s.last() >= 0x80 {
        non_ascii(s.drop_last()).push(s.last())
    } else {
        non_ascii(s.drop_last())
    }
}

pub open spec fn joined(strings: Seq<Seq<u8>>) -> Seq<u8>
    decreases strings.len(),
{
    if strings.len() == 0 {
        seq![]
    } else {
        joined(strings.drop_last()) + strings.last()
    }
}

/// UTF-8 when the strings' non-ASCII bytes are non-empty valid UTF-8; otherwise
/// the legacy encoding that the language id implies.
pub open spec fn likely_encoding_spec(language_id: u32, strings: Seq<Seq<u8>>) -> TlkEncoding {
    let na = non_ascii(joined(strings));
    if na.len() > 0 && valid_utf8(na) {
        TlkEncoding::Utf8
    } else if language_id == 5 {
        TlkEncoding::Windows1250
    } else if language_id == 128 {
        TlkEncoding::Korean
    } else if language_id == 129 {
        TlkEncoding::Big5
    } else if language_id == 130 {
        TlkEncoding::Gbk
    } else if language_id == 131 {
        TlkEncoding::ShiftJis
    } else {
        TlkEncoding::Windows1252
    }
}

pub open spec fn slice_views(v: Seq<&[u8]>) -> Seq<Seq<u8>> {
    v.map_values(|s: &[u8]| s@)
}

/// Guesses the encoding of a talk table's strings.
pub fn likely_encoding(language_id: u32, strings: &[&[u8]]) -> (r: TlkEncoding)
    ensures
        r == likely_encoding_spec(language_id, slice_views(strings@)),
{
    let ghost sv = slice_views(strings@);
    let mut na: Vec<u8> = Vec::new();
    let mut i: usize = 0;
    assert(sv.take(0) =~= Seq::<Seq<u8>>::empty());
    while i < strings.len()
        invariant
            sv == slice_views(strings@),
            i <= strings@.len(),
            na@ == non_ascii(joined(sv.take(i as int))),
        decreases strings@.len() - i,
    {
        let s: &[u8] = strings[i];
        let ghost prefix = joined(sv.take(i as int));
        let mut j: usize = 0;
        assert(prefix + s@.take(0) =~= prefix);
        while j < s.len()
            invariant
                i < strings@.len(),
                sv == slice_views(strings@),
                s@ == sv[i as int],
                prefix == joined(sv.take(i as int)),
                j <= s@.len(),
                na@ == non_ascii(prefix + s@.take(j as int)),
            decreases s@.len() - j,
        {
            assert((prefix + s@.take(j + 1)).drop_last() =~= prefix + s@.take(j as int));
            assert((prefix + s@.take(j + 1)).last() == s@[j as int]);
            if s[j] >= 0x80 {
                na.push(s[j]);
            }
            j = j + 1;
        }
        assert(sv.take(i + 1).drop_last() =~= sv.take(i as int));
        assert(s@.take(s@.len() as int) =~= s@);
        i = i + 1;
    }
    assert(sv.take(strings@.len() as int) =~= sv);
    if na.len() > 0 && utf8_decode(na.as_slice()).is_some() {
        return TlkEncoding::Utf8;
    }
    if language_id == 5 {
        TlkEncoding::Windows1250
    } else if language_id == 128 {
        TlkEncoding::Korean
    } else if language_id == 129 {
        TlkEncoding::Big5
    } else if language_id == 130 {
        TlkEncoding::Gbk
    } else if language_id == 131 {
        TlkEncoding::ShiftJis
    } else {
        TlkEncoding::Windows1252
    }
}

} // verus!

verus! {

pub open spec fn magic() -> Seq<u8> {
    seq![0x54u8, 0x4c, 0x4b, 0x20, 0x56, 0x33, 0x2e, 0x30]
}

pub open spec fn entry_base(i: int) -> int {
    20 + 40 * i
}

/// Byte ranges of the first `k` strings, or why one of them is invalid.
pub open spec fn string_ranges(data: Seq<u8>, ss: nat, k: nat) -> Result<Seq<(int, int)>, TlkError>
    decreases k,
{
    if k == 0 {
        Ok(seq![])
    } else {
        match string_ranges(data, ss, (k - 1) as nat) {
            Err(e) => Err(e),
            Ok(rs) => {
                let i = k - 1;
                let start = ss + le32(data, entry_base(i) + 28);
                let end = start + le32(data, entry_base(i) + 32);
                if start > usize::MAX {
                    Err(TlkError::InvalidOffset)
                } else if end > usize::MAX {
                    Err(TlkError::InvalidLength)
                } else if end > data.len() {
                    Err(TlkError::StringBeyondEnd { index: i as usize })
                } else {
                    Ok(rs.push((start as int, end as int)))
                }
            },
        }
    }
}

pub open spec fn raw_strings(data: Seq<u8>, ranges: Seq<(int, int)>) -> Seq<Seq<u8>> {
    ranges.map_values(|r: (int, int)| data.subrange(r.0, r.1))
}

/// Length of a sound ResRef field: up to its first NUL, at most 16 bytes.
pub open spec fn resref_len(field: Seq<u8>) -> int
    decreases field.len(),
{
    if field.len() == 0 {
        0
    } else if field[0] == 0 {
        0
    } else {
        1 + resref_len(field.drop_first())
    }
}

pub open spec fn entry_spec(data: Seq<u8>, i: int, range: (int, int), encoding: TlkEncoding) -> Result<
    EntryView,
    TlkError,
> {
    let base = entry_base(i);
    let field = data.subrange(base + 4, base + 20);
    let name = field.take(resref_len(field));
    if !valid_utf8(name) {
        Err(TlkError::NonUtf8ResRef)
    } else {
        match decode_spec(data.subrange(range.0, range.1), encoding) {
            None => Err(TlkError::Decode { index: i as usize }),
            Some(text) => Ok(
                EntryView {
                    flags: le32(data, base) as u32,
                    sound_resref: trim(decode_utf8(name)),
                    volume_variance: le32(data, base + 20) as u32,
                    pitch_variance: le32(data, base + 24) as u32,
                    sound_length_bits: le32(data, base + 36) as u32,
                    text,
                },
            ),
        }
    }
}

pub open spec fn entries_spec(
    data: Seq<u8>,
    ranges: Seq<(int, int)>,
    encoding: TlkEncoding,
    k: nat,
) -> Result<Seq<EntryView>, TlkError>
    decreases k,
{
    if k == 0 {
        Ok(seq![])
    } else {
        match entries_spec(data, ranges, encoding, (k - 1) as nat) {
            Err(e) => Err(e),
            Ok(es) => match entry_spec(data, k - 1, ranges[k - 1], encoding) {
                Err(e) => Err(e),
                Ok(entry) => Ok(es.push(entry)),
            },
        }
    }
}

/// A `TLK V3.0` file: header (magic, language id, string count, start of the
/// string data), one 40-byte record per string, then the string data.
pub open spec fn from_bytes_spec(data: Seq<u8>) -> Result<TlkView, TlkError> {
    if data.len() < 8 || data.take(8) != magic() {
        Err(TlkError::NotTlk)
    } else if data.len() < 20 {
        Err(TlkError::UnexpectedEnd)
    } else {
        let language_id = le32(data, 8) as u32;
        let count = le32(data, 12);
        let ss = le32(data, 16);
        if 20 + 40 * count > usize::MAX {
            Err(TlkError::TooLarge)
        } else if 20 + 40 * count > data.len() || ss > data.len() {
            Err(TlkError::IndexBeyondEnd)
        } else {
            match string_ranges(data, ss, count) {
                Err(e) => Err(e),
                Ok(ranges) => {
                    let encoding = likely_encoding_spec(language_id, raw_strings(data, ranges));
                    match entries_spec(data, ranges, encoding, count) {
                        Err(e) => Err(e),
                        Ok(entries) => Ok(TlkView { language_id, encoding, entries }),
                    }
                },
            }
        }
    }
}

pub open spec fn tlk_result(r: Result<TlkFile, TlkError>) -> Result<TlkView, TlkError> {
    match r {
        Ok(f) => Ok(f@),
        Err(e) => Err(e),
    }
}

fn trimmed_string(s: &String) -> (r: String)
    ensures
        r@ == trim(s@),
{
    let v = crate::text::chars_of(s.as_str());
    let e = trim_end_range(v.as_slice(), 0, v.len());
    let a = trim_start_from(v.as_slice(), 0, e);
    assert(v@.subrange(0, v@.len() as int) == v@);
    crate::text::string_of_range(v.as_slice(), a, e)
}

pub open spec fn int_ranges(r: Seq<(usize, usize)>) -> Seq<(int, int)> {
    r.map_values(|p: (usize, usize)| (p.0 as int, p.1 as int))
}

pub proof fn lemma_ranges_err(data: Seq<u8>, ss: nat, k: nat, n: nat)
    requires
        k <= n,
        string_ranges(data, ss, k) is Err,
    ensures
        string_ranges(data, ss, n) == string_ranges(data, ss, k),
    decreases n,
{
    if k < n {
        lemma_ranges_err(data, ss, k, (n - 1) as nat);
    }
}

pub proof fn lemma_ranges_ok(data: Seq<u8>, ss: nat, k: nat)
    requires
        string_ranges(data, ss, k) is Ok,
    ensures
        string_ranges(data, ss, k)->Ok_0.len() == k,
        forall|j: int|
            0 <= j < k ==> 0 <= (#[trigger] string_ranges(data, ss, k)->Ok_0[j]).0 <= string_ranges(
                data,
                ss,
                k,
            )->Ok_0[j].1 <= data.len(),
    decreases k,
{
    if k > 0 {
        lemma_ranges_ok(data, ss, (k - 1) as nat);
    }
}

pub proof fn lemma_entries_err(
    data: Seq<u8>,
    ranges: Seq<(int, int)>,
    encoding: TlkEncoding,
    k: nat,
    n: nat,
)
    requires
        k <= n,
        entries_spec(data, ranges, encoding, k) is Err,
    ensures
        entries_spec(data, ranges, encoding, n) == entries_spec(data, ranges, encoding, k),
    decreases n,
{
    if k < n {
        lemma_entries_err(data, ranges, encoding, k, (n - 1) as nat);
    }
}

fn read_ranges(data: &[u8], strings_start: usize, count: usize) -> (r: Result<
    Vec<(usize, usize)>,
    TlkError,
>)
    requires
        20 + 40 * count <= data@.len(),
    ensures
        r matches Ok(v) ==> string_ranges(data@, strings_start as nat, count as nat) == Ok::<
            Seq<(int, int)>,
            TlkError,
        >(int_ranges(v@)) && v@.len() == count && forall|j: int|
            0 <= j < v@.len() ==> #[trigger] v@[j].0 <= v@[j].1 <= data@.len(),
        r matches Err(e) ==> string_ranges(data@, strings_start as nat, count as nat) == Err::<
            Seq<(int, int)>,
            TlkError,
        >(e),
{
    let ghost d = data@;
    let ghost ss = strings_start as nat;
    let mut ranges: Vec<(usize, usize)> = Vec::new();
    let mut k: usize = 0;
    assert(int_ranges(ranges@) =~= Seq::<(int, int)>::empty());
    while k < count
        invariant
            d == data@,
            ss == strings_start as nat,
            k <= count,
            20 + 40 * count <= d.len(),
            ranges@.len() == k,
            string_ranges(d, ss, k as nat) == Ok::<Seq<(int, int)>, TlkError>(int_ranges(ranges@)),
            forall|j: int| 0 <= j < ranges@.len() ==> #[trigger] ranges@[j].0 <= ranges@[j].1 <= d.len(),
        decreases count - k,
    {
        assert(20 + 40 * k + 40 <= 20 + 40 * count) by (nonlinear_arith)
            requires
                k < count,
        ;
        let total = data.len();
        let base = 20 + 40 * k;
        assert(base == entry_base(k as int));
        let offset = read_le32(data, base + 28) as usize;
        let length = read_le32(data, base + 32) as usize;
        if strings_start > usize::MAX - offset {
            proof {
                lemma_ranges_err(d, ss, (k + 1) as nat, count as nat);
            }
            return Err(TlkError::InvalidOffset);
        }
        let start = strings_start + offset;
        if start > usize::MAX - length {
            proof {
                lemma_ranges_err(d, ss, (k + 1) as nat, count as nat);
            }
            return Err(TlkError::InvalidLength);
        }
        let end = start + length;
        if end > data.len() {
            proof {
                lemma_ranges_err(d, ss, (k + 1) as nat, count as nat);
            }
            return Err(TlkError::StringBeyondEnd { index: k });
        }
        let ghost old_r = ranges@;
        ranges.push((start, end));
        assert(int_ranges(ranges@) =~= int_ranges(old_r).push((start as int, end as int)));
        k = k + 1;
    }
    Ok(ranges)
}

fn read_entry(data: &[u8], k: usize, a: usize, b: usize, encoding: TlkEncoding) -> (r: Result<
    TlkEntry,
    TlkError,
>)
    requires
        20 + 40 * k + 40 <= data@.len(),
        a <= b <= data@.len(),
        data@.len() <= usize::MAX / 8,
    ensures
        r matches Ok(e) ==> entry_spec(data@, k as int, (a as int, b as int), encoding) == Ok::<
            EntryView,
            TlkError,
        >(e@),
        r matches Err(e) ==> entry_spec(data@, k as int, (a as int, b as int), encoding) == Err::<
            EntryView,
            TlkError,
        >(e),
{
    let ghost d = data@;
    let base = 20 + 40 * k;
    assert(base == entry_base(k as int));
    let field_slice = vstd::slice::slice_subrange(data, base + 4, base + 20);
    let ghost field = field_slice@;
    let mut rlen: usize = 0;
    assert(field.skip(0) =~= field);
    while rlen < 16 && field_slice[rlen] != 0
        invariant
            field == field_slice@,
            field.len() == 16,
            rlen <= 16,
            resref_len(field) == rlen + resref_len(field.skip(rlen as int)),
        decreases 16 - rlen,
    {
        assert(field.skip(rlen as int)[0] == field[rlen as int]);
        assert(field.skip(rlen as int).drop_first() =~= field.skip(rlen + 1));
        rlen = rlen + 1;
    }
    proof {
        if rlen < 16 {
            assert(field.skip(rlen as int)[0] == field[rlen as int]);
        } else {
            assert(field.skip(16).len() == 0);
        }
    }
    let name = vstd::slice::slice_subrange(data, base + 4, base + 4 + rlen);
    assert(name@ =~= field.take(resref_len(field)));
    let resref = match utf8_decode(name) {
        None => {
            return Err(TlkError::NonUtf8ResRef);
        },
        Some(s) => trimmed_string(&s),
    };
    let text = match decode(vstd::slice::slice_subrange(data, a, b), encoding) {
        None => {
            return Err(TlkError::Decode { index: k });
        },
        Some(t) => t,
    };
    Ok(
        TlkEntry {
            flags: read_le32(data, base),
            sound_resref: resref,
            volume_variance: read_le32(data, base + 20),
            pitch_variance: read_le32(data, base + 24),
            sound_length_bits: read_le32(data, base + 36),
            text,
        },
    )
}

fn read_entries(data: &[u8], ranges: &Vec<(usize, usize)>, encoding: TlkEncoding) -> (r: Result<
    Vec<TlkEntry>,
    TlkError,
>)
    requires
        20 + 40 * ranges@.len() <= data@.len(),
        data@.len() <= usize::MAX / 8,
        forall|j: int| 0 <= j < ranges@.len() ==> #[trigger] ranges@[j].0 <= ranges@[j].1 <= data@.len(),
    ensures
        r matches Ok(v) ==> entries_spec(data@, int_ranges(ranges@), encoding, ranges@.len()) == Ok::<
            Seq<EntryView>,
            TlkError,
        >(entry_views(v@)),
        r matches Err(e) ==> entries_spec(data@, int_ranges(ranges@), encoding, ranges@.len())
            == Err::<Seq<EntryView>, TlkError>(e),
{
    let ghost d = data@;
    let ghost rs = int_ranges(ranges@);
    let count = ranges.len();
    let mut entries: Vec<TlkEntry> = Vec::new();
    let mut k: usize = 0;
    assert(entry_views(entries@) =~= Seq::<EntryView>::empty());
    while k < count
        invariant
            d == data@,
            rs == int_ranges(ranges@),
            count == ranges@.len(),
            d.len() <= usize::MAX / 8,
            k <= count,
            20 + 40 * count <= d.len(),
            forall|j: int| 0 <= j < ranges@.len() ==> #[trigger] ranges@[j].0 <= ranges@[j].1 <= d.len(),
            entries_spec(d, rs, encoding, k as nat) == Ok::<Seq<EntryView>, TlkError>(
                entry_views(entries@),
            ),
        decreases count - k,
    {
        let (a, b) = ranges[k];
        assert(rs[k as int] == (a as int, b as int));
        assert(20 + 40 * k + 40 <= 20 + 40 * count) by (nonlinear_arith)
            requires
                k < count,
        ;
        let entry = match read_entry(data, k, a, b, encoding) {
            Err(e) => {
                proof {
                    lemma_entries_err(d, rs, encoding, (k + 1) as nat, count as nat);
                }
                return Err(e);
            },
            Ok(e) => e,
        };
        let ghost old_e = entries@;
        entries.push(entry);
        assert(entry_views(entries@) =~= entry_views(old_e).push(entry@));
        k = k + 1;
    }
    Ok(entries)
}

fn collect_raw<'a>(data: &'a [u8], ranges: &Vec<(usize, usize)>) -> (raw: Vec<&'a [u8]>)
    requires
        forall|j: int| 0 <= j < ranges@.len() ==> #[trigger] ranges@[j].0 <= ranges@[j].1 <= data@.len(),
    ensures
        slice_views(raw@) == raw_strings(data@, int_ranges(ranges@)),
{
    let ghost rs = int_ranges(ranges@);
    let ghost d = data@;
    let count = ranges.len();
    let mut raw: Vec<&[u8]> = Vec::new();
    let mut k: usize = 0;
    assert(slice_views(raw@) =~= raw_strings(d, rs).take(0));
    while k < count
        invariant
            d == data@,
            k <= count,
            ranges@.len() == count,
            rs == int_ranges(ranges@),
            forall|j: int| 0 <= j < ranges@.len() ==> #[trigger] ranges@[j].0 <= ranges@[j].1 <= d.len(),
            slice_views(raw@) == raw_strings(d, rs).take(k as int),
        decreases count - k,
    {
        let (a, b) = ranges[k];
        assert(rs[k as int] == (a as int, b as int));
        let ghost old_raw = raw@;
        let piece = vstd::slice::slice_subrange(data, a, b);
        raw.push(piece);
        assert(slice_views(raw@) =~= slice_views(old_raw).push(piece@));
        assert(raw_strings(d, rs).take(k + 1) =~= raw_strings(d, rs).take(k as int).push(
            d.subrange(a as int, b as int),
        ));
        k = k + 1;
    }
    assert(raw_strings(d, rs).take(count as int) =~= raw_strings(d, rs));
    raw
}

impl TlkFile {
    /// Reads a talk table from its bytes (see `from_bytes_spec`).
    pub fn from_bytes(data: &[u8]) -> (r: Result<TlkFile, TlkError>)
        requires
            data@.len() <= usize::MAX / 8,
        ensures
            tlk_result(r) == from_bytes_spec(data@),
    {
        let ghost d = data@;
        let m = vec![0x54u8, 0x4c, 0x4b, 0x20, 0x56, 0x33, 0x2e, 0x30];
        if data.len() < 8 {
            return Err(TlkError::NotTlk);
        }
        let mut i: usize = 0;
        while i < 8
            invariant
                m@ == magic(),
                d == data@,
                d.len() >= 8,
                i <= 8,
                forall|j: int| 0 <= j < i ==> d[j] == m@[j],
            decreases 8 - i,
        {
            if data[i] != m[i] {
                assert(d.take(8)[i as int] != magic()[i as int]);
                return Err(TlkError::NotTlk);
            }
            i = i + 1;
        }
        assert(d.take(8) =~= magic());
        let language_id = match u32_at(data, 8) {
            Ok(v) => v,
            Err(e) => {
                return Err(e);
            },
        };
        let count32 = match u32_at(data, 12) {
            Ok(v) => v,
            Err(e) => {
                return Err(e);
            },
        };
        let strings_start32 = match u32_at(data, 16) {
            Ok(v) => v,
            Err(e) => {
                return Err(e);
            },
        };
        let count = count32 as usize;
        let strings_start = strings_start32 as usize;
        if count > (usize::MAX - 20) / 40 {
            assert(20 + 40 * count > usize::MAX) by (nonlinear_arith)
                requires
                    count > (usize::MAX - 20) / 40,
            ;
            return Err(TlkError::TooLarge);
        }
        assert(20 + 40 * count <= usize::MAX) by (nonlinear_arith)
            requires
                count <= (usize::MAX - 20) / 40,
        ;
        let index_end = 20 + 40 * count;
        if index_end > data.len() || strings_start > data.len() {
            return Err(TlkError::IndexBeyondEnd);
        }
        let ranges = match read_ranges(data, strings_start, count) {
            Err(e) => {
                return Err(e);
            },
            Ok(r) => r,
        };
        let raw = collect_raw(data, &ranges);
        let encoding = likely_encoding(language_id, raw.as_slice());
        let entries = match read_entries(data, &ranges, encoding) {
            Err(e) => {
                return Err(e);
            },
            Ok(v) => v,
        };
        Ok(TlkFile { language_id, encoding, entries })
    }
}

} // verus!

verus! {

/// The encoded strings of the first `k` entries, or the first that cannot be encoded.
pub open spec fn encoded_strings(entries: Seq<EntryView>, encoding: TlkEncoding, k: nat) -> Result<
    Seq<Seq<u8>>,
    TlkError,
>
    decreases k,
{
    if k == 0 {
        Ok(seq![])
    } else {
        match encoded_strings(entries, encoding, (k - 1) as nat) {
            Err(e) => Err(e),
            Ok(ss) => match encode_spec(entries[k - 1].text, encoding) {
                None => Err(TlkError::Encode { index: (k - 1) as usize }),
                Some(b) => Ok(ss.push(b)),
            },
        }
    }
}

pub open spec fn total_len(ss: Seq<Seq<u8>>) -> nat
    decreases ss.len(),
{
    if ss.len() == 0 {
        0
    } else {
        total_len(ss.drop_last()) + ss.last().len()
    }
}

pub open spec fn zeros(n: int) -> Seq<u8> {
    Seq::new(n as nat, |_i: int| 0u8)
}

/// The 40-byte record of one entry whose string is `len` bytes at `offset`.
pub open spec fn record_spec(e: EntryView, offset: nat, len: nat) -> Result<Seq<u8>, TlkError> {
    let rb = encode_utf8(e.sound_resref);
    if rb.len() > 16 {
        Err(TlkError::ResRefTooLong)
    } else if !is_ascii_chars(e.sound_resref) {
        Err(TlkError::ResRefNotAscii)
    } else if offset > u32::MAX {
        Err(TlkError::StringsTooLarge)
    } else if len > u32::MAX {
        Err(TlkError::StringTooLarge)
    } else {
        Ok(
            le32_bytes(e.flags) + rb + zeros(16 - rb.len()) + le32_bytes(e.volume_variance)
                + le32_bytes(e.pitch_variance) + le32_bytes(offset as u32) + le32_bytes(len as u32)
                + le32_bytes(e.sound_length_bits),
        )
    }
}

pub open spec fn records_spec(entries: Seq<EntryView>, ss: Seq<Seq<u8>>, k: nat) -> Result<
    Seq<u8>,
    TlkError,
>
    decreases k,
{
    if k == 0 {
        Ok(seq![])
    } else {
        match records_spec(entries, ss, (k - 1) as nat) {
            Err(e) => Err(e),
            Ok(p) => match record_spec(
                entries[k - 1],
                total_len(ss.take(k - 1)),
                ss[k - 1].len(),
            ) {
                Err(e) => Err(e),
                Ok(r) => Ok(p + r),
            },
        }
    }
}

/// The bytes of a talk table: header, one record per entry, then the encoded
/// strings back to back.
pub open spec fn to_bytes_spec(f: TlkView) -> Result<Seq<u8>, TlkError> {
    let n = f.entries.len();
    match encoded_strings(f.entries, f.encoding, n) {
        Err(e) => Err(e),
        Ok(ss) => {
            if 20 + 40 * n > usize::MAX {
                Err(TlkError::IndexTooLarge)
            } else if total_len(ss) > usize::MAX {
                Err(TlkError::StringsTooLarge)
            } else if 20 + 40 * n + total_len(ss) > usize::MAX {
                Err(TlkError::TooLarge)
            } else if n > u32::MAX {
                Err(TlkError::TooManyEntries)
            } else if 20 + 40 * n > u32::MAX {
                Err(TlkError::IndexTooLarge)
            } else {
                match records_spec(f.entries, ss, n) {
                    Err(e) => Err(e),
                    Ok(idx) => Ok(
                        magic() + le32_bytes(f.language_id) + le32_bytes(n as u32) + le32_bytes(
                            (20 + 40 * n) as u32,
                        ) + idx + joined(ss),
                    ),
                }
            }
        },
    }
}

pub open spec fn tlk_bytes_result(r: Result<Vec<u8>, TlkError>) -> Result<Seq<u8>, TlkError> {
    match r {
        Ok(v) => Ok(v@),
        Err(e) => Err(e),
    }
}

pub proof fn lemma_encoded_err(entries: Seq<EntryView>, encoding: TlkEncoding, k: nat, n: nat)
    requires
        k <= n,
        encoded_strings(entries, encoding, k) is Err,
    ensures
        encoded_strings(entries, encoding, n) == encoded_strings(entries, encoding, k),
    decreases n,
{
    if k < n {
        lemma_encoded_err(entries, encoding, k, (n - 1) as nat);
    }
}

pub proof fn lemma_records_err(entries: Seq<EntryView>, ss: Seq<Seq<u8>>, k: nat, n: nat)
    requires
        k <= n,
        records_spec(entries, ss, k) is Err,
    ensures
        records_spec(entries, ss, n) == records_spec(entries, ss, k),
    decreases n,
{
    if k < n {
        lemma_records_err(entries, ss, k, (n - 1) as nat);
    }
}

pub proof fn lemma_total_len_prefix(ss: Seq<Seq<u8>>, k: int)
    requires
        0 <= k <= ss.len(),
    ensures
        total_len(ss.take(k)) <= total_len(ss),
    decreases ss.len(),
{
    if k < ss.len() {
        assert(ss.drop_last().take(k) =~= ss.take(k));
        lemma_total_len_prefix(ss.drop_last(), k);
    } else {
        assert(ss.take(k) =~= ss);
    }
}

pub open spec fn texts_fit(entries: Seq<EntryView>) -> bool {
    forall|i: int| 0 <= i < entries.len() ==> encode_utf8(#[trigger] entries[i].text).len() <= usize::MAX / 8
}

fn push_record(out: &mut Vec<u8>, e: &TlkEntry, offset: usize, len: usize) -> (r: Result<
    (),
    TlkError,
>)
    ensures
        r matches Ok(_) ==> record_spec(e@, offset as nat, len as nat) is Ok && final(out)@ == old(
            out,
        )@ + record_spec(e@, offset as nat, len as nat)->Ok_0,
        r matches Err(x) ==> record_spec(e@, offset as nat, len as nat) == Err::<Seq<u8>, TlkError>(
            x,
        ),
{
    push_le32(out, e.flags);
    let ghost after_flags = out@;
    let resref = e.sound_resref.as_str().as_bytes();
    if resref.len() > 16 {
        return Err(TlkError::ResRefTooLong);
    }
    if !e.sound_resref.as_str().is_ascii() {
        return Err(TlkError::ResRefNotAscii);
    }
    push_bytes(out, resref);
    let mut pad: usize = resref.len();
    let ghost with_name = out@;
    while pad < 16
        invariant
            resref@.len() <= pad <= 16,
            out@ == with_name + zeros(pad - resref@.len()),
        decreases 16 - pad,
    {
        out.push(0u8);
        assert(zeros(pad + 1 - resref@.len()) =~= zeros(pad - resref@.len()).push(0u8));
        pad = pad + 1;
    }
    push_le32(out, e.volume_variance);
    push_le32(out, e.pitch_variance);
    if offset > 0xffff_ffff {
        return Err(TlkError::StringsTooLarge);
    }
    push_le32(out, offset as u32);
    if len > 0xffff_ffff {
        return Err(TlkError::StringTooLarge);
    }
    push_le32(out, len as u32);
    push_le32(out, e.sound_length_bits);
    assert(out@ =~= old(out)@ + record_spec(e@, offset as nat, len as nat)->Ok_0);
    Ok(())
}

impl TlkFile {
    /// Writes the talk table (see `to_bytes_spec`).
    pub fn to_bytes(&self) -> (r: Result<Vec<u8>, TlkError>)
        requires
            texts_fit(self@.entries),
        ensures
            tlk_bytes_result(r) == to_bytes_spec(self@),
    {
        let ghost f = self@;
        let n = self.entries.len();
        let mut strings: Vec<Vec<u8>> = Vec::new();
        let mut i: usize = 0;
        assert(strings@.map_values(|v: Vec<u8>| v@) =~= Seq::<Seq<u8>>::empty());
        while i < n
            invariant
                f == self@,
                n == f.entries.len(),
                texts_fit(f.entries),
                i <= n,
                strings@.len() == i,
                encoded_strings(f.entries, f.encoding, i as nat) == Ok::<Seq<Seq<u8>>, TlkError>(
                    strings@.map_values(|v: Vec<u8>| v@),
                ),
            decreases n - i,
        {
            assert(f.entries[i as int] == self.entries@[i as int]@);
            assert(encode_utf8(f.entries[i as int].text).len() <= usize::MAX / 8);
            match encode(&self.entries[i].text, self.encoding) {
                None => {
                    proof {
                        lemma_encoded_err(f.entries, f.encoding, (i + 1) as nat, n as nat);
                    }
                    return Err(TlkError::Encode { index: i });
                },
                Some(b) => {
                    let ghost old_s = strings@;
                    strings.push(b);
                    assert(strings@.map_values(|v: Vec<u8>| v@) =~= old_s.map_values(
                        |v: Vec<u8>| v@,
                    ).push(b@));
                },
            }
            i = i + 1;
        }
        let ghost ss = strings@.map_values(|v: Vec<u8>| v@);
        if n > (usize::MAX - 20) / 40 {
            assert(20 + 40 * n > usize::MAX) by (nonlinear_arith)
                requires
                    n > (usize::MAX - 20) / 40,
            ;
            return Err(TlkError::IndexTooLarge);
        }
        assert(20 + 40 * n <= usize::MAX) by (nonlinear_arith)
            requires
                n <= (usize::MAX - 20) / 40,
        ;
        let strings_start = 20 + 40 * n;
        let mut total: usize = 0;
        let mut i: usize = 0;
        assert(ss.take(0) =~= Seq::<Seq<u8>>::empty());
        while i < n
            invariant
                f == self@,
                n == f.entries.len(),
                i <= n,
                strings@.len() == n,
                ss == strings@.map_values(|v: Vec<u8>| v@),
                encoded_strings(f.entries, f.encoding, n as nat) == Ok::<Seq<Seq<u8>>, TlkError>(ss),
                strings_start == 20 + 40 * n,
                total == total_len(ss.take(i as int)),
            decreases n - i,
        {
            let len = strings[i].len();
            assert(ss.take(i + 1).drop_last() =~= ss.take(i as int));
            if total > usize::MAX - len {
                proof {
                    lemma_total_len_prefix(ss, i + 1);
                }
                return Err(TlkError::StringsTooLarge);
            }
            total = total + len;
            i = i + 1;
        }
        assert(ss.take(n as int) =~= ss);
        if strings_start > usize::MAX - total {
            return Err(TlkError::TooLarge);
        }
        if n > 0xffff_ffff {
            return Err(TlkError::TooManyEntries);
        }
        if strings_start > 0xffff_ffff {
            return Err(TlkError::IndexTooLarge);
        }
        let mut out: Vec<u8> = vec![0x54u8, 0x4c, 0x4b, 0x20, 0x56, 0x33, 0x2e, 0x30];
        push_le32(&mut out, self.language_id);
        push_le32(&mut out, n as u32);
        push_le32(&mut out, strings_start as u32);
        let ghost head = out@;
        assert(head =~= magic() + le32_bytes(f.language_id) + le32_bytes(n as u32) + le32_bytes(
            (20 + 40 * n) as u32,
        ));
        let mut offset: usize = 0;
        let mut i: usize = 0;
        while i < n
            invariant
                f == self@,
                n == f.entries.len(),
                i <= n,
                strings@.len() == n,
                ss == strings@.map_values(|v: Vec<u8>| v@),
                total == total_len(ss),
                encoded_strings(f.entries, f.encoding, n as nat) == Ok::<Seq<Seq<u8>>, TlkError>(ss),
                strings_start == 20 + 40 * n,
                strings_start + total <= usize::MAX,
                n <= u32::MAX,
                strings_start <= u32::MAX,
                offset == total_len(ss.take(i as int)),
                records_spec(f.entries, ss, i as nat) is Ok,
                out@ == head + records_spec(f.entries, ss, i as nat)->Ok_0,
            decreases n - i,
        {
            assert(f.entries[i as int] == self.entries@[i as int]@);
            let len = strings[i].len();
            match push_record(&mut out, &self.entries[i], offset, len) {
                Err(e) => {
                    proof {
                        lemma_records_err(f.entries, ss, (i + 1) as nat, n as nat);
                    }
                    return Err(e);
                },
                Ok(()) => {},
            }
            proof {
                lemma_total_len_prefix(ss, i + 1);
                assert(ss.take(i + 1).drop_last() =~= ss.take(i as int));
            }
            offset = offset + len;
            i = i + 1;
        }
        let ghost with_index = out@;
        let mut i: usize = 0;
        assert(joined(ss.take(0)) =~= Seq::<u8>::empty());
        while i < n
            invariant
                i <= n,
                strings@.len() == n,
                ss == strings@.map_values(|v: Vec<u8>| v@),
                out@ == with_index + joined(ss.take(i as int)),
            decreases n - i,
        {
            push_bytes(&mut out, strings[i].as_slice());
            assert(ss.take(i + 1).drop_last() =~= ss.take(i as int));
            i = i + 1;
        }
        assert(out@ =~= head + records_spec(f.entries, ss, n as nat)->Ok_0 + joined(ss));
        Ok(out)
    }

    /// The bytes to save the talk table as.
    pub fn write(&self) -> (r: Result<Vec<u8>, TlkError>)
        requires
            texts_fit(self@.entries),
        ensures
            tlk_bytes_result(r) == to_bytes_spec(self@),
    {
        self.to_bytes()
    }
}

} // verus!
