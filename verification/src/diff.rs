//! TlkEdit-compatible change files: the legacy diff format and DTU files.
use crate::bytes::{be32, be32_bytes, le32, push_be32, push_bytes, read_be32, read_le32};
use crate::text::utf8_decode;
use crate::tlk::{EntryView, TlkEntry};
use vstd::prelude::*;
use vstd::utf8::{decode_utf8, encode_utf8, valid_utf8};

verus! {

/// Why a change file could not be read or written.
#[derive(Clone, Copy, Debug, PartialEq, Eq)]
pub enum PatchError {
    Truncated,
    InvalidResRef,
    InvalidText,
    TooManyEntries,
    StrRefTooLarge,
    TextTooLarge,
}

pub open spec fn patch_views(v: Seq<(usize, TlkEntry)>) -> Seq<(usize, EntryView)> {
    v.map_values(|p: (usize, TlkEntry)| (p.0, p.1@))
}

pub open spec fn patch_result(r: Result<Vec<(usize, TlkEntry)>, PatchError>) -> Result<
    Seq<(usize, EntryView)>,
    PatchError,
> {
    match r {
        Ok(v) => Ok(patch_views(v@)),
        Err(e) => Err(e),
    }
}

pub open spec fn patch_bytes_result(r: Result<Vec<u8>, PatchError>) -> Result<Seq<u8>, PatchError> {
    match r {
        Ok(v) => Ok(v@),
        Err(e) => Err(e),
    }
}

pub open spec fn min_nat(a: nat, b: nat) -> nat {
    if a <= b {
        a
    } else {
        b
    }
}

/// One diff record: big-endian StrRef, the low byte of the flags, the sound
/// length bits, the sound ResRef (at most 255 bytes, length-prefixed) and the
/// length-prefixed UTF-8 text.
#[verifier::opaque]
pub open spec fn diff_record(position: usize, e: EntryView) -> Result<Seq<u8>, PatchError> {
    let sb = encode_utf8(e.sound_resref);
    let sl = min_nat(sb.len(), 255);
    let tb = encode_utf8(e.text);
    if position > u32::MAX {
        Err(PatchError::StrRefTooLarge)
    } else if tb.len() > u32::MAX {
        Err(PatchError::TextTooLarge)
    } else {
        Ok(
            be32_bytes(position as u32) + seq![(e.flags % 256) as u8] + be32_bytes(
                e.sound_length_bits,
            ) + seq![sl as u8] + sb.take(sl as int) + be32_bytes(tb.len() as u32) + tb,
        )
    }
}

pub open spec fn diff_records(es: Seq<(usize, EntryView)>, k: nat) -> Result<Seq<u8>, PatchError>
    decreases k,
{
    if k == 0 {
        Ok(seq![])
    } else {
        match diff_records(es, (k - 1) as nat) {
            Err(e) => Err(e),
            Ok(p) => match diff_record(es[k - 1].0, es[k - 1].1) {
                Err(e) => Err(e),
                Ok(r) => Ok(p + r),
            },
        }
    }
}

pub open spec fn write_diff_spec(es: Seq<(usize, EntryView)>) -> Result<Seq<u8>, PatchError> {
    if es.len() > u32::MAX {
        Err(PatchError::TooManyEntries)
    } else {
        match diff_records(es, es.len()) {
            Err(e) => Err(e),
            Ok(body) => Ok(be32_bytes(es.len() as u32) + body),
        }
    }
}

/// One diff record at `c`, and the position after it.
#[verifier::opaque]
pub open spec fn diff_entry(data: Seq<u8>, c: int) -> Result<((usize, EntryView), int), PatchError> {
    if c < 0 || c + 4 > data.len() {
        Err(PatchError::Truncated)
    } else {
        let position = be32(data, c);
        let c1 = c + 4;
        if c1 + 1 > data.len() {
            Err(PatchError::Truncated)
        } else {
            let flags = data[c1];
            let c2 = c1 + 1;
            if c2 + 4 > data.len() {
                Err(PatchError::Truncated)
            } else {
                let bits = be32(data, c2) as u32;
                let c3 = c2 + 4;
                if c3 + 1 > data.len() {
                    Err(PatchError::Truncated)
                } else {
                    let sl = data[c3] as int;
                    let c4 = c3 + 1;
                    if c4 + sl > data.len() {
                        Err(PatchError::Truncated)
                    } else {
                        let sound = data.subrange(c4, c4 + sl);
                        let c5 = c4 + sl;
                        if c5 + 4 > data.len() {
                            Err(PatchError::Truncated)
                        } else {
                            let tl = be32(data, c5) as int;
                            let c6 = c5 + 4;
                            if c6 + tl > data.len() {
                                Err(PatchError::Truncated)
                            } else {
                                let text = data.subrange(c6, c6 + tl);
                                if !valid_utf8(sound) {
                                    Err(PatchError::InvalidResRef)
                                } else if !valid_utf8(text) {
                                    Err(PatchError::InvalidText)
                                } else {
                                    Ok(
                                        (
                                            (
                                                position as usize,
                                                EntryView {
                                                    flags: flags as u32,
                                                    sound_resref: decode_utf8(sound),
                                                    volume_variance: 0,
                                                    pitch_variance: 0,
                                                    sound_length_bits: bits,
                                                    text: decode_utf8(text),
                                                },
                                            ),
                                            c6 + tl,
                                        ),
                                    )
                                }
                            }
                        }
                    }
                }
            }
        }
    }
}

pub open spec fn diff_entries(data: Seq<u8>, c: int, n: nat) -> Result<
    (Seq<(usize, EntryView)>, int),
    PatchError,
>
    decreases n,
{
    if n == 0 {
        Ok((seq![], c))
    } else {
        match diff_entry(data, c) {
            Err(e) => Err(e),
            Ok((e, c2)) => match diff_entries(data, c2, (n - 1) as nat) {
                Ok((rest, c3)) => Ok((seq![e] + rest, c3)),
                Err(x) => Err(x),
            },
        }
    }
}

/// A diff file: a big-endian record count, then the records.
pub open spec fn read_diff_spec(data: Seq<u8>) -> Result<Seq<(usize, EntryView)>, PatchError> {
    if data.len() < 4 {
        Err(PatchError::Truncated)
    } else {
        match diff_entries(data, 4, be32(data, 0)) {
            Ok((es, _)) => Ok(es),
            Err(e) => Err(e),
        }
    }
}

/// Bit 0: the entry has text; bit 1: it has a sound.
pub open spec fn dtu_flags(has_text: bool, has_sound: bool) -> u32 {
    if has_text && has_sound {
        3
    } else if has_sound {
        2
    } else if has_text {
        1
    } else {
        0
    }
}

/// One DTU record at `c`: little-endian StrRef, length-prefixed sound ResRef,
/// then the text, whose length is one byte, or 255 followed by 16 bits.
pub open spec fn dtu_entry(data: Seq<u8>, c: int) -> Result<((usize, EntryView), int), PatchError> {
    if c < 0 || c + 4 > data.len() {
        Err(PatchError::Truncated)
    } else {
        let position = le32(data, c);
        let c1 = c + 4;
        if c1 + 1 > data.len() {
            Err(PatchError::Truncated)
        } else {
            let sl = data[c1] as int;
            let c2 = c1 + 1;
            if c2 + sl > data.len() {
                Err(PatchError::Truncated)
            } else {
                let sound = data.subrange(c2, c2 + sl);
                let c3 = c2 + sl;
                if c3 + 1 > data.len() {
                    Err(PatchError::Truncated)
                } else {
                    let first = data[c3] as int;
                    let c4 = c3 + 1;
                    if first == 255 && c4 + 2 > data.len() {
                        Err(PatchError::Truncated)
                    } else {
                        let tl = if first == 255 {
                            data[c4] as int + 256 * (data[c4 + 1] as int)
                        } else {
                            first
                        };
                        let c5 = if first == 255 {
                            c4 + 2
                        } else {
                            c4
                        };
                        if c5 + tl > data.len() {
                            Err(PatchError::Truncated)
                        } else {
                            let text = data.subrange(c5, c5 + tl);
                            if !valid_utf8(sound) {
                                Err(PatchError::InvalidResRef)
                            } else if !valid_utf8(text) {
                                Err(PatchError::InvalidText)
                            } else {
                                Ok(
                                    (
                                        (
                                            position as usize,
                                            EntryView {
                                                flags: dtu_flags(tl > 0, sl > 0),
                                                sound_resref: decode_utf8(sound),
                                                volume_variance: 0,
                                                pitch_variance: 0,
                                                sound_length_bits: 0,
                                                text: decode_utf8(text),
                                            },
                                        ),
                                        c5 + tl,
                                    ),
                                )
                            }
                        }
                    }
                }
            }
        }
    }
}

pub open spec fn dtu_entries(data: Seq<u8>, c: int, n: nat) -> Result<
    (Seq<(usize, EntryView)>, int),
    PatchError,
>
    decreases n,
{
    if n == 0 {
        Ok((seq![], c))
    } else {
        match dtu_entry(data, c) {
            Err(e) => Err(e),
            Ok((e, c2)) => match dtu_entries(data, c2, (n - 1) as nat) {
                Ok((rest, c3)) => Ok((seq![e] + rest, c3)),
                Err(x) => Err(x),
            },
        }
    }
}

/// A DTU file: a little-endian record count, then the records.
pub open spec fn read_dtu_spec(data: Seq<u8>) -> Result<Seq<(usize, EntryView)>, PatchError> {
    if data.len() < 4 {
        Err(PatchError::Truncated)
    } else {
        match dtu_entries(data, 4, le32(data, 0)) {
            Ok((es, _)) => Ok(es),
            Err(e) => Err(e),
        }
    }
}

} // verus!

verus! {

fn bytes_string(data: &[u8], from: usize, to: usize) -> (r: Option<String>)
    requires
        from <= to <= data@.len(),
    ensures
        r is Some <==> valid_utf8(data@.subrange(from as int, to as int)),
        r matches Some(s) ==> s@ == decode_utf8(data@.subrange(from as int, to as int)),
{
    utf8_decode(vstd::slice::slice_subrange(data, from, to))
}

fn read_diff_entry(data: &[u8], c: usize) -> (r: Result<((usize, TlkEntry), usize), PatchError>)
    ensures
        r matches Ok((p, c2)) ==> diff_entry(data@, c as int) == Ok::<
            ((usize, EntryView), int),
            PatchError,
        >(((p.0, p.1@), c2 as int)),
        r matches Err(e) ==> diff_entry(data@, c as int) == Err::<
            ((usize, EntryView), int),
            PatchError,
        >(e),
{
    reveal(diff_entry);
    let len = data.len();
    if c > len || len - c < 4 {
        return Err(PatchError::Truncated);
    }
    let position = read_be32(data, c) as usize;
    let c1 = c + 4;
    if len - c1 < 1 {
        return Err(PatchError::Truncated);
    }
    let flags = data[c1] as u32;
    let c2 = c1 + 1;
    if len - c2 < 4 {
        return Err(PatchError::Truncated);
    }
    let bits = read_be32(data, c2);
    let c3 = c2 + 4;
    if len - c3 < 1 {
        return Err(PatchError::Truncated);
    }
    let sl = data[c3] as usize;
    let c4 = c3 + 1;
    if len - c4 < sl {
        return Err(PatchError::Truncated);
    }
    let c5 = c4 + sl;
    if len - c5 < 4 {
        return Err(PatchError::Truncated);
    }
    let tl = read_be32(data, c5) as usize;
    let c6 = c5 + 4;
    if len - c6 < tl {
        return Err(PatchError::Truncated);
    }
    let c7 = c6 + tl;
    let sound = match bytes_string(data, c4, c5) {
        None => {
            return Err(PatchError::InvalidResRef);
        },
        Some(s) => s,
    };
    let text = match bytes_string(data, c6, c7) {
        None => {
            return Err(PatchError::InvalidText);
        },
        Some(s) => s,
    };
    let entry = TlkEntry {
        flags,
        sound_resref: sound,
        volume_variance: 0,
        pitch_variance: 0,
        sound_length_bits: bits,
        text,
    };
    Ok(((position, entry), c7))
}

fn read_dtu_entry(data: &[u8], c: usize) -> (r: Result<((usize, TlkEntry), usize), PatchError>)
    ensures
        r matches Ok((p, c2)) ==> dtu_entry(data@, c as int) == Ok::<
            ((usize, EntryView), int),
            PatchError,
        >(((p.0, p.1@), c2 as int)),
        r matches Err(e) ==> dtu_entry(data@, c as int) == Err::<
            ((usize, EntryView), int),
            PatchError,
        >(e),
{
    let len = data.len();
    if c > len || len - c < 4 {
        return Err(PatchError::Truncated);
    }
    let position = read_le32(data, c) as usize;
    let c1 = c + 4;
    if len - c1 < 1 {
        return Err(PatchError::Truncated);
    }
    let sl = data[c1] as usize;
    let c2 = c1 + 1;
    if len - c2 < sl {
        return Err(PatchError::Truncated);
    }
    let c3 = c2 + sl;
    if len - c3 < 1 {
        return Err(PatchError::Truncated);
    }
    let first = data[c3] as usize;
    let c4 = c3 + 1;
    if first == 255 && len - c4 < 2 {
        return Err(PatchError::Truncated);
    }
    let (tl, c5) = if first == 255 {
        ((data[c4] as usize) + 256 * (data[c4 + 1] as usize), c4 + 2)
    } else {
        (first, c4)
    };
    if len - c5 < tl {
        return Err(PatchError::Truncated);
    }
    let c6 = c5 + tl;
    let sound = match bytes_string(data, c2, c3) {
        None => {
            return Err(PatchError::InvalidResRef);
        },
        Some(s) => s,
    };
    let text = match bytes_string(data, c5, c6) {
        None => {
            return Err(PatchError::InvalidText);
        },
        Some(s) => s,
    };
    let flags: u32 = if tl > 0 && sl > 0 {
        3
    } else if sl > 0 {
        2
    } else if tl > 0 {
        1
    } else {
        0
    };
    let entry = TlkEntry {
        flags,
        sound_resref: sound,
        volume_variance: 0,
        pitch_variance: 0,
        sound_length_bits: 0,
        text,
    };
    Ok(((position, entry), c6))
}

pub open spec fn entries_after(
    prefix: Seq<(usize, EntryView)>,
    r: Result<(Seq<(usize, EntryView)>, int), PatchError>,
) -> Result<(Seq<(usize, EntryView)>, int), PatchError> {
    match r {
        Ok((rest, c)) => Ok((prefix + rest, c)),
        Err(e) => Err(e),
    }
}

fn push_diff_record(out: &mut Vec<u8>, position: usize, entry: &TlkEntry) -> (r: Result<
    (),
    PatchError,
>)
    ensures
        r matches Ok(_) ==> diff_record(position, entry@) is Ok && final(out)@ == old(out)@
            + diff_record(position, entry@)->Ok_0,
        r matches Err(e) ==> diff_record(position, entry@) == Err::<Seq<u8>, PatchError>(e),
{
    reveal(diff_record);
    if position > 0xffff_ffff {
        return Err(PatchError::StrRefTooLarge);
    }
    let text = entry.text.as_str().as_bytes();
    let sound = entry.sound_resref.as_str().as_bytes();
    let sl = if sound.len() < 255 {
        sound.len()
    } else {
        255
    };
    let ghost before = out@;
    push_be32(out, position as u32);
    out.push((entry.flags % 256) as u8);
    push_be32(out, entry.sound_length_bits);
    out.push(sl as u8);
    push_bytes(out, vstd::slice::slice_subrange(sound, 0, sl));
    if text.len() > 0xffff_ffff {
        return Err(PatchError::TextTooLarge);
    }
    push_be32(out, text.len() as u32);
    push_bytes(out, text);
    assert(out@ =~= before + diff_record(position, entry@)->Ok_0);
    Ok(())
}

impl crate::tlk::TlkFile {
    /// Reads the entries of a legacy diff file (see `read_diff_spec`).
    pub fn read_diff(data: &[u8]) -> (r: Result<Vec<(usize, TlkEntry)>, PatchError>)
        ensures
            patch_result(r) == read_diff_spec(data@),
    {
        if data.len() < 4 {
            return Err(PatchError::Truncated);
        }
        let count = read_be32(data, 0) as usize;
        let mut entries: Vec<(usize, TlkEntry)> = Vec::new();
        let mut c: usize = 4;
        let mut k: usize = 0;
        assert(patch_views(entries@) + seq![] =~= Seq::<(usize, EntryView)>::empty());
        while k < count
            invariant
                k <= count,
                count == be32(data@, 0),
                data@.len() >= 4,
                diff_entries(data@, 4, count as nat) == entries_after(
                    patch_views(entries@),
                    diff_entries(data@, c as int, (count - k) as nat),
                ),
            decreases count - k,
        {
            let ghost old_v = patch_views(entries@);
            match read_diff_entry(data, c) {
                Err(e) => {
                    assert(diff_entries(data@, c as int, (count - k) as nat) == Err::<
                        (Seq<(usize, EntryView)>, int),
                        PatchError,
                    >(e));
                    return Err(e);
                },
                Ok((p, c2)) => {
                    let ghost pv = (p.0, p.1@);
                    entries.push(p);
                    proof {
                        assert(patch_views(entries@) =~= old_v.push(pv));
                        match diff_entries(data@, c2 as int, (count - k - 1) as nat) {
                            Ok((rest, c3)) => {
                                assert(old_v + (seq![pv] + rest) =~= patch_views(entries@) + rest);
                            },
                            Err(_) => {},
                        }
                    }
                    c = c2;
                },
            }
            k = k + 1;
        }
        assert(patch_views(entries@) + seq![] =~= patch_views(entries@));
        Ok(entries)
    }

    /// Reads the entries of a DTU file (see `read_dtu_spec`).
    pub fn read_dtu(data: &[u8]) -> (r: Result<Vec<(usize, TlkEntry)>, PatchError>)
        ensures
            patch_result(r) == read_dtu_spec(data@),
    {
        if data.len() < 4 {
            return Err(PatchError::Truncated);
        }
        let count = read_le32(data, 0) as usize;
        let mut entries: Vec<(usize, TlkEntry)> = Vec::new();
        let mut c: usize = 4;
        let mut k: usize = 0;
        assert(patch_views(entries@) + seq![] =~= Seq::<(usize, EntryView)>::empty());
        while k < count
            invariant
                k <= count,
                count == le32(data@, 0),
                data@.len() >= 4,
                dtu_entries(data@, 4, count as nat) == entries_after(
                    patch_views(entries@),
                    dtu_entries(data@, c as int, (count - k) as nat),
                ),
            decreases count - k,
        {
            let ghost old_v = patch_views(entries@);
            match read_dtu_entry(data, c) {
                Err(e) => {
                    return Err(e);
                },
                Ok((p, c2)) => {
                    let ghost pv = (p.0, p.1@);
                    entries.push(p);
                    proof {
                        assert(patch_views(entries@) =~= old_v.push(pv));
                        match dtu_entries(data@, c2 as int, (count - k - 1) as nat) {
                            Ok((rest, c3)) => {
                                assert(old_v + (seq![pv] + rest) =~= patch_views(entries@) + rest);
                            },
                            Err(_) => {},
                        }
                    }
                    c = c2;
                },
            }
            k = k + 1;
        }
        assert(patch_views(entries@) + seq![] =~= patch_views(entries@));
        Ok(entries)
    }

    /// The bytes of a legacy diff file holding `entries` (see `write_diff_spec`).
    pub fn write_diff(entries: &[(usize, TlkEntry)]) -> (r: Result<Vec<u8>, PatchError>)
        ensures
            patch_bytes_result(r) == write_diff_spec(patch_views(entries@)),
    {
        let ghost es = patch_views(entries@);
        let n = entries.len();
        if n > 0xffff_ffff {
            return Err(PatchError::TooManyEntries);
        }
        let mut out: Vec<u8> = Vec::new();
        push_be32(&mut out, n as u32);
        let ghost head = out@;
        let mut k: usize = 0;
        assert(out@ =~= head + diff_records(es, 0)->Ok_0);
        while k < n
            invariant
                es == patch_views(entries@),
                n == entries@.len(),
                n <= u32::MAX,
                k <= n,
                diff_records(es, k as nat) is Ok,
                out@ == head + diff_records(es, k as nat)->Ok_0,
            decreases n - k,
        {
            let position = entries[k].0;
            let entry = &entries[k].1;
            assert(es[k as int] == (position, entry@));
            match push_diff_record(&mut out, position, entry) {
                Err(e) => {
                    proof {
                        lemma_diff_records_err(es, (k + 1) as nat, n as nat);
                    }
                    return Err(e);
                },
                Ok(()) => {},
            }
            proof {
                let p = diff_records(es, k as nat)->Ok_0;
                let r = diff_record(position, entry@)->Ok_0;
                assert(diff_records(es, (k + 1) as nat) == Ok::<Seq<u8>, PatchError>(p + r));
                assert(head + (p + r) =~= (head + p) + r);
            }
            k = k + 1;
        }
        Ok(out)
    }
}

pub proof fn lemma_diff_records_err(es: Seq<(usize, EntryView)>, k: nat, n: nat)
    requires
        k <= n,
        diff_records(es, k) is Err,
    ensures
        diff_records(es, n) == diff_records(es, k),
    decreases n,
{
    if k < n {
        lemma_diff_records_err(es, k, (n - 1) as nat);
    }
}

} // verus!

verus! {

/// What reading back a diff record gives: the low byte of the flags, and no
/// volume or pitch variance.
pub open spec fn diff_normal(e: EntryView) -> EntryView {
    EntryView {
        flags: e.flags % 256,
        sound_resref: e.sound_resref,
        volume_variance: 0,
        pitch_variance: 0,
        sound_length_bits: e.sound_length_bits,
        text: e.text,
    }
}

pub open spec fn diff_normals(es: Seq<(usize, EntryView)>) -> Seq<(usize, EntryView)> {
    es.map_values(|p: (usize, EntryView)| (p.0, diff_normal(p.1)))
}

pub open spec fn short_resrefs(es: Seq<(usize, EntryView)>) -> bool {
    forall|i: int| 0 <= i < es.len() ==> encode_utf8(#[trigger] es[i].1.sound_resref).len() <= 255
}

/// Reading one more record continues where the records before it ended.
pub proof fn lemma_diff_entries_snoc(data: Seq<u8>, c: int, n: nat)
    ensures
        diff_entries(data, c, n + 1) == (match diff_entries(data, c, n) {
            Ok((es, c2)) => match diff_entry(data, c2) {
                Ok((e, c3)) => Ok((es.push(e), c3)),
                Err(x) => Err(x),
            },
            Err(x) => Err(x),
        }),
    decreases n,
{
    if n > 0 {
        match diff_entry(data, c) {
            Ok((e, c2)) => {
                lemma_diff_entries_snoc(data, c2, (n - 1) as nat);
                assert((n - 1) as nat + 1 == n);
                match diff_entries(data, c2, (n - 1) as nat) {
                    Ok((rest, c3)) => {
                        assert(diff_entries(data, c, n) == Ok::<
                            (Seq<(usize, EntryView)>, int),
                            PatchError,
                        >((seq![e] + rest, c3)));
                        match diff_entry(data, c3) {
                            Ok((e2, c4)) => {
                                assert(diff_entries(data, c2, n) == Ok::<
                                    (Seq<(usize, EntryView)>, int),
                                    PatchError,
                                >((rest.push(e2), c4)));
                                assert(seq![e] + rest.push(e2) =~= (seq![e] + rest).push(e2));
                            },
                            Err(_) => {},
                        }
                    },
                    Err(_) => {},
                }
            },
            Err(_) => {},
        }
    } else {
        assert(diff_entries(data, c, 0) == Ok::<(Seq<(usize, EntryView)>, int), PatchError>(
            (seq![], c),
        ));
        match diff_entry(data, c) {
            Ok((e, c3)) => {
                assert(diff_entries(data, c3, 0) == Ok::<
                    (Seq<(usize, EntryView)>, int),
                    PatchError,
                >((seq![], c3)));
                assert(seq![e] + Seq::<(usize, EntryView)>::empty() =~= Seq::<
                    (usize, EntryView),
                >::empty().push(e));
            },
            Err(_) => {},
        }
    }
}

/// A written record reads back as its normal form.
#[verifier::rlimit(60)]
pub proof fn lemma_diff_record_reads_back(pre: Seq<u8>, position: usize, e: EntryView, post: Seq<u8>)
    requires
        diff_record(position, e) is Ok,
        encode_utf8(e.sound_resref).len() <= 255,
    ensures
        diff_entry(pre + diff_record(position, e)->Ok_0 + post, pre.len() as int) == Ok::<
            ((usize, EntryView), int),
            PatchError,
        >(((position, diff_normal(e)), (pre.len() + diff_record(position, e)->Ok_0.len()) as int)),
{
    reveal(diff_record);
    reveal(diff_entry);
    broadcast use vstd::utf8::encode_utf8_valid_utf8, vstd::utf8::encode_utf8_decode_utf8;

    let rec = diff_record(position, e)->Ok_0;
    let data = pre + rec + post;
    let c = pre.len() as int;
    let sb = encode_utf8(e.sound_resref);
    let tb = encode_utf8(e.text);
    let sl = sb.len() as int;
    assert(sb.take(sl) =~= sb);
    let a = be32_bytes(position as u32);
    let f = seq![(e.flags % 256) as u8];
    let b = be32_bytes(e.sound_length_bits);
    let s = seq![sl as u8];
    let t = be32_bytes(tb.len() as u32);
    assert(rec =~= a + f + b + s + sb + t + tb);
    assert(data =~= pre + a + (f + b + s + sb + t + tb + post));
    crate::bytes::lemma_be32_round_trip(position as u32, pre, f + b + s + sb + t + tb + post);
    assert(data[c + 4] == (e.flags % 256) as u8);
    assert(data =~= (pre + a + f) + b + (s + sb + t + tb + post));
    crate::bytes::lemma_be32_round_trip(e.sound_length_bits, pre + a + f, s + sb + t + tb + post);
    assert(data[c + 9] == sl as u8);
    assert(data.subrange(c + 10, c + 10 + sl) =~= sb);
    assert(data =~= (pre + a + f + b + s + sb) + t + (tb + post));
    crate::bytes::lemma_be32_round_trip(tb.len() as u32, pre + a + f + b + s + sb, tb + post);
    assert(data.subrange(c + 14 + sl, c + 14 + sl + tb.len()) =~= tb);
}

pub proof fn lemma_diff_records_prefix(es: Seq<(usize, EntryView)>, k: nat, n: nat)
    requires
        k <= n,
        diff_records(es, n) is Ok,
    ensures
        diff_records(es, k) is Ok,
        crate::twoda::is_prefix(diff_records(es, k)->Ok_0, diff_records(es, n)->Ok_0),
    decreases n,
{
    if k < n {
        lemma_diff_records_prefix(es, k, (n - 1) as nat);
        let a = diff_records(es, k)->Ok_0;
        let m = diff_records(es, (n - 1) as nat)->Ok_0;
        let r = diff_record(es[n - 1].0, es[n - 1].1)->Ok_0;
        assert((m + r).take(a.len() as int) =~= m.take(a.len() as int));
    } else {
        let a = diff_records(es, k)->Ok_0;
        assert(a.take(a.len() as int) =~= a);
    }
}

pub proof fn lemma_diff_entries_read_records(data: Seq<u8>, es: Seq<(usize, EntryView)>, k: nat)
    requires
        k <= es.len(),
        write_diff_spec(es) is Ok,
        data == write_diff_spec(es)->Ok_0,
        short_resrefs(es),
    ensures
        diff_records(es, k) is Ok,
        diff_entries(data, 4, k) == Ok::<(Seq<(usize, EntryView)>, int), PatchError>(
            (diff_normals(es.take(k as int)), (4 + diff_records(es, k)->Ok_0.len()) as int),
        ),
    decreases k,
{
    let n = es.len();
    lemma_diff_records_prefix(es, k, n);
    if k > 0 {
        lemma_diff_entries_read_records(data, es, (k - 1) as nat);
        lemma_diff_entries_snoc(data, 4, (k - 1) as nat);
        lemma_diff_records_prefix(es, k, n);
        let body = diff_records(es, n)->Ok_0;
        let p = diff_records(es, (k - 1) as nat)->Ok_0;
        let r = diff_record(es[k - 1].0, es[k - 1].1)->Ok_0;
        let head = be32_bytes(n as u32);
        assert(data == head + body);
        assert(body.take((p + r).len() as int) == p + r);
        let post = body.skip((p + r).len() as int);
        assert(body =~= p + r + post);
        assert(data =~= (head + p) + r + post);
        lemma_diff_record_reads_back(head + p, es[k - 1].0, es[k - 1].1, post);
        assert(diff_normals(es.take(k as int)) =~= diff_normals(es.take(k - 1)).push(
            (es[k - 1].0, diff_normal(es[k - 1].1)),
        ));
    } else {
        assert(diff_normals(es.take(0)) =~= Seq::<(usize, EntryView)>::empty());
    }
}

/// Law: reading back a written diff file gives its entries, each with only the
/// low byte of its flags and no volume or pitch variance, provided every sound
/// ResRef fits the 255-byte field.
pub proof fn lemma_diff_round_trip(es: Seq<(usize, EntryView)>)
    requires
        write_diff_spec(es) is Ok,
        short_resrefs(es),
    ensures
        read_diff_spec(write_diff_spec(es)->Ok_0) == Ok::<Seq<(usize, EntryView)>, PatchError>(
            diff_normals(es),
        ),
{
    let data = write_diff_spec(es)->Ok_0;
    let n = es.len();
    let body = diff_records(es, n)->Ok_0;
    crate::bytes::lemma_be32_round_trip(n as u32, Seq::empty(), body);
    assert(Seq::<u8>::empty() + be32_bytes(n as u32) + body =~= data);
    lemma_diff_entries_read_records(data, es, n);
    assert(es.take(n as int) =~= es);
}

} // verus!
