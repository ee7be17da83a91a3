use aurora_tlk_explorer::tlk::{likely_encoding, u32_at, TlkEncoding, TlkEntry, TlkError, TlkFile};
use aurora_tlk_explorer::twoda::TwoDaFile;

#[test]
fn tlk_round_trip() {
    let original = TlkFile {
        language_id: 0,
        encoding: TlkEncoding::Windows1252,
        entries: vec![
            TlkEntry {
                flags: 1,
                text: "Café".into(),
                ..Default::default()
            },
            TlkEntry {
                flags: 7,
                sound_resref: "hello".into(),
                sound_length_bits: 1.25f32.to_bits(),
                text: "Line\ntwo".into(),
                ..Default::default()
            },
        ],
    };
    let decoded = TlkFile::from_bytes(&original.to_bytes().unwrap()).unwrap();
    assert_eq!(decoded.entries, original.entries);
    assert_eq!(decoded.language_id, 0);
}

#[test]
fn rejects_lossy_text_and_overlong_resrefs() {
    let mut file = TlkFile {
        encoding: TlkEncoding::Windows1252,
        entries: vec![TlkEntry {
            text: "not representable: Ж".into(),
            ..Default::default()
        }],
        ..Default::default()
    };
    assert!(file.to_bytes().is_err());
    file.entries[0].text.clear();
    file.entries[0].sound_resref = "this_resref_is_too_long".into();
    assert!(file.to_bytes().is_err());
}

#[test]
fn representative_tlk_encodings_round_trip() {
    for (encoding, language_id, text) in [
        (TlkEncoding::Utf8, 0, "Dvořák — 日本語"),
        (TlkEncoding::Windows1252, 0, "Café déjà vu"),
        (TlkEncoding::Windows1250, 5, "Příliš žluťoučký kůň"),
        (TlkEncoding::Korean, 128, "한국어"),
        (TlkEncoding::Big5, 129, "中文"),
        (TlkEncoding::Gbk, 130, "简体中文"),
        (TlkEncoding::ShiftJis, 131, "日本語"),
    ] {
        let original = TlkFile {
            language_id,
            encoding,
            entries: vec![TlkEntry {
                flags: 1,
                sound_resref: "voice_01".into(),
                text: text.into(),
                ..Default::default()
            }],
        };
        let decoded = TlkFile::from_bytes(&original.to_bytes().unwrap()).unwrap();
        assert_eq!(decoded.entries, original.entries, "{encoding:?}");
    }
}

#[test]
fn malformed_headers_offsets_and_rows_are_rejected() {
    assert!(TlkFile::from_bytes(b"not a tlk").is_err());
    let mut tlk = b"TLK V3.0".to_vec();
    tlk.extend_from_slice(&0u32.to_le_bytes());
    tlk.extend_from_slice(&u32::MAX.to_le_bytes());
    tlk.extend_from_slice(&20u32.to_le_bytes());
    assert!(TlkFile::from_bytes(&tlk).is_err());

    assert!(TwoDaFile::parse("2DA V2.0\n\nLabel Name\n0 only-one\n").is_err());
    assert!(TwoDaFile::parse_binary(b"2DA V2.b\ntruncated").is_err());
}

#[test]
fn tlk_layout_is_exact() {
    let file = TlkFile {
        language_id: 3,
        encoding: TlkEncoding::Utf8,
        entries: vec![TlkEntry {
            flags: 1,
            sound_resref: "ab".into(),
            volume_variance: 2,
            pitch_variance: 4,
            sound_length_bits: 9,
            text: "hi".into(),
        }],
    };
    let bytes = file.to_bytes().unwrap();
    let mut expected = b"TLK V3.0".to_vec();
    for v in [3u32, 1, 60, 1] {
        expected.extend_from_slice(&v.to_le_bytes());
    }
    expected.extend_from_slice(b"ab\0\0\0\0\0\0\0\0\0\0\0\0\0\0");
    for v in [2u32, 4, 0, 2, 9] {
        expected.extend_from_slice(&v.to_le_bytes());
    }
    expected.extend_from_slice(b"hi");
    assert_eq!(bytes, expected);
    assert_eq!(file.write().unwrap(), expected);
    let back = TlkFile::from_bytes(&bytes).unwrap();
    assert_eq!(back.encoding, TlkEncoding::Windows1252);
    assert_eq!(back.entries, file.entries);
}

#[test]
fn tlk_errors_name_their_cause() {
    assert_eq!(TlkFile::from_bytes(b"TLK V3.0"), Err(TlkError::UnexpectedEnd));
    let mut header = b"TLK V3.0".to_vec();
    for v in [0u32, 1, 60] {
        header.extend_from_slice(&v.to_le_bytes());
    }
    assert_eq!(TlkFile::from_bytes(&header), Err(TlkError::IndexBeyondEnd));
    let mut bad = header.clone();
    bad.extend_from_slice(&[0u8; 28]);
    bad.extend_from_slice(&0u32.to_le_bytes());
    bad.extend_from_slice(&5u32.to_le_bytes());
    bad.extend_from_slice(&0u32.to_le_bytes());
    assert_eq!(TlkFile::from_bytes(&bad), Err(TlkError::StringBeyondEnd { index: 0 }));
    let file = TlkFile {
        language_id: 0,
        encoding: TlkEncoding::Windows1252,
        entries: vec![TlkEntry { sound_resref: "é".into(), ..Default::default() }],
    };
    assert_eq!(file.to_bytes(), Err(TlkError::ResRefNotAscii));
    let lossy = TlkFile {
        language_id: 0,
        encoding: TlkEncoding::Windows1252,
        entries: vec![TlkEntry::default(), TlkEntry { text: "Ж".into(), ..Default::default() }],
    };
    assert_eq!(lossy.to_bytes(), Err(TlkError::Encode { index: 1 }));
}

#[test]
fn encoding_guess_and_header_fields() {
    assert_eq!(likely_encoding(5, &[b"abc"]), TlkEncoding::Windows1250);
    assert_eq!(likely_encoding(131, &[]), TlkEncoding::ShiftJis);
    assert_eq!(likely_encoding(0, &["é".as_bytes()]), TlkEncoding::Utf8);
    assert_eq!(likely_encoding(128, &[&[0xe9u8]]), TlkEncoding::Korean);
    assert_eq!(u32_at(&[1, 2, 3, 4, 5], 1), Ok(0x0504_0302));
    assert_eq!(u32_at(&[1, 2, 3], 0), Err(TlkError::UnexpectedEnd));
    assert_eq!(TlkEncoding::Gbk.label(), "GBK (Simplified Chinese)");
    assert_eq!(TlkFile::default().encoding, TlkEncoding::Windows1252);
}
