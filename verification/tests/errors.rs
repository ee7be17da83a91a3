use aurora_tlk_explorer::diff::PatchError;
use aurora_tlk_explorer::tlk::{TlkEncoding, TlkEntry, TlkError, TlkFile};
use aurora_tlk_explorer::twoda::{quoted, TwoDaError, TwoDaFile, TwoDaFormat};

fn binary_head(names: &[u8], rows: u32) -> Vec<u8> {
    let mut data = b"2DA V2.b\n".to_vec();
    data.extend_from_slice(names);
    data.push(0);
    data.extend_from_slice(&rows.to_le_bytes());
    data
}

#[test]
fn invalid_tables_are_refused_before_writing() {
    let no_row = TwoDaFile {
        default_value: None,
        columns: vec!["A".into()],
        rows: vec![],
        format: TwoDaFormat::Text,
    };
    assert_eq!(no_row.validate(), Err(TwoDaError::MissingRowColumn));
    assert_eq!(no_row.to_text(), Err(TwoDaError::MissingRowColumn));
    let spaced = TwoDaFile {
        default_value: None,
        columns: vec!["Row".into(), "a b".into()],
        rows: vec![],
        format: TwoDaFormat::Text,
    };
    assert_eq!(spaced.validate(), Err(TwoDaError::InvalidColumnName));
    let short_row = TwoDaFile {
        default_value: None,
        columns: vec!["Row".into(), "A".into()],
        rows: vec![vec!["0".into()]],
        format: TwoDaFormat::Text,
    };
    assert_eq!(
        short_row.validate(),
        Err(TwoDaError::RowLength { row: 0, found: 1, expected: 2 })
    );
}

#[test]
fn values_are_quoted_or_starred_for_text() {
    assert_eq!(quoted(&"plain".to_string()), Ok("plain".to_string()));
    assert_eq!(quoted(&"two words".to_string()), Ok("\"two words\"".to_string()));
    assert_eq!(quoted(&String::new()), Ok("****".to_string()));
    assert_eq!(quoted(&"say \"hi\"".to_string()), Err(TwoDaError::QuoteInValue));
}

#[test]
fn binary_tables_with_short_sections_are_refused() {
    let data = binary_head(b"A\t", 5);
    assert_eq!(TwoDaFile::parse_binary(&data), Err(TwoDaError::RowCountExceedsData));

    let mut data = binary_head(b"A\t", 1);
    data.extend_from_slice(b"777\tx");
    assert_eq!(TwoDaFile::parse_binary(&data), Err(TwoDaError::TruncatedIndex));

    let mut data = binary_head(b"A\t", 1);
    data.extend_from_slice(b"7\t");
    data.extend_from_slice(&0u16.to_le_bytes());
    data.push(0);
    assert_eq!(TwoDaFile::parse_binary(&data), Err(TwoDaError::TruncatedDataSize));

    let mut data = binary_head(b"A\t", 1);
    data.extend_from_slice(b"7\t");
    data.extend_from_slice(&0u16.to_le_bytes());
    data.extend_from_slice(&8u16.to_le_bytes());
    data.extend_from_slice(b"ab");
    assert_eq!(TwoDaFile::parse_binary(&data), Err(TwoDaError::TruncatedData));
}

#[test]
fn binary_cells_must_point_at_terminated_values() {
    let mut data = binary_head(b"A\t", 1);
    data.extend_from_slice(b"7\t");
    data.extend_from_slice(&5u16.to_le_bytes());
    data.extend_from_slice(&2u16.to_le_bytes());
    data.extend_from_slice(b"a\0");
    assert_eq!(TwoDaFile::parse_binary(&data), Err(TwoDaError::OffsetOutOfRange));

    let mut data = binary_head(b"A\t", 1);
    data.extend_from_slice(b"7\t");
    data.extend_from_slice(&0u16.to_le_bytes());
    data.extend_from_slice(&2u16.to_le_bytes());
    data.extend_from_slice(b"ab");
    assert_eq!(TwoDaFile::parse_binary(&data), Err(TwoDaError::UnterminatedValue));

    let mut data = binary_head(b"A\t", 1);
    data.extend_from_slice(b"7\t");
    data.extend_from_slice(&2u16.to_le_bytes());
    data.extend_from_slice(&4u16.to_le_bytes());
    data.extend_from_slice(b"a\0b\0");
    let table = TwoDaFile::parse_binary(&data).unwrap();
    assert_eq!(table.rows, vec![vec!["7".to_string(), "b".to_string()]]);
}

#[test]
fn tlk_headers_and_records_are_checked() {
    assert_eq!(TlkFile::from_bytes(b"NOT A TLK FILE AT ALL"), Err(TlkError::NotTlk));
    let mut data = b"TLK V3.0".to_vec();
    for v in [0u32, 1, 60] {
        data.extend_from_slice(&v.to_le_bytes());
    }
    data.extend_from_slice(&[0u8; 4]);
    data.push(0xff);
    data.extend_from_slice(&[0u8; 15]);
    data.extend_from_slice(&[0u8; 20]);
    assert_eq!(TlkFile::from_bytes(&data), Err(TlkError::NonUtf8ResRef));

    let long = TlkFile {
        language_id: 0,
        encoding: TlkEncoding::Windows1252,
        entries: vec![TlkEntry { sound_resref: "abcdefghijklmnopq".into(), ..Default::default() }],
    };
    assert_eq!(long.to_bytes(), Err(TlkError::ResRefTooLong));
}

#[test]
fn diff_with_undecodable_sound_name_is_refused() {
    let data = [0, 0, 0, 1, 0, 0, 0, 0, 0, 0, 0, 0, 0, 1, 0xff, 0, 0, 0, 0];
    assert_eq!(TlkFile::read_diff(&data), Err(PatchError::InvalidResRef));
}
