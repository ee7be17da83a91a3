use aurora_tlk_explorer::twoda::{quoted, tokenize, TwoDaError, TwoDaFile, TwoDaFormat};

#[test]
fn two_da_round_trip() {
    let input = "2DA V2.0\n\n  Label Name\n0 FIGHTER \"A fighter\"\n1 **** Rogue\n";
    let first = TwoDaFile::parse(input).unwrap();
    assert_eq!(first.columns, ["Row", "Label", "Name"]);
    assert_eq!(first.rows[0][2], "A fighter");
    let second = TwoDaFile::parse(&first.to_text().unwrap()).unwrap();
    assert_eq!(first, second);
}

#[test]
fn reads_binary_two_da() {
    let mut data = b"2DA V2.b\nLabel\tName\t\0".to_vec();
    data.extend_from_slice(&1u32.to_le_bytes());
    data.extend_from_slice(b"7\t");
    data.extend_from_slice(&0u16.to_le_bytes());
    data.extend_from_slice(&8u16.to_le_bytes());
    let block = b"Fighter\0Warrior\0";
    data.extend_from_slice(&(block.len() as u16).to_le_bytes());
    data.extend_from_slice(block);
    let table = TwoDaFile::parse_binary(&data).unwrap();
    assert_eq!(table.columns, ["Row", "Label", "Name"]);
    assert_eq!(table.rows[0], ["7", "Fighter", "Warrior"]);
    let encoded = table.to_binary().unwrap();
    assert_eq!(TwoDaFile::parse_binary(&encoded).unwrap(), table);
}

#[test]
fn rejects_malformed_and_lossy_tables() {
    assert!(TwoDaFile::parse("2DA V2.0\n\nLabel\n0 \"unterminated").is_err());
    let mut table = TwoDaFile::parse("2DA V2.0\n\nLabel\n0 ok\n").unwrap();
    table.rows[0][1] = "cannot \" round trip".into();
    assert!(table.to_text().is_err());

    let mut impossible_rows = b"2DA V2.b\nLabel\t\0".to_vec();
    impossible_rows.extend_from_slice(&u32::MAX.to_le_bytes());
    assert!(TwoDaFile::parse_binary(&impossible_rows).is_err());
}

#[test]
fn representative_text_and_binary_twoda_round_trip() {
    let text = "2DA V2.0\n\nDEFAULT: ****\n\nLabel Name Value\n0 Fighter \"Two words\" 42\n1 Rogue **** -1\n";
    let original = TwoDaFile::parse(text).unwrap();
    let decoded = TwoDaFile::parse(&original.to_text().unwrap()).unwrap();
    assert_eq!(decoded, original);

    let mut binary = TwoDaFile::parse("2DA V2.0\n\nLabel Name\n7 Fighter Warrior\n").unwrap();
    binary.format = TwoDaFormat::Binary;
    let encoded = binary.to_binary().unwrap();
    assert_eq!(TwoDaFile::parse_binary(&encoded).unwrap(), binary);
}

#[test]
fn text_output_has_exact_layout() {
    let table = TwoDaFile::parse("2DA V2.0\n\nLabel\n0 a\n").unwrap();
    assert_eq!(table.to_text().unwrap(), "2DA V2.0\r\n\r\n     Label  \r\n0    a      \r\n");
}

#[test]
fn text_errors_name_their_cause() {
    assert_eq!(TwoDaFile::parse(""), Err(TwoDaError::Empty));
    assert_eq!(TwoDaFile::parse("2DA V2.b\n"), Err(TwoDaError::BinaryNotSupported));
    assert_eq!(TwoDaFile::parse("nonsense\n"), Err(TwoDaError::NotText));
    assert_eq!(TwoDaFile::parse("2da v2.0\n"), Err(TwoDaError::NoColumnHeader));
    assert_eq!(TwoDaFile::parse("2DA V2.0\nDEFAULT: 1\n"), Err(TwoDaError::NoColumnHeader));
    assert_eq!(TwoDaFile::parse("2DA V2.0\n\"x\n"), Err(TwoDaError::UnterminatedQuote));
    assert_eq!(
        TwoDaFile::parse("2DA V2.0\nA B\n0 1\n"),
        Err(TwoDaError::RowLength { row: 1, found: 2, expected: 3 })
    );
    assert_eq!(TwoDaFile::parse("2DA V2.0\nA\n0 \"1\n"), Err(TwoDaError::InvalidRow { row: 1 }));
}

#[test]
fn default_value_and_blank_lines_are_read() {
    let table = TwoDaFile::parse("\n  2DA V2.0  \r\n\r\n  default:  x y \r\nA\n\n0 1\n").unwrap();
    assert_eq!(table.default_value.as_deref(), Some("x y"));
    assert_eq!(table.rows, vec![vec!["0".to_string(), "1".to_string()]]);
}

#[test]
fn binary_values_are_shared_and_trimmed() {
    let table = TwoDaFile {
        default_value: None,
        columns: vec!["Row".into(), "A".into(), "B".into()],
        rows: vec![vec!["0".into(), "x".into(), "x".into()]],
        format: TwoDaFormat::Binary,
    };
    let bytes = table.to_binary().unwrap();
    let mut expected = b"2DA V2.b\nA\tB\t\0".to_vec();
    expected.extend_from_slice(&1u32.to_le_bytes());
    expected.extend_from_slice(b"0\t\0\0\0\0\x02\0x\0");
    assert_eq!(bytes, expected);
    assert_eq!(table.write().unwrap(), expected);
}

#[test]
fn binary_errors_name_their_cause() {
    assert_eq!(TwoDaFile::parse_binary(b"2DA V2.0\n"), Err(TwoDaError::NotBinary));
    assert_eq!(TwoDaFile::parse_binary(b"2DA V2.b\nA"), Err(TwoDaError::TruncatedString));
    assert_eq!(TwoDaFile::parse_binary(b"2DA V2.b\nA\t\0\x01"), Err(TwoDaError::TruncatedRowCount));
    let table = TwoDaFile {
        default_value: Some("0".into()),
        columns: vec!["Row".into(), "A".into()],
        rows: vec![],
        format: TwoDaFormat::Binary,
    };
    assert_eq!(table.to_binary(), Err(TwoDaError::DefaultInBinary));
    let wide = TwoDaFile {
        default_value: None,
        columns: vec!["Row".into(), "A".into()],
        rows: vec![vec!["0".into(), "Ж".into()]],
        format: TwoDaFormat::Binary,
    };
    assert_eq!(wide.to_binary(), Err(TwoDaError::NotSingleByte));
}

#[test]
fn read_dispatches_on_the_signature() {
    let text = TwoDaFile::read(b"2DA V2.0\nA\n0 1\n").unwrap();
    assert_eq!(text.format, TwoDaFormat::Text);
    assert_eq!(TwoDaFile::read(&[0xff, 0xfe]), Err(TwoDaError::InvalidUtf8));
    let bytes = TwoDaFile::read(b"2DA V2.0\nA\n0 1\n").unwrap();
    let mut binary = bytes.clone();
    binary.format = TwoDaFormat::Binary;
    let encoded = binary.write().unwrap();
    assert_eq!(TwoDaFile::read(&encoded).unwrap(), binary);
}

#[test]
fn quoted_values_joined_by_spaces_tokenize_back() {
    let values: Vec<String> = vec!["two words".into(), "plain".into(), "****".into(), "tab\there".into()];
    let line = values.iter().map(|v| quoted(v).unwrap()).collect::<Vec<_>>().join(" ");
    assert_eq!(line, "\"two words\" plain **** \"tab\there\"");
    let chars: Vec<char> = line.chars().collect();
    assert_eq!(tokenize(&chars, 0, chars.len()), Ok(values));
}
