use aurora_tlk_explorer::tlk::{TlkEncoding, TlkEntry, TlkFile};
use aurora_tlk_explorer::twoda::{TwoDaFile, TwoDaFormat};

fn strings(items: &[&str]) -> Vec<String> {
    items.iter().map(|s| s.to_string()).collect()
}

fn table(default_value: Option<&str>, format: TwoDaFormat) -> TwoDaFile {
    TwoDaFile {
        default_value: default_value.map(|s| s.to_string()),
        columns: strings(&["Row", "Label", "Name", "Cost"]),
        rows: vec![
            strings(&["0", "Sword", "Long sword", "15"]),
            strings(&["1", "Axe", "Axe", "****"]),
            strings(&["2", "Sword", "Tab\there", "15"]),
        ],
        format,
    }
}

#[test]
fn written_text_reads_back_unchanged() {
    for default_value in [None, Some("****"), Some("0"), Some("")] {
        let original = table(default_value, TwoDaFormat::Text);
        let bytes = original.write().unwrap();
        assert_eq!(TwoDaFile::read(&bytes).unwrap(), original);
        let text = original.to_text().unwrap();
        assert_eq!(TwoDaFile::parse(&text).unwrap(), original);
    }
}

#[test]
fn written_binary_reads_back_unchanged() {
    let original = table(None, TwoDaFormat::Binary);
    let bytes = original.write().unwrap();
    assert_eq!(TwoDaFile::read(&bytes).unwrap(), original);
    assert_eq!(TwoDaFile::parse_binary(&original.to_binary().unwrap()).unwrap(), original);
}

#[test]
fn values_outside_the_text_round_trip_come_back_changed() {
    // An empty value is written as `****` and read back as such.
    let mut empty = table(None, TwoDaFormat::Text);
    empty.rows[1][3] = String::new();
    let back = TwoDaFile::parse(&empty.to_text().unwrap()).unwrap();
    assert_eq!(back.rows[1][3], "****");
    // A first column named like a DEFAULT line is read as one when there is no default.
    let mut named = table(None, TwoDaFormat::Text);
    named.columns[1] = "default:x".into();
    let text = named.to_text().unwrap();
    assert_ne!(TwoDaFile::parse(&text).ok(), Some(named.clone()));
}

#[test]
fn binary_values_outside_the_round_trip_come_back_changed() {
    let mut padded = table(None, TwoDaFormat::Binary);
    padded.rows[0][2] = " spaced ".into();
    let back = TwoDaFile::parse_binary(&padded.to_binary().unwrap()).unwrap();
    assert_eq!(back.rows[0][2], "spaced");
}

#[test]
fn utf8_talk_table_reads_back_exactly() {
    let original = TlkFile {
        language_id: 0,
        encoding: TlkEncoding::Utf8,
        entries: vec![
            TlkEntry {
                flags: 7,
                sound_resref: "vo_guard_01".into(),
                volume_variance: 3,
                pitch_variance: 9,
                sound_length_bits: 2.5f32.to_bits(),
                text: "Grüß dich, Reisender".into(),
            },
            TlkEntry::default(),
        ],
    };
    let decoded = TlkFile::from_bytes(&original.to_bytes().unwrap()).unwrap();
    assert_eq!(decoded, original);
}

#[test]
fn ascii_talk_table_reads_back_in_the_language_encoding() {
    let original = TlkFile {
        language_id: 5,
        encoding: TlkEncoding::Utf8,
        entries: vec![TlkEntry { text: "plain".into(), ..Default::default() }],
    };
    let decoded = TlkFile::from_bytes(&original.to_bytes().unwrap()).unwrap();
    assert_eq!(decoded.entries, original.entries);
    assert_eq!(decoded.encoding, TlkEncoding::Windows1250);
}
