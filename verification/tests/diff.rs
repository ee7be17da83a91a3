use aurora_tlk_explorer::diff::PatchError;
use aurora_tlk_explorer::tlk::{TlkEntry, TlkFile};

#[test]
fn legacy_diff_round_trip() {
    let entries = vec![(
        42,
        TlkEntry {
            flags: 7,
            sound_resref: "voice".into(),
            sound_length_bits: 2.5f32.to_bits(),
            text: "A changed line".into(),
            ..Default::default()
        },
    )];
    let bytes = TlkFile::write_diff(&entries).unwrap();
    assert_eq!(TlkFile::read_diff(&bytes).unwrap(), entries);
}

#[test]
fn diff_keeps_only_the_low_flag_byte() {
    let entries = vec![(
        1,
        TlkEntry { flags: 0x1_02, volume_variance: 9, text: "x".into(), ..Default::default() },
    )];
    let bytes = TlkFile::write_diff(&entries).unwrap();
    let back = TlkFile::read_diff(&bytes).unwrap();
    assert_eq!(back[0].1.flags, 2);
    assert_eq!(back[0].1.volume_variance, 0);
    let mut expected = vec![0, 0, 0, 1, 0, 0, 0, 1, 2, 0, 0, 0, 0, 0, 0, 0, 0, 1];
    expected.push(b'x');
    assert_eq!(bytes, expected);
}

#[test]
fn truncated_and_invalid_diffs_are_rejected() {
    assert_eq!(TlkFile::read_diff(&[0, 0]), Err(PatchError::Truncated));
    assert_eq!(TlkFile::read_diff(&[0, 0, 0, 1, 0, 0]), Err(PatchError::Truncated));
    let bad_text = [0, 0, 0, 1, 0, 0, 0, 0, 0, 0, 0, 0, 0, 0, 0, 0, 0, 1, 0xff];
    assert_eq!(TlkFile::read_diff(&bad_text), Err(PatchError::InvalidText));
    assert_eq!(TlkFile::read_diff(&[0, 0, 0, 0]), Ok(vec![]));
}

#[test]
fn dtu_entries_are_read_with_flags() {
    let mut data = Vec::new();
    data.extend_from_slice(&2u32.to_le_bytes());
    data.extend_from_slice(&5u32.to_le_bytes());
    data.push(2);
    data.extend_from_slice(b"vo");
    data.push(2);
    data.extend_from_slice(b"hi");
    data.extend_from_slice(&9u32.to_le_bytes());
    data.push(0);
    data.push(255);
    data.extend_from_slice(&[3, 0]);
    data.extend_from_slice(b"abc");
    let entries = TlkFile::read_dtu(&data).unwrap();
    assert_eq!(entries.len(), 2);
    assert_eq!(entries[0].0, 5);
    assert_eq!(entries[0].1.flags, 3);
    assert_eq!(entries[0].1.sound_resref, "vo");
    assert_eq!(entries[0].1.text, "hi");
    assert_eq!(entries[1].0, 9);
    assert_eq!(entries[1].1.flags, 1);
    assert_eq!(entries[1].1.text, "abc");
    assert_eq!(TlkFile::read_dtu(&data[..data.len() - 1]), Err(PatchError::Truncated));
}
