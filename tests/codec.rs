use irontbl::{
    analyse_table, decode_special_strings, encode_special_bytes, encode_table, table_to_text,
    text_to_table, ControlCharacterMode, Finding, TableError,
};

fn round_trip_text(lines: &[&str], ccm: &ControlCharacterMode) -> String {
    let owned: Vec<String> = lines.iter().map(|s| s.to_string()).collect();
    let table = text_to_table(&owned, ccm).expect("table fits");
    let out = table_to_text(&table.bytes, ccm, None).expect("table reads back");
    let mut text = String::new();
    for line in out {
        text.push_str(&line);
        text.push('\n');
    }
    text
}

#[test]
fn test_special_byte_encoding_decoding() {
    let mut original = (0..0x20).collect::<Vec<u8>>();
    original.push(0x3C);
    original.push(0x3E);

    let encoded = encode_special_bytes(&original, &ControlCharacterMode::Decimal);
    let decoded = decode_special_strings(&encoded, &ControlCharacterMode::Decimal);
    assert_eq!(original, decoded);

    let encoded = encode_special_bytes(&original, &ControlCharacterMode::Hexadecimal);
    let decoded = decode_special_strings(&encoded, &ControlCharacterMode::Hexadecimal);
    assert_eq!(original, decoded);

    let encoded = encode_special_bytes(&original, &ControlCharacterMode::Decimal);
    let decoded = decode_special_strings(&encoded, &ControlCharacterMode::Hexadecimal);
    assert_ne!(original, decoded);
}

#[test]
fn test_text_to_binary_and_back() {
    let ccm = ControlCharacterMode::Decimal;
    let strings = vec![
        "Hello<0><1>World<0>",
        "<2><3><4>Test<0>",
        "String that is not null terminated",
        "String with <60>encoded<62> brackets<0>",
    ];
    let result_content = round_trip_text(&strings, &ccm);
    let expected_content = strings.join("\n") + "\n";
    assert_eq!(result_content, expected_content);
}

#[test]
fn test_asciitext_to_binary_and_back() {
    let ccm = ControlCharacterMode::Decimal;
    let strings = vec!["<72>ello<32>W<111>rld<0>"];
    let result_content = round_trip_text(&strings, &ccm);
    assert_eq!(result_content, "Hello World<0>\n");
}

#[test]
fn test_larger_control_characters_are_dropped() {
    let ccm = ControlCharacterMode::Decimal;
    let strings = vec!["Hell<366> Worl<355><0>"];
    let result_content = round_trip_text(&strings, &ccm);
    assert_eq!(result_content, "Hell Worl<0>\n");
}

#[test]
fn radix_of_each_mode() {
    assert_eq!(ControlCharacterMode::Decimal.radix(), 10);
    assert_eq!(ControlCharacterMode::Hexadecimal.radix(), 16);
}

#[test]
fn encode_exact_texts() {
    let bytes = [b'A', 0, 9, 10, 31, b'<', b'>', b' ', 0xE9];
    assert_eq!(
        encode_special_bytes(&bytes, &ControlCharacterMode::Decimal),
        "A<0><9><10><31><60><62> \u{e9}"
    );
    assert_eq!(
        encode_special_bytes(&bytes, &ControlCharacterMode::Hexadecimal),
        "A<00><09><0A><1F><3C><3E> \u{e9}"
    );
    assert_eq!(encode_special_bytes(&[], &ControlCharacterMode::Decimal), "");
}

#[test]
fn round_trip_every_byte_both_modes() {
    let all: Vec<u8> = (0..=255).collect();
    for mode in [ControlCharacterMode::Decimal, ControlCharacterMode::Hexadecimal] {
        let text = encode_special_bytes(&all, &mode);
        assert_eq!(decode_special_strings(&text, &mode), all);
    }
}

#[test]
fn cross_mode_reads_sixteen_as_twenty_two() {
    let text = encode_special_bytes(&[16], &ControlCharacterMode::Decimal);
    assert_eq!(text, "<16>");
    assert_eq!(decode_special_strings(&text, &ControlCharacterMode::Hexadecimal), vec![22]);
    // Escaped bytes below ten read the same in both radixes.
    let small = [b'a', 3, 7];
    let text = encode_special_bytes(&small, &ControlCharacterMode::Decimal);
    assert_eq!(decode_special_strings(&text, &ControlCharacterMode::Hexadecimal), small.to_vec());
}

#[test]
fn oversized_escape_contributes_nothing() {
    let bytes = decode_special_strings("Hell<366> Worl<355><0>", &ControlCharacterMode::Decimal);
    assert_eq!(bytes, b"Hell Worl\0".to_vec());
}

#[test]
fn escape_body_forms() {
    let dec = ControlCharacterMode::Decimal;
    let hex = ControlCharacterMode::Hexadecimal;
    assert_eq!(decode_special_strings("<1f><1F>", &hex), vec![31, 31]);
    assert_eq!(decode_special_strings("<+5>", &dec), vec![5]);
    assert_eq!(decode_special_strings("<+>a", &dec), vec![b'a']);
    assert_eq!(decode_special_strings("<>a", &dec), vec![b'a']);
    assert_eq!(decode_special_strings("<-1>", &dec), Vec::<u8>::new());
    assert_eq!(decode_special_strings("<0012>", &dec), vec![12]);
    assert_eq!(decode_special_strings("<x>", &dec), Vec::<u8>::new());
    assert_eq!(decode_special_strings("a<12", &dec), vec![b'a', 12]);
    assert_eq!(decode_special_strings("x>y", &dec), vec![b'x', b'>', b'y']);
    assert_eq!(decode_special_strings("\u{e9}", &dec), vec![0xE9]);
    assert_eq!(decode_special_strings("<255><256>", &dec), vec![255]);
}

#[test]
fn encode_table_layout() {
    let entries = vec![b"ab\0".to_vec(), b"\0".to_vec()];
    let bytes = encode_table(&entries).unwrap();
    assert_eq!(bytes, vec![2, 0, 6, 0, 9, 0, b'a', b'b', 0, 0]);
    assert_eq!(encode_table(&Vec::new()).unwrap(), vec![0, 0]);
}

#[test]
fn encode_table_too_large() {
    let many = vec![Vec::new(); 65536];
    assert_eq!(encode_table(&many), Err(TableError::TooLarge));
    let big = vec![vec![1u8; 70000], vec![0u8]];
    assert_eq!(encode_table(&big), Err(TableError::TooLarge));
    // The last entry may run past what an offset can hold.
    let tail = vec![vec![0u8], vec![1u8; 70000]];
    assert!(encode_table(&tail).is_ok());
}

#[test]
fn text_to_table_lists_unterminated_lines() {
    let lines: Vec<String> = vec!["a<0>".into(), "b".into(), "<0".into(), "c<0>".into(), "".into()];
    let table = text_to_table(&lines, &ControlCharacterMode::Decimal).unwrap();
    assert_eq!(table.unterminated, vec![2, 3, 5]);
    assert_eq!(
        table.bytes,
        vec![5, 0, 12, 0, 14, 0, 15, 0, 16, 0, 18, 0, b'a', 0, b'b', 0, b'c', 0]
    );
}

#[test]
fn read_too_small() {
    let ccm = ControlCharacterMode::Decimal;
    assert_eq!(table_to_text(&[], &ccm, None), Err(TableError::TooSmall));
    assert_eq!(table_to_text(&[1], &ccm, None), Err(TableError::TooSmall));
}

#[test]
fn read_truncated_offset_table() {
    let ccm = ControlCharacterMode::Decimal;
    assert_eq!(
        table_to_text(&[3, 0, 8, 0, 9], &ccm, None),
        Err(TableError::TruncatedOffsetTable { count: 3 })
    );
}

#[test]
fn read_offset_out_of_bounds() {
    let ccm = ControlCharacterMode::Decimal;
    let buffer = [2, 0, 6, 0, 8, 0, b'a', 0];
    assert_eq!(
        table_to_text(&buffer, &ccm, None),
        Err(TableError::OffsetOutOfBounds { index: 1, offset: 8 })
    );
    // The check covers every entry, not only the one selected.
    let bad = [2, 0, 6, 0, 20, 0, b'a', 0];
    assert_eq!(
        table_to_text(&bad, &ccm, Some(0)),
        Err(TableError::OffsetOutOfBounds { index: 1, offset: 20 })
    );
}

#[test]
fn read_offsets_out_of_order() {
    let ccm = ControlCharacterMode::Decimal;
    let buffer = [2, 0, 8, 0, 6, 0, b'a', 0, b'b', 0];
    assert_eq!(
        table_to_text(&buffer, &ccm, None),
        Err(TableError::OffsetsOutOfOrder { index: 0 })
    );
}

#[test]
fn read_entries_by_offset_distance() {
    let ccm = ControlCharacterMode::Decimal;
    let buffer = [2, 0, 6, 0, 9, 0, b'h', 0, b'i', b'x', b'<'];
    assert_eq!(
        table_to_text(&buffer, &ccm, None).unwrap(),
        vec!["h<0>i".to_string(), "x<60>".to_string()]
    );
}

#[test]
fn line_selector() {
    let ccm = ControlCharacterMode::Hexadecimal;
    let buffer = [2, 0, 6, 0, 8, 0, b'a', 0, b'b', 0];
    assert_eq!(table_to_text(&buffer, &ccm, Some(1)).unwrap(), vec!["b<00>".to_string()]);
    assert_eq!(table_to_text(&buffer, &ccm, Some(0)).unwrap(), vec!["a<00>".to_string()]);
    assert_eq!(table_to_text(&buffer, &ccm, Some(2)).unwrap(), Vec::<String>::new());
    assert_eq!(table_to_text(&buffer, &ccm, Some(500)).unwrap(), Vec::<String>::new());
}

#[test]
fn analyse_too_small() {
    assert_eq!(analyse_table(&[7]), vec![Finding::TooSmall]);
    assert_eq!(analyse_table(&[]), vec![Finding::TooSmall]);
}

#[test]
fn analyse_truncated() {
    assert_eq!(
        analyse_table(&[2, 0, 6]),
        vec![Finding::EntryCount { count: 2 }, Finding::TruncatedOffsetTable]
    );
}

#[test]
fn analyse_well_formed() {
    let buffer = [2, 0, 6, 0, 8, 0, b'a', 0, b'b', 0];
    assert_eq!(
        analyse_table(&buffer),
        vec![
            Finding::EntryCount { count: 2 },
            Finding::Offset { index: 0, offset: 6 },
            Finding::Offset { index: 1, offset: 8 },
            Finding::NoUnexpectedData,
            Finding::AllTerminated,
        ]
    );
    assert_eq!(
        analyse_table(&[0, 0]),
        vec![Finding::EntryCount { count: 0 }, Finding::NoUnexpectedData, Finding::AllTerminated]
    );
}

#[test]
fn analyse_gap_and_endings() {
    // An offset of zero, and two entries that do not end with a null byte.
    let buffer = [3, 0, 11, 0, 0, 0, 10, 0, 0xAA, 0xBB, b'x', b'y', b'z'];
    assert_eq!(
        analyse_table(&buffer),
        vec![
            Finding::EntryCount { count: 3 },
            Finding::Offset { index: 0, offset: 11 },
            Finding::Offset { index: 1, offset: 0 },
            Finding::Offset { index: 2, offset: 10 },
            Finding::NoUnexpectedData,
            Finding::LastByteOutOfBounds { index: 0, end: 0 },
            Finding::NotNullTerminated { index: 1, offset: 0 },
            Finding::NotNullTerminated { index: 2, offset: 10 },
        ]
    );
    let gap = [1, 0, 6, 0, 0xAA, 0xBB, b'q', 0];
    assert_eq!(
        analyse_table(&gap),
        vec![
            Finding::EntryCount { count: 1 },
            Finding::Offset { index: 0, offset: 6 },
            Finding::UnknownData { length: 2, start: 4, end: 6 },
            Finding::AllTerminated,
        ]
    );
    let past = [1, 0, 9, 0, 1, 0];
    assert_eq!(
        analyse_table(&past),
        vec![
            Finding::EntryCount { count: 1 },
            Finding::Offset { index: 0, offset: 9 },
            Finding::UnknownData { length: 5, start: 4, end: 6 },
            Finding::AllTerminated,
        ]
    );
    let bounds = [2, 0, 6, 0, 40, 0, 0, 0];
    assert_eq!(
        analyse_table(&bounds),
        vec![
            Finding::EntryCount { count: 2 },
            Finding::Offset { index: 0, offset: 6 },
            Finding::Offset { index: 1, offset: 40 },
            Finding::NoUnexpectedData,
            Finding::LastByteOutOfBounds { index: 0, end: 40 },
        ]
    );
}
