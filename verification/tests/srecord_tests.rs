use hexstore::data_manager::HexDataManager;
use hexstore::error::HexError;
use hexstore::srecord::{decode_record, load_line, load_lines, parse_hex_line};

const SAMPLE: &str = "S1137AF00A0A0D0000000000000000000000000062";

fn error_of(line: &str) -> HexError {
    match parse_hex_line(line) {
        Ok(_) => panic!("the line was accepted: {}", line),
        Err(e) => e,
    }
}

#[test]
fn srecord_line_is_read() {
    let record = parse_hex_line(SAMPLE).unwrap();
    assert_eq!(record.address, 0x7AF0);
    assert_eq!(record.data.len(), 16);
    assert_eq!(record.data[..3], [0x0A, 0x0A, 0x0D]);
    assert_eq!(record.data[3..], [0u8; 13]);
    assert_eq!(record.checksum, 0x62);
    let record = parse_hex_line("S1050100dead6f").unwrap();
    assert_eq!(record.address, 0x0100);
    assert_eq!(record.data, vec![0xDE, 0xAD]);
    assert_eq!(record.checksum, 0x6F);
}

#[test]
fn srecord_line_without_sigil_is_refused() {
    assert_eq!(error_of(""), HexError::InvalidSigil);
    assert_eq!(error_of("1137AF00A0A0D0000000000000000000000000062"), HexError::InvalidSigil);
    assert_eq!(error_of(":00000001FF"), HexError::InvalidSigil);
    assert_eq!(error_of("s1050100dead6f"), HexError::InvalidSigil);
}

#[test]
fn srecord_of_another_type_is_refused() {
    assert_eq!(error_of("S"), HexError::UnsupportedRecordType);
    assert_eq!(error_of("S0030000FC"), HexError::UnsupportedRecordType);
    assert_eq!(error_of("S214010000DEAD5F"), HexError::UnsupportedRecordType);
    assert_eq!(error_of("S9030000FC"), HexError::UnsupportedRecordType);
    assert_eq!(error_of("S\u{e9}050100dead6f"), HexError::UnsupportedRecordType);
}

#[test]
fn srecord_of_bad_digits_is_refused() {
    assert_eq!(error_of("S1050100dead6"), HexError::MalformedHex);
    assert_eq!(error_of("S1050100deaX6e"), HexError::MalformedHex);
    assert_eq!(error_of("S1050100dead6f\r"), HexError::MalformedHex);
    assert_eq!(error_of("S1\u{e9}050100dead6f"), HexError::MalformedHex);
}

#[test]
fn srecord_that_is_too_short_is_refused() {
    assert_eq!(error_of("S1"), HexError::LineTooShort);
    assert_eq!(error_of("S103"), HexError::LineTooShort);
    assert_eq!(error_of("S1030000FD"), HexError::LineTooShort);
}

#[test]
fn srecord_of_wrong_length_is_refused() {
    assert_eq!(error_of("S1060100dead6f"), HexError::LengthMismatch);
    assert_eq!(error_of("S1040100dead6f"), HexError::LengthMismatch);
    assert_eq!(error_of("S1000100dead6f"), HexError::LengthMismatch);
    assert_eq!(error_of("S1020100dead6f"), HexError::LengthMismatch);
}

#[test]
fn srecord_of_wrong_checksum_is_refused() {
    assert_eq!(error_of("S1137AF00A0A0D0000000000000000000000000061"), HexError::ChecksumMismatch);
    assert_eq!(error_of("S1050100dead6e"), HexError::ChecksumMismatch);
    assert_eq!(error_of("S1050100deac6e"), HexError::ChecksumMismatch);
}

#[test]
fn srecord_bytes_are_read() {
    let record = decode_record(&[0x04, 0x12, 0x34, 0x56, 0x60]).unwrap();
    assert_eq!(record.address, 0x1234);
    assert_eq!(record.data, vec![0x56]);
    assert_eq!(record.checksum, 0x60);
    assert_eq!(decode_record(&[0x03, 0x00, 0x00, 0xFD]).err(), Some(HexError::LineTooShort));
    assert_eq!(decode_record(&[0x03, 0, 0, 0, 0]).err(), Some(HexError::LengthMismatch));
    assert_eq!(decode_record(&[0x04, 0, 0, 0, 0]).err(), Some(HexError::ChecksumMismatch));
}

#[test]
fn srecord_line_is_loaded() {
    let mut manager = HexDataManager::new();
    assert_eq!(load_line(&mut manager, "S1050100dead6f"), Ok(()));
    assert_eq!(manager.get_data(0x00FE, 6).unwrap(), vec![0xFF, 0xFF, 0xDE, 0xAD, 0xFF, 0xFF]);
    let ranges = manager.address_ranges();
    assert_eq!(ranges.len(), 1);
    assert_eq!((ranges[0].start, ranges[0].end), (0x0100, 0x0102));
    assert_eq!(load_line(&mut manager, ""), Ok(()));
    assert_eq!(load_line(&mut manager, "S1050100deac6e"), Err(HexError::ChecksumMismatch));
    assert_eq!(manager.get_data(0x0100, 2).unwrap(), vec![0xDE, 0xAD]);
    assert_eq!(manager.address_ranges().len(), 1);
}

#[test]
fn srecord_load_stops_at_the_first_bad_line() {
    let mut manager = HexDataManager::new();
    let lines: Vec<String> = vec![
        "S1050100dead6f".to_string(),
        "".to_string(),
        "S10401025a9f".to_string(),
        "S2050100dead6f".to_string(),
        "S10402005aa0".to_string(),
        "bad".to_string(),
    ];
    assert_eq!(load_lines(&mut manager, &lines), Err(HexError::UnsupportedRecordType));
    assert_eq!(manager.get_data(0x0100, 4).unwrap(), vec![0xDE, 0xAD, 0x5A, 0xFF]);
    assert_eq!(manager.get_data(0x0200, 1).unwrap(), vec![0xFF]);
    let ranges = manager.address_ranges();
    assert_eq!(ranges.len(), 1);
    assert_eq!((ranges[0].start, ranges[0].end), (0x0100, 0x0103));

    let mut manager = HexDataManager::new();
    assert_eq!(load_lines(&mut manager, &lines[..3].to_vec()), Ok(()));
    assert_eq!(load_lines(&mut manager, &Vec::new()), Ok(()));
    assert_eq!(manager.get_data(0x0100, 3).unwrap(), vec![0xDE, 0xAD, 0x5A]);
}
