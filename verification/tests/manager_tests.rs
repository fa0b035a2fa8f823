use hexstore::address_range::AddressRange;
use hexstore::data_manager::HexDataManager;
use hexstore::error::HexError;
use hexstore::hex_manager::HexManager;
use hexstore::intel_hex::{export_lines, load_line, load_lines, parse_hex_line};
use hexstore::range::Range;

#[test]
fn data_manager_set_then_get() {
    let mut manager = HexDataManager::new();
    assert_eq!(manager.set_data(0x100, vec![0xDE, 0xAD]), Ok(()));
    assert_eq!(manager.get_data(0x100, 2).unwrap(), vec![0xDE, 0xAD]);
    assert_eq!(manager.get_data(0x0FE, 2).unwrap(), vec![0xFF, 0xFF]);
    assert_eq!(manager.address_ranges(), vec![AddressRange::new(0x100, 0x102)]);
}

#[test]
fn hex_manager_set_then_get() {
    let mut manager = HexManager::new();
    assert_eq!(manager.set_data(0x100, vec![0xDE, 0xAD]), Ok(()));
    assert_eq!(manager.get_data(0x100, 2).unwrap(), vec![0xDE, 0xAD]);
    assert_eq!(manager.get_data(0x0FE, 2).unwrap(), vec![0xFF, 0xFF]);
    assert_eq!(manager.address_ranges(), vec![Range::new(0x100, 0x101)]);
}

#[test]
fn data_manager_write_across_a_sector_boundary() {
    let mut manager = HexDataManager::new();
    let data: Vec<u8> = vec![1, 2, 3, 4, 5, 6, 7, 8];
    assert_eq!(manager.set_data(4092, data.clone()), Ok(()));
    assert_eq!(manager.get_data(4092, 8).unwrap(), data);
    assert_eq!(manager.get_data(4090, 12).unwrap(), vec![0xFF, 0xFF, 1, 2, 3, 4, 5, 6, 7, 8, 0xFF, 0xFF]);
    assert_eq!(manager.get_data(4095, 2).unwrap(), vec![4, 5]);
    assert_eq!(manager.address_ranges(), vec![AddressRange::new(4092, 4100)]);
}

#[test]
fn hex_manager_write_across_several_sectors() {
    let mut manager = HexManager::new();
    let data: Vec<u8> = (0..10000).map(|i: u32| (i % 251) as u8).collect();
    assert_eq!(manager.set_data(0x0001_0FFF, data.clone()), Ok(()));
    assert_eq!(manager.get_data(0x0001_0FFF, 10000).unwrap(), data);
    assert_eq!(manager.get_data(0x0001_0FFE, 2).unwrap(), vec![0xFF, 0]);
    assert_eq!(manager.get_data(0x0001_0FFF + 9999, 2).unwrap(), vec![data[9999], 0xFF]);
    assert_eq!(manager.address_ranges(), vec![Range::new(0x0001_0FFF, 0x0001_0FFF + 9999)]);
}

#[test]
fn data_manager_span_must_end_at_an_address() {
    let mut manager = HexDataManager::new();
    assert_eq!(manager.set_data(0xFFFF_FFFE, vec![1, 2]), Err(HexError::AddressOutOfRange));
    assert_eq!(manager.address_ranges().len(), 0);
    assert_eq!(manager.get_data(0xFFFF_FFFE, 2).unwrap(), vec![0xFF, 0xFF]);
    assert_eq!(manager.set_data(0xFFFF_FFFE, vec![1]), Ok(()));
    assert_eq!(manager.get_data(0xFFFF_FFFE, 2).unwrap(), vec![1, 0xFF]);
    assert_eq!(manager.get_data(0xFFFF_FFFE, 3).err(), Some(HexError::AddressOutOfRange));
    assert_eq!(manager.get_data(0xFFFF_FFFF, 1).unwrap(), vec![0xFF]);
    assert_eq!(manager.get_data(0xFFFF_FFFF, 0).unwrap(), Vec::<u8>::new());
    assert_eq!(manager.address_ranges(), vec![AddressRange::new(0xFFFF_FFFE, 0xFFFF_FFFF)]);
    assert_eq!(manager.set_data(0xFFFF_FFFF, vec![]), Ok(()));
    assert_eq!(manager.address_ranges(), vec![AddressRange::new(0xFFFF_FFFE, 0xFFFF_FFFF)]);
}

#[test]
fn hex_manager_span_must_lie_in_the_address_space() {
    let mut manager = HexManager::new();
    assert_eq!(manager.set_data(0xFFFF_FFFE, vec![1, 2, 3]), Err(HexError::AddressOutOfRange));
    assert_eq!(manager.address_ranges().len(), 0);
    assert_eq!(manager.get_data(0xFFFF_FFFE, 2).unwrap(), vec![0xFF, 0xFF]);
    assert_eq!(manager.set_data(0xFFFF_FFFE, vec![1, 2]), Ok(()));
    assert_eq!(manager.get_data(0xFFFF_FFFE, 2).unwrap(), vec![1, 2]);
    assert_eq!(manager.get_data(0xFFFF_FFFE, 3).err(), Some(HexError::AddressOutOfRange));
    assert_eq!(manager.address_ranges(), vec![Range::new(0xFFFF_FFFE, 0xFFFF_FFFF)]);
}

#[test]
fn hex_manager_write_of_nothing_leaves_no_span() {
    let mut manager = HexManager::new();
    assert_eq!(manager.set_data(0, vec![]), Ok(()));
    assert_eq!(manager.set_data(0x1234, vec![]), Ok(()));
    assert_eq!(manager.address_ranges().len(), 0);
    let mut manager = HexDataManager::new();
    assert_eq!(manager.set_data(0x1234, vec![]), Ok(()));
    assert_eq!(manager.address_ranges(), vec![AddressRange::new(0x1234, 0x1234)]);
}

#[test]
fn managers_merge_the_spans_of_their_writes() {
    let mut manager = HexDataManager::new();
    manager.set_data(0x100, vec![1; 16]).unwrap();
    manager.set_data(0x200, vec![2; 16]).unwrap();
    manager.set_data(0x110, vec![3; 16]).unwrap();
    assert_eq!(
        manager.address_ranges(),
        vec![AddressRange::new(0x100, 0x120), AddressRange::new(0x200, 0x210)]
    );
    manager.set_data(0x108, vec![4; 0x100]).unwrap();
    assert_eq!(manager.address_ranges(), vec![AddressRange::new(0x100, 0x210)]);
    assert_eq!(manager.get_data(0x107, 2).unwrap(), vec![1, 4]);
    assert_eq!(manager.get_data(0x207, 2).unwrap(), vec![4, 2]);

    let mut manager = HexManager::new();
    manager.set_data(0x100, vec![1; 16]).unwrap();
    manager.set_data(0x110, vec![3; 16]).unwrap();
    assert_eq!(manager.address_ranges(), vec![Range::new(0x100, 0x10F), Range::new(0x110, 0x11F)]);
    manager.set_data(0x10F, vec![5; 2]).unwrap();
    assert_eq!(manager.address_ranges(), vec![Range::new(0x100, 0x11F)]);
    manager.set_data(0x10F, vec![5; 2]).unwrap();
    assert_eq!(manager.address_ranges(), vec![Range::new(0x100, 0x11F)]);
}

#[test]
fn intel_line_is_loaded() {
    let mut manager = HexManager::new();
    assert_eq!(load_line(&mut manager, ":10010000214601360121470136007EFE09D2190140"), Ok(()));
    assert_eq!(manager.get_data(0x0100, 4).unwrap(), vec![0x21, 0x46, 0x01, 0x36]);
    assert_eq!(manager.get_data(0x010F, 2).unwrap(), vec![0x01, 0xFF]);
    assert_eq!(manager.address_ranges(), vec![Range::new(0x0100, 0x010F)]);
}

#[test]
fn intel_line_that_is_empty_or_holds_no_data_changes_nothing() {
    let mut manager = HexManager::new();
    assert_eq!(load_line(&mut manager, ""), Ok(()));
    assert_eq!(load_line(&mut manager, ":00000001FF"), Ok(()));
    assert_eq!(load_line(&mut manager, ":020000040800F2"), Ok(()));
    assert_eq!(load_line(&mut manager, ":00010000FF").err(), None);
    assert_eq!(manager.address_ranges().len(), 0);
    assert_eq!(manager.get_data(0, 4).unwrap(), vec![0xFF; 4]);
}

#[test]
fn intel_line_without_colon_is_not_loaded() {
    let mut manager = HexManager::new();
    assert_eq!(
        load_line(&mut manager, "10010000214601360121470136007EFE09D2190140"),
        Err(HexError::InvalidSigil)
    );
    assert_eq!(parse_hex_line("x").err(), Some(HexError::InvalidSigil));
    assert_eq!(manager.address_ranges().len(), 0);
    assert_eq!(manager.get_data(0x0100, 2).unwrap(), vec![0xFF, 0xFF]);
}

#[test]
fn intel_load_stops_at_the_first_bad_line() {
    let lines: Vec<String> = vec![
        ":02010000dead72".to_string(),
        String::new(),
        ":00000001FF".to_string(),
        ":010102005aa2".to_string(),
        ":010200005aa3".to_string(),
        ":010300005a00".to_string(),
        ":010400005aa1".to_string(),
    ];
    let mut manager = HexManager::new();
    assert_eq!(load_lines(&mut manager, &lines), Err(HexError::ChecksumMismatch));
    assert_eq!(manager.get_data(0x0100, 3).unwrap(), vec![0xDE, 0xAD, 0x5A]);
    assert_eq!(manager.get_data(0x0200, 1).unwrap(), vec![0x5A]);
    assert_eq!(manager.get_data(0x0300, 1).unwrap(), vec![0xFF]);
    assert_eq!(manager.get_data(0x0400, 1).unwrap(), vec![0xFF]);
    assert_eq!(manager.address_ranges(), vec![Range::new(0x0100, 0x0101), Range::new(0x0102, 0x0102), Range::new(0x0200, 0x0200)]);

    let mut manager = HexManager::new();
    assert_eq!(load_lines(&mut manager, &lines[..5].to_vec()), Ok(()));
    assert_eq!(load_lines(&mut manager, &Vec::new()), Ok(()));
    assert_eq!(manager.get_data(0x0200, 1).unwrap(), vec![0x5A]);
}

#[test]
fn image_is_written_as_lines_and_loaded_again() {
    let mut manager = HexManager::new();
    let first: Vec<u8> = (0..40).collect();
    let second: Vec<u8> = vec![0xAA; 3];
    manager.set_data(0x0FF0, first.clone()).unwrap();
    manager.set_data(0x8000, second.clone()).unwrap();
    let ranges = vec![AddressRange::new(0x8000, 0x8003), AddressRange::new(0x0FF0, 0x1018)];
    let lines = export_lines(&manager, &ranges);
    assert_eq!(
        lines,
        vec![
            ":03800000aaaaaa7f".to_string(),
            ":100ff000000102030405060708090a0b0c0d0e0f79".to_string(),
            ":10100000101112131415161718191a1b1c1d1e1f68".to_string(),
            ":081010002021222324252627bc".to_string(),
        ]
    );
    let mut copy = HexManager::new();
    assert_eq!(load_lines(&mut copy, &lines), Ok(()));
    assert_eq!(copy.get_data(0x0FF0, 40).unwrap(), first);
    assert_eq!(copy.get_data(0x8000, 3).unwrap(), second);
    assert_eq!(copy.get_data(0x0FEF, 1).unwrap(), vec![0xFF]);
    assert_eq!(copy.get_data(0x1018, 1).unwrap(), vec![0xFF]);
    assert_eq!(export_lines(&manager, &Vec::new()), Vec::<String>::new());
    assert_eq!(export_lines(&manager, &vec![AddressRange::new(5, 5)]), Vec::<String>::new());
    assert_eq!(
        export_lines(&manager, &vec![AddressRange::new(0x0FEF, 0x0FF1)]),
        vec![":020fef00ff0001".to_string()]
    );
}
