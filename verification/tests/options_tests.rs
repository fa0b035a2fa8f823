use hexstore::options::{
    add_ranges, analyze_command_line, check_file_format, check_option_format, check_sub_options,
    convert_hex_data_type_to_enum, convert_hex_format_to_enum, convert_hex_string_to_u32,
    parse_command_line, same_text, strip_hyphens, HexDataType, HexFormatType, OptionData,
    OptionError, OptionInfo,
};
use hexstore::range::Range;

fn words(list: &[&str]) -> Vec<String> {
    list.iter().map(|w| w.to_string()).collect()
}

fn option(opt: &str, args: &[&str]) -> OptionInfo {
    OptionInfo { opt: opt.to_string(), args: words(args) }
}

fn spans(data: &OptionData) -> Vec<(u32, u32)> {
    data.range.iter().map(|r| (r.start, r.end)).collect()
}

#[test]
fn format_is_known_by_its_name() {
    assert_eq!(convert_hex_format_to_enum("hex"), HexFormatType::IntelHex);
    assert_eq!(convert_hex_format_to_enum("mot"), HexFormatType::SRecord);
    assert_eq!(convert_hex_format_to_enum("bin"), HexFormatType::Binary);
    assert_eq!(convert_hex_format_to_enum("HEX"), HexFormatType::Unknown);
    assert_eq!(convert_hex_format_to_enum("hexa"), HexFormatType::Unknown);
    assert_eq!(convert_hex_format_to_enum(""), HexFormatType::Unknown);
}

#[test]
fn data_type_is_known_by_its_name() {
    assert_eq!(convert_hex_data_type_to_enum("rand"), HexDataType::Random);
    assert_eq!(convert_hex_data_type_to_enum("inc"), HexDataType::Incremental);
    assert_eq!(convert_hex_data_type_to_enum("fill"), HexDataType::Fill);
    assert_eq!(convert_hex_data_type_to_enum("random"), HexDataType::Unknown);
    assert_eq!(convert_hex_data_type_to_enum(""), HexDataType::Unknown);
}

#[test]
fn texts_are_compared() {
    assert!(same_text("range", "range"));
    assert!(same_text("", ""));
    assert!(!same_text("range", "rang"));
    assert!(!same_text("range", "Range"));
}

#[test]
fn option_begins_with_two_hyphens() {
    assert!(check_option_format("--x"));
    assert!(check_option_format("--range"));
    assert!(check_option_format("---"));
    assert!(check_option_format("--\u{e9}"));
    assert!(!check_option_format("--"));
    assert!(!check_option_format("-x"));
    assert!(!check_option_format("-xy"));
    assert!(!check_option_format("x--"));
    assert!(!check_option_format("-\u{e9}"));
    assert!(!check_option_format(""));
}

#[test]
fn leading_pairs_of_hyphens_are_stripped() {
    assert_eq!(strip_hyphens("--range"), "range");
    assert_eq!(strip_hyphens("----range"), "range");
    assert_eq!(strip_hyphens("---range"), "-range");
    assert_eq!(strip_hyphens("range--"), "range--");
    assert_eq!(strip_hyphens("--"), "");
    assert_eq!(strip_hyphens("-"), "-");
    assert_eq!(strip_hyphens(""), "");
    for word in ["--range", "----range", "---range", "range--", "--", "-", "", "--\u{e9}--"] {
        assert_eq!(strip_hyphens(word), word.trim_start_matches("--"));
    }
}

#[test]
fn command_line_is_grouped_into_options() {
    let options = parse_command_line(words(&[
        "prog", "stray", "--range", "0x0", "0x10", "--show", "a.hex", "----x", "---y", "-z", "--",
    ]));
    assert_eq!(options.len(), 4);
    assert_eq!(options[0].opt, "range");
    assert_eq!(options[0].args, words(&["0x0", "0x10"]));
    assert_eq!(options[1].opt, "show");
    assert_eq!(options[1].args, words(&["a.hex"]));
    assert_eq!(options[2].opt, "x");
    assert_eq!(options[2].args, Vec::<String>::new());
    assert_eq!(options[3].opt, "-y");
    assert_eq!(options[3].args, words(&["-z", "--"]));
    assert_eq!(parse_command_line(Vec::new()).len(), 0);
    assert_eq!(parse_command_line(words(&["prog", "a", "b"])).len(), 0);
}

#[test]
fn address_is_read_in_base_sixteen() {
    assert_eq!(convert_hex_string_to_u32("0x1F"), Ok(0x1F));
    assert_eq!(convert_hex_string_to_u32("0x1f"), Ok(0x1F));
    assert_eq!(convert_hex_string_to_u32("0x0"), Ok(0));
    assert_eq!(convert_hex_string_to_u32("0xFFFFFFFF"), Ok(u32::MAX));
    assert_eq!(convert_hex_string_to_u32("0x00000000FFFFFFFF"), Ok(u32::MAX));
    assert_eq!(convert_hex_string_to_u32("0x+1F"), Ok(0x1F));
    assert_eq!(convert_hex_string_to_u32("zz1F"), Ok(0x1F));
    assert_eq!(convert_hex_string_to_u32("1234"), Ok(0x34));
    assert_eq!(convert_hex_string_to_u32("0x100000000"), Err(OptionError::InvalidHexString));
    assert_eq!(convert_hex_string_to_u32("0xFFFFFFFFF"), Err(OptionError::InvalidHexString));
    assert_eq!(convert_hex_string_to_u32("0x"), Err(OptionError::InvalidHexString));
    assert_eq!(convert_hex_string_to_u32("0x+"), Err(OptionError::InvalidHexString));
    assert_eq!(convert_hex_string_to_u32("0x++1"), Err(OptionError::InvalidHexString));
    assert_eq!(convert_hex_string_to_u32("0x-1"), Err(OptionError::InvalidHexString));
    assert_eq!(convert_hex_string_to_u32("0x 1"), Err(OptionError::InvalidHexString));
    assert_eq!(convert_hex_string_to_u32("0x1G"), Err(OptionError::InvalidHexString));
    assert_eq!(convert_hex_string_to_u32("0x1_0"), Err(OptionError::InvalidHexString));
    assert_eq!(convert_hex_string_to_u32("0"), Err(OptionError::InvalidHexString));
    assert_eq!(convert_hex_string_to_u32(""), Err(OptionError::InvalidHexString));
    assert_eq!(convert_hex_string_to_u32("\u{e9}1"), Ok(1));
    assert_eq!(convert_hex_string_to_u32("1\u{e9}"), Err(OptionError::InvalidHexString));
}

#[test]
fn address_is_read_as_the_standard_library_reads_it() {
    let samples = [
        "0x0", "0x1F", "0xdeadBEEF", "0x+7", "0x", "0x+", "0x-7", "0xFFFFFFFF", "0x100000000",
        "0x0000000000000001", "ab12", "0xxyz", "0x12 ", "0x 12", "0x1+2", "\u{e9}12", "0x\u{e9}",
    ];
    for text in samples {
        let want = u32::from_str_radix(&text[2..], 16).ok();
        assert_eq!(convert_hex_string_to_u32(text).ok(), want, "{}", text);
    }
}

#[test]
fn file_format_is_known_by_the_end_of_the_name() {
    assert_eq!(check_file_format("a.hex"), Ok(HexFormatType::IntelHex));
    assert_eq!(check_file_format("dir.d/a.b.mot"), Ok(HexFormatType::SRecord));
    assert_eq!(check_file_format(".bin"), Ok(HexFormatType::Binary));
    assert_eq!(check_file_format("bin"), Ok(HexFormatType::Binary));
    assert_eq!(check_file_format("a.txt"), Err(OptionError::UnknownFileFormat));
    assert_eq!(check_file_format("a.hex."), Err(OptionError::UnknownFileFormat));
    assert_eq!(check_file_format("hex.a"), Err(OptionError::UnknownFileFormat));
    assert_eq!(check_file_format("a.HEX"), Err(OptionError::UnknownFileFormat));
    assert_eq!(check_file_format(""), Err(OptionError::UnknownFileFormat));
    assert_eq!(check_file_format("\u{e9}.\u{e9}.hex"), Ok(HexFormatType::IntelHex));
}

#[test]
fn ranges_are_read_from_pairs_of_addresses() {
    let mut data = OptionData { range: vec![Range::new(1, 2)] };
    assert_eq!(add_ranges(&words(&["0x10", "0x20", "0x30", "0x30", "0x99"]), &mut data), Ok(()));
    assert_eq!(spans(&data), vec![(1, 2), (0x10, 0x20), (0x30, 0x30)]);
    assert_eq!(add_ranges(&words(&[]), &mut data), Ok(()));
    assert_eq!(add_ranges(&words(&["0x1"]), &mut data), Ok(()));
    assert_eq!(spans(&data).len(), 3);
    assert_eq!(
        add_ranges(&words(&["0x40", "0x50", "0x60", "0x5F", "0x70", "0x80"]), &mut data),
        Err(OptionError::InvalidRange)
    );
    assert_eq!(spans(&data), vec![(1, 2), (0x10, 0x20), (0x30, 0x30), (0x40, 0x50)]);
    assert_eq!(
        add_ranges(&words(&["0x90", "0xA0", "0xB0", "C0"]), &mut data),
        Err(OptionError::InvalidAddress)
    );
    assert_eq!(
        add_ranges(&words(&["0xD0", "0xE0", "0xF0", "x"]), &mut data),
        Err(OptionError::InvalidAddress)
    );
    assert_eq!(
        add_ranges(&words(&["q", "0xE0"]), &mut data),
        Err(OptionError::InvalidAddress)
    );
    assert_eq!(data.range.len(), 6);
}

#[test]
fn only_the_range_option_takes_ranges() {
    let mut data = OptionData { range: Vec::new() };
    let options = vec![
        option("range", &["0x0", "0xFF", "0x200", "0x2FF"]),
        option("range", &[]),
        option("range", &["0x1", "0x2", "0x3", "0x4", "0x5"]),
    ];
    assert_eq!(check_sub_options(&options, &mut data), Ok(()));
    assert_eq!(spans(&data), vec![(0, 0xFF), (0x200, 0x2FF), (1, 2), (3, 4)]);

    let mut data = OptionData { range: Vec::new() };
    let options = vec![option("range", &["0x0", "0xFF"])];
    assert_eq!(check_sub_options(&options, &mut data), Err(OptionError::OddRangeArguments));
    assert_eq!(data.range.len(), 0);

    let options = vec![
        option("range", &["0x0", "0xFF", "0x200", "0x2FF"]),
        option("show", &["a.hex"]),
        option("range", &["0x0", "0xFF", "0x200", "0x2FF"]),
    ];
    assert_eq!(
        check_sub_options(&options, &mut data),
        Err(OptionError::UnknownSubOption("show".to_string()))
    );
    assert_eq!(spans(&data), vec![(0, 0xFF), (0x200, 0x2FF)]);
    assert_eq!(check_sub_options(&Vec::new(), &mut data), Ok(()));

    let mut data = OptionData { range: Vec::new() };
    let options = vec![option("range", &["0x0", "0xFF", "0x200", "zz"])];
    assert_eq!(check_sub_options(&options, &mut data), Err(OptionError::InvalidAddress));
    assert_eq!(spans(&data), vec![(0, 0xFF)]);
}

#[test]
fn command_line_is_analyzed() {
    let (unknown, res) = analyze_command_line(&Vec::new());
    assert_eq!((unknown.len(), res), (0, Ok(())));

    let options = vec![option("range", &["0x0", "0xFF", "0x200", "0x2FF"]), option("range", &[])];
    let (unknown, res) = analyze_command_line(&options);
    assert_eq!(unknown, words(&["range", "range"]));
    assert_eq!(res, Ok(()));

    let options = vec![option("show", &["a.hex"])];
    let (unknown, res) = analyze_command_line(&options);
    assert_eq!(unknown.len(), 0);
    assert_eq!(res, Err(OptionError::UnknownSubOption("show".to_string())));

    let options = parse_command_line(words(&["prog", "--range", "0x0", "0x1"]));
    let (unknown, res) = analyze_command_line(&options);
    assert_eq!(unknown.len(), 0);
    assert_eq!(res, Err(OptionError::OddRangeArguments));
}

#[test]
fn option_error_has_its_message() {
    assert_eq!(OptionError::InvalidHexString.message(), "Invalid hex string");
    assert_eq!(
        OptionError::OddRangeArguments.message(),
        "Need even number of arguments for range option"
    );
    assert_eq!(OptionError::InvalidAddress.message(), "Invalid address format");
    assert_eq!(
        OptionError::InvalidRange.message(),
        "Invalid range: start address is greater than end address"
    );
    assert_eq!(
        OptionError::UnknownSubOption("show".to_string()).message(),
        "Unknown sub-option: show"
    );
    assert_eq!(OptionError::UnknownFileFormat.message(), "Unknown file format");
    assert_eq!(OptionError::ShowArguments.message(), "Need one argument for show option");
    assert_eq!(OptionError::ConvertArguments.message(), "Need two arguments for convert option");
    assert_eq!(OptionError::CreateArguments.message(), "Need two arguments for create option");
    assert_eq!(OptionError::RemoveArguments.message(), "Need one argument for remove option");
}
