//! The options of a command line: `--name` followed by its arguments.

use vstd::prelude::*;
use vstd::string::{StrSliceExecFns, StringExecFns, StringSliceAdditionalSpecFns};
use vstd::utf8::encode_utf8;
use crate::hex_text::hex_digit_value;
use crate::range::Range;

verus! {

/// The format of an image file.
#[derive(Clone, Copy, Debug, PartialEq, Eq, Structural)]
pub enum HexFormatType {
    Unknown,
    IntelHex,
    SRecord,
    Binary,
}

/// How the data of a new image is made.
#[derive(Clone, Copy, Debug, PartialEq, Eq, Structural)]
pub enum HexDataType {
    Unknown,
    Random,
    Incremental,
    Fill,
}

/// The format that the name `name` stands for.
pub open spec fn format_named(name: Seq<char>) -> HexFormatType {
    if name == "hex"@ {
        HexFormatType::IntelHex
    } else if name == "mot"@ {
        HexFormatType::SRecord
    } else if name == "bin"@ {
        HexFormatType::Binary
    } else {
        HexFormatType::Unknown
    }
}

/// Whether two texts are the same.
pub fn same_text(left: &str, right: &str) -> (same: bool)
    ensures
        same == (left@ == right@),
{
    let a = String::from_str(left);
    let b = String::from_str(right);
    a == b
}

/// The format that the name `hex_format` stands for: `hex`, `mot` or `bin`.
pub fn convert_hex_format_to_enum(hex_format: &str) -> (format: HexFormatType)
    ensures
        format == format_named(hex_format@),
{
    if same_text(hex_format, "hex") {
        HexFormatType::IntelHex
    } else if same_text(hex_format, "mot") {
        HexFormatType::SRecord
    } else if same_text(hex_format, "bin") {
        HexFormatType::Binary
    } else {
        HexFormatType::Unknown
    }
}

/// Whether `option` names an option: two hyphens and at least one
/// character more.
pub open spec fn is_option(option: Seq<char>) -> bool {
    option.len() > 2 && option[0] == '-' && option[1] == '-'
}

/// Whether `option` names an option.
pub fn check_option_format(option: &str) -> (yes: bool)
    ensures
        yes == is_option(option@),
{
    option.unicode_len() > 2 && option.get_char(0) == '-' && option.get_char(1) == '-'
}

/// How the data that the name `name` stands for is made.
pub open spec fn data_type_named(name: Seq<char>) -> HexDataType {
    if name == "rand"@ {
        HexDataType::Random
    } else if name == "inc"@ {
        HexDataType::Incremental
    } else if name == "fill"@ {
        HexDataType::Fill
    } else {
        HexDataType::Unknown
    }
}

/// How the data that the name `hex_file_type` stands for is made: `rand`,
/// `inc` or `fill`.
pub fn convert_hex_data_type_to_enum(hex_file_type: &str) -> (kind: HexDataType)
    ensures
        kind == data_type_named(hex_file_type@),
{
    if same_text(hex_file_type, "rand") {
        HexDataType::Random
    } else if same_text(hex_file_type, "inc") {
        HexDataType::Incremental
    } else if same_text(hex_file_type, "fill") {
        HexDataType::Fill
    } else {
        HexDataType::Unknown
    }
}

/// An option of the command line, and the arguments that follow it.
pub struct OptionInfo {
    pub opt: String,
    pub args: Vec<String>,
}

/// The mathematical content of an option: its name and its arguments.
pub ghost struct OptionText {
    pub opt: Seq<char>,
    pub args: Seq<Seq<char>>,
}

/// The texts of `words`, each as its characters.
pub open spec fn texts(words: Seq<String>) -> Seq<Seq<char>> {
    Seq::new(words.len(), |i: int| words[i]@)
}

impl View for OptionInfo {
    type V = OptionText;

    open spec fn view(&self) -> OptionText {
        OptionText { opt: self.opt@, args: texts(self.args@) }
    }
}

/// The contents of `options`, each as its texts.
pub open spec fn option_texts(options: Seq<OptionInfo>) -> Seq<OptionText> {
    Seq::new(options.len(), |i: int| options[i]@)
}

/// The text `token` without the pairs of hyphens that it begins with.
pub open spec fn without_hyphens(token: Seq<char>) -> Seq<char>
    decreases token.len(),
{
    if token.len() >= 2 && token[0] == '-' && token[1] == '-' {
        without_hyphens(token.skip(2))
    } else {
        token
    }
}

/// The options that the words of a command line make up. A word that
/// names an option opens one, under its name without the leading hyphens.
/// Any other word is an argument of the option opened last; before the
/// first option it is passed over.
pub open spec fn parsed_options(words: Seq<Seq<char>>) -> Seq<OptionText>
    decreases words.len(),
{
    if words.len() == 0 {
        Seq::empty()
    } else {
        let before = parsed_options(words.drop_last());
        let word = words.last();
        if is_option(word) {
            before.push(OptionText { opt: without_hyphens(word), args: Seq::empty() })
        } else if before.len() == 0 {
            before
        } else {
            before.update(
                before.len() - 1,
                OptionText { opt: before.last().opt, args: before.last().args.push(word) },
            )
        }
    }
}

/// The text `token` without the pairs of hyphens that it begins with.
pub fn strip_hyphens(token: &str) -> (name: String)
    ensures
        name@ == without_hyphens(token@),
{
    let mut rest: &str = token;
    let mut len: usize = rest.unicode_len();
    while len >= 2 && rest.get_char(0) == '-' && rest.get_char(1) == '-'
        invariant
            len == rest@.len(),
            without_hyphens(rest@) == without_hyphens(token@),
        decreases rest@.len(),
    {
        rest = rest.substring_char(2, len);
        len = rest.unicode_len();
    }
    String::from_str(rest)
}

/// Groups the words of a command line into options and their arguments.
pub fn parse_command_line(command_line: Vec<String>) -> (options: Vec<OptionInfo>)
    ensures
        option_texts(options@) == parsed_options(texts(command_line@)),
{
    let ghost words = texts(command_line@);
    let mut options: Vec<OptionInfo> = Vec::new();
    let mut i: usize = 0;
    assert(option_texts(options@) =~= parsed_options(words.take(0)));
    while i < command_line.len()
        invariant
            i <= command_line@.len(),
            words == texts(command_line@),
            option_texts(options@) == parsed_options(words.take(i as int)),
        decreases command_line@.len() - i,
    {
        let ghost before = option_texts(options@);
        let token: &str = command_line[i].as_str();
        assert(words.take(i + 1).drop_last() =~= words.take(i as int));
        assert(words.take(i + 1).last() == token@);
        if check_option_format(token) {
            options.push(OptionInfo { opt: strip_hyphens(token), args: Vec::new() });
            assert(texts(Seq::<String>::empty()) =~= Seq::<Seq<char>>::empty());
            assert(option_texts(options@) =~= before.push(
                OptionText { opt: without_hyphens(token@), args: Seq::empty() },
            ));
        } else if options.len() > 0 {
            let last: usize = options.len() - 1;
            let ghost args = options@[last as int].args@;
            options[last].args.push(String::from_str(token));
            assert(texts(options@[last as int].args@) =~= texts(args).push(token@));
            assert(option_texts(options@) =~= before.update(
                before.len() - 1,
                OptionText { opt: before.last().opt, args: before.last().args.push(token@) },
            ));
        }
        i += 1;
    }
    assert(words.take(command_line@.len() as int) =~= words);
    options
}

/// Why a command line was refused.
#[derive(Debug, PartialEq, Eq)]
pub enum OptionError {
    /// An address is not two characters and a hexadecimal number after them.
    InvalidHexString,
    /// The `range` option has an odd number of pairs of addresses.
    OddRangeArguments,
    /// An address of the `range` option is no hexadecimal number.
    InvalidAddress,
    /// A range of the `range` option ends before it starts.
    InvalidRange,
    /// The option, which is named, is none that takes ranges.
    UnknownSubOption(String),
    /// The name of the file does not end in a known format.
    UnknownFileFormat,
    /// The `show` option does not have one argument.
    ShowArguments,
    /// The `convert` option does not have two arguments.
    ConvertArguments,
    /// The `create` option does not have three arguments.
    CreateArguments,
    /// The `remove` option does not have one argument.
    RemoveArguments,
}

/// The mathematical content of an `OptionError`.
pub ghost enum OptionFault {
    InvalidHexString,
    OddRangeArguments,
    InvalidAddress,
    InvalidRange,
    UnknownSubOption(Seq<char>),
    UnknownFileFormat,
    ShowArguments,
    ConvertArguments,
    CreateArguments,
    RemoveArguments,
}

impl View for OptionError {
    type V = OptionFault;

    open spec fn view(&self) -> OptionFault {
        match self {
            OptionError::InvalidHexString => OptionFault::InvalidHexString,
            OptionError::OddRangeArguments => OptionFault::OddRangeArguments,
            OptionError::InvalidAddress => OptionFault::InvalidAddress,
            OptionError::InvalidRange => OptionFault::InvalidRange,
            OptionError::UnknownSubOption(name) => OptionFault::UnknownSubOption(name@),
            OptionError::UnknownFileFormat => OptionFault::UnknownFileFormat,
            OptionError::ShowArguments => OptionFault::ShowArguments,
            OptionError::ConvertArguments => OptionFault::ConvertArguments,
            OptionError::CreateArguments => OptionFault::CreateArguments,
            OptionError::RemoveArguments => OptionFault::RemoveArguments,
        }
    }
}

impl OptionFault {
    /// The description that belongs to each error.
    pub open spec fn message(self) -> Seq<char> {
        match self {
            OptionFault::InvalidHexString => "Invalid hex string"@,
            OptionFault::OddRangeArguments => "Need even number of arguments for range option"@,
            OptionFault::InvalidAddress => "Invalid address format"@,
            OptionFault::InvalidRange => "Invalid range: start address is greater than end address"@,
            OptionFault::UnknownSubOption(name) => "Unknown sub-option: "@ + name,
            OptionFault::UnknownFileFormat => "Unknown file format"@,
            OptionFault::ShowArguments => "Need one argument for show option"@,
            OptionFault::ConvertArguments => "Need two arguments for convert option"@,
            OptionFault::CreateArguments => "Need two arguments for create option"@,
            OptionFault::RemoveArguments => "Need one argument for remove option"@,
        }
    }
}

impl OptionError {
    /// A description of the error, for messages.
    pub fn message(&self) -> (text: String)
        ensures
            text@ == self@.message(),
    {
        match self {
            OptionError::InvalidHexString => String::from_str("Invalid hex string"),
            OptionError::OddRangeArguments => String::from_str(
                "Need even number of arguments for range option",
            ),
            OptionError::InvalidAddress => String::from_str("Invalid address format"),
            OptionError::InvalidRange => String::from_str(
                "Invalid range: start address is greater than end address",
            ),
            OptionError::UnknownSubOption(name) => String::from_str("Unknown sub-option: ").concat(
                name.as_str(),
            ),
            OptionError::UnknownFileFormat => String::from_str("Unknown file format"),
            OptionError::ShowArguments => String::from_str("Need one argument for show option"),
            OptionError::ConvertArguments => String::from_str(
                "Need two arguments for convert option",
            ),
            OptionError::CreateArguments => String::from_str("Need two arguments for create option"),
            OptionError::RemoveArguments => String::from_str("Need one argument for remove option"),
        }
    }
}

/// The number that the hexadecimal digits `digits` stand for.
pub open spec fn hex_digits_value(digits: Seq<u8>) -> int
    decreases digits.len(),
{
    if digits.len() == 0 {
        0
    } else {
        16 * hex_digits_value(digits.drop_last()) + hex_digit_value(digits.last()).unwrap()
    }
}

/// Whether every byte of `digits` is a hexadecimal digit.
pub open spec fn all_hex_digits(digits: Seq<u8>) -> bool {
    forall|i: int| 0 <= i < digits.len() ==> hex_digit_value(#[trigger] digits[i]) is Some
}

/// The 32-bit number that the text `text` stands for in base 16: a plus
/// sign or none, and then one hexadecimal digit or more. `None` if `text`
/// is no such text, or if the number takes more than 32 bits.
pub open spec fn radix16_value(text: Seq<u8>) -> Option<u32> {
    let digits = if text.len() > 0 && text[0] == 0x2B {
        text.skip(1)
    } else {
        text
    };
    if digits.len() == 0 || !all_hex_digits(digits) || hex_digits_value(digits) > u32::MAX {
        None
    } else {
        Some(hex_digits_value(digits) as u32)
    }
}

/// The address that the text `text` stands for: a number in base 16 after
/// the first two bytes, whatever these are.
pub open spec fn hex_string_value(text: Seq<u8>) -> Option<u32> {
    if text.len() < 2 {
        None
    } else {
        radix16_value(text.skip(2))
    }
}

/// The value of hexadecimal digits is not negative, and it does not get
/// smaller when digits follow.
pub proof fn lemma_hex_digits_value_grows(digits: Seq<u8>, upto: int)
    requires
        all_hex_digits(digits),
        0 <= upto <= digits.len(),
    ensures
        0 <= hex_digits_value(digits.take(upto)) <= hex_digits_value(digits),
    decreases digits.len() - upto,
{
    lemma_hex_digits_value_bound(digits.take(upto));
    if upto < digits.len() {
        lemma_hex_digits_value_grows(digits, upto + 1);
        assert(digits.take(upto + 1).drop_last() =~= digits.take(upto));
        assert(hex_digit_value(digits[upto]) is Some);
    } else {
        assert(digits.take(upto) =~= digits);
    }
}

/// The value of hexadecimal digits is not negative.
pub proof fn lemma_hex_digits_value_bound(digits: Seq<u8>)
    requires
        all_hex_digits(digits),
    ensures
        0 <= hex_digits_value(digits),
    decreases digits.len(),
{
    if digits.len() > 0 {
        lemma_hex_digits_value_bound(digits.drop_last());
        assert(hex_digit_value(digits[digits.len() - 1]) is Some);
    }
}

/// The value of the hexadecimal digit `c`, in either case; `None` if `c`
/// is no digit.
pub fn digit_of(c: u8) -> (value: Option<u8>)
    ensures
        value == hex_digit_value(c),
{
    if 0x30 <= c && c <= 0x39 {
        Some(c - 0x30)
    } else if 0x41 <= c && c <= 0x46 {
        Some(c - 0x41 + 10)
    } else if 0x61 <= c && c <= 0x66 {
        Some(c - 0x61 + 10)
    } else {
        None
    }
}

/// Reads an address: a number in base 16 after the first two characters
/// of `hex_str`, which are passed over.
pub fn convert_hex_string_to_u32(hex_str: &str) -> (res: Result<u32, OptionError>)
    ensures
        match res {
            Ok(value) => hex_string_value(encode_utf8(hex_str@)) == Some(value),
            Err(e) => hex_string_value(encode_utf8(hex_str@)) is None && e@
                == OptionFault::InvalidHexString,
        },
{
    let text = hex_str.as_bytes();
    if text.len() < 2 {
        return Err(OptionError::InvalidHexString);
    }
    let first: usize = if text.len() > 2 && text[2] == 0x2B {
        3
    } else {
        2
    };
    if first == text.len() {
        return Err(OptionError::InvalidHexString);
    }
    let ghost digits = text@.skip(first as int);
    assert(digits == if text@.skip(2).len() > 0 && text@.skip(2)[0] == 0x2B {
        text@.skip(2).skip(1)
    } else {
        text@.skip(2)
    }) by {
        assert(text@.skip(2).skip(1) =~= text@.skip(3));
    }
    let mut value: u32 = 0;
    let mut i: usize = first;
    while i < text.len()
        invariant
            2 <= first <= i <= text@.len(),
            first < text@.len(),
            text@ == encode_utf8(hex_str@),
            digits == text@.skip(first as int),
            digits == if text@.skip(2).len() > 0 && text@.skip(2)[0] == 0x2B {
                text@.skip(2).skip(1)
            } else {
                text@.skip(2)
            },
            all_hex_digits(digits.take(i - first)),
            value == hex_digits_value(digits.take(i - first)),
        decreases text@.len() - i,
    {
        let ghost k = i - first;
        assert(digits.take(k + 1).drop_last() =~= digits.take(k));
        assert(digits[k] == text@[i as int]);
        match digit_of(text[i]) {
            None => {
                assert(!all_hex_digits(digits));
                return Err(OptionError::InvalidHexString);
            },
            Some(digit) => {
                assert(all_hex_digits(digits.take(k + 1))) by {
                    assert forall|j: int| 0 <= j < k + 1 implies hex_digit_value(
                        #[trigger] digits.take(k + 1)[j],
                    ) is Some by {
                        if j < k {
                            assert(digits.take(k + 1)[j] == digits.take(k)[j]);
                        }
                    }
                }
                if value > (u32::MAX - digit as u32) / 16 {
                    proof {
                        if all_hex_digits(digits) {
                            lemma_hex_digits_value_grows(digits, k + 1);
                        }
                    }
                    return Err(OptionError::InvalidHexString);
                }
                value = value * 16 + digit as u32;
            },
        }
        i += 1;
    }
    assert(digits.take(text@.len() - first) =~= digits);
    Ok(value)
}

/// The part of `name` after its last dot; all of `name` if it has no dot.
pub open spec fn after_last_dot(name: Seq<char>) -> Seq<char>
    decreases name.len(),
{
    if name.len() == 0 {
        name
    } else if name.last() == '.' {
        Seq::empty()
    } else {
        after_last_dot(name.drop_last()).push(name.last())
    }
}

/// The format that the name of a file ends in, after its last dot; `None`
/// if it is none of `hex`, `mot` and `bin`.
pub open spec fn file_format(name: Seq<char>) -> Option<HexFormatType> {
    if format_named(after_last_dot(name)) == HexFormatType::Unknown {
        None
    } else {
        Some(format_named(after_last_dot(name)))
    }
}

/// The format of the file `file_name`, by the end of its name.
pub fn check_file_format(file_name: &str) -> (res: Result<HexFormatType, OptionError>)
    ensures
        match res {
            Ok(format) => file_format(file_name@) == Some(format),
            Err(e) => file_format(file_name@) is None && e@ == OptionFault::UnknownFileFormat,
        },
{
    let len: usize = file_name.unicode_len();
    let mut start: usize = 0;
    let mut i: usize = 0;
    assert(file_name@.subrange(0, 0) =~= after_last_dot(file_name@.take(0)));
    while i < len
        invariant
            start <= i <= len,
            len == file_name@.len(),
            file_name@.subrange(start as int, i as int) == after_last_dot(file_name@.take(i as int)),
        decreases len - i,
    {
        assert(file_name@.take(i + 1).drop_last() =~= file_name@.take(i as int));
        if file_name.get_char(i) == '.' {
            start = i + 1;
            assert(file_name@.subrange(start as int, i + 1) =~= Seq::<char>::empty());
        } else {
            assert(file_name@.subrange(start as int, i + 1) =~= file_name@.subrange(
                start as int,
                i as int,
            ).push(file_name@[i as int]));
        }
        i += 1;
    }
    assert(file_name@.take(len as int) =~= file_name@);
    let format = convert_hex_format_to_enum(file_name.substring_char(start, len));
    match format {
        HexFormatType::Unknown => Err(OptionError::UnknownFileFormat),
        _ => Ok(format),
    }
}

/// What the options of a command line say besides the command.
pub struct OptionData {
    pub range: Vec<Range>,
}

/// The error, if there is one, as its mathematical content.
pub open spec fn fault_of(res: Result<(), OptionError>) -> Option<OptionFault> {
    match res {
        Ok(()) => None,
        Err(e) => Some(e@),
    }
}

/// The ranges `ranges` and after them those that the first `count` pairs
/// of `args` give, each pair being the first and the last address of a
/// range. The first pair that gives no range ends it: an address that is
/// no address, or a range that ends before it starts.
pub open spec fn ranges_added(ranges: Seq<Range>, args: Seq<Seq<char>>, count: int) -> (
    Seq<Range>,
    Option<OptionFault>,
)
    decreases count,
{
    if count <= 0 {
        (ranges, None)
    } else {
        let (before, fault) = ranges_added(ranges, args, count - 1);
        let start = hex_string_value(encode_utf8(args[2 * (count - 1)]));
        let end = hex_string_value(encode_utf8(args[2 * (count - 1) + 1]));
        if fault is Some {
            (before, fault)
        } else if start is None || end is None {
            (before, Some(OptionFault::InvalidAddress))
        } else if start.unwrap() > end.unwrap() {
            (before, Some(OptionFault::InvalidRange))
        } else {
            (before.push(Range { start: start.unwrap(), end: end.unwrap() }), None)
        }
    }
}

/// The ranges `ranges` and after them those of the option `option`, which
/// must be the `range` option with an even number of pairs of addresses.
pub open spec fn option_ranges(ranges: Seq<Range>, option: OptionText) -> (
    Seq<Range>,
    Option<OptionFault>,
) {
    if option.opt != "range"@ {
        (ranges, Some(OptionFault::UnknownSubOption(option.opt)))
    } else if (option.args.len() / 2) % 2 != 0 {
        (ranges, Some(OptionFault::OddRangeArguments))
    } else {
        ranges_added(ranges, option.args, option.args.len() as int / 2)
    }
}

/// The ranges `ranges` and after them those of the options `options`, up
/// to the first option that is refused.
pub open spec fn sub_options_outcome(ranges: Seq<Range>, options: Seq<OptionText>) -> (
    Seq<Range>,
    Option<OptionFault>,
)
    decreases options.len(),
{
    if options.len() == 0 {
        (ranges, None)
    } else {
        let (before, fault) = sub_options_outcome(ranges, options.drop_last());
        if fault is Some {
            (before, fault)
        } else {
            option_ranges(before, options.last())
        }
    }
}

/// Once a pair of addresses was refused, the pairs after it change nothing.
pub proof fn lemma_ranges_added_stop(
    ranges: Seq<Range>,
    args: Seq<Seq<char>>,
    upto: int,
    count: int,
)
    requires
        0 <= upto <= count,
        ranges_added(ranges, args, upto).1 is Some,
    ensures
        ranges_added(ranges, args, count) == ranges_added(ranges, args, upto),
    decreases count,
{
    if upto < count {
        lemma_ranges_added_stop(ranges, args, upto, count - 1);
    }
}

/// Once an option was refused, the options after it change nothing.
pub proof fn lemma_sub_options_stop(ranges: Seq<Range>, options: Seq<OptionText>, upto: int)
    requires
        0 <= upto <= options.len(),
        sub_options_outcome(ranges, options.take(upto)).1 is Some,
    ensures
        sub_options_outcome(ranges, options) == sub_options_outcome(ranges, options.take(upto)),
    decreases options.len(),
{
    if upto < options.len() {
        assert(options.drop_last().take(upto) =~= options.take(upto));
        lemma_sub_options_stop(ranges, options.drop_last(), upto);
    } else {
        assert(options.take(upto) =~= options);
    }
}

/// Reads the arguments of a `range` option, two addresses for each range,
/// and adds the ranges to `option_data`. Of an odd number of arguments the
/// last is passed over.
pub fn add_ranges(args: &Vec<String>, option_data: &mut OptionData) -> (res: Result<
    (),
    OptionError,
>)
    ensures
        (final(option_data).range@, fault_of(res)) == ranges_added(
            old(option_data).range@,
            texts(args@),
            args@.len() as int / 2,
        ),
{
    let ghost words = texts(args@);
    let range_num: usize = args.len() / 2;
    let mut r: usize = 0;
    while r < range_num
        invariant
            r <= range_num,
            range_num == args.len() / 2,
            args.len() == args@.len(),
            words == texts(args@),
            (option_data.range@, None::<OptionFault>) == ranges_added(
                old(option_data).range@,
                words,
                r as int,
            ),
        decreases range_num - r,
    {
        let start_addr = convert_hex_string_to_u32(args[r * 2].as_str());
        let end_addr = convert_hex_string_to_u32(args[r * 2 + 1].as_str());
        match (start_addr, end_addr) {
            (Ok(start), Ok(end)) => {
                if start > end {
                    proof {
                        lemma_ranges_added_stop(
                            old(option_data).range@,
                            words,
                            r + 1,
                            range_num as int,
                        );
                    }
                    return Err(OptionError::InvalidRange);
                }
                option_data.range.push(Range::new(start, end));
            },
            _ => {
                proof {
                    lemma_ranges_added_stop(
                        old(option_data).range@,
                        words,
                        r + 1,
                        range_num as int,
                    );
                }
                return Err(OptionError::InvalidAddress);
            },
        }
        r += 1;
    }
    Ok(())
}

/// Reads the options that say something of a command, and adds what they
/// say to `option_data`. Only the `range` option is known. The first
/// option that is refused ends it; what was added before stays.
pub fn check_sub_options(options: &Vec<OptionInfo>, option_data: &mut OptionData) -> (res: Result<
    (),
    OptionError,
>)
    ensures
        (final(option_data).range@, fault_of(res)) == sub_options_outcome(
            old(option_data).range@,
            option_texts(options@),
        ),
{
    let ghost all = option_texts(options@);
    let mut i: usize = 0;
    while i < options.len()
        invariant
            i <= options@.len(),
            all == option_texts(options@),
            (option_data.range@, None::<OptionFault>) == sub_options_outcome(
                old(option_data).range@,
                all.take(i as int),
            ),
        decreases options@.len() - i,
    {
        let option = &options[i];
        assert(all.take(i + 1).drop_last() =~= all.take(i as int));
        assert(all.take(i + 1).last() == option@);
        let res = if !same_text(option.opt.as_str(), "range") {
            Err(OptionError::UnknownSubOption(option.opt.clone()))
        } else if (option.args.len() / 2) % 2 != 0 {
            Err(OptionError::OddRangeArguments)
        } else {
            add_ranges(&option.args, option_data)
        };
        if res.is_err() {
            proof {
                lemma_sub_options_stop(old(option_data).range@, all, i + 1);
            }
            return res;
        }
        i += 1;
    }
    assert(all.take(options@.len() as int) =~= all);
    Ok(())
}

/// What is wrong with the option `option` as a command, if anything: the
/// number of its arguments. `show` and `remove` take one, `convert` takes
/// two and `create` three.
pub open spec fn command_fault(option: OptionText) -> Option<OptionFault> {
    if option.opt == "show"@ && option.args.len() != 1 {
        Some(OptionFault::ShowArguments)
    } else if option.opt == "convert"@ && option.args.len() != 2 {
        Some(OptionFault::ConvertArguments)
    } else if option.opt == "create"@ && option.args.len() != 3 {
        Some(OptionFault::CreateArguments)
    } else if option.opt == "remove"@ && option.args.len() != 1 {
        Some(OptionFault::RemoveArguments)
    } else {
        None
    }
}

/// Whether `name` names a command.
pub open spec fn is_command(name: Seq<char>) -> bool {
    name == "show"@ || name == "convert"@ || name == "create"@ || name == "remove"@
}

/// The names of the options of `options` that are no commands, up to the
/// first command that is refused, and the reason for the refusal if there
/// was one.
pub open spec fn commands_outcome(options: Seq<OptionText>) -> (
    Seq<Seq<char>>,
    Option<OptionFault>,
)
    decreases options.len(),
{
    if options.len() == 0 {
        (Seq::empty(), None)
    } else {
        let (before, fault) = commands_outcome(options.drop_last());
        if fault is Some {
            (before, fault)
        } else if command_fault(options.last()) is Some {
            (before, command_fault(options.last()))
        } else if is_command(options.last().opt) {
            (before, None)
        } else {
            (before.push(options.last().opt), None)
        }
    }
}

/// Once a command was refused, the options after it change nothing.
pub proof fn lemma_commands_stop(options: Seq<OptionText>, upto: int)
    requires
        0 <= upto <= options.len(),
        commands_outcome(options.take(upto)).1 is Some,
    ensures
        commands_outcome(options) == commands_outcome(options.take(upto)),
    decreases options.len(),
{
    if upto < options.len() {
        assert(options.drop_last().take(upto) =~= options.take(upto));
        lemma_commands_stop(options.drop_last(), upto);
    } else {
        assert(options.take(upto) =~= options);
    }
}

/// What the analysis of a command line comes to: the names of the options
/// that are no commands, and the reason for which the line is refused, if
/// it is. The options are first read as options that take ranges, and if
/// none of them is refused, as commands.
pub open spec fn analysis(options: Seq<OptionText>) -> (Seq<Seq<char>>, Option<OptionFault>) {
    if sub_options_outcome(Seq::empty(), options).1 is Some {
        (Seq::empty(), sub_options_outcome(Seq::empty(), options).1)
    } else {
        commands_outcome(options)
    }
}

/// Checks the options of a command line. Returns the names of the options
/// that are no commands, for the caller to print, and whether the line is
/// accepted.
pub fn analyze_command_line(options: &Vec<OptionInfo>) -> (res: (
    Vec<String>,
    Result<(), OptionError>,
))
    ensures
        (texts(res.0@), fault_of(res.1)) == analysis(option_texts(options@)),
{
    let ghost all = option_texts(options@);
    let mut unknown: Vec<String> = Vec::new();
    let mut option_data = OptionData { range: Vec::new() };
    assert(texts(unknown@) =~= Seq::<Seq<char>>::empty());
    let checked = check_sub_options(options, &mut option_data);
    if checked.is_err() {
        return (unknown, checked);
    }
    let mut i: usize = 0;
    while i < options.len()
        invariant
            i <= options@.len(),
            all == option_texts(options@),
            sub_options_outcome(Seq::empty(), all).1 is None,
            (texts(unknown@), None::<OptionFault>) == commands_outcome(all.take(i as int)),
        decreases options@.len() - i,
    {
        let option = &options[i];
        let ghost before = texts(unknown@);
        proof {
            reveal_strlit("show");
            reveal_strlit("convert");
            reveal_strlit("create");
            reveal_strlit("remove");
            assert("show"@.len() == 4 && "convert"@.len() == 7);
            assert("create"@.len() == 6 && "remove"@.len() == 6);
            assert("create"@[0] != "remove"@[0]);
        }
        assert(all.take(i + 1).drop_last() =~= all.take(i as int));
        assert(all.take(i + 1).last() == option@);
        let name: &str = option.opt.as_str();
        let count: usize = option.args.len();
        let fault = if same_text(name, "show") {
            if count != 1 {
                Some(OptionError::ShowArguments)
            } else {
                None
            }
        } else if same_text(name, "convert") {
            if count != 2 {
                Some(OptionError::ConvertArguments)
            } else {
                None
            }
        } else if same_text(name, "create") {
            if count != 3 {
                Some(OptionError::CreateArguments)
            } else {
                None
            }
        } else if same_text(name, "remove") {
            if count != 1 {
                Some(OptionError::RemoveArguments)
            } else {
                None
            }
        } else {
            unknown.push(option.opt.clone());
            assert(texts(unknown@) =~= before.push(option.opt@));
            None
        };
        if let Some(e) = fault {
            proof {
                lemma_commands_stop(all, i + 1);
            }
            return (unknown, Err(e));
        }
        i += 1;
    }
    assert(all.take(options@.len() as int) =~= all);
    (unknown, Ok(()))
}

} // verus!
