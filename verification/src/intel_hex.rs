//! Intel HEX records: `:LLAAAATT<data>CC`, where `LL` counts the data
//! bytes, `AAAA` is the address, `TT` the record type and `CC` the checksum.

use vstd::prelude::*;
use vstd::slice::slice_subrange;
use vstd::string::{StringExecFns, StringSliceAdditionalSpecFns};
use vstd::utf8::encode_utf8;
use crate::address_range::AddressRange;
use crate::data_manager::Image;
use crate::error::HexError;
use crate::framing::{be16, checksum, checksum_of, copy_run, lemma_checksum_update};
use crate::hex_manager::HexManager;
use crate::memory_map::written;
use crate::hex_text::{
    ascii_text,
    hex_decode,
    hex_decoded,
    hex_digit_value,
    hex_encode,
    hex_encoded,
    is_hex_text,
    lemma_ascii_text_bytes,
    lemma_hex_decoded_update,
    lemma_hex_encoded_is_ascii,
    lemma_hex_round_trip,
    lines_bytes,
    lines_text,
};

verus! {

/// The character that begins every Intel HEX record.
pub const INTEL_SIGIL: u8 = 0x3A;

/// The record type of a data record.
pub const DATA_RECORD: u8 = 0;

/// The bytes of a record besides its data: the byte count, two address
/// bytes, the record type and the checksum.
pub const INTEL_OVERHEAD: usize = 5;

/// What one Intel HEX record says.
pub struct IntelHexRecordData {
    pub record_type: u8,
    pub address: u16,
    pub data: Vec<u8>,
    pub checksum: u8,
}

/// The mathematical content of an Intel HEX record.
pub ghost struct IntelHexRecord {
    pub record_type: u8,
    pub address: u16,
    pub data: Seq<u8>,
    pub checksum: u8,
}

impl View for IntelHexRecordData {
    type V = IntelHexRecord;

    open spec fn view(&self) -> IntelHexRecord {
        IntelHexRecord {
            record_type: self.record_type,
            address: self.address,
            data: self.data@,
            checksum: self.checksum,
        }
    }
}

/// The record that the bytes of a line stand for, or the reason for which
/// they are no record: fewer than five bytes, a byte count that is not the
/// number of data bytes, or a checksum other than that of the bytes before
/// it.
pub open spec fn intel_record_of(bytes: Seq<u8>) -> Result<IntelHexRecord, HexError> {
    if bytes.len() < 5 {
        Err(HexError::LineTooShort)
    } else if bytes.len() != 5 + bytes[0] {
        Err(HexError::LengthMismatch)
    } else if bytes.last() != checksum_of(bytes.drop_last()) {
        Err(HexError::ChecksumMismatch)
    } else {
        Ok(
            IntelHexRecord {
                record_type: bytes[3],
                address: be16(bytes[1], bytes[2]),
                data: bytes.subrange(4, bytes.len() - 1),
                checksum: bytes.last(),
            },
        )
    }
}

/// The record that a line of text stands for, or the reason for which it is
/// refused. The line is given by its bytes.
pub open spec fn intel_line_outcome(line: Seq<u8>) -> Result<IntelHexRecord, HexError> {
    if line.len() == 0 || line[0] != INTEL_SIGIL {
        Err(HexError::InvalidSigil)
    } else if !is_hex_text(line.skip(1)) {
        Err(HexError::MalformedHex)
    } else {
        intel_record_of(hex_decoded(line.skip(1)))
    }
}

/// Whether `res` is the outcome `want`, the record taken by its view.
pub open spec fn is_intel_outcome(
    res: Result<IntelHexRecordData, HexError>,
    want: Result<IntelHexRecord, HexError>,
) -> bool {
    match res {
        Ok(record) => want == Ok::<IntelHexRecord, HexError>(record@),
        Err(e) => want == Err::<IntelHexRecord, HexError>(e),
    }
}

/// Reads a record from the bytes that the digits of a line stand for:
/// checks the length against the byte count, and the checksum.
pub fn decode_record(bytes: &[u8]) -> (res: Result<IntelHexRecordData, HexError>)
    ensures
        is_intel_outcome(res, intel_record_of(bytes@)),
{
    if bytes.len() < INTEL_OVERHEAD {
        return Err(HexError::LineTooShort);
    }
    let data_len: usize = bytes[0] as usize;
    if bytes.len() != INTEL_OVERHEAD + data_len {
        return Err(HexError::LengthMismatch);
    }
    let last: usize = bytes.len() - 1;
    let sum = checksum(bytes, last);
    assert(bytes@.take(last as int) =~= bytes@.drop_last());
    if bytes[last] != sum {
        return Err(HexError::ChecksumMismatch);
    }
    let address: u16 = bytes[1] as u16 * 256 + bytes[2] as u16;
    let data = copy_run(bytes, 4, data_len);
    Ok(IntelHexRecordData { record_type: bytes[3], address, data, checksum: bytes[last] })
}

/// Reads one line of Intel HEX text. The line must begin with `:`, and go
/// on with an even number of hexadecimal digits that make up a record.
pub fn parse_hex_line(line: &str) -> (res: Result<IntelHexRecordData, HexError>)
    ensures
        is_intel_outcome(res, intel_line_outcome(encode_utf8(line@))),
{
    let text = line.as_bytes();
    if text.len() == 0 || text[0] != INTEL_SIGIL {
        return Err(HexError::InvalidSigil);
    }
    let digits = slice_subrange(text, 1, text.len());
    match hex_decode(digits) {
        Ok(bytes) => decode_record(bytes.as_slice()),
        Err(_) => Err(HexError::MalformedHex),
    }
}

/// The most data bytes that the encoder puts in one record.
pub const CHUNK_SIZE: usize = 16;

/// The bytes of the data record that holds `data` at `address`: the byte
/// count, the address with its upper byte first, the record type, the data
/// and the checksum of all these.
pub open spec fn intel_record_bytes(address: u16, data: Seq<u8>) -> Seq<u8> {
    let body = seq![data.len() as u8, (address / 256) as u8, (address % 256) as u8, DATA_RECORD]
        + data;
    body.push(checksum_of(body))
}

/// The line of text, given by its bytes, of the data record that holds
/// `data` at `address`.
pub open spec fn intel_record_line(address: u16, data: Seq<u8>) -> Seq<u8> {
    seq![INTEL_SIGIL] + hex_encoded(intel_record_bytes(address, data))
}

/// The number of records that it takes to hold `len` data bytes.
pub open spec fn chunk_count(len: nat) -> nat {
    (len + CHUNK_SIZE - 1) as nat / (CHUNK_SIZE as nat)
}

/// The data bytes of record `i` of a span that holds `data`.
pub open spec fn chunk_data(data: Seq<u8>, i: int) -> Seq<u8> {
    data.subrange(
        CHUNK_SIZE * i,
        if CHUNK_SIZE * (i + 1) <= data.len() {
            CHUNK_SIZE * (i + 1)
        } else {
            data.len() as int
        },
    )
}

/// The address in record `i` of a span that starts at `start`: the lower
/// 16 bits of the address of the record's first byte.
pub open spec fn chunk_address(start: int, i: int) -> u16 {
    ((start + CHUNK_SIZE * i) % 0x10000) as u16
}

/// The lines of the data records that hold `data`, which starts at
/// address `start`.
pub open spec fn span_lines(start: int, data: Seq<u8>) -> Seq<Seq<char>> {
    Seq::new(
        chunk_count(data.len()),
        |i: int| ascii_text(intel_record_line(chunk_address(start, i), chunk_data(data, i))),
    )
}

/// Writes the data record that holds `data` at `address` as a line of
/// text, without a line end.
pub fn encode_record(address: u16, data: &[u8]) -> (line: String)
    requires
        data@.len() <= 255,
    ensures
        line@ == ascii_text(intel_record_line(address, data@)),
{
    let mut bytes: Vec<u8> = Vec::with_capacity(data.len() + INTEL_OVERHEAD);
    bytes.push(data.len() as u8);
    bytes.push((address / 256) as u8);
    bytes.push((address % 256) as u8);
    bytes.push(DATA_RECORD);
    let mut i: usize = 0;
    while i < data.len()
        invariant
            i <= data@.len() <= 255,
            bytes@ == seq![data@.len() as u8, (address / 256) as u8, (address % 256) as u8, DATA_RECORD]
                + data@.take(i as int),
        decreases data@.len() - i,
    {
        bytes.push(data[i]);
        assert(data@.take(i + 1) =~= data@.take(i as int).push(data@[i as int]));
        assert(bytes@ =~= seq![
            data@.len() as u8,
            (address / 256) as u8,
            (address % 256) as u8,
            DATA_RECORD,
        ] + data@.take(i + 1));
        i += 1;
    }
    assert(data@.take(data@.len() as int) =~= data@);
    let len: usize = bytes.len();
    let sum = checksum(bytes.as_slice(), len);
    assert(bytes@.take(len as int) =~= bytes@);
    bytes.push(sum);
    let digits = hex_encode(bytes.as_slice());
    proof {
        reveal_strlit(":");
        let text = hex_encoded(bytes@);
        assert(seq![':'] + ascii_text(text) =~= ascii_text(seq![INTEL_SIGIL] + text));
        assert(":"@ =~= seq![':']);
    }
    String::from_str(":").concat(digits.as_str())
}

/// Writes `data`, which starts at address `start`, as data records of at
/// most sixteen data bytes each, one line of text for each record and in
/// the order of the addresses. A record holds the lower 16 bits of the
/// address of its first byte.
pub fn encode_span(start: u32, data: &[u8]) -> (lines: Vec<String>)
    ensures
        lines_text(lines@) == span_lines(start as int, data@),
{
    let mut lines: Vec<String> = Vec::new();
    let mut address: u16 = #[verifier::truncate] (start as u16);
    let mut done: usize = 0;
    let ghost mut count: int = 0;
    assert(address == start as int % 0x10000) by (bit_vector)
        requires
            address == #[verifier::truncate] (start as u16),
    ;
    while done < data.len()
        invariant
            done <= data@.len(),
            done == CHUNK_SIZE * count || done == data@.len(),
            done == data@.len() ==> count == chunk_count(data@.len()),
            done < data@.len() ==> count < chunk_count(data@.len()),
            0 <= count,
            lines@.len() == count,
            done < data@.len() ==> address == chunk_address(start as int, count),
            forall|i: int|
                0 <= i < count ==> (#[trigger] lines@[i])@ == ascii_text(
                    intel_record_line(chunk_address(start as int, i), chunk_data(data@, i)),
                ),
        decreases data@.len() - done,
    {
        let left: usize = data.len() - done;
        let take: usize = if left < CHUNK_SIZE { left } else { CHUNK_SIZE };
        let chunk = slice_subrange(data, done, done + take);
        assert(chunk@ =~= chunk_data(data@, count));
        let line = encode_record(address, chunk);
        lines.push(line);
        address = address.wrapping_add(take as u16);
        done = done + take;
        proof {
            count = count + 1;
        }
    }
    assert(lines_text(lines@) =~= span_lines(start as int, data@));
    lines
}

/// The record that is read back from the line of a data record.
pub open spec fn intel_record_read_back(address: u16, data: Seq<u8>) -> IntelHexRecord {
    IntelHexRecord {
        record_type: DATA_RECORD,
        address,
        data,
        checksum: intel_record_bytes(address, data).last(),
    }
}

/// The bytes of a data record are read back as its address and its data.
pub proof fn lemma_record_bytes_read_back(address: u16, data: Seq<u8>)
    requires
        data.len() <= 255,
    ensures
        intel_record_of(intel_record_bytes(address, data)) == Ok::<IntelHexRecord, HexError>(
            intel_record_read_back(address, data),
        ),
{
    let body = seq![data.len() as u8, (address / 256) as u8, (address % 256) as u8, DATA_RECORD]
        + data;
    let bytes = intel_record_bytes(address, data);
    assert(bytes == body.push(checksum_of(body)));
    assert(bytes.len() == 5 + data.len());
    assert(bytes[0] == data.len() as u8);
    assert(bytes[1] == (address / 256) as u8);
    assert(bytes[2] == (address % 256) as u8);
    assert(bytes[3] == DATA_RECORD);
    assert(bytes.drop_last() =~= body);
    assert(bytes.subrange(4, bytes.len() - 1) =~= data);
    assert(be16(bytes[1], bytes[2]) == address);
}

/// A data record that is written as a line and read again gives back its
/// address and its data. The line is plain ASCII, so it is stored as the
/// bytes that the record's text is made of.
pub proof fn lemma_record_round_trip(address: u16, data: Seq<u8>)
    requires
        data.len() <= 255,
    ensures
        encode_utf8(ascii_text(intel_record_line(address, data))) == intel_record_line(
            address,
            data,
        ),
        intel_line_outcome(intel_record_line(address, data)) == Ok::<IntelHexRecord, HexError>(
            intel_record_read_back(address, data),
        ),
{
    let bytes = intel_record_bytes(address, data);
    let line = intel_record_line(address, data);
    lemma_record_bytes_read_back(address, data);
    lemma_hex_round_trip(bytes);
    lemma_hex_encoded_is_ascii(bytes);
    assert(line.skip(1) =~= hex_encoded(bytes));
    assert(line[0] == INTEL_SIGIL);
    assert forall|i: int| 0 <= i < line.len() implies #[trigger] line[i] < 0x80 by {
        if i > 0 {
            assert(line[i] == hex_encoded(bytes)[i - 1]);
        }
    }
    lemma_ascii_text_bytes(line);
}

/// Record `i` of a span holds at most sixteen bytes and at least one:
/// those of the span from place `16 * i` on. Its address is that of its
/// first byte, if that lies in the first 64 KiB, which is as far as the
/// address of a record reaches.
pub proof fn lemma_chunk(start: u32, data: Seq<u8>, i: int)
    requires
        0 <= i < chunk_count(data.len()),
    ensures
        0 < chunk_data(data, i).len() <= CHUNK_SIZE,
        chunk_data(data, i) == data.subrange(
            CHUNK_SIZE * i,
            CHUNK_SIZE * i + chunk_data(data, i).len(),
        ),
        chunk_address(start as int, i) == start + CHUNK_SIZE * i <==> start + CHUNK_SIZE * i
            < 0x10000,
{
}

/// Record `i` of a span that is written as lines, read again, gives back
/// the bytes of the span that it holds, under the address that was
/// written.
pub proof fn lemma_span_round_trip(start: u32, data: Seq<u8>, i: int)
    requires
        0 <= i < chunk_count(data.len()),
    ensures
        intel_line_outcome(encode_utf8(span_lines(start as int, data)[i])) == Ok::<
            IntelHexRecord,
            HexError,
        >(intel_record_read_back(chunk_address(start as int, i), chunk_data(data, i))),
{
    let address = chunk_address(start as int, i);
    let chunk = chunk_data(data, i);
    lemma_chunk(start, data, i);
    lemma_record_round_trip(address, chunk);
    assert(span_lines(start as int, data)[i] == ascii_text(intel_record_line(address, chunk)));
}

/// In a record that was read, another value for one byte after the byte
/// count is caught by the checksum; another byte count is caught by the
/// length of the record.
pub proof fn lemma_changed_byte_is_caught(bytes: Seq<u8>, at: int, value: u8)
    requires
        intel_record_of(bytes) is Ok,
        0 <= at < bytes.len(),
        value != bytes[at],
    ensures
        at > 0 ==> intel_record_of(bytes.update(at, value)) == Err::<IntelHexRecord, HexError>(
            HexError::ChecksumMismatch,
        ),
        at == 0 ==> intel_record_of(bytes.update(at, value)) == Err::<IntelHexRecord, HexError>(
            HexError::LengthMismatch,
        ),
{
    let changed = bytes.update(at, value);
    if 0 < at < bytes.len() - 1 {
        assert(changed.drop_last() =~= bytes.drop_last().update(at, value));
        lemma_checksum_update(bytes.drop_last(), at, value);
    } else if at == bytes.len() - 1 {
        assert(changed.drop_last() =~= bytes.drop_last());
    }
}

/// In a line that was read, another digit in one place after the byte
/// count, which stands for another value, is caught by the checksum: the
/// line is refused with `ChecksumMismatch`. So is a digit of which one bit
/// was flipped, as long as it is still a digit and stands for another
/// value.
pub proof fn lemma_changed_digit_is_caught(line: Seq<u8>, at: int, digit: u8)
    requires
        intel_line_outcome(line) is Ok,
        3 <= at < line.len(),
        hex_digit_value(digit) is Some,
        hex_digit_value(digit) != hex_digit_value(line[at]),
    ensures
        intel_line_outcome(line.update(at, digit)) == Err::<IntelHexRecord, HexError>(
            HexError::ChecksumMismatch,
        ),
{
    let text = line.skip(1);
    let changed = line.update(at, digit);
    assert(changed.skip(1) =~= text.update(at - 1, digit));
    lemma_hex_decoded_update(text, at - 1, digit);
    let k = (at - 1) / 2;
    lemma_changed_byte_is_caught(hex_decoded(text), k, hex_decoded(text.update(at - 1, digit))[k]);
}

/// The lines of the data records that hold what `memory` has in each span
/// of `ranges`, span after span. A span goes from its start to the address
/// before its end.
pub open spec fn ranges_lines(memory: Seq<u8>, ranges: Seq<AddressRange>) -> Seq<Seq<char>>
    decreases ranges.len(),
{
    if ranges.len() == 0 {
        Seq::empty()
    } else {
        ranges_lines(memory, ranges.drop_last()) + span_lines(
            ranges.last().start as int,
            memory.subrange(ranges.last().start as int, ranges.last().end as int),
        )
    }
}

/// Writes what the image holds in each span of `ranges` as lines of Intel
/// HEX text, span after span in the order given. A span goes from its
/// start to the address before its end.
pub fn export_lines(manager: &HexManager, ranges: &Vec<AddressRange>) -> (lines: Vec<String>)
    requires
        manager.wf(),
        forall|i: int| 0 <= i < ranges@.len() ==> (#[trigger] ranges@[i]).wf(),
    ensures
        lines_text(lines@) == ranges_lines(manager@.memory, ranges@),
{
    let mut lines: Vec<String> = Vec::new();
    let mut i: usize = 0;
    assert(lines_text(lines@) =~= ranges_lines(manager@.memory, ranges@.take(0)));
    while i < ranges.len()
        invariant
            i <= ranges@.len(),
            manager.wf(),
            forall|k: int| 0 <= k < ranges@.len() ==> (#[trigger] ranges@[k]).wf(),
            lines_text(lines@) == ranges_lines(manager@.memory, ranges@.take(i as int)),
        decreases ranges@.len() - i,
    {
        let range = ranges[i];
        let size: usize = (range.end - range.start) as usize;
        let ghost before = lines@;
        let read = manager.get_data(range.start, size);
        assert(read is Ok);
        if let Ok(data) = read {
            let mut part = encode_span(range.start, data.as_slice());
            proof {
                assert(ranges@.take(i + 1).drop_last() =~= ranges@.take(i as int));
                assert(lines_text(before + part@) =~= lines_text(before) + lines_text(part@));
            }
            lines.append(&mut part);
        }
        i += 1;
    }
    assert(ranges@.take(ranges@.len() as int) =~= ranges@);
    lines
}

/// What a line of text does to an image: an empty line and a record that
/// holds no data leave it as it is, a data record writes its data at its
/// address, and a line that is no record is refused.
pub open spec fn intel_line_effect(image: Image, line: Seq<u8>) -> Result<Image, HexError> {
    if line.len() == 0 {
        Ok(image)
    } else {
        match intel_line_outcome(line) {
            Err(e) => Err(e),
            Ok(record) => if record.record_type == DATA_RECORD {
                Ok(HexManager::image_written(image, record.address as u32, record.data))
            } else {
                Ok(image)
            },
        }
    }
}

/// What lines of text do to an image, taken in their order up to the first
/// that is refused: the image then, and the reason for the refusal if
/// there was one.
pub open spec fn intel_lines_effect(image: Image, lines: Seq<Seq<u8>>) -> (Image, Option<HexError>)
    decreases lines.len(),
{
    if lines.len() == 0 {
        (image, None)
    } else {
        let (before, failed) = intel_lines_effect(image, lines.drop_last());
        if failed is Some {
            (before, failed)
        } else {
            match intel_line_effect(before, lines.last()) {
                Ok(after) => (after, None),
                Err(e) => (before, Some(e)),
            }
        }
    }
}

/// Once a line was refused, the lines after it change nothing.
pub proof fn lemma_intel_lines_stop(image: Image, lines: Seq<Seq<u8>>, upto: int)
    requires
        0 <= upto <= lines.len(),
        intel_lines_effect(image, lines.take(upto)).1 is Some,
    ensures
        intel_lines_effect(image, lines) == intel_lines_effect(image, lines.take(upto)),
    decreases lines.len(),
{
    if upto < lines.len() {
        assert(lines.drop_last().take(upto) =~= lines.take(upto));
        lemma_intel_lines_stop(image, lines.drop_last(), upto);
    } else {
        assert(lines.take(upto) =~= lines);
    }
}

/// Applies one line of Intel HEX text to the image. An empty line is
/// passed over. A line that is refused leaves the image as it was.
pub fn load_line(manager: &mut HexManager, line: &str) -> (res: Result<(), HexError>)
    requires
        old(manager).wf(),
    ensures
        final(manager).wf(),
        match res {
            Ok(()) => intel_line_effect(old(manager)@, encode_utf8(line@)) == Ok::<Image, HexError>(
                final(manager)@,
            ),
            Err(e) => intel_line_effect(old(manager)@, encode_utf8(line@)) == Err::<
                Image,
                HexError,
            >(e) && final(manager)@ == old(manager)@,
        },
{
    if line.as_bytes().len() == 0 {
        return Ok(());
    }
    match parse_hex_line(line) {
        Err(e) => Err(e),
        Ok(record) => {
            if record.record_type == DATA_RECORD {
                manager.set_data(record.address as u32, record.data)
            } else {
                Ok(())
            }
        },
    }
}

/// Applies lines of Intel HEX text to the image, in their order. The first
/// line that is refused ends the load with its error; what the lines
/// before it wrote stays.
pub fn load_lines(manager: &mut HexManager, lines: &Vec<String>) -> (res: Result<(), HexError>)
    requires
        old(manager).wf(),
    ensures
        final(manager).wf(),
        intel_lines_effect(old(manager)@, lines_bytes(lines@)) == (
            final(manager)@,
            match res {
                Ok(()) => None::<HexError>,
                Err(e) => Some(e),
            },
        ),
{
    let ghost texts = lines_bytes(lines@);
    let mut i: usize = 0;
    while i < lines.len()
        invariant
            i <= lines@.len(),
            manager.wf(),
            texts == lines_bytes(lines@),
            intel_lines_effect(old(manager)@, texts.take(i as int)) == (manager@, None::<HexError>),
        decreases lines@.len() - i,
    {
        assert(texts.take(i + 1).drop_last() =~= texts.take(i as int));
        match load_line(manager, lines[i].as_str()) {
            Ok(()) => {},
            Err(e) => {
                proof {
                    lemma_intel_lines_stop(old(manager)@, texts, i + 1);
                }
                return Err(e);
            },
        }
        i += 1;
    }
    assert(texts.take(lines@.len() as int) =~= texts);
    Ok(())
}

/// The first `count` lines of the data records that hold `data`, which
/// starts at address `start`, each as the bytes that it is stored in.
pub open spec fn span_lines_bytes(start: int, data: Seq<u8>, count: int) -> Seq<Seq<u8>> {
    Seq::new(
        count as nat,
        |i: int| intel_record_line(chunk_address(start, i), chunk_data(data, i)),
    )
}

/// The line of a data record with data writes the data at the record's
/// address.
pub proof fn lemma_record_line_effect(image: Image, address: u16, data: Seq<u8>)
    requires
        0 < data.len() <= 255,
    ensures
        intel_line_effect(image, intel_record_line(address, data)) == Ok::<Image, HexError>(
            HexManager::image_written(image, address as u32, data),
        ),
{
    lemma_record_round_trip(address, data);
    assert(intel_record_line(address, data).len() > 0);
}

/// The bytes of record `i` of a span, written after the bytes of the
/// records before it, make up the bytes of the first `i + 1` records.
proof fn lemma_written_chunk(memory: Seq<u8>, start: int, data: Seq<u8>, i: int)
    requires
        0 <= i < chunk_count(data.len()),
    ensures
        written(
            written(memory, start, data.take(CHUNK_SIZE * i)),
            start + CHUNK_SIZE * i,
            chunk_data(data, i),
        ) == written(
            memory,
            start,
            data.take(
                if CHUNK_SIZE * (i + 1) <= data.len() {
                    CHUNK_SIZE * (i + 1)
                } else {
                    data.len() as int
                },
            ),
        ),
{
    let upto = if CHUNK_SIZE * (i + 1) <= data.len() {
        CHUNK_SIZE * (i + 1)
    } else {
        data.len() as int
    };
    assert(written(
        written(memory, start, data.take(CHUNK_SIZE * i)),
        start + CHUNK_SIZE * i,
        chunk_data(data, i),
    ) =~= written(memory, start, data.take(upto)));
}

/// Line `i` of a span, if it begins in the first 64 KiB, writes the bytes
/// that it carries at their address in the span.
proof fn lemma_span_line_effect(image: Image, start: u32, data: Seq<u8>, i: int)
    requires
        0 <= i < chunk_count(data.len()),
        start + CHUNK_SIZE * i < 0x10000,
    ensures
        intel_line_effect(image, span_lines_bytes(start as int, data, i + 1).last()).is_ok(),
        intel_line_effect(
            image,
            span_lines_bytes(start as int, data, i + 1).last(),
        ).unwrap().memory == written(image.memory, start + CHUNK_SIZE * i, chunk_data(data, i)),
{
    let chunk = chunk_data(data, i);
    let address = chunk_address(start as int, i);
    assert(span_lines_bytes(start as int, data, i + 1).last() == intel_record_line(address, chunk));
    assert(0 < chunk.len() <= 255);
    assert(address == start + CHUNK_SIZE * i);
    lemma_record_line_effect(image, address, chunk);
}

/// A span that is written as lines and loaded again is in the image as
/// it was written, as far as its records begin in the first 64 KiB: none
/// of the first `count` lines is refused, and after them the image holds
/// the bytes that they carry, at the addresses of the span.
pub proof fn lemma_span_loads_back(image: Image, start: u32, data: Seq<u8>, count: int)
    requires
        0 <= count <= chunk_count(data.len()),
        count > 0 ==> start + CHUNK_SIZE * (count - 1) < 0x10000,
    ensures
        intel_lines_effect(image, span_lines_bytes(start as int, data, count)).1 is None,
        intel_lines_effect(image, span_lines_bytes(start as int, data, count)).0.memory == written(
            image.memory,
            start as int,
            data.take(
                if CHUNK_SIZE * count <= data.len() {
                    CHUNK_SIZE * count
                } else {
                    data.len() as int
                },
            ),
        ),
    decreases count,
{
    let lines = span_lines_bytes(start as int, data, count);
    if count == 0 {
        assert(image.memory =~= written(image.memory, start as int, data.take(0)));
    } else {
        let i = count - 1;
        let before = intel_lines_effect(image, lines.drop_last()).0;
        lemma_span_loads_back(image, start, data, i);
        assert(lines.drop_last() =~= span_lines_bytes(start as int, data, i));
        lemma_span_line_effect(before, start, data, i);
        lemma_written_chunk(image.memory, start as int, data, i);
    }
}

} // verus!
