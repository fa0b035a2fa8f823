//! Motorola S-records of the kind with a 16-bit address: `S1BBAAAA<data>CC`,
//! where `BB` counts the bytes that follow it, `AAAA` is the address and
//! `CC` the checksum.

use vstd::prelude::*;
use vstd::slice::slice_subrange;
use vstd::string::StringSliceAdditionalSpecFns;
use vstd::utf8::encode_utf8;
use crate::data_manager::{HexDataManager, Image};
use crate::error::HexError;
use crate::framing::{be16, checksum, checksum_of, copy_run};
use crate::hex_text::{hex_decode, hex_decoded, is_hex_text, lines_bytes};

verus! {

/// The character that begins every S-record.
pub const SRECORD_SIGIL: u8 = 0x53;

/// The character, after the first, of a data record with a 16-bit address.
pub const SRECORD_DATA16: u8 = 0x31;

/// The bytes that the byte count covers besides the data: two address
/// bytes and the checksum.
pub const SRECORD_OVERHEAD: usize = 3;

/// What one S-record says.
pub struct SRecordData {
    pub address: u16,
    pub data: Vec<u8>,
    pub checksum: u8,
}

/// The mathematical content of an S-record.
pub ghost struct SRecord {
    pub address: u16,
    pub data: Seq<u8>,
    pub checksum: u8,
}

impl View for SRecordData {
    type V = SRecord;

    open spec fn view(&self) -> SRecord {
        SRecord { address: self.address, data: self.data@, checksum: self.checksum }
    }
}

/// The record that the bytes of a line stand for, or the reason for which
/// they are no record: fewer than five bytes, a byte count that is not the
/// number of bytes after it, or a checksum other than that of the bytes
/// before it.
pub open spec fn srecord_of(bytes: Seq<u8>) -> Result<SRecord, HexError> {
    if bytes.len() < 5 {
        Err(HexError::LineTooShort)
    } else if bytes.len() != 1 + bytes[0] {
        Err(HexError::LengthMismatch)
    } else if bytes.last() != checksum_of(bytes.drop_last()) {
        Err(HexError::ChecksumMismatch)
    } else {
        Ok(
            SRecord {
                address: be16(bytes[1], bytes[2]),
                data: bytes.subrange(3, bytes.len() - 1),
                checksum: bytes.last(),
            },
        )
    }
}

/// The record that a line of text stands for, or the reason for which it is
/// refused. The line is given by its bytes.
pub open spec fn srecord_line_outcome(line: Seq<u8>) -> Result<SRecord, HexError> {
    if line.len() == 0 || line[0] != SRECORD_SIGIL {
        Err(HexError::InvalidSigil)
    } else if line.len() < 2 || line[1] != SRECORD_DATA16 {
        Err(HexError::UnsupportedRecordType)
    } else if !is_hex_text(line.skip(2)) {
        Err(HexError::MalformedHex)
    } else {
        srecord_of(hex_decoded(line.skip(2)))
    }
}

/// Whether `res` is the outcome `want`, the record taken by its view.
pub open spec fn is_srecord_outcome(
    res: Result<SRecordData, HexError>,
    want: Result<SRecord, HexError>,
) -> bool {
    match res {
        Ok(record) => want == Ok::<SRecord, HexError>(record@),
        Err(e) => want == Err::<SRecord, HexError>(e),
    }
}

/// Reads a record from the bytes that the digits of a line stand for:
/// checks the length against the byte count, and the checksum.
pub fn decode_record(bytes: &[u8]) -> (res: Result<SRecordData, HexError>)
    ensures
        is_srecord_outcome(res, srecord_of(bytes@)),
{
    if bytes.len() < SRECORD_OVERHEAD + 2 {
        return Err(HexError::LineTooShort);
    }
    let byte_count: usize = bytes[0] as usize;
    if bytes.len() != byte_count + 1 {
        return Err(HexError::LengthMismatch);
    }
    let data_len: usize = byte_count - SRECORD_OVERHEAD;
    let last: usize = bytes.len() - 1;
    let sum = checksum(bytes, last);
    assert(bytes@.take(last as int) =~= bytes@.drop_last());
    if bytes[last] != sum {
        return Err(HexError::ChecksumMismatch);
    }
    let address: u16 = bytes[1] as u16 * 256 + bytes[2] as u16;
    let data = copy_run(bytes, 3, data_len);
    Ok(SRecordData { address, data, checksum: bytes[last] })
}

/// Reads one line of S-record text. The line must begin with `S1`, and go
/// on with an even number of hexadecimal digits that make up a record.
pub fn parse_hex_line(line: &str) -> (res: Result<SRecordData, HexError>)
    ensures
        is_srecord_outcome(res, srecord_line_outcome(encode_utf8(line@))),
{
    let text = line.as_bytes();
    if text.len() == 0 || text[0] != SRECORD_SIGIL {
        return Err(HexError::InvalidSigil);
    }
    if text.len() < 2 || text[1] != SRECORD_DATA16 {
        return Err(HexError::UnsupportedRecordType);
    }
    let digits = slice_subrange(text, 2, text.len());
    match hex_decode(digits) {
        Ok(bytes) => decode_record(bytes.as_slice()),
        Err(_) => Err(HexError::MalformedHex),
    }
}

/// What a line of text does to an image: an empty line leaves it as it
/// is, a record writes its data at its address, and a line that is no
/// record is refused.
pub open spec fn srecord_line_effect(image: Image, line: Seq<u8>) -> Result<Image, HexError> {
    if line.len() == 0 {
        Ok(image)
    } else {
        match srecord_line_outcome(line) {
            Err(e) => Err(e),
            Ok(record) => Ok(
                HexDataManager::image_written(image, record.address as u32, record.data),
            ),
        }
    }
}

/// What lines of text do to an image, taken in their order up to the first
/// that is refused: the image then, and the reason for the refusal if
/// there was one.
pub open spec fn srecord_lines_effect(image: Image, lines: Seq<Seq<u8>>) -> (
    Image,
    Option<HexError>,
)
    decreases lines.len(),
{
    if lines.len() == 0 {
        (image, None)
    } else {
        let (before, failed) = srecord_lines_effect(image, lines.drop_last());
        if failed is Some {
            (before, failed)
        } else {
            match srecord_line_effect(before, lines.last()) {
                Ok(after) => (after, None),
                Err(e) => (before, Some(e)),
            }
        }
    }
}

/// Once a line was refused, the lines after it change nothing.
pub proof fn lemma_srecord_lines_stop(image: Image, lines: Seq<Seq<u8>>, upto: int)
    requires
        0 <= upto <= lines.len(),
        srecord_lines_effect(image, lines.take(upto)).1 is Some,
    ensures
        srecord_lines_effect(image, lines) == srecord_lines_effect(image, lines.take(upto)),
    decreases lines.len(),
{
    if upto < lines.len() {
        assert(lines.drop_last().take(upto) =~= lines.take(upto));
        lemma_srecord_lines_stop(image, lines.drop_last(), upto);
    } else {
        assert(lines.take(upto) =~= lines);
    }
}

/// Applies one line of S-record text to the image. An empty line is passed
/// over. A line that is refused leaves the image as it was.
pub fn load_line(manager: &mut HexDataManager, line: &str) -> (res: Result<(), HexError>)
    requires
        old(manager).wf(),
    ensures
        final(manager).wf(),
        match res {
            Ok(()) => srecord_line_effect(old(manager)@, encode_utf8(line@)) == Ok::<
                Image,
                HexError,
            >(final(manager)@),
            Err(e) => srecord_line_effect(old(manager)@, encode_utf8(line@)) == Err::<
                Image,
                HexError,
            >(e) && final(manager)@ == old(manager)@,
        },
{
    if line.as_bytes().len() == 0 {
        return Ok(());
    }
    match parse_hex_line(line) {
        Err(e) => Err(e),
        Ok(record) => manager.set_data(record.address as u32, record.data),
    }
}

/// Applies lines of S-record text to the image, in their order. The first
/// line that is refused ends the load with its error; what the lines
/// before it wrote stays.
pub fn load_lines(manager: &mut HexDataManager, lines: &Vec<String>) -> (res: Result<
    (),
    HexError,
>)
    requires
        old(manager).wf(),
    ensures
        final(manager).wf(),
        srecord_lines_effect(old(manager)@, lines_bytes(lines@)) == (
            final(manager)@,
            match res {
                Ok(()) => None::<HexError>,
                Err(e) => Some(e),
            },
        ),
{
    let ghost texts = lines_bytes(lines@);
    let mut i: usize = 0;
    while i < lines.len()
        invariant
            i <= lines@.len(),
            manager.wf(),
            texts == lines_bytes(lines@),
            srecord_lines_effect(old(manager)@, texts.take(i as int)) == (
                manager@,
                None::<HexError>,
            ),
        decreases lines@.len() - i,
    {
        assert(texts.take(i + 1).drop_last() =~= texts.take(i as int));
        match load_line(manager, lines[i].as_str()) {
            Ok(()) => {},
            Err(e) => {
                proof {
                    lemma_srecord_lines_stop(old(manager)@, texts, i + 1);
                }
                return Err(e);
            },
        }
        i += 1;
    }
    assert(texts.take(lines@.len() as int) =~= texts);
    Ok(())
}

} // verus!
