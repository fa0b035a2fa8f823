//! The image store: the bytes of a memory image together with the spans
//! of it that were written.

use vstd::prelude::*;
use crate::address_range::AddressRange;
use crate::error::HexError;
use crate::framing::copy_run;
use crate::memory_map::{erased, written, MemoryMap};
use crate::tracker::{merged_spans, spans_wf, AddressRangeTracker};

verus! {

/// The size of the address space of an image: 4 GiB.
pub const IMAGE_SIZE: u64 = 0x1_0000_0000;

/// The size of a sector of an image: 4 KiB.
pub const IMAGE_SECTOR_SIZE: usize = 0x1000;

/// The number of sectors of an image.
pub const IMAGE_SECTOR_NUM: usize = 0x10_0000;

/// What an image store holds: every byte of the address space, and the
/// spans that were written.
pub ghost struct Image {
    pub memory: Seq<u8>,
    pub spans: Seq<AddressRange>,
}

/// An image store that keeps each written span by its first address and
/// the address after its last.
pub struct HexDataManager {
    address_range: AddressRangeTracker,
    memory_map: MemoryMap,
}

impl View for HexDataManager {
    type V = Image;

    /// The bytes of the image, and its spans, each with the address after
    /// its last as its end.
    closed spec fn view(&self) -> Image {
        Image { memory: self.memory_map@, spans: self.address_range@ }
    }
}

/// Writes `data` at `address` into `map`, sector by sector.
pub(crate) fn write_across(map: &mut MemoryMap, address: u32, data: &Vec<u8>)
    requires
        old(map).wf(),
        address + data@.len() <= old(map).total_size(),
        address + data@.len() <= IMAGE_SIZE,
    ensures
        final(map).wf(),
        final(map).spec_sector_size() == old(map).spec_sector_size(),
        final(map).spec_sector_num() == old(map).spec_sector_num(),
        final(map)@ == written(old(map)@, address as int, data@),
{
    let sector_size: usize = map.sector_size();
    let mut done: usize = 0;
    proof {
        map.lemma_view_len();
        assert(map@ =~= written(map@, address as int, data@.take(0)));
    }
    while done < data.len()
        invariant
            done <= data@.len(),
            map.wf(),
            sector_size == map.spec_sector_size(),
            map.spec_sector_size() == old(map).spec_sector_size(),
            map.spec_sector_num() == old(map).spec_sector_num(),
            address + data@.len() <= map.total_size(),
            address + data@.len() <= IMAGE_SIZE,
            map@ == written(old(map)@, address as int, data@.take(done as int)),
        decreases data@.len() - done,
    {
        let ghost before = map@;
        let at: u32 = address + done as u32;
        let room: usize = sector_size - at as usize % sector_size;
        let left: usize = data.len() - done;
        let take: usize = if left < room { left } else { room };
        let chunk = copy_run(data.as_slice(), done, take);
        let stored = map.set_bytes(at, chunk);
        assert(stored is Ok);
        proof {
            map.lemma_view_len();
            assert(map@ =~= written(old(map)@, address as int, data@.take(done + take)));
        }
        done = done + take;
    }
    assert(data@.take(data@.len() as int) =~= data@);
}

/// Reads `size` bytes at `address` from `map`, sector by sector.
pub(crate) fn read_across(map: &MemoryMap, address: u32, size: usize) -> (bytes: Vec<u8>)
    requires
        map.wf(),
        address + size <= map.total_size(),
        address + size <= IMAGE_SIZE,
    ensures
        bytes@ == map@.subrange(address as int, address + size),
{
    let sector_size: usize = map.sector_size();
    let mut bytes: Vec<u8> = Vec::with_capacity(size);
    let mut done: usize = 0;
    proof {
        map.lemma_view_len();
    }
    while done < size
        invariant
            done <= size,
            map.wf(),
            sector_size == map.spec_sector_size(),
            address + size <= map.total_size(),
            address + size <= IMAGE_SIZE,
            map@.len() == map.total_size(),
            bytes@ == map@.subrange(address as int, address + done),
        decreases size - done,
    {
        let at: u32 = address + done as u32;
        let room: usize = sector_size - at as usize % sector_size;
        let left: usize = size - done;
        let take: usize = if left < room { left } else { room };
        let loaded = map.get_bytes(at, take);
        assert(loaded is Ok);
        if let Ok(mut chunk) = loaded {
            bytes.append(&mut chunk);
        }
        assert(bytes@ =~= map@.subrange(address as int, address + done + take));
        done = done + take;
    }
    bytes
}

impl HexDataManager {
    /// The store holds the whole 32-bit address space in sectors of 4 KiB,
    /// and no two of its spans overlap or touch.
    pub closed spec fn wf(&self) -> bool {
        &&& self.memory_map.wf()
        &&& self.memory_map.total_size() == IMAGE_SIZE
        &&& self.memory_map.spec_sector_size() == IMAGE_SECTOR_SIZE
        &&& self.address_range.wf()
    }

    /// The span that a write of `len` bytes at `start` leaves: from the
    /// first address to the address after the last.
    pub open spec fn span_written(start: u32, len: nat) -> AddressRange {
        AddressRange { start, end: (start + len) as u32 }
    }

    /// The image after `data` was written at `start`.
    pub open spec fn image_written(image: Image, start: u32, data: Seq<u8>) -> Image {
        Image {
            memory: written(image.memory, start as int, data),
            spans: merged_spans(image.spans, Self::span_written(start, data.len())),
        }
    }

    /// A valid store has one byte for each address, and spans of which no
    /// two overlap or touch.
    pub proof fn lemma_valid(&self)
        requires
            self.wf(),
        ensures
            self@.memory.len() == IMAGE_SIZE,
            spans_wf(self@.spans),
    {
        self.memory_map.lemma_view_len();
    }

    /// Creates an erased image without spans.
    pub fn new() -> (manager: HexDataManager)
        ensures
            manager.wf(),
            manager@.memory == erased(IMAGE_SIZE as nat),
            manager@.spans == Seq::<AddressRange>::empty(),
    {
        let address_range = AddressRangeTracker::new();
        let memory_map = MemoryMap::with_sectors(IMAGE_SECTOR_NUM, IMAGE_SECTOR_SIZE);
        HexDataManager { address_range, memory_map }
    }

    /// Writes `data` at `start_addr` and the addresses that follow, across
    /// sectors where it must, and merges the span into the spans that
    /// were written. A span whose end is no 32-bit address is refused, and
    /// nothing changes.
    pub fn set_data(&mut self, start_addr: u32, data: Vec<u8>) -> (res: Result<(), HexError>)
        requires
            old(self).wf(),
        ensures
            final(self).wf(),
            start_addr + data@.len() <= u32::MAX ==> res == Ok::<(), HexError>(()) && final(self)@
                == Self::image_written(old(self)@, start_addr, data@),
            start_addr + data@.len() > u32::MAX ==> res == Err::<(), HexError>(
                HexError::AddressOutOfRange,
            ) && final(self)@ == old(self)@,
    {
        if data.len() > (u32::MAX - start_addr) as usize {
            return Err(HexError::AddressOutOfRange);
        }
        let end_addr: u32 = start_addr + data.len() as u32;
        self.address_range.merge_or_insert(AddressRange::new(start_addr, end_addr));
        write_across(&mut self.memory_map, start_addr, &data);
        Ok(())
    }

    /// The `size` bytes from `start_addr` on, read across sectors where it
    /// must. A span that leaves the address space is refused.
    pub fn get_data(&self, start_addr: u32, size: usize) -> (res: Result<Vec<u8>, HexError>)
        requires
            self.wf(),
        ensures
            match res {
                Ok(bytes) => start_addr + size <= IMAGE_SIZE && bytes@ == self@.memory.subrange(
                    start_addr as int,
                    start_addr + size,
                ),
                Err(e) => start_addr + size > IMAGE_SIZE && e == HexError::AddressOutOfRange,
            },
    {
        if size as u64 > IMAGE_SIZE - start_addr as u64 {
            return Err(HexError::AddressOutOfRange);
        }
        Ok(read_across(&self.memory_map, start_addr, size))
    }

    /// The spans that were written, in their order.
    pub fn address_ranges(&self) -> (list: Vec<AddressRange>)
        ensures
            list@ == self@.spans,
    {
        self.address_range.ranges()
    }
}

} // verus!
