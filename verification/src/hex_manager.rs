//! The image store that keeps its spans as closed intervals.

use vstd::prelude::*;
use crate::address_range::AddressRange;
use crate::data_manager::{
    read_across,
    write_across,
    Image,
    IMAGE_SECTOR_NUM,
    IMAGE_SECTOR_SIZE,
    IMAGE_SIZE,
};
use crate::error::HexError;
use crate::memory_map::{erased, written, MemoryMap};
use crate::range::Range;
use crate::tracker::{merged_spans, spans_wf, AddressRangeTracker};

verus! {

/// An image store that keeps each written span by its first and its last
/// address, so that a span can reach the top of the address space.
pub struct HexManager {
    address_ranges: AddressRangeTracker,
    memory_map: MemoryMap,
}

impl View for HexManager {
    type V = Image;

    /// The bytes of the image, and its spans, each with its last address
    /// as its end.
    closed spec fn view(&self) -> Image {
        Image { memory: self.memory_map@, spans: self.address_ranges@ }
    }
}

impl HexManager {
    /// The store holds the whole 32-bit address space in sectors of 4 KiB,
    /// and no two of its spans overlap or touch.
    pub closed spec fn wf(&self) -> bool {
        &&& self.memory_map.wf()
        &&& self.memory_map.total_size() == IMAGE_SIZE
        &&& self.memory_map.spec_sector_size() == IMAGE_SECTOR_SIZE
        &&& self.address_ranges.wf()
    }

    /// The span that a write of `len` bytes at `start` leaves, where `len`
    /// is not 0: from the first address to the last.
    pub open spec fn span_written(start: u32, len: nat) -> AddressRange {
        AddressRange { start, end: (start + len - 1) as u32 }
    }

    /// The image after `data` was written at `start`. A write of no bytes
    /// leaves the image as it was.
    pub open spec fn image_written(image: Image, start: u32, data: Seq<u8>) -> Image {
        if data.len() == 0 {
            image
        } else {
            Image {
                memory: written(image.memory, start as int, data),
                spans: merged_spans(image.spans, Self::span_written(start, data.len())),
            }
        }
    }

    /// A valid store has one byte for each address, and spans of which no
    /// two overlap or touch.
    pub proof fn lemma_valid(&self)
        requires
            self.wf(),
        ensures
            self@.memory.len() == IMAGE_SIZE,
            spans_wf(self@.spans),
    {
        self.memory_map.lemma_view_len();
    }

    /// Creates an erased image without spans.
    pub fn new() -> (manager: HexManager)
        ensures
            manager.wf(),
            manager@.memory == erased(IMAGE_SIZE as nat),
            manager@.spans == Seq::<AddressRange>::empty(),
    {
        let address_ranges = AddressRangeTracker::new();
        let memory_map = MemoryMap::with_sectors(IMAGE_SECTOR_NUM, IMAGE_SECTOR_SIZE);
        HexManager { address_ranges, memory_map }
    }

    /// Writes `data` at `start_addr` and the addresses that follow, across
    /// sectors where it must, and merges the span into the spans that
    /// were written. A span that leaves the address space is refused, and
    /// nothing changes.
    pub fn set_data(&mut self, start_addr: u32, data: Vec<u8>) -> (res: Result<(), HexError>)
        requires
            old(self).wf(),
        ensures
            final(self).wf(),
            start_addr + data@.len() <= IMAGE_SIZE ==> res == Ok::<(), HexError>(()) && final(self)@
                == Self::image_written(old(self)@, start_addr, data@),
            start_addr + data@.len() > IMAGE_SIZE ==> res == Err::<(), HexError>(
                HexError::AddressOutOfRange,
            ) && final(self)@ == old(self)@,
    {
        if data.len() as u64 > IMAGE_SIZE - start_addr as u64 {
            return Err(HexError::AddressOutOfRange);
        }
        if data.len() == 0 {
            return Ok(());
        }
        let end_addr: u32 = start_addr + (data.len() - 1) as u32;
        self.address_ranges.merge_or_insert(AddressRange::new(start_addr, end_addr));
        write_across(&mut self.memory_map, start_addr, &data);
        Ok(())
    }

    /// The `size` bytes from `start_addr` on, read across sectors where it
    /// must. A span that leaves the address space is refused.
    pub fn get_data(&self, start_addr: u32, size: usize) -> (res: Result<Vec<u8>, HexError>)
        requires
            self.wf(),
        ensures
            match res {
                Ok(bytes) => start_addr + size <= IMAGE_SIZE && bytes@ == self@.memory.subrange(
                    start_addr as int,
                    start_addr + size,
                ),
                Err(e) => start_addr + size > IMAGE_SIZE && e == HexError::AddressOutOfRange,
            },
    {
        if size as u64 > IMAGE_SIZE - start_addr as u64 {
            return Err(HexError::AddressOutOfRange);
        }
        Ok(read_across(&self.memory_map, start_addr, size))
    }

    /// The spans that were written, in their order, as closed intervals.
    pub fn address_ranges(&self) -> (list: Vec<Range>)
        requires
            self.wf(),
        ensures
            list@.len() == self@.spans.len(),
            forall|i: int|
                0 <= i < list@.len() ==> (#[trigger] list@[i]).start == self@.spans[i].start
                    && list@[i].end == self@.spans[i].end,
    {
        let count: usize = self.address_ranges.len();
        let mut list: Vec<Range> = Vec::with_capacity(count);
        let mut i: usize = 0;
        while i < count
            invariant
                i <= count,
                count == self.address_ranges@.len(),
                self.address_ranges.wf(),
                list@.len() == i,
                forall|k: int|
                    0 <= k < i ==> (#[trigger] list@[k]).start == self.address_ranges@[k].start
                        && list@[k].end == self.address_ranges@[k].end,
            decreases count - i,
        {
            let span = self.address_ranges.get(i);
            list.push(Range::new(span.start, span.end));
            i += 1;
        }
        list
    }
}

} // verus!
