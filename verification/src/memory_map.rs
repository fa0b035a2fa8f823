//! A sparse byte store: an address space cut into equal sectors, each of
//! which gets its buffer only when a byte of it is first written.

use vstd::prelude::*;
use vstd::arithmetic::div_mod::*;
use vstd::arithmetic::mul::*;
use crate::error::HexError;
use crate::framing::copy_run;

verus! {

/// The value of every byte that was never written.
pub const ERASE_VALUE: u8 = 0xFF;

/// An erased memory of `len` bytes.
pub open spec fn erased(len: nat) -> Seq<u8> {
    Seq::new(len, |a: int| ERASE_VALUE)
}

/// The memory `mem` after `data` was written at `address`.
pub open spec fn written(mem: Seq<u8>, address: int, data: Seq<u8>) -> Seq<u8> {
    Seq::new(
        mem.len(),
        |a: int| if address <= a < address + data.len() { data[a - address] } else { mem[a] },
    )
}

/// An address below `num * size` lies in one of the `num` sectors, at an
/// offset below `size`; and the sector and the offset give the address back.
pub proof fn lemma_locate(address: int, size: int, num: int)
    requires
        size > 0,
        0 <= address,
    ensures
        0 <= address % size < size,
        0 <= address / size,
        address == (address / size) * size + address % size,
        address < num * size <==> address / size < num,
{
    lemma_fundamental_div_mod(address, size);
    lemma_mul_is_commutative(size, address / size);
    lemma_div_pos_is_pos(address, size);
    if address / size < num {
        lemma_mul_inequality(address / size + 1, num, size);
        lemma_mul_is_distributive_add_other_way(size, address / size, 1);
    } else {
        lemma_mul_inequality(num, address / size, size);
    }
}

/// The sparse byte store. Its view is the whole address space as one
/// sequence of bytes.
pub struct MemoryMap {
    data: Vec<Vec<u8>>,
    sector_size: usize,
    sector_num: usize,
}

impl MemoryMap {
    /// The byte that sector `sector` holds at `offset`: the erase value as
    /// long as the sector has no buffer.
    spec fn sector_byte(&self, sector: int, offset: int) -> u8 {
        if self.data@[sector]@.len() == 0 {
            ERASE_VALUE
        } else {
            self.data@[sector]@[offset]
        }
    }

    /// Every sector has a slot, and each buffer has the sector's size.
    pub closed spec fn wf(&self) -> bool {
        &&& self.sector_size > 0
        &&& self.data@.len() == self.sector_num
        &&& forall|i: int|
            0 <= i < self.sector_num ==> {
                ||| (#[trigger] self.data@[i])@.len() == 0
                ||| self.data@[i]@.len() == self.sector_size
            }
    }

    /// The size of a sector in bytes.
    pub closed spec fn spec_sector_size(&self) -> nat {
        self.sector_size as nat
    }

    /// The number of sectors.
    pub closed spec fn spec_sector_num(&self) -> nat {
        self.sector_num as nat
    }

    /// The size of the address space in bytes.
    pub open spec fn total_size(&self) -> nat {
        self.spec_sector_num() * self.spec_sector_size()
    }

    /// Whether sector `sector` has a buffer.
    pub closed spec fn allocated(&self, sector: int) -> bool {
        0 <= sector < self.data@.len() && self.data@[sector]@.len() != 0
    }

    /// The byte at `address`: the erase value beyond the address space.
    pub open spec fn byte_at(&self, address: int) -> u8 {
        if 0 <= address < self.total_size() {
            self@[address]
        } else {
            ERASE_VALUE
        }
    }

    /// Whether a run of `len` bytes from `address` on can be read or written
    /// in one piece: it begins inside the address space and ends inside the
    /// sector in which it begins.
    pub open spec fn span_check(&self, address: int, len: int) -> Result<(), HexError> {
        if address >= self.total_size() {
            Err(HexError::AddressOutOfRange)
        } else if self.offset_of(address) + len > self.spec_sector_size() {
            Err(HexError::SpanCrossesSectorBoundary)
        } else {
            Ok(())
        }
    }

    /// The sector that holds `address`.
    pub open spec fn sector_of(&self, address: int) -> int {
        address / (self.spec_sector_size() as int)
    }

    /// The place of `address` within its sector.
    pub open spec fn offset_of(&self, address: int) -> int {
        address % (self.spec_sector_size() as int)
    }
}

impl View for MemoryMap {
    type V = Seq<u8>;

    /// The whole address space, byte by byte.
    closed spec fn view(&self) -> Seq<u8> {
        Seq::new(
            (self.sector_num * self.sector_size) as nat,
            |a: int| self.sector_byte(a / (self.sector_size as int), a % (self.sector_size as int)),
        )
    }
}

impl MemoryMap {
    /// The view has one byte for each address of the address space.
    pub proof fn lemma_view_len(&self)
        ensures
            self@.len() == self.total_size(),
    {
    }

    /// Creates an erased store of `size` bytes in sectors of `sector_size`
    /// bytes. No sector has a buffer yet.
    pub fn new(size: usize, sector_size: usize) -> (map: MemoryMap)
        requires
            sector_size > 0,
            size % sector_size == 0,
        ensures
            map.wf(),
            map.spec_sector_size() == sector_size,
            map.spec_sector_num() == size / sector_size,
            map.total_size() == size,
            map@ == erased(size as nat),
            forall|i: int| !map.allocated(i),
    {
        let sector_num: usize = size / sector_size;
        proof {
            lemma_fundamental_div_mod(size as int, sector_size as int);
            lemma_mul_is_commutative(sector_size as int, sector_num as int);
        }
        MemoryMap::with_sectors(sector_num, sector_size)
    }

    /// Creates an erased store of `sector_num` sectors of `sector_size`
    /// bytes each. No sector has a buffer yet.
    pub fn with_sectors(sector_num: usize, sector_size: usize) -> (map: MemoryMap)
        requires
            sector_size > 0,
        ensures
            map.wf(),
            map.spec_sector_size() == sector_size,
            map.spec_sector_num() == sector_num,
            map@ == erased(map.total_size()),
            forall|i: int| !map.allocated(i),
    {
        let mut data: Vec<Vec<u8>> = Vec::new();
        let mut i: usize = 0;
        while i < sector_num
            invariant
                i <= sector_num,
                data@.len() == i,
                forall|k: int| 0 <= k < i ==> (#[trigger] data@[k])@.len() == 0,
            decreases sector_num - i,
        {
            data.push(Vec::new());
            i += 1;
        }
        let map = MemoryMap { data, sector_size, sector_num };
        assert(map@ =~= erased(map.total_size())) by {
            assert forall|a: int| 0 <= a < map.total_size() implies map@[a] == ERASE_VALUE by {
                lemma_locate(a, sector_size as int, sector_num as int);
            }
        }
        map
    }

    /// The size of a sector in bytes.
    pub fn sector_size(&self) -> (n: usize)
        ensures
            n == self.spec_sector_size(),
    {
        self.sector_size
    }

    /// The number of sectors.
    pub fn sector_num(&self) -> (n: usize)
        ensures
            n == self.spec_sector_num(),
    {
        self.sector_num
    }

    /// The sector that holds `address`.
    fn get_sector_index(&self, address: u32) -> (index: usize)
        requires
            self.wf(),
        ensures
            index == self.sector_of(address as int),
            index < self.spec_sector_num() <==> address < self.total_size(),
    {
        proof {
            lemma_locate(address as int, self.sector_size as int, self.sector_num as int);
        }
        address as usize / self.sector_size
    }

    /// The place of `address` within its sector.
    fn get_sector_offset(&self, address: u32) -> (offset: usize)
        requires
            self.wf(),
        ensures
            offset == self.offset_of(address as int),
            offset < self.spec_sector_size(),
    {
        proof {
            lemma_locate(address as int, self.sector_size as int, self.sector_num as int);
        }
        address as usize % self.sector_size
    }

    /// Writes `value` at `address`. The sector that holds the address gets
    /// its buffer, filled with the erase value, if it had none. An address
    /// beyond the address space is refused and nothing changes.
    pub fn set_byte(&mut self, address: u32, value: u8) -> (res: Result<(), HexError>)
        requires
            old(self).wf(),
        ensures
            final(self).wf(),
            final(self).spec_sector_size() == old(self).spec_sector_size(),
            final(self).spec_sector_num() == old(self).spec_sector_num(),
            address < old(self).total_size() ==> res == Ok::<(), HexError>(())
                && final(self)@ == old(self)@.update(address as int, value)
                && final(self).allocated(old(self).sector_of(address as int)),
            address >= old(self).total_size() ==> res == Err::<(), HexError>(
                HexError::AddressOutOfRange,
            ) && *final(self) == *old(self),
            forall|i: int|
                i != old(self).sector_of(address as int) ==> final(self).allocated(i) == old(
                    self,
                ).allocated(i),
    {
        let index = self.get_sector_index(address);
        let offset = self.get_sector_offset(address);
        if index >= self.sector_num {
            return Err(HexError::AddressOutOfRange);
        }
        let sector_size = self.sector_size;
        open_sector(&mut self.data[index], sector_size);
        self.data[index][offset] = value;
        proof {
            let size = self.sector_size as int;
            assert forall|a: int| 0 <= a < self@.len() implies self@[a] == old(self)@.update(
                address as int,
                value,
            )[a] by {
                lemma_locate(a, size, self.sector_num as int);
                lemma_locate(address as int, size, self.sector_num as int);
            }
            assert(self@ =~= old(self)@.update(address as int, value));
        }
        Ok(())
    }

    /// Writes `data` at `address` and the addresses that follow. The run must
    /// begin inside the address space and end inside the sector in which it
    /// begins; otherwise it is refused and nothing changes. The sector gets
    /// its buffer when the first byte is written to it.
    pub fn set_bytes(&mut self, address: u32, data: Vec<u8>) -> (res: Result<(), HexError>)
        requires
            old(self).wf(),
        ensures
            final(self).wf(),
            final(self).spec_sector_size() == old(self).spec_sector_size(),
            final(self).spec_sector_num() == old(self).spec_sector_num(),
            res == old(self).span_check(address as int, data@.len() as int),
            res is Ok ==> final(self)@ == written(old(self)@, address as int, data@),
            res is Err ==> *final(self) == *old(self),
            forall|i: int|
                final(self).allocated(i) == (old(self).allocated(i) || (res is Ok && data@.len() > 0
                    && i == old(self).sector_of(address as int))),
    {
        let index = self.get_sector_index(address);
        let offset = self.get_sector_offset(address);
        if index >= self.sector_num {
            return Err(HexError::AddressOutOfRange);
        }
        if data.len() > self.sector_size - offset {
            return Err(HexError::SpanCrossesSectorBoundary);
        }
        if data.len() == 0 {
            assert(self@ =~= written(self@, address as int, data@));
            return Ok(());
        }
        let sector_size = self.sector_size;
        open_sector(&mut self.data[index], sector_size);
        store_run(&mut self.data[index], offset, &data);
        proof {
            let size = self.sector_size as int;
            let after = written(old(self)@, address as int, data@);
            lemma_locate(address as int, size, self.sector_num as int);
            assert forall|a: int| 0 <= a < self@.len() implies self@[a] == after[a] by {
                lemma_locate(a, size, self.sector_num as int);
                if address <= a < address + data@.len() {
                    lemma_fundamental_div_mod_converse(a, size, index as int, offset + a - address);
                }
            }
            assert(self@ =~= after);
        }
        Ok(())
    }

    /// The byte at `address`: the byte last written there, or the erase
    /// value if none was, or if the address lies beyond the address space.
    pub fn get_byte(&self, address: u32) -> (value: u8)
        requires
            self.wf(),
        ensures
            value == self.byte_at(address as int),
    {
        let index = self.get_sector_index(address);
        let offset = self.get_sector_offset(address);
        if index >= self.sector_num {
            return ERASE_VALUE;
        }
        if self.data[index].is_empty() {
            ERASE_VALUE
        } else {
            self.data[index][offset]
        }
    }

    /// The `size` bytes from `address` on. The run must begin inside the
    /// address space and end inside the sector in which it begins. A sector
    /// without a buffer reads as erased bytes.
    pub fn get_bytes(&self, address: u32, size: usize) -> (res: Result<Vec<u8>, HexError>)
        requires
            self.wf(),
        ensures
            match res {
                Ok(bytes) => self.span_check(address as int, size as int) is Ok && bytes@
                    == self@.subrange(address as int, address + size),
                Err(e) => self.span_check(address as int, size as int) == Err::<(), HexError>(e),
            },
    {
        let index = self.get_sector_index(address);
        let offset = self.get_sector_offset(address);
        if index >= self.sector_num {
            return Err(HexError::AddressOutOfRange);
        }
        if size > self.sector_size - offset {
            return Err(HexError::SpanCrossesSectorBoundary);
        }
        let bytes = if self.data[index].is_empty() {
            blank_run(size)
        } else {
            copy_run(self.data[index].as_slice(), offset, size)
        };
        proof {
            let sector = self.sector_size as int;
            let want = self@.subrange(address as int, address + size);
            lemma_locate(address as int, sector, self.sector_num as int);
            assert(address + size <= (index + 1) * sector) by (nonlinear_arith)
                requires
                    address == index * sector + offset,
                    offset + size <= sector,
            ;
            assert((index + 1) * sector <= self.sector_num * sector) by (nonlinear_arith)
                requires
                    index + 1 <= self.sector_num,
                    sector > 0,
            ;
            assert forall|k: int| 0 <= k < size implies bytes@[k] == want[k] by {
                lemma_locate(address + k, sector, self.sector_num as int);
                lemma_fundamental_div_mod_converse(address + k, sector, index as int, offset + k);
            }
            assert(bytes@ =~= want);
        }
        Ok(bytes)
    }

    /// Whether sector `sector` has its buffer.
    pub fn is_allocated(&self, sector: usize) -> (yes: bool)
        requires
            self.wf(),
        ensures
            yes == self.allocated(sector as int),
    {
        sector < self.sector_num && !self.data[sector].is_empty()
    }
}

/// Writes `data` into the buffer of a sector, from `offset` on.
fn store_run(sector: &mut Vec<u8>, offset: usize, data: &Vec<u8>)
    requires
        offset + data@.len() <= old(sector)@.len() <= usize::MAX,
    ensures
        final(sector)@ == written(old(sector)@, offset as int, data@),
{
    let mut i: usize = 0;
    while i < data.len()
        invariant
            i <= data@.len(),
            offset + data@.len() <= sector@.len() <= usize::MAX,
            sector@.len() == old(sector)@.len(),
            forall|k: int|
                0 <= k < sector@.len() ==> sector@[k] == if offset <= k < offset + i {
                    data@[k - offset]
                } else {
                    old(sector)@[k]
                },
        decreases data@.len() - i,
    {
        sector[offset + i] = data[i];
        i += 1;
    }
    assert(sector@ =~= written(old(sector)@, offset as int, data@));
}

/// A run of `size` erased bytes.
fn blank_run(size: usize) -> (bytes: Vec<u8>)
    ensures
        bytes@ == erased(size as nat),
{
    let mut bytes: Vec<u8> = Vec::with_capacity(size);
    let mut i: usize = 0;
    while i < size
        invariant
            i <= size,
            bytes@ == erased(i as nat),
        decreases size - i,
    {
        bytes.push(ERASE_VALUE);
        assert(bytes@ =~= erased((i + 1) as nat));
        i += 1;
    }
    bytes
}

/// Gives a sector its buffer of `sector_size` erased bytes, if it has none.
fn open_sector(sector: &mut Vec<u8>, sector_size: usize)
    requires
        sector_size > 0,
        old(sector)@.len() == 0 || old(sector)@.len() == sector_size,
    ensures
        final(sector)@.len() == sector_size,
        old(sector)@.len() == 0 ==> final(sector)@ == erased(sector_size as nat),
        old(sector)@.len() != 0 ==> final(sector)@ == old(sector)@,
{
    if sector.is_empty() {
        sector.resize(sector_size, ERASE_VALUE);
        assert(sector@ =~= erased(sector_size as nat));
    }
}

/// One write: the address of its first byte, and its bytes.
pub ghost struct Write {
    pub address: int,
    pub data: Seq<u8>,
}

impl Write {
    /// Whether the write reaches `address`.
    pub open spec fn covers(&self, address: int) -> bool {
        self.address <= address < self.address + self.data.len()
    }
}

/// The memory `mem` after the writes `writes`, made in their order.
pub open spec fn written_all(mem: Seq<u8>, writes: Seq<Write>) -> Seq<u8>
    decreases writes.len(),
{
    if writes.len() == 0 {
        mem
    } else {
        written(written_all(mem, writes.drop_last()), writes.last().address, writes.last().data)
    }
}

/// Of two writes that do not overlap, each is read back whole, whichever
/// came first.
pub proof fn lemma_disjoint_writes_read_back(mem: Seq<u8>, first: Write, second: Write)
    requires
        0 <= first.address,
        first.address + first.data.len() <= mem.len(),
        0 <= second.address,
        second.address + second.data.len() <= mem.len(),
        first.address + first.data.len() <= second.address || second.address + second.data.len()
            <= first.address,
    ensures
        written(
            written(mem, first.address, first.data),
            second.address,
            second.data,
        ).subrange(first.address, first.address + first.data.len()) == first.data,
        written(
            written(mem, first.address, first.data),
            second.address,
            second.data,
        ).subrange(second.address, second.address + second.data.len()) == second.data,
{
    let after = written(written(mem, first.address, first.data), second.address, second.data);
    assert(after.subrange(first.address, first.address + first.data.len()) =~= first.data);
    assert(after.subrange(second.address, second.address + second.data.len()) =~= second.data);
}

/// An address that no write reaches reads as the erase value, whatever was
/// written elsewhere.
pub proof fn lemma_unwritten_reads_erased(len: nat, writes: Seq<Write>, address: int)
    requires
        0 <= address < len,
        forall|i: int| 0 <= i < writes.len() ==> !(#[trigger] writes[i]).covers(address),
    ensures
        written_all(erased(len), writes).len() == len,
        written_all(erased(len), writes)[address] == ERASE_VALUE,
    decreases writes.len(),
{
    if writes.len() > 0 {
        lemma_unwritten_reads_erased(len, writes.drop_last(), address);
        assert(!writes[writes.len() - 1].covers(address));
    }
}

/// The last write to reach an address decides what is read there.
pub proof fn lemma_last_write_wins(mem: Seq<u8>, writes: Seq<Write>, last: int, address: int)
    requires
        0 <= address < mem.len(),
        0 <= last < writes.len(),
        writes[last].covers(address),
        forall|i: int| last < i < writes.len() ==> !(#[trigger] writes[i]).covers(address),
    ensures
        written_all(mem, writes).len() == mem.len(),
        written_all(mem, writes)[address] == writes[last].data[address - writes[last].address],
    decreases writes.len(),
{
    lemma_written_all_len(mem, writes.drop_last());
    if last < writes.len() - 1 {
        lemma_last_write_wins(mem, writes.drop_last(), last, address);
        assert(!writes[writes.len() - 1].covers(address));
    }
}

/// Writes leave the size of the memory as it is.
pub proof fn lemma_written_all_len(mem: Seq<u8>, writes: Seq<Write>)
    ensures
        written_all(mem, writes).len() == mem.len(),
    decreases writes.len(),
{
    if writes.len() > 0 {
        lemma_written_all_len(mem, writes.drop_last());
    }
}

} // verus!
