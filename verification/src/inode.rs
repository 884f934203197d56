use crate::block_cache::{splice, CachedDisk};
use crate::block_dev::{BlockDevice, BLOCK_SZ};
use crate::codec::{le_u32, lemma_u32_roundtrip, push_u32, read_u32, u32_bytes};
use vstd::prelude::*;

verus! {

/// The max number of direct block ids of an inode.
pub const INODE_DIRECT_COUNT: usize = 63;

/// The number of block ids held by an indirect block.
pub const INODE_INDIRECT_COUNT: usize = 128;

/// The number of indirect block ids of an inode.
pub const INODE_INDIRECT_SLOTS: usize = 64;

/// The largest number of data blocks an inode can map.
pub const INODE_MAX_DATA_BLOCKS: usize = 8255;

/// Number of blocks needed to hold `size` bytes.
pub open spec fn data_blocks_of(size: int) -> int {
    (size + 511) / 512
}

/// Number of blocks needed to hold `size` bytes together with the indirect blocks that map them.
pub open spec fn total_blocks_of(size: int) -> int {
    let d = data_blocks_of(size);
    if d > 63 {
        d + (d - 63 + 127) / 128
    } else {
        d
    }
}

/// A larger file needs at least as many data blocks, and at least as many blocks in all.
pub proof fn lemma_total_blocks_monotonic(a: int, b: int)
    requires
        0 <= a <= b,
    ensures
        data_blocks_of(a) <= data_blocks_of(b),
        total_blocks_of(a) <= total_blocks_of(b),
{
    vstd::arithmetic::div_mod::lemma_div_is_ordered(a + 511, b + 511, 512);
    let da = data_blocks_of(a);
    let db = data_blocks_of(b);
    if da > 63 {
        vstd::arithmetic::div_mod::lemma_div_is_ordered(da - 63 + 127, db - 63 + 127, 128);
    }
}

/// Number of indirect blocks that map the data blocks of a file of `d` data blocks.
pub open spec fn indirect_count(d: int) -> int {
    if d > 63 {
        (d - 63 + 127) / 128
    } else {
        0
    }
}

/// The on-disk form of an inode: its size, then its direct ids, then its indirect ids, each a
/// little-endian `u32`.
pub open spec fn inode_bytes(size: u32, direct: Seq<u32>, indirect: Seq<u32>) -> Seq<u8> {
    Seq::new(
        512,
        |i: int|
            if i < 4 {
                u32_bytes(size)[i]
            } else if i < 256 {
                u32_bytes(direct[(i - 4) / 4])[(i - 4) % 4]
            } else {
                u32_bytes(indirect[(i - 256) / 4])[(i - 256) % 4]
            },
    )
}

/// The `u32` entries of a block of ids.
pub open spec fn block_entry(block: Seq<u8>, j: int) -> int {
    le_u32(block, 4 * j)
}

/// An inode as stored on disk: the size of the file and the ids of its blocks.  Data block
/// `k` is `direct[k]` for `k < 63`; the others are listed, 128 per block, in the indirect
/// blocks `indirect[0]`, `indirect[1]`, ...
pub struct DiskInode {
    pub size: u32,
    pub direct: [u32; 63],
    pub indirect: [u32; 64],
}

/// The abstract form of an inode: the size of the file and the ids of its blocks.  Data block
/// `k` is `direct[k]` for `k < 63`; the others are listed, 128 per block, in the indirect
/// blocks `indirect[0]`, `indirect[1]`, ...
pub struct InodeView {
    pub size: u32,
    pub direct: Seq<u32>,
    pub indirect: Seq<u32>,
}

impl InodeView {
    /// The id of data block `k` on `disk`.
    pub open spec fn block_id(&self, disk: Seq<Seq<u8>>, k: int) -> int {
        if k < 63 {
            self.direct[k] as int
        } else {
            block_entry(disk[self.indirect[(k - 63) / 128] as int], (k - 63) % 128)
        }
    }

    /// Data block `k` can be located on `disk`, and lies on it.
    pub open spec fn block_mapped(&self, disk: Seq<Seq<u8>>, k: int) -> bool {
        &&& 0 <= k
        &&& k >= 63 ==> {
            &&& (k - 63) / 128 < 64
            &&& self.indirect[(k - 63) / 128] < disk.len()
        }
        &&& self.block_id(disk, k) < disk.len()
    }

    /// Data blocks `from` to `to` (excluded) can be located on `disk`, and lie on it.
    pub open spec fn blocks_mapped(&self, disk: Seq<Seq<u8>>, from: int, to: int) -> bool {
        forall|k: int| from <= k < to ==> #[trigger] self.block_mapped(disk, k)
    }

    /// The data blocks `from` to `to` (excluded) are distinct, and none of them is an indirect
    /// block that maps one of them: writing to one of them leaves the others, and where they
    /// lie, unchanged.
    pub open spec fn blocks_separate(&self, disk: Seq<Seq<u8>>, from: int, to: int) -> bool {
        &&& forall|k1: int, k2: int|
            from <= k1 < to && from <= k2 < to && k1 != k2 ==> #[trigger] self.block_id(disk, k1)
                != #[trigger] self.block_id(disk, k2)
        &&& forall|k1: int, k2: int|
            from <= k1 < to && from <= k2 < to && k2 >= 63 ==> #[trigger] self.block_id(disk, k1)
                != #[trigger] self.indirect[(k2 - 63) / 128]
    }

    /// Byte `p` of the file stored by the inode on `disk`.
    pub open spec fn content(&self, disk: Seq<Seq<u8>>, p: int) -> u8 {
        disk[self.block_id(disk, p / 512)][p % 512]
    }

}

/// An inode of an empty file.
pub open spec fn empty_inode() -> InodeView {
    InodeView { size: 0, direct: Seq::new(63, |i: int| 0u32), indirect: Seq::new(64, |i: int| 0u32) }
}

/// The inode stored in the first 512 bytes of `bytes`.
pub open spec fn decode_inode(bytes: Seq<u8>) -> InodeView {
    InodeView {
        size: le_u32(bytes, 0) as u32,
        direct: Seq::new(63, |i: int| le_u32(bytes, 4 + 4 * i) as u32),
        indirect: Seq::new(64, |i: int| le_u32(bytes, 256 + 4 * i) as u32),
    }
}

impl DiskInode {
    pub open spec fn view(&self) -> InodeView {
        InodeView { size: self.size, direct: self.direct@, indirect: self.indirect@ }
    }

    /// An empty inode.
    pub fn new() -> (r: Self)
        ensures
            r.size == 0,
            forall|i: int| 0 <= i < 63 ==> r.direct@[i] == 0,
            forall|i: int| 0 <= i < 64 ==> r.indirect@[i] == 0,
    {
        Self { size: 0, direct: [0u32; 63], indirect: [0u32; 64] }
    }

    /// The on-disk form of the inode.
    pub fn to_bytes(&self) -> (r: Vec<u8>)
        ensures
            r@ == inode_bytes(self.size, self.direct@, self.indirect@),
    {
        let ghost target = inode_bytes(self.size, self.direct@, self.indirect@);
        let mut v: Vec<u8> = Vec::new();
        push_u32(&mut v, self.size);
        assert(v@ =~= target.take(4));
        let mut i: usize = 0;
        while i < 63
            invariant
                i <= 63,
                target == inode_bytes(self.size, self.direct@, self.indirect@),
                v@ == target.take(4 + 4 * i),
            decreases 63 - i,
        {
            push_u32(&mut v, self.direct[i]);
            i += 1;
            assert forall|j: int| 4 + 4 * (i - 1) <= j < 4 + 4 * i implies v@[j] == target[j] by {
                assert((j - 4) / 4 == i - 1);
                assert((j - 4) % 4 == j - (4 + 4 * (i - 1)));
            }
            assert(v@ =~= target.take(4 + 4 * i));
        }
        let mut i: usize = 0;
        while i < 64
            invariant
                i <= 64,
                target == inode_bytes(self.size, self.direct@, self.indirect@),
                v@ == target.take(256 + 4 * i),
            decreases 64 - i,
        {
            push_u32(&mut v, self.indirect[i]);
            i += 1;
            assert forall|j: int| 256 + 4 * (i - 1) <= j < 256 + 4 * i implies v@[j] == target[j] by {
                assert((j - 256) / 4 == i - 1);
                assert((j - 256) % 4 == j - (256 + 4 * (i - 1)));
            }
            assert(v@ =~= target.take(256 + 4 * i));
        }
        assert(target.take(512) =~= target);
        v
    }

    /// The inode stored at the start of `bytes`.
    pub fn from_bytes(bytes: &[u8]) -> (r: Self)
        requires
            bytes@.len() >= 512,
        ensures
            r.size == le_u32(bytes@, 0),
            forall|i: int| 0 <= i < 63 ==> r.direct@[i] == le_u32(bytes@, 4 + 4 * i),
            forall|i: int| 0 <= i < 64 ==> r.indirect@[i] == le_u32(bytes@, 256 + 4 * i),
            r@ == decode_inode(bytes@),
    {
        let mut r = Self::new();
        r.size = read_u32(bytes, 0);
        let mut i: usize = 0;
        while i < 63
            invariant
                bytes@.len() >= 512,
                i <= 63,
                r.size == le_u32(bytes@, 0),
                forall|j: int| 0 <= j < i ==> r.direct@[j] == le_u32(bytes@, 4 + 4 * j),
            decreases 63 - i,
        {
            r.direct[i] = read_u32(bytes, 4 + 4 * i);
            i += 1;
        }
        let mut i: usize = 0;
        while i < 64
            invariant
                bytes@.len() >= 512,
                i <= 64,
                r.size == le_u32(bytes@, 0),
                forall|j: int| 0 <= j < 63 ==> r.direct@[j] == le_u32(bytes@, 4 + 4 * j),
                forall|j: int| 0 <= j < i ==> r.indirect@[j] == le_u32(bytes@, 256 + 4 * j),
            decreases 64 - i,
        {
            r.indirect[i] = read_u32(bytes, 256 + 4 * i);
            i += 1;
        }
        assert(r.direct@ =~= decode_inode(bytes@).direct);
        assert(r.indirect@ =~= decode_inode(bytes@).indirect);
        r
    }

    /// Number of data blocks of the file.
    pub fn data_blocks(&self) -> (r: u32)
        requires
            self.size + 512 <= u32::MAX,
        ensures
            r == data_blocks_of(self.size as int),
    {
        Self::_data_blocks(self.size)
    }

    fn _data_blocks(size: u32) -> (r: u32)
        requires
            size + 512 <= u32::MAX,
        ensures
            r == data_blocks_of(size as int),
    {
        (size + BLOCK_SZ as u32 - 1) / BLOCK_SZ as u32
    }

    /// Number of blocks needed for `size` bytes, indirect blocks included.
    pub fn total_blocks(size: u32) -> (r: u32)
        requires
            size + 512 <= u32::MAX,
        ensures
            r == total_blocks_of(size as int),
    {
        let data_blocks = Self::_data_blocks(size) as usize;
        let mut total = data_blocks as usize;
        if data_blocks > INODE_DIRECT_COUNT {
            total += (data_blocks - INODE_DIRECT_COUNT + INODE_INDIRECT_COUNT - 1) / INODE_INDIRECT_COUNT;
        }
        total as u32
    }

    /// Number of blocks to allocate to grow the file to `new_size` bytes.
    pub fn blocks_num_needed(&self, new_size: u32) -> (r: u32)
        requires
            new_size >= self.size,
            new_size + 512 <= u32::MAX,
        ensures
            r == total_blocks_of(new_size as int) - total_blocks_of(self.size as int),
    {
        proof {
            lemma_total_blocks_monotonic(self.size as int, new_size as int);
        }
        Self::total_blocks(new_size) - Self::total_blocks(self.size)
    }

    /// Copies the bytes of the file from `offset` on into `buf`, up to the end of the file, and
    /// returns how many were copied.
    pub fn read_at<D: BlockDevice>(&self, offset: usize, buf: &mut [u8], disk: &mut CachedDisk<D>) -> (r: usize)
        requires
            old(disk).inv(),
            offset + old(buf)@.len() <= usize::MAX,
            ({
                let end = vstd::math::min(offset + old(buf)@.len(), self.size as int);
                offset < end ==> self@.blocks_mapped(old(disk).view(), offset as int / 512, (end - 1) / 512 + 1)
            }),
        ensures
            final(disk).inv(),
            final(disk).view() == old(disk).view(),
            ({
                let end = vstd::math::min(offset + old(buf)@.len(), self.size as int);
                r == if offset < end { end - offset } else { 0 }
            }),
            final(buf)@.len() == old(buf)@.len(),
            forall|i: int| 0 <= i < r ==> #[trigger] final(buf)@[i] == self@.content(old(disk).view(), offset + i),
            forall|i: int| r <= i < old(buf)@.len() ==> #[trigger] final(buf)@[i] == old(buf)@[i],
    {
        let ghost d0 = disk.view();
        let mut start = offset;
        let end = if offset + buf.len() < self.size as usize { offset + buf.len() } else { self.size as usize };
        if start >= end {
            return 0;
        }
        proof {
            disk.lemma_inv();
        }
        let mut start_block = start / BLOCK_SZ;
        let mut read_size: usize = 0;
        loop
            invariant_except_break
                offset <= start < end,
                start == offset + read_size,
                start_block == start / 512,
            invariant
                disk.inv(),
                disk.view() == d0,
                old(disk).view() == d0,
                forall|i: int| 0 <= i < d0.len() ==> #[trigger] d0[i].len() == BLOCK_SZ,
                d0.len() <= usize::MAX,
                end == vstd::math::min(offset + old(buf)@.len(), self.size as int),
                self@.blocks_mapped(d0, offset as int / 512, (end - 1) / 512 + 1),
                buf@.len() == old(buf)@.len(),
                forall|i: int| 0 <= i < read_size ==> #[trigger] buf@[i] == self@.content(d0, offset + i),
                forall|i: int| read_size <= i < buf@.len() ==> #[trigger] buf@[i] == old(buf)@[i],
            ensures
                read_size == end - offset,
            decreases end - start,
        {
            proof {
                lemma_block_end(start as int);
                vstd::arithmetic::div_mod::lemma_div_is_ordered(offset as int, start as int, 512);
                vstd::arithmetic::div_mod::lemma_div_is_ordered(start as int, end - 1, 512);
                assert(self@.block_mapped(d0, start_block as int));
            }
            let mut end_current_block = (start / BLOCK_SZ + 1) * BLOCK_SZ;
            if end < end_current_block {
                end_current_block = end;
            }
            let block_read_size = end_current_block - start;
            let id = self.get_block_id(start_block as u32, disk);
            let data = disk.read_block(id as usize);
            let in_block = start % BLOCK_SZ;
            let mut t: usize = 0;
            while t < block_read_size
                invariant
                    data@ == d0[id as int],
                    data@.len() == BLOCK_SZ,
                    in_block == start % 512,
                    in_block + block_read_size <= 512,
                    start == offset + read_size,
                    start_block == start / 512,
                    id == self@.block_id(d0, start_block as int),
                    read_size + block_read_size <= buf@.len(),
                    buf@.len() == old(buf)@.len(),
                    t <= block_read_size,
                    forall|i: int| 0 <= i < read_size + t ==> #[trigger] buf@[i] == self@.content(d0, offset + i),
                    forall|i: int| read_size + t <= i < buf@.len() ==> #[trigger] buf@[i] == old(buf)@[i],
                decreases block_read_size - t,
            {
                proof {
                    lemma_same_block(start as int, t as int);
                }
                buf[read_size + t] = data[in_block + t];
                t += 1;
            }
            read_size += block_read_size;
            if end_current_block == end {
                break;
            }
            start_block += 1;
            start = end_current_block;
        }
        read_size
    }

    /// Copies `buf` into the file from `offset` on, up to the end of the file (the size must have
    /// been adjusted beforehand), and returns how many bytes were written.
    pub fn write_at<D: BlockDevice>(&mut self, offset: usize, buf: &[u8], disk: &mut CachedDisk<D>) -> (r: usize)
        requires
            old(disk).inv(),
            offset + buf@.len() <= usize::MAX,
            offset <= old(self).size,
            old(self).size + 512 <= u32::MAX,
            ({
                let end = vstd::math::min(offset + buf@.len(), old(self).size as int);
                let last = if offset < end { (end - 1) / 512 } else { offset as int / 512 };
                &&& old(self)@.blocks_mapped(old(disk).view(), offset as int / 512, last + 1)
                &&& old(self)@.blocks_separate(old(disk).view(), offset as int / 512, last + 1)
            }),
        ensures
            *final(self) == *old(self),
            final(disk).inv(),
            final(disk).view().len() == old(disk).view().len(),
            r == vstd::math::min(offset + buf@.len(), old(self).size as int) - offset,
            ({
                let d0 = old(disk).view();
                let d1 = final(disk).view();
                let end = offset + r;
                let lo = offset as int / 512;
                let hi = if offset < end { (end - 1) / 512 + 1 } else { lo + 1 };
                &&& forall|p: int| offset <= p < end ==> #[trigger] d1[old(self)@.block_id(d0, p / 512)][p % 512] == buf@[p - offset]
                &&& forall|b: int| 0 <= b < d0.len() && (forall|k: int| lo <= k < hi ==> #[trigger] old(self)@.block_id(d0, k) != b) ==> #[trigger] d1[b] == d0[b]
                &&& forall|k: int, o: int| lo <= k < hi && 0 <= o < 512 && !(offset <= k * 512 + o < end)
                    ==> #[trigger] d1[old(self)@.block_id(d0, k)][o] == d0[old(self)@.block_id(d0, k)][o]
            }),
    {
        let ghost d0 = disk.view();
        let ghost lo = offset as int / 512;
        let mut start = offset;
        let end = if offset + buf.len() < self.size as usize { offset + buf.len() } else { self.size as usize };
        assert(start <= end);
        let ghost hi = if offset < end { (end - 1) / 512 + 1 } else { lo + 1 };
        proof {
            disk.lemma_inv();
        }
        let mut start_block = start / BLOCK_SZ;
        let mut write_size: usize = 0;
        let ghost mut written_blocks: int = 0;
        loop
            invariant_except_break
                written_blocks == start_block - lo,
                start == offset || start % 512 == 0,
                offset <= start <= end,
                start == offset + write_size,
                start_block == start / 512,
                start < end || start == offset,
                lo <= start_block < hi,
            invariant
                disk.inv(),
                *self == *old(self),
                old(disk).view() == d0,
                forall|i: int| 0 <= i < d0.len() ==> #[trigger] d0[i].len() == BLOCK_SZ,
                d0.len() <= usize::MAX,
                disk.view().len() == d0.len(),
                forall|i: int| 0 <= i < d0.len() ==> #[trigger] disk.view()[i].len() == BLOCK_SZ,
                end == vstd::math::min(offset + buf@.len(), self.size as int),
                self.size + 512 <= u32::MAX,
                end <= self.size,
                lo == offset as int / 512,
                hi == if offset < end { (end - 1) / 512 + 1 } else { lo + 1 },
                self@.blocks_mapped(d0, lo, hi),
                self@.blocks_separate(d0, lo, hi),
                forall|p: int| offset <= p < offset + write_size ==> #[trigger] disk.view()[self@.block_id(d0, p / 512)][p % 512] == buf@[p - offset],
                forall|b: int| 0 <= b < d0.len() && (forall|k: int| lo <= k < lo + written_blocks ==> #[trigger] self@.block_id(d0, k) != b) ==> #[trigger] disk.view()[b] == d0[b],
                forall|k: int, o: int| lo <= k < hi && 0 <= o < 512 && !(offset <= k * 512 + o < offset + write_size)
                        ==> #[trigger] disk.view()[self@.block_id(d0, k)][o] == d0[self@.block_id(d0, k)][o],
            ensures
                write_size == end - offset,
                lo + written_blocks == hi,
            decreases end - start,
        {
            proof {
                lemma_block_end(start as int);
            }
            let mut end_current_block = (start / BLOCK_SZ + 1) * BLOCK_SZ;
            if end < end_current_block {
                end_current_block = end;
            }
            let block_write_size = end_current_block - start;
            let ghost dcur = disk.view();
            proof {
                assert(self@.block_mapped(d0, start_block as int));
                if start_block >= 63 {
                    // the indirect block that maps this block has not been written to
                    let ib = self.indirect@[(start_block - 63) / 128] as int;
                    assert forall|k: int| lo <= k < lo + written_blocks implies #[trigger] self@.block_id(d0, k) != ib by {
                        assert(self@.block_id(d0, k) != self.indirect@[(start_block - 63) / 128]);
                    }
                    assert(dcur[ib] == d0[ib]);
                }
            }
            let id = self.get_block_id(start_block as u32, disk);
            assert(id == self@.block_id(d0, start_block as int));
            let src = slice_range(buf, write_size, write_size + block_write_size);
            let in_block = start % BLOCK_SZ;
            disk.modify_block(id as usize, in_block, src);
            proof {
                let d1 = disk.view();
                let bid = id as int;
                let sb = start_block as int;
                let ws = write_size as int;
                let bws = block_write_size as int;
                vstd::arithmetic::div_mod::lemma_fundamental_div_mod(start as int, 512);
                assert(start == sb * 512 + in_block);
                assert(d1 == dcur.update(bid, splice(dcur[bid], in_block as int, src@)));
                assert(0 <= bid < d0.len());
                assert(dcur[bid].len() == 512);
                assert(src@.len() == bws);
                assert(in_block + bws <= 512);
                assert forall|p: int| offset <= p < offset + ws + bws implies #[trigger] d1[self@.block_id(d0, p / 512)][p % 512] == buf@[p - offset] by {
                    if p < start {
                        assert(start % 512 == 0);
                        vstd::arithmetic::div_mod::lemma_div_is_ordered(p, start - 1, 512);
                        vstd::arithmetic::div_mod::lemma_div_is_ordered(offset as int, p, 512);
                        vstd::arithmetic::div_mod::lemma_fundamental_div_mod_converse(start - 1, 512, sb - 1, 511);
                        assert(lo <= p / 512 < sb);
                        assert(self@.block_id(d0, p / 512) != bid);
                        assert(self@.block_mapped(d0, p / 512));
                        assert(d1[self@.block_id(d0, p / 512)] == dcur[self@.block_id(d0, p / 512)]);
                        assert(dcur[self@.block_id(d0, p / 512)][p % 512] == buf@[p - offset]);
                    } else {
                        lemma_same_block(start as int, p - start);
                        assert(p / 512 == sb);
                        assert(self@.block_id(d0, p / 512) == bid);
                        assert(d1[bid] == splice(dcur[bid], in_block as int, src@));
                        assert(p % 512 == in_block + (p - start));
                        assert(splice(dcur[bid], in_block as int, src@)[in_block + (p - start)] == src@[p - start]);
                        assert(src@[p - start] == buf@[ws + (p - start)]);
                    }
                }
                assert forall|b: int| 0 <= b < d0.len() && (forall|k: int| lo <= k < lo + written_blocks + 1 ==> #[trigger] self@.block_id(d0, k) != b) implies #[trigger] d1[b] == d0[b] by {
                    assert(lo + written_blocks == sb);
                    assert(self@.block_id(d0, sb) != b);
                    assert(forall|k: int| lo <= k < lo + written_blocks ==> #[trigger] self@.block_id(d0, k) != b);
                    assert(dcur[b] == d0[b]);
                }
                assert forall|k: int, o: int| lo <= k < hi && 0 <= o < 512 && !(offset <= k * 512 + o < offset + ws + bws)
                    implies #[trigger] d1[self@.block_id(d0, k)][o] == d0[self@.block_id(d0, k)][o] by {
                    assert(self@.block_mapped(d0, k));
                    assert(dcur[self@.block_id(d0, k)][o] == d0[self@.block_id(d0, k)][o]);
                    if self@.block_id(d0, k) == bid {
                        assert(k == sb);
                        assert(!(in_block <= o < in_block + bws));
                        assert(d1[bid] == splice(dcur[bid], in_block as int, src@));
                        assert(splice(dcur[bid], in_block as int, src@)[o] == dcur[bid][o]);
                    } else {
                        assert(d1[self@.block_id(d0, k)] == dcur[self@.block_id(d0, k)]);
                    }
                }
                assert(d1.len() == d0.len());
                assert forall|i: int| 0 <= i < d0.len() implies #[trigger] d1[i].len() == BLOCK_SZ by {
                    assert(dcur[i].len() == BLOCK_SZ);
                }
            }
            write_size += block_write_size;
            proof {
                written_blocks = written_blocks + 1;
            }
            if end_current_block == end {
                proof {
                    if offset < end {
                        lemma_same_block(start as int, end - 1 - start);
                    }
                }
                break;
            }
            proof {
                lemma_block_end(start as int);
            }
            start_block += 1;
            start = end_current_block;
        }
        write_size
    }

    /// Grows the file to `new_size` bytes, mapping its new data blocks, and the indirect blocks
    /// it needs, to the blocks of `new_blocks` in order.
    pub fn increase_size<D: BlockDevice>(&mut self, new_size: u32, new_blocks: Vec<u32>, disk: &mut CachedDisk<D>)
        requires
            old(disk).inv(),
            old(self).size <= new_size,
            new_size + 512 <= u32::MAX,
            ({
                let g = Growth { c0: data_blocks_of(old(self).size as int), t: data_blocks_of(new_size as int) };
                &&& new_blocks@.len() >= g.consumed()
                &&& g.t > 63 ==> g.i1() < 64
                &&& g.t > 63 ==> forall|i: int| g.i0() <= i <= g.i1() ==> if g.js(i) == 0 {
                    new_blocks@[g.base(i)] < old(disk).view().len()
                } else {
                    old(self).indirect@[i] < old(disk).view().len()
                }
            }),
        ensures
            final(disk).inv(),
            final(disk).view().len() == old(disk).view().len(),
            ({
                let g = Growth { c0: data_blocks_of(old(self).size as int), t: data_blocks_of(new_size as int) };
                let d0 = old(disk).view();
                let d1 = final(disk).view();
                &&& final(self).size == new_size
                &&& final(self).direct@ == Seq::new(63, |i: int| if g.c0 <= i < g.cur() {
                    new_blocks@[i - g.c0]
                } else {
                    old(self).direct@[i]
                })
                &&& final(self).indirect@ == Seq::new(64, |i: int| if g.takes_ptr(i) {
                    new_blocks@[g.base(i)]
                } else {
                    old(self).indirect@[i]
                })
                &&& forall|b: int| 0 <= b < d0.len() && (g.t <= 63 || forall|i: int| g.i0() <= i <= g.i1() ==> #[trigger] final(self).indirect@[i] != b) ==> #[trigger] d1[b] == d0[b]
                &&& (g.t > 63 && forall|i1: int, i2: int| 0 <= i1 < i2 <= g.i1() ==> #[trigger] final(self).indirect@[i1] != #[trigger] final(self).indirect@[i2])
                    ==> forall|i: int| g.i0() <= i <= g.i1() ==> #[trigger] d1[final(self).indirect@[i] as int] == splice(
                        d0[final(self).indirect@[i] as int],
                        4 * g.js(i),
                        entries_bytes(new_blocks@, g.entry_pos(i, g.js(i)), g.je(i) - g.js(i)),
                    )
            }),
    {
        let ghost d0 = disk.view();
        let ghost g = Growth { c0: data_blocks_of(self.size as int), t: data_blocks_of(new_size as int) };
        let ghost new_ind = Seq::new(64, |x: int| if g.takes_ptr(x) {
            new_blocks@[g.base(x)]
        } else {
            old(self).indirect@[x]
        });
        proof {
            lemma_total_blocks_monotonic(self.size as int, new_size as int);
            disk.lemma_inv();
            if g.t > 63 {
                vstd::arithmetic::div_mod::lemma_div_is_ordered(g.cur() - 63, g.t - 63, 128);
                vstd::arithmetic::div_mod::lemma_fundamental_div_mod(g.cur() - 63, 128);
                vstd::arithmetic::div_mod::lemma_fundamental_div_mod(g.t - 63, 128);
                assert(g.items(g.i0()) >= 0);
                assert(g.consumed() >= g.d0());
            }
        }
        let mut current_blocks = self.data_blocks();
        self.size = new_size;
        let total_blocks = self.data_blocks();
        let mut next: usize = 0;
        let nb_len = new_blocks.len();
        let direct_end = if total_blocks < INODE_DIRECT_COUNT as u32 { total_blocks } else { INODE_DIRECT_COUNT as u32 };
        let mut i = current_blocks;
        while i < direct_end
            invariant
                current_blocks == i,
                g.c0 <= i <= g.cur(),
                i < direct_end ==> g.cur() == direct_end,
                direct_end == vstd::math::min(g.t, 63),
                total_blocks == g.t,
                next == i - g.c0,
                disk.inv(),
                disk.view() == d0,
                nb_len == new_blocks@.len(),
                new_blocks@.len() >= g.consumed(),
                g.consumed() >= g.d0(),
                self.size == new_size,
                self.indirect@ == old(self).indirect@,
                forall|k: int| 0 <= k < 63 ==> #[trigger] self.direct@[k] == if g.c0 <= k < i {
                    new_blocks@[k - g.c0]
                } else {
                    old(self).direct@[k]
                },
            decreases direct_end - i,
        {
            self.direct[i as usize] = new_blocks[next];
            next += 1;
            current_blocks += 1;
            i += 1;
        }
        assert(current_blocks == g.cur());
        let ghost new_dir = Seq::new(63, |k: int| if g.c0 <= k < g.cur() {
            new_blocks@[k - g.c0]
        } else {
            old(self).direct@[k]
        });
        assert(self.direct@ =~= new_dir);
        let ghost d_mid = disk.view();
        if total_blocks > INODE_DIRECT_COUNT as u32 {
            let i0 = (current_blocks as usize - INODE_DIRECT_COUNT) / INODE_INDIRECT_COUNT;
            // the last indirect block that maps a data block, and where its entries end
            let i1 = (total_blocks as usize - INODE_DIRECT_COUNT - 1) / INODE_INDIRECT_COUNT;
            let j0 = (current_blocks as usize - INODE_DIRECT_COUNT) % INODE_INDIRECT_COUNT;
            let j1 = (total_blocks as usize - INODE_DIRECT_COUNT - 1) % INODE_INDIRECT_COUNT + 1;
            let mut i = i0;
            while i <= i1
                invariant
                    disk.inv(),
                    disk.view().len() == d0.len(),
                    forall|x: int| 0 <= x < d0.len() ==> #[trigger] d0[x].len() == BLOCK_SZ,
                    old(disk).view() == d0,
                    g.t > 63,
                    i0 == g.i0(),
                    i1 == g.i1(),
                    j0 == g.j0(),
                    j1 == g.j1(),
                    i1 < 64,
                    g.cur() <= g.t,
                    g.cur() >= 63,
                    i0 <= i <= i1 + 1,
                    next == if i <= i1 { g.base(i as int) } else { g.consumed() },
                    nb_len == new_blocks@.len(),
                    new_blocks@.len() >= g.consumed(),
                    forall|x: int| g.i0() <= x <= g.i1() ==> if g.js(x) == 0 {
                        new_blocks@[g.base(x)] < d0.len()
                    } else {
                        old(self).indirect@[x] < d0.len()
                    },
                    self.size == new_size,
                    self.direct@ == new_dir,
                    new_ind == Seq::new(64, |x: int| if g.takes_ptr(x) {
                        new_blocks@[g.base(x)]
                    } else {
                        old(self).indirect@[x]
                    }),
                    forall|x: int| 0 <= x < 64 ==> #[trigger] self.indirect@[x] == if x < i { new_ind[x] } else { old(self).indirect@[x] },
                    forall|b: int| 0 <= b < d0.len() && (forall|x: int| i0 <= x < i ==> #[trigger] new_ind[x] != b) ==> #[trigger] disk.view()[b] == d0[b],
                    (forall|x1: int, x2: int| 0 <= x1 < x2 <= g.i1() ==> #[trigger] new_ind[x1] != #[trigger] new_ind[x2])
                        ==> forall|x: int| i0 <= x < i ==> #[trigger] disk.view()[new_ind[x] as int] == splice(
                            d0[new_ind[x] as int],
                            4 * g.js(x),
                            entries_bytes(new_blocks@, g.entry_pos(x, g.js(x)), g.je(x) - g.js(x)),
                        ),
                decreases i1 + 1 - i,
            {
                let js = if i == i0 { j0 } else { 0 };
                let je = if i == i1 { j1 } else { INODE_INDIRECT_COUNT };
                proof {
                    vstd::arithmetic::div_mod::lemma_fundamental_div_mod(g.cur() - 63, 128);
                    vstd::arithmetic::div_mod::lemma_fundamental_div_mod(g.t - 63, 128);
                    assert(js <= je);
                    assert(js == g.js(i as int) && je == g.je(i as int));
                }
                if js == 0 {
                    self.indirect[i] = new_blocks[next];
                    next += 1;
                }
                let mut bytes: Vec<u8> = Vec::new();
                let mut j = js;
                while j < je
                    invariant
                        js <= j <= je <= 128,
                        js == g.js(i as int),
                        je == g.je(i as int),
                        next == g.entry_pos(i as int, j as int),
                        nb_len == new_blocks@.len(),
                        g.entry_pos(i as int, je as int) <= new_blocks@.len(),
                        bytes@ == entries_bytes(new_blocks@, g.entry_pos(i as int, js as int), j - js),
                    decreases je - j,
                {
                    proof {
                        lemma_entries_push(new_blocks@, g.entry_pos(i as int, js as int), j - js);
                    }
                    push_u32(&mut bytes, new_blocks[next]);
                    next += 1;
                    j += 1;
                }
                let ghost dcur = disk.view();
                let p = self.indirect[i];
                disk.modify_block(p as usize, 4 * js, bytes.as_slice());
                proof {
                    assert(p == new_ind[i as int]);
                    let d1 = disk.view();
                    assert forall|b: int| 0 <= b < d0.len() && (forall|x: int| i0 <= x < i + 1 ==> #[trigger] new_ind[x] != b) implies #[trigger] d1[b] == d0[b] by {
                        assert(new_ind[i as int] != b);
                        assert(forall|x: int| i0 <= x < i ==> #[trigger] new_ind[x] != b);
                        assert(dcur[b] == d0[b]);
                    }
                    if forall|x1: int, x2: int| 0 <= x1 < x2 <= g.i1() ==> #[trigger] new_ind[x1] != #[trigger] new_ind[x2] {
                        assert forall|x: int| i0 <= x < i + 1 implies #[trigger] d1[new_ind[x] as int] == splice(
                            d0[new_ind[x] as int],
                            4 * g.js(x),
                            entries_bytes(new_blocks@, g.entry_pos(x, g.js(x)), g.je(x) - g.js(x)),
                        ) by {
                            if x < i {
                                assert(new_ind[x] != new_ind[i as int]);
                                assert(dcur[new_ind[x] as int] == d1[new_ind[x] as int]);
                            } else {
                                assert forall|y: int| i0 <= y < i implies #[trigger] new_ind[y] != p by {
                                    assert(new_ind[y] != new_ind[i as int]);
                                }
                                assert(dcur[p as int] == d0[p as int]);
                            }
                        }
                    }
                }
                i += 1;
            }
        }
        proof {
            assert(self.indirect@ =~= new_ind);
        }
    }

    /// Sets the size to zero and returns the blocks to release: the data blocks and the indirect
    /// blocks of the file.
    pub fn clear_size<D: BlockDevice>(&mut self, disk: &mut CachedDisk<D>) -> (r: Vec<u32>)
        requires
            old(disk).inv(),
            old(self).size + 512 <= u32::MAX,
            ({
                let d = data_blocks_of(old(self).size as int);
                d > 63 ==> {
                    &&& (d - 63) / 128 < 64
                    &&& forall|i: int| 0 <= i < indirect_count(d) ==> #[trigger] old(self).indirect@[i] < old(disk).view().len()
                }
            }),
        ensures
            final(disk).inv(),
            final(disk).view() == old(disk).view(),
            r@.len() == total_blocks_of(old(self).size as int),
            ({
                let d = data_blocks_of(old(self).size as int);
                &&& r@ == cleared_blocks(old(disk).view(), old(self).direct@, old(self).indirect@, d)
                &&& final(self).size == 0
                &&& final(self).direct@ == Seq::new(63, |k: int| if k < d { 0u32 } else { old(self).direct@[k] })
                &&& final(self).indirect@ == Seq::new(64, |i: int| if d > 63 && i <= (d - 63) / 128 {
                    0u32
                } else {
                    old(self).indirect@[i]
                })
            }),
    {
        let ghost d0 = disk.view();
        let ghost dd = data_blocks_of(self.size as int);
        let mut v: Vec<u32> = Vec::new();
        let data_blocks = self.data_blocks() as usize;
        self.size = 0;
        let mut current_blocks: usize = 0;
        let direct_end = if data_blocks < INODE_DIRECT_COUNT { data_blocks } else { INODE_DIRECT_COUNT };
        while current_blocks < direct_end
            invariant
                direct_end == vstd::math::min(dd, 63),
                data_blocks == dd,
                current_blocks <= direct_end,
                v@ == old(self).direct@.take(current_blocks as int),
                self.size == 0,
                self.indirect@ == old(self).indirect@,
                forall|k: int| 0 <= k < 63 ==> #[trigger] self.direct@[k] == if k < current_blocks { 0u32 } else { old(self).direct@[k] },
            decreases direct_end - current_blocks,
        {
            v.push(self.direct[current_blocks]);
            self.direct[current_blocks] = 0;
            current_blocks += 1;
            assert(v@ =~= old(self).direct@.take(current_blocks as int));
        }
        let ghost new_dir = Seq::new(63, |k: int| if k < dd { 0u32 } else { old(self).direct@[k] });
        assert(self.direct@ =~= new_dir);
        if data_blocks > INODE_DIRECT_COUNT {
            let i1 = (data_blocks - INODE_DIRECT_COUNT) / INODE_INDIRECT_COUNT;
            let j1 = (data_blocks - INODE_DIRECT_COUNT) % INODE_INDIRECT_COUNT;
            let used = if j1 == 0 { i1 } else { i1 + 1 };
            proof {
                lemma_indirect_count_exact(dd);
            }
            let mut i: usize = 0;
            while i <= i1
                invariant
                    disk.inv(),
                    disk.view() == d0,
                    old(disk).view() == d0,
                    dd > 63,
                    data_blocks == dd,
                    i1 == (dd - 63) / 128,
                    j1 == (dd - 63) % 128,
                    used == indirect_count(dd),
                    used <= i1 + 1,
                    i1 < 64,
                    i <= i1 + 1,
                    forall|x: int| 0 <= x < used ==> #[trigger] old(self).indirect@[x] < d0.len(),
                    v@ == old(self).direct@.take(63) + indirect_list(d0, old(self).indirect@, dd, vstd::math::min(i as int, used as int)),
                    self.size == 0,
                    self.direct@ == new_dir,
                    forall|x: int| 0 <= x < 64 ==> #[trigger] self.indirect@[x] == if x < i { 0u32 } else { old(self).indirect@[x] },
                decreases i1 + 1 - i,
            {
              if i < used {
                let je = if i == i1 { j1 } else { INODE_INDIRECT_COUNT };
                let ib = self.indirect[i];
                v.push(ib);
                proof {
                    disk.lemma_inv();
                }
                let block = disk.read_block(ib as usize);
                let mut j: usize = 0;
                while j < je
                    invariant
                        j <= je <= 128,
                        block@ == d0[ib as int],
                        block@.len() == BLOCK_SZ,
                        v@ == old(self).direct@.take(63) + indirect_list(d0, old(self).indirect@, dd, i as int) + seq![ib] + block_entries(d0[ib as int], j as int),
                    decreases je - j,
                {
                    v.push(read_u32(block.as_slice(), 4 * j));
                    j += 1;
                    assert(block_entries(d0[ib as int], j as int) =~= block_entries(d0[ib as int], j - 1).push(block_entry(d0[ib as int], j - 1) as u32));
                }
                assert(v@ =~= old(self).direct@.take(63) + indirect_list(d0, old(self).indirect@, dd, i + 1));
              }
                self.indirect[i] = 0;
                i += 1;
            }
        }
        proof {
            lemma_cleared_len(d0, old(self).direct@, old(self).indirect@, old(self).size as int);
            if dd <= 63 {
                assert(indirect_count(dd) == 0);
                assert(v@ =~= cleared_blocks(d0, old(self).direct@, old(self).indirect@, dd));
            }
        }
        assert(self.indirect@ =~= Seq::new(64, |x: int| if dd > 63 && x <= (dd - 63) / 128 {
            0u32
        } else {
            old(self).indirect@[x]
        }));
        v
    }

    /// The id of data block `inner_id`.
    pub fn get_block_id<D: BlockDevice>(&self, inner_id: u32, disk: &mut CachedDisk<D>) -> (r: u32)
        requires
            old(disk).inv(),
            inner_id >= 63 ==> {
                &&& (inner_id - 63) / 128 < 64
                &&& self.indirect@[(inner_id - 63) / 128] < old(disk).view().len()
            },
        ensures
            final(disk).inv(),
            final(disk).view() == old(disk).view(),
            r == self@.block_id(old(disk).view(), inner_id as int),
    {
        let inner_id = inner_id as usize;
        if inner_id < INODE_DIRECT_COUNT {
            self.direct[inner_id]
        } else {
            let indirect_id = inner_id - INODE_DIRECT_COUNT;
            let i = indirect_id / INODE_INDIRECT_COUNT;
            let j = indirect_id % INODE_INDIRECT_COUNT;
            proof {
                disk.lemma_inv();
            }
            let block = disk.read_block(self.indirect[i] as usize);
            read_u32(block.as_slice(), 4 * j)
        }
    }
}

/// How an inode grows from `c0` to `t` data blocks: the direct ids are filled first, then the
/// entries of the indirect blocks, each indirect block being taken from the new blocks just
/// before its first entry.
pub struct Growth {
    /// Data blocks held before.
    pub c0: int,
    /// Data blocks held after.
    pub t: int,
}

impl Growth {
    /// Data blocks mapped once the direct ids are filled.
    pub open spec fn cur(self) -> int {
        if self.c0 < vstd::math::min(self.t, 63) {
            vstd::math::min(self.t, 63)
        } else {
            self.c0
        }
    }

    /// Number of new blocks taken by the direct ids.
    pub open spec fn d0(self) -> int {
        self.cur() - self.c0
    }

    pub open spec fn i0(self) -> int {
        (self.cur() - 63) / 128
    }

    pub open spec fn j0(self) -> int {
        (self.cur() - 63) % 128
    }

    /// The last indirect block that maps a data block of the grown file.
    pub open spec fn i1(self) -> int {
        (self.t - 64) / 128
    }

    /// Entry of the last indirect block before which its data blocks end, from 1 to 128.
    pub open spec fn j1(self) -> int {
        (self.t - 64) % 128 + 1
    }

    /// First entry of indirect block `i` that is filled.
    pub open spec fn js(self, i: int) -> int {
        if i == self.i0() {
            self.j0()
        } else {
            0
        }
    }

    /// Entry of indirect block `i` before which filling stops.
    pub open spec fn je(self, i: int) -> int {
        if i == self.i1() {
            self.j1()
        } else {
            128
        }
    }

    /// Whether indirect block `i` is taken from the new blocks.
    pub open spec fn takes_ptr(self, i: int) -> bool {
        self.t > 63 && self.i0() <= i <= self.i1() && self.js(i) == 0
    }

    /// Number of new blocks used for indirect block `i`.
    pub open spec fn items(self, i: int) -> int {
        (if self.js(i) == 0 { 1int } else { 0int }) + self.je(i) - self.js(i)
    }

    /// Position in the new blocks of the first one used for indirect block `i`.
    pub open spec fn base(self, i: int) -> int {
        if i == self.i0() {
            self.d0()
        } else {
            self.d0() + self.items(self.i0()) + (i - self.i0() - 1) * 129
        }
    }

    /// Position in the new blocks of entry `j` of indirect block `i`.
    pub open spec fn entry_pos(self, i: int, j: int) -> int {
        self.base(i) + (if self.js(i) == 0 { 1int } else { 0int }) + (j - self.js(i))
    }

    /// Number of new blocks used in all.
    pub open spec fn consumed(self) -> int {
        if self.t > 63 {
            self.base(self.i1()) + self.items(self.i1())
        } else {
            self.d0()
        }
    }
}

impl Growth {
    /// A growth that the file system can carry out: the file does not shrink, and fits in the
    /// indirect blocks of an inode.
    pub open spec fn wf(self) -> bool {
        &&& 0 <= self.c0 <= self.t
        &&& self.t > 63 ==> (self.t - 64) / 128 < 64
    }

    /// Position in the new blocks of the id of data block `k`, for `c0 <= k < t`.
    pub open spec fn pos(self, k: int) -> int {
        if k < 63 {
            k - self.c0
        } else {
            self.entry_pos((k - 63) / 128, (k - 63) % 128)
        }
    }

    /// Where the data block `k` of the grown file lies among the new blocks.
    pub proof fn lemma_pos(self, k: int)
        requires
            self.wf(),
            self.c0 <= k < self.t,
        ensures
            k < 63 ==> k < self.cur() && self.pos(k) == k - self.c0,
            k >= 63 ==> {
                let i = (k - 63) / 128;
                let j = (k - 63) % 128;
                &&& k >= self.cur()
                &&& self.i0() <= i <= self.i1()
                &&& self.js(i) <= j < self.je(i)
                &&& self.pos(k) == self.d0() + (k - self.cur()) + (if self.j0() == 0 { 1int } else { 0int }) + (i - self.i0())
            },
    {
        if k >= 63 {
            let i = (k - 63) / 128;
            let j = (k - 63) % 128;
            vstd::arithmetic::div_mod::lemma_fundamental_div_mod(k - 63, 128);
            vstd::arithmetic::div_mod::lemma_fundamental_div_mod(self.cur() - 63, 128);
            vstd::arithmetic::div_mod::lemma_fundamental_div_mod(self.t - 63, 128);
            vstd::arithmetic::div_mod::lemma_div_is_ordered(self.cur() - 63, k - 63, 128);
            vstd::arithmetic::div_mod::lemma_div_is_ordered(k - 63, self.t - 63, 128);
        }
    }

    /// Where the new indirect block `i` lies among the new blocks.
    pub proof fn lemma_base(self, i: int)
        requires
            self.wf(),
            self.takes_ptr(i),
        ensures
            63 + 128 * i >= self.cur(),
            63 + 128 * i < self.t,
            self.base(i) == self.d0() + (63 + 128 * i - self.cur()) + (if self.j0() == 0 { 1int } else { 0int }) + (i - self.i0()) - 1,
    {
        vstd::arithmetic::div_mod::lemma_fundamental_div_mod(self.cur() - 63, 128);
        vstd::arithmetic::div_mod::lemma_fundamental_div_mod(self.t - 63, 128);
    }

    /// The new blocks are used each for one purpose, the data block ids in order, and exactly
    /// as many are used as the file system allocates.
    pub proof fn lemma_positions(self)
        requires
            self.wf(),
        ensures
            self.consumed() == (self.t + indirect_count(self.t)) - (self.c0 + indirect_count(self.c0)),
            self.consumed() >= 0,
            forall|k: int| self.c0 <= k < self.t ==> 0 <= #[trigger] self.pos(k) < self.consumed(),
            forall|k1: int, k2: int| self.c0 <= k1 < k2 < self.t ==> #[trigger] self.pos(k1) < #[trigger] self.pos(k2),
            forall|i: int| #[trigger] self.takes_ptr(i) ==> 0 <= self.base(i) < self.consumed()
                && indirect_count(self.c0) <= i < indirect_count(self.t),
            forall|i: int, k: int| #[trigger] self.takes_ptr(i) && self.c0 <= k < self.t ==> self.base(i) != #[trigger] self.pos(k),
            forall|i1: int, i2: int| #[trigger] self.takes_ptr(i1) && #[trigger] self.takes_ptr(i2) && i1 != i2 ==> self.base(i1) != self.base(i2),
            forall|i: int| 0 <= i < 64 && !#[trigger] self.takes_ptr(i) && self.t > 63 && self.i0() <= i <= self.i1() ==> i < indirect_count(self.c0),
    {
        let c0 = self.c0;
        let t = self.t;
        vstd::arithmetic::div_mod::lemma_fundamental_div_mod(self.cur() - 63, 128);
        vstd::arithmetic::div_mod::lemma_fundamental_div_mod(t - 63, 128);
        vstd::arithmetic::div_mod::lemma_fundamental_div_mod(c0 - 63, 128);
        if t > 63 {
            vstd::arithmetic::div_mod::lemma_div_is_ordered(self.cur() - 63, t - 63, 128);
            // number of indirect blocks in closed form
            vstd::arithmetic::div_mod::lemma_fundamental_div_mod_converse(t - 63 + 127, 128, self.i1() + 1, self.j1() - 1);
            if c0 > 63 {
                if self.j0() > 0 {
                    vstd::arithmetic::div_mod::lemma_fundamental_div_mod_converse(c0 - 63 + 127, 128, self.i0() + 1, self.j0() - 1);
                } else {
                    vstd::arithmetic::div_mod::lemma_fundamental_div_mod_converse(c0 - 63 + 127, 128, self.i0(), 127);
                }
            }
        }
        assert forall|k: int| self.c0 <= k < self.t implies 0 <= #[trigger] self.pos(k) < self.consumed() by {
            self.lemma_pos(k);
            if k >= 63 {
                self.lemma_pos(t - 1);
            }
        }
        assert forall|k1: int, k2: int| self.c0 <= k1 < k2 < self.t implies #[trigger] self.pos(k1) < #[trigger] self.pos(k2) by {
            self.lemma_pos(k1);
            self.lemma_pos(k2);
            if k1 >= 63 {
                vstd::arithmetic::div_mod::lemma_div_is_ordered(k1 - 63, k2 - 63, 128);
            }
        }
        assert forall|i: int| #[trigger] self.takes_ptr(i) implies 0 <= self.base(i) < self.consumed()
            && indirect_count(self.c0) <= i < indirect_count(self.t) by {
            self.lemma_base(i);
            self.lemma_pos(63 + 128 * i);
            vstd::arithmetic::div_mod::lemma_fundamental_div_mod_converse(128 * i, 128, i, 0);
            self.lemma_pos(t - 1);
        }
        assert forall|i: int, k: int| #[trigger] self.takes_ptr(i) && self.c0 <= k < self.t implies self.base(i) != #[trigger] self.pos(k) by {
            self.lemma_base(i);
            self.lemma_pos(k);
            if k >= 63 {
                vstd::arithmetic::div_mod::lemma_fundamental_div_mod(k - 63, 128);
                if k < 63 + 128 * i {
                    vstd::arithmetic::div_mod::lemma_div_is_ordered(k - 63, 128 * i - 1, 128);
                    vstd::arithmetic::div_mod::lemma_fundamental_div_mod_converse(128 * i - 1, 128, i - 1, 127);
                } else {
                    vstd::arithmetic::div_mod::lemma_div_is_ordered(128 * i, k - 63, 128);
                    vstd::arithmetic::div_mod::lemma_fundamental_div_mod_converse(128 * i, 128, i, 0);
                }
            }
        }
        assert forall|i1: int, i2: int| #[trigger] self.takes_ptr(i1) && #[trigger] self.takes_ptr(i2) && i1 != i2 implies self.base(i1) != self.base(i2) by {
            self.lemma_base(i1);
            self.lemma_base(i2);
        }
    }
}

/// Reading back the `m`-th of the ids written by [`entries_bytes`].
pub proof fn lemma_entries_read(ids: Seq<u32>, from: int, n: int, m: int)
    requires
        0 <= m < n,
    ensures
        le_u32(entries_bytes(ids, from, n), 4 * m) == ids[from + m],
{
    let b = entries_bytes(ids, from, n);
    lemma_u32_roundtrip(ids[from + m]);
    assert(b[4 * m] == u32_bytes(ids[from + m])[0]) by {
        vstd::arithmetic::div_mod::lemma_fundamental_div_mod_converse(4 * m, 4, m, 0);
    }
    assert(b[4 * m + 1] == u32_bytes(ids[from + m])[1]) by {
        vstd::arithmetic::div_mod::lemma_fundamental_div_mod_converse(4 * m + 1, 4, m, 1);
    }
    assert(b[4 * m + 2] == u32_bytes(ids[from + m])[2]) by {
        vstd::arithmetic::div_mod::lemma_fundamental_div_mod_converse(4 * m + 2, 4, m, 2);
    }
    assert(b[4 * m + 3] == u32_bytes(ids[from + m])[3]) by {
        vstd::arithmetic::div_mod::lemma_fundamental_div_mod_converse(4 * m + 3, 4, m, 3);
    }
}

/// An id read from a block written with [`splice`].
pub proof fn lemma_splice_entry(x: Seq<u8>, off: int, y: Seq<u8>, j: int)
    requires
        0 <= off,
        off + y.len() <= x.len(),
        0 <= j,
        4 * j + 4 <= x.len(),
    ensures
        4 * j + 4 <= off ==> le_u32(splice(x, off, y), 4 * j) == le_u32(x, 4 * j),
        off <= 4 * j && 4 * j + 4 <= off + y.len() ==> le_u32(splice(x, off, y), 4 * j) == le_u32(y, 4 * j - off),
{
}

/// The data blocks of an inode lie where they did when its indirect blocks did not change.
pub proof fn lemma_mapping_frame(inode: InodeView, v0: Seq<Seq<u8>>, v1: Seq<Seq<u8>>, d: int)
    requires
        v1.len() == v0.len(),
        forall|i: int| 0 <= i < indirect_count(d) ==> #[trigger] v1[inode.indirect[i] as int] == v0[inode.indirect[i] as int],
    ensures
        forall|k: int| 0 <= k < d ==> #[trigger] inode.block_id(v1, k) == inode.block_id(v0, k),
        inode.blocks_mapped(v0, 0, d) ==> inode.blocks_mapped(v1, 0, d),
        inode.blocks_separate(v0, 0, d) ==> inode.blocks_separate(v1, 0, d),
{
    assert forall|k: int| 0 <= k < d implies #[trigger] inode.block_id(v1, k) == inode.block_id(v0, k) by {
        if k >= 63 {
            vstd::arithmetic::div_mod::lemma_div_is_ordered(k - 63, d - 1 - 63, 128);
            vstd::arithmetic::div_mod::lemma_fundamental_div_mod(d - 1 - 63, 128);
            vstd::arithmetic::div_mod::lemma_fundamental_div_mod_converse(d - 63 + 127, 128, (d - 1 - 63) / 128 + 1, (d - 1 - 63) % 128);
            assert(v1[inode.indirect[(k - 63) / 128] as int] == v0[inode.indirect[(k - 63) / 128] as int]);
        }
    }
    if inode.blocks_mapped(v0, 0, d) {
        assert forall|k: int| 0 <= k < d implies #[trigger] inode.block_mapped(v1, k) by {
            assert(inode.block_mapped(v0, k));
            assert(inode.block_id(v1, k) == inode.block_id(v0, k));
        }
    }
    if inode.blocks_separate(v0, 0, d) {
        assert forall|k1: int, k2: int| 0 <= k1 < d && 0 <= k2 < d && k1 != k2 implies #[trigger] inode.block_id(v1, k1)
            != #[trigger] inode.block_id(v1, k2) by {
            assert(inode.block_id(v0, k1) != inode.block_id(v0, k2));
        }
        assert forall|k1: int, k2: int| 0 <= k1 < d && 0 <= k2 < d && k2 >= 63 implies #[trigger] inode.block_id(v1, k1)
            != #[trigger] inode.indirect[(k2 - 63) / 128] by {
            assert(inode.block_id(v0, k1) != inode.indirect[(k2 - 63) / 128]);
        }
    }
}

/// Where the data blocks of a grown inode lie: the old ones where they were, the new ones at
/// their positions in the new blocks.
pub proof fn lemma_grown_mapping(
    old_i: InodeView,
    new_i: InodeView,
    g: Growth,
    nb: Seq<u32>,
    v0: Seq<Seq<u8>>,
    v1: Seq<Seq<u8>>,
)
    requires
        g.wf(),
        nb.len() >= g.consumed(),
        old_i.direct.len() == 63,
        old_i.indirect.len() == 64,
        g.c0 == data_blocks_of(old_i.size as int),
        new_i.direct == Seq::new(63, |i: int| if g.c0 <= i < g.cur() { nb[i - g.c0] } else { old_i.direct[i] }),
        new_i.indirect == Seq::new(64, |i: int| if g.takes_ptr(i) { nb[g.base(i)] } else { old_i.indirect[i] }),
        old_i.blocks_mapped(v0, 0, g.c0),
        v1.len() == v0.len(),
        forall|x: int| 0 <= x < v0.len() ==> #[trigger] v0[x].len() == 512,
        forall|b: int| 0 <= b < v0.len() && (g.t <= 63 || forall|i: int| g.i0() <= i <= g.i1() ==> #[trigger] new_i.indirect[i] != b) ==> #[trigger] v1[b] == v0[b],
        g.t > 63 ==> forall|i1: int, i2: int| 0 <= i1 < i2 <= g.i1() ==> #[trigger] new_i.indirect[i1] != #[trigger] new_i.indirect[i2],
        g.t > 63 ==> forall|i: int| g.i0() <= i <= g.i1() ==> #[trigger] v1[new_i.indirect[i] as int] == splice(
            v0[new_i.indirect[i] as int],
            4 * g.js(i),
            entries_bytes(nb, g.entry_pos(i, g.js(i)), g.je(i) - g.js(i)),
        ),
        g.t > 63 ==> forall|i: int| g.i0() <= i <= g.i1() ==> #[trigger] new_i.indirect[i] < v0.len(),
        forall|k: int, i: int| 0 <= k < g.c0 && g.t > 63 && g.i0() <= i <= g.i1() ==> #[trigger] old_i.block_id(v0, k) != #[trigger] new_i.indirect[i],
    ensures
        forall|k: int| 0 <= k < g.t ==> #[trigger] new_i.block_id(v1, k) == if k < g.c0 {
            old_i.block_id(v0, k)
        } else {
            nb[g.pos(k)] as int
        },
{
    assert forall|k: int| 0 <= k < g.t implies #[trigger] new_i.block_id(v1, k) == if k < g.c0 {
        old_i.block_id(v0, k)
    } else {
        nb[g.pos(k)] as int
    } by {
        if k < 63 {
            if k >= g.c0 {
                g.lemma_pos(k);
            }
        } else {
            let i = (k - 63) / 128;
            let j = (k - 63) % 128;
            vstd::arithmetic::div_mod::lemma_fundamental_div_mod(k - 63, 128);
            if k < g.c0 {
                assert(old_i.block_mapped(v0, k));
                vstd::arithmetic::div_mod::lemma_fundamental_div_mod(g.cur() - 63, 128);
                vstd::arithmetic::div_mod::lemma_div_is_ordered(k - 63, g.c0 - 63, 128);
                assert(g.cur() == g.c0);
                assert(!g.takes_ptr(i));
                assert(new_i.indirect[i] == old_i.indirect[i]);
                let p = old_i.indirect[i] as int;
                if g.t > 63 && i == g.i0() {
                    assert(j < g.j0());
                    lemma_splice_entry(v0[p], 4 * g.js(i), entries_bytes(nb, g.entry_pos(i, g.js(i)), g.je(i) - g.js(i)), j);
                } else if g.t > 63 {
                    assert forall|x: int| g.i0() <= x <= g.i1() implies #[trigger] new_i.indirect[x] != p by {
                        assert(new_i.indirect[i] != new_i.indirect[x]);
                    }
                    assert(v1[p] == v0[p]);
                } else {
                    assert(v1[p] == v0[p]);
                }
            } else {
                g.lemma_pos(k);
                let p = new_i.indirect[i] as int;
                let y = entries_bytes(nb, g.entry_pos(i, g.js(i)), g.je(i) - g.js(i));
                assert(v0[p].len() == 512);
                lemma_splice_entry(v0[p], 4 * g.js(i), y, j);
                lemma_entries_read(nb, g.entry_pos(i, g.js(i)), g.je(i) - g.js(i), j - g.js(i));
            }
        }
    }
}

/// The first `n` ids stored in `block`.
pub open spec fn block_entries(block: Seq<u8>, n: int) -> Seq<u32> {
    Seq::new(n as nat, |j: int| block_entry(block, j) as u32)
}

/// The blocks listed by the first `n` indirect blocks of `ind` for a file of `d` data blocks:
/// each indirect block, followed by the ids of the data blocks it maps.
pub open spec fn indirect_list(disk: Seq<Seq<u8>>, ind: Seq<u32>, d: int, n: int) -> Seq<u32>
    decreases n,
{
    if n <= 0 {
        Seq::empty()
    } else {
        let i = n - 1;
        let je = if i == (d - 63) / 128 { (d - 63) % 128 } else { 128 };
        indirect_list(disk, ind, d, n - 1) + seq![ind[i]] + block_entries(disk[ind[i] as int], je)
    }
}

/// The blocks released by clearing a file of `d` data blocks: its direct data blocks, then for
/// each indirect block, the indirect block and the data blocks it maps.
pub open spec fn cleared_blocks(disk: Seq<Seq<u8>>, direct: Seq<u32>, ind: Seq<u32>, d: int) -> Seq<u32> {
    direct.take(vstd::math::min(d, 63)) + indirect_list(disk, ind, d, indirect_count(d))
}

/// The indirect blocks in use: one per started group of 128 data blocks past the direct ones.
pub proof fn lemma_indirect_count_exact(d: int)
    requires
        d > 63,
    ensures
        indirect_count(d) == (d - 63) / 128 + if (d - 63) % 128 != 0 { 1int } else { 0int },
{
    vstd::arithmetic::div_mod::lemma_fundamental_div_mod(d - 63, 128);
    if (d - 63) % 128 != 0 {
        vstd::arithmetic::div_mod::lemma_fundamental_div_mod_converse(d - 63 + 127, 128, (d - 63) / 128 + 1, (d - 63) % 128 - 1);
    } else {
        vstd::arithmetic::div_mod::lemma_fundamental_div_mod_converse(d - 63 + 127, 128, (d - 63) / 128, 127);
    }
}

/// The first `n` indirect blocks in use list `n` indirect blocks and the data blocks they map.
pub proof fn lemma_indirect_list_len(disk: Seq<Seq<u8>>, ind: Seq<u32>, d: int, n: int)
    requires
        d > 63,
        0 <= n <= indirect_count(d),
    ensures
        indirect_list(disk, ind, d, n).len() == n + vstd::math::min(128 * n, d - 63),
    decreases n,
{
    lemma_indirect_count_exact(d);
    vstd::arithmetic::div_mod::lemma_fundamental_div_mod(d - 63, 128);
    if n > 0 {
        lemma_indirect_list_len(disk, ind, d, n - 1);
        let i = n - 1;
        if i < (d - 63) / 128 {
            assert(128 * n <= 128 * ((d - 63) / 128)) by (nonlinear_arith)
                requires n <= (d - 63) / 128;
        } else {
            assert(i == (d - 63) / 128);
            assert(128 * i + (d - 63) % 128 == d - 63);
        }
    }
}

/// Clearing a file releases exactly as many blocks as it holds.
pub proof fn lemma_cleared_len(disk: Seq<Seq<u8>>, direct: Seq<u32>, ind: Seq<u32>, size: int)
    requires
        0 <= size,
        direct.len() == 63,
    ensures
        cleared_blocks(disk, direct, ind, data_blocks_of(size)).len() == total_blocks_of(size),
{
    let d = data_blocks_of(size);
    if d > 63 {
        lemma_indirect_list_len(disk, ind, d, indirect_count(d));
        lemma_indirect_count_exact(d);
        vstd::arithmetic::div_mod::lemma_fundamental_div_mod(d - 63, 128);
        if (d - 63) % 128 == 0 {
            assert(128 * indirect_count(d) == d - 63);
        } else {
            assert(128 * indirect_count(d) >= d - 63);
        }
    } else {
        assert(indirect_list(disk, ind, d, 0).len() == 0);
    }
}

/// The little-endian bytes of `n` entries of `ids` from `from` on.
pub open spec fn entries_bytes(ids: Seq<u32>, from: int, n: int) -> Seq<u8> {
    Seq::new((4 * n) as nat, |x: int| u32_bytes(ids[from + x / 4])[x % 4])
}

/// The bytes of `n + 1` ids are those of the first `n` followed by the last one.
pub proof fn lemma_entries_push(ids: Seq<u32>, from: int, n: int)
    requires
        0 <= n,
    ensures
        entries_bytes(ids, from, n) + u32_bytes(ids[from + n]) == entries_bytes(ids, from, n + 1),
{
    let l = entries_bytes(ids, from, n) + u32_bytes(ids[from + n]);
    let r = entries_bytes(ids, from, n + 1);
    assert forall|x: int| 0 <= x < 4 * (n + 1) implies l[x] == r[x] by {
        if x >= 4 * n {
            vstd::arithmetic::div_mod::lemma_fundamental_div_mod_converse(x, 4, n, x - 4 * n);
        }
    }
    assert(l =~= r);
}

/// The elements of `s` from `from` to `to` (excluded).
pub fn slice_range(s: &[u8], from: usize, to: usize) -> (r: &[u8])
    requires
        from <= to <= s@.len(),
    ensures
        r@ == s@.subrange(from as int, to as int),
{
    let r = &s[from..to];
    assert(r@ =~= s@.subrange(from as int, to as int));
    r
}

/// A position `t` bytes after `start`, still inside the block of `start`.
pub proof fn lemma_same_block(start: int, t: int)
    requires
        0 <= start,
        0 <= t,
        start % 512 + t < 512,
    ensures
        (start + t) / 512 == start / 512,
        (start + t) % 512 == start % 512 + t,
{
    vstd::arithmetic::div_mod::lemma_fundamental_div_mod(start, 512);
    vstd::arithmetic::div_mod::lemma_fundamental_div_mod_converse(start + t, 512, start / 512, start % 512 + t);
}

/// The end of the block holding byte `start`.
pub proof fn lemma_block_end(start: int)
    requires
        0 <= start,
    ensures
        start < (start / 512 + 1) * 512,
        (start / 512 + 1) * 512 - start == 512 - start % 512,
        ((start / 512 + 1) * 512) / 512 == start / 512 + 1,
        ((start / 512 + 1) * 512) % 512 == 0,
{
    vstd::arithmetic::div_mod::lemma_fundamental_div_mod(start, 512);
    vstd::arithmetic::div_mod::lemma_fundamental_div_mod_converse((start / 512 + 1) * 512, 512, start / 512 + 1, 0);
}

/// Reading back the bytes of an inode gives its size and block ids.
pub proof fn lemma_inode_roundtrip(size: u32, direct: Seq<u32>, indirect: Seq<u32>)
    requires
        direct.len() == 63,
        indirect.len() == 64,
    ensures
        decode_inode(inode_bytes(size, direct, indirect)) == (InodeView { size, direct, indirect }),
        inode_bytes(size, direct, indirect).len() == 512,
        le_u32(inode_bytes(size, direct, indirect), 0) == size,
        forall|i: int| 0 <= i < 63 ==> #[trigger] le_u32(inode_bytes(size, direct, indirect), 4 + 4 * i) == direct[i],
        forall|i: int| 0 <= i < 64 ==> #[trigger] le_u32(inode_bytes(size, direct, indirect), 256 + 4 * i) == indirect[i],
{
    let b = inode_bytes(size, direct, indirect);
    lemma_u32_roundtrip(size);
    assert forall|i: int| 0 <= i < 63 implies #[trigger] le_u32(b, 4 + 4 * i) == direct[i] by {
        lemma_u32_roundtrip(direct[i]);
        assert((4 + 4 * i - 4) / 4 == i);
        assert((4 + 4 * i + 1 - 4) / 4 == i);
        assert((4 + 4 * i + 2 - 4) / 4 == i);
        assert((4 + 4 * i + 3 - 4) / 4 == i);
    }
    assert forall|i: int| 0 <= i < 64 implies #[trigger] le_u32(b, 256 + 4 * i) == indirect[i] by {
        lemma_u32_roundtrip(indirect[i]);
        assert((256 + 4 * i - 256) / 4 == i);
        assert((256 + 4 * i + 1 - 256) / 4 == i);
        assert((256 + 4 * i + 2 - 256) / 4 == i);
        assert((256 + 4 * i + 3 - 256) / 4 == i);
    }
    assert(decode_inode(b).direct =~= direct);
    assert(decode_inode(b).indirect =~= indirect);
}

} // verus!
