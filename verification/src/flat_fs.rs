use crate::block_dev::{zeroed_block, BlockDevice};
use crate::codec::{le_u64, push_u64, read_u64, u64_bytes};
use crate::layout::{first_zero, lemma_first_zero, str_from_utf8};
use vstd::prelude::*;
use vstd::string::StringSliceAdditionalSpecFns;
use vstd::utf8::valid_utf8;

verus! {

// A flat file system: a directory of 256 entries in the first 16 blocks, then 1024 blocks for
// each file, its bytes in order.

/// Size of a block in bytes.
pub const BLOCK_SIZE: usize = 0x200;
/// Number of blocks of the device.
pub const TOTAL_BLOCKS: usize = 0x40000;
/// Number of blocks of each file.
pub const BLOCKS_PER_FILE: usize = 0x400;
/// Number of blocks of the directory.
pub const DIR_BLOCKS: usize = 0x10;
/// Number of entries in a directory block.
pub const ENTRIES_PER_BLOCK: usize = 16;
/// Number of files.
pub const FILE_COUNT: usize = 256;

/// A directory entry: a zero-padded name and the size of the file in bytes.
#[derive(Clone, Copy)]
pub struct DirEntry {
    pub name: [u8; 24],
    pub file_size: u64,
}

/// A file: its number and its directory entry.
#[derive(Clone, Copy)]
pub struct File {
    pub i: usize,
    pub dir_entry: DirEntry,
}

/// The 32 bytes of entry `i` of the directory.
pub open spec fn entry_bytes(blocks: Seq<Seq<u8>>, i: int) -> Seq<u8> {
    blocks[i / 16].subrange((i % 16) * 32, (i % 16) * 32 + 32)
}

/// The on-disk form of a directory entry.
pub open spec fn dir_entry_bytes(e: DirEntry) -> Seq<u8> {
    e.name@ + u64_bytes(e.file_size)
}

/// The entry a directory entry's bytes stand for.
pub open spec fn decode_entry(b: Seq<u8>) -> (Seq<u8>, int) {
    (b.take(24), le_u64(b, 24))
}

/// Block `k` of file `i`.
pub open spec fn file_block(i: int, k: int) -> int {
    16 + i * 1024 + k
}

/// The first `size` bytes of file `i`.
pub open spec fn file_bytes(blocks: Seq<Seq<u8>>, i: int, size: int) -> Seq<u8> {
    Seq::new(size as nat, |p: int| blocks[file_block(i, p / 512)][p % 512])
}

/// Going from `d0` to `d1` changed, past the directory, only the blocks that a write of `len`
/// bytes to file `i` covers: its first `len / 512 + 1` blocks.
pub open spec fn written_blocks_only(d0: Seq<Seq<u8>>, d1: Seq<Seq<u8>>, i: int, len: int) -> bool {
    forall|b: int| 16 <= b < d0.len() && !(file_block(i, 0) <= b <= file_block(i, len / 512))
        ==> #[trigger] d1[b] == d0[b]
}

/// The bytes of the last block written for `buf` in file `i` past the end of `buf`: those of
/// the full block written before it, or zeros when there is none.
pub open spec fn last_block_tail(blocks: Seq<Seq<u8>>, i: int, buf: Seq<u8>) -> bool {
    let k = (buf.len() / 512) as int;
    forall|q: int| buf.len() % 512 <= q < 512 ==> #[trigger] blocks[file_block(i, k)][q]
        == if k > 0 { buf[(k - 1) * 512 + q] } else { 0u8 }
}

/// The device holds the blocks of the whole directory.
pub open spec fn has_directory(blocks: Seq<Seq<u8>>) -> bool {
    &&& blocks.len() >= 16
    &&& forall|b: int| 0 <= b < blocks.len() ==> #[trigger] blocks[b].len() == 512
}

/// The entry holds only zero bytes.
pub open spec fn entry_is_empty(e: DirEntry) -> bool {
    &&& forall|k: int| 0 <= k < 24 ==> #[trigger] e.name@[k] == 0
    &&& e.file_size == 0
}

/// The name field holds a zero byte.
pub open spec fn name_terminated(e: DirEntry) -> bool {
    exists|k: int| 0 <= k < 24 && e.name@[k] == 0
}

/// The name stored in an entry.
pub open spec fn entry_name(e: DirEntry) -> Seq<u8> {
    e.name@.take(first_zero(e.name@))
}

/// The bytes of block `id`.
fn read_block_of<D: BlockDevice>(dev: &D, id: usize) -> (r: Vec<u8>)
    requires
        dev.inv(),
        id < dev.blocks().len(),
    ensures
        r@ == dev.blocks()[id as int],
{
    let mut buf = zeroed_block();
    dev.read_block(id, buf.as_mut_slice());
    buf
}

impl File {
    /// File `i` with entry `dir_entry`.
    pub fn new(i: usize, dir_entry: DirEntry) -> (r: Self)
        ensures
            r.i == i,
            r.dir_entry == dir_entry,
    {
        Self { i, dir_entry }
    }

    /// Whether the entry is unused: all its bytes are zero.
    pub fn is_empty(&self) -> (r: bool)
        ensures
            r == entry_is_empty(self.dir_entry),
    {
        let mut k: usize = 0;
        while k < 24
            invariant
                k <= 24,
                forall|j: int| 0 <= j < k ==> #[trigger] self.dir_entry.name@[j] == 0,
            decreases 24 - k,
        {
            if self.dir_entry.name[k] != 0 {
                return false;
            }
            k += 1;
        }
        self.dir_entry.file_size == 0
    }

    /// Number of bytes of the stored name.
    fn name_len(&self) -> (r: usize)
        requires
            name_terminated(self.dir_entry),
        ensures
            r == first_zero(self.dir_entry.name@),
            r < 24,
    {
        let mut k: usize = 0;
        while self.dir_entry.name[k] != 0
            invariant
                k < 24,
                exists|j: int| k <= j < 24 && self.dir_entry.name@[j] == 0,
                forall|j: int| 0 <= j < k ==> self.dir_entry.name@[j] != 0,
            decreases 24 - k,
        {
            k += 1;
        }
        proof {
            lemma_first_zero(self.dir_entry.name@, k as int);
        }
        k
    }

    /// The name of the file.
    pub fn name(&self) -> (r: &str)
        requires
            name_terminated(self.dir_entry),
            valid_utf8(entry_name(self.dir_entry)),
        ensures
            r.spec_bytes() == entry_name(self.dir_entry),
    {
        let len = self.name_len();
        let prefix = crate::layout::slice_prefix(self.dir_entry.name.as_slice(), len);
        str_from_utf8(prefix).unwrap()
    }

    /// Whether the stored name is `n`.
    pub fn name_is(&self, n: &[u8]) -> (r: bool)
        requires
            name_terminated(self.dir_entry),
        ensures
            r == (entry_name(self.dir_entry) == n@),
    {
        let len = self.name_len();
        if len != n.len() {
            assert(entry_name(self.dir_entry).len() != n@.len());
            return false;
        }
        let mut k: usize = 0;
        while k < len
            invariant
                len == n@.len(),
                len == first_zero(self.dir_entry.name@),
                len < 24,
                k <= len,
                forall|j: int| 0 <= j < k ==> self.dir_entry.name@[j] == n@[j],
            decreases len - k,
        {
            if self.dir_entry.name[k] != n[k] {
                assert(entry_name(self.dir_entry)[k as int] == self.dir_entry.name@[k as int]);
                return false;
            }
            k += 1;
        }
        assert(entry_name(self.dir_entry) =~= n@);
        true
    }

    /// Sets the name to `n`, zero-padded.
    pub fn set_name(&mut self, n: &str)
        requires
            n.spec_bytes().len() <= 24,
        ensures
            final(self).i == old(self).i,
            final(self).dir_entry.file_size == old(self).dir_entry.file_size,
            final(self).dir_entry.name@ == n.spec_bytes() + Seq::new((24 - n.spec_bytes().len()) as nat, |k: int| 0u8),
    {
        let mut name = [0u8; 24];
        let src = n.as_bytes();
        let mut k: usize = 0;
        while k < src.len()
            invariant
                src@ == n.spec_bytes(),
                src@.len() <= 24,
                k <= src@.len(),
                forall|j: int| 0 <= j < 24 ==> #[trigger] name@[j] == (if j < k { src@[j] } else { 0u8 }),
            decreases src@.len() - k,
        {
            name[k] = src[k];
            k += 1;
        }
        self.dir_entry.name = name;
        assert(self.dir_entry.name@ =~= n.spec_bytes() + Seq::new((24 - n.spec_bytes().len()) as nat, |k: int| 0u8));
    }

    /// The bytes of the file.
    pub fn _read<D: BlockDevice>(&self, dev: &D) -> (r: Vec<u8>)
        requires
            dev.inv(),
            self.dir_entry.file_size <= usize::MAX,
            file_block(self.i as int, (self.dir_entry.file_size / 512) as int) < dev.blocks().len(),
        ensures
            r@ == file_bytes(dev.blocks(), self.i as int, self.dir_entry.file_size as int),
    {
        proof {
            dev.lemma_inv();
        }
        let size = self.dir_entry.file_size as usize;
        let block_num = size / BLOCK_SIZE;
        let remainder = size % BLOCK_SIZE;
        let base = DIR_BLOCKS + self.i * BLOCKS_PER_FILE;
        let mut v: Vec<u8> = Vec::new();
        let mut k: usize = 0;
        while k < block_num
            invariant
                dev.inv(),
                k <= block_num,
                block_num == size / 512,
                base == file_block(self.i as int, 0),
                base + block_num < dev.blocks().len(),
                dev.blocks().len() <= usize::MAX,
                forall|b: int| 0 <= b < dev.blocks().len() ==> #[trigger] dev.blocks()[b].len() == 512,
                v@ == file_bytes(dev.blocks(), self.i as int, k * 512),
            decreases block_num - k,
        {
            let block = read_block_of(dev, base + k);
            let ghost before = v@;
            crate::net::push_bytes(&mut v, block.as_slice());
            assert(v@ =~= file_bytes(dev.blocks(), self.i as int, (k + 1) * 512)) by {
                assert forall|p: int| 0 <= p < (k + 1) * 512 implies #[trigger] v@[p] == dev.blocks()[file_block(self.i as int, p / 512)][p % 512] by {
                    if p >= k * 512 {
                        vstd::arithmetic::div_mod::lemma_fundamental_div_mod_converse(p, 512, k as int, p - k * 512);
                    }
                }
            }
            k += 1;
        }
        let last = read_block_of(dev, base + block_num);
        crate::net::push_bytes(&mut v, crate::layout::slice_prefix(last.as_slice(), remainder));
        assert(v@ =~= file_bytes(dev.blocks(), self.i as int, size as int)) by {
            vstd::arithmetic::div_mod::lemma_fundamental_div_mod(size as int, 512);
            assert forall|p: int| 0 <= p < size implies #[trigger] v@[p] == dev.blocks()[file_block(self.i as int, p / 512)][p % 512] by {
                if p >= block_num * 512 {
                    vstd::arithmetic::div_mod::lemma_fundamental_div_mod_converse(p, 512, block_num as int, p - block_num * 512);
                }
            }
        }
        v
    }

    /// Stores this file's entry in the directory.
    pub fn set_dir_entry<D: BlockDevice>(&self, dev: &mut D)
        requires
            old(dev).inv(),
            self.i < FILE_COUNT,
            has_directory(old(dev).blocks()),
        ensures
            final(dev).inv(),
            final(dev).blocks().len() == old(dev).blocks().len(),
            entry_bytes(final(dev).blocks(), self.i as int) == dir_entry_bytes(self.dir_entry),
            forall|b: int| 0 <= b < old(dev).blocks().len() && b != self.i / 16 ==> #[trigger] final(dev).blocks()[b] == old(dev).blocks()[b],
            forall|j: int| 0 <= j < FILE_COUNT && j != self.i ==> #[trigger] entry_bytes(final(dev).blocks(), j) == entry_bytes(old(dev).blocks(), j),
            final(dev).writes() == old(dev).writes().push(self.i / 16),
    {
        let block = self.i / ENTRIES_PER_BLOCK;
        let offset = self.i % ENTRIES_PER_BLOCK;
        let old_block = read_block_of(dev, block);
        let mut entry: Vec<u8> = Vec::new();
        crate::net::push_bytes(&mut entry, self.dir_entry.name.as_slice());
        push_u64(&mut entry, self.dir_entry.file_size);
        let mut buf: Vec<u8> = Vec::new();
        crate::net::push_bytes(&mut buf, crate::inode::slice_range(old_block.as_slice(), 0, offset * 32));
        crate::net::push_bytes(&mut buf, entry.as_slice());
        crate::net::push_bytes(&mut buf, crate::inode::slice_range(old_block.as_slice(), offset * 32 + 32, BLOCK_SIZE));
        let ghost nb = buf@;
        dev.write_block(block, buf.as_slice());
        proof {
            assert(nb.subrange(offset * 32, offset * 32 + 32) =~= dir_entry_bytes(self.dir_entry));
            assert forall|j: int| 0 <= j < FILE_COUNT && j != self.i implies #[trigger] entry_bytes(dev.blocks(), j) == entry_bytes(old(dev).blocks(), j) by {
                if j / 16 == self.i / 16 {
                    assert(j % 16 != offset);
                    assert(entry_bytes(dev.blocks(), j) =~= entry_bytes(old(dev).blocks(), j));
                }
            }
        }
    }

    /// Stores `buf` as the contents of the file and records its size in the directory.
    pub fn _write<D: BlockDevice>(&mut self, dev: &mut D, buf: &[u8])
        requires
            old(dev).inv(),
            old(self).i < FILE_COUNT,
            has_directory(old(dev).blocks()),
            file_block(old(self).i as int, (buf@.len() / 512) as int) < old(dev).blocks().len(),
        ensures
            final(dev).inv(),
            final(dev).blocks().len() == old(dev).blocks().len(),
            final(self).i == old(self).i,
            final(self).dir_entry.name == old(self).dir_entry.name,
            final(self).dir_entry.file_size == buf@.len(),
            file_bytes(final(dev).blocks(), final(self).i as int, buf@.len() as int) == buf@,
            entry_bytes(final(dev).blocks(), final(self).i as int) == dir_entry_bytes(final(self).dir_entry),
            forall|j: int| 0 <= j < FILE_COUNT && j != old(self).i ==> #[trigger] entry_bytes(final(dev).blocks(), j) == entry_bytes(old(dev).blocks(), j),
            written_blocks_only(old(dev).blocks(), final(dev).blocks(), old(self).i as int, buf@.len() as int),
            last_block_tail(final(dev).blocks(), old(self).i as int, buf@),
    {
        proof {
            dev.lemma_inv();
        }
        let ghost d0 = dev.blocks();
        let len = buf.len();
        let block_num = len / BLOCK_SIZE;
        let remainder = len % BLOCK_SIZE;
        let base = DIR_BLOCKS + self.i * BLOCKS_PER_FILE;
        let mut block = zeroed_block();
        let mut k: usize = 0;
        while k < block_num
            invariant
                dev.inv(),
                k <= block_num,
                block_num == len / 512,
                len == buf@.len(),
                base == file_block(self.i as int, 0),
                base + block_num < dev.blocks().len(),
                dev.blocks().len() <= usize::MAX,
                dev.blocks().len() == d0.len(),
                has_directory(dev.blocks()),
                block@.len() == 512,
                d0.len() >= 16,
                forall|b: int| 0 <= b < 16 ==> #[trigger] dev.blocks()[b] == d0[b],
                forall|p: int| 0 <= p < k * 512 ==> #[trigger] dev.blocks()[file_block(self.i as int, p / 512)][p % 512] == buf@[p],
                k > 0 ==> block@ == buf@.subrange((k - 1) * 512, k * 512),
                k == 0 ==> block@ == Seq::new(512, |q: int| 0u8),
                forall|b: int| 16 <= b < d0.len() && !(base <= b < base + k) ==> #[trigger] dev.blocks()[b] == d0[b],
            decreases block_num - k,
        {
            block = crate::block_dev::copy_bytes(crate::inode::slice_range(buf, k * BLOCK_SIZE, (k + 1) * BLOCK_SIZE));
            let ghost before = dev.blocks();
            dev.write_block(base + k, block.as_slice());
            proof {
                assert forall|b: int| 0 <= b < dev.blocks().len() implies #[trigger] dev.blocks()[b].len() == 512 by {
                    assert(before[b].len() == 512);
                }
                assert forall|p: int| 0 <= p < (k + 1) * 512 implies #[trigger] dev.blocks()[file_block(self.i as int, p / 512)][p % 512] == buf@[p] by {
                    if p >= k * 512 {
                        vstd::arithmetic::div_mod::lemma_fundamental_div_mod_converse(p, 512, k as int, p - k * 512);
                    } else {
                        vstd::arithmetic::div_mod::lemma_div_is_ordered(p, k * 512 - 1, 512);
                        vstd::arithmetic::div_mod::lemma_fundamental_div_mod_converse(k * 512 - 1, 512, k - 1, 511);
                    }
                }
                assert forall|b: int| 16 <= b < d0.len() && !(base <= b < base + k + 1) implies #[trigger] dev.blocks()[b] == d0[b] by {
                    assert(dev.blocks()[b] == before[b]);
                }
            }
            k += 1;
        }
        let mut last: Vec<u8> = Vec::new();
        crate::net::push_bytes(&mut last, crate::inode::slice_range(buf, block_num * BLOCK_SIZE, len));
        crate::net::push_bytes(&mut last, crate::inode::slice_range(block.as_slice(), remainder, BLOCK_SIZE));
        proof {
            vstd::arithmetic::div_mod::lemma_fundamental_div_mod(len as int, 512);
        }
        let ghost before_last = dev.blocks();
        dev.write_block(base + block_num, last.as_slice());
        proof {
            assert forall|b: int| 0 <= b < dev.blocks().len() implies #[trigger] dev.blocks()[b].len() == 512 by {
                assert(before_last[b].len() == 512);
            }
            assert forall|p: int| 0 <= p < len implies #[trigger] dev.blocks()[file_block(self.i as int, p / 512)][p % 512] == buf@[p] by {
                if p >= block_num * 512 {
                    vstd::arithmetic::div_mod::lemma_fundamental_div_mod_converse(p, 512, block_num as int, p - block_num * 512);
                } else {
                    vstd::arithmetic::div_mod::lemma_div_is_ordered(p, block_num * 512 - 1, 512);
                    vstd::arithmetic::div_mod::lemma_fundamental_div_mod_converse(block_num * 512 - 1, 512, block_num - 1, 511);
                }
            }
        }
        let ghost d1 = dev.blocks();
        proof {
            assert forall|q: int| remainder <= q < 512 implies #[trigger] d1[base + block_num][q]
                == if block_num > 0 { buf@[(block_num - 1) * 512 + q] } else { 0u8 } by {
                assert(d1[base + block_num][q] == last@[q]);
                assert(last@[q] == block@[q]);
            }
            assert forall|b: int| 16 <= b < d0.len() && !(base <= b <= base + block_num) implies #[trigger] d1[b] == d0[b] by {
                assert(d1[b] == before_last[b]);
            }
        }
        self.dir_entry.file_size = len as u64;
        self.set_dir_entry(dev);
        proof {
            assert(self.i / 16 < 16);
            assert forall|b: int| 16 <= b < d0.len() && !(file_block(self.i as int, 0) <= b <= file_block(self.i as int, (len / 512) as int))
                implies #[trigger] dev.blocks()[b] == d0[b] by {
                assert(dev.blocks()[b] == d1[b]);
            }
            assert forall|q: int| len % 512 <= q < 512 implies #[trigger] dev.blocks()[file_block(self.i as int, (len / 512) as int)][q]
                == if len / 512 > 0 { buf@[(len / 512 - 1) * 512 + q] } else { 0u8 } by {
                assert(dev.blocks()[base + block_num] == d1[base + block_num]);
            }
            assert(file_bytes(dev.blocks(), self.i as int, len as int) =~= buf@) by {
                assert forall|p: int| 0 <= p < len implies #[trigger] file_bytes(dev.blocks(), self.i as int, len as int)[p] == buf@[p] by {
                    vstd::arithmetic::div_mod::lemma_div_pos_is_pos(p, 512);
                    assert(dev.blocks()[file_block(self.i as int, p / 512)] == d1[file_block(self.i as int, p / 512)]);
                }
            }
            assert forall|j: int| 0 <= j < FILE_COUNT && j != old(self).i implies #[trigger] entry_bytes(dev.blocks(), j) == entry_bytes(d0, j) by {
                assert(entry_bytes(d1, j) == entry_bytes(d0, j)) by {
                    assert(d1[j / 16] == d0[j / 16]);
                }
            }
        }
    }
}

/// The files of the directory, in order of number.
pub fn files<D: BlockDevice>(dev: &D) -> (r: Vec<File>)
    requires
        dev.inv(),
        has_directory(dev.blocks()),
    ensures
        r@.len() == FILE_COUNT,
        forall|k: int| 0 <= k < FILE_COUNT ==> #[trigger] r@[k].i == k && dir_entry_bytes(r@[k].dir_entry) == entry_bytes(dev.blocks(), k),
{
    let mut v: Vec<File> = Vec::new();
    let mut b: usize = 0;
    while b < DIR_BLOCKS
        invariant
            dev.inv(),
            has_directory(dev.blocks()),
            b <= DIR_BLOCKS,
            v@.len() == b * 16,
            forall|k: int| 0 <= k < v@.len() ==> #[trigger] v@[k].i == k && dir_entry_bytes(v@[k].dir_entry) == entry_bytes(dev.blocks(), k),
        decreases DIR_BLOCKS - b,
    {
        let buf = read_block_of(dev, b);
        let mut j: usize = 0;
        while j < ENTRIES_PER_BLOCK
            invariant
                dev.inv(),
                has_directory(dev.blocks()),
                b < DIR_BLOCKS,
                j <= ENTRIES_PER_BLOCK,
                buf@ == dev.blocks()[b as int],
                v@.len() == b * 16 + j,
                forall|k: int| 0 <= k < v@.len() ==> #[trigger] v@[k].i == k && dir_entry_bytes(v@[k].dir_entry) == entry_bytes(dev.blocks(), k),
            decreases ENTRIES_PER_BLOCK - j,
        {
            let e = decode_dir_entry(buf.as_slice(), j * 32);
            let i = b * ENTRIES_PER_BLOCK + j;
            proof {
                vstd::arithmetic::div_mod::lemma_fundamental_div_mod_converse(i as int, 16, b as int, j as int);
            }
            v.push(File::new(i, e));
            j += 1;
        }
        b += 1;
    }
    v
}

/// The directory entry stored at `off` in `b`.
fn decode_dir_entry(b: &[u8], off: usize) -> (r: DirEntry)
    requires
        off + 32 <= b@.len(),
    ensures
        dir_entry_bytes(r) == b@.subrange(off as int, off + 32),
{
    let _n = b.len();
    let mut name = [0u8; 24];
    let mut k: usize = 0;
    while k < 24
        invariant
            off + 32 <= b@.len(),
            _n == b@.len(),
            k <= 24,
            forall|j: int| 0 <= j < k ==> #[trigger] name@[j] == b@[off + j],
        decreases 24 - k,
    {
        name[k] = b[off + k];
        k += 1;
    }
    let size = read_u64(b, off + 24);
    let r = DirEntry { name, file_size: size };
    proof {
        lemma_u64_le_bytes(b@, off + 24);
        assert(dir_entry_bytes(r) =~= b@.subrange(off as int, off + 32));
    }
    r
}

/// The eight bytes of a `u64` read at `off` are the bytes at `off`.
pub proof fn lemma_u64_le_bytes(s: Seq<u8>, off: int)
    requires
        0 <= off,
        off + 8 <= s.len(),
    ensures
        u64_bytes(le_u64(s, off) as u64) == s.subrange(off, off + 8),
{
    let lo = crate::codec::le_u32(s, off);
    let hi = crate::codec::le_u32(s, off + 4);
    crate::codec::lemma_le_u32_digits(s[off] as int, s[off + 1] as int, s[off + 2] as int, s[off + 3] as int);
    crate::codec::lemma_le_u32_digits(s[off + 4] as int, s[off + 5] as int, s[off + 6] as int, s[off + 7] as int);
    crate::layout::lemma_u32_le_bytes(s, off);
    crate::layout::lemma_u32_le_bytes(s, off + 4);
    let x = lo + hi * 4294967296;
    vstd::arithmetic::div_mod::lemma_fundamental_div_mod_converse(x, 4294967296, hi, lo);
    assert(u64_bytes(x as u64) =~= s.subrange(off, off + 8));
}

/// The entry that the directory bytes of file `k` stand for.
pub open spec fn stored_entry(blocks: Seq<Seq<u8>>, k: int) -> Seq<u8> {
    entry_bytes(blocks, k)
}

/// Every directory entry has a terminated name.
pub open spec fn names_terminated(blocks: Seq<Seq<u8>>) -> bool {
    forall|k: int| 0 <= k < FILE_COUNT ==> #[trigger] stored_terminated(blocks, k)
}

/// The name field of directory entry `k` holds a zero byte.
pub open spec fn stored_terminated(blocks: Seq<Seq<u8>>, k: int) -> bool {
    exists|j: int| 0 <= j < 24 && entry_bytes(blocks, k)[j] == 0
}

/// The name stored in directory entry `k`.
pub open spec fn stored_name(blocks: Seq<Seq<u8>>, k: int) -> Seq<u8> {
    let field = entry_bytes(blocks, k).take(24);
    field.take(first_zero(field))
}

/// Directory entry `k` holds only zero bytes.
pub open spec fn stored_empty(blocks: Seq<Seq<u8>>, k: int) -> bool {
    forall|j: int| 0 <= j < 32 ==> #[trigger] entry_bytes(blocks, k)[j] == 0
}

/// The file named `name` with the lowest number.
pub fn find<D: BlockDevice>(dev: &D, name: &str) -> (r: Option<File>)
    requires
        dev.inv(),
        has_directory(dev.blocks()),
        names_terminated(dev.blocks()),
    ensures
        match r {
            Some(f) => {
                &&& f.i < FILE_COUNT
                &&& stored_name(dev.blocks(), f.i as int) == name.spec_bytes()
                &&& dir_entry_bytes(f.dir_entry) == entry_bytes(dev.blocks(), f.i as int)
                &&& forall|k: int| 0 <= k < f.i ==> #[trigger] stored_name(dev.blocks(), k) != name.spec_bytes()
            },
            None => forall|k: int| 0 <= k < FILE_COUNT ==> #[trigger] stored_name(dev.blocks(), k) != name.spec_bytes(),
        },
{
    let all = files(dev);
    let bytes = name.as_bytes();
    let mut k: usize = 0;
    while k < all.len()
        invariant
            all@.len() == FILE_COUNT,
            forall|k: int| 0 <= k < FILE_COUNT ==> #[trigger] all@[k].i == k && dir_entry_bytes(all@[k].dir_entry) == entry_bytes(dev.blocks(), k),
            names_terminated(dev.blocks()),
            bytes@ == name.spec_bytes(),
            k <= all@.len(),
            forall|j: int| 0 <= j < k ==> #[trigger] stored_name(dev.blocks(), j) != name.spec_bytes(),
        decreases all@.len() - k,
    {
        let f = all[k];
        proof {
            assert(all@[k as int].i == k);
            assert(stored_terminated(dev.blocks(), k as int));
            lemma_entry_terminated(f.dir_entry, entry_bytes(dev.blocks(), k as int));
        }
        if f.name_is(bytes) {
            return Some(f);
        }
        k += 1;
    }
    None
}

/// The fields of an entry read from its bytes.
pub proof fn lemma_entry_fields(e: DirEntry, b: Seq<u8>)
    requires
        dir_entry_bytes(e) == b,
    ensures
        b.len() == 32,
        e.name@ == b.take(24),
        e.file_size == le_u64(b, 24),
{
    assert(e.name@ =~= b.take(24));
    crate::codec::lemma_u64_roundtrip(e.file_size);
    assert(u64_bytes(e.file_size) =~= b.subrange(24, 32));
}

/// An entry is unused exactly when all its bytes are zero.
pub proof fn lemma_entry_empty(e: DirEntry, b: Seq<u8>)
    requires
        dir_entry_bytes(e) == b,
    ensures
        entry_is_empty(e) <==> forall|j: int| 0 <= j < 32 ==> #[trigger] b[j] == 0,
{
    lemma_entry_fields(e, b);
    if forall|j: int| 0 <= j < 32 ==> #[trigger] b[j] == 0 {
        assert forall|k: int| 0 <= k < 24 implies #[trigger] e.name@[k] == 0 by {
            assert(b[k] == 0);
        }
        assert(b[24] == 0 && b[25] == 0 && b[26] == 0 && b[27] == 0);
        assert(b[28] == 0 && b[29] == 0 && b[30] == 0 && b[31] == 0);
    }
    if entry_is_empty(e) {
        assert forall|j: int| 0 <= j < 32 implies #[trigger] b[j] == 0 by {
            if j < 24 {
                assert(b[j] == e.name@[j]);
            } else {
                assert(b[j] == u64_bytes(0u64)[j - 24]);
            }
        }
    }
}

/// Whether an entry's name field holds a zero byte, read from its bytes.
pub proof fn lemma_entry_terminated(e: DirEntry, b: Seq<u8>)
    requires
        dir_entry_bytes(e) == b,
        exists|j: int| 0 <= j < 24 && b[j] == 0,
    ensures
        name_terminated(e),
        entry_name(e) == { let field = b.take(24); field.take(first_zero(field)) },
{
    lemma_entry_fields(e, b);
    let j = choose|j: int| 0 <= j < 24 && b[j] == 0;
    assert(e.name@[j] == 0);
}

/// Gives the empty entry with the lowest number the name `name`, stores it, and returns the
/// file.
pub fn create<D: BlockDevice>(dev: &mut D, name: &str) -> (r: File)
    requires
        old(dev).inv(),
        has_directory(old(dev).blocks()),
        name.spec_bytes().len() <= 24,
        exists|k: int| 0 <= k < FILE_COUNT && #[trigger] stored_empty(old(dev).blocks(), k),
    ensures
        final(dev).inv(),
        final(dev).blocks().len() == old(dev).blocks().len(),
        r.i < FILE_COUNT,
        stored_empty(old(dev).blocks(), r.i as int),
        forall|k: int| 0 <= k < r.i ==> !#[trigger] stored_empty(old(dev).blocks(), k),
        r.dir_entry.file_size == 0,
        r.dir_entry.name@ == name.spec_bytes() + Seq::new((24 - name.spec_bytes().len()) as nat, |k: int| 0u8),
        entry_bytes(final(dev).blocks(), r.i as int) == dir_entry_bytes(r.dir_entry),
        forall|j: int| 0 <= j < FILE_COUNT && j != r.i ==> #[trigger] entry_bytes(final(dev).blocks(), j) == entry_bytes(old(dev).blocks(), j),
        forall|b: int| 0 <= b < old(dev).blocks().len() && b != r.i / 16 ==> #[trigger] final(dev).blocks()[b] == old(dev).blocks()[b],
        final(dev).writes() == old(dev).writes().push(r.i / 16),
{
    let all = files(&*dev);
    let mut k: usize = 0;
    while k < all.len()
        invariant
            all@.len() == FILE_COUNT,
            forall|k: int| 0 <= k < FILE_COUNT ==> #[trigger] all@[k].i == k && dir_entry_bytes(all@[k].dir_entry) == entry_bytes(old(dev).blocks(), k),
            k <= all@.len(),
            forall|j: int| 0 <= j < k ==> !#[trigger] stored_empty(old(dev).blocks(), j),
            exists|k: int| 0 <= k < FILE_COUNT && #[trigger] stored_empty(old(dev).blocks(), k),
        ensures
            k <= all@.len(),
            k < all@.len() ==> entry_is_empty(all@[k as int].dir_entry),
            forall|j: int| 0 <= j < k ==> !#[trigger] stored_empty(old(dev).blocks(), j),
        decreases all@.len() - k,
    {
        proof {
            assert(all@[k as int].i == k);
            lemma_entry_empty(all@[k as int].dir_entry, entry_bytes(old(dev).blocks(), k as int));
        }
        if all[k].is_empty() {
            break;
        }
        k += 1;
    }
    if k == all.len() {
        proof {
            let j = choose|j: int| 0 <= j < FILE_COUNT && #[trigger] stored_empty(old(dev).blocks(), j);
            assert(!stored_empty(old(dev).blocks(), j));
        }
    }
    let mut f = all[k];
    proof {
        assert(all@[k as int].i == k);
        lemma_entry_empty(f.dir_entry, entry_bytes(old(dev).blocks(), k as int));
    }
    f.set_name(name);
    f.set_dir_entry(dev);
    f
}

/// Opens the file named `name`; with `is_create`, creates it when there is none.
pub fn open<D: BlockDevice>(dev: &mut D, name: &str, is_create: bool) -> (r: Option<File>)
    requires
        old(dev).inv(),
        has_directory(old(dev).blocks()),
        names_terminated(old(dev).blocks()),
        is_create ==> name.spec_bytes().len() <= 24,
        is_create ==> exists|k: int| 0 <= k < FILE_COUNT && #[trigger] stored_empty(old(dev).blocks(), k),
    ensures
        final(dev).inv(),
        final(dev).blocks().len() == old(dev).blocks().len(),
        (exists|k: int| 0 <= k < FILE_COUNT && #[trigger] stored_name(old(dev).blocks(), k) == name.spec_bytes()) ==> {
            &&& final(dev).blocks() == old(dev).blocks()
            &&& final(dev).writes() == old(dev).writes()
            &&& (r matches Some(f) && f.i < FILE_COUNT && stored_name(old(dev).blocks(), f.i as int) == name.spec_bytes()
                && dir_entry_bytes(f.dir_entry) == entry_bytes(old(dev).blocks(), f.i as int)
                && forall|k: int| 0 <= k < f.i ==> #[trigger] stored_name(old(dev).blocks(), k) != name.spec_bytes())
        },
        !(exists|k: int| 0 <= k < FILE_COUNT && #[trigger] stored_name(old(dev).blocks(), k) == name.spec_bytes()) ==> {
            &&& !is_create ==> r is None && final(dev).blocks() == old(dev).blocks() && final(dev).writes() == old(dev).writes()
            &&& is_create ==> (r matches Some(f) && {
                &&& f.i < FILE_COUNT
                &&& stored_empty(old(dev).blocks(), f.i as int)
                &&& forall|k: int| 0 <= k < f.i ==> !#[trigger] stored_empty(old(dev).blocks(), k)
                &&& f.dir_entry.file_size == 0
                &&& f.dir_entry.name@ == name.spec_bytes() + Seq::new((24 - name.spec_bytes().len()) as nat, |k: int| 0u8)
                &&& entry_bytes(final(dev).blocks(), f.i as int) == dir_entry_bytes(f.dir_entry)
                &&& forall|j: int| 0 <= j < FILE_COUNT && j != f.i ==> #[trigger] entry_bytes(final(dev).blocks(), j) == entry_bytes(old(dev).blocks(), j)
                &&& forall|b: int| 0 <= b < old(dev).blocks().len() && b != f.i / 16 ==> #[trigger] final(dev).blocks()[b] == old(dev).blocks()[b]
                &&& final(dev).writes() == old(dev).writes().push(f.i / 16)
            })
        },
{
    match find(dev, name) {
        Some(f) => Some(f),
        None => {
            if is_create {
                Some(create(dev, name))
            } else {
                None
            }
        },
    }
}

/// Zeroes the first `TOTAL_BLOCKS` blocks of the device.
pub fn format<D: BlockDevice>(dev: &mut D)
    requires
        old(dev).inv(),
        old(dev).blocks().len() >= TOTAL_BLOCKS,
    ensures
        final(dev).inv(),
        final(dev).blocks().len() == old(dev).blocks().len(),
        forall|b: int| 0 <= b < TOTAL_BLOCKS ==> #[trigger] final(dev).blocks()[b] == Seq::new(512, |j: int| 0u8),
        forall|b: int| TOTAL_BLOCKS <= b < old(dev).blocks().len() ==> #[trigger] final(dev).blocks()[b] == old(dev).blocks()[b],
        final(dev).writes() == old(dev).writes() + Seq::new(TOTAL_BLOCKS as nat, |i: int| i as usize),
{
    let zeros = zeroed_block();
    let mut b: usize = 0;
    while b < TOTAL_BLOCKS
        invariant
            dev.inv(),
            b <= TOTAL_BLOCKS,
            dev.blocks().len() == old(dev).blocks().len(),
            old(dev).blocks().len() >= TOTAL_BLOCKS,
            zeros@ == Seq::new(512, |j: int| 0u8),
            forall|c: int| 0 <= c < b ==> #[trigger] dev.blocks()[c] == Seq::new(512, |j: int| 0u8),
            forall|c: int| b <= c < old(dev).blocks().len() ==> #[trigger] dev.blocks()[c] == old(dev).blocks()[c],
            dev.writes() == old(dev).writes() + Seq::new(b as nat, |i: int| i as usize),
        decreases TOTAL_BLOCKS - b,
    {
        dev.write_block(b, zeros.as_slice());
        b += 1;
        assert(Seq::new(b as nat, |i: int| i as usize) =~= Seq::new((b - 1) as nat, |i: int| i as usize).push((b - 1) as usize));
    }
}

/// Writing a file leaves the bytes of every other file as they were, as long as the write stays
/// within the file's own share of `BLOCKS_PER_FILE` blocks.
pub proof fn lemma_write_keeps_other_files(d0: Seq<Seq<u8>>, d1: Seq<Seq<u8>>, i: int, len: int, j: int, size: int)
    requires
        d1.len() == d0.len(),
        written_blocks_only(d0, d1, i, len),
        0 <= i < FILE_COUNT,
        0 <= j < FILE_COUNT,
        i != j,
        0 <= len,
        len / 512 < BLOCKS_PER_FILE,
        0 <= size <= BLOCKS_PER_FILE * 512,
        size == 0 || file_block(j, (size - 1) / 512) < d0.len(),
    ensures
        file_bytes(d1, j, size) == file_bytes(d0, j, size),
{
    assert forall|p: int| 0 <= p < size implies #[trigger] file_bytes(d1, j, size)[p] == file_bytes(d0, j, size)[p] by {
        let k = p / 512;
        vstd::arithmetic::div_mod::lemma_div_is_ordered(p, size - 1, 512);
        assert(0 <= k < 1024);
        let b = file_block(j, k);
        assert(b < file_block(i, 0) || b > file_block(i, len / 512)) by (nonlinear_arith)
            requires
                b == 16 + j * 1024 + k,
                0 <= k < 1024,
                0 <= len / 512 < 1024,
                0 <= i < 256,
                0 <= j < 256,
                i != j,
        {
            if j < i {
                assert(j * 1024 + 1024 <= i * 1024);
            } else {
                assert(i * 1024 + 1024 <= j * 1024);
            }
        }
        assert(d1[b] == d0[b]);
    }
    assert(file_bytes(d1, j, size) =~= file_bytes(d0, j, size));
}

/// A file created under a name without zero bytes is stored under that name, so that opening
/// that name without creating finds a file (this one, or an earlier one of the same name).
pub proof fn lemma_name_after_create(blocks: Seq<Seq<u8>>, k: int, name: Seq<u8>, e: DirEntry)
    requires
        name.len() <= 24,
        forall|j: int| 0 <= j < name.len() ==> #[trigger] name[j] != 0,
        e.name@ == name + Seq::new((24 - name.len()) as nat, |j: int| 0u8),
        entry_bytes(blocks, k) == dir_entry_bytes(e),
    ensures
        stored_name(blocks, k) == name,
{
    let field = entry_bytes(blocks, k).take(24);
    assert(field =~= e.name@);
    crate::layout::lemma_first_zero(field, name.len() as int);
    assert(field.take(name.len() as int) =~= name);
}

} // verus!
