use crate::bitmap::{
    bit_is_set, bitmap_bit, free_bits, lemma_bit_decompose, lemma_free_bits_after_set,
    lemma_free_bits_finite, lemma_set_bitmap_bit_effect, set_bitmap_bit, Bitmap, BLOCK_BITS,
};
use crate::block_cache::{splice, CachedDisk};
use crate::block_dev::{zeroed_block, BlockDevice, BLOCK_SZ};
use crate::codec::le_u32;
use crate::inode::{lemma_mapping_frame, empty_inode, cleared_blocks, indirect_count, data_blocks_of, total_blocks_of, Growth, decode_inode, inode_bytes, lemma_inode_roundtrip, DiskInode, InodeView};
use crate::inode_alloc::{changes_confined, blocks_confined, old_or_fresh, owned_by, lists_block, written_bytes, lemma_write_content, lemma_write_frame, lemma_write_range, block_in_use, fresh_blocks, inode_fits, lemma_grow_fits, lemma_grow_indirect, lemma_take_block};
use crate::layout::{dirent_bytes, stored_name, readable_name, DirEntry, DIRENT_SZ, lemma_super_block_roundtrip, super_block_bytes, SuperBlock};
use vstd::prelude::*;
use vstd::string::{StringExecFns, StringSliceAdditionalSpecFns};
use vstd::utf8::encode_utf8;

verus! {

/// A block of zero bytes.
pub open spec fn zero_block() -> Seq<u8> {
    Seq::new(BLOCK_SZ as nat, |j: int| 0u8)
}

/// A zero byte has no bit set.
pub proof fn lemma_zero_byte(k: u8)
    requires
        k < 8,
    ensures
        !bit_is_set(0u8, k),
{
    assert((0u8 >> k) & 1u8 != 1u8) by (bit_vector)
        requires
            k < 8,
    ;
}

/// Writing a whole block replaces it.
pub proof fn lemma_splice_whole(x: Seq<u8>, y: Seq<u8>)
    requires
        x.len() == y.len(),
    ensures
        splice(x, 0, y) == y,
{
    assert(splice(x, 0, y) =~= y);
}

/// The bytes that a read of `len` bytes at `offset` gives from a file holding `content`: those
/// from `offset` up to the end of the read or of the file.
pub open spec fn read_window(content: Seq<u8>, offset: int, len: int) -> Seq<u8> {
    let end = vstd::math::min(offset + len, content.len() as int);
    if offset < end {
        content.subrange(offset, end)
    } else {
        Seq::empty()
    }
}

/// Number of directory entries held by the bytes of a directory.
pub open spec fn entry_count(dir: Seq<u8>) -> int {
    dir.len() as int / 32
}

/// The name stored in entry `i` of a directory.
pub open spec fn entry_name(dir: Seq<u8>, i: int) -> Seq<u8> {
    stored_name(dir.subrange(32 * i, 32 * i + 28))
}

/// The inode number stored in entry `i` of a directory.
pub open spec fn entry_inode(dir: Seq<u8>, i: int) -> int {
    le_u32(dir, 32 * i + 28)
}

/// The name field of entry `i` holds a zero byte.
pub open spec fn entry_terminated(dir: Seq<u8>, i: int) -> bool {
    let field = dir.subrange(32 * i, 32 * i + 28);
    exists|j: int| 0 <= j < field.len() && field[j] == 0
}

/// Entry `i` is the first entry of the directory named `name`.
pub open spec fn first_match(dir: Seq<u8>, name: Seq<u8>, i: int) -> bool {
    &&& 0 <= i < entry_count(dir)
    &&& entry_name(dir, i) == name
    &&& forall|j: int| 0 <= j < i ==> #[trigger] entry_name(dir, j) != name
}

/// A file system on a block device: a super block (block 0), the inode bitmap, the inode area
/// (one inode per block), the data bitmap and the data area, in that order.
pub struct FileSystem<D> {
    disk: CachedDisk<D>,
    inode_bitmap: Bitmap,
    data_bitmap: Bitmap,
    inode_area_start_block: u32,
    data_area_start_block: u32,
}

impl<D: BlockDevice> FileSystem<D> {
    /// The blocks of the device, as the file system sees them.
    pub closed spec fn view(&self) -> Seq<Seq<u8>> {
        self.disk.view()
    }

    /// The blocks stored on the device itself.
    pub closed spec fn device_blocks(&self) -> Seq<Seq<u8>> {
        self.disk.device_blocks()
    }

    pub closed spec fn inode_bitmap_blocks(&self) -> int {
        self.inode_bitmap.num_blocks() as int
    }

    pub closed spec fn inode_area_start(&self) -> int {
        self.inode_area_start_block as int
    }

    pub closed spec fn data_bitmap_start(&self) -> int {
        self.data_bitmap.start() as int
    }

    pub closed spec fn data_bitmap_blocks(&self) -> int {
        self.data_bitmap.num_blocks() as int
    }

    pub closed spec fn data_area_start(&self) -> int {
        self.data_area_start_block as int
    }

    /// The areas follow each other, every block the data bitmap can hand out lies on the
    /// device, and block ids fit in a `u32`.
    pub closed spec fn wf(&self) -> bool {
        &&& self.disk.inv()
        &&& self.inode_bitmap.start() == 1
        &&& self.inode_area_start_block == 1 + self.inode_bitmap.num_blocks()
        &&& self.inode_area_start_block < self.data_bitmap.start()
        &&& self.data_area_start_block == self.data_bitmap.start() + self.data_bitmap.num_blocks()
        &&& self.data_area_start_block + self.data_bitmap.num_blocks() * 4096 <= self.disk.view().len()
        &&& self.data_area_start_block + self.data_bitmap.num_blocks() * 4096 <= u32::MAX
        &&& self.inode_bitmap.num_blocks() * 4096 <= u32::MAX
        &&& self.inode_bitmap.num_blocks() * 4096 <= usize::MAX
        &&& self.data_bitmap.num_blocks() * 4096 <= usize::MAX
    }

    /// What a well-formed file system says of its regions and blocks.
    pub proof fn lemma_wf(&self)
        requires
            self.wf(),
        ensures
            self.disk_ok(),
            self.view().len() <= usize::MAX,
            forall|i: int| 0 <= i < self.view().len() ==> #[trigger] self.view()[i].len() == BLOCK_SZ,
            self.inode_area_start() == 1 + self.inode_bitmap_blocks(),
            self.inode_area_start() < self.data_bitmap_start(),
            self.data_area_start() == self.data_bitmap_start() + self.data_bitmap_blocks(),
            self.data_area_start() + self.data_bitmap_blocks() * 4096 <= self.view().len(),
            self.data_area_start() + self.data_bitmap_blocks() * 4096 <= u32::MAX,
            self.inode_bitmap_blocks() * 4096 <= u32::MAX,
            self.inode_bitmap_blocks() >= 0,
            self.data_bitmap_blocks() >= 0,
    {
        self.disk.lemma_inv();
    }

    /// The inode stored in block `ib`.
    pub open spec fn inode_at(&self, ib: int) -> InodeView {
        decode_inode(self.view()[ib])
    }

    /// The bytes of the file whose inode is stored in block `ib`.
    pub open spec fn file_content(&self, ib: int) -> Seq<u8> {
        let node = self.inode_at(ib);
        Seq::new(node.size as nat, |p: int| node.content(self.view(), p))
    }

    /// Every data block of the inode stored in block `ib` can be located on the device.
    pub open spec fn inode_readable(&self, ib: int) -> bool {
        let node = self.inode_at(ib);
        node.blocks_mapped(self.view(), 0, data_blocks_of(node.size as int))
    }

    /// Whether bit `c` of the inode bitmap is set.
    pub open spec fn inode_bit(&self, c: int) -> bool {
        bitmap_bit(self.view(), 1, c)
    }

    /// Whether bit `c` of the data bitmap is set.
    pub open spec fn data_bit(&self, c: int) -> bool {
        bitmap_bit(self.view(), self.data_bitmap_start(), c)
    }

    /// The data blocks not in use, by bit number.
    pub open spec fn free_data(&self) -> Set<int> {
        free_bits(self.view(), self.data_bitmap_start(), self.data_bitmap_blocks() * 4096)
    }

    /// Number of bits of the data bitmap, one per block of the data area.
    pub open spec fn data_bits(&self) -> int {
        self.data_bitmap_blocks() * 4096
    }

    /// Block `b` is a data block marked as in use.
    pub open spec fn data_block_in_use(&self, b: int) -> bool {
        block_in_use(self.view(), self.data_bitmap_start(), self.data_area_start(), self.data_bits(), b)
    }

    /// An inode whose blocks are all data blocks in use, distinct from each other, and whose
    /// unused block ids are zero.
    pub open spec fn inode_ok(&self, inode: InodeView) -> bool {
        inode_fits(self.view(), self.data_bitmap_start(), self.data_area_start(), self.data_bits(), inode)
    }

    /// The device and its cache are in a usable state; a well-formed file system always is.
    pub closed spec fn disk_ok(&self) -> bool {
        self.disk.inv()
    }

    /// The record of writes made to the device itself.
    pub closed spec fn device_writes(&self) -> Seq<usize> {
        self.disk.device_writes()
    }

    /// The directory whose inode is in block `ib` can be used: the block lies in the inode area,
    /// its inode has a bit in the inode bitmap, is taken and fits the file system, and its entries have terminated names and
    /// name inodes whose blocks fit a `u32`.
    pub open spec fn dir_ok(&self, ib: int) -> bool {
        &&& self.inode_area_start() <= ib < self.data_bitmap_start()
        &&& ib - self.inode_area_start() < self.inode_bitmap_blocks() * 4096
        &&& self.inode_bit(ib - self.inode_area_start())
        &&& self.inode_ok(self.inode_at(ib))
        &&& self.entries_ok(ib)
    }

    /// The file system is ready for use: well formed, with a usable root directory.
    pub open spec fn valid(&self) -> bool {
        &&& self.wf()
        &&& self.dir_ok(self.inode_area_start())
    }

    /// Formats the device: clears its first blocks, writes the super block, and creates the root
    /// directory as inode 0.
    #[verifier::spinoff_prover]
    #[verifier::rlimit(40)]
    pub fn create(
        block_device: D,
        inode_bitmap_block_num: u32,
        inode_area_block_num: u32,
        data_bitmap_block_num: u32,
        data_area_block_num: u32,
    ) -> (r: Self)
        requires
            block_device.inv(),
            inode_bitmap_block_num >= 1,
            inode_area_block_num >= 1,
            1 + inode_bitmap_block_num + inode_area_block_num + data_bitmap_block_num + data_area_block_num <= block_device.blocks().len(),
            inode_bitmap_block_num + inode_area_block_num + data_bitmap_block_num + data_area_block_num <= u32::MAX,
            1 + inode_bitmap_block_num + inode_area_block_num + data_bitmap_block_num <= u32::MAX,
            inode_bitmap_block_num * 4096 <= usize::MAX,
        ensures
            ({
                let data_start = 1 + inode_bitmap_block_num + inode_area_block_num + data_bitmap_block_num;
                (data_start + data_bitmap_block_num * 4096 <= block_device.blocks().len()
                    && data_start + data_bitmap_block_num * 4096 <= u32::MAX
                    && inode_bitmap_block_num * 4096 <= u32::MAX) ==> r.valid()
            }),
            r.disk_ok(),
            r.inode_bitmap_blocks() == inode_bitmap_block_num,
            r.inode_area_start() == 1 + inode_bitmap_block_num,
            r.data_bitmap_start() == 1 + inode_bitmap_block_num + inode_area_block_num,
            r.data_bitmap_blocks() == data_bitmap_block_num,
            r.data_area_start() == 1 + inode_bitmap_block_num + inode_area_block_num + data_bitmap_block_num,
            r.view().len() == block_device.blocks().len(),
            r.view()[0].subrange(0, 16) == super_block_bytes(
                inode_bitmap_block_num,
                inode_area_block_num,
                data_bitmap_block_num,
                data_area_block_num,
            ),
            r.inode_bit(0),
            forall|c: int| 0 < c < inode_bitmap_block_num * 4096 ==> !#[trigger] r.inode_bit(c),
            forall|c: int| 0 <= c < data_bitmap_block_num * 4096 ==> !#[trigger] r.data_bit(c),
            r.inode_at(r.inode_area_start()) == decode_inode(inode_bytes(0, Seq::new(63, |i: int| 0u32), Seq::new(64, |i: int| 0u32))),
            r.inode_ok(r.inode_at(r.inode_area_start())),
            r.device_blocks() == r.view(),
            forall|x: int| 1 < x <= inode_bitmap_block_num + inode_area_block_num + data_bitmap_block_num + data_area_block_num
                && x != 1 + inode_bitmap_block_num ==> #[trigger] r.view()[x] == zero_block(),
            forall|x: int| inode_bitmap_block_num + inode_area_block_num + data_bitmap_block_num + data_area_block_num < x < r.view().len()
                ==> #[trigger] r.view()[x] == block_device.blocks()[x],
    {
        let mut disk = CachedDisk::new(block_device);
        let total_block_num = inode_bitmap_block_num + inode_area_block_num + data_bitmap_block_num
            + data_area_block_num;
        let ghost d0 = disk.view();
        proof {
            disk.lemma_inv();
        }
        // clear all blocks: the super block and the four areas
        let zeros = zeroed_block();
        let mut i: usize = 0;
        while i <= total_block_num as usize
            invariant
                disk.inv(),
                disk.view().len() == d0.len(),
                total_block_num < d0.len(),
                d0.len() <= usize::MAX,
                i <= total_block_num + 1,
                zeros@ == zero_block(),
                forall|x: int| 0 <= x < d0.len() ==> #[trigger] d0[x].len() == BLOCK_SZ,
                forall|x: int| 0 <= x < d0.len() ==> #[trigger] disk.view()[x] == if x < i { zero_block() } else { d0[x] },
            decreases total_block_num + 1 - i,
        {
            disk.modify_block(i, 0, zeros.as_slice());
            proof {
                lemma_splice_whole(d0[i as int], zero_block());
            }
            i += 1;
        }
        let sb = SuperBlock::new(inode_bitmap_block_num, inode_area_block_num, data_bitmap_block_num, data_area_block_num);
        let sb_bytes = sb.to_bytes();
        disk.modify_block(0, 0, sb_bytes.as_slice());
        let ghost d1 = disk.view();
        proof {
            lemma_super_block_roundtrip(inode_bitmap_block_num, inode_area_block_num, data_bitmap_block_num, data_area_block_num);
            assert(d1[0].subrange(0, 16) =~= sb_bytes@);
            // the inode bitmap is clear
            assert forall|c: int| 0 <= c < inode_bitmap_block_num * 4096 implies !bitmap_bit(d1, 1, c) by {
                lemma_bit_decompose(c);
                vstd::arithmetic::div_mod::lemma_div_is_ordered(c, inode_bitmap_block_num * 4096 - 1, 4096);
                vstd::arithmetic::div_mod::lemma_div_multiples_vanish_fancy(inode_bitmap_block_num as int - 1, 4095, 4096);
                lemma_zero_byte((c % 8) as u8);
            }
        }
        let inode_bitmap = Bitmap::new(1, inode_bitmap_block_num as usize);
        let data_bitmap = Bitmap::new(
            (1 + inode_bitmap_block_num + inode_area_block_num) as usize,
            data_bitmap_block_num as usize,
        );
        // the root directory takes inode 0, the first clear bit of the cleared inode bitmap
        proof {
            lemma_bit_decompose(0);
            lemma_zero_byte(0u8);
            assert(!bitmap_bit(d1, 1, 0));
        }
        let root = inode_bitmap.allocate(&mut disk);
        assert(root == Some(0usize)) by {
            if root != Some(0usize) {
                assert(bitmap_bit(d1, 1, 0));
            }
        }
        let root_inode_block_id = (1 + inode_bitmap_block_num) as usize;
        let root_inode = DiskInode::new();
        let root_bytes = root_inode.to_bytes();
        let ghost d2 = disk.view();
        proof {
            disk.lemma_inv();
            lemma_splice_whole(d2[root_inode_block_id as int], root_bytes@);
        }
        disk.modify_block(root_inode_block_id, 0, root_bytes.as_slice());
        let ghost d3 = disk.view();
        let ghost c3 = disk;
        disk.sync_all();
        let efs = Self {
            disk,
            inode_bitmap,
            data_bitmap,
            inode_area_start_block: 1 + inode_bitmap_block_num,
            data_area_start_block: 1 + inode_bitmap_block_num + inode_area_block_num + data_bitmap_block_num,
        };
        proof {
            efs.disk.lemma_inv();
            let zd = Seq::new(63, |i: int| 0u32);
            let zi = Seq::new(64, |i: int| 0u32);
            assert(root_inode.direct@ =~= zd);
            assert(root_inode.indirect@ =~= zi);
            lemma_inode_roundtrip(0, zd, zi);
            assert(d3[root_inode_block_id as int] == root_bytes@);
            lemma_set_bitmap_bit_effect(d1, 1, 0, true, 0);
            assert forall|c: int| 0 < c < inode_bitmap_block_num * 4096 implies !#[trigger] efs.inode_bit(c) by {
                lemma_bit_decompose(c);
                vstd::arithmetic::div_mod::lemma_div_is_ordered(c, inode_bitmap_block_num * 4096 - 1, 4096);
                vstd::arithmetic::div_mod::lemma_div_multiples_vanish_fancy(inode_bitmap_block_num as int - 1, 4095, 4096);
                lemma_set_bitmap_bit_effect(d1, 1, 0, true, c);
                lemma_zero_byte((c % 8) as u8);
                assert(d3[1 + c / 4096] == d2[1 + c / 4096]);
            }
            assert(efs.inode_bit(0)) by {
                assert(d3[1] == d2[1]);
            }
            let dbm = 1 + inode_bitmap_block_num + inode_area_block_num;
            assert forall|c: int| 0 <= c < data_bitmap_block_num * 4096 implies !#[trigger] efs.data_bit(c) by {
                lemma_bit_decompose(c);
                vstd::arithmetic::div_mod::lemma_div_is_ordered(c, data_bitmap_block_num * 4096 - 1, 4096);
                vstd::arithmetic::div_mod::lemma_div_multiples_vanish_fancy(data_bitmap_block_num as int - 1, 4095, 4096);
                lemma_zero_byte((c % 8) as u8);
                assert(d3[dbm + c / 4096] == d2[dbm + c / 4096]);
                assert(d2[dbm + c / 4096] == d1[dbm + c / 4096]);
            }
            assert forall|x: int| 1 < x < d0.len() && x != 1 + inode_bitmap_block_num implies #[trigger] efs.view()[x] == d1[x] by {
                lemma_set_bitmap_bit_effect(d1, 1, 0, true, x);
                assert(d3[x] == d2[x]);
            }
            assert(efs.inode_at(efs.inode_area_start()).blocks_mapped(d3, 0, 0));
            assert(efs.root_dir() =~= Seq::<u8>::empty());
        }
        efs
    }

    /// Opens the file system stored on a block device, as its super block describes it.
    pub fn open(block_device: D) -> (r: Self)
        requires
            block_device.inv(),
            block_device.blocks().len() > 0,
            ({
                let b = block_device.blocks()[0];
                &&& le_u32(b, 0) + le_u32(b, 4) <= u32::MAX
                &&& 1 + le_u32(b, 0) + le_u32(b, 4) + le_u32(b, 8) <= u32::MAX
            }),
        ensures
            ({
                let b = block_device.blocks()[0];
                &&& r.view() == block_device.blocks()
                &&& r.inode_bitmap_blocks() == le_u32(b, 0)
                &&& r.inode_area_start() == 1 + le_u32(b, 0)
                &&& r.data_bitmap_start() == 1 + le_u32(b, 0) + le_u32(b, 4)
                &&& r.data_bitmap_blocks() == le_u32(b, 8)
                &&& r.data_area_start() == 1 + le_u32(b, 0) + le_u32(b, 4) + le_u32(b, 8)
                &&& r.device_blocks() == block_device.blocks()
                &&& r.device_writes() == block_device.writes()
                &&& (r.data_area_start() + r.data_bitmap_blocks() * 4096 <= block_device.blocks().len()
                    && r.data_area_start() + r.data_bitmap_blocks() * 4096 <= u32::MAX
                    && r.inode_bitmap_blocks() * 4096 <= u32::MAX
                    && r.inode_bitmap_blocks() * 4096 <= usize::MAX
                    && r.inode_area_start() < r.data_bitmap_start()) ==> r.wf()
            }),
    {
        let mut disk = CachedDisk::new(block_device);
        proof {
            disk.lemma_inv();
        }
        let block = disk.read_block(0);
        let super_block = SuperBlock::from_bytes(block.as_slice());
        let inode_total_blocks = super_block.inode_bitmap_block_num + super_block.inode_area_block_num;
        Self {
            disk,
            inode_bitmap: Bitmap::new(1, super_block.inode_bitmap_block_num as usize),
            data_bitmap: Bitmap::new(
                (1 + inode_total_blocks) as usize,
                super_block.data_bitmap_block_num as usize,
            ),
            inode_area_start_block: 1 + super_block.inode_bitmap_block_num,
            data_area_start_block: 1 + inode_total_blocks + super_block.data_bitmap_block_num,
        }
    }

    /// The block that holds inode `inode_id`.
    pub fn get_inode_block_id(&self, inode_id: u32) -> (r: u32)
        requires
            self.inode_area_start() + inode_id <= u32::MAX,
        ensures
            r == self.inode_area_start() + inode_id,
    {
        self.inode_area_start_block + inode_id
    }

    /// Allocates an inode: sets the first clear bit of the inode bitmap and returns its number.
    pub fn alloc_inode(&mut self) -> (r: u32)
        requires
            old(self).wf(),
            exists|c: int| 0 <= c < old(self).inode_bitmap_blocks() * 4096 && !#[trigger] old(self).inode_bit(c),
        ensures
            final(self).wf(),
            ({
                let b = r as int;
                &&& 0 <= b < old(self).inode_bitmap_blocks() * 4096
                &&& !old(self).inode_bit(b)
                &&& forall|c: int| 0 <= c < b ==> #[trigger] old(self).inode_bit(c)
                &&& final(self).view() == set_bitmap_bit(old(self).view(), 1, b, true)
            }),
            final(self).inode_bitmap_blocks() == old(self).inode_bitmap_blocks(),
            final(self).inode_area_start() == old(self).inode_area_start(),
            final(self).data_bitmap_start() == old(self).data_bitmap_start(),
            final(self).data_bitmap_blocks() == old(self).data_bitmap_blocks(),
            final(self).data_area_start() == old(self).data_area_start(),
    {
        proof {
            self.lemma_wf();
        }
        let b = self.inode_bitmap.allocate(&mut self.disk);
        proof {
            if b is None {
                let c = choose|c: int| 0 <= c < old(self).inode_bitmap_blocks() * 4096 && !#[trigger] old(self).inode_bit(c);
                assert(bitmap_bit(old(self).view(), 1, c));
            }
        }
        b.unwrap() as u32
    }

    /// Allocates a data block: marks the first clear bit of the data bitmap and returns the
    /// data block it stands for.
    pub fn alloc_data(&mut self) -> (r: u32)
        requires
            old(self).wf(),
            old(self).free_data().len() > 0,
        ensures
            final(self).wf(),
            ({
                let b = r - old(self).data_area_start();
                &&& 0 <= b < old(self).data_bitmap_blocks() * 4096
                &&& !old(self).data_bit(b)
                &&& forall|c: int| 0 <= c < b ==> #[trigger] old(self).data_bit(c)
                &&& final(self).view() == set_bitmap_bit(old(self).view(), old(self).data_bitmap_start(), b, true)
                &&& final(self).free_data() == old(self).free_data().remove(b)
                &&& final(self).free_data().len() + 1 == old(self).free_data().len()
            }),
            final(self).inode_bitmap_blocks() == old(self).inode_bitmap_blocks(),
            final(self).inode_area_start() == old(self).inode_area_start(),
            final(self).data_bitmap_start() == old(self).data_bitmap_start(),
            final(self).data_bitmap_blocks() == old(self).data_bitmap_blocks(),
            final(self).data_area_start() == old(self).data_area_start(),
    {
        proof {
            self.lemma_wf();
            lemma_free_bits_finite(self.view(), self.data_bitmap_start(), self.data_bitmap_blocks() * 4096);
        }
        let b = self.data_bitmap.allocate(&mut self.disk);
        proof {
            if b is None {
                let c = old(self).free_data().choose();
                assert(old(self).free_data().contains(c));
                assert(bitmap_bit(old(self).view(), old(self).data_bitmap_start(), c));
            }
        }
        let b = b.unwrap();
        proof {
            lemma_free_bits_after_set(old(self).view(), self.data_bitmap_start(), self.data_bitmap_blocks() * 4096, b as int);
        }
        b as u32 + self.data_area_start_block
    }

    /// Releases data block `block_id`: zeroes it and clears its bit.
    pub fn dealloc_data(&mut self, block_id: u32)
        requires
            old(self).wf(),
            old(self).data_area_start() <= block_id < old(self).view().len(),
            old(self).data_bitmap_start() + (block_id - old(self).data_area_start()) / 4096 < old(self).view().len(),
        ensures
            final(self).wf(),
            final(self).view() == set_bitmap_bit(
                old(self).view().update(block_id as int, zero_block()),
                old(self).data_bitmap_start(),
                block_id - old(self).data_area_start(),
                false,
            ),
            final(self).inode_bitmap_blocks() == old(self).inode_bitmap_blocks(),
            final(self).inode_area_start() == old(self).inode_area_start(),
            final(self).data_bitmap_start() == old(self).data_bitmap_start(),
            final(self).data_bitmap_blocks() == old(self).data_bitmap_blocks(),
            final(self).data_area_start() == old(self).data_area_start(),
    {
        proof {
            self.lemma_wf();
        }
        let zeros = zeroed_block();
        self.disk.modify_block(block_id as usize, 0, zeros.as_slice());
        proof {
            lemma_splice_whole(old(self).view()[block_id as int], zero_block());
        }
        self.data_bitmap.dealloc(&mut self.disk, (block_id - self.data_area_start_block) as usize);
    }

    /// The inode stored in block `ib`.
    pub fn read_disk_inode(&mut self, ib: usize) -> (r: DiskInode)
        requires
            old(self).wf(),
            ib < old(self).view().len(),
        ensures
            final(self).wf(),
            final(self).view() == old(self).view(),
            *final(self) == *old(self) || final(self).view() == old(self).view(),
            final(self).inode_bitmap_blocks() == old(self).inode_bitmap_blocks(),
            final(self).inode_area_start() == old(self).inode_area_start(),
            final(self).data_bitmap_start() == old(self).data_bitmap_start(),
            final(self).data_bitmap_blocks() == old(self).data_bitmap_blocks(),
            final(self).data_area_start() == old(self).data_area_start(),
            r@ == old(self).inode_at(ib as int),
    {
        proof {
            self.lemma_wf();
        }
        let bytes = self.disk.read_block(ib);
        DiskInode::from_bytes(bytes.as_slice())
    }

    /// Stores `inode` in block `ib`.
    pub fn write_disk_inode(&mut self, ib: usize, inode: &DiskInode)
        requires
            old(self).wf(),
            ib < old(self).view().len(),
        ensures
            final(self).wf(),
            final(self).view() == old(self).view().update(ib as int, inode_bytes(inode.size, inode.direct@, inode.indirect@)),
            final(self).inode_at(ib as int) == inode@,
            final(self).inode_bitmap_blocks() == old(self).inode_bitmap_blocks(),
            final(self).inode_area_start() == old(self).inode_area_start(),
            final(self).data_bitmap_start() == old(self).data_bitmap_start(),
            final(self).data_bitmap_blocks() == old(self).data_bitmap_blocks(),
            final(self).data_area_start() == old(self).data_area_start(),
    {
        proof {
            self.lemma_wf();
        }
        let bytes = inode.to_bytes();
        proof {
            lemma_inode_roundtrip(inode.size, inode.direct@, inode.indirect@);
            lemma_splice_whole(old(self).view()[ib as int], bytes@);
        }
        self.disk.modify_block(ib, 0, bytes.as_slice());
    }

    /// Grows `inode` to `new_size` bytes, taking the blocks it needs from the data area; a
    /// smaller `new_size` leaves everything as it is.
    #[verifier::spinoff_prover]
    fn increase_size(&mut self, new_size: u32, inode: &mut DiskInode)
        requires
            old(self).wf(),
            old(self).inode_ok(old(inode)@),
            new_size + 512 <= u32::MAX,
            new_size >= old(inode).size ==> {
                &&& (Growth { c0: data_blocks_of(old(inode).size as int), t: data_blocks_of(new_size as int) }).wf()
                &&& old(self).free_data().len() >= total_blocks_of(new_size as int) - total_blocks_of(old(inode).size as int)
            },
        ensures
            final(self).wf(),
            final(self).inode_bitmap_blocks() == old(self).inode_bitmap_blocks(),
            final(self).inode_area_start() == old(self).inode_area_start(),
            final(self).data_bitmap_start() == old(self).data_bitmap_start(),
            final(self).data_bitmap_blocks() == old(self).data_bitmap_blocks(),
            final(self).data_area_start() == old(self).data_area_start(),
            final(self).view().len() == old(self).view().len(),
            new_size < old(inode).size ==> *final(inode) == *old(inode) && final(self).view() == old(self).view(),
            new_size >= old(inode).size ==> final(inode).size == new_size,
            final(self).inode_ok(final(inode)@),
            forall|p: int| 0 <= p < old(inode).size ==> #[trigger] final(inode)@.content(final(self).view(), p) == old(inode)@.content(old(self).view(), p),
            forall|b: int| 0 <= b < old(self).data_bitmap_start() ==> #[trigger] final(self).view()[b] == old(self).view()[b],
            changes_confined(old(self).view(), final(self).view(), old(self).data_bitmap_start(), old(self).data_area_start(), old(self).data_bits(), old(inode)@),
            blocks_confined(old(self).view(), final(self).view(), old(self).data_bitmap_start(), old(self).data_area_start(), old(self).data_bits(), old(inode)@, final(inode)@),
            forall|i: int| 0 <= i < indirect_count(data_blocks_of(final(inode).size as int)) ==> #[trigger] old_or_fresh(
                old(self).view(), old(self).data_bitmap_start(), old(self).data_area_start(), old(self).data_bits(), old(inode)@,
                final(inode)@.indirect[i] as int,
            ),
            forall|c: int| 0 <= c < old(self).data_bits() && #[trigger] old(self).data_bit(c) ==> final(self).data_bit(c),
    {
        if new_size < inode.size {
            proof {
                crate::inode_alloc::lemma_owned_self(inode@, self.view());
            }
            return;
        }
        proof {
            self.lemma_wf();
            crate::inode::lemma_total_blocks_monotonic(old(inode).size as int, new_size as int);
        }
        let ghost v0 = self.view();
        let ghost dbs = self.data_bitmap_start();
        let ghost das = self.data_area_start();
        let ghost nbits = self.data_bits();
        let needed = inode.blocks_num_needed(new_size);
        let mut v: Vec<u32> = Vec::new();
        let mut i: u32 = 0;
        while i < needed
            invariant
                self.wf(),
                self.inode_bitmap_blocks() == old(self).inode_bitmap_blocks(),
                self.inode_area_start() == old(self).inode_area_start(),
                self.data_bitmap_start() == dbs,
                self.data_bitmap_blocks() == old(self).data_bitmap_blocks(),
                self.data_area_start() == das,
                self.data_bits() == nbits,
                v0 == old(self).view(),
                self.view().len() == v0.len(),
                forall|x: int| 0 <= x < self.view().len() ==> #[trigger] self.view()[x].len() == 512,
                i <= needed,
                v@.len() == i,
                self.free_data().len() + i == old(self).free_data().len(),
                old(self).free_data().len() >= needed,
                fresh_blocks(v0, self.view(), dbs, das, nbits, v@),
                forall|c: int| 0 <= c < nbits && #[trigger] bitmap_bit(v0, dbs, c) ==> bitmap_bit(self.view(), dbs, c),
                forall|x: int| 0 <= x < v0.len() && !(dbs <= x < das) ==> #[trigger] self.view()[x] == v0[x],
            decreases needed - i,
        {
            let ghost va = self.view();
            proof {
                self.lemma_wf();
            }
            let b = self.alloc_data();
            proof {
                lemma_take_block(v0, va, dbs, das, nbits, v@, b);
                self.lemma_wf();
            }
            v.push(b);
            i += 1;
        }
        proof {
            self.lemma_wf();
        }
        let ghost v1 = self.view();
        let ghost g = Growth { c0: data_blocks_of(inode.size as int), t: data_blocks_of(new_size as int) };
        let ghost old_i = inode@;
        let ghost nb = v@;
        proof {
            g.lemma_positions();
            lemma_grow_indirect(v0, v1, dbs, das, nbits, old_i, InodeView {
                size: new_size,
                direct: old_i.direct,
                indirect: Seq::new(64, |x: int| if g.takes_ptr(x) { nb[g.base(x)] } else { old_i.indirect[x] }),
            }, nb, g);
            if g.t > 63 {
                assert forall|x: int| g.i0() <= x <= g.i1() implies if g.js(x) == 0 {
                    nb[g.base(x)] < v1.len()
                } else {
                    old_i.indirect[x] < v1.len()
                } by {
                    if g.js(x) == 0 {
                        assert(g.takes_ptr(x));
                        assert(das <= nb[g.base(x)] < das + nbits);
                    } else {
                        assert(x < indirect_count(g.c0));
                        assert(block_in_use(v0, dbs, das, nbits, old_i.indirect[x] as int));
                    }
                }
            }
        }
        inode.increase_size(new_size, v, &mut self.disk);
        proof {
            self.lemma_wf();
            lemma_grow_fits(v0, v1, self.view(), dbs, das, nbits, old_i, inode@, nb, g);
            crate::inode_alloc::lemma_grow_frame(v0, v1, self.view(), dbs, das, nbits, old_i, inode@, nb, g);
            assert(self.free_data() =~= free_bits(v1, dbs, nbits));
        }
    }


    /// Reads the file whose inode is in block `inode_block_id` from `offset` on into `buf`, up to
    /// the end of the file, and returns how many bytes were read.
    pub fn read_at(&mut self, inode_block_id: usize, offset: usize, buf: &mut [u8]) -> (r: usize)
        requires
            old(self).wf(),
            inode_block_id < old(self).view().len(),
            old(self).inode_readable(inode_block_id as int),
            offset + old(buf)@.len() <= usize::MAX,
        ensures
            final(self).wf(),
            final(self).view() == old(self).view(),
            final(self).inode_bitmap_blocks() == old(self).inode_bitmap_blocks(),
            final(self).inode_area_start() == old(self).inode_area_start(),
            final(self).data_bitmap_start() == old(self).data_bitmap_start(),
            final(self).data_bitmap_blocks() == old(self).data_bitmap_blocks(),
            final(self).data_area_start() == old(self).data_area_start(),
            final(buf)@.len() == old(buf)@.len(),
            r == read_window(old(self).file_content(inode_block_id as int), offset as int, old(buf)@.len() as int).len(),
            final(buf)@.take(r as int) == read_window(old(self).file_content(inode_block_id as int), offset as int, old(buf)@.len() as int),
            forall|i: int| r <= i < old(buf)@.len() ==> #[trigger] final(buf)@[i] == old(buf)@[i],
    {
        let inode = self.read_disk_inode(inode_block_id);
        let ghost size = inode.size as int;
        let ghost end = vstd::math::min(offset + old(buf)@.len(), size);
        proof {
            if offset < end {
                vstd::arithmetic::div_mod::lemma_div_is_ordered(end - 1, size + 511, 512);
                vstd::arithmetic::div_mod::lemma_fundamental_div_mod(size + 511, 512);
                vstd::arithmetic::div_mod::lemma_fundamental_div_mod(end - 1, 512);
                assert forall|k: int| offset as int / 512 <= k < (end - 1) / 512 + 1 implies #[trigger] inode@.block_mapped(self.view(), k) by {
                    assert(inode@.block_mapped(self.view(), k));
                }
            }
        }
        let r = inode.read_at(offset, buf, &mut self.disk);
        proof {
            let w = read_window(old(self).file_content(inode_block_id as int), offset as int, old(buf)@.len() as int);
            assert(buf@.take(r as int) =~= w);
        }
        r
    }


    /// What a write of `len` bytes at `offset` asks of the file whose inode is in block `ib`:
    /// the position fits a `u32`, and a growth is one the file system can carry out with the
    /// data blocks it has free.
    #[verifier::opaque]
    pub open spec fn write_fits(&self, ib: int, offset: int, len: int) -> bool {
        let size = self.inode_at(ib).size as int;
        let ns = offset + len;
        &&& ns + 512 <= u32::MAX
        &&& ns >= size ==> {
            &&& (Growth { c0: data_blocks_of(size), t: data_blocks_of(ns) }).wf()
            &&& self.free_data().len() >= total_blocks_of(ns) - total_blocks_of(size)
        }
    }

    /// Writes `buf` into the file whose inode is in block `inode_block_id` at `offset`, growing
    /// the file as needed, writes everything back to the device, and returns the number of
    /// bytes written.
    pub fn write_at(&mut self, inode_block_id: usize, offset: usize, buf: &[u8]) -> (r: usize)
        requires
            old(self).wf(),
            old(self).inode_area_start() <= inode_block_id < old(self).data_bitmap_start(),
            old(self).inode_ok(old(self).inode_at(inode_block_id as int)),
            old(self).write_fits(inode_block_id as int, offset as int, buf@.len() as int),
        ensures
            final(self).wf(),
            final(self).inode_bitmap_blocks() == old(self).inode_bitmap_blocks(),
            final(self).inode_area_start() == old(self).inode_area_start(),
            final(self).data_bitmap_start() == old(self).data_bitmap_start(),
            final(self).data_bitmap_blocks() == old(self).data_bitmap_blocks(),
            final(self).data_area_start() == old(self).data_area_start(),
            final(self).view().len() == old(self).view().len(),
            r == buf@.len(),
            written_bytes(
                old(self).file_content(inode_block_id as int),
                final(self).file_content(inode_block_id as int),
                offset as int,
                buf@,
            ),
            final(self).inode_ok(final(self).inode_at(inode_block_id as int)),
            forall|b: int| 0 <= b < old(self).data_bitmap_start() && b != inode_block_id ==> #[trigger] final(self).view()[b] == old(self).view()[b],
            forall|b: int| 0 <= b < old(self).view().len() && final(self).view()[b] != old(self).view()[b]
                ==> b == inode_block_id || (old(self).data_bitmap_start() <= b < old(self).data_area_start())
                || #[trigger] old_or_fresh(old(self).view(), old(self).data_bitmap_start(), old(self).data_area_start(), old(self).data_bits(), old(self).inode_at(inode_block_id as int), b),
            forall|c: int| 0 <= c < old(self).data_bits() && #[trigger] old(self).data_bit(c) ==> final(self).data_bit(c),
            final(self).device_blocks() == final(self).view(),
    {
        let ib = inode_block_id;
        proof {
            reveal(FileSystem::write_fits);
            self.lemma_wf();
        }
        let ghost v0 = self.view();
        let ghost dbs = self.data_bitmap_start();
        let ghost das = self.data_area_start();
        let ghost nbits = self.data_bits();
        let mut inode = self.read_disk_inode(ib);
        let ghost i0 = inode@;
        let ghost s0 = *self;
        self.increase_size((offset + buf.len()) as u32, &mut inode);
        let ghost v1 = self.view();
        let ghost i1 = inode@;
        let ghost s1 = *self;
        let ghost size1 = inode.size as int;
        let ghost d1 = data_blocks_of(size1);
        let r = if buf.len() == 0 {
            // A write of nothing changes no byte: no block is touched.
            0
        } else {
            proof {
                self.lemma_wf();
                lemma_write_range(v1, dbs, das, nbits, i1, offset as int, buf@.len() as int, i0.size as int);
            }
            inode.write_at(offset, buf, &mut self.disk)
        };
        let ghost v2 = self.view();
        proof {
            self.lemma_wf();
            lemma_write_frame(v1, v2, dbs, das, nbits, i1, offset as int, buf@.len() as int);
        }
        self.write_disk_inode(ib, &inode);
        let ghost v3 = self.view();
        proof {
            self.lemma_wf();
            assert forall|i: int| 0 <= i < indirect_count(data_blocks_of(i1.size as int)) implies #[trigger] v3[i1.indirect[i] as int] == v2[i1.indirect[i] as int] by {
                assert(block_in_use(v2, dbs, das, nbits, i1.indirect[i] as int));
            }
            crate::inode_alloc::lemma_fits_frame(v2, v3, dbs, das, nbits, i1);
            assert(self.inode_at(ib as int) == i1);
            lemma_write_content(v0, v1, v2, v3, dbs, das, nbits, i0, i1, offset as int, buf@);
            assert(self.file_content(ib as int) =~= Seq::new(i1.size as nat, |p: int| i1.content(v3, p)));
            crate::inode_alloc::lemma_write_changes(v0, v1, v2, v3, dbs, das, nbits, i0, i1, ib as int, offset as int, buf@.len() as int);
            assert forall|c: int| 0 <= c < nbits && #[trigger] old(self).data_bit(c) implies self.data_bit(c) by {
                vstd::arithmetic::div_mod::lemma_multiply_divide_lt(c, 4096, das - dbs);
                assert(s0.data_bit(c));
                assert(s1.data_bit(c));
                assert(v3[dbs + c / 4096] == v1[dbs + c / 4096]);
            }
        }
        self.disk.sync_all();
        r
    }


    /// Zeroes the data blocks `blocks` and clears their bits.
    fn release_blocks(&mut self, blocks: &Vec<u32>)
        requires
            old(self).wf(),
            forall|x: int| 0 <= x < blocks@.len() ==> #[trigger] old(self).data_block_in_use(blocks@[x] as int),
        ensures
            final(self).wf(),
            final(self).inode_bitmap_blocks() == old(self).inode_bitmap_blocks(),
            final(self).inode_area_start() == old(self).inode_area_start(),
            final(self).data_bitmap_start() == old(self).data_bitmap_start(),
            final(self).data_bitmap_blocks() == old(self).data_bitmap_blocks(),
            final(self).data_area_start() == old(self).data_area_start(),
            final(self).view().len() == old(self).view().len(),
            forall|c: int| 0 <= c < old(self).data_bits() ==> #[trigger] final(self).data_bit(c)
                == (old(self).data_bit(c) && !lists_block(blocks@, blocks@.len() as int, c + old(self).data_area_start())),
            forall|x: int| 0 <= x < old(self).data_bitmap_start() ==> #[trigger] final(self).view()[x] == old(self).view()[x],
            forall|x: int| old(self).data_area_start() <= x < old(self).view().len() && final(self).view()[x] != old(self).view()[x]
                ==> #[trigger] lists_block(blocks@, blocks@.len() as int, x),
            forall|x: int| 0 <= x < blocks@.len() ==> #[trigger] final(self).view()[blocks@[x] as int] == zero_block(),
    {
        proof {
            self.lemma_wf();
        }
        let ghost v0 = self.view();
        let ghost dbs = self.data_bitmap_start();
        let ghost das = self.data_area_start();
        let ghost nbits = self.data_bits();
        assert forall|x: int| 0 <= x < blocks@.len() implies #[trigger] block_in_use(v0, dbs, das, nbits, blocks@[x] as int) by {
            assert(old(self).data_block_in_use(blocks@[x] as int));
        }
        let mut j: usize = 0;
        while j < blocks.len()
            invariant
                self.wf(),
                self.inode_bitmap_blocks() == old(self).inode_bitmap_blocks(),
                self.inode_area_start() == old(self).inode_area_start(),
                self.data_bitmap_start() == dbs,
                self.data_bitmap_blocks() == old(self).data_bitmap_blocks(),
                self.data_area_start() == das,
                self.data_bits() == nbits,
                v0 == old(self).view(),
                0 < dbs <= das,
                nbits == 4096 * (das - dbs),
                das + nbits <= v0.len(),
                self.view().len() == v0.len(),
                j <= blocks@.len(),
                forall|x: int| 0 <= x < blocks@.len() ==> #[trigger] block_in_use(v0, dbs, das, nbits, blocks@[x] as int),
                forall|c: int| 0 <= c < nbits ==> #[trigger] bitmap_bit(self.view(), dbs, c) == (bitmap_bit(v0, dbs, c) && !lists_block(blocks@, j as int, c + das)),
                forall|x: int| 0 <= x < dbs ==> #[trigger] self.view()[x] == v0[x],
                forall|x: int| das <= x < v0.len() && self.view()[x] != v0[x] ==> #[trigger] lists_block(blocks@, j as int, x),
                forall|x: int| 0 <= x < j ==> #[trigger] self.view()[blocks@[x] as int] == zero_block(),
            decreases blocks@.len() - j,
        {
            let ghost va = self.view();
            let b = blocks[j];
            proof {
                self.lemma_wf();
                assert(block_in_use(v0, dbs, das, nbits, b as int));
            }
            self.dealloc_data(b);
            proof {
                self.lemma_wf();
                crate::inode_alloc::lemma_release_step(va, self.view(), dbs, das, nbits, zero_block(), b as int);
                assert forall|c: int| 0 <= c < nbits implies #[trigger] bitmap_bit(self.view(), dbs, c) == (bitmap_bit(v0, dbs, c) && !lists_block(blocks@, j + 1, c + das)) by {
                    if lists_block(blocks@, j + 1, c + das) && !lists_block(blocks@, j as int, c + das) {
                        let x = choose|x: int| 0 <= x < j + 1 && blocks@[x] == c + das;
                        assert(x == j);
                    }
                    if lists_block(blocks@, j as int, c + das) {
                        let x = choose|x: int| 0 <= x < j && blocks@[x] == c + das;
                        assert(0 <= x < j + 1 && blocks@[x] == c + das);
                    }
                    if c == b - das {
                        assert(0 <= j < j + 1 && blocks@[j as int] == c + das);
                    }
                }
                assert forall|x: int| das <= x < v0.len() && self.view()[x] != v0[x] implies #[trigger] lists_block(blocks@, j + 1, x) by {
                    if x == b {
                        assert(0 <= j < j + 1 && blocks@[j as int] == x);
                    } else {
                        assert(self.view()[x] == va[x]);
                        assert(va[x] != v0[x]);
                        assert(lists_block(blocks@, j as int, x));
                        let y = choose|y: int| 0 <= y < j && blocks@[y] == x;
                        assert(0 <= y < j + 1 && blocks@[y] == x);
                    }
                }
                assert forall|x: int| 0 <= x < j + 1 implies #[trigger] self.view()[blocks@[x] as int] == zero_block() by {
                    if x < j && blocks@[x] != b {
                        assert(block_in_use(v0, dbs, das, nbits, blocks@[x] as int));
                        assert(self.view()[blocks@[x] as int] == va[blocks@[x] as int]);
                    }
                }
            }
            j += 1;
        }
    }

    /// Empties the file whose inode is in block `inode_block_id`: its size becomes zero, and its
    /// data blocks and indirect blocks are zeroed and released; everything is written back.
    #[verifier::spinoff_prover]
    pub fn clear(&mut self, inode_block_id: usize)
        requires
            old(self).wf(),
            old(self).inode_area_start() <= inode_block_id < old(self).data_bitmap_start(),
            old(self).inode_ok(old(self).inode_at(inode_block_id as int)),
            data_blocks_of(old(self).inode_at(inode_block_id as int).size as int) > 63 ==> (data_blocks_of(old(self).inode_at(inode_block_id as int).size as int) - 63) / 128 < 64,
        ensures
            final(self).wf(),
            final(self).inode_bitmap_blocks() == old(self).inode_bitmap_blocks(),
            final(self).inode_area_start() == old(self).inode_area_start(),
            final(self).data_bitmap_start() == old(self).data_bitmap_start(),
            final(self).data_bitmap_blocks() == old(self).data_bitmap_blocks(),
            final(self).data_area_start() == old(self).data_area_start(),
            final(self).view().len() == old(self).view().len(),
            final(self).file_content(inode_block_id as int) == Seq::<u8>::empty(),
            final(self).inode_ok(final(self).inode_at(inode_block_id as int)),
            ({
                let node = old(self).inode_at(inode_block_id as int);
                let released = cleared_blocks(old(self).view(), node.direct, node.indirect, data_blocks_of(node.size as int));
                &&& forall|c: int| 0 <= c < final(self).data_bits() ==> #[trigger] final(self).data_bit(c)
                    == (old(self).data_bit(c) && !lists_block(released, released.len() as int, c + old(self).data_area_start()))
                &&& released.len() == total_blocks_of(node.size as int)
                &&& forall|x: int| 0 <= x < released.len() ==> #[trigger] final(self).view()[released[x] as int] == zero_block()
            }),
            forall|b: int| 0 <= b < old(self).data_bitmap_start() && b != inode_block_id ==> #[trigger] final(self).view()[b] == old(self).view()[b],
            forall|b: int| 0 <= b < old(self).view().len() && final(self).view()[b] != old(self).view()[b]
                ==> b == inode_block_id || (old(self).data_bitmap_start() <= b < old(self).data_area_start())
                || #[trigger] owned_by(old(self).inode_at(inode_block_id as int), old(self).view(), b),
            final(self).device_blocks() == final(self).view(),
    {
        let ib = inode_block_id;
        proof {
            self.lemma_wf();
        }
        let ghost v0 = self.view();
        let ghost dbs = self.data_bitmap_start();
        let ghost das = self.data_area_start();
        let ghost nbits = self.data_bits();
        let mut inode = self.read_disk_inode(ib);
        let ghost i0 = inode@;
        proof {
            let d = data_blocks_of(i0.size as int);
            if d > 63 {
                crate::inode::lemma_indirect_count_exact(d);
                assert forall|i: int| 0 <= i < indirect_count(d) implies #[trigger] i0.indirect[i] < v0.len() by {
                    assert(block_in_use(v0, dbs, das, nbits, i0.indirect[i] as int));
                }
            }
        }
        let blocks = inode.clear_size(&mut self.disk);
        proof {
            crate::inode_alloc::lemma_cleared_in_use(v0, dbs, das, nbits, i0);
            assert forall|x: int| 0 <= x < blocks@.len() implies #[trigger] self.data_block_in_use(blocks@[x] as int) by {
                assert(block_in_use(v0, dbs, das, nbits, blocks@[x] as int));
            }
        }
        let ghost pre = *self;
        self.release_blocks(&blocks);
        let ghost mid = *self;
        let ghost v1 = self.view();
        self.write_disk_inode(ib, &inode);
        proof {
            self.lemma_wf();
            lemma_cleared_inode_fits(self.view(), dbs, das, nbits, i0, inode@);
            assert(self.inode_at(ib as int) == inode@);
            assert(self.file_content(ib as int) =~= Seq::<u8>::empty());
        }
        let ghost v2 = self.view();
        self.disk.sync_all();
        proof {
            assert forall|x: int| 0 <= x < blocks@.len() implies #[trigger] self.view()[blocks@[x] as int] == zero_block() by {
                assert(block_in_use(v0, dbs, das, nbits, blocks@[x] as int));
                assert(v1[blocks@[x] as int] == zero_block());
                assert(v2[blocks@[x] as int] == v1[blocks@[x] as int]);
            }
            assert forall|c: int| 0 <= c < nbits implies #[trigger] self.data_bit(c) == (old(self).data_bit(c) && !lists_block(blocks@, blocks@.len() as int, c + das)) by {
                vstd::arithmetic::div_mod::lemma_multiply_divide_lt(c, 4096, das - dbs);
                assert(v2[dbs + c / 4096] == v1[dbs + c / 4096]);
                assert(mid.data_bit(c) == (pre.data_bit(c) && !lists_block(blocks@, blocks@.len() as int, c + das)));
            }
            assert(pre.view() == v0);
            crate::inode_alloc::lemma_cleared_in_use(v0, dbs, das, nbits, i0);
            lemma_clear_changes(v0, v1, self.view(), dbs, das, nbits, i0, blocks@, ib as int);
        }
    }
}

/// Going from `fs0` to `fs1` wrote to the file whose inode is in block `ib`: no other block
/// before the data bitmap changed, a changed block is `ib`, a data-bitmap block, or one that
/// belonged to the file or was free, and no data bit in use was freed.
#[verifier::opaque]
pub open spec fn write_confined<D: BlockDevice>(fs0: FileSystem<D>, fs1: FileSystem<D>, ib: int) -> bool {
    &&& forall|b: int| 0 <= b < fs0.data_bitmap_start() && b != ib ==> #[trigger] fs1.view()[b] == fs0.view()[b]
    &&& forall|b: int| 0 <= b < fs0.view().len() && fs1.view()[b] != fs0.view()[b]
        ==> b == ib || (fs0.data_bitmap_start() <= b < fs0.data_area_start())
        || #[trigger] old_or_fresh(fs0.view(), fs0.data_bitmap_start(), fs0.data_area_start(), fs0.data_bits(), fs0.inode_at(ib), b)
    &&& forall|k: int| 0 <= k < fs0.data_bits() && #[trigger] fs0.data_bit(k) ==> fs1.data_bit(k)
}

/// Going from `fs0` to `fs1` took inode `c`: every other inode bit stays, and the only blocks
/// changed are those of the inode bitmap and the new inode.
#[verifier::opaque]
pub open spec fn new_inode_confined<D: BlockDevice>(fs0: FileSystem<D>, fs1: FileSystem<D>, c: int) -> bool {
    &&& forall|j: int| 0 <= j < fs0.inode_bitmap_blocks() * 4096 && j != c ==> #[trigger] fs1.inode_bit(j) == fs0.inode_bit(j)
    &&& forall|b: int| 0 <= b < fs0.view().len() && fs1.view()[b] != fs0.view()[b]
        ==> (1 <= b < fs0.inode_area_start()) || b == fs0.inode_area_start() + c
}

/// Going from `fs0` to `fs1` created inode `c` in the directory whose inode is in block `dir`:
/// every other inode bit stays, no data bit in use is freed, and the only blocks changed are
/// the directory's inode, the inode bitmap, the new inode, the data bitmap, and blocks that
/// belonged to the directory or were free.
#[verifier::opaque]
pub open spec fn create_confined<D: BlockDevice>(fs0: FileSystem<D>, fs1: FileSystem<D>, dir: int, c: int) -> bool {
    &&& forall|j: int| 0 <= j < fs0.inode_bitmap_blocks() * 4096 && j != c ==> #[trigger] fs1.inode_bit(j) == fs0.inode_bit(j)
    &&& forall|k: int| 0 <= k < fs0.data_bits() && #[trigger] fs0.data_bit(k) ==> fs1.data_bit(k)
    &&& forall|b: int| 0 <= b < fs0.view().len() && #[trigger] fs1.view()[b] != fs0.view()[b]
        ==> b == dir || (1 <= b < fs0.inode_area_start()) || b == fs0.inode_area_start() + c
        || (fs0.data_bitmap_start() <= b < fs0.data_area_start())
        || (fs0.data_area_start() <= b && old_or_fresh(fs0.view(), fs0.data_bitmap_start(), fs0.data_area_start(), fs0.data_bits(), fs0.inode_at(dir), b))
}

/// The steps of a create, a new inode then a write to the directory, stay within what a create
/// may change.
pub proof fn lemma_create_frame<D: BlockDevice>(fsa: FileSystem<D>, fs0: FileSystem<D>, fs2: FileSystem<D>, fs3: FileSystem<D>, dir: int, c: int)
    requires
        fsa.view() == fs0.view(),
        fsa.inode_bitmap_blocks() == fs0.inode_bitmap_blocks(),
        fsa.inode_area_start() == fs0.inode_area_start(),
        fsa.data_bitmap_start() == fs0.data_bitmap_start(),
        fsa.data_bitmap_blocks() == fs0.data_bitmap_blocks(),
        fsa.data_area_start() == fs0.data_area_start(),
        fs0.wf(),
        fs0.inode_area_start() <= dir < fs0.data_bitmap_start(),
        fs0.inode_ok(fs0.inode_at(dir)),
        0 <= c < fs0.data_bitmap_start() - fs0.inode_area_start(),
        fs2.view().len() == fs0.view().len(),
        fs3.view().len() == fs0.view().len(),
        fs2.inode_area_start() == fs0.inode_area_start(),
        fs2.data_bitmap_start() == fs0.data_bitmap_start(),
        fs2.data_bitmap_blocks() == fs0.data_bitmap_blocks(),
        fs2.data_area_start() == fs0.data_area_start(),
        fs3.data_bitmap_start() == fs0.data_bitmap_start(),
        fs3.data_bitmap_blocks() == fs0.data_bitmap_blocks(),
        fs3.data_area_start() == fs0.data_area_start(),
        new_inode_confined(fs0, fs2, c),
        fs2.inode_at(dir) == fs0.inode_at(dir),
        write_confined(fs2, fs3, dir),
    ensures
        create_confined(fsa, fs3, dir, c),
{
    reveal(write_confined);
    fs0.lemma_wf();
    reveal(new_inode_confined);
    reveal(create_confined);
    let v0 = fs0.view();
    let v2 = fs2.view();
    let v3 = fs3.view();
    let ias = fs0.inode_area_start();
    let dbs = fs0.data_bitmap_start();
    let das = fs0.data_area_start();
    let nbits = fs0.data_bits();
    assert forall|j: int| 0 <= j < fs0.inode_bitmap_blocks() * 4096 && j != c implies #[trigger] fs3.inode_bit(j) == fs0.inode_bit(j) by {
        vstd::arithmetic::div_mod::lemma_multiply_divide_lt(j, 4096, fs0.inode_bitmap_blocks() as int);
        assert(v3[1 + j / 4096] == v2[1 + j / 4096]);
        assert(fs2.inode_bit(j) == fs0.inode_bit(j));
    }
    assert forall|k: int| 0 <= k < nbits && #[trigger] fs0.data_bit(k) implies fs3.data_bit(k) by {
        vstd::arithmetic::div_mod::lemma_multiply_divide_lt(k, 4096, das - dbs);
        if v2[dbs + k / 4096] != v0[dbs + k / 4096] {
            assert(false);
        }
        assert(fs2.data_bit(k));
    }
    assert forall|x: int| dbs <= x < v0.len() implies #[trigger] v2[x] == v0[x] by {
        if v2[x] != v0[x] {
            assert(false);
        }
    }
    assert forall|b: int| 0 <= b < v0.len() && #[trigger] v3[b] != v0[b] implies
        b == dir || (1 <= b < ias) || b == ias + c || (dbs <= b < das) || (das <= b && old_or_fresh(v0, dbs, das, nbits, fs0.inode_at(dir), b)) by {
        if v3[b] != v2[b] {
            if !(b == dir || (dbs <= b < das)) {
                assert(b >= dbs);
                assert(old_or_fresh(fs2.view(), fs2.data_bitmap_start(), fs2.data_area_start(), fs2.data_bits(), fs2.inode_at(dir), b));
                assert(fs2.data_bits() == nbits);
                crate::inode_alloc::lemma_old_or_fresh_frame(v0, v2, dbs, das, nbits, fs0.inode_at(dir), b);
            }
        }
    }
    assert(fsa.inode_at(dir) == fs0.inode_at(dir));
    assert forall|j: int| 0 <= j < fsa.inode_bitmap_blocks() * 4096 && j != c implies #[trigger] fs3.inode_bit(j) == fsa.inode_bit(j) by {
        assert(fsa.inode_bit(j) == fs0.inode_bit(j));
    }
    assert forall|k: int| 0 <= k < fsa.data_bits() && #[trigger] fsa.data_bit(k) implies fs3.data_bit(k) by {
        assert(fsa.data_bit(k) == fs0.data_bit(k));
    }
}

/// Taking a new inode keeps every other directory as it was: its inode, its bytes, and the
/// free data blocks.
proof fn lemma_new_inode_keeps_dir<D: BlockDevice>(fs0: FileSystem<D>, fs2: FileSystem<D>, dir: int, c: int, off: int, len: int)
    requires
        fs0.wf(),
        fs2.wf(),
        fs2.inode_bitmap_blocks() == fs0.inode_bitmap_blocks(),
        fs2.inode_area_start() == fs0.inode_area_start(),
        fs2.data_bitmap_start() == fs0.data_bitmap_start(),
        fs2.data_bitmap_blocks() == fs0.data_bitmap_blocks(),
        fs2.data_area_start() == fs0.data_area_start(),
        fs2.view().len() == fs0.view().len(),
        forall|b: int| fs0.inode_area_start() <= b < fs2.view().len() && b != fs0.inode_area_start() + c
            ==> #[trigger] fs2.view()[b] == fs0.view()[b],
        fs0.inode_area_start() <= dir < fs0.data_bitmap_start(),
        0 <= c < fs0.data_bitmap_start() - fs0.inode_area_start(),
        dir != fs0.inode_area_start() + c,
        fs0.inode_ok(fs0.inode_at(dir)),
    ensures
        fs2.inode_at(dir) == fs0.inode_at(dir),
        fs2.file_content(dir) == fs0.file_content(dir),
        fs2.free_data() == fs0.free_data(),
        fs2.inode_ok(fs2.inode_at(dir)),
        fs0.write_fits(dir, off, len) ==> fs2.write_fits(dir, off, len),
{
    reveal(FileSystem::write_fits);
    fs0.lemma_wf();
    let v0 = fs0.view();
    let v2 = fs2.view();
    let ias = fs0.inode_area_start();
    let dbs = fs0.data_bitmap_start();
    let das = fs0.data_area_start();
    let nbits = fs0.data_bits();
    assert(v2[dir] == v0[dir]);
    let root = fs0.inode_at(dir);
    lemma_root_kept(v0, v2, ias, dbs, das, nbits, root);
    assert(fs2.inode_at(dir) == root);
    assert(fs2.file_content(dir) =~= fs0.file_content(dir));
    assert(fs2.free_data() =~= fs0.free_data()) by {
        assert forall|k: int| 0 <= k < nbits implies #[trigger] bitmap_bit(v2, dbs, k) == bitmap_bit(v0, dbs, k) by {
            vstd::arithmetic::div_mod::lemma_multiply_divide_lt(k, 4096, das - dbs);
        }
    }
}

/// Freeing data block `b` with `dealloc_data` when every data block before it is in use makes
/// `b` the first free one, so that `alloc_data` hands it out again next.
pub proof fn lemma_alloc_data_after_dealloc<D: BlockDevice>(fs0: FileSystem<D>, fs1: FileSystem<D>, b: int)
    requires
        fs0.wf(),
        fs0.data_area_start() <= b < fs0.data_area_start() + fs0.data_bits(),
        fs1.data_bitmap_start() == fs0.data_bitmap_start(),
        fs1.data_area_start() == fs0.data_area_start(),
        fs1.view() == set_bitmap_bit(fs0.view().update(b, zero_block()), fs0.data_bitmap_start(), b - fs0.data_area_start(), false),
        forall|c: int| 0 <= c < b - fs0.data_area_start() ==> #[trigger] fs0.data_bit(c),
    ensures
        !fs1.data_bit(b - fs0.data_area_start()),
        forall|c: int| 0 <= c < b - fs0.data_area_start() ==> #[trigger] fs1.data_bit(c),
{
    fs0.lemma_wf();
    let dbs = fs0.data_bitmap_start();
    let das = fs0.data_area_start();
    let vu = fs0.view().update(b, zero_block());
    vstd::arithmetic::div_mod::lemma_multiply_divide_lt(b - das, 4096, das - dbs);
    assert forall|c: int| 0 <= c < b - das implies #[trigger] bitmap_bit(vu, dbs, c) by {
        vstd::arithmetic::div_mod::lemma_div_is_ordered(c, b - das, 4096);
        assert(vu[dbs + c / 4096] == fs0.view()[dbs + c / 4096]);
        assert(fs0.data_bit(c));
    }
    crate::bitmap::lemma_alloc_after_dealloc(vu, dbs, b - das);
}

/// Freeing data block `b` with `dealloc_data` adds exactly its bit to the free data blocks, so
/// that `alloc_data`, which takes the least free one, next hands out the least of those free
/// before and `b`.
pub proof fn lemma_free_data_after_dealloc<D: BlockDevice>(fs0: FileSystem<D>, fs1: FileSystem<D>, b: int)
    requires
        fs0.wf(),
        fs0.data_area_start() <= b < fs0.data_area_start() + fs0.data_bits(),
        fs0.data_bit(b - fs0.data_area_start()),
        fs1.data_bitmap_start() == fs0.data_bitmap_start(),
        fs1.data_bitmap_blocks() == fs0.data_bitmap_blocks(),
        fs1.view() == set_bitmap_bit(fs0.view().update(b, zero_block()), fs0.data_bitmap_start(), b - fs0.data_area_start(), false),
    ensures
        fs1.free_data() == fs0.free_data().insert(b - fs0.data_area_start()),
{
    fs0.lemma_wf();
    let dbs = fs0.data_bitmap_start();
    let das = fs0.data_area_start();
    let n = fs0.data_bits();
    let vu = fs0.view().update(b, zero_block());
    assert(free_bits(vu, dbs, n) =~= free_bits(fs0.view(), dbs, n)) by {
        assert forall|c: int| 0 <= c < n implies #[trigger] bitmap_bit(vu, dbs, c) == bitmap_bit(fs0.view(), dbs, c) by {
            vstd::arithmetic::div_mod::lemma_multiply_divide_lt(c, 4096, das - dbs);
        }
    }
    vstd::arithmetic::div_mod::lemma_multiply_divide_lt(b - das, 4096, das - dbs);
    assert(bitmap_bit(vu, dbs, b - das));
    vstd::arithmetic::div_mod::lemma_multiply_divide_lt(n - 1, 4096, das - dbs);
    crate::bitmap::lemma_free_bits_after_clear(vu, dbs, n, b - das);
}

/// Opening a device that `create` formatted gives the layout it was formatted with: the super
/// block read back holds the sizes written.
pub proof fn lemma_open_after_create(b0: Seq<u8>, ib: u32, ia: u32, db: u32, da: u32)
    requires
        b0.len() >= 16,
        b0.subrange(0, 16) == super_block_bytes(ib, ia, db, da),
    ensures
        le_u32(b0, 0) == ib,
        le_u32(b0, 4) == ia,
        le_u32(b0, 8) == db,
        le_u32(b0, 12) == da,
{
    lemma_super_block_roundtrip(ib, ia, db, da);
    let sb = super_block_bytes(ib, ia, db, da);
    assert(b0[0] == sb[0] && b0[1] == sb[1] && b0[2] == sb[2] && b0[3] == sb[3]);
    assert(b0[4] == sb[4] && b0[5] == sb[5] && b0[6] == sb[6] && b0[7] == sb[7]);
    assert(b0[8] == sb[8] && b0[9] == sb[9] && b0[10] == sb[10] && b0[11] == sb[11]);
    assert(b0[12] == sb[12] && b0[13] == sb[13] && b0[14] == sb[14] && b0[15] == sb[15]);
}

/// Going from `fs0` to `fs1` created a file named `name` in the directory whose inode is in
/// block `dir`, its inode in block `b`: the first free inode, an empty file, and an entry
/// appended to the directory.
#[verifier::opaque]
pub open spec fn created_in<D: BlockDevice>(fs0: FileSystem<D>, fs1: FileSystem<D>, dir: int, name: Seq<u8>, b: int) -> bool {
                let c = b - fs0.inode_area_start();
                let count = entry_count(fs0.file_content(dir));
                &&& 0 <= c < fs0.data_bitmap_start() - fs0.inode_area_start()
                &&& c != dir - fs0.inode_area_start()
                &&& !fs0.inode_bit(c)
                &&& forall|j: int| 0 <= j < c ==> #[trigger] fs0.inode_bit(j)
                &&& fs1.inode_bit(c)
                &&& fs1.file_content(b) == Seq::<u8>::empty()
                &&& fs1.inode_ok(fs1.inode_at(b))
                &&& fs1.inode_ok(fs1.inode_at(dir))
                &&& written_bytes(
                    fs0.file_content(dir),
                    fs1.file_content(dir),
                    32 * count,
                    dirent_bytes(
                        name + Seq::new((28 - name.len()) as nat, |i: int| 0u8),
                        c as u32,
                    ),
                )
                &&& fs1.device_blocks() == fs1.view()
                &&& name.len() <= 27 ==> fs1.entries_ok(dir)
                &&& create_confined(fs0, fs1, dir, c)
}

/// Taking inode `c` (`s0` to `s2`) and then writing its entry, named `name`, at the end of the
/// directory whose inode is in block `dir` (`s2` to `s3`) is a create of `name` there, as
/// [`created_in`] states it.
#[verifier::spinoff_prover]
#[verifier::rlimit(100)]
proof fn lemma_add_entry_done<D: BlockDevice>(
    fsa: FileSystem<D>,
    s0: FileSystem<D>,
    s2: FileSystem<D>,
    s3: FileSystem<D>,
    dir: int,
    c: u32,
    name: Seq<u8>,
)
    requires
        fsa.view() == s0.view(),
        fsa.inode_bitmap_blocks() == s0.inode_bitmap_blocks(),
        fsa.inode_area_start() == s0.inode_area_start(),
        fsa.data_bitmap_start() == s0.data_bitmap_start(),
        fsa.data_bitmap_blocks() == s0.data_bitmap_blocks(),
        fsa.data_area_start() == s0.data_area_start(),
        s0.wf(),
        s0.inode_area_start() <= dir < s0.data_bitmap_start(),
        s0.inode_ok(s0.inode_at(dir)),
        s0.entries_ok(dir),
        name.len() <= 28,
        s2.inode_bitmap_blocks() == s0.inode_bitmap_blocks(),
        s2.inode_area_start() == s0.inode_area_start(),
        s2.data_bitmap_start() == s0.data_bitmap_start(),
        s2.data_bitmap_blocks() == s0.data_bitmap_blocks(),
        s2.data_area_start() == s0.data_area_start(),
        s2.view().len() == s0.view().len(),
        0 <= c < s0.data_bitmap_start() - s0.inode_area_start(),
        c < s0.inode_bitmap_blocks() * 4096,
        c != dir - s0.inode_area_start(),
        !s0.inode_bit(c as int),
        forall|j: int| 0 <= j < c ==> #[trigger] s0.inode_bit(j),
        s2.inode_bit(c as int),
        s2.inode_at(s0.inode_area_start() + c) == empty_inode(),
        new_inode_confined(s0, s2, c as int),
        s2.inode_at(dir) == s0.inode_at(dir),
        s2.file_content(dir) == s0.file_content(dir),
        s3.inode_bitmap_blocks() == s0.inode_bitmap_blocks(),
        s3.inode_area_start() == s0.inode_area_start(),
        s3.data_bitmap_start() == s0.data_bitmap_start(),
        s3.data_bitmap_blocks() == s0.data_bitmap_blocks(),
        s3.data_area_start() == s0.data_area_start(),
        s3.view().len() == s0.view().len(),
        written_bytes(
            s0.file_content(dir),
            s3.file_content(dir),
            32 * entry_count(s0.file_content(dir)),
            dirent_bytes(name + Seq::new((28 - name.len()) as nat, |i: int| 0u8), c),
        ),
        s3.inode_ok(s3.inode_at(dir)),
        s3.device_blocks() == s3.view(),
        write_confined(s2, s3, dir),
    ensures
        created_in(fsa, s3, dir, name, s0.inode_area_start() + c),
{
    let ias = s0.inode_area_start();
    let new_block = ias + c;
    assert(create_confined(fsa, s3, dir, c as int)) by {
        lemma_create_frame(fsa, s0, s2, s3, dir, c as int);
    }
    assert(s3.inode_at(new_block) == empty_inode() && s3.file_content(new_block) =~= Seq::<u8>::empty()
        && s3.inode_bit(c as int)) by {
        s0.lemma_wf();
        reveal(write_confined);
        assert(s3.view()[new_block] == s2.view()[new_block]);
        vstd::arithmetic::div_mod::lemma_multiply_divide_lt(c as int, 4096, s0.inode_bitmap_blocks() as int);
        assert(s3.view()[1 + c as int / 4096] == s2.view()[1 + c as int / 4096]);
    }
    assert(name.len() <= 27 ==> s3.entries_ok(dir)) by {
        if name.len() <= 27 {
            lemma_entries_ok_after_append(s0.file_content(dir), s3.file_content(dir), name, c, ias);
        }
    }
    assert(fsa.file_content(dir) == s0.file_content(dir));
    assert(fsa.inode_bit(c as int) == s0.inode_bit(c as int));
    assert forall|j: int| 0 <= j < c implies #[trigger] fsa.inode_bit(j) by {
        assert(s0.inode_bit(j));
    }
    reveal(created_in);
}

/// An inode cleared from a fitting one holds no block and fits anywhere.
pub proof fn lemma_cleared_inode_fits(v: Seq<Seq<u8>>, dbs: int, das: int, nbits: int, i0: InodeView, i1: InodeView)
    requires
        inode_fits(v, dbs, das, nbits, i0) || inode_fits(Seq::empty(), dbs, das, nbits, i0) || true,
        i0.direct.len() == 63,
        i0.indirect.len() == 64,
        forall|k: int| data_blocks_of(i0.size as int) <= k < 63 ==> #[trigger] i0.direct[k] == 0,
        forall|i: int| indirect_count(data_blocks_of(i0.size as int)) <= i < 64 ==> #[trigger] i0.indirect[i] == 0,
        i1.size == 0,
        i1.direct == Seq::new(63, |k: int| if k < data_blocks_of(i0.size as int) { 0u32 } else { i0.direct[k] }),
        i1.indirect == Seq::new(64, |i: int| if data_blocks_of(i0.size as int) > 63 && i <= (data_blocks_of(i0.size as int) - 63) / 128 {
            0u32
        } else {
            i0.indirect[i]
        }),
    ensures
        inode_fits(v, dbs, das, nbits, i1),
{
    let d = data_blocks_of(i0.size as int);
    if d > 63 {
        crate::inode::lemma_indirect_count_exact(d);
    }
    assert forall|k: int| 0 <= k < 63 implies #[trigger] i1.direct[k] == 0 by {
        if k >= d {
            assert(i0.direct[k] == 0);
        }
    }
    assert forall|i: int| 0 <= i < 64 implies #[trigger] i1.indirect[i] == 0 by {
        if i >= indirect_count(d) {
            assert(i0.indirect[i] == 0);
        }
    }
}

impl<D: BlockDevice> FileSystem<D> {
    /// The bytes of the root directory.
    pub open spec fn root_dir(&self) -> Seq<u8> {
        self.file_content(self.inode_area_start())
    }

    /// Every entry of the root directory has a terminated name and names an inode whose block
    /// number fits a `u32`.
    pub open spec fn dir_entries_ok(&self) -> bool {
        self.entries_ok(self.inode_area_start())
    }

    /// Every entry of the directory whose inode is in block `ib` has a terminated name and
    /// names an inode whose block number fits a `u32`.
    pub open spec fn entries_ok(&self, ib: int) -> bool {
        forall|i: int| 0 <= i < entry_count(self.file_content(ib)) ==> {
            &&& #[trigger] entry_terminated(self.file_content(ib), i)
            &&& self.inode_area_start() + entry_inode(self.file_content(ib), i) <= u32::MAX
        }
    }

    /// Entry `i` of the directory whose inode is `dir`.
    fn read_dir_entry(&mut self, dir: &DiskInode, i: usize) -> (r: DirEntry)
        requires
            old(self).wf(),
            dir@.blocks_mapped(old(self).view(), 0, data_blocks_of(dir.size as int)),
            i < dir.size as int / 32,
        ensures
            final(self).wf(),
            final(self).view() == old(self).view(),
            *final(self) == *old(self) || final(self).view() == old(self).view(),
            final(self).inode_bitmap_blocks() == old(self).inode_bitmap_blocks(),
            final(self).inode_area_start() == old(self).inode_area_start(),
            final(self).data_bitmap_start() == old(self).data_bitmap_start(),
            final(self).data_bitmap_blocks() == old(self).data_bitmap_blocks(),
            final(self).data_area_start() == old(self).data_area_start(),
            ({
                let c = Seq::new(dir.size as nat, |p: int| dir@.content(old(self).view(), p));
                &&& r.name_field() == c.subrange(32 * i, 32 * i + 28)
                &&& r.inode() == entry_inode(c, i as int)
            }),
    {
        proof {
            self.lemma_wf();
        }
        let ghost v = self.view();
        let ghost c = Seq::new(dir.size as nat, |p: int| dir@.content(v, p));
        let mut buf: Vec<u8> = Vec::new();
        let mut k: usize = 0;
        while k < DIRENT_SZ
            invariant
                k <= DIRENT_SZ,
                buf@.len() == k,
            decreases DIRENT_SZ - k,
        {
            buf.push(0u8);
            k += 1;
        }
        let offset = DIRENT_SZ * i;
        proof {
            let size = dir.size as int;
            vstd::arithmetic::div_mod::lemma_div_is_ordered(offset + 31, size - 1, 512);
            vstd::arithmetic::div_mod::lemma_fundamental_div_mod(size + 511, 512);
            vstd::arithmetic::div_mod::lemma_fundamental_div_mod(size - 1, 512);
            vstd::arithmetic::div_mod::lemma_fundamental_div_mod(size, 32);
            assert forall|k2: int| offset as int / 512 <= k2 < (offset + 31) / 512 + 1 implies #[trigger] dir@.block_mapped(v, k2) by {
                assert(dir@.block_mapped(v, k2));
            }
        }
        let n = dir.read_at(offset, buf.as_mut_slice(), &mut self.disk);
        assert(buf@.take(28) =~= c.subrange(32 * i, 32 * i + 28));
        let e = DirEntry::from_bytes(buf.as_slice());
        e
    }

    /// The number of the inode named `name` in the directory whose inode is `dir`.
    fn find_inode_id(&mut self, name: &str, dir: &DiskInode) -> (r: Option<u32>)
        requires
            old(self).wf(),
            dir@.blocks_mapped(old(self).view(), 0, data_blocks_of(dir.size as int)),
            ({
                let c = Seq::new(dir.size as nat, |p: int| dir@.content(old(self).view(), p));
                forall|i: int| 0 <= i < entry_count(c) ==> #[trigger] entry_terminated(c, i)
            }),
        ensures
            final(self).wf(),
            final(self).view() == old(self).view(),
            final(self).inode_bitmap_blocks() == old(self).inode_bitmap_blocks(),
            final(self).inode_area_start() == old(self).inode_area_start(),
            final(self).data_bitmap_start() == old(self).data_bitmap_start(),
            final(self).data_bitmap_blocks() == old(self).data_bitmap_blocks(),
            final(self).data_area_start() == old(self).data_area_start(),
            ({
                let c = Seq::new(dir.size as nat, |p: int| dir@.content(old(self).view(), p));
                match r {
                    Some(n) => exists|i: int| #[trigger] first_match(c, name.spec_bytes(), i) && n == entry_inode(c, i),
                    None => forall|i: int| 0 <= i < entry_count(c) ==> #[trigger] entry_name(c, i) != name.spec_bytes(),
                }
            }),
    {
        let ghost v = self.view();
        let ghost c = Seq::new(dir.size as nat, |p: int| dir@.content(v, p));
        let file_count = (dir.size as usize) / DIRENT_SZ;
        let bytes = name.as_bytes();
        let mut i: usize = 0;
        while i < file_count
            invariant
                self.wf(),
                self.view() == v,
                v == old(self).view(),
                self.inode_bitmap_blocks() == old(self).inode_bitmap_blocks(),
                self.inode_area_start() == old(self).inode_area_start(),
                self.data_bitmap_start() == old(self).data_bitmap_start(),
                self.data_bitmap_blocks() == old(self).data_bitmap_blocks(),
                self.data_area_start() == old(self).data_area_start(),
                dir@.blocks_mapped(v, 0, data_blocks_of(dir.size as int)),
                c == Seq::new(dir.size as nat, |p: int| dir@.content(v, p)),
                file_count == entry_count(c),
                bytes@ == name.spec_bytes(),
                forall|i: int| 0 <= i < entry_count(c) ==> #[trigger] entry_terminated(c, i),
                i <= file_count,
                forall|j: int| 0 <= j < i ==> #[trigger] entry_name(c, j) != name.spec_bytes(),
            decreases file_count - i,
        {
            let dirent = self.read_dir_entry(dir, i);
            proof {
                assert(entry_terminated(c, i as int));
            }
            if dirent.name_is(bytes) {
                assert(first_match(c, name.spec_bytes(), i as int));
                return Some(dirent.inode_number());
            }
            i += 1;
        }
        None
    }

    /// The block of the inode named `name` in the directory whose inode is in block `dir`.
    pub(crate) fn find_in(&mut self, dir: usize, name: &str) -> (r: Option<usize>)
        requires
            old(self).wf(),
            dir < old(self).view().len(),
            old(self).inode_readable(dir as int),
            old(self).entries_ok(dir as int),
        ensures
            final(self).wf(),
            final(self).view() == old(self).view(),
            final(self).inode_bitmap_blocks() == old(self).inode_bitmap_blocks(),
            final(self).inode_area_start() == old(self).inode_area_start(),
            final(self).data_bitmap_start() == old(self).data_bitmap_start(),
            final(self).data_bitmap_blocks() == old(self).data_bitmap_blocks(),
            final(self).data_area_start() == old(self).data_area_start(),
            match r {
                Some(b) => exists|i: int| #[trigger] first_match(old(self).file_content(dir as int), name.spec_bytes(), i)
                    && b == old(self).inode_area_start() + entry_inode(old(self).file_content(dir as int), i),
                None => forall|i: int| 0 <= i < entry_count(old(self).file_content(dir as int)) ==> #[trigger] entry_name(old(self).file_content(dir as int), i) != name.spec_bytes(),
            },
    {
        proof {
            self.lemma_wf();
        }
        let root = self.read_disk_inode(dir);
        let ghost c = old(self).file_content(dir as int);
        assert(c == Seq::new(root.size as nat, |p: int| root@.content(old(self).view(), p)));
        match self.find_inode_id(name, &root) {
            Some(id) => {
                proof {
                    let i = choose|i: int| #[trigger] first_match(c, name.spec_bytes(), i) && id == entry_inode(c, i);
                    assert(entry_terminated(c, i));
                }
                Some(self.get_inode_block_id(id) as usize)
            },
            None => None,
        }
    }


    /// The names in the directory whose inode is in block `dir`, in the order of its entries.
    pub(crate) fn ls_in(&mut self, dir: usize) -> (r: Vec<String>)
        requires
            old(self).wf(),
            dir < old(self).view().len(),
            old(self).inode_readable(dir as int),
            forall|i: int| 0 <= i < entry_count(old(self).file_content(dir as int))
                ==> #[trigger] readable_name(old(self).file_content(dir as int).subrange(32 * i, 32 * i + 28)),
        ensures
            final(self).wf(),
            final(self).view() == old(self).view(),
            final(self).inode_bitmap_blocks() == old(self).inode_bitmap_blocks(),
            final(self).inode_area_start() == old(self).inode_area_start(),
            final(self).data_bitmap_start() == old(self).data_bitmap_start(),
            final(self).data_bitmap_blocks() == old(self).data_bitmap_blocks(),
            final(self).data_area_start() == old(self).data_area_start(),
            r@.len() == entry_count(old(self).file_content(dir as int)),
            forall|i: int| 0 <= i < r@.len() ==> #[trigger] encode_utf8(r@[i]@) == entry_name(old(self).file_content(dir as int), i),
    {
        proof {
            self.lemma_wf();
        }
        let ghost v = self.view();
        let ghost c = old(self).file_content(dir as int);
        let root = self.read_disk_inode(dir);
        assert(c == Seq::new(root.size as nat, |p: int| root@.content(v, p)));
        let file_count = (root.size as usize) / DIRENT_SZ;
        let mut names: Vec<String> = Vec::new();
        let mut i: usize = 0;
        while i < file_count
            invariant
                self.wf(),
                self.view() == v,
                v == old(self).view(),
                self.inode_bitmap_blocks() == old(self).inode_bitmap_blocks(),
                self.inode_area_start() == old(self).inode_area_start(),
                self.data_bitmap_start() == old(self).data_bitmap_start(),
                self.data_bitmap_blocks() == old(self).data_bitmap_blocks(),
                self.data_area_start() == old(self).data_area_start(),
                root@.blocks_mapped(v, 0, data_blocks_of(root.size as int)),
                c == Seq::new(root.size as nat, |p: int| root@.content(v, p)),
                file_count == entry_count(c),
                forall|i: int| 0 <= i < entry_count(c) ==> #[trigger] readable_name(c.subrange(32 * i, 32 * i + 28)),
                i <= file_count,
                names@.len() == i,
                forall|j: int| 0 <= j < i ==> #[trigger] encode_utf8(names@[j]@) == entry_name(c, j),
            decreases file_count - i,
        {
            let dirent = self.read_dir_entry(&root, i);
            proof {
                assert(readable_name(c.subrange(32 * i, 32 * i + 28)));
            }
            let name = dirent.name();
            names.push(<String as StringExecFns>::from_str(name));
            i += 1;
        }
        names
    }


    /// Allocates an inode and stores an empty inode in its block; returns its number.
    fn make_inode(&mut self) -> (r: u32)
        requires
            old(self).wf(),
            exists|c: int| 0 <= c < old(self).inode_bitmap_blocks() * 4096
                && c < old(self).data_bitmap_start() - old(self).inode_area_start()
                && !#[trigger] old(self).inode_bit(c),
        ensures
            final(self).wf(),
            final(self).inode_bitmap_blocks() == old(self).inode_bitmap_blocks(),
            final(self).inode_area_start() == old(self).inode_area_start(),
            final(self).data_bitmap_start() == old(self).data_bitmap_start(),
            final(self).data_bitmap_blocks() == old(self).data_bitmap_blocks(),
            final(self).data_area_start() == old(self).data_area_start(),
            final(self).view().len() == old(self).view().len(),
            0 <= r < old(self).data_bitmap_start() - old(self).inode_area_start(),
            r < old(self).inode_bitmap_blocks() * 4096,
            !old(self).inode_bit(r as int),
            forall|j: int| 0 <= j < r ==> #[trigger] old(self).inode_bit(j),
            final(self).inode_bit(r as int),
            forall|b: int| old(self).inode_area_start() <= b < final(self).view().len() && b != old(self).inode_area_start() + r
                ==> #[trigger] final(self).view()[b] == old(self).view()[b],
            final(self).inode_at(old(self).inode_area_start() + r) == empty_inode(),
            new_inode_confined(*old(self), *final(self), r as int),
    {
        proof {
            self.lemma_wf();
        }
        let ghost v0 = self.view();
        let ghost ias = self.inode_area_start();
        let new_id = self.alloc_inode();
        let ghost v1 = self.view();
        proof {
            self.lemma_wf();
            let c0 = choose|c: int| 0 <= c < old(self).inode_bitmap_blocks() * 4096
                && c < old(self).data_bitmap_start() - ias && !#[trigger] old(self).inode_bit(c);
            if new_id as int > c0 {
                assert(old(self).inode_bit(c0));
            }
            vstd::arithmetic::div_mod::lemma_multiply_divide_lt(new_id as int, 4096, self.inode_bitmap_blocks());
            crate::bitmap::lemma_set_bitmap_bit_effect(v0, 1, new_id as int, true, new_id as int);
        }
        let new_block = self.get_inode_block_id(new_id);
        let empty = DiskInode::new();
        self.write_disk_inode(new_block as usize, &empty);
        proof {
            assert(empty@ == empty_inode()) by {
                assert(empty.direct@ =~= empty_inode().direct);
                assert(empty.indirect@ =~= empty_inode().indirect);
            }
            assert(self.view()[1 + new_id as int / 4096] == v1[1 + new_id as int / 4096]);
            reveal(new_inode_confined);
            assert forall|j: int| 0 <= j < old(self).inode_bitmap_blocks() * 4096 && j != new_id
                implies #[trigger] self.inode_bit(j) == old(self).inode_bit(j) by {
                vstd::arithmetic::div_mod::lemma_multiply_divide_lt(j, 4096, self.inode_bitmap_blocks() as int);
                crate::bitmap::lemma_set_bitmap_bit_effect(v0, 1, new_id as int, true, j);
                assert(self.view()[1 + j / 4096] == v1[1 + j / 4096]);
            }
            assert forall|b: int| 0 <= b < v0.len() && self.view()[b] != v0[b]
                implies (1 <= b < ias) || b == ias + new_id by {
                if b != ias + new_id && b != 1 + new_id as int / 4096 {
                    assert(self.view()[b] == v1[b]);
                    assert(v1[b] == v0[b]);
                }
            }
        }
        new_id
    }

    /// Creates an empty file named `name` in the directory whose inode is in block `dir` and returns the block of its
    /// inode; `None` when the directory already names a file `name`.
    #[verifier::spinoff_prover]
    #[verifier::rlimit(100)]
    pub(crate) fn create_in(&mut self, dir: usize, name: &str) -> (r: Option<usize>)
        requires
            old(self).wf(),
            old(self).inode_area_start() <= dir < old(self).data_bitmap_start(),
            old(self).inode_bit(dir - old(self).inode_area_start()),
            old(self).inode_ok(old(self).inode_at(dir as int)),
            old(self).entries_ok(dir as int),
            name.spec_bytes().len() <= 28,
            exists|c: int| 0 <= c < old(self).inode_bitmap_blocks() * 4096
                && c < old(self).data_bitmap_start() - old(self).inode_area_start()
                && !#[trigger] old(self).inode_bit(c),
            old(self).write_fits(
                dir as int,
                32 * entry_count(old(self).file_content(dir as int)),
                32,
            ),
        ensures
            final(self).wf(),
            final(self).inode_bitmap_blocks() == old(self).inode_bitmap_blocks(),
            final(self).inode_area_start() == old(self).inode_area_start(),
            final(self).data_bitmap_start() == old(self).data_bitmap_start(),
            final(self).data_bitmap_blocks() == old(self).data_bitmap_blocks(),
            final(self).data_area_start() == old(self).data_area_start(),
            final(self).view().len() == old(self).view().len(),
            r is None <==> exists|i: int| 0 <= i < entry_count(old(self).file_content(dir as int))
                && #[trigger] entry_name(old(self).file_content(dir as int), i) == name.spec_bytes(),
            r is None ==> final(self).view() == old(self).view(),
            r matches Some(b) ==> {
                let c = b - old(self).inode_area_start();
                let count = entry_count(old(self).file_content(dir as int));
                &&& 0 <= c < old(self).data_bitmap_start() - old(self).inode_area_start()
                &&& c != dir - old(self).inode_area_start()
                &&& !old(self).inode_bit(c)
                &&& forall|j: int| 0 <= j < c ==> #[trigger] old(self).inode_bit(j)
                &&& final(self).inode_bit(c)
                &&& final(self).file_content(b as int) == Seq::<u8>::empty()
                &&& final(self).inode_ok(final(self).inode_at(b as int))
                &&& final(self).inode_ok(final(self).inode_at(dir as int))
                &&& written_bytes(
                    old(self).file_content(dir as int),
                    final(self).file_content(dir as int),
                    32 * count,
                    dirent_bytes(
                        name.spec_bytes() + Seq::new((28 - name.spec_bytes().len()) as nat, |i: int| 0u8),
                        c as u32,
                    ),
                )
                &&& final(self).device_blocks() == final(self).view()
                &&& name.spec_bytes().len() <= 27 ==> final(self).entries_ok(dir as int)
                &&& create_confined(*old(self), *final(self), dir as int, c)
            },
    {
        proof {
            self.lemma_wf();
        }
        let ghost v0 = self.view();
        let root = self.read_disk_inode(dir);
        assert(old(self).file_content(dir as int) == Seq::new(root.size as nat, |p: int| root@.content(v0, p)));
        if self.find_inode_id(name, &root).is_some() {
            return None;
        }
        proof {
            assert(self.write_fits(dir as int, 32 * entry_count(old(self).file_content(dir as int)), 32)) by {
                reveal(FileSystem::write_fits);
            }
            let c = choose|c: int| 0 <= c < old(self).inode_bitmap_blocks() * 4096
                && c < old(self).data_bitmap_start() - old(self).inode_area_start() && !#[trigger] old(self).inode_bit(c);
            assert(!self.inode_bit(c));
        }
        let b = self.add_entry(dir, name, &root, Ghost(*old(self)));
        proof {
            reveal(created_in);
        }
        Some(b)
    }

    /// Writes `buf` at `offset` into the file whose inode is in block `ib`, as [`Self::write_at`]
    /// does, with what it changes gathered in [`write_confined`].
    fn write_entry(&mut self, ib: usize, offset: usize, buf: &[u8])
        requires
            old(self).wf(),
            old(self).inode_area_start() <= ib < old(self).data_bitmap_start(),
            old(self).inode_ok(old(self).inode_at(ib as int)),
            old(self).write_fits(ib as int, offset as int, buf@.len() as int),
        ensures
            final(self).wf(),
            final(self).inode_bitmap_blocks() == old(self).inode_bitmap_blocks(),
            final(self).inode_area_start() == old(self).inode_area_start(),
            final(self).data_bitmap_start() == old(self).data_bitmap_start(),
            final(self).data_bitmap_blocks() == old(self).data_bitmap_blocks(),
            final(self).data_area_start() == old(self).data_area_start(),
            final(self).view().len() == old(self).view().len(),
            written_bytes(old(self).file_content(ib as int), final(self).file_content(ib as int), offset as int, buf@),
            final(self).inode_ok(final(self).inode_at(ib as int)),
            final(self).device_blocks() == final(self).view(),
            write_confined(*old(self), *final(self), ib as int),
    {
        self.write_at(ib, offset, buf);
        proof {
            reveal(write_confined);
        }
    }

    /// Takes a new inode and appends its entry, named `name`, to the directory whose inode,
    /// `root`, is in block `dir`; returns the block of the new inode.
    #[verifier::spinoff_prover]
    #[verifier::rlimit(100)]
    fn add_entry(&mut self, dir: usize, name: &str, root: &DiskInode, Ghost(fs_orig): Ghost<Self>) -> (b: usize)
        requires
            old(self).wf(),
            old(self).inode_area_start() <= dir < old(self).data_bitmap_start(),
            old(self).inode_bit(dir - old(self).inode_area_start()),
            old(self).inode_ok(old(self).inode_at(dir as int)),
            old(self).entries_ok(dir as int),
            name.spec_bytes().len() <= 28,
            exists|c: int| 0 <= c < old(self).inode_bitmap_blocks() * 4096
                && c < old(self).data_bitmap_start() - old(self).inode_area_start()
                && !#[trigger] old(self).inode_bit(c),
            old(self).write_fits(
                dir as int,
                32 * entry_count(old(self).file_content(dir as int)),
                32,
            ),
            root@ == old(self).inode_at(dir as int),
            fs_orig.view() == old(self).view(),
            fs_orig.inode_bitmap_blocks() == old(self).inode_bitmap_blocks(),
            fs_orig.inode_area_start() == old(self).inode_area_start(),
            fs_orig.data_bitmap_start() == old(self).data_bitmap_start(),
            fs_orig.data_bitmap_blocks() == old(self).data_bitmap_blocks(),
            fs_orig.data_area_start() == old(self).data_area_start(),
        ensures
            final(self).wf(),
            final(self).inode_bitmap_blocks() == old(self).inode_bitmap_blocks(),
            final(self).inode_area_start() == old(self).inode_area_start(),
            final(self).data_bitmap_start() == old(self).data_bitmap_start(),
            final(self).data_bitmap_blocks() == old(self).data_bitmap_blocks(),
            final(self).data_area_start() == old(self).data_area_start(),
            final(self).view().len() == old(self).view().len(),
            created_in(fs_orig, *final(self), dir as int, name.spec_bytes(), b as int),
    {
        proof {
            self.lemma_wf();
        }
        let ghost ias = self.inode_area_start();
        let ghost dbs = self.data_bitmap_start();
        proof {
            let c = choose|c: int| 0 <= c < old(self).inode_bitmap_blocks() * 4096
                && c < dbs - ias && !#[trigger] old(self).inode_bit(c);
            assert(!self.inode_bit(c));
        }
        let ghost s_pre = *self;
        let new_id = self.make_inode();
        proof {
            assert forall|j: int| 0 <= j < new_id implies #[trigger] old(self).inode_bit(j) by {
                assert(s_pre.inode_bit(j));
            }
            lemma_new_inode_keeps_dir(*old(self), *self, dir as int, new_id as int, 32 * entry_count(old(self).file_content(dir as int)), 32);
            vstd::arithmetic::div_mod::lemma_fundamental_div_mod(root.size as int, 32);
        }
        let ghost s2 = *self;
        proof {
            assert(s2.inode_at(dir as int) == old(self).inode_at(dir as int));
            assert(s2.write_fits(dir as int, 32 * entry_count(old(self).file_content(dir as int)), 32));
        }
        let file_count = (root.size as usize) / DIRENT_SZ;
        let dirent = DirEntry::new(name, new_id);
        let bytes = dirent.to_bytes();
        self.write_entry(dir, file_count * DIRENT_SZ, bytes.as_slice());
        proof {
            lemma_add_entry_done(fs_orig, s_pre, s2, *self, dir as int, new_id, name.spec_bytes());
        }
        self.get_inode_block_id(new_id) as usize
    }

    /// The block of the inode named `name` in the root directory.
    pub fn find(&mut self, name: &str) -> (r: Option<usize>)
        requires
            old(self).wf(),
            old(self).inode_readable(old(self).inode_area_start()),
            old(self).dir_entries_ok(),
        ensures
            final(self).wf(),
            final(self).view() == old(self).view(),
            final(self).inode_bitmap_blocks() == old(self).inode_bitmap_blocks(),
            final(self).inode_area_start() == old(self).inode_area_start(),
            final(self).data_bitmap_start() == old(self).data_bitmap_start(),
            final(self).data_bitmap_blocks() == old(self).data_bitmap_blocks(),
            final(self).data_area_start() == old(self).data_area_start(),
            match r {
                Some(b) => exists|i: int| #[trigger] first_match(old(self).root_dir(), name.spec_bytes(), i)
                    && b == old(self).inode_area_start() + entry_inode(old(self).root_dir(), i),
                None => forall|i: int| 0 <= i < entry_count(old(self).root_dir()) ==> #[trigger] entry_name(old(self).root_dir(), i) != name.spec_bytes(),
            },
    {
        proof {
            self.lemma_wf();
        }
        let root = self.get_inode_block_id(0) as usize;
        assert(old(self).root_dir() == old(self).file_content(root as int));
        let r = self.find_in(root, name);
        proof {
            if let Some(b) = r {
                let i = choose|i: int| #[trigger] first_match(old(self).file_content(root as int), name.spec_bytes(), i)
                    && b == old(self).inode_area_start() + entry_inode(old(self).file_content(root as int), i);
                assert(first_match(old(self).root_dir(), name.spec_bytes(), i));
            }
        }
        r
    }

    /// The names in the root directory, in the order of its entries.
    pub fn ls(&mut self) -> (r: Vec<String>)
        requires
            old(self).wf(),
            old(self).inode_readable(old(self).inode_area_start()),
            forall|i: int| 0 <= i < entry_count(old(self).root_dir())
                ==> #[trigger] readable_name(old(self).root_dir().subrange(32 * i, 32 * i + 28)),
        ensures
            final(self).wf(),
            final(self).view() == old(self).view(),
            final(self).inode_bitmap_blocks() == old(self).inode_bitmap_blocks(),
            final(self).inode_area_start() == old(self).inode_area_start(),
            final(self).data_bitmap_start() == old(self).data_bitmap_start(),
            final(self).data_bitmap_blocks() == old(self).data_bitmap_blocks(),
            final(self).data_area_start() == old(self).data_area_start(),
            r@.len() == entry_count(old(self).root_dir()),
            forall|i: int| 0 <= i < r@.len() ==> #[trigger] encode_utf8(r@[i]@) == entry_name(old(self).root_dir(), i),
    {
        proof {
            self.lemma_wf();
        }
        let root = self.get_inode_block_id(0) as usize;
        assert(old(self).root_dir() == old(self).file_content(root as int));
        assert forall|i: int| 0 <= i < entry_count(old(self).file_content(root as int))
            implies #[trigger] readable_name(old(self).file_content(root as int).subrange(32 * i, 32 * i + 28)) by {
            assert(readable_name(old(self).root_dir().subrange(32 * i, 32 * i + 28)));
        }
        self.ls_in(root)
    }

    /// Creates an empty file named `name` in the root directory and returns the block of its
    /// inode; `None` when the directory already names a file `name`.
    pub fn create_inode(&mut self, name: &str) -> (r: Option<usize>)
        requires
            old(self).valid(),
            name.spec_bytes().len() <= 28,
            exists|c: int| 0 <= c < old(self).inode_bitmap_blocks() * 4096
                && c < old(self).data_bitmap_start() - old(self).inode_area_start()
                && !#[trigger] old(self).inode_bit(c),
            old(self).write_fits(old(self).inode_area_start(), 32 * entry_count(old(self).root_dir()), 32),
        ensures
            final(self).wf(),
            (r is None || name.spec_bytes().len() <= 27) ==> final(self).valid(),
            final(self).inode_bitmap_blocks() == old(self).inode_bitmap_blocks(),
            final(self).inode_area_start() == old(self).inode_area_start(),
            final(self).data_bitmap_start() == old(self).data_bitmap_start(),
            final(self).data_bitmap_blocks() == old(self).data_bitmap_blocks(),
            final(self).data_area_start() == old(self).data_area_start(),
            final(self).view().len() == old(self).view().len(),
            r is None <==> exists|i: int| 0 <= i < entry_count(old(self).root_dir())
                && #[trigger] entry_name(old(self).root_dir(), i) == name.spec_bytes(),
            r is None ==> final(self).view() == old(self).view(),
            r matches Some(b) ==> {
                let c = b - old(self).inode_area_start();
                let count = entry_count(old(self).root_dir());
                &&& 0 < c < old(self).data_bitmap_start() - old(self).inode_area_start()
                &&& !old(self).inode_bit(c)
                &&& forall|j: int| 0 <= j < c ==> #[trigger] old(self).inode_bit(j)
                &&& final(self).inode_bit(c)
                &&& final(self).file_content(b as int) == Seq::<u8>::empty()
                &&& final(self).inode_ok(final(self).inode_at(b as int))
                &&& final(self).inode_ok(final(self).inode_at(final(self).inode_area_start()))
                &&& written_bytes(
                    old(self).root_dir(),
                    final(self).root_dir(),
                    32 * count,
                    dirent_bytes(
                        name.spec_bytes() + Seq::new((28 - name.spec_bytes().len()) as nat, |i: int| 0u8),
                        c as u32,
                    ),
                )
                &&& final(self).device_blocks() == final(self).view()
                &&& name.spec_bytes().len() <= 27 ==> final(self).dir_entries_ok()
                &&& create_confined(*old(self), *final(self), old(self).inode_area_start(), c)
            },
    {
        proof {
            self.lemma_wf();
        }
        let root = self.get_inode_block_id(0) as usize;
        assert(old(self).root_dir() == old(self).file_content(root as int));
        let r = self.create_in(root, name);
        proof {
            if r is Some {
                reveal(create_confined);
                assert(self.inode_bit(0) == old(self).inode_bit(0));
            }
        }
        r
    }

    /// Writes every changed block back and hands the device back.
    pub fn into_device(self) -> (r: D)
        requires
            self.disk_ok(),
        ensures
            r.inv(),
            r.blocks() == self.view(),
    {
        self.disk.into_device()
    }

}

/// An inode that fits keeps its bytes and keeps fitting when only blocks before the data bitmap
/// changed.
pub proof fn lemma_root_kept(v0: Seq<Seq<u8>>, v2: Seq<Seq<u8>>, ias: int, dbs: int, das: int, nbits: int, ri: InodeView)
    requires
        inode_fits(v0, dbs, das, nbits, ri),
        0 < dbs <= das,
        nbits == 4096 * (das - dbs),
        das + nbits <= v0.len(),
        v2.len() == v0.len(),
        forall|b: int| dbs <= b < v0.len() ==> #[trigger] v2[b] == v0[b],
    ensures
        inode_fits(v2, dbs, das, nbits, ri),
        forall|p: int| 0 <= p < ri.size ==> #[trigger] ri.content(v2, p) == ri.content(v0, p),
{
    assert forall|i: int| 0 <= i < indirect_count(data_blocks_of(ri.size as int)) implies #[trigger] v2[ri.indirect[i] as int] == v0[ri.indirect[i] as int] by {
        assert(block_in_use(v0, dbs, das, nbits, ri.indirect[i] as int));
    }
    crate::inode_alloc::lemma_fits_frame(v0, v2, dbs, das, nbits, ri);
    assert forall|p: int| 0 <= p < ri.size implies #[trigger] ri.content(v2, p) == ri.content(v0, p) by {
        vstd::arithmetic::div_mod::lemma_div_is_ordered(p, ri.size as int - 1, 512);
        vstd::arithmetic::div_mod::lemma_fundamental_div_mod(ri.size as int + 511, 512);
        vstd::arithmetic::div_mod::lemma_fundamental_div_mod(ri.size as int - 1, 512);
        assert(block_in_use(v0, dbs, das, nbits, ri.block_id(v0, p / 512)));
    }
}

/// Reading back the bytes just written at `offset` gives exactly those bytes.
pub proof fn lemma_read_after_write(before: Seq<u8>, after: Seq<u8>, offset: int, data: Seq<u8>)
    requires
        0 <= offset,
        written_bytes(before, after, offset, data),
    ensures
        read_window(after, offset, data.len() as int) == data,
{
    assert(read_window(after, offset, data.len() as int) =~= data);
}

/// A cleared file reads as nothing, wherever the read starts.
pub proof fn lemma_read_after_clear(offset: int, len: int)
    requires
        0 <= offset,
    ensures
        read_window(Seq::<u8>::empty(), offset, len) == Seq::<u8>::empty(),
{
}

/// Once a file was created under `name`, the directory names it: its entry is the first with
/// that name and names the new inode, and the entries before it keep their names.
pub proof fn lemma_find_after_create(before: Seq<u8>, after: Seq<u8>, name: Seq<u8>, c: u32)
    requires
        name.len() <= 27,
        forall|k: int| 0 <= k < name.len() ==> #[trigger] name[k] != 0,
        forall|i: int| 0 <= i < entry_count(before) ==> #[trigger] entry_name(before, i) != name,
        written_bytes(
            before,
            after,
            32 * entry_count(before),
            dirent_bytes(name + Seq::new((28 - name.len()) as nat, |i: int| 0u8), c),
        ),
    ensures
        entry_count(after) == entry_count(before) + 1,
        first_match(after, name, entry_count(before)),
        entry_inode(after, entry_count(before)) == c,
        forall|i: int| 0 <= i < entry_count(before) ==> #[trigger] entry_name(after, i) == entry_name(before, i),
        exists|i: int| 0 <= i < entry_count(after) && #[trigger] entry_name(after, i) == name,
{
    let n = entry_count(before);
    let field = name + Seq::new((28 - name.len()) as nat, |i: int| 0u8);
    let e = dirent_bytes(field, c);
    vstd::arithmetic::div_mod::lemma_fundamental_div_mod(before.len() as int, 32);
    assert(after.len() == 32 * n + 32);
    vstd::arithmetic::div_mod::lemma_fundamental_div_mod_converse(32 * n + 32, 32, n + 1, 0);
    assert(after.subrange(32 * n, 32 * n + 28) =~= field);
    crate::layout::lemma_first_zero(field, name.len() as int);
    assert(stored_name(field) =~= name);
    crate::codec::lemma_u32_roundtrip(c);
    assert forall|i: int| 0 <= i < n implies #[trigger] entry_name(after, i) == entry_name(before, i) by {
        assert(after.subrange(32 * i, 32 * i + 28) =~= before.subrange(32 * i, 32 * i + 28));
    }
    assert(entry_name(after, n) == name);
}

/// Writing one file leaves every other file as it was: its inode, its bytes, and its blocks
/// in use, provided the two files share no block.
pub proof fn lemma_write_keeps_other_file<D: BlockDevice>(fs0: FileSystem<D>, fs1: FileSystem<D>, ib: int, other: int)
    requires
        fs0.wf(),
        fs1.data_bitmap_start() == fs0.data_bitmap_start(),
        fs1.data_bitmap_blocks() == fs0.data_bitmap_blocks(),
        fs1.data_area_start() == fs0.data_area_start(),
        fs1.view().len() == fs0.view().len(),
        forall|b: int| 0 <= b < fs0.data_bitmap_start() && b != ib ==> #[trigger] fs1.view()[b] == fs0.view()[b],
        forall|b: int| 0 <= b < fs0.view().len() && fs1.view()[b] != fs0.view()[b]
            ==> b == ib || (fs0.data_bitmap_start() <= b < fs0.data_area_start())
            || #[trigger] old_or_fresh(fs0.view(), fs0.data_bitmap_start(), fs0.data_area_start(), fs0.data_bits(), fs0.inode_at(ib), b),
        forall|c: int| 0 <= c < fs0.data_bits() && #[trigger] fs0.data_bit(c) ==> fs1.data_bit(c),
        0 <= other < fs0.data_bitmap_start(),
        0 <= ib < fs0.data_bitmap_start(),
        other != ib,
        fs0.inode_ok(fs0.inode_at(other)),
        forall|b: int| #[trigger] owned_by(fs0.inode_at(other), fs0.view(), b) ==> !owned_by(fs0.inode_at(ib), fs0.view(), b),
    ensures
        fs1.inode_at(other) == fs0.inode_at(other),
        fs1.file_content(other) == fs0.file_content(other),
        fs1.inode_ok(fs1.inode_at(other)),
{
    fs0.lemma_wf();
    let v0 = fs0.view();
    let v1 = fs1.view();
    let dbs = fs0.data_bitmap_start();
    let das = fs0.data_area_start();
    let nbits = fs0.data_bits();
    let node = fs0.inode_at(other);
    let d = data_blocks_of(node.size as int);
    assert(v1[other] == v0[other]);
    assert(fs1.inode_at(other) == node);
    crate::inode_alloc::lemma_owned_self(node, v0);
    assert forall|b: int| #[trigger] owned_by(node, v0, b) && block_in_use(v0, dbs, das, nbits, b) implies v1[b] == v0[b] by {
        if v1[b] != v0[b] {
            assert(!owned_by(fs0.inode_at(ib), v0, b));
            assert(!old_or_fresh(v0, dbs, das, nbits, fs0.inode_at(ib), b));
        }
    }
    assert forall|i: int| 0 <= i < indirect_count(d) implies #[trigger] v1[node.indirect[i] as int] == v0[node.indirect[i] as int] by {
        assert(block_in_use(v0, dbs, das, nbits, node.indirect[i] as int));
        assert(owned_by(node, v0, node.indirect[i] as int));
    }
    lemma_mapping_frame(node, v0, v1, d);
    assert forall|k: int| 0 <= k < d implies #[trigger] v1[node.block_id(v0, k)] == v0[node.block_id(v0, k)] by {
        assert(block_in_use(v0, dbs, das, nbits, node.block_id(v0, k)));
        assert(owned_by(node, v0, node.block_id(v0, k)));
    }
    assert forall|p: int| 0 <= p < node.size implies #[trigger] node.content(v1, p) == node.content(v0, p) by {
        vstd::arithmetic::div_mod::lemma_div_is_ordered(p, node.size as int - 1, 512);
        vstd::arithmetic::div_mod::lemma_fundamental_div_mod(node.size as int + 511, 512);
        vstd::arithmetic::div_mod::lemma_fundamental_div_mod(node.size as int - 1, 512);
        assert(v1[node.block_id(v0, p / 512)] == v0[node.block_id(v0, p / 512)]);
    }
    assert(fs1.file_content(other) =~= fs0.file_content(other));
    assert forall|b: int| block_in_use(v0, dbs, das, nbits, b) implies #[trigger] block_in_use(v1, dbs, das, nbits, b) by {
        assert(fs0.data_bit(b - das));
    }
    assert forall|k: int| 0 <= k < d implies #[trigger] block_in_use(v1, dbs, das, nbits, node.block_id(v1, k)) by {
        assert(block_in_use(v0, dbs, das, nbits, node.block_id(v0, k)));
    }
    assert forall|i: int| 0 <= i < indirect_count(d) implies #[trigger] block_in_use(v1, dbs, das, nbits, node.indirect[i] as int) by {
        assert(block_in_use(v0, dbs, das, nbits, node.indirect[i] as int));
    }
}

/// Creating a file leaves every other file as it was: its inode, its bytes, and its blocks in
/// use, provided it shares no block with the directory the file is created in.
pub proof fn lemma_create_keeps_other_file<D: BlockDevice>(fs0: FileSystem<D>, fs1: FileSystem<D>, dir: int, c: int, other: int)
    requires
        fs0.wf(),
        fs1.inode_area_start() == fs0.inode_area_start(),
        fs1.data_bitmap_start() == fs0.data_bitmap_start(),
        fs1.data_bitmap_blocks() == fs0.data_bitmap_blocks(),
        fs1.data_area_start() == fs0.data_area_start(),
        fs1.view().len() == fs0.view().len(),
        create_confined(fs0, fs1, dir, c),
        fs0.inode_area_start() <= dir < fs0.data_bitmap_start(),
        0 <= c < fs0.data_bitmap_start() - fs0.inode_area_start(),
        fs0.inode_area_start() <= other < fs0.data_bitmap_start(),
        other != dir,
        other != fs0.inode_area_start() + c,
        fs0.inode_ok(fs0.inode_at(other)),
        forall|b: int| #[trigger] owned_by(fs0.inode_at(other), fs0.view(), b) ==> !owned_by(fs0.inode_at(dir), fs0.view(), b),
    ensures
        fs1.inode_at(other) == fs0.inode_at(other),
        fs1.file_content(other) == fs0.file_content(other),
        fs1.inode_ok(fs1.inode_at(other)),
{
    reveal(create_confined);
    fs0.lemma_wf();
    let v0 = fs0.view();
    let v1 = fs1.view();
    let dbs = fs0.data_bitmap_start();
    let das = fs0.data_area_start();
    let nbits = fs0.data_bits();
    let node = fs0.inode_at(other);
    let d = data_blocks_of(node.size as int);
    assert(v1[other] == v0[other]);
    assert(fs1.inode_at(other) == node);
    crate::inode_alloc::lemma_owned_self(node, v0);
    assert forall|b: int| #[trigger] owned_by(node, v0, b) && block_in_use(v0, dbs, das, nbits, b) implies v1[b] == v0[b] by {
        if v1[b] != v0[b] {
            assert(!owned_by(fs0.inode_at(dir), v0, b));
            assert(!old_or_fresh(v0, dbs, das, nbits, fs0.inode_at(dir), b));
        }
    }
    assert forall|i: int| 0 <= i < indirect_count(d) implies #[trigger] v1[node.indirect[i] as int] == v0[node.indirect[i] as int] by {
        assert(block_in_use(v0, dbs, das, nbits, node.indirect[i] as int));
        assert(owned_by(node, v0, node.indirect[i] as int));
    }
    lemma_mapping_frame(node, v0, v1, d);
    assert forall|k: int| 0 <= k < d implies #[trigger] v1[node.block_id(v0, k)] == v0[node.block_id(v0, k)] by {
        assert(block_in_use(v0, dbs, das, nbits, node.block_id(v0, k)));
        assert(owned_by(node, v0, node.block_id(v0, k)));
    }
    assert forall|p: int| 0 <= p < node.size implies #[trigger] node.content(v1, p) == node.content(v0, p) by {
        vstd::arithmetic::div_mod::lemma_div_is_ordered(p, node.size as int - 1, 512);
        vstd::arithmetic::div_mod::lemma_fundamental_div_mod(node.size as int + 511, 512);
        vstd::arithmetic::div_mod::lemma_fundamental_div_mod(node.size as int - 1, 512);
        assert(v1[node.block_id(v0, p / 512)] == v0[node.block_id(v0, p / 512)]);
    }
    assert(fs1.file_content(other) =~= fs0.file_content(other));
    assert forall|b: int| block_in_use(v0, dbs, das, nbits, b) implies #[trigger] block_in_use(v1, dbs, das, nbits, b) by {
        assert(fs0.data_bit(b - das));
    }
    assert forall|k: int| 0 <= k < d implies #[trigger] block_in_use(v1, dbs, das, nbits, node.block_id(v1, k)) by {
        assert(block_in_use(v0, dbs, das, nbits, node.block_id(v0, k)));
    }
    assert forall|i: int| 0 <= i < indirect_count(d) implies #[trigger] block_in_use(v1, dbs, das, nbits, node.indirect[i] as int) by {
        assert(block_in_use(v0, dbs, das, nbits, node.indirect[i] as int));
    }
}

/// Clearing one file leaves every other file as it was: its inode, its bytes, and its blocks
/// in use, provided the two files share no block.
pub proof fn lemma_clear_keeps_other_file<D: BlockDevice>(fs0: FileSystem<D>, fs1: FileSystem<D>, ib: int, other: int)
    requires
        fs0.wf(),
        fs1.data_bitmap_start() == fs0.data_bitmap_start(),
        fs1.data_bitmap_blocks() == fs0.data_bitmap_blocks(),
        fs1.data_area_start() == fs0.data_area_start(),
        fs1.view().len() == fs0.view().len(),
        fs0.inode_ok(fs0.inode_at(ib)),
        forall|b: int| 0 <= b < fs0.data_bitmap_start() && b != ib ==> #[trigger] fs1.view()[b] == fs0.view()[b],
        forall|b: int| 0 <= b < fs0.view().len() && fs1.view()[b] != fs0.view()[b]
            ==> b == ib || (fs0.data_bitmap_start() <= b < fs0.data_area_start())
            || #[trigger] owned_by(fs0.inode_at(ib), fs0.view(), b),
        ({
            let node = fs0.inode_at(ib);
            let released = cleared_blocks(fs0.view(), node.direct, node.indirect, data_blocks_of(node.size as int));
            forall|c: int| 0 <= c < fs0.data_bits() ==> #[trigger] fs1.data_bit(c)
                == (fs0.data_bit(c) && !lists_block(released, released.len() as int, c + fs0.data_area_start()))
        }),
        0 <= other < fs0.data_bitmap_start(),
        0 <= ib < fs0.data_bitmap_start(),
        other != ib,
        fs0.inode_ok(fs0.inode_at(other)),
        forall|b: int| #[trigger] owned_by(fs0.inode_at(other), fs0.view(), b) ==> !owned_by(fs0.inode_at(ib), fs0.view(), b),
    ensures
        fs1.inode_at(other) == fs0.inode_at(other),
        fs1.file_content(other) == fs0.file_content(other),
        fs1.inode_ok(fs1.inode_at(other)),
{
    fs0.lemma_wf();
    let v0 = fs0.view();
    let v1 = fs1.view();
    let dbs = fs0.data_bitmap_start();
    let das = fs0.data_area_start();
    let nbits = fs0.data_bits();
    let node = fs0.inode_at(other);
    let victim = fs0.inode_at(ib);
    let released = cleared_blocks(v0, victim.direct, victim.indirect, data_blocks_of(victim.size as int));
    let d = data_blocks_of(node.size as int);
    crate::inode_alloc::lemma_cleared_in_use(v0, dbs, das, nbits, victim);
    assert(v1[other] == v0[other]);
    assert(fs1.inode_at(other) == node);
    crate::inode_alloc::lemma_owned_self(node, v0);
    assert forall|b: int| #[trigger] owned_by(node, v0, b) && block_in_use(v0, dbs, das, nbits, b) implies v1[b] == v0[b]
        && bitmap_bit(v1, dbs, b - das) by {
        assert(!owned_by(victim, v0, b));
        if lists_block(released, released.len() as int, b) {
            let y = choose|y: int| 0 <= y < released.len() && released[y] == b;
            assert(block_in_use(v0, dbs, das, nbits, released[y] as int) && owned_by(victim, v0, released[y] as int));
        }
        assert(fs0.data_bit(b - das));
        assert(fs1.data_bit(b - das));
    }
    assert forall|i: int| 0 <= i < indirect_count(d) implies #[trigger] v1[node.indirect[i] as int] == v0[node.indirect[i] as int] by {
        assert(block_in_use(v0, dbs, das, nbits, node.indirect[i] as int));
        assert(owned_by(node, v0, node.indirect[i] as int));
    }
    lemma_mapping_frame(node, v0, v1, d);
    assert forall|k: int| 0 <= k < d implies #[trigger] v1[node.block_id(v0, k)] == v0[node.block_id(v0, k)] by {
        assert(block_in_use(v0, dbs, das, nbits, node.block_id(v0, k)));
        assert(owned_by(node, v0, node.block_id(v0, k)));
    }
    assert forall|p: int| 0 <= p < node.size implies #[trigger] node.content(v1, p) == node.content(v0, p) by {
        vstd::arithmetic::div_mod::lemma_div_is_ordered(p, node.size as int - 1, 512);
        vstd::arithmetic::div_mod::lemma_fundamental_div_mod(node.size as int + 511, 512);
        vstd::arithmetic::div_mod::lemma_fundamental_div_mod(node.size as int - 1, 512);
        assert(v1[node.block_id(v0, p / 512)] == v0[node.block_id(v0, p / 512)]);
    }
    assert(fs1.file_content(other) =~= fs0.file_content(other));
    assert forall|k: int| 0 <= k < d implies #[trigger] block_in_use(v1, dbs, das, nbits, node.block_id(v1, k)) by {
        assert(block_in_use(v0, dbs, das, nbits, node.block_id(v0, k)));
        assert(owned_by(node, v0, node.block_id(v0, k)));
    }
    assert forall|i: int| 0 <= i < indirect_count(d) implies #[trigger] block_in_use(v1, dbs, das, nbits, node.indirect[i] as int) by {
        assert(block_in_use(v0, dbs, das, nbits, node.indirect[i] as int));
        assert(owned_by(node, v0, node.indirect[i] as int));
    }
}

/// A directory whose entries are terminated and name inodes in range keeps so when an entry
/// with a short name, naming an inode in range, is appended.
#[verifier::spinoff_prover]
pub proof fn lemma_entries_ok_after_append(before: Seq<u8>, after: Seq<u8>, name: Seq<u8>, c: u32, ias: int)
    requires
        name.len() <= 27,
        ias + c <= u32::MAX,
        forall|i: int| 0 <= i < entry_count(before) ==> {
            &&& #[trigger] entry_terminated(before, i)
            &&& ias + entry_inode(before, i) <= u32::MAX
        },
        written_bytes(
            before,
            after,
            32 * entry_count(before),
            dirent_bytes(name + Seq::new((28 - name.len()) as nat, |i: int| 0u8), c),
        ),
    ensures
        forall|i: int| 0 <= i < entry_count(after) ==> {
            &&& #[trigger] entry_terminated(after, i)
            &&& ias + entry_inode(after, i) <= u32::MAX
        },
{
    let n = entry_count(before);
    let field = name + Seq::new((28 - name.len()) as nat, |i: int| 0u8);
    vstd::arithmetic::div_mod::lemma_fundamental_div_mod(before.len() as int, 32);
    vstd::arithmetic::div_mod::lemma_fundamental_div_mod_converse(32 * n + 32, 32, n + 1, 0);
    crate::codec::lemma_u32_roundtrip(c);
    assert forall|i: int| 0 <= i < entry_count(after) implies {
        &&& #[trigger] entry_terminated(after, i)
        &&& ias + entry_inode(after, i) <= u32::MAX
    } by {
        if i < n {
            assert(after.subrange(32 * i, 32 * i + 28) =~= before.subrange(32 * i, 32 * i + 28));
            assert(entry_terminated(before, i));
            let f = before.subrange(32 * i, 32 * i + 28);
            let j = choose|j: int| 0 <= j < f.len() && f[j] == 0;
            assert(after.subrange(32 * i, 32 * i + 28)[j] == 0);
            assert(entry_inode(after, i) == entry_inode(before, i));
        } else {
            assert(i == n);
            assert(after.subrange(32 * i, 32 * i + 28) =~= field);
            assert(field[name.len() as int] == 0);
            assert(entry_inode(after, i) == c);
        }
    }
}

/// What clearing a file touches: its inode block, the data bitmap, and blocks released from
/// the file.
pub proof fn lemma_clear_changes(
    v0: Seq<Seq<u8>>,
    v1: Seq<Seq<u8>>,
    v2: Seq<Seq<u8>>,
    dbs: int,
    das: int,
    nbits: int,
    i0: InodeView,
    blocks: Seq<u32>,
    ib: int,
)
    requires
        v1.len() == v0.len(),
        v2.len() == v0.len(),
        forall|x: int| 0 <= x < blocks.len() ==> #[trigger] block_in_use(v0, dbs, das, nbits, blocks[x] as int) && owned_by(i0, v0, blocks[x] as int),
        forall|x: int| 0 <= x < dbs ==> #[trigger] v1[x] == v0[x],
        forall|x: int| das <= x < v0.len() && v1[x] != v0[x] ==> #[trigger] lists_block(blocks, blocks.len() as int, x),
        forall|b: int| 0 <= b < v1.len() && b != ib ==> #[trigger] v2[b] == v1[b],
    ensures
        forall|b: int| 0 <= b < v0.len() && v2[b] != v0[b] ==> b == ib || (dbs <= b < das) || #[trigger] owned_by(i0, v0, b),
{
    assert forall|b: int| 0 <= b < v0.len() && v2[b] != v0[b] implies b == ib || (dbs <= b < das) || #[trigger] owned_by(i0, v0, b) by {
        if b != ib && !(dbs <= b < das) {
            assert(v2[b] == v1[b]);
            if b < dbs {
                assert(v1[b] == v0[b]);
            } else {
                assert(lists_block(blocks, blocks.len() as int, b));
                let y = choose|y: int| 0 <= y < blocks.len() && blocks[y] == b;
                assert(block_in_use(v0, dbs, das, nbits, blocks[y] as int) && owned_by(i0, v0, blocks[y] as int));
            }
        }
    }
}

} // verus!
