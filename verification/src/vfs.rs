use crate::block_dev::BlockDevice;
use crate::efs::{create_confined, entry_count, entry_inode, entry_name, first_match, read_window, FileSystem};
use crate::inode::data_blocks_of;
use crate::inode_alloc::written_bytes;
use crate::layout::{dirent_bytes, readable_name};
use vstd::prelude::*;
use vstd::string::StringSliceAdditionalSpecFns;
use vstd::utf8::encode_utf8;

verus! {

/// A file or directory of a file system, known by the block that holds its inode.
pub struct Inode {
    block_id: usize,
}

impl Inode {
    /// The block that holds the inode.
    pub closed spec fn block(&self) -> int {
        self.block_id as int
    }

    /// The file or directory whose inode is in block `block_id`.
    pub fn new(block_id: u32) -> (r: Self)
        ensures
            r.block() == block_id,
    {
        Self { block_id: block_id as usize }
    }

    /// The file named `name` in this directory.
    pub fn find<D: BlockDevice>(&self, fs: &mut FileSystem<D>, name: &str) -> (r: Option<Inode>)
        requires
            old(fs).wf(),
            self.block() < old(fs).view().len(),
            old(fs).inode_readable(self.block()),
            old(fs).entries_ok(self.block()),
        ensures
            final(fs).wf(),
            final(fs).view() == old(fs).view(),
            final(fs).inode_area_start() == old(fs).inode_area_start(),
            final(fs).data_bitmap_start() == old(fs).data_bitmap_start(),
            final(fs).data_area_start() == old(fs).data_area_start(),
            match r {
                Some(node) => exists|i: int| #[trigger] first_match(old(fs).file_content(self.block()), name.spec_bytes(), i)
                    && node.block() == old(fs).inode_area_start() + entry_inode(old(fs).file_content(self.block()), i),
                None => forall|i: int| 0 <= i < entry_count(old(fs).file_content(self.block()))
                    ==> #[trigger] entry_name(old(fs).file_content(self.block()), i) != name.spec_bytes(),
            },
    {
        match fs.find_in(self.block_id, name) {
            Some(b) => Some(Inode { block_id: b }),
            None => None,
        }
    }

    /// Creates an empty file named `name` in this directory; `None` when the directory already
    /// names a file `name`.
    #[verifier::spinoff_prover]
    #[verifier::rlimit(50)]
    pub fn create<D: BlockDevice>(&self, fs: &mut FileSystem<D>, name: &str) -> (r: Option<Inode>)
        requires
            old(fs).wf(),
            old(fs).dir_ok(self.block()),
            name.spec_bytes().len() <= 28,
            exists|c: int| 0 <= c < old(fs).inode_bitmap_blocks() * 4096
                && c < old(fs).data_bitmap_start() - old(fs).inode_area_start()
                && !#[trigger] old(fs).inode_bit(c),
            old(fs).write_fits(self.block(), 32 * entry_count(old(fs).file_content(self.block())), 32),
        ensures
            final(fs).wf(),
            final(fs).inode_area_start() == old(fs).inode_area_start(),
            final(fs).data_bitmap_start() == old(fs).data_bitmap_start(),
            final(fs).data_area_start() == old(fs).data_area_start(),
            (r is None || name.spec_bytes().len() <= 27) ==> final(fs).dir_ok(self.block()),
            r is None <==> exists|i: int| 0 <= i < entry_count(old(fs).file_content(self.block()))
                && #[trigger] entry_name(old(fs).file_content(self.block()), i) == name.spec_bytes(),
            r is None ==> final(fs).view() == old(fs).view(),
            r matches Some(node) ==> {
                let c = node.block() - old(fs).inode_area_start();
                let count = entry_count(old(fs).file_content(self.block()));
                &&& 0 <= c < old(fs).data_bitmap_start() - old(fs).inode_area_start()
                &&& !old(fs).inode_bit(c)
                &&& forall|j: int| 0 <= j < c ==> #[trigger] old(fs).inode_bit(j)
                &&& final(fs).inode_bit(c)
                &&& final(fs).file_content(node.block()) == Seq::<u8>::empty()
                &&& final(fs).inode_ok(final(fs).inode_at(node.block()))
                &&& final(fs).inode_ok(final(fs).inode_at(self.block()))
                &&& written_bytes(
                    old(fs).file_content(self.block()),
                    final(fs).file_content(self.block()),
                    32 * count,
                    dirent_bytes(
                        name.spec_bytes() + Seq::new((28 - name.spec_bytes().len()) as nat, |i: int| 0u8),
                        c as u32,
                    ),
                )
                &&& final(fs).device_blocks() == final(fs).view()
                &&& name.spec_bytes().len() <= 27 ==> final(fs).entries_ok(self.block())
                &&& create_confined(*old(fs), *final(fs), self.block(), c)
            },
    {
        let created = fs.create_in(self.block_id, name);
        proof {
            let d = self.block() - old(fs).inode_area_start();
            assert(fs.inode_bit(d)) by {
                if created is Some {
                    reveal(create_confined);
                    assert(fs.inode_bit(d) == old(fs).inode_bit(d));
                }
            }
        }
        match created {
            Some(b) => Some(Inode { block_id: b }),
            None => None,
        }
    }

    /// The names in this directory, in the order of its entries.
    pub fn ls<D: BlockDevice>(&self, fs: &mut FileSystem<D>) -> (r: Vec<String>)
        requires
            old(fs).wf(),
            self.block() < old(fs).view().len(),
            old(fs).inode_readable(self.block()),
            forall|i: int| 0 <= i < entry_count(old(fs).file_content(self.block()))
                ==> #[trigger] readable_name(old(fs).file_content(self.block()).subrange(32 * i, 32 * i + 28)),
        ensures
            final(fs).wf(),
            final(fs).view() == old(fs).view(),
            r@.len() == entry_count(old(fs).file_content(self.block())),
            forall|i: int| 0 <= i < r@.len() ==> #[trigger] encode_utf8(r@[i]@) == entry_name(old(fs).file_content(self.block()), i),
    {
        fs.ls_in(self.block_id)
    }

    /// Reads the file from `offset` on into `buf`, up to the end of the file, and returns how
    /// many bytes were read.
    pub fn read_at<D: BlockDevice>(&self, fs: &mut FileSystem<D>, offset: usize, buf: &mut [u8]) -> (r: usize)
        requires
            old(fs).wf(),
            self.block() < old(fs).view().len(),
            old(fs).inode_readable(self.block()),
            offset + old(buf)@.len() <= usize::MAX,
        ensures
            final(fs).wf(),
            final(fs).view() == old(fs).view(),
            final(buf)@.len() == old(buf)@.len(),
            r == read_window(old(fs).file_content(self.block()), offset as int, old(buf)@.len() as int).len(),
            final(buf)@.take(r as int) == read_window(old(fs).file_content(self.block()), offset as int, old(buf)@.len() as int),
            forall|i: int| r <= i < old(buf)@.len() ==> #[trigger] final(buf)@[i] == old(buf)@[i],
    {
        fs.read_at(self.block_id, offset, buf)
    }

    /// Writes `buf` into the file at `offset`, growing the file as needed, and returns the number
    /// of bytes written.
    pub fn write_at<D: BlockDevice>(&self, fs: &mut FileSystem<D>, offset: usize, buf: &[u8]) -> (r: usize)
        requires
            old(fs).wf(),
            old(fs).inode_area_start() <= self.block() < old(fs).data_bitmap_start(),
            old(fs).inode_ok(old(fs).inode_at(self.block())),
            old(fs).write_fits(self.block(), offset as int, buf@.len() as int),
        ensures
            final(fs).wf(),
            final(fs).inode_area_start() == old(fs).inode_area_start(),
            final(fs).data_bitmap_start() == old(fs).data_bitmap_start(),
            final(fs).data_area_start() == old(fs).data_area_start(),
            r == buf@.len(),
            written_bytes(old(fs).file_content(self.block()), final(fs).file_content(self.block()), offset as int, buf@),
            final(fs).inode_ok(final(fs).inode_at(self.block())),
            final(fs).device_blocks() == final(fs).view(),
    {
        fs.write_at(self.block_id, offset, buf)
    }

    /// Empties the file, releasing its blocks.
    pub fn clear<D: BlockDevice>(&self, fs: &mut FileSystem<D>)
        requires
            old(fs).wf(),
            old(fs).inode_area_start() <= self.block() < old(fs).data_bitmap_start(),
            old(fs).inode_ok(old(fs).inode_at(self.block())),
            data_blocks_of(old(fs).inode_at(self.block()).size as int) > 63 ==> (data_blocks_of(old(fs).inode_at(self.block()).size as int) - 63) / 128 < 64,
        ensures
            final(fs).wf(),
            final(fs).inode_area_start() == old(fs).inode_area_start(),
            final(fs).data_bitmap_start() == old(fs).data_bitmap_start(),
            final(fs).data_area_start() == old(fs).data_area_start(),
            final(fs).file_content(self.block()) == Seq::<u8>::empty(),
            final(fs).inode_ok(final(fs).inode_at(self.block())),
            final(fs).device_blocks() == final(fs).view(),
    {
        fs.clear(self.block_id)
    }
}

} // verus!
