use vstd::prelude::*;

verus! {

/// Size of a disk block in bytes.
pub const BLOCK_SZ: usize = 512;

/// A device made of numbered blocks of `BLOCK_SZ` bytes each.
///
/// The device is seen as the sequence of its blocks; reading a block gives back what the
/// last write to it stored.  Besides the contents, the device keeps the record of the writes
/// made to it.
pub trait BlockDevice {
    /// The contents of every block, in block order.
    spec fn blocks(&self) -> Seq<Seq<u8>>;

    /// The block of each write made so far, one entry per call of `write_block`, oldest first.
    spec fn writes(&self) -> Seq<usize>;

    /// The device is in a usable state.
    spec fn inv(&self) -> bool;

    /// A usable device holds blocks of exactly `BLOCK_SZ` bytes.
    proof fn lemma_inv(&self)
        requires
            self.inv(),
        ensures
            self.blocks().len() <= usize::MAX,
            forall|i: int| 0 <= i < self.blocks().len() ==> #[trigger] self.blocks()[i].len() == BLOCK_SZ,
    ;

    /// The number of blocks of the device.
    fn num_blocks(&self) -> (n: usize)
        requires
            self.inv(),
        ensures
            n == self.blocks().len(),
    ;

    /// Copies block `block_id` into `buf`.
    fn read_block(&self, block_id: usize, buf: &mut [u8])
        requires
            self.inv(),
            block_id < self.blocks().len(),
            old(buf)@.len() == BLOCK_SZ,
        ensures
            final(buf)@ == self.blocks()[block_id as int],
    ;

    /// Stores `buf` as the new contents of block `block_id`.
    fn write_block(&mut self, block_id: usize, buf: &[u8])
        requires
            old(self).inv(),
            block_id < old(self).blocks().len(),
            buf@.len() == BLOCK_SZ,
        ensures
            final(self).inv(),
            final(self).blocks() == old(self).blocks().update(block_id as int, buf@),
            final(self).writes() == old(self).writes().push(block_id),
    ;
}

/// A block device kept in memory.
pub struct MemoryBlockDevice {
    blocks: Vec<Vec<u8>>,
    written: Ghost<Seq<usize>>,
}

impl MemoryBlockDevice {
    /// A device of `num_blocks` zeroed blocks.
    pub fn new(num_blocks: usize) -> (r: Self)
        ensures
            r.inv(),
            r.blocks().len() == num_blocks,
            r.writes() == Seq::<usize>::empty(),
            forall|i: int, j: int|
                0 <= i < num_blocks && 0 <= j < BLOCK_SZ ==> #[trigger] r.blocks()[i][j] == 0u8,
    {
        let mut blocks: Vec<Vec<u8>> = Vec::new();
        let mut i: usize = 0;
        while i < num_blocks
            invariant
                i <= num_blocks,
                blocks@.len() == i,
                forall|k: int| 0 <= k < i ==> #[trigger] blocks@[k]@ == Seq::new(BLOCK_SZ as nat, |j: int| 0u8),
            decreases num_blocks - i,
        {
            blocks.push(zeroed_block());
            i += 1;
        }
        let r = Self { blocks, written: Ghost(Seq::empty()) };
        assert forall|i: int, j: int| 0 <= i < num_blocks && 0 <= j < BLOCK_SZ implies #[trigger] r.blocks()[i][j] == 0u8 by {
            assert(r.blocks()[i] == blocks@[i]@);
        }
        r
    }

}

/// A block of zero bytes.
pub fn zeroed_block() -> (r: Vec<u8>)
    ensures
        r@ == Seq::new(BLOCK_SZ as nat, |j: int| 0u8),
{
    let mut v: Vec<u8> = Vec::new();
    let mut i: usize = 0;
    while i < BLOCK_SZ
        invariant
            i <= BLOCK_SZ,
            v@ == Seq::new(i as nat, |j: int| 0u8),
        decreases BLOCK_SZ - i,
    {
        v.push(0u8);
        i += 1;
        assert(v@ =~= Seq::new(i as nat, |j: int| 0u8));
    }
    v
}

/// A copy of the bytes of `s`.
pub fn copy_bytes(s: &[u8]) -> (r: Vec<u8>)
    ensures
        r@ == s@,
{
    let mut v: Vec<u8> = Vec::new();
    let mut i: usize = 0;
    while i < s.len()
        invariant
            i <= s@.len(),
            v@ == s@.take(i as int),
        decreases s@.len() - i,
    {
        v.push(s[i]);
        i += 1;
        assert(v@ =~= s@.take(i as int));
    }
    assert(s@.take(i as int) =~= s@);
    v
}

impl BlockDevice for MemoryBlockDevice {
    closed spec fn blocks(&self) -> Seq<Seq<u8>> {
        Seq::new(self.blocks@.len(), |i: int| self.blocks@[i]@)
    }

    closed spec fn writes(&self) -> Seq<usize> {
        self.written@
    }

    closed spec fn inv(&self) -> bool {
        &&& self.blocks@.len() <= usize::MAX
        &&& forall|i: int| 0 <= i < self.blocks@.len() ==> #[trigger] self.blocks@[i]@.len() == BLOCK_SZ
    }

    proof fn lemma_inv(&self) {
    }

    fn num_blocks(&self) -> (n: usize) {
        self.blocks.len()
    }

    fn read_block(&self, block_id: usize, buf: &mut [u8]) {
        let block = &self.blocks[block_id];
        let mut i: usize = 0;
        while i < buf.len()
            invariant
                self.inv(),
                block_id < self.blocks@.len(),
                block@ == self.blocks@[block_id as int]@,
                buf@.len() == BLOCK_SZ,
                i <= BLOCK_SZ,
                forall|j: int| 0 <= j < i ==> buf@[j] == block@[j],
            decreases BLOCK_SZ - i,
        {
            buf[i] = block[i];
            i += 1;
        }
        assert(buf@ =~= self.blocks()[block_id as int]);
    }

    fn write_block(&mut self, block_id: usize, buf: &[u8]) {
        let v = copy_bytes(buf);
        self.blocks.set(block_id, v);
        self.written = Ghost(self.written@.push(block_id));
        assert(self.blocks() =~= old(self).blocks().update(block_id as int, buf@));
    }
}

} // verus!
