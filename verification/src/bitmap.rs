use crate::block_cache::{splice, CachedDisk};
use crate::block_dev::{BlockDevice, BLOCK_SZ};
use vstd::prelude::*;

verus! {

/// Number of bits in a block.
pub const BLOCK_BITS: usize = 4096;

/// Whether bit `k` of `byte` is set.
pub open spec fn bit_is_set(byte: u8, k: u8) -> bool {
    (byte >> k) & 1u8 == 1u8
}

/// `byte` with bit `k` set.
pub open spec fn with_bit_set(byte: u8, k: u8) -> u8 {
    byte | (1u8 << k)
}

/// `byte` with bit `k` cleared.
pub open spec fn with_bit_cleared(byte: u8, k: u8) -> u8 {
    byte & !(1u8 << k)
}

/// Setting bit `k` of a byte sets that bit and keeps the others.
pub proof fn lemma_bit_set(x: u8, k: u8, j: u8)
    requires
        k < 8,
        j < 8,
    ensures
        bit_is_set(with_bit_set(x, k), j) == (j == k || bit_is_set(x, j)),
{
    assert(bit_is_set(x | (1u8 << k), j) == (j == k || bit_is_set(x, j))) by (bit_vector)
        requires
            k < 8,
            j < 8,
    ;
}

/// Clearing bit `k` of a byte clears that bit and keeps the others.
pub proof fn lemma_bit_cleared(x: u8, k: u8, j: u8)
    requires
        k < 8,
        j < 8,
    ensures
        bit_is_set(with_bit_cleared(x, k), j) == (j != k && bit_is_set(x, j)),
{
    assert(bit_is_set(x & !(1u8 << k), j) == (j != k && bit_is_set(x, j))) by (bit_vector)
        requires
            k < 8,
            j < 8,
    ;
}

/// Clearing a bit that was just set gives the byte back.
pub proof fn lemma_set_then_clear(x: u8, k: u8)
    requires
        k < 8,
        !bit_is_set(x, k),
    ensures
        with_bit_cleared(with_bit_set(x, k), k) == x,
{
    assert((x | (1u8 << k)) & !(1u8 << k) == x) by (bit_vector)
        requires
            k < 8,
            (x >> k) & 1u8 != 1u8,
    ;
}

/// A byte with every bit set.
pub proof fn lemma_full_byte(x: u8, j: u8)
    requires
        x == 0xffu8,
        j < 8,
    ensures
        bit_is_set(x, j),
{
    assert((x >> j) & 1u8 == 1u8) by (bit_vector)
        requires
            x == 0xffu8,
            j < 8,
    ;
}

/// A byte that is not full has a clear bit.
pub proof fn lemma_not_full_byte(x: u8)
    requires
        x != 0xffu8,
    ensures
        exists|j: u8| j < 8 && !bit_is_set(x, j),
{
    assert(!bit_is_set(x, 0) || !bit_is_set(x, 1) || !bit_is_set(x, 2) || !bit_is_set(x, 3)
        || !bit_is_set(x, 4) || !bit_is_set(x, 5) || !bit_is_set(x, 6) || !bit_is_set(x, 7)) by {
        assert(((x >> 0u8) & 1u8 != 1u8) || ((x >> 1u8) & 1u8 != 1u8) || ((x >> 2u8) & 1u8 != 1u8)
            || ((x >> 3u8) & 1u8 != 1u8) || ((x >> 4u8) & 1u8 != 1u8) || ((x >> 5u8) & 1u8 != 1u8)
            || ((x >> 6u8) & 1u8 != 1u8) || ((x >> 7u8) & 1u8 != 1u8)) by (bit_vector)
            requires
                x != 0xffu8,
        ;
    }
}

/// Position of a bit: (block, byte within the block, bit within the byte).
pub proof fn lemma_bit_position(blk: int, byte: int, bit: int)
    requires
        0 <= blk,
        0 <= byte < 512,
        0 <= bit < 8,
    ensures
        ({
            let b = blk * 4096 + byte * 8 + bit;
            &&& b / 4096 == blk
            &&& (b % 4096) / 8 == byte
            &&& b % 8 == bit
        }),
{
    let b = blk * 4096 + byte * 8 + bit;
    vstd::arithmetic::div_mod::lemma_fundamental_div_mod_converse(b, 4096, blk, byte * 8 + bit);
    vstd::arithmetic::div_mod::lemma_fundamental_div_mod_converse(byte * 8 + bit, 8, byte, bit);
    vstd::arithmetic::div_mod::lemma_fundamental_div_mod_converse(b, 8, blk * 512 + byte, bit);
}

proof fn lemma_word_to_byte(bit: int)
    requires
        0 <= bit,
    ensures
        ((bit % 4096) / 64) * 8 + (bit % 64) / 8 == (bit % 4096) / 8,
        (bit % 64) % 8 == bit % 8,
{
    let r = bit % 4096;
    vstd::arithmetic::div_mod::lemma_mod_mod(bit, 64, 64);
    vstd::arithmetic::div_mod::lemma_mod_mod(bit, 8, 8);
    assert(r % 64 == bit % 64);
    vstd::arithmetic::div_mod::lemma_fundamental_div_mod(r, 64);
    vstd::arithmetic::div_mod::lemma_fundamental_div_mod(r % 64, 8);
    vstd::arithmetic::div_mod::lemma_fundamental_div_mod_converse(
        r,
        8,
        8 * (r / 64) + (r % 64) / 8,
        (r % 64) % 8,
    );
}

/// Whether bit `b` of the bitmap starting at block `start` is set on `disk`.
pub open spec fn bitmap_bit(disk: Seq<Seq<u8>>, start: int, b: int) -> bool {
    bit_is_set(disk[start + b / 4096][(b % 4096) / 8], (b % 8) as u8)
}

/// `disk` with bit `b` of the bitmap starting at block `start` set to `v`.
pub open spec fn set_bitmap_bit(disk: Seq<Seq<u8>>, start: int, b: int, v: bool) -> Seq<Seq<u8>> {
    let blk = start + b / 4096;
    let byte = (b % 4096) / 8;
    let x = disk[blk][byte];
    let y = if v {
        with_bit_set(x, (b % 8) as u8)
    } else {
        with_bit_cleared(x, (b % 8) as u8)
    };
    disk.update(blk, disk[blk].update(byte, y))
}

/// Decomposes a bit number into (block, word of 64 bits within the block, bit within the
/// word).
pub fn decomposition(bit: usize) -> (r: (usize, usize, usize))
    ensures
        r.0 == bit / BLOCK_BITS,
        r.1 == (bit % BLOCK_BITS) / 64,
        r.2 == bit % 64,
{
    let block_pos = bit / BLOCK_BITS;
    let rest = bit % BLOCK_BITS;
    proof {
        vstd::arithmetic::div_mod::lemma_mod_mod(bit as int, 64, 64);
        vstd::arithmetic::div_mod::lemma_mod_breakdown(bit as int, 64, 64);
    }
    (block_pos, rest / 64, rest % 64)
}

/// A bitmap stored in `blocks` consecutive blocks from block `start_block_id`.
pub struct Bitmap {
    start_block_id: usize,
    blocks: usize,
}

impl Bitmap {
    pub closed spec fn start(&self) -> usize {
        self.start_block_id
    }

    pub closed spec fn num_blocks(&self) -> usize {
        self.blocks
    }

    /// A bitmap of `blocks` blocks starting at block `start_block_id`.
    pub fn new(start_block_id: usize, blocks: usize) -> (r: Self)
        ensures
            r.start() == start_block_id,
            r.num_blocks() == blocks,
    {
        Self { start_block_id, blocks }
    }

    /// The number of bits of the bitmap.
    pub fn maximum(&self) -> (r: usize)
        requires
            self.num_blocks() * BLOCK_BITS <= usize::MAX,
        ensures
            r == self.num_blocks() * BLOCK_BITS,
    {
        self.blocks * BLOCK_BITS
    }

    /// Sets the first clear bit of the bitmap and returns its number; `None` when every bit is
    /// set.
    pub fn allocate<D: BlockDevice>(&self, disk: &mut CachedDisk<D>) -> (r: Option<usize>)
        requires
            old(disk).inv(),
            self.start() + self.num_blocks() <= old(disk).view().len(),
            self.num_blocks() * BLOCK_BITS <= usize::MAX,
        ensures
            final(disk).inv(),
            match r {
                Some(b) => {
                    &&& b < self.num_blocks() * BLOCK_BITS
                    &&& !bitmap_bit(old(disk).view(), self.start() as int, b as int)
                    &&& forall|c: int|
                        0 <= c < b ==> #[trigger] bitmap_bit(old(disk).view(), self.start() as int, c)
                    &&& final(disk).view() == set_bitmap_bit(
                        old(disk).view(),
                        self.start() as int,
                        b as int,
                        true,
                    )
                },
                None => {
                    &&& forall|c: int|
                        0 <= c < self.num_blocks() * BLOCK_BITS ==> #[trigger] bitmap_bit(
                            old(disk).view(),
                            self.start() as int,
                            c,
                        )
                    &&& final(disk).view() == old(disk).view()
                },
            },
    {
        let ghost d0 = disk.view();
        let ghost start = self.start_block_id as int;
        proof {
            disk.lemma_inv();
        }
        let mut block_id: usize = 0;
        while block_id < self.blocks
            invariant
                disk.inv(),
                disk.view() == d0,
                old(disk).view() == d0,
                start == self.start_block_id,
                self.start_block_id + self.blocks <= d0.len(),
                self.blocks * BLOCK_BITS <= usize::MAX,
                d0.len() <= usize::MAX,
                block_id <= self.blocks,
                forall|i: int| 0 <= i < d0.len() ==> #[trigger] d0[i].len() == BLOCK_SZ,
                forall|c: int| 0 <= c < block_id * 4096 ==> #[trigger] bitmap_bit(d0, start, c),
            decreases self.blocks - block_id,
        {
            let id = block_id + self.start_block_id;
            let data = disk.read_block(id);
            let mut i: usize = 0;
            while i < BLOCK_SZ
                invariant
                    disk.inv(),
                    disk.view() == d0,
                    old(disk).view() == d0,
                    start == self.start_block_id,
                    id == block_id + start,
                    block_id < self.blocks,
                    self.start_block_id + self.blocks <= d0.len(),
                    self.blocks * BLOCK_BITS <= usize::MAX,
                    d0.len() <= usize::MAX,
                    data@ == d0[id as int],
                    data@.len() == BLOCK_SZ,
                    i <= BLOCK_SZ,
                    forall|c: int|
                        0 <= c < block_id * 4096 + i * 8 ==> #[trigger] bitmap_bit(d0, start, c),
                decreases BLOCK_SZ - i,
            {
                let byte = data[i];
                if byte != 0xffu8 {
                    proof {
                        lemma_not_full_byte(byte);
                    }
                    let mut j: u8 = 0;
                    while (byte >> j) & 1u8 == 1u8
                        invariant
                            j < 8,
                            exists|k: u8| j <= k < 8 && !bit_is_set(byte, k),
                            forall|k: u8| k < j ==> #[trigger] bit_is_set(byte, k),
                        decreases 8 - j,
                    {
                        j += 1;
                    }
                    let new_byte = byte | (1u8 << j);
                    let b = block_id * BLOCK_BITS + i * 8 + j as usize;
                    proof {
                        lemma_bit_position(block_id as int, i as int, j as int);
                        assert forall|c: int| 0 <= c < b implies #[trigger] bitmap_bit(d0, start, c) by {
                            if c >= block_id * 4096 + i * 8 {
                                let k = c - (block_id * 4096 + i * 8);
                                lemma_bit_position(block_id as int, i as int, k);
                                assert(bit_is_set(byte, k as u8));
                            }
                        }
                    }
                    let bytes = [new_byte];
                    disk.modify_block(id, i, bytes.as_slice());
                    proof {
                        assert(bytes@ =~= seq![new_byte]);
                        assert(splice(d0[id as int], i as int, seq![new_byte]) =~= d0[id as int].update(
                            i as int,
                            new_byte,
                        ));
                        assert(start + b / 4096 == id);
                        assert((b % 4096) / 8 == i);
                        assert((b % 8) as u8 == j);
                        assert(d0[id as int][i as int] == byte);
                        assert(new_byte == with_bit_set(byte, j));
                        assert(disk.view() == set_bitmap_bit(d0, start, b as int, true));
                        assert(!bit_is_set(byte, j));
                        assert(!bitmap_bit(d0, start, b as int));
                        assert(b < self.blocks * 4096) by {
                            assert(block_id + 1 <= self.blocks);
                            vstd::arithmetic::mul::lemma_mul_inequality(block_id as int + 1, self.blocks as int, 4096);
                        }
                        assert(old(disk).view() == d0);
                        assert(forall|c: int| 0 <= c < b ==> #[trigger] bitmap_bit(old(disk).view(), self.start() as int, c));
                        assert(b < self.num_blocks() * BLOCK_BITS);
                        assert(final(disk).view() == set_bitmap_bit(old(disk).view(), self.start() as int, b as int, true));
                    }
                    return Some(b);
                }
                proof {
                    assert forall|c: int| 0 <= c < block_id * 4096 + (i + 1) * 8 implies #[trigger] bitmap_bit(d0, start, c) by {
                        if c >= block_id * 4096 + i * 8 {
                            let k = c - (block_id * 4096 + i * 8);
                            lemma_bit_position(block_id as int, i as int, k);
                            lemma_full_byte(byte, k as u8);
                        }
                    }
                }
                i += 1;
            }
            block_id += 1;
        }
        None
    }

    /// Clears bit `bit` of the bitmap.
    pub fn dealloc<D: BlockDevice>(&self, disk: &mut CachedDisk<D>, bit: usize)
        requires
            old(disk).inv(),
            self.start() + bit / BLOCK_BITS < old(disk).view().len(),
        ensures
            final(disk).inv(),
            final(disk).view() == set_bitmap_bit(old(disk).view(), self.start() as int, bit as int, false),
    {
        proof {
            disk.lemma_inv();
        }
        let (block_pos, bits64_pos, inner_pos) = decomposition(bit);
        let id = block_pos + self.start_block_id;
        let byte_pos = bits64_pos * 8 + inner_pos / 8;
        proof {
            lemma_word_to_byte(bit as int);
        }
        let data = disk.read_block(id);
        let byte = data[byte_pos];
        let new_byte = byte & !(1u8 << ((inner_pos % 8) as u8));
        let bytes = [new_byte];
        disk.modify_block(id, byte_pos, bytes.as_slice());
        proof {
            let d0 = old(disk).view();
            assert(bytes@ =~= seq![new_byte]);
            assert(splice(d0[id as int], byte_pos as int, seq![new_byte]) =~= d0[id as int].update(
                byte_pos as int,
                new_byte,
            ));
        }
    }
}

/// A bit number is its block, byte and bit within the byte.
pub proof fn lemma_bit_decompose(c: int)
    requires
        0 <= c,
    ensures
        c == (c / 4096) * 4096 + ((c % 4096) / 8) * 8 + c % 8,
        0 <= (c % 4096) / 8 < 512,
        c % 8 == (c % 4096) % 8,
{
    vstd::arithmetic::div_mod::lemma_fundamental_div_mod(c, 4096);
    vstd::arithmetic::div_mod::lemma_fundamental_div_mod(c % 4096, 8);
    vstd::arithmetic::div_mod::lemma_mod_mod(c, 512, 8);
}

/// Changing bit `b` of a bitmap leaves every other bit, and every other block, as it was.
pub proof fn lemma_set_bitmap_bit_effect(d: Seq<Seq<u8>>, start: int, b: int, v: bool, c: int)
    requires
        0 <= start,
        0 <= b,
        0 <= c,
        start + b / 4096 < d.len(),
        start + c / 4096 < d.len(),
        forall|i: int| 0 <= i < d.len() ==> #[trigger] d[i].len() == 512,
    ensures
        bitmap_bit(set_bitmap_bit(d, start, b, v), start, c) == if c == b {
            v
        } else {
            bitmap_bit(d, start, c)
        },
        set_bitmap_bit(d, start, b, v).len() == d.len(),
        forall|x: int| 0 <= x < d.len() && x != start + b / 4096 ==> #[trigger] set_bitmap_bit(d, start, b, v)[x] == d[x],
        forall|x: int| 0 <= x < d.len() ==> #[trigger] set_bitmap_bit(d, start, b, v)[x].len() == 512,
{
    lemma_bit_decompose(b);
    lemma_bit_decompose(c);
    let blk = start + b / 4096;
    let byte = (b % 4096) / 8;
    let x = d[blk][byte];
    let k = (b % 8) as u8;
    let j = (c % 8) as u8;
    if start + c / 4096 == blk && (c % 4096) / 8 == byte {
        if v {
            lemma_bit_set(x, k, j);
        } else {
            lemma_bit_cleared(x, k, j);
        }
        if c != b {
            assert(c % 8 != b % 8);
        }
    }
}

/// The clear bits among the first `n` bits of the bitmap starting at block `start`.
pub open spec fn free_bits(d: Seq<Seq<u8>>, start: int, n: int) -> Set<int> {
    Set::new(|c: int| 0 <= c < n && !bitmap_bit(d, start, c))
}

/// A bitmap has finitely many clear bits.
pub proof fn lemma_free_bits_finite(d: Seq<Seq<u8>>, start: int, n: int)
    ensures
        free_bits(d, start, n).finite(),
{
    let r = Set::new(|c: int| 0 <= c < n);
    if n > 0 {
        assert(r =~= vstd::set_lib::set_int_range(0, n));
    } else {
        assert(r =~= Set::empty());
    }
    assert(free_bits(d, start, n).subset_of(r));
    if n > 0 {
        vstd::set_lib::lemma_int_range(0, n);
        vstd::set::axiom_set_intersect_finite(r, free_bits(d, start, n));
        assert(free_bits(d, start, n) =~= r.intersect(free_bits(d, start, n)));
    } else {
        assert(free_bits(d, start, n) =~= Set::empty());
    }
}

/// Setting a clear bit removes it from the clear bits.
pub proof fn lemma_free_bits_after_set(d: Seq<Seq<u8>>, start: int, n: int, b: int)
    requires
        0 <= start,
        0 <= b < n,
        start + (n - 1) / 4096 < d.len(),
        forall|i: int| 0 <= i < d.len() ==> #[trigger] d[i].len() == 512,
        !bitmap_bit(d, start, b),
    ensures
        free_bits(set_bitmap_bit(d, start, b, true), start, n) == free_bits(d, start, n).remove(b),
        free_bits(set_bitmap_bit(d, start, b, true), start, n).len() + 1 == free_bits(d, start, n).len(),
{
    let d1 = set_bitmap_bit(d, start, b, true);
    vstd::arithmetic::div_mod::lemma_div_is_ordered(b, n - 1, 4096);
    assert forall|c: int| #[trigger] free_bits(d1, start, n).contains(c) <==> free_bits(d, start, n).remove(b).contains(c) by {
        if 0 <= c < n {
            vstd::arithmetic::div_mod::lemma_div_is_ordered(c, n - 1, 4096);
            lemma_set_bitmap_bit_effect(d, start, b, true, c);
        }
    }
    assert(free_bits(d1, start, n) =~= free_bits(d, start, n).remove(b));
    lemma_free_bits_finite(d, start, n);
}

/// Clearing a set bit adds exactly that bit to the clear bits: after [`Bitmap::dealloc`] of
/// `b`, the clear bits are those before and `b`, so [`Bitmap::allocate`], which takes the
/// least clear bit, next hands out the least of them.
pub proof fn lemma_free_bits_after_clear(d: Seq<Seq<u8>>, start: int, n: int, b: int)
    requires
        0 <= start,
        0 <= b < n,
        start + (n - 1) / 4096 < d.len(),
        forall|i: int| 0 <= i < d.len() ==> #[trigger] d[i].len() == 512,
        bitmap_bit(d, start, b),
    ensures
        free_bits(set_bitmap_bit(d, start, b, false), start, n) == free_bits(d, start, n).insert(b),
{
    let d1 = set_bitmap_bit(d, start, b, false);
    vstd::arithmetic::div_mod::lemma_div_is_ordered(b, n - 1, 4096);
    assert forall|c: int| #[trigger] free_bits(d1, start, n).contains(c) <==> free_bits(d, start, n).insert(b).contains(c) by {
        if 0 <= c < n {
            vstd::arithmetic::div_mod::lemma_div_is_ordered(c, n - 1, 4096);
            lemma_set_bitmap_bit_effect(d, start, b, false, c);
        }
    }
    assert(free_bits(d1, start, n) =~= free_bits(d, start, n).insert(b));
}

/// Clearing a bit that was just set gives the disk back: [`Bitmap::dealloc`] of the bit that
/// [`Bitmap::allocate`] returned undoes the allocation.
pub proof fn lemma_dealloc_undoes_alloc(d: Seq<Seq<u8>>, start: int, b: int)
    requires
        0 <= start,
        0 <= b,
        start + b / 4096 < d.len(),
        forall|i: int| 0 <= i < d.len() ==> #[trigger] d[i].len() == 512,
        !bitmap_bit(d, start, b),
    ensures
        set_bitmap_bit(set_bitmap_bit(d, start, b, true), start, b, false) == d,
{
    lemma_bit_decompose(b);
    let blk = start + b / 4096;
    let byte = (b % 4096) / 8;
    lemma_set_then_clear(d[blk][byte], (b % 8) as u8);
    let d1 = set_bitmap_bit(d, start, b, true);
    assert(d1[blk][byte] == with_bit_set(d[blk][byte], (b % 8) as u8));
    assert(set_bitmap_bit(d1, start, b, false)[blk] =~= d[blk]);
    assert(set_bitmap_bit(d1, start, b, false) =~= d);
}

/// Freeing bit `b` when every bit below it is in use makes `b` the first clear bit, so that
/// [`Bitmap::allocate`] hands it out again next.
pub proof fn lemma_alloc_after_dealloc(d: Seq<Seq<u8>>, start: int, b: int)
    requires
        0 <= start,
        0 <= b,
        start + b / 4096 < d.len(),
        forall|i: int| 0 <= i < d.len() ==> #[trigger] d[i].len() == 512,
        forall|c: int| 0 <= c < b ==> #[trigger] bitmap_bit(d, start, c),
    ensures
        !bitmap_bit(set_bitmap_bit(d, start, b, false), start, b),
        forall|c: int| 0 <= c < b ==> #[trigger] bitmap_bit(set_bitmap_bit(d, start, b, false), start, c),
{
    lemma_set_bitmap_bit_effect(d, start, b, false, b);
    assert forall|c: int| 0 <= c < b implies #[trigger] bitmap_bit(set_bitmap_bit(d, start, b, false), start, c) by {
        vstd::arithmetic::div_mod::lemma_div_is_ordered(c, b, 4096);
        lemma_set_bitmap_bit_effect(d, start, b, false, c);
    }
}

} // verus!
