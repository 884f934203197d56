use crate::bitmap::bitmap_bit;
use crate::block_cache::splice;
use crate::inode::{block_entries, block_entry, cleared_blocks, indirect_list, data_blocks_of, entries_bytes, indirect_count, lemma_grown_mapping, lemma_mapping_frame, Growth, InodeView};
use vstd::prelude::*;

verus! {

/// Block `b` is a data block (the data area starts at block `das` and has `nbits` blocks) whose
/// bit in the data bitmap (which starts at block `dbs`) is set on `v`.
pub open spec fn block_in_use(v: Seq<Seq<u8>>, dbs: int, das: int, nbits: int, b: int) -> bool {
    &&& das <= b < das + nbits
    &&& bitmap_bit(v, dbs, b - das)
}

/// The inode maps each of its blocks to a distinct data block in use, keeps its data blocks
/// apart from its indirect blocks, and leaves its unused ids at zero.
pub open spec fn inode_fits(v: Seq<Seq<u8>>, dbs: int, das: int, nbits: int, inode: InodeView) -> bool {
    let d = data_blocks_of(inode.size as int);
    let n = indirect_count(d);
    &&& inode.direct.len() == 63
    &&& inode.indirect.len() == 64
    &&& inode.size + 512 <= u32::MAX
    &&& n <= 64
    &&& inode.blocks_mapped(v, 0, d)
    &&& inode.blocks_separate(v, 0, d)
    &&& forall|k: int| 0 <= k < d ==> #[trigger] block_in_use(v, dbs, das, nbits, inode.block_id(v, k))
    &&& forall|i: int| 0 <= i < n ==> #[trigger] block_in_use(v, dbs, das, nbits, inode.indirect[i] as int)
    &&& forall|i1: int, i2: int| 0 <= i1 < i2 < n ==> #[trigger] inode.indirect[i1] != #[trigger] inode.indirect[i2]
    &&& forall|k: int| d <= k < 63 ==> #[trigger] inode.direct[k] == 0
    &&& forall|i: int| n <= i < 64 ==> #[trigger] inode.indirect[i] == 0
}

/// `after` is `before` with `data` written at `offset`, the file growing as needed.  Bytes
/// between the old end and `offset` are left unsaid.
pub open spec fn written_bytes(before: Seq<u8>, after: Seq<u8>, offset: int, data: Seq<u8>) -> bool {
    &&& after.len() == vstd::math::max(before.len() as int, offset + data.len())
    &&& forall|p: int| offset <= p < offset + data.len() ==> #[trigger] after[p] == data[p - offset]
    &&& forall|p: int| 0 <= p < before.len() && !(offset <= p < offset + data.len()) ==> #[trigger] after[p] == before[p]
}

/// Block `b` is one of the blocks of `inode` on `v`: a data block or an indirect block.
pub open spec fn owned_by(inode: InodeView, v: Seq<Seq<u8>>, b: int) -> bool {
    let d = data_blocks_of(inode.size as int);
    ||| exists|k: int| 0 <= k < d && #[trigger] inode.block_id(v, k) == b
    ||| exists|i: int| 0 <= i < indirect_count(d) && #[trigger] inode.indirect[i] == b
}

/// Block `b` belonged to `inode` on `v`, or was not in use there.
pub open spec fn old_or_fresh(v: Seq<Seq<u8>>, dbs: int, das: int, nbits: int, inode: InodeView, b: int) -> bool {
    owned_by(inode, v, b) || !block_in_use(v, dbs, das, nbits, b)
}

/// Going from `v0` to `v1` changed only blocks of the data bitmap and blocks that belonged to
/// `inode` or were free on `v0`.
pub open spec fn changes_confined(v0: Seq<Seq<u8>>, v1: Seq<Seq<u8>>, dbs: int, das: int, nbits: int, inode: InodeView) -> bool {
    forall|b: int| 0 <= b < v0.len() && v1[b] != v0[b] ==> (dbs <= b < das) || #[trigger] old_or_fresh(v0, dbs, das, nbits, inode, b)
}

/// Every data block of `grown` on `v1` belonged to `inode` or was free on `v0`.
pub open spec fn blocks_confined(v0: Seq<Seq<u8>>, v1: Seq<Seq<u8>>, dbs: int, das: int, nbits: int, inode: InodeView, grown: InodeView) -> bool {
    forall|k: int| 0 <= k < data_blocks_of(grown.size as int) ==> #[trigger] old_or_fresh(v0, dbs, das, nbits, inode, grown.block_id(v1, k))
}

/// Blocks taken from the data area: each one distinct, free on `v0` and in use on `v1`.
pub open spec fn fresh_blocks(v0: Seq<Seq<u8>>, v1: Seq<Seq<u8>>, dbs: int, das: int, nbits: int, nb: Seq<u32>) -> bool {
    &&& forall|x: int| 0 <= x < nb.len() ==> das <= #[trigger] nb[x] < das + nbits
    &&& forall|x: int| 0 <= x < nb.len() ==> !bitmap_bit(v0, dbs, #[trigger] nb[x] - das)
    &&& forall|x: int| 0 <= x < nb.len() ==> bitmap_bit(v1, dbs, #[trigger] nb[x] - das)
    &&& forall|x: int, y: int| 0 <= x < y < nb.len() ==> #[trigger] nb[x] != #[trigger] nb[y]
}

/// Indirect block `i` of a file of `d` data blocks maps data block `63 + 128 * i`.
pub proof fn lemma_indirect_first(d: int, i: int)
    requires
        0 <= i < indirect_count(d),
    ensures
        63 + 128 * i < d,
        (63 + 128 * i - 63) / 128 == i,
{
    vstd::arithmetic::div_mod::lemma_fundamental_div_mod(d - 63 + 127, 128);
    vstd::arithmetic::div_mod::lemma_fundamental_div_mod_converse(128 * i, 128, i, 0);
}

/// The indirect blocks of a grown inode: in use, distinct, and apart from its data blocks.
pub proof fn lemma_grow_indirect(
    v0: Seq<Seq<u8>>,
    v1: Seq<Seq<u8>>,
    dbs: int,
    das: int,
    nbits: int,
    old_i: InodeView,
    new_i: InodeView,
    nb: Seq<u32>,
    g: Growth,
)
    requires
        inode_fits(v0, dbs, das, nbits, old_i),
        g.wf(),
        g.c0 == data_blocks_of(old_i.size as int),
        nb.len() >= g.consumed(),
        fresh_blocks(v0, v1, dbs, das, nbits, nb),
        forall|c: int| 0 <= c < nbits && #[trigger] bitmap_bit(v0, dbs, c) ==> bitmap_bit(v1, dbs, c),
        new_i.indirect == Seq::new(64, |i: int| if g.takes_ptr(i) { nb[g.base(i)] } else { old_i.indirect[i] }),
    ensures
        forall|i: int| 0 <= i < indirect_count(g.t) ==> #[trigger] block_in_use(v1, dbs, das, nbits, new_i.indirect[i] as int),
        forall|i1: int, i2: int| 0 <= i1 < i2 < indirect_count(g.t) ==> #[trigger] new_i.indirect[i1] != #[trigger] new_i.indirect[i2],
        forall|k: int, i: int| 0 <= k < g.c0 && 0 <= i < indirect_count(g.t) ==> #[trigger] old_i.block_id(v0, k) != #[trigger] new_i.indirect[i],
        forall|k: int, i: int| g.c0 <= k < g.t && 0 <= i < indirect_count(g.t) ==> #[trigger] nb[g.pos(k)] != #[trigger] new_i.indirect[i],
        forall|i: int| 0 <= i < indirect_count(g.t) && !g.takes_ptr(i) ==> i < indirect_count(g.c0),
        g.t > 63 ==> indirect_count(g.t) == g.i1() + 1,
{
    let c0 = g.c0;
    let t = g.t;
    g.lemma_positions();
    if t > 63 {
        vstd::arithmetic::div_mod::lemma_fundamental_div_mod(t - 64, 128);
        vstd::arithmetic::div_mod::lemma_fundamental_div_mod_converse(t - 63 + 127, 128, (t - 64) / 128 + 1, (t - 64) % 128);
    }
    assert forall|i: int| 0 <= i < indirect_count(t) && !g.takes_ptr(i) implies i < indirect_count(c0) by {
        if i < g.i0() {
            assert(c0 >= 63);
            vstd::arithmetic::div_mod::lemma_div_is_ordered(c0 - 63, c0 - 63 + 127, 128);
        }
    }
    assert forall|i: int| 0 <= i < indirect_count(t) implies #[trigger] block_in_use(v1, dbs, das, nbits, new_i.indirect[i] as int) by {
        if g.takes_ptr(i) {
            assert(nb[g.base(i)] == new_i.indirect[i]);
        } else {
            assert(block_in_use(v0, dbs, das, nbits, old_i.indirect[i] as int));
        }
    }
    assert forall|i1: int, i2: int| 0 <= i1 < i2 < indirect_count(t) implies #[trigger] new_i.indirect[i1] != #[trigger] new_i.indirect[i2] by {
        if g.takes_ptr(i1) && g.takes_ptr(i2) {
            let b1 = g.base(i1);
            let b2 = g.base(i2);
            if b1 < b2 {
                assert(nb[b1] != nb[b2]);
            } else {
                assert(nb[b2] != nb[b1]);
            }
        } else if g.takes_ptr(i1) {
            assert(block_in_use(v0, dbs, das, nbits, old_i.indirect[i2] as int));
            assert(!bitmap_bit(v0, dbs, nb[g.base(i1)] - das));
        } else if g.takes_ptr(i2) {
            assert(block_in_use(v0, dbs, das, nbits, old_i.indirect[i1] as int));
            assert(!bitmap_bit(v0, dbs, nb[g.base(i2)] - das));
        } else {
            assert(old_i.indirect[i1] != old_i.indirect[i2]);
        }
    }
    assert forall|k: int, i: int| 0 <= k < c0 && 0 <= i < indirect_count(t) implies #[trigger] old_i.block_id(v0, k) != #[trigger] new_i.indirect[i] by {
        assert(block_in_use(v0, dbs, das, nbits, old_i.block_id(v0, k)));
        if g.takes_ptr(i) {
            assert(!bitmap_bit(v0, dbs, nb[g.base(i)] - das));
        } else {
            lemma_indirect_first(c0, i);
            let k2 = 63 + 128 * i;
            assert(old_i.block_id(v0, k) != old_i.indirect[(k2 - 63) / 128]);
        }
    }
    assert forall|k: int, i: int| c0 <= k < t && 0 <= i < indirect_count(t) implies #[trigger] nb[g.pos(k)] != #[trigger] new_i.indirect[i] by {
        let p = g.pos(k);
        if g.takes_ptr(i) {
            let b = g.base(i);
            if p < b {
                assert(nb[p] != nb[b]);
            } else {
                assert(nb[b] != nb[p]);
            }
        } else {
            assert(block_in_use(v0, dbs, das, nbits, old_i.indirect[i] as int));
            assert(!bitmap_bit(v0, dbs, nb[p] - das));
        }
    }
}

/// Growing an inode with fresh blocks keeps it fitting the file system, keeps the bytes it held,
/// and changes neither the blocks before the data bitmap nor the bitmap itself.
#[verifier::rlimit(40)]
/// An inode grown with fresh blocks fits, and each of its data blocks lies where the growth put it.
pub proof fn lemma_grow_fits(
    v0: Seq<Seq<u8>>,
    v1: Seq<Seq<u8>>,
    v2: Seq<Seq<u8>>,
    dbs: int,
    das: int,
    nbits: int,
    old_i: InodeView,
    new_i: InodeView,
    nb: Seq<u32>,
    g: Growth,
)
    requires
        inode_fits(v0, dbs, das, nbits, old_i),
        0 <= dbs <= das,
        nbits == 4096 * (das - dbs),
        das + nbits <= v0.len(),
        v1.len() == v0.len(),
        v2.len() == v0.len(),
        forall|x: int| 0 <= x < v1.len() ==> #[trigger] v1[x].len() == 512,
        forall|x: int| 0 <= x < v0.len() ==> #[trigger] v0[x].len() == 512,
        g.wf(),
        g.c0 == data_blocks_of(old_i.size as int),
        g.t == data_blocks_of(new_i.size as int),
        old_i.size <= new_i.size,
        new_i.size + 512 <= u32::MAX,
        nb.len() >= g.consumed(),
        fresh_blocks(v0, v1, dbs, das, nbits, nb),
        forall|c: int| 0 <= c < nbits && #[trigger] bitmap_bit(v0, dbs, c) ==> bitmap_bit(v1, dbs, c),
        forall|b: int| 0 <= b < v0.len() && !(dbs <= b < das) ==> #[trigger] v1[b] == v0[b],
        new_i.direct == Seq::new(63, |i: int| if g.c0 <= i < g.cur() { nb[i - g.c0] } else { old_i.direct[i] }),
        new_i.indirect == Seq::new(64, |i: int| if g.takes_ptr(i) { nb[g.base(i)] } else { old_i.indirect[i] }),
        forall|b: int| 0 <= b < v1.len() && (g.t <= 63 || forall|i: int| g.i0() <= i <= g.i1() ==> #[trigger] new_i.indirect[i] != b) ==> #[trigger] v2[b] == v1[b],
        (g.t > 63 && forall|i1: int, i2: int| 0 <= i1 < i2 <= g.i1() ==> #[trigger] new_i.indirect[i1] != #[trigger] new_i.indirect[i2])
            ==> forall|i: int| g.i0() <= i <= g.i1() ==> #[trigger] v2[new_i.indirect[i] as int] == splice(
                v1[new_i.indirect[i] as int],
                4 * g.js(i),
                entries_bytes(nb, g.entry_pos(i, g.js(i)), g.je(i) - g.js(i)),
            ),
    ensures
        inode_fits(v2, dbs, das, nbits, new_i),
        forall|p: int| 0 <= p < old_i.size ==> #[trigger] new_i.content(v2, p) == old_i.content(v0, p),
        forall|b: int| 0 <= b < dbs ==> #[trigger] v2[b] == v0[b],
        forall|c: int| 0 <= c < nbits ==> #[trigger] bitmap_bit(v2, dbs, c) == bitmap_bit(v1, dbs, c),
        forall|k: int| 0 <= k < g.t ==> #[trigger] new_i.block_id(v2, k) == if k < g.c0 {
            old_i.block_id(v0, k)
        } else {
            nb[g.pos(k)] as int
        },
{
    let c0 = g.c0;
    let t = g.t;
    let n0 = indirect_count(c0);
    let nt = indirect_count(t);
    lemma_grow_indirect(v0, v1, dbs, das, nbits, old_i, new_i, nb, g);
    g.lemma_positions();
    crate::inode::lemma_total_blocks_monotonic(old_i.size as int, new_i.size as int);
    if c0 > 63 {
        vstd::arithmetic::div_mod::lemma_div_is_ordered(c0 - 63 + 127, t - 63 + 127, 128);
    }
    // the blocks that change on the way from v1 to v2 are indirect blocks of the new inode
    assert forall|b: int| 0 <= b < das implies #[trigger] v2[b] == v1[b] by {
        if t > 63 {
            assert forall|i: int| g.i0() <= i <= g.i1() implies #[trigger] new_i.indirect[i] != b by {
                assert(block_in_use(v1, dbs, das, nbits, new_i.indirect[i] as int));
            }
        }
    }
    assert forall|c: int| 0 <= c < nbits implies #[trigger] bitmap_bit(v2, dbs, c) == bitmap_bit(v1, dbs, c) by {
        vstd::arithmetic::div_mod::lemma_multiply_divide_lt(c, 4096, das - dbs);
        assert(v2[dbs + c / 4096] == v1[dbs + c / 4096]);
    }
    // the old inode on v1
    assert forall|i: int| 0 <= i < n0 implies #[trigger] v1[old_i.indirect[i] as int] == v0[old_i.indirect[i] as int] by {
        assert(block_in_use(v0, dbs, das, nbits, old_i.indirect[i] as int));
    }
    lemma_mapping_frame(old_i, v0, v1, c0);
    if t > 63 {
        assert forall|i: int| g.i0() <= i <= g.i1() implies #[trigger] new_i.indirect[i] < v1.len() by {
            assert(block_in_use(v1, dbs, das, nbits, new_i.indirect[i] as int));
        }
    }
    lemma_grown_mapping(old_i, new_i, g, nb, v1, v2);
    assert forall|k: int| 0 <= k < t implies #[trigger] new_i.block_id(v2, k) == if k < c0 {
        old_i.block_id(v0, k)
    } else {
        nb[g.pos(k)] as int
    } by {
        if k < c0 {
            assert(old_i.block_id(v1, k) == old_i.block_id(v0, k));
        }
    }
    // where each data block of the new inode lies, and that it is in use
    assert forall|k: int| 0 <= k < t implies #[trigger] block_in_use(v2, dbs, das, nbits, new_i.block_id(v2, k)) by {
        if k < c0 {
            assert(block_in_use(v0, dbs, das, nbits, old_i.block_id(v0, k)));
            assert(old_i.block_id(v1, k) == old_i.block_id(v0, k));
        } else {
            assert(0 <= g.pos(k) < nb.len());
            assert(das <= nb[g.pos(k)] < das + nbits);
        }
    }
    assert forall|k: int| 0 <= k < t implies #[trigger] new_i.block_mapped(v2, k) by {
        assert(block_in_use(v2, dbs, das, nbits, new_i.block_id(v2, k)));
        if k >= 63 {
            let i = (k - 63) / 128;
            vstd::arithmetic::div_mod::lemma_div_is_ordered(k - 63, t - 63, 128);
            assert(block_in_use(v1, dbs, das, nbits, new_i.indirect[i] as int));
        }
    }
    assert(new_i.blocks_separate(v2, 0, t)) by {
        assert forall|k1: int, k2: int| 0 <= k1 < t && 0 <= k2 < t && k1 != k2 implies #[trigger] new_i.block_id(v2, k1)
            != #[trigger] new_i.block_id(v2, k2) by {
            if k1 < c0 && k2 < c0 {
                assert(old_i.block_id(v0, k1) != old_i.block_id(v0, k2));
            } else if k1 < c0 {
                assert(block_in_use(v0, dbs, das, nbits, old_i.block_id(v0, k1)));
                assert(!bitmap_bit(v0, dbs, nb[g.pos(k2)] - das));
            } else if k2 < c0 {
                assert(block_in_use(v0, dbs, das, nbits, old_i.block_id(v0, k2)));
                assert(!bitmap_bit(v0, dbs, nb[g.pos(k1)] - das));
            } else if k1 < k2 {
                assert(g.pos(k1) < g.pos(k2));
                assert(nb[g.pos(k1)] != nb[g.pos(k2)]);
            } else {
                assert(g.pos(k2) < g.pos(k1));
                assert(nb[g.pos(k2)] != nb[g.pos(k1)]);
            }
        }
        assert forall|k1: int, k2: int| 0 <= k1 < t && 0 <= k2 < t && k2 >= 63 implies #[trigger] new_i.block_id(v2, k1)
            != #[trigger] new_i.indirect[(k2 - 63) / 128] by {
            let i = (k2 - 63) / 128;
            vstd::arithmetic::div_mod::lemma_div_is_ordered(k2 - 63, t - 63, 128);
            if k1 < c0 {
                assert(old_i.block_id(v0, k1) != new_i.indirect[i]);
            } else {
                assert(nb[g.pos(k1)] != new_i.indirect[i]);
            }
        }
    }
    assert forall|i: int| 0 <= i < nt implies #[trigger] block_in_use(v2, dbs, das, nbits, new_i.indirect[i] as int) by {
        assert(block_in_use(v1, dbs, das, nbits, new_i.indirect[i] as int));
    }
    assert forall|k: int| t <= k < 63 implies #[trigger] new_i.direct[k] == 0 by {
        assert(old_i.direct[k] == 0);
    }
    assert forall|i: int| nt <= i < 64 implies #[trigger] new_i.indirect[i] == 0 by {
        assert(old_i.indirect[i] == 0);
    }
    assert forall|p: int| 0 <= p < old_i.size implies #[trigger] new_i.content(v2, p) == old_i.content(v0, p) by {
        let k = p / 512;
        vstd::arithmetic::div_mod::lemma_div_is_ordered(p, old_i.size as int - 1, 512);
        vstd::arithmetic::div_mod::lemma_div_is_ordered(old_i.size as int - 1, old_i.size as int + 511, 512);
        vstd::arithmetic::div_mod::lemma_fundamental_div_mod(old_i.size as int + 511, 512);
        vstd::arithmetic::div_mod::lemma_fundamental_div_mod(old_i.size as int - 1, 512);
        assert(k < c0);
        let b = old_i.block_id(v0, k);
        assert(block_in_use(v0, dbs, das, nbits, b));
        assert(old_i.block_id(v1, k) == b);
        if t > 63 {
            assert forall|i: int| g.i0() <= i <= g.i1() implies #[trigger] new_i.indirect[i] != b by {
                assert(old_i.block_id(v0, k) != new_i.indirect[i]);
            }
        }
        assert(v2[b] == v1[b]);
        assert(v1[b] == v0[b]);
    }
}

/// Setting bit `b - das` of the data bitmap, which was clear, takes block `b` as one more fresh
/// block.
pub proof fn lemma_take_block(
    v0: Seq<Seq<u8>>,
    va: Seq<Seq<u8>>,
    dbs: int,
    das: int,
    nbits: int,
    nb: Seq<u32>,
    b: u32,
)
    requires
        0 <= dbs <= das,
        nbits == 4096 * (das - dbs),
        das + nbits <= v0.len(),
        va.len() == v0.len(),
        forall|x: int| 0 <= x < va.len() ==> #[trigger] va[x].len() == 512,
        fresh_blocks(v0, va, dbs, das, nbits, nb),
        forall|c: int| 0 <= c < nbits && #[trigger] bitmap_bit(v0, dbs, c) ==> bitmap_bit(va, dbs, c),
        forall|x: int| 0 <= x < v0.len() && !(dbs <= x < das) ==> #[trigger] va[x] == v0[x],
        das <= b < das + nbits,
        !bitmap_bit(va, dbs, b - das),
    ensures
        ({
            let vb = crate::bitmap::set_bitmap_bit(va, dbs, b - das, true);
            &&& vb.len() == v0.len()
            &&& forall|x: int| 0 <= x < vb.len() ==> #[trigger] vb[x].len() == 512
            &&& fresh_blocks(v0, vb, dbs, das, nbits, nb.push(b))
            &&& forall|c: int| 0 <= c < nbits && #[trigger] bitmap_bit(v0, dbs, c) ==> bitmap_bit(vb, dbs, c)
            &&& forall|x: int| 0 <= x < v0.len() && !(dbs <= x < das) ==> #[trigger] vb[x] == v0[x]
        }),
{
    let c = b - das;
    let vb = crate::bitmap::set_bitmap_bit(va, dbs, c, true);
    vstd::arithmetic::div_mod::lemma_multiply_divide_lt(c, 4096, das - dbs);
    assert forall|c2: int| 0 <= c2 < nbits implies #[trigger] bitmap_bit(vb, dbs, c2) == if c2 == c { true } else { bitmap_bit(va, dbs, c2) } by {
        vstd::arithmetic::div_mod::lemma_multiply_divide_lt(c2, 4096, das - dbs);
        crate::bitmap::lemma_set_bitmap_bit_effect(va, dbs, c, true, c2);
    }
    crate::bitmap::lemma_set_bitmap_bit_effect(va, dbs, c, true, c);
    let nb2 = nb.push(b);
    assert forall|x: int| 0 <= x < nb2.len() implies bitmap_bit(vb, dbs, #[trigger] nb2[x] - das) by {
        if x < nb.len() {
            assert(bitmap_bit(va, dbs, nb[x] - das));
        }
    }
    assert forall|x: int| 0 <= x < nb2.len() implies !bitmap_bit(v0, dbs, #[trigger] nb2[x] - das) by {
        if x == nb.len() {
            if bitmap_bit(v0, dbs, c) {
                assert(bitmap_bit(va, dbs, c));
            }
        }
    }
    assert forall|x: int, y: int| 0 <= x < y < nb2.len() implies #[trigger] nb2[x] != #[trigger] nb2[y] by {
        if y == nb.len() {
            assert(bitmap_bit(va, dbs, nb[x] - das));
        }
    }
    assert forall|x: int| 0 <= x < vb.len() implies #[trigger] vb[x].len() == 512 by {
    }
}

/// An inode keeps fitting, and its data blocks stay where they are, when neither the data
/// bitmap nor its indirect blocks change.
pub proof fn lemma_fits_frame(v: Seq<Seq<u8>>, w: Seq<Seq<u8>>, dbs: int, das: int, nbits: int, inode: InodeView)
    requires
        inode_fits(v, dbs, das, nbits, inode),
        0 <= dbs <= das,
        nbits == 4096 * (das - dbs),
        w.len() == v.len(),
        forall|b: int| dbs <= b < das ==> #[trigger] w[b] == v[b],
        forall|i: int| 0 <= i < indirect_count(data_blocks_of(inode.size as int)) ==> #[trigger] w[inode.indirect[i] as int] == v[inode.indirect[i] as int],
    ensures
        inode_fits(w, dbs, das, nbits, inode),
        forall|k: int| 0 <= k < data_blocks_of(inode.size as int) ==> #[trigger] inode.block_id(w, k) == inode.block_id(v, k),
        forall|p: int| 0 <= p < das + nbits ==> #[trigger] block_in_use(w, dbs, das, nbits, p) == block_in_use(v, dbs, das, nbits, p),
{
    let d = data_blocks_of(inode.size as int);
    lemma_mapping_frame(inode, v, w, d);
    assert forall|p: int| 0 <= p < das + nbits implies #[trigger] block_in_use(w, dbs, das, nbits, p) == block_in_use(v, dbs, das, nbits, p) by {
        if das <= p {
            vstd::arithmetic::div_mod::lemma_multiply_divide_lt(p - das, 4096, das - dbs);
            assert(w[dbs + (p - das) / 4096] == v[dbs + (p - das) / 4096]);
        }
    }
    assert forall|k: int| 0 <= k < d implies #[trigger] block_in_use(w, dbs, das, nbits, inode.block_id(w, k)) by {
        assert(block_in_use(v, dbs, das, nbits, inode.block_id(v, k)));
    }
    assert forall|i: int| 0 <= i < indirect_count(d) implies #[trigger] block_in_use(w, dbs, das, nbits, inode.indirect[i] as int) by {
        assert(block_in_use(v, dbs, das, nbits, inode.indirect[i] as int));
    }
}

/// The blocks a write of `len` bytes at `offset` goes through are mapped and kept apart, for a
/// fitting inode grown to cover the write.
pub proof fn lemma_write_range(v: Seq<Seq<u8>>, dbs: int, das: int, nbits: int, inode: InodeView, offset: int, len: int, old_size: int)
    requires
        inode_fits(v, dbs, das, nbits, inode),
        0 <= offset,
        0 <= len,
        inode.size >= offset + len,
        inode.size == vstd::math::max(old_size, offset + len),
        (len == 0 && offset >= old_size && offset % 512 == 0) ==> offset / 512 < 63,
        0 < v.len(),
    ensures
        ({
            let end = offset + len;
            let lo = offset / 512;
            let hi = if offset < end { (end - 1) / 512 + 1 } else { lo + 1 };
            &&& inode.blocks_mapped(v, lo, hi)
            &&& inode.blocks_separate(v, lo, hi)
            &&& hi <= data_blocks_of(inode.size as int) || (len == 0 && hi == lo + 1 && lo < 63 && inode.direct[lo] == 0)
        }),
{
    let size1 = inode.size as int;
    let d1 = data_blocks_of(size1);
    let end = offset + len;
    let lo = offset / 512;
    let hi = if offset < end { (end - 1) / 512 + 1 } else { lo + 1 };
    vstd::arithmetic::div_mod::lemma_fundamental_div_mod(size1 + 511, 512);
    if offset < end {
        vstd::arithmetic::div_mod::lemma_div_is_ordered(end - 1, size1 + 511, 512);
        vstd::arithmetic::div_mod::lemma_fundamental_div_mod(end - 1, 512);
        vstd::arithmetic::div_mod::lemma_div_is_ordered(offset, end - 1, 512);
    } else if offset < size1 || offset % 512 != 0 {
        vstd::arithmetic::div_mod::lemma_div_is_ordered(offset, size1 + 511, 512);
        vstd::arithmetic::div_mod::lemma_fundamental_div_mod(offset, 512);
    } else {
        vstd::arithmetic::div_mod::lemma_fundamental_div_mod(offset, 512);
    }
    if hi <= d1 {
        assert forall|k: int| lo <= k < hi implies #[trigger] inode.block_mapped(v, k) by {
            assert(inode.block_mapped(v, k));
        }
    } else {
        assert(lo < 63);
        assert(inode.direct[lo] == 0);
        assert(inode.block_mapped(v, lo));
    }
}

/// What a write through the data blocks `lo..hi` of a fitting inode leaves as it was: the data
/// bitmap, the indirect blocks, and so where every data block lies.
pub proof fn lemma_write_frame(v1: Seq<Seq<u8>>, v2: Seq<Seq<u8>>, dbs: int, das: int, nbits: int, inode: InodeView, offset: int, len: int)
    requires
        inode_fits(v1, dbs, das, nbits, inode),
        0 < dbs <= das,
        nbits == 4096 * (das - dbs),
        das + nbits <= v1.len(),
        0 <= offset,
        0 <= len,
        v2.len() == v1.len(),
        forall|x: int| 0 <= x < v1.len() ==> #[trigger] v1[x].len() == 512,
        forall|x: int| 0 <= x < v2.len() ==> #[trigger] v2[x].len() == 512,
        ({
            let end = offset + len;
            let lo = offset / 512;
            let hi = if offset < end { (end - 1) / 512 + 1 } else { lo + 1 };
            &&& hi <= data_blocks_of(inode.size as int) || (len == 0 && hi == lo + 1 && lo < 63 && inode.direct[lo] == 0)
                || (len == 0 && v2 == v1)
            &&& forall|b: int| 0 <= b < v1.len() && (forall|k: int| lo <= k < hi ==> #[trigger] inode.block_id(v1, k) != b) ==> #[trigger] v2[b] == v1[b]
            &&& forall|k: int, o: int| lo <= k < hi && 0 <= o < 512 && !(offset <= k * 512 + o < end)
                ==> #[trigger] v2[inode.block_id(v1, k)][o] == v1[inode.block_id(v1, k)][o]
        }),
    ensures
        inode_fits(v2, dbs, das, nbits, inode),
        forall|k: int| 0 <= k < data_blocks_of(inode.size as int) ==> #[trigger] inode.block_id(v2, k) == inode.block_id(v1, k),
        forall|b: int| 0 <= b < das ==> #[trigger] v2[b] == v1[b],
{
  if v2 != v1 {
    let d1 = data_blocks_of(inode.size as int);
    let end = offset + len;
    let lo = offset / 512;
    let hi = if offset < end { (end - 1) / 512 + 1 } else { lo + 1 };
    assert forall|i: int| 0 <= i < indirect_count(d1) implies #[trigger] v2[inode.indirect[i] as int] == v1[inode.indirect[i] as int] by {
        assert(block_in_use(v1, dbs, das, nbits, inode.indirect[i] as int));
        if hi <= d1 {
            lemma_indirect_first(d1, i);
            let k2 = 63 + 128 * i;
            assert forall|k: int| lo <= k < hi implies #[trigger] inode.block_id(v1, k) != inode.indirect[i] as int by {
                assert(inode.block_id(v1, k) != inode.indirect[(k2 - 63) / 128]);
            }
        } else {
            assert forall|k: int| lo <= k < hi implies #[trigger] inode.block_id(v1, k) != inode.indirect[i] as int by {
            }
        }
    }
    assert forall|b: int| 0 <= b < das implies #[trigger] v2[b] == v1[b] by {
        if hi <= d1 {
            assert forall|k: int| lo <= k < hi implies #[trigger] inode.block_id(v1, k) != b by {
                assert(block_in_use(v1, dbs, das, nbits, inode.block_id(v1, k)));
            }
        } else if b != 0 {
            assert forall|k: int| lo <= k < hi implies #[trigger] inode.block_id(v1, k) != b by {
            }
        } else {
            assert forall|o: int| 0 <= o < 512 implies #[trigger] v2[0][o] == v1[0][o] by {
                assert(v2[inode.block_id(v1, lo)][o] == v1[inode.block_id(v1, lo)][o]);
            }
            assert(v2[0] =~= v1[0]);
        }
    }
    lemma_fits_frame(v1, v2, dbs, das, nbits, inode);
  }
}

/// The bytes of a file after `data` was written at `offset`: the written ones, and the old ones
/// elsewhere.
pub proof fn lemma_write_content(
    v0: Seq<Seq<u8>>,
    v1: Seq<Seq<u8>>,
    v2: Seq<Seq<u8>>,
    v3: Seq<Seq<u8>>,
    dbs: int,
    das: int,
    nbits: int,
    i0: InodeView,
    i1: InodeView,
    offset: int,
    data: Seq<u8>,
)
    requires
        inode_fits(v1, dbs, das, nbits, i1),
        0 < das,
        das + nbits <= v1.len(),
        v2.len() == v1.len(),
        0 <= offset,
        i1.size == vstd::math::max(i0.size as int, offset + data.len()),
        forall|p: int| 0 <= p < i0.size ==> #[trigger] i1.content(v1, p) == i0.content(v0, p),
        ({
            let end = offset + data.len();
            let lo = offset / 512;
            let hi = if offset < end { (end - 1) / 512 + 1 } else { lo + 1 };
            &&& hi <= data_blocks_of(i1.size as int) || (data.len() == 0 && hi == lo + 1 && lo < 63 && i1.direct[lo] == 0)
                || (data.len() == 0 && v2 == v1)
            &&& forall|p: int| offset <= p < end ==> #[trigger] v2[i1.block_id(v1, p / 512)][p % 512] == data[p - offset]
            &&& forall|b: int| 0 <= b < v1.len() && (forall|k: int| lo <= k < hi ==> #[trigger] i1.block_id(v1, k) != b) ==> #[trigger] v2[b] == v1[b]
            &&& forall|k: int, o: int| lo <= k < hi && 0 <= o < 512 && !(offset <= k * 512 + o < end)
                ==> #[trigger] v2[i1.block_id(v1, k)][o] == v1[i1.block_id(v1, k)][o]
        }),
        forall|b: int| das <= b < v2.len() ==> #[trigger] v3[b] == v2[b],
        forall|k: int| 0 <= k < data_blocks_of(i1.size as int) ==> #[trigger] i1.block_id(v3, k) == i1.block_id(v1, k),
    ensures
        written_bytes(
            Seq::new(i0.size as nat, |p: int| i0.content(v0, p)),
            Seq::new(i1.size as nat, |p: int| i1.content(v3, p)),
            offset,
            data,
        ),
{
    let size1 = i1.size as int;
    let d1 = data_blocks_of(size1);
    let end = offset + data.len();
    let lo = offset / 512;
    let hi = if offset < end { (end - 1) / 512 + 1 } else { lo + 1 };
    let before = Seq::new(i0.size as nat, |p: int| i0.content(v0, p));
    let after = Seq::new(i1.size as nat, |p: int| i1.content(v3, p));
    vstd::arithmetic::div_mod::lemma_fundamental_div_mod(size1 + 511, 512);
    vstd::arithmetic::div_mod::lemma_fundamental_div_mod(size1 - 1, 512);
    assert forall|p: int| 0 <= p < size1 implies #[trigger] (p / 512) < d1 by {
        vstd::arithmetic::div_mod::lemma_div_is_ordered(p, size1 - 1, 512);
    }
    assert forall|p: int| offset <= p < end implies #[trigger] after[p] == data[p - offset] by {
        let k = p / 512;
        vstd::arithmetic::div_mod::lemma_div_is_ordered(p, size1 + 511, 512);
        let b = i1.block_id(v1, k);
        assert(block_in_use(v1, dbs, das, nbits, b));
    }
    assert forall|p: int| 0 <= p < before.len() && !(offset <= p < end) implies #[trigger] after[p] == before[p] by {
        let k = p / 512;
        vstd::arithmetic::div_mod::lemma_div_is_ordered(p, size1 + 511, 512);
        vstd::arithmetic::div_mod::lemma_fundamental_div_mod(p, 512);
        let b = i1.block_id(v1, k);
        assert(block_in_use(v1, dbs, das, nbits, b));
        if lo <= k < hi {
            assert(k * 512 + p % 512 == p);
            assert(v2[b][p % 512] == v1[b][p % 512]);
        } else if v2 != v1 {
            assert forall|k2: int| lo <= k2 < hi implies #[trigger] i1.block_id(v1, k2) != b by {
                if hi <= d1 {
                    assert(i1.block_id(v1, k2) != i1.block_id(v1, k));
                }
            }
        }
        assert(i1.content(v1, p) == i0.content(v0, p));
    }
}

/// The blocks listed by the first `n` indirect blocks of a fitting inode are in use.
#[verifier::spinoff_prover]
/// The blocks listed in the indirect blocks of a fitting inode are in use and belong to it.
pub proof fn lemma_indirect_list_in_use(v: Seq<Seq<u8>>, dbs: int, das: int, nbits: int, inode: InodeView, n: int)
    requires
        inode_fits(v, dbs, das, nbits, inode),
        data_blocks_of(inode.size as int) > 63,
        0 <= n <= indirect_count(data_blocks_of(inode.size as int)),
        das + nbits <= u32::MAX,
    ensures
        ({
            let l = indirect_list(v, inode.indirect, data_blocks_of(inode.size as int), n);
            forall|x: int| 0 <= x < l.len() ==> #[trigger] block_in_use(v, dbs, das, nbits, l[x] as int) && owned_by(inode, v, l[x] as int)
        }),
    decreases n,
{
    let d = data_blocks_of(inode.size as int);
    if n > 0 {
        lemma_indirect_list_in_use(v, dbs, das, nbits, inode, n - 1);
        crate::inode::lemma_indirect_count_exact(d);
        let i = n - 1;
        let je = if i == (d - 63) / 128 { (d - 63) % 128 } else { 128 };
        let ib = inode.indirect[i];
        let es = block_entries(v[ib as int], je);
        vstd::arithmetic::div_mod::lemma_fundamental_div_mod(d - 63, 128);
        assert forall|j: int| 0 <= j < je implies #[trigger] block_in_use(v, dbs, das, nbits, es[j] as int) && owned_by(inode, v, es[j] as int) by {
            let k = 63 + 128 * i + j;
            vstd::arithmetic::div_mod::lemma_fundamental_div_mod_converse(k - 63, 128, i, j);
            assert(inode.block_id(v, k) == block_entry(v[ib as int], j));
            assert(block_in_use(v, dbs, das, nbits, inode.block_id(v, k)));
            assert(inode.block_id(v, k) == es[j] as int);
            assert(0 <= k < d);
            assert(owned_by(inode, v, es[j] as int));
        }
        assert(block_in_use(v, dbs, das, nbits, ib as int));
        assert(0 <= i < indirect_count(d) && inode.indirect[i] == ib);
        assert(owned_by(inode, v, ib as int));
        let l = indirect_list(v, inode.indirect, d, n);
        let l0 = indirect_list(v, inode.indirect, d, n - 1);
        assert(l == l0 + seq![ib] + es);
        assert forall|x: int| 0 <= x < l.len() implies #[trigger] block_in_use(v, dbs, das, nbits, l[x] as int) && owned_by(inode, v, l[x] as int) by {
            if x < l0.len() {
                assert(l[x] == l0[x]);
                assert(block_in_use(v, dbs, das, nbits, l0[x] as int) && owned_by(inode, v, l0[x] as int));
            } else if x == l0.len() {
                assert(l[x] == ib);
            } else {
                let j = x - l0.len() - 1;
                assert(l[x] == es[j]);
                assert(block_in_use(v, dbs, das, nbits, es[j] as int) && owned_by(inode, v, es[j] as int));
            }
        }
    } else {
        assert(indirect_list(v, inode.indirect, d, n) =~= Seq::<u32>::empty());
    }
}

/// The blocks released when a fitting inode is cleared are in use.
pub proof fn lemma_cleared_in_use(v: Seq<Seq<u8>>, dbs: int, das: int, nbits: int, inode: InodeView)
    requires
        inode_fits(v, dbs, das, nbits, inode),
        das + nbits <= u32::MAX,
    ensures
        ({
            let l = cleared_blocks(v, inode.direct, inode.indirect, data_blocks_of(inode.size as int));
            forall|x: int| 0 <= x < l.len() ==> #[trigger] block_in_use(v, dbs, das, nbits, l[x] as int) && owned_by(inode, v, l[x] as int)
        }),
{
    let d = data_blocks_of(inode.size as int);
    let m = vstd::math::min(d, 63);
    let head = inode.direct.take(m);
    let l = cleared_blocks(v, inode.direct, inode.indirect, d);
    if d > 63 {
        lemma_indirect_list_in_use(v, dbs, das, nbits, inode, indirect_count(d));
    }
    assert forall|x: int| 0 <= x < l.len() implies #[trigger] block_in_use(v, dbs, das, nbits, l[x] as int) && owned_by(inode, v, l[x] as int) by {
        if x < m {
            assert(l[x] == inode.direct[x]);
            assert(inode.block_id(v, x) == inode.direct[x]);
            assert(block_in_use(v, dbs, das, nbits, inode.block_id(v, x)));
            assert(inode.block_id(v, x) == l[x] as int);
        } else {
            let tail = indirect_list(v, inode.indirect, d, indirect_count(d));
            assert(l[x] == tail[x - m]);
        }
    }
}

/// Block `b` occurs in the first `n` ids of `l`.
pub open spec fn lists_block(l: Seq<u32>, n: int, b: int) -> bool {
    exists|x: int| 0 <= x < n && l[x] == b
}

/// Zeroing data block `b` and clearing its bit clears that bit alone, and changes no block
/// before the data area.
pub proof fn lemma_release_step(va: Seq<Seq<u8>>, vb: Seq<Seq<u8>>, dbs: int, das: int, nbits: int, z: Seq<u8>, b: int)
    requires
        0 < dbs <= das,
        nbits == 4096 * (das - dbs),
        das + nbits <= va.len(),
        forall|x: int| 0 <= x < va.len() ==> #[trigger] va[x].len() == 512,
        z.len() == 512,
        das <= b < das + nbits,
        vb == crate::bitmap::set_bitmap_bit(va.update(b, z), dbs, b - das, false),
    ensures
        vb.len() == va.len(),
        forall|x: int| 0 <= x < vb.len() ==> #[trigger] vb[x].len() == 512,
        forall|c: int| 0 <= c < nbits ==> #[trigger] bitmap_bit(vb, dbs, c) == (c != b - das && bitmap_bit(va, dbs, c)),
        forall|x: int| 0 <= x < dbs ==> #[trigger] vb[x] == va[x],
        forall|x: int| das <= x < va.len() && x != b ==> #[trigger] vb[x] == va[x],
        vb[b] == z,
{
    let vu = va.update(b, z);
    vstd::arithmetic::div_mod::lemma_multiply_divide_lt(b - das, 4096, das - dbs);
    assert forall|c: int| 0 <= c < nbits implies #[trigger] bitmap_bit(vb, dbs, c) == (c != b - das && bitmap_bit(va, dbs, c)) by {
        vstd::arithmetic::div_mod::lemma_multiply_divide_lt(c, 4096, das - dbs);
        crate::bitmap::lemma_set_bitmap_bit_effect(vu, dbs, b - das, false, c);
        assert(vu[dbs + c / 4096] == va[dbs + c / 4096]);
    }
    assert forall|x: int| 0 <= x < vb.len() implies #[trigger] vb[x].len() == 512 by {
    }
}

/// What growing an inode touches: blocks of the data bitmap, blocks that were free, and blocks
/// of the inode itself; the grown inode holds only such blocks.
pub proof fn lemma_grow_frame(
    v0: Seq<Seq<u8>>,
    v1: Seq<Seq<u8>>,
    v2: Seq<Seq<u8>>,
    dbs: int,
    das: int,
    nbits: int,
    old_i: InodeView,
    new_i: InodeView,
    nb: Seq<u32>,
    g: Growth,
)
    requires
        inode_fits(v0, dbs, das, nbits, old_i),
        0 <= dbs <= das,
        nbits == 4096 * (das - dbs),
        das + nbits <= v0.len(),
        v1.len() == v0.len(),
        v2.len() == v0.len(),
        g.wf(),
        g.c0 == data_blocks_of(old_i.size as int),
        nb.len() >= g.consumed(),
        fresh_blocks(v0, v1, dbs, das, nbits, nb),
        forall|c: int| 0 <= c < nbits && #[trigger] bitmap_bit(v0, dbs, c) ==> bitmap_bit(v1, dbs, c),
        forall|b: int| 0 <= b < v0.len() && !(dbs <= b < das) ==> #[trigger] v1[b] == v0[b],
        new_i.indirect == Seq::new(64, |i: int| if g.takes_ptr(i) { nb[g.base(i)] } else { old_i.indirect[i] }),
        forall|b: int| 0 <= b < v1.len() && (g.t <= 63 || forall|i: int| g.i0() <= i <= g.i1() ==> #[trigger] new_i.indirect[i] != b) ==> #[trigger] v2[b] == v1[b],
        forall|k: int| 0 <= k < g.t ==> #[trigger] new_i.block_id(v2, k) == if k < g.c0 {
            old_i.block_id(v0, k)
        } else {
            nb[g.pos(k)] as int
        },
    ensures
        forall|b: int| 0 <= b < v0.len() && v2[b] != v0[b] ==> (dbs <= b < das) || #[trigger] old_or_fresh(v0, dbs, das, nbits, old_i, b),
        forall|k: int| 0 <= k < g.t ==> #[trigger] old_or_fresh(v0, dbs, das, nbits, old_i, new_i.block_id(v2, k)),
        forall|i: int| 0 <= i < indirect_count(g.t) ==> #[trigger] old_or_fresh(v0, dbs, das, nbits, old_i, new_i.indirect[i] as int),
{
    lemma_grow_indirect(v0, v1, dbs, das, nbits, old_i, new_i, nb, g);
    g.lemma_positions();
    assert forall|i: int| 0 <= i < indirect_count(g.t) implies #[trigger] old_or_fresh(v0, dbs, das, nbits, old_i, new_i.indirect[i] as int) by {
        if g.takes_ptr(i) {
            assert(!bitmap_bit(v0, dbs, nb[g.base(i)] - das));
        } else {
            assert(i < indirect_count(g.c0));
            assert(new_i.indirect[i] == old_i.indirect[i]);
        }
    }
    assert forall|k: int| 0 <= k < g.t implies #[trigger] old_or_fresh(v0, dbs, das, nbits, old_i, new_i.block_id(v2, k)) by {
        if k < g.c0 {
            assert(old_i.block_id(v0, k) == new_i.block_id(v2, k));
        } else {
            assert(!bitmap_bit(v0, dbs, nb[g.pos(k)] - das));
        }
    }
    assert forall|b: int| 0 <= b < v0.len() && v2[b] != v0[b] implies (dbs <= b < das) || #[trigger] old_or_fresh(v0, dbs, das, nbits, old_i, b) by {
        if !(dbs <= b < das) {
            assert(v1[b] == v0[b]);
            assert(g.t > 63);
            let i = choose|i: int| g.i0() <= i <= g.i1() && #[trigger] new_i.indirect[i] == b;
            assert(i < indirect_count(g.t));
            assert(old_or_fresh(v0, dbs, das, nbits, old_i, new_i.indirect[i] as int));
        }
    }
}

/// The blocks of an inode are its own.
pub proof fn lemma_owned_self(inode: InodeView, v: Seq<Seq<u8>>)
    ensures
        forall|k: int| 0 <= k < data_blocks_of(inode.size as int) ==> #[trigger] owned_by(inode, v, inode.block_id(v, k)),
        forall|i: int| 0 <= i < indirect_count(data_blocks_of(inode.size as int)) ==> #[trigger] owned_by(inode, v, inode.indirect[i] as int),
{
    assert forall|k: int| 0 <= k < data_blocks_of(inode.size as int) implies #[trigger] owned_by(inode, v, inode.block_id(v, k)) by {
        assert(inode.block_id(v, k) == inode.block_id(v, k));
    }
    assert forall|i: int| 0 <= i < indirect_count(data_blocks_of(inode.size as int)) implies #[trigger] owned_by(inode, v, inode.indirect[i] as int) by {
        assert(inode.indirect[i] == inode.indirect[i]);
    }
}

/// What a write to a file touches: its inode block, the data bitmap, and blocks that belonged
/// to the file or were free.
pub proof fn lemma_write_changes(
    v0: Seq<Seq<u8>>,
    v1: Seq<Seq<u8>>,
    v2: Seq<Seq<u8>>,
    v3: Seq<Seq<u8>>,
    dbs: int,
    das: int,
    nbits: int,
    i0: InodeView,
    i1: InodeView,
    ib: int,
    offset: int,
    len: int,
)
    requires
        v1.len() == v0.len(),
        v2.len() == v0.len(),
        v3.len() == v0.len(),
        0 <= offset,
        0 <= len,
        0 < dbs <= das,
        changes_confined(v0, v1, dbs, das, nbits, i0),
        blocks_confined(v0, v1, dbs, das, nbits, i0, i1),
        ({
            let end = offset + len;
            let lo = offset / 512;
            let hi = if offset < end { (end - 1) / 512 + 1 } else { lo + 1 };
            &&& hi <= data_blocks_of(i1.size as int) || (len == 0 && hi == lo + 1 && lo < 63 && i1.direct[lo] == 0)
                || (len == 0 && v2 == v1)
            &&& forall|b: int| 0 <= b < v1.len() && (forall|k: int| lo <= k < hi ==> #[trigger] i1.block_id(v1, k) != b) ==> #[trigger] v2[b] == v1[b]
        }),
        forall|b: int| 0 <= b < das ==> #[trigger] v2[b] == v1[b],
        forall|b: int| 0 <= b < v2.len() && b != ib ==> #[trigger] v3[b] == v2[b],
    ensures
        forall|b: int| 0 <= b < v0.len() && v3[b] != v0[b] ==> b == ib || (dbs <= b < das) || #[trigger] old_or_fresh(v0, dbs, das, nbits, i0, b),
{
    let end = offset + len;
    let lo = offset / 512;
    let hi = if offset < end { (end - 1) / 512 + 1 } else { lo + 1 };
    assert forall|b: int| 0 <= b < v0.len() && v3[b] != v0[b] implies b == ib || (dbs <= b < das) || #[trigger] old_or_fresh(v0, dbs, das, nbits, i0, b) by {
        if b != ib && !(dbs <= b < das) {
            assert(v3[b] == v2[b]);
            if v2[b] != v1[b] {
                let k = choose|k: int| lo <= k < hi && #[trigger] i1.block_id(v1, k) == b;
                if hi <= data_blocks_of(i1.size as int) {
                    assert(old_or_fresh(v0, dbs, das, nbits, i0, i1.block_id(v1, k)));
                } else {
                    assert(i1.block_id(v1, lo) == 0);
                    assert(b == 0);
                    assert(v2[0] == v1[0]);
                }
            } else {
                assert(v1[b] != v0[b]);
            }
        }
    }
}

/// Whether a block belonged to a fitting inode or was free does not change when no block from
/// the data bitmap on changes.
pub proof fn lemma_old_or_fresh_frame(v0: Seq<Seq<u8>>, v1: Seq<Seq<u8>>, dbs: int, das: int, nbits: int, inode: InodeView, b: int)
    requires
        v1.len() == v0.len(),
        0 < dbs <= das,
        nbits == 4096 * (das - dbs),
        das + nbits <= v0.len(),
        forall|x: int| dbs <= x < v0.len() ==> #[trigger] v1[x] == v0[x],
        inode_fits(v0, dbs, das, nbits, inode),
    ensures
        old_or_fresh(v1, dbs, das, nbits, inode, b) == old_or_fresh(v0, dbs, das, nbits, inode, b),
{
    let d = data_blocks_of(inode.size as int);
    if das <= b < das + nbits {
        vstd::arithmetic::div_mod::lemma_multiply_divide_lt(b - das, 4096, das - dbs);
        assert(v1[dbs + (b - das) / 4096] == v0[dbs + (b - das) / 4096]);
    }
    assert(block_in_use(v1, dbs, das, nbits, b) == block_in_use(v0, dbs, das, nbits, b));
    assert forall|i: int| 0 <= i < indirect_count(d) implies #[trigger] v1[inode.indirect[i] as int] == v0[inode.indirect[i] as int] by {
        assert(block_in_use(v0, dbs, das, nbits, inode.indirect[i] as int));
    }
    lemma_mapping_frame(inode, v0, v1, d);
    if exists|k: int| 0 <= k < d && #[trigger] inode.block_id(v0, k) == b {
        let k = choose|k: int| 0 <= k < d && #[trigger] inode.block_id(v0, k) == b;
        assert(inode.block_id(v1, k) == b);
    }
    if exists|k: int| 0 <= k < d && #[trigger] inode.block_id(v1, k) == b {
        let k = choose|k: int| 0 <= k < d && #[trigger] inode.block_id(v1, k) == b;
        assert(inode.block_id(v0, k) == b);
    }
    assert(owned_by(inode, v1, b) == owned_by(inode, v0, b));
}

} // verus!
