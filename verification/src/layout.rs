use crate::codec::{le_u32, lemma_u32_roundtrip, push_u32, read_u32, u32_bytes};
use vstd::prelude::*;
use vstd::string::StringSliceAdditionalSpecFns;
use vstd::utf8::valid_utf8;

verus! {

/// The max length of an entry name.
pub const NAME_LENGTH_LIMIT: usize = 27;

/// Size of a directory entry in bytes.
pub const DIRENT_SZ: usize = 32;

/// The string whose bytes are `v`, by `core::str::from_utf8`: trusted to succeed exactly when
/// `v` is valid UTF-8 (its error dropped to `None`) and to keep the bytes as they are.
#[verifier::external_body]
pub(crate) fn str_from_utf8(v: &[u8]) -> (r: Option<&str>)
    ensures
        r is Some <==> valid_utf8(v@),
        r matches Some(s) ==> s.spec_bytes() == v@,
{
    core::str::from_utf8(v).ok()
}

/// Super block of a file system: the sizes of its areas, in blocks.
pub struct SuperBlock {
    pub inode_bitmap_block_num: u32,
    pub inode_area_block_num: u32,
    pub data_bitmap_block_num: u32,
    pub data_area_block_num: u32,
}

/// The on-disk form of a super block: its four counts, little-endian.
pub open spec fn super_block_bytes(
    inode_bitmap_block_num: u32,
    inode_area_block_num: u32,
    data_bitmap_block_num: u32,
    data_area_block_num: u32,
) -> Seq<u8> {
    u32_bytes(inode_bitmap_block_num) + u32_bytes(inode_area_block_num) + u32_bytes(
        data_bitmap_block_num,
    ) + u32_bytes(data_area_block_num)
}

impl SuperBlock {
    pub fn new(
        inode_bitmap_block_num: u32,
        inode_area_block_num: u32,
        data_bitmap_block_num: u32,
        data_area_block_num: u32,
    ) -> (r: Self)
        ensures
            r.inode_bitmap_block_num == inode_bitmap_block_num,
            r.inode_area_block_num == inode_area_block_num,
            r.data_bitmap_block_num == data_bitmap_block_num,
            r.data_area_block_num == data_area_block_num,
    {
        Self { inode_bitmap_block_num, inode_area_block_num, data_bitmap_block_num, data_area_block_num }
    }

    /// The on-disk form of the super block.
    pub fn to_bytes(&self) -> (r: Vec<u8>)
        ensures
            r@ == super_block_bytes(
                self.inode_bitmap_block_num,
                self.inode_area_block_num,
                self.data_bitmap_block_num,
                self.data_area_block_num,
            ),
    {
        let mut v: Vec<u8> = Vec::new();
        push_u32(&mut v, self.inode_bitmap_block_num);
        push_u32(&mut v, self.inode_area_block_num);
        push_u32(&mut v, self.data_bitmap_block_num);
        push_u32(&mut v, self.data_area_block_num);
        v
    }

    /// The super block stored at the start of `bytes`.
    pub fn from_bytes(bytes: &[u8]) -> (r: Self)
        requires
            bytes@.len() >= 16,
        ensures
            r.inode_bitmap_block_num == le_u32(bytes@, 0),
            r.inode_area_block_num == le_u32(bytes@, 4),
            r.data_bitmap_block_num == le_u32(bytes@, 8),
            r.data_area_block_num == le_u32(bytes@, 12),
    {
        Self {
            inode_bitmap_block_num: read_u32(bytes, 0),
            inode_area_block_num: read_u32(bytes, 4),
            data_bitmap_block_num: read_u32(bytes, 8),
            data_area_block_num: read_u32(bytes, 12),
        }
    }
}

/// Reading back the bytes of a super block gives its four fields.
pub proof fn lemma_super_block_roundtrip(a: u32, b: u32, c: u32, d: u32)
    ensures
        super_block_bytes(a, b, c, d).len() == 16,
        le_u32(super_block_bytes(a, b, c, d), 0) == a,
        le_u32(super_block_bytes(a, b, c, d), 4) == b,
        le_u32(super_block_bytes(a, b, c, d), 8) == c,
        le_u32(super_block_bytes(a, b, c, d), 12) == d,
{
    lemma_u32_roundtrip(a);
    lemma_u32_roundtrip(b);
    lemma_u32_roundtrip(c);
    lemma_u32_roundtrip(d);
}

/// Index of the first zero byte of `s`, or the length of `s` when it holds none.
pub open spec fn first_zero(s: Seq<u8>) -> int {
    if exists|i: int| 0 <= i < s.len() && s[i] == 0 {
        choose|i: int| 0 <= i < s.len() && s[i] == 0 && forall|j: int| 0 <= j < i ==> s[j] != 0
    } else {
        s.len() as int
    }
}

/// The first zero byte of `s` is at `i` when the bytes before `i` are not zero and `s[i]` is.
pub proof fn lemma_first_zero(s: Seq<u8>, i: int)
    requires
        0 <= i <= s.len(),
        forall|j: int| 0 <= j < i ==> s[j] != 0,
        i == s.len() || s[i] == 0,
    ensures
        first_zero(s) == i,
{
    if i < s.len() {
        let k = choose|k: int| 0 <= k < s.len() && s[k] == 0 && forall|j: int| 0 <= j < k ==> s[j] != 0;
        assert(0 <= k < s.len() && s[k] == 0 && forall|j: int| 0 <= j < k ==> s[j] != 0);
        if k < i {
            assert(s[k] != 0);
        }
        if i < k {
            assert(s[i] != 0);
        }
    }
}

/// A directory entry: a zero-padded name and the number of the inode it names.
pub struct DirEntry {
    name: [u8; 28],
    inode_number: u32,
}

/// The name stored in a name field: the bytes before its first zero byte.
pub open spec fn stored_name(field: Seq<u8>) -> Seq<u8> {
    field.take(first_zero(field))
}

/// A name field whose stored name can be read: it holds a zero byte, and the bytes before the
/// first one are UTF-8.
pub open spec fn readable_name(field: Seq<u8>) -> bool {
    &&& exists|i: int| 0 <= i < field.len() && field[i] == 0
    &&& valid_utf8(stored_name(field))
}

/// The on-disk form of a directory entry.
pub open spec fn dirent_bytes(name: Seq<u8>, inode_number: u32) -> Seq<u8> {
    name + u32_bytes(inode_number)
}

impl DirEntry {
    /// The name field.
    pub closed spec fn name_field(&self) -> Seq<u8> {
        self.name@
    }

    pub closed spec fn inode(&self) -> u32 {
        self.inode_number
    }

    /// The name field of an entry always holds exactly 28 bytes.
    pub proof fn lemma_name_field(&self)
        ensures
            self.name_field().len() == 28,
    {
    }

    /// An empty directory entry.
    pub fn empty() -> (r: Self)
        ensures
            r.name_field() == Seq::new(28, |i: int| 0u8),
            r.inode() == 0,
    {
        let r = Self { name: [0u8; 28], inode_number: 0 };
        assert(r.name@ =~= Seq::new(28, |i: int| 0u8));
        r
    }

    /// A directory entry naming inode `inode_number` with `name`.
    pub fn new(name: &str, inode_number: u32) -> (r: Self)
        requires
            name.spec_bytes().len() <= NAME_LENGTH_LIMIT + 1,
        ensures
            r.name_field() == name.spec_bytes() + Seq::new(
                (28 - name.spec_bytes().len()) as nat,
                |i: int| 0u8,
            ),
            r.inode() == inode_number,
    {
        let mut bytes = [0u8; 28];
        let src = name.as_bytes();
        let mut i: usize = 0;
        while i < src.len()
            invariant
                src@ == name.spec_bytes(),
                src@.len() <= 28,
                i <= src@.len(),
                forall|j: int| 0 <= j < 28 ==> #[trigger] bytes@[j] == (if j < i { src@[j] } else { 0u8 }),
            decreases src@.len() - i,
        {
            bytes[i] = src[i];
            i += 1;
        }
        let r = Self { name: bytes, inode_number };
        assert(r.name@ =~= name.spec_bytes() + Seq::new(
            (28 - name.spec_bytes().len()) as nat,
            |i: int| 0u8,
        ));
        r
    }

    /// The on-disk form of the entry.
    pub fn to_bytes(&self) -> (r: Vec<u8>)
        ensures
            r@ == dirent_bytes(self.name_field(), self.inode()),
            r@.len() == DIRENT_SZ,
    {
        let mut v: Vec<u8> = Vec::new();
        let mut i: usize = 0;
        while i < 28
            invariant
                i <= 28,
                v@ == self.name@.take(i as int),
            decreases 28 - i,
        {
            v.push(self.name[i]);
            i += 1;
            assert(v@ =~= self.name@.take(i as int));
        }
        assert(self.name@.take(28) =~= self.name@);
        push_u32(&mut v, self.inode_number);
        v
    }

    /// The entry stored at the start of `bytes`.
    pub fn from_bytes(bytes: &[u8]) -> (r: Self)
        requires
            bytes@.len() >= DIRENT_SZ,
        ensures
            r.name_field() == bytes@.take(28),
            r.inode() == le_u32(bytes@, 28),
            dirent_bytes(r.name_field(), r.inode()) == bytes@.take(DIRENT_SZ as int),
    {
        let mut name = [0u8; 28];
        let mut i: usize = 0;
        while i < 28
            invariant
                bytes@.len() >= DIRENT_SZ,
                i <= 28,
                forall|j: int| 0 <= j < i ==> #[trigger] name@[j] == bytes@[j],
            decreases 28 - i,
        {
            name[i] = bytes[i];
            i += 1;
        }
        let inode_number = read_u32(bytes, 28);
        let r = Self { name, inode_number };
        assert(r.name@ =~= bytes@.take(28));
        proof {
            lemma_u32_le_bytes(bytes@, 28);
        }
        assert(dirent_bytes(r.name@, inode_number) =~= bytes@.take(DIRENT_SZ as int));
        r
    }

    /// Number of bytes of the stored name.
    pub fn name_len(&self) -> (r: usize)
        requires
            exists|i: int| 0 <= i < self.name_field().len() && self.name_field()[i] == 0,
        ensures
            r == first_zero(self.name_field()),
            r < 28,
    {
        let mut i: usize = 0;
        while self.name[i] != 0
            invariant
                i < 28,
                exists|k: int| i <= k < 28 && self.name@[k] == 0,
                forall|j: int| 0 <= j < i ==> self.name@[j] != 0,
            decreases 28 - i,
        {
            i += 1;
        }
        proof {
            lemma_first_zero(self.name@, i as int);
        }
        i
    }

    /// The name of the entry.
    pub fn name(&self) -> (r: &str)
        requires
            readable_name(self.name_field()),
        ensures
            r.spec_bytes() == stored_name(self.name_field()),
    {
        let len = self.name_len();
        let s = self.name.as_slice();
        let prefix = slice_prefix(s, len);
        assert(prefix@ =~= stored_name(self.name@));
        str_from_utf8(prefix).unwrap()
    }

    /// Whether the stored name is `name`.
    pub fn name_is(&self, name: &[u8]) -> (r: bool)
        requires
            exists|i: int| 0 <= i < self.name_field().len() && self.name_field()[i] == 0,
        ensures
            r == (stored_name(self.name_field()) == name@),
    {
        let len = self.name_len();
        if len != name.len() {
            assert(stored_name(self.name@).len() != name@.len());
            return false;
        }
        let mut i: usize = 0;
        while i < len
            invariant
                len == name@.len(),
                len == first_zero(self.name@),
                len < 28,
                i <= len,
                forall|j: int| 0 <= j < i ==> self.name@[j] == name@[j],
            decreases len - i,
        {
            if self.name[i] != name[i] {
                assert(stored_name(self.name@)[i as int] == self.name@[i as int]);
                return false;
            }
            i += 1;
        }
        assert(stored_name(self.name@) =~= name@) by {
            assert forall|j: int| 0 <= j < len implies stored_name(self.name@)[j] == name@[j] by {
                assert(stored_name(self.name@)[j] == self.name@[j]);
            }
        }
        true
    }

    /// The number of the inode the entry names.
    pub fn inode_number(&self) -> (r: u32)
        ensures
            r == self.inode(),
    {
        self.inode_number
    }
}

/// The first `len` elements of `s`.
pub fn slice_prefix(s: &[u8], len: usize) -> (r: &[u8])
    requires
        len <= s@.len(),
    ensures
        r@ == s@.take(len as int),
{
    let r = &s[0..len];
    assert(r@ =~= s@.take(len as int));
    r
}

/// The four bytes of the `u32` read at `off` are the bytes at `off`.
pub proof fn lemma_u32_le_bytes(s: Seq<u8>, off: int)
    requires
        0 <= off,
        off + 4 <= s.len(),
    ensures
        u32_bytes(le_u32(s, off) as u32) == s.subrange(off, off + 4),
{
    crate::codec::lemma_le_u32_digits(s[off] as int, s[off + 1] as int, s[off + 2] as int, s[off + 3] as int);
    assert(u32_bytes(le_u32(s, off) as u32) =~= s.subrange(off, off + 4));
}

} // verus!
