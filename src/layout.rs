//! On-disk record formats and the block arithmetic of indexed addressing.
use vstd::prelude::*;

use crate::BLOCK_SZ;

verus! {

/// Number of data blocks an inode addresses directly.
pub const INODE_DIRECT_COUNT: usize = 28;
/// Number of block numbers that fit in one index block.
pub const INODE_INDIRECT1_COUNT: usize = 128;
/// Number of data blocks reachable through the double-indirect block.
pub const INODE_INDIRECT2_COUNT: usize = 16384;
/// Data blocks addressable before the single-indirect level is exhausted.
pub const INDIRECT1_BOUND: usize = 156;
/// Largest number of data blocks one inode can address.
pub const MAX_DATA_BLOCKS: usize = 16540;
/// Largest byte size one inode can hold.
pub const MAX_FILE_SIZE: usize = 8468480;
/// Longest file name, in bytes.
pub const NAME_LENGTH_LIMIT: usize = 27;
/// Width of the name field of a directory entry, terminator included.
pub const NAME_FIELD_SZ: usize = 28;
/// Size in bytes of one directory entry record.
pub const DIRENT_SZ: usize = 32;

/// Data blocks needed to hold `size` bytes.
pub open spec fn data_blocks_of(size: int) -> int {
    (size + 511) / 512
}

/// Index blocks needed beside `data` data blocks: one single-indirect
/// block past the direct slots, then the double-indirect block and one
/// child index block per started run of 128 further blocks.
pub open spec fn index_blocks_of(data: int) -> int {
    (if data > 28 { 1int } else { 0int }) + (if data > 156 { 1 + (data - 156 + 127) / 128 } else {
        0int
    })
}

/// All blocks (data and index) an inode of `size` bytes holds.
pub open spec fn total_blocks_of(size: int) -> int {
    data_blocks_of(size) + index_blocks_of(data_blocks_of(size))
}

/// More bytes never need fewer blocks.
pub proof fn lemma_total_blocks_monotonic(a: int, b: int)
    requires
        0 <= a <= b,
    ensures
        total_blocks_of(a) <= total_blocks_of(b),
{
    let da = data_blocks_of(a);
    let db = data_blocks_of(b);
    assert(da <= db) by (nonlinear_arith)
        requires
            da == (a + 511) / 512,
            db == (b + 511) / 512,
            a <= b,
    ;
    if db > 156 && da > 156 {
        assert((da - 156 + 127) / 128 <= (db - 156 + 127) / 128) by (nonlinear_arith)
            requires
                da <= db,
        ;
    }
}

/// Number of data blocks needed to hold `size` bytes.
pub fn data_blocks(size: u32) -> (r: u32)
    ensures
        r == data_blocks_of(size as int),
{
    ((size as u64 + 511) / 512) as u32
}

/// Number of blocks, index blocks included, an inode of `size` bytes holds.
pub fn total_blocks(size: u32) -> (r: u32)
    ensures
        r == total_blocks_of(size as int),
{
    let data = data_blocks(size);
    let mut total: u32 = data;
    if data > INODE_DIRECT_COUNT as u32 {
        total = total + 1;
    }
    if data > INDIRECT1_BOUND as u32 {
        total = total + 1 + (data - INDIRECT1_BOUND as u32 + 127) / 128;
    }
    total
}

/// Blocks an inode of `old_size` bytes must gain to hold `new_size` bytes.
pub fn blocks_num_needed(old_size: u32, new_size: u32) -> (r: u32)
    requires
        old_size <= new_size,
    ensures
        r == total_blocks_of(new_size as int) - total_blocks_of(old_size as int),
{
    proof {
        lemma_total_blocks_monotonic(old_size as int, new_size as int);
    }
    total_blocks(new_size) - total_blocks(old_size)
}

/// Where inode `inode_id` lives in an inode area starting at block
/// `area_start`: its home block and its byte offset there.
pub open spec fn inode_position(area_start: int, inode_id: int, record_size: int) -> (int, int) {
    (area_start + inode_id / (512int / record_size), (inode_id % (512int / record_size)) * record_size)
}

/// Size in bytes of one on-disk inode record.
pub const DISK_INODE_SZ: usize = 128;

/// Home block and byte offset of inode `inode_id`, given the first block
/// of the inode area.
pub fn disk_inode_position(area_start: u32, inode_id: u32) -> (r: (u32, usize))
    requires
        area_start + inode_id / 4 <= u32::MAX,
    ensures
        r.0 as int == inode_position(area_start as int, inode_id as int, DISK_INODE_SZ as int).0,
        r.1 as int == inode_position(area_start as int, inode_id as int, DISK_INODE_SZ as int).1,
        r.1 < BLOCK_SZ,
{
    let per_block: u32 = (BLOCK_SZ / DISK_INODE_SZ) as u32;
    (area_start + inode_id / per_block, ((inode_id % per_block) as usize) * DISK_INODE_SZ)
}

// ---------------------------------------------------------------------
// Superblock and region layout
// ---------------------------------------------------------------------

/// Value that marks a formatted volume.
pub const EFS_MAGIC: u32 = 0x3b800001;
/// Bits in one bitmap block.
pub const BLOCK_BITS: u32 = 4096;

/// Block 0 of a volume: the magic value, the total block count, and the
/// sizes of the four regions that follow it in this order.
#[derive(Clone, Copy, Debug, PartialEq, Eq, Structural)]
pub struct SuperBlock {
    pub magic: u32,
    pub total_blocks: u32,
    pub inode_bitmap_blocks: u32,
    pub inode_area_blocks: u32,
    pub data_bitmap_blocks: u32,
    pub data_area_blocks: u32,
}

/// The layout of `total` blocks with `ibb` inode-bitmap blocks: one
/// inode slot per bitmap bit, four inode records per block, and a data
/// bitmap just large enough for the data area it describes.
pub open spec fn layout_of(total: int, ibb: int) -> (int, int, int) {
    let inode_area = (ibb * 4096 * 128 + 511) / 512;
    let data_total = total - 1 - ibb - inode_area;
    let dbb = (data_total + 4096) / 4097;
    (inode_area, dbb, data_total - dbb)
}

impl SuperBlock {
    /// Lays out a volume of `total_blocks` blocks with
    /// `inode_bitmap_blocks` inode-bitmap blocks; `None` when the
    /// superblock and inode regions leave no room for data.
    pub fn layout(total_blocks: u32, inode_bitmap_blocks: u32) -> (r: Option<SuperBlock>)
        ensures
            ({
                let (ia, dbb, da) = layout_of(total_blocks as int, inode_bitmap_blocks as int);
                match r {
                    Some(sb) => {
                        &&& 1 + inode_bitmap_blocks + ia < total_blocks
                        &&& sb.magic == EFS_MAGIC
                        &&& sb.total_blocks == total_blocks
                        &&& sb.inode_bitmap_blocks == inode_bitmap_blocks
                        &&& sb.inode_area_blocks == ia
                        &&& sb.data_bitmap_blocks == dbb
                        &&& sb.data_area_blocks == da
                        &&& 1 + sb.inode_bitmap_blocks + sb.inode_area_blocks + sb.data_bitmap_blocks
                            + sb.data_area_blocks == total_blocks
                        &&& sb.data_area_blocks <= sb.data_bitmap_blocks * 4096
                    },
                    None => 1 + inode_bitmap_blocks + ia >= total_blocks,
                }
            }),
    {
        let area: u64 = inode_bitmap_blocks as u64 * 1024;
        assert(area == (inode_bitmap_blocks * 4096 * 128 + 511) / 512);
        if 1 + inode_bitmap_blocks as u64 + area >= total_blocks as u64 {
            return None;
        }
        let inode_area: u32 = area as u32;
        let data_total: u32 = total_blocks - 1 - inode_bitmap_blocks - inode_area;
        let dbb: u32 = ((data_total as u64 + 4096) / 4097) as u32;
        assert(data_total - dbb <= dbb * 4096) by (nonlinear_arith)
            requires
                dbb == (data_total + 4096) / 4097,
                data_total > 0,
        ;
        Some(
            SuperBlock {
                magic: EFS_MAGIC,
                total_blocks,
                inode_bitmap_blocks,
                inode_area_blocks: inode_area,
                data_bitmap_blocks: dbb,
                data_area_blocks: data_total - dbb,
            },
        )
    }

    /// Whether the block holds the magic value of a formatted volume.
    pub fn is_valid(&self) -> (r: bool)
        ensures
            r == (self.magic == EFS_MAGIC),
    {
        self.magic == EFS_MAGIC
    }

    /// Number of inode slots: one per inode-bitmap bit.
    pub fn inode_count(&self) -> (r: u64)
        ensures
            r == self.inode_bitmap_blocks * 4096,
    {
        self.inode_bitmap_blocks as u64 * 4096
    }
}

// ---------------------------------------------------------------------
// Directory entries
// ---------------------------------------------------------------------

/// A name a directory entry can hold: non-empty, short enough to keep a
/// terminator, and free of zero bytes.
pub open spec fn valid_name(name: Seq<u8>) -> bool {
    &&& 0 < name.len() <= 27
    &&& forall|i: int| 0 <= i < name.len() ==> name[i] != 0
}

/// Index of the first zero byte of the name field, at or after `i`;
/// the field's width when there is none.
pub open spec fn name_end(rec: Seq<u8>, i: int) -> int
    decreases 28 - i,
{
    if i >= 28 || i < 0 {
        28
    } else if rec[i] == 0 {
        i
    } else {
        name_end(rec, i + 1)
    }
}

/// The name stored in a directory entry record.
pub open spec fn entry_name(rec: Seq<u8>) -> Seq<u8> {
    rec.subrange(0, name_end(rec, 0))
}

/// Little-endian value of four bytes.
pub open spec fn le_u32(b0: u8, b1: u8, b2: u8, b3: u8) -> int {
    b0 + 256 * b1 + 65536 * b2 + 16777216 * b3
}

/// The inode number stored in a directory entry record.
pub open spec fn entry_inode(rec: Seq<u8>) -> int {
    le_u32(rec[28], rec[29], rec[30], rec[31])
}

/// The record that stores `name` and `inode`: the name, zero padding to
/// the field's width, then the inode number in little-endian order.
pub open spec fn encode_entry(name: Seq<u8>, inode: u32) -> Seq<u8> {
    name + Seq::new((28 - name.len()) as nat, |i: int| 0u8) + seq![
        (inode % 256) as u8,
        ((inode / 256) % 256) as u8,
        ((inode / 65536) % 256) as u8,
        (inode / 16777216) as u8,
    ]
}

proof fn lemma_name_end_of(name: Seq<u8>, rec: Seq<u8>, i: int)
    requires
        valid_name(name),
        rec.len() == 32,
        0 <= i <= name.len(),
        forall|j: int| 0 <= j < name.len() ==> rec[j] == name[j],
        rec[name.len() as int] == 0,
    ensures
        name_end(rec, i) == name.len(),
    decreases name.len() - i,
{
    if i < name.len() {
        lemma_name_end_of(name, rec, i + 1);
    }
}

/// Reading back an encoded record gives the name and inode number that
/// were stored.
pub proof fn lemma_entry_round_trip(name: Seq<u8>, inode: u32)
    requires
        valid_name(name),
    ensures
        encode_entry(name, inode).len() == 32,
        entry_name(encode_entry(name, inode)) == name,
        entry_inode(encode_entry(name, inode)) == inode,
{
    let rec = encode_entry(name, inode);
    assert(rec[name.len() as int] == 0);
    lemma_name_end_of(name, rec, 0);
    assert(entry_name(rec) =~= name);
    let x = inode as int;
    assert(x % 256 + 256 * ((x / 256) % 256) + 65536 * ((x / 65536) % 256) + 16777216 * (x / 16777216)
        == x) by (nonlinear_arith)
        requires
            0 <= x < 4294967296,
    ;
}

/// The all-zero record: a blank entry with the empty name.
pub open spec fn blank_entry() -> Seq<u8> {
    Seq::new(32, |i: int| 0u8)
}

/// Encodes a directory entry record for `name` and `inode`.
pub fn dir_entry_bytes(name: &[u8], inode: u32) -> (r: Vec<u8>)
    requires
        valid_name(name@),
    ensures
        r@ == encode_entry(name@, inode),
{
    let mut r: Vec<u8> = Vec::new();
    let mut i: usize = 0;
    while i < name.len()
        invariant
            i <= name@.len(),
            r@ == name@.subrange(0, i as int),
        decreases name@.len() - i,
    {
        r.push(name[i]);
        i = i + 1;
    }
    while r.len() < NAME_FIELD_SZ
        invariant
            name@.len() <= r@.len() <= 28,
            r@ == name@ + Seq::new((r@.len() - name@.len()) as nat, |k: int| 0u8),
        decreases 28 - r@.len(),
    {
        r.push(0u8);
        assert(r@ =~= name@ + Seq::new((r@.len() - name@.len()) as nat, |k: int| 0u8));
    }
    r.push((inode % 256) as u8);
    r.push(((inode / 256) % 256) as u8);
    r.push(((inode / 65536) % 256) as u8);
    r.push((inode / 16777216) as u8);
    assert(r@ =~= encode_entry(name@, inode));
    r
}

/// Reads the name and inode number of the record at `start` in `bytes`.
pub fn parse_dir_entry(bytes: &Vec<u8>, start: usize) -> (r: (Vec<u8>, u32))
    requires
        start + 32 <= bytes@.len(),
    ensures
        r.0@ == entry_name(bytes@.subrange(start as int, start + 32)),
        r.1 as int == entry_inode(bytes@.subrange(start as int, start + 32)),
{
    let ghost rec = bytes@.subrange(start as int, start + 32);
    let n = bytes.len();
    let mut name: Vec<u8> = Vec::new();
    let mut i: usize = 0;
    while i < NAME_FIELD_SZ && bytes[start + i] != 0
        invariant
            i <= 28,
            start + 32 <= bytes@.len(),
            n == bytes@.len(),
            rec == bytes@.subrange(start as int, start + 32),
            name@ == rec.subrange(0, i as int),
            name_end(rec, 0) == name_end(rec, i as int),
        decreases 28 - i,
    {
        name.push(bytes[start + i]);
        i = i + 1;
    }
    assert(name_end(rec, i as int) == i);
    let b0 = bytes[start + 28] as u32;
    let b1 = bytes[start + 29] as u32;
    let b2 = bytes[start + 30] as u32;
    let b3 = bytes[start + 31] as u32;
    (name, b0 + 256 * b1 + 65536 * b2 + 16777216 * b3)
}

} // verus!
