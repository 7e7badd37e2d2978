//! The volume: inode and data bitmaps, inode records and their content,
//! and the flat root directory held in inode 0.
use vstd::prelude::*;

use crate::bitmap::{count_free, Bitmap};
use crate::layout::{
    layout_of, SuperBlock,
    lemma_total_blocks_monotonic, total_blocks,
    blank_entry, dir_entry_bytes, encode_entry, lemma_entry_round_trip, name_end, parse_dir_entry,
    valid_name, DIRENT_SZ, NAME_LENGTH_LIMIT,
    blocks_num_needed,
    entry_inode, entry_name, total_blocks_of, MAX_FILE_SIZE,
};

verus! {

/// Whether an inode holds a regular file or a directory.
#[derive(Clone, Copy, Debug, PartialEq, Eq, Structural)]
pub enum DiskInodeType {
    File,
    Directory,
}

/// Why an operation on the volume did not take place.
#[derive(Clone, Copy, Debug, PartialEq, Eq, Structural)]
pub enum FsError {
    /// No live directory entry has the name.
    NotFound,
    /// A bitmap has no free bit for an inode or a data block.
    ResourceExhausted,
    /// A link was asked from a name to itself.
    SameName,
    /// The name is empty, too long, or holds a zero byte.
    InvalidName,
    /// The inode's link count cannot grow further.
    LinkLimit,
}

/// One inode: its size, type and link count, the numbers of the
/// data-area blocks charged to it (as many as indexed addressing of its
/// size needs, index blocks included), and its bytes, which are kept here
/// rather than in those blocks.
pub struct DiskInode {
    size: u32,
    type_: DiskInodeType,
    nlink: u32,
    blocks: Vec<u32>,
    data: Vec<u8>,
}

/// The content after writing `buf` at `off`: grown with zeros up to the
/// end of the write if it reaches past the old end.
pub open spec fn written(c: Seq<u8>, off: int, buf: Seq<u8>) -> Seq<u8> {
    let n = if c.len() >= off + buf.len() { c.len() as int } else { off + buf.len() };
    Seq::new(
        n as nat,
        |i: int|
            if off <= i < off + buf.len() {
                buf[i - off]
            } else if i < c.len() {
                c[i]
            } else {
                0u8
            },
    )
}

/// Bytes a read of `buf_len` bytes at `off` returns from `size` bytes.
pub open spec fn read_len(size: int, off: int, buf_len: int) -> int {
    if off >= size {
        0
    } else if buf_len <= size - off {
        buf_len
    } else {
        size - off
    }
}

/// The directory records of a directory's content, in storage order.
pub open spec fn dir_records(c: Seq<u8>) -> Seq<Seq<u8>> {
    Seq::new(c.len() / 32, |k: int| c.subrange(32 * k, 32 * k + 32))
}

/// The names of the non-blank records, in storage order.
pub open spec fn live_names(recs: Seq<Seq<u8>>) -> Seq<Seq<u8>>
    decreases recs.len(),
{
    if recs.len() == 0 {
        seq![]
    } else {
        let rest = live_names(recs.drop_last());
        if entry_name(recs.last()).len() > 0 {
            rest.push(entry_name(recs.last()))
        } else {
            rest
        }
    }
}

/// Index of the first record at or after `k` whose name is `name`.
pub open spec fn lookup_from(recs: Seq<Seq<u8>>, name: Seq<u8>, k: int) -> Option<int>
    decreases recs.len() - k,
{
    if k < 0 || k >= recs.len() || name.len() == 0 {
        None
    } else if entry_name(recs[k]) == name {
        Some(k)
    } else {
        lookup_from(recs, name, k + 1)
    }
}

/// A record found from index `k` on is the first one with that name.
pub proof fn lemma_lookup_found(recs: Seq<Seq<u8>>, name: Seq<u8>, k: int, m: int)
    requires
        0 <= k,
        lookup_from(recs, name, k) == Some(m),
    ensures
        k <= m < recs.len(),
        entry_name(recs[m]) == name,
        name.len() > 0,
        forall|j: int| k <= j < m ==> entry_name(#[trigger] recs[j]) != name,
    decreases recs.len() - k,
{
    if entry_name(recs[k]) != name {
        lemma_lookup_found(recs, name, k + 1, m);
    }
}

/// After appending a record named `name` to records that hold no such
/// name, the lookup finds the appended one.
pub proof fn lemma_lookup_push(recs: Seq<Seq<u8>>, rec: Seq<u8>, name: Seq<u8>, k: int)
    requires
        0 <= k <= recs.len(),
        lookup_from(recs, name, k) is None,
        entry_name(rec) == name,
        name.len() > 0,
    ensures
        lookup_from(recs.push(rec), name, k) == Some(recs.len() as int),
    decreases recs.len() - k,
{
    if k < recs.len() {
        lemma_lookup_push(recs, rec, name, k + 1);
    }
}

/// Appending a record leaves the lookup of a name already present as it was.
pub proof fn lemma_lookup_push_found(recs: Seq<Seq<u8>>, rec: Seq<u8>, name: Seq<u8>, k: int)
    requires
        0 <= k <= recs.len(),
        lookup_from(recs, name, k) is Some,
    ensures
        lookup_from(recs.push(rec), name, k) == lookup_from(recs, name, k),
    decreases recs.len() - k,
{
    if k < recs.len() && entry_name(recs[k]) != name {
        lemma_lookup_push_found(recs, rec, name, k + 1);
    }
}

/// Index of the first record named `name`.
pub open spec fn lookup(recs: Seq<Seq<u8>>, name: Seq<u8>) -> Option<int> {
    lookup_from(recs, name, 0)
}

spec fn shape_ok(n: DiskInode) -> bool {
    &&& n.data@.len() == n.size
    &&& n.size <= MAX_FILE_SIZE
    &&& n.blocks@.len() == total_blocks_of(n.size as int)
}

spec fn inodes_ok(nodes: Seq<DiskInode>, ibm: Seq<bool>) -> bool {
    &&& forall|i: int|
        0 <= i < nodes.len() ==> (#[trigger] nodes[i].type_ == DiskInodeType::Directory <==> i == 0)
    &&& forall|i: int| 0 <= i < nodes.len() ==> shape_ok(#[trigger] nodes[i])
    &&& forall|i: int| 0 <= i < nodes.len() && !ibm[i] ==> (#[trigger] nodes[i]).size == 0
}

proof fn lemma_inodes_frame(nodes0: Seq<DiskInode>, nodes1: Seq<DiskInode>, ibm: Seq<bool>, ino: int)
    requires
        inodes_ok(nodes0, ibm),
        nodes1.len() == nodes0.len(),
        0 <= ino < nodes0.len(),
        forall|k: int| 0 <= k < nodes0.len() && k != ino ==> nodes1[k] == nodes0[k],
        shape_ok(nodes1[ino]),
        nodes1[ino].type_ == nodes0[ino].type_,
        ibm[ino] || nodes1[ino].size == 0,
    ensures
        inodes_ok(nodes1, ibm),
{
    assert forall|k: int| 0 <= k < nodes1.len() implies shape_ok(#[trigger] nodes1[k]) by {
        if k != ino {
            assert(shape_ok(nodes0[k]));
        }
    }
    assert forall|k: int| 0 <= k < nodes1.len() implies (#[trigger] nodes1[k].type_
        == DiskInodeType::Directory <==> k == 0) by {
        assert(nodes0[k].type_ == DiskInodeType::Directory <==> k == 0);
    }
    assert forall|k: int| 0 <= k < nodes1.len() && !ibm[k] implies (#[trigger] nodes1[k]).size
        == 0 by {
        if k != ino {
            assert(nodes0[k].size == 0 || ibm[k]);
        }
    }
}

spec fn blocks_ok(inodes: Seq<DiskInode>, bm: Seq<bool>) -> bool {
    &&& forall|i: int, j: int|
        0 <= i < inodes.len() && 0 <= j < inodes[i].blocks@.len() ==> {
            &&& (#[trigger] inodes[i].blocks@[j] as int) < bm.len()
            &&& bm[inodes[i].blocks@[j] as int]
        }
    &&& forall|i1: int, j1: int, i2: int, j2: int|
        0 <= i1 < inodes.len() && 0 <= j1 < inodes[i1].blocks@.len() && 0 <= i2 < inodes.len()
            && 0 <= j2 < inodes[i2].blocks@.len() && #[trigger] inodes[i1].blocks@[j1]
            == #[trigger] inodes[i2].blocks@[j2] ==> i1 == i2 && j1 == j2
}

spec fn root_ok(inodes: Seq<DiskInode>, ibm: Seq<bool>) -> bool {
    let c = inodes[0].data@;
    &&& c.len() % 32 == 0
    &&& forall|k: int|
        0 <= k < dir_records(c).len() && entry_name(#[trigger] dir_records(c)[k]).len() > 0 ==> {
            &&& 0 < entry_inode(dir_records(c)[k]) < inodes.len()
            &&& ibm[entry_inode(dir_records(c)[k])]
            &&& valid_name(entry_name(dir_records(c)[k]))
        }
}

proof fn lemma_push_fresh(
    nodes1: Seq<DiskInode>,
    bm1: Seq<bool>,
    nodes2: Seq<DiskInode>,
    bm2: Seq<bool>,
    ino: int,
    b: u32,
)
    requires
        blocks_ok(nodes1, bm1),
        0 <= ino < nodes1.len(),
        (b as int) < bm1.len(),
        !bm1[b as int],
        bm2 == bm1.update(b as int, true),
        nodes2.len() == nodes1.len(),
        forall|i: int| 0 <= i < nodes1.len() && i != ino ==> nodes2[i] == nodes1[i],
        nodes2[ino].blocks@ == nodes1[ino].blocks@.push(b),
    ensures
        blocks_ok(nodes2, bm2),
{
    let n = nodes1[ino].blocks@.len() as int;
    assert forall|i: int, j: int|
        0 <= i < nodes2.len() && 0 <= j < nodes2[i].blocks@.len() implies {
        &&& (#[trigger] nodes2[i].blocks@[j] as int) < bm2.len()
        &&& bm2[nodes2[i].blocks@[j] as int]
    } by {
        if !(i == ino && j == n) {
            assert(nodes2[i].blocks@[j] == nodes1[i].blocks@[j]);
        }
    }
    assert forall|i1: int, j1: int, i2: int, j2: int|
        0 <= i1 < nodes2.len() && 0 <= j1 < nodes2[i1].blocks@.len() && 0 <= i2 < nodes2.len()
            && 0 <= j2 < nodes2[i2].blocks@.len() && #[trigger] nodes2[i1].blocks@[j1]
            == #[trigger] nodes2[i2].blocks@[j2] implies i1 == i2 && j1 == j2 by {
        let new1 = i1 == ino && j1 == n;
        let new2 = i2 == ino && j2 == n;
        if !new1 {
            assert(nodes2[i1].blocks@[j1] == nodes1[i1].blocks@[j1]);
        }
        if !new2 {
            assert(nodes2[i2].blocks@[j2] == nodes1[i2].blocks@[j2]);
        }
        if new1 && !new2 {
            assert(bm1[nodes1[i2].blocks@[j2] as int]);
        }
        if new2 && !new1 {
            assert(bm1[nodes1[i1].blocks@[j1] as int]);
        }
    }
}

proof fn lemma_pop_held(
    nodes1: Seq<DiskInode>,
    bm1: Seq<bool>,
    nodes2: Seq<DiskInode>,
    bm2: Seq<bool>,
    ino: int,
)
    requires
        blocks_ok(nodes1, bm1),
        0 <= ino < nodes1.len(),
        nodes1[ino].blocks@.len() > 0,
        bm2 == bm1.update(nodes1[ino].blocks@.last() as int, false),
        nodes2.len() == nodes1.len(),
        forall|i: int| 0 <= i < nodes1.len() && i != ino ==> nodes2[i] == nodes1[i],
        nodes2[ino].blocks@ == nodes1[ino].blocks@.drop_last(),
    ensures
        blocks_ok(nodes2, bm2),
{
    let n = nodes1[ino].blocks@.len() - 1;
    let b = nodes1[ino].blocks@[n];
    assert forall|i: int, j: int|
        0 <= i < nodes2.len() && 0 <= j < nodes2[i].blocks@.len() implies {
        &&& (#[trigger] nodes2[i].blocks@[j] as int) < bm2.len()
        &&& bm2[nodes2[i].blocks@[j] as int]
    } by {
        assert(nodes2[i].blocks@[j] == nodes1[i].blocks@[j]);
        assert(nodes1[i].blocks@[j] != b);
    }
    assert forall|i1: int, j1: int, i2: int, j2: int|
        0 <= i1 < nodes2.len() && 0 <= j1 < nodes2[i1].blocks@.len() && 0 <= i2 < nodes2.len()
            && 0 <= j2 < nodes2[i2].blocks@.len() && #[trigger] nodes2[i1].blocks@[j1]
            == #[trigger] nodes2[i2].blocks@[j2] implies i1 == i2 && j1 == j2 by {
        assert(nodes2[i1].blocks@[j1] == nodes1[i1].blocks@[j1]);
        assert(nodes2[i2].blocks@[j2] == nodes1[i2].blocks@[j2]);
    }
}

/// A write past the end lands the same on content first grown with zeros
/// to the write's end.
proof fn lemma_written_after_growth(c: Seq<u8>, off: int, buf: Seq<u8>)
    requires
        0 <= off,
        c.len() < off + buf.len(),
    ensures
        written(c + Seq::new((off + buf.len() - c.len()) as nat, |i: int| 0u8), off, buf)
            =~= written(c, off, buf),
{
}

proof fn lemma_blocks_same(n0: Seq<DiskInode>, n1: Seq<DiskInode>, bm: Seq<bool>)
    requires
        blocks_ok(n0, bm),
        n1.len() == n0.len(),
        forall|i: int| 0 <= i < n0.len() ==> (#[trigger] n1[i]).blocks@ == n0[i].blocks@,
    ensures
        blocks_ok(n1, bm),
{
    assert forall|i: int, j: int| 0 <= i < n1.len() && 0 <= j < n1[i].blocks@.len() implies
        #[trigger] n1[i].blocks@[j] == n0[i].blocks@[j] by {
        assert(n1[i].blocks@ == n0[i].blocks@);
    }
}

/// Appending a record to a directory's content appends it to its records.
pub proof fn lemma_records_append(c: Seq<u8>, rec: Seq<u8>)
    requires
        c.len() % 32 == 0,
        rec.len() == 32,
    ensures
        dir_records(c + rec) =~= dir_records(c).push(rec),
{
    let n = (c.len() / 32) as int;
    assert forall|k: int| 0 <= k < n implies #[trigger] dir_records(c + rec)[k] =~= dir_records(c)[k] by {}
    assert((c + rec).subrange(32 * n, 32 * n + 32) =~= rec);
}

/// Overwriting record `k` of a directory's content replaces that record.
pub proof fn lemma_records_update(c: Seq<u8>, k: int, rec: Seq<u8>)
    requires
        c.len() % 32 == 0,
        0 <= k < c.len() / 32,
        rec.len() == 32,
    ensures
        dir_records(written(c, 32 * k, rec)) =~= dir_records(c).update(k, rec),
{
    let w = written(c, 32 * k, rec);
    assert(w.len() == c.len());
    assert forall|m: int| 0 <= m < c.len() / 32 implies #[trigger] w.subrange(32 * m, 32 * m + 32)
        =~= dir_records(c).update(k, rec)[m] by {}
}

/// The blank record has the empty name.
pub proof fn lemma_blank_entry_name()
    ensures
        entry_name(blank_entry()).len() == 0,
{
    assert(name_end(blank_entry(), 0) == 0);
}

/// Exact byte-wise equality of two names.
fn same_bytes_slices(a: &[u8], b: &[u8]) -> (r: bool)
    ensures
        r == (a@ == b@),
{
    if a.len() != b.len() {
        return false;
    }
    let mut i: usize = 0;
    while i < a.len()
        invariant
            i <= a@.len(),
            a@.len() == b@.len(),
            forall|k: int| 0 <= k < i ==> a@[k] == b@[k],
        decreases a@.len() - i,
    {
        if a[i] != b[i] {
            return false;
        }
        i = i + 1;
    }
    assert(a@ =~= b@);
    true
}

/// Whether `name` can be stored in a directory entry.
pub fn is_valid_name(name: &[u8]) -> (r: bool)
    ensures
        r == valid_name(name@),
{
    if name.len() == 0 || name.len() > NAME_LENGTH_LIMIT {
        return false;
    }
    let mut i: usize = 0;
    while i < name.len()
        invariant
            i <= name@.len(),
            forall|k: int| 0 <= k < i ==> name@[k] != 0,
        decreases name@.len() - i,
    {
        if name[i] == 0 {
            return false;
        }
        i = i + 1;
    }
    true
}

/// A mounted volume. Inode 0 is the root directory; every other inode is
/// a regular file.
pub struct EasyFileSystem {
    inode_bitmap: Bitmap,
    data_bitmap: Bitmap,
    inodes: Vec<DiskInode>,
    inode_area_start: u32,
}

impl EasyFileSystem {
    spec fn core_ok(&self) -> bool {
        &&& self.inodes@.len() == self.inode_bitmap@.len()
        &&& 0 < self.inodes@.len() <= u32::MAX
        &&& self.data_bitmap@.len() <= u32::MAX
        &&& self.inode_area_start as int == (self.inodes@.len() + 4095) / 4096 + 1
        &&& self.inode_bitmap@[0]
        &&& inodes_ok(self.inodes@, self.inode_bitmap@)
        &&& blocks_ok(self.inodes@, self.data_bitmap@)
    }

    /// The volume's invariant: every inode's blocks match its size, no
    /// block is held twice or held while free, and every live directory
    /// entry names an allocated file inode.
    pub closed spec fn wf(&self) -> bool {
        &&& self.core_ok()
        &&& root_ok(self.inodes@, self.inode_bitmap@)
    }

    /// Number of inode slots.
    pub closed spec fn inode_count(&self) -> nat {
        self.inodes@.len()
    }

    /// Whether inode `ino` is in use.
    pub closed spec fn is_allocated(&self, ino: int) -> bool {
        0 <= ino < self.inodes@.len() && self.inode_bitmap@[ino]
    }

    /// The bytes inode `ino` holds.
    pub closed spec fn content(&self, ino: int) -> Seq<u8> {
        self.inodes@[ino].data@
    }

    /// Link count of inode `ino`.
    pub closed spec fn nlink(&self, ino: int) -> nat {
        self.inodes@[ino].nlink as nat
    }

    /// Type of inode `ino`.
    pub closed spec fn kind(&self, ino: int) -> DiskInodeType {
        self.inodes@[ino].type_
    }

    /// Number of free blocks in the data area.
    pub closed spec fn free_data(&self) -> nat {
        count_free(self.data_bitmap@)
    }

    /// Number of blocks in the data area.
    pub closed spec fn data_capacity(&self) -> nat {
        self.data_bitmap@.len()
    }

    /// Number of free inode slots.
    pub closed spec fn free_inodes(&self) -> nat {
        count_free(self.inode_bitmap@)
    }

    /// First block of the inode area.
    pub closed spec fn area_start(&self) -> nat {
        self.inode_area_start as nat
    }

    /// The records of the root directory.
    pub open spec fn records(&self) -> Seq<Seq<u8>> {
        dir_records(self.content(0))
    }

    /// `self` and `other` agree on every file inode but `ino`, and on which
    /// inodes are in use.
    pub open spec fn same_except(&self, other: &Self, ino: int) -> bool {
        &&& self.inode_count() == other.inode_count()
        &&& self.area_start() == other.area_start()
        &&& forall|i: int| 0 <= i < self.inode_count() ==> self.is_allocated(i) == other.is_allocated(i)
        &&& forall|i: int|
            0 < i < self.inode_count() && i != ino ==> {
                &&& self.content(i) == other.content(i)
                &&& self.nlink(i) == other.nlink(i)
                &&& self.kind(i) == other.kind(i)
            }
    }

    /// Formats a volume of `inode_count` inode slots and `data_count` data
    /// blocks; inode 0 becomes the empty root directory.
    pub fn format(inode_count: u32, data_count: u32) -> (r: EasyFileSystem)
        requires
            inode_count > 0,
        ensures
            r.wf(),
            r.inode_count() == inode_count,
            r.data_capacity() == data_count,
            r.free_data() == data_count,
            r.free_inodes() + 1 == inode_count,
            r.is_allocated(0),
            r.kind(0) == DiskInodeType::Directory,
            r.content(0).len() == 0,
            r.nlink(0) == 1,
            forall|i: int| 0 < i < inode_count ==> !r.is_allocated(i),
    {
        let mut inode_bitmap = Bitmap::new(inode_count as usize);
        let data_bitmap = Bitmap::new(data_count as usize);
        proof {
            crate::bitmap::lemma_count_free_all(data_bitmap@);
        }
        proof {
            crate::bitmap::lemma_count_free_all(inode_bitmap@);
        }
        let ghost b0 = inode_bitmap@;
        let root = inode_bitmap.allocate();
        proof {
            assert(!b0[0]);
            match root {
                Some(i) => {
                    if i > 0 {
                        assert(b0[0]);
                    }
                },
                None => {
                    assert(b0[0]);
                },
            }
        }
        let mut inodes: Vec<DiskInode> = Vec::new();
        inodes.push(
            DiskInode {
                size: 0,
                type_: DiskInodeType::Directory,
                nlink: 1,
                blocks: Vec::new(),
                data: Vec::new(),
            },
        );
        while inodes.len() < inode_count as usize
            invariant
                1 <= inodes@.len() <= inode_count,
                inodes@[0].type_ == DiskInodeType::Directory,
                inodes@[0].nlink == 1,
                forall|i: int| 0 <= i < inodes@.len() ==> (#[trigger] inodes@[i].type_
                    == DiskInodeType::Directory <==> i == 0),
                forall|i: int|
                    0 <= i < inodes@.len() ==> {
                        &&& shape_ok(#[trigger] inodes@[i])
                        &&& inodes@[i].size == 0
                        &&& inodes@[i].blocks@.len() == 0
                    },
            decreases inode_count - inodes@.len(),
        {
            inodes.push(
                DiskInode {
                    size: 0,
                    type_: DiskInodeType::File,
                    nlink: 0,
                    blocks: Vec::new(),
                    data: Vec::new(),
                },
            );
        }
        let inode_bitmap_blocks: u32 = ((inode_count as u64 + 4095) / 4096) as u32;
        let fs = EasyFileSystem {
            inode_bitmap,
            data_bitmap,
            inodes,
            inode_area_start: 1 + inode_bitmap_blocks,
        };
        assert(dir_records(fs.inodes@[0].data@).len() == 0);
        fs
    }
    fn increase_size(&mut self, ino: usize, new_size: u32) -> (r: Result<(), FsError>)
        requires
            old(self).core_ok(),
            ino < old(self).inodes@.len(),
            old(self).inode_bitmap@[ino as int],
            old(self).inodes@[ino as int].size <= new_size <= MAX_FILE_SIZE,
        ensures
            ({
                let o = old(self);
                let needed = total_blocks_of(new_size as int) - total_blocks_of(
                    o.inodes@[ino as int].size as int,
                );
                match r {
                    Err(e) => {
                        &&& e == FsError::ResourceExhausted
                        &&& count_free(o.data_bitmap@) < needed
                        &&& *final(self) == *o
                    },
                    Ok(()) => {
                        &&& count_free(o.data_bitmap@) >= needed
                        &&& final(self).core_ok()
                        &&& count_free(final(self).data_bitmap@) + needed == count_free(
                            o.data_bitmap@,
                        )
                        &&& final(self).inode_bitmap@ == o.inode_bitmap@
                        &&& final(self).inode_area_start == o.inode_area_start
                        &&& final(self).inodes@.len() == o.inodes@.len()
                        &&& forall|i: int|
                            0 <= i < o.inodes@.len() && i != ino ==> final(self).inodes@[i]
                                == o.inodes@[i]
                        &&& final(self).inodes@[ino as int].data@ == o.inodes@[ino as int].data@
                            + Seq::new(
                            (new_size - o.inodes@[ino as int].size) as nat,
                            |i: int| 0u8,
                        )
                        &&& final(self).inodes@[ino as int].type_ == o.inodes@[ino as int].type_
                        &&& final(self).inodes@[ino as int].nlink == o.inodes@[ino as int].nlink
                    },
                }
            }),
    {
        let old_size = self.inodes[ino].size;
        let needed = blocks_num_needed(old_size, new_size);
        let free = self.data_bitmap.free_count();
        if free < needed as usize {
            return Err(FsError::ResourceExhausted);
        }
        let ghost bm0 = self.data_bitmap@;
        let ghost nodes0 = self.inodes@;
        let mut k: u32 = 0;
        while k < needed
            invariant
                k <= needed,
                needed == total_blocks_of(new_size as int) - total_blocks_of(old_size as int),
                ino < self.inodes@.len(),
                self.inodes@.len() == nodes0.len(),
                nodes0 == old(self).inodes@,
                bm0 == old(self).data_bitmap@,
                old_size == nodes0[ino as int].size,
                self.inode_bitmap@ == old(self).inode_bitmap@,
                self.inode_area_start == old(self).inode_area_start,
                forall|i: int| 0 <= i < nodes0.len() && i != ino ==> self.inodes@[i] == nodes0[i],
                self.inodes@[ino as int].size == old_size,
                self.inodes@[ino as int].type_ == nodes0[ino as int].type_,
                self.inodes@[ino as int].nlink == nodes0[ino as int].nlink,
                self.inodes@[ino as int].data@ == nodes0[ino as int].data@,
                self.inodes@[ino as int].blocks@.len() == nodes0[ino as int].blocks@.len() + k,
                self.data_bitmap@.len() == bm0.len(),
                bm0.len() <= u32::MAX,
                count_free(self.data_bitmap@) + k == count_free(bm0),
                count_free(bm0) >= needed,
                blocks_ok(self.inodes@, self.data_bitmap@),
            decreases needed - k,
        {
            let ghost bm1 = self.data_bitmap@;
            let ghost nodes1 = self.inodes@;
            let got = self.data_bitmap.allocate();
            match got {
                Some(b) => {
                    self.inodes[ino].blocks.push(b as u32);
                    proof {
                        lemma_push_fresh(nodes1, bm1, self.inodes@, self.data_bitmap@, ino as int, b as u32);
                    }
                },
                None => {
                    proof {
                        assert(false);
                    }
                    return Err(FsError::ResourceExhausted);
                },
            }
            k = k + 1;
        }
        let ghost data0 = self.inodes@[ino as int].data@;
        while self.inodes[ino].data.len() < new_size as usize
            invariant
                ino < self.inodes@.len(),
                self.inodes@.len() == nodes0.len(),
                forall|i: int| 0 <= i < nodes0.len() && i != ino ==> self.inodes@[i] == nodes0[i],
                self.inodes@[ino as int].size == old_size,
                self.inodes@[ino as int].type_ == nodes0[ino as int].type_,
                self.inodes@[ino as int].nlink == nodes0[ino as int].nlink,
                self.inodes@[ino as int].blocks@.len() == nodes0[ino as int].blocks@.len() + needed,
                data0 == nodes0[ino as int].data@,
                data0.len() == old_size,
                old_size <= new_size <= MAX_FILE_SIZE,
                nodes0 == old(self).inodes@,
                bm0 == old(self).data_bitmap@,
                self.inode_bitmap@ == old(self).inode_bitmap@,
                self.inode_area_start == old(self).inode_area_start,
                self.data_bitmap@.len() == bm0.len(),
                count_free(self.data_bitmap@) + needed == count_free(bm0),
                count_free(bm0) >= needed,
                old_size <= self.inodes@[ino as int].data@.len() <= new_size,
                self.inodes@[ino as int].data@ == data0 + Seq::new(
                    (self.inodes@[ino as int].data@.len() - old_size) as nat,
                    |i: int| 0u8,
                ),
                blocks_ok(self.inodes@, self.data_bitmap@),
            decreases new_size - self.inodes@[ino as int].data@.len(),
        {
            self.inodes[ino].data.push(0u8);
            assert(self.inodes@[ino as int].data@ =~= data0 + Seq::new(
                (self.inodes@[ino as int].data@.len() - old_size) as nat,
                |i: int| 0u8,
            ));
        }
        self.inodes[ino].size = new_size;
        assert(shape_ok(self.inodes@[ino as int]));
        proof {
            lemma_inodes_frame(nodes0, self.inodes@, self.inode_bitmap@, ino as int);
        }
        assert(blocks_ok(self.inodes@, self.data_bitmap@)) by {
            assert forall|i: int, j: int| 0 <= i < self.inodes@.len() && 0 <= j < self.inodes@[i].blocks@.len()
                implies #[trigger] self.inodes@[i].blocks@[j] == self.inodes@[i].blocks@[j] by {}
        }
        Ok(())
    }

    fn write_bytes(&mut self, ino: usize, off: usize, buf: &[u8])
        requires
            old(self).core_ok(),
            ino < old(self).inodes@.len(),
            off + buf@.len() <= old(self).inodes@[ino as int].size,
        ensures
            final(self).inodes@[ino as int].data@ == written(old(self).inodes@[ino as int].data@, off as int, buf@),
            final(self).inodes@[ino as int].size == old(self).inodes@[ino as int].size,
            final(self).inodes@[ino as int].type_ == old(self).inodes@[ino as int].type_,
            final(self).inodes@[ino as int].nlink == old(self).inodes@[ino as int].nlink,
            final(self).inodes@[ino as int].blocks@ == old(self).inodes@[ino as int].blocks@,
            final(self).inodes@.len() == old(self).inodes@.len(),
            forall|i: int| 0 <= i < old(self).inodes@.len() && i != ino ==> final(self).inodes@[i] == old(self).inodes@[i],
            final(self).inode_bitmap == old(self).inode_bitmap,
            final(self).data_bitmap == old(self).data_bitmap,
            final(self).inode_area_start == old(self).inode_area_start,
            final(self).core_ok(),
    {
        let ghost c0 = self.inodes@[ino as int].data@;
        let ghost nodes0 = self.inodes@;
        assert(shape_ok(nodes0[ino as int]));
        let mut i: usize = 0;
        while i < buf.len()
            invariant
                i <= buf@.len(),
                off + buf@.len() <= MAX_FILE_SIZE,
                ino < self.inodes@.len(),
                off + buf@.len() <= c0.len(),
                nodes0 == old(self).inodes@,
                c0 == nodes0[ino as int].data@,
                self.inodes@.len() == nodes0.len(),
                forall|k: int| 0 <= k < nodes0.len() && k != ino ==> self.inodes@[k] == nodes0[k],
                self.inodes@[ino as int].size == nodes0[ino as int].size,
                self.inodes@[ino as int].type_ == nodes0[ino as int].type_,
                self.inodes@[ino as int].nlink == nodes0[ino as int].nlink,
                self.inodes@[ino as int].blocks@ == nodes0[ino as int].blocks@,
                self.inodes@[ino as int].data@ == written(c0, off as int, buf@.subrange(0, i as int)),
                self.inode_bitmap == old(self).inode_bitmap,
                self.data_bitmap == old(self).data_bitmap,
                self.inode_area_start == old(self).inode_area_start,
            decreases buf@.len() - i,
        {
            self.inodes[ino].data.set(off + i, buf[i]);
            i = i + 1;
            assert(self.inodes@[ino as int].data@ =~= written(c0, off as int, buf@.subrange(0, i as int)));
        }
        assert(buf@.subrange(0, i as int) =~= buf@);
        assert(blocks_ok(self.inodes@, self.data_bitmap@)) by {
            assert forall|k: int, j: int| 0 <= k < self.inodes@.len() && 0 <= j < self.inodes@[k].blocks@.len()
                implies #[trigger] self.inodes@[k].blocks@[j] == nodes0[k].blocks@[j] by {}
        }
        assert(written(c0, off as int, buf@).len() == c0.len());
        proof {
            lemma_inodes_frame(nodes0, self.inodes@, self.inode_bitmap@, ino as int);
        }
    }

    /// Writes `buf` at byte `offset` of inode `ino`, first growing the
    /// inode to the write's end if that lies past its size. Fails with
    /// `ResourceExhausted`, changing nothing, when the data area lacks the
    /// blocks the growth needs.
    pub fn write_at(&mut self, ino: u32, offset: usize, buf: &[u8]) -> (r: Result<usize, FsError>)
        requires
            old(self).wf(),
            old(self).is_allocated(ino as int),
            old(self).kind(ino as int) == DiskInodeType::File,
            offset + buf@.len() <= MAX_FILE_SIZE,
        ensures
            ({
                let o = old(self);
                let size = o.content(ino as int).len() as int;
                let end = offset + buf@.len();
                let needed = if end > size {
                    total_blocks_of(end) - total_blocks_of(size)
                } else {
                    0
                };
                &&& final(self).wf()
                &&& (r is Ok <==> o.free_data() >= needed)
                &&& match r {
                    Ok(n) => {
                        &&& n == buf@.len()
                        &&& final(self).content(ino as int) == written(o.content(ino as int), offset as int, buf@)
                        &&& final(self).same_except(o, ino as int)
                        &&& final(self).records() == o.records()
                        &&& final(self).nlink(ino as int) == o.nlink(ino as int)
                        &&& final(self).kind(ino as int) == o.kind(ino as int)
                        &&& final(self).free_data() + needed == o.free_data()
                        &&& final(self).free_inodes() == o.free_inodes()
                    },
                    Err(e) => e == FsError::ResourceExhausted && *final(self) == *o,
                }
            }),
    {
        let i = ino as usize;
        let end = offset + buf.len();
        let ghost c0 = self.inodes@[i as int].data@;
        let ghost nodes0 = self.inodes@;
        if end > self.inodes[i].size as usize {
            let grown = self.increase_size(i, end as u32);
            if grown.is_err() {
                return Err(FsError::ResourceExhausted);
            }
            proof {
                lemma_written_after_growth(c0, offset as int, buf@);
            }
        }
        let ghost nodes1 = self.inodes@;
        self.write_bytes(i, offset, buf);
        proof {
            assert(written(c0, offset as int, buf@).len() == self.inodes@[i as int].size);
            assert(self.inodes@[0] == nodes0[0]);
            assert(self.inodes@.len() == nodes0.len());
        }
        Ok(buf.len())
    }

    /// Reads from byte `offset` of inode `ino` into the front of `buf`, as
    /// many bytes as fit and as the inode holds; 0 at or past the end.
    pub fn read_at(&self, ino: u32, offset: usize, buf: &mut Vec<u8>) -> (r: usize)
        requires
            self.wf(),
            ino < self.inode_count(),
        ensures
            r == read_len(self.content(ino as int).len() as int, offset as int, old(buf)@.len() as int),
            final(buf)@.len() == old(buf)@.len(),
            forall|k: int| 0 <= k < r ==> #[trigger] final(buf)@[k] == self.content(ino as int)[offset + k],
            forall|k: int| r <= k < old(buf)@.len() ==> #[trigger] final(buf)@[k] == old(buf)@[k],
    {
        let data = &self.inodes[ino as usize].data;
        let size = data.len();
        if offset >= size {
            return 0;
        }
        let n: usize = if buf.len() <= size - offset {
            buf.len()
        } else {
            size - offset
        };
        let mut i: usize = 0;
        while i < n
            invariant
                i <= n,
                n <= old(buf)@.len(),
                offset + n <= size,
                size == data@.len(),
                data@ == self.content(ino as int),
                buf@.len() == old(buf)@.len(),
                forall|k: int| 0 <= k < i ==> #[trigger] buf@[k] == data@[offset + k],
                forall|k: int| i <= k < old(buf)@.len() ==> #[trigger] buf@[k] == old(buf)@[k],
            decreases n - i,
        {
            buf.set(i, data[offset + i]);
            i = i + 1;
        }
        n
    }

    /// Frees every block inode `ino` holds, index blocks included, and sets
    /// its size to zero. Its directory entries and link count stay.
    pub fn clear(&mut self, ino: u32)
        requires
            old(self).wf(),
            old(self).is_allocated(ino as int),
            old(self).kind(ino as int) == DiskInodeType::File,
        ensures
            final(self).wf(),
            final(self).content(ino as int).len() == 0,
            final(self).same_except(old(self), ino as int),
            final(self).records() == old(self).records(),
            final(self).nlink(ino as int) == old(self).nlink(ino as int),
            final(self).kind(ino as int) == old(self).kind(ino as int),
            final(self).free_data() == old(self).free_data() + total_blocks_of(
                old(self).content(ino as int).len() as int,
            ),
            final(self).free_inodes() == old(self).free_inodes(),
    {
        let i = ino as usize;
        let ghost nodes0 = self.inodes@;
        let ghost bm0 = self.data_bitmap@;
        while self.inodes[i].blocks.len() > 0
            invariant
                i < self.inodes@.len(),
                i != 0,
                self.inodes@.len() == nodes0.len(),
                nodes0 == old(self).inodes@,
                bm0 == old(self).data_bitmap@,
                forall|k: int| 0 <= k < nodes0.len() && k != i ==> self.inodes@[k] == nodes0[k],
                self.inodes@[i as int].size == nodes0[i as int].size,
                self.inodes@[i as int].type_ == nodes0[i as int].type_,
                self.inodes@[i as int].nlink == nodes0[i as int].nlink,
                self.inodes@[i as int].data@ == nodes0[i as int].data@,
                self.inodes@[i as int].blocks@.len() <= nodes0[i as int].blocks@.len(),
                count_free(self.data_bitmap@) + self.inodes@[i as int].blocks@.len()
                    == count_free(bm0) + nodes0[i as int].blocks@.len(),
                self.data_bitmap@.len() == bm0.len(),
                blocks_ok(self.inodes@, self.data_bitmap@),
                self.inode_bitmap == old(self).inode_bitmap,
                self.inode_area_start == old(self).inode_area_start,
            decreases self.inodes@[i as int].blocks@.len(),
        {
            let ghost bm1 = self.data_bitmap@;
            let ghost nodes1 = self.inodes@;
            let b = self.inodes[i].blocks.pop().unwrap();
            proof {
                assert(bm1[nodes1[i as int].blocks@[nodes1[i as int].blocks@.len() - 1] as int]);
            }
            self.data_bitmap.deallocate(b as usize);
            proof {
                lemma_pop_held(nodes1, bm1, self.inodes@, self.data_bitmap@, i as int);
            }
        }
        self.inodes[i].size = 0;
        self.inodes[i].data = Vec::new();
        proof {
            assert(shape_ok(self.inodes@[i as int]));
            assert(self.inodes@[0] == nodes0[0]);
            lemma_inodes_frame(nodes0, self.inodes@, self.inode_bitmap@, i as int);
            assert(root_ok(self.inodes@, self.inode_bitmap@));
            assert(blocks_ok(self.inodes@, self.data_bitmap@)) by {
                assert forall|k: int, j: int| 0 <= k < self.inodes@.len() && 0 <= j < self.inodes@[k].blocks@.len()
                    implies #[trigger] self.inodes@[k].blocks@[j] == self.inodes@[k].blocks@[j] by {}
            }
        }
    }
    /// Number of records in the root directory.
    fn record_count(&self) -> (r: usize)
        requires
            self.wf(),
        ensures
            r == self.records().len(),
    {
        self.inodes[0].data.len() / DIRENT_SZ
    }

    /// Index of the first record of the root directory named `name`.
    pub fn find_index(&self, name: &[u8]) -> (r: Option<usize>)
        requires
            self.wf(),
        ensures
            match r {
                Some(k) => lookup(self.records(), name@) == Some(k as int),
                None => lookup(self.records(), name@) is None,
            },
    {
        let ghost recs = self.records();
        if name.len() == 0 {
            return None;
        }
        let n = self.record_count();
        let mut k: usize = 0;
        while k < n
            invariant
                self.wf(),
                recs == self.records(),
                n == recs.len(),
                k <= n,
                name@.len() > 0,
                lookup(recs, name@) == lookup_from(recs, name@, k as int),
            decreases n - k,
        {
            let (entry, _ino) = parse_dir_entry(&self.inodes[0].data, k * DIRENT_SZ);
            assert(self.inodes@[0].data@.subrange(k * 32, k * 32 + 32) == recs[k as int]);
            if same_bytes_slices(entry.as_slice(), name) {
                return Some(k);
            }
            k = k + 1;
        }
        None
    }

    /// Inode number stored in record `k` of the root directory, which
    /// holds a live name: an allocated file inode.
    fn entry_at(&self, k: usize) -> (r: u32)
        requires
            self.wf(),
            k < self.records().len(),
            entry_name(self.records()[k as int]).len() > 0,
        ensures
            r as int == entry_inode(self.records()[k as int]),
            r < self.inode_count(),
            r != 0,
            self.is_allocated(r as int),
            self.kind(r as int) == DiskInodeType::File,
    {
        let ghost recs = self.records();
        let n = self.record_count();
        assert(k < n);
        let (_entry, ino) = parse_dir_entry(&self.inodes[0].data, k * DIRENT_SZ);
        proof {
            assert(self.inodes@[0].data@.subrange(k * 32, k * 32 + 32) == recs[k as int]);
            let id = entry_inode(recs[k as int]);
            assert(self.inodes@[id].type_ == DiskInodeType::Directory <==> id == 0);
        }
        ino
    }

    /// The inode number the first entry named `name` refers to.
    pub fn find(&self, name: &[u8]) -> (r: Option<u32>)
        requires
            self.wf(),
        ensures
            match lookup(self.records(), name@) {
                Some(k) => {
                    &&& r == Some(entry_inode(self.records()[k]) as u32)
                    &&& entry_inode(self.records()[k]) < self.inode_count()
                    &&& self.is_allocated(entry_inode(self.records()[k]))
                    &&& self.kind(entry_inode(self.records()[k])) == DiskInodeType::File
                },
                None => r is None,
            },
    {
        match self.find_index(name) {
            Some(k) => {
                proof {
                    lemma_lookup_found(self.records(), name@, 0, k as int);
                }
                Some(self.entry_at(k))
            },
            None => None,
        }
    }

    /// Names of the live entries of the root directory, in storage order.
    pub fn ls(&self) -> (r: Vec<Vec<u8>>)
        requires
            self.wf(),
        ensures
            r@.map_values(|v: Vec<u8>| v@) == live_names(self.records()),
    {
        let ghost recs = self.records();
        let n = self.record_count();
        let mut names: Vec<Vec<u8>> = Vec::new();
        let mut k: usize = 0;
        while k < n
            invariant
                self.wf(),
                recs == self.records(),
                n == recs.len(),
                k <= n,
                names@.map_values(|v: Vec<u8>| v@) == live_names(recs.subrange(0, k as int)),
            decreases n - k,
        {
            let (entry, _ino) = parse_dir_entry(&self.inodes[0].data, k * DIRENT_SZ);
            assert(self.inodes@[0].data@.subrange(k * 32, k * 32 + 32) == recs[k as int]);
            let ghost pre = names@;
            assert(recs.subrange(0, k + 1).drop_last() =~= recs.subrange(0, k as int));
            if entry.len() > 0 {
                names.push(entry);
                assert(names@.map_values(|v: Vec<u8>| v@) =~= pre.map_values(|v: Vec<u8>| v@).push(
                    recs[k as int].subrange(0, name_end(recs[k as int], 0)),
                ));
            }
            k = k + 1;
        }
        assert(recs.subrange(0, n as int) =~= recs);
        names
    }

    fn append_entry(&mut self, name: &[u8], id: u32) -> (r: Result<(), FsError>)
        requires
            old(self).wf(),
            valid_name(name@),
            0 < id < old(self).inodes@.len(),
            old(self).inode_bitmap@[id as int],
        ensures
            ({
                let o = old(self);
                let s = o.content(0).len() as int;
                let needed = total_blocks_of(s + 32) - total_blocks_of(s);
                &&& (r is Ok <==> s + 32 <= MAX_FILE_SIZE && count_free(o.data_bitmap@) >= needed)
                &&& match r {
                    Ok(()) => {
                        &&& final(self).wf()
                        &&& final(self).records() == o.records().push(encode_entry(name@, id))
                        &&& count_free(final(self).data_bitmap@) + needed == count_free(o.data_bitmap@)
                        &&& final(self).inode_bitmap@ == o.inode_bitmap@
                        &&& final(self).inode_area_start == o.inode_area_start
                        &&& final(self).inodes@.len() == o.inodes@.len()
                        &&& forall|i: int| 0 < i < o.inodes@.len() ==> final(self).inodes@[i] == o.inodes@[i]
                        &&& final(self).inodes@[0].nlink == o.inodes@[0].nlink
                    },
                    Err(e) => e == FsError::ResourceExhausted && *final(self) == *o,
                }
            }),
    {
        let s = self.inodes[0].size;
        proof {
            assert(shape_ok(self.inodes@[0]));
        }
        if s as usize + DIRENT_SZ > MAX_FILE_SIZE {
            return Err(FsError::ResourceExhausted);
        }
        let ghost nodes0 = self.inodes@;
        let ghost c0 = self.inodes@[0].data@;
        let grown = self.increase_size(0, s + DIRENT_SZ as u32);
        if grown.is_err() {
            return Err(FsError::ResourceExhausted);
        }
        let rec = dir_entry_bytes(name, id);
        self.write_bytes(0, s as usize, rec.as_slice());
        proof {
            lemma_entry_round_trip(name@, id);
            let c1 = c0 + Seq::new(32, |i: int| 0u8);
            assert(written(c1, s as int, rec@) =~= c0 + rec@);
            lemma_records_append(c0, rec@);
            let recs = dir_records(self.inodes@[0].data@);
            assert forall|k: int|
                0 <= k < recs.len() && entry_name(#[trigger] recs[k]).len() > 0 implies {
                &&& 0 < entry_inode(recs[k]) < self.inodes@.len()
                &&& self.inode_bitmap@[entry_inode(recs[k])]
                &&& valid_name(entry_name(recs[k]))
            } by {
                if k < recs.len() - 1 {
                    assert(recs[k] == dir_records(nodes0[0].data@)[k]);
                }
            }
        }
        Ok(())
    }

    /// Opens `name` for writing from scratch: an existing file of that name
    /// is truncated and keeps its inode; otherwise a fresh inode gets a new
    /// entry at the end of the root directory.
    pub fn create(&mut self, name: &[u8]) -> (r: Result<u32, FsError>)
        requires
            old(self).wf(),
        ensures
            final(self).wf(),
            match r {
                Ok(id) => final(self).is_allocated(id as int) && final(self).kind(id as int)
                    == DiskInodeType::File,
                Err(_) => true,
            },
            ({
                let o = old(self);
                let s = o.content(0).len() as int;
                let needed = total_blocks_of(s + 32) - total_blocks_of(s);
                if !valid_name(name@) {
                    r == Err::<u32, FsError>(FsError::InvalidName) && *final(self) == *o
                } else {
                    match lookup(o.records(), name@) {
                        Some(k) => {
                            &&& r == Ok::<u32, FsError>(entry_inode(o.records()[k]) as u32)
                            &&& final(self).records() == o.records()
                            &&& final(self).content(entry_inode(o.records()[k])).len() == 0
                            &&& final(self).same_except(o, entry_inode(o.records()[k]))
                            &&& final(self).nlink(entry_inode(o.records()[k])) == o.nlink(entry_inode(o.records()[k]))
                            &&& final(self).free_data() == o.free_data() + total_blocks_of(
                                o.content(entry_inode(o.records()[k])).len() as int,
                            )
                            &&& final(self).free_inodes() == o.free_inodes()
                        },
                        None => {
                            &&& (r is Ok <==> o.free_inodes() > 0 && s + 32 <= MAX_FILE_SIZE
                                && o.free_data() >= needed)
                            &&& match r {
                                Ok(id) => {
                                    &&& !o.is_allocated(id as int)
                                    &&& final(self).is_allocated(id as int)
                                    &&& final(self).records() == o.records().push(encode_entry(name@, id))
                                    &&& final(self).content(id as int).len() == 0
                                    &&& final(self).nlink(id as int) == 1
                                    &&& final(self).kind(id as int) == DiskInodeType::File
                                    &&& final(self).free_data() + needed == o.free_data()
                                    &&& final(self).free_inodes() + 1 == o.free_inodes()
                                    &&& final(self).inode_count() == o.inode_count()
                                    &&& forall|i: int|
                                        0 < i < o.inode_count() && i != id ==> {
                                            &&& final(self).content(i) == o.content(i)
                                            &&& final(self).nlink(i) == o.nlink(i)
                                            &&& final(self).is_allocated(i) == o.is_allocated(i)
                                        }
                                },
                                Err(e) => e == FsError::ResourceExhausted && *final(self) == *o,
                            }
                        },
                    }
                }
            }),
    {
        if !is_valid_name(name) {
            return Err(FsError::InvalidName);
        }
        let ghost recs0 = self.records();
        match self.find(name) {
            Some(id) => {
                proof {
                    let k = lookup(recs0, name@)->Some_0;
                    lemma_lookup_found(recs0, name@, 0, k);
                }
                self.clear(id);
                return Ok(id);
            },
            None => {},
        }
        let s = self.inodes[0].size;
        proof {
            assert(shape_ok(self.inodes@[0]));
        }
        if s as usize + DIRENT_SZ > MAX_FILE_SIZE {
            return Err(FsError::ResourceExhausted);
        }
        let needed = blocks_num_needed(s, s + DIRENT_SZ as u32);
        if self.data_bitmap.free_count() < needed as usize {
            return Err(FsError::ResourceExhausted);
        }
        let ghost ibm0 = self.inode_bitmap@;
        let ghost nodes0 = self.inodes@;
        let got = self.inode_bitmap.allocate();
        let id = match got {
            Some(i) => i,
            None => {
                return Err(FsError::ResourceExhausted);
            },
        };
        proof {
            assert(ibm0[0]);
            assert(id != 0);
            assert(nodes0[id as int].size == 0);
            assert(shape_ok(nodes0[id as int]));
        }
        self.inodes.set(
            id,
            DiskInode {
                size: 0,
                type_: DiskInodeType::File,
                nlink: 1,
                blocks: Vec::new(),
                data: Vec::new(),
            },
        );
        proof {
            let ibm = self.inode_bitmap@;
            assert forall|k: int| 0 <= k < nodes0.len() && !ibm[k] implies (#[trigger] nodes0[k]).size == 0 by {
                assert(!ibm0[k]);
            }
            assert(inodes_ok(nodes0, ibm));
            lemma_inodes_frame(nodes0, self.inodes@, ibm, id as int);
            assert(self.inodes@[id as int].blocks@ =~= nodes0[id as int].blocks@);
            lemma_blocks_same(nodes0, self.inodes@, self.data_bitmap@);
            assert(self.inodes@[0] == nodes0[0]);
            let recs = dir_records(self.inodes@[0].data@);
            assert forall|k: int|
                0 <= k < recs.len() && entry_name(#[trigger] recs[k]).len() > 0 implies {
                &&& 0 < entry_inode(recs[k]) < self.inodes@.len()
                &&& self.inode_bitmap@[entry_inode(recs[k])]
                &&& valid_name(entry_name(recs[k]))
            } by {
                assert(ibm0[entry_inode(recs[k])]);
            }
        }
        let appended = self.append_entry(name, id as u32);
        if appended.is_err() {
            proof {
                assert(false);
            }
            return Err(FsError::ResourceExhausted);
        }
        Ok(id as u32)
    }
    /// Adds the entry `new_name` for the inode that `old_name` names, and
    /// counts the new link. The new name is not checked for an existing
    /// entry: a name can end up twice in the directory.
    #[verifier::rlimit(60)]
    pub fn link(&mut self, old_name: &[u8], new_name: &[u8]) -> (r: Result<(), FsError>)
        requires
            old(self).wf(),
        ensures
            final(self).wf(),
            ({
                let o = old(self);
                let s = o.content(0).len() as int;
                let needed = total_blocks_of(s + 32) - total_blocks_of(s);
                if old_name@ == new_name@ {
                    r == Err::<(), FsError>(FsError::SameName) && *final(self) == *o
                } else if lookup(o.records(), old_name@) is None {
                    r == Err::<(), FsError>(FsError::NotFound) && *final(self) == *o
                } else if !valid_name(new_name@) {
                    r == Err::<(), FsError>(FsError::InvalidName) && *final(self) == *o
                } else {
                    let id = entry_inode(o.records()[lookup(o.records(), old_name@)->Some_0]);
                    if o.nlink(id) >= u32::MAX {
                        r == Err::<(), FsError>(FsError::LinkLimit) && *final(self) == *o
                    } else if s + 32 > MAX_FILE_SIZE || o.free_data() < needed {
                        r == Err::<(), FsError>(FsError::ResourceExhausted) && *final(self) == *o
                    } else {
                        &&& r is Ok
                        &&& final(self).records() == o.records().push(encode_entry(new_name@, id as u32))
                        &&& final(self).nlink(id) == o.nlink(id) + 1
                        &&& final(self).content(id) == o.content(id)
                        &&& final(self).same_except(o, id)
                        &&& final(self).free_data() + needed == o.free_data()
                    }
                }
            }),
    {
        if same_bytes_slices(old_name, new_name) {
            return Err(FsError::SameName);
        }
        let ghost recs0 = self.records();
        let id = match self.find(old_name) {
            Some(id) => id,
            None => {
                return Err(FsError::NotFound);
            },
        };
        if !is_valid_name(new_name) {
            return Err(FsError::InvalidName);
        }
        let i = id as usize;
        if self.inodes[i].nlink == u32::MAX {
            return Err(FsError::LinkLimit);
        }
        let s = self.inodes[0].size;
        proof {
            assert(shape_ok(self.inodes@[0]));
        }
        if s as usize + DIRENT_SZ > MAX_FILE_SIZE {
            return Err(FsError::ResourceExhausted);
        }
        let needed = blocks_num_needed(s, s + DIRENT_SZ as u32);
        if self.data_bitmap.free_count() < needed as usize {
            return Err(FsError::ResourceExhausted);
        }
        let ghost nodes0 = self.inodes@;
        let appended = self.append_entry(new_name, id);
        if appended.is_err() {
            proof {
                assert(false);
            }
            return Err(FsError::ResourceExhausted);
        }
        let ghost nodes1 = self.inodes@;
        self.inodes[i].nlink = self.inodes[i].nlink + 1;
        proof {
            lemma_inodes_frame(nodes1, self.inodes@, self.inode_bitmap@, i as int);
            lemma_blocks_same(nodes1, self.inodes@, self.data_bitmap@);
            assert(self.inodes@[0] == nodes1[0]);
        }
        Ok(())
    }

    /// Removes the first entry named `name`: its record becomes blank and
    /// the inode loses one link; when none is left its blocks are freed.
    pub fn unlink(&mut self, name: &[u8]) -> (r: Result<(), FsError>)
        requires
            old(self).wf(),
        ensures
            final(self).wf(),
            ({
                let o = old(self);
                match lookup(o.records(), name@) {
                    None => r == Err::<(), FsError>(FsError::NotFound) && *final(self) == *o,
                    Some(k) => {
                        let id = entry_inode(o.records()[k]);
                        let left: nat = if o.nlink(id) > 0 { (o.nlink(id) - 1) as nat } else { 0nat };
                        &&& r is Ok
                        &&& final(self).records() == o.records().update(k, blank_entry())
                        &&& final(self).nlink(id) == left
                        &&& final(self).content(id) == if left == 0 { Seq::<u8>::empty() } else { o.content(id) }
                        &&& final(self).same_except(o, id)
                        &&& final(self).free_data() as int == if left == 0 {
                            o.free_data() + total_blocks_of(o.content(id).len() as int)
                        } else {
                            o.free_data() as int
                        }
                    },
                }
            }),
    {
        let k = match self.find_index(name) {
            Some(k) => k,
            None => {
                return Err(FsError::NotFound);
            },
        };
        let ghost recs0 = self.records();
        proof {
            lemma_lookup_found(recs0, name@, 0, k as int);
        }
        let id = self.entry_at(k);
        let blank: Vec<u8> = vec![0u8; 32];
        assert(blank@ =~= blank_entry());
        let ghost nodes0 = self.inodes@;
        self.write_bytes(0, k * DIRENT_SZ, blank.as_slice());
        proof {
            lemma_records_update(nodes0[0].data@, k as int, blank@);
            lemma_blank_entry_name();
            let recs = dir_records(self.inodes@[0].data@);
            assert forall|m: int|
                0 <= m < recs.len() && entry_name(#[trigger] recs[m]).len() > 0 implies {
                &&& 0 < entry_inode(recs[m]) < self.inodes@.len()
                &&& self.inode_bitmap@[entry_inode(recs[m])]
                &&& valid_name(entry_name(recs[m]))
            } by {
                if m != k {
                    assert(recs[m] == recs0[m]);
                }
            }
        }
        let i = id as usize;
        if self.inodes[i].nlink > 1 {
            let ghost nodes1 = self.inodes@;
            self.inodes[i].nlink = self.inodes[i].nlink - 1;
            proof {
                lemma_inodes_frame(nodes1, self.inodes@, self.inode_bitmap@, i as int);
                lemma_blocks_same(nodes1, self.inodes@, self.data_bitmap@);
                assert(self.inodes@[0] == nodes1[0]);
            }
        } else {
            let ghost nodes1 = self.inodes@;
            self.inodes[i].nlink = 0;
            proof {
                lemma_inodes_frame(nodes1, self.inodes@, self.inode_bitmap@, i as int);
                lemma_blocks_same(nodes1, self.inodes@, self.data_bitmap@);
                assert(self.inodes@[0] == nodes1[0]);
            }
            self.clear(id);
        }
        Ok(())
    }
    /// Byte size of inode `ino`.
    pub fn size_of(&self, ino: u32) -> (r: usize)
        requires
            self.wf(),
            ino < self.inode_count(),
        ensures
            r == self.content(ino as int).len(),
    {
        self.inodes[ino as usize].data.len()
    }

    /// Link count of inode `ino`.
    pub fn nlink_of(&self, ino: u32) -> (r: u32)
        requires
            ino < self.inode_count(),
        ensures
            r == self.nlink(ino as int),
    {
        self.inodes[ino as usize].nlink
    }

    /// Type of inode `ino`.
    pub fn kind_of(&self, ino: u32) -> (r: DiskInodeType)
        requires
            ino < self.inode_count(),
        ensures
            r == self.kind(ino as int),
    {
        self.inodes[ino as usize].type_
    }

    /// First block of the inode area.
    pub fn inode_area_start(&self) -> (r: u32)
        ensures
            r == self.area_start(),
    {
        self.inode_area_start
    }

    /// Number of free blocks in the data area.
    pub fn free_data_blocks(&self) -> (r: usize)
        ensures
            r == self.free_data(),
    {
        self.data_bitmap.free_count()
    }

    /// Number of inode slots.
    pub fn inode_slots(&self) -> (r: usize)
        ensures
            r == self.inode_count(),
    {
        self.inodes.len()
    }

    /// The inode count bounds where the inode area starts.
    pub proof fn lemma_area_start(&self)
        requires
            self.wf(),
        ensures
            self.area_start() == (self.inode_count() + 4095) / 4096 + 1,
            0 < self.inode_count() <= u32::MAX,
    {
    }
    /// No inode holds more than the largest file size.
    pub proof fn lemma_content_bound(&self, ino: int)
        requires
            self.wf(),
            0 <= ino < self.inode_count(),
        ensures
            self.content(ino).len() <= MAX_FILE_SIZE,
    {
        assert(shape_ok(self.inodes@[ino]));
    }
    fn decrease_size(&mut self, ino: usize, new_size: u32)
        requires
            old(self).core_ok(),
            ino < old(self).inodes@.len(),
            new_size <= old(self).inodes@[ino as int].size,
        ensures
            final(self).core_ok(),
            final(self).inodes@[ino as int].data@ == old(self).inodes@[ino as int].data@.subrange(0, new_size as int),
            final(self).inodes@[ino as int].size == new_size,
            final(self).inodes@[ino as int].type_ == old(self).inodes@[ino as int].type_,
            final(self).inodes@[ino as int].nlink == old(self).inodes@[ino as int].nlink,
            count_free(final(self).data_bitmap@) == count_free(old(self).data_bitmap@) + total_blocks_of(
                old(self).inodes@[ino as int].size as int,
            ) - total_blocks_of(new_size as int),
            final(self).inodes@.len() == old(self).inodes@.len(),
            forall|i: int| 0 <= i < old(self).inodes@.len() && i != ino ==> final(self).inodes@[i] == old(self).inodes@[i],
            final(self).inode_bitmap == old(self).inode_bitmap,
            final(self).inode_area_start == old(self).inode_area_start,
    {
        let ghost nodes0 = self.inodes@;
        let ghost bm0 = self.data_bitmap@;
        proof {
            assert(shape_ok(nodes0[ino as int]));
            lemma_total_blocks_monotonic(new_size as int, nodes0[ino as int].size as int);
        }
        let keep = total_blocks(new_size) as usize;
        while self.inodes[ino].blocks.len() > keep
            invariant
                ino < self.inodes@.len(),
                keep == total_blocks_of(new_size as int),
                self.inodes@.len() == nodes0.len(),
                nodes0 == old(self).inodes@,
                bm0 == old(self).data_bitmap@,
                forall|k: int| 0 <= k < nodes0.len() && k != ino ==> self.inodes@[k] == nodes0[k],
                self.inodes@[ino as int].size == nodes0[ino as int].size,
                self.inodes@[ino as int].type_ == nodes0[ino as int].type_,
                self.inodes@[ino as int].nlink == nodes0[ino as int].nlink,
                self.inodes@[ino as int].data@ == nodes0[ino as int].data@,
                keep <= self.inodes@[ino as int].blocks@.len() <= nodes0[ino as int].blocks@.len(),
                count_free(self.data_bitmap@) + self.inodes@[ino as int].blocks@.len()
                    == count_free(bm0) + nodes0[ino as int].blocks@.len(),
                self.data_bitmap@.len() == bm0.len(),
                blocks_ok(self.inodes@, self.data_bitmap@),
                self.inode_bitmap == old(self).inode_bitmap,
                self.inode_area_start == old(self).inode_area_start,
            decreases self.inodes@[ino as int].blocks@.len(),
        {
            let ghost bm1 = self.data_bitmap@;
            let ghost nodes1 = self.inodes@;
            let b = self.inodes[ino].blocks.pop().unwrap();
            proof {
                assert(bm1[nodes1[ino as int].blocks@[nodes1[ino as int].blocks@.len() - 1] as int]);
            }
            self.data_bitmap.deallocate(b as usize);
            proof {
                lemma_pop_held(nodes1, bm1, self.inodes@, self.data_bitmap@, ino as int);
            }
        }
        let ghost d0 = self.inodes@[ino as int].data@;
        while self.inodes[ino].data.len() > new_size as usize
            invariant
                ino < self.inodes@.len(),
                self.inodes@.len() == nodes0.len(),
                forall|k: int| 0 <= k < nodes0.len() && k != ino ==> self.inodes@[k] == nodes0[k],
                self.inodes@[ino as int].size == nodes0[ino as int].size,
                self.inodes@[ino as int].type_ == nodes0[ino as int].type_,
                self.inodes@[ino as int].nlink == nodes0[ino as int].nlink,
                self.inodes@[ino as int].blocks@.len() == keep,
                keep == total_blocks_of(new_size as int),
                d0 == nodes0[ino as int].data@,
                new_size <= self.inodes@[ino as int].data@.len() <= d0.len(),
                nodes0 == old(self).inodes@,
                bm0 == old(self).data_bitmap@,
                self.inode_bitmap == old(self).inode_bitmap,
                self.inode_area_start == old(self).inode_area_start,
                self.data_bitmap@.len() == bm0.len(),
                count_free(self.data_bitmap@) + keep == count_free(bm0) + nodes0[ino as int].blocks@.len(),
                self.inodes@[ino as int].data@ == d0.subrange(0, self.inodes@[ino as int].data@.len() as int),
                blocks_ok(self.inodes@, self.data_bitmap@),
            decreases self.inodes@[ino as int].data@.len(),
        {
            self.inodes[ino].data.pop();
            assert(self.inodes@[ino as int].data@ =~= d0.subrange(0, self.inodes@[ino as int].data@.len() as int));
        }
        self.inodes[ino].size = new_size;
        proof {
            assert(shape_ok(self.inodes@[ino as int]));
            assert(self.inode_bitmap@[ino as int] || self.inodes@[ino as int].size == 0) by {
                assert(nodes0[ino as int].size == 0 || self.inode_bitmap@[ino as int]);
            }
            lemma_inodes_frame(nodes0, self.inodes@, self.inode_bitmap@, ino as int);
            assert(blocks_ok(self.inodes@, self.data_bitmap@)) by {
                assert forall|k: int, j: int| 0 <= k < self.inodes@.len() && 0 <= j < self.inodes@[k].blocks@.len()
                    implies #[trigger] self.inodes@[k].blocks@[j] == self.inodes@[k].blocks@[j] by {}
            }
        }
    }

    /// Unlinks `name`, dropping the directory's last record on the final
    /// link: with a single link left, the file's blocks are freed and the
    /// directory loses its last record, whichever record named the file
    /// (that record may belong to another name, and the file's own record
    /// stays); with more, the link count drops and the first record of that
    /// name is blanked. `unlink` is the variant that always blanks the
    /// matching record.
    pub fn unlink_dropping_last(&mut self, name: &[u8]) -> (r: Result<(), FsError>)
        requires
            old(self).wf(),
        ensures
            final(self).wf(),
            ({
                let o = old(self);
                match lookup(o.records(), name@) {
                    None => r == Err::<(), FsError>(FsError::NotFound) && *final(self) == *o,
                    Some(k) => {
                        let id = entry_inode(o.records()[k]);
                        let s = o.content(0).len() as int;
                        &&& r is Ok
                        &&& final(self).same_except(o, id)
                        &&& final(self).free_inodes() == o.free_inodes()
                        &&& if o.nlink(id) <= 1 {
                            &&& final(self).records() == o.records().drop_last()
                            &&& final(self).content(0).len() == s - 32
                            &&& final(self).nlink(id) == o.nlink(id)
                            &&& final(self).content(id).len() == 0
                            &&& final(self).free_data() == o.free_data() + total_blocks_of(
                                o.content(id).len() as int,
                            ) + total_blocks_of(s) - total_blocks_of(s - 32)
                        } else {
                            &&& final(self).records() == o.records().update(k, blank_entry())
                            &&& final(self).content(0).len() == s
                            &&& final(self).nlink(id) == o.nlink(id) - 1
                            &&& final(self).content(id) == o.content(id)
                            &&& final(self).free_data() == o.free_data()
                        }
                    },
                }
            }),
    {
        let k = match self.find_index(name) {
            Some(k) => k,
            None => {
                return Err(FsError::NotFound);
            },
        };
        let ghost recs0 = self.records();
        proof {
            lemma_lookup_found(recs0, name@, 0, k as int);
        }
        let id = self.entry_at(k);
        let i = id as usize;
        if self.inodes[i].nlink <= 1 {
            self.clear(id);
            let ghost nodes1 = self.inodes@;
            let s = self.inodes[0].size;
            proof {
                assert(shape_ok(nodes1[0]));
            }
            self.decrease_size(0, s - DIRENT_SZ as u32);
            proof {
                let c0 = nodes1[0].data@;
                let c1 = self.inodes@[0].data@;
                assert(c1.len() % 32 == 0);
                assert(dir_records(c1) =~= dir_records(c0).drop_last()) by {
                    assert forall|m: int| 0 <= m < dir_records(c1).len() implies #[trigger] dir_records(c1)[m]
                        =~= dir_records(c0).drop_last()[m] by {}
                }
                let recs = dir_records(c1);
                assert forall|m: int|
                    0 <= m < recs.len() && entry_name(#[trigger] recs[m]).len() > 0 implies {
                    &&& 0 < entry_inode(recs[m]) < self.inodes@.len()
                    &&& self.inode_bitmap@[entry_inode(recs[m])]
                    &&& valid_name(entry_name(recs[m]))
                } by {
                    assert(recs[m] == dir_records(c0)[m]);
                }
            }
        } else {
            let blank: Vec<u8> = vec![0u8; 32];
            assert(blank@ =~= blank_entry());
            let ghost nodes0 = self.inodes@;
            self.write_bytes(0, k * DIRENT_SZ, blank.as_slice());
            proof {
                lemma_records_update(nodes0[0].data@, k as int, blank@);
                lemma_blank_entry_name();
                let recs = dir_records(self.inodes@[0].data@);
                assert forall|m: int|
                    0 <= m < recs.len() && entry_name(#[trigger] recs[m]).len() > 0 implies {
                    &&& 0 < entry_inode(recs[m]) < self.inodes@.len()
                    &&& self.inode_bitmap@[entry_inode(recs[m])]
                    &&& valid_name(entry_name(recs[m]))
                } by {
                    if m != k {
                        assert(recs[m] == recs0[m]);
                    }
                }
            }
            let ghost nodes1 = self.inodes@;
            self.inodes[i].nlink = self.inodes[i].nlink - 1;
            proof {
                lemma_inodes_frame(nodes1, self.inodes@, self.inode_bitmap@, i as int);
                lemma_blocks_same(nodes1, self.inodes@, self.data_bitmap@);
                assert(self.inodes@[0] == nodes1[0]);
            }
        }
        Ok(())
    }
    /// Facts of a well-formed volume that callers need: allocated inodes
    /// are in range, inode 0 is the root directory, and the root's size is
    /// one record size per record.
    pub proof fn lemma_wf_facts(&self)
        requires
            self.wf(),
        ensures
            forall|i: int| #[trigger] self.is_allocated(i) ==> 0 <= i < self.inode_count(),
            self.is_allocated(0),
            self.kind(0) == DiskInodeType::Directory,
            self.content(0).len() == 32 * self.records().len(),
            forall|k: int|
                0 <= k < self.records().len() && entry_name(#[trigger] self.records()[k]).len() > 0
                    ==> self.is_allocated(entry_inode(self.records()[k])),
    {
    }

    /// A name that the root directory resolves is a valid name, and the
    /// inode it resolves to is an allocated file.
    pub proof fn lemma_found_name(&self, name: Seq<u8>)
        requires
            self.wf(),
            lookup(self.records(), name) is Some,
        ensures
            valid_name(name),
            self.is_allocated(entry_inode(self.records()[lookup(self.records(), name)->Some_0])),
            self.kind(entry_inode(self.records()[lookup(self.records(), name)->Some_0])) == DiskInodeType::File,
    {
        let k = lookup(self.records(), name)->Some_0;
        lemma_lookup_found(self.records(), name, 0, k);
        let id = entry_inode(self.records()[k]);
        assert(self.inodes@[id].type_ == DiskInodeType::Directory <==> id == 0);
    }
    /// Formats a volume of `total_blocks` blocks whose inode bitmap takes
    /// `inode_bitmap_blocks` blocks, with the regions of
    /// `SuperBlock::layout`: one inode slot per inode-bitmap bit, and the
    /// data area that layout leaves. `None` when no room is left for data.
    /// The inode bitmap spans at most 1048575 blocks, so that every inode
    /// number fits in 32 bits.
    pub fn create_volume(total_blocks: u32, inode_bitmap_blocks: u32) -> (r: Option<EasyFileSystem>)
        requires
            1 <= inode_bitmap_blocks <= 1048575,
        ensures
            ({
                let (ia, dbb, da) = layout_of(total_blocks as int, inode_bitmap_blocks as int);
                match r {
                    Some(fs) => {
                        &&& 1 + inode_bitmap_blocks + ia < total_blocks
                        &&& fs.wf()
                        &&& fs.inode_count() == inode_bitmap_blocks * 4096
                        &&& fs.area_start() == 1 + inode_bitmap_blocks
                        &&& fs.data_capacity() == da
                        &&& fs.free_data() == da
                        &&& fs.free_inodes() + 1 == fs.inode_count()
                        &&& fs.kind(0) == DiskInodeType::Directory
                        &&& fs.content(0).len() == 0
                        &&& forall|i: int| 0 < i < fs.inode_count() ==> !fs.is_allocated(i)
                    },
                    None => 1 + inode_bitmap_blocks + ia >= total_blocks,
                }
            }),
    {
        match SuperBlock::layout(total_blocks, inode_bitmap_blocks) {
            Some(sb) => {
                let count = (sb.inode_count()) as u32;
                Some(EasyFileSystem::format(count, sb.data_area_blocks))
            },
            None => None,
        }
    }
}

} // verus!
