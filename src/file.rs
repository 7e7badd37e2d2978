//! Open files: permission flags and a cursor over an inode of the volume,
//! and the name-level calls a system-call layer makes.
use vstd::prelude::*;

use crate::efs::{
    lemma_lookup_found, lemma_lookup_push, lookup, read_len, written, DiskInodeType,
    EasyFileSystem, FsError,
};
use crate::layout::{
    disk_inode_position, encode_entry, entry_inode, inode_position, total_blocks_of,
    valid_name, blank_entry, DISK_INODE_SZ, MAX_FILE_SIZE,
};

verus! {

/// Open for reading only (no bit set).
pub const RDONLY: u32 = 0;
/// Open for writing only.
pub const WRONLY: u32 = 1;
/// Open for reading and writing.
pub const RDWR: u32 = 2;
/// Create the file, or truncate it if it exists.
pub const CREATE: u32 = 512;
/// Truncate an existing file.
pub const TRUNC: u32 = 1024;

/// What the flag bits say of each other: adding a flag sets it, adding
/// one never sets another, and the three access modes carry neither
/// `CREATE` nor `TRUNC`.
pub proof fn lemma_flag_bits()
    ensures
        forall|b: u32| #[trigger] (b | CREATE) & CREATE == CREATE,
        forall|b: u32| #[trigger] (CREATE | b) & CREATE == CREATE,
        forall|b: u32| #[trigger] (b | TRUNC) & TRUNC == TRUNC,
        forall|b: u32| #[trigger] (TRUNC | b) & TRUNC == TRUNC,
        forall|b: u32| b & WRONLY != WRONLY ==> #[trigger] (CREATE | b) & WRONLY != WRONLY,
        forall|b: u32| b & WRONLY != WRONLY ==> #[trigger] (TRUNC | b) & WRONLY != WRONLY,
        forall|b: u32| b & CREATE != CREATE ==> #[trigger] (TRUNC | b) & CREATE != CREATE,
        forall|b: u32| #[trigger] (b | WRONLY) & WRONLY == WRONLY,
        forall|b: u32| b & CREATE != CREATE ==> #[trigger] (b | TRUNC) & CREATE != CREATE,
        forall|b: u32| b & TRUNC != TRUNC ==> #[trigger] (b | CREATE) & TRUNC != TRUNC,
        forall|b: u32| b & WRONLY != WRONLY ==> #[trigger] (b | CREATE) & WRONLY != WRONLY,
        forall|b: u32| b & WRONLY != WRONLY ==> #[trigger] (b | TRUNC) & WRONLY != WRONLY,
        RDONLY & CREATE != CREATE && RDONLY & TRUNC != TRUNC && RDONLY & WRONLY != WRONLY,
        WRONLY & CREATE != CREATE && WRONLY & TRUNC != TRUNC,
        RDWR & CREATE != CREATE && RDWR & TRUNC != TRUNC && RDWR & WRONLY != WRONLY,
{
    assert(forall|b: u32| #[trigger] (b | 512u32) & 512u32 == 512u32) by (bit_vector);
    assert(forall|b: u32| #[trigger] (b | 1024u32) & 1024u32 == 1024u32) by (bit_vector);
    assert(forall|b: u32| #[trigger] (512u32 | b) & 512u32 == 512u32) by (bit_vector);
    assert(forall|b: u32| #[trigger] (1024u32 | b) & 1024u32 == 1024u32) by (bit_vector);
    assert(forall|b: u32| b & 1u32 != 1u32 ==> #[trigger] (512u32 | b) & 1u32 != 1u32) by (bit_vector);
    assert(forall|b: u32| b & 1u32 != 1u32 ==> #[trigger] (1024u32 | b) & 1u32 != 1u32) by (bit_vector);
    assert(forall|b: u32| b & 512u32 != 512u32 ==> #[trigger] (1024u32 | b) & 512u32 != 512u32) by (bit_vector);
    assert(forall|b: u32| #[trigger] (b | 1u32) & 1u32 == 1u32) by (bit_vector);
    assert(forall|b: u32| b & 512u32 != 512u32 ==> #[trigger] (b | 1024u32) & 512u32 != 512u32) by (bit_vector);
    assert(forall|b: u32| b & 1024u32 != 1024u32 ==> #[trigger] (b | 512u32) & 1024u32 != 1024u32) by (bit_vector);
    assert(forall|b: u32| b & 1u32 != 1u32 ==> #[trigger] (b | 512u32) & 1u32 != 1u32) by (bit_vector);
    assert(forall|b: u32| b & 1u32 != 1u32 ==> #[trigger] (b | 1024u32) & 1u32 != 1u32) by (bit_vector);
    assert(0u32 & 512u32 != 512u32 && 0u32 & 1024u32 != 1024u32 && 0u32 & 1u32 != 1u32) by (bit_vector);
    assert(1u32 & 512u32 != 512u32 && 1u32 & 1024u32 != 1024u32) by (bit_vector);
    assert(2u32 & 512u32 != 512u32 && 2u32 & 1024u32 != 1024u32 && 2u32 & 1u32 != 1u32) by (bit_vector);
}

/// Flags given when a file is opened.
#[derive(Clone, Copy, Debug, PartialEq, Eq, Structural)]
pub struct OpenFlags {
    pub bits: u32,
}

/// Read and write permission that `bits` grants: none set reads only;
/// the write-only bit writes only; anything else does both.
pub open spec fn permissions(bits: u32) -> (bool, bool) {
    if bits == 0 {
        (true, false)
    } else if bits & WRONLY == WRONLY {
        (false, true)
    } else {
        (true, true)
    }
}

impl OpenFlags {
    /// Flags with exactly the bits `bits`.
    pub fn from_bits(bits: u32) -> (r: OpenFlags)
        ensures
            r.bits == bits,
    {
        OpenFlags { bits }
    }

    /// Whether no bit is set.
    pub fn is_empty(&self) -> (r: bool)
        ensures
            r == (self.bits == 0),
    {
        self.bits == 0
    }

    /// Whether every bit of `flag` is set.
    pub fn contains(&self, flag: u32) -> (r: bool)
        ensures
            r == (self.bits & flag == flag),
    {
        self.bits & flag == flag
    }

    /// The (readable, writable) pair these flags grant.
    pub fn read_write(&self) -> (r: (bool, bool))
        ensures
            r == permissions(self.bits),
    {
        if self.is_empty() {
            (true, false)
        } else if self.contains(WRONLY) {
            (false, true)
        } else {
            (true, true)
        }
    }
}

/// Whether a stat record describes a file or a directory.
#[derive(Clone, Copy, Debug, PartialEq, Eq, Structural)]
pub enum StatMode {
    File,
    Dir,
}

/// What `stat` reports of an open file. `dev` and `ino` are the home
/// block and byte offset of its inode record.
#[derive(Clone, Copy, Debug, PartialEq, Eq, Structural)]
pub struct Stat {
    pub dev: u64,
    pub ino: u64,
    pub mode: StatMode,
    pub nlink: u32,
}

/// The mutable part of an open session: its cursor and its inode.
pub struct OSInodeInner {
    pub offset: usize,
    pub inode: u32,
}

/// A destination or source made of several byte buffers, used in order.
pub struct UserBuffer {
    pub buffers: Vec<Vec<u8>>,
}

proof fn lemma_prefix_flat_len(parts: Seq<Seq<u8>>, j: int)
    requires
        0 <= j <= parts.len(),
    ensures
        parts.subrange(0, j).flatten().len() <= parts.flatten().len(),
    decreases parts.len() - j,
{
    broadcast use Seq::lemma_flatten_push;

    if j < parts.len() {
        assert(parts.subrange(0, j + 1) =~= parts.subrange(0, j).push(parts[j]));
        lemma_prefix_flat_len(parts, j + 1);
    } else {
        assert(parts.subrange(0, j) =~= parts);
    }
}

impl UserBuffer {
    /// The buffers' bytes, one sequence per buffer.
    pub open spec fn parts(&self) -> Seq<Seq<u8>> {
        self.buffers@.map_values(|v: Vec<u8>| v@)
    }

    /// All the buffers' bytes, in order.
    pub open spec fn flat(&self) -> Seq<u8> {
        self.parts().flatten()
    }

    /// A buffer list holding `buffers`.
    pub fn new(buffers: Vec<Vec<u8>>) -> (r: UserBuffer)
        ensures
            r.buffers == buffers,
    {
        UserBuffer { buffers }
    }

    /// All the buffers' bytes in one vector.
    pub fn concat(&self) -> (r: Vec<u8>)
        ensures
            r@ == self.flat(),
    {
        broadcast use Seq::lemma_flatten_push;

        let ghost parts = self.parts();
        let mut acc: Vec<u8> = Vec::new();
        let mut j: usize = 0;
        while j < self.buffers.len()
            invariant
                j <= self.buffers@.len(),
                parts == self.parts(),
                acc@ == parts.subrange(0, j as int).flatten(),
            decreases self.buffers@.len() - j,
        {
            let ghost pre = acc@;
            let b = &self.buffers[j];
            let mut i: usize = 0;
            while i < b.len()
                invariant
                    i <= b@.len(),
                    acc@ == pre + b@.subrange(0, i as int),
                decreases b@.len() - i,
            {
                acc.push(b[i]);
                i = i + 1;
                assert(acc@ =~= pre + b@.subrange(0, i as int));
            }
            proof {
                assert(b@.subrange(0, i as int) =~= b@);
                assert(parts[j as int] == b@);
                assert(parts.subrange(0, j + 1) =~= parts.subrange(0, j as int).push(parts[j as int]));
                parts.subrange(0, j as int).lemma_flatten_push(parts[j as int]);
            }
            j = j + 1;
        }
        assert(parts.subrange(0, j as int) =~= parts);
        acc
    }

    /// Copies `src` over the buffers, in order, keeping each buffer's
    /// length.
    pub fn fill_from(&mut self, src: &Vec<u8>)
        requires
            src@.len() == old(self).flat().len(),
        ensures
            final(self).flat() == src@,
            final(self).buffers@.len() == old(self).buffers@.len(),
            forall|i: int|
                0 <= i < old(self).buffers@.len() ==> (#[trigger] final(self).parts()[i]).len()
                    == old(self).parts()[i].len(),
    {
        broadcast use Seq::lemma_flatten_push;

        let ghost parts0 = self.parts();
        let n = src.len();
        let mut pos: usize = 0;
        let mut j: usize = 0;
        while j < self.buffers.len()
            invariant
                j <= self.buffers@.len(),
                self.buffers@.len() == parts0.len(),
                parts0 == old(self).parts(),
                src@.len() == parts0.flatten().len(),
                n == src@.len(),
                pos == parts0.subrange(0, j as int).flatten().len(),
                self.parts().subrange(0, j as int).flatten() == src@.subrange(0, pos as int),
                forall|i: int| j <= i < parts0.len() ==> #[trigger] self.parts()[i] == parts0[i],
                forall|i: int| 0 <= i < parts0.len() ==> (#[trigger] self.parts()[i]).len() == parts0[i].len(),
            decreases self.buffers@.len() - j,
        {
            proof {
                lemma_prefix_flat_len(parts0, j + 1);
                assert(parts0.subrange(0, j + 1) =~= parts0.subrange(0, j as int).push(parts0[j as int]));
                parts0.subrange(0, j as int).lemma_flatten_push(parts0[j as int]);
                assert(self.parts()[j as int] == parts0[j as int]);
                assert(self.parts()[j as int] == self.buffers@[j as int]@);
            }
            let len = self.buffers[j].len();
            assert(pos + len <= src@.len());
            let mut chunk: Vec<u8> = Vec::new();
            let mut i: usize = 0;
            while i < len
                invariant
                    i <= len,
                    pos + len <= src@.len(),
                    n == src@.len(),
                    chunk@ == src@.subrange(pos as int, pos + i),
                decreases len - i,
            {
                chunk.push(src[pos + i]);
                i = i + 1;
                assert(chunk@ =~= src@.subrange(pos as int, pos + i));
            }
            let ghost before = self.parts();
            self.buffers.set(j, chunk);
            proof {
                let after = self.parts();
                assert(after.subrange(0, j as int) =~= before.subrange(0, j as int));
                assert(after.subrange(0, j + 1) =~= after.subrange(0, j as int).push(after[j as int]));
                after.subrange(0, j as int).lemma_flatten_push(after[j as int]);
                assert(src@.subrange(0, pos + len) =~= src@.subrange(0, pos as int) + src@.subrange(
                    pos as int,
                    pos + len,
                ));
                assert forall|i: int| j < i < parts0.len() implies #[trigger] after[i] == parts0[i] by {
                    assert(after[i] == before[i]);
                }
                assert forall|i: int| 0 <= i < parts0.len() implies (#[trigger] after[i]).len() == parts0[i].len() by {
                    if i != j {
                        assert(after[i] == before[i]);
                    }
                }
            }
            pos = pos + len;
            j = j + 1;
        }
        proof {
            assert(self.parts().subrange(0, j as int) =~= self.parts());
            assert(parts0.subrange(0, j as int) =~= parts0);
            assert(src@.subrange(0, pos as int) =~= src@);
        }
    }
}

/// One open session on an inode: fixed permissions and its own cursor.
pub struct OSInode {
    pub readable: bool,
    pub writable: bool,
    pub inner: OSInodeInner,
}

impl OSInode {
    /// A session on `inode` with its cursor at the start.
    pub fn new(readable: bool, writable: bool, inode: u32) -> (r: OSInode)
        ensures
            r.readable == readable,
            r.writable == writable,
            r.inner.inode == inode,
            r.inner.offset == 0,
    {
        OSInode { readable, writable, inner: OSInodeInner { offset: 0, inode } }
    }

    /// Byte position of the cursor.
    pub fn offset(&self) -> (r: usize)
        ensures
            r == self.inner.offset,
    {
        self.inner.offset
    }

    /// Inode number the session reads and writes.
    pub fn inode_id(&self) -> (r: u32)
        ensures
            r == self.inner.inode,
    {
        self.inner.inode
    }

    /// Whether the session may read.
    pub fn readable(&self) -> (r: bool)
        ensures
            r == self.readable,
    {
        self.readable
    }

    /// Whether the session may write.
    pub fn writable(&self) -> (r: bool)
        ensures
            r == self.writable,
    {
        self.writable
    }

    /// Reads from the cursor into `buf` and moves the cursor past what
    /// was read; 0 at the end of the file.
    pub fn read_into(&mut self, fs: &EasyFileSystem, buf: &mut Vec<u8>) -> (r: usize)
        requires
            fs.wf(),
            old(self).inner.inode < fs.inode_count(),
        ensures
            r == read_len(
                fs.content(old(self).inner.inode as int).len() as int,
                old(self).inner.offset as int,
                old(buf)@.len() as int,
            ),
            final(buf)@.len() == old(buf)@.len(),
            forall|k: int|
                0 <= k < r ==> #[trigger] final(buf)@[k] == fs.content(old(self).inner.inode as int)[old(
                    self,
                ).inner.offset + k],
            forall|k: int| r <= k < old(buf)@.len() ==> #[trigger] final(buf)@[k] == old(buf)@[k],
            final(self).inner.offset == old(self).inner.offset + r,
            final(self).inner.inode == old(self).inner.inode,
            final(self).readable == old(self).readable,
            final(self).writable == old(self).writable,
    {
        let n = fs.read_at(self.inner.inode, self.inner.offset, buf);
        proof {
            assert(fs.content(self.inner.inode as int).len() <= MAX_FILE_SIZE) by {
                fs.lemma_content_bound(self.inner.inode as int);
            }
        }
        self.inner.offset = self.inner.offset + n;
        n
    }

    /// Writes `buf` at the cursor and moves the cursor past it. Fails with
    /// `ResourceExhausted`, changing nothing, when the file cannot grow.
    pub fn write_from(&mut self, fs: &mut EasyFileSystem, buf: &[u8]) -> (r: Result<usize, FsError>)
        requires
            old(fs).wf(),
            old(fs).is_allocated(old(self).inner.inode as int),
            old(fs).kind(old(self).inner.inode as int) == DiskInodeType::File,
            old(self).inner.offset + buf@.len() <= MAX_FILE_SIZE,
        ensures
            final(fs).wf(),
            ({
                let o = old(fs);
                let size = o.content(old(self).inner.inode as int).len() as int;
                let end = old(self).inner.offset + buf@.len();
                let needed = if end > size {
                    total_blocks_of(end) - total_blocks_of(size)
                } else {
                    0
                };
                &&& (r is Ok <==> o.free_data() >= needed)
                &&& (r is Ok ==> final(fs).free_data() + needed == o.free_data())
            }),
            match r {
                Ok(n) => {
                    &&& n == buf@.len()
                    &&& final(fs).nlink(old(self).inner.inode as int) == old(fs).nlink(old(self).inner.inode as int)
                    &&& final(fs).kind(old(self).inner.inode as int) == old(fs).kind(old(self).inner.inode as int)
                    &&& final(fs).free_inodes() == old(fs).free_inodes()
                    &&& final(fs).content(old(self).inner.inode as int) == written(
                        old(fs).content(old(self).inner.inode as int),
                        old(self).inner.offset as int,
                        buf@,
                    )
                    &&& final(fs).same_except(old(fs), old(self).inner.inode as int)
                    &&& final(fs).records() == old(fs).records()
                    &&& final(self).inner.offset == old(self).inner.offset + n
                },
                Err(e) => {
                    &&& e == FsError::ResourceExhausted
                    &&& *final(fs) == *old(fs)
                    &&& final(self).inner.offset == old(self).inner.offset
                },
            },
            final(self).inner.inode == old(self).inner.inode,
            final(self).readable == old(self).readable,
            final(self).writable == old(self).writable,
    {
        let r = fs.write_at(self.inner.inode, self.inner.offset, buf);
        match r {
            Ok(n) => {
                self.inner.offset = self.inner.offset + n;
                Ok(n)
            },
            Err(e) => Err(e),
        }
    }

    /// Reads from the cursor into the buffers of `buf`, filling them in
    /// order, and moves the cursor past what was read; 0 at the end of the
    /// file. Each buffer keeps its length.
    pub fn read(&mut self, fs: &EasyFileSystem, buf: &mut UserBuffer) -> (r: usize)
        requires
            fs.wf(),
            old(self).inner.inode < fs.inode_count(),
        ensures
            r == read_len(
                fs.content(old(self).inner.inode as int).len() as int,
                old(self).inner.offset as int,
                old(buf).flat().len() as int,
            ),
            final(buf).flat().len() == old(buf).flat().len(),
            forall|k: int|
                0 <= k < r ==> #[trigger] final(buf).flat()[k] == fs.content(old(self).inner.inode as int)[old(
                    self,
                ).inner.offset + k],
            forall|k: int| r <= k < old(buf).flat().len() ==> #[trigger] final(buf).flat()[k] == old(buf).flat()[k],
            final(buf).buffers@.len() == old(buf).buffers@.len(),
            forall|i: int|
                0 <= i < old(buf).buffers@.len() ==> (#[trigger] final(buf).parts()[i]).len()
                    == old(buf).parts()[i].len(),
            final(self).inner.offset == old(self).inner.offset + r,
            final(self).inner.inode == old(self).inner.inode,
            final(self).readable == old(self).readable,
            final(self).writable == old(self).writable,
    {
        let mut tmp = buf.concat();
        let n = self.read_into(fs, &mut tmp);
        buf.fill_from(&tmp);
        n
    }

    /// Writes the buffers of `buf`, in order, at the cursor and moves the
    /// cursor past them. Fails with `ResourceExhausted`, changing nothing,
    /// when the file cannot grow.
    pub fn write(&mut self, fs: &mut EasyFileSystem, buf: &UserBuffer) -> (r: Result<usize, FsError>)
        requires
            old(fs).wf(),
            old(fs).is_allocated(old(self).inner.inode as int),
            old(fs).kind(old(self).inner.inode as int) == DiskInodeType::File,
            old(self).inner.offset + buf.flat().len() <= MAX_FILE_SIZE,
        ensures
            final(fs).wf(),
            ({
                let o = old(fs);
                let size = o.content(old(self).inner.inode as int).len() as int;
                let end = old(self).inner.offset + buf.flat().len();
                let needed = if end > size {
                    total_blocks_of(end) - total_blocks_of(size)
                } else {
                    0
                };
                &&& (r is Ok <==> o.free_data() >= needed)
                &&& (r is Ok ==> final(fs).free_data() + needed == o.free_data())
            }),
            match r {
                Ok(n) => {
                    &&& n == buf.flat().len()
                    &&& final(fs).nlink(old(self).inner.inode as int) == old(fs).nlink(old(self).inner.inode as int)
                    &&& final(fs).kind(old(self).inner.inode as int) == old(fs).kind(old(self).inner.inode as int)
                    &&& final(fs).free_inodes() == old(fs).free_inodes()
                    &&& final(fs).content(old(self).inner.inode as int) == written(
                        old(fs).content(old(self).inner.inode as int),
                        old(self).inner.offset as int,
                        buf.flat(),
                    )
                    &&& final(fs).same_except(old(fs), old(self).inner.inode as int)
                    &&& final(fs).records() == old(fs).records()
                    &&& final(self).inner.offset == old(self).inner.offset + n
                },
                Err(e) => {
                    &&& e == FsError::ResourceExhausted
                    &&& *final(fs) == *old(fs)
                    &&& final(self).inner.offset == old(self).inner.offset
                },
            },
            final(self).inner.inode == old(self).inner.inode,
            final(self).readable == old(self).readable,
            final(self).writable == old(self).writable,
    {
        let data = buf.concat();
        self.write_from(fs, data.as_slice())
    }

    /// Everything from the cursor to the end of the file; the cursor ends
    /// at the end.
    pub fn read_all(&mut self, fs: &EasyFileSystem) -> (r: Vec<u8>)
        requires
            fs.wf(),
            old(self).inner.inode < fs.inode_count(),
        ensures
            ({
                let c = fs.content(old(self).inner.inode as int);
                if old(self).inner.offset < c.len() {
                    &&& r@ == c.subrange(old(self).inner.offset as int, c.len() as int)
                    &&& final(self).inner.offset == c.len()
                } else {
                    &&& r@.len() == 0
                    &&& final(self).inner.offset == old(self).inner.offset
                }
            }),
            final(self).inner.inode == old(self).inner.inode,
            final(self).readable == old(self).readable,
            final(self).writable == old(self).writable,
    {
        let size = fs.size_of(self.inner.inode);
        if self.inner.offset >= size {
            return Vec::new();
        }
        let len = size - self.inner.offset;
        let mut buf: Vec<u8> = vec![0u8; len];
        let n = self.read_into(fs, &mut buf);
        let ghost c = fs.content(self.inner.inode as int);
        let ghost start = self.inner.offset - n;
        assert(buf@ =~= c.subrange(start, c.len() as int));
        buf
    }

    /// Type, link count and storage address of the open inode.
    pub fn stat(&self, fs: &EasyFileSystem) -> (r: Stat)
        requires
            fs.wf(),
            self.inner.inode < fs.inode_count(),
        ensures
            r.mode == (if fs.kind(self.inner.inode as int) == DiskInodeType::Directory {
                StatMode::Dir
            } else {
                StatMode::File
            }),
            r.nlink == fs.nlink(self.inner.inode as int),
            r.dev == inode_position(fs.area_start() as int, self.inner.inode as int, DISK_INODE_SZ as int).0,
            r.ino == inode_position(fs.area_start() as int, self.inner.inode as int, DISK_INODE_SZ as int).1,
    {
        proof {
            fs.lemma_area_start();
        }
        let (block_id, block_offset) = disk_inode_position(fs.inode_area_start(), self.inner.inode);
        let mode = match fs.kind_of(self.inner.inode) {
            DiskInodeType::Directory => StatMode::Dir,
            DiskInodeType::File => StatMode::File,
        };
        Stat { dev: block_id as u64, ino: block_offset as u64, mode, nlink: fs.nlink_of(self.inner.inode) }
    }
}

/// Opens `name` in the root directory. With `CREATE`, an existing file is
/// truncated and a missing one created; otherwise the file must exist,
/// and `TRUNC` empties it.
pub fn open_file(fs: &mut EasyFileSystem, name: &[u8], flags: OpenFlags) -> (r: Option<OSInode>)
    requires
        old(fs).wf(),
    ensures
        final(fs).wf(),
        ({
            let o = old(fs);
            let s = o.content(0).len() as int;
            let needed = total_blocks_of(s + 32) - total_blocks_of(s);
            let found = lookup(o.records(), name@);
            let create = flags.bits & CREATE == CREATE;
            let trunc = flags.bits & TRUNC == TRUNC;
            &&& match r {
                Some(f) => {
                    &&& f.inner.offset == 0
                    &&& (f.readable, f.writable) == permissions(flags.bits)
                    &&& f.inner.inode < final(fs).inode_count()
                    &&& final(fs).is_allocated(f.inner.inode as int)
                    &&& final(fs).kind(f.inner.inode as int) == DiskInodeType::File
                    &&& lookup(final(fs).records(), name@) is Some
                    &&& f.inner.inode == entry_inode(
                        final(fs).records()[lookup(final(fs).records(), name@)->Some_0],
                    )
                },
                None => *final(fs) == *o,
            }
            &&& match found {
                Some(k) => {
                    let id = entry_inode(o.records()[k]);
                    &&& r is Some
                    &&& r->Some_0.inner.inode == id
                    &&& if create || trunc {
                        &&& final(fs).records() == o.records()
                        &&& final(fs).content(id).len() == 0
                        &&& final(fs).nlink(id) == o.nlink(id)
                        &&& final(fs).same_except(o, id)
                        &&& final(fs).free_data() == o.free_data() + total_blocks_of(
                            o.content(id).len() as int,
                        )
                        &&& final(fs).free_inodes() == o.free_inodes()
                    } else {
                        *final(fs) == *o
                    }
                },
                None => if !create {
                    r is None
                } else {
                    &&& (r is Some <==> valid_name(name@) && o.free_inodes() > 0 && s + 32
                        <= MAX_FILE_SIZE && o.free_data() >= needed)
                    &&& r is Some ==> {
                        let id = r->Some_0.inner.inode;
                        &&& !o.is_allocated(id as int)
                        &&& final(fs).records() == o.records().push(encode_entry(name@, id))
                        &&& final(fs).content(id as int).len() == 0
                        &&& final(fs).nlink(id as int) == 1
                        &&& final(fs).free_data() + needed == o.free_data()
                        &&& final(fs).free_inodes() + 1 == o.free_inodes()
                        &&& final(fs).inode_count() == o.inode_count()
                        &&& forall|i: int|
                            0 < i < o.inode_count() && i != id ==> {
                                &&& final(fs).content(i) == o.content(i)
                                &&& final(fs).nlink(i) == o.nlink(i)
                                &&& final(fs).is_allocated(i) == o.is_allocated(i)
                            }
                    }
                },
            }
        }),
{
    let (readable, writable) = flags.read_write();
    let ghost o = *fs;
    proof {
        o.lemma_wf_facts();
        if lookup(o.records(), name@) is Some {
            o.lemma_found_name(name@);
        }
    }
    if flags.contains(CREATE) {
        match fs.create(name) {
            Ok(id) => {
                proof {
                    match lookup(o.records(), name@) {
                        Some(k) => {
                            lemma_lookup_found(o.records(), name@, 0, k);
                        },
                        None => {
                            crate::layout::lemma_entry_round_trip(name@, id);
                            lemma_lookup_push(o.records(), encode_entry(name@, id), name@, 0);
                        },
                    }
                }
                proof {
                    fs.lemma_wf_facts();
                }
                Some(OSInode::new(readable, writable, id))
            },
            Err(_) => None,
        }
    } else {
        match fs.find(name) {
            Some(id) => {
                let ghost k = lookup(o.records(), name@)->Some_0;
                if flags.contains(TRUNC) {
                    fs.clear(id);
                }
                proof {
                    fs.lemma_wf_facts();
                }
                Some(OSInode::new(readable, writable, id))
            },
            None => None,
        }
    }
}

/// Links `new_name` to the file `old_name` names: 0 on success, -1 when
/// the names are equal, `old_name` is missing, `new_name` cannot be
/// stored, or the directory cannot grow.
pub fn linkat(fs: &mut EasyFileSystem, old_name: &[u8], new_name: &[u8]) -> (r: isize)
    requires
        old(fs).wf(),
    ensures
        final(fs).wf(),
        r == 0 || r == -1,
        r == -1 ==> *final(fs) == *old(fs),
        ({
            let o = old(fs);
            let s = o.content(0).len() as int;
            let needed = total_blocks_of(s + 32) - total_blocks_of(s);
            let found = lookup(o.records(), old_name@);
            r == 0 <==> {
                &&& old_name@ != new_name@
                &&& found is Some
                &&& valid_name(new_name@)
                &&& o.nlink(entry_inode(o.records()[found->Some_0])) < u32::MAX
                &&& s + 32 <= MAX_FILE_SIZE
                &&& o.free_data() >= needed
            }
        }),
        r == 0 ==> {
            let o = old(fs);
            let id = entry_inode(o.records()[lookup(o.records(), old_name@)->Some_0]);
            let s = o.content(0).len() as int;
            let needed = total_blocks_of(s + 32) - total_blocks_of(s);
            &&& final(fs).records() == o.records().push(encode_entry(new_name@, id as u32))
            &&& final(fs).content(0).len() == s + 32
            &&& final(fs).nlink(id) == o.nlink(id) + 1
            &&& final(fs).content(id) == o.content(id)
            &&& final(fs).same_except(o, id)
            &&& final(fs).free_data() + needed == o.free_data()
        },
{
    match fs.link(old_name, new_name) {
        Ok(()) => {
            proof {
                old(fs).lemma_wf_facts();
                fs.lemma_wf_facts();
            }
            0
        },
        Err(_) => -1,
    }
}

/// Unlinks `name`: 0 on success, -1 when no entry has that name. On the
/// file's last link its blocks are freed and the root directory drops one
/// record's worth of size, its last record; with more links the count
/// drops and the first record of that name is blanked.
pub fn unlinkat(fs: &mut EasyFileSystem, name: &[u8]) -> (r: isize)
    requires
        old(fs).wf(),
    ensures
        final(fs).wf(),
        r == 0 <==> lookup(old(fs).records(), name@) is Some,
        r == -1 <==> lookup(old(fs).records(), name@) is None,
        r == -1 ==> *final(fs) == *old(fs),
        r == 0 ==> {
            let o = old(fs);
            let k = lookup(o.records(), name@)->Some_0;
            let id = entry_inode(o.records()[k]);
            let s = o.content(0).len() as int;
            &&& final(fs).same_except(o, id)
            &&& final(fs).free_inodes() == o.free_inodes()
            &&& if o.nlink(id) <= 1 {
                &&& final(fs).records() == o.records().drop_last()
                &&& final(fs).content(0).len() == s - 32
                &&& final(fs).nlink(id) == o.nlink(id)
                &&& final(fs).content(id).len() == 0
                &&& final(fs).free_data() == o.free_data() + total_blocks_of(
                    o.content(id).len() as int,
                ) + total_blocks_of(s) - total_blocks_of(s - 32)
            } else {
                &&& final(fs).records() == o.records().update(k, blank_entry())
                &&& final(fs).content(0).len() == s
                &&& final(fs).nlink(id) == o.nlink(id) - 1
                &&& final(fs).content(id) == o.content(id)
                &&& final(fs).free_data() == o.free_data()
            }
        },
{
    match fs.unlink_dropping_last(name) {
        Ok(()) => 0,
        Err(_) => -1,
    }
}

} // verus!
