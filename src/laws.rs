//! Laws that tie the volume's operations together, stated over the same
//! spec functions their contracts use.
use vstd::prelude::*;

use crate::efs::{
    dir_records, lemma_lookup_found, lemma_lookup_push, lemma_lookup_push_found, live_names, lookup,
    read_len, written, EasyFileSystem,
};
use crate::layout::{
    encode_entry, entry_inode, entry_name, lemma_entry_round_trip, total_blocks_of, valid_name,
};

verus! {

/// Bytes written at offset 0 of an empty file are the file's whole
/// content afterwards, and a read of the same length at offset 0 returns
/// all of them.
pub proof fn lemma_round_trip(data: Seq<u8>)
    ensures
        written(Seq::empty(), 0, data) == data,
        read_len(data.len() as int, 0, data.len() as int) == data.len(),
{
    assert(written(Seq::empty(), 0, data) =~= data);
}

/// A write never shrinks a file, and one that reaches past the end leaves
/// the file exactly as long as the write's end.
pub proof fn lemma_growth(c: Seq<u8>, off: int, buf: Seq<u8>)
    requires
        0 <= off,
    ensures
        written(c, off, buf).len() >= c.len(),
        off + buf.len() > c.len() ==> written(c, off, buf).len() == off + buf.len(),
        off + buf.len() <= c.len() ==> written(c, off, buf).len() == c.len(),
{
}

/// Writing `len` bytes to an empty file and then clearing it gives back
/// every data block the write took, so a second write of the same length
/// finds as many free blocks as the first.
pub proof fn lemma_clear_reclaims(
    s0: EasyFileSystem,
    s1: EasyFileSystem,
    s2: EasyFileSystem,
    ino: int,
    len: int,
)
    requires
        s0.content(ino).len() == 0,
        0 <= len,
        s1.content(ino).len() == len,
        s1.free_data() + (total_blocks_of(len) - total_blocks_of(0)) == s0.free_data(),
        s2.free_data() == s1.free_data() + total_blocks_of(s1.content(ino).len() as int),
    ensures
        s2.free_data() == s0.free_data(),
        s2.free_data() >= total_blocks_of(len),
{
}

/// When no record is blank, `ls` lists one name per record: the
/// directory's size divided by the record size.
pub proof fn lemma_ls_counts_records(c: Seq<u8>)
    requires
        forall|k: int| 0 <= k < dir_records(c).len() ==> entry_name(#[trigger] dir_records(c)[k]).len() > 0,
    ensures
        live_names(dir_records(c)).len() == c.len() / 32,
{
    lemma_live_names_all(dir_records(c));
}

proof fn lemma_live_names_all(recs: Seq<Seq<u8>>)
    requires
        forall|k: int| 0 <= k < recs.len() ==> entry_name(#[trigger] recs[k]).len() > 0,
    ensures
        live_names(recs).len() == recs.len(),
    decreases recs.len(),
{
    if recs.len() > 0 {
        let d = recs.drop_last();
        assert forall|k: int| 0 <= k < d.len() implies entry_name(#[trigger] d[k]).len() > 0 by {
            assert(d[k] == recs[k]);
        }
        lemma_live_names_all(d);
        assert(entry_name(recs[recs.len() - 1]).len() > 0);
    }
}

/// Creating a name not yet present adds exactly one entry to what `ls`
/// lists: the new name, at the end.
pub proof fn lemma_create_adds_one(recs: Seq<Seq<u8>>, name: Seq<u8>, id: u32)
    requires
        valid_name(name),
    ensures
        live_names(recs.push(encode_entry(name, id))) == live_names(recs).push(name),
{
    lemma_entry_round_trip(name, id);
    assert(recs.push(encode_entry(name, id)).drop_last() =~= recs);
}

/// After a link from `old_name` to a name not yet present, both names
/// resolve to the same inode number.
pub proof fn lemma_link_resolves(recs: Seq<Seq<u8>>, old_name: Seq<u8>, new_name: Seq<u8>)
    requires
        lookup(recs, old_name) is Some,
        lookup(recs, new_name) is None,
        valid_name(new_name),
    ensures
        ({
            let id = entry_inode(recs[lookup(recs, old_name)->Some_0]);
            let after = recs.push(encode_entry(new_name, id as u32));
            &&& lookup(after, new_name) is Some
            &&& lookup(after, old_name) == lookup(recs, old_name)
            &&& entry_inode(after[lookup(after, new_name)->Some_0]) == id
            &&& entry_inode(after[lookup(after, old_name)->Some_0]) == id
        }),
{
    let k = lookup(recs, old_name)->Some_0;
    lemma_lookup_found(recs, old_name, 0, k);
    let id = entry_inode(recs[k]);
    assert(0 <= id < 4294967296);
    let rec = encode_entry(new_name, id as u32);
    lemma_entry_round_trip(new_name, id as u32);
    lemma_lookup_push(recs, rec, new_name, 0);
    lemma_lookup_push_found(recs, rec, old_name, 0);
    let after = recs.push(rec);
    assert(after[k] == recs[k]);
}

} // verus!
