//! A content-addressed, deduplicating block store.
//!
//! A byte stream saved under a name is split into blocks of at most `B`
//! bytes, each block is stored once under its SHA-256 digest, and the
//! name maps to the ordered list of block keys whose blocks, concatenated,
//! reproduce the stream exactly. A rolling Adler-32 checksum lets the
//! scanner recognise stored block-sized runs at arbitrary byte offsets of
//! a new stream, so repeated content is recorded as references to the
//! blocks that already exist.

use vstd::prelude::*;

pub mod errors;
mod bytes;
mod digest;
mod rolling;
pub mod deduplicator;
pub mod laws;
mod memory_repo;
pub mod store;
mod table;

pub use errors::{LoadError, SaveError};
pub use memory_repo::MemoryRepo;
pub use store::Store;

verus! {

use crate::digest::sha256_of;

/// Counters accumulated over one save: how many blocks and bytes were
/// newly stored, how many were recognised as duplicates, and how often the
/// rolling-checksum filter fired without the digest confirming a match.
pub struct Stats {
    pub dup_blocks: u32,
    pub dup_bytes: usize,
    pub new_blocks: u32,
    pub new_bytes: usize,
    pub roll_false: u32,
}

/// A block repository: a block table keyed by digest, a fingerprint set of
/// rolling checksums of full-size stored blocks, and a table of named
/// keylists. The three spec functions are the abstract contents that every
/// operation's contract is written over; `spec_block_size` is the block
/// size the repository was created with, immutable for its lifetime.
pub trait Repo: Sized {
    /// The block table: digest key to block bytes.
    spec fn blocks(&self) -> Map<Seq<u8>, Seq<u8>>;

    /// The fingerprint set of rolling checksums.
    spec fn fps(&self) -> Set<u32>;

    /// The file table: name to ordered keylist.
    spec fn files(&self) -> Map<Seq<char>, Seq<Seq<u8>>>;

    /// The block size this repository was created with.
    spec fn spec_block_size(&self) -> usize;

    fn block_size(&self) -> (r: usize)
        ensures
            r == self.spec_block_size(),
    ;

    fn write_hash(&mut self, hash: u32)
        ensures
            final(self).fps() == old(self).fps().insert(hash),
            final(self).blocks() == old(self).blocks(),
            final(self).files() == old(self).files(),
            final(self).spec_block_size() == old(self).spec_block_size(),
    ;

    fn contains_hash(&self, hash: u32) -> (r: bool)
        ensures
            r == self.fps().contains(hash),
    ;

    fn write_block(&mut self, block_id: &Vec<u8>, block: Vec<u8>)
        requires
            sha256_of(block@) == block_id@,
        ensures
            final(self).blocks() == old(self).blocks().insert(block_id@, block@),
            final(self).fps() == old(self).fps(),
            final(self).files() == old(self).files(),
            final(self).spec_block_size() == old(self).spec_block_size(),
    ;

    fn contains_block(&self, block_id: &Vec<u8>) -> (r: bool)
        ensures
            r == self.blocks().dom().contains(block_id@),
    ;

    fn read_block<'a>(&'a self, block_id: &Vec<u8>) -> (r: Result<&'a Vec<u8>, LoadError>)
        ensures
            match r {
                Ok(block) => self.blocks().dom().contains(block_id@)
                    && block@ == self.blocks()[block_id@],
                Err(e) => !self.blocks().dom().contains(block_id@)
                    && (e is CorruptDatabase),
            },
    ;

    fn write_file(&mut self, name: &str, block_ids: Vec<Vec<u8>>)
        ensures
            final(self).files() == old(self).files().insert(name@, block_ids.deep_view()),
            final(self).blocks() == old(self).blocks(),
            final(self).fps() == old(self).fps(),
            final(self).spec_block_size() == old(self).spec_block_size(),
    ;

    fn read_file<'a>(&'a self, name: &str) -> (r: Result<&'a Vec<Vec<u8>>, LoadError>)
        ensures
            match r {
                Ok(block_ids) => self.files().dom().contains(name@)
                    && block_ids.deep_view() == self.files()[name@],
                Err(e) => !self.files().dom().contains(name@)
                    && (e is NotFound),
            },
    ;
}

/// The bytes a keylist denotes: the blocks it names, concatenated in
/// order.
pub open spec fn loaded(blocks: Map<Seq<u8>, Seq<u8>>, keys: Seq<Seq<u8>>) -> Seq<u8>
    decreases keys.len(),
{
    if keys.len() == 0 {
        Seq::empty()
    } else {
        loaded(blocks, keys.drop_last()) + blocks[keys.last()]
    }
}

/// Saves `data` under `name`: scans it into blocks against the repository
/// and records the resulting keylist as the name's file entry.
pub fn save<R: Repo>(repo: &mut R, name: &str, data: &[u8]) -> (r: Result<Stats, SaveError>)
    requires
        old(repo).spec_block_size() >= 1,
        2 * old(repo).spec_block_size() <= usize::MAX,
        data@.len() < u32::MAX,
    ensures
        ({
            let s = deduplicator::scan(
                old(repo).spec_block_size() as nat,
                old(repo).blocks(),
                old(repo).fps(),
                data@,
            );
            match r {
                Ok(stats) => final(repo).blocks() == s.blocks && final(repo).fps() == s.fps
                    && final(repo).files() == old(repo).files().insert(name@, s.keys)
                    && final(repo).spec_block_size() == old(repo).spec_block_size()
                    && stats.new_blocks == s.new_blocks && stats.new_bytes == s.new_bytes
                    && stats.dup_blocks == s.dup_blocks && stats.dup_bytes == s.dup_bytes
                    && stats.roll_false == s.roll_false,
                Err(_) => false,
            }
        }),
{
    deduplicator::Deduplicator::store(repo, name, data)
}

/// Loads the bytes saved under `name`: the blocks of its keylist,
/// concatenated in order. Fails with `NotFound` when the name has no file
/// entry and with `CorruptDatabase` when the keylist references a block
/// that the block table does not hold.
pub fn load<R: Repo>(repo: &R, name: &str) -> (r: Result<Vec<u8>, LoadError>)
    ensures
        match r {
            Ok(out) => repo.files().dom().contains(name@) && (forall|i: int|
                0 <= i < repo.files()[name@].len()
                    ==> repo.blocks().dom().contains(#[trigger] repo.files()[name@][i]))
                && out@ == loaded(repo.blocks(), repo.files()[name@]),
            Err(e) => match e {
                LoadError::Io => false,
                LoadError::NotFound(_) => !repo.files().dom().contains(name@),
                LoadError::CorruptDatabase(_) => repo.files().dom().contains(name@)
                    && (exists|i: int|
                    0 <= i < repo.files()[name@].len()
                        && !repo.blocks().dom().contains(#[trigger] repo.files()[name@][i])),
            },
        },
{
    let block_ids = match repo.read_file(name) {
        Ok(ids) => ids,
        Err(e) => {
            return Err(e);
        },
    };
    let ghost keys = block_ids.deep_view();
    let mut out: Vec<u8> = Vec::new();
    let mut i: usize = 0;
    while i < block_ids.len()
        invariant
            i <= block_ids@.len(),
            keys == block_ids.deep_view(),
            keys.len() == block_ids@.len(),
            keys == repo.files()[name@],
            repo.files().dom().contains(name@),
            forall|j: int| 0 <= j < i ==> repo.blocks().dom().contains(#[trigger] keys[j]),
            out@ == loaded(repo.blocks(), keys.take(i as int)),
        decreases block_ids@.len() - i,
    {
        proof {
            assert(keys[i as int] == block_ids@[i as int].deep_view());
            assert(block_ids@[i as int].deep_view() =~= block_ids@[i as int]@);
        }
        let block = match repo.read_block(&block_ids[i]) {
            Ok(b) => b,
            Err(e) => {
                return Err(e);
            },
        };
        out.extend_from_slice(block.as_slice());
        proof {
            assert(keys.take(i + 1 as int).drop_last() =~= keys.take(i as int));
            assert(keys.take(i + 1 as int).last() == keys[i as int]);
        }
        i = i + 1;
    }
    proof {
        assert(keys.take(keys.len() as int) =~= keys);
    }
    Ok(out)
}

} // verus!
