//! The store façade: an in-memory repository bound to the two user-visible
//! operations, `save` and `load`.

use vstd::prelude::*;

use crate::MemoryRepo;
use crate::Repo;
use crate::Stats;
use crate::deduplicator::scan;
use crate::errors::{LoadError, SaveError};
use crate::loaded;

verus! {

/// A deduplicating store over an in-memory repository.
pub struct Store {
    repo: MemoryRepo,
}

impl Store {
    /// The block table: digest key to block bytes.
    pub closed spec fn blocks(&self) -> Map<Seq<u8>, Seq<u8>> {
        self.repo.blocks()
    }

    /// The fingerprint set of rolling checksums.
    pub closed spec fn fps(&self) -> Set<u32> {
        self.repo.fps()
    }

    /// The file table: name to ordered keylist.
    pub closed spec fn files(&self) -> Map<Seq<char>, Seq<Seq<u8>>> {
        self.repo.files()
    }

    /// The block size this store was created with.
    pub closed spec fn spec_block_size(&self) -> usize {
        self.repo.spec_block_size()
    }

    /// The block size is positive and a double block fits in a machine
    /// word; `new` establishes this and every operation keeps it.
    pub closed spec fn wf(&self) -> bool {
        self.repo.spec_block_size() >= 1 && 2 * self.repo.spec_block_size() <= usize::MAX
    }

    /// Creates an empty store that will split inputs into blocks of at
    /// most `block_size` bytes.
    pub fn new(block_size: usize) -> (r: Store)
        requires
            block_size >= 1,
            2 * block_size <= usize::MAX,
        ensures
            r.wf(),
            r.blocks() == Map::<Seq<u8>, Seq<u8>>::empty(),
            r.fps() == Set::<u32>::empty(),
            r.files() == Map::<Seq<char>, Seq<Seq<u8>>>::empty(),
            r.spec_block_size() == block_size,
    {
        Store { repo: MemoryRepo::new(block_size) }
    }

    /// Saves `data` under `key`; a prior entry for `key` is replaced.
    pub fn save(&mut self, key: &str, data: &[u8]) -> (r: Result<Stats, SaveError>)
        requires
            old(self).wf(),
            data@.len() < u32::MAX,
        ensures
            final(self).wf(),
            ({
                let s = scan(
                    old(self).spec_block_size() as nat,
                    old(self).blocks(),
                    old(self).fps(),
                    data@,
                );
                match r {
                    Ok(stats) => final(self).blocks() == s.blocks && final(self).fps() == s.fps
                        && final(self).files() == old(self).files().insert(key@, s.keys)
                        && final(self).spec_block_size() == old(self).spec_block_size()
                        && stats.new_blocks == s.new_blocks && stats.new_bytes == s.new_bytes
                        && stats.dup_blocks == s.dup_blocks && stats.dup_bytes == s.dup_bytes
                        && stats.roll_false == s.roll_false,
                    Err(_) => false,
                }
            }),
    {
        crate::save(&mut self.repo, key, data)
    }

    /// Loads the bytes saved under `key`.
    pub fn load(&self, key: &str) -> (r: Result<Vec<u8>, LoadError>)
        ensures
            match r {
                Ok(out) => self.files().dom().contains(key@) && (forall|i: int|
                    0 <= i < self.files()[key@].len()
                        ==> self.blocks().dom().contains(#[trigger] self.files()[key@][i]))
                    && out@ == loaded(self.blocks(), self.files()[key@]),
                Err(e) => match e {
                    LoadError::Io => false,
                    LoadError::NotFound(_) => !self.files().dom().contains(key@),
                    LoadError::CorruptDatabase(_) => self.files().dom().contains(key@) && (
                    exists|i: int|
                        0 <= i < self.files()[key@].len() && !self.blocks().dom().contains(
                            #[trigger] self.files()[key@][i],
                        )),
                },
            },
    {
        crate::load(&self.repo, key)
    }
}

} // verus!
