//! The in-memory repository.
//!
//! Each table is a vector of entries in insertion order; a later entry
//! for a key shadows an earlier one, so appending implements replacement
//! and a backward search implements lookup. The abstract contents that
//! the `Repo` contract speaks of are the denotations of those vectors.

use vstd::prelude::*;

use crate::Repo;
use crate::bytes::{bytes_eq, clone_bytes};
use crate::errors::{CorruptDatabaseError, LoadError, NotFoundError};
use crate::table::{
    assoc_map, lemma_assoc_dom, lemma_assoc_last_match, lemma_assoc_push, lemma_set_of_contains,
    lemma_set_of_push, set_of,
};

verus! {

/// A repository backed by plain in-memory tables: no persistence and no
/// concurrency control.
pub struct MemoryRepo {
    block_size: usize,
    blocks: Vec<(Vec<u8>, Vec<u8>)>,
    matches: Vec<u32>,
    files: Vec<(String, Vec<Vec<u8>>)>,
}

impl MemoryRepo {
    /// The entries of the block table, as the sequences they denote.
    pub closed spec fn block_entries(&self) -> Seq<(Seq<u8>, Seq<u8>)> {
        self.blocks@.map_values(|p: (Vec<u8>, Vec<u8>)| (p.0@, p.1@))
    }

    /// The entries of the file table, as the sequences they denote.
    pub closed spec fn file_entries(&self) -> Seq<(Seq<char>, Seq<Seq<u8>>)> {
        self.files@.map_values(|p: (String, Vec<Vec<u8>>)| (p.0@, p.1.deep_view()))
    }

    /// Creates an empty repository for the given block size.
    pub fn new(block_size: usize) -> (r: MemoryRepo)
        requires
            block_size >= 1,
        ensures
            r.blocks() == Map::<Seq<u8>, Seq<u8>>::empty(),
            r.fps() == Set::<u32>::empty(),
            r.files() == Map::<Seq<char>, Seq<Seq<u8>>>::empty(),
            r.spec_block_size() == block_size,
    {
        let r = MemoryRepo {
            block_size,
            blocks: Vec::new(),
            matches: Vec::new(),
            files: Vec::new(),
        };
        proof {
            assert(r.block_entries() =~= Seq::<(Seq<u8>, Seq<u8>)>::empty());
            assert(r.file_entries() =~= Seq::<(Seq<char>, Seq<Seq<u8>>)>::empty());
        }
        r
    }

    /// Empties the block table while names and fingerprints stay: the
    /// corruption that a later `load` reports as `CorruptDatabase`.
    pub fn clear_blocks(&mut self)
        ensures
            final(self).blocks() == Map::<Seq<u8>, Seq<u8>>::empty(),
            final(self).fps() == old(self).fps(),
            final(self).files() == old(self).files(),
            final(self).spec_block_size() == old(self).spec_block_size(),
    {
        self.blocks.clear();
        proof {
            assert(self.block_entries() =~= Seq::<(Seq<u8>, Seq<u8>)>::empty());
        }
    }

    /// The index of the entry a block key denotes, if any: the last entry
    /// that carries the key.
    fn find_block(&self, block_id: &Vec<u8>) -> (r: Option<usize>)
        ensures
            match r {
                Some(i) => i < self.blocks@.len() && self.blocks@[i as int].0@ == block_id@
                    && (forall|j: int|
                        i < j < self.blocks@.len() ==> self.blocks@[j].0@ != block_id@),
                None => forall|j: int|
                    0 <= j < self.blocks@.len() ==> self.blocks@[j].0@ != block_id@,
            },
    {
        let mut i = self.blocks.len();
        while i > 0
            invariant
                i <= self.blocks@.len(),
                forall|j: int| i <= j < self.blocks@.len() ==> self.blocks@[j].0@ != block_id@,
            decreases i,
        {
            i = i - 1;
            if bytes_eq(&self.blocks[i].0, block_id) {
                return Some(i);
            }
        }
        None
    }

    /// The index of the entry a name denotes, if any: the last entry that
    /// carries the name.
    fn find_file(&self, name: &str) -> (r: Option<usize>)
        ensures
            match r {
                Some(i) => i < self.files@.len() && self.files@[i as int].0@ == name@
                    && (forall|j: int| i < j < self.files@.len() ==> self.files@[j].0@ != name@),
                None => forall|j: int| 0 <= j < self.files@.len() ==> self.files@[j].0@ != name@,
            },
    {
        let owned = name.to_owned();
        let mut i = self.files.len();
        while i > 0
            invariant
                i <= self.files@.len(),
                owned@ == name@,
                forall|j: int| i <= j < self.files@.len() ==> self.files@[j].0@ != name@,
            decreases i,
        {
            i = i - 1;
            if self.files[i].0 == owned {
                return Some(i);
            }
        }
        None
    }
}

impl Repo for MemoryRepo {
    closed spec fn blocks(&self) -> Map<Seq<u8>, Seq<u8>> {
        assoc_map(self.block_entries())
    }

    closed spec fn fps(&self) -> Set<u32> {
        set_of(self.matches@)
    }

    closed spec fn files(&self) -> Map<Seq<char>, Seq<Seq<u8>>> {
        assoc_map(self.file_entries())
    }

    closed spec fn spec_block_size(&self) -> usize {
        self.block_size
    }

    fn block_size(&self) -> (r: usize) {
        self.block_size
    }

    fn write_hash(&mut self, hash: u32) {
        self.matches.push(hash);
        proof {
            lemma_set_of_push(old(self).matches@, hash);
        }
    }

    fn contains_hash(&self, hash: u32) -> (r: bool) {
        proof {
            lemma_set_of_contains(self.matches@, hash);
        }
        let mut i: usize = 0;
        while i < self.matches.len()
            invariant
                i <= self.matches@.len(),
                forall|j: int| 0 <= j < i ==> self.matches@[j] != hash,
            decreases self.matches@.len() - i,
        {
            if self.matches[i] == hash {
                proof {
                    lemma_set_of_contains(self.matches@, hash);
                    assert(self.matches@.contains(hash)) by {
                        assert(self.matches@[i as int] == hash);
                    }
                }
                return true;
            }
            i = i + 1;
        }
        proof {
            assert(!self.matches@.contains(hash));
        }
        false
    }

    fn write_block(&mut self, block_id: &Vec<u8>, block: Vec<u8>) {
        let ghost pre = self.block_entries();
        let key = clone_bytes(block_id);
        self.blocks.push((key, block));
        proof {
            assert(self.block_entries() =~= pre.push((block_id@, block@)));
            lemma_assoc_push(pre, block_id@, block@);
        }
    }

    fn contains_block(&self, block_id: &Vec<u8>) -> (r: bool) {
        proof {
            lemma_assoc_dom(self.block_entries(), block_id@);
        }
        match self.find_block(block_id) {
            Some(i) => {
                proof {
                    assert(self.block_entries()[i as int].0 == block_id@);
                }
                true
            },
            None => {
                proof {
                    assert(forall|j: int|
                        0 <= j < self.block_entries().len()
                            ==> #[trigger] self.block_entries()[j].0 != block_id@);
                }
                false
            },
        }
    }

    fn read_block<'a>(&'a self, block_id: &Vec<u8>) -> (r: Result<&'a Vec<u8>, LoadError>) {
        proof {
            lemma_assoc_dom(self.block_entries(), block_id@);
        }
        match self.find_block(block_id) {
            Some(i) => {
                proof {
                    assert(self.block_entries()[i as int].0 == block_id@);
                    assert(forall|j: int|
                        i < j < self.block_entries().len()
                            ==> #[trigger] self.block_entries()[j].0
                                != self.block_entries()[i as int].0);
                    lemma_assoc_last_match(self.block_entries(), i as int);
                }
                Ok(&self.blocks[i].1)
            },
            None => {
                proof {
                    assert(forall|j: int|
                        0 <= j < self.block_entries().len()
                            ==> #[trigger] self.block_entries()[j].0 != block_id@);
                }
                Err(LoadError::CorruptDatabase(CorruptDatabaseError {}))
            },
        }
    }

    fn write_file(&mut self, name: &str, block_ids: Vec<Vec<u8>>) {
        let ghost pre = self.file_entries();
        let owned = name.to_owned();
        self.files.push((owned, block_ids));
        proof {
            assert(self.file_entries() =~= pre.push((name@, block_ids.deep_view())));
            lemma_assoc_push(pre, name@, block_ids.deep_view());
        }
    }

    fn read_file<'a>(&'a self, name: &str) -> (r: Result<&'a Vec<Vec<u8>>, LoadError>) {
        proof {
            lemma_assoc_dom(self.file_entries(), name@);
        }
        match self.find_file(name) {
            Some(i) => {
                proof {
                    assert(self.file_entries()[i as int].0 == name@);
                    assert(forall|j: int|
                        i < j < self.file_entries().len()
                            ==> #[trigger] self.file_entries()[j].0
                                != self.file_entries()[i as int].0);
                    lemma_assoc_last_match(self.file_entries(), i as int);
                }
                Ok(&self.files[i].1)
            },
            None => {
                proof {
                    assert(forall|j: int|
                        0 <= j < self.file_entries().len()
                            ==> #[trigger] self.file_entries()[j].0 != name@);
                }
                Err(LoadError::NotFound(NotFoundError {}))
            },
        }
    }
}

} // verus!
