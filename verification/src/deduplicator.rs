//! The single-pass deduplicating scanner.
//!
//! `Deduplicator::store` reads an input byte for byte, keeps a sliding
//! buffer of at most `2·B` bytes, and commits blocks of at most `B` bytes:
//! whenever the rolling checksum of the last `B` bytes is in the
//! repository's fingerprint set and the digest confirms that the window is
//! a stored block, the unmatched prefix and the matched window are
//! committed and the scan restarts behind them; when the buffer fills to
//! `2·B` without a match, the first `B` bytes are committed as a block.
//!
//! The whole scan is mirrored by the spec functions `scan_fill`,
//! `scan_slide` and `scan_extend`: the executable scanner's contract pins
//! its keylist, its stats and the repository updates to exactly the value
//! of `scan_fill` on the input, so every property of a save is a property
//! of that one spec function.

use vstd::prelude::*;

use crate::Repo;
use crate::Stats;
use crate::bytes::clone_bytes;
use crate::digest::{sha256, sha256_of};
use crate::errors::SaveError;
use crate::rolling::{adler32_of, adler_hash_of, adler_roll};

verus! {

/// The scanner's abstract state: the repository tables it updates, the
/// keylist and the committed bytes it accumulates, and its counters.
pub ghost struct ScanState {
    /// The block table of the repository.
    pub blocks: Map<Seq<u8>, Seq<u8>>,
    /// The fingerprint set of the repository.
    pub fps: Set<u32>,
    /// The keylist accumulated so far, in commit order.
    pub keys: Seq<Seq<u8>>,
    /// The concatenation of all committed block bytes, in commit order.
    pub out: Seq<u8>,
    /// How many blocks were newly stored.
    pub new_blocks: nat,
    /// How many bytes the newly stored blocks hold.
    pub new_bytes: nat,
    /// How many committed blocks were already stored.
    pub dup_blocks: nat,
    /// How many bytes the duplicate blocks hold.
    pub dup_bytes: nat,
    /// How often the rolling filter fired without the digest confirming.
    pub roll_false: nat,
}

/// One block commit: an empty block is dropped; a stored block is counted
/// as a duplicate; a new block is stored, and fingerprinted if it is
/// full-size; the key is appended to the keylist either way.
pub open spec fn commit_m(bs: nat, s: ScanState, block: Seq<u8>) -> ScanState {
    if block.len() == 0 {
        s
    } else {
        let key = sha256_of(block);
        if s.blocks.dom().contains(key) {
            ScanState {
                keys: s.keys.push(key),
                out: s.out + block,
                dup_blocks: s.dup_blocks + 1,
                dup_bytes: s.dup_bytes + block.len(),
                ..s
            }
        } else {
            ScanState {
                blocks: s.blocks.insert(key, block),
                fps: if block.len() == bs {
                    s.fps.insert(adler32_of(block))
                } else {
                    s.fps
                },
                keys: s.keys.push(key),
                out: s.out + block,
                new_blocks: s.new_blocks + 1,
                new_bytes: s.new_bytes + block.len(),
                ..s
            }
        }
    }
}

/// The fill phase: grow the buffer to `bs` bytes, committing whatever is
/// buffered if the input ends first.
pub open spec fn scan_fill(bs: nat, s: ScanState, buf: Seq<u8>, rest: Seq<u8>) -> ScanState
    decreases rest.len(), buf.len(), 2int,
{
    if bs < 1 {
        s
    } else if buf.len() < bs {
        if rest.len() == 0 {
            commit_m(bs, s, buf)
        } else {
            scan_fill(bs, s, buf.push(rest.first()), rest.drop_first())
        }
    } else {
        scan_slide(bs, s, buf, rest)
    }
}

/// The slide phase at one alignment: if the rolling checksum of the last
/// `bs` buffered bytes is a known fingerprint and the digest confirms a
/// stored block, the prefix and the window are committed and the scan
/// restarts with an empty buffer; otherwise the misfire is counted and the
/// buffer is extended.
pub open spec fn scan_slide(bs: nat, s: ScanState, buf: Seq<u8>, rest: Seq<u8>) -> ScanState
    decreases rest.len(), buf.len(), 1int,
{
    if bs < 1 || buf.len() < bs {
        s
    } else {
        let window = buf.subrange(buf.len() - bs, buf.len() as int);
        if s.fps.contains(adler32_of(window)) {
            if s.blocks.dom().contains(sha256_of(window)) {
                let s1 = commit_m(bs, s, buf.subrange(0, buf.len() - bs));
                let s2 = commit_m(bs, s1, window);
                scan_fill(bs, s2, Seq::empty(), rest)
            } else {
                let s1 = ScanState { roll_false: s.roll_false + 1, ..s };
                scan_extend(bs, s1, buf, rest)
            }
        } else {
            scan_extend(bs, s, buf, rest)
        }
    }
}

/// The step after an unmatched alignment: append the next input byte and
/// slide on, committing a full block first when the buffer would exceed
/// `2·bs` bytes; at end of input, commit the first `bs` bytes and then the
/// tail.
pub open spec fn scan_extend(bs: nat, s: ScanState, buf: Seq<u8>, rest: Seq<u8>) -> ScanState
    decreases rest.len(), buf.len(), 0int,
{
    if bs < 1 {
        s
    } else if rest.len() == 0 {
        let s1 = commit_m(bs, s, buf.take(bs as int));
        commit_m(bs, s1, buf.skip(bs as int))
    } else {
        let grown = buf.push(rest.first());
        if grown.len() < 2 * bs {
            scan_slide(bs, s, grown, rest.drop_first())
        } else {
            let s1 = commit_m(bs, s, grown.take(bs as int));
            scan_slide(bs, s1, grown.skip(bs as int), rest.drop_first())
        }
    }
}

/// The scanner's starting state over given repository tables.
pub open spec fn init_state(blocks: Map<Seq<u8>, Seq<u8>>, fps: Set<u32>) -> ScanState {
    ScanState {
        blocks: blocks,
        fps: fps,
        keys: Seq::empty(),
        out: Seq::empty(),
        new_blocks: 0,
        new_bytes: 0,
        dup_blocks: 0,
        dup_bytes: 0,
        roll_false: 0,
    }
}

/// What one save does: the scan of `data` against the given tables.
pub open spec fn scan(bs: nat, blocks: Map<Seq<u8>, Seq<u8>>, fps: Set<u32>, data: Seq<u8>) -> ScanState {
    scan_fill(bs, init_state(blocks, fps), Seq::empty(), data)
}

/// The scanner: the keylist and counters it accumulates while it drives a
/// repository over one input.
pub struct Deduplicator {
    /// The keylist accumulated so far, in commit order.
    pub block_keys: Vec<Vec<u8>>,
    /// The counters accumulated so far.
    pub stats: Stats,
}

/// The abstract state that a scanner and a repository stand at, given the
/// bytes committed so far.
pub open spec fn state_of<R: Repo>(d: Deduplicator, repo: R, out: Seq<u8>) -> ScanState {
    ScanState {
        blocks: repo.blocks(),
        fps: repo.fps(),
        keys: d.block_keys.deep_view(),
        out: out,
        new_blocks: d.stats.new_blocks as nat,
        new_bytes: d.stats.new_bytes as nat,
        dup_blocks: d.stats.dup_blocks as nat,
        dup_bytes: d.stats.dup_bytes as nat,
        roll_false: d.stats.roll_false as nat,
    }
}

impl Deduplicator {
    /// Commits one block: a duplicate is counted, a new block is stored
    /// (and fingerprinted when full-size), and its key joins the keylist.
    fn save<R: Repo>(&mut self, repo: &mut R, block: Vec<u8>, Ghost(out): Ghost<Seq<u8>>)
        requires
            old(self).stats.new_bytes + block@.len() <= usize::MAX,
            old(self).stats.dup_bytes + block@.len() <= usize::MAX,
            old(self).stats.new_blocks < u32::MAX,
            old(self).stats.dup_blocks < u32::MAX,
        ensures
            (state_of(*final(self), *final(repo), out + block@) == commit_m(
                old(repo).spec_block_size() as nat,
                state_of(*old(self), *old(repo), out),
                block@,
            )),
            final(repo).files() == old(repo).files(),
            final(repo).spec_block_size() == old(repo).spec_block_size(),
    {
        let ghost pre = state_of(*self, *repo, out);
        let block_len = block.len();
        if block_len == 0 {
            proof {
                assert(out + block@ =~= out);
            }
            return;
        }
        let block_key = sha256(block.as_slice());
        if !repo.contains_block(&block_key) {
            if block_len == repo.block_size() {
                let rollhash = adler_hash_of(block.as_slice());
                repo.write_hash(rollhash);
            }
            repo.write_block(&block_key, block);
            self.stats.new_blocks = self.stats.new_blocks + 1;
            self.stats.new_bytes = self.stats.new_bytes + block_len;
        } else {
            self.stats.dup_blocks = self.stats.dup_blocks + 1;
            self.stats.dup_bytes = self.stats.dup_bytes + block_len;
        }
        let ghost key = block_key@;
        proof {
            assert(block_key.deep_view() =~= key);
        }
        self.block_keys.push(block_key);
        proof {
            assert(key == sha256_of(block@));
            assert(self.block_keys.deep_view() =~~= pre.keys.push(key));
        }
    }

    /// Commits the first `size` buffered bytes (the whole buffer when it
    /// is no longer than `size`) and drops them from the buffer.
    fn flushn<R: Repo>(
        &mut self,
        repo: &mut R,
        buffer: &mut Vec<u8>,
        size: usize,
        Ghost(out): Ghost<Seq<u8>>,
    )
        requires
            old(self).stats.new_bytes + old(buffer)@.len() <= usize::MAX,
            old(self).stats.dup_bytes + old(buffer)@.len() <= usize::MAX,
            old(self).stats.new_blocks < u32::MAX,
            old(self).stats.dup_blocks < u32::MAX,
        ensures
            final(repo).files() == old(repo).files(),
            final(repo).spec_block_size() == old(repo).spec_block_size(),
            old(buffer)@.len() > size ==> (state_of(
                *final(self),
                *final(repo),
                out + old(buffer)@.take(size as int),
            ) == commit_m(
                old(repo).spec_block_size() as nat,
                state_of(*old(self), *old(repo), out),
                old(buffer)@.take(size as int),
            ) && final(buffer)@ == old(buffer)@.skip(size as int)),
            old(buffer)@.len() <= size ==> (state_of(*final(self), *final(repo), out + old(
                buffer,
            )@) == commit_m(
                old(repo).spec_block_size() as nat,
                state_of(*old(self), *old(repo), out),
                old(buffer)@,
            ) && final(buffer)@ == Seq::<u8>::empty()),
    {
        if buffer.len() > size {
            let mut remainder = buffer.split_off(size);
            let prefix = clone_bytes(buffer);
            self.save(repo, prefix, Ghost(out));
            buffer.clear();
            buffer.append(&mut remainder);
            proof {
                assert(buffer@ =~= old(buffer)@.skip(size as int));
            }
        } else {
            let whole = clone_bytes(buffer);
            self.save(repo, whole, Ghost(out));
            buffer.clear();
        }
    }

    /// The next input byte, if any; the cursor advances past it.
    fn next_byte(data: &[u8], cursor: &mut usize) -> (r: Option<u8>)
        ensures
            *old(cursor) < data@.len() ==> r == Some(data@[*old(cursor) as int])
                && *final(cursor) == *old(cursor) + 1,
            *old(cursor) >= data@.len() ==> r == None::<u8> && *final(cursor) == *old(cursor),
    {
        if *cursor < data.len() {
            let b = data[*cursor];
            *cursor = *cursor + 1;
            Some(b)
        } else {
            None
        }
    }

    /// Runs the whole scan over the input, so that the scanner and the
    /// repository end exactly at the state the scan model prescribes.
    #[verifier::rlimit(100)]
    fn consume<R: Repo>(&mut self, repo: &mut R, data: &[u8])
        requires
            old(self).block_keys@.len() == 0,
            old(self).stats.new_blocks == 0,
            old(self).stats.new_bytes == 0,
            old(self).stats.dup_blocks == 0,
            old(self).stats.dup_bytes == 0,
            old(self).stats.roll_false == 0,
            old(repo).spec_block_size() >= 1,
            2 * old(repo).spec_block_size() <= usize::MAX,
            data@.len() < u32::MAX,
        ensures
            state_of(*final(self), *final(repo), data@) == scan(
                old(repo).spec_block_size() as nat,
                old(repo).blocks(),
                old(repo).fps(),
                data@,
            ),
            final(repo).files() == old(repo).files(),
            final(repo).spec_block_size() == old(repo).spec_block_size(),
    {
        let block_size = repo.block_size();
        let ghost bs = block_size as nat;
        let ghost target = scan(bs, repo.blocks(), repo.fps(), data@);
        proof {
            assert(self.block_keys.deep_view() =~= Seq::<Seq<u8>>::empty());
            assert(state_of(*self, *repo, Seq::empty()) == init_state(repo.blocks(), repo.fps()));
            assert(data@.skip(0) =~= data@);
            assert(data@.take(0) =~= Seq::<u8>::empty());
        }
        let mut buffer: Vec<u8> = Vec::new();
        let mut cursor: usize = 0;
        loop
            invariant
                repo.spec_block_size() == block_size,
                block_size == old(repo).spec_block_size(),
                block_size >= 1,
                2 * block_size <= usize::MAX,
                cursor <= data@.len(),
                data@.len() < u32::MAX,
                buffer@.len() == 0,
                self.stats.new_bytes + self.stats.dup_bytes == cursor,
                self.stats.new_blocks + self.stats.dup_blocks <= cursor,
                self.stats.roll_false <= cursor,
                repo.files() == old(repo).files(),
                bs == block_size,
                scan_fill(
                    bs,
                    state_of(*self, *repo, data@.take(cursor as int)),
                    buffer@,
                    data@.skip(cursor as int),
                ) == target,
                target == scan(
                    old(repo).spec_block_size() as nat,
                    old(repo).blocks(),
                    old(repo).fps(),
                    data@,
                ),
            decreases data@.len() - cursor,
        {
            let ghost c0 = cursor;
            // Fill phase: grow the buffer to a full block, committing the
            // remainder if the input ends first.
            while buffer.len() < block_size
                invariant
                    repo.spec_block_size() == block_size,
                    block_size == old(repo).spec_block_size(),
                    block_size >= 1,
                    2 * block_size <= usize::MAX,
                    cursor <= data@.len(),
                    data@.len() < u32::MAX,
                    buffer@.len() <= block_size,
                    buffer@.len() == cursor - c0,
                    buffer@ == data@.subrange(c0 as int, cursor as int),
                    self.stats.new_bytes + self.stats.dup_bytes == c0,
                    self.stats.new_blocks + self.stats.dup_blocks <= c0,
                    self.stats.roll_false <= c0,
                    repo.files() == old(repo).files(),
                    bs == block_size,
                    scan_fill(
                        bs,
                        state_of(*self, *repo, data@.take(c0 as int)),
                        buffer@,
                        data@.skip(cursor as int),
                    ) == target,
                    target == scan(
                        old(repo).spec_block_size() as nat,
                        old(repo).blocks(),
                        old(repo).fps(),
                        data@,
                    ),
                decreases block_size - buffer@.len(),
            {
                let ghost pre_buf = buffer@;
                let ghost pre_cursor = cursor as int;
                match Self::next_byte(data, &mut cursor) {
                    Some(byte) => {
                        buffer.push(byte);
                        proof {
                            assert(data@.skip(pre_cursor).first() == data@[pre_cursor]);
                            assert(data@.skip(pre_cursor).drop_first() =~= data@.skip(
                                pre_cursor + 1,
                            ));
                            assert(buffer@ =~= data@.subrange(c0 as int, cursor as int));
                            assert(scan_fill(
                                bs,
                                state_of(*self, *repo, data@.take(c0 as int)),
                                pre_buf,
                                data@.skip(pre_cursor),
                            ) == scan_fill(
                                bs,
                                state_of(*self, *repo, data@.take(c0 as int)),
                                buffer@,
                                data@.skip(cursor as int),
                            ));
                        }
                    },
                    None => {
                        let block = clone_bytes(&buffer);
                        proof {
                            assert(data@.skip(cursor as int).len() == 0);
                            assert(scan_fill(
                                bs,
                                state_of(*self, *repo, data@.take(c0 as int)),
                                buffer@,
                                data@.skip(cursor as int),
                            ) == commit_m(
                                bs,
                                state_of(*self, *repo, data@.take(c0 as int)),
                                buffer@,
                            ));
                        }
                        self.save(repo, block, Ghost(data@.take(c0 as int)));
                        proof {
                            assert(data@.take(c0 as int) + data@.subrange(c0 as int, cursor as int)
                                =~= data@.take(cursor as int));
                            assert(data@.take(cursor as int) =~= data@);
                        }
                        return;
                    },
                }
            }
            // Slide phase: advance the window one byte at a time, looking
            // for a stored block at the current alignment.
            let mut roll = adler_hash_of(buffer.as_slice());
            proof {
                assert(buffer@.skip(buffer@.len() - block_size) =~= buffer@);
            }
            loop
                invariant_except_break
                    repo.spec_block_size() == block_size,
                    block_size == old(repo).spec_block_size(),
                    block_size >= 1,
                    2 * block_size <= usize::MAX,
                    cursor <= data@.len(),
                    data@.len() < u32::MAX,
                    block_size <= buffer@.len() < 2 * block_size,
                    buffer@.len() <= cursor,
                    cursor >= c0 + block_size,
                    buffer@ == data@.subrange(cursor as int - buffer@.len() as int, cursor as int),
                    self.stats.new_bytes + self.stats.dup_bytes == cursor - buffer@.len(),
                    self.stats.new_blocks + self.stats.dup_blocks <= cursor - buffer@.len(),
                    self.stats.roll_false <= cursor,
                    repo.files() == old(repo).files(),
                    bs == block_size,
                    roll == adler32_of(buffer@.skip(buffer@.len() - block_size as int)),
                    scan_slide(
                        bs,
                        state_of(
                            *self,
                            *repo,
                            data@.take(cursor as int - buffer@.len() as int),
                        ),
                        buffer@,
                        data@.skip(cursor as int),
                    ) == target,
                    target == scan(
                        old(repo).spec_block_size() as nat,
                        old(repo).blocks(),
                        old(repo).fps(),
                        data@,
                    ),
                ensures
                    repo.spec_block_size() == block_size,
                    block_size == old(repo).spec_block_size(),
                    cursor <= data@.len(),
                    buffer@.len() == 0,
                    cursor > c0,
                    self.stats.new_bytes + self.stats.dup_bytes == cursor,
                    self.stats.new_blocks + self.stats.dup_blocks <= cursor,
                    self.stats.roll_false <= cursor,
                    repo.files() == old(repo).files(),
                    scan_fill(
                        bs,
                        state_of(*self, *repo, data@.take(cursor as int)),
                        buffer@,
                        data@.skip(cursor as int),
                    ) == target,
                decreases data@.len() - cursor,
            {
                let offset = buffer.len() - block_size;
                let ghost window = buffer@.skip(offset as int);
                if repo.contains_hash(roll) {
                    let window_hash = sha256(&buffer.as_slice()[offset..buffer.len()]);
                    proof {
                        assert(window =~= buffer@.subrange(offset as int, buffer@.len() as int));
                        assert(window_hash@ == sha256_of(window));
                    }
                    if repo.contains_block(&window_hash) {
                        // A stored block ends here: commit the unmatched
                        // prefix, then the matched window, and restart.
                        let ghost pre_self = *self;
                        let ghost pre_repo = *repo;
                        let ghost pre_buf = buffer@;
                        let ghost out0 = data@.take(cursor as int - buffer@.len() as int);
                        self.flushn(repo, &mut buffer, offset, Ghost(out0));
                        proof {
                            assert(buffer@ == pre_buf.skip(offset as int));
                            assert(buffer@.len() == block_size);
                            assert(out0 + pre_buf.take(offset as int) =~= data@.take(
                                cursor as int - block_size as int,
                            ));
                        }
                        let ghost out1 = data@.take(cursor as int - block_size as int);
                        self.flushn(repo, &mut buffer, block_size, Ghost(out1));
                        proof {
                            assert(out1 + pre_buf.skip(offset as int) =~= data@.take(
                                cursor as int,
                            ));
                            assert(pre_buf.take(offset as int) == pre_buf.subrange(
                                0,
                                pre_buf.len() - block_size as int,
                            ));
                            assert(scan_slide(
                                bs,
                                state_of(pre_self, pre_repo, out0),
                                pre_buf,
                                data@.skip(cursor as int),
                            ) == scan_fill(
                                bs,
                                state_of(*self, *repo, data@.take(cursor as int)),
                                Seq::empty(),
                                data@.skip(cursor as int),
                            ));
                            assert(buffer@ =~= Seq::<u8>::empty());
                        }
                        break;
                    } else {
                        self.stats.roll_false = self.stats.roll_false + 1;
                        proof {
                            let pre = ScanState {
                                roll_false: (self.stats.roll_false - 1) as nat,
                                ..state_of(
                                    *self,
                                    *repo,
                                    data@.take(cursor as int - buffer@.len() as int),
                                )
                            };
                            assert(state_of(
                                *self,
                                *repo,
                                data@.take(cursor as int - buffer@.len() as int),
                            ) == ScanState { roll_false: pre.roll_false + 1, ..pre });
                            assert(scan_slide(bs, pre, buffer@, data@.skip(cursor as int))
                                == scan_extend(
                                bs,
                                state_of(
                                    *self,
                                    *repo,
                                    data@.take(cursor as int - buffer@.len() as int),
                                ),
                                buffer@,
                                data@.skip(cursor as int),
                            ));
                        }
                    }
                } else {
                    proof {
                        assert(scan_slide(
                            bs,
                            state_of(
                                *self,
                                *repo,
                                data@.take(cursor as int - buffer@.len() as int),
                            ),
                            buffer@,
                            data@.skip(cursor as int),
                        ) == scan_extend(
                            bs,
                            state_of(
                                *self,
                                *repo,
                                data@.take(cursor as int - buffer@.len() as int),
                            ),
                            buffer@,
                            data@.skip(cursor as int),
                        ));
                    }
                }
                // From here the state stands at `scan_extend`: read one
                // more byte, or finish the tail at end of input.
                let ghost pre_buf = buffer@;
                let ghost pre_cursor = cursor as int;
                let ghost pre_out = data@.take(cursor as int - buffer@.len() as int);
                match Self::next_byte(data, &mut cursor) {
                    Some(byte) => {
                        let out_byte = buffer[buffer.len() - block_size];
                        buffer.push(byte);
                        if block_size <= 65521 {
                            roll = adler_roll(roll, block_size, out_byte, byte);
                            proof {
                                let w = pre_buf.skip(pre_buf.len() - block_size as int);
                                assert(w.len() == block_size && w.first() == out_byte);
                                assert(roll == adler32_of(w.drop_first().push(byte)));
                                assert(w.drop_first().push(byte) =~= buffer@.skip(
                                    buffer@.len() - block_size as int,
                                ));
                            }
                        } else {
                            let len = buffer.len();
                            roll = adler_hash_of(&buffer.as_slice()[len - block_size..len]);
                            proof {
                                assert(buffer@.subrange(
                                    buffer@.len() - block_size as int,
                                    buffer@.len() as int,
                                ) =~= buffer@.skip(buffer@.len() - block_size as int));
                            }
                        }
                        proof {
                            assert(data@.skip(pre_cursor).first() == data@[pre_cursor]);
                            assert(data@.skip(pre_cursor).drop_first() =~= data@.skip(
                                pre_cursor + 1,
                            ));
                            assert(buffer@ == pre_buf.push(byte));
                            assert(buffer@ =~= data@.subrange(
                                cursor as int - buffer@.len() as int,
                                cursor as int,
                            ));
                        }
                        if buffer.len() == 2 * block_size {
                            // Forced flush: no match anywhere in the
                            // window; commit the first block and slide on.
                            let ghost pre_self = *self;
                            let ghost pre_repo = *repo;
                            let ghost full_buf = buffer@;
                            self.flushn(repo, &mut buffer, block_size, Ghost(pre_out));
                            proof {
                                assert(buffer@ == full_buf.skip(block_size as int));
                                assert(pre_out + full_buf.take(block_size as int) =~= data@.take(
                                    cursor as int - buffer@.len() as int,
                                ));
                                assert(scan_extend(
                                    bs,
                                    state_of(pre_self, pre_repo, pre_out),
                                    pre_buf,
                                    data@.skip(pre_cursor),
                                ) == scan_slide(
                                    bs,
                                    state_of(
                                        *self,
                                        *repo,
                                        data@.take(cursor as int - buffer@.len() as int),
                                    ),
                                    buffer@,
                                    data@.skip(cursor as int),
                                ));
                                assert(buffer@.skip(buffer@.len() - block_size as int)
                                    =~= full_buf.skip(full_buf.len() - block_size as int));
                            }
                        } else {
                            proof {
                                assert(scan_extend(
                                    bs,
                                    state_of(*self, *repo, pre_out),
                                    pre_buf,
                                    data@.skip(pre_cursor),
                                ) == scan_slide(
                                    bs,
                                    state_of(
                                        *self,
                                        *repo,
                                        data@.take(cursor as int - buffer@.len() as int),
                                    ),
                                    buffer@,
                                    data@.skip(cursor as int),
                                ));
                            }
                        }
                    },
                    None => {
                        // End of input: commit the first block, then the
                        // tail if any bytes remain.
                        let ghost pre_self = *self;
                        let ghost pre_repo = *repo;
                        self.flushn(repo, &mut buffer, block_size, Ghost(pre_out));
                        proof {
                            assert(data@.skip(cursor as int).len() == 0);
                            if pre_buf.len() > block_size {
                                assert(buffer@ == pre_buf.skip(block_size as int));
                                assert(pre_out + pre_buf.take(block_size as int) =~= data@.take(
                                    cursor as int - buffer@.len() as int,
                                ));
                            } else {
                                assert(buffer@.len() == 0);
                                assert(pre_buf.take(block_size as int) =~= pre_buf);
                                assert(pre_out + pre_buf =~= data@.take(cursor as int));
                            }
                        }
                        if buffer.len() > 0 {
                            let ghost out1 = data@.take(cursor as int - buffer@.len() as int);
                            let ghost mid_self = *self;
                            let ghost mid_repo = *repo;
                            let ghost tail = buffer@;
                            self.flushn(repo, &mut buffer, block_size, Ghost(out1));
                            proof {
                                assert(tail =~= pre_buf.skip(block_size as int));
                                assert(out1 + tail =~= data@.take(cursor as int));
                                assert(scan_extend(
                                    bs,
                                    state_of(pre_self, pre_repo, pre_out),
                                    pre_buf,
                                    data@.skip(cursor as int),
                                ) == state_of(*self, *repo, data@.take(cursor as int)));
                            }
                        } else {
                            proof {
                                assert(pre_buf.skip(block_size as int) =~= Seq::<u8>::empty());
                                assert(scan_extend(
                                    bs,
                                    state_of(pre_self, pre_repo, pre_out),
                                    pre_buf,
                                    data@.skip(cursor as int),
                                ) == state_of(*self, *repo, data@.take(cursor as int)));
                            }
                        }
                        proof {
                            assert(data@.take(cursor as int) =~= data@);
                        }
                        return;
                    },
                }
            }
        }
    }

    /// Saves one input under a name: scans it into blocks against the
    /// repository and records the resulting keylist as the name's file
    /// entry. Returns the scan's counters.
    pub fn store<R: Repo>(repo: &mut R, name: &str, data: &[u8]) -> (r: Result<Stats, SaveError>)
        requires
            old(repo).spec_block_size() >= 1,
            2 * old(repo).spec_block_size() <= usize::MAX,
            data@.len() < u32::MAX,
        ensures
            ({
                let s = scan(
                    old(repo).spec_block_size() as nat,
                    old(repo).blocks(),
                    old(repo).fps(),
                    data@,
                );
                match r {
                    Ok(stats) => final(repo).blocks() == s.blocks && final(repo).fps() == s.fps
                        && final(repo).files() == old(repo).files().insert(name@, s.keys)
                        && final(repo).spec_block_size() == old(repo).spec_block_size()
                        && stats.new_blocks == s.new_blocks && stats.new_bytes == s.new_bytes
                        && stats.dup_blocks == s.dup_blocks && stats.dup_bytes == s.dup_bytes
                        && stats.roll_false == s.roll_false,
                    Err(_) => false,
                }
            }),
    {
        let mut deduplicator = Deduplicator {
            block_keys: Vec::new(),
            stats: Stats {
                dup_blocks: 0,
                dup_bytes: 0,
                new_blocks: 0,
                new_bytes: 0,
                roll_false: 0,
            },
        };
        deduplicator.consume(repo, data);
        let Deduplicator { block_keys, stats } = deduplicator;
        repo.write_file(name, block_keys);
        Ok(stats)
    }
}

} // verus!
