//! The library's general guarantees, proved of the scan model.
//!
//! Every executable operation's contract pins its result to the spec
//! functions `scan` and `loaded`, so the guarantees below are stated and
//! proved once, of those functions: a save preserves the repository
//! invariants, keeps every file entry closed under the block table,
//! accounts for every input byte in its stats, and — as long as no two
//! distinct blocks share a digest — writes a keylist that loads back to
//! exactly the saved bytes.

use vstd::prelude::*;

use crate::Repo;
use crate::deduplicator::{
    ScanState, commit_m, init_state, scan, scan_extend, scan_fill, scan_slide,
};
use crate::digest::sha256_of;
use crate::loaded;
use crate::rolling::adler32_of;

verus! {

/// Every key of the keylist is present in the block table.
pub open spec fn keys_stored(blocks: Map<Seq<u8>, Seq<u8>>, keys: Seq<Seq<u8>>) -> bool {
    forall|i: int| 0 <= i < keys.len() ==> blocks.dom().contains(#[trigger] keys[i])
}

/// The repository invariants over the block table and fingerprint set:
/// every stored block is keyed by its own digest, holds between 1 and `bs`
/// bytes, and, when full-size, has its rolling checksum in the fingerprint
/// set.
pub open spec fn repo_inv(bs: nat, blocks: Map<Seq<u8>, Seq<u8>>, fps: Set<u32>) -> bool {
    forall|k: Seq<u8>| #[trigger] blocks.dom().contains(k)
        ==> sha256_of(blocks[k]) == k && 1 <= blocks[k].len() <= bs && (blocks[k].len() == bs
            ==> fps.contains(adler32_of(blocks[k])))
}

/// Every key of every file entry is present in the block table.
pub open spec fn files_closed(
    blocks: Map<Seq<u8>, Seq<u8>>,
    files: Map<Seq<char>, Seq<Seq<u8>>>,
) -> bool {
    forall|n: Seq<char>, i: int|
        files.dom().contains(n) && 0 <= i < files[n].len() ==> blocks.dom().contains(
            #[trigger] files[n][i],
        )
}

/// The later block table holds every entry of the earlier one, unchanged.
pub open spec fn table_extends(pre: Map<Seq<u8>, Seq<u8>>, post: Map<Seq<u8>, Seq<u8>>) -> bool {
    forall|k: Seq<u8>| #[trigger] pre.dom().contains(k) ==> post.dom().contains(k) && post[k]
        == pre[k]
}

/// No two distinct byte sequences share a SHA-256 digest. Content
/// addressing assumes this of the digest; it is the one hypothesis under
/// which a stored block can be identified with the window that matched it.
pub open spec fn digests_injective() -> bool {
    forall|b1: Seq<u8>, b2: Seq<u8>| #[trigger] sha256_of(b1) == #[trigger] sha256_of(b2) ==> b1
        == b2
}

/// What one commit does to the bookkeeping: it appends the block to the
/// committed bytes, accounts for it once, only ever adds table entries,
/// and preserves the repository invariants and keylist closure.
pub proof fn lemma_commit_props(bs: nat, s: ScanState, block: Seq<u8>)
    requires
        bs >= 1,
        block.len() <= bs,
    ensures
        ({
            let c = commit_m(bs, s, block);
            &&& c.out == s.out + block
            &&& c.new_bytes + c.dup_bytes == s.new_bytes + s.dup_bytes + block.len()
            &&& c.keys.len() >= s.keys.len()
            &&& c.new_blocks + c.dup_blocks == s.new_blocks + s.dup_blocks + c.keys.len()
                - s.keys.len()
            &&& table_extends(s.blocks, c.blocks)
            &&& s.fps.subset_of(c.fps)
            &&& (repo_inv(bs, s.blocks, s.fps) ==> repo_inv(bs, c.blocks, c.fps))
            &&& (keys_stored(s.blocks, s.keys) ==> keys_stored(c.blocks, c.keys))
            &&& c.roll_false == s.roll_false
        }),
{
    let c = commit_m(bs, s, block);
    if block.len() == 0 {
        assert(s.out + block =~= s.out);
    } else {
        let key = sha256_of(block);
        assert(c.keys == s.keys.push(key));
        assert(c.keys.len() == s.keys.len() + 1);
        if s.blocks.dom().contains(key) {
            if keys_stored(s.blocks, s.keys) {
                assert forall|i: int| 0 <= i < c.keys.len() implies c.blocks.dom().contains(
                    #[trigger] c.keys[i],
                ) by {
                    if i < s.keys.len() {
                        assert(c.keys[i] == s.keys[i]);
                    } else {
                        assert(c.keys[i] == key);
                    }
                }
            }
        } else {
            if repo_inv(bs, s.blocks, s.fps) {
                assert forall|k: Seq<u8>| #[trigger] c.blocks.dom().contains(k) implies sha256_of(
                    c.blocks[k],
                ) == k && 1 <= c.blocks[k].len() <= bs && (c.blocks[k].len() == bs
                    ==> c.fps.contains(adler32_of(c.blocks[k]))) by {
                    if k == key {
                        assert(c.blocks[k] == block);
                    } else {
                        assert(s.blocks.dom().contains(k));
                        assert(c.blocks[k] == s.blocks[k]);
                    }
                }
            }
            if keys_stored(s.blocks, s.keys) {
                assert forall|i: int| 0 <= i < c.keys.len() implies c.blocks.dom().contains(
                    #[trigger] c.keys[i],
                ) by {
                    if i < s.keys.len() {
                        assert(c.keys[i] == s.keys[i]);
                        assert(s.blocks.dom().contains(s.keys[i]));
                    } else {
                        assert(c.keys[i] == key);
                    }
                }
            }
        }
    }
}

/// The fill phase's bookkeeping: all of the input is committed in order,
/// every byte is accounted once, and the invariants are preserved.
pub proof fn lemma_fill_props(bs: nat, s: ScanState, buf: Seq<u8>, rest: Seq<u8>)
    requires
        bs >= 1,
        buf.len() <= bs,
    ensures
        ({
            let f = scan_fill(bs, s, buf, rest);
            &&& f.out == s.out + buf + rest
            &&& f.new_bytes + f.dup_bytes == s.new_bytes + s.dup_bytes + buf.len() + rest.len()
            &&& f.keys.len() >= s.keys.len()
            &&& f.new_blocks + f.dup_blocks == s.new_blocks + s.dup_blocks + f.keys.len()
                - s.keys.len()
            &&& table_extends(s.blocks, f.blocks)
            &&& s.fps.subset_of(f.fps)
            &&& (repo_inv(bs, s.blocks, s.fps) ==> repo_inv(bs, f.blocks, f.fps))
            &&& (keys_stored(s.blocks, s.keys) ==> keys_stored(f.blocks, f.keys))
        }),
    decreases rest.len(), buf.len(), 2int,
{
    let f = scan_fill(bs, s, buf, rest);
    if buf.len() < bs {
        if rest.len() == 0 {
            lemma_commit_props(bs, s, buf);
            assert(s.out + buf + rest =~= s.out + buf);
        } else {
            lemma_fill_props(bs, s, buf.push(rest.first()), rest.drop_first());
            assert(s.out + buf.push(rest.first()) + rest.drop_first() =~= s.out + buf + rest);
        }
    } else {
        lemma_slide_props(bs, s, buf, rest);
    }
}

/// The slide phase's bookkeeping; see `lemma_fill_props`.
pub proof fn lemma_slide_props(bs: nat, s: ScanState, buf: Seq<u8>, rest: Seq<u8>)
    requires
        bs >= 1,
        bs <= buf.len() < 2 * bs,
    ensures
        ({
            let f = scan_slide(bs, s, buf, rest);
            &&& f.out == s.out + buf + rest
            &&& f.new_bytes + f.dup_bytes == s.new_bytes + s.dup_bytes + buf.len() + rest.len()
            &&& f.keys.len() >= s.keys.len()
            &&& f.new_blocks + f.dup_blocks == s.new_blocks + s.dup_blocks + f.keys.len()
                - s.keys.len()
            &&& table_extends(s.blocks, f.blocks)
            &&& s.fps.subset_of(f.fps)
            &&& (repo_inv(bs, s.blocks, s.fps) ==> repo_inv(bs, f.blocks, f.fps))
            &&& (keys_stored(s.blocks, s.keys) ==> keys_stored(f.blocks, f.keys))
        }),
    decreases rest.len(), buf.len(), 1int,
{
    let f = scan_slide(bs, s, buf, rest);
    let window = buf.subrange(buf.len() - bs, buf.len() as int);
    if s.fps.contains(adler32_of(window)) && s.blocks.dom().contains(sha256_of(window)) {
        let prefix = buf.subrange(0, buf.len() - bs);
        let s1 = commit_m(bs, s, prefix);
        let s2 = commit_m(bs, s1, window);
        lemma_commit_props(bs, s, prefix);
        lemma_commit_props(bs, s1, window);
        lemma_fill_props(bs, s2, Seq::empty(), rest);
        assert(s.out + prefix + window =~= s.out + buf);
        assert(s.out + buf + Seq::<u8>::empty() + rest =~= s.out + buf + rest);
    } else {
        let s1 = if s.fps.contains(adler32_of(window)) {
            ScanState { roll_false: s.roll_false + 1, ..s }
        } else {
            s
        };
        lemma_extend_props(bs, s1, buf, rest);
    }
}

/// The extend step's bookkeeping; see `lemma_fill_props`.
pub proof fn lemma_extend_props(bs: nat, s: ScanState, buf: Seq<u8>, rest: Seq<u8>)
    requires
        bs >= 1,
        bs <= buf.len() < 2 * bs,
    ensures
        ({
            let f = scan_extend(bs, s, buf, rest);
            &&& f.out == s.out + buf + rest
            &&& f.new_bytes + f.dup_bytes == s.new_bytes + s.dup_bytes + buf.len() + rest.len()
            &&& f.keys.len() >= s.keys.len()
            &&& f.new_blocks + f.dup_blocks == s.new_blocks + s.dup_blocks + f.keys.len()
                - s.keys.len()
            &&& table_extends(s.blocks, f.blocks)
            &&& s.fps.subset_of(f.fps)
            &&& (repo_inv(bs, s.blocks, s.fps) ==> repo_inv(bs, f.blocks, f.fps))
            &&& (keys_stored(s.blocks, s.keys) ==> keys_stored(f.blocks, f.keys))
        }),
    decreases rest.len(), buf.len(), 0int,
{
    let f = scan_extend(bs, s, buf, rest);
    if rest.len() == 0 {
        let head = buf.take(bs as int);
        let s1 = commit_m(bs, s, head);
        lemma_commit_props(bs, s, head);
        lemma_commit_props(bs, s1, buf.skip(bs as int));
        assert(s.out + head + buf.skip(bs as int) =~= s.out + buf);
        assert(s.out + buf =~= s.out + buf + rest);
    } else {
        let grown = buf.push(rest.first());
        if grown.len() < 2 * bs {
            lemma_slide_props(bs, s, grown, rest.drop_first());
            assert(s.out + grown + rest.drop_first() =~= s.out + buf + rest);
        } else {
            let head = grown.take(bs as int);
            let s1 = commit_m(bs, s, head);
            lemma_commit_props(bs, s, head);
            lemma_slide_props(bs, s1, grown.skip(bs as int), rest.drop_first());
            assert(s.out + head + grown.skip(bs as int) + rest.drop_first() =~= s.out + buf
                + rest);
        }
    }
}

/// Inserting a block under a key that no keylist entry carries leaves the
/// bytes the keylist denotes unchanged.
pub proof fn lemma_loaded_insert_fresh(
    blocks: Map<Seq<u8>, Seq<u8>>,
    keys: Seq<Seq<u8>>,
    k: Seq<u8>,
    b: Seq<u8>,
)
    requires
        keys_stored(blocks, keys),
        !blocks.dom().contains(k),
    ensures
        loaded(blocks.insert(k, b), keys) == loaded(blocks, keys),
    decreases keys.len(),
{
    if keys.len() > 0 {
        assert(keys_stored(blocks, keys.drop_last())) by {
            assert(forall|i: int|
                0 <= i < keys.drop_last().len() ==> #[trigger] keys.drop_last()[i] == keys[i]);
        }
        lemma_loaded_insert_fresh(blocks, keys.drop_last(), k, b);
        assert(blocks.dom().contains(keys.last()));
        assert(keys.last() != k);
    }
}

/// One commit keeps the keylist loading back to the committed bytes, as
/// long as no two distinct blocks share a digest.
pub proof fn lemma_commit_loaded(bs: nat, s: ScanState, block: Seq<u8>)
    requires
        bs >= 1,
        block.len() <= bs,
        digests_injective(),
        repo_inv(bs, s.blocks, s.fps),
        keys_stored(s.blocks, s.keys),
        loaded(s.blocks, s.keys) == s.out,
    ensures
        ({
            let c = commit_m(bs, s, block);
            loaded(c.blocks, c.keys) == c.out
        }),
{
    let c = commit_m(bs, s, block);
    if block.len() == 0 {
    } else {
        let key = sha256_of(block);
        assert(c.keys.drop_last() =~= s.keys);
        assert(c.keys.last() == key);
        if s.blocks.dom().contains(key) {
            assert(sha256_of(s.blocks[key]) == key);
            assert(s.blocks[key] == block);
            assert(loaded(c.blocks, c.keys) == s.out + block);
        } else {
            lemma_loaded_insert_fresh(s.blocks, s.keys, key, block);
            assert(c.blocks[key] == block);
            assert(loaded(c.blocks, c.keys) == loaded(c.blocks, s.keys) + c.blocks[key]);
        }
    }
}

/// The fill phase keeps the keylist loading back to the committed bytes.
pub proof fn lemma_fill_loaded(bs: nat, s: ScanState, buf: Seq<u8>, rest: Seq<u8>)
    requires
        bs >= 1,
        buf.len() <= bs,
        digests_injective(),
        repo_inv(bs, s.blocks, s.fps),
        keys_stored(s.blocks, s.keys),
        loaded(s.blocks, s.keys) == s.out,
    ensures
        ({
            let f = scan_fill(bs, s, buf, rest);
            loaded(f.blocks, f.keys) == f.out
        }),
    decreases rest.len(), buf.len(), 2int,
{
    if buf.len() < bs {
        if rest.len() == 0 {
            lemma_commit_loaded(bs, s, buf);
        } else {
            lemma_fill_loaded(bs, s, buf.push(rest.first()), rest.drop_first());
        }
    } else {
        lemma_slide_loaded(bs, s, buf, rest);
    }
}

/// The slide phase keeps the keylist loading back to the committed bytes.
pub proof fn lemma_slide_loaded(bs: nat, s: ScanState, buf: Seq<u8>, rest: Seq<u8>)
    requires
        bs >= 1,
        bs <= buf.len() < 2 * bs,
        digests_injective(),
        repo_inv(bs, s.blocks, s.fps),
        keys_stored(s.blocks, s.keys),
        loaded(s.blocks, s.keys) == s.out,
    ensures
        ({
            let f = scan_slide(bs, s, buf, rest);
            loaded(f.blocks, f.keys) == f.out
        }),
    decreases rest.len(), buf.len(), 1int,
{
    let window = buf.subrange(buf.len() - bs, buf.len() as int);
    if s.fps.contains(adler32_of(window)) && s.blocks.dom().contains(sha256_of(window)) {
        let prefix = buf.subrange(0, buf.len() - bs);
        let s1 = commit_m(bs, s, prefix);
        let s2 = commit_m(bs, s1, window);
        lemma_commit_props(bs, s, prefix);
        lemma_commit_loaded(bs, s, prefix);
        lemma_commit_props(bs, s1, window);
        lemma_commit_loaded(bs, s1, window);
        lemma_fill_loaded(bs, s2, Seq::empty(), rest);
    } else {
        let s1 = if s.fps.contains(adler32_of(window)) {
            ScanState { roll_false: s.roll_false + 1, ..s }
        } else {
            s
        };
        lemma_extend_loaded(bs, s1, buf, rest);
    }
}

/// The extend step keeps the keylist loading back to the committed bytes.
pub proof fn lemma_extend_loaded(bs: nat, s: ScanState, buf: Seq<u8>, rest: Seq<u8>)
    requires
        bs >= 1,
        bs <= buf.len() < 2 * bs,
        digests_injective(),
        repo_inv(bs, s.blocks, s.fps),
        keys_stored(s.blocks, s.keys),
        loaded(s.blocks, s.keys) == s.out,
    ensures
        ({
            let f = scan_extend(bs, s, buf, rest);
            loaded(f.blocks, f.keys) == f.out
        }),
    decreases rest.len(), buf.len(), 0int,
{
    if rest.len() == 0 {
        let head = buf.take(bs as int);
        let s1 = commit_m(bs, s, head);
        lemma_commit_props(bs, s, head);
        lemma_commit_loaded(bs, s, head);
        lemma_commit_loaded(bs, s1, buf.skip(bs as int));
    } else {
        let grown = buf.push(rest.first());
        if grown.len() < 2 * bs {
            lemma_slide_loaded(bs, s, grown, rest.drop_first());
        } else {
            let head = grown.take(bs as int);
            let s1 = commit_m(bs, s, head);
            lemma_commit_props(bs, s, head);
            lemma_commit_loaded(bs, s, head);
            lemma_slide_loaded(bs, s1, grown.skip(bs as int), rest.drop_first());
        }
    }
}

/// Round trip: as long as no two distinct blocks share a digest, the
/// keylist a save writes loads back, against the block table the save
/// leaves behind, to exactly the saved bytes — for every input, every
/// block size, and every repository satisfying the invariants. (A digest
/// collision between two distinct blocks is the one kind of input this
/// cannot hold for: the store would identify them.)
pub proof fn lemma_save_round_trip(
    bs: nat,
    blocks: Map<Seq<u8>, Seq<u8>>,
    fps: Set<u32>,
    data: Seq<u8>,
)
    requires
        bs >= 1,
        digests_injective(),
        repo_inv(bs, blocks, fps),
    ensures
        ({
            let s = scan(bs, blocks, fps, data);
            loaded(s.blocks, s.keys) == data && keys_stored(s.blocks, s.keys)
        }),
{
    let s0 = init_state(blocks, fps);
    lemma_fill_props(bs, s0, Seq::empty(), data);
    lemma_fill_loaded(bs, s0, Seq::empty(), data);
    let s = scan(bs, blocks, fps, data);
    assert(s.out =~= data);
}

/// Round trip, stated at the repository: right after a save of `data`
/// under `name`, the name has a file entry, the entry's keys are all
/// stored, and the entry loads back to exactly `data` — so a `load` of the
/// name succeeds and returns the saved bytes.
pub proof fn lemma_round_trip_after_save(
    bs: nat,
    blocks: Map<Seq<u8>, Seq<u8>>,
    fps: Set<u32>,
    files: Map<Seq<char>, Seq<Seq<u8>>>,
    name: Seq<char>,
    data: Seq<u8>,
)
    requires
        bs >= 1,
        digests_injective(),
        repo_inv(bs, blocks, fps),
    ensures
        ({
            let s = scan(bs, blocks, fps, data);
            let files2 = files.insert(name, s.keys);
            files2.dom().contains(name) && loaded(s.blocks, files2[name]) == data && (forall|
                i: int,
            |
                0 <= i < files2[name].len() ==> s.blocks.dom().contains(#[trigger] files2[name][i]))
        }),
{
    lemma_save_round_trip(bs, blocks, fps, data);
}

/// After a save the repository invariants still hold: every stored block
/// is keyed by its own digest, holds between 1 and `bs` bytes, and, when
/// full-size, is fingerprinted; and nothing stored before is removed or
/// changed.
pub proof fn lemma_save_preserves_inv(
    bs: nat,
    blocks: Map<Seq<u8>, Seq<u8>>,
    fps: Set<u32>,
    data: Seq<u8>,
)
    requires
        bs >= 1,
        repo_inv(bs, blocks, fps),
    ensures
        ({
            let s = scan(bs, blocks, fps, data);
            repo_inv(bs, s.blocks, s.fps) && table_extends(blocks, s.blocks) && fps.subset_of(
                s.fps,
            )
        }),
{
    lemma_fill_props(bs, init_state(blocks, fps), Seq::empty(), data);
}

/// Closure: after a save records its keylist under a name, every key of
/// every file entry — the new one and all older ones — is present in the
/// block table.
pub proof fn lemma_save_closure(
    bs: nat,
    blocks: Map<Seq<u8>, Seq<u8>>,
    fps: Set<u32>,
    files: Map<Seq<char>, Seq<Seq<u8>>>,
    name: Seq<char>,
    data: Seq<u8>,
)
    requires
        bs >= 1,
        files_closed(blocks, files),
    ensures
        ({
            let s = scan(bs, blocks, fps, data);
            files_closed(s.blocks, files.insert(name, s.keys))
        }),
{
    lemma_fill_props(bs, init_state(blocks, fps), Seq::empty(), data);
    let s = scan(bs, blocks, fps, data);
    let files2 = files.insert(name, s.keys);
    assert forall|n: Seq<char>, i: int|
        files2.dom().contains(n) && 0 <= i < files2[n].len() implies s.blocks.dom().contains(
        #[trigger] files2[n][i],
    ) by {
        if n == name {
            assert(files2[n] == s.keys);
        } else {
            assert(files.dom().contains(n) && files2[n] == files[n]);
            assert(blocks.dom().contains(files[n][i]));
        }
    }
}

/// Stats accounting: a save accounts every input byte exactly once, as new
/// or duplicate, and every committed block exactly once; the committed
/// bytes are the input itself.
pub proof fn lemma_save_stats(bs: nat, blocks: Map<Seq<u8>, Seq<u8>>, fps: Set<u32>, data: Seq<u8>)
    requires
        bs >= 1,
    ensures
        ({
            let s = scan(bs, blocks, fps, data);
            s.new_bytes + s.dup_bytes == data.len() && s.new_blocks + s.dup_blocks == s.keys.len()
                && s.out == data
        }),
{
    lemma_fill_props(bs, init_state(blocks, fps), Seq::empty(), data);
    let s = scan(bs, blocks, fps, data);
    assert(s.out =~= data);
}

/// An empty input commits nothing: the keylist is empty, every counter is
/// zero, and the repository tables are untouched.
pub proof fn lemma_save_empty(bs: nat, blocks: Map<Seq<u8>, Seq<u8>>, fps: Set<u32>)
    requires
        bs >= 1,
    ensures
        scan(bs, blocks, fps, Seq::empty()) == init_state(blocks, fps),
{
    assert(scan(bs, blocks, fps, Seq::empty()) == commit_m(
        bs,
        init_state(blocks, fps),
        Seq::empty(),
    ));
}

/// Determinism: a save is a function of the repository state and the
/// input. The executable `save` is pinned to `scan` by its contract, so
/// two saves from equal block tables, fingerprint sets and inputs produce
/// equal keylists, equal stats, and equal repository updates.
pub proof fn lemma_save_deterministic(
    bs: nat,
    blocks1: Map<Seq<u8>, Seq<u8>>,
    fps1: Set<u32>,
    data1: Seq<u8>,
    blocks2: Map<Seq<u8>, Seq<u8>>,
    fps2: Set<u32>,
    data2: Seq<u8>,
)
    requires
        blocks1 == blocks2,
        fps1 == fps2,
        data1 == data2,
    ensures
        scan(bs, blocks1, fps1, data1) == scan(bs, blocks2, fps2, data2),
{
}

/// A scan whose whole input is shorter than one block is a single commit
/// of that input.
pub proof fn lemma_fill_small(bs: nat, s: ScanState, buf: Seq<u8>, rest: Seq<u8>)
    requires
        bs >= 1,
        buf.len() + rest.len() < bs,
    ensures
        scan_fill(bs, s, buf, rest) == commit_m(bs, s, buf + rest),
    decreases rest.len(),
{
    if rest.len() == 0 {
        assert(buf + rest =~= buf);
    } else {
        lemma_fill_small(bs, s, buf.push(rest.first()), rest.drop_first());
        assert(buf.push(rest.first()) + rest.drop_first() =~= buf + rest);
    }
}

/// A scan whose input reaches one block enters the slide phase with the
/// first block buffered and the remainder left to read.
pub proof fn lemma_fill_reaches_slide(bs: nat, s: ScanState, buf: Seq<u8>, rest: Seq<u8>)
    requires
        bs >= 1,
        buf.len() <= bs,
        buf.len() + rest.len() >= bs,
    ensures
        scan_fill(bs, s, buf, rest) == scan_slide(
            bs,
            s,
            (buf + rest).take(bs as int),
            (buf + rest).skip(bs as int),
        ),
    decreases rest.len(),
{
    if buf.len() < bs {
        lemma_fill_reaches_slide(bs, s, buf.push(rest.first()), rest.drop_first());
        assert(buf.push(rest.first()) + rest.drop_first() =~= buf + rest);
    } else {
        assert((buf + rest).take(bs as int) =~= buf);
        assert((buf + rest).skip(bs as int) =~= rest);
    }
}

/// One table extending a second, which extends a third.
proof fn lemma_extends_trans(
    a: Map<Seq<u8>, Seq<u8>>,
    b: Map<Seq<u8>, Seq<u8>>,
    c: Map<Seq<u8>, Seq<u8>>,
)
    requires
        table_extends(a, b),
        table_extends(b, c),
    ensures
        table_extends(a, c),
{
}

/// A save of a non-empty input shorter than one block commits it as a
/// single block and adds no fingerprint: only full-size blocks are
/// eligible for the rolling filter.
pub proof fn lemma_save_short_input(
    bs: nat,
    blocks: Map<Seq<u8>, Seq<u8>>,
    fps: Set<u32>,
    data: Seq<u8>,
)
    requires
        bs >= 1,
        0 < data.len() < bs,
    ensures
        ({
            let s = scan(bs, blocks, fps, data);
            s.fps == fps && s.keys == seq![sha256_of(data)]
        }),
{
    lemma_fill_small(bs, init_state(blocks, fps), Seq::empty(), data);
    assert(Seq::<u8>::empty() + data =~= data);
    let s = scan(bs, blocks, fps, data);
    assert(s.keys =~= seq![sha256_of(data)]);
}

/// What a scan that never leaves its first window can store: the only
/// full-size block it can add is the input's first block, and when it does
/// add that block, the scan took the end-of-input path — so its keylist is
/// exactly the first block's digest followed by the tail's, both stored,
/// and the first block's fingerprint is recorded.
pub proof fn lemma_slide_shape(bs: nat, s: ScanState, buf: Seq<u8>, rest: Seq<u8>)
    requires
        bs >= 1,
        bs <= buf.len() < 2 * bs,
        buf.len() + rest.len() < 2 * bs,
        digests_injective(),
    ensures
        ({
            let f = scan_slide(bs, s, buf, rest);
            let head = (buf + rest).take(bs as int);
            let tail = (buf + rest).skip(bs as int);
            &&& (forall|k: Seq<u8>|
                #[trigger] f.blocks.dom().contains(k) && !s.blocks.dom().contains(k)
                    && f.blocks[k].len() == bs ==> f.blocks[k] == head)
            &&& ((!s.blocks.dom().contains(sha256_of(head)) && f.blocks.dom().contains(
                sha256_of(head),
            )) ==> f.keys == s.keys + (if tail.len() == 0 {
                seq![sha256_of(head)]
            } else {
                seq![sha256_of(head), sha256_of(tail)]
            }) && (tail.len() > 0 ==> f.blocks.dom().contains(sha256_of(tail)))
                && f.fps.contains(adler32_of(head)))
        }),
    decreases rest.len(),
{
    let f = scan_slide(bs, s, buf, rest);
    let head = (buf + rest).take(bs as int);
    let tail = (buf + rest).skip(bs as int);
    let window = buf.subrange(buf.len() - bs, buf.len() as int);
    if s.fps.contains(adler32_of(window)) && s.blocks.dom().contains(sha256_of(window)) {
        // A match commits only the short prefix and the short remainder;
        // the window itself is already stored.
        let prefix = buf.subrange(0, buf.len() - bs);
        let s1 = commit_m(bs, s, prefix);
        let s2 = commit_m(bs, s1, window);
        lemma_commit_props(bs, s, prefix);
        lemma_commit_props(bs, s1, window);
        lemma_fill_small(bs, s2, Seq::empty(), rest);
        assert(Seq::<u8>::empty() + rest =~= rest);
        assert(f == commit_m(bs, s2, rest));
        assert(s2.blocks == s1.blocks);
        assert forall|k: Seq<u8>|
            #[trigger] f.blocks.dom().contains(k) && !s.blocks.dom().contains(k)
                && f.blocks[k].len() == bs implies f.blocks[k] == head by {
            if s1.blocks.dom().contains(k) {
                assert(k == sha256_of(prefix) && s1.blocks[k] == prefix);
                assert(f.blocks[k] == prefix);
                assert(prefix.len() < bs);
            } else {
                assert(k == sha256_of(rest) && f.blocks[k] == rest);
                assert(rest.len() < bs);
            }
        }
        if !s.blocks.dom().contains(sha256_of(head)) && f.blocks.dom().contains(
            sha256_of(head),
        ) {
            let k = sha256_of(head);
            if s1.blocks.dom().contains(k) {
                assert(k == sha256_of(prefix));
                assert(head == prefix);
                assert(false);
            } else {
                assert(k == sha256_of(rest));
                assert(head == rest);
                assert(false);
            }
        }
    } else {
        let sx = if s.fps.contains(adler32_of(window)) {
            ScanState { roll_false: s.roll_false + 1, ..s }
        } else {
            s
        };
        assert(f == scan_extend(bs, sx, buf, rest));
        if rest.len() == 0 {
            assert(buf + rest =~= buf);
            assert(head =~= buf.take(bs as int));
            assert(tail =~= buf.skip(bs as int));
            let c1 = commit_m(bs, sx, buf.take(bs as int));
            lemma_commit_props(bs, sx, buf.take(bs as int));
            lemma_commit_props(bs, c1, buf.skip(bs as int));
            assert(f == commit_m(bs, c1, buf.skip(bs as int)));
            assert forall|k: Seq<u8>|
                #[trigger] f.blocks.dom().contains(k) && !s.blocks.dom().contains(k)
                    && f.blocks[k].len() == bs implies f.blocks[k] == head by {
                if c1.blocks.dom().contains(k) {
                    assert(k == sha256_of(head) && c1.blocks[k] == head);
                    assert(f.blocks[k] == head);
                } else {
                    assert(k == sha256_of(tail) && f.blocks[k] == tail);
                    assert(tail.len() < bs);
                }
            }
            if !s.blocks.dom().contains(sha256_of(head)) && f.blocks.dom().contains(
                sha256_of(head),
            ) {
                // The first block was newly stored here: the scan reached
                // the end of the input without a match.
                assert(c1.blocks == sx.blocks.insert(sha256_of(head), head));
                assert(c1.fps.contains(adler32_of(head)));
                assert(c1.keys == s.keys.push(sha256_of(head)));
                if tail.len() == 0 {
                    assert(f == c1);
                    assert(f.keys =~= s.keys + seq![sha256_of(head)]);
                } else {
                    assert(f.keys == c1.keys.push(sha256_of(tail)));
                    assert(f.keys =~= s.keys + seq![sha256_of(head), sha256_of(tail)]);
                    assert(f.blocks.dom().contains(sha256_of(tail)));
                }
            }
        } else {
            let grown = buf.push(rest.first());
            assert(grown.len() < 2 * bs);
            assert(f == scan_slide(bs, sx, grown, rest.drop_first()));
            lemma_slide_shape(bs, sx, grown, rest.drop_first());
            assert(grown + rest.drop_first() =~= buf + rest);
        }
    }
}

/// A scan over a repository that already holds everything a first scan of
/// the same window stored — and agrees with the first scan's starting
/// tables on which full-size blocks exist — takes the same branch at every
/// alignment, commits the same blocks, and finds each one already stored.
pub proof fn lemma_slide_lockstep(bs: nat, s: ScanState, t: ScanState, buf: Seq<u8>, rest: Seq<u8>)
    requires
        bs >= 1,
        bs <= buf.len() < 2 * bs,
        buf.len() + rest.len() < 2 * bs,
        digests_injective(),
        repo_inv(bs, s.blocks, s.fps),
        repo_inv(bs, t.blocks, t.fps),
        forall|w: Seq<u8>|
            w.len() == bs ==> (t.blocks.dom().contains(#[trigger] sha256_of(w))
                <==> s.blocks.dom().contains(sha256_of(w))),
        table_extends(scan_slide(bs, s, buf, rest).blocks, t.blocks),
    ensures
        ({
            let f = scan_slide(bs, s, buf, rest);
            let g = scan_slide(bs, t, buf, rest);
            &&& g.new_blocks == t.new_blocks
            &&& g.new_bytes == t.new_bytes
            &&& g.dup_bytes == t.dup_bytes + buf.len() + rest.len()
            &&& g.keys == t.keys + f.keys.skip(s.keys.len() as int)
            &&& g.dup_blocks == t.dup_blocks + f.keys.len() - s.keys.len()
        }),
    decreases rest.len(),
{
    let f = scan_slide(bs, s, buf, rest);
    let g = scan_slide(bs, t, buf, rest);
    let window = buf.subrange(buf.len() - bs, buf.len() as int);
    let wk = sha256_of(window);
    // Either run matches exactly when its block table stores the window:
    // a stored window is full-size, so its fingerprint is recorded too.
    if s.blocks.dom().contains(wk) {
        assert(s.blocks[wk] == window);
        assert(s.fps.contains(adler32_of(window)));
        assert(t.blocks.dom().contains(wk));
        assert(t.blocks[wk] == window);
        assert(t.fps.contains(adler32_of(window)));
        let prefix = buf.subrange(0, buf.len() - bs);
        let s1 = commit_m(bs, s, prefix);
        let s2 = commit_m(bs, s1, window);
        let t1 = commit_m(bs, t, prefix);
        let t2 = commit_m(bs, t1, window);
        lemma_commit_props(bs, s, prefix);
        lemma_commit_props(bs, s1, window);
        lemma_commit_props(bs, t, prefix);
        lemma_commit_props(bs, t1, window);
        lemma_fill_small(bs, s2, Seq::empty(), rest);
        lemma_fill_small(bs, t2, Seq::empty(), rest);
        assert(Seq::<u8>::empty() + rest =~= rest);
        assert(f == commit_m(bs, s2, rest));
        assert(g == commit_m(bs, t2, rest));
        lemma_fill_props(bs, s2, Seq::empty(), rest);
        // every block this step commits ends up stored by the first run,
        // so the second run sees each one as a duplicate
        if prefix.len() > 0 {
            assert(s1.blocks.dom().contains(sha256_of(prefix)));
            lemma_extends_trans(s1.blocks, s2.blocks, f.blocks);
            assert(t.blocks.dom().contains(sha256_of(prefix)));
        }
        if rest.len() > 0 {
            assert(f.blocks.dom().contains(sha256_of(rest)));
            assert(t.blocks.dom().contains(sha256_of(rest)));
            assert(t2.blocks == t.blocks);
            assert(t2.blocks.dom().contains(sha256_of(rest)));
        }
        let commits = (if prefix.len() > 0 {
            seq![sha256_of(prefix)]
        } else {
            Seq::<Seq<u8>>::empty()
        }) + seq![wk] + (if rest.len() > 0 {
            seq![sha256_of(rest)]
        } else {
            Seq::<Seq<u8>>::empty()
        });
        assert(f.keys =~= s.keys + commits);
        assert(g.keys =~= t.keys + commits);
        assert(f.keys.skip(s.keys.len() as int) =~= commits);
        assert(prefix.len() + window.len() == buf.len());
    } else {
        assert(!t.blocks.dom().contains(wk));
        let sx = if s.fps.contains(adler32_of(window)) {
            ScanState { roll_false: s.roll_false + 1, ..s }
        } else {
            s
        };
        let tx = if t.fps.contains(adler32_of(window)) {
            ScanState { roll_false: t.roll_false + 1, ..t }
        } else {
            t
        };
        assert(f == scan_extend(bs, sx, buf, rest));
        assert(g == scan_extend(bs, tx, buf, rest));
        if rest.len() == 0 {
            let bh = buf.take(bs as int);
            let bt = buf.skip(bs as int);
            let c1 = commit_m(bs, sx, bh);
            let d1 = commit_m(bs, tx, bh);
            lemma_commit_props(bs, sx, bh);
            lemma_commit_props(bs, c1, bt);
            lemma_commit_props(bs, tx, bh);
            lemma_commit_props(bs, d1, bt);
            assert(f == commit_m(bs, c1, bt));
            assert(g == commit_m(bs, d1, bt));
            assert(c1.blocks.dom().contains(sha256_of(bh)));
            assert(t.blocks.dom().contains(sha256_of(bh)));
            if bt.len() > 0 {
                assert(f.blocks.dom().contains(sha256_of(bt)));
                assert(t.blocks.dom().contains(sha256_of(bt)));
                assert(d1.blocks == t.blocks);
            }
            let commits = seq![sha256_of(bh)] + (if bt.len() > 0 {
                seq![sha256_of(bt)]
            } else {
                Seq::<Seq<u8>>::empty()
            });
            assert(f.keys =~= s.keys + commits);
            assert(g.keys =~= t.keys + commits);
            assert(f.keys.skip(s.keys.len() as int) =~= commits);
            assert(bh.len() + bt.len() == buf.len());
        } else {
            let grown = buf.push(rest.first());
            assert(grown.len() < 2 * bs);
            assert(f == scan_slide(bs, sx, grown, rest.drop_first()));
            assert(g == scan_slide(bs, tx, grown, rest.drop_first()));
            lemma_slide_lockstep(bs, sx, tx, grown, rest.drop_first());
        }
    }
}

/// Idempotent re-save, for inputs shorter than the scanner's full window
/// of two blocks: saving the same bytes again, right after a save of them,
/// stores nothing new — the second save reports zero new blocks and bytes,
/// counts the whole input as duplicate, and writes the same keylist as the
/// first save. (For longer inputs the two scans can fall out of alignment:
/// the second save may match a block that the first save stored at a
/// different offset and then commit a short block the first save never
/// formed, so the guarantee is stated for inputs within one window.)
pub proof fn lemma_resave_short(bs: nat, blocks: Map<Seq<u8>, Seq<u8>>, fps: Set<u32>, data: Seq<u8>)
    requires
        bs >= 1,
        data.len() < 2 * bs,
        digests_injective(),
        repo_inv(bs, blocks, fps),
    ensures
        ({
            let s1 = scan(bs, blocks, fps, data);
            let s2 = scan(bs, s1.blocks, s1.fps, data);
            &&& s2.new_blocks == 0
            &&& s2.new_bytes == 0
            &&& s2.dup_bytes == data.len()
            &&& s2.dup_blocks == s1.keys.len()
            &&& s2.keys == s1.keys
        }),
{
    let s0 = init_state(blocks, fps);
    let s1 = scan(bs, blocks, fps, data);
    let t0 = init_state(s1.blocks, s1.fps);
    let s2 = scan(bs, s1.blocks, s1.fps, data);
    lemma_fill_props(bs, s0, Seq::empty(), data);
    if data.len() == 0 {
        lemma_save_empty(bs, blocks, fps);
        lemma_save_empty(bs, s1.blocks, s1.fps);
    } else if data.len() < bs {
        let key = sha256_of(data);
        lemma_fill_small(bs, s0, Seq::empty(), data);
        lemma_fill_small(bs, t0, Seq::empty(), data);
        assert(Seq::<u8>::empty() + data =~= data);
        assert(s1 == commit_m(bs, s0, data));
        assert(s2 == commit_m(bs, t0, data));
        assert(s1.blocks.dom().contains(key));
        assert(s1.keys =~= seq![key]);
        assert(s2.keys =~= seq![key]);
    } else {
        lemma_fill_reaches_slide(bs, s0, Seq::empty(), data);
        lemma_fill_reaches_slide(bs, t0, Seq::empty(), data);
        assert(Seq::<u8>::empty() + data =~= data);
        let head = data.take(bs as int);
        let tail = data.skip(bs as int);
        let hk = sha256_of(head);
        assert(s1 == scan_slide(bs, s0, head, tail));
        assert(s2 == scan_slide(bs, t0, head, tail));
        assert(head + tail =~= data);
        lemma_slide_props(bs, s0, head, tail);
        lemma_slide_shape(bs, s0, head, tail);
        assert((head + tail).take(bs as int) =~= head);
        assert((head + tail).skip(bs as int) =~= tail);
        if blocks.dom().contains(hk) {
            // The repository already stores the first block, so both scans
            // match it at the first alignment and then commit the tail.
            assert(blocks[hk] == head);
            assert(fps.contains(adler32_of(head)));
            lemma_match_at_first(bs, s0, head, tail);
            let c1 = commit_m(bs, s0, head);
            lemma_commit_props(bs, s0, head);
            assert(s1 == commit_m(bs, c1, tail));
            lemma_commit_props(bs, c1, tail);
            assert(t0.blocks.dom().contains(hk));
            assert(t0.fps.contains(adler32_of(head)));
            lemma_match_at_first(bs, t0, head, tail);
            let d1 = commit_m(bs, t0, head);
            assert(s2 == commit_m(bs, d1, tail));
            assert(d1.blocks == t0.blocks);
            if tail.len() > 0 {
                assert(s1.blocks.dom().contains(sha256_of(tail)));
                assert(d1.blocks.dom().contains(sha256_of(tail)));
                assert(s1.keys =~= seq![hk, sha256_of(tail)]);
                assert(s2.keys =~= seq![hk, sha256_of(tail)]);
            } else {
                assert(s1.keys =~= seq![hk]);
                assert(s2.keys =~= seq![hk]);
            }
        } else if s1.blocks.dom().contains(hk) {
            // The first scan stored the first block itself, which happens
            // only on its end-of-input path; the second scan matches that
            // block at the first alignment and then commits the tail.
            assert(s1.keys == s0.keys + (if tail.len() == 0 {
                seq![hk]
            } else {
                seq![hk, sha256_of(tail)]
            }));
            assert(s1.fps.contains(adler32_of(head)));
            lemma_match_at_first(bs, t0, head, tail);
            let d1 = commit_m(bs, t0, head);
            assert(s2 == commit_m(bs, d1, tail));
            assert(d1.blocks == t0.blocks);
            if tail.len() > 0 {
                assert(s1.blocks.dom().contains(sha256_of(tail)));
                assert(d1.blocks.dom().contains(sha256_of(tail)));
                assert(s2.keys =~= t0.keys + seq![hk, sha256_of(tail)]);
                assert(s1.keys =~= s0.keys + seq![hk, sha256_of(tail)]);
            } else {
                assert(s2.keys =~= t0.keys + seq![hk]);
                assert(s1.keys =~= s0.keys + seq![hk]);
            }
        } else {
            // Neither table stores the first block, so the first scan
            // added no full-size block at all, the two scans agree on
            // every alignment, and the second finds each commit stored.
            assert forall|w: Seq<u8>|
                w.len() == bs implies (t0.blocks.dom().contains(#[trigger] sha256_of(w))
                <==> s0.blocks.dom().contains(sha256_of(w))) by {
                if t0.blocks.dom().contains(sha256_of(w)) && !s0.blocks.dom().contains(
                    sha256_of(w),
                ) {
                    assert(repo_inv(bs, s1.blocks, s1.fps));
                    assert(s1.blocks[sha256_of(w)] == w);
                    assert(w == head);
                }
            }
            lemma_slide_lockstep(bs, s0, t0, head, tail);
            assert(s2.keys =~= s1.keys.skip(0));
            assert(s1.keys.skip(0) =~= s1.keys);
        }
    }
}

/// A scan whose starting tables store the buffered first block — digest
/// and fingerprint both — matches it at the first alignment: the block is
/// committed as a duplicate and the remainder of the input as one block.
proof fn lemma_match_at_first(bs: nat, s: ScanState, head: Seq<u8>, rest: Seq<u8>)
    requires
        bs >= 1,
        head.len() == bs,
        rest.len() < bs,
        s.blocks.dom().contains(sha256_of(head)),
        s.fps.contains(adler32_of(head)),
    ensures
        scan_slide(bs, s, head, rest) == commit_m(bs, commit_m(bs, s, head), rest),
{
    let window = head.subrange(head.len() - bs, head.len() as int);
    assert(window =~= head);
    let prefix = head.subrange(0, head.len() - bs);
    assert(prefix =~= Seq::<u8>::empty());
    assert(commit_m(bs, s, prefix) == s);
    let c = commit_m(bs, s, head);
    assert(scan_slide(bs, s, head, rest) == scan_fill(bs, c, Seq::empty(), rest));
    lemma_fill_small(bs, c, Seq::empty(), rest);
    assert(Seq::<u8>::empty() + rest =~= rest);
}

} // verus!
