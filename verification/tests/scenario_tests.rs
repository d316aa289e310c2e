use adler32::RollingAdler32;
use crypto::digest::Digest;
use crypto::sha2::Sha256;
use dedup::{MemoryRepo, Repo, Store, load, save};

fn sha256_bytes(data: &[u8]) -> Vec<u8> {
    let mut hasher = Sha256::new();
    hasher.input(data);
    let mut digest: Vec<u8> = vec![0; 32];
    hasher.result(&mut digest);
    digest
}

#[test]
fn empty_input_round_trip() {
    let mut store = Store::new(4);
    let stats = store.save("e", b"").unwrap();
    assert_eq!(stats.new_blocks, 0);
    assert_eq!(stats.new_bytes, 0);
    assert_eq!(stats.dup_blocks, 0);
    assert_eq!(stats.dup_bytes, 0);
    assert_eq!(stats.roll_false, 0);
    assert_eq!(store.load("e").unwrap(), Vec::<u8>::new());
}

#[test]
fn short_input_single_block() {
    let mut repo = MemoryRepo::new(4);
    let fp = RollingAdler32::from_buffer(b"hi").hash();
    let stats = save(&mut repo, "t", b"hi").unwrap();
    assert_eq!(stats.new_blocks, 1);
    assert_eq!(stats.new_bytes, 2);
    assert_eq!(stats.dup_blocks, 0);
    assert_eq!(stats.dup_bytes, 0);
    // A block shorter than the block size is not fingerprinted.
    assert!(!repo.contains_hash(fp));
    assert_eq!(load(&repo, "t").unwrap(), b"hi".to_vec());
}

#[test]
fn full_block_is_fingerprinted_and_content_addressed() {
    let mut repo = MemoryRepo::new(4);
    let fp = RollingAdler32::from_buffer(b"wxyz").hash();
    assert!(!repo.contains_hash(fp));
    let stats = save(&mut repo, "w", b"wxyz").unwrap();
    assert_eq!(stats.new_blocks, 1);
    assert_eq!(stats.new_bytes, 4);
    assert!(repo.contains_hash(fp));
    assert!(repo.contains_block(&sha256_bytes(b"wxyz")));
}

#[test]
fn pure_duplication() {
    let mut store = Store::new(4);
    let payload = b"AAAABBBBAAAABBBB";
    store.save("x", payload).unwrap();
    let stats = store.save("y", payload).unwrap();
    assert_eq!(stats.new_blocks, 0);
    assert_eq!(stats.new_bytes, 0);
    assert_eq!(stats.dup_bytes, payload.len());
    assert_eq!(store.load("y").unwrap(), payload.to_vec());
}

#[test]
fn shifted_duplication() {
    let mut store = Store::new(4);
    store.save("base", b"AAAABBBBCCCC").unwrap();
    let stats = store.save("shifted", b"ZZAAAABBBBCCCC").unwrap();
    // The rolling filter rediscovers the three stored runs two bytes in.
    assert!(stats.dup_blocks >= 3);
    assert_eq!(stats.dup_bytes, 12);
    assert_eq!(stats.new_blocks, 1);
    assert_eq!(stats.new_bytes, 2);
    assert_eq!(store.load("shifted").unwrap(), b"ZZAAAABBBBCCCC".to_vec());
}

#[test]
fn resave_short_input_is_idempotent() {
    let mut store = Store::new(4);
    store.save("a", b"hi").unwrap();
    let stats = store.save("b", b"hi").unwrap();
    assert_eq!(stats.new_blocks, 0);
    assert_eq!(stats.new_bytes, 0);
    assert_eq!(stats.dup_blocks, 1);
    assert_eq!(stats.dup_bytes, 2);
    assert_eq!(store.load("a").unwrap(), b"hi".to_vec());
    assert_eq!(store.load("b").unwrap(), b"hi".to_vec());
}

#[test]
fn resave_below_window_is_idempotent() {
    let mut store = Store::new(4);
    let first = store.save("a", b"hello!").unwrap();
    assert_eq!(first.new_blocks, 2);
    let stats = store.save("b", b"hello!").unwrap();
    assert_eq!(stats.new_blocks, 0);
    assert_eq!(stats.new_bytes, 0);
    assert_eq!(stats.dup_blocks, 2);
    assert_eq!(stats.dup_bytes, 6);
    assert_eq!(store.load("b").unwrap(), b"hello!".to_vec());
}

#[test]
fn save_is_deterministic() {
    let input = "the quick brown fox jumps over the lazy dog".as_bytes();
    let mut one = Store::new(4);
    let mut two = Store::new(4);
    let s1 = one.save("fox", input).unwrap();
    let s2 = two.save("fox", input).unwrap();
    assert_eq!(s1.new_blocks, s2.new_blocks);
    assert_eq!(s1.new_bytes, s2.new_bytes);
    assert_eq!(s1.dup_blocks, s2.dup_blocks);
    assert_eq!(s1.dup_bytes, s2.dup_bytes);
    assert_eq!(s1.roll_false, s2.roll_false);
    assert_eq!(one.load("fox").unwrap(), two.load("fox").unwrap());
}

#[test]
fn stats_account_for_every_byte() {
    let mut store = Store::new(4);
    let input = b"abcdefghijkl";
    let stats = store.save("letters", input).unwrap();
    assert_eq!(stats.new_bytes + stats.dup_bytes, input.len());
    assert_eq!(stats.new_blocks + stats.dup_blocks as u32, 3);
    assert_eq!(stats.roll_false, 0);
    assert_eq!(store.load("letters").unwrap(), input.to_vec());
}

#[test]
fn tail_shorter_than_block_round_trips() {
    let mut store = Store::new(4);
    let input = b"abcdefghij";
    let stats = store.save("tail", input).unwrap();
    assert_eq!(stats.new_blocks, 3);
    assert_eq!(stats.new_bytes, 10);
    assert_eq!(store.load("tail").unwrap(), input.to_vec());
}

#[test]
fn resave_name_replaces_entry() {
    let mut store = Store::new(4);
    store.save("n", b"first contents").unwrap();
    store.save("n", b"second contents").unwrap();
    assert_eq!(store.load("n").unwrap(), b"second contents".to_vec());
}
