use dedup::errors::{CorruptDatabaseError, LoadError, NotFoundError};
use dedup::{MemoryRepo, load, save};

#[test]
fn memory_repo_single_small_file() {
    let mut repo = MemoryRepo::new(4);
    let fox = "the quick brown fox jumps over the lazy dog".as_bytes();
    save(&mut repo, "fox", fox).unwrap();
    assert_eq!(load(&repo, "fox").unwrap(), fox);
}

#[test]
fn memory_repo_two_small_files() {
    let mut repo = MemoryRepo::new(4);
    let fox_one = "the quick brown fox jumps over the lazy dog".as_bytes();
    let fox_two = "the qqq brown rabbit jumpd over the lazy dog".as_bytes();
    save(&mut repo, "fox_one", fox_one).unwrap();
    save(&mut repo, "fox_two", fox_two).unwrap();
    assert_eq!(load(&repo, "fox_one").unwrap(), fox_one);
    assert_eq!(load(&repo, "fox_two").unwrap(), fox_two);
}

#[test]
fn memory_repo_not_found_error() {
    let repo = MemoryRepo::new(4);
    let rv = load(&repo, "no such file");
    match rv {
        Err(LoadError::NotFound(NotFoundError {})) => (),
        _ => panic!("should fail with NotFoundError"),
    };
}

#[test]
fn memory_repo_corrupt_db_error() {
    let mut repo = MemoryRepo::new(4);
    let fox = "the quick brown fox jumps over the lazy dog".as_bytes();
    save(&mut repo, "fox", fox).unwrap();
    repo.clear_blocks();
    let rv = load(&repo, "fox");
    match rv {
        Err(LoadError::CorruptDatabase(CorruptDatabaseError {})) => (),
        _ => panic!("should fail with CorruptDatabase error"),
    };
}

#[test]
fn repo_single_small_file() {
    let mut repo = MemoryRepo::new(4);
    let fox = "the quick brown fox jumps over the lazy dog".as_bytes();
    save(&mut repo, "fox", fox).unwrap();
    assert_eq!(load(&repo, "fox").unwrap(), fox);
}

#[test]
fn repo_two_small_files() {
    let mut repo = MemoryRepo::new(4);
    let fox_one = "the quick brown fox jumps over the lazy dog".as_bytes();
    let fox_two = "the qqq brown rabbit jumpd over the lazy dog".as_bytes();
    save(&mut repo, "fox_one", fox_one).unwrap();
    save(&mut repo, "fox_two", fox_two).unwrap();
    assert_eq!(load(&repo, "fox_one").unwrap(), fox_one);
    assert_eq!(load(&repo, "fox_two").unwrap(), fox_two);
}

#[test]
fn repo_not_found_error() {
    let repo = MemoryRepo::new(4);
    let rv = load(&repo, "no such file");
    match rv {
        Err(LoadError::NotFound(NotFoundError {})) => (),
        _ => panic!("should fail with NotFoundError"),
    };
}

#[test]
fn repo_corrupt_db_error() {
    let mut repo = MemoryRepo::new(4);
    let fox = "the quick brown fox jumps over the lazy dog".as_bytes();
    save(&mut repo, "fox", fox).unwrap();
    repo.clear_blocks();
    let rv = load(&repo, "fox");
    match rv {
        Err(LoadError::CorruptDatabase(CorruptDatabaseError {})) => (),
        _ => panic!("should fail with CorruptDatabase error"),
    };
}
