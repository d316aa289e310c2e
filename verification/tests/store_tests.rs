use dedup::Store;

#[test]
fn main_single_small_file() {
    let mut store = Store::new(4);
    let fox = "the quick brown fox jumps over the lazy dog".as_bytes();
    store.save("fox", fox).unwrap();
    assert_eq!(store.load("fox").unwrap(), fox);
}

#[test]
fn main_two_small_files() {
    let mut store = Store::new(4);
    let fox_one = "the quick brown fox jumps over the lazy dog".as_bytes();
    let fox_two = "the quack brewn fox jumped over lazy dog".as_bytes();
    store.save("fox_one", fox_one).unwrap();
    store.save("fox_two", fox_two).unwrap();
    assert_eq!(store.load("fox_one").unwrap(), fox_one);
    assert_eq!(store.load("fox_two").unwrap(), fox_two);
}

#[test]
fn store_single_small_file() {
    let mut store = Store::new(4);
    let fox = "the quick brown fox jumps over the lazy dog".as_bytes();
    store.save("fox", fox).unwrap();
    assert_eq!(store.load("fox").unwrap(), fox);
}

#[test]
fn store_two_small_files() {
    let mut store = Store::new(4);
    let fox_one = "the quick brown fox jumps over the lazy dog".as_bytes();
    let fox_two = "the qqq brown rabbit jumpd over the lazy dog".as_bytes();
    store.save("fox_one", fox_one).unwrap();
    store.save("fox_two", fox_two).unwrap();
    assert_eq!(store.load("fox_one").unwrap(), fox_one);
    assert_eq!(store.load("fox_two").unwrap(), fox_two);
}
