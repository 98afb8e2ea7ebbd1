use memoryfs::filesystem::error::FsError;
use memoryfs::filesystem::memory_fs::MemoryFS;
use std::sync::{Arc, Mutex};

fn create_under_lock(fs: &Arc<Mutex<MemoryFS>>, name: &str) -> Result<u64, FsError> {
    let mut table = fs.lock().unwrap();
    table.create(1, name).map(|r| r.attr.ino)
}

#[test]
fn two_creates_of_one_name_under_the_lock() {
    let fs = Arc::new(Mutex::new(MemoryFS::default()));
    let first_caller = Arc::clone(&fs);
    let second_caller = Arc::clone(&fs);
    let results = vec![create_under_lock(&second_caller, "same"), create_under_lock(&first_caller, "same")];
    let won = results.iter().filter(|r| r.is_ok()).count();
    let lost = results.iter().filter(|r| **r == Err(FsError::AlreadyExists)).count();
    assert_eq!(won, 1);
    assert_eq!(lost, 1);
    let table = fs.lock().unwrap();
    let items = table.readdir(1, 0).unwrap();
    assert_eq!(items.len(), 3);
    assert_eq!(items[2].name, "same");
    assert_eq!(items[2].ino, 2);
    assert_eq!(table.lookup(1, "same").unwrap().attr.ino, 2);
    assert_eq!(table.statfs(0, 0).ffree, 1000000 - 3);
}
