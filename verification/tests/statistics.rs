use memoryfs::filesystem::memory_fs::MemoryFS;
use memoryfs::filesystem::statfs::{statistics, StatfsReply};

#[test]
fn statfs_reports_memory_in_blocks() {
    let fs = MemoryFS::default();
    let r = fs.statfs(1024 * 1024, 512 * 1024 + 511);
    assert_eq!(
        r,
        StatfsReply {
            blocks: 2048,
            bfree: 1024,
            bavail: 1024,
            files: 1000000,
            ffree: 999998,
            bsize: 512,
            namelen: 255,
            frsize: 0,
        }
    );
}

#[test]
fn statfs_counts_the_ids_handed_out() {
    let mut fs = MemoryFS::default();
    fs.create(1, "a").unwrap();
    fs.mkdir(1, "b").unwrap();
    fs.unlink(1, "a").unwrap();
    assert_eq!(fs.statfs(0, 0).ffree, 999996);
    assert_eq!(fs.statfs(0, 0).blocks, 0);
}

#[test]
fn statfs_total_is_at_least_free() {
    for (total, available) in [(0u64, 0u64), (511, 511), (512, 0), (u64::MAX, u64::MAX), (4096, 1000)] {
        let r = statistics(total, available, 2);
        assert!(r.blocks >= r.bfree);
        assert_eq!(r.bfree, r.bavail);
        assert_eq!(r.blocks, total / 512);
        assert_eq!(r.bfree, available / 512);
    }
}

#[test]
fn statfs_has_no_free_ids_past_the_total() {
    assert_eq!(statistics(0, 0, 1000000).ffree, 0);
    assert_eq!(statistics(0, 0, 999999).ffree, 1);
    assert_eq!(statistics(0, 0, 1000001).ffree, 0);
    assert_eq!(statistics(0, 0, u64::MAX).ffree, 0);
}
