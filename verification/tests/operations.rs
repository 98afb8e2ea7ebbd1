use memoryfs::filesystem::attr::{AttrReply, FileAttr, TTL_SECS};
use memoryfs::filesystem::error::FsError;
use memoryfs::filesystem::inter::node::{FileKind, Node};
use memoryfs::filesystem::memory_fs::MemoryFS;
use memoryfs::filesystem::outcome::{DirItem, RENAME_NOREPLACE};
use std::collections::HashMap;

fn names(items: &[DirItem]) -> Vec<String> {
    items.iter().map(|i| i.name.clone()).collect()
}

fn ids(items: &[DirItem]) -> Vec<u64> {
    items.iter().map(|i| i.ino).collect()
}

fn indices(items: &[DirItem]) -> Vec<u64> {
    items.iter().map(|i| i.index).collect()
}

fn attr_of(fs: &MemoryFS, ino: u64) -> FileAttr {
    fs.getattr(ino).unwrap().attr
}

#[test]
fn root_starts_with_zero_children() {
    let fs = MemoryFS::new(HashMap::new());
    let items = fs.readdir(1, 0).unwrap();
    assert_eq!(names(&items), vec![".".to_string(), "..".to_string()]);
    assert_eq!(ids(&items), vec![1, 0]);
    assert_eq!(indices(&items), vec![1, 2]);
    let root = attr_of(&fs, 1);
    assert_eq!(root.kind, FileKind::Directory);
    assert_eq!(root.size, 0);
    assert_eq!(root.ino, 1);
}

#[test]
fn default_is_a_fresh_filesystem() {
    let fs = MemoryFS::default();
    assert_eq!(fs.readdir(1, 0).unwrap().len(), 2);
    assert_eq!(fs.getattr(2), Err(FsError::NotFound));
}

#[test]
fn round_trip_create_write_read() {
    let mut fs = MemoryFS::default();
    let created = fs.create(1, "f").unwrap();
    let id = created.attr.ino;
    assert_eq!(fs.write(id, 0, b"hello"), Ok(5));
    assert_eq!(fs.read(id, 0, 5), Ok(b"hello".to_vec()));
    assert_eq!(attr_of(&fs, id).size, 5);
}

#[test]
fn scenario_mkdir_create_write_with_gap() {
    let mut fs = MemoryFS::default();
    assert_eq!(fs.readdir(1, 0).unwrap().len(), 2);
    let dir = fs.mkdir(1, "a").unwrap();
    let dir_id = dir.attr.ino;
    assert!(dir_id > 1);
    assert_eq!(dir.attr.kind, FileKind::Directory);
    let file = fs.create(dir_id, "b.txt").unwrap();
    let file_id = file.attr.ino;
    assert!(file_id > dir_id);
    assert_eq!(file.attr.kind, FileKind::RegularFile);
    assert_eq!(file.attr.size, 0);
    assert_eq!(fs.write(file_id, 2, b"xyz"), Ok(3));
    assert_eq!(attr_of(&fs, file_id).size, 5);
    assert_eq!(fs.read(file_id, 0, 100), Ok(vec![0, 0, b'x', b'y', b'z']));
}

#[test]
fn create_reply_carries_the_handle_and_the_fixed_fields() {
    let mut fs = MemoryFS::default();
    let r = fs.create(1, "f").unwrap();
    assert_eq!(r.ttl, 1);
    assert_eq!(r.generation, 0);
    assert_eq!(r.fh, 2);
    assert_eq!(r.flags, 0);
    assert_eq!(
        r.attr,
        FileAttr {
            ino: 2,
            size: 0,
            blocks: 1,
            atime: 0,
            mtime: 0,
            ctime: 0,
            crtime: 0,
            kind: FileKind::RegularFile,
            perm: 0o777,
            nlink: 1,
            uid: 501,
            gid: 20,
            rdev: 0,
            flags: 0,
            blksize: 512,
        }
    );
}

#[test]
fn mkdir_reply_and_getattr_agree() {
    let mut fs = MemoryFS::default();
    let r = fs.mkdir(1, "d").unwrap();
    assert_eq!(r.ttl, TTL_SECS);
    assert_eq!(r.generation, 0);
    assert_eq!(fs.getattr(2), Ok(AttrReply { ttl: 1, attr: r.attr }));
    assert_eq!(fs.lookup(1, "d"), Ok(r));
}

#[test]
fn creating_the_same_name_twice_collides() {
    let mut fs = MemoryFS::default();
    assert!(fs.create(1, "f").is_ok());
    assert_eq!(fs.create(1, "f"), Err(FsError::AlreadyExists));
    assert_eq!(fs.mkdir(1, "f"), Err(FsError::AlreadyExists));
    assert!(fs.mkdir(1, "d").is_ok());
    assert_eq!(fs.mkdir(1, "d"), Err(FsError::AlreadyExists));
    assert_eq!(fs.create(1, "d"), Err(FsError::AlreadyExists));
    assert_eq!(fs.readdir(1, 0).unwrap().len(), 4);
}

#[test]
fn creation_under_what_is_no_directory_fails() {
    let mut fs = MemoryFS::default();
    assert_eq!(fs.create(7, "f"), Err(FsError::NotFound));
    assert_eq!(fs.mkdir(7, "d"), Err(FsError::NotFound));
    let file = fs.create(1, "f").unwrap().attr.ino;
    assert_eq!(fs.create(file, "g"), Err(FsError::InvalidArgument));
    assert_eq!(fs.mkdir(file, "g"), Err(FsError::InvalidArgument));
    assert_eq!(fs.getattr(3), Err(FsError::NotFound));
}

#[test]
fn lookup_fails_with_not_found() {
    let mut fs = MemoryFS::default();
    let file = fs.create(1, "f").unwrap().attr.ino;
    assert_eq!(fs.lookup(1, "g"), Err(FsError::NotFound));
    assert_eq!(fs.lookup(9, "f"), Err(FsError::NotFound));
    assert_eq!(fs.lookup(file, "f"), Err(FsError::NotFound));
    assert_eq!(fs.lookup(1, "f").unwrap().attr.ino, file);
}

#[test]
fn unlink_removes_name_and_id() {
    let mut fs = MemoryFS::default();
    let id = fs.create(1, "f").unwrap().attr.ino;
    assert_eq!(fs.unlink(1, "f"), Ok(()));
    assert_eq!(fs.lookup(1, "f"), Err(FsError::NotFound));
    assert_eq!(fs.getattr(id), Err(FsError::NotFound));
    assert_eq!(fs.read(id, 0, 1), Err(FsError::NotFound));
    assert_eq!(fs.unlink(1, "f"), Err(FsError::NotFound));
    assert_eq!(fs.unlink(5, "f"), Err(FsError::NotFound));
}

#[test]
fn unlink_refuses_a_directory_and_rmdir_a_file() {
    let mut fs = MemoryFS::default();
    fs.mkdir(1, "d").unwrap();
    fs.create(1, "f").unwrap();
    assert_eq!(fs.unlink(1, "d"), Err(FsError::InvalidArgument));
    assert_eq!(fs.rmdir(1, "f"), Err(FsError::InvalidArgument));
    assert_eq!(fs.rmdir(1, "x"), Err(FsError::NotFound));
    assert_eq!(fs.rmdir(9, "d"), Err(FsError::NotFound));
    assert!(fs.lookup(1, "d").is_ok());
    assert!(fs.lookup(1, "f").is_ok());
}

#[test]
fn ids_are_never_handed_out_again() {
    let mut fs = MemoryFS::default();
    assert_eq!(fs.create(1, "f").unwrap().attr.ino, 2);
    fs.unlink(1, "f").unwrap();
    assert_eq!(fs.create(1, "f").unwrap().attr.ino, 3);
    assert_eq!(fs.mkdir(1, "d").unwrap().attr.ino, 4);
    assert_eq!(fs.create(1, "d"), Err(FsError::AlreadyExists));
    assert_eq!(fs.create(1, "g").unwrap().attr.ino, 5);
}

#[test]
fn read_clamps_to_the_content() {
    let mut fs = MemoryFS::default();
    let id = fs.create(1, "f").unwrap().attr.ino;
    fs.write(id, 0, b"0123456789").unwrap();
    assert_eq!(fs.read(id, 3, 4), Ok(b"3456".to_vec()));
    assert_eq!(fs.read(id, 8, 4), Ok(b"89".to_vec()));
    assert_eq!(fs.read(id, 10, 4), Ok(Vec::new()));
    assert_eq!(fs.read(id, 11, 4), Ok(Vec::new()));
    assert_eq!(fs.read(id, u64::MAX, u32::MAX), Ok(Vec::new()));
    assert_eq!(fs.read(id, 0, 0), Ok(Vec::new()));
    assert_eq!(fs.read(id, 0, u32::MAX), Ok(b"0123456789".to_vec()));
}

#[test]
fn read_and_write_fail_on_what_is_no_file() {
    let mut fs = MemoryFS::default();
    assert_eq!(fs.read(5, 0, 1), Err(FsError::NotFound));
    assert_eq!(fs.write(5, 0, b"x"), Err(FsError::NotFound));
    assert_eq!(fs.read(1, 0, 1), Err(FsError::InvalidArgument));
    assert_eq!(fs.write(1, 0, b"x"), Err(FsError::InvalidArgument));
}

#[test]
fn write_past_the_largest_buffer_is_refused() {
    let mut fs = MemoryFS::default();
    let id = fs.create(1, "f").unwrap().attr.ino;
    fs.write(id, 0, b"abc").unwrap();
    assert_eq!(fs.write(id, u64::MAX, b"x"), Err(FsError::InvalidArgument));
    assert_eq!(fs.read(id, 0, 10), Ok(b"abc".to_vec()));
    assert_eq!(attr_of(&fs, id).size, 3);
}

#[test]
fn the_file_ends_where_the_write_ends() {
    let mut fs = MemoryFS::default();
    let id = fs.create(1, "f").unwrap().attr.ino;
    assert_eq!(fs.write(id, 0, b"hello world"), Ok(11));
    assert_eq!(attr_of(&fs, id).size, 11);
    assert_eq!(fs.write(id, 0, b"abc"), Ok(3));
    assert_eq!(attr_of(&fs, id).size, 3);
    assert_eq!(fs.read(id, 0, 100), Ok(b"abc".to_vec()));
    assert_eq!(fs.write(id, 2, b"XY"), Ok(2));
    assert_eq!(fs.read(id, 0, 100), Ok(b"abXY".to_vec()));
    assert_eq!(fs.write(id, 6, b""), Ok(0));
    assert_eq!(fs.read(id, 0, 100), Ok(vec![b'a', b'b', b'X', b'Y', 0, 0]));
    assert_eq!(attr_of(&fs, id).size, 6);
}

#[test]
fn readdir_lists_children_in_the_order_of_their_names() {
    let mut fs = MemoryFS::default();
    let b = fs.create(1, "b").unwrap().attr.ino;
    let a = fs.mkdir(1, "a").unwrap().attr.ino;
    let c = fs.create(1, "c").unwrap().attr.ino;
    let upper = fs.create(1, "B").unwrap().attr.ino;
    let ab = fs.create(1, "ab").unwrap().attr.ino;
    let items = fs.readdir(1, 0).unwrap();
    assert_eq!(names(&items), vec![".", "..", "B", "a", "ab", "b", "c"]);
    assert_eq!(ids(&items), vec![1, 0, upper, a, ab, b, c]);
    assert_eq!(indices(&items), vec![1, 2, 2, 3, 4, 5, 6]);
    assert_eq!(items[3].kind, FileKind::Directory);
    assert_eq!(items[4].kind, FileKind::RegularFile);
    assert_eq!(items[0].kind, FileKind::Directory);
    assert_eq!(items[1].kind, FileKind::Directory);
}

#[test]
fn readdir_orders_names_by_their_bytes() {
    let mut fs = MemoryFS::default();
    for n in ["é", "z", "", "a", "aa", "Z", "日本"] {
        fs.create(1, n).unwrap();
    }
    let items = fs.readdir(1, 1).unwrap();
    assert_eq!(names(&items), vec!["Z", "a", "aa", "z", "é", "日本"]);
    let all = fs.readdir(1, 0).unwrap();
    let mut sorted: Vec<String> = names(&all[2..]);
    sorted.sort();
    assert_eq!(names(&all[2..]), sorted);
}

#[test]
fn readdir_pages_line_up_with_the_single_pass() {
    let mut fs = MemoryFS::default();
    let d = fs.mkdir(1, "d").unwrap().attr.ino;
    for n in ["x", "y", "z"] {
        fs.create(d, n).unwrap();
    }
    let full = fs.readdir(d, 0).unwrap();
    assert_eq!(names(&full), vec![".", "..", "x", "y", "z"]);
    assert_eq!(ids(&full)[0], d);
    assert_eq!(ids(&full)[1], 1);
    for offset in 1..6u64 {
        let page = fs.readdir(d, offset).unwrap();
        let skip = std::cmp::min(offset as usize + 2, full.len());
        assert_eq!(names(&page), names(&full[skip..]));
        assert_eq!(ids(&page), ids(&full[skip..]));
        assert_eq!(indices(&page), indices(&full[skip..]));
    }
    assert_eq!(names(&fs.readdir(d, 1).unwrap()), vec!["y", "z"]);
    assert_eq!(indices(&fs.readdir(d, 1).unwrap()), vec![3, 4]);
    assert_eq!(fs.readdir(d, 3).unwrap().len(), 0);
    assert_eq!(fs.readdir(d, u64::MAX).unwrap().len(), 0);
}

#[test]
fn readdir_fails_on_what_is_no_directory() {
    let mut fs = MemoryFS::default();
    let f = fs.create(1, "f").unwrap().attr.ino;
    assert_eq!(fs.readdir(9, 0).err(), Some(FsError::NotFound));
    assert_eq!(fs.readdir(f, 0).err(), Some(FsError::InvalidArgument));
}

#[test]
fn rmdir_removes_everything_below() {
    let mut fs = MemoryFS::default();
    let a = fs.mkdir(1, "a").unwrap().attr.ino;
    let b = fs.mkdir(a, "b").unwrap().attr.ino;
    let c = fs.mkdir(b, "c").unwrap().attr.ino;
    let f = fs.create(c, "f").unwrap().attr.ino;
    let g = fs.create(a, "g").unwrap().attr.ino;
    let keep = fs.mkdir(1, "keep").unwrap().attr.ino;
    let h = fs.create(keep, "h").unwrap().attr.ino;
    assert_eq!(fs.rmdir(1, "a"), Ok(()));
    for gone in [a, b, c, f, g] {
        assert_eq!(fs.getattr(gone), Err(FsError::NotFound));
    }
    assert_eq!(fs.lookup(1, "a"), Err(FsError::NotFound));
    assert_eq!(fs.lookup(1, "keep").unwrap().attr.ino, keep);
    assert_eq!(fs.lookup(keep, "h").unwrap().attr.ino, h);
    assert_eq!(names(&fs.readdir(1, 0).unwrap()), vec![".", "..", "keep"]);
    assert_eq!(fs.mkdir(1, "a").unwrap().attr.ino, h + 1);
}

#[test]
fn rmdir_of_an_empty_directory() {
    let mut fs = MemoryFS::default();
    let a = fs.mkdir(1, "a").unwrap().attr.ino;
    assert_eq!(fs.rmdir(1, "a"), Ok(()));
    assert_eq!(fs.getattr(a), Err(FsError::NotFound));
    assert_eq!(fs.readdir(1, 0).unwrap().len(), 2);
}

#[test]
fn rename_moves_an_entry_and_its_parent() {
    let mut fs = MemoryFS::default();
    let a = fs.mkdir(1, "a").unwrap().attr.ino;
    let b = fs.mkdir(1, "b").unwrap().attr.ino;
    let f = fs.create(a, "f").unwrap().attr.ino;
    fs.write(f, 0, b"data").unwrap();
    assert_eq!(fs.rename(a, "f", b, "g", 0), Ok(()));
    assert_eq!(fs.lookup(a, "f"), Err(FsError::NotFound));
    assert_eq!(fs.lookup(b, "g").unwrap().attr.ino, f);
    assert_eq!(fs.read(f, 0, 10), Ok(b"data".to_vec()));
    assert_eq!(fs.rename(1, "a", b, "inner", 0), Ok(()));
    let listing = fs.readdir(a, 0).unwrap();
    assert_eq!(ids(&listing), vec![a, b]);
    assert_eq!(names(&fs.readdir(b, 0).unwrap()), vec![".", "..", "g", "inner"]);
    assert_eq!(names(&fs.readdir(1, 0).unwrap()), vec![".", "..", "b"]);
}

#[test]
fn rename_within_one_directory() {
    let mut fs = MemoryFS::default();
    let f = fs.create(1, "m").unwrap().attr.ino;
    fs.create(1, "a").unwrap();
    fs.create(1, "z").unwrap();
    assert_eq!(fs.rename(1, "m", 1, "zz", 0), Ok(()));
    assert_eq!(names(&fs.readdir(1, 0).unwrap()), vec![".", "..", "a", "z", "zz"]);
    assert_eq!(fs.lookup(1, "zz").unwrap().attr.ino, f);
    assert_eq!(fs.rename(1, "zz", 1, "zz", 0), Ok(()));
    assert_eq!(fs.lookup(1, "zz").unwrap().attr.ino, f);
    assert_eq!(fs.rename(1, "zz", 1, "zz", RENAME_NOREPLACE), Err(FsError::AlreadyExists));
}

#[test]
fn rename_refuses_to_put_a_directory_below_itself() {
    let mut fs = MemoryFS::default();
    let a = fs.mkdir(1, "a").unwrap().attr.ino;
    let b = fs.mkdir(a, "b").unwrap().attr.ino;
    let c = fs.mkdir(b, "c").unwrap().attr.ino;
    assert_eq!(fs.rename(1, "a", a, "x", 0), Err(FsError::InvalidArgument));
    assert_eq!(fs.rename(1, "a", b, "x", 0), Err(FsError::InvalidArgument));
    assert_eq!(fs.rename(1, "a", c, "x", 0), Err(FsError::InvalidArgument));
    assert_eq!(fs.rename(a, "b", c, "x", 0), Err(FsError::InvalidArgument));
    assert_eq!(fs.lookup(1, "a").unwrap().attr.ino, a);
    assert_eq!(fs.rename(b, "c", 1, "c", 0), Ok(()));
    assert_eq!(fs.rename(1, "a", c, "x", 0), Ok(()));
    assert_eq!(ids(&fs.readdir(a, 0).unwrap())[1], c);
}

#[test]
fn rename_onto_a_taken_name() {
    let mut fs = MemoryFS::default();
    let f = fs.create(1, "f").unwrap().attr.ino;
    let g = fs.create(1, "g").unwrap().attr.ino;
    let d = fs.mkdir(1, "d").unwrap().attr.ino;
    let e = fs.mkdir(1, "e").unwrap().attr.ino;
    fs.create(d, "inside").unwrap();
    assert_eq!(fs.rename(1, "f", 1, "g", RENAME_NOREPLACE), Err(FsError::AlreadyExists));
    assert_eq!(fs.rename(1, "f", 1, "d", 0), Err(FsError::AlreadyExists));
    assert_eq!(fs.lookup(1, "g").unwrap().attr.ino, g);
    assert_eq!(fs.rename(1, "f", 1, "g", 0), Ok(()));
    assert_eq!(fs.lookup(1, "g").unwrap().attr.ino, f);
    assert_eq!(fs.getattr(g), Err(FsError::NotFound));
    assert_eq!(fs.lookup(1, "f"), Err(FsError::NotFound));
    assert_eq!(fs.rename(1, "g", 1, "e", 0), Ok(()));
    assert_eq!(fs.getattr(e), Err(FsError::NotFound));
    assert_eq!(fs.lookup(1, "e").unwrap().attr.ino, f);
    assert_eq!(names(&fs.readdir(1, 0).unwrap()), vec![".", "..", "d", "e"]);
}

#[test]
fn rename_fails_with_not_found() {
    let mut fs = MemoryFS::default();
    let f = fs.create(1, "f").unwrap().attr.ino;
    assert_eq!(fs.rename(1, "x", 1, "y", 0), Err(FsError::NotFound));
    assert_eq!(fs.rename(9, "f", 1, "y", 0), Err(FsError::NotFound));
    assert_eq!(fs.rename(1, "f", 9, "y", 0), Err(FsError::NotFound));
    assert_eq!(fs.rename(1, "f", f, "y", 0), Err(FsError::InvalidArgument));
    assert_eq!(fs.lookup(1, "f").unwrap().attr.ino, f);
}

#[test]
fn error_codes() {
    assert_eq!(FsError::NotFound.code(), 2);
    assert_eq!(FsError::AlreadyExists.code(), 17);
    assert_eq!(FsError::InvalidArgument.code(), 22);
}

#[test]
fn a_name_maps_to_one_id() {
    let mut fs = MemoryFS::default();
    let f = fs.create(1, "n").unwrap().attr.ino;
    assert_eq!(fs.mkdir(1, "n"), Err(FsError::AlreadyExists));
    let g = fs.create(1, "m").unwrap().attr.ino;
    assert_eq!(fs.rename(1, "m", 1, "n", 0), Ok(()));
    let items = fs.readdir(1, 0).unwrap();
    let named_n: Vec<u64> = items.iter().filter(|i| i.name == "n").map(|i| i.ino).collect();
    assert_eq!(named_n, vec![g]);
    assert_eq!(fs.getattr(f), Err(FsError::NotFound));
    assert_eq!(fs.lookup(1, "n").unwrap().attr.ino, g);
}

#[test]
fn the_table_can_be_inspected() {
    let mut fs = MemoryFS::default();
    assert_eq!(fs.next_ino(), 2);
    let d = fs.mkdir(1, "d").unwrap().attr.ino;
    let f = fs.create(d, "f").unwrap().attr.ino;
    fs.write(f, 1, b"ab").unwrap();
    assert_eq!(fs.next_ino(), 4);
    assert!(fs.node(9).is_none());
    let root = fs.node(1).unwrap();
    assert_eq!(root.parent, 0);
    assert_eq!(root.data.kind, FileKind::Directory);
    assert_eq!(root.children.as_ref().unwrap().get("d"), Some(d));
    let dir = fs.node(d).unwrap();
    assert_eq!(dir.parent, 1);
    assert_eq!(dir.data.size, 0);
    assert!(dir.data.content.is_none());
    assert_eq!(dir.children.as_ref().unwrap().len(), 1);
    let file = fs.node(f).unwrap();
    assert_eq!(file.parent, d);
    assert_eq!(file.data.kind, FileKind::RegularFile);
    assert_eq!(file.data.size, 3);
    assert_eq!(file.data.content, Some(vec![0, b'a', b'b']));
    assert!(file.children.is_none());
    fs.unlink(d, "f").unwrap();
    assert_eq!(fs.next_ino(), 4);
    fs.rename(1, "d", 1, "e", 0).unwrap();
    assert_eq!(fs.next_ino(), 4);
}

#[test]
fn every_node_is_listed_by_its_parent() {
    let mut fs = MemoryFS::default();
    let a = fs.mkdir(1, "a").unwrap().attr.ino;
    let b = fs.mkdir(a, "b").unwrap().attr.ino;
    let c = fs.create(b, "c").unwrap().attr.ino;
    let d = fs.mkdir(1, "d").unwrap().attr.ino;
    fs.rename(a, "b", d, "moved", 0).unwrap();
    fs.rename(1, "a", d, "a", 0).unwrap();
    for id in [a, b, c, d] {
        let parent = fs.node(id).unwrap().parent;
        let listing = fs.readdir(parent, 0).unwrap();
        assert_eq!(listing.iter().filter(|i| i.ino == id && i.index >= 2 && i.name != "..").count(), 1);
        assert_eq!(fs.readdir(parent, 0).unwrap()[0].ino, parent);
    }
    assert_eq!(fs.node(b).unwrap().parent, d);
    assert_eq!(fs.node(a).unwrap().parent, d);
    assert_eq!(fs.node(c).unwrap().parent, b);
}

fn file_with(parent: u64, bytes: &[u8]) -> Node {
    let mut node = Node::new_file(parent);
    node.data.content = Some(bytes.to_vec());
    node.data.size = bytes.len() as u64;
    node
}

#[test]
fn new_keeps_what_the_table_held() {
    let mut table = HashMap::new();
    table.insert(7, file_with(1, b"seed"));
    let fs = MemoryFS::new(table);
    let kept = fs.node(7).unwrap();
    assert_eq!(kept.parent, 1);
    assert_eq!(kept.data.kind, FileKind::RegularFile);
    assert_eq!(kept.data.content, Some(b"seed".to_vec()));
    assert_eq!(kept.data.size, 4);
    assert_eq!(fs.getattr(7).unwrap().attr.size, 4);
    assert_eq!(fs.getattr(7).unwrap().attr.ino, 7);
    let root = fs.node(1).unwrap();
    assert_eq!(root.parent, 0);
    assert_eq!(root.data.kind, FileKind::Directory);
    assert_eq!(root.children.as_ref().unwrap().len(), 0);
    assert!(fs.node(2).is_none());
    assert!(fs.node(8).is_none());
    assert_eq!(fs.next_ino(), 8);
    assert_eq!(fs.statfs(0, 0).ffree, 1000000 - 8);
}

#[test]
fn new_puts_a_new_root_in_place_of_what_stood_there() {
    let mut table = HashMap::new();
    table.insert(1, file_with(5, b"was here"));
    let mut fs = MemoryFS::new(table);
    let root = fs.node(1).unwrap();
    assert_eq!(root.parent, 0);
    assert_eq!(root.data.kind, FileKind::Directory);
    assert_eq!(root.data.size, 0);
    assert!(root.data.content.is_none());
    assert_eq!(root.children.as_ref().unwrap().len(), 0);
    assert_eq!(fs.next_ino(), 2);
    assert_eq!(fs.create(1, "f").unwrap().attr.ino, 2);
    assert_eq!(fs.readdir(1, 0).unwrap().len(), 3);
}

#[test]
fn new_sets_the_counter_past_every_id() {
    let mut table = HashMap::new();
    table.insert(2, Node::new_directory(1));
    table.insert(3, file_with(2, b""));
    let fs = MemoryFS::new(table);
    assert_eq!(fs.next_ino(), 4);
    let mut table = HashMap::new();
    table.insert(3, file_with(1, b""));
    let fs = MemoryFS::new(table);
    assert_eq!(fs.next_ino(), 4);
    assert!(fs.node(3).is_some());
    let mut table = HashMap::new();
    table.insert(0, file_with(1, b""));
    table.insert(u64::MAX - 1, file_with(1, b"x"));
    let fs = MemoryFS::new(table);
    assert_eq!(fs.next_ino(), u64::MAX);
    assert!(fs.node(0).is_some());
    assert_eq!(fs.node(u64::MAX - 1).unwrap().data.size, 1);
    assert_eq!(fs.getattr(u64::MAX), Err(FsError::NotFound));
    assert_eq!(fs.statfs(0, 0).ffree, 0);
}

#[test]
fn new_on_an_empty_table_is_the_default() {
    let fs = MemoryFS::new(HashMap::new());
    assert_eq!(fs.next_ino(), 2);
    assert_eq!(fs.readdir(1, 0).unwrap().len(), 2);
    assert!(fs.node(2).is_none());
    assert_eq!(MemoryFS::default().next_ino(), 2);
}
