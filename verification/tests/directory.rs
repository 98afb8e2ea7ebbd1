use memoryfs::filesystem::inter::directory::Directory;
use memoryfs::filesystem::inter::name::{compare_bytes, compare_names, NameOrder};
use memoryfs::filesystem::inter::node::{FileKind, Node};

#[test]
fn names_compare_by_bytes() {
    assert_eq!(compare_names("a", "b"), NameOrder::Before);
    assert_eq!(compare_names("b", "a"), NameOrder::After);
    assert_eq!(compare_names("a", "a"), NameOrder::Same);
    assert_eq!(compare_names("", ""), NameOrder::Same);
    assert_eq!(compare_names("", "a"), NameOrder::Before);
    assert_eq!(compare_names("a", "ab"), NameOrder::Before);
    assert_eq!(compare_names("ab", "a"), NameOrder::After);
    assert_eq!(compare_names("Z", "a"), NameOrder::Before);
    assert_eq!(compare_names("z", "é"), NameOrder::Before);
    assert_eq!(compare_bytes(&[1, 2, 3], &[1, 2, 4]), NameOrder::Before);
    assert_eq!(compare_bytes(&[255], &[1, 2, 4]), NameOrder::After);
    assert_eq!(compare_bytes(&[1, 2], &[1, 2]), NameOrder::Same);
}

#[test]
fn names_compare_as_strings_do() {
    let names = ["", "a", "A", "ab", "b", "é", "日本", "a\u{0}", "~"];
    for x in names {
        for y in names {
            let want = match x.cmp(y) {
                std::cmp::Ordering::Less => NameOrder::Before,
                std::cmp::Ordering::Equal => NameOrder::Same,
                std::cmp::Ordering::Greater => NameOrder::After,
            };
            assert_eq!(compare_names(x, y), want);
        }
    }
}

#[test]
fn directory_keeps_names_sorted_and_unique() {
    let mut d = Directory::new();
    assert_eq!(d.len(), 0);
    assert_eq!(d.insert("m".to_string(), 10), None);
    assert_eq!(d.insert("a".to_string(), 11), None);
    assert_eq!(d.insert("z".to_string(), 12), None);
    assert_eq!(d.insert("b".to_string(), 13), None);
    assert_eq!(d.len(), 4);
    let listed: Vec<(String, u64)> = (0..d.len()).map(|i| (d.entry(i).name.clone(), d.entry(i).ino)).collect();
    assert_eq!(
        listed,
        vec![("a".to_string(), 11), ("b".to_string(), 13), ("m".to_string(), 10), ("z".to_string(), 12)]
    );
    assert_eq!(d.insert("m".to_string(), 20), Some(10));
    assert_eq!(d.len(), 4);
    assert_eq!(d.get("m"), Some(20));
    assert_eq!(d.get("q"), None);
    assert!(d.contains("a"));
    assert!(!d.contains("c"));
    assert_eq!(d.remove("a"), Some(11));
    assert_eq!(d.remove("a"), None);
    assert_eq!(d.len(), 3);
    assert_eq!(d.entry(0).name, "b");
    assert_eq!(d.get("z"), Some(12));
}

#[test]
fn new_nodes_are_empty() {
    let d = Node::new_directory(7);
    assert_eq!(d.parent, 7);
    assert_eq!(d.data.kind, FileKind::Directory);
    assert_eq!(d.data.size, 0);
    assert!(d.data.content.is_none());
    assert_eq!(d.children.as_ref().unwrap().len(), 0);
    let f = Node::new_file(3);
    assert_eq!(f.parent, 3);
    assert_eq!(f.data.kind, FileKind::RegularFile);
    assert_eq!(f.data.size, 0);
    assert_eq!(f.data.content, Some(Vec::new()));
    assert!(f.children.is_none());
}
