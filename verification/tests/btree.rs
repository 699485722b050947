use vexfs::fs::btree::{BPlusTree, Key, Value};

fn val(ino: u64) -> Value {
    Value { ino, size: 0, is_dir: false, disk_index: 0 }
}

fn dir_val(ino: u64) -> Value {
    Value { ino, size: 0, is_dir: true, disk_index: 0 }
}

#[test]
fn test_key_ordering_by_parent_first() {
    let k1 = Key::new(1, "zzz.txt");
    let k2 = Key::new(2, "aaa.txt");
    assert!(k1 < k2);
}

#[test]
fn test_key_ordering_same_parent_alphabetical() {
    let k1 = Key::new(1, "apple.txt");
    let k2 = Key::new(1, "zebra.txt");
    assert!(k1 < k2);
}

#[test]
fn test_key_equality() {
    assert_eq!(Key::new(3, "file.rs"), Key::new(3, "file.rs"));
    assert_ne!(Key::new(3, "file.rs"), Key::new(4, "file.rs"));
    assert_ne!(Key::new(3, "file.rs"), Key::new(3, "file.txt"));
}

#[test]
fn test_insert_and_lookup() {
    let mut tree = BPlusTree::new();
    tree.insert(1, "hello.txt", val(2));
    tree.insert(1, "world.txt", val(3));
    tree.insert(1, "readme.md", val(4));
    assert_eq!(tree.get(1, "hello.txt").unwrap().ino, 2);
    assert_eq!(tree.get(1, "world.txt").unwrap().ino, 3);
    assert_eq!(tree.get(1, "readme.md").unwrap().ino, 4);
    assert!(tree.get(1, "missing.txt").is_none());
}

#[test]
fn test_insert_different_parents_same_name() {
    let mut tree = BPlusTree::new();
    tree.insert(1, "main.rs", val(10));
    tree.insert(2, "main.rs", val(20));
    tree.insert(3, "main.rs", val(30));
    assert_eq!(tree.get(1, "main.rs").unwrap().ino, 10);
    assert_eq!(tree.get(2, "main.rs").unwrap().ino, 20);
    assert_eq!(tree.get(3, "main.rs").unwrap().ino, 30);
}

#[test]
fn test_sorted_listing() {
    let mut tree = BPlusTree::new();
    tree.insert(1, "zebra.txt", val(2));
    tree.insert(1, "apple.txt", val(3));
    tree.insert(1, "mango.txt", val(4));
    let all = tree.list_all();
    assert_eq!(all[0].0.1, "apple.txt");
    assert_eq!(all[1].0.1, "mango.txt");
    assert_eq!(all[2].0.1, "zebra.txt");
}

#[test]
fn test_delete() {
    let mut tree = BPlusTree::new();
    tree.insert(1, "hello.txt", val(2));
    tree.insert(1, "world.txt", val(3));
    assert!(tree.remove(1, "hello.txt").is_some());
    assert!(tree.get(1, "hello.txt").is_none());
    assert_eq!(tree.len(), 1);
}

#[test]
fn test_delete_only_correct_parent() {
    let mut tree = BPlusTree::new();
    tree.insert(1, "doc.txt", val(5));
    tree.insert(2, "doc.txt", val(6));
    tree.remove(1, "doc.txt");
    assert!(tree.get(1, "doc.txt").is_none());
    assert_eq!(tree.get(2, "doc.txt").unwrap().ino, 6);
}

#[test]
fn test_list_dir_returns_only_children() {
    let mut tree = BPlusTree::new();
    tree.insert(1, "alpha.txt", val(10));
    tree.insert(1, "beta.txt", val(11));
    tree.insert(1, "gamma.txt", val(12));
    tree.insert(2, "deep_a.txt", val(20));
    tree.insert(2, "deep_b.txt", val(21));

    let root_children = tree.list_dir(1);
    assert_eq!(root_children.len(), 3);
    let names: Vec<&str> = root_children.iter().map(|(k, _)| k.1.as_str()).collect();
    assert!(names.contains(&"alpha.txt"));
    assert!(names.contains(&"beta.txt"));
    assert!(names.contains(&"gamma.txt"));

    let sub_children = tree.list_dir(2);
    assert_eq!(sub_children.len(), 2);
    assert!(sub_children.iter().any(|(k, _)| k.1 == "deep_a.txt"));
}

#[test]
fn test_list_dir_empty() {
    let tree = BPlusTree::new();
    assert!(tree.list_dir(99).is_empty());
}

#[test]
fn test_list_dir_sorted() {
    let mut tree = BPlusTree::new();
    tree.insert(1, "z_last.txt", val(30));
    tree.insert(1, "a_first.txt", val(10));
    tree.insert(1, "m_mid.txt", val(20));
    let dir = tree.list_dir(1);
    assert_eq!(dir[0].0.1, "a_first.txt");
    assert_eq!(dir[1].0.1, "m_mid.txt");
    assert_eq!(dir[2].0.1, "z_last.txt");
}

#[test]
fn test_large_insert() {
    let mut tree = BPlusTree::new();
    for i in 0..500 {
        tree.insert(1, &format!("file_{:04}.txt", i), val(i as u64 + 2));
    }
    assert_eq!(tree.len(), 500);
    assert_eq!(tree.get(1, "file_0250.txt").unwrap().ino, 252);
}

#[test]
fn test_multi_dir_large() {
    let mut tree = BPlusTree::new();
    for dir in 2..7u64 {
        for file in 0..100u64 {
            let ino = dir * 1000 + file;
            tree.insert(dir, &format!("f{:03}.txt", file), val(ino));
        }
    }
    assert_eq!(tree.len(), 500);
    for dir in 2..7u64 {
        let children = tree.list_dir(dir);
        assert_eq!(children.len(), 100, "dir {dir} should have 100 children");
    }
}

#[test]
fn btree_test_update_existing() {
    let mut tree = BPlusTree::new();
    tree.insert(1, "file.txt", val(2));
    tree.insert(1, "file.txt", val(99));
    assert_eq!(tree.get(1, "file.txt").unwrap().ino, 99);
    assert_eq!(tree.len(), 1);
}

#[test]
fn test_nested_hierarchy() {
    let mut tree = BPlusTree::new();
    tree.insert(1, "src", dir_val(2));
    tree.insert(2, "lib.rs", val(10));
    tree.insert(2, "main.rs", val(11));
    tree.insert(1, "docs", dir_val(3));
    tree.insert(3, "readme.md", val(20));
    assert_eq!(tree.list_dir(1).len(), 2);
    assert_eq!(tree.list_dir(2).len(), 2);
    assert_eq!(tree.list_dir(3).len(), 1);
    assert_eq!(tree.get(2, "lib.rs").unwrap().ino, 10);
    assert_eq!(tree.get(3, "readme.md").unwrap().ino, 20);
}

#[test]
fn test_is_dir_flag() {
    let mut tree = BPlusTree::new();
    tree.insert(1, "mydir", dir_val(5));
    tree.insert(1, "myfile.txt", val(6));
    assert!(tree.get(1, "mydir").unwrap().is_dir);
    assert!(!tree.get(1, "myfile.txt").unwrap().is_dir);
}

#[test]
fn test_range_keys_within_dir() {
    let mut tree = BPlusTree::new();
    tree.insert(1, "a.txt", val(1));
    tree.insert(1, "b.txt", val(2));
    tree.insert(1, "c.txt", val(3));
    tree.insert(1, "z.txt", val(26));
    let r = tree.range_keys(&Key::new(1, "a.txt"), &Key::new(1, "c.txt"));
    assert_eq!(r.len(), 3);
}

#[test]
fn btree_remove_missing_returns_none_and_keeps_len() {
    let mut tree = BPlusTree::new();
    tree.insert(1, "a.txt", val(1));
    assert!(tree.remove(1, "b.txt").is_none());
    assert!(tree.remove(2, "a.txt").is_none());
    assert_eq!(tree.len(), 1);
}

#[test]
fn btree_large_delete_then_reinsert() {
    let mut tree = BPlusTree::new();
    for i in 0..300u64 {
        tree.insert(i % 7, &format!("n{:05}", i), val(i));
    }
    for i in (0..300u64).step_by(2) {
        assert_eq!(tree.remove(i % 7, &format!("n{:05}", i)).unwrap().ino, i);
    }
    assert_eq!(tree.len(), 150);
    let all = tree.list_all();
    assert_eq!(all.len(), 150);
    for w in all.windows(2) {
        assert!(w[0].0 < w[1].0);
    }
    for i in 0..300u64 {
        let got = tree.get(i % 7, &format!("n{:05}", i));
        assert_eq!(got.is_some(), i % 2 == 1);
    }
}

#[test]
fn btree_list_dir_excludes_other_parents_at_boundaries() {
    let mut tree = BPlusTree::new();
    tree.insert(4, "", val(1));
    tree.insert(5, "", val(2));
    tree.insert(5, "zz", val(3));
    tree.insert(6, "a", val(4));
    let d = tree.list_dir(5);
    assert_eq!(d.len(), 2);
    assert_eq!(d[0].1.ino, 2);
    assert_eq!(d[1].1.ino, 3);
}
