use dir_index::entry::{FileMetadata, FileType};
use dir_index::hash_table::{decimal, entry_key, HashTable, LoadFactor};
use dir_index::search::SearchKey;

fn dir(name: &str, path: &str, size: u64) -> FileMetadata {
    FileMetadata {
        name: name.to_string(),
        path: path.to_string(),
        size,
        file_type: FileType::Directory,
    }
}

/// FNV-1a, written out once more to hold the library against.
fn fnv1a(bytes: &[u8]) -> u64 {
    let mut hash: u64 = 0xcbf29ce484222325;
    for byte in bytes {
        hash ^= *byte as u64;
        hash = hash.wrapping_mul(0x100000001b3);
    }
    hash
}

fn total(table: &HashTable) -> usize {
    table.buckets.iter().map(|bucket| bucket.len()).sum()
}

#[test]
fn a_new_table_has_empty_buckets() {
    let table = HashTable::new(5);
    assert_eq!(table.buckets.len(), 5);
    assert!(table.buckets.iter().all(|bucket| bucket.is_empty()));
    assert_eq!(HashTable::new(0).buckets.len(), 0);
}

#[test]
fn the_hash_is_fnv1a_of_the_bytes() {
    let table = HashTable::new(1);
    assert_eq!(table.hash(""), 14695981039346656037);
    assert_eq!(table.hash(""), 0xcbf29ce484222325);
    assert_eq!(table.hash("a"), 0xaf63dc4c8601ec8c);
    assert_eq!(table.hash("foobar"), 0x85944171f73967e8);
    assert_eq!(table.hash("\u{e9}"), fnv1a(&[0xc3, 0xa9]));
}

#[test]
fn the_hash_xors_before_it_multiplies() {
    let table = HashTable::new(1);
    let expected = (14695981039346656037u64 ^ 0x61).wrapping_mul(1099511628211);
    assert_eq!(table.hash("a"), expected);
    let other = 14695981039346656037u64.wrapping_mul(1099511628211) ^ 0x61;
    assert_ne!(table.hash("a"), other);
}

#[test]
fn the_hash_does_not_depend_on_the_table() {
    assert_eq!(HashTable::new(1).hash("some/key"), HashTable::new(64).hash("some/key"));
}

#[test]
fn numbers_are_written_in_decimal() {
    assert_eq!(decimal(0), "0");
    assert_eq!(decimal(7), "7");
    assert_eq!(decimal(10), "10");
    assert_eq!(decimal(1234567890), "1234567890");
    assert_eq!(decimal(u64::MAX), "18446744073709551615");
    for n in [0u64, 9, 99, 100, 101, 4096, 1 << 40] {
        assert_eq!(decimal(n), n.to_string());
    }
}

#[test]
fn the_key_text_quotes_name_and_path_and_ends_with_the_size() {
    assert_eq!(entry_key(&dir("sub", "/root/sub", 0)), "\"sub\"\"/root/sub\"0");
    assert_eq!(entry_key(&dir("a b", "/x/a b", 42)), "\"a b\"\"/x/a b\"42");
    assert_eq!(entry_key(&dir("q\"t", "/q\"t", 1)), "\"q\\\"t\"\"/q\\\"t\"1");
    assert_eq!(entry_key(&dir("", "", 5)), "\"\"\"\"5");
}

#[test]
fn the_key_text_is_what_the_formatter_writes() {
    for (name, path, size) in
        [("sub", "/root/sub", 0u64), ("t\tab", "/r/t\tab", 9), ("\u{e9}", "/\u{e9}", 77), ("it's", "/it's", 3)]
    {
        let expected = format!("{:?}{:?}{}", name, std::path::Path::new(path), size);
        assert_eq!(entry_key(&dir(name, path, size)), expected);
    }
}

#[test]
fn the_bucket_is_the_hash_modulo_the_number_of_buckets() {
    let table = HashTable::new(7);
    for key in ["", "a", "foobar", "\"sub\"\"/root/sub\"0"] {
        assert_eq!(table.bucket_index(key) as u64, fnv1a(key.as_bytes()) % 7);
    }
    let one = HashTable::new(1);
    assert_eq!(one.bucket_index("anything"), 0);
}

#[test]
fn an_entry_goes_into_the_bucket_of_its_key() {
    let mut table = HashTable::new(16);
    let entry = dir("sub", "/root/sub", 0);
    let slot = (fnv1a("\"sub\"\"/root/sub\"0".as_bytes()) % 16) as usize;
    table.insert(entry.clone());
    assert_eq!(total(&table), 1);
    assert_eq!(table.buckets[slot], [entry]);
}

#[test]
fn insert_with_key_uses_the_given_key() {
    let mut table = HashTable::new(16);
    let entry = dir("sub", "/root/sub", 0);
    let slot = (fnv1a(b"k") % 16) as usize;
    table.insert_with_key("k", entry.clone());
    assert_eq!(table.buckets[slot], [entry]);
    assert_eq!(total(&table), 1);
}

#[test]
fn equal_entries_are_kept_twice() {
    let mut table = HashTable::new(4);
    table.insert(dir("d", "/d", 1));
    table.insert(dir("d", "/d", 1));
    assert_eq!(total(&table), 2);
    let slot = table.bucket_index(&entry_key(&dir("d", "/d", 1)));
    assert_eq!(table.buckets[slot], [dir("d", "/d", 1), dir("d", "/d", 1)]);
}

#[test]
fn entries_of_one_bucket_keep_their_order() {
    let mut table = HashTable::new(1);
    for i in 0..5 {
        table.insert(dir(&format!("d{}", i), &format!("/d{}", i), i));
    }
    let sizes: Vec<u64> = table.buckets[0].iter().map(|e| e.size).collect();
    assert_eq!(sizes, [0, 1, 2, 3, 4]);
}

#[test]
fn the_same_triple_falls_into_the_same_bucket() {
    let mut first = HashTable::new(32);
    let mut second = HashTable::new(32);
    first.insert(dir("d", "/a/d", 10));
    second.insert(FileMetadata {
        name: "d".to_string(),
        path: "/a/d".to_string(),
        size: 10,
        file_type: FileType::File,
    });
    let a = first.buckets.iter().position(|b| !b.is_empty());
    let b = second.buckets.iter().position(|b| !b.is_empty());
    assert_eq!(a, b);
    assert_eq!(entry_key(&dir("d", "/a/d", 10)), entry_key(&dir("d", "/a/d", 10)));
}

#[test]
fn another_size_is_another_key() {
    assert_ne!(entry_key(&dir("d", "/a/d", 10)), entry_key(&dir("d", "/a/d", 11)));
    let mut table = HashTable::new(8);
    table.insert(dir("d", "/a/d", 10));
    assert!(table.contains(&dir("d", "/a/d", 10)));
    assert!(!table.contains(&dir("d", "/a/d", 11)));
}

#[test]
fn what_was_inserted_is_held() {
    let mut table = HashTable::new(3);
    let entries: Vec<FileMetadata> =
        (0..20).map(|i| dir(&format!("d{}", i), &format!("/r/d{}", i), i * 3)).collect();
    for entry in &entries {
        table.insert(entry.clone());
        assert!(table.contains(entry));
    }
    for entry in &entries {
        assert!(table.contains(entry));
    }
    assert!(!table.contains(&dir("d0", "/r/d0", 1)));
    assert!(!table.contains(&dir("d0", "/other/d0", 0)));
    assert!(!table.contains(&dir("nope", "/r/d0", 0)));
    assert_eq!(total(&table), 20);
}

#[test]
fn contains_ignores_the_kind() {
    let mut table = HashTable::new(3);
    table.insert(dir("d", "/d", 1));
    let as_file = FileMetadata {
        name: "d".to_string(),
        path: "/d".to_string(),
        size: 1,
        file_type: FileType::File,
    };
    assert!(table.contains(&as_file));
    assert!(as_file.same_identity(&dir("d", "/d", 1)));
    assert!(!as_file.same_identity(&dir("d", "/d", 2)));
}

#[test]
fn scan_bucket_looks_at_one_bucket_only() {
    let mut table = HashTable::new(2);
    table.insert_with_key("", dir("d", "/d", 1));
    let slot = table.bucket_index("");
    assert!(table.scan_bucket(slot, &dir("d", "/d", 1)));
    assert!(!table.scan_bucket(1 - slot, &dir("d", "/d", 1)));
}

#[test]
fn search_by_name_scans_every_bucket() {
    let mut table = HashTable::new(4);
    table.insert(dir("sub", "/a/sub", 1));
    table.insert(dir("other", "/a/other", 2));
    table.insert(dir("sub", "/b/sub", 3));
    let mut found = table.search_by_name("sub");
    found.sort_by_key(|e| e.size);
    assert_eq!(found, [dir("sub", "/a/sub", 1), dir("sub", "/b/sub", 3)]);
    assert_eq!(table.search_by_name("other"), [dir("other", "/a/other", 2)]);
    assert!(table.search_by_name("missing").is_empty());
    assert!(HashTable::new(0).search_by_name("sub").is_empty());
}

#[test]
fn search_returns_matches_bucket_after_bucket() {
    let mut table = HashTable::new(3);
    table.insert_with_key("", dir("n", "/2", 2));
    let slot = table.bucket_index("");
    let other = (slot + 1) % 3;
    let mut key = String::new();
    for i in 0..100 {
        key = format!("k{}", i);
        if table.bucket_index(&key) == other {
            break;
        }
    }
    table.insert_with_key(&key, dir("n", "/1", 1));
    table.insert_with_key("", dir("n", "/3", 3));
    let found = table.search(SearchKey::Name, "n");
    let expected: Vec<FileMetadata> =
        table.buckets.iter().flatten().filter(|e| e.name == "n").cloned().collect();
    assert_eq!(found, expected);
    assert_eq!(found.len(), 3);
}

#[test]
fn search_by_path_finds_the_directory() {
    let mut table = HashTable::new(4);
    table.insert(dir("sub", "/a/sub", 1));
    table.insert(dir("sub", "/b/sub", 3));
    assert_eq!(table.search_by_path("/b/sub"), [dir("sub", "/b/sub", 3)]);
    assert_eq!(table.search(SearchKey::Path, "/a/sub"), [dir("sub", "/a/sub", 1)]);
    assert!(table.search_by_path("sub").is_empty());
}

#[test]
fn the_load_factor_of_an_empty_table_is_zero() {
    let table = HashTable::new(8);
    assert_eq!(table.load_factor(), LoadFactor { occupied: 0, buckets: 8 });
    assert_eq!(table.occupied_buckets(), 0);
}

#[test]
fn the_load_factor_counts_buckets_and_not_entries() {
    let mut table = HashTable::new(1);
    table.insert(dir("a", "/a", 1));
    table.insert(dir("b", "/b", 2));
    table.insert(dir("c", "/c", 3));
    assert_eq!(table.load_factor(), LoadFactor { occupied: 1, buckets: 1 });
}

#[test]
fn the_load_factor_never_exceeds_one() {
    let mut table = HashTable::new(5);
    for i in 0..200 {
        table.insert(dir(&format!("d{}", i), &format!("/d{}", i), i));
        let load = table.load_factor();
        let occupied = table.buckets.iter().filter(|b| !b.is_empty()).count();
        assert_eq!(load.occupied, occupied);
        assert_eq!(load.buckets, 5);
        assert!(load.occupied <= load.buckets);
        assert_eq!(load.occupied == load.buckets, table.buckets.iter().all(|b| !b.is_empty()));
    }
    assert_eq!(table.load_factor(), LoadFactor { occupied: 5, buckets: 5 });
}

#[test]
fn the_table_does_not_grow() {
    let mut table = HashTable::new(2);
    for i in 0..50 {
        table.insert(dir(&format!("d{}", i), &format!("/d{}", i), i));
    }
    assert_eq!(table.buckets.len(), 2);
    assert_eq!(total(&table), 50);
}

#[test]
fn a_clone_of_the_table_holds_the_same() {
    let mut table = HashTable::new(4);
    table.insert(dir("a", "/a", 1));
    let copy = table.clone();
    assert_eq!(copy.buckets, table.buckets);
}

#[test]
fn entries_lists_bucket_after_bucket() {
    let mut table = HashTable::new(3);
    for i in 0..10 {
        table.insert(dir(&format!("d{}", i), &format!("/d{}", i), i));
    }
    let expected: Vec<FileMetadata> = table.buckets.iter().flatten().cloned().collect();
    assert_eq!(table.entries(), expected);
    assert_eq!(table.entries().len(), 10);
    assert!(HashTable::new(4).entries().is_empty());
}
