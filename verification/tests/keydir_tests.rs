use mini_bitcask::keydir::{prefix_upper, Bound, KeyDir};

fn dir_of(keys: &[&str]) -> KeyDir {
    let mut dir = KeyDir::new();
    for (i, key) in keys.iter().enumerate() {
        dir.insert(key.as_bytes().to_vec(), (i as u64 * 100, i as u32));
    }
    dir
}

#[test]
fn insert_get_remove() {
    let mut dir = KeyDir::new();
    assert_eq!(dir.len(), 0);
    assert_eq!(dir.get(b"a"), None);

    dir.insert(b"b".to_vec(), (10, 1));
    dir.insert(b"a".to_vec(), (20, 2));
    dir.insert(b"c".to_vec(), (30, 3));
    assert_eq!(dir.len(), 3);
    assert_eq!(dir.get(b"a"), Some((20, 2)));
    assert_eq!(dir.get(b"b"), Some((10, 1)));
    assert_eq!(dir.get(b"c"), Some((30, 3)));

    // The last slot given to a key is the one it has.
    dir.insert(b"b".to_vec(), (40, 4));
    assert_eq!(dir.len(), 3);
    assert_eq!(dir.get(b"b"), Some((40, 4)));

    dir.remove(b"b");
    assert_eq!(dir.len(), 2);
    assert_eq!(dir.get(b"b"), None);
    dir.remove(b"missing");
    assert_eq!(dir.len(), 2);
    assert_eq!(dir.get(b"a"), Some((20, 2)));
    assert_eq!(dir.get(b"c"), Some((30, 3)));
}

#[test]
fn keys_are_held_in_byte_order() {
    let dir = dir_of(&["b", "abc", "", "ab", "a", "c"]);
    let held: Vec<Vec<u8>> = (0..dir.len()).map(|i| dir.key_at(i).clone()).collect();
    assert_eq!(
        held,
        vec![b"".to_vec(), b"a".to_vec(), b"ab".to_vec(), b"abc".to_vec(), b"b".to_vec(), b"c".to_vec()]
    );
    assert_eq!(dir.slot_at(0), (200, 2));
    assert_eq!(dir.search(b"ab"), (2, true));
    assert_eq!(dir.search(b"aa"), (2, false));
    assert_eq!(dir.search(b"z"), (6, false));
}

#[test]
fn range_with_each_kind_of_bound() {
    let dir = dir_of(&["a", "b", "c", "d"]);
    let keys = |lower: Bound, upper: Bound| -> Vec<Vec<u8>> {
        dir.range(&lower, &upper).into_iter().map(|(k, _)| k).collect()
    };
    let k = |s: &str| s.as_bytes().to_vec();
    assert_eq!(keys(Bound::Unbounded, Bound::Unbounded), vec![k("a"), k("b"), k("c"), k("d")]);
    assert_eq!(keys(Bound::Included(k("b")), Bound::Included(k("c"))), vec![k("b"), k("c")]);
    assert_eq!(keys(Bound::Excluded(k("a")), Bound::Excluded(k("d"))), vec![k("b"), k("c")]);
    assert_eq!(keys(Bound::Included(k("bb")), Bound::Unbounded), vec![k("c"), k("d")]);
    assert_eq!(keys(Bound::Unbounded, Bound::Excluded(k("b"))), vec![k("a")]);
    assert!(keys(Bound::Included(k("d")), Bound::Included(k("a"))).is_empty());
    assert!(keys(Bound::Excluded(k("b")), Bound::Excluded(k("b"))).is_empty());
    assert_eq!(keys(Bound::Included(k("b")), Bound::Included(k("b"))), vec![k("b")]);
    assert_eq!(dir.range(&Bound::Included(k("c")), &Bound::Unbounded)[0], (k("c"), (200, 2)));
}

#[test]
fn upper_end_of_a_prefix() {
    let excluded = |upper: Bound| match upper {
        Bound::Excluded(end) => Some(end),
        _ => None,
    };
    assert_eq!(excluded(prefix_upper(b"ca")), Some(b"cb".to_vec()));
    assert_eq!(excluded(prefix_upper(b"aaaa")), Some(b"aaab".to_vec()));
    assert_eq!(excluded(prefix_upper(&[0x61, 0xFF])), Some(vec![0x62]));
    assert_eq!(excluded(prefix_upper(&[0x61, 0xFF, 0xFF])), Some(vec![0x62]));
    assert_eq!(excluded(prefix_upper(&[0x61, 0xFE])), Some(vec![0x61, 0xFF]));
    assert!(matches!(prefix_upper(&[0xFF]), Bound::Unbounded));
    assert!(matches!(prefix_upper(&[0xFF, 0xFF]), Bound::Unbounded));
    // The empty prefix has itself as upper end.
    assert_eq!(excluded(prefix_upper(b"")), Some(Vec::new()));
}

#[test]
fn prefix_scan_of_the_directory() {
    let dir = dir_of(&["camhue", "canehe", "ccnaes", "deeae", "ca", "c"]);
    let keys: Vec<Vec<u8>> = dir.prefix_scan(b"ca").into_iter().map(|(k, _)| k).collect();
    assert_eq!(keys, vec![b"ca".to_vec(), b"camhue".to_vec(), b"canehe".to_vec()]);
    assert!(dir.prefix_scan(b"x").is_empty());
    assert!(dir.prefix_scan(b"").is_empty());
}
