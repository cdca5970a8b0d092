use mini_bitcask::codec::StoreError;
use mini_bitcask::keydir::Bound;
use mini_bitcask::store::MiniBitcask;

#[test]
fn test_point_opt() {
    let mut eng = MiniBitcask::new(Vec::new()).unwrap();

    assert_eq!(eng.get(b"not exist").unwrap(), None);

    eng.set(b"aa", vec![1, 2, 3, 4]).unwrap();
    assert_eq!(eng.get(b"aa").unwrap(), Some(vec![1, 2, 3, 4]));

    eng.set(b"aa", vec![5, 6, 7, 8]).unwrap();
    assert_eq!(eng.get(b"aa").unwrap(), Some(vec![5, 6, 7, 8]));

    eng.delete(b"aa").unwrap();
    assert_eq!(eng.get(b"aa").unwrap(), None);

    assert_eq!(eng.get(b"").unwrap(), None);
    eng.set(b"", vec![]).unwrap();
    assert_eq!(eng.get(b"").unwrap(), Some(vec![]));

    eng.set(b"cc", vec![5, 6, 7, 8]).unwrap();
    assert_eq!(eng.get(b"cc").unwrap(), Some(vec![5, 6, 7, 8]));
}

#[test]
fn test_scan() {
    let mut eng = MiniBitcask::new(Vec::new()).unwrap();

    eng.set(b"nnaes", b"value1".to_vec()).unwrap();
    eng.set(b"amhue", b"value2".to_vec()).unwrap();
    eng.set(b"meeae", b"value3".to_vec()).unwrap();
    eng.set(b"uujeh", b"value4".to_vec()).unwrap();
    eng.set(b"anehe", b"value5".to_vec()).unwrap();

    let start = Bound::Included(b"a".to_vec());
    let end = Bound::Excluded(b"e".to_vec());

    let mut iter = eng.scan((start.clone(), end.clone()));
    let (key1, _) = iter.next().expect("no value founded").unwrap();
    assert_eq!(key1, b"amhue".to_vec());

    let (key2, _) = iter.next().expect("no value founded").unwrap();
    assert_eq!(key2, b"anehe".to_vec());
    drop(iter);

    let start = Bound::Included(b"b".to_vec());
    let end = Bound::Excluded(b"z".to_vec());
    let mut iter2 = eng.scan((start, end));

    let (key3, _) = iter2.next_back().expect("no value founded").unwrap();
    assert_eq!(key3, b"uujeh".to_vec());

    let (key4, _) = iter2.next_back().expect("no value founded").unwrap();
    assert_eq!(key4, b"nnaes".to_vec());

    let (key5, _) = iter2.next_back().expect("no value founded").unwrap();
    assert_eq!(key5, b"meeae".to_vec());
}

#[test]
fn test_scan_prefix() {
    let mut eng = MiniBitcask::new(Vec::new()).unwrap();

    eng.set(b"ccnaes", b"value1".to_vec()).unwrap();
    eng.set(b"camhue", b"value2".to_vec()).unwrap();
    eng.set(b"deeae", b"value3".to_vec()).unwrap();
    eng.set(b"eeujeh", b"value4".to_vec()).unwrap();
    eng.set(b"canehe", b"value5".to_vec()).unwrap();
    eng.set(b"aanehe", b"value6".to_vec()).unwrap();

    let prefix = b"ca";
    let mut iter = eng.scan_prefix(prefix);
    let (key1, _) = iter.next().transpose().unwrap().unwrap();
    assert_eq!(key1, b"camhue".to_vec());
    let (key2, _) = iter.next().transpose().unwrap().unwrap();
    assert_eq!(key2, b"canehe".to_vec());
}

#[test]
fn test_merge() {
    let mut eng = MiniBitcask::new(Vec::new()).unwrap();

    eng.set(b"a", b"value1".to_vec()).unwrap();
    eng.set(b"b", b"value2".to_vec()).unwrap();
    eng.set(b"c", b"value3".to_vec()).unwrap();
    eng.delete(b"a").unwrap();
    eng.delete(b"b").unwrap();
    eng.delete(b"c").unwrap();

    eng.merge().unwrap();

    eng.set(b"a", b"value1".to_vec()).unwrap();
    eng.set(b"b", b"value2".to_vec()).unwrap();
    eng.set(b"c", b"value3".to_vec()).unwrap();

    let val = eng.get(b"a").unwrap();
    assert_eq!(b"value1".to_vec(), val.unwrap());

    let val = eng.get(b"b").unwrap();
    assert_eq!(b"value2".to_vec(), val.unwrap());

    let val = eng.get(b"c").unwrap();
    assert_eq!(b"value3".to_vec(), val.unwrap());
}

fn keys_of(eng: &MiniBitcask, lower: Bound, upper: Bound) -> Vec<Vec<u8>> {
    let mut iter = eng.scan((lower, upper));
    let mut keys = Vec::new();
    while let Some(item) = iter.next() {
        keys.push(item.unwrap().0);
    }
    keys
}

fn sample() -> MiniBitcask {
    let mut eng = MiniBitcask::new(Vec::new()).unwrap();
    for (k, v) in [("nnaes", "1"), ("amhue", "2"), ("meeae", "3"), ("uujeh", "4"), ("anehe", "5")] {
        eng.set(k.as_bytes(), v.as_bytes().to_vec()).unwrap();
    }
    eng
}

#[test]
fn set_then_get_round_trips() {
    let mut eng = MiniBitcask::new(Vec::new()).unwrap();
    eng.set(b"k", b"v".to_vec()).unwrap();
    assert_eq!(eng.get(b"k"), Ok(Some(b"v".to_vec())));
    assert_eq!(eng.get(b"other"), Ok(None));
    assert_eq!(eng.len(), 1);
}

#[test]
fn overwrite_keeps_both_records_in_the_log() {
    let mut eng = MiniBitcask::new(Vec::new()).unwrap();
    eng.set(b"k", b"v1".to_vec()).unwrap();
    eng.set(b"k", b"v2".to_vec()).unwrap();
    assert_eq!(eng.get(b"k"), Ok(Some(b"v2".to_vec())));
    assert_eq!(
        eng.log_bytes(),
        &[0, 0, 0, 1, 0, 0, 0, 2, b'k', b'v', b'1', 0, 0, 0, 1, 0, 0, 0, 2, b'k', b'v', b'2'][..]
    );
    assert_eq!(eng.len(), 1);
}

#[test]
fn delete_removes_and_absent_delete_only_appends() {
    let mut eng = MiniBitcask::new(Vec::new()).unwrap();
    eng.set(b"k", b"v".to_vec()).unwrap();
    eng.delete(b"k").unwrap();
    assert_eq!(eng.get(b"k"), Ok(None));

    eng.set(b"other", b"x".to_vec()).unwrap();
    let before = eng.log_bytes().len();
    eng.delete(b"absent").unwrap();
    assert_eq!(eng.log_bytes().len(), before + 8 + 6);
    assert_eq!(eng.get(b"absent"), Ok(None));
    assert_eq!(eng.get(b"other"), Ok(Some(b"x".to_vec())));
    assert_eq!(eng.len(), 1);
}

#[test]
fn reopen_rebuilds_the_live_keys() {
    let mut eng = MiniBitcask::new(Vec::new()).unwrap();
    eng.set(b"a", b"val1".to_vec()).unwrap();
    eng.set(b"b", b"val2".to_vec()).unwrap();
    eng.set(b"c", b"val3".to_vec()).unwrap();
    eng.set(b"d", b"val4".to_vec()).unwrap();
    eng.delete(b"d").unwrap();
    let stored = eng.log_bytes().to_vec();
    drop(eng);

    let reopened = MiniBitcask::new(stored).unwrap();
    assert_eq!(reopened.len(), 3);
    assert_eq!(reopened.get(b"a"), Ok(Some(b"val1".to_vec())));
    assert_eq!(reopened.get(b"b"), Ok(Some(b"val2".to_vec())));
    assert_eq!(reopened.get(b"c"), Ok(Some(b"val3".to_vec())));
    assert_eq!(reopened.get(b"d"), Ok(None));
}

#[test]
fn open_refuses_a_truncated_log() {
    let mut eng = MiniBitcask::new(Vec::new()).unwrap();
    eng.set(b"key", b"value".to_vec()).unwrap();
    let mut stored = eng.log_bytes().to_vec();
    stored.pop();
    assert_eq!(MiniBitcask::new(stored).err(), Some(StoreError::CorruptLog));
    assert_eq!(MiniBitcask::new(vec![0, 0, 0]).err(), Some(StoreError::CorruptLog));
}

#[test]
fn merge_keeps_values_and_shrinks_the_log() {
    let mut eng = MiniBitcask::new(Vec::new()).unwrap();
    eng.set(b"b", b"old".to_vec()).unwrap();
    eng.set(b"a", b"1".to_vec()).unwrap();
    eng.set(b"b", b"22".to_vec()).unwrap();
    eng.set(b"c", b"333".to_vec()).unwrap();
    eng.delete(b"c").unwrap();
    let before = eng.log_bytes().len();

    eng.merge().unwrap();

    assert!(eng.log_bytes().len() <= before);
    assert_eq!(
        eng.log_bytes(),
        &[0, 0, 0, 1, 0, 0, 0, 1, b'a', b'1', 0, 0, 0, 1, 0, 0, 0, 2, b'b', b'2', b'2'][..]
    );
    assert_eq!(eng.get(b"a"), Ok(Some(b"1".to_vec())));
    assert_eq!(eng.get(b"b"), Ok(Some(b"22".to_vec())));
    assert_eq!(eng.get(b"c"), Ok(None));
    assert_eq!(eng.len(), 2);

    // A second merge changes nothing.
    let merged = eng.log_bytes().to_vec();
    eng.merge().unwrap();
    assert_eq!(eng.log_bytes(), &merged[..]);

    // The merged log reopens to the same contents.
    let reopened = MiniBitcask::new(merged).unwrap();
    assert_eq!(reopened.get(b"a"), Ok(Some(b"1".to_vec())));
    assert_eq!(reopened.get(b"b"), Ok(Some(b"22".to_vec())));
    assert_eq!(reopened.len(), 2);
}

#[test]
fn scan_walks_in_key_order_both_ways() {
    let eng = sample();
    assert_eq!(
        keys_of(&eng, Bound::Unbounded, Bound::Unbounded),
        vec![b"amhue".to_vec(), b"anehe".to_vec(), b"meeae".to_vec(), b"nnaes".to_vec(), b"uujeh".to_vec()]
    );

    let mut iter = eng.scan((Bound::Included(b"b".to_vec()), Bound::Excluded(b"z".to_vec())));
    let mut backward = Vec::new();
    while let Some(item) = iter.next_back() {
        backward.push(item.unwrap());
    }
    assert_eq!(
        backward,
        vec![
            (b"uujeh".to_vec(), b"4".to_vec()),
            (b"nnaes".to_vec(), b"1".to_vec()),
            (b"meeae".to_vec(), b"3".to_vec()),
        ]
    );
    assert!(iter.next().is_none());
}

#[test]
fn scan_meets_in_the_middle() {
    let eng = sample();
    let mut iter = eng.scan((Bound::Unbounded, Bound::Unbounded));
    assert_eq!(iter.next().unwrap().unwrap().0, b"amhue".to_vec());
    assert_eq!(iter.next_back().unwrap().unwrap().0, b"uujeh".to_vec());
    assert_eq!(iter.next().unwrap().unwrap().0, b"anehe".to_vec());
    assert_eq!(iter.next_back().unwrap().unwrap().0, b"nnaes".to_vec());
    assert_eq!(iter.next_back().unwrap().unwrap().0, b"meeae".to_vec());
    assert!(iter.next().is_none());
    assert!(iter.next_back().is_none());
}

#[test]
fn scan_honours_each_kind_of_bound() {
    let eng = sample();
    let k = |s: &str| s.as_bytes().to_vec();
    assert_eq!(
        keys_of(&eng, Bound::Included(k("anehe")), Bound::Included(k("nnaes"))),
        vec![k("anehe"), k("meeae"), k("nnaes")]
    );
    assert_eq!(
        keys_of(&eng, Bound::Excluded(k("anehe")), Bound::Excluded(k("nnaes"))),
        vec![k("meeae")]
    );
    assert_eq!(keys_of(&eng, Bound::Excluded(k("nnaes")), Bound::Unbounded), vec![k("uujeh")]);
    assert_eq!(keys_of(&eng, Bound::Unbounded, Bound::Excluded(k("anehe"))), vec![k("amhue")]);
    // Ends that cross, or that exclude one another, give nothing.
    assert!(keys_of(&eng, Bound::Included(k("z")), Bound::Included(k("a"))).is_empty());
    assert!(keys_of(&eng, Bound::Excluded(k("meeae")), Bound::Excluded(k("meeae"))).is_empty());
    assert!(keys_of(&eng, Bound::Included(k("meeae")), Bound::Excluded(k("meeae"))).is_empty());
}

#[test]
fn prefix_scan_yields_exactly_the_prefixed_keys() {
    let mut eng = MiniBitcask::new(Vec::new()).unwrap();
    for key in ["camhue", "canehe", "ccnaes", "deeae"] {
        eng.set(key.as_bytes(), b"v".to_vec()).unwrap();
    }
    let mut iter = eng.scan_prefix(b"ca");
    assert_eq!(iter.next(), Some(Ok((b"camhue".to_vec(), b"v".to_vec()))));
    assert_eq!(iter.next(), Some(Ok((b"canehe".to_vec(), b"v".to_vec()))));
    assert_eq!(iter.next(), None);
}

#[test]
fn prefix_scan_with_maximal_last_byte() {
    let mut eng = MiniBitcask::new(Vec::new()).unwrap();
    eng.set(&[0x61, 0xFE], vec![0]).unwrap();
    eng.set(&[0x61, 0xFF], vec![1]).unwrap();
    eng.set(&[0x61, 0xFF, 0x00], vec![2]).unwrap();
    eng.set(&[0x61, 0xFF, 0xFF, 0x07], vec![3]).unwrap();
    eng.set(&[0x62], vec![4]).unwrap();
    eng.set(&[0xFF, 0xFF], vec![5]).unwrap();
    eng.set(&[0xFF, 0xFF, 0x01], vec![6]).unwrap();
    eng.set(&[0xFF], vec![7]).unwrap();

    let collect = |prefix: &[u8]| {
        let mut iter = eng.scan_prefix(prefix);
        let mut values = Vec::new();
        while let Some(item) = iter.next() {
            values.push(item.unwrap().1[0]);
        }
        values
    };
    assert_eq!(collect(&[0x61, 0xFF]), vec![1, 2, 3]);
    assert_eq!(collect(&[0x61, 0xFF, 0xFF]), vec![3]);
    assert_eq!(collect(&[0xFF, 0xFF]), vec![5, 6]);
    assert_eq!(collect(&[0xFF]), vec![7, 5, 6]);
    assert_eq!(collect(&[0x61]), vec![0, 1, 2, 3]);
    // The empty prefix stands for the empty range.
    assert_eq!(collect(&[]), Vec::<u8>::new());
}
