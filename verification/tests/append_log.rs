use filekv::error::Error;
use filekv::file::Dirty;
use filekv::{KeyIndex, KvEngine};

fn open_empty() -> KvEngine {
    KvEngine::new("peer".to_string(), Vec::new(), Vec::new()).unwrap()
}

#[test]
fn append_open_on_empty_files() {
    let e = open_empty();
    assert_eq!(e.name(), "peer");
    assert_eq!(e.end_of_data(), 0);
    assert!(e.data_bytes().is_empty());
    assert!(e.index_bytes().is_empty());
    assert_eq!(e.get(b"a".to_vec()), Ok(Vec::new()));
}

#[test]
fn append_set_then_get_returns_the_value() {
    let mut e = open_empty();
    let dirty = e.set(b"k".to_vec(), b"hello".to_vec());
    assert_eq!(dirty, Ok(Dirty { data_from: 0, index_from: 0 }));
    assert_eq!(e.get(b"k".to_vec()), Ok(b"hello".to_vec()));
    assert_eq!(e.data_bytes().as_slice(), b"hello");
    assert_eq!(e.index_bytes().as_slice(), b"k,5\n");
    assert_eq!(e.end_of_data(), 5);
    assert_eq!(e.locate(&b"k".to_vec()), Some(KeyIndex { offset: 0, size: 5 }));
}

#[test]
fn append_overwrite_appends_a_new_record() {
    let mut e = open_empty();
    e.set(b"k".to_vec(), b"one".to_vec()).unwrap();
    e.set(b"j".to_vec(), b"two".to_vec()).unwrap();
    let dirty = e.set(b"k".to_vec(), b"three".to_vec());
    assert_eq!(dirty, Ok(Dirty { data_from: 6, index_from: 8 }));
    assert_eq!(e.data_bytes().as_slice(), b"onetwothree");
    assert_eq!(e.index_bytes().as_slice(), b"k,3\nj,3\nk,5\n");
    assert_eq!(e.get(b"k".to_vec()), Ok(b"three".to_vec()));
    assert_eq!(e.get(b"j".to_vec()), Ok(b"two".to_vec()));
    assert_eq!(e.locate(&b"k".to_vec()), Some(KeyIndex { offset: 6, size: 5 }));
}

#[test]
fn append_get_of_missing_key_is_empty() {
    let mut e = open_empty();
    e.set(b"a".to_vec(), b"1".to_vec()).unwrap();
    assert_eq!(e.get(b"b".to_vec()), Ok(Vec::new()));
    assert_eq!(e.locate(&b"b".to_vec()), None);
}

#[test]
fn append_empty_value_is_stored() {
    let mut e = open_empty();
    e.set(b"a".to_vec(), Vec::new()).unwrap();
    e.set(b"b".to_vec(), b"x".to_vec()).unwrap();
    assert_eq!(e.get(b"a".to_vec()), Ok(Vec::new()));
    assert_eq!(e.locate(&b"a".to_vec()), Some(KeyIndex { offset: 0, size: 0 }));
    assert_eq!(e.index_bytes().as_slice(), b"a,0\nb,1\n");
}

#[test]
fn scan_all_is_strictly_ascending() {
    let mut e = open_empty();
    for k in [&b"m"[..], b"a", b"zz", b"ab", b"z", b"b"] {
        e.set(k.to_vec(), [k, &b"!"[..]].concat()).unwrap();
    }
    let (keys, vals) = e.scan(Vec::new(), Vec::new()).unwrap();
    let expected: Vec<Vec<u8>> =
        vec![b"a".to_vec(), b"ab".to_vec(), b"b".to_vec(), b"m".to_vec(), b"z".to_vec(), b"zz".to_vec()];
    assert_eq!(keys, expected);
    for i in 1..keys.len() {
        assert!(keys[i - 1] < keys[i]);
    }
    let expected_vals: Vec<Vec<u8>> = expected.iter().map(|k| [&k[..], &b"!"[..]].concat()).collect();
    assert_eq!(vals, expected_vals);
}

#[test]
fn scan_bounds_are_inclusive() {
    let mut e = open_empty();
    for k in [&b"a"[..], b"b", b"c", b"d", b"e"] {
        e.set(k.to_vec(), k.to_vec()).unwrap();
    }
    let (keys, vals) = e.scan(b"b".to_vec(), b"d".to_vec()).unwrap();
    assert_eq!(keys, vec![b"b".to_vec(), b"c".to_vec(), b"d".to_vec()]);
    assert_eq!(vals, vec![b"b".to_vec(), b"c".to_vec(), b"d".to_vec()]);
    let (keys, _) = e.scan(b"bb".to_vec(), b"cz".to_vec()).unwrap();
    assert_eq!(keys, vec![b"c".to_vec()]);
}

#[test]
fn scan_with_one_empty_bound() {
    let mut e = open_empty();
    for k in [&b"a"[..], b"b", b"c"] {
        e.set(k.to_vec(), k.to_vec()).unwrap();
    }
    let (keys, _) = e.scan(Vec::new(), b"b".to_vec()).unwrap();
    assert_eq!(keys, vec![b"a".to_vec(), b"b".to_vec()]);
    let (keys, _) = e.scan(b"b".to_vec(), Vec::new()).unwrap();
    assert_eq!(keys, vec![b"b".to_vec(), b"c".to_vec()]);
}

#[test]
fn scan_of_reversed_bounds_is_empty() {
    let mut e = open_empty();
    for k in [&b"a"[..], b"b", b"c"] {
        e.set(k.to_vec(), k.to_vec()).unwrap();
    }
    let (keys, vals) = e.scan(b"c".to_vec(), b"a".to_vec()).unwrap();
    assert!(keys.is_empty());
    assert!(vals.is_empty());
    let (keys, _) = e.scan(b"x".to_vec(), b"y".to_vec()).unwrap();
    assert!(keys.is_empty());
}

#[test]
fn scan_reads_each_value_at_its_own_offset() {
    let mut e = open_empty();
    e.set(b"b".to_vec(), b"second".to_vec()).unwrap();
    e.set(b"a".to_vec(), b"first".to_vec()).unwrap();
    e.set(b"b".to_vec(), b"again".to_vec()).unwrap();
    let (keys, vals) = e.scan(Vec::new(), Vec::new()).unwrap();
    assert_eq!(keys, vec![b"a".to_vec(), b"b".to_vec()]);
    assert_eq!(vals, vec![b"first".to_vec(), b"again".to_vec()]);
}

#[test]
fn next_is_the_smallest_greater_key() {
    let mut e = open_empty();
    e.set(b"a".to_vec(), b"va".to_vec()).unwrap();
    e.set(b"c".to_vec(), b"vc".to_vec()).unwrap();
    e.set(b"e".to_vec(), b"ve".to_vec()).unwrap();
    assert_eq!(e.next(b"b".to_vec()), Ok((b"c".to_vec(), b"vc".to_vec())));
    assert_eq!(e.next(b"a".to_vec()), Ok((b"c".to_vec(), b"vc".to_vec())));
    assert_eq!(e.next(b"c".to_vec()), Ok((b"e".to_vec(), b"ve".to_vec())));
    assert_eq!(e.next(Vec::new()), Ok((b"a".to_vec(), b"va".to_vec())));
}

#[test]
fn next_after_the_last_key_is_the_sentinel() {
    let mut e = open_empty();
    assert_eq!(e.next(b"a".to_vec()), Ok((Vec::new(), Vec::new())));
    e.set(b"a".to_vec(), b"va".to_vec()).unwrap();
    assert_eq!(e.next(b"a".to_vec()), Ok((Vec::new(), Vec::new())));
    assert_eq!(e.next(b"z".to_vec()), Ok((Vec::new(), Vec::new())));
}

#[test]
fn next_orders_a_prefix_before_the_longer_key() {
    let mut e = open_empty();
    e.set(b"ab".to_vec(), b"1".to_vec()).unwrap();
    e.set(b"a".to_vec(), b"2".to_vec()).unwrap();
    e.set(vec![0x61, 0xff], b"3".to_vec()).unwrap();
    assert_eq!(e.next(b"a".to_vec()), Ok((b"ab".to_vec(), b"1".to_vec())));
    assert_eq!(e.next(b"ab".to_vec()), Ok((vec![0x61, 0xff], b"3".to_vec())));
}

#[test]
fn append_reopen_gives_the_same_store() {
    let mut e = open_empty();
    e.set(b"a".to_vec(), b"alpha".to_vec()).unwrap();
    e.set(b"b".to_vec(), b"beta".to_vec()).unwrap();
    e.set(b"a".to_vec(), b"again".to_vec()).unwrap();
    let again =
        KvEngine::new("peer".to_string(), e.data_bytes().clone(), e.index_bytes().clone()).unwrap();
    assert_eq!(again.end_of_data(), e.end_of_data());
    assert_eq!(again.data_bytes(), e.data_bytes());
    assert_eq!(again.index_bytes(), e.index_bytes());
    for k in [&b"a"[..], b"b", b"c"] {
        assert_eq!(again.get(k.to_vec()), e.get(k.to_vec()));
        assert_eq!(again.locate(&k.to_vec()), e.locate(&k.to_vec()));
    }
    assert_eq!(again.scan(Vec::new(), Vec::new()), e.scan(Vec::new(), Vec::new()));
}

#[test]
fn append_close_then_open_gives_the_same_store() {
    let mut e = open_empty();
    e.set(b"a".to_vec(), b"alpha".to_vec()).unwrap();
    e.set(b"b".to_vec(), b"beta".to_vec()).unwrap();
    let expected = e.scan(Vec::new(), Vec::new());
    let (data, index) = e.close();
    assert_eq!(data, b"alphabeta".to_vec());
    assert_eq!(index, b"a,5\nb,4\n".to_vec());
    let again = KvEngine::new("peer".to_string(), data, index).unwrap();
    assert_eq!(again.scan(Vec::new(), Vec::new()), expected);
}

#[test]
fn append_replay_sums_the_sizes() {
    let e = KvEngine::new("n".to_string(), b"aaabbcccc".to_vec(), b"x,3\ny,2\nz,4\n".to_vec()).unwrap();
    assert_eq!(e.locate(&b"x".to_vec()), Some(KeyIndex { offset: 0, size: 3 }));
    assert_eq!(e.locate(&b"y".to_vec()), Some(KeyIndex { offset: 3, size: 2 }));
    assert_eq!(e.locate(&b"z".to_vec()), Some(KeyIndex { offset: 5, size: 4 }));
    assert_eq!(e.end_of_data(), 9);
    assert_eq!(e.get(b"y".to_vec()), Ok(b"bb".to_vec()));
    assert_eq!(e.get(b"z".to_vec()), Ok(b"cccc".to_vec()));
}

#[test]
fn append_replay_stops_at_a_malformed_line() {
    let e = KvEngine::new("n".to_string(), b"aaabb".to_vec(), b"x,3\nbroken\ny,2\n".to_vec()).unwrap();
    assert_eq!(e.locate(&b"x".to_vec()), Some(KeyIndex { offset: 0, size: 3 }));
    assert_eq!(e.locate(&b"y".to_vec()), None);
    assert_eq!(e.end_of_data(), 3);
    assert_eq!(e.index_bytes().as_slice(), b"x,3\n");
    assert_eq!(e.data_bytes().as_slice(), b"aaa");
}

#[test]
fn append_replay_drops_a_record_cut_short() {
    for tail in [&b"y"[..], b"y,", b"y,2", b"y,2,", b"y,x\n", b"y,2,1\n", b",\n", b"\n"] {
        let mut index = b"x,3\n".to_vec();
        index.extend_from_slice(tail);
        let e = KvEngine::new("n".to_string(), b"aaabb".to_vec(), index).unwrap();
        assert_eq!(e.locate(&b"x".to_vec()), Some(KeyIndex { offset: 0, size: 3 }));
        assert_eq!(e.locate(&b"y".to_vec()), None);
        assert_eq!(e.index_bytes().as_slice(), b"x,3\n");
        assert_eq!(e.end_of_data(), 3);
    }
}

#[test]
fn append_set_after_a_cut_index_keeps_the_files_in_step() {
    let mut e = KvEngine::new("n".to_string(), b"aaabb".to_vec(), b"x,3\ny,".to_vec()).unwrap();
    assert_eq!(e.set(b"z".to_vec(), b"cc".to_vec()), Ok(Dirty { data_from: 3, index_from: 4 }));
    assert_eq!(e.data_bytes().as_slice(), b"aaacc");
    assert_eq!(e.index_bytes().as_slice(), b"x,3\nz,2\n");
    assert_eq!(e.get(b"z".to_vec()), Ok(b"cc".to_vec()));
    assert_eq!(e.get(b"x".to_vec()), Ok(b"aaa".to_vec()));
}

#[test]
fn append_open_fails_when_the_index_describes_more_than_the_data() {
    let r = KvEngine::new("n".to_string(), b"aaab".to_vec(), b"x,3\ny,2\n".to_vec());
    assert_eq!(r.err(), Some(Error::CorruptIndex));
    let r = KvEngine::new("n".to_string(), Vec::new(), b"x,18446744073709551615\ny,1\n".to_vec());
    assert_eq!(r.err(), Some(Error::CorruptIndex));
}

#[test]
fn append_empty_key_is_an_ordinary_key() {
    let mut e = open_empty();
    e.set(Vec::new(), b"v".to_vec()).unwrap();
    assert_eq!(e.index_bytes().as_slice(), b",1\n");
    assert_eq!(e.get(Vec::new()), Ok(b"v".to_vec()));
    let again = KvEngine::new("n".to_string(), e.data_bytes().clone(), e.index_bytes().clone()).unwrap();
    assert_eq!(again.get(Vec::new()), Ok(b"v".to_vec()));
}
