use filekv::bytes::{clone_bytes, copy_range, find_byte, is_key_ok, same_bytes};
use filekv::decimal::{encode_usize, parse_usize};
use filekv::record::{push_all, read_line, read_records, write_line, KeyIndex, Layout};

#[test]
fn find_byte_gives_the_first_position() {
    assert_eq!(find_byte(b"ab,cd,e", 0, b','), 2);
    assert_eq!(find_byte(b"ab,cd,e", 2, b','), 2);
    assert_eq!(find_byte(b"ab,cd,e", 3, b','), 5);
    assert_eq!(find_byte(b"ab,cd,e", 6, b','), 7);
    assert_eq!(find_byte(b"ab,cd,e", 7, b','), 7);
    assert_eq!(find_byte(b"", 0, b','), 0);
}

#[test]
fn same_bytes_compares_content() {
    assert!(same_bytes(b"", b""));
    assert!(same_bytes(b"abc", b"abc"));
    assert!(!same_bytes(b"abc", b"abd"));
    assert!(!same_bytes(b"abc", b"ab"));
    assert!(!same_bytes(b"", b"a"));
}

#[test]
fn copies_hold_the_bytes() {
    assert_eq!(copy_range(b"abcdef", 2, 5), b"cde".to_vec());
    assert_eq!(copy_range(b"abcdef", 3, 3), Vec::<u8>::new());
    assert_eq!(copy_range(b"abcdef", 0, 6), b"abcdef".to_vec());
    assert_eq!(clone_bytes(&b"xyz".to_vec()), b"xyz".to_vec());
}

#[test]
fn a_key_with_a_delimiter_is_not_ok() {
    assert!(is_key_ok(b""));
    assert!(is_key_ok(b"plain key"));
    assert!(is_key_ok(&[0u8, 255, 43]));
    assert!(!is_key_ok(b"a,b"));
    assert!(!is_key_ok(b"a\n"));
    assert!(!is_key_ok(b","));
}

#[test]
fn numerals_are_read() {
    assert_eq!(parse_usize(b"0"), Some(0));
    assert_eq!(parse_usize(b"7"), Some(7));
    assert_eq!(parse_usize(b"120"), Some(120));
    assert_eq!(parse_usize(b"007"), Some(7));
    assert_eq!(parse_usize(b"+42"), Some(42));
    assert_eq!(parse_usize(b"18446744073709551615"), Some(usize::MAX));
}

#[test]
fn what_is_no_numeral_is_refused() {
    assert_eq!(parse_usize(b""), None);
    assert_eq!(parse_usize(b"+"), None);
    assert_eq!(parse_usize(b"-1"), None);
    assert_eq!(parse_usize(b"++1"), None);
    assert_eq!(parse_usize(b"1+"), None);
    assert_eq!(parse_usize(b" 1"), None);
    assert_eq!(parse_usize(b"1 "), None);
    assert_eq!(parse_usize(b"12a"), None);
    assert_eq!(parse_usize(b"0x10"), None);
    assert_eq!(parse_usize(b"18446744073709551616"), None);
    assert_eq!(parse_usize(b"99999999999999999999999999"), None);
    assert_eq!(parse_usize(&[0xff, 0x31]), None);
}

#[test]
fn numerals_are_written_shortest() {
    assert_eq!(encode_usize(0), b"0".to_vec());
    assert_eq!(encode_usize(9), b"9".to_vec());
    assert_eq!(encode_usize(10), b"10".to_vec());
    assert_eq!(encode_usize(1203), b"1203".to_vec());
    assert_eq!(encode_usize(usize::MAX), usize::MAX.to_string().into_bytes());
}

#[test]
fn written_numerals_read_back() {
    for n in [0usize, 1, 9, 10, 99, 100, 12345, 1 << 31, usize::MAX - 1, usize::MAX] {
        assert_eq!(parse_usize(&encode_usize(n)), Some(n));
    }
}

#[test]
fn lines_are_written_in_both_layouts() {
    let mut out = b"head".to_vec();
    write_line(&mut out, b"key", &KeyIndex { offset: 12, size: 345 }, &Layout::KeySize);
    assert_eq!(out, b"headkey,345\n".to_vec());
    let mut out = Vec::new();
    write_line(&mut out, b"key", &KeyIndex { offset: 12, size: 345 }, &Layout::KeyOffsetSize);
    assert_eq!(out, b"key,12,345\n".to_vec());
    let mut out = Vec::new();
    write_line(&mut out, b"", &KeyIndex { offset: 0, size: 0 }, &Layout::KeyOffsetSize);
    assert_eq!(out, b",0,0\n".to_vec());
}

#[test]
fn push_all_appends() {
    let mut out = b"ab".to_vec();
    push_all(&mut out, b"cd");
    push_all(&mut out, b"");
    assert_eq!(out, b"abcd".to_vec());
}

#[test]
fn lines_are_read_in_both_layouts() {
    let r = read_line(b"key,345", &Layout::KeySize).unwrap();
    assert_eq!(r.key, b"key".to_vec());
    assert_eq!(r.index, KeyIndex { offset: 0, size: 345 });
    let r = read_line(b"key,12,345", &Layout::KeyOffsetSize).unwrap();
    assert_eq!(r.key, b"key".to_vec());
    assert_eq!(r.index, KeyIndex { offset: 12, size: 345 });
    let r = read_line(b",5", &Layout::KeySize).unwrap();
    assert_eq!(r.key, Vec::<u8>::new());
    assert_eq!(r.index, KeyIndex { offset: 0, size: 5 });
}

#[test]
fn lines_with_another_number_of_fields_hold_no_record() {
    for line in [&b""[..], b"key", b"key,", b"key,1,2", b"key,1,", b"key,,1", b"k,e,y,1"] {
        assert!(read_line(line, &Layout::KeySize).is_none());
    }
    for line in [&b""[..], b"key", b"key,1", b"key,1,", b"key,,2", b"key,1,2,3", b"key,1,2,", b",,"] {
        assert!(read_line(line, &Layout::KeyOffsetSize).is_none());
    }
}

#[test]
fn written_lines_read_back() {
    for layout in [Layout::KeySize, Layout::KeyOffsetSize] {
        for (key, offset, size) in [(&b"a"[..], 0usize, 0usize), (b"some key", 7, 1000), (b"", usize::MAX, 1)] {
            let mut line = Vec::new();
            write_line(&mut line, key, &KeyIndex { offset, size }, &layout);
            assert_eq!(line.pop(), Some(b'\n'));
            let fields = line.iter().filter(|b| **b == b',').count() + 1;
            assert_eq!(fields, if layout == Layout::KeySize { 2 } else { 3 });
            let r = read_line(&line, &layout).unwrap();
            assert_eq!(r.key, key.to_vec());
            assert_eq!(r.index.size, size);
            assert_eq!(r.index.offset, if layout == Layout::KeySize { 0 } else { offset });
        }
    }
}

#[test]
fn replay_reads_the_whole_records() {
    let (records, used) = read_records(b"a,1\nbb,22\nccc,333\n", &Layout::KeySize);
    assert_eq!(used, 18);
    let got: Vec<(Vec<u8>, usize)> = records.iter().map(|r| (r.key.clone(), r.index.size)).collect();
    assert_eq!(got, vec![(b"a".to_vec(), 1), (b"bb".to_vec(), 22), (b"ccc".to_vec(), 333)]);
    let (records, used) = read_records(b"", &Layout::KeySize);
    assert_eq!((records.len(), used), (0, 0));
}

#[test]
fn replay_of_a_cut_file_drops_only_the_unfinished_record() {
    let whole = b"a,0,1\nbb,1,22\nccc,23,333\n";
    let ends = [0usize, 6, 14, 25];
    for cut in 0..=whole.len() {
        let (records, used) = read_records(&whole[..cut], &Layout::KeyOffsetSize);
        let expected = ends.iter().filter(|e| **e <= cut).count() - 1;
        assert_eq!(records.len(), expected);
        assert_eq!(used, ends[expected]);
        if expected > 1 {
            assert_eq!(records[1].key, b"bb".to_vec());
            assert_eq!(records[1].index, KeyIndex { offset: 1, size: 22 });
        }
    }
}

#[test]
fn replay_stops_at_the_first_line_without_a_record() {
    let (records, used) = read_records(b"a,1\n\nb,2\n", &Layout::KeySize);
    assert_eq!((records.len(), used), (1, 4));
    let (records, used) = read_records(b"a,1\nb,2,3\nc,4\n", &Layout::KeySize);
    assert_eq!((records.len(), used), (1, 4));
    let (records, used) = read_records(b"a,1\nb,2\n", &Layout::KeyOffsetSize);
    assert_eq!((records.len(), used), (0, 0));
}

#[test]
fn records_are_cloned_with_their_key() {
    let (records, _) = read_records(b"a,1\n", &Layout::KeySize);
    let copy = records[0].clone();
    assert_eq!(copy.key, b"a".to_vec());
    assert_eq!(copy.index, KeyIndex { offset: 0, size: 1 });
}
