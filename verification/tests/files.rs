use filekv::error::Error;
use filekv::file::{data_file_name, index_file_name, seek_for, FileImage, SeekFrom};

#[test]
fn seek_goes_the_shorter_way() {
    assert_eq!(seek_for(0, 100), SeekFrom::Start(0));
    assert_eq!(seek_for(10, 100), SeekFrom::Start(10));
    assert_eq!(seek_for(50, 100), SeekFrom::Start(50));
    assert_eq!(seek_for(51, 100), SeekFrom::End(-49));
    assert_eq!(seek_for(90, 100), SeekFrom::End(-10));
    assert_eq!(seek_for(100, 100), SeekFrom::End(0));
    assert_eq!(seek_for(0, 0), SeekFrom::Start(0));
    assert_eq!(seek_for(1, 1), SeekFrom::End(0));
    assert_eq!(seek_for(1, 3), SeekFrom::Start(1));
    assert_eq!(seek_for(2, 3), SeekFrom::End(-1));
}

#[test]
fn seek_beyond_the_end_goes_from_the_start() {
    assert_eq!(seek_for(101, 100), SeekFrom::Start(101));
    assert_eq!(seek_for(usize::MAX, 0), SeekFrom::Start(u64::MAX));
}

#[test]
fn seek_from_the_end_fits_at_the_limits() {
    assert_eq!(seek_for(usize::MAX, usize::MAX), SeekFrom::End(0));
    assert_eq!(seek_for(usize::MAX / 2 + 1, usize::MAX), SeekFrom::End(-(i64::MAX)));
    assert_eq!(seek_for(usize::MAX / 2, usize::MAX), SeekFrom::Start(u64::MAX / 2));
}

#[test]
fn both_seeks_reach_the_same_position() {
    let file = FileImage::new((0u8..100).collect());
    for target in 0..=100usize {
        assert_eq!(file.seek(seek_for(target, 100)), Ok(target));
        assert_eq!(file.seek(SeekFrom::Start(target as u64)), Ok(target));
        assert_eq!(file.seek(SeekFrom::End(target as i64 - 100)), Ok(target));
        assert_eq!(
            file.read(SeekFrom::Start(target as u64), 3),
            file.read(SeekFrom::End(target as i64 - 100), 3)
        );
    }
}

#[test]
fn seek_before_the_start_is_invalid_input() {
    let mut file = FileImage::new(b"abc".to_vec());
    assert_eq!(file.seek(SeekFrom::End(-4)), Err(Error::InvalidInput));
    assert_eq!(file.read(SeekFrom::End(-4), 1), Err(Error::InvalidInput));
    assert_eq!(file.write(SeekFrom::End(i64::MIN), b"x"), Err(Error::InvalidInput));
    assert_eq!(file.bytes().as_slice(), b"abc");
    assert_eq!(file.seek(SeekFrom::End(-3)), Ok(0));
    assert_eq!(file.seek(SeekFrom::End(2)), Ok(5));
}

#[test]
fn read_gives_the_bytes_at_the_position() {
    let file = FileImage::new(b"0123456789".to_vec());
    assert_eq!(file.len(), 10);
    assert_eq!(file.read(SeekFrom::Start(2), 3), Ok(b"234".to_vec()));
    assert_eq!(file.read(SeekFrom::End(-3), 3), Ok(b"789".to_vec()));
    assert_eq!(file.read(SeekFrom::Start(0), 0), Ok(Vec::new()));
    assert_eq!(file.read(SeekFrom::Start(0), 10), Ok(b"0123456789".to_vec()));
}

#[test]
fn read_beyond_the_end_gives_zeros() {
    let file = FileImage::new(b"0123".to_vec());
    assert_eq!(file.read(SeekFrom::Start(2), 4), Ok(b"23\0\0".to_vec()));
    assert_eq!(file.read(SeekFrom::Start(4), 2), Ok(b"\0\0".to_vec()));
    assert_eq!(file.read(SeekFrom::Start(9), 2), Ok(b"\0\0".to_vec()));
    assert_eq!(file.read(SeekFrom::End(1), 1), Ok(b"\0".to_vec()));
}

#[test]
fn write_replaces_and_extends() {
    let mut file = FileImage::new(b"0123456789".to_vec());
    assert_eq!(file.write(SeekFrom::Start(2), b"abc"), Ok(()));
    assert_eq!(file.bytes().as_slice(), b"01abc56789");
    assert_eq!(file.write(SeekFrom::End(-2), b"wxyz"), Ok(()));
    assert_eq!(file.bytes().as_slice(), b"01abc567wxyz");
    assert_eq!(file.write(SeekFrom::End(0), b"!"), Ok(()));
    assert_eq!(file.bytes().as_slice(), b"01abc567wxyz!");
    assert_eq!(file.write(SeekFrom::Start(5), b""), Ok(()));
    assert_eq!(file.bytes().as_slice(), b"01abc567wxyz!");
    assert_eq!(file.len(), 13);
}

#[test]
fn write_beyond_the_end_fills_the_gap_with_zeros() {
    let mut file = FileImage::new(b"ab".to_vec());
    assert_eq!(file.write(SeekFrom::Start(4), b"xy"), Ok(()));
    assert_eq!(file.bytes().as_slice(), b"ab\0\0xy");
    let mut file = FileImage::new(Vec::new());
    assert_eq!(file.write(SeekFrom::End(2), b""), Ok(()));
    assert_eq!(file.bytes().as_slice(), b"\0\0");
}

#[test]
fn set_len_cuts_and_extends() {
    let mut file = FileImage::new(b"0123456789".to_vec());
    file.set_len(4);
    assert_eq!(file.bytes().as_slice(), b"0123");
    file.set_len(4);
    assert_eq!(file.bytes().as_slice(), b"0123");
    file.set_len(6);
    assert_eq!(file.bytes().as_slice(), b"0123\0\0");
    file.set_len(0);
    assert!(file.bytes().is_empty());
}

#[test]
fn a_file_gives_up_its_content() {
    let mut file = FileImage::new(b"ab".to_vec());
    file.write(SeekFrom::End(0), b"cd").unwrap();
    assert_eq!(file.into_bytes(), b"abcd".to_vec());
}

#[test]
fn files_are_named_after_the_engine() {
    assert_eq!(data_file_name("peer"), "peer.kv");
    assert_eq!(index_file_name("peer"), "peer.idx");
    assert_eq!(data_file_name(""), ".kv");
    assert_eq!(index_file_name("a.b/c"), "a.b/c.idx");
}
