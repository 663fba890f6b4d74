use pnmsg::source::{ByteSource, DEFAULT_CAPACITY};

#[test]
fn fill_buf_shows_a_window() {
    let bytes = [1u8, 2, 3, 4, 5, 6, 7];
    let source = ByteSource::with_capacity(3, &bytes);
    assert_eq!(source.fill_buf(), &[1, 2, 3]);
    // Looking does not consume.
    assert_eq!(source.fill_buf(), &[1, 2, 3]);
}

#[test]
fn consume_moves_the_window() {
    let bytes = [1u8, 2, 3, 4, 5, 6, 7];
    let mut source = ByteSource::with_capacity(3, &bytes);
    source.consume(2);
    assert_eq!(source.fill_buf(), &[3, 4, 5]);
    source.consume(3);
    assert_eq!(source.fill_buf(), &[6, 7]);
    source.consume(1);
    assert_eq!(source.fill_buf(), &[7]);
    source.consume(1);
    assert!(source.fill_buf().is_empty());
    source.consume(0);
    assert!(source.fill_buf().is_empty());
}

#[test]
fn consume_stops_at_the_end() {
    let bytes = [1u8, 2, 3];
    let mut source = ByteSource::new(&bytes);
    source.consume(10);
    assert!(source.fill_buf().is_empty());
    assert_eq!(source.read_exact(0), Some(&[][..]));
    assert_eq!(source.read_exact(1), None);
}

#[test]
fn default_window() {
    assert_eq!(DEFAULT_CAPACITY, 8192);
    let bytes = vec![7u8; 10_000];
    let mut source = ByteSource::new(&bytes);
    assert_eq!(source.fill_buf().len(), 8192);
    source.consume(8192);
    assert_eq!(source.fill_buf().len(), 10_000 - 8192);
    let small = [1u8, 2];
    assert_eq!(ByteSource::new(&small).fill_buf(), &[1, 2]);
}

#[test]
fn capacity_zero_counts_as_one() {
    let bytes = [9u8, 8];
    let mut source = ByteSource::with_capacity(0, &bytes);
    assert_eq!(source.fill_buf(), &[9]);
    source.consume(1);
    assert_eq!(source.fill_buf(), &[8]);
}

#[test]
fn read_exact_is_not_bound_by_the_window() {
    let bytes = [1u8, 2, 3, 4, 5, 6, 7];
    let mut source = ByteSource::with_capacity(2, &bytes);
    assert_eq!(source.read_exact(5), Some(&[1, 2, 3, 4, 5][..]));
    assert_eq!(source.fill_buf(), &[6, 7]);
}

#[test]
fn read_exact_fails_without_consuming() {
    let bytes = [1u8, 2, 3];
    let mut source = ByteSource::new(&bytes);
    assert_eq!(source.read_exact(4), None);
    assert_eq!(source.read_exact(usize::MAX), None);
    assert_eq!(source.read_exact(3), Some(&[1, 2, 3][..]));
    assert_eq!(source.read_exact(1), None);
    assert_eq!(source.read_exact(0), Some(&[][..]));
}

#[test]
fn empty_source() {
    let mut source = ByteSource::new(&[]);
    assert!(source.fill_buf().is_empty());
    assert_eq!(source.read_exact(1), None);
    source.consume(1);
    assert!(source.fill_buf().is_empty());
}
