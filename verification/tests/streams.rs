use ooo::{BoundedReader, ByteSource, CountingWriter};

#[test]
fn a_writer_counts_what_it_is_given() {
    let mut writer = CountingWriter::new(Vec::new());
    assert_eq!(writer.bytes_written(), 0);
    assert_eq!(writer.write(b"abc"), 3);
    writer.write_all(b"de");
    writer.write_all(b"");
    assert_eq!(writer.bytes_written(), 5);
    assert_eq!(writer.inner, b"abcde");
}

#[test]
fn a_writer_does_not_count_what_was_there_before() {
    let mut writer = CountingWriter::new(b"old ".to_vec());
    writer.write_all(b"new");
    assert_eq!(writer.bytes_written(), 3);
    assert_eq!(writer.inner, b"old new");
}

#[test]
fn a_writer_counts_what_others_wrote() {
    let mut writer = CountingWriter::new(());
    writer.wrote(7);
    writer.wrote(5);
    assert_eq!(writer.bytes_written(), 12);
}

#[test]
fn a_bounded_reader_stops_at_its_bound() {
    let mut source = ByteSource::new(b"0123456789");
    source.seek(2);
    let mut reader = BoundedReader::new(&mut source, 5);
    assert_eq!(reader.read(3), b"234");
    assert_eq!(reader.bytes_left, 2);
    assert_eq!(reader.read(3), b"56");
    assert_eq!(reader.read(3), b"");
    assert_eq!(source.position, 7);
    assert_eq!(source.read(2), b"78");
}

#[test]
fn a_bounded_reader_stops_at_the_end_of_its_source() {
    let mut source = ByteSource::new(b"abc");
    let mut reader = BoundedReader::new(&mut source, 10);
    assert_eq!(reader.limit(4), 4);
    assert_eq!(reader.limit(40), 10);
    assert_eq!(reader.read_to_end(), b"abc");
    assert_eq!(reader.bytes_left, 7);
    assert_eq!(reader.read_to_end(), b"");
}

#[test]
fn a_source_may_be_read_past_its_end() {
    let mut source = ByteSource::new(b"abc");
    source.seek(9);
    assert_eq!(source.read(2), b"");
    assert_eq!(source.position, 9);
}

#[test]
fn the_count_is_the_sum_of_all_writes() {
    let parts = [b"ab".to_vec(), Vec::new(), b"cdef".to_vec(), b"g".to_vec()];
    let mut writer = CountingWriter::new(b"> ".to_vec());
    for part in &parts {
        writer.write_all(part);
    }
    assert_eq!(writer.bytes_written(), 7);
    assert_eq!(writer.inner, b"> abcdefg");
}

#[test]
fn reads_of_any_lengths_deliver_a_prefix_up_to_the_bound() {
    for lengths in [[1usize, 2, 3, 4], [4, 0, 9, 1], [0, 0, 0, 5], [7, 7, 7, 7]] {
        let mut source = ByteSource::new(b"0123456789");
        let mut reader = BoundedReader::new(&mut source, 8);
        let mut delivered = Vec::new();
        for length in lengths {
            delivered.extend(reader.read(length));
        }
        let expected = lengths.iter().sum::<usize>().min(8);
        assert_eq!(delivered, b"0123456789"[..expected]);
        assert_eq!(reader.bytes_left, 8 - expected);
    }
}

#[test]
fn a_reader_inside_that_gives_less_or_fails_uses_up_what_it_gave() {
    let mut inner = ();
    let mut reader = BoundedReader::new(&mut inner, 10);
    assert_eq!(reader.limit(6), 6);
    reader.took(4);
    assert_eq!(reader.limit(60), 6);
    reader.took(0);
    assert_eq!(reader.limit(60), 6);
    reader.took(6);
    assert_eq!(reader.limit(1), 0);
}
