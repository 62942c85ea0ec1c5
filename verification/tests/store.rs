use efficient_file_writer::errors::ConfigError;
use efficient_file_writer::errors::ReadError;
use efficient_file_writer::naming::decimal_string;
use efficient_file_writer::naming::file_name;
use efficient_file_writer::reader::EfficientFileReader;
use efficient_file_writer::writer::EfficientFileWriter;

fn new_writer(base: &str, per_file: usize) -> EfficientFileWriter {
    EfficientFileWriter::new(base.to_string(), per_file, ".".to_string()).unwrap()
}

/// Reads every record the writer's segments hold, loading segments in
/// naming order, until the last segment is exhausted.
fn read_back(writer: &EfficientFileWriter, base: &str, per_file: usize) -> Vec<Vec<u8>> {
    let mut reader = EfficientFileReader::new(
        base.to_string(),
        per_file,
        ".".to_string(),
        writer.segment_bytes(0).clone(),
    )
    .unwrap();
    let mut records: Vec<Vec<u8>> = Vec::new();
    let mut next_segment: usize = 1;
    loop {
        match reader.read_line() {
            Ok(rec) => records.push(rec),
            Err(ReadError::EndOfSegment) => break,
            Err(e) => panic!("unexpected read error: {}", e.message()),
        }
        if reader.needs_segment() {
            assert!(next_segment < writer.segment_count());
            reader.load_segment(writer.segment_bytes(next_segment).clone());
            next_segment += 1;
        }
    }
    records
}

#[test]
fn temp_file_request_test() {
    // the writer opens a new segment after the number of writes per file is reached
    let mut writer = new_writer("test", 10);
    assert_eq!(writer.current_file_name(), "test.0");
    for _ in 0..11 {
        writer.write(b"test");
    }
    assert_eq!(writer.current_file_name(), "test.10");
}

#[test]
fn temp_file_write_read_test() {
    let mut writer = new_writer("second_test", 10);
    assert_eq!(writer.current_file_name(), "second_test.0");
    for _ in 0..11 {
        writer.write(b"test");
    }
    writer.flush();

    // the first segment exists and is complete
    assert!(writer.segment_count() == 2);

    let records = read_back(&writer, "second_test", 10);
    assert_eq!(records.len(), 11);
    for buf in &records {
        if buf.as_slice() != b"test" {
            panic!("The reader did not read the correct data");
        }
    }
    assert_eq!(writer.current_file_name(), "second_test.10");
}

#[test]
fn rotation_boundary_two_segments() {
    // exactly N records: two segments, the first full, the second empty
    let mut writer = new_writer("rot", 3);
    writer.write(b"a");
    writer.write(b"b");
    writer.write(b"c");
    assert_eq!(writer.segment_count(), 2);
    assert_eq!(writer.segment_bytes(0).as_slice(), b"a\nb\nc\n");
    assert_eq!(writer.segment_bytes(1).as_slice(), b"");
    assert_eq!(writer.buffered_bytes().as_slice(), b"");
    assert_eq!(writer.current_file_name(), "rot.3");
}

#[test]
fn sub_boundary_single_segment() {
    // N - 1 records: one segment holding them all, still at boundary zero
    let mut writer = new_writer("sub", 3);
    writer.write(b"a");
    writer.write(b"b");
    writer.flush();
    assert_eq!(writer.segment_count(), 1);
    assert_eq!(writer.segment_bytes(0).as_slice(), b"a\nb\n");
    assert_eq!(writer.current_file_name(), "sub.0");
}

#[test]
fn write_returns_framed_length() {
    let mut writer = new_writer("len", 5);
    assert_eq!(writer.write(b"test"), 5);
    assert_eq!(writer.write(b""), 1);
}

#[test]
fn round_trip_mixed_records() {
    // records of different lengths, an empty one included, across three segments
    let inputs: Vec<Vec<u8>> = vec![
        b"alpha".to_vec(),
        b"".to_vec(),
        b"gamma gamma".to_vec(),
        b"d".to_vec(),
        b"epsilon".to_vec(),
    ];
    let mut writer = new_writer("trip", 2);
    for rec in &inputs {
        writer.write(rec.as_slice());
    }
    writer.flush();
    assert_eq!(writer.segment_count(), 3);
    let records = read_back(&writer, "trip", 2);
    assert_eq!(records, inputs);
}

#[test]
fn idempotent_flush() {
    let mut writer = new_writer("flushy", 4);
    writer.write(b"one");
    writer.write(b"two");
    writer.flush();
    let first: Vec<Vec<u8>> = (0..writer.segment_count())
        .map(|i| writer.segment_bytes(i).clone())
        .collect();
    writer.flush();
    let second: Vec<Vec<u8>> = (0..writer.segment_count())
        .map(|i| writer.segment_bytes(i).clone())
        .collect();
    assert_eq!(first, second);
    assert_eq!(writer.records_written(), 2);
}

#[test]
fn config_validation_rejects_zero() {
    assert_eq!(
        EfficientFileWriter::new("x".to_string(), 0, ".".to_string()).err(),
        Some(ConfigError::ZeroWritesPerFile)
    );
    assert_eq!(
        EfficientFileReader::new("x".to_string(), 0, ".".to_string(), Vec::new()).err(),
        Some(ConfigError::ZeroWritesPerFile)
    );
}

#[test]
fn concrete_scenario_eleven_writes() {
    // base "test", threshold 10, the record "test" eleven times
    let mut writer = new_writer("test", 10);
    for _ in 0..11 {
        writer.write(b"test");
    }
    writer.flush();
    assert_eq!(writer.segment_count(), 2);
    let expected_first: Vec<u8> = b"test\n".repeat(10);
    assert_eq!(writer.segment_bytes(0).as_slice(), expected_first.as_slice());
    assert_eq!(writer.segment_bytes(1).as_slice(), b"test\n");
    assert_eq!(writer.current_file_name(), "test.10");

    let records = read_back(&writer, "test", 10);
    assert_eq!(records.len(), 11);
    for rec in &records {
        assert_eq!(rec.as_slice(), b"test");
    }
}

#[test]
fn reader_reports_end_of_segment() {
    let mut reader =
        EfficientFileReader::new("r".to_string(), 2, ".".to_string(), Vec::new()).unwrap();
    assert_eq!(reader.read_line().err(), Some(ReadError::EndOfSegment));
    assert_eq!(reader.records_read(), 0);
}

#[test]
fn reader_reports_missing_delimiter() {
    // a segment that ends mid-record is corruption, not a short read
    let mut reader =
        EfficientFileReader::new("r".to_string(), 2, ".".to_string(), b"partial".to_vec())
            .unwrap();
    assert_eq!(reader.read_line().err(), Some(ReadError::MissingDelimiter));
    // the reader stands where it stood and keeps reporting the corruption
    assert_eq!(reader.read_line().err(), Some(ReadError::MissingDelimiter));
}

#[test]
fn reader_rotates_at_boundary() {
    let mut reader =
        EfficientFileReader::new("seg".to_string(), 2, ".".to_string(), b"a\nb\n".to_vec())
            .unwrap();
    assert_eq!(reader.read_line().unwrap(), b"a".to_vec());
    assert!(!reader.needs_segment());
    assert_eq!(reader.read_line().unwrap(), b"b".to_vec());
    assert!(reader.needs_segment());
    assert_eq!(reader.current_file_name(), "seg.2");
    reader.load_segment(b"c\n".to_vec());
    assert_eq!(reader.read_line().unwrap(), b"c".to_vec());
    assert_eq!(reader.records_read(), 3);
}

#[test]
fn naming_is_decimal_with_no_leading_zeros() {
    assert_eq!(decimal_string(0), "0");
    assert_eq!(decimal_string(7), "7");
    assert_eq!(decimal_string(1000), "1000");
    assert_eq!(decimal_string(90210), "90210");
    assert_eq!(file_name(&"blocks".to_string(), 0), "blocks.0");
    assert_eq!(file_name(&"blocks".to_string(), 123000), "blocks.123000");
}

#[test]
fn writer_and_reader_agree_on_names() {
    let mut writer = new_writer("pair", 2);
    let mut reader =
        EfficientFileReader::new("pair".to_string(), 2, ".".to_string(), b"x\ny\n".to_vec())
            .unwrap();
    assert_eq!(writer.current_file_name(), reader.current_file_name());
    writer.write(b"x");
    reader.read_line().unwrap();
    assert_eq!(writer.current_file_name(), reader.current_file_name());
    writer.write(b"y");
    reader.read_line().unwrap();
    assert_eq!(writer.current_file_name(), "pair.2");
    assert_eq!(reader.current_file_name(), "pair.2");
}
