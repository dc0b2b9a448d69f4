use cosdata::models::common::StoreError;
use cosdata::models::custom_buffered_writer::{CustomBufferedWriter, MAX_FILE_LEN};
use cosdata::models::file_persist::PropFile;

#[test]
fn a_placeholder_is_written_and_patched() {
    let mut writer = CustomBufferedWriter::new(0).unwrap();
    writer.write(&[0xff, 0xff, 0xff, 0xff]).unwrap();
    writer.write(&[1, 2, 3]).unwrap();
    assert_eq!(writer.stream_position(), 7);
    assert_eq!(writer.seek(0).unwrap(), 0);
    writer.write(&7u32.to_le_bytes()).unwrap();
    assert_eq!(writer.stream_position(), 4);
    assert_eq!(writer.seek(7).unwrap(), 7);
    writer.write(&[4]).unwrap();
    assert_eq!(writer.flush(), vec![7, 0, 0, 0, 1, 2, 3, 4]);
}

#[test]
fn a_write_over_the_end_grows_the_buffer() {
    let mut writer = CustomBufferedWriter::new(0).unwrap();
    writer.write(&[1, 2, 3]).unwrap();
    writer.seek(2).unwrap();
    writer.write(&[9, 8, 7]).unwrap();
    assert_eq!(writer.stream_position(), 5);
    assert_eq!(writer.flush(), vec![1, 2, 9, 8, 7]);
}

#[test]
fn positions_are_positions_in_the_file() {
    let mut writer = CustomBufferedWriter::new(100).unwrap();
    assert_eq!(writer.stream_position(), 100);
    writer.write(&[1, 2]).unwrap();
    assert_eq!(writer.stream_position(), 102);
    assert_eq!(writer.seek(101).unwrap(), 101);
    writer.write(&[5]).unwrap();
    assert_eq!(writer.flush(), vec![1, 5]);
    // The flush moves the boundary and the cursor to the end.
    assert_eq!(writer.stream_position(), 102);
    assert!(writer.flush().is_empty());
}

#[test]
fn a_seek_behind_the_flush_boundary_is_refused() {
    let mut writer = CustomBufferedWriter::new(0).unwrap();
    writer.write(&[1, 2, 3, 4]).unwrap();
    writer.flush();
    assert_eq!(writer.seek(3).unwrap_err(), StoreError::BehindFlushBoundary);
    assert_eq!(writer.seek(4).unwrap(), 4);
    assert_eq!(writer.stream_position(), 4);
}

#[test]
fn a_seek_past_the_end_is_refused() {
    let mut writer = CustomBufferedWriter::new(10).unwrap();
    writer.write(&[1, 2]).unwrap();
    assert_eq!(writer.seek(13).unwrap_err(), StoreError::PastEnd);
    assert_eq!(writer.stream_position(), 12);
    assert_eq!(writer.seek(12).unwrap(), 12);
}

#[test]
fn the_file_stays_addressable() {
    assert_eq!(MAX_FILE_LEN, u32::MAX as u64);
    assert!(matches!(
        CustomBufferedWriter::new(MAX_FILE_LEN + 1),
        Err(StoreError::FileTooLarge)
    ));
    let mut writer = CustomBufferedWriter::new(MAX_FILE_LEN - 2).unwrap();
    assert_eq!(writer.write(&[1, 2, 3]).unwrap_err(), StoreError::FileTooLarge);
    assert_eq!(writer.stream_position(), MAX_FILE_LEN - 2);
    writer.write(&[1, 2]).unwrap();
    assert_eq!(writer.stream_position(), MAX_FILE_LEN);
    assert_eq!(writer.write(&[3]).unwrap_err(), StoreError::FileTooLarge);
    writer.write(&[]).unwrap();
    assert_eq!(writer.flush(), vec![1, 2]);
}

#[test]
fn the_property_file_hands_out_offset_and_length() {
    let mut file = PropFile::new(0);
    assert_eq!(file.append(10).unwrap(), (0, 10));
    assert_eq!(file.append(0).unwrap(), (10, 0));
    assert_eq!(file.append(5).unwrap(), (10, 5));
    assert_eq!(file.len, 15);
    let mut full = PropFile::new(MAX_FILE_LEN - 4);
    assert_eq!(full.append(5).unwrap_err(), StoreError::FileTooLarge);
    assert_eq!(full.len, MAX_FILE_LEN - 4);
    assert_eq!(full.append(4).unwrap(), (u32::MAX - 4, 4));
}
