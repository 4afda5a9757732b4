use geotree::deserialize::{AlignedReader, Deserialize};
use geotree::serialize::{AlignedWriter, Discard, Serialize, SerializeError};
use geotree::{Bounds, Scalar};

fn written<S: Serialize>(value: &S) -> Vec<u8> {
    let mut writer = AlignedWriter::new(Vec::new());
    value.serialize(&mut writer).unwrap();
    writer.into_inner()
}

#[test]
fn scalars_are_stored_lowest_byte_first() {
    assert_eq!(0x0102u16.to_bytes(), vec![0x02, 0x01]);
    assert_eq!(0x01020304u32.to_bytes(), vec![0x04, 0x03, 0x02, 0x01]);
    assert_eq!(
        0x0102030405060708u64.to_bytes(),
        vec![0x08, 0x07, 0x06, 0x05, 0x04, 0x03, 0x02, 0x01]
    );
    assert_eq!(7u8.to_bytes(), vec![7]);
    assert_eq!((-2i32).to_bytes(), vec![0xfe, 0xff, 0xff, 0xff]);
    assert_eq!(
        0x0102030405060708090a0b0c0d0e0f10u128.to_bytes(),
        (1..=16u8).rev().collect::<Vec<u8>>()
    );
}

#[test]
fn scalars_are_read_lowest_byte_first() {
    assert_eq!(<u16 as Scalar>::read(&[0x02, 0x01]), 0x0102);
    assert_eq!(<u32 as Scalar>::read(&[0x04, 0x03, 0x02, 0x01]), 0x01020304);
    assert_eq!(
        <u64 as Scalar>::read(&[0x08, 0x07, 0x06, 0x05, 0x04, 0x03, 0x02, 0x01]),
        0x0102030405060708
    );
    assert_eq!(<u8 as Scalar>::read(&[9]), 9);
    assert_eq!(<i32 as Scalar>::read(&[0xfe, 0xff, 0xff, 0xff]), -2);
    assert_eq!(
        <u128 as Scalar>::read(&(1..=16u8).rev().collect::<Vec<u8>>()),
        0x0102030405060708090a0b0c0d0e0f10
    );
}

#[test]
fn writer_pads_each_value_to_its_alignment() {
    let mut writer = AlignedWriter::new(Vec::new());
    writer.write(&1u8).unwrap();
    assert_eq!(writer.position(), 1);
    assert_eq!(writer.padding::<u8>(), 0);
    assert_eq!(writer.padding::<u16>(), 1);
    assert_eq!(writer.padding::<u32>(), 3);
    assert_eq!(writer.padding::<u64>(), 7);
    writer.write(&0x01020304u32).unwrap();
    assert_eq!(writer.position(), 8);
    assert_eq!(writer.padding::<u64>(), 0);
    assert_eq!(writer.into_inner(), vec![1, 0, 0, 0, 4, 3, 2, 1]);
}

#[test]
fn writer_pads_before_an_empty_slice() {
    let mut writer = AlignedWriter::new(Vec::new());
    writer.write(&1u8).unwrap();
    let nothing: Vec<u32> = Vec::new();
    writer.write_slice(&nothing).unwrap();
    assert_eq!(writer.position(), 4);
    assert_eq!(writer.into_inner(), vec![1, 0, 0, 0]);
}

#[test]
fn counting_writer_moves_without_keeping_bytes() {
    let real = AlignedWriter::at(Vec::new(), 3);
    let mut counting = real.with(Discard);
    assert_eq!(counting.position(), 3);
    counting.write(&5u64).unwrap();
    assert_eq!(counting.position(), 16);
    assert_eq!(real.position(), 3);
}

#[test]
fn writing_beyond_the_last_position_is_too_large() {
    let mut writer = AlignedWriter::at(Discard, usize::MAX - 1);
    assert_eq!(writer.write(&1u32), Err(SerializeError::TooLarge));
    assert_eq!(SerializeError::TooLarge.message(), "the tree is too large for one file");
    let mut writer = AlignedWriter::at(Discard, usize::MAX - 1);
    assert_eq!(writer.write(&1u8), Ok(()));
    assert_eq!(writer.position(), usize::MAX);
    assert_eq!(writer.write(&1u8), Err(SerializeError::TooLarge));
    let mut writer = AlignedWriter::at(Discard, usize::MAX - 8);
    assert_eq!(writer.write_slice(&[1u16, 2, 3, 4, 5]), Err(SerializeError::TooLarge));
    let mut writer = AlignedWriter::at(Discard, usize::MAX - 20);
    assert_eq!(vec![vec![1u8, 2], vec![3u8]].serialize(&mut writer), Err(SerializeError::TooLarge));
}

#[test]
fn row_is_its_length_then_its_values() {
    assert_eq!(
        written(&vec![0x0a0bu16, 0x0c0d]),
        vec![2, 0, 0, 0, 0, 0, 0, 0, 0x0b, 0x0a, 0x0d, 0x0c]
    );
    let empty: Vec<u32> = Vec::new();
    assert_eq!(written(&empty), vec![0, 0, 0, 0, 0, 0, 0, 0]);
}

#[test]
fn grid_is_its_row_count_then_each_row() {
    let grid: Vec<Vec<u8>> = vec![vec![1, 2, 3], vec![4]];
    assert_eq!(
        written(&grid),
        vec![
            2, 0, 0, 0, 0, 0, 0, 0, // two rows
            3, 0, 0, 0, 0, 0, 0, 0, 1, 2, 3, // first row
            0, 0, 0, 0, 0, // padding to the next length
            1, 0, 0, 0, 0, 0, 0, 0, 4, // second row
        ]
    );
}

#[test]
fn option_is_a_flag_then_the_value() {
    assert_eq!(written(&Some(7u32)), vec![1, 0, 0, 0, 7, 0, 0, 0]);
    let none: Option<u32> = None;
    assert_eq!(written(&none), vec![0]);
}

#[test]
fn bounds_are_minimum_corner_then_maximum_corner() {
    let bounds = Bounds::new(1, -1, 2, 3);
    assert_eq!(
        written(&bounds),
        vec![1, 0, 0, 0, 0xff, 0xff, 0xff, 0xff, 2, 0, 0, 0, 3, 0, 0, 0]
    );
}

#[test]
fn reader_skips_padding_and_stops_at_the_end() {
    let bytes = vec![1u8, 0, 0, 0, 4, 3, 2, 1];
    let mut reader = AlignedReader::new(&bytes);
    assert_eq!(reader.padding::<u32>(), 0);
    assert_eq!(reader.read::<u8>(), Some(1));
    assert_eq!(reader.position(), 1);
    assert_eq!(reader.padding::<u32>(), 3);
    assert_eq!(reader.read::<u32>(), Some(0x01020304));
    assert_eq!(reader.position(), 8);
    assert_eq!(reader.read::<u8>(), None);
    let mut short = AlignedReader::at(&bytes, 5);
    assert_eq!(short.read::<u32>(), None);
    let mut beyond = AlignedReader::at(&bytes, 100);
    assert_eq!(beyond.read::<u8>(), None);
}

#[test]
fn reader_reads_a_run_of_values() {
    let bytes = vec![9u8, 0, 1, 0, 2, 0, 3, 0];
    let mut reader = AlignedReader::at(&bytes, 1);
    assert_eq!(reader.read_slice::<u16>(3), Some(vec![1, 2, 3]));
    assert_eq!(reader.position(), 8);
    let mut reader = AlignedReader::at(&bytes, 1);
    assert_eq!(reader.read_slice::<u16>(4), None);
    let mut reader = AlignedReader::at(&bytes, 1);
    assert_eq!(reader.read_slice::<u16>(usize::MAX), None);
}

#[test]
fn values_are_read_back_as_written() {
    let grid: Vec<Vec<u32>> = vec![vec![1, 2, 3], vec![], vec![4, 5]];
    let bytes = written(&grid);
    let mut reader = AlignedReader::new(&bytes);
    assert_eq!(<Vec<Vec<u32>> as Deserialize>::deserialize(&mut reader), Some(grid));
    assert_eq!(reader.position(), bytes.len());

    let some = Some(vec![7u16, 8]);
    let bytes = written(&some);
    let mut reader = AlignedReader::new(&bytes);
    assert_eq!(<Option<Vec<u16>> as Deserialize>::deserialize(&mut reader), Some(some));

    let bounds = Bounds::new(-5, -6, 7, 8);
    let bytes = written(&bounds);
    let mut reader = AlignedReader::new(&bytes);
    assert_eq!(<Bounds as Deserialize>::deserialize(&mut reader), Some(bounds));
}

#[test]
fn any_flag_but_one_means_absent() {
    let bytes = vec![2u8, 0, 0, 0, 7, 0, 0, 0];
    let mut reader = AlignedReader::new(&bytes);
    assert_eq!(<Option<u32> as Deserialize>::deserialize(&mut reader), Some(None));
    assert_eq!(reader.position(), 1);
}

#[test]
fn truncated_values_are_not_read() {
    let full = written(&vec![vec![1u32, 2], vec![3]]);
    for len in 0..full.len() {
        let mut reader = AlignedReader::new(&full[..len]);
        assert_eq!(<Vec<Vec<u32>> as Deserialize>::deserialize(&mut reader), None);
    }
}

#[test]
fn corners_read_in_any_order_are_put_in_order() {
    let mut writer = AlignedWriter::new(Vec::new());
    for v in [5i32, 6, 1, 2] {
        writer.write(&v).unwrap();
    }
    let bytes = writer.into_inner();
    let mut reader = AlignedReader::new(&bytes);
    assert_eq!(<Bounds as Deserialize>::deserialize(&mut reader), Some(Bounds::new(1, 2, 5, 6)));
}

#[test]
fn failed_write_leaves_the_writer_as_it_was() {
    let mut writer = AlignedWriter::at(Vec::new(), usize::MAX - 2);
    assert_eq!(writer.write(&7u32), Err(SerializeError::TooLarge));
    assert_eq!(writer.write_slice(&[1u8, 2, 3]), Err(SerializeError::TooLarge));
    assert_eq!(writer.position(), usize::MAX - 2);
    assert_eq!(writer.write_slice(&[1u8, 2]), Ok(()));
    assert_eq!(writer.position(), usize::MAX);
    assert_eq!(writer.into_inner(), vec![1, 2]);
}

#[test]
fn failed_read_leaves_the_reader_where_it_was() {
    let bytes = vec![1u8, 2, 3];
    let mut reader = AlignedReader::at(&bytes, 1);
    assert_eq!(reader.read::<u32>(), None);
    assert_eq!(reader.read_slice::<u8>(3), None);
    assert_eq!(reader.position(), 1);
    assert_eq!(reader.read_slice::<u8>(2), Some(vec![2, 3]));
    assert_eq!(reader.position(), 3);
}
