use dirxfer::copier::{copier, fill_buff, MemReader, MemWriter};
use dirxfer::stats::{sat_add_u64, Stats};

#[test]
fn copier_moves_every_byte() {
    let data: Vec<u8> = (0u8..=250).collect();
    let mut src = MemReader::new(data.clone());
    let mut dst = MemWriter::new();
    let total = copier(&mut src, &mut dst, 16).unwrap();
    assert_eq!(total, data.len() as u64);
    assert_eq!(dst.into_bytes(), data);
}

#[test]
fn copier_with_buffer_larger_than_data() {
    let data = b"hello world".to_vec();
    let mut src = MemReader::new(data.clone());
    let mut dst = MemWriter::new();
    let total = copier(&mut src, &mut dst, 4096).unwrap();
    assert_eq!(total, 11);
    assert_eq!(dst.into_bytes(), data);
}

#[test]
fn copier_empty_source() {
    let mut src = MemReader::new(vec![]);
    let mut dst = MemWriter::new();
    let total = copier(&mut src, &mut dst, 8).unwrap();
    assert_eq!(total, 0);
    assert_eq!(dst.into_bytes(), Vec::<u8>::new());
}

#[test]
fn fill_buff_fills_to_capacity() {
    let mut src = MemReader::new((0u8..100).collect());
    let mut buf = vec![0u8; 10];
    let sz = fill_buff(&mut src, &mut buf).unwrap();
    assert_eq!(sz, 10);
    assert_eq!(buf, (0u8..10).collect::<Vec<u8>>());
    // the next fill continues where the first stopped
    let sz2 = fill_buff(&mut src, &mut buf).unwrap();
    assert_eq!(sz2, 10);
    assert_eq!(buf, (10u8..20).collect::<Vec<u8>>());
}

#[test]
fn fill_buff_stops_at_end_of_source() {
    let mut src = MemReader::new(vec![1, 2, 3]);
    let mut buf = vec![0u8; 10];
    let sz = fill_buff(&mut src, &mut buf).unwrap();
    assert_eq!(sz, 3);
    assert_eq!(&buf[..3], &[1, 2, 3]);
}

#[test]
fn stats_start_at_zero() {
    let s = Stats::new();
    assert_eq!(s.first_xfer_time, None);
    assert_eq!(s.xfer_count, 0);
    assert_eq!(s.path_check, 0);
}

#[test]
fn stats_count_and_first_time() {
    let mut s = Stats::new();
    s.count_xfer();
    s.count_xfer();
    assert_eq!(s.xfer_count, 2);
    s.record_first_xfer(1000);
    s.record_first_xfer(2000);
    assert_eq!(s.first_xfer_time, Some(1000));
}

#[test]
fn sat_add_saturates() {
    assert_eq!(sat_add_u64(1, 2), 3);
    assert_eq!(sat_add_u64(u64::MAX, 1), u64::MAX);
    assert_eq!(sat_add_u64(u64::MAX - 1, 1), u64::MAX);
}
