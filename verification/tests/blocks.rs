use xdr::xdr::{Error, XdrReader, XdrWriter};

#[test]
fn a_fixed_block_is_written_as_it_is() {
    let mut wr = XdrWriter::new();
    assert!(wr.pack_opaque_fixed_len(vec![1, 2, 3]).is_none());
    assert!(wr.pack_opaque_fixed_len(vec![]).is_none());
    assert!(wr.pack_opaque_fixed_len(vec![4, 5]).is_none());
    assert_eq!(wr.into_buffer(), vec![1, 2, 3, 4, 5]);
}

#[test]
fn a_counted_block_has_its_count_before_it() {
    let mut wr = XdrWriter::new();
    assert!(wr.pack_opaque_var_len(vec![9, 8, 7]).is_none());
    assert!(wr.pack_opaque_var_len(vec![]).is_none());
    assert_eq!(wr.into_buffer(), vec![0, 0, 0, 3, 9, 8, 7, 0, 0, 0, 0]);
}

#[test]
fn a_long_counted_block_has_a_big_endian_count() {
    let block: Vec<u8> = (0..300u32).map(|i| (i % 251) as u8).collect();
    let mut wr = XdrWriter::new();
    wr.pack_opaque_var_len(block.clone());
    let buf = wr.into_buffer();
    assert_eq!(&buf[..4], &[0, 0, 1, 44]);
    assert_eq!(&buf[4..], &block[..]);
    assert_eq!(XdrReader::new(&buf).unpack_opaque_var_len(), Ok(block));
}

#[test]
fn fixed_blocks_round_trip() {
    let mut wr = XdrWriter::new();
    wr.pack_opaque_fixed_len(vec![1, 2, 3, 4, 5]);
    wr.pack(6u32);
    let buf = wr.into_buffer();
    let mut rdr = XdrReader::new(&buf);
    assert_eq!(rdr.unpack_opaque_fixed_len(5), Ok(vec![1, 2, 3, 4, 5]));
    assert_eq!(rdr.unpack_opaque_fixed_len(0), Ok(vec![]));
    assert_eq!(rdr.unpack::<u32>(), Ok(6));
    assert_eq!(rdr.unpack_opaque_fixed_len(0), Ok(vec![]));
    assert_eq!(rdr.unpack_opaque_fixed_len(1), Err(Error::Truncated));
}

#[test]
fn counted_blocks_round_trip() {
    let mut wr = XdrWriter::new();
    wr.pack_opaque_var_len(vec![1, 2, 3, 4, 5]);
    wr.pack_opaque_var_len(vec![]);
    wr.pack_opaque_var_len(vec![0xAB]);
    let buf = wr.into_buffer();
    let mut rdr = XdrReader::new(&buf);
    assert_eq!(rdr.unpack_opaque_var_len(), Ok(vec![1, 2, 3, 4, 5]));
    assert_eq!(rdr.unpack_opaque_var_len(), Ok(vec![]));
    assert_eq!(rdr.unpack_opaque_var_len(), Ok(vec![0xAB]));
    assert_eq!(rdr.unpack_opaque_var_len(), Err(Error::Truncated));
}

#[test]
fn a_block_cut_short_is_not_consumed() {
    let buf = vec![1u8, 2, 3];
    let mut rdr = XdrReader::new(&buf);
    assert_eq!(rdr.unpack_opaque_fixed_len(4), Err(Error::Truncated));
    assert_eq!(rdr.unpack_opaque_fixed_len(usize::MAX), Err(Error::Truncated));
    assert_eq!(rdr.unpack_opaque_fixed_len(3), Ok(vec![1, 2, 3]));
}

#[test]
fn a_counted_block_cut_short_is_not_consumed() {
    let buf = vec![0u8, 0, 0, 3, 7, 7];
    let mut rdr = XdrReader::new(&buf);
    assert_eq!(rdr.unpack_opaque_var_len(), Err(Error::Truncated));
    assert_eq!(rdr.unpack::<u32>(), Ok(3));
    assert_eq!(rdr.unpack_opaque_var_len(), Err(Error::Truncated));
    assert_eq!(rdr.unpack_opaque_fixed_len(2), Ok(vec![7, 7]));
}

#[test]
fn blocks_are_not_padded() {
    let mut wr = XdrWriter::new();
    wr.pack_opaque_var_len(vec![1]);
    wr.pack(2u32);
    let buf = wr.into_buffer();
    assert_eq!(buf, vec![0, 0, 0, 1, 1, 0, 0, 0, 2]);
    let mut rdr = XdrReader::new(&buf);
    assert_eq!(rdr.unpack_opaque_var_len(), Ok(vec![1]));
    assert_eq!(rdr.unpack::<u32>(), Ok(2));
}
