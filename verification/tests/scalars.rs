use xdr::xdr::{Error, XdrReader, XdrWriter};

fn bytes_of_u64(v: u64) -> Vec<u8> {
    let mut wr = XdrWriter::new();
    wr.pack(v);
    wr.into_buffer()
}

#[test]
fn u32_is_big_endian() {
    let mut wr = XdrWriter::new();
    wr.pack(0x0102_0304u32);
    let buf = wr.into_buffer();
    assert_eq!(buf, vec![1, 2, 3, 4]);
    assert_eq!(XdrReader::new(&buf).unpack::<u32>(), Ok(0x0102_0304));
}

#[test]
fn u32_extremes_round_trip() {
    for v in [0u32, 1, 0x7FFF_FFFF, 0x8000_0000, u32::MAX] {
        let mut wr = XdrWriter::new();
        wr.pack(v);
        let buf = wr.into_buffer();
        assert_eq!(buf.len(), 4);
        assert_eq!(XdrReader::new(&buf).unpack::<u32>(), Ok(v));
    }
}

#[test]
fn i32_is_twos_complement() {
    let mut wr = XdrWriter::new();
    wr.pack(-2i32);
    wr.pack(i32::MIN);
    wr.pack(i32::MAX);
    let buf = wr.into_buffer();
    assert_eq!(
        buf,
        vec![0xFF, 0xFF, 0xFF, 0xFE, 0x80, 0, 0, 0, 0x7F, 0xFF, 0xFF, 0xFF]
    );
    let mut rdr = XdrReader::new(&buf);
    assert_eq!(rdr.unpack::<i32>(), Ok(-2));
    assert_eq!(rdr.unpack::<i32>(), Ok(i32::MIN));
    assert_eq!(rdr.unpack::<i32>(), Ok(i32::MAX));
}

#[test]
fn u64_takes_eight_bytes_big_endian() {
    let buf = bytes_of_u64(0x0102_0304_0506_0708);
    assert_eq!(buf, vec![1, 2, 3, 4, 5, 6, 7, 8]);
    assert_eq!(XdrReader::new(&buf).unpack::<u64>(), Ok(0x0102_0304_0506_0708));
}

#[test]
fn u64_extremes_round_trip() {
    for v in [0u64, 1, 0xFFFF_FFFF, 0x1_0000_0000, u64::MAX] {
        let buf = bytes_of_u64(v);
        assert_eq!(buf.len(), 8);
        assert_eq!(XdrReader::new(&buf).unpack::<u64>(), Ok(v));
    }
}

#[test]
fn i64_is_twos_complement() {
    let mut wr = XdrWriter::new();
    wr.pack(-2i64);
    wr.pack(i64::MIN);
    let buf = wr.into_buffer();
    assert_eq!(
        buf,
        vec![0xFF, 0xFF, 0xFF, 0xFF, 0xFF, 0xFF, 0xFF, 0xFE, 0x80, 0, 0, 0, 0, 0, 0, 0]
    );
    let mut rdr = XdrReader::new(&buf);
    assert_eq!(rdr.unpack::<i64>(), Ok(-2));
    assert_eq!(rdr.unpack::<i64>(), Ok(i64::MIN));
}

#[test]
fn every_u8_round_trips_in_a_word() {
    for v in 0..=u8::MAX {
        let mut wr = XdrWriter::new();
        wr.pack(v);
        let buf = wr.into_buffer();
        assert_eq!(buf, vec![0, 0, 0, v]);
        assert_eq!(XdrReader::new(&buf).unpack::<u8>(), Ok(v));
    }
}

#[test]
fn every_i8_round_trips_in_a_word() {
    for v in i8::MIN..=i8::MAX {
        let mut wr = XdrWriter::new();
        wr.pack(v);
        let buf = wr.into_buffer();
        let fill = if v < 0 { 0xFF } else { 0 };
        assert_eq!(buf, vec![fill, fill, fill, v as u8]);
        assert_eq!(XdrReader::new(&buf).unpack::<i8>(), Ok(v));
    }
}

#[test]
fn every_u16_round_trips() {
    for v in 0..=u16::MAX {
        let mut wr = XdrWriter::new();
        wr.pack(v);
        let buf = wr.into_buffer();
        assert_eq!(buf, vec![0, 0, (v >> 8) as u8, v as u8]);
        assert_eq!(XdrReader::new(&buf).unpack::<u16>(), Ok(v));
    }
}

#[test]
fn every_i16_round_trips() {
    for v in i16::MIN..=i16::MAX {
        let mut wr = XdrWriter::new();
        wr.pack(v);
        let buf = wr.into_buffer();
        assert_eq!(XdrReader::new(&buf).unpack::<i16>(), Ok(v));
        assert_eq!(XdrReader::new(&buf).unpack::<i32>(), Ok(v as i32));
    }
}

#[test]
fn narrow_reads_drop_the_high_bits() {
    let word = vec![0x12u8, 0x34, 0x82, 0x05];
    assert_eq!(XdrReader::new(&word).unpack::<u8>(), Ok(0x05));
    assert_eq!(XdrReader::new(&word).unpack::<u16>(), Ok(0x8205));
    assert_eq!(XdrReader::new(&word).unpack::<i8>(), Ok(5));
    assert_eq!(XdrReader::new(&word).unpack::<i16>(), Ok(-32251));
    let word = vec![0u8, 0, 0, 0xFF];
    assert_eq!(XdrReader::new(&word).unpack::<i8>(), Ok(-1));
    assert_eq!(XdrReader::new(&word).unpack::<i16>(), Ok(255));
    assert_eq!(XdrReader::new(&word).unpack::<i32>(), Ok(255));
}

#[test]
fn booleans_are_the_words_zero_and_one() {
    let mut wr = XdrWriter::new();
    wr.pack(true);
    wr.pack(false);
    let buf = wr.into_buffer();
    assert_eq!(buf, vec![0, 0, 0, 1, 0, 0, 0, 0]);
    let mut rdr = XdrReader::new(&buf);
    assert_eq!(rdr.unpack::<bool>(), Ok(true));
    assert_eq!(rdr.unpack::<bool>(), Ok(false));
}

#[test]
fn other_words_are_no_booleans() {
    for word in [
        vec![0u8, 0, 0, 2],
        vec![0, 0, 1, 0],
        vec![1, 0, 0, 0],
        vec![0xFF, 0xFF, 0xFF, 0xFF],
        vec![0, 0, 1, 1],
    ] {
        assert_eq!(XdrReader::new(&word).unpack::<bool>(), Err(Error::InvalidValue));
    }
}

#[test]
fn a_refused_boolean_is_not_consumed() {
    let buf = vec![0u8, 0, 0, 2, 0, 0, 0, 1];
    let mut rdr = XdrReader::new(&buf);
    assert_eq!(rdr.unpack::<bool>(), Err(Error::InvalidValue));
    assert_eq!(rdr.unpack::<u32>(), Ok(2));
    assert_eq!(rdr.unpack::<bool>(), Ok(true));
}

#[test]
fn short_input_is_truncated_for_every_scalar() {
    for len in 0..4usize {
        let buf = vec![0u8; len];
        assert_eq!(XdrReader::new(&buf).unpack::<u8>(), Err(Error::Truncated));
        assert_eq!(XdrReader::new(&buf).unpack::<u16>(), Err(Error::Truncated));
        assert_eq!(XdrReader::new(&buf).unpack::<u32>(), Err(Error::Truncated));
        assert_eq!(XdrReader::new(&buf).unpack::<i8>(), Err(Error::Truncated));
        assert_eq!(XdrReader::new(&buf).unpack::<i16>(), Err(Error::Truncated));
        assert_eq!(XdrReader::new(&buf).unpack::<i32>(), Err(Error::Truncated));
        assert_eq!(XdrReader::new(&buf).unpack::<bool>(), Err(Error::Truncated));
    }
    for len in 0..8usize {
        let buf = vec![0u8; len];
        assert_eq!(XdrReader::new(&buf).unpack::<u64>(), Err(Error::Truncated));
        assert_eq!(XdrReader::new(&buf).unpack::<i64>(), Err(Error::Truncated));
    }
}

#[test]
fn a_truncated_scalar_is_not_consumed() {
    let buf = vec![0u8, 0, 0, 7, 0, 0];
    let mut rdr = XdrReader::new(&buf);
    assert_eq!(rdr.unpack::<u64>(), Err(Error::Truncated));
    assert_eq!(rdr.unpack::<u32>(), Ok(7));
    assert_eq!(rdr.unpack::<u32>(), Err(Error::Truncated));
    assert_eq!(rdr.unpack_opaque_fixed_len(2), Ok(vec![0, 0]));
    assert_eq!(rdr.unpack::<u32>(), Err(Error::Truncated));
}

#[test]
fn errors_describe_themselves() {
    assert_eq!(Error::Truncated.description(), "Truncated input.");
    assert_eq!(Error::InvalidValue.description(), "Invalid value.");
    assert_eq!(Error::InvalidType.description(), "Invalid type.");
}
