use xdr::xdr::{Error, XdrReader, XdrWriter};

fn encoded(text: &str) -> Vec<u8> {
    let mut wr = XdrWriter::new();
    wr.pack(String::from(text));
    wr.into_buffer()
}

#[test]
fn a_string_is_count_bytes_and_padding() {
    assert_eq!(encoded("abc"), vec![0, 0, 0, 3, b'a', b'b', b'c', 0]);
    assert_eq!(encoded("a"), vec![0, 0, 0, 1, b'a', 0, 0, 0]);
    assert_eq!(encoded("ab"), vec![0, 0, 0, 2, b'a', b'b', 0, 0]);
    assert_eq!(
        encoded("hello"),
        vec![0, 0, 0, 5, b'h', b'e', b'l', b'l', b'o', 0, 0, 0]
    );
}

#[test]
fn a_string_of_whole_words_gets_a_word_of_padding() {
    assert_eq!(encoded(""), vec![0, 0, 0, 0, 0, 0, 0, 0]);
    assert_eq!(
        encoded("abcd"),
        vec![0, 0, 0, 4, b'a', b'b', b'c', b'd', 0, 0, 0, 0]
    );
}

#[test]
fn the_count_is_of_bytes_not_of_characters() {
    let buf = encoded("h\u{e9}");
    assert_eq!(buf, vec![0, 0, 0, 3, b'h', 0xC3, 0xA9, 0]);
    assert_eq!(XdrReader::new(&buf).unpack::<String>(), Ok(String::from("h\u{e9}")));
}

#[test]
fn strings_round_trip() {
    for text in [
        "",
        "a",
        "ab",
        "abc",
        "abcd",
        "abcde",
        "gr\u{fc}\u{df}e",
        "\u{1F600}",
        "a longer text, of several words",
    ] {
        let buf = encoded(text);
        let n = text.len();
        assert_eq!(buf.len() % 4, 0);
        assert_eq!(buf.len(), 4 + n + (4 - n % 4));
        if n % 4 != 0 {
            assert_eq!(buf.len(), (4 + n + 3) / 4 * 4);
        }
        let mut rdr = XdrReader::new(&buf);
        assert_eq!(rdr.unpack::<String>(), Ok(String::from(text)));
        assert_eq!(rdr.unpack_opaque_fixed_len(1), Err(Error::Truncated));
    }
}

#[test]
fn strings_are_read_one_after_the_other() {
    let mut wr = XdrWriter::new();
    wr.pack(String::from("one"));
    wr.pack(String::from("four"));
    wr.pack(7u32);
    let buf = wr.into_buffer();
    let mut rdr = XdrReader::new(&buf);
    assert_eq!(rdr.unpack::<String>(), Ok(String::from("one")));
    assert_eq!(rdr.unpack::<String>(), Ok(String::from("four")));
    assert_eq!(rdr.unpack::<u32>(), Ok(7));
}

#[test]
fn padding_bytes_are_passed_over_unread() {
    let buf = vec![0u8, 0, 0, 2, b'o', b'k', 9, 9, 0, 0, 0, 5];
    let mut rdr = XdrReader::new(&buf);
    assert_eq!(rdr.unpack::<String>(), Ok(String::from("ok")));
    assert_eq!(rdr.unpack::<u32>(), Ok(5));
}

#[test]
fn bytes_that_are_not_utf8_are_refused() {
    let buf = vec![0u8, 0, 0, 2, 0xC3, 0x28, 0, 0];
    let mut rdr = XdrReader::new(&buf);
    assert_eq!(rdr.unpack::<String>(), Err(Error::InvalidValue));
    assert_eq!(rdr.unpack::<u32>(), Ok(2));
    let buf = vec![0u8, 0, 0, 1, 0xFF, 0, 0, 0];
    assert_eq!(XdrReader::new(&buf).unpack::<String>(), Err(Error::InvalidValue));
}

#[test]
fn a_string_cut_short_is_truncated() {
    let whole = encoded("hello");
    for k in 0..whole.len() {
        let cut = whole[..k].to_vec();
        let mut rdr = XdrReader::new(&cut);
        assert_eq!(rdr.unpack::<String>(), Err(Error::Truncated));
        assert_eq!(rdr.unpack_opaque_fixed_len(k), Ok(cut.clone()));
    }
    let whole = encoded("abcd");
    for k in 0..whole.len() {
        let cut = whole[..k].to_vec();
        assert_eq!(XdrReader::new(&cut).unpack::<String>(), Err(Error::Truncated));
    }
}

#[test]
fn truncation_is_found_before_bad_text() {
    let buf = vec![0u8, 0, 0, 2, 0xC3, 0x28, 0];
    assert_eq!(XdrReader::new(&buf).unpack::<String>(), Err(Error::Truncated));
}

#[test]
fn a_count_far_beyond_the_input_is_truncated() {
    let buf = vec![0xFFu8, 0xFF, 0xFF, 0xFF, b'a', b'b'];
    assert_eq!(XdrReader::new(&buf).unpack::<String>(), Err(Error::Truncated));
    assert_eq!(XdrReader::new(&buf).unpack_opaque_var_len(), Err(Error::Truncated));
    assert_eq!(XdrReader::new(&buf).unpack::<Vec<u32>>(), Err(Error::Truncated));
}
