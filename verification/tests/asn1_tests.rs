use lds::asn1::{
    asn1_write_len, read_element, read_size, read_string, read_tag, read_uint, write_bool,
    write_enum, write_int, write_octet_string, write_octet_string_with_tag, write_tag, Cursor,
    Encoder,
};
use lds::error::Error;

#[test]
fn a_test() {
    assert_eq!(read_size(&mut Cursor::new(&[0x82, 0x27, 0x32])).unwrap(), 10034);
    assert_eq!(read_size(&mut Cursor::new(&[0x08])).unwrap(), 8);
    let mut buf = Vec::new();
    write_int(&mut buf, 127).unwrap();
    assert_eq!(buf, vec![0x02, 0x01, 0x7f]);

    let mut buf = Vec::new();
    write_int(&mut buf, 128).unwrap();
    assert_eq!(buf, vec![0x02, 0x02, 0x0, 0x80]);

    let mut buf = Vec::new();
    write_int(&mut buf, 256).unwrap();
    assert_eq!(buf, vec![0x02, 0x02, 0x1, 0x0]);
}

fn int_bytes(val: u32) -> Vec<u8> {
    let mut buf = Vec::new();
    write_int(&mut buf, val).unwrap();
    buf
}

#[test]
fn write_int_uses_the_fewest_bytes() {
    assert_eq!(int_bytes(0), vec![0x02, 0x01, 0x00]);
    assert_eq!(int_bytes(127), vec![0x02, 0x01, 0x7f]);
    assert_eq!(int_bytes(128), vec![0x02, 0x02, 0x00, 0x80]);
    assert_eq!(int_bytes(255), vec![0x02, 0x02, 0x00, 0xff]);
    assert_eq!(int_bytes(256), vec![0x02, 0x02, 0x01, 0x00]);
    assert_eq!(int_bytes(0x7fff), vec![0x02, 0x02, 0x7f, 0xff]);
    assert_eq!(int_bytes(0x8000), vec![0x02, 0x03, 0x00, 0x80, 0x00]);
    assert_eq!(int_bytes(0x7f_ffff), vec![0x02, 0x03, 0x7f, 0xff, 0xff]);
    assert_eq!(int_bytes(0x80_0000), vec![0x02, 0x04, 0x00, 0x80, 0x00, 0x00]);
    assert_eq!(int_bytes(0xff_ffff), vec![0x02, 0x04, 0x00, 0xff, 0xff, 0xff]);
}

#[test]
fn write_int_refuses_two_to_the_24() {
    let mut buf = vec![9u8];
    assert_eq!(write_int(&mut buf, 0x100_0000), Err(Error::Unsupported));
    assert_eq!(write_int(&mut buf, u32::MAX), Err(Error::Unsupported));
    assert_eq!(buf, vec![9u8]);
}

#[test]
fn written_integers_read_back() {
    for val in [0u32, 1, 127, 128, 255, 256, 0x7fff, 0x8000, 0x7f_ffff, 0x80_0000, 0xff_ffff] {
        let bytes = int_bytes(val);
        let mut cursor = Cursor::new(&bytes);
        assert_eq!(read_uint(&mut cursor), Ok(val));
        assert_eq!(cursor.position(), bytes.len());
    }
}

#[test]
fn read_size_short_and_long_form() {
    assert_eq!(read_size(&mut Cursor::new(&[0x00])), Ok(0));
    assert_eq!(read_size(&mut Cursor::new(&[0x7f])), Ok(127));
    assert_eq!(read_size(&mut Cursor::new(&[0x80])), Ok(0));
    assert_eq!(read_size(&mut Cursor::new(&[0x81, 0x80])), Ok(128));
    assert_eq!(read_size(&mut Cursor::new(&[0x83, 0x00, 0x01, 0x00])), Ok(256));
    let mut cursor = Cursor::new(&[0x82, 0x27, 0x32, 0x55]);
    assert_eq!(read_size(&mut cursor), Ok(10034));
    assert_eq!(cursor.position(), 3);
    assert_eq!(cursor.left(), 1);
}

#[test]
fn read_size_spells_the_length_bytes_most_significant_first() {
    assert_eq!(read_size(&mut Cursor::new(&[0x81, 0xff])), Ok(0xff));
    assert_eq!(read_size(&mut Cursor::new(&[0x82, 0x01, 0x02])), Ok(0x0102));
    assert_eq!(read_size(&mut Cursor::new(&[0x83, 0x01, 0x02, 0x03])), Ok(0x01_0203));
    let mut cursor = Cursor::new(&[0x84, 0x01, 0x02, 0x03, 0x04, 0x99]);
    assert_eq!(read_size(&mut cursor), Ok(0x0102_0304));
    assert_eq!(cursor.position(), 5);
    let eight = [0x88u8, 0x01, 0x02, 0x03, 0x04, 0x05, 0x06, 0x07, 0x08];
    let mut cursor = Cursor::new(&eight);
    if usize::BITS == 64 {
        assert_eq!(read_size(&mut cursor), Ok(0x0102_0304_0506_0708u64 as usize));
        assert_eq!(cursor.position(), 9);
    } else {
        assert_eq!(read_size(&mut cursor), Err(Error::Malformed));
        assert_eq!(cursor.position(), 0);
    }
}

#[test]
fn read_size_cut_short_or_too_large() {
    assert_eq!(read_size(&mut Cursor::new(&[])), Err(Error::Malformed));
    let mut cursor = Cursor::new(&[0x82, 0x27]);
    assert_eq!(read_size(&mut cursor), Err(Error::Malformed));
    assert_eq!(cursor.position(), 0);
    let huge = [0x89u8, 1, 0, 0, 0, 0, 0, 0, 0, 0];
    assert_eq!(read_size(&mut Cursor::new(&huge)), Err(Error::Malformed));
    let padded = [0x89u8, 0, 0, 0, 0, 0, 0, 0, 0, 5];
    assert_eq!(read_size(&mut Cursor::new(&padded)), Ok(5));
}

#[test]
fn read_tag_steps_one_byte() {
    let mut cursor = Cursor::new(&[0x30, 0x31]);
    assert_eq!(read_tag(&mut cursor), Ok(0x30));
    assert_eq!(read_tag(&mut cursor), Ok(0x31));
    assert_eq!(read_tag(&mut cursor), Err(Error::Malformed));
    assert_eq!(cursor.position(), 2);
}

#[test]
fn read_uint_values() {
    assert_eq!(read_uint(&mut Cursor::new(&[0x02, 0x00])), Ok(0));
    assert_eq!(read_uint(&mut Cursor::new(&[0x02, 0x01, 0xff])), Ok(255));
    assert_eq!(read_uint(&mut Cursor::new(&[0x0a, 0x02, 0x01, 0x02])), Ok(258));
    assert_eq!(
        read_uint(&mut Cursor::new(&[0x02, 0x04, 0xff, 0xff, 0xff, 0xff])),
        Ok(u32::MAX)
    );
    assert_eq!(
        read_uint(&mut Cursor::new(&[0x02, 0x05, 0x00, 0xff, 0xff, 0xff, 0xff])),
        Ok(u32::MAX)
    );
}

#[test]
fn read_uint_malformed() {
    let mut cursor = Cursor::new(&[0x02, 0x05, 0x01, 0x00, 0x00, 0x00, 0x00]);
    assert_eq!(read_uint(&mut cursor), Err(Error::Malformed));
    assert_eq!(cursor.position(), 0);
    assert_eq!(read_uint(&mut Cursor::new(&[0x02, 0x02, 0x01])), Err(Error::Malformed));
    assert_eq!(read_uint(&mut Cursor::new(&[0x02])), Err(Error::Malformed));
}

#[test]
fn read_string_values() {
    let mut cursor = Cursor::new(&[0x04, 0x02, 0x78, 0x79, 0x04, 0x00]);
    assert_eq!(read_string(&mut cursor), Ok("xy".to_owned()));
    assert_eq!(read_string(&mut cursor), Ok(String::new()));
    assert_eq!(cursor.left(), 0);
    let bytes = [0x04u8, 0x03, 0xe2, 0x82, 0xac];
    assert_eq!(read_string(&mut Cursor::new(&bytes)), Ok("\u{20ac}".to_owned()));
}

#[test]
fn read_string_rejects_bad_utf8() {
    let mut cursor = Cursor::new(&[0x04, 0x02, 0xc3, 0x28]);
    assert_eq!(read_string(&mut cursor), Err(Error::Malformed));
    assert_eq!(cursor.position(), 0);
    assert_eq!(read_string(&mut Cursor::new(&[0x04, 0x01, 0xff])), Err(Error::Malformed));
    assert_eq!(read_string(&mut Cursor::new(&[0x04, 0x03, 0x61])), Err(Error::Malformed));
}

#[test]
fn read_element_and_read_exact() {
    let data = [0x31u8, 0x02, 0xaa, 0xbb, 0xcc];
    let mut cursor = Cursor::new(&data);
    let (tag, content) = read_element(&mut cursor).unwrap();
    assert_eq!(tag, 0x31);
    assert_eq!(content, &[0xaa, 0xbb]);
    assert_eq!(cursor.read_exact(2), Err(Error::Malformed));
    assert_eq!(cursor.read_exact(1), Ok(&[0xccu8][..]));
    assert_eq!(cursor.read_exact(0), Ok(&[][..]));
}

#[test]
fn buffer_writers() {
    let mut buf = Vec::new();
    write_tag(&mut buf, 0x30).unwrap();
    asn1_write_len(&mut buf, 127).unwrap();
    assert_eq!(asn1_write_len(&mut buf, 128), Err(Error::Unsupported));
    write_enum(&mut buf, 2).unwrap();
    write_bool(&mut buf, false).unwrap();
    write_bool(&mut buf, true).unwrap();
    write_octet_string(&mut buf, b"ab").unwrap();
    write_octet_string_with_tag(&mut buf, 0x87, b"").unwrap();
    assert_eq!(
        buf,
        vec![
            0x30, 0x7f, 0x0a, 0x01, 0x02, 0x01, 0x01, 0x00, 0x01, 0x01, 0xff, 0x04, 0x02, 0x61,
            0x62, 0x87, 0x00
        ]
    );
}

#[test]
fn octet_string_of_128_bytes_is_refused() {
    let mut buf = Vec::new();
    write_octet_string(&mut buf, &[7u8; 127]).unwrap();
    assert_eq!(buf.len(), 129);
    assert_eq!(buf[1], 127);
    let mut buf = vec![1u8];
    assert_eq!(write_octet_string(&mut buf, &[7u8; 128]), Err(Error::Unsupported));
    assert_eq!(buf, vec![1u8]);
}

#[test]
fn encoder_patches_nested_lengths() {
    let mut e = Encoder::new();
    e.start_seq(0x30).unwrap();
    e.write_int(5).unwrap();
    e.start_seq(0x60).unwrap();
    e.write_octet_string(b"abc").unwrap();
    e.end_seq().unwrap();
    e.write_enum(1).unwrap();
    e.end_seq().unwrap();
    assert_eq!(
        e.encode().unwrap(),
        vec![0x30, 0x0d, 0x02, 0x01, 0x05, 0x60, 0x05, 0x04, 0x03, 0x61, 0x62, 0x63, 0x0a, 0x01, 0x01]
    );
}

#[test]
fn encoder_closes_forgotten_sequences() {
    let mut e = Encoder::new();
    e.start_seq(0x30).unwrap();
    e.start_seq(0x31).unwrap();
    e.start_seq(0x32).unwrap();
    e.write_bool(true).unwrap();
    assert_eq!(
        e.encode().unwrap(),
        vec![0x30, 0x07, 0x31, 0x05, 0x32, 0x03, 0x01, 0x01, 0xff]
    );
}

#[test]
fn encoder_end_seq_without_open_sequence() {
    let mut e = Encoder::new();
    e.end_seq().unwrap();
    e.write_enum(3).unwrap();
    e.fix().unwrap();
    assert_eq!(e.encode().unwrap(), vec![0x0a, 0x01, 0x03]);
}

#[test]
fn encoder_refuses_long_sequences() {
    let mut e = Encoder::new();
    e.start_seq(0x30).unwrap();
    e.write_octet_string(&[0u8; 100]).unwrap();
    e.start_seq(0x31).unwrap();
    e.write_octet_string(&[0u8; 20]).unwrap();
    e.end_seq().unwrap();
    e.write_octet_string(&[0u8; 1]).unwrap();
    assert_eq!(e.end_seq(), Err(Error::Unsupported));
    assert_eq!(e.fix(), Err(Error::Unsupported));
    assert_eq!(e.encode(), Err(Error::Unsupported));

    let mut e = Encoder::new();
    e.start_seq(0x30).unwrap();
    e.write_octet_string(&[0u8; 125]).unwrap();
    let bytes = e.encode().unwrap();
    assert_eq!(bytes.len(), 129);
    assert_eq!(bytes[1], 127);
}

#[test]
fn error_messages() {
    assert_eq!(Error::NeedMoreData.message(), "need more data");
    assert_eq!(Error::Malformed.message(), "malformed data");
    assert_eq!(Error::Unsupported.message(), "unsupported value");
    assert_eq!(Error::ConnectionClosed.message(), "connection closed");
    assert_eq!(Error::TooLarge.message(), "message too large");
    assert_eq!(Error::InvalidData.message(), "invalid data");
}
