use signmaker::error::Error;
use signmaker::io::{compressed_int_len, Input, Output, ReadExt, WriteExt};

fn encode(x: u32) -> Vec<u8> {
    let mut out = Output::new();
    let n = out.write_compressed_int(x).unwrap();
    let bytes = out.into_bytes();
    assert_eq!(n, bytes.len());
    bytes
}

fn decode(bytes: &[u8]) -> Result<u32, Error> {
    let mut input = Input::new(bytes.to_vec());
    input.read_compressed_int()
}

#[test]
fn compressed_int_300() {
    assert_eq!(encode(300), vec![0xAC, 0x02]);
    assert_eq!(decode(&[0xAC, 0x02]), Ok(300));
}

#[test]
fn compressed_int_edges() {
    assert_eq!(encode(0), vec![0x00]);
    assert_eq!(encode(127), vec![0x7f]);
    assert_eq!(encode(128), vec![0x80, 0x01]);
    assert_eq!(encode(16383), vec![0xff, 0x7f]);
    assert_eq!(encode(16384), vec![0x80, 0x80, 0x01]);
    assert_eq!(encode(u32::MAX), vec![0xff, 0xff, 0xff, 0xff, 0x0f]);
    assert_eq!(decode(&[0xff, 0xff, 0xff, 0xff, 0x0f]), Ok(u32::MAX));
    assert_eq!(decode(&[0x00]), Ok(0));
    assert_eq!(decode(&[0x80, 0x00]), Ok(0));
}

#[test]
fn compressed_int_round_trip() {
    for x in [0u32, 1, 127, 128, 255, 300, 16383, 16384, 0x1f_ffff, 0x20_0000, 0xfff_ffff,
        0x1000_0000, 0x1234_5678, u32::MAX - 1, u32::MAX]
    {
        let bytes = encode(x);
        assert_eq!(bytes.len(), compressed_int_len(x));
        let mut with_tail = bytes.clone();
        with_tail.extend_from_slice(&[0xee, 0xdd]);
        let mut input = Input::new(with_tail);
        assert_eq!(input.read_compressed_int(), Ok(x));
        assert_eq!(input.remaining(), 2);
    }
}

#[test]
fn compressed_int_len_by_size() {
    assert_eq!(compressed_int_len(0), 1);
    assert_eq!(compressed_int_len(0x7f), 1);
    assert_eq!(compressed_int_len(0x80), 2);
    assert_eq!(compressed_int_len(0x3fff), 2);
    assert_eq!(compressed_int_len(0x4000), 3);
    assert_eq!(compressed_int_len(0x1f_ffff), 3);
    assert_eq!(compressed_int_len(0x20_0000), 4);
    assert_eq!(compressed_int_len(0xfff_ffff), 4);
    assert_eq!(compressed_int_len(0x1000_0000), 5);
    assert_eq!(compressed_int_len(u32::MAX), 5);
}

#[test]
fn compressed_int_overflow_is_an_error() {
    assert_eq!(decode(&[0xff, 0xff, 0xff, 0xff, 0x10]), Err(Error::IntOverflow));
    assert_eq!(decode(&[0x80, 0x80, 0x80, 0x80, 0x80, 0x01]), Err(Error::IntOverflow));
    assert_eq!(
        decode(&[0x80, 0x80, 0x80, 0x80, 0x80, 0x80, 0x80, 0x80, 0x80, 0x80, 0x80, 0x01]),
        Err(Error::IntOverflow)
    );
    assert_eq!(decode(&[0x81, 0x80, 0x80, 0x80, 0x80, 0x80, 0x00]), Ok(1));
    let mut input = Input::new(vec![0xff, 0xff, 0xff, 0xff, 0x7f, 0x55]);
    assert_eq!(input.read_compressed_int(), Err(Error::IntOverflow));
    assert_eq!(input.remaining(), 1);
    assert!(Error::IntOverflow.is_format_error());
    assert!(!Error::TooLarge.is_format_error());
}

#[test]
fn compressed_int_cut_by_end_of_stream() {
    assert_eq!(decode(&[]), Err(Error::UnexpectedEof));
    assert_eq!(decode(&[0x85]), Err(Error::UnexpectedEof));
    assert_eq!(decode(&[0xAC, 0x82]), Err(Error::UnexpectedEof));
    assert_eq!(decode(&[0xff, 0xff, 0xff, 0xff, 0xff]), Err(Error::UnexpectedEof));
    let mut input = Input::new(vec![0x80, 0x80]);
    assert_eq!(input.read_compressed_int(), Err(Error::UnexpectedEof));
    assert_eq!(input.remaining(), 0);
}

#[test]
fn cstring_abc() {
    let mut out = Output::new();
    out.write_cstring("abc".as_bytes()).unwrap();
    let bytes = out.into_bytes();
    assert_eq!(bytes, vec![0x61, 0x62, 0x63, 0x00]);
    let mut input = Input::new(bytes);
    assert_eq!(input.read_cstring(), Ok("abc".to_string()));
    assert_eq!(input.remaining(), 0);
}

#[test]
fn cstring_stops_at_first_zero() {
    let mut input = Input::new(b"ab\0cd\0\0x".to_vec());
    assert_eq!(input.read_cstring(), Ok("ab".to_string()));
    assert_eq!(input.read_cstring(), Ok("cd".to_string()));
    assert_eq!(input.read_cstring(), Ok(String::new()));
    assert_eq!(input.remaining(), 1);
    assert_eq!(input.read_cstring(), Ok("x".to_string()));
    assert_eq!(input.remaining(), 0);
    assert_eq!(input.read_cstring(), Ok(String::new()));
}

#[test]
fn cstring_rejects_invalid_utf8() {
    let mut input = Input::new(vec![0x61, 0xff, 0x00, 0x62, 0x00]);
    assert_eq!(input.read_cstring(), Err(Error::InvalidUtf8));
    assert_eq!(input.remaining(), 2);
    assert_eq!(input.read_cstring(), Ok("b".to_string()));
    assert!(Error::InvalidUtf8.is_format_error());
}

#[test]
fn cstring_decodes_utf8() {
    let mut out = Output::new();
    out.write_cstring("zäh€".as_bytes()).unwrap();
    let bytes = out.into_bytes();
    assert_eq!(bytes, vec![0x7a, 0xc3, 0xa4, 0x68, 0xe2, 0x82, 0xac, 0x00]);
    let mut input = Input::new(bytes);
    assert_eq!(input.read_cstring(), Ok("zäh€".to_string()));
}

#[test]
fn words_are_little_endian() {
    let mut out = Output::new();
    out.write_u32(0x1234_5678);
    out.write_u32(1);
    let bytes = out.into_bytes();
    assert_eq!(bytes, vec![0x78, 0x56, 0x34, 0x12, 1, 0, 0, 0]);
    let mut input = Input::new(bytes);
    assert_eq!(input.read_u32(), Ok(0x1234_5678));
    assert_eq!(input.read_u32(), Ok(1));
    assert_eq!(input.read_u32(), Err(Error::UnexpectedEof));
}

#[test]
fn input_reads_in_order() {
    let mut input = Input::new(vec![1, 2, 3, 4, 5, 6, 7]);
    assert_eq!(input.remaining(), 7);
    assert_eq!(input.read_byte(), Some(1));
    assert_eq!(input.read_exact(2), Ok(vec![2, 3]));
    assert_eq!(input.read_exact(5), Err(Error::UnexpectedEof));
    assert_eq!(input.remaining(), 4);
    assert_eq!(input.read_u32(), Ok(0x0706_0504));
    assert_eq!(input.read_byte(), None);
    assert_eq!(input.read_exact(0), Ok(Vec::new()));
}

#[test]
fn output_appends() {
    let mut out = Output::new();
    out.write_byte(9);
    out.write_all(&[8, 7]);
    out.write_all(&[]);
    assert_eq!(out.write_compressed_int(128), Ok(2));
    assert_eq!(out.into_bytes(), vec![9, 8, 7, 0x80, 0x01]);
}
