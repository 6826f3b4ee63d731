use codeipc::error::CodecError;
use codeipc::vql::{read_vql, write_vql};

#[test]
fn test_vql() {
    for input in vec![0, 1, -1, 1234, -1234, i32::MAX, i32::MIN] {
        let mut rw: Vec<u8> = Vec::new();
        write_vql(input, &mut rw);
        assert_eq!(read_vql(&rw).unwrap(), (input, rw.len()));
    }
}

#[test]
fn vql_zero_is_one_zero_byte() {
    let mut out = Vec::new();
    write_vql(0, &mut out);
    assert_eq!(out, vec![0u8]);
}

#[test]
fn vql_exact_bytes() {
    let mut out = Vec::new();
    write_vql(1, &mut out);
    assert_eq!(out, vec![1u8]);
    out.clear();
    write_vql(127, &mut out);
    assert_eq!(out, vec![0x7f]);
    out.clear();
    write_vql(128, &mut out);
    assert_eq!(out, vec![0x80, 0x01]);
    out.clear();
    write_vql(1234, &mut out);
    assert_eq!(out, vec![0xd2, 0x09]);
    out.clear();
    write_vql(i32::MAX, &mut out);
    assert_eq!(out, vec![0xff, 0xff, 0xff, 0xff, 0x07]);
    out.clear();
    write_vql(-1, &mut out);
    assert_eq!(out, vec![0xff, 0xff, 0xff, 0xff, 0x0f]);
    out.clear();
    write_vql(i32::MIN, &mut out);
    assert_eq!(out, vec![0x80, 0x80, 0x80, 0x80, 0x08]);
}

#[test]
fn vql_appends_to_what_is_there() {
    let mut out = vec![9u8, 9];
    write_vql(300, &mut out);
    assert_eq!(out, vec![9, 9, 0xac, 0x02]);
}

#[test]
fn vql_negative_takes_five_bytes() {
    for input in vec![-1, -2, -1234, i32::MIN, i32::MIN + 1] {
        let mut out = Vec::new();
        write_vql(input, &mut out);
        assert_eq!(out.len(), 5);
    }
}

#[test]
fn vql_never_longer_than_five_bytes() {
    for input in vec![0, 1, 127, 128, 16383, 16384, 2097151, 2097152, 268435455, 268435456, i32::MAX, -1, i32::MIN] {
        let mut out = Vec::new();
        write_vql(input, &mut out);
        assert!(out.len() >= 1 && out.len() <= 5);
    }
}

#[test]
fn vql_stops_at_the_first_byte_without_high_bit() {
    assert_eq!(read_vql(&[0x05, 0xff, 0xff]), Ok((5, 1)));
    assert_eq!(read_vql(&[0xd2, 0x09, 0x01]), Ok((1234, 2)));
}

#[test]
fn vql_truncated_is_end_of_stream() {
    assert_eq!(read_vql(&[]), Err(CodecError::UnexpectedEof));
    assert_eq!(read_vql(&[0x80]), Err(CodecError::UnexpectedEof));
    assert_eq!(read_vql(&[0xff, 0xff, 0xff, 0xff]), Err(CodecError::UnexpectedEof));
}

#[test]
fn vql_prefixes_of_an_encoding_fail() {
    for input in vec![128, 1234, -1, i32::MAX, i32::MIN] {
        let mut out = Vec::new();
        write_vql(input, &mut out);
        for k in 0..out.len() {
            assert_eq!(read_vql(&out[..k]), Err(CodecError::UnexpectedEof));
        }
    }
}

#[test]
fn vql_drops_digits_beyond_32_bits() {
    // six digits: the sixth weighs 2^35 and leaves the low 32 bits alone
    assert_eq!(read_vql(&[0x81, 0x80, 0x80, 0x80, 0x80, 0x7f]), Ok((1, 6)));
    // the fifth digit keeps only its low four bits
    assert_eq!(read_vql(&[0x80, 0x80, 0x80, 0x80, 0x7f]), Ok((-268435456, 5)));
}
