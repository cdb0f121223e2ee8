use fasterdb::serialization::{ByteStream, FromBytes, FromBytesError, ToBytes, read_bytes,
    write_bytes};

#[test]
fn test_io_u64() {
    let value: u64 = 15;
    let mut buffer: Vec<u8> = Vec::new();
    write_bytes(&mut buffer, value);

    let mut stream = ByteStream::new(buffer);
    let new_res: Result<u64, FromBytesError> = read_bytes(&mut stream);
    assert_eq!(new_res.unwrap(), value);
}

#[test]
fn test_io_i64() {
    let value: i64 = -19;
    let mut buffer: Vec<u8> = Vec::new();
    write_bytes(&mut buffer, value);

    let mut stream = ByteStream::new(buffer);
    let new_res: Result<i64, FromBytesError> = read_bytes(&mut stream);
    assert_eq!(new_res.unwrap(), value);
}

#[test]
fn test_io_u32() {
    let value: u32 = 30;
    let mut buffer: Vec<u8> = Vec::new();
    write_bytes(&mut buffer, value);

    let mut stream = ByteStream::new(buffer);
    let new_res: Result<u32, FromBytesError> = read_bytes(&mut stream);
    assert_eq!(new_res.unwrap(), value);
}

#[test]
fn test_io_i32() {
    let value: i32 = -12;
    let mut buffer: Vec<u8> = Vec::new();
    write_bytes(&mut buffer, value);

    let mut stream = ByteStream::new(buffer);
    let new_res: Result<i32, FromBytesError> = read_bytes(&mut stream);
    assert_eq!(new_res.unwrap(), value);
}

#[test]
fn test_io_usize() {
    let value: usize = 123456;
    let mut buffer: Vec<u8> = Vec::new();
    write_bytes(&mut buffer, value);
    assert_eq!(buffer.len(), 8);

    let mut stream = ByteStream::new(buffer);
    let new_res: Result<usize, FromBytesError> = read_bytes(&mut stream);
    assert_eq!(new_res.unwrap(), value);
}

#[test]
fn test_io_string() {
    let value = String::from("יאיר אשל דובר עברית");
    let value_clone = value.clone();

    let mut buffer: Vec<u8> = Vec::new();
    write_bytes(&mut buffer, value);

    let mut stream = ByteStream::new(buffer);
    let new_res: Result<String, FromBytesError> = read_bytes(&mut stream);
    assert_eq!(new_res.unwrap(), value_clone);
}

#[test]
fn test_io_vec() {
    let value: Vec<u64> = vec![10, 20, 30];
    let bytes = value.to_bytes_vec();
    // 8-byte element count, then each element's 8 little-endian bytes.
    assert_eq!(bytes.len(), 32);
    assert_eq!(&bytes[0..8], [3, 0, 0, 0, 0, 0, 0, 0]);
    assert_eq!(&bytes[8..16], [10, 0, 0, 0, 0, 0, 0, 0]);
    assert_eq!(&bytes[16..24], [20, 0, 0, 0, 0, 0, 0, 0]);
    assert_eq!(&bytes[24..32], [30, 0, 0, 0, 0, 0, 0, 0]);

    let value: Vec<String> = vec!["I am the smart".to_string(), "I am stupid".to_string()];
    let bytes = value.to_bytes_vec();
    assert_eq!(&bytes[0..8], [2, 0, 0, 0, 0, 0, 0, 0]);
    assert_eq!(&bytes[8..16], [14, 0, 0, 0, 0, 0, 0, 0]);
    assert_eq!(&bytes[16..30], "I am the smart".as_bytes());
    assert_eq!(&bytes[30..38], [11, 0, 0, 0, 0, 0, 0, 0]);
    assert_eq!(&bytes[38..49], "I am stupid".as_bytes());
    assert_eq!(bytes.len(), 49);
}

#[test]
fn test_string_encoding_bytes() {
    // Multibyte text encodes as its UTF-8 bytes, not its characters.
    let value = String::from("é");
    let bytes = value.to_bytes_vec();
    assert_eq!(bytes, vec![2, 0, 0, 0, 0, 0, 0, 0, 0xC3, 0xA9]);
}

#[test]
fn test_string_prefix_counts_bytes() {
    let value = String::from("I am");
    let bytes = value.to_bytes_vec();
    assert_eq!(bytes, vec![4, 0, 0, 0, 0, 0, 0, 0, 73, 32, 97, 109]);
}

#[test]
fn test_decode_invalid_utf8() {
    // A length prefix of 2 followed by bytes that are not UTF-8.
    let buffer = vec![2, 0, 0, 0, 0, 0, 0, 0, 0xFF, 0xFE];
    let mut stream = ByteStream::new(buffer);
    let res: Result<String, FromBytesError> = read_bytes(&mut stream);
    assert!(matches!(res, Err(FromBytesError::Utf8Error)));
    // A failed decode consumes nothing.
    assert_eq!(stream.position(), 0);
}

#[test]
fn test_decode_truncated() {
    let buffer = vec![1, 2, 3];
    let mut stream = ByteStream::new(buffer);
    let res: Result<u64, FromBytesError> = read_bytes(&mut stream);
    assert!(matches!(res, Err(FromBytesError::TruncatedInput)));
    assert_eq!(stream.position(), 0);

    // A declared length that passes the end of the input.
    let buffer = vec![9, 0, 0, 0, 0, 0, 0, 0, 65, 66];
    let mut stream = ByteStream::new(buffer);
    let res: Result<String, FromBytesError> = read_bytes(&mut stream);
    assert!(matches!(res, Err(FromBytesError::TruncatedInput)));
    assert_eq!(stream.position(), 0);
}

#[test]
fn test_from_bytes_wrong_width() {
    let res = u64::from_bytes_vec(&[1, 2, 3]);
    assert!(matches!(res, Err(FromBytesError::ReadLenError)));
    let res = u32::from_bytes_vec(&[1, 2, 3, 4, 5]);
    assert!(matches!(res, Err(FromBytesError::ReadLenError)));
}

#[test]
fn test_stream_reads_values_in_order() {
    // Two values back to back: the self-describing layout recovers the
    // boundary without external framing.
    let mut buffer: Vec<u8> = Vec::new();
    write_bytes(&mut buffer, String::from("hi"));
    write_bytes(&mut buffer, 7u64);
    let mut stream = ByteStream::new(buffer);
    let s: String = read_bytes(&mut stream).unwrap();
    let n: u64 = read_bytes(&mut stream).unwrap();
    assert_eq!(s, "hi");
    assert_eq!(n, 7);
    assert_eq!(stream.remaining_len(), 0);
}
