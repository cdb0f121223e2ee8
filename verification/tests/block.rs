use fasterdb::block::Block;
use fasterdb::serialization::{FromBytes, FromBytesError, ToBytes};

#[test]
fn test_new_block() {
    let block = Block::new();
    let payload = block.get_data(1008, 0).unwrap();
    assert!(payload.iter().fold(true, |v1, v2| -> bool { v1 && (v2 == &0) }), "Not all values are 0");
    assert_eq!(block.get_next_block(), 0);
    assert_eq!(block.get_id(), 0);
    assert_eq!(block.is_deleted(), true);
    assert_eq!(block.is_index(), false);
}

#[test]
fn test_block_io_values_export_to_bytes() {
    let mut block = Block::new();
    block.set_id(12);
    let data = String::from("I am").to_bytes_vec();
    let out_res = block.set_data(&data, 10);
    block.set_next_block(1000);

    assert_eq!(out_res, Ok(()));

    let out_res = block.get_data(80, 3);
    let result = out_res.unwrap();
    assert_eq!(result.len(), 80);
    assert_eq!(block.get_id(), 12);
    assert_eq!(block.get_next_block(), 1000);
    assert!(&result[0..7].iter().fold(true, |v1, v2| -> bool { v1 && (v2 == &0) }), "Not all values are 0");
    assert_eq!(&result[7..20], vec![4, 0, 0, 0, 0, 0, 0, 0, 73, 32, 97, 109, 0]);
    assert!(&result[20..].iter().fold(true, |v1, v2| -> bool { v1 && (v2 == &0) }), "Not all values are 0");

    let bytes_vec = block.to_bytes_vec();
    assert_eq!(bytes_vec.len(), 1024);
    // check id portion
    assert_eq!(bytes_vec[0], 12);
    assert_eq!(bytes_vec[1..8], [0; 7]);

    // test offset
    assert_eq!(bytes_vec[8..18], [0; 10]);

    // test sting length
    assert_eq!(bytes_vec[18], 4);
    assert_eq!(bytes_vec[19..26], [0; 7]);

    // test string
    assert_eq!(bytes_vec[26..30], [73, 32, 97, 109]);

    // test rest of the block
    assert_eq!(bytes_vec[30..1016], [0; 986]);

    // test the next item
    assert_eq!(bytes_vec[1016..1018], [232, 3]);
    assert_eq!(bytes_vec[1018..], [0; 6]);
}

#[test]
fn test_set_get_next_block() {
    let mut block = Block::new();
    block.set_next_block(11);

    assert_eq!(block.get_next_block(), 11);
    assert_eq!(block.get_next_block(), 11);
}

#[test]
fn test_data_store_error() {
    let mut block = Block::new();
    let res = block.set_data(&[11; 1008], 0);
    assert_eq!(res, Ok(()));

    let mut block = Block::new();
    let res = block.set_data(&[11], 1009);
    assert_eq!(res.unwrap_err().message(), "Data size 1 + offset 1009 = 1010 exceeds block capacity (1008)".to_string());

    let mut block = Block::new();
    let res = block.set_data(&[11; 1009], 0);
    assert_eq!(res.unwrap_err().message(), "Data size 1009 + offset 0 = 1009 exceeds block capacity (1008)".to_string());

    let mut block = Block::new();
    let res = block.set_data(&[11; 1000], 9);
    assert_eq!(res.unwrap_err().message(), "Data size 1000 + offset 9 = 1009 exceeds block capacity (1008)".to_string());
}

#[test]
fn test_id() {
    let mut block = Block::new();

    block.set_id(20);
    assert_eq!(block.get_id(), 20);
    assert_eq!(block.get_id(), 20);

    block.set_index();
    assert_eq!(block.get_id(), u64::MAX);
    assert_eq!(block.get_id(), u64::MAX);

    block.set_deleted();
    assert_eq!(block.get_id(), 0);
    assert_eq!(block.get_id(), 0);
}

#[test]
fn test_capacity_error_fields() {
    // The capacity law: the reported numbers satisfy offset + len == total
    // and total > 1008.
    let mut block = Block::new();
    let err = block.set_data(&[0u8; 1009], 0).unwrap_err();
    assert_eq!(err.size, 1009);
    assert_eq!(err.offset, 0);
    assert_eq!(err.total, 1009);
    assert!(err.total > 1008);

    let err = block.get_data(1000, 9).unwrap_err();
    assert_eq!(err.size, 1000);
    assert_eq!(err.offset, 9);
    assert_eq!(err.total, 1009);
}

#[test]
fn test_tombstone_encode_decode() {
    // A deleted block encodes as 1024 zero bytes, whatever was in it.
    let mut block = Block::new();
    block.set_id(77);
    block.set_data(&[5u8; 100], 0).unwrap();
    block.set_next_block(3);
    block.set_deleted();
    let bytes = block.to_bytes_vec();
    assert_eq!(bytes, vec![0u8; 1024]);

    let decoded = Block::from_bytes_vec(&bytes).unwrap();
    assert!(decoded.is_deleted());
    assert!(!decoded.is_index());
    assert_eq!(decoded.get_next_block(), 0);
}

#[test]
fn test_block_round_trip() {
    let mut block = Block::new();
    block.set_id(9);
    block.set_data(&[1, 2, 3, 4], 500).unwrap();
    block.set_next_block(42);
    let bytes = block.to_bytes_vec();
    let decoded = Block::from_bytes_vec(&bytes).unwrap();
    assert_eq!(decoded.get_id(), 9);
    assert_eq!(decoded.get_next_block(), 42);
    assert_eq!(decoded.get_data(1008, 0).unwrap(), block.get_data(1008, 0).unwrap());
}

#[test]
fn test_block_decode_wrong_length() {
    let res = Block::from_bytes_vec(&[0u8; 1000]);
    assert!(matches!(res, Err(FromBytesError::ReadLenError)));
}
