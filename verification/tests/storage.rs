use fasterdb::block::Block;
use fasterdb::block_storage::{BlockSeek, MemoryBackend, Reader, ReaderError, Writer};
use fasterdb::serialization::{ByteStream, FromBytesError, ToBytes, read_bytes, write_bytes};

fn gen_block(first: bool) -> Block {
    let mut block = Block::new();
    block.set_id(10);
    block.set_data(&[10, 20, 30], 10).unwrap();
    block.set_next_block(if first { 1 } else { 0 });
    block
}

fn get_file_expected_data() -> Vec<u8> {
    let mut out_vec = vec![0u8; 2016];
    out_vec[10] = 10;
    out_vec[11] = 20;
    out_vec[12] = 30;

    out_vec[1018] = 10;
    out_vec[1019] = 20;
    out_vec[1020] = 30;

    out_vec
}

#[test]
fn test_writer_and_reader() {
    let block = gen_block(true);

    let mut writer = Writer::new(MemoryBackend::new());
    let result = writer.write(block, BlockSeek::Start(0)).unwrap();
    assert_eq!(result, 1024);

    let block = gen_block(false);
    let result = writer.write(block, BlockSeek::Current(1)).unwrap(); // right to the next block
    assert_eq!(result, 1024);

    let flush_res = writer.flush();
    assert!(flush_res.is_ok());

    // Now test the reader, on the same backend the writer filled.

    let mut reader = Reader::new(writer.into_inner());
    let data_res = reader.read_full_item(BlockSeek::Start(0));
    assert!(data_res.is_ok());
    let data = data_res.unwrap();
    assert_eq!(data, get_file_expected_data());
}

#[test]
fn test_two_page_chain_concatenates_payloads() {
    // Page 0 points at page 1; page 1 ends the chain. The chain read returns
    // the two raw 1008-byte payloads, concatenated: 2016 bytes.
    let mut page0 = Block::new();
    page0.set_id(1);
    page0.set_data(&[7u8; 1008], 0).unwrap();
    page0.set_next_block(1);

    let mut page1 = Block::new();
    page1.set_id(2);
    page1.set_data(&[9u8; 1008], 0).unwrap();
    page1.set_next_block(0);

    let mut writer = Writer::new(MemoryBackend::new());
    writer.write(page0, BlockSeek::Start(0)).unwrap();
    writer.write(page1, BlockSeek::Start(1)).unwrap();

    let mut reader = Reader::new(writer.into_inner());
    let stream = reader.read_full_item(BlockSeek::Start(0)).unwrap();
    assert_eq!(stream.len(), 2016);
    let mut expected = vec![7u8; 1008];
    expected.extend_from_slice(&[9u8; 1008]);
    assert_eq!(stream, expected);
}

#[test]
fn test_three_page_chain() {
    let payloads: [u8; 3] = [11, 22, 33];
    let mut writer = Writer::new(MemoryBackend::new());
    for i in 0..3u64 {
        let mut page = Block::new();
        page.set_id(100 + i);
        page.set_data(&[payloads[i as usize]; 1008], 0).unwrap();
        page.set_next_block(if i < 2 { i + 1 } else { 0 });
        writer.write(page, BlockSeek::Start(i)).unwrap();
    }
    let mut reader = Reader::new(writer.into_inner());
    let stream = reader.read_full_item(BlockSeek::Start(0)).unwrap();
    assert_eq!(stream.len(), 3 * 1008);
    for i in 0..3usize {
        assert!(stream[i * 1008..(i + 1) * 1008].iter().all(|b| *b == payloads[i]));
    }
}

#[test]
fn test_value_round_trip_through_storage() {
    // Serialize a value with the codec, persist it in a block, read the
    // chain back and decode the concatenated bytes.
    let value = String::from("the quick brown fox");
    let mut encoded: Vec<u8> = Vec::new();
    write_bytes(&mut encoded, value.clone());

    let mut block = Block::new();
    block.set_id(5);
    block.set_data(&encoded, 0).unwrap();
    block.set_next_block(0);

    let mut writer = Writer::new(MemoryBackend::new());
    writer.write(block, BlockSeek::Start(0)).unwrap();
    writer.flush().unwrap();

    let mut reader = Reader::new(writer.into_inner());
    let stream_bytes = reader.read_full_item(BlockSeek::Start(0)).unwrap();
    assert_eq!(stream_bytes.len(), 1008);

    let mut stream = ByteStream::new(stream_bytes);
    let decoded: Result<String, FromBytesError> = read_bytes(&mut stream);
    assert_eq!(decoded.unwrap(), value);
}

#[test]
fn test_read_block_past_end() {
    let mut reader = Reader::new(MemoryBackend::new());
    let res = reader.read_block(BlockSeek::Start(0));
    assert!(matches!(res, Err(ReaderError::Io(_))));
}

#[test]
fn test_current_seek_convention() {
    // Current(1) addresses the page right after the one just written:
    // writing at Start(0) leaves the cursor at the end of page 0, and
    // Current(1) resolves to (1 - 1) * 1024 bytes further, page 1.
    let mut first = Block::new();
    first.set_id(1);
    first.set_data(&[1u8; 4], 0).unwrap();

    let mut second = Block::new();
    second.set_id(2);
    second.set_data(&[2u8; 4], 0).unwrap();

    let mut writer = Writer::new(MemoryBackend::new());
    writer.write(first, BlockSeek::Start(0)).unwrap();
    writer.write(second, BlockSeek::Current(1)).unwrap();

    let mut reader = Reader::new(writer.into_inner());
    let page1 = reader.read_block(BlockSeek::Start(1)).unwrap();
    assert_eq!(page1.get_id(), 2);
    assert_eq!(page1.get_data(4, 0).unwrap(), vec![2u8; 4]);
}

#[test]
fn test_tombstone_page_reads_as_zeros() {
    // Overwriting a stored page with a tombstone erases its encoded form.
    let mut live = Block::new();
    live.set_id(8);
    live.set_data(&[42u8; 1008], 0).unwrap();

    let mut writer = Writer::new(MemoryBackend::new());
    writer.write(live, BlockSeek::Start(0)).unwrap();

    let mut dead = Block::new();
    dead.set_id(8);
    dead.set_deleted();
    writer.write(dead, BlockSeek::Start(0)).unwrap();

    let mut reader = Reader::new(writer.into_inner());
    let back = reader.read_block(BlockSeek::Start(0)).unwrap();
    assert!(back.is_deleted());
    assert_eq!(back.get_data(1008, 0).unwrap(), vec![0u8; 1008]);
}

#[test]
fn test_sentinel_exclusivity() {
    let mut block = Block::new();
    assert!(block.is_deleted() && !block.is_index());
    block.set_index();
    assert!(block.is_index() && !block.is_deleted());
    block.set_id(33);
    assert!(!block.is_index() && !block.is_deleted());
}
