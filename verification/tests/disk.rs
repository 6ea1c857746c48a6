use database::disk::{
    allocate_anon_block_chunk, anon_start_block_reply, ask_disk_line, disk_reply,
    flush_disk_write_buffer, get_anon_start_block, init_anon_block_allocator,
    init_anon_block_allocator_done, keep_unsent, read_blocks, read_blocks_done, read_blocks_nocache,
    rewind_anon_block_allocator, set_anon_block_base, set_global_budgets, write_blocks, writes_sent,
    BlockRead, DiskState,
};

#[test]
fn asks_for_a_line() {
    let mut disk = DiskState::new();
    assert_eq!(ask_disk_line(&mut disk, "get block-size\n"), b"get block-size\n".to_vec());
    assert_eq!(disk_reply(" 4096 \r\n"), "4096");
    assert_eq!(disk_reply("\u{2003}a b\u{3000}"), "a b");
}

#[test]
fn writes_wait_in_the_buffer() {
    let mut disk = DiskState::new();
    let sent = write_blocks(&mut disk, 7, 2, &vec![1u8, 2, 3, 4]);
    assert!(sent.is_empty());
    assert_eq!(flush_disk_write_buffer(&mut disk), b"put block 7 2\n\x01\x02\x03\x04".to_vec());
    assert!(flush_disk_write_buffer(&mut disk).is_empty());
}

#[test]
fn writes_that_could_not_be_sent_stay_pending() {
    let mut disk = DiskState::new();
    write_blocks(&mut disk, 7, 1, &vec![9u8]);
    let bytes = flush_disk_write_buffer(&mut disk);
    keep_unsent(&mut disk, bytes);
    assert_eq!(disk.write_buffer, b"put block 7 1\n\x09".to_vec());
    disk.buffer_limit = 18;
    let bytes = write_blocks(&mut disk, 8, 1, &vec![5u8]);
    assert!(disk.write_buffer.is_empty());
    write_blocks(&mut disk, 9, 1, &vec![6u8]);
    keep_unsent(&mut disk, bytes);
    assert!(matches!(read_cached(&mut disk, 7), Some(9)));
    assert!(read_cached(&mut disk, 8).is_none());
    assert!(read_cached(&mut disk, 9).is_none());
    assert_eq!(
        flush_disk_write_buffer(&mut disk),
        b"put block 7 1\n\x09put block 8 1\n\x05put block 9 1\n\x06".to_vec()
    );
}

/// A cached block of one byte.
fn read_cached(disk: &mut DiskState, block: u64) -> Option<u8> {
    disk.cache.lookup(block, 1, 1).map(|data| data[0])
}

#[test]
fn blocks_are_cached_once_their_writes_were_sent() {
    let mut disk = DiskState::new();
    disk.buffer_limit = 18;
    assert!(write_blocks(&mut disk, 7, 1, &vec![9u8]).is_empty());
    assert_eq!(read_cached(&mut disk, 7), Some(9));
    assert!(!write_blocks(&mut disk, 7, 1, &vec![5u8]).is_empty());
    assert!(write_blocks(&mut disk, 8, 1, &vec![6u8]).is_empty());
    assert_eq!(read_cached(&mut disk, 7), Some(9));
    assert_eq!(read_cached(&mut disk, 8), None);
    writes_sent(&mut disk);
    assert_eq!(read_cached(&mut disk, 7), Some(5));
    assert_eq!(read_cached(&mut disk, 8), Some(6));
    assert!(disk.waiting.is_empty());
}

#[test]
fn writes_are_sent_at_the_limit() {
    let mut disk = DiskState::new();
    disk.buffer_limit = 18;
    assert!(write_blocks(&mut disk, 7, 1, &vec![9u8]).is_empty());
    assert_eq!(
        write_blocks(&mut disk, 8, 1, &vec![5u8]),
        b"put block 7 1\n\x09put block 8 1\n\x05".to_vec()
    );
}

#[test]
fn written_blocks_are_read_from_the_cache() {
    let mut disk = DiskState::new();
    write_blocks(&mut disk, 10, 3, &vec![1u8, 1, 2, 2, 3, 3]);
    match read_blocks(&mut disk, 11, 2, 2) {
        BlockRead::Cached(data) => assert_eq!(data, vec![2u8, 2, 3, 3]),
        BlockRead::Fetch(_) => panic!("not cached"),
    }
    write_blocks(&mut disk, 10, 3, &vec![7u8, 7, 8, 8, 9, 9]);
    match read_blocks_nocache(&mut disk, 10, 1, 2) {
        BlockRead::Cached(data) => assert_eq!(data, vec![7u8, 7]),
        BlockRead::Fetch(_) => panic!("not cached"),
    }
}

#[test]
fn a_read_sends_the_writes_first() {
    let mut disk = DiskState::new();
    disk.cache_limit = 0;
    write_blocks(&mut disk, 3, 1, &vec![6u8]);
    match read_blocks(&mut disk, 5, 12, 1) {
        BlockRead::Fetch(bytes) => {
            assert_eq!(bytes, b"put block 3 1\n\x06get block 5 12\n".to_vec())
        }
        BlockRead::Cached(_) => panic!("nothing was cached"),
    }
}

#[test]
fn a_read_is_cached_and_a_scan_is_not() {
    let mut disk = DiskState::new();
    assert!(matches!(read_blocks_nocache(&mut disk, 5, 1, 2), BlockRead::Fetch(_)));
    assert!(matches!(read_blocks(&mut disk, 5, 1, 2), BlockRead::Fetch(_)));
    read_blocks_done(&mut disk, 5, 1, &vec![4u8, 4]);
    assert!(matches!(read_blocks(&mut disk, 5, 1, 2), BlockRead::Cached(_)));
}

#[test]
fn the_allocator_starts_where_the_disk_says() {
    let mut disk = DiskState::new();
    assert_eq!(
        init_anon_block_allocator(&mut disk),
        Some(b"get anon-start-block\n".to_vec())
    );
    assert!(init_anon_block_allocator_done(&mut disk, "500\n").is_ok());
    assert_eq!(init_anon_block_allocator(&mut disk), None);
    assert_eq!(allocate_anon_block_chunk(&mut disk, 10), 500);
    assert_eq!(allocate_anon_block_chunk(&mut disk, 1), 510);
    rewind_anon_block_allocator(&mut disk);
    assert_eq!(allocate_anon_block_chunk(&mut disk, 1), 500);
    assert_eq!(get_anon_start_block(&mut disk), b"get anon-start-block\n".to_vec());
}

#[test]
fn a_reply_that_is_no_number_is_refused() {
    let mut disk = DiskState::new();
    assert_eq!(
        init_anon_block_allocator_done(&mut disk, "none\n").unwrap_err().message(),
        "invalid number in disk reply"
    );
    assert_eq!(anon_start_block_reply(" +12 ").unwrap(), 12);
    assert!(anon_start_block_reply("").is_err());
    assert!(anon_start_block_reply("+").is_err());
    assert!(anon_start_block_reply("-1").is_err());
    assert_eq!(anon_start_block_reply("18446744073709551615").unwrap(), u64::MAX);
    assert!(anon_start_block_reply("18446744073709551616").is_err());
}

#[test]
fn rewinding_forgets_the_blocks_of_operators() {
    let mut disk = DiskState::new();
    set_anon_block_base(&mut disk, 100);
    write_blocks(&mut disk, 50, 1, &vec![1u8]);
    write_blocks(&mut disk, 100, 1, &vec![2u8]);
    rewind_anon_block_allocator(&mut disk);
    assert!(matches!(read_blocks(&mut disk, 50, 1, 1), BlockRead::Cached(_)));
    assert!(matches!(read_blocks(&mut disk, 100, 1, 1), BlockRead::Fetch(_)));
}

#[test]
fn budgets_follow_the_memory_limit() {
    let mut disk = DiskState::new();
    set_global_budgets(&mut disk, 100);
    assert_eq!(disk.cache_limit, 18874368);
    assert_eq!(disk.a1_in_limit, 4718592);
    assert_eq!(disk.buffer_limit, 6291456);
}
