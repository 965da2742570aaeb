use uf2::block::SizeOrFamily;
use uf2::block::UF2Block;

fn word_at(chunk: &[u8; 512], offset: usize) -> u32 {
    u32::from_le_bytes([chunk[offset], chunk[offset + 1], chunk[offset + 2], chunk[offset + 3]])
}

#[test]
fn new_starts_counters_at_zero() {
    let block = UF2Block::new(256, 1024);
    assert_eq!(block.flags, 0);
    assert_eq!(block.target_addr, 0);
    assert_eq!(block.payload_size, 256);
    assert_eq!(block.block_no, 0);
    assert_eq!(block.num_blocks, 4);
    assert_eq!(block.size_or_family, SizeOrFamily::TotalSize(1024));
    assert_eq!(block.data.len(), 476);
    assert!(block.data.iter().all(|b| *b == 0));
}

#[test]
fn new_rounds_the_block_count_up() {
    assert_eq!(UF2Block::new(476, 476).num_blocks, 1);
    assert_eq!(UF2Block::new(476, 477).num_blocks, 2);
    assert_eq!(UF2Block::new(476, 475).num_blocks, 1);
    assert_eq!(UF2Block::new(476, 0).num_blocks, 0);
    assert_eq!(UF2Block::new(1, 476).num_blocks, 476);
}

#[test]
fn set_family_flags_and_replaces_the_size() {
    let mut block = UF2Block::new(256, 1024);
    block.set_family(7);
    assert_eq!(block.flags, 0x2000);
    assert_eq!(block.size_or_family, SizeOrFamily::FamilyId(7));
    assert_eq!(block.num_blocks, 4);
    assert_eq!(block.payload_size, 256);
}

#[test]
fn as_chunk_lays_every_field_at_its_offset() {
    let mut data: Vec<u8> = Vec::new();
    for i in 0..476usize {
        data.push((i % 251) as u8);
    }
    let block = UF2Block {
        flags: 0,
        target_addr: 0x0102_0304,
        payload_size: 400,
        block_no: 5,
        num_blocks: 9,
        size_or_family: SizeOrFamily::TotalSize(0xDEAD_BEEF),
        data: data.clone(),
    };
    let chunk = block.as_chunk();
    assert_eq!(chunk.len(), 512);
    assert_eq!(word_at(&chunk, 0), 0x0A324655);
    assert_eq!(&chunk[0..4], &[0x55, 0x46, 0x32, 0x0A]);
    assert_eq!(word_at(&chunk, 4), 0x9E5D5157);
    assert_eq!(word_at(&chunk, 8), 0);
    assert_eq!(word_at(&chunk, 12), 0x0102_0304);
    assert_eq!(word_at(&chunk, 16), 400);
    assert_eq!(word_at(&chunk, 20), 5);
    assert_eq!(word_at(&chunk, 24), 9);
    assert_eq!(word_at(&chunk, 28), 0xDEAD_BEEF);
    assert_eq!(&chunk[32..508], &data[..]);
    assert_eq!(word_at(&chunk, 508), 0x0AB16F30);
    assert_eq!(&chunk[508..512], &[0x30, 0x6F, 0xB1, 0x0A]);
}

#[test]
fn as_chunk_serializes_a_family_block() {
    let mut block = UF2Block::new(1, 3);
    block.set_family(0x1234_5678);
    let chunk = block.as_chunk();
    assert_eq!(word_at(&chunk, 8), 0x2000);
    assert_eq!(word_at(&chunk, 28), 0x1234_5678);
}
