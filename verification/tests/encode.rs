use uf2::encode::encode;
use uf2::Uf2Error;

fn word_at(chunk: &[u8; 512], offset: usize) -> u32 {
    u32::from_le_bytes([chunk[offset], chunk[offset + 1], chunk[offset + 2], chunk[offset + 3]])
}

fn patterned(len: usize) -> Vec<u8> {
    let mut v: Vec<u8> = Vec::new();
    for i in 0..len {
        v.push((i % 256) as u8);
    }
    v
}

#[test]
fn four_full_frames_for_1024_bytes_at_page_256() {
    let src = patterned(1024);
    let frames = encode(&src, 256, None).unwrap();
    assert_eq!(frames.len(), 4);
    let mut expected_addr: u32 = 0;
    for (i, frame) in frames.iter().enumerate() {
        assert_eq!(frame.len(), 512);
        assert_eq!(word_at(frame, 0), 0x0A324655);
        assert_eq!(word_at(frame, 4), 0x9E5D5157);
        assert_eq!(word_at(frame, 8), 0);
        assert_eq!(word_at(frame, 12), expected_addr);
        assert_eq!(word_at(frame, 16), 256);
        assert_eq!(word_at(frame, 20), i as u32);
        assert_eq!(word_at(frame, 24), 4);
        assert_eq!(word_at(frame, 28), 1024);
        assert_eq!(&frame[32..288], &src[i * 256..(i + 1) * 256]);
        assert!(frame[288..508].iter().all(|b| *b == 0));
        assert_eq!(word_at(frame, 508), 0x0AB16F30);
        expected_addr += 256;
    }
    assert_eq!(expected_addr, 1024);
}

#[test]
fn length_not_divisible_by_page_size_is_rejected() {
    let src = patterned(10);
    assert_eq!(encode(&src, 3, None).unwrap_err(), Uf2Error::IncompatibleLength);
}

#[test]
fn oversized_page_size_behaves_as_page_size_one() {
    let src = patterned(600);
    let fallback = encode(&src, 1000, None).unwrap();
    let baseline = encode(&src, 1, None).unwrap();
    assert_eq!(fallback.len(), 2);
    assert_eq!(fallback.len(), baseline.len());
    for (a, b) in fallback.iter().zip(baseline.iter()) {
        assert_eq!(&a[..], &b[..]);
    }
}

#[test]
fn family_id_sets_the_flag_in_every_frame() {
    let src = patterned(512);
    let frames = encode(&src, 256, Some(7)).unwrap();
    assert_eq!(frames.len(), 2);
    for frame in frames.iter() {
        assert_eq!(word_at(frame, 8), 0x2000);
        assert_eq!(word_at(frame, 28), 7);
    }
}

#[test]
fn payload_sizes_sum_to_the_source_length() {
    let src = patterned(1000);
    let frames = encode(&src, 2, None).unwrap();
    assert_eq!(frames.len(), 3);
    let total: u32 = frames.iter().map(|f| word_at(f, 16)).sum();
    assert_eq!(total, 1000);
    assert_eq!(word_at(&frames[0], 16), 476);
    assert_eq!(word_at(&frames[1], 16), 476);
    assert_eq!(word_at(&frames[2], 16), 48);
    assert_eq!(word_at(&frames[2], 12), 952);
}

#[test]
fn empty_source_emits_no_frames() {
    let src: Vec<u8> = Vec::new();
    let frames = encode(&src, 1, None).unwrap();
    assert_eq!(frames.len(), 0);
}

#[test]
fn short_final_frame_is_zero_padded() {
    let src = patterned(10);
    let frames = encode(&src, 1, None).unwrap();
    assert_eq!(frames.len(), 1);
    assert_eq!(word_at(&frames[0], 16), 10);
    assert_eq!(word_at(&frames[0], 28), 10);
    assert_eq!(&frames[0][32..42], &src[..]);
    assert!(frames[0][42..508].iter().all(|b| *b == 0));
}
