use uf2::combine::combine;
use uf2::encode::encode;
use uf2::Uf2Error;

fn filled(len: usize, value: u8) -> Vec<u8> {
    let mut v: Vec<u8> = Vec::new();
    for _ in 0..len {
        v.push(value);
    }
    v
}

#[test]
fn three_chunks_concatenate_in_order() {
    let inputs = vec![filled(512, 0xAA), filled(512, 0xBB), filled(512, 0xCC)];
    let out = combine(&inputs).unwrap();
    assert_eq!(out.len(), 1536);
    assert!(out[0..512].iter().all(|b| *b == 0xAA));
    assert!(out[512..1024].iter().all(|b| *b == 0xBB));
    assert!(out[1024..1536].iter().all(|b| *b == 0xCC));
}

#[test]
fn a_short_chunk_is_reported() {
    let inputs = vec![filled(512, 1), filled(100, 2)];
    assert_eq!(combine(&inputs).unwrap_err(), Uf2Error::ShortRead);
}

#[test]
fn only_the_first_512_bytes_of_each_chunk_are_kept() {
    let mut long = filled(512, 3);
    long.extend(filled(88, 9));
    let inputs = vec![long];
    let out = combine(&inputs).unwrap();
    assert_eq!(out.len(), 512);
    assert!(out.iter().all(|b| *b == 3));
}

#[test]
fn no_inputs_give_an_empty_stream() {
    let inputs: Vec<Vec<u8>> = Vec::new();
    let out = combine(&inputs).unwrap();
    assert_eq!(out.len(), 0);
}

#[test]
fn combining_emitted_frames_restores_their_concatenation() {
    let mut src: Vec<u8> = Vec::new();
    for i in 0..952usize {
        src.push((i % 200) as u8);
    }
    let frames = encode(&src, 476, None).unwrap();
    assert_eq!(frames.len(), 2);
    let inputs: Vec<Vec<u8>> = frames.iter().map(|f| f.to_vec()).collect();
    let out = combine(&inputs).unwrap();
    assert_eq!(out.len(), 1024);
    assert_eq!(&out[0..512], &frames[0][..]);
    assert_eq!(&out[512..1024], &frames[1][..]);
}
