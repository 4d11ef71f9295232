use alloy_primitives::keccak256;
use santa_lib::Keccak256;

#[test]
fn test_simple_comparisons() {
    let mut keccak = Keccak256::default();
    let mut hash = [0u8; 32];

    let preimage = "hello";
    keccak.update(preimage.as_bytes());
    keccak.finalize_and_reset(&mut hash);

    assert_eq!(&hash, keccak256(preimage), "hello");

    hash = Default::default();
    keccak.update(preimage.as_bytes());
    keccak.finalize_and_reset(&mut hash);

    assert_eq!(&hash, keccak256(preimage), "hello (after reset)");

    let preimage = "very long text, incredible, very nice. Multiple bytes aaaaaaaaaaaaaaaaaaaaaaaaaaaaaaaaaaaaaaaaaaaaaaaaaaaaaaaaaaaaaaaaaaaaaaa".repeat(320);

    keccak.update(preimage.as_bytes());
    keccak.finalize_and_reset(&mut hash);

    assert_eq!(&hash, keccak256(preimage), "long string");

    keccak.finalize_and_reset(&mut hash);
    assert_eq!(&hash, keccak256(""), "empty");

    let preimage = "potato";

    keccak.update(preimage.as_bytes());
    keccak.finalize_and_reset(&mut hash);

    assert_eq!(&hash, keccak256(preimage), "potato");
}

#[test]
fn keccak_matches_reference_around_block_boundaries() {
    let mut keccak = Keccak256::new();
    let mut hash = [0u8; 32];
    for len in [0usize, 1, 2, 55, 56, 135, 136, 137, 271, 272, 273, 1000] {
        let input: Vec<u8> = (0..len).map(|i| (i * 7 + 3) as u8).collect();
        keccak.update(&input);
        keccak.finalize_and_reset(&mut hash);
        assert_eq!(hash, keccak256(&input).0, "length {}", len);
    }
}

#[test]
fn keccak_streaming_equals_one_update() {
    let input: Vec<u8> = (0..700usize).map(|i| (i * 13 + 1) as u8).collect();
    let expected = keccak256(&input).0;
    for split in [0usize, 1, 17, 135, 136, 137, 272, 300, 699, 700] {
        let mut keccak = Keccak256::new();
        let mut hash = [0u8; 32];
        keccak.update(&input[..split]);
        keccak.update(&input[split..]);
        keccak.finalize_and_reset(&mut hash);
        assert_eq!(hash, expected, "split at {}", split);
    }
    let mut keccak = Keccak256::new();
    let mut hash = [0u8; 32];
    for byte in input.iter() {
        keccak.update(&[*byte]);
    }
    keccak.finalize_and_reset(&mut hash);
    assert_eq!(hash, expected);
}

#[test]
fn keccak_empty_digest_after_finalize() {
    let mut keccak = Keccak256::new();
    let mut hash = [0u8; 32];
    keccak.update(b"some message");
    keccak.finalize_and_reset(&mut hash);
    keccak.finalize_and_reset(&mut hash);
    let expected: [u8; 32] = [
        0xc5, 0xd2, 0x46, 0x01, 0x86, 0xf7, 0x23, 0x3c, 0x92, 0x7e, 0x7d, 0xb2, 0xdc, 0xc7, 0x03,
        0xc0, 0xe5, 0x00, 0xb6, 0x53, 0xca, 0x82, 0x27, 0x3b, 0x7b, 0xfa, 0xd8, 0x04, 0x5d, 0x85,
        0xa4, 0x70,
    ];
    assert_eq!(hash, expected);
}

#[test]
fn keccak_complete_is_update_then_finalize() {
    let mut keccak = Keccak256::new();
    let mut hash = [0u8; 32];
    keccak.complete(b"potato", &mut hash);
    assert_eq!(hash, keccak256("potato").0);
    keccak.complete(b"", &mut hash);
    assert_eq!(hash, keccak256("").0);
}

#[test]
fn keccak_multi_megabyte_input() {
    let input: Vec<u8> = (0..3_000_001usize).map(|i| (i % 251) as u8).collect();
    let expected = keccak256(&input).0;
    let mut keccak = Keccak256::new();
    let mut hash = [0u8; 32];
    keccak.update(&input);
    keccak.finalize_and_reset(&mut hash);
    assert_eq!(hash, expected);
    // The same in pieces of uneven size.
    let mut at = 0;
    let mut step = 1;
    while at < input.len() {
        let end = (at + step).min(input.len());
        keccak.update(&input[at..end]);
        at = end;
        step = step * 3 + 1;
    }
    keccak.finalize_and_reset(&mut hash);
    assert_eq!(hash, expected);
}

#[test]
fn keccak_reset_drops_what_was_absorbed() {
    let mut keccak = Keccak256::new();
    let mut hash = [0u8; 32];
    keccak.update(&[0x5a; 300]);
    keccak.reset();
    keccak.update(b"hello");
    keccak.finalize_and_reset(&mut hash);
    assert_eq!(hash, keccak256("hello").0);
}

#[test]
fn keccak_absorbs_block_by_block() {
    let input: Vec<u8> = (0..272usize).map(|i| (i * 3) as u8).collect();
    let mut keccak = Keccak256::new();
    let mut hash = [0u8; 32];
    keccak.absorb_block(&input[..136]);
    keccak.update(&input[136..200]);
    keccak.absorb_block(&input[200..]);
    keccak.finalize_and_reset(&mut hash);
    assert_eq!(hash, keccak256(&input).0);
    assert_eq!(Keccak256::absorb(true, 0xf0, 0x3c), 0x3c);
    assert_eq!(Keccak256::absorb(false, 0xf0, 0x3c), 0xcc);
}
