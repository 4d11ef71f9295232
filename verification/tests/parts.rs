use santa_lib::bytes::{bytes_eq, u128_from_be, u128_to_be};
use santa_lib::fee_summary::{FeeEntry, FeeSummaryInspector, FeeSummaryInspectorError};
use santa_lib::rlp::{encode_header, encode_list_header, encode_str_header, encoded_length};
use santa_lib::sums::{AssetSums, Total256};
use santa_lib::trie_path::TriePath;
use santa_lib::{Keccak256, Reader};

#[test]
fn reader_reads_from_the_front() {
    let bytes = [1u8, 2, 3, 4, 5, 6];
    let mut reader = Reader::from(&bytes[..]);
    assert_eq!(reader.len(), 6);
    assert!(!reader.is_empty());
    assert_eq!(reader.peek(2), 3);
    assert_eq!(reader.read_byte(), 1);
    assert_eq!(reader.read_next(3), &[2, 3, 4]);
    assert_eq!(reader.as_slice(), &[5, 6]);
    assert_eq!(reader.read_next(0), &[] as &[u8]);
    assert_eq!(reader.read_next(2), &[5, 6]);
    assert!(reader.is_empty());
    assert_eq!(reader.len(), 0);
}

#[test]
fn fee_entry_layout() {
    let entry = FeeEntry::new([0xab; 20], 0x0102_0304_0506_0708_090a_0b0c_0d0e_0f10);
    let bytes = entry.as_bytes();
    assert_eq!(&bytes[..20], &[0xab; 20]);
    assert_eq!(&bytes[20..], &[1, 2, 3, 4, 5, 6, 7, 8, 9, 10, 11, 12, 13, 14, 15, 16]);
    assert_eq!(entry.asset(), &[0xab; 20]);
    assert_eq!(entry.amount(), 0x0102_0304_0506_0708_090a_0b0c_0d0e_0f10);
    assert_eq!(FeeEntry::new([0; 20], 0).as_bytes(), &[0u8; 36]);
    assert_eq!(FeeEntry::new([1; 20], u128::MAX).amount(), u128::MAX);
    let copy = FeeEntry::from_bytes(*bytes);
    assert_eq!(copy.amount(), entry.amount());
    assert_eq!(copy.asset(), entry.asset());
}

#[test]
fn fee_summary_inspector_wants_whole_entries() {
    let mut blob = Vec::new();
    blob.extend_from_slice(FeeEntry::new([1; 20], 10).as_bytes());
    blob.extend_from_slice(FeeEntry::new([2; 20], 20).as_bytes());
    let inspector = FeeSummaryInspector::try_from(&blob[..]).unwrap();
    assert_eq!(inspector.entries(), 2);
    assert_eq!(inspector.as_slice(), &blob[..]);
    assert_eq!(inspector.index(0).asset(), &[1; 20]);
    assert_eq!(inspector.index(1).asset(), &[2; 20]);
    assert_eq!(inspector.index(1).amount(), 20);
    assert_eq!(FeeSummaryInspector::try_from(&blob[..0]).unwrap().entries(), 0);
    let whole = FeeSummaryInspector::from_whole_entries(&blob[36..]);
    assert_eq!(whole.entries(), 1);
    assert_eq!(whole.index(0).amount(), 20);
    for length in [1usize, 35, 37, 71] {
        assert_eq!(
            FeeSummaryInspector::try_from(&blob[..length]).err(),
            Some(FeeSummaryInspectorError::UnalignedLength { length })
        );
    }
}

#[test]
fn big_endian_numbers() {
    assert_eq!(u128_to_be(0), [0u8; 16]);
    assert_eq!(u128_to_be(0x1234), [0, 0, 0, 0, 0, 0, 0, 0, 0, 0, 0, 0, 0, 0, 0x12, 0x34]);
    assert_eq!(u128_to_be(u128::MAX), [0xff; 16]);
    for value in [0u128, 1, 255, 256, 1_000_000, u128::MAX - 1, u128::MAX, 1 << 127] {
        assert_eq!(u128_to_be(value), value.to_be_bytes());
        assert_eq!(u128_from_be(&value.to_be_bytes()), value);
    }
    assert!(bytes_eq(&[1, 2, 3], &[1, 2, 3]));
    assert!(bytes_eq(&[], &[]));
    assert!(!bytes_eq(&[1, 2, 3], &[1, 2, 4]));
    assert!(!bytes_eq(&[1, 2, 3], &[1, 2]));
}

#[test]
fn totals_of_256_bits() {
    let total = Total256::from_u128(7);
    let mut expected = [0u8; 32];
    expected[31] = 7;
    assert_eq!(total.to_be_bytes(), expected);
    let sum = Total256::from_u128(u128::MAX).checked_add(u128::MAX).unwrap();
    let mut expected = [0xff; 32];
    expected[..15].copy_from_slice(&[0; 15]);
    expected[15] = 1;
    expected[31] = 0xfe;
    assert_eq!(sum.to_be_bytes(), expected);
    assert_eq!(total.checked_add(0), Some(total));
    assert_eq!(total.add(5), Total256::from_u128(12));
    assert_eq!(Total256::from_u128(u128::MAX).add(u128::MAX), sum);
    let mut most = sum;
    for _ in 0..3 {
        most = most.add(u128::MAX);
    }
    assert_eq!(most.to_be_bytes()[15], 4);
}

#[test]
fn sums_keep_the_order_of_first_additions() {
    let mut sums = AssetSums::new();
    assert_eq!(sums.len(), 0);
    sums.add(&[3; 20], 30);
    sums.add(&[1; 20], 10);
    sums.add(&[3; 20], 3);
    sums.add(&[2; 20], 0);
    assert_eq!(sums.len(), 2);
    assert_eq!(sums.asset(0), &[3; 20]);
    assert_eq!(sums.total(0), Total256::from_u128(33));
    assert_eq!(sums.asset(1), &[1; 20]);
    assert_eq!(sums.total(1), Total256::from_u128(10));
}

#[test]
fn trie_paths() {
    let even_leaf = TriePath::new(&[0x20, 0xab, 0xcd]);
    assert!(even_leaf.is_leaf());
    assert!(!even_leaf.is_extension());
    assert!(!even_leaf.is_odd());
    assert_eq!(even_leaf.nibbles(), 4);
    assert_eq!(even_leaf.bytes(), 2);
    let mut buf = vec![0xff];
    even_leaf.write_bytes(&mut buf);
    assert_eq!(buf, vec![0xff, 0xab, 0xcd]);

    let odd_extension = TriePath::new(&[0x17, 0x89]);
    assert!(odd_extension.is_extension());
    assert!(!odd_extension.is_leaf());
    assert!(odd_extension.is_odd());
    assert_eq!(odd_extension.nibbles(), 3);
    assert_eq!(odd_extension.bytes(), 2);
    let mut buf = Vec::new();
    odd_extension.write_bytes(&mut buf);
    assert_eq!(buf, vec![0x07, 0x89]);

    let longest = [0x20u8; 33];
    assert_eq!(TriePath::new(&longest).nibbles(), 64);
    let empty = TriePath::new(&[0x00]);
    assert_eq!(empty.nibbles(), 0);
    assert_eq!(empty.bytes(), 0);
}

#[test]
fn rlp_lengths_and_headers() {
    assert_eq!(encoded_length(0), 1);
    assert_eq!(encoded_length(55), 56);
    assert_eq!(encoded_length(56), 58);
    assert_eq!(encoded_length(255), 257);
    assert_eq!(encoded_length(256), 259);
    assert_eq!(encoded_length(65536), 65540);

    let cases: [(u8, usize, &[u8]); 7] = [
        (0x80, 0, &[0x80]),
        (0x80, 32, &[0xa0]),
        (0x80, 55, &[0xb7]),
        (0x80, 56, &[0xb8, 56]),
        (0xc0, 55, &[0xf7]),
        (0xc0, 530, &[0xf9, 0x02, 0x12]),
        (0xc0, 0x01_0000, &[0xfa, 0x01, 0x00, 0x00]),
    ];
    for (offset, length, expected) in cases {
        let mut keccak = Keccak256::new();
        let mut hash = [0u8; 32];
        encode_header(&mut keccak, offset, length);
        keccak.finalize_and_reset(&mut hash);
        assert_eq!(hash, alloy_primitives::keccak256(expected).0, "{:x} {}", offset, length);
    }
    let mut keccak = Keccak256::new();
    let mut hash = [0u8; 32];
    encode_list_header(&mut keccak, 3);
    encode_str_header(&mut keccak, 2);
    keccak.update(&[0xab, 0xcd]);
    keccak.finalize_and_reset(&mut hash);
    assert_eq!(hash, alloy_primitives::keccak256([0xc3, 0x82, 0xab, 0xcd]).0);
}
