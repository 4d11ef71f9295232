use alloy_consensus::Header;
use alloy_primitives::B256;
use alloy_rlp::Encodable;
use santa_lib::header_lens::{EncodedHeaderLens, HeaderError};
use santa_lib::lazy_header::{
    validate_small_fixed_field, BeneficiaryInspector, OmmersHashInspector, ParentHashInspector,
    RLPListInspector, ReceiptsRootInspector, StateRootInspector, TransactionRootInspector,
};
use santa_lib::Reader;

fn sample_header() -> Header {
    let mut header = Header::default();
    header.parent_hash = B256::repeat_byte(0xf1);
    header.receipts_root = B256::with_last_byte(0xcc);
    header
}

fn encode(header: &Header) -> Vec<u8> {
    let mut encoded = Vec::<u8>::new();
    header.encode(&mut encoded);
    encoded
}

#[test]
fn simple_header_equivalence() {
    let mut header = Header::default();
    header.parent_hash = B256::repeat_byte(0xf1);
    header.receipts_root = B256::with_last_byte(0xcc);

    let mut encoded = Vec::<u8>::new();
    header.encode(&mut encoded);

    let mut reader = Reader::from(encoded.as_slice());
    assert_eq!(reader.len(), encoded.len());

    let header_lens = EncodedHeaderLens::read_from(&mut reader).unwrap();
    assert_eq!(reader.len(), 0);

    assert_eq!(header_lens.len(), encoded.len());
    assert_eq!(header_lens.hash(), header.hash_slow());
    assert_eq!(header_lens.parent_hash(), header.parent_hash);
    assert_eq!(header_lens.receipts_root(), header.receipts_root);
}

#[test]
fn lens_reads_headers_one_after_the_other() {
    let first = sample_header();
    let mut second = sample_header();
    second.number = 7;
    second.parent_hash = first.hash_slow();
    second.extra_data = vec![0xab; 300].into();
    let mut bytes = encode(&first);
    bytes.extend_from_slice(&encode(&second));
    bytes.extend_from_slice(&[0x01, 0x02]);

    let mut reader = Reader::new(&bytes);
    let lens = EncodedHeaderLens::read_from(&mut reader).unwrap();
    assert_eq!(lens.as_slice(), encode(&first).as_slice());
    let lens = EncodedHeaderLens::read_from(&mut reader).unwrap();
    assert_eq!(lens.as_slice(), encode(&second).as_slice());
    assert_eq!(lens.parent_hash(), &first.hash_slow().0);
    assert_eq!(lens.hash(), second.hash_slow().0);
    assert_eq!(reader.as_slice(), &[0x01, 0x02]);
    assert_eq!(
        EncodedHeaderLens::read_from(&mut reader).err(),
        Some(HeaderError::InvalidHead { head: 0x01 })
    );
    assert_eq!(reader.len(), 2);
}

#[test]
fn lens_refuses_short_lists_and_strings() {
    for head in [0x00u8, 0x7f, 0x80, 0xb8, 0xc0, 0xf7] {
        let bytes = [head, 0, 0, 0];
        let mut reader = Reader::new(&bytes);
        assert_eq!(
            EncodedHeaderLens::read_from(&mut reader).err(),
            Some(HeaderError::InvalidHead { head })
        );
        assert_eq!(reader.len(), 4);
    }
}

#[test]
fn lens_refuses_truncated_headers() {
    let encoded = encode(&sample_header());
    for keep in [0usize, 1, 2, 3, 100, encoded.len() - 1] {
        let mut reader = Reader::new(&encoded[..keep]);
        assert_eq!(
            EncodedHeaderLens::read_from(&mut reader).err(),
            Some(HeaderError::Truncated),
            "{} bytes",
            keep
        );
        assert_eq!(reader.len(), keep);
    }
    // A list that is whole but ends inside the fixed fields.
    let mut list = vec![0xf8, 21, 0xa0];
    list.extend_from_slice(&[0x11; 20]);
    let mut reader = Reader::new(&list);
    assert_eq!(EncodedHeaderLens::read_from(&mut reader).err(), Some(HeaderError::Truncated));
    // A list whose payload ends right after a field.
    let mut list = vec![0xf8, 66];
    for _ in 0..2 {
        list.push(0xa0);
        list.extend_from_slice(&[0x11; 32]);
    }
    let mut reader = Reader::new(&list);
    assert_eq!(EncodedHeaderLens::read_from(&mut reader).err(), Some(HeaderError::Truncated));
}

#[test]
fn lens_checks_the_six_field_headers() {
    let encoded = encode(&sample_header());
    let payload_offset = 3;
    assert_eq!(encoded[0], 0xf9);
    let fields = [(0usize, 0xa0u8), (33, 0xa0), (66, 0x94), (87, 0xa0), (120, 0xa0), (153, 0xa0)];
    for (at, expected) in fields {
        assert_eq!(encoded[payload_offset + at], expected);
        let mut bad = encoded.clone();
        bad[payload_offset + at] = 0x9f;
        let mut reader = Reader::new(&bad);
        assert_eq!(
            EncodedHeaderLens::read_from(&mut reader).err(),
            Some(HeaderError::UnexpectedFieldHeader { expected, found: 0x9f })
        );
    }
    // The seventh field is not looked at.
    let mut other = encoded.clone();
    other[payload_offset + 186] ^= 0xff;
    let mut reader = Reader::new(&other);
    let lens = EncodedHeaderLens::read_from(&mut reader).unwrap();
    assert_eq!(lens.receipts_root(), &sample_header().receipts_root.0);
}

#[test]
fn fixed_field_check_moves_past_the_field() {
    let mut bytes = vec![0x94];
    bytes.extend_from_slice(&[7; 20]);
    bytes.push(0xa0);
    let mut reader = Reader::new(&bytes);
    assert_eq!(EncodedHeaderLens::validate_small_fixed_field::<20>(&mut reader), Ok(()));
    assert_eq!(reader.as_slice(), &[0xa0]);
    assert_eq!(
        EncodedHeaderLens::validate_small_fixed_field::<20>(&mut reader),
        Err(HeaderError::UnexpectedFieldHeader { expected: 0x94, found: 0xa0 })
    );
    assert_eq!(
        EncodedHeaderLens::validate_small_fixed_field::<32>(&mut reader),
        Err(HeaderError::Truncated)
    );
    assert_eq!(reader.len(), 1);
    let mut empty = Reader::new(&[]);
    assert_eq!(
        EncodedHeaderLens::validate_small_fixed_field::<32>(&mut empty),
        Err(HeaderError::Truncated)
    );
}

#[test]
fn inspectors_read_the_fixed_fields() {
    let mut header = sample_header();
    header.ommers_hash = B256::repeat_byte(0x02);
    header.beneficiary = alloy_primitives::Address::repeat_byte(0x03);
    header.state_root = B256::repeat_byte(0x04);
    header.transactions_root = B256::repeat_byte(0x05);
    let encoded = encode(&header);
    let mut reader = Reader::new(&encoded);
    let lens = EncodedHeaderLens::read_from(&mut reader).unwrap();

    assert_eq!(RLPListInspector::payload_offset(&lens), 3);
    assert_eq!(RLPListInspector::encoded(&lens), encoded.as_slice());
    assert_eq!(ParentHashInspector::parent_hash(&lens), &header.parent_hash.0);
    assert_eq!(lens.ommers_hash(), &header.ommers_hash.0);
    assert_eq!(lens.beneficiary(), &[0x03; 20]);
    assert_eq!(lens.state_root(), &header.state_root.0);
    assert_eq!(lens.transaction_root(), &header.transactions_root.0);
    assert_eq!(ReceiptsRootInspector::receipts_root(&lens), &header.receipts_root.0);

    let payload = &encoded[3..];
    assert_eq!(
        <EncodedHeaderLens as ParentHashInspector>::validate_field(payload),
        Ok(&payload[33..])
    );
    assert_eq!(EncodedHeaderLens::validate_ommers_hash(payload), Ok(&payload[66..]));
    assert_eq!(EncodedHeaderLens::validate_beneficiary(payload), Ok(&payload[87..]));
    assert_eq!(EncodedHeaderLens::validate_state_root(payload), Ok(&payload[120..]));
    assert_eq!(EncodedHeaderLens::validate_transaction_root(payload), Ok(&payload[153..]));
    assert_eq!(EncodedHeaderLens::validate_receipts_root(payload), Ok(&payload[186..]));
    assert_eq!(
        EncodedHeaderLens::validate_beneficiary(&payload[..80]),
        Err(HeaderError::Truncated)
    );
    assert_eq!(
        EncodedHeaderLens::validate_receipts_root(&payload[33..]),
        Err(HeaderError::UnexpectedFieldHeader { expected: 0xa0, found: 0x94 })
    );
}

#[test]
fn small_fixed_field_checks_the_length_first() {
    let mut bytes = vec![0x94];
    bytes.extend_from_slice(&[7; 20]);
    bytes.push(0xa0);
    assert_eq!(validate_small_fixed_field(&bytes, 20), Ok(&[0xa0u8][..]));
    assert_eq!(
        validate_small_fixed_field(&bytes, 21),
        Err(HeaderError::UnexpectedFieldHeader { expected: 0x95, found: 0x94 })
    );
    assert_eq!(validate_small_fixed_field(&bytes, 32), Err(HeaderError::Truncated));
    assert_eq!(validate_small_fixed_field(&[], 0), Err(HeaderError::Truncated));
    assert_eq!(validate_small_fixed_field(&[0x80], 0), Ok(&[][..]));
}

#[test]
fn lens_accepts_a_list_of_the_six_fields_only() {
    let mut encoded = vec![0xf8, 186];
    for (width, fill) in [(32u8, 1u8), (32, 2), (20, 3), (32, 4), (32, 5), (32, 6)] {
        encoded.push(0x80 + width);
        encoded.extend(std::iter::repeat(fill).take(width as usize));
    }
    encoded.push(0xff);
    let mut reader = Reader::new(&encoded);
    let lens = EncodedHeaderLens::read_from(&mut reader).unwrap();
    assert_eq!(lens.len(), 188);
    assert_eq!(reader.as_slice(), &[0xff]);
    assert_eq!(lens.parent_hash(), &[1; 32]);
    assert_eq!(lens.receipts_root(), &[6; 32]);
    assert_eq!(lens.payload_start_offset(), 2);
    assert_eq!(lens.hash(), alloy_primitives::keccak256(&encoded[..188]).0);
}
