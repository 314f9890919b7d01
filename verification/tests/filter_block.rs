use lark::engine::bloom::encode_bloom_block;
use lark::engine::bloom::BloomFilterBuilder;
use lark::engine::filter_block::FilterBlock;
use lark::engine::filter_block::PREFIX_LEN_HEADER;
use lark::error::ErrorKind;

fn region(prefix_keys: Option<&[&[u8]]>, user_keys: &[&[u8]]) -> Vec<u8> {
    let prefix_bytes = match prefix_keys {
        Some(keys) => {
            let mut builder = BloomFilterBuilder::new(10);
            for key in keys {
                builder.add_key(key);
            }
            encode_bloom_block(&builder.build())
        }
        None => Vec::new(),
    };
    let mut builder = BloomFilterBuilder::new(10);
    for key in user_keys {
        builder.add_key(key);
    }
    let user_bytes = encode_bloom_block(&builder.build());

    let mut out = Vec::new();
    out.extend_from_slice(&(prefix_bytes.len() as u64).to_le_bytes());
    out.extend_from_slice(&prefix_bytes);
    out.extend_from_slice(&user_bytes);
    out
}

#[test]
fn decodes_region_without_prefix_bloom() {
    let bytes = region(None, &[b"alpha", b"beta"]);
    let filter = FilterBlock::decode(&bytes).unwrap();
    assert!(filter.may_contain(b"alpha"));
    assert!(filter.may_contain(b"beta"));
    assert!(
        filter.may_have_prefix(b"anything"),
        "no prefix bloom means no negative information"
    );
}

#[test]
fn decodes_region_with_prefix_bloom() {
    let bytes = region(Some(&[b"pre"]), &[b"prefix-key"]);
    let filter = FilterBlock::decode(&bytes).unwrap();
    assert!(filter.may_contain(b"prefix-key"));
    assert!(filter.may_have_prefix(b"pre"));
}

#[test]
fn rejects_short_region() {
    for len in 0..PREFIX_LEN_HEADER {
        let err = FilterBlock::decode(&vec![0u8; len]).err().expect("short region");
        assert_eq!(err.kind(), ErrorKind::InvalidData);
    }
}

#[test]
fn rejects_prefix_length_past_region() {
    let mut bytes = region(None, &[b"k"]);
    let claimed = bytes.len() as u64 + 1;
    bytes[0..8].copy_from_slice(&claimed.to_le_bytes());
    let err = FilterBlock::decode(&bytes).err().expect("prefix past end");
    assert_eq!(err.kind(), ErrorKind::InvalidData);
}

#[test]
fn rejects_truncated_prefix_bloom() {
    let mut bytes = region(None, &[b"k"]);
    bytes[0..8].copy_from_slice(&2u64.to_le_bytes());
    let err = FilterBlock::decode(&bytes).err().expect("prefix bloom too short");
    assert_eq!(err.kind(), ErrorKind::InvalidData);
}

#[test]
fn rejects_truncated_user_bloom() {
    let bytes = vec![0u8; PREFIX_LEN_HEADER + 3];
    let err = FilterBlock::decode(&bytes).err().expect("user bloom too short");
    assert_eq!(err.kind(), ErrorKind::InvalidData);
}

#[test]
fn charge_covers_the_whole_region() {
    let bytes = region(Some(&[b"pre"]), &[b"a", b"b", b"c"]);
    let filter = FilterBlock::decode(&bytes).unwrap();
    assert!(filter.charge() >= bytes.len());
}
