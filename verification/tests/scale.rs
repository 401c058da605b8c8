use parity_scale_codec::{Compact, Encode};
use sender::scale::decode_compact;

#[test]
fn compact_numbers_read_back() {
    let edges = [
        0u64, 1, 63, 64, 255, 16_383, 16_384, 65_535, (1 << 30) - 1, 1 << 30, u32::MAX as u64,
        1 << 32, (1 << 40) - 1, 1 << 40, (1 << 48) - 1, 1 << 48, (1 << 56) - 1, 1 << 56, u64::MAX,
    ];
    for v in edges {
        let mut bytes = Compact(v).encode();
        assert_eq!(decode_compact(&bytes), Some(v));
        bytes.extend_from_slice(&[7, 8, 9]);
        assert_eq!(decode_compact(&bytes), Some(v));
    }
}

#[test]
fn compact_layouts() {
    assert_eq!(decode_compact(&[0xfc]), Some(63));
    assert_eq!(decode_compact(&[0x01, 0x01]), Some(64));
    assert_eq!(decode_compact(&[0x02, 0x00, 0x01, 0x00]), Some(16_384));
    assert_eq!(decode_compact(&[0x03, 0x00, 0x00, 0x00, 0x40]), Some(1 << 30));
    assert_eq!(decode_compact(&[0x07, 0, 0, 0, 0, 1]), Some(1 << 32));
    assert_eq!(
        decode_compact(&[0x13, 0xff, 0xff, 0xff, 0xff, 0xff, 0xff, 0xff, 0xff]),
        Some(u64::MAX)
    );
}

#[test]
fn compact_refuses_what_is_no_encoding() {
    assert_eq!(decode_compact(&[]), None);
    assert_eq!(decode_compact(&[0x01]), None);
    assert_eq!(decode_compact(&[0x02, 0x00, 0x01]), None);
    assert_eq!(decode_compact(&[0x13, 1, 2, 3]), None);
    // Longer than the number needs.
    assert_eq!(decode_compact(&[0xfd, 0x00]), None);
    assert_eq!(decode_compact(&[0xfe, 0xff, 0x00, 0x00]), None);
    assert_eq!(decode_compact(&[0x03, 0xff, 0xff, 0xff, 0x3f]), None);
    assert_eq!(decode_compact(&[0x07, 1, 0, 0, 0, 0]), None);
    assert_eq!(decode_compact(&[0x13, 1, 0, 0, 0, 0, 0, 0, 0]), None);
    // More than eight bytes.
    assert_eq!(decode_compact(&[0x17, 1, 1, 1, 1, 1, 1, 1, 1, 1]), None);
}
