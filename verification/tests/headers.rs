use aquarana::{
    OggOpusHead, OggOpusHeadChannelMappingFamily, OggOpusHeadDecodeError, OggOpusTags,
    OggOpusTagsDecodeError,
};

#[test]
fn opus_head_minimal() {
    let bytes: [u8; 19] = [
        0x4F, 0x70, 0x75, 0x73, 0x48, 0x65, 0x61, 0x64, 0x01, 0x02, 0x38, 0x00, 0x80, 0xBB,
        0x00, 0x00, 0x00, 0x00, 0x00,
    ];
    let head = OggOpusHead::try_from(&bytes).unwrap();
    assert_eq!(head.channel_count, 2);
    assert_eq!(head.pre_skip, 0x0038);
    assert_eq!(head.input_sample_rate, 48000);
    assert_eq!(head.output_gain, 0);
    assert_eq!(
        head.channel_mapping_family,
        OggOpusHeadChannelMappingFamily::Normal
    );
}

#[test]
fn opus_head_complex_family() {
    let bytes: Vec<u8> = vec![
        0x4F, 0x70, 0x75, 0x73, 0x48, 0x65, 0x61, 0x64, 0x01, 0x02, 0x38, 0x00, 0x80, 0xBB,
        0x00, 0x00, 0x00, 0x00, 0x01, 0x02, 0x01, 0x00, 0x01,
    ];
    let head = OggOpusHead::try_from(&bytes).unwrap();
    match head.channel_mapping_family {
        OggOpusHeadChannelMappingFamily::Complex {
            stream_count,
            coupled_count,
            channel_mapping,
        } => {
            assert_eq!(stream_count, 2);
            assert_eq!(coupled_count, 1);
            assert_eq!(channel_mapping, vec![0, 1]);
        },
        _ => panic!("expected the table-driven family"),
    }
}

#[test]
fn opus_head_too_short() {
    let bytes: [u8; 5] = [0x4F, 0x70, 0x75, 0x73, 0x48];
    assert_eq!(
        OggOpusHead::try_from(&bytes).unwrap_err(),
        OggOpusHeadDecodeError::InvalidData
    );
}

#[test]
fn opus_head_wrong_magic() {
    let bytes: [u8; 19] = [
        0x4F, 0x70, 0x75, 0x73, 0x54, 0x61, 0x67, 0x73, 0x01, 0x02, 0x38, 0x00, 0x80, 0xBB,
        0x00, 0x00, 0x00, 0x00, 0x00,
    ];
    assert_eq!(
        OggOpusHead::try_from(&bytes).unwrap_err(),
        OggOpusHeadDecodeError::NotOpusHead
    );
}

#[test]
fn opus_head_bad_version() {
    let bytes: [u8; 19] = [
        0x4F, 0x70, 0x75, 0x73, 0x48, 0x65, 0x61, 0x64, 0x02, 0x02, 0x38, 0x00, 0x80, 0xBB,
        0x00, 0x00, 0x00, 0x00, 0x00,
    ];
    assert_eq!(
        OggOpusHead::try_from(&bytes).unwrap_err(),
        OggOpusHeadDecodeError::UnexpectedVersionNumber(2)
    );
}

#[test]
fn opus_tags_zero_comments() {
    let mut bytes: Vec<u8> = vec![0x4F, 0x70, 0x75, 0x73, 0x54, 0x61, 0x67, 0x73];
    let vendor = b"libopus 1.3";
    bytes.extend((vendor.len() as u32).to_le_bytes());
    bytes.extend(vendor);
    bytes.extend(0u32.to_le_bytes());
    let tags = OggOpusTags::try_from(&bytes).unwrap();
    assert_eq!(tags.vendor, "libopus 1.3");
    assert!(tags.comments.is_empty());
}

#[test]
fn opus_tags_two_comments() {
    let mut bytes: Vec<u8> = vec![0x4F, 0x70, 0x75, 0x73, 0x54, 0x61, 0x67, 0x73];
    let vendor = b"v";
    bytes.extend((vendor.len() as u32).to_le_bytes());
    bytes.extend(vendor);
    bytes.extend(2u32.to_le_bytes());
    for c in ["TITLE=a", "ARTIST=b"] {
        bytes.extend((c.len() as u32).to_le_bytes());
        bytes.extend(c.as_bytes());
    }
    let tags = OggOpusTags::try_from(&bytes).unwrap();
    assert_eq!(tags.vendor, "v");
    assert_eq!(tags.comments, vec!["TITLE=a".to_string(), "ARTIST=b".to_string()]);
}

#[test]
fn opus_tags_wrong_magic() {
    let bytes: Vec<u8> = vec![0x4F, 0x70, 0x75, 0x73, 0x48, 0x65, 0x61, 0x64, 0, 0, 0, 0];
    assert_eq!(
        OggOpusTags::try_from(&bytes).unwrap_err(),
        OggOpusTagsDecodeError::NotOpusTags
    );
}

#[test]
fn opus_tags_non_utf8_vendor() {
    let mut bytes: Vec<u8> = vec![0x4F, 0x70, 0x75, 0x73, 0x54, 0x61, 0x67, 0x73];
    bytes.extend(2u32.to_le_bytes());
    bytes.extend([0xFF, 0xFE]);
    bytes.extend(0u32.to_le_bytes());
    assert_eq!(
        OggOpusTags::try_from(&bytes).unwrap_err(),
        OggOpusTagsDecodeError::NonUTF8
    );
}

#[test]
fn opus_tags_truncated_comment() {
    let mut bytes: Vec<u8> = vec![0x4F, 0x70, 0x75, 0x73, 0x54, 0x61, 0x67, 0x73];
    bytes.extend(0u32.to_le_bytes());
    bytes.extend(1u32.to_le_bytes());
    bytes.extend(200u32.to_le_bytes());
    bytes.extend(b"short");
    assert_eq!(
        OggOpusTags::try_from(&bytes).unwrap_err(),
        OggOpusTagsDecodeError::InvalidData
    );
}
