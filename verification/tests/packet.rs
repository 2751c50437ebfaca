use aquarana::opus::{OpusPacket, OpusPacketDecodeError};
use aquarana::opus::toc::FrameCode;

#[test]
fn demux_single() {
    let mut packet: Vec<u8> = vec![0b00000000];
    packet.extend(vec![7u8; 40]);
    let (toc, frames) = OpusPacket::demux(&packet).unwrap();
    assert_eq!(toc.code, FrameCode::Single);
    assert_eq!(frames.len(), 1);
    assert_eq!(frames[0].len(), 40);
}

#[test]
fn demux_single_oversize_rejected() {
    let mut packet: Vec<u8> = vec![0b00000000];
    packet.extend(vec![7u8; 1276]);
    assert_eq!(
        OpusPacket::demux(&packet).unwrap_err(),
        OpusPacketDecodeError::InvalidData
    );
}

#[test]
fn demux_double_cbr() {
    let mut packet: Vec<u8> = vec![0b00000001];
    packet.extend(vec![9u8; 10]);
    let (_, frames) = OpusPacket::demux(&packet).unwrap();
    assert_eq!(frames.len(), 2);
    assert_eq!(frames[0].len(), 5);
    assert_eq!(frames[1].len(), 5);
}

#[test]
fn demux_double_cbr_odd_rejected() {
    let mut packet: Vec<u8> = vec![0b00000001];
    packet.extend(vec![9u8; 11]);
    assert_eq!(
        OpusPacket::demux(&packet).unwrap_err(),
        OpusPacketDecodeError::InvalidData
    );
}

#[test]
fn demux_double_vbr() {
    // one-byte length 3 for the first frame, 4 bytes left for the second
    let mut packet: Vec<u8> = vec![0b00000010, 3];
    packet.extend(vec![1u8, 2, 3, 4, 5, 6, 7]);
    let (_, frames) = OpusPacket::demux(&packet).unwrap();
    assert_eq!(frames.len(), 2);
    assert_eq!(frames[0], vec![1, 2, 3]);
    assert_eq!(frames[1], vec![4, 5, 6, 7]);
}

#[test]
fn demux_multiple_vbr() {
    // VBR, no padding, three frames; lengths 251 and 300 (encoded 252, 12),
    // the remainder carries the rest
    let mut packet: Vec<u8> = vec![0b00000011, 0x83, 251, 252, 12];
    packet.extend(vec![0u8; 251 + 300 + 5]);
    let (_, frames) = OpusPacket::demux(&packet).unwrap();
    assert_eq!(frames.len(), 3);
    assert_eq!(frames[0].len(), 251);
    assert_eq!(frames[1].len(), 300);
    assert_eq!(frames[2].len(), 5);
}

#[test]
fn demux_multiple_cbr_with_padding() {
    // CBR, padding flag set, two frames; padding chain of one byte (3),
    // data of 8 bytes splits in two
    let mut packet: Vec<u8> = vec![0b00000011, 0b01000010, 3];
    packet.extend(vec![5u8; 8]);
    packet.extend(vec![0u8; 3]);
    let (_, frames) = OpusPacket::demux(&packet).unwrap();
    assert_eq!(frames.len(), 2);
    assert_eq!(frames[0].len(), 4);
    assert_eq!(frames[1].len(), 4);
}

#[test]
fn demux_multiple_zero_frames_rejected() {
    let packet: Vec<u8> = vec![0b00000011, 0x80, 1, 2, 3];
    assert_eq!(
        OpusPacket::demux(&packet).unwrap_err(),
        OpusPacketDecodeError::FramesOverflow
    );
}

#[test]
fn demux_multiple_too_many_frames_rejected() {
    let packet: Vec<u8> = vec![0b00000011, 49, 1, 2, 3];
    assert_eq!(
        OpusPacket::demux(&packet).unwrap_err(),
        OpusPacketDecodeError::FramesOverflow
    );
}

#[test]
fn demux_multiple_cbr_not_divisible_rejected() {
    let mut packet: Vec<u8> = vec![0b00000011, 3];
    packet.extend(vec![5u8; 8]);
    assert_eq!(
        OpusPacket::demux(&packet).unwrap_err(),
        OpusPacketDecodeError::InvalidData
    );
}

#[test]
fn demux_empty_rejected() {
    let packet: Vec<u8> = vec![];
    assert_eq!(
        OpusPacket::demux(&packet).unwrap_err(),
        OpusPacketDecodeError::InvalidData
    );
}

#[test]
fn demux_bounds_hold() {
    // every successful split yields 1..=48 frames of at most 1275 bytes
    let cases: Vec<Vec<u8>> = vec![
        {
            let mut p = vec![0b00000000u8];
            p.extend(vec![1u8; 1275]);
            p
        },
        {
            let mut p = vec![0b00000011u8, 0x83, 251, 252, 12];
            p.extend(vec![0u8; 600]);
            p
        },
        {
            let mut p = vec![0b00000011u8, 48];
            p.extend(vec![2u8; 96]);
            p
        },
    ];
    for packet in cases {
        let (_, frames) = OpusPacket::demux(&packet).unwrap();
        assert!(1 <= frames.len() && frames.len() <= 48);
        for f in frames {
            assert!(f.len() <= 1275);
        }
    }
}

#[test]
fn decode_celt_packet() {
    // a CELT stereo 20 ms Multiple packet with three VBR frames
    let mut packet: Vec<u8> = vec![0xFF, 0x83, 30, 40];
    packet.extend(vec![0xA5u8; 30 + 40 + 25]);
    let decoded = OpusPacket::decode(&packet).unwrap();
    assert_eq!(decoded.toc.code, FrameCode::Multiple);
    assert_eq!(decoded.frames.len(), 3);
    // every frame carries its filled parameter record
    for f in &decoded.frames {
        assert_eq!(f.frame.band_start, 0);
        assert_eq!(f.frame.band_end, 21);
        assert_eq!(f.frame.size, 3);
        assert_eq!(f.frame.band_bits.len(), 21);
        assert!(f.frame.alloc_trim <= 10);
    }
}

#[test]
fn decode_celt_single_dtx() {
    // a zero-length frame decodes as silence
    let packet: Vec<u8> = vec![0b11111100];
    let decoded = OpusPacket::decode(&packet).unwrap();
    assert_eq!(decoded.frames.len(), 1);
}
