use aquarana::opus::toc::{
    Bandwidth, Channel, EncodeMode, FrameCode, FrameDuration, TableOfContents,
};
use aquarana::opus::celt::CeltBandwidthBand;

#[test]
fn toc_zero_byte() {
    let toc = TableOfContents::from(0x00u8);
    assert_eq!(toc.mode, EncodeMode::SILK);
    assert_eq!(toc.bandwidth, Bandwidth::Narrow);
    assert_eq!(toc.duration, FrameDuration::Medium);
    assert_eq!(toc.duration.samples(), 480);
    assert_eq!(toc.channel, Channel::Mono);
    assert_eq!(toc.code, FrameCode::Single);
}

#[test]
fn toc_full_byte() {
    let toc = TableOfContents::from(0xFFu8);
    assert_eq!(toc.mode, EncodeMode::CELT);
    assert_eq!(toc.bandwidth, Bandwidth::Full);
    assert_eq!(toc.duration, FrameDuration::Standard);
    assert_eq!(toc.duration.samples(), 960);
    assert_eq!(toc.channel, Channel::Stereo);
    assert_eq!(toc.code, FrameCode::Multiple);
}

#[test]
fn toc_hybrid_config() {
    let toc = TableOfContents::from(12u8 << 3);
    assert_eq!(toc.mode, EncodeMode::Hybrid);
    assert_eq!(toc.bandwidth, Bandwidth::SuperWide);
    assert_eq!(toc.duration, FrameDuration::Medium);
}

#[test]
fn toc_round_trip_all_bytes() {
    // Decoding any byte and re-encoding it by the RFC table is the identity.
    for b in 0..=255u8 {
        let toc = TableOfContents::from(b);
        assert_eq!(toc.encode(), b);
    }
}

#[test]
fn bandwidth_band_counts() {
    assert_eq!(Bandwidth::Narrow.band(), 13);
    assert_eq!(Bandwidth::Medium.band(), 17);
    assert_eq!(Bandwidth::Wide.band(), 17);
    assert_eq!(Bandwidth::SuperWide.band(), 19);
    assert_eq!(Bandwidth::Full.band(), 21);
}

#[test]
fn channel_counts() {
    assert_eq!(Channel::Mono.count(), 1);
    assert_eq!(Channel::Stereo.count(), 2);
}
