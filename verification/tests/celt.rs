use aquarana::opus::celt::{
    CeltFrameDecoder, PostFilter, compute_allocation, compute_caps, freq_range,
};
use aquarana::opus::entropy::RangeCodingDecoder;
use aquarana::opus::toc::TableOfContents;

#[test]
fn post_filter_zero_stream() {
    // a zero stream decodes octave 0, zero fine pitch and unit gain: the
    // period clamps at the minimum and the gains are one tapset row tripled
    let buf = [0u8; 24];
    let mut dec = RangeCodingDecoder::new(&buf);
    let pf = PostFilter::decode(&mut dec);
    assert_eq!(pf.period_new, 15);
    assert!(pf.gains_new[0] % 3 == 0);
    assert!(pf.gains_new[0] > 0);
    assert!(pf.gains_new[1] <= pf.gains_new[0]);
}

#[test]
fn bisection_converges_within_budget() {
    // size 3, stereo, the whole band range, no boosts, trim 5, a 960-byte
    // budget in eighth bits
    let boost: Vec<i64> = vec![0; 21];
    let budget: i64 = 960 * 8;
    let (row, bands, total) = compute_allocation(3, 2, 0, 21, &boost, 5, budget);
    assert!(row <= 10);
    let sum: i64 = bands.iter().sum();
    assert_eq!(sum, total);
    assert!(total <= budget);
    // the next row up would not fit
    let (_, _, above) = {
        let b2: Vec<i64> = vec![0; 21];
        compute_allocation(3, 2, 0, 21, &b2, 5, 0x4000_0000)
    };
    assert!(above >= total);
}

#[test]
fn caps_formula_spot_checks() {
    // mono, 2.5 ms: cap of band 0 is (224 + 64) * 1 >> 2
    let caps = compute_caps(0, 1);
    assert_eq!(caps.len(), 21);
    assert_eq!(caps[0], (224 + 64) / 4);
    // stereo, 20 ms: band 20 is (40 + 64) * 22 << 1 << 3 >> 2
    let caps2 = compute_caps(3, 2);
    assert_eq!(caps2[20], ((40 + 64) * 22 * 16) / 4);
}

#[test]
fn freq_range_table() {
    assert_eq!(freq_range(0), 1);
    assert_eq!(freq_range(12), 4);
    assert_eq!(freq_range(20), 22);
}

#[test]
fn celt_frame_silent_when_empty() {
    // with no payload bits the silence flag is forced
    let toc = TableOfContents::from(0xFCu8);
    let payload: [u8; 0] = [];
    let mut range_dec = RangeCodingDecoder::new(&payload);
    let mut dec = CeltFrameDecoder::new_frame();
    dec.decode(&toc, &mut range_dec).unwrap();
    assert!(dec.silence);
    assert_eq!(dec.band_start, 0);
    assert_eq!(dec.band_end, 21);
    assert_eq!(dec.size, 3);
}

#[test]
fn celt_frame_full_stream() {
    // a dense payload drives the whole schedule without failure
    let toc = TableOfContents::from(0xFFu8);
    let payload = [
        0x12u8, 0x9A, 0x5C, 0x3F, 0x77, 0x01, 0xEE, 0x42, 0x90, 0xAB, 0x55, 0x2C, 0x81, 0x6D,
        0x04, 0xF3, 0x28, 0xC7, 0x39, 0xD0, 0x66, 0x1B, 0xE5, 0x4A, 0x92, 0x07, 0xBD, 0x58,
        0x23, 0x8E, 0x71, 0xCC,
    ];
    let mut range_dec = RangeCodingDecoder::new(&payload);
    let mut dec = CeltFrameDecoder::new_frame();
    dec.decode(&toc, &mut range_dec).unwrap();
    assert_eq!(dec.band_end, 21);
    assert!(dec.alloc_trim <= 10);
    assert_eq!(dec.band_bits.len(), 21);
    assert_eq!(dec.caps.len(), 21);
    // every band allotment respects its cap plus its boost allowance
    for i in 0..21 {
        assert!(dec.band_bits[i] >= 0);
    }
}
