use aquarana::opus::entropy::RangeCodingDecoder;
use aquarana::opus::entropy::bits::{BigEndianBitReader, LittleEndianBitReader};

#[test]
fn reverse_bitread() {
    let buf = &[
        197, 105, 76, 120, 136, 74, 169, 50, 225, 8, 231, 211, 227, 151, 186, 58, 173, 139,
    ];

    let mut r = LittleEndianBitReader::new(buf);

    assert_eq!(r.get_bits_32(3), 3);
    assert_eq!(r.get_bits_32(3), 1);
    assert_eq!(r.get_bits_32(3), 6);
    assert_eq!(r.get_bits_32(3), 6);
    assert_eq!(r.get_bits_32(3), 2);
    assert_eq!(r.get_bits_32(3), 5);
    assert_eq!(r.get_bits_32(3), 6);
    assert_eq!(r.get_bits_32(3), 1);
    assert_eq!(r.get_bits_32(2), 2);
    assert_eq!(r.get_bits_32(2), 2);
    assert_eq!(r.get_bits_32(3), 3);
    assert_eq!(r.get_bits_32(3), 7);
    assert_eq!(r.get_bits_32(3), 5);
    assert_eq!(r.get_bits_32(3), 4);
    assert_eq!(r.get_bits_32(2), 3);
    assert_eq!(r.get_bits_32(2), 0);
    assert_eq!(r.get_bits_32(3), 6);
    assert_eq!(r.get_bits_32(3), 7);
    assert_eq!(r.get_bits_32(3), 4);
    assert_eq!(r.get_bits_32(3), 6);
    assert_eq!(r.get_bits_32(3), 7);
    assert_eq!(r.get_bits_32(3), 4);
    assert_eq!(r.get_bits_32(3), 3);
    assert_eq!(r.get_bits_32(3), 4);
    assert_eq!(r.get_bits_32(3), 0);
    assert_eq!(r.get_bits_32(3), 2);
    assert_eq!(r.get_bits_32(3), 0);
    assert_eq!(r.get_bits_32(3), 7);
    assert_eq!(r.get_bits_32(3), 2);
    assert_eq!(r.get_bits_32(3), 6);
    assert_eq!(r.get_bits_32(3), 4);
    assert_eq!(r.get_bits_32(3), 4);
    assert_eq!(r.get_bits_32(3), 2);
    assert_eq!(r.get_bits_32(3), 5);
    assert_eq!(r.get_bits_32(3), 2);
    assert_eq!(r.get_bits_32(3), 2);
    assert_eq!(r.get_bits_32(3), 0);
    assert_eq!(r.get_bits_32(3), 1);
    assert_eq!(r.get_bits_32(3), 2);
    assert_eq!(r.get_bits_32(3), 4);
    assert_eq!(r.get_bits_32(4), 7);
    assert_eq!(r.get_bits_32(4), 12);
    assert_eq!(r.get_bits_32(19), 284308);
}

#[test]
fn unpadded_bitread() {
    let buf = &[
        0b11010110, // 0xD6
        0b00101101, // 0x2D
        0b11100011, // 0xE3
        0b01010101, // 0x55
        0b10101010, // 0xAA
        0b00011100, // 0x1C
        0b11110000, // 0xF0
        0b00000001, // 0x01
    ];

    let mut r = BigEndianBitReader::new(buf);

    assert_eq!(r.get_bits_32(4), 0b1101);
    assert_eq!(r.get_bits_32(4), 0b0110);
    assert_eq!(r.get_bits_32(8), 0b00101101);
    assert_eq!(r.get_bits_32(6), 0b111000);
    assert_eq!(r.get_bits_32(2), 0b11);
    assert_eq!(r.get_bits_32(8), 0b01010101);
    assert_eq!(r.get_bits_32(8), 0b10101010);
    assert_eq!(r.get_bits_32(8), 0b00011100);
    assert_eq!(r.get_bits_32(8), 0b11110000);
    assert_eq!(r.get_bits_32(8), 0b00000001);
}

#[test]
fn decode_laplace() {
    let buf = [
        255, 201, 249, 161, 77, 172, 239, 17, 161, 157, 220, 130, 101, 192, 199, 41, 223, 112,
        126, 194, 59, 131, 246, 99, 239, 250, 102, 73, 130, 190, 207, 77, 157, 254, 59, 79, 240,
        126, 166, 230, 157, 142, 227, 61, 198, 110, 75, 187, 94, 218, 58, 183, 246, 167, 234,
        223, 218, 159, 168, 63, 125, 254, 80, 85, 117, 128, 138, 1, 68, 51, 4, 53, 68, 128, 222,
        96, 236, 107, 71, 34, 144, 68, 200, 90, 232, 144, 173, 216, 248, 210, 30, 126, 125, 27,
        252, 125, 25, 86, 247, 139, 163, 76, 176, 113, 222, 186, 237, 158, 228, 21, 234, 154, 90,
        113, 107, 5, 13, 60, 197, 169, 172, 9, 217, 128, 155, 163, 157, 34, 130, 47, 235, 183,
        24, 22, 236, 226, 21, 207, 195, 113, 103, 74, 227, 166, 6, 124, 55, 25, 22, 178, 213,
        218,
    ];

    let mut rd = RangeCodingDecoder::new(&buf);

    let val = [
        (3, 32497, 60),
        (0, 32505, 58),
        (-1, 32512, 56),
        (0, 32185, 139),
        (1, 32425, 78),
        (3, 32134, 152),
        (2, 32189, 138),
        (1, 32303, 109),
        (-7, 32122, 155),
        (5, 32212, 132),
        (5, 32248, 123),
        (0, 32342, 99),
        (3, 32173, 142),
        (-4, 32421, 79),
        (2, 32271, 117),
        (3, 32326, 103),
        (2, 32386, 88),
        (4, 32319, 105),
        (0, 32473, 66),
        (-5, 32232, 127),
        (-2, 32326, 103),
        (-3, 32461, 69),
        (2, 32138, 151),
        (0, 32449, 72),
        (6, 32315, 106),
        (-2, 32161, 145),
        (1, 32334, 101),
        (2, 32114, 157),
        (4, 32130, 153),
        (6, 32362, 94),
        (6, 32142, 150),
        (2, 32354, 96),
        (-7, 32169, 143),
        (0, 32157, 146),
        (2, 32244, 124),
        (4, 32248, 123),
        (5, 32505, 58),
        (-4, 32485, 63),
        (6, 32413, 81),
        (3, 32169, 143),
        (-7, 32481, 64),
        (1, 32315, 106),
        (-2, 32185, 139),
        (-7, 32362, 94),
        (2, 32216, 131),
        (-5, 32161, 145),
        (-7, 32204, 134),
        (-1, 32149, 148),
        (-4, 32524, 53),
        (-2, 32449, 72),
        (5, 32315, 106),
        (-6, 32271, 117),
        (1, 32520, 54),
        (-1, 32271, 117),
        (4, 32267, 118),
        (-5, 32110, 158),
        (0, 32311, 107),
        (2, 32402, 84),
        (7, 32493, 61),
        (-2, 32319, 105),
        (-7, 32307, 108),
        (0, 32461, 69),
        (1, 32330, 102),
        (-7, 32232, 127),
        (2, 32189, 138),
        (3, 32189, 138),
        (1, 32299, 110),
        (-6, 32291, 112),
        (0, 32122, 155),
        (0, 32528, 52),
        (0, 32374, 91),
        (-7, 32252, 122),
        (-1, 32413, 81),
        (-2, 32138, 151),
        (1, 32311, 107),
        (-6, 32142, 150),
        (-2, 32145, 149),
        (-2, 32236, 126),
        (-5, 32346, 98),
        (-7, 32263, 119),
        (2, 32287, 113),
        (-3, 32378, 90),
        (3, 32236, 126),
        (-4, 32394, 86),
        (1, 32259, 120),
        (-4, 32204, 134),
        (-7, 32204, 134),
        (-6, 32323, 104),
        (4, 32126, 154),
        (6, 32110, 158),
        (-3, 32142, 150),
        (-2, 32421, 79),
        (6, 32429, 77),
        (3, 32271, 117),
        (-5, 32224, 129),
        (-5, 32319, 105),
        (-6, 32122, 155),
        (6, 32181, 140),
        (7, 32386, 88),
        (3, 32398, 85),
    ];

    val.iter().for_each(|&(ret, symbol, decay)| {
        assert_eq!(ret, rd.laplace(symbol, decay));
    });
}

#[test]
fn fresh_decoder_tell() {
    // Whatever the payload, initialisation commits exactly one bit.
    let bufs: [&[u8]; 3] = [&[], &[0x55], &[1, 2, 3, 4, 5, 6, 7, 8, 9, 10]];
    for buf in bufs.iter() {
        let dec = RangeCodingDecoder::new(buf);
        assert_eq!(dec.tell(), 1);
        assert_eq!(dec.tell_frac(), 8);
    }
}

#[test]
fn tell_frac_brackets_tell() {
    // tell_frac / 8 stays within one of tell, at every decode step.
    let buf = [
        255, 201, 249, 161, 77, 172, 239, 17, 161, 157, 220, 130, 101, 192, 199, 41, 223, 112,
    ];
    let mut dec = RangeCodingDecoder::new(&buf);
    for p in 1..15usize {
        dec.logp(p);
        let t = dec.tell();
        let tf = dec.tell_frac();
        assert!(tf / 8 == t - 1 || tf / 8 == t);
        assert!(tf <= 8 * t);
        assert!(8 * t <= tf + 7);
    }
}

#[test]
fn uniform_and_rawbits_zero_stream() {
    let buf = [0u8; 24];
    let mut dec = RangeCodingDecoder::new(&buf);
    assert_eq!(dec.uniform(6), 0);
    assert_eq!(dec.rawbits(5), 0);
}

#[test]
fn uniform_wide_range_splits_raw_bits() {
    // beyond eight coded bits the tail comes raw from the reverse stream
    let buf = [0xFFu8; 24];
    let mut dec = RangeCodingDecoder::new(&buf);
    assert_eq!(dec.uniform(1000), 999);
}

#[test]
fn uniform_wide_range_clips_to_range() {
    // a non-power-of-two range can recombine past its top; the result is
    // clipped to the admissible maximum
    let buf = [0xFFu8; 24];
    let mut dec = RangeCodingDecoder::new(&buf);
    assert_eq!(dec.uniform(998), 997);
}

#[test]
fn triangular_odd_range() {
    let buf = [0xFFu8; 24];
    let mut dec = RangeCodingDecoder::new(&buf);
    assert_eq!(dec.triangular(3), 3);
    let buf2 = [0u8; 24];
    let mut dec2 = RangeCodingDecoder::new(&buf2);
    assert_eq!(dec2.triangular(1), 1);
}

#[test]
fn step_and_triangular_saturated_stream() {
    let buf = [0xFFu8; 24];
    let mut dec = RangeCodingDecoder::new(&buf);
    // an all-ones payload decodes to a zero coded value: the top symbol
    assert_eq!(dec.step(4), 8);
    let buf2 = [0xFFu8; 24];
    let mut dec2 = RangeCodingDecoder::new(&buf2);
    assert_eq!(dec2.triangular(4), 4);
}

#[test]
fn available_drains_to_end() {
    let buf = [0x12u8, 0x34, 0x56, 0x78];
    let mut dec = RangeCodingDecoder::new(&buf);
    assert_eq!(dec.len(), 32);
    assert_eq!(dec.available(), 31);
    dec.to_end();
    assert_eq!(dec.available(), 0);
}
