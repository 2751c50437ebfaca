//! A verified front end for Opus audio decoding: the range/arithmetic
//! entropy decoder with its dual bit readers, the TOC and packet
//! demultiplexer, the CELT control-plane decoder, and the OpusHead /
//! OpusTags metadata parsers.  Every function carries a contract checked by
//! Verus; the signal-path synthesis that consumes the decoded parameters
//! lives outside this crate.

pub mod opus;

use vstd::prelude::*;

verus! {

// ---------------------------------------------------------------------------
// Little- and big-endian integers read out of a byte buffer.
// ---------------------------------------------------------------------------

/// A 16-bit little-endian integer at `i`.
pub open spec fn spec_le16(b: Seq<u8>, i: int) -> nat {
    (b[i] + 256 * b[i + 1]) as nat
}

/// A 32-bit little-endian integer at `i`.
pub open spec fn spec_le32(b: Seq<u8>, i: int) -> nat {
    (b[i] + 256 * b[i + 1] + 65536 * b[i + 2] + 16777216 * b[i + 3]) as nat
}

/// A 16-bit little-endian integer at `i`.
fn read_le16(b: &[u8], i: usize) -> (r: u16)
    requires
        i + 2 <= b@.len(),
    ensures
        r == spec_le16(b@, i as int),
{
    (b[i] as u16) + 256 * (b[i + 1] as u16)
}

/// A 32-bit little-endian integer at `i`.
fn read_le32(b: &[u8], i: usize) -> (r: u32)
    requires
        i + 4 <= b@.len(),
    ensures
        r == spec_le32(b@, i as int),
{
    (b[i] as u32) + 256 * (b[i + 1] as u32) + 65536 * (b[i + 2] as u32) + 16777216 * (b[i + 3]
        as u32)
}

// ---------------------------------------------------------------------------
// UTF-8, through the standard library.
// ---------------------------------------------------------------------------

/// What a byte sequence decodes to as UTF-8, when it is valid UTF-8 at all.
pub uninterp spec fn utf8_decode(b: Seq<u8>) -> Option<Seq<char>>;

/// Relies on core::str::from_utf8: accepts exactly the valid UTF-8 byte
/// strings and views them as text; the result depends on the bytes alone.
/// The `to_string` only copies the accepted slice into an owned value.
#[verifier::external_body]
fn bytes_to_string(b: &[u8]) -> (r: Option<String>)
    ensures
        match r {
            Some(s) => utf8_decode(b@) == Some(s@),
            None => utf8_decode(b@) is None,
        },
{
    match core::str::from_utf8(b) {
        Ok(s) => Some(s.to_string()),
        Err(_) => None,
    }
}

// ---------------------------------------------------------------------------
// OpusHead.
// ---------------------------------------------------------------------------

#[derive(Debug, Clone, PartialEq, Eq)]
pub enum OggOpusHeadChannelMappingFamily {
    // mono / stereo
    Normal,
    Complex { stream_count: u8, coupled_count: u8, channel_mapping: Vec<u8> },
}

#[derive(Debug, Clone)]
pub struct OggOpusHead {
    pub channel_count: u8,
    pub pre_skip: u16,
    pub input_sample_rate: u32,
    pub output_gain: u16,
    pub channel_mapping_family: OggOpusHeadChannelMappingFamily,
}

#[derive(Debug, Clone, Copy, PartialEq, Eq, Structural)]
pub enum OggOpusHeadDecodeError {
    InvalidData,
    NotOpusHead,
    UnexpectedVersionNumber(u8),
}

/// The eight magic bytes of an OpusHead header.
pub open spec fn spec_head_magic(b: Seq<u8>) -> bool {
    &&& b[0] == 0x4Fu8
    &&& b[1] == 0x70u8
    &&& b[2] == 0x75u8
    &&& b[3] == 0x73u8
    &&& b[4] == 0x48u8
    &&& b[5] == 0x65u8
    &&& b[6] == 0x61u8
    &&& b[7] == 0x64u8
}

/// Which error an OpusHead of these bytes raises; `None` when it parses.
pub open spec fn spec_head_result(b: Seq<u8>) -> Option<OggOpusHeadDecodeError> {
    if b.len() < 19 {
        Some(OggOpusHeadDecodeError::InvalidData)
    } else if !spec_head_magic(b) {
        Some(OggOpusHeadDecodeError::NotOpusHead)
    } else if b[8] != 1 {
        Some(OggOpusHeadDecodeError::UnexpectedVersionNumber(b[8]))
    } else if b[18] != 0 && b.len() - 19 < b[9] + 2 {
        Some(OggOpusHeadDecodeError::InvalidData)
    } else {
        None
    }
}

impl OggOpusHead {
    /// Parses the 19-byte OpusHead header and its optional channel mapping
    /// table.  The output gain is little-endian, as RFC 7845 defines it.
    pub fn try_from(bytes: &[u8]) -> (r: Result<OggOpusHead, OggOpusHeadDecodeError>)
        ensures
            match r {
                Err(e) => spec_head_result(bytes@) == Some(e),
                Ok(h) => {
                    &&& spec_head_result(bytes@) is None
                    &&& h.channel_count == bytes@[9]
                    &&& h.pre_skip == spec_le16(bytes@, 10)
                    &&& h.input_sample_rate == spec_le32(bytes@, 12)
                    &&& h.output_gain == spec_le16(bytes@, 16)
                    &&& (bytes@[18] == 0 ==> h.channel_mapping_family
                        == OggOpusHeadChannelMappingFamily::Normal)
                    &&& (bytes@[18] != 0 ==> (h.channel_mapping_family matches
                        OggOpusHeadChannelMappingFamily::Complex {
                        stream_count,
                        coupled_count,
                        channel_mapping,
                    } && stream_count == bytes@[19] && coupled_count == bytes@[20]
                        && channel_mapping@ == bytes@.subrange(21, 21 + bytes@[9])))
                },
            },
    {
        if bytes.len() < 19 {
            return Err(OggOpusHeadDecodeError::InvalidData);
        }

        // magic signature
        if !(bytes[0] == 0x4F && bytes[1] == 0x70 && bytes[2] == 0x75 && bytes[3] == 0x73
            && bytes[4] == 0x48 && bytes[5] == 0x65 && bytes[6] == 0x61 && bytes[7] == 0x64) {
            return Err(OggOpusHeadDecodeError::NotOpusHead);
        }

        // fixed 0x01
        let version = bytes[8];
        if version != 0x01 {
            return Err(OggOpusHeadDecodeError::UnexpectedVersionNumber(version));
        }

        let channel_count = bytes[9];
        let pre_skip = read_le16(bytes, 10);
        let input_sample_rate = read_le32(bytes, 12);
        let output_gain = read_le16(bytes, 16);
        let family = bytes[18];
        let channel_mapping_family = if family == 0 {
            OggOpusHeadChannelMappingFamily::Normal
        } else {
            if bytes.len() - 19 < channel_count as usize + 2 {
                return Err(OggOpusHeadDecodeError::InvalidData);
            }
            let mut mapping: Vec<u8> = Vec::new();
            let mut k: usize = 0;
            while k < channel_count as usize
                invariant
                    k <= channel_count as usize,
                    21 + channel_count as usize <= bytes@.len(),
                    mapping@ == bytes@.subrange(21, 21 + k as int),
                decreases channel_count as usize - k,
            {
                mapping.push(bytes[21 + k]);
                proof {
                    assert(bytes@.subrange(21, 21 + (k + 1) as int) =~= bytes@.subrange(
                        21,
                        21 + k as int,
                    ).push(bytes@[21 + k as int]));
                }
                k = k + 1;
            }
            OggOpusHeadChannelMappingFamily::Complex {
                stream_count: bytes[19],
                coupled_count: bytes[20],
                channel_mapping: mapping,
            }
        };

        Ok(
            OggOpusHead {
                channel_count,
                pre_skip,
                input_sample_rate,
                output_gain,
                channel_mapping_family,
            },
        )
    }
}

// ---------------------------------------------------------------------------
// OpusTags.
// ---------------------------------------------------------------------------

#[derive(Debug, Clone)]
pub struct OggOpusTags {
    pub vendor: String,
    pub comments: Vec<String>,
}

#[derive(Debug, Clone, Copy, PartialEq, Eq, Structural)]
pub enum OggOpusTagsDecodeError {
    InvalidData,
    NotOpusTags,
    NonUTF8,
}

/// The eight magic bytes of an OpusTags block.
pub open spec fn spec_tags_magic(b: Seq<u8>) -> bool {
    &&& b[0] == 0x4Fu8
    &&& b[1] == 0x70u8
    &&& b[2] == 0x75u8
    &&& b[3] == 0x73u8
    &&& b[4] == 0x54u8
    &&& b[5] == 0x61u8
    &&& b[6] == 0x67u8
    &&& b[7] == 0x73u8
}

/// The comment list from cursor `c` on: `count` entries of a 32-bit length
/// and that many UTF-8 bytes each.
pub open spec fn spec_tags_comments(b: Seq<u8>, c: int, count: nat) -> Result<
    Seq<Seq<char>>,
    OggOpusTagsDecodeError,
>
    decreases count,
{
    if count == 0 {
        Ok(Seq::empty())
    } else if b.len() - c < 4 {
        Err(OggOpusTagsDecodeError::InvalidData)
    } else {
        let l = spec_le32(b, c) as int;
        if b.len() - (c + 4) < l {
            Err(OggOpusTagsDecodeError::InvalidData)
        } else {
            match utf8_decode(b.subrange(c + 4, c + 4 + l)) {
                None => Err(OggOpusTagsDecodeError::NonUTF8),
                Some(s) => match spec_tags_comments(b, c + 4 + l, (count - 1) as nat) {
                    Err(e) => Err(e),
                    Ok(rest) => Ok(seq![s] + rest),
                },
            }
        }
    }
}

/// What an OpusTags block of these bytes holds: the vendor string and the
/// comment list, or the error its shape raises.
pub open spec fn spec_tags(b: Seq<u8>) -> Result<
    (Seq<char>, Seq<Seq<char>>),
    OggOpusTagsDecodeError,
> {
    if b.len() < 12 {
        Err(OggOpusTagsDecodeError::InvalidData)
    } else if !spec_tags_magic(b) {
        Err(OggOpusTagsDecodeError::NotOpusTags)
    } else {
        let vl = spec_le32(b, 8) as int;
        if b.len() - 12 < vl {
            Err(OggOpusTagsDecodeError::InvalidData)
        } else {
            match utf8_decode(b.subrange(12, 12 + vl)) {
                None => Err(OggOpusTagsDecodeError::NonUTF8),
                Some(v) => {
                    let c = 12 + vl;
                    if b.len() - c < 4 {
                        Err(OggOpusTagsDecodeError::InvalidData)
                    } else {
                        match spec_tags_comments(b, c + 4, spec_le32(b, c)) {
                            Err(e) => Err(e),
                            Ok(cs) => Ok((v, cs)),
                        }
                    }
                },
            }
        }
    }
}

/// The text of a comment vector, as plain character sequences.
pub open spec fn comments_seq(v: Seq<String>) -> Seq<Seq<char>> {
    v.map_values(|s: String| s@)
}

impl OggOpusTags {
    /// Parses an OpusTags block: the magic, a length-prefixed UTF-8 vendor
    /// string, then a counted list of length-prefixed UTF-8 comments.
    #[verifier::loop_isolation(false)]
    pub fn try_from(bytes: &[u8]) -> (r: Result<OggOpusTags, OggOpusTagsDecodeError>)
        ensures
            match r {
                Err(e) => spec_tags(bytes@) == Err::<
                    (Seq<char>, Seq<Seq<char>>),
                    OggOpusTagsDecodeError,
                >(e),
                Ok(t) => spec_tags(bytes@) matches Ok(p) && t.vendor@ == p.0 && comments_seq(
                    t.comments@,
                ) == p.1,
            },
    {
        let n = bytes.len();
        if n < 12 {
            return Err(OggOpusTagsDecodeError::InvalidData);
        }

        // magic signature
        if !(bytes[0] == 0x4F && bytes[1] == 0x70 && bytes[2] == 0x75 && bytes[3] == 0x73
            && bytes[4] == 0x54 && bytes[5] == 0x61 && bytes[6] == 0x67 && bytes[7] == 0x73) {
            return Err(OggOpusTagsDecodeError::NotOpusTags);
        }

        let vendor_len = read_le32(bytes, 8) as usize;
        if n - 12 < vendor_len {
            return Err(OggOpusTagsDecodeError::InvalidData);
        }

        let vendor = match bytes_to_string(&bytes[12..12 + vendor_len]) {
            None => {
                return Err(OggOpusTagsDecodeError::NonUTF8);
            },
            Some(v) => v,
        };

        let mut c: usize = 12 + vendor_len;
        if n - c < 4 {
            return Err(OggOpusTagsDecodeError::InvalidData);
        }

        let count = read_le32(bytes, c) as usize;
        c = c + 4;
        let ghost c0 = c as int;
        let mut comments: Vec<String> = Vec::new();
        let mut remaining = count;
        proof {
            assert(comments_seq(comments@) =~= Seq::<Seq<char>>::empty());
            if let Ok(cs) = spec_tags_comments(bytes@, c as int, remaining as nat) {
                assert(comments_seq(comments@) + cs =~= cs);
            }
        }
        while remaining > 0
            invariant
                c <= n,
                n == bytes@.len(),
                (match spec_tags_comments(bytes@, c as int, remaining as nat) {
                    Ok(cs) => spec_tags_comments(bytes@, c0, count as nat) == Ok::<
                        Seq<Seq<char>>,
                        OggOpusTagsDecodeError,
                    >(comments_seq(comments@) + cs),
                    Err(e) => spec_tags_comments(bytes@, c0, count as nat) == Err::<
                        Seq<Seq<char>>,
                        OggOpusTagsDecodeError,
                    >(e),
                }),
            decreases remaining,
        {
            if n - c < 4 {
                return Err(OggOpusTagsDecodeError::InvalidData);
            }
            let l = read_le32(bytes, c) as usize;
            let c2 = c + 4;
            if n - c2 < l {
                return Err(OggOpusTagsDecodeError::InvalidData);
            }
            match bytes_to_string(&bytes[c2..c2 + l]) {
                None => {
                    return Err(OggOpusTagsDecodeError::NonUTF8);
                },
                Some(s) => {
                    let ghost cpre = comments_seq(comments@);
                    let ghost spiece = s@;
                    comments.push(s);
                    proof {
                        assert(comments_seq(comments@) =~= cpre.push(spiece));
                        if let Ok(rest) = spec_tags_comments(
                            bytes@,
                            (c2 + l) as int,
                            (remaining - 1) as nat,
                        ) {
                            assert(cpre.push(spiece) + rest =~= cpre + (seq![spiece] + rest));
                        }
                    }
                },
            }
            c = c2 + l;
            remaining = remaining - 1;
        }

        Ok(OggOpusTags { vendor, comments })
    }
}

} // verus!
