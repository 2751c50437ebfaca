pub mod celt;
pub mod entropy;
pub mod toc;

use vstd::prelude::*;
use self::celt::{
    CeltBandwidthBand, CeltFrameDecodeError, CeltFrameDecoder, spec_frame_size, spec_silence,
    spec_st4, spec_transient,
};
use self::celt::{spec_ce_stage, spec_tf_stage};
use self::entropy::{RangeCodingDecoder, spec_norm};
use self::entropy::bits::be_val;
use self::toc::{EncodeMode, FrameCode, TableOfContents, lemma_toc_round_trip, spec_toc,
    spec_toc_valid};

verus! {

/// Largest number of bytes a single compressed frame may hold.
pub const MAX_FRAME_LEN: usize = 1275;

/// Largest number of frames a packet may hold.
pub const MAX_FRAMES: usize = 48;

/// One decoded frame: the CELT control-plane parameter record, ready for
/// the synthesis stage.
#[derive(Debug)]
pub struct OpusFrame {
    pub frame: CeltFrameDecoder,
}

impl OpusFrame {
    /// Decodes the control plane of one compressed frame.  Only the CELT
    /// path is handled at this layer: SILK and Hybrid redundancy frames
    /// would leave it, and a CELT frame carries no redundancy flag here, so
    /// decoding always succeeds.
    #[verifier::rlimit(100)]
    #[verifier::spinoff_prover]
    pub fn deocde(toc: &TableOfContents, bytes: &[u8]) -> (r: Result<
        OpusFrame,
        OpusFrameDecoderError,
    >)
        requires
            toc.mode == EncodeMode::CELT,
            spec_toc_valid(*toc),
            bytes@.len() <= 1275,
        ensures
            r is Ok,
            ({
                // the record is the controller's run over a fresh range
                // decoder on this payload
                let st0 = spec_norm(bytes@, 7, (127 - be_val(bytes@, 0, 7)) as nat, 128, 9);
                let total = (8 * bytes@.len()) as nat;
                r matches Ok(f) && f.frame.wf() && f.frame.band_start == 0 && f.frame.band_end
                    == toc.bandwidth.spec_band() && f.frame.size == spec_frame_size(toc.duration)
                    && f.frame.channels == toc.channel && f.frame.silence == spec_silence(
                    bytes@,
                    st0,
                    total,
                )
            }),
            ({
                // a non-silent frame's record is the stage chain over the
                // payload, from the fresh decoder state
                let st0 = spec_norm(bytes@, 7, (127 - be_val(bytes@, 0, 7)) as nat, 128, 9);
                let total = (8 * bytes@.len()) as nat;
                let be = toc.bandwidth.spec_band() as int;
                let size = spec_frame_size(toc.duration) as nat;
                let chs = toc.channel.spec_count() as int;
                let trf = spec_transient(bytes@, st0, 0, total, 0, size);
                let st4 = spec_st4(bytes@, st0, 0, total, 0, size);
                r matches Ok(f) ==> (!f.frame.silence ==> ({
                    let ce = spec_ce_stage(bytes@, st4, total, size, 0, be, chs, Seq::new(42, |x: int| 0i64));
                    let tfr = spec_tf_stage(bytes@, ce.0, total, 0, be, size, trf);
                    &&& f.frame.transient == trf
                    &&& f.frame.energy@ == ce.1
                    &&& (forall|k: int|
                        0 <= k < be ==> #[trigger] f.frame.time_frequency_change@[k] == tfr.1[k])
                }))
            }),
    {
        let mut range_dec = RangeCodingDecoder::new(bytes);
        let mut frame_dec = CeltFrameDecoder::new_frame();
        proof {
            assert(frame_dec.energy@ =~= Seq::new(42, |x: int| 0i64));
        }
        match frame_dec.decode(toc, &mut range_dec) {
            Ok(_) => Ok(OpusFrame { frame: frame_dec }),
            Err(e) => Err(OpusFrameDecoderError::Celt(e)),
        }
    }
}

#[derive(Debug, Clone, Copy, PartialEq, Eq, Structural)]
pub enum OpusFrameDecoderError {
    Celt(CeltFrameDecodeError),
}

impl From<CeltFrameDecodeError> for OpusFrameDecoderError {
    fn from(value: CeltFrameDecodeError) -> (r: Self) {
        Self::Celt(value)
    }
}

impl vstd::std_specs::convert::FromSpecImpl<CeltFrameDecodeError> for OpusFrameDecoderError {
    open spec fn obeys_from_spec() -> bool {
        true
    }

    open spec fn from_spec(v: CeltFrameDecodeError) -> Self {
        OpusFrameDecoderError::Celt(v)
    }
}

#[derive(Debug, Clone, Copy, PartialEq, Eq, Structural)]
pub enum OpusPacketDecodeError {
    InvalidData,
    FramesOverflow,
    FrameDecodeError(OpusFrameDecoderError),
}

impl From<OpusFrameDecoderError> for OpusPacketDecodeError {
    fn from(value: OpusFrameDecoderError) -> (r: Self) {
        Self::FrameDecodeError(value)
    }
}

impl vstd::std_specs::convert::FromSpecImpl<OpusFrameDecoderError> for OpusPacketDecodeError {
    open spec fn obeys_from_spec() -> bool {
        true
    }

    open spec fn from_spec(v: OpusFrameDecoderError) -> Self {
        OpusPacketDecodeError::FrameDecodeError(v)
    }
}

// ---------------------------------------------------------------------------
// The demultiplexer, stated over the packet bytes.
// ---------------------------------------------------------------------------

/// A 1- or 2-byte frame length at `i`: 0..=251 stand for themselves, 252..=255
/// pull a second byte worth four each.  `None` when the bytes run out.
pub open spec fn spec_read_vl(bytes: Seq<u8>, i: int, end: int) -> Option<(nat, int)> {
    if 0 <= i < end <= bytes.len() {
        let b0 = bytes[i] as nat;
        if b0 >= 252 {
            if i + 1 < end {
                Some((b0 + 4 * (bytes[i + 1] as nat), i + 2))
            } else {
                None
            }
        } else {
            Some((b0, i + 1))
        }
    } else {
        None
    }
}

/// The padding chain at `i`: every byte of 255 adds 254 and continues, the
/// first smaller byte ends the chain and counts fully.
pub open spec fn spec_padding(bytes: Seq<u8>, i: int, end: int) -> Option<(nat, int)>
    decreases end - i,
{
    if 0 <= i < end <= bytes.len() {
        let v = bytes[i] as nat;
        if v < 255 {
            Some((v, i + 1))
        } else {
            match spec_padding(bytes, i + 1, end) {
                Some((p, j)) => Some(((p + 254) as nat, j)),
                None => None,
            }
        }
    } else {
        None
    }
}

/// The run of `count` explicit VBR frame lengths: the length values and the
/// cursor where the frame data begins.
pub open spec fn spec_vbr_lens(bytes: Seq<u8>, i: int, end: int, count: nat) -> Option<
    (Seq<int>, int),
>
    decreases count,
{
    if count == 0 {
        Some((Seq::empty(), i))
    } else {
        match spec_read_vl(bytes, i, end) {
            None => None,
            Some((l, j)) => match spec_vbr_lens(bytes, j, end, (count - 1) as nat) {
                None => None,
                Some(p) => Some((seq![l as int] + p.0, p.1)),
            },
        }
    }
}

/// Cutting the data region into frames of the given lengths (from `idx`
/// on), the remainder closing the list.  `None` when a frame overruns the
/// region or the hard limit.
pub open spec fn spec_vbr_cut(bytes: Seq<u8>, pos: int, end: int, lens: Seq<int>, idx: int)
    -> Option<Seq<Seq<u8>>>
    decreases lens.len() - idx,
{
    if idx >= lens.len() {
        if 0 <= pos <= end <= bytes.len() && end - pos <= 1275 {
            Some(seq![bytes.subrange(pos, end)])
        } else {
            None
        }
    } else {
        let l = lens[idx];
        if 0 <= l <= 1275 && pos + l <= end && 0 <= pos && end <= bytes.len() {
            match spec_vbr_cut(bytes, pos + l, end, lens, idx + 1) {
                None => None,
                Some(fs) => Some(seq![bytes.subrange(pos, pos + l)].add(fs)),
            }
        } else {
            None
        }
    }
}

/// The frames of a packet whose frame code is `Multiple`.
pub open spec fn spec_demux_multiple(bytes: Seq<u8>) -> Result<
    Seq<Seq<u8>>,
    OpusPacketDecodeError,
> {
    let n = bytes.len() as int;
    if n < 2 {
        Err(OpusPacketDecodeError::InvalidData)
    } else {
        let flag = bytes[1] as nat;
        let m = flag % 64;
        if m == 0 || m > 48 {
            Err(OpusPacketDecodeError::FramesOverflow)
        } else {
            let pad_r = if (flag / 64) % 2 == 1 {
                spec_padding(bytes, 2, n)
            } else {
                Some((0nat, 2int))
            };
            match pad_r {
                None => Err(OpusPacketDecodeError::InvalidData),
                Some((pad, j)) => if n - pad < j {
                    Err(OpusPacketDecodeError::InvalidData)
                } else {
                    let dend = n - pad;
                    if flag / 128 == 1 {
                        match spec_vbr_lens(bytes, j, dend, (m - 1) as nat) {
                            None => Err(OpusPacketDecodeError::InvalidData),
                            Some(p) => match spec_vbr_cut(bytes, p.1, dend, p.0, 0) {
                                None => Err(OpusPacketDecodeError::InvalidData),
                                Some(fs) => Ok(fs),
                            },
                        }
                    } else {
                        let dlen = dend - j;
                        let flen = dlen / (m as int);
                        if dlen % (m as int) == 0 && flen <= 1275 {
                            Ok(
                                Seq::new(
                                    m,
                                    |k: int| bytes.subrange(j + k * flen, j + (k + 1) * flen),
                                ),
                            )
                        } else {
                            Err(OpusPacketDecodeError::InvalidData)
                        }
                    }
                },
            }
        }
    }
}

/// Splitting a packet into its compressed frames, as the TOC frame code
/// directs.
pub open spec fn spec_demux(bytes: Seq<u8>) -> Result<Seq<Seq<u8>>, OpusPacketDecodeError> {
    let n = bytes.len() as int;
    if n < 1 {
        Err(OpusPacketDecodeError::InvalidData)
    } else {
        match spec_toc(bytes[0]).code {
            FrameCode::Single => if n - 1 <= 1275 {
                Ok(seq![bytes.subrange(1, n)])
            } else {
                Err(OpusPacketDecodeError::InvalidData)
            },
            FrameCode::DoubleCBR => if (n - 1) % 2 == 0 && (n - 1) / 2 <= 1275 {
                Ok(seq![bytes.subrange(1, 1 + (n - 1) / 2), bytes.subrange(1 + (n - 1) / 2, n)])
            } else {
                Err(OpusPacketDecodeError::InvalidData)
            },
            FrameCode::DoubleVBR => match spec_read_vl(bytes, 1, n) {
                None => Err(OpusPacketDecodeError::InvalidData),
                Some((l1, j)) => if l1 <= 1275 && j + l1 <= n && n - (j + l1) <= 1275 {
                    Ok(seq![bytes.subrange(j, j + l1), bytes.subrange(j + l1, n)])
                } else {
                    Err(OpusPacketDecodeError::InvalidData)
                },
            },
            FrameCode::Multiple => spec_demux_multiple(bytes),
        }
    }
}

/// A parsed padding chain sits strictly inside the bytes it was read from.
pub proof fn lemma_padding_props(bytes: Seq<u8>, i: int, end: int)
    ensures
        spec_padding(bytes, i, end) matches Some((p, j)) ==> i < j <= end,
    decreases end - i,
{
    if 0 <= i < end <= bytes.len() && bytes[i] == 255 {
        lemma_padding_props(bytes, i + 1, end);
    }
}

/// A parsed length run holds one value per count.
pub proof fn lemma_vbr_lens_props(bytes: Seq<u8>, i: int, end: int, count: nat)
    ensures
        spec_vbr_lens(bytes, i, end, count) matches Some(p) ==> p.0.len() == count,
    decreases count,
{
    if count > 0 {
        if let Some((l, j)) = spec_read_vl(bytes, i, end) {
            lemma_vbr_lens_props(bytes, j, end, (count - 1) as nat);
        }
    }
}

/// A cut data region yields one frame per remaining length plus the
/// remainder, each within the hard frame limit.
pub proof fn lemma_vbr_cut_props(bytes: Seq<u8>, pos: int, end: int, lens: Seq<int>, idx: int)
    requires
        0 <= idx <= lens.len(),
    ensures
        spec_vbr_cut(bytes, pos, end, lens, idx) matches Some(fs) ==> fs.len() == lens.len()
            - idx + 1 && (forall|k: int| 0 <= k < fs.len() ==> #[trigger] fs[k].len() <= 1275),
    decreases lens.len() - idx,
{
    if idx < lens.len() {
        let l = lens[idx];
        if 0 <= l <= 1275 && pos + l <= end && 0 <= pos && end <= bytes.len() {
            lemma_vbr_cut_props(bytes, pos + l, end, lens, idx + 1);
            if let Some(rest) = spec_vbr_cut(bytes, pos + l, end, lens, idx + 1) {
                let fs = seq![bytes.subrange(pos, pos + l)].add(rest);
                assert forall|k: int| 0 <= k < fs.len() implies #[trigger] fs[k].len()
                    <= 1275 by {
                    if k == 0 {
                        assert(fs[0] == bytes.subrange(pos, pos + l));
                    } else {
                        assert(fs[k] == rest[k - 1]);
                    }
                }
            }
        }
    }
}

/// The payloads of a frame vector, as plain byte sequences.
pub open spec fn frames_seq(v: Seq<Vec<u8>>) -> Seq<Seq<u8>> {
    v.map_values(|f: Vec<u8>| f@)
}

/// A length vector, as plain integers.
pub open spec fn lens_seq(v: Seq<usize>) -> Seq<int> {
    v.map_values(|x: usize| x as int)
}

/// Copies `bytes[a..b]` into a fresh frame buffer.
fn copy_range(bytes: &[u8], a: usize, b: usize) -> (v: Vec<u8>)
    requires
        a <= b,
        b <= bytes@.len(),
    ensures
        v@ == bytes@.subrange(a as int, b as int),
{
    let mut v: Vec<u8> = Vec::new();
    let mut j = a;
    while j < b
        invariant
            a <= j <= b,
            b <= bytes@.len(),
            v@ == bytes@.subrange(a as int, j as int),
        decreases b - j,
    {
        v.push(bytes[j]);
        proof {
            assert(bytes@.subrange(a as int, (j + 1) as int) =~= bytes@.subrange(
                a as int,
                j as int,
            ).push(bytes@[j as int]));
        }
        j = j + 1;
    }
    v
}

/// Reads a 1- or 2-byte frame length.
fn read_vl(bytes: &[u8], i: usize, end: usize) -> (r: Option<(usize, usize)>)
    requires
        end <= bytes@.len(),
    ensures
        match r {
            Some(p) => spec_read_vl(bytes@, i as int, end as int) == Some((p.0 as nat, p.1 as int))
                && i < p.1 <= end && p.0 <= 1275,
            None => spec_read_vl(bytes@, i as int, end as int) is None,
        },
{
    if i < end {
        let b0 = bytes[i];
        if b0 >= 252 {
            if i + 1 < end {
                Some(((b0 as usize) + 4 * (bytes[i + 1] as usize), i + 2))
            } else {
                None
            }
        } else {
            Some((b0 as usize, i + 1))
        }
    } else {
        None
    }
}

/// Reads a padding chain.
fn parse_padding(bytes: &[u8], i: usize, end: usize) -> (r: Option<(usize, usize)>)
    requires
        end <= bytes@.len(),
        512 * bytes@.len() <= usize::MAX,
    ensures
        match r {
            Some(p) => spec_padding(bytes@, i as int, end as int) == Some((p.0 as nat, p.1 as int))
                && i < p.1 <= end && p.0 <= 254 * (end - i),
            None => spec_padding(bytes@, i as int, end as int) is None,
        },
    decreases end - i,
{
    if i < end {
        let v = bytes[i];
        if v < 255 {
            Some((v as usize, i + 1))
        } else {
            match parse_padding(bytes, i + 1, end) {
                Some(p) => Some((p.0 + 254, p.1)),
                None => None,
            }
        }
    } else {
        None
    }
}

/// Whatever the frame code, a demultiplexed packet holds between 1 and 48
/// frames and every frame is at most 1275 bytes long.
pub proof fn lemma_demux_bounds(bytes: Seq<u8>)
    ensures
        spec_demux(bytes) matches Ok(fs) ==> 1 <= fs.len() <= 48 && (forall|k: int|
            0 <= k < fs.len() ==> #[trigger] fs[k].len() <= 1275),
{
    let n = bytes.len() as int;
    if n >= 1 {
        match spec_toc(bytes[0]).code {
            FrameCode::Single => {},
            FrameCode::DoubleCBR => {
                vstd::arithmetic::div_mod::lemma_fundamental_div_mod(n - 1, 2);
            },
            FrameCode::DoubleVBR => {},
            FrameCode::Multiple => {
                if n >= 2 {
                    let flag = bytes[1] as nat;
                    let m = flag % 64;
                    if 1 <= m <= 48 {
                        let pad_r = if (flag / 64) % 2 == 1 {
                            spec_padding(bytes, 2, n)
                        } else {
                            Some((0nat, 2int))
                        };
                        lemma_padding_props(bytes, 2, n);
                        if let Some((pad, j)) = pad_r {
                            if n - pad >= j {
                                let dend = n - pad;
                                if flag / 128 == 1 {
                                    lemma_vbr_lens_props(bytes, j, dend, (m - 1) as nat);
                                    if let Some(p) = spec_vbr_lens(bytes, j, dend, (m - 1) as nat) {
                                        lemma_vbr_cut_props(bytes, p.1, dend, p.0, 0);
                                    }
                                } else {
                                    let dlen = dend - j;
                                    let flen = dlen / (m as int);
                                    if dlen % (m as int) == 0 && flen <= 1275 {
                                        let fs = Seq::new(
                                            m,
                                            |k: int|
                                                bytes.subrange(j + k * flen, j + (k + 1) * flen),
                                        );
                                        assert(m * flen == dlen) by {
                                            vstd::arithmetic::div_mod::lemma_fundamental_div_mod(
                                                dlen,
                                                m as int,
                                            );
                                        }
                                        assert forall|k: int| 0 <= k < fs.len() implies #[trigger] fs[k].len()
                                            <= 1275 by {
                                            assert(0 <= k * flen && (k + 1) * flen <= dlen && (k
                                                + 1) * flen == k * flen + flen) by (
                                            nonlinear_arith)
                                                requires
                                                    0 <= k < m,
                                                    flen >= 0,
                                                    m * flen == dlen,
                                            ;
                                            assert(fs[k] == bytes.subrange(
                                                j + k * flen,
                                                j + (k + 1) * flen,
                                            ));
                                        }
                                    }
                                }
                            }
                        }
                    }
                }
            },
        }
    }
}

#[derive(Debug)]
pub struct OpusPacket {
    pub toc: TableOfContents,
    pub frames: Vec<OpusFrame>,
}

impl OpusPacket {
    /// Decodes a whole packet: the TOC byte, the frame split, then the
    /// control plane of every frame.  Only CELT packets decode past the
    /// split at this layer.
    #[verifier::loop_isolation(false)]
    pub fn decode(bytes: &[u8]) -> (r: Result<OpusPacket, OpusPacketDecodeError>)
        requires
            512 * bytes@.len() <= usize::MAX,
            spec_demux(bytes@) is Ok ==> spec_toc(bytes@[0]).mode == EncodeMode::CELT,
        ensures
            match spec_demux(bytes@) {
                Ok(fs) => r matches Ok(p) && p.toc == spec_toc(bytes@[0]) && p.frames@.len()
                    == fs.len() && (forall|k: int|
                    0 <= k < p.frames@.len() ==> (#[trigger] p.frames@[k]).frame.wf()
                        && p.frames@[k].frame.band_end == spec_toc(bytes@[0]).bandwidth.spec_band()
                        && p.frames@[k].frame.channels == spec_toc(bytes@[0]).channel),
                Err(e) => r == Err::<OpusPacket, OpusPacketDecodeError>(e),
            },
    {
        proof {
            lemma_demux_bounds(bytes@);
        }
        match Self::demux(bytes) {
            Err(e) => Err(e),
            Ok(p) => {
                let toc = p.0;
                let datas = p.1;
                proof {
                    lemma_toc_round_trip(bytes@[0]);
                }
                let mut frames: Vec<OpusFrame> = Vec::new();
                let n = datas.len();
                let mut i: usize = 0;
                while i < n
                    invariant
                        i <= n,
                        frames@.len() == i,
                        forall|k: int|
                            0 <= k < i ==> (#[trigger] frames@[k]).frame.wf() && frames@[k].frame.band_end
                                == spec_toc(bytes@[0]).bandwidth.spec_band()
                                && frames@[k].frame.channels == spec_toc(bytes@[0]).channel,
                    decreases n - i,
                {
                    proof {
                        assert(frames_seq(datas@)[i as int] == datas@[i as int]@);
                    }
                    match OpusFrame::deocde(&toc, datas[i].as_slice()) {
                        Ok(f) => frames.push(f),
                        Err(e) => {
                            return Err(OpusPacketDecodeError::FrameDecodeError(e));
                        },
                    }
                    i = i + 1;
                }
                Ok(OpusPacket { toc, frames })
            },
        }
    }

    /// Splits a packet into its TOC and its compressed frame payloads, per
    /// the TOC frame code.  Every successful split yields 1 to 48 frames of
    /// at most 1275 bytes each.
    pub fn demux(bytes: &[u8]) -> (r: Result<
        (TableOfContents, Vec<Vec<u8>>),
        OpusPacketDecodeError,
    >)
        requires
            512 * bytes@.len() <= usize::MAX,
        ensures
            match r {
                Ok(p) => spec_demux(bytes@) == Ok::<Seq<Seq<u8>>, OpusPacketDecodeError>(
                    frames_seq(p.1@),
                ) && p.0 == spec_toc(bytes@[0]),
                Err(e) => spec_demux(bytes@) == Err::<Seq<Seq<u8>>, OpusPacketDecodeError>(e),
            },
    {
        let n = bytes.len();
        if n < 1 {
            return Err(OpusPacketDecodeError::InvalidData);
        }
        let toc = TableOfContents::from(bytes[0]);
        match toc.code {
            FrameCode::Single => {
                if n - 1 <= MAX_FRAME_LEN {
                    let mut frames: Vec<Vec<u8>> = Vec::new();
                    frames.push(copy_range(bytes, 1, n));
                    proof {
                        assert(frames_seq(frames@) =~= seq![bytes@.subrange(1, n as int)]);
                    }
                    Ok((toc, frames))
                } else {
                    Err(OpusPacketDecodeError::InvalidData)
                }
            },
            FrameCode::DoubleCBR => {
                if (n - 1) % 2 == 0 && (n - 1) / 2 <= MAX_FRAME_LEN {
                    let half = (n - 1) / 2;
                    let mut frames: Vec<Vec<u8>> = Vec::new();
                    frames.push(copy_range(bytes, 1, 1 + half));
                    frames.push(copy_range(bytes, 1 + half, n));
                    proof {
                        assert(frames_seq(frames@) =~= seq![
                            bytes@.subrange(1, 1 + half as int),
                            bytes@.subrange(1 + half as int, n as int),
                        ]);
                    }
                    Ok((toc, frames))
                } else {
                    Err(OpusPacketDecodeError::InvalidData)
                }
            },
            FrameCode::DoubleVBR => {
                match read_vl(bytes, 1, n) {
                    None => Err(OpusPacketDecodeError::InvalidData),
                    Some(p) => {
                        let l1 = p.0;
                        let j = p.1;
                        if l1 <= MAX_FRAME_LEN && j + l1 <= n && n - (j + l1) <= MAX_FRAME_LEN {
                            let mut frames: Vec<Vec<u8>> = Vec::new();
                            frames.push(copy_range(bytes, j, j + l1));
                            frames.push(copy_range(bytes, j + l1, n));
                            proof {
                                assert(frames_seq(frames@) =~= seq![
                                    bytes@.subrange(j as int, (j + l1) as int),
                                    bytes@.subrange((j + l1) as int, n as int),
                                ]);
                            }
                            Ok((toc, frames))
                        } else {
                            Err(OpusPacketDecodeError::InvalidData)
                        }
                    },
                }
            },
            FrameCode::Multiple => Self::demux_multiple(bytes, toc),
        }
    }

    /// The `Multiple` frame code: a count byte, an optional padding chain,
    /// then VBR length-prefixed frames or a CBR equal split.
    #[verifier::loop_isolation(false)]
    #[verifier::rlimit(100)]
    #[verifier::spinoff_prover]
    fn demux_multiple(bytes: &[u8], toc: TableOfContents) -> (r: Result<
        (TableOfContents, Vec<Vec<u8>>),
        OpusPacketDecodeError,
    >)
        requires
            512 * bytes@.len() <= usize::MAX,
            bytes@.len() >= 1,
            toc == spec_toc(bytes@[0]),
        ensures
            match r {
                Ok(p) => spec_demux_multiple(bytes@) == Ok::<Seq<Seq<u8>>, OpusPacketDecodeError>(
                    frames_seq(p.1@),
                ) && p.0 == toc,
                Err(e) => spec_demux_multiple(bytes@) == Err::<Seq<Seq<u8>>, OpusPacketDecodeError>(
                    e,
                ),
            },
    {
        let n = bytes.len();
        if n < 2 {
            return Err(OpusPacketDecodeError::InvalidData);
        }
        let flag = bytes[1];
        let m = (flag % 64) as usize;
        if m == 0 || m > MAX_FRAMES {
            return Err(OpusPacketDecodeError::FramesOverflow);
        }
        let pr = if (flag / 64) % 2 == 1 {
            parse_padding(bytes, 2, n)
        } else {
            Some((0usize, 2usize))
        };
        match pr {
            None => Err(OpusPacketDecodeError::InvalidData),
            Some(q) => {
                let pad = q.0;
                let j = q.1;
                if pad + j > n {
                    return Err(OpusPacketDecodeError::InvalidData);
                }
                let dend = n - pad;
                if flag >= 128 {
                    // VBR: all frames but the last carry an explicit length,
                    // read before any frame data.
                    let mut lens: Vec<usize> = Vec::new();
                    let mut li = j;
                    let mut remaining = m - 1;
                    proof {
                        assert(lens_seq(lens@) =~= Seq::<int>::empty());
                        if let Some(p) = spec_vbr_lens(
                            bytes@,
                            j as int,
                            dend as int,
                            (m - 1) as nat,
                        ) {
                            assert(lens_seq(lens@) + p.0 =~= p.0);
                        }
                    }
                    while remaining > 0
                        invariant
                            j <= li <= dend,
                            remaining < m <= 48,
                            forall|k: int| 0 <= k < lens@.len() ==> #[trigger] lens@[k] <= 1275,
                            (match spec_vbr_lens(bytes@, li as int, dend as int, remaining as nat) {
                                Some(p) => spec_vbr_lens(
                                    bytes@,
                                    j as int,
                                    dend as int,
                                    (m - 1) as nat,
                                ) == Some::<(Seq<int>, int)>((lens_seq(lens@) + p.0, p.1)),
                                None => spec_vbr_lens(
                                    bytes@,
                                    j as int,
                                    dend as int,
                                    (m - 1) as nat,
                                ) is None,
                            }),
                        decreases remaining,
                    {
                        match read_vl(bytes, li, dend) {
                            None => {
                                return Err(OpusPacketDecodeError::InvalidData);
                            },
                            Some(p) => {
                                let ghost lpre = lens_seq(lens@);
                                lens.push(p.0);
                                proof {
                                    assert(lens_seq(lens@) =~= lpre.push(p.0 as int));
                                    if let Some(p2) = spec_vbr_lens(
                                        bytes@,
                                        p.1 as int,
                                        dend as int,
                                        (remaining - 1) as nat,
                                    ) {
                                        assert(lpre.push(p.0 as int) + p2.0 =~= lpre + (seq![
                                            p.0 as int,
                                        ] + p2.0));
                                    }
                                }
                                li = p.1;
                                remaining = remaining - 1;
                            },
                        }
                    }
                    // Now cut the data region by those lengths.
                    let ghost all_lens = lens_seq(lens@);
                    proof {
                        assert(spec_vbr_lens(bytes@, j as int, dend as int, (m - 1) as nat)
                            == Some::<(Seq<int>, int)>((all_lens, li as int))) by {
                            assert(lens_seq(lens@) + Seq::<int>::empty() =~= lens_seq(lens@));
                        }
                    }
                    let mut frames: Vec<Vec<u8>> = Vec::new();
                    let mut pos = li;
                    let mut k: usize = 0;
                    let lcount = lens.len();
                    proof {
                        assert(frames_seq(frames@) =~= Seq::<Seq<u8>>::empty());
                        if let Some(fs) = spec_vbr_cut(bytes@, li as int, dend as int, all_lens, 0) {
                            assert(frames_seq(frames@) + fs =~= fs);
                        }
                    }
                    while k < lcount
                        invariant
                            k <= lcount,
                            lcount == lens@.len(),
                            all_lens == lens_seq(lens@),
                            li <= pos <= dend,
                            frames_seq(frames@).len() == k,
                            (match spec_vbr_cut(bytes@, pos as int, dend as int, all_lens, k as int) {
                                Some(fs) => spec_vbr_cut(bytes@, li as int, dend as int, all_lens, 0)
                                    == Some::<Seq<Seq<u8>>>(frames_seq(frames@) + fs),
                                None => spec_vbr_cut(bytes@, li as int, dend as int, all_lens, 0)
                                    is None,
                            }),
                        decreases lcount - k,
                    {
                        let l = lens[k];
                        if l <= MAX_FRAME_LEN && l <= dend - pos {
                            let ghost fpre = frames_seq(frames@);
                            frames.push(copy_range(bytes, pos, pos + l));
                            proof {
                                let first = bytes@.subrange(pos as int, (pos + l) as int);
                                assert(frames_seq(frames@) =~= fpre.push(first));
                                if let Some(fs2) = spec_vbr_cut(
                                    bytes@,
                                    (pos + l) as int,
                                    dend as int,
                                    all_lens,
                                    k + 1,
                                ) {
                                    assert(fpre.push(first) + fs2 =~= fpre + (seq![first] + fs2));
                                }
                            }
                            pos = pos + l;
                            k = k + 1;
                        } else {
                            return Err(OpusPacketDecodeError::InvalidData);
                        }
                    }
                    if dend - pos <= MAX_FRAME_LEN {
                        let ghost fpre = frames_seq(frames@);
                        frames.push(copy_range(bytes, pos, dend));
                        proof {
                            let last = bytes@.subrange(pos as int, dend as int);
                            assert(frames_seq(frames@) =~= fpre.push(last));
                            assert(fpre.push(last) =~= fpre + seq![last]);
                        }
                        Ok((toc, frames))
                    } else {
                        Err(OpusPacketDecodeError::InvalidData)
                    }
                } else {
                    // CBR: the data region splits into m equal frames.
                    let dlen = dend - j;
                    if dlen % m == 0 && dlen / m <= MAX_FRAME_LEN {
                        let flen = dlen / m;
                        proof {
                            assert(m * flen == dlen) by {
                                vstd::arithmetic::div_mod::lemma_fundamental_div_mod(
                                    dlen as int,
                                    m as int,
                                );
                            }
                        }
                        let ghost target = Seq::new(
                            m as nat,
                            |t: int|
                                bytes@.subrange(
                                    j + t * (flen as int),
                                    j + (t + 1) * (flen as int),
                                ),
                        );
                        let mut frames: Vec<Vec<u8>> = Vec::new();
                        let mut k: usize = 0;
                        proof {
                            assert(frames_seq(frames@) =~= target.subrange(0, 0));
                        }
                        while k < m
                            invariant
                                k <= m,
                                1 <= m,
                                n == bytes@.len(),
                                j + dlen == dend,
                                dend <= n,
                                m * flen == dlen,
                                flen <= 1275,
                                target == Seq::new(
                                    m as nat,
                                    |t: int|
                                        bytes@.subrange(
                                            j + t * (flen as int),
                                            j + (t + 1) * (flen as int),
                                        ),
                                ),
                                frames_seq(frames@) == target.subrange(0, k as int),
                            decreases m - k,
                        {
                            proof {
                                assert(0 <= k * flen && (k + 1) * flen <= dlen && (k + 1) * flen
                                    == k * flen + flen) by (nonlinear_arith)
                                    requires
                                        0 <= k < m,
                                        flen >= 0,
                                        m * flen == dlen,
                                ;
                            }
                            let ghost fpre = frames_seq(frames@);
                            frames.push(copy_range(bytes, j + k * flen, j + (k + 1) * flen));
                            proof {
                                assert(frames_seq(frames@) =~= fpre.push(target[k as int]));
                                assert(frames_seq(frames@) =~= target.subrange(0, (k + 1) as int));
                            }
                            k = k + 1;
                        }
                        proof {
                            assert(target.subrange(0, m as int) =~= target);
                        }
                        Ok((toc, frames))
                    } else {
                        Err(OpusPacketDecodeError::InvalidData)
                    }
                }
            },
        }
    }
}

} // verus!
