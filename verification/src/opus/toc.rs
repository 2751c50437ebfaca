use vstd::prelude::*;

verus! {

// ---------------------------------------------------------------------------
// The Table of Contents byte.
//
// ```text
//  0 1 2 3 4 5 6 7
// +-+-+-+-+-+-+-+-+
// | config  |s| c |
// +-+-+-+-+-+-+-+-+
// ```
//
// The top five bits pick one of 32 fixed configurations of encoding mode,
// audio bandwidth and frame duration; `s` is the stereo flag and `c` the
// frame code.
// ---------------------------------------------------------------------------

#[derive(Debug, Default, Clone, Copy, PartialEq, Eq, Structural)]
pub enum EncodeMode {
    #[default]
    CELT,
    SILK,
    Hybrid,
}

#[derive(Debug, Default, Clone, Copy, PartialEq, Eq, Structural)]
pub enum Bandwidth {
    /// 8 kHz
    #[default]
    Narrow,
    /// 12 kHz
    Medium,
    /// 16 kHz
    Wide,
    /// 24 kHz
    SuperWide,
    /// 48 kHz
    Full,
}

#[derive(Debug, Default, Clone, Copy, PartialEq, Eq, Structural)]
pub enum FrameCode {
    #[default]
    Single,
    DoubleCBR,
    DoubleVBR,
    Multiple,
}

#[derive(Debug, Default, Clone, Copy, PartialEq, Eq, Structural)]
pub enum FrameDuration {
    /// 2.5 ms
    #[default]
    VeryShort,
    /// 5 ms
    Short,
    /// 10 ms
    Medium,
    /// 20 ms
    Standard,
    /// 40 ms
    Long,
    /// 60 ms
    VeryLong,
}

#[derive(Debug, Default, Clone, Copy, PartialEq, Eq, Structural)]
pub enum Channel {
    #[default]
    Mono,
    Stereo,
}

/// The five configuration bits.
pub open spec fn spec_config(value: u8) -> nat {
    (value as nat) / 8
}

pub open spec fn spec_mode(value: u8) -> EncodeMode {
    let c = spec_config(value);
    if c <= 11 {
        EncodeMode::SILK
    } else if c <= 15 {
        EncodeMode::Hybrid
    } else {
        EncodeMode::CELT
    }
}

pub open spec fn spec_bandwidth(value: u8) -> Bandwidth {
    let c = spec_config(value);
    if c <= 3 {
        Bandwidth::Narrow
    } else if c <= 7 {
        Bandwidth::Medium
    } else if c <= 11 {
        Bandwidth::Wide
    } else if c <= 13 {
        Bandwidth::SuperWide
    } else if c <= 15 {
        Bandwidth::Full
    } else if c <= 19 {
        Bandwidth::Narrow
    } else if c <= 23 {
        Bandwidth::Wide
    } else if c <= 27 {
        Bandwidth::SuperWide
    } else {
        Bandwidth::Full
    }
}

pub open spec fn spec_duration(value: u8) -> FrameDuration {
    let c = spec_config(value);
    if c <= 11 {
        if c % 4 == 0 {
            FrameDuration::Medium
        } else if c % 4 == 1 {
            FrameDuration::Standard
        } else if c % 4 == 2 {
            FrameDuration::Long
        } else {
            FrameDuration::VeryLong
        }
    } else if c <= 15 {
        if c % 2 == 0 {
            FrameDuration::Medium
        } else {
            FrameDuration::Standard
        }
    } else {
        if c % 4 == 0 {
            FrameDuration::VeryShort
        } else if c % 4 == 1 {
            FrameDuration::Short
        } else if c % 4 == 2 {
            FrameDuration::Medium
        } else {
            FrameDuration::Standard
        }
    }
}

pub open spec fn spec_channel(value: u8) -> Channel {
    if ((value as nat) / 4) % 2 == 1 {
        Channel::Stereo
    } else {
        Channel::Mono
    }
}

pub open spec fn spec_frame_code(value: u8) -> FrameCode {
    let c = (value as nat) % 4;
    if c == 0 {
        FrameCode::Single
    } else if c == 1 {
        FrameCode::DoubleCBR
    } else if c == 2 {
        FrameCode::DoubleVBR
    } else {
        FrameCode::Multiple
    }
}

impl From<u8> for EncodeMode {
    fn from(value: u8) -> (r: Self) {
        let c = value / 8;
        if c <= 11 {
            Self::SILK
        } else if c <= 15 {
            Self::Hybrid
        } else {
            Self::CELT
        }
    }
}

impl vstd::std_specs::convert::FromSpecImpl<u8> for EncodeMode {
    open spec fn obeys_from_spec() -> bool {
        true
    }

    open spec fn from_spec(v: u8) -> Self {
        spec_mode(v)
    }
}

impl From<u8> for Bandwidth {
    fn from(value: u8) -> (r: Self) {
        let c = value / 8;
        if c <= 3 {
            Self::Narrow
        } else if c <= 7 {
            Self::Medium
        } else if c <= 11 {
            Self::Wide
        } else if c <= 13 {
            Self::SuperWide
        } else if c <= 15 {
            Self::Full
        } else if c <= 19 {
            Self::Narrow
        } else if c <= 23 {
            Self::Wide
        } else if c <= 27 {
            Self::SuperWide
        } else {
            Self::Full
        }
    }
}

impl vstd::std_specs::convert::FromSpecImpl<u8> for Bandwidth {
    open spec fn obeys_from_spec() -> bool {
        true
    }

    open spec fn from_spec(v: u8) -> Self {
        spec_bandwidth(v)
    }
}

impl From<u8> for FrameCode {
    fn from(value: u8) -> (r: Self) {
        let c = value % 4;
        if c == 0 {
            Self::Single
        } else if c == 1 {
            Self::DoubleCBR
        } else if c == 2 {
            Self::DoubleVBR
        } else {
            Self::Multiple
        }
    }
}

impl vstd::std_specs::convert::FromSpecImpl<u8> for FrameCode {
    open spec fn obeys_from_spec() -> bool {
        true
    }

    open spec fn from_spec(v: u8) -> Self {
        spec_frame_code(v)
    }
}

impl From<u8> for FrameDuration {
    fn from(value: u8) -> (r: Self) {
        let c = value / 8;
        if c <= 11 {
            let d = c % 4;
            if d == 0 {
                Self::Medium
            } else if d == 1 {
                Self::Standard
            } else if d == 2 {
                Self::Long
            } else {
                Self::VeryLong
            }
        } else if c <= 15 {
            if c % 2 == 0 {
                Self::Medium
            } else {
                Self::Standard
            }
        } else {
            let d = c % 4;
            if d == 0 {
                Self::VeryShort
            } else if d == 1 {
                Self::Short
            } else if d == 2 {
                Self::Medium
            } else {
                Self::Standard
            }
        }
    }
}

impl vstd::std_specs::convert::FromSpecImpl<u8> for FrameDuration {
    open spec fn obeys_from_spec() -> bool {
        true
    }

    open spec fn from_spec(v: u8) -> Self {
        spec_duration(v)
    }
}

impl From<u8> for Channel {
    fn from(value: u8) -> (r: Self) {
        if (value / 4) % 2 == 1 {
            Self::Stereo
        } else {
            Self::Mono
        }
    }
}

impl vstd::std_specs::convert::FromSpecImpl<u8> for Channel {
    open spec fn obeys_from_spec() -> bool {
        true
    }

    open spec fn from_spec(v: u8) -> Self {
        spec_channel(v)
    }
}

impl FrameDuration {
    /// Frame length in samples at 48 kHz.
    pub open spec fn spec_samples(&self) -> usize {
        match self {
            FrameDuration::VeryShort => 120,
            FrameDuration::Short => 240,
            FrameDuration::Medium => 480,
            FrameDuration::Standard => 960,
            FrameDuration::Long => 1920,
            FrameDuration::VeryLong => 2880,
        }
    }

    /// Frame length in samples at 48 kHz.
    pub fn samples(&self) -> (r: usize)
        ensures
            r == self.spec_samples(),
    {
        match self {
            FrameDuration::VeryShort => 120,
            FrameDuration::Short => 240,
            FrameDuration::Medium => 480,
            FrameDuration::Standard => 960,
            FrameDuration::Long => 1920,
            FrameDuration::VeryLong => 2880,
        }
    }
}

impl Channel {
    /// Number of channels carried.
    pub open spec fn spec_count(&self) -> usize {
        match self {
            Channel::Mono => 1,
            Channel::Stereo => 2,
        }
    }

    /// Number of channels carried.
    pub fn count(&self) -> (r: usize)
        ensures
            r == self.spec_count(),
    {
        match self {
            Channel::Mono => 1,
            Channel::Stereo => 2,
        }
    }
}

/// Everything the TOC byte says about a packet.
#[derive(Debug, Default, Clone, Copy)]
pub struct TableOfContents {
    pub mode: EncodeMode,
    pub bandwidth: Bandwidth,
    pub duration: FrameDuration,
    pub channel: Channel,
    pub code: FrameCode,
}

/// The whole decoded TOC of one byte.
pub open spec fn spec_toc(value: u8) -> TableOfContents {
    TableOfContents {
        mode: spec_mode(value),
        bandwidth: spec_bandwidth(value),
        duration: spec_duration(value),
        channel: spec_channel(value),
        code: spec_frame_code(value),
    }
}

impl From<u8> for TableOfContents {
    fn from(value: u8) -> (r: Self) {
        Self {
            mode: EncodeMode::from(value),
            bandwidth: Bandwidth::from(value),
            duration: FrameDuration::from(value),
            channel: Channel::from(value),
            code: FrameCode::from(value),
        }
    }
}

impl vstd::std_specs::convert::FromSpecImpl<u8> for TableOfContents {
    open spec fn obeys_from_spec() -> bool {
        true
    }

    open spec fn from_spec(v: u8) -> Self {
        spec_toc(v)
    }
}

/// The configuration number the RFC table assigns to a (mode, bandwidth,
/// duration) triple, or -1 where no row carries it.
pub open spec fn spec_config_of(m: EncodeMode, bw: Bandwidth, d: FrameDuration) -> int {
    match m {
        EncodeMode::SILK => {
            let base: int = match bw {
                Bandwidth::Narrow => 0,
                Bandwidth::Medium => 4,
                Bandwidth::Wide => 8,
                _ => -1,
            };
            let di: int = match d {
                FrameDuration::Medium => 0,
                FrameDuration::Standard => 1,
                FrameDuration::Long => 2,
                FrameDuration::VeryLong => 3,
                _ => -1,
            };
            if base >= 0 && di >= 0 {
                base + di
            } else {
                -1
            }
        },
        EncodeMode::Hybrid => {
            let base: int = match bw {
                Bandwidth::SuperWide => 12,
                Bandwidth::Full => 14,
                _ => -1,
            };
            let di: int = match d {
                FrameDuration::Medium => 0,
                FrameDuration::Standard => 1,
                _ => -1,
            };
            if base >= 0 && di >= 0 {
                base + di
            } else {
                -1
            }
        },
        EncodeMode::CELT => {
            let base: int = match bw {
                Bandwidth::Narrow => 16,
                Bandwidth::Wide => 20,
                Bandwidth::SuperWide => 24,
                Bandwidth::Full => 28,
                _ => -1,
            };
            let di: int = match d {
                FrameDuration::VeryShort => 0,
                FrameDuration::Short => 1,
                FrameDuration::Medium => 2,
                FrameDuration::Standard => 3,
                _ => -1,
            };
            if base >= 0 && di >= 0 {
                base + di
            } else {
                -1
            }
        },
    }
}

/// A TOC that some byte can carry: its triple has a row in the RFC table.
pub open spec fn spec_toc_valid(t: TableOfContents) -> bool {
    spec_config_of(t.mode, t.bandwidth, t.duration) >= 0
}

/// The byte that re-encodes a decoded TOC.
pub open spec fn spec_encode_toc(t: TableOfContents) -> int {
    spec_config_of(t.mode, t.bandwidth, t.duration) * 8 + (if t.channel == Channel::Stereo {
        4int
    } else {
        0int
    }) + (match t.code {
        FrameCode::Single => 0int,
        FrameCode::DoubleCBR => 1int,
        FrameCode::DoubleVBR => 2int,
        FrameCode::Multiple => 3int,
    })
}

impl TableOfContents {
    /// Re-encodes the TOC into its byte by the RFC configuration table.
    pub fn encode(&self) -> (r: u8)
        requires
            spec_toc_valid(*self),
        ensures
            r == spec_encode_toc(*self),
    {
        let base: u8 = match self.mode {
            EncodeMode::SILK => match self.bandwidth {
                Bandwidth::Narrow => 0,
                Bandwidth::Medium => 4,
                _ => 8,
            },
            EncodeMode::Hybrid => match self.bandwidth {
                Bandwidth::SuperWide => 12,
                _ => 14,
            },
            EncodeMode::CELT => match self.bandwidth {
                Bandwidth::Narrow => 16,
                Bandwidth::Wide => 20,
                Bandwidth::SuperWide => 24,
                _ => 28,
            },
        };
        let di: u8 = match self.mode {
            EncodeMode::Hybrid => match self.duration {
                FrameDuration::Medium => 0,
                _ => 1,
            },
            EncodeMode::SILK => match self.duration {
                FrameDuration::Medium => 0,
                FrameDuration::Standard => 1,
                FrameDuration::Long => 2,
                _ => 3,
            },
            EncodeMode::CELT => match self.duration {
                FrameDuration::VeryShort => 0,
                FrameDuration::Short => 1,
                FrameDuration::Medium => 2,
                _ => 3,
            },
        };
        let s: u8 = match self.channel {
            Channel::Mono => 0,
            Channel::Stereo => 1,
        };
        let k: u8 = match self.code {
            FrameCode::Single => 0,
            FrameCode::DoubleCBR => 1,
            FrameCode::DoubleVBR => 2,
            FrameCode::Multiple => 3,
        };
        (base + di) * 8 + s * 4 + k
    }
}

/// Decoding any byte and re-encoding it by the RFC table gives the byte
/// back: the 32 configurations and the flag bits cover `u8` exactly.
pub proof fn lemma_toc_round_trip(b: u8)
    ensures
        spec_toc_valid(spec_toc(b)),
        spec_encode_toc(spec_toc(b)) == b,
{
    let c = spec_config(b);
    vstd::arithmetic::div_mod::lemma_fundamental_div_mod(b as int, 8);
    vstd::arithmetic::div_mod::lemma_fundamental_div_mod(b as int, 4);
    vstd::arithmetic::div_mod::lemma_fundamental_div_mod((b as int) / 4, 2);
    vstd::arithmetic::div_mod::lemma_fundamental_div_mod(b as int, 2);
    assert(spec_config_of(spec_mode(b), spec_bandwidth(b), spec_duration(b)) == c);
    assert((b as int) % 8 == 4 * (((b as int) / 4) % 2) + (b as int) % 4) by (nonlinear_arith);
}

} // verus!
