mod bit_alloc;
mod coarse_energy;
mod filter;
mod time_frequency_change;

use vstd::prelude::*;
use crate::opus::entropy::{RangeCodingDecoder, lemma_wf_bounds, spec_avail, spec_logp};
use crate::opus::toc::{Bandwidth, Channel, EncodeMode, FrameDuration, TableOfContents};
use self::filter::{spec_post_filter, spec_taps};

pub use self::bit_alloc::{BitAlloc, Spread, compute_allocation, compute_caps};
pub use self::bit_alloc::{compute_caps_seq, spec_alloc_row, spec_boost_bands, spec_granted,
    spec_reservations, spec_spread, spec_trim, zero_boosts};
pub use self::coarse_energy::{CoarseEnergy, spec_ce_stage};
pub use self::filter::PostFilter;
pub use self::time_frequency_change::{TimeFrequencyChange, spec_tf_stage};

verus! {

/// Number of bark-like frequency bands.
pub const MAX_BANDS: usize = 21;

/// Samples in one short MDCT block at 48 kHz.
pub const SHORT_BLOCKSIZE: usize = 120;

/// Log2 of the largest number of short blocks per frame.
pub const MAX_LOG_BLOCKS: usize = 3;

/// Samples in the longest frame.
pub const MAX_FRAME_SIZE: usize = 120 * 8;

#[derive(Debug, Clone, Copy, PartialEq, Eq, Structural)]
pub enum CeltFrameDecodeError {
    BandsOverflow,
}

/// MDCT bins per band, in units of the shortest block.
pub open spec fn spec_freq_range() -> Seq<u8> {
    seq![1u8, 1, 1, 1, 1, 1, 1, 1, 2, 2, 2, 2, 4, 4, 4, 6, 6, 8, 12, 18, 22]
}

/// MDCT bins per band, in units of the shortest block.
pub fn freq_range(i: usize) -> (r: u8)
    requires
        i < 21,
    ensures
        r == spec_freq_range()[i as int],
        1 <= r <= 22,
{
    let a: [u8; 21] = [1, 1, 1, 1, 1, 1, 1, 1, 2, 2, 2, 2, 4, 4, 4, 6, 6, 8, 12, 18, 22];
    proof {
        assert(a@ =~= spec_freq_range());
    }
    a[i]
}

/// The number of coded bands a bandwidth reaches.
pub trait CeltBandwidthBand {
    /// The band count, as a specification.
    spec fn spec_band(&self) -> usize;

    /// The first band past the bandwidth's reach.
    fn band(&self) -> (r: usize)
        ensures
            r == self.spec_band(),
    ;
}

impl CeltBandwidthBand for Bandwidth {
    open spec fn spec_band(&self) -> usize {
        match self {
            Bandwidth::Narrow => 13,
            Bandwidth::Medium => 17,
            Bandwidth::Wide => 17,
            Bandwidth::SuperWide => 19,
            Bandwidth::Full => 21,
        }
    }

    fn band(&self) -> (r: usize) {
        match self {
            Bandwidth::Narrow => 13,
            Bandwidth::Medium => 17,
            Bandwidth::Wide => 17,
            Bandwidth::SuperWide => 19,
            Bandwidth::Full => 21,
        }
    }
}

/// Log2 of the number of short blocks a frame of this duration holds.
pub open spec fn spec_frame_size(d: FrameDuration) -> usize {
    match d {
        FrameDuration::VeryShort => 0,
        FrameDuration::Short => 1,
        FrameDuration::Medium => 2,
        _ => 3,
    }
}

/// The silence decision: a 1/32768 flag when any bit remains, else forced.
pub open spec fn spec_silence(bytes: Seq<u8>, st: (nat, nat, nat, nat), total: nat) -> bool {
    if spec_avail(total, st.3, st.2) > 0 {
        spec_logp(bytes, st.0, st.1, st.2, st.3, 15).0
    } else {
        true
    }
}

/// The decoder state after the silence flag.
pub open spec fn spec_after_silence(bytes: Seq<u8>, st: (nat, nat, nat, nat), total: nat) -> (
    nat,
    nat,
    nat,
    nat,
) {
    if spec_avail(total, st.3, st.2) > 0 {
        spec_logp(bytes, st.0, st.1, st.2, st.3, 15).1
    } else {
        st
    }
}

/// Whether the post-filter enable bit is read at all: only full-range
/// frames with at least sixteen bits left.
pub open spec fn spec_pf_read(band_start: int, st1: (nat, nat, nat, nat), total: nat) -> bool {
    band_start == 0 && spec_avail(total, st1.3, st1.2) >= 16
}

/// The transient decision, chained through the silence flag and the
/// post-filter block.
pub open spec fn spec_transient(
    bytes: Seq<u8>,
    st0: (nat, nat, nat, nat),
    rpos: nat,
    total: nat,
    band_start: int,
    size: nat,
) -> bool {
    let st1 = spec_after_silence(bytes, st0, total);
    let pfc = spec_pf_read(band_start, st1, total);
    let l1 = spec_logp(bytes, st1.0, st1.1, st1.2, st1.3, 1);
    let st2 = if pfc {
        l1.1
    } else {
        st1
    };
    let st3 = if pfc && l1.0 {
        spec_post_filter(bytes, st2, rpos, total).0
    } else {
        st2
    };
    size > 0 && spec_avail(total, st3.3, st3.2) >= 3 && spec_logp(
        bytes,
        st3.0,
        st3.1,
        st3.2,
        st3.3,
        3,
    ).0
}

/// The decoder state right after the transient flag, chained through the
/// silence flag and the post-filter block.
pub open spec fn spec_st4(
    bytes: Seq<u8>,
    st0: (nat, nat, nat, nat),
    rpos: nat,
    total: nat,
    band_start: int,
    size: nat,
) -> (nat, nat, nat, nat) {
    let st1 = spec_after_silence(bytes, st0, total);
    let pfc = spec_pf_read(band_start, st1, total);
    let l1 = spec_logp(bytes, st1.0, st1.1, st1.2, st1.3, 1);
    let st2 = if pfc {
        l1.1
    } else {
        st1
    };
    let st3 = if pfc && l1.0 {
        spec_post_filter(bytes, st2, rpos, total).0
    } else {
        st2
    };
    if size > 0 && spec_avail(total, st3.3, st3.2) >= 3 {
        spec_logp(bytes, st3.0, st3.1, st3.2, st3.3, 3).1
    } else {
        st3
    }
}

/// The bit-accounting slack the controller's guarded reads stay within:
/// once a read is guarded by `available`, consumption cannot drift past the
/// payload by more than a few symbols' worth of bits.
pub open spec fn used_after(u0: nat) -> nat {
    if u0 >= 10400 {
        u0
    } else {
        10400
    }
}

/// The control-plane state of one CELT frame, filled in coding order.
/// Energies are Q15 fixed point (log-energy numerators over 32768).
#[derive(Debug)]
pub struct CeltFrameDecoder {
    pub band_start: usize,
    pub band_end: usize,
    pub size: usize,
    pub silence: bool,
    pub transient: bool,
    pub channels: Channel,
    pub post_filter: PostFilter,
    pub energy: Vec<i64>,
    pub prev_energy: Vec<i64>,
    pub time_frequency_change: Vec<i8>,
    pub spread: Option<Spread>,
    pub caps: Vec<i64>,
    pub alloc_trim: usize,
    pub anticollapse_needed: usize,
    pub band_bits: Vec<i64>,
}

impl CeltFrameDecoder {
    /// Structural soundness: the band window sits inside the 21 bands, the
    /// per-band tables have one slot per band, and the numeric fields stay
    /// in their coded ranges.
    pub open spec fn wf(&self) -> bool {
        &&& self.band_start <= self.band_end <= 21
        &&& self.size <= 3
        &&& self.energy@.len() == 42
        &&& self.prev_energy@.len() == 2
        &&& self.time_frequency_change@.len() == 21
        &&& self.caps@.len() == 21
        &&& self.band_bits@.len() == 21
        &&& self.alloc_trim <= 10
        &&& (forall|i: int| 0 <= i < 42 ==> -0x48000 <= #[trigger] self.energy@[i] <= 0x7FFF_FFFF)
    }

    /// A fresh, all-zero frame record.
    pub fn new_frame() -> (r: Self)
        ensures
            r.wf(),
            r.band_start == 0,
            r.band_end == 0,
            forall|i: int| 0 <= i < 42 ==> #[trigger] r.energy@[i] == 0,
            forall|i: int| 0 <= i < 21 ==> #[trigger] r.band_bits@[i] == 0,
            forall|i: int| 0 <= i < 21 ==> #[trigger] r.caps@[i] == 0,
            forall|i: int| 0 <= i < 21 ==> #[trigger] r.time_frequency_change@[i] == 0,
            r.alloc_trim == 0,
            r.anticollapse_needed == 0,
            !r.transient,
            !r.silence,
            r.spread is None,
            r.post_filter.period_new == 0,
    {
        let mut energy: Vec<i64> = Vec::new();
        let mut tf: Vec<i8> = Vec::new();
        let mut caps: Vec<i64> = Vec::new();
        let mut band_bits: Vec<i64> = Vec::new();
        let mut k: usize = 0;
        while k < 42
            invariant
                k <= 42,
                energy@.len() == k,
                forall|i: int| 0 <= i < k ==> #[trigger] energy@[i] == 0,
            decreases 42 - k,
        {
            energy.push(0);
            k = k + 1;
        }
        let mut t: usize = 0;
        while t < 21
            invariant
                t <= 21,
                tf@.len() == t,
                caps@.len() == t,
                band_bits@.len() == t,
                forall|i: int| 0 <= i < t ==> #[trigger] tf@[i] == 0,
                forall|i: int| 0 <= i < t ==> #[trigger] caps@[i] == 0,
                forall|i: int| 0 <= i < t ==> #[trigger] band_bits@[i] == 0,
            decreases 21 - t,
        {
            tf.push(0);
            caps.push(0);
            band_bits.push(0);
            t = t + 1;
        }
        let mut prev_energy: Vec<i64> = Vec::new();
        prev_energy.push(0);
        prev_energy.push(0);
        CeltFrameDecoder {
            band_start: 0,
            band_end: 0,
            size: 0,
            silence: false,
            transient: false,
            channels: Channel::Mono,
            post_filter: PostFilter { period_new: 0, gains_new: [0, 0, 0] },
            energy,
            prev_energy,
            time_frequency_change: tf,
            spread: None,
            caps,
            alloc_trim: 0,
            anticollapse_needed: 0,
            band_bits,
        }
    }

    /// Drives the range decoder through the per-frame symbol schedule:
    /// silence, post-filter, transient, coarse energy, time-frequency
    /// change, and bit allocation.  The band window always fits the 21
    /// bands, so decoding cannot fail.
    #[verifier::loop_isolation(false)]
    #[verifier::rlimit(100)]
    #[verifier::spinoff_prover]
    pub fn decode(&mut self, toc: &TableOfContents, range_dec: &mut RangeCodingDecoder) -> (r:
        Result<(), CeltFrameDecodeError>)
        requires
            old(self).wf(),
            crate::opus::toc::spec_toc_valid(*toc),
            old(range_dec).wf(),
            old(range_dec).total_bits() <= 10200,
            old(range_dec).used() <= 0x100000,
        ensures
            final(self).wf(),
            r is Ok,
            final(self).band_start == (if toc.mode == EncodeMode::Hybrid {
                17int
            } else {
                0int
            }),
            final(self).band_end == toc.bandwidth.spec_band(),
            final(self).size == spec_frame_size(toc.duration),
            final(self).channels == toc.channel,
            // the silence flag is the first symbol of the frame
            final(self).silence == spec_silence(
                old(range_dec).stream(),
                old(range_dec).state(),
                old(range_dec).total_bits(),
            ),
            // a silent frame drains the payload and carries an all-zero
            // parameter record
            final(self).silence ==> ({
                &&& final(range_dec).spec_tell() >= final(range_dec).total_bits()
                &&& (forall|i: int| 0 <= i < 42 ==> #[trigger] final(self).energy@[i] == 0)
                &&& final(self).alloc_trim == 0
                &&& final(self).anticollapse_needed == 0
                &&& !final(self).transient
            }),
            // the transient flag follows silence and the post-filter block
            !final(self).silence ==> final(self).transient == spec_transient(
                old(range_dec).stream(),
                old(range_dec).state(),
                old(range_dec).rpos(),
                old(range_dec).total_bits(),
                (if toc.mode == EncodeMode::Hybrid {
                    17int
                } else {
                    0int
                }),
                spec_frame_size(toc.duration) as nat,
            ),
            // the post-filter record is the decoded block when its enable
            // bit is read and set, else it is untouched
            !final(self).silence ==> ({
                let stream = old(range_dec).stream();
                let total = old(range_dec).total_bits();
                let st1 = spec_after_silence(stream, old(range_dec).state(), total);
                let bs: int = if toc.mode == EncodeMode::Hybrid {
                    17
                } else {
                    0
                };
                let pfc = spec_pf_read(bs, st1, total);
                let l1 = spec_logp(stream, st1.0, st1.1, st1.2, st1.3, 1);
                let pf = spec_post_filter(stream, l1.1, old(range_dec).rpos(), total);
                &&& (pfc && l1.0 ==> final(self).post_filter.period_new == pf.2 && (forall|i: int|
                    0 <= i < 3 ==> #[trigger] final(self).post_filter.gains_new@[i] == 3 * pf.3
                        * spec_taps()[pf.4 * 3 + i]))
                &&& (!(pfc && l1.0) ==> final(self).post_filter == old(self).post_filter)
            }),
            // the four stages, chained over the stream from the state after
            // the transient flag
            !final(self).silence ==> ({
                let stream = old(range_dec).stream();
                let st0 = old(range_dec).state();
                let total = old(range_dec).total_bits();
                let rp0 = old(range_dec).rpos();
                let bs: int = if toc.mode == EncodeMode::Hybrid {
                    17
                } else {
                    0
                };
                let be = toc.bandwidth.spec_band() as int;
                let size = spec_frame_size(toc.duration) as nat;
                let chs = toc.channel.spec_count() as int;
                let chn = toc.channel.spec_count() as nat;
                let trf = spec_transient(stream, st0, rp0, total, bs, size);
                let st4 = spec_st4(stream, st0, rp0, total, bs, size);
                let ce = spec_ce_stage(stream, st4, total, size, bs, be, chs, old(self).energy@);
                let tfr = spec_tf_stage(stream, ce.0, total, bs, be, size, trf);
                let caps = compute_caps_seq(size, chn);
                let sp = spec_spread(stream, tfr.0, total);
                let bb = spec_boost_bands(
                    stream,
                    size,
                    chs,
                    bs,
                    be,
                    caps,
                    sp.1,
                    (total * 8) as nat,
                    6,
                    bs,
                    zero_boosts(),
                );
                let tr = spec_trim(stream, bb.0, bb.1);
                let rv = spec_reservations(tr.1, total, trf, size, chs, be - bs);
                let row = spec_alloc_row(size, chn, tr.0, bs, be, bb.3, caps, rv.1);
                &&& final(self).energy@ == ce.1
                &&& final(self).prev_energy@ == seq![ce.2 as i64, ce.3 as i64]
                &&& (forall|k: int|
                    bs <= k < be ==> #[trigger] final(self).time_frequency_change@[k] == tfr.1[k
                        - bs])
                &&& final(self).spread == sp.0
                &&& final(self).alloc_trim == tr.0
                &&& final(self).anticollapse_needed == rv.0
                &&& (forall|b: int|
                    bs <= b < be ==> #[trigger] final(self).band_bits@[b] == spec_granted(
                        size,
                        chn,
                        tr.0,
                        be,
                        row,
                        bb.3,
                        caps,
                        b,
                    ))
                &&& final(self).caps@ == caps
                &&& final(range_dec).state() == tr.1
            }),
            final(range_dec).wf(),
            final(range_dec).stream() == old(range_dec).stream(),
            final(range_dec).total_bits() == old(range_dec).total_bits(),
            final(range_dec).used() <= used_after(old(range_dec).used()) + 200,
    {
        self.channels = toc.channel;

        // Hybrid packets code only the high bands; CELT starts at zero.
        self.band_start = if toc.mode == EncodeMode::Hybrid {
            17
        } else {
            0
        };
        self.band_end = toc.bandwidth.band();

        if self.band_end > MAX_BANDS {
            return Err(CeltFrameDecodeError::BandsOverflow);
        }
        // Number of short blocks, as a power of two.
        let blocks_per = toc.duration.samples() / SHORT_BLOCKSIZE;
        self.size = if blocks_per >= 8 {
            3
        } else if blocks_per >= 4 {
            2
        } else if blocks_per >= 2 {
            1
        } else {
            0
        };

        let ghost stream = old(range_dec).stream();
        let ghost st0 = old(range_dec).state();
        let ghost total = old(range_dec).total_bits();
        let ghost rp0 = old(range_dec).rpos();

        // Silence: a 1/32768 flag when any bit remains, else forced.
        self.silence = if range_dec.available() > 0 {
            proof {
                lemma_wf_bounds(range_dec);
            }
            range_dec.logp(15)
        } else {
            true
        };
        proof {
            assert(self.silence == spec_silence(stream, st0, total));
            assert(range_dec.state() == spec_after_silence(stream, st0, total));
        }

        if self.silence {
            // A silent frame drains the payload and carries an all-zero
            // parameter record.
            range_dec.to_end();
            let zero = Self::new_frame();
            self.transient = false;
            self.post_filter = zero.post_filter;
            self.energy = zero.energy;
            self.prev_energy = zero.prev_energy;
            self.time_frequency_change = zero.time_frequency_change;
            self.spread = None;
            self.caps = zero.caps;
            self.alloc_trim = 0;
            self.anticollapse_needed = 0;
            self.band_bits = zero.band_bits;
            return Ok(());
        }

        // Post-filter parameters, only for full-range frames with room.
        let ghost st1 = range_dec.state();
        let ghost pfc = spec_pf_read(self.band_start as int, st1, total);
        let ghost l1 = spec_logp(stream, st1.0, st1.1, st1.2, st1.3, 1);
        if self.band_start == 0 && range_dec.available() >= 16 {
            proof {
                lemma_wf_bounds(range_dec);
                assert(pfc);
            }
            let has_postfilter = range_dec.logp(1);
            proof {
                assert(has_postfilter == l1.0);
                assert(range_dec.state() == l1.1);
            }
            if has_postfilter {
                self.post_filter = PostFilter::decode(range_dec);
            }
        } else {
            proof {
                assert(!pfc);
            }
        }
        proof {
            assert(range_dec.state() == (if pfc && l1.0 {
                spec_post_filter(stream, l1.1, rp0, total).0
            } else if pfc {
                l1.1
            } else {
                st1
            }));
        }

        // Transient: several short MDCTs instead of one long one.
        self.transient = if self.size > 0 && range_dec.available() >= 3 {
            proof {
                lemma_wf_bounds(range_dec);
            }
            range_dec.logp(3)
        } else {
            false
        };
        proof {
            assert(self.transient == spec_transient(
                stream,
                st0,
                rp0,
                total,
                self.band_start as int,
                self.size as nat,
            ));
        }

        CoarseEnergy::decode(self, range_dec);

        TimeFrequencyChange::decode(self, range_dec);

        BitAlloc::decode(toc, self, range_dec);

        Ok(())
    }
}

} // verus!
