use vstd::prelude::*;
use crate::opus::entropy::{
    ICDFContext, RangeCodingDecoder, lemma_wf_bounds, spec_avail, spec_laplace_sym, spec_logp,
    spec_symbol, spec_update,
};
use super::{CeltFrameDecoder, MAX_BANDS, used_after};

verus! {

/// Laplace (symbol, decay) byte pairs of the coarse-energy models: four
/// frame sizes, inter then intra, 21 bands of two bytes each.
pub open spec fn spec_coarse_energy_dict() -> Seq<u8> {
    seq![
        // 120-sample inter
        72u8, 127, 65, 129, 66, 128, 65, 128, 64, 128, 62, 128, 64, 128, 64, 128, 92, 78, 92, 79,
        92, 78, 90, 79, 116, 41, 115, 40, 114, 40, 132, 26, 132, 26, 145, 17, 161, 12, 176, 10,
        177, 11,
        // 120-sample intra
        24, 179, 48, 138, 54, 135, 54, 132, 53, 134, 56, 133, 55, 132, 55, 132, 61, 114, 70, 96,
        74, 88, 75, 88, 87, 74, 89, 66, 91, 67, 100, 59, 108, 50, 120, 40, 122, 37, 97, 43, 78,
        50,
        // 240-sample inter
        83, 78, 84, 81, 88, 75, 86, 74, 87, 71, 90, 73, 93, 74, 93, 74, 109, 40, 114, 36, 117,
        34, 117, 34, 143, 17, 145, 18, 146, 19, 162, 12, 165, 10, 178, 7, 189, 6, 190, 8, 177, 9,
        // 240-sample intra
        23, 178, 54, 115, 63, 102, 66, 98, 69, 99, 74, 89, 71, 91, 73, 91, 78, 89, 86, 80, 92,
        66, 93, 64, 102, 59, 103, 60, 104, 60, 117, 52, 123, 44, 138, 35, 133, 31, 97, 38, 77,
        45,
        // 480-sample inter
        61, 90, 93, 60, 105, 42, 107, 41, 110, 45, 116, 38, 113, 38, 112, 38, 124, 26, 132, 27,
        136, 19, 140, 20, 155, 14, 159, 16, 158, 18, 170, 13, 177, 10, 187, 8, 192, 6, 175, 9,
        159, 10,
        // 480-sample intra
        21, 178, 59, 110, 71, 86, 75, 85, 84, 83, 91, 66, 88, 73, 87, 72, 92, 75, 98, 72, 105,
        58, 107, 54, 115, 52, 114, 55, 112, 56, 129, 51, 132, 40, 150, 33, 140, 29, 98, 35, 77,
        42,
        // 960-sample inter
        42, 121, 96, 66, 108, 43, 111, 40, 117, 44, 123, 32, 120, 36, 119, 33, 127, 33, 134, 34,
        139, 21, 147, 23, 152, 20, 158, 25, 154, 26, 166, 21, 173, 16, 184, 13, 184, 10, 150,
        13, 139, 15,
        // 960-sample intra
        22, 178, 63, 114, 74, 82, 84, 83, 92, 82, 103, 62, 96, 72, 96, 67, 101, 73, 107, 72,
        113, 55, 118, 52, 125, 52, 118, 52, 117, 55, 135, 49, 137, 39, 157, 32, 145, 29, 97,
        33, 77, 40,
    ]
}

/// One byte of the coarse-energy model table.
fn coarse_dict(size: usize, intra: bool, idx: usize) -> (r: u8)
    requires
        size < 4,
        idx < 42,
    ensures
        r == spec_coarse_energy_dict()[size * 84 + (if intra {
            42int
        } else {
            0int
        }) + idx],
{
    let a: [u8; 336] = [
        72, 127, 65, 129, 66, 128, 65, 128, 64, 128, 62, 128, 64, 128, 64, 128, 92, 78, 92, 79,
        92, 78, 90, 79, 116, 41, 115, 40, 114, 40, 132, 26, 132, 26, 145, 17, 161, 12, 176, 10,
        177, 11,
        24, 179, 48, 138, 54, 135, 54, 132, 53, 134, 56, 133, 55, 132, 55, 132, 61, 114, 70, 96,
        74, 88, 75, 88, 87, 74, 89, 66, 91, 67, 100, 59, 108, 50, 120, 40, 122, 37, 97, 43, 78,
        50,
        83, 78, 84, 81, 88, 75, 86, 74, 87, 71, 90, 73, 93, 74, 93, 74, 109, 40, 114, 36, 117,
        34, 117, 34, 143, 17, 145, 18, 146, 19, 162, 12, 165, 10, 178, 7, 189, 6, 190, 8, 177, 9,
        23, 178, 54, 115, 63, 102, 66, 98, 69, 99, 74, 89, 71, 91, 73, 91, 78, 89, 86, 80, 92,
        66, 93, 64, 102, 59, 103, 60, 104, 60, 117, 52, 123, 44, 138, 35, 133, 31, 97, 38, 77,
        45,
        61, 90, 93, 60, 105, 42, 107, 41, 110, 45, 116, 38, 113, 38, 112, 38, 124, 26, 132, 27,
        136, 19, 140, 20, 155, 14, 159, 16, 158, 18, 170, 13, 177, 10, 187, 8, 192, 6, 175, 9,
        159, 10,
        21, 178, 59, 110, 71, 86, 75, 85, 84, 83, 91, 66, 88, 73, 87, 72, 92, 75, 98, 72, 105,
        58, 107, 54, 115, 52, 114, 55, 112, 56, 129, 51, 132, 40, 150, 33, 140, 29, 98, 35, 77,
        42,
        42, 121, 96, 66, 108, 43, 111, 40, 117, 44, 123, 32, 120, 36, 119, 33, 127, 33, 134, 34,
        139, 21, 147, 23, 152, 20, 158, 25, 154, 26, 166, 21, 173, 16, 184, 13, 184, 10, 150,
        13, 139, 15,
        22, 178, 63, 114, 74, 82, 84, 83, 92, 82, 103, 62, 96, 72, 96, 67, 101, 73, 107, 72,
        113, 55, 118, 52, 125, 52, 118, 52, 117, 55, 135, 49, 137, 39, 157, 32, 145, 29, 97,
        33, 77, 40,
    ];
    proof {
        assert(a@ =~= spec_coarse_energy_dict());
    }
    let o: usize = if intra {
        42
    } else {
        0
    };
    a[size * 84 + o + idx]
}

/// Prediction gains of the inter-frame coarse-energy filter, Q15.
pub open spec fn spec_alpha_coef() -> Seq<i64> {
    seq![29440i64, 26112, 21248, 16384]
}

/// Accumulator gains of the inter-frame coarse-energy filter, Q15.
pub open spec fn spec_beta_coef() -> Seq<i64> {
    seq![2621i64, 10486, 20644, 26214]
}

/// Prediction gain of the inter-frame coarse-energy filter, Q15.
fn alpha_coef(size: usize) -> (r: i64)
    requires
        size < 4,
    ensures
        r == spec_alpha_coef()[size as int],
        0 <= r <= 32768,
{
    let a: [i64; 4] = [29440, 26112, 21248, 16384];
    proof {
        assert(a@ =~= spec_alpha_coef());
    }
    a[size]
}

/// Accumulator gain of the inter-frame coarse-energy filter, Q15.
fn beta_coef(size: usize) -> (r: i64)
    requires
        size < 4,
    ensures
        r == spec_beta_coef()[size as int],
        0 <= r <= 32768,
{
    let a: [i64; 4] = [2621, 10486, 20644, 26214];
    proof {
        assert(a@ =~= spec_beta_coef());
    }
    a[size]
}

/// One coarse-energy delta: the Laplace / ICDF / single-bit ladder, chosen
/// by the whole bits still available.  Returns the decoder state after the
/// read and the signed delta.
pub open spec fn spec_ce_delta(
    bytes: Seq<u8>,
    st: (nat, nat, nat, nat),
    total: nat,
    size: nat,
    intra: bool,
    band: int,
) -> ((nat, nat, nat, nat), int) {
    let av = spec_avail(total, st.3, st.2);
    if av >= 15 {
        let o: int = if intra {
            42
        } else {
            0
        };
        let sy = spec_coarse_energy_dict()[size * 84 + o + 2 * band] * 128;
        let dc = spec_coarse_energy_dict()[size * 84 + o + 2 * band + 1] * 64;
        let center = spec_symbol(st.1, st.2, 0x8000);
        let t = spec_laplace_sym(center, sy as nat, dc as nat);
        let high = if t.1 + t.2 < 0x8000 {
            (t.1 + t.2) as nat
        } else {
            0x8000nat
        };
        (spec_update(bytes, st.0, st.1, st.2, st.3, t.1, high, 0x8000), t.0)
    } else if av >= 2 {
        let symt = spec_symbol(st.1, st.2, 4);
        if symt < 2 {
            (spec_update(bytes, st.0, st.1, st.2, st.3, 0, 2, 4), 0int)
        } else if symt < 3 {
            (spec_update(bytes, st.0, st.1, st.2, st.3, 2, 3, 4), -1int)
        } else {
            (spec_update(bytes, st.0, st.1, st.2, st.3, 3, 4, 4), 1int)
        }
    } else if av >= 1 {
        let l = spec_logp(bytes, st.0, st.1, st.2, st.3, 1);
        (l.1, if l.0 {
            -1int
        } else {
            0int
        })
    } else {
        (st, -1int)
    }
}

/// The Q15 prediction update, saturating at the fixed-point ceilings.
pub open spec fn spec_ce_energy(e_old: int, prev: int, alpha: int, value: int) -> int {
    let scaled = alpha * e_old;
    let pred = if scaled >= 0 {
        scaled / 32768
    } else {
        -((-scaled) / 32768)
    };
    let q = pred + prev + value * 32768;
    if q < -0x48000 {
        -0x48000
    } else if q > 0x7FFF_FFFF {
        0x7FFF_FFFF
    } else {
        q
    }
}

/// The accumulator update, saturating far outside any reachable value.
pub open spec fn spec_ce_prev(prev: int, beta: int, value: int) -> int {
    let p = prev + beta * value;
    if p < -0x10_0000_0000 {
        -0x10_0000_0000
    } else if p > 0x10_0000_0000 {
        0x10_0000_0000
    } else {
        p
    }
}

/// The whole coarse-energy sweep from `(band, ch)` on: bands outer and in
/// increasing order, channels inner; out-of-range slots zeroed.
pub open spec fn spec_ce_loop(
    bytes: Seq<u8>,
    total: nat,
    size: nat,
    intra: bool,
    bstart: int,
    bend: int,
    channels: int,
    alpha: int,
    beta: int,
    st: (nat, nat, nat, nat),
    energy: Seq<i64>,
    prev0: int,
    prev1: int,
    band: int,
    ch: int,
) -> ((nat, nat, nat, nat), Seq<i64>, int, int)
    decreases 21 - band, channels - ch,
{
    if band >= 21 || band < 0 {
        (st, energy, prev0, prev1)
    } else if ch >= channels {
        spec_ce_loop(
            bytes,
            total,
            size,
            intra,
            bstart,
            bend,
            channels,
            alpha,
            beta,
            st,
            energy,
            prev0,
            prev1,
            band + 1,
            0,
        )
    } else {
        if !(bstart <= band < bend) {
            spec_ce_loop(
                bytes,
                total,
                size,
                intra,
                bstart,
                bend,
                channels,
                alpha,
                beta,
                st,
                energy.update(ch * 21 + band, 0),
                prev0,
                prev1,
                band,
                ch + 1,
            )
        } else {
            let d = spec_ce_delta(bytes, st, total, size, intra, band);
            let prev = if ch == 0 {
                prev0
            } else {
                prev1
            };
            let e2 = spec_ce_energy(energy[ch * 21 + band] as int, prev, alpha, value_of(d));
            let p2 = spec_ce_prev(prev, beta, value_of(d));
            spec_ce_loop(
                bytes,
                total,
                size,
                intra,
                bstart,
                bend,
                channels,
                alpha,
                beta,
                d.0,
                energy.update(ch * 21 + band, e2 as i64),
                if ch == 0 {
                    p2
                } else {
                    prev0
                },
                if ch == 1 {
                    p2
                } else {
                    prev1
                },
                band,
                ch + 1,
            )
        }
    }
}

/// The delta component of a decoded cell.
pub open spec fn value_of(d: ((nat, nat, nat, nat), int)) -> int {
    d.1
}

/// The whole coarse-energy stage as one function of the stream and its
/// entry state: the decoder state afterwards, the energies, the two
/// accumulators and the intra decision.
pub open spec fn spec_ce_stage(
    bytes: Seq<u8>,
    st0: (nat, nat, nat, nat),
    total: nat,
    size: nat,
    bstart: int,
    bend: int,
    channels: int,
    energy0: Seq<i64>,
) -> ((nat, nat, nat, nat), Seq<i64>, int, int, bool) {
    let read = spec_avail(total, st0.3, st0.2) > 3;
    let intra = read && spec_logp(bytes, st0.0, st0.1, st0.2, st0.3, 3).0;
    let st1 = if read {
        spec_logp(bytes, st0.0, st0.1, st0.2, st0.3, 3).1
    } else {
        st0
    };
    let alpha: int = if intra {
        0
    } else {
        spec_alpha_coef()[size as int] as int
    };
    let beta: int = if intra {
        32768 - 4915
    } else {
        spec_beta_coef()[size as int] as int
    };
    let l = spec_ce_loop(
        bytes,
        total,
        size,
        intra,
        bstart,
        bend,
        channels,
        alpha,
        beta,
        st1,
        energy0,
        0,
        0,
        0,
        0,
    );
    (l.0, l.1, l.2, l.3, intra)
}

/// Decodes the per-band, per-channel coarse log-energies, each a Laplace
/// (or narrower fallback) delta folded through the two-dimensional
/// prediction filter.  Energies are Q15 fixed point.
pub struct CoarseEnergy;

impl CoarseEnergy {
    /// One delta read: the Laplace / ICDF / single-bit ladder of one
    /// (band, channel) cell, exactly `spec_ce_delta` of the entry state.
    #[verifier::loop_isolation(false)]
    #[verifier::rlimit(100)]
    #[verifier::spinoff_prover]
    fn decode_delta(range_dec: &mut RangeCodingDecoder, size: usize, intra: bool, band: usize) -> (
        value: i64)
        requires
            old(range_dec).wf(),
            old(range_dec).total_bits() <= 10200,
            old(range_dec).used() <= 0x210000,
            size < 4,
            band < 21,
        ensures
            final(range_dec).wf(),
            final(range_dec).stream() == old(range_dec).stream(),
            final(range_dec).rpos() == old(range_dec).rpos(),
            final(range_dec).total_bits() == old(range_dec).total_bits(),
            final(range_dec).used() <= used_after(old(range_dec).used()),
            ({
                let d = spec_ce_delta(
                    old(range_dec).stream(),
                    old(range_dec).state(),
                    old(range_dec).total_bits(),
                    size as nat,
                    intra,
                    band as int,
                );
                final(range_dec).state() == d.0 && value == d.1
            }),
            -0x8000 <= value <= 0x8000,
    {
        let available = range_dec.available();
        if available >= 15 {
            proof {
                lemma_wf_bounds(range_dec);
            }
            let sy = (coarse_dict(size, intra, 2 * band) as usize) * 128;
            let dc = (coarse_dict(size, intra, 2 * band + 1) as usize) * 64;
            range_dec.laplace(sy, dc as isize) as i64
        } else if available >= 2 {
            proof {
                lemma_wf_bounds(range_dec);
            }
            let model = ICDFContext { total: 4, dist: vec![2, 3, 4] };
            proof {
                assert(model.dist@ =~= seq![2usize, 3usize, 4usize]);
            }
            let v = range_dec.icdf(&model);
            // fold the unsigned symbol into a signed delta
            if v == 0 {
                0
            } else if v == 1 {
                -1
            } else {
                1
            }
        } else if available >= 1 {
            proof {
                lemma_wf_bounds(range_dec);
            }
            if range_dec.logp(1) {
                -1
            } else {
                0
            }
        } else {
            -1
        }
    }

    /// The Q15 prediction filter of one cell: the clamped energy and the
    /// advanced accumulator.
    fn predict(e_old: i64, prev: i64, alpha: i64, beta: i64, value: i64) -> (r: (i64, i64))
        requires
            -0x48000 <= e_old <= 0x7FFF_FFFF,
            -0x10_0000_0000 <= prev <= 0x10_0000_0000,
            0 <= alpha <= 32768,
            0 <= beta <= 32768,
            -0x8000 <= value <= 0x8000,
        ensures
            r.0 == spec_ce_energy(e_old as int, prev as int, alpha as int, value as int),
            r.1 == spec_ce_prev(prev as int, beta as int, value as int),
            -0x48000 <= r.0 <= 0x7FFF_FFFF,
            -0x10_0000_0000 <= r.1 <= 0x10_0000_0000,
    {
        proof {
            assert(-0x48000 * 32768 <= alpha * e_old <= 0x7FFF_FFFF * 32768) by (nonlinear_arith)
                requires
                    0 <= alpha <= 32768,
                    -0x48000 <= e_old <= 0x7FFF_FFFF,
            ;
        }
        let scaled = alpha * e_old;
        let pred = if scaled >= 0 {
            scaled / 32768
        } else {
            -((-scaled) / 32768)
        };
        proof {
            vstd::arithmetic::div_mod::lemma_fundamental_div_mod(scaled as int, 32768);
            if scaled < 0 {
                vstd::arithmetic::div_mod::lemma_fundamental_div_mod((-scaled) as int, 32768);
            }
        }
        let q = pred + prev + value * 32768;
        let e_new = if q < -0x48000 {
            -0x48000
        } else if q > 0x7FFF_FFFF {
            0x7FFF_FFFF
        } else {
            q
        };
        proof {
            assert(-0x8000 * 32768 <= beta * value <= 0x8000 * 32768) by (nonlinear_arith)
                requires
                    0 <= beta <= 32768,
                    -0x8000 <= value <= 0x8000,
            ;
        }
        let p2s = prev + beta * value;
        let p2 = if p2s < -0x10_0000_0000 {
            -0x10_0000_0000
        } else if p2s > 0x10_0000_0000 {
            0x10_0000_0000
        } else {
            p2s
        };
        (e_new, p2)
    }

    #[verifier::loop_isolation(false)]
    #[verifier::rlimit(100)]
    #[verifier::spinoff_prover]
    pub fn decode(dec: &mut CeltFrameDecoder, range_dec: &mut RangeCodingDecoder)
        requires
            old(dec).wf(),
            old(range_dec).wf(),
            old(range_dec).total_bits() <= 10200,
            old(range_dec).used() <= 0x200000,
        ensures
            final(dec).wf(),
            final(dec).band_start == old(dec).band_start,
            final(dec).band_end == old(dec).band_end,
            final(dec).size == old(dec).size,
            final(dec).transient == old(dec).transient,
            final(dec).silence == old(dec).silence,
            final(dec).channels == old(dec).channels,
            final(dec).post_filter == old(dec).post_filter,
            final(dec).caps == old(dec).caps,
            final(dec).band_bits == old(dec).band_bits,
            final(dec).time_frequency_change == old(dec).time_frequency_change,
            final(dec).alloc_trim == old(dec).alloc_trim,
            final(range_dec).wf(),
            final(range_dec).stream() == old(range_dec).stream(),
            final(range_dec).rpos() == old(range_dec).rpos(),
            final(range_dec).total_bits() == old(range_dec).total_bits(),
            final(range_dec).used() <= used_after(old(range_dec).used()) + 30,
            ({
                // the stage is one function of the stream, the entry state
                // and the previous energies
                let ce = spec_ce_stage(
                    old(range_dec).stream(),
                    old(range_dec).state(),
                    old(range_dec).total_bits(),
                    old(dec).size as nat,
                    old(dec).band_start as int,
                    old(dec).band_end as int,
                    old(dec).channels.spec_count() as int,
                    old(dec).energy@,
                );
                &&& final(range_dec).state() == ce.0
                &&& final(dec).energy@ == ce.1
                &&& final(dec).prev_energy@ == seq![ce.2 as i64, ce.3 as i64]
            }),
            forall|c2: int, b2: int|
                0 <= c2 < old(dec).channels.spec_count() && 0 <= b2 < 21 && !(old(dec).band_start
                    <= b2 < old(dec).band_end) ==> #[trigger] final(dec).energy@[c2 * 21 + b2]
                    == 0,
    {
        let ghost u0 = range_dec.used();
        let ghost stream = old(range_dec).stream();
        let ghost st0 = old(range_dec).state();
        let ghost total = old(range_dec).total_bits();
        let ghost bstart = old(dec).band_start as int;
        let ghost bend = old(dec).band_end as int;
        let ghost size_g = old(dec).size as nat;
        let ghost energy0 = old(dec).energy@;
        let ghost ce = spec_ce_stage(
            stream,
            st0,
            total,
            size_g,
            bstart,
            bend,
            old(dec).channels.spec_count() as int,
            energy0,
        );
        // Intra frames drop the inter-frame prediction entirely.
        let intra = if range_dec.available() > 3 {
            proof {
                lemma_wf_bounds(range_dec);
            }
            range_dec.logp(3)
        } else {
            false
        };
        let (alpha, beta): (i64, i64) = if intra {
            (0, 32768 - 4915)
        } else {
            (alpha_coef(dec.size), beta_coef(dec.size))
        };
        let channels = dec.channels.count();
        let ghost chs = channels as int;
        proof {
            assert((ce.0, ce.1, ce.2, ce.3) == spec_ce_loop(
                stream,
                total,
                size_g,
                intra,
                bstart,
                bend,
                chs,
                alpha as int,
                beta as int,
                range_dec.state(),
                energy0,
                0,
                0,
                0,
                0,
            ));
        }
        let mut prev0: i64 = 0;
        let mut prev1: i64 = 0;
        let mut band: usize = 0;
        while band < MAX_BANDS
            invariant
                band <= 21,
                dec.wf(),
                dec.band_start == old(dec).band_start,
                dec.band_end == old(dec).band_end,
                dec.size == old(dec).size,
                dec.transient == old(dec).transient,
                dec.silence == old(dec).silence,
                dec.channels == old(dec).channels,
                dec.post_filter == old(dec).post_filter,
                dec.caps == old(dec).caps,
                dec.band_bits == old(dec).band_bits,
                dec.time_frequency_change == old(dec).time_frequency_change,
                dec.alloc_trim == old(dec).alloc_trim,
                0 <= alpha <= 32768,
                0 <= beta <= 32768,
                1 <= channels <= 2,
                chs == dec.channels.spec_count(),
                -0x10_0000_0000 <= prev0 <= 0x10_0000_0000,
                -0x10_0000_0000 <= prev1 <= 0x10_0000_0000,
                range_dec.wf(),
                range_dec.stream() == stream,
                range_dec.rpos() == old(range_dec).rpos(),
                range_dec.total_bits() == total,
                range_dec.used() <= used_after(u0) + 30,
                (ce.0, ce.1, ce.2, ce.3) == spec_ce_loop(
                    stream,
                    total,
                    size_g,
                    intra,
                    bstart,
                    bend,
                    chs,
                    alpha as int,
                    beta as int,
                    range_dec.state(),
                    dec.energy@,
                    prev0 as int,
                    prev1 as int,
                    band as int,
                    0,
                ),
                forall|c2: int, b2: int|
                    0 <= c2 < chs && 0 <= b2 < band && !(dec.band_start <= b2 < dec.band_end)
                        ==> #[trigger] dec.energy@[c2 * 21 + b2] == 0,
            decreases 21 - band,
        {
            let mut ch: usize = 0;
            while ch < channels
                invariant
                    ch <= channels,
                    band < 21,
                    dec.wf(),
                    dec.band_start == old(dec).band_start,
                    dec.band_end == old(dec).band_end,
                    dec.size == old(dec).size,
                    dec.transient == old(dec).transient,
                    dec.silence == old(dec).silence,
                    dec.channels == old(dec).channels,
                    dec.post_filter == old(dec).post_filter,
                    dec.caps == old(dec).caps,
                    dec.band_bits == old(dec).band_bits,
                    dec.time_frequency_change == old(dec).time_frequency_change,
                    dec.alloc_trim == old(dec).alloc_trim,
                    0 <= alpha <= 32768,
                    0 <= beta <= 32768,
                    1 <= channels <= 2,
                    chs == dec.channels.spec_count(),
                    -0x10_0000_0000 <= prev0 <= 0x10_0000_0000,
                    -0x10_0000_0000 <= prev1 <= 0x10_0000_0000,
                    range_dec.wf(),
                    range_dec.stream() == stream,
                    range_dec.rpos() == old(range_dec).rpos(),
                    range_dec.total_bits() == total,
                    range_dec.used() <= used_after(u0) + 30,
                    (ce.0, ce.1, ce.2, ce.3) == spec_ce_loop(
                        stream,
                        total,
                        size_g,
                        intra,
                        bstart,
                        bend,
                        chs,
                        alpha as int,
                        beta as int,
                        range_dec.state(),
                        dec.energy@,
                        prev0 as int,
                        prev1 as int,
                        band as int,
                        ch as int,
                    ),
                    forall|c2: int, b2: int|
                        0 <= c2 < chs && 0 <= b2 < band && !(dec.band_start <= b2 < dec.band_end)
                            ==> #[trigger] dec.energy@[c2 * 21 + b2] == 0,
                    forall|c2: int|
                        0 <= c2 < ch && !(dec.band_start <= band < dec.band_end)
                            ==> #[trigger] dec.energy@[c2 * 21 + band] == 0,
                decreases channels - ch,
            {
                if !(dec.band_start <= band && band < dec.band_end) {
                    dec.energy.set(ch * 21 + band, 0);
                } else {
                    let value = Self::decode_delta(range_dec, dec.size, intra, band);
                    let e_old = dec.energy[ch * 21 + band];
                    let prev = if ch == 0 {
                        prev0
                    } else {
                        prev1
                    };
                    let up = Self::predict(e_old, prev, alpha, beta, value);
                    dec.energy.set(ch * 21 + band, up.0);
                    if ch == 0 {
                        prev0 = up.1;
                    } else {
                        prev1 = up.1;
                    }
                }
                ch = ch + 1;
            }
            band = band + 1;
        }
        dec.prev_energy.set(0, prev0);
        dec.prev_energy.set(1, prev1);
        proof {
            assert(dec.prev_energy@ =~= seq![ce.2 as i64, ce.3 as i64]);
        }
    }
}

} // verus!
