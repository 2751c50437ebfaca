use vstd::prelude::*;
use vstd::arithmetic::power2::pow2;
use crate::opus::entropy::{
    CONSUMED_LIMIT, ICDFContext, RangeCodingDecoder, lg, pow2_usize, spec_avail, spec_symbol,
    spec_update,
};
use crate::opus::entropy::bits::{le_val, lemma_le_val_bound, lemma_pow2_le};

verus! {

/// Post-filter parameters of one CELT frame: the pitch period and the three
/// filter tap gains, in Q17 fixed point (numerators over 131072).
#[derive(Debug, Clone)]
pub struct PostFilter {
    pub period_new: usize,
    pub gains_new: [u32; 3],
}

impl Default for PostFilter {
    fn default() -> (r: Self)
        ensures
            r.period_new == 0,
            r.gains_new@ =~= seq![0u32, 0u32, 0u32],
    {
        PostFilter { period_new: 0, gains_new: [0, 0, 0] }
    }
}

/// Tap coefficients of the three tapsets, Q12, flattened.
pub open spec fn spec_taps() -> Seq<u32> {
    seq![1256u32, 889, 531, 1900, 1098, 0, 3276, 410, 0]
}

/// The whole post-filter block as one function of the stream and the entry
/// state (the state right after the enable bit): the decoder state after
/// the block, the reverse-stream position, the clamped period, the integer
/// gain `g + 1`, and the tapset the ICDF symbol selects.
pub open spec fn spec_post_filter(
    bytes: Seq<u8>,
    st: (nat, nat, nat, nat),
    rpos: nat,
    total: nat,
) -> ((nat, nat, nat, nat), nat, int, int, int) {
    let o = spec_symbol(st.1, st.2, 6);
    let st1 = spec_update(bytes, st.0, st.1, st.2, st.3, o, (o + 1) as nat, 6);
    let raw = le_val(bytes, rpos, (4 + o) as nat);
    let rpos2 = (rpos + 7 + o) as nat;
    let g = le_val(bytes, (rpos + 4 + o) as nat, 3) + 1;
    let used2 = (st1.3 + 7 + o) as nat;
    let period0 = pow2((o + 4) as nat) + raw - 1;
    let period = if period0 >= 15 {
        period0
    } else {
        15int
    };
    if spec_avail(total, used2, st1.2) >= 2 {
        let symt = spec_symbol(st1.1, st1.2, 4);
        if symt < 2 {
            (spec_update(bytes, st1.0, st1.1, st1.2, used2, 0, 2, 4), rpos2, period, g as int, 0int)
        } else if symt < 3 {
            (spec_update(bytes, st1.0, st1.1, st1.2, used2, 2, 3, 4), rpos2, period, g as int, 1int)
        } else {
            (spec_update(bytes, st1.0, st1.1, st1.2, used2, 3, 4, 4), rpos2, period, g as int, 2int)
        }
    } else {
        ((st1.0, st1.1, st1.2, used2), rpos2, period, g as int, 0int)
    }
}

impl PostFilter {
    /// Shortest admissible pitch period.
    pub const POSTFILTER_MINPERIOD: usize = 15;

    /// Tap coefficients of the three tapsets, Q12.
    fn taps(tapset: usize) -> (r: [u32; 3])
        requires
            tapset < 3,
        ensures
            forall|i: int| 0 <= i < 3 ==> r@[i] == spec_taps()[tapset * 3 + i] && r@[i] <= 3276,
    {
        let a: [u32; 9] = [1256, 889, 531, 1900, 1098, 0, 3276, 410, 0];
        proof {
            assert(a@ =~= spec_taps());
        }
        [a[tapset * 3], a[tapset * 3 + 1], a[tapset * 3 + 2]]
    }

    /// Decodes the post-filter block: a uniform octave, raw fine pitch, a
    /// raw 3-bit gain, and (when bits remain) the tapset.
    pub fn decode(range_dec: &mut RangeCodingDecoder) -> (r: PostFilter)
        requires
            old(range_dec).wf(),
            old(range_dec).used() + 150 <= CONSUMED_LIMIT,
        ensures
            final(range_dec).wf(),
            final(range_dec).stream() == old(range_dec).stream(),
            final(range_dec).total_bits() == old(range_dec).total_bits(),
            old(range_dec).used() <= final(range_dec).used() <= old(range_dec).used() + 140,
            15 <= r.period_new <= 1022,
            forall|i: int| 0 <= i < 3 ==> r.gains_new@[i] <= 78624,
            ({
                // the block is one function of the stream and the entry
                // state: octave, fine pitch, gain, then the selected tapset
                let pf = spec_post_filter(
                    old(range_dec).stream(),
                    old(range_dec).state(),
                    old(range_dec).rpos(),
                    old(range_dec).total_bits(),
                );
                &&& final(range_dec).state() == pf.0
                &&& final(range_dec).rpos() == pf.1
                &&& r.period_new == pf.2
                &&& forall|i: int|
                    0 <= i < 3 ==> #[trigger] r.gains_new@[i] == 3 * pf.3 * spec_taps()[pf.4 * 3
                        + i]
            }),
    {
        let ghost stream = old(range_dec).stream();
        let ghost st0 = old(range_dec).state();
        let ghost rp0 = old(range_dec).rpos();
        let ghost total = old(range_dec).total_bits();
        let ghost pf = spec_post_filter(stream, st0, rp0, total);
        let ghost o = spec_symbol(st0.1, st0.2, 6);
        let ghost st1 = spec_update(stream, st0.0, st0.1, st0.2, st0.3, o, (o + 1) as nat, 6);
        proof {
            assert(lg(1nat) == 0);
            assert(lg(2nat) == 1);
            assert(lg(5nat) == 2);
        }
        // Octaves come uniformly from 0..=5.
        let octave = range_dec.uniform(6);
        proof {
            assert(octave == o && octave <= 5);
            assert(range_dec.state() == st1);
        }

        // Fine pitch: 4 + octave raw bits; the period lands in 15..=1022.
        let ghost rp1 = range_dec.rpos();
        let raw = range_dec.rawbits(4 + octave);
        let base = pow2_usize(octave + 4);
        proof {
            lemma_le_val_bound(stream, rp1, (4 + octave) as nat);
            lemma_pow2_le(4, (octave + 4) as nat);
            lemma_pow2_le((octave + 4) as nat, 9);
            vstd::arithmetic::power2::lemma2_to64();
        }
        let period0 = base + raw - 1;
        let period = if period0 < 15 {
            15
        } else {
            period0
        };

        // The gain is three raw bits: G = 3 * (g + 1) / 32.
        let ghost rp2 = range_dec.rpos();
        let gain_raw = range_dec.rawbits(3);
        proof {
            lemma_le_val_bound(stream, rp2, 3);
            vstd::arithmetic::power2::lemma2_to64();
            assert(gain_raw < 8);
            assert(range_dec.used() == (st1.3 + 7 + o) as nat);
            assert(range_dec.rpos() == pf.1);
            assert(range_dec.rng() == st1.2 && range_dec.val() == st1.1 && range_dec.fpos()
                == st1.0);
        }
        let int_gain = gain_raw + 1;

        // The tapset uses the distribution {2, 1, 1}/4 when bits remain.
        let ghost used2 = range_dec.used();
        let tapset = if range_dec.available() >= 2 {
            let model = ICDFContext { total: 4, dist: vec![2, 3, 4] };
            proof {
                assert(model.dist@ =~= seq![2usize, 3usize, 4usize]);
                assert(spec_avail(total, used2, st1.2) >= 2);
            }
            let v = range_dec.icdf(&model);
            proof {
                let symt = spec_symbol(st1.1, st1.2, 4);
                if symt < 2 {
                    assert(v == 0);
                } else if symt < 3 {
                    assert(v == 1);
                } else {
                    assert(v == 2);
                }
                assert(range_dec.state() == pf.0);
            }
            v
        } else {
            proof {
                assert(!(spec_avail(total, used2, st1.2) >= 2));
                assert(range_dec.state() == pf.0);
            }
            0
        };
        proof {
            assert(tapset == pf.4);
        }
        let t = Self::taps(tapset);
        proof {
            assert forall|i: int| 0 <= i < 3 implies 3 * (int_gain as int) * (t@[i] as int)
                <= 78624 by {
                assert(3 * (int_gain as int) * (t@[i] as int) <= 78624) by (nonlinear_arith)
                    requires
                        1 <= int_gain <= 8,
                        0 <= t@[i] <= 3276,
                ;
            }
        }
        let gains: [u32; 3] = [
            3 * (int_gain as u32) * t[0],
            3 * (int_gain as u32) * t[1],
            3 * (int_gain as u32) * t[2],
        ];
        proof {
            assert(int_gain == pf.3);
            assert(forall|i: int|
                0 <= i < 3 ==> #[trigger] gains@[i] == 3 * pf.3 * spec_taps()[pf.4 * 3 + i]);
        }
        PostFilter { period_new: period, gains_new: gains }
    }
}

} // verus!
