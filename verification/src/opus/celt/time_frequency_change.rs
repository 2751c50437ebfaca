use vstd::prelude::*;
use crate::opus::entropy::{RangeCodingDecoder, lemma_wf_bounds, spec_avail, spec_logp};
use super::{CeltFrameDecoder, used_after};

verus! {

/// The time-frequency offset table, flattened over
/// (size, transient, select, change), two entries per select row.
pub open spec fn spec_tf_select() -> Seq<i8> {
    seq![
        0i8, -1i8, 0i8, -1i8, 0i8, -1i8, 0i8, -1i8,
        0i8, -1i8, 0i8, -2i8, 1i8, 0i8, 1i8, -1i8,
        0i8, -2i8, 0i8, -3i8, 2i8, 0i8, 1i8, -1i8,
        0i8, -2i8, 0i8, -3i8, 3i8, 0i8, 1i8, -1i8,
    ]
}

/// One cell of the time-frequency offset table.
pub fn tf_select_val(size: usize, transient: bool, sel: usize, change: bool) -> (r: i8)
    requires
        size < 4,
        sel < 2,
    ensures
        r == spec_tf_select()[size * 8 + (if transient {
            4int
        } else {
            0int
        }) + sel * 2 + (if change {
            1int
        } else {
            0int
        })],
        -3 <= r <= 3,
{
    let a: [i8; 32] = [
        0, -1, 0, -1, 0, -1, 0, -1,
        0, -1, 0, -2, 1, 0, 1, -1,
        0, -2, 0, -3, 2, 0, 1, -1,
        0, -2, 0, -3, 3, 0, 1, -1,
    ];
    proof {
        assert(a@ =~= spec_tf_select());
    }
    let t: usize = if transient {
        4
    } else {
        0
    };
    let c: usize = if change {
        1
    } else {
        0
    };
    a[size * 8 + t + sel * 2 + c]
}

/// The per-band toggle chain: one flag per band where the budget allows,
/// XOR-folded into a running `diff` recorded for the band.  Returns the
/// decoder state after the chain, the per-band toggles, the final `diff`,
/// and whether any band toggled.
pub open spec fn spec_tf_flags(
    bytes: Seq<u8>,
    st: (nat, nat, nat, nat),
    total: nat,
    i: int,
    bend: int,
    bits: nat,
    post_bits: nat,
    sel_extra: nat,
    diff: bool,
    change: bool,
) -> ((nat, nat, nat, nat), Seq<bool>, bool, bool)
    decreases bend - i,
{
    if i >= bend {
        (st, Seq::empty(), diff, change)
    } else {
        let read = spec_avail(total, st.3, st.2) > bits + sel_extra;
        let d2 = if read {
            diff ^ spec_logp(bytes, st.0, st.1, st.2, st.3, bits).0
        } else {
            diff
        };
        let st2 = if read {
            spec_logp(bytes, st.0, st.1, st.2, st.3, bits).1
        } else {
            st
        };
        let ch2 = if read {
            change || d2
        } else {
            change
        };
        let rest = spec_tf_flags(
            bytes,
            st2,
            total,
            i + 1,
            bend,
            post_bits,
            post_bits,
            sel_extra,
            d2,
            ch2,
        );
        (rest.0, seq![d2] + rest.1, rest.2, rest.3)
    }
}

/// The whole time-frequency stage as one function of the stream and its
/// entry state: the decoder state afterwards and the per-band offsets.
pub open spec fn spec_tf_stage(
    bytes: Seq<u8>,
    st0: (nat, nat, nat, nat),
    total: nat,
    bstart: int,
    bend: int,
    size: nat,
    transient: bool,
) -> ((nat, nat, nat, nat), Seq<i8>) {
    let bits0: nat = if transient {
        2
    } else {
        4
    };
    let pb: nat = if transient {
        4
    } else {
        5
    };
    let sel_bit = size != 0 && spec_avail(total, st0.3, st0.2) > bits0;
    let se: nat = if sel_bit {
        1
    } else {
        0
    };
    let fl = spec_tf_flags(bytes, st0, total, bstart, bend, bits0, pb, se, false, false);
    let tb: int = if transient {
        4
    } else {
        0
    };
    let chi: int = if fl.3 {
        1
    } else {
        0
    };
    let t0 = spec_tf_select()[size * 8 + tb + chi];
    let t1 = spec_tf_select()[size * 8 + tb + 2 + chi];
    let sel_read = sel_bit && t0 != t1;
    let selv: int = if sel_read && spec_logp(bytes, fl.0.0, fl.0.1, fl.0.2, fl.0.3, 1).0 {
        1
    } else {
        0
    };
    let stf = if sel_read {
        spec_logp(bytes, fl.0.0, fl.0.1, fl.0.2, fl.0.3, 1).1
    } else {
        fl.0
    };
    let vals = Seq::new(
        (bend - bstart) as nat,
        |k: int|
            spec_tf_select()[size * 8 + tb + selv * 2 + (if fl.1[k] {
                1int
            } else {
                0int
            })],
    );
    (stf, vals)
}

/// The toggles currently stored (as 0/1 bytes) for bands `bstart..i`.
pub open spec fn stored_flags(tf: Seq<i8>, bstart: int, i: int) -> Seq<bool> {
    Seq::new((i - bstart) as nat, |k: int| tf[bstart + k] != 0)
}

/// Decodes the per-band time-frequency resolution offsets: a running flag
/// toggled band by band, an optional select bit, then the table lookup.
pub struct TimeFrequencyChange;

impl TimeFrequencyChange {
    /// The toggle chain: one guarded flag read per band, the running XOR
    /// stored as a 0/1 byte.  Returns whether any band toggled.
    #[verifier::loop_isolation(false)]
    #[verifier::rlimit(100)]
    #[verifier::spinoff_prover]
    fn decode_flags(
        dec: &mut CeltFrameDecoder,
        range_dec: &mut RangeCodingDecoder,
        sel_extra: usize,
    ) -> (change: bool)
        requires
            old(dec).wf(),
            old(range_dec).wf(),
            old(range_dec).total_bits() <= 10200,
            old(range_dec).used() <= 0x200000,
            sel_extra <= 1,
        ensures
            final(dec).wf(),
            final(dec).band_start == old(dec).band_start,
            final(dec).band_end == old(dec).band_end,
            final(dec).size == old(dec).size,
            final(dec).transient == old(dec).transient,
            final(dec).silence == old(dec).silence,
            final(dec).channels == old(dec).channels,
            final(dec).post_filter == old(dec).post_filter,
            final(dec).energy == old(dec).energy,
            final(dec).prev_energy == old(dec).prev_energy,
            final(dec).caps == old(dec).caps,
            final(dec).band_bits == old(dec).band_bits,
            final(dec).alloc_trim == old(dec).alloc_trim,
            final(range_dec).wf(),
            final(range_dec).stream() == old(range_dec).stream(),
            final(range_dec).rpos() == old(range_dec).rpos(),
            final(range_dec).total_bits() == old(range_dec).total_bits(),
            final(range_dec).used() <= used_after(old(range_dec).used()),
            ({
                let full = spec_tf_flags(
                    old(range_dec).stream(),
                    old(range_dec).state(),
                    old(range_dec).total_bits(),
                    old(dec).band_start as int,
                    old(dec).band_end as int,
                    (if old(dec).transient {
                        2nat
                    } else {
                        4nat
                    }),
                    (if old(dec).transient {
                        4nat
                    } else {
                        5nat
                    }),
                    sel_extra as nat,
                    false,
                    false,
                );
                &&& final(range_dec).state() == full.0
                &&& change == full.3
                &&& (forall|k: int|
                    old(dec).band_start <= k < old(dec).band_end ==> ((
                    #[trigger] final(dec).time_frequency_change@[k] != 0) == full.1[k - old(
                        dec,
                    ).band_start] && 0 <= final(dec).time_frequency_change@[k] <= 1))
            }),
            forall|k: int|
                0 <= k < 21 && !(old(dec).band_start <= k < old(dec).band_end)
                    ==> #[trigger] final(dec).time_frequency_change@[k]
                    == old(dec).time_frequency_change@[k],
    {
        let ghost u0 = range_dec.used();
        let ghost stream = old(range_dec).stream();
        let ghost st0 = old(range_dec).state();
        let ghost total = old(range_dec).total_bits();
        let ghost bstart = old(dec).band_start as int;
        let ghost bend = old(dec).band_end as int;
        let mut bits: usize = if dec.transient {
            2
        } else {
            4
        };
        let ghost bits0 = bits as nat;
        let ghost pb: nat = if dec.transient {
            4
        } else {
            5
        };
        let ghost full = spec_tf_flags(
            stream,
            st0,
            total,
            bstart,
            bend,
            bits0,
            pb,
            sel_extra as nat,
            false,
            false,
        );
        let mut diff = false;
        let mut change = false;
        let mut i = dec.band_start;
        proof {
            assert(stored_flags(dec.time_frequency_change@, bstart, bstart) + full.1 =~= full.1);
        }
        while i < dec.band_end
            invariant
                dec.band_start <= i <= dec.band_end,
                dec.wf(),
                dec.band_end == old(dec).band_end,
                dec.band_start == old(dec).band_start,
                dec.size == old(dec).size,
                dec.transient == old(dec).transient,
                dec.silence == old(dec).silence,
                dec.channels == old(dec).channels,
                dec.post_filter == old(dec).post_filter,
                dec.energy == old(dec).energy,
                dec.prev_energy == old(dec).prev_energy,
                dec.caps == old(dec).caps,
                dec.band_bits == old(dec).band_bits,
                dec.alloc_trim == old(dec).alloc_trim,
                bits == (if i == dec.band_start {
                    bits0
                } else {
                    pb
                }),
                forall|k: int|
                    0 <= k < 21 && !(dec.band_start <= k < i)
                        ==> #[trigger] dec.time_frequency_change@[k]
                        == old(dec).time_frequency_change@[k],
                forall|k2: int|
                    dec.band_start <= k2 < i ==> 0 <= #[trigger] dec.time_frequency_change@[k2]
                        <= 1,
                range_dec.wf(),
                range_dec.stream() == stream,
                range_dec.rpos() == old(range_dec).rpos(),
                range_dec.total_bits() == total,
                range_dec.used() <= used_after(u0),
                ({
                    let rest = spec_tf_flags(
                        stream,
                        range_dec.state(),
                        total,
                        i as int,
                        bend,
                        bits as nat,
                        pb,
                        sel_extra as nat,
                        diff,
                        change,
                    );
                    full == ((
                        rest.0,
                        stored_flags(dec.time_frequency_change@, bstart, i as int) + rest.1,
                        rest.2,
                        rest.3,
                    ))
                }),
            decreases dec.band_end - i,
        {
            let ghost tf_pre = dec.time_frequency_change@;
            if range_dec.available() > bits + sel_extra {
                proof {
                    lemma_wf_bounds(range_dec);
                }
                let b = range_dec.logp(bits);
                diff = diff ^ b;
                change = change || diff;
            }
            let v: i8 = if diff {
                1
            } else {
                0
            };
            dec.time_frequency_change.set(i, v);
            proof {
                assert(stored_flags(dec.time_frequency_change@, bstart, i + 1) =~= stored_flags(
                    tf_pre,
                    bstart,
                    i as int,
                ).push(diff));
                let rest2 = spec_tf_flags(
                    stream,
                    range_dec.state(),
                    total,
                    i + 1,
                    bend,
                    pb,
                    pb,
                    sel_extra as nat,
                    diff,
                    change,
                );
                assert(stored_flags(tf_pre, bstart, i as int).push(diff) + rest2.1 =~= stored_flags(
                    tf_pre,
                    bstart,
                    i as int,
                ) + (seq![diff] + rest2.1));
            }
            bits = if dec.transient {
                4
            } else {
                5
            };
            i = i + 1;
        }
        proof {
            assert(stored_flags(dec.time_frequency_change@, bstart, bend)
                + Seq::<bool>::empty() =~= stored_flags(dec.time_frequency_change@, bstart, bend));
        }
        change
    }

    /// Decodes the per-band offsets: the toggle chain, the optional select
    /// bit, then the table lookup per band.
    #[verifier::loop_isolation(false)]
    #[verifier::rlimit(100)]
    #[verifier::spinoff_prover]
    pub fn decode(dec: &mut CeltFrameDecoder, range_dec: &mut RangeCodingDecoder)
        requires
            old(dec).wf(),
            old(range_dec).wf(),
            old(range_dec).total_bits() <= 10200,
            old(range_dec).used() <= 0x200000,
        ensures
            final(dec).wf(),
            final(dec).band_start == old(dec).band_start,
            final(dec).band_end == old(dec).band_end,
            final(dec).size == old(dec).size,
            final(dec).transient == old(dec).transient,
            final(dec).silence == old(dec).silence,
            final(dec).channels == old(dec).channels,
            final(dec).post_filter == old(dec).post_filter,
            final(dec).energy == old(dec).energy,
            final(dec).prev_energy == old(dec).prev_energy,
            final(dec).caps == old(dec).caps,
            final(dec).band_bits == old(dec).band_bits,
            final(dec).alloc_trim == old(dec).alloc_trim,
            final(range_dec).wf(),
            final(range_dec).stream() == old(range_dec).stream(),
            final(range_dec).rpos() == old(range_dec).rpos(),
            final(range_dec).total_bits() == old(range_dec).total_bits(),
            final(range_dec).used() <= used_after(old(range_dec).used()) + 30,
            ({
                // the stage is one function of the stream and the entry state
                let tfres = spec_tf_stage(
                    old(range_dec).stream(),
                    old(range_dec).state(),
                    old(range_dec).total_bits(),
                    old(dec).band_start as int,
                    old(dec).band_end as int,
                    old(dec).size as nat,
                    old(dec).transient,
                );
                &&& final(range_dec).state() == tfres.0
                &&& forall|k: int|
                    old(dec).band_start <= k < old(dec).band_end
                        ==> #[trigger] final(dec).time_frequency_change@[k] == tfres.1[k - old(
                        dec,
                    ).band_start]
            }),
            forall|k: int|
                old(dec).band_start <= k < old(dec).band_end ==> -3
                    <= #[trigger] final(dec).time_frequency_change@[k] <= 3,
            forall|k: int|
                0 <= k < 21 && !(old(dec).band_start <= k < old(dec).band_end)
                    ==> #[trigger] final(dec).time_frequency_change@[k]
                    == old(dec).time_frequency_change@[k],
    {
        let ghost u0 = range_dec.used();
        let ghost stream = old(range_dec).stream();
        let ghost st0 = old(range_dec).state();
        let ghost total = old(range_dec).total_bits();
        let ghost bstart = old(dec).band_start as int;
        let ghost bend = old(dec).band_end as int;
        let bits: usize = if dec.transient {
            2
        } else {
            4
        };
        let ghost bits0 = bits as nat;
        let select_bit = dec.size != 0 && range_dec.available() > bits;
        let sel_extra: usize = if select_bit {
            1
        } else {
            0
        };
        let ghost full = spec_tf_flags(
            stream,
            st0,
            total,
            bstart,
            bend,
            bits0,
            (if old(dec).transient {
                4nat
            } else {
                5nat
            }),
            sel_extra as nat,
            false,
            false,
        );
        let change = Self::decode_flags(dec, range_dec, sel_extra);

        // The select bit is read only where it would make a difference.
        let t0 = tf_select_val(dec.size, dec.transient, 0, change);
        let t1 = tf_select_val(dec.size, dec.transient, 1, change);
        let select: usize = if select_bit && t0 != t1 {
            proof {
                lemma_wf_bounds(range_dec);
            }
            if range_dec.logp(1) {
                1
            } else {
                0
            }
        } else {
            0
        };
        let ghost tfres = spec_tf_stage(
            stream,
            st0,
            total,
            bstart,
            bend,
            old(dec).size as nat,
            old(dec).transient,
        );
        let ghost tb: int = if old(dec).transient {
            4
        } else {
            0
        };
        let ghost chi: int = if full.3 {
            1
        } else {
            0
        };
        let ghost sel_read = (old(dec).size != 0 && spec_avail(total, st0.3, st0.2) > bits0) && (
        spec_tf_select()[old(dec).size * 8 + tb + chi] != spec_tf_select()[old(dec).size * 8 + tb
            + 2 + chi]);
        let ghost selv: int = if sel_read && spec_logp(
            stream,
            full.0.0,
            full.0.1,
            full.0.2,
            full.0.3,
            1,
        ).0 {
            1
        } else {
            0
        };
        proof {
            assert(range_dec.state() == tfres.0);
            assert(select == selv);
        }

        // Map each band's toggle through the chosen table row.
        let mut k = dec.band_start;
        while k < dec.band_end
            invariant
                dec.band_start <= k <= dec.band_end,
                dec.wf(),
                dec.band_end == old(dec).band_end,
                dec.band_start == old(dec).band_start,
                dec.size == old(dec).size,
                dec.transient == old(dec).transient,
                dec.silence == old(dec).silence,
                dec.channels == old(dec).channels,
                dec.post_filter == old(dec).post_filter,
                dec.energy == old(dec).energy,
                dec.prev_energy == old(dec).prev_energy,
                dec.caps == old(dec).caps,
                dec.band_bits == old(dec).band_bits,
                dec.alloc_trim == old(dec).alloc_trim,
                select < 2,
                select == selv,
                forall|k2: int|
                    0 <= k2 < 21 && !(dec.band_start <= k2 < dec.band_end)
                        ==> #[trigger] dec.time_frequency_change@[k2]
                        == old(dec).time_frequency_change@[k2],
                forall|k2: int|
                    k <= k2 < dec.band_end ==> ((#[trigger] dec.time_frequency_change@[k2] != 0)
                        == full.1[k2 - bstart]),
                forall|k2: int|
                    dec.band_start <= k2 < k ==> #[trigger] dec.time_frequency_change@[k2]
                        == tfres.1[k2 - bstart],
                forall|k2: int|
                    dec.band_start <= k2 < k ==> -3 <= #[trigger] dec.time_frequency_change@[k2]
                        <= 3,
            decreases dec.band_end - k,
        {
            let flag = dec.time_frequency_change[k] != 0;
            let v = tf_select_val(dec.size, dec.transient, select, flag);
            dec.time_frequency_change.set(k, v);
            k = k + 1;
        }
    }
}

} // verus!
