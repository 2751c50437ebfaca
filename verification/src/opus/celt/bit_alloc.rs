use vstd::prelude::*;
use vstd::arithmetic::power2::pow2;
use vstd::arithmetic::div_mod::{lemma_fundamental_div_mod, lemma_fundamental_div_mod_converse};
use crate::opus::entropy::{
    ICDFContext, RangeCodingDecoder, lemma_wf_bounds, pow2_usize, spec_avail, spec_logp,
    spec_symbol, spec_tell_frac, spec_update,
};
use crate::opus::toc::TableOfContents;
use super::{CeltFrameDecoder, freq_range, spec_freq_range, used_after};

verus! {

/// Number of rows in the static allocation table.
pub const VECTORS: usize = 11;

/// How far the spectrum is spread before rotation, decoded per frame.
#[derive(Debug, Clone, Copy, PartialEq, Eq, Structural)]
pub enum Spread {
    Light,
    Normal,
    Aggressive,
}

/// Static per-band caps, flattened over (size, channels-1, band).
pub open spec fn spec_static_caps() -> Seq<u8> {
    seq![
        224u8, 224, 224, 224, 224, 224, 224, 224, 160, 160, 160, 160, 185, 185, 185, 178, 178,
        168, 134, 61, 37,
        224, 224, 224, 224, 224, 224, 224, 224, 240, 240, 240, 240, 207, 207, 207, 198, 198,
        183, 144, 66, 40,
        160, 160, 160, 160, 160, 160, 160, 160, 185, 185, 185, 185, 193, 193, 193, 183, 183,
        172, 138, 64, 38,
        240, 240, 240, 240, 240, 240, 240, 240, 207, 207, 207, 207, 204, 204, 204, 193, 193,
        180, 143, 66, 40,
        185, 185, 185, 185, 185, 185, 185, 185, 193, 193, 193, 193, 193, 193, 193, 183, 183,
        172, 138, 65, 39,
        207, 207, 207, 207, 207, 207, 207, 207, 204, 204, 204, 204, 201, 201, 201, 188, 188,
        176, 141, 66, 40,
        193, 193, 193, 193, 193, 193, 193, 193, 193, 193, 193, 193, 194, 194, 194, 184, 184,
        173, 139, 65, 39,
        204, 204, 204, 204, 204, 204, 204, 204, 201, 201, 201, 201, 198, 198, 198, 187, 187,
        175, 140, 66, 40,
    ]
}

/// One cell of the static caps table.
fn static_caps_tab(size: usize, chm1: usize, i: usize) -> (r: u8)
    requires
        size < 4,
        chm1 < 2,
        i < 21,
    ensures
        r == spec_static_caps()[size * 42 + chm1 * 21 + i],
{
    let a: [u8; 168] = [
        224, 224, 224, 224, 224, 224, 224, 224, 160, 160, 160, 160, 185, 185, 185, 178, 178,
        168, 134, 61, 37,
        224, 224, 224, 224, 224, 224, 224, 224, 240, 240, 240, 240, 207, 207, 207, 198, 198,
        183, 144, 66, 40,
        160, 160, 160, 160, 160, 160, 160, 160, 185, 185, 185, 185, 193, 193, 193, 183, 183,
        172, 138, 64, 38,
        240, 240, 240, 240, 240, 240, 240, 240, 207, 207, 207, 207, 204, 204, 204, 193, 193,
        180, 143, 66, 40,
        185, 185, 185, 185, 185, 185, 185, 185, 193, 193, 193, 193, 193, 193, 193, 183, 183,
        172, 138, 65, 39,
        207, 207, 207, 207, 207, 207, 207, 207, 204, 204, 204, 204, 201, 201, 201, 188, 188,
        176, 141, 66, 40,
        193, 193, 193, 193, 193, 193, 193, 193, 193, 193, 193, 193, 194, 194, 194, 184, 184,
        173, 139, 65, 39,
        204, 204, 204, 204, 204, 204, 204, 204, 201, 201, 201, 201, 198, 198, 198, 187, 187,
        175, 140, 66, 40,
    ];
    proof {
        assert(a@ =~= spec_static_caps());
    }
    a[size * 42 + chm1 * 21 + i]
}

/// The static allocation table: 11 quality rows of 21 per-band values, in
/// 1/32 bit per sample.
pub open spec fn spec_static_alloc() -> Seq<u8> {
    seq![
        0u8, 0, 0, 0, 0, 0, 0, 0, 0, 0, 0, 0, 0, 0, 0, 0, 0, 0, 0, 0, 0,
        90, 80, 75, 69, 63, 56, 49, 40, 34, 29, 20, 18, 10, 0, 0, 0, 0, 0, 0, 0, 0,
        110, 100, 90, 84, 78, 71, 65, 58, 51, 45, 39, 32, 26, 20, 12, 0, 0, 0, 0, 0, 0,
        118, 110, 103, 93, 86, 80, 75, 70, 65, 59, 53, 47, 40, 31, 23, 15, 4, 0, 0, 0, 0,
        126, 119, 112, 104, 95, 89, 83, 78, 72, 66, 60, 54, 47, 39, 32, 25, 17, 12, 1, 0, 0,
        134, 127, 120, 114, 103, 97, 91, 85, 78, 72, 66, 60, 54, 47, 41, 35, 29, 23, 16, 10, 1,
        144, 137, 130, 124, 113, 107, 101, 95, 88, 82, 76, 70, 64, 57, 51, 45, 39, 33, 26, 15,
        1,
        152, 145, 138, 132, 123, 117, 111, 105, 98, 92, 86, 80, 74, 67, 61, 55, 49, 43, 36, 20,
        1,
        162, 155, 148, 142, 133, 127, 121, 115, 108, 102, 96, 90, 84, 77, 71, 65, 59, 53, 46,
        30, 1,
        172, 165, 158, 152, 143, 137, 131, 125, 118, 112, 106, 100, 94, 87, 81, 75, 69, 63, 56,
        45, 20,
        200, 200, 200, 200, 200, 200, 200, 200, 198, 193, 188, 183, 178, 173, 168, 163, 158,
        153, 148, 129, 104,
    ]
}

/// One cell of the static allocation table.
fn static_alloc_tab(row: usize, i: usize) -> (r: u8)
    requires
        row < 11,
        i < 21,
    ensures
        r == spec_static_alloc()[row * 21 + i],
{
    let a: [u8; 231] = [
        0, 0, 0, 0, 0, 0, 0, 0, 0, 0, 0, 0, 0, 0, 0, 0, 0, 0, 0, 0, 0,
        90, 80, 75, 69, 63, 56, 49, 40, 34, 29, 20, 18, 10, 0, 0, 0, 0, 0, 0, 0, 0,
        110, 100, 90, 84, 78, 71, 65, 58, 51, 45, 39, 32, 26, 20, 12, 0, 0, 0, 0, 0, 0,
        118, 110, 103, 93, 86, 80, 75, 70, 65, 59, 53, 47, 40, 31, 23, 15, 4, 0, 0, 0, 0,
        126, 119, 112, 104, 95, 89, 83, 78, 72, 66, 60, 54, 47, 39, 32, 25, 17, 12, 1, 0, 0,
        134, 127, 120, 114, 103, 97, 91, 85, 78, 72, 66, 60, 54, 47, 41, 35, 29, 23, 16, 10, 1,
        144, 137, 130, 124, 113, 107, 101, 95, 88, 82, 76, 70, 64, 57, 51, 45, 39, 33, 26, 15,
        1,
        152, 145, 138, 132, 123, 117, 111, 105, 98, 92, 86, 80, 74, 67, 61, 55, 49, 43, 36, 20,
        1,
        162, 155, 148, 142, 133, 127, 121, 115, 108, 102, 96, 90, 84, 77, 71, 65, 59, 53, 46,
        30, 1,
        172, 165, 158, 152, 143, 137, 131, 125, 118, 112, 106, 100, 94, 87, 81, 75, 69, 63, 56,
        45, 20,
        200, 200, 200, 200, 200, 200, 200, 200, 198, 193, 188, 183, 178, 173, 168, 163, 158,
        153, 148, 129, 104,
    ];
    proof {
        assert(a@ =~= spec_static_alloc());
    }
    a[row * 21 + i]
}

/// `floor(log2(n))` in eighth bits, for the intensity-stereo reservation.
pub open spec fn spec_log2_frac() -> Seq<u8> {
    seq![
        0u8, 8, 13, 16, 19, 21, 23, 24, 26, 27, 28, 29, 30, 31, 32, 32, 33, 34, 34, 35, 36, 36,
        37, 37,
    ]
}

/// One cell of the fractional-log table.
fn log2_frac_tab(i: usize) -> (r: u8)
    requires
        i < 24,
    ensures
        r == spec_log2_frac()[i as int],
{
    let a: [u8; 24] = [
        0, 8, 13, 16, 19, 21, 23, 24, 26, 27, 28, 29, 30, 31, 32, 32, 33, 34, 34, 35, 36, 36,
        37, 37,
    ];
    proof {
        assert(a@ =~= spec_log2_frac());
    }
    a[i]
}

// ---------------------------------------------------------------------------
// The pure allocation arithmetic, stated exactly.
// ---------------------------------------------------------------------------

/// The hard cap of band `i`: the static cap plus 64, scaled by the band
/// width, the channel count and the frame size.
pub open spec fn spec_cap(size: nat, ch: nat, i: int) -> int {
    ((spec_static_caps()[size * 42 + (ch - 1) * 21 + i] + 64) * spec_freq_range()[i]) * pow2(
        ((ch - 1) + size) as nat,
    ) / 4
}

/// The minimum allocation below which band `i` is skipped.
pub open spec fn spec_threshold(size: nat, ch: nat, i: int) -> int {
    let a = 3 * spec_freq_range()[i] * pow2((size + 3) as nat) / 16;
    let b = (ch * 8) as int;
    if a >= b {
        a
    } else {
        b
    }
}

/// The allocation-trim correction of band `i`, in eighth bits.
pub open spec fn spec_trim_offset(size: nat, ch: nat, trim: int, bend: int, i: int) -> int {
    let band = spec_freq_range()[i] * (bend - i - 1);
    let base = (trim - 5 - size) * (band * pow2((size + 3 + (ch - 1)) as nat)) / 64;
    if spec_freq_range()[i] * pow2(size) == 1 {
        base - ch * 8
    } else {
        base
    }
}

/// The raw bits row `row` grants band `i`, trim-corrected and boosted.
pub open spec fn spec_band_bits(
    size: nat,
    ch: nat,
    trim: int,
    bend: int,
    row: int,
    i: int,
    boost_i: int,
) -> int {
    let base = (spec_freq_range()[i] * spec_static_alloc()[row * 21 + i]) * pow2(
        ((ch - 1) + size) as nat,
    ) / 4;
    let adj = if base > 0 {
        let t = base + spec_trim_offset(size, ch, trim, bend, i);
        if t >= 0 {
            t
        } else {
            0
        }
    } else {
        base
    };
    adj + boost_i
}

/// The total allocation of row `row` over bands `bstart..=i`, walked from
/// the top down with the sticky `done` flag: a band below its threshold is
/// skipped (or held at the conditional floor) until some higher band has
/// reached its threshold.
pub open spec fn spec_alloc_total(
    size: nat,
    ch: nat,
    trim: int,
    bstart: int,
    boost: Seq<i64>,
    caps: Seq<i64>,
    bend: int,
    row: int,
    i: int,
    done: bool,
) -> int
    decreases i - bstart + 1,
{
    if i < bstart {
        0
    } else {
        let bb = spec_band_bits(size, ch, trim, bend, row, i, boost[i] as int);
        let thr = spec_threshold(size, ch, i);
        if bb >= thr || done {
            (if bb <= caps[i] {
                bb
            } else {
                caps[i] as int
            }) + spec_alloc_total(size, ch, trim, bstart, boost, caps, bend, row, i - 1, true)
        } else if bb >= ch * 8 {
            ch * 8 + spec_alloc_total(size, ch, trim, bstart, boost, caps, bend, row, i - 1, done)
        } else {
            spec_alloc_total(size, ch, trim, bstart, boost, caps, bend, row, i - 1, done)
        }
    }
}

/// The whole-row total the bisection compares against the budget.
pub open spec fn spec_row_total(
    size: nat,
    ch: nat,
    trim: int,
    bstart: int,
    bend: int,
    boost: Seq<i64>,
    caps: Seq<i64>,
    row: int,
) -> int {
    spec_alloc_total(size, ch, trim, bstart, boost, caps, bend, row, bend - 1, false)
}

/// The bisection itself, mirrored: probe the middle row, move the bound
/// the total dictates, land one row under the final `low`.
pub open spec fn spec_bisect(
    size: nat,
    ch: nat,
    trim: int,
    bstart: int,
    bend: int,
    boost: Seq<i64>,
    caps: Seq<i64>,
    budget: int,
    lo: int,
    hi: int,
) -> int
    decreases hi + 1 - lo,
{
    if lo > hi {
        lo - 1
    } else {
        let c = (lo + hi) / 2;
        if spec_row_total(size, ch, trim, bstart, bend, boost, caps, c) > budget {
            spec_bisect(size, ch, trim, bstart, bend, boost, caps, budget, lo, c - 1)
        } else {
            spec_bisect(size, ch, trim, bstart, bend, boost, caps, budget, c + 1, hi)
        }
    }
}

/// The row the bisection lands on.
pub open spec fn spec_alloc_row(
    size: nat,
    ch: nat,
    trim: int,
    bstart: int,
    bend: int,
    boost: Seq<i64>,
    caps: Seq<i64>,
    budget: int,
) -> int {
    spec_bisect(size, ch, trim, bstart, bend, boost, caps, budget, 1, 10)
}

/// The spread decision and its state change: the ICDF decode over
/// `{32, [7, 9, 30, 32]}` when more than four bits remain, else the
/// default with no read.
pub open spec fn spec_spread(bytes: Seq<u8>, st: (nat, nat, nat, nat), total: nat) -> (
    Option<Spread>,
    (nat, nat, nat, nat),
) {
    if spec_avail(total, st.3, st.2) > 4 {
        let sym = spec_symbol(st.1, st.2, 32);
        if sym < 7 {
            (None, spec_update(bytes, st.0, st.1, st.2, st.3, 0, 7, 32))
        } else if sym < 9 {
            (Some(Spread::Light), spec_update(bytes, st.0, st.1, st.2, st.3, 7, 9, 32))
        } else if sym < 30 {
            (Some(Spread::Normal), spec_update(bytes, st.0, st.1, st.2, st.3, 9, 30, 32))
        } else {
            (Some(Spread::Aggressive), spec_update(bytes, st.0, st.1, st.2, st.3, 30, 32, 32))
        }
    } else {
        (Some(Spread::Normal), st)
    }
}

/// The fractional bit count, clamped below at zero (it is never negative
/// for a well-formed decoder).
pub open spec fn spec_tfrac(st: (nat, nat, nat, nat)) -> int {
    let t = spec_tell_frac(st.3, st.2);
    if t >= 0 {
        t
    } else {
        0
    }
}

/// The boost acceptance loop of one band: each accepted flag adds one
/// quantum to the boost, charges it to the budget (saturating), and drops
/// the per-band cost to one.
pub open spec fn spec_boost_inner(
    bytes: Seq<u8>,
    st: (nat, nat, nat, nat),
    tbits: nat,
    bd: nat,
    boost_i: int,
    cap: int,
    quanta: nat,
) -> ((nat, nat, nat, nat), nat, int)
    decreases tbits,
{
    if quanta >= 1 && 1 <= bd <= 15 && spec_tfrac(st) + bd * 8 < tbits && boost_i < cap {
        let l = spec_logp(bytes, st.0, st.1, st.2, st.3, bd);
        if l.0 {
            let tbits2: nat = if tbits >= quanta {
                (tbits - quanta) as nat
            } else {
                0
            };
            spec_boost_inner(bytes, l.1, tbits2, 1, boost_i + quanta, cap, quanta)
        } else {
            (l.1, tbits, boost_i)
        }
    } else {
        (st, tbits, boost_i)
    }
}

/// The boost pass over the band window: per band a quantum is sized, the
/// acceptance loop runs, and one acceptance lowers the global cost, floored
/// at two.
pub open spec fn spec_boost_bands(
    bytes: Seq<u8>,
    size: nat,
    ch: int,
    bstart: int,
    bend: int,
    caps: Seq<i64>,
    st: (nat, nat, nat, nat),
    tbits: nat,
    dy: nat,
    i: int,
    boost: Seq<i64>,
) -> ((nat, nat, nat, nat), nat, nat, Seq<i64>)
    decreases bend - i,
{
    if i < bstart || i >= bend || i >= 21 {
        (st, tbits, dy, boost)
    } else {
        let it = spec_freq_range()[i] * pow2(((ch - 1) + size) as nat);
        let q1 = 8 * it;
        let q2 = if it >= 48 {
            it
        } else {
            48int
        };
        let quanta = if q1 <= q2 {
            q1
        } else {
            q2
        };
        let r = spec_boost_inner(bytes, st, tbits, dy, 0, caps[i] as int, quanta as nat);
        let dy2: nat = if r.2 > 0 {
            if dy >= 3 {
                (dy - 1) as nat
            } else {
                2
            }
        } else {
            dy
        };
        spec_boost_bands(
            bytes,
            size,
            ch,
            bstart,
            bend,
            caps,
            r.0,
            r.1,
            dy2,
            i + 1,
            boost.update(i, r.2 as i64),
        )
    }
}

/// The allocation trim and its state change: the ICDF decode over the
/// cumulative trim model when six more bits fit the budget, else the
/// default five with no read.
pub open spec fn spec_trim(bytes: Seq<u8>, st: (nat, nat, nat, nat), tbits: nat) -> (
    int,
    (nat, nat, nat, nat),
) {
    if spec_tfrac(st) + 48 <= tbits {
        let sym = spec_symbol(st.1, st.2, 128);
        if sym < 2 {
            (0, spec_update(bytes, st.0, st.1, st.2, st.3, 0, 2, 128))
        } else if sym < 4 {
            (1, spec_update(bytes, st.0, st.1, st.2, st.3, 2, 4, 128))
        } else if sym < 9 {
            (2, spec_update(bytes, st.0, st.1, st.2, st.3, 4, 9, 128))
        } else if sym < 19 {
            (3, spec_update(bytes, st.0, st.1, st.2, st.3, 9, 19, 128))
        } else if sym < 41 {
            (4, spec_update(bytes, st.0, st.1, st.2, st.3, 19, 41, 128))
        } else if sym < 87 {
            (5, spec_update(bytes, st.0, st.1, st.2, st.3, 41, 87, 128))
        } else if sym < 109 {
            (6, spec_update(bytes, st.0, st.1, st.2, st.3, 87, 109, 128))
        } else if sym < 119 {
            (7, spec_update(bytes, st.0, st.1, st.2, st.3, 109, 119, 128))
        } else if sym < 124 {
            (8, spec_update(bytes, st.0, st.1, st.2, st.3, 119, 124, 128))
        } else if sym < 126 {
            (9, spec_update(bytes, st.0, st.1, st.2, st.3, 124, 126, 128))
        } else {
            (10, spec_update(bytes, st.0, st.1, st.2, st.3, 126, 128, 128))
        }
    } else {
        (5, st)
    }
}

/// The reservations, in order: anti-collapse, band skip, intensity stereo,
/// dual stereo; each subtracted only when it fits.  Returns
/// (anticollapse, the remaining budget clamped at zero).
pub open spec fn spec_reservations(
    st: (nat, nat, nat, nat),
    total: nat,
    transient: bool,
    size: nat,
    ch: int,
    bands: int,
) -> (int, int) {
    let t0 = 8 * total - spec_tell_frac(st.3, st.2) - 1;
    let anti: int = if transient && size >= 2 && t0 >= (size + 2) * 8 {
        8
    } else {
        0
    };
    let t1 = t0 - anti;
    let t2 = if t1 >= 8 {
        t1 - 8
    } else {
        t1
    };
    let t3 = if ch == 2 {
        let inten = spec_log2_frac()[bands] as int;
        if inten <= t2 {
            if t2 - inten >= 8 {
                t2 - inten - 8
            } else {
                t2 - inten
            }
        } else {
            t2
        }
    } else {
        t2
    };
    (anti, if t3 >= 0 {
        t3
    } else {
        0
    })
}

/// Whether some band above `i` in the window has reached its threshold at
/// this row: the sticky `done` flag of the top-down walk, at band `i`.
pub open spec fn spec_done_above(
    size: nat,
    ch: nat,
    trim: int,
    bend: int,
    row: int,
    boost: Seq<i64>,
    i: int,
) -> bool {
    exists|k: int|
        i < k < bend && #[trigger] spec_band_bits(size, ch, trim, bend, row, k, boost[k] as int)
            >= spec_threshold(size, ch, k)
}

/// The bits band `i` is granted at `row`: capped when it (or a band above)
/// reached the threshold, the conditional floor when it affords it, else
/// nothing.
pub open spec fn spec_granted(
    size: nat,
    ch: nat,
    trim: int,
    bend: int,
    row: int,
    boost: Seq<i64>,
    caps: Seq<i64>,
    i: int,
) -> int {
    let bb = spec_band_bits(size, ch, trim, bend, row, i, boost[i] as int);
    if bb >= spec_threshold(size, ch, i) || spec_done_above(size, ch, trim, bend, row, boost, i) {
        if bb <= caps[i] {
            bb
        } else {
            caps[i] as int
        }
    } else if bb >= ch * 8 {
        (ch * 8) as int
    } else {
        0
    }
}

/// Floor division by 64 (the `>> 6` of the trim correction).
fn floor_div64(x: i64) -> (r: i64)
    requires
        -0x4000_0000 <= x <= 0x4000_0000,
    ensures
        r == x as int / 64,
{
    if x >= 0 {
        proof {
            lemma_fundamental_div_mod(x as int, 64);
        }
        ((x as usize) / 64) as i64
    } else {
        let m = (((-x) as usize) + 63) / 64;
        proof {
            lemma_fundamental_div_mod((-x) as int + 63, 64);
            lemma_fundamental_div_mod_converse(x as int, 64, -(m as int), x + 64 * (m as int));
        }
        -(m as i64)
    }
}

/// The per-band hard caps.
pub fn compute_caps(size: usize, channels: usize) -> (r: Vec<i64>)
    requires
        size <= 3,
        1 <= channels <= 2,
    ensures
        r@.len() == 21,
        forall|i: int|
            0 <= i < 21 ==> #[trigger] r@[i] == spec_cap(size as nat, channels as nat, i) && 0
                <= r@[i] <= 30000,
{
    let mut r: Vec<i64> = Vec::new();
    let m = pow2_usize(channels - 1 + size);
    proof {
        crate::opus::entropy::bits::lemma_pow2_le((channels - 1 + size) as nat, 4);
        vstd::arithmetic::power2::lemma2_to64();
    }
    let mut i: usize = 0;
    while i < 21
        invariant
            i <= 21,
            r@.len() == i,
            size <= 3,
            1 <= channels <= 2,
            m == pow2((channels - 1 + size) as nat),
            m <= 16,
            forall|k: int|
                0 <= k < i ==> #[trigger] r@[k] == spec_cap(size as nat, channels as nat, k) && 0
                    <= r@[k] <= 30000,
        decreases 21 - i,
    {
        let c = static_caps_tab(size, channels - 1, i);
        let fr = freq_range(i);
        proof {
            assert((c as int + 64) * (fr as int) <= 7018) by (nonlinear_arith)
                requires
                    c <= 255,
                    1 <= fr <= 22,
            ;
        }
        let base = (c as usize + 64) * (fr as usize);
        proof {
            assert(base * m <= 7018 * 16) by (nonlinear_arith)
                requires
                    0 <= base <= 7018,
                    0 <= m <= 16,
            ;
        }
        let v = base * m / 4;
        r.push(v as i64);
        i = i + 1;
    }
    r
}

/// The skip threshold of one band.
fn threshold_val(size: usize, channels: usize, i: usize) -> (r: i64)
    requires
        size <= 3,
        1 <= channels <= 2,
        i < 21,
    ensures
        r == spec_threshold(size as nat, channels as nat, i as int),
        0 <= r <= 300,
{
    let fr = freq_range(i) as usize;
    let m = pow2_usize(size + 3);
    proof {
        crate::opus::entropy::bits::lemma_pow2_le((size + 3) as nat, 6);
        vstd::arithmetic::power2::lemma2_to64();
    }
    proof {
        assert(3 * fr * m <= 4224) by (nonlinear_arith)
            requires
                1 <= fr <= 22,
                0 <= m <= 64,
        ;
    }
    let a = 3 * fr * m / 16;
    let b = channels * 8;
    if a >= b {
        a as i64
    } else {
        b as i64
    }
}

/// The trim correction of one band.
fn trim_offset_val(size: usize, channels: usize, trim: usize, bend: usize, i: usize) -> (r: i64)
    requires
        size <= 3,
        1 <= channels <= 2,
        trim <= 10,
        i < bend <= 21,
    ensures
        r == spec_trim_offset(size as nat, channels as nat, trim as int, bend as int, i as int),
        -8000 <= r <= 8000,
{
    let fr = freq_range(i) as usize;
    proof {
        assert(fr * (bend - i - 1) <= 440) by (nonlinear_arith)
            requires
                1 <= fr <= 22,
                0 <= bend - i - 1 <= 20,
        ;
    }
    let band = fr * (bend - i - 1);
    let m = pow2_usize(size + 3 + channels - 1);
    proof {
        crate::opus::entropy::bits::lemma_pow2_le((size + 3 + channels - 1) as nat, 7);
        vstd::arithmetic::power2::lemma2_to64();
        assert(band * m <= 56320) by (nonlinear_arith)
            requires
                0 <= band <= 440,
                0 <= m <= 128,
        ;
    }
    let tv: i64 = trim as i64 - 5 - size as i64;
    proof {
        assert(-8 * 56320 <= tv * ((band * m) as int) <= 5 * 56320) by (nonlinear_arith)
            requires
                -8 <= tv <= 5,
                0 <= band * m <= 56320,
        ;
    }
    let num: i64 = tv * ((band * m) as i64);
    let base = floor_div64(num);
    let msz = pow2_usize(size);
    proof {
        crate::opus::entropy::bits::lemma_pow2_le(size as nat, 3);
        vstd::arithmetic::power2::lemma2_to64();
        assert(fr * msz <= 176) by (nonlinear_arith)
            requires
                1 <= fr <= 22,
                0 <= msz <= 8,
        ;
    }
    if fr * msz == 1 {
        base - (channels * 8) as i64
    } else {
        base
    }
}

/// The boosted, trim-corrected allocation row value of one band.
fn band_bits_val(
    size: usize,
    channels: usize,
    trim: usize,
    bend: usize,
    row: usize,
    i: usize,
    boost_i: i64,
) -> (r: i64)
    requires
        size <= 3,
        1 <= channels <= 2,
        trim <= 10,
        i < bend <= 21,
        row < 11,
        0 <= boost_i <= 0x10_0000,
    ensures
        r == spec_band_bits(
            size as nat,
            channels as nat,
            trim as int,
            bend as int,
            row as int,
            i as int,
            boost_i as int,
        ),
        0 <= r <= 0x20_0000,
{
    let fr = freq_range(i) as usize;
    let al = static_alloc_tab(row, i) as usize;
    let m = pow2_usize(channels - 1 + size);
    proof {
        crate::opus::entropy::bits::lemma_pow2_le((channels - 1 + size) as nat, 4);
        vstd::arithmetic::power2::lemma2_to64();
        assert(fr * al <= 5610 && (fr * al) * m <= 89760) by (nonlinear_arith)
            requires
                1 <= fr <= 22,
                0 <= al <= 255,
                0 <= m <= 16,
        ;
    }
    let base = (fr * al) * m / 4;
    let adj: i64 = if base > 0 {
        let t = base as i64 + trim_offset_val(size, channels, trim, bend, i);
        if t >= 0 {
            t
        } else {
            0
        }
    } else {
        base as i64
    };
    adj + boost_i
}

/// The row total of the sticky top-down walk.
#[verifier::loop_isolation(false)]
fn alloc_total(
    size: usize,
    channels: usize,
    trim: usize,
    bstart: usize,
    bend: usize,
    boost: &Vec<i64>,
    caps: &Vec<i64>,
    row: usize,
) -> (r: i64)
    requires
        size <= 3,
        1 <= channels <= 2,
        trim <= 10,
        bstart <= bend <= 21,
        row < 11,
        boost@.len() == 21,
        caps@.len() == 21,
        forall|k: int| 0 <= k < 21 ==> 0 <= #[trigger] boost@[k] <= 0x10_0000,
        forall|k: int| 0 <= k < 21 ==> 0 <= #[trigger] caps@[k] <= 30000,
    ensures
        r == spec_row_total(
            size as nat,
            channels as nat,
            trim as int,
            bstart as int,
            bend as int,
            boost@,
            caps@,
            row as int,
        ),
        0 <= r <= 0x800_0000,
{
    let mut total: i64 = 0;
    let mut done = false;
    let mut i = bend;
    while i > bstart
        invariant
            bstart <= i <= bend,
            0 <= total <= 0x40_0000 * (bend - i),
            spec_alloc_total(
                size as nat,
                channels as nat,
                trim as int,
                bstart as int,
                boost@,
                caps@,
                bend as int,
                row as int,
                bend - 1,
                false,
            ) == total + spec_alloc_total(
                size as nat,
                channels as nat,
                trim as int,
                bstart as int,
                boost@,
                caps@,
                bend as int,
                row as int,
                i - 1,
                done,
            ),
        decreases i,
    {
        let b = i - 1;
        let bb = band_bits_val(size, channels, trim, bend, row, b, boost[b]);
        let thr = threshold_val(size, channels, b);
        if bb >= thr || done {
            done = true;
            let c = caps[b];
            total = total + (if bb <= c {
                bb
            } else {
                c
            });
        } else if bb >= (channels * 8) as i64 {
            total = total + (channels * 8) as i64;
        }
        i = b;
    }
    total
}

/// The bisection over the static allocation table: finds the highest row
/// the budget admits, then lays out the per-band allotments of that row.
/// Returns `(row, per-band bits, the row's total)`.
#[verifier::loop_isolation(false)]
pub fn compute_allocation(
    size: usize,
    channels: usize,
    bstart: usize,
    bend: usize,
    boost: &Vec<i64>,
    alloc_trim: usize,
    tbits_8ths: i64,
) -> (r: (usize, Vec<i64>, i64))
    requires
        size <= 3,
        1 <= channels <= 2,
        alloc_trim <= 10,
        bstart <= bend <= 21,
        boost@.len() == 21,
        forall|k: int| 0 <= k < 21 ==> 0 <= #[trigger] boost@[k] <= 0x10_0000,
        0 <= tbits_8ths <= 0x4000_0000,
    ensures
        ({
            let caps = compute_caps_seq(size as nat, channels as nat);
            let total_of = |row: int|
                spec_row_total(
                    size as nat,
                    channels as nat,
                    alloc_trim as int,
                    bstart as int,
                    bend as int,
                    boost@,
                    caps,
                    row,
                );
            &&& r.0 == spec_alloc_row(
                size as nat,
                channels as nat,
                alloc_trim as int,
                bstart as int,
                bend as int,
                boost@,
                caps,
                tbits_8ths as int,
            )
            &&& r.0 <= 10
            &&& (r.0 >= 1 ==> total_of(r.0 as int) <= tbits_8ths)
            &&& (r.0 < 10 ==> total_of(r.0 + 1) > tbits_8ths)
            &&& r.2 == total_of(r.0 as int)
            &&& r.1@.len() == 21
            &&& (forall|k: int| 0 <= k < 21 ==> 0 <= #[trigger] r.1@[k] <= 0x20_0000)
            &&& (forall|b: int|
                bstart <= b < bend ==> #[trigger] r.1@[b] == spec_granted(
                    size as nat,
                    channels as nat,
                    alloc_trim as int,
                    bend as int,
                    r.0 as int,
                    boost@,
                    caps,
                    b,
                ))
            &&& (forall|b: int| 0 <= b < 21 && !(bstart <= b < bend) ==> #[trigger] r.1@[b] == 0)
        }),
{
    let caps = compute_caps(size, channels);
    proof {
        assert(caps@ =~= compute_caps_seq(size as nat, channels as nat));
    }
    let mut low: usize = 1;
    let mut high: usize = VECTORS - 1;
    while low <= high
        invariant
            1 <= low <= 11,
            high <= 10,
            low <= high + 1,
            spec_bisect(
                size as nat,
                channels as nat,
                alloc_trim as int,
                bstart as int,
                bend as int,
                boost@,
                caps@,
                tbits_8ths as int,
                low as int,
                high as int,
            ) == spec_alloc_row(
                size as nat,
                channels as nat,
                alloc_trim as int,
                bstart as int,
                bend as int,
                boost@,
                caps@,
                tbits_8ths as int,
            ),
            low >= 2 ==> spec_row_total(
                size as nat,
                channels as nat,
                alloc_trim as int,
                bstart as int,
                bend as int,
                boost@,
                caps@,
                low - 1,
            ) <= tbits_8ths,
            high <= 9 ==> spec_row_total(
                size as nat,
                channels as nat,
                alloc_trim as int,
                bstart as int,
                bend as int,
                boost@,
                caps@,
                high + 1,
            ) > tbits_8ths,
        decreases high + 1 - low,
    {
        let center = (low + high) / 2;
        let t = alloc_total(size, channels, alloc_trim, bstart, bend, boost, &caps, center);
        if t > tbits_8ths {
            high = center - 1;
        } else {
            low = center + 1;
        }
    }
    let row = low - 1;

    // Lay the chosen row out band by band, with the same sticky walk.
    let mut bands: Vec<i64> = Vec::new();
    let mut z: usize = 0;
    while z < 21
        invariant
            z <= 21,
            bands@.len() == z,
            forall|k: int| 0 <= k < z ==> #[trigger] bands@[k] == 0,
        decreases 21 - z,
    {
        bands.push(0);
        z = z + 1;
    }
    let mut total: i64 = 0;
    let mut done = false;
    let mut i = bend;
    while i > bstart
        invariant
            bstart <= i <= bend,
            0 <= total <= 0x40_0000 * (bend - i),
            bands@.len() == 21,
            forall|k: int| 0 <= k < 21 ==> 0 <= #[trigger] bands@[k] <= 0x20_0000,
            done == spec_done_above(
                size as nat,
                channels as nat,
                alloc_trim as int,
                bend as int,
                row as int,
                boost@,
                i - 1,
            ),
            forall|b2: int|
                i <= b2 < bend ==> #[trigger] bands@[b2] == spec_granted(
                    size as nat,
                    channels as nat,
                    alloc_trim as int,
                    bend as int,
                    row as int,
                    boost@,
                    caps@,
                    b2,
                ),
            forall|b2: int| 0 <= b2 < 21 && !(i <= b2 < bend) ==> #[trigger] bands@[b2] == 0,
            spec_alloc_total(
                size as nat,
                channels as nat,
                alloc_trim as int,
                bstart as int,
                boost@,
                caps@,
                bend as int,
                row as int,
                bend - 1,
                false,
            ) == total + spec_alloc_total(
                size as nat,
                channels as nat,
                alloc_trim as int,
                bstart as int,
                boost@,
                caps@,
                bend as int,
                row as int,
                i - 1,
                done,
            ),
        decreases i,
    {
        let b = i - 1;
        let bb = band_bits_val(size, channels, alloc_trim, bend, row, b, boost[b]);
        let thr = threshold_val(size, channels, b);
        proof {
            // the sticky flag one band lower is this band's test or the flag
            assert(spec_done_above(
                size as nat,
                channels as nat,
                alloc_trim as int,
                bend as int,
                row as int,
                boost@,
                b - 1,
            ) == (bb >= thr || done)) by {
                if bb >= thr {
                    assert(spec_band_bits(
                        size as nat,
                        channels as nat,
                        alloc_trim as int,
                        bend as int,
                        row as int,
                        b as int,
                        boost@[b as int] as int,
                    ) >= spec_threshold(size as nat, channels as nat, b as int));
                }
                if spec_done_above(
                    size as nat,
                    channels as nat,
                    alloc_trim as int,
                    bend as int,
                    row as int,
                    boost@,
                    b - 1,
                ) {
                    let k = choose|k: int|
                        b - 1 < k < bend && #[trigger] spec_band_bits(
                            size as nat,
                            channels as nat,
                            alloc_trim as int,
                            bend as int,
                            row as int,
                            k,
                            boost@[k] as int,
                        ) >= spec_threshold(size as nat, channels as nat, k);
                    if k > b {
                        assert(spec_done_above(
                            size as nat,
                            channels as nat,
                            alloc_trim as int,
                            bend as int,
                            row as int,
                            boost@,
                            b as int,
                        ));
                    }
                }
            }
        }
        if bb >= thr || done {
            done = true;
            let c = caps[b];
            let granted = if bb <= c {
                bb
            } else {
                c
            };
            bands.set(b, granted);
            total = total + granted;
        } else if bb >= (channels * 8) as i64 {
            bands.set(b, (channels * 8) as i64);
            total = total + (channels * 8) as i64;
        }
        i = b;
    }
    (row, bands, total)
}

/// The caps vector, at the specification level.
pub open spec fn compute_caps_seq(size: nat, ch: nat) -> Seq<i64> {
    Seq::new(21, |i: int| spec_cap(size, ch, i) as i64)
}

/// The all-zero boost vector every frame starts from.
pub open spec fn zero_boosts() -> Seq<i64> {
    Seq::new(21, |i: int| 0i64)
}

/// Decodes spread, caps, band boosts, the allocation trim and the
/// reservations, then runs the bisection; fills the decoder's `spread`,
/// `caps`, `alloc_trim`, `anticollapse_needed` and `band_bits` fields.
pub struct BitAlloc;

impl BitAlloc {
    /// The boost acceptance loop of one band, exactly `spec_boost_inner` of
    /// the entry state; `tbits` saturates at zero when charged.
    #[verifier::loop_isolation(false)]
    #[verifier::rlimit(100)]
    #[verifier::spinoff_prover]
    fn decode_boost(
        range_dec: &mut RangeCodingDecoder,
        tbits: &mut usize,
        dynalloc: usize,
        cap_i: i64,
        quanta: usize,
    ) -> (boost_i: i64)
        requires
            old(range_dec).wf(),
            old(range_dec).total_bits() <= 10200,
            old(range_dec).used() <= 0x210000,
            1 <= dynalloc <= 6,
            8 <= quanta <= 2816,
            0 <= cap_i <= 30000,
            *old(tbits) <= 81600,
        ensures
            final(range_dec).wf(),
            final(range_dec).stream() == old(range_dec).stream(),
            final(range_dec).rpos() == old(range_dec).rpos(),
            final(range_dec).total_bits() == old(range_dec).total_bits(),
            final(range_dec).used() <= used_after(old(range_dec).used()),
            *final(tbits) <= *old(tbits),
            0 <= boost_i <= cap_i + 2816,
            ({
                let r = spec_boost_inner(
                    old(range_dec).stream(),
                    old(range_dec).state(),
                    *old(tbits) as nat,
                    dynalloc as nat,
                    0,
                    cap_i as int,
                    quanta as nat,
                );
                final(range_dec).state() == r.0 && *final(tbits) == r.1 && boost_i == r.2
            }),
    {
        let ghost stream = old(range_dec).stream();
        let ghost fix = spec_boost_inner(
            stream,
            old(range_dec).state(),
            *old(tbits) as nat,
            dynalloc as nat,
            0,
            cap_i as int,
            quanta as nat,
        );
        let ghost u0 = range_dec.used();
        let mut band_dynalloc = dynalloc;
        let mut boost_i: i64 = 0;
        let mut stop = false;
        while !stop
            invariant
                1 <= band_dynalloc <= 6,
                8 <= quanta <= 2816,
                0 <= boost_i <= cap_i + 2816,
                *tbits <= *old(tbits),
                range_dec.wf(),
                range_dec.stream() == stream,
                range_dec.rpos() == old(range_dec).rpos(),
                range_dec.total_bits() == old(range_dec).total_bits(),
                range_dec.used() <= used_after(u0),
                (if stop {
                    (range_dec.state(), *tbits as nat, boost_i as int) == fix
                } else {
                    spec_boost_inner(
                        stream,
                        range_dec.state(),
                        *tbits as nat,
                        band_dynalloc as nat,
                        boost_i as int,
                        cap_i as int,
                        quanta as nat,
                    ) == fix
                }),
            decreases (if stop {
                0int
            } else {
                *tbits + 1
            }),
        {
            let tf = range_dec.tell_frac();
            if tf + band_dynalloc * 8 < *tbits && boost_i < cap_i {
                proof {
                    lemma_wf_bounds(range_dec);
                }
                let accept = range_dec.logp(band_dynalloc);
                if accept {
                    boost_i = boost_i + quanta as i64;
                    *tbits = if *tbits >= quanta {
                        *tbits - quanta
                    } else {
                        0
                    };
                    band_dynalloc = 1;
                } else {
                    stop = true;
                }
            } else {
                stop = true;
            }
        }
        boost_i
    }

    /// The spread decision, exactly `spec_spread` of the entry state.
    #[verifier::loop_isolation(false)]
    #[verifier::rlimit(100)]
    #[verifier::spinoff_prover]
    fn decode_spread(range_dec: &mut RangeCodingDecoder) -> (r: Option<Spread>)
        requires
            old(range_dec).wf(),
            old(range_dec).total_bits() <= 10200,
            old(range_dec).used() <= 0x210000,
        ensures
            final(range_dec).wf(),
            final(range_dec).stream() == old(range_dec).stream(),
            final(range_dec).rpos() == old(range_dec).rpos(),
            final(range_dec).total_bits() == old(range_dec).total_bits(),
            final(range_dec).used() <= used_after(old(range_dec).used()),
            ({
                let sp = spec_spread(
                    old(range_dec).stream(),
                    old(range_dec).state(),
                    old(range_dec).total_bits(),
                );
                r == sp.0 && final(range_dec).state() == sp.1
            }),
    {
        let ghost st0 = range_dec.state();
        if range_dec.available() > 4 {
            proof {
                lemma_wf_bounds(range_dec);
            }
            let model = ICDFContext { total: 32, dist: vec![7, 9, 30, 32] };
            proof {
                assert(model.dist@ =~= seq![7usize, 9usize, 30usize, 32usize]);
            }
            let v = range_dec.icdf(&model);
            proof {
                let sym = spec_symbol(st0.1, st0.2, 32);
                if sym < 7 {
                    assert(v == 0);
                } else if sym < 9 {
                    assert(v == 1);
                } else if sym < 30 {
                    assert(v == 2);
                } else {
                    assert(v == 3);
                }
            }
            if v == 0 {
                None
            } else if v == 1 {
                Some(Spread::Light)
            } else if v == 2 {
                Some(Spread::Normal)
            } else {
                Some(Spread::Aggressive)
            }
        } else {
            Some(Spread::Normal)
        }
    }

    /// The allocation trim, exactly `spec_trim` of the entry state and the
    /// remaining boost budget.
    #[verifier::loop_isolation(false)]
    #[verifier::rlimit(100)]
    #[verifier::spinoff_prover]
    fn decode_trim(range_dec: &mut RangeCodingDecoder, tbits: usize) -> (r: usize)
        requires
            old(range_dec).wf(),
            old(range_dec).total_bits() <= 10200,
            old(range_dec).used() <= 0x210000,
            tbits <= 8 * old(range_dec).total_bits(),
        ensures
            final(range_dec).wf(),
            final(range_dec).stream() == old(range_dec).stream(),
            final(range_dec).rpos() == old(range_dec).rpos(),
            final(range_dec).total_bits() == old(range_dec).total_bits(),
            final(range_dec).used() <= used_after(old(range_dec).used()),
            r <= 10,
            ({
                let tr = spec_trim(old(range_dec).stream(), old(range_dec).state(), tbits as nat);
                r == tr.0 && final(range_dec).state() == tr.1
            }),
    {
        let ghost st0 = range_dec.state();
        if range_dec.tell_frac() + 48 <= tbits {
            proof {
                lemma_wf_bounds(range_dec);
            }
            let model = ICDFContext {
                total: 128,
                dist: vec![2, 4, 9, 19, 41, 87, 109, 119, 124, 126, 128],
            };
            proof {
                assert(model.dist@ =~= seq![
                    2usize, 4, 9, 19, 41, 87, 109, 119, 124, 126, 128,
                ]);
            }
            let v = range_dec.icdf(&model);
            proof {
                let sym = spec_symbol(st0.1, st0.2, 128);
                if sym < 2 {
                    assert(v == 0);
                } else if sym < 4 {
                    assert(v == 1);
                } else if sym < 9 {
                    assert(v == 2);
                } else if sym < 19 {
                    assert(v == 3);
                } else if sym < 41 {
                    assert(v == 4);
                } else if sym < 87 {
                    assert(v == 5);
                } else if sym < 109 {
                    assert(v == 6);
                } else if sym < 119 {
                    assert(v == 7);
                } else if sym < 124 {
                    assert(v == 8);
                } else if sym < 126 {
                    assert(v == 9);
                } else {
                    assert(v == 10);
                }
            }
            v
        } else {
            5
        }
    }

    /// The boost pass over the band window, exactly `spec_boost_bands` of
    /// the entry state.  Returns the per-band boosts and the budget left.
    #[verifier::loop_isolation(false)]
    #[verifier::rlimit(100)]
    #[verifier::spinoff_prover]
    fn decode_boosts(
        range_dec: &mut RangeCodingDecoder,
        caps: &Vec<i64>,
        size: usize,
        channels: usize,
        bstart: usize,
        bend: usize,
    ) -> (r: (Vec<i64>, usize))
        requires
            old(range_dec).wf(),
            old(range_dec).total_bits() <= 10200,
            old(range_dec).used() <= 0x210000,
            size <= 3,
            1 <= channels <= 2,
            bstart <= bend <= 21,
            caps@.len() == 21,
            forall|k: int| 0 <= k < 21 ==> 0 <= #[trigger] caps@[k] <= 30000,
        ensures
            final(range_dec).wf(),
            final(range_dec).stream() == old(range_dec).stream(),
            final(range_dec).rpos() == old(range_dec).rpos(),
            final(range_dec).total_bits() == old(range_dec).total_bits(),
            final(range_dec).used() <= used_after(old(range_dec).used()),
            r.0@.len() == 21,
            forall|k: int| 0 <= k < 21 ==> 0 <= #[trigger] r.0@[k] <= 0x10_0000,
            r.1 <= 8 * old(range_dec).total_bits(),
            ({
                let b = spec_boost_bands(
                    old(range_dec).stream(),
                    size as nat,
                    channels as int,
                    bstart as int,
                    bend as int,
                    caps@,
                    old(range_dec).state(),
                    (old(range_dec).total_bits() * 8) as nat,
                    6,
                    bstart as int,
                    zero_boosts(),
                );
                final(range_dec).state() == b.0 && r.1 as nat == b.1 && r.0@ == b.3
            }),
    {
        let ghost u0 = range_dec.used();
        let ghost stream = old(range_dec).stream();
        let ghost total = old(range_dec).total_bits();
        let mut dynalloc: usize = 6;
        let mut boost: Vec<i64> = Vec::new();
        let mut z: usize = 0;
        while z < 21
            invariant
                z <= 21,
                boost@.len() == z,
                forall|k: int| 0 <= k < z ==> #[trigger] boost@[k] == 0,
            decreases 21 - z,
        {
            boost.push(0);
            z = z + 1;
        }
        proof {
            assert(boost@ =~= zero_boosts());
        }
        let ghost bb = spec_boost_bands(
            stream,
            size as nat,
            channels as int,
            bstart as int,
            bend as int,
            caps@,
            old(range_dec).state(),
            (total * 8) as nat,
            6,
            bstart as int,
            boost@,
        );
        let mut tbits: usize = range_dec.len() * 8;
        let mut i = bstart;
        while i < bend
            invariant
                bstart <= i <= bend,
                boost@.len() == 21,
                forall|k: int| 0 <= k < 21 ==> 0 <= #[trigger] boost@[k] <= 0x10_0000,
                2 <= dynalloc <= 6,
                tbits <= total * 8,
                range_dec.wf(),
                range_dec.stream() == stream,
                range_dec.rpos() == old(range_dec).rpos(),
                range_dec.total_bits() == total,
                range_dec.used() <= used_after(u0),
                bb == spec_boost_bands(
                    stream,
                    size as nat,
                    channels as int,
                    bstart as int,
                    bend as int,
                    caps@,
                    range_dec.state(),
                    tbits as nat,
                    dynalloc as nat,
                    i as int,
                    boost@,
                ),
            decreases bend - i,
        {
            let fr = freq_range(i) as usize;
            let pm = pow2_usize(channels - 1 + size);
            proof {
                crate::opus::entropy::bits::lemma_pow2_le((channels - 1 + size) as nat, 4);
                vstd::arithmetic::power2::lemma2_to64();
                assert(1 <= fr * pm <= 352) by (nonlinear_arith)
                    requires
                        1 <= fr <= 22,
                        1 <= pm <= 16,
                ;
            }
            let it = fr * pm;
            let q1 = 8 * it;
            let q2 = if it >= 48 {
                it
            } else {
                48
            };
            let quanta = if q1 <= q2 {
                q1
            } else {
                q2
            };
            proof {
                assert(8 <= quanta <= 2816);
            }
            let cap_i = caps[i];
            let boost_i = Self::decode_boost(range_dec, &mut tbits, dynalloc, cap_i, quanta);
            let ghost bpre = boost@;
            boost.set(i, boost_i);
            proof {
                assert(boost@ =~= bpre.update(i as int, boost_i));
            }
            if boost_i > 0 {
                dynalloc = if dynalloc >= 3 {
                    dynalloc - 1
                } else {
                    2
                };
            }
            i = i + 1;
        }
        (boost, tbits)
    }

    /// Decodes spread, caps, band boosts, the allocation trim and the
    /// reservations, then runs the bisection; every field it fills is one
    /// function of the stream and the entry state.
    #[verifier::loop_isolation(false)]
    #[verifier::rlimit(100)]
    #[verifier::spinoff_prover]
    pub fn decode(
        toc: &TableOfContents,
        dec: &mut CeltFrameDecoder,
        range_dec: &mut RangeCodingDecoder,
    )
        requires
            old(dec).wf(),
            old(range_dec).wf(),
            old(range_dec).total_bits() <= 10200,
            old(range_dec).used() <= 0x200000,
        ensures
            final(dec).wf(),
            final(dec).band_start == old(dec).band_start,
            final(dec).band_end == old(dec).band_end,
            final(dec).size == old(dec).size,
            final(dec).transient == old(dec).transient,
            final(dec).silence == old(dec).silence,
            final(dec).channels == old(dec).channels,
            final(dec).post_filter == old(dec).post_filter,
            final(dec).energy == old(dec).energy,
            final(dec).prev_energy == old(dec).prev_energy,
            final(dec).time_frequency_change == old(dec).time_frequency_change,
            final(range_dec).wf(),
            final(range_dec).stream() == old(range_dec).stream(),
            final(range_dec).rpos() == old(range_dec).rpos(),
            final(range_dec).total_bits() == old(range_dec).total_bits(),
            final(range_dec).used() <= used_after(old(range_dec).used()) + 60,
            final(dec).caps@ == compute_caps_seq(
                old(dec).size as nat,
                old(dec).channels.spec_count() as nat,
            ),
            ({
                // every decision of the stage, chained over the stream
                let stream = old(range_dec).stream();
                let st0 = old(range_dec).state();
                let total = old(range_dec).total_bits();
                let chs = old(dec).channels.spec_count() as int;
                let chn = old(dec).channels.spec_count() as nat;
                let size = old(dec).size as nat;
                let bstart = old(dec).band_start as int;
                let bend = old(dec).band_end as int;
                let caps = compute_caps_seq(size, chn);
                let sp = spec_spread(stream, st0, total);
                let bb = spec_boost_bands(
                    stream,
                    size,
                    chs,
                    bstart,
                    bend,
                    caps,
                    sp.1,
                    (total * 8) as nat,
                    6,
                    bstart,
                    zero_boosts(),
                );
                let tr = spec_trim(stream, bb.0, bb.1);
                let rv = spec_reservations(tr.1, total, old(dec).transient, size, chs, bend
                    - bstart);
                let row = spec_alloc_row(size, chn, tr.0, bstart, bend, bb.3, caps, rv.1);
                &&& final(dec).spread == sp.0
                &&& final(dec).alloc_trim == tr.0
                &&& final(dec).anticollapse_needed == rv.0
                &&& final(range_dec).state() == tr.1
                &&& (forall|b: int|
                    bstart <= b < bend ==> #[trigger] final(dec).band_bits@[b] == spec_granted(
                        size,
                        chn,
                        tr.0,
                        bend,
                        row,
                        bb.3,
                        caps,
                        b,
                    ))
                &&& (forall|b: int|
                    0 <= b < 21 && !(bstart <= b < bend) ==> #[trigger] final(dec).band_bits@[b]
                        == 0)
            }),
    {
        dec.spread = Self::decode_spread(range_dec);

        let channels = dec.channels.count();
        dec.caps = compute_caps(dec.size, channels);
        proof {
            assert(dec.caps@ =~= compute_caps_seq(dec.size as nat, channels as nat));
        }

        // Band boosts: repeated acceptance bits, each worth one quantum.
        let boosted = Self::decode_boosts(
            range_dec,
            &dec.caps,
            dec.size,
            channels,
            dec.band_start,
            dec.band_end,
        );
        let boost = boosted.0;
        let tbits = boosted.1;

        // Allocation trim.
        dec.alloc_trim = Self::decode_trim(range_dec, tbits);

        // Reservations, in eighth bits, off the remaining budget.
        let ghost rv = spec_reservations(
            range_dec.state(),
            range_dec.total_bits(),
            old(dec).transient,
            old(dec).size as nat,
            channels as int,
            old(dec).band_end - old(dec).band_start,
        );
        let tf_now = range_dec.tell_frac();
        let total8e = range_dec.len() * 8;
        let mut tbits2: i64 = total8e as i64 - tf_now as i64 - 1;
        dec.anticollapse_needed = if dec.transient && dec.size >= 2 && tbits2 >= ((dec.size + 2)
            * 8) as i64 {
            8
        } else {
            0
        };
        tbits2 = tbits2 - dec.anticollapse_needed as i64;

        // One bit for band skipping, when any remains.
        let skip_bit: i64 = if tbits2 >= 8 {
            8
        } else {
            0
        };
        tbits2 = tbits2 - skip_bit;

        // Intensity- and dual-stereo reservations, in this order, guarded
        // against underflow.
        if channels == 2 {
            let intensity = log2_frac_tab(dec.band_end - dec.band_start) as i64;
            if intensity <= tbits2 {
                tbits2 = tbits2 - intensity;
                if tbits2 >= 8 {
                    tbits2 = tbits2 - 8;
                }
            }
        }

        // Bisection over the static allocation rows.
        let budget = if tbits2 < 0 {
            0
        } else {
            tbits2
        };
        proof {
            assert(dec.anticollapse_needed == rv.0);
            assert(budget == rv.1);
        }
        let result = compute_allocation(
            dec.size,
            channels,
            dec.band_start,
            dec.band_end,
            &boost,
            dec.alloc_trim,
            budget,
        );
        dec.band_bits = result.1;
    }
}

} // verus!
