//! Report rendering: each entry becomes `key;min;mean;max\n`, with the
//! three numbers shown to one decimal place.  Hundredths are rounded to
//! tenths half away from zero; the mean is `sum / count` rounded the same
//! way, computed exactly in integers — never by floating accumulation.

use vstd::prelude::*;
use crate::stats::{GStats, gwf};
use crate::aggregate::Aggregate;
use crate::model::{csum, lemma_csum_bounds};

verus! {

/// Round `n / d` to the nearest integer, halves away from zero (`d >= 1`).
pub open spec fn rhz(n: int, d: int) -> int {
    if n >= 0 {
        n / d + if 2 * (n % d) >= d {
            1int
        } else {
            0int
        }
    } else {
        -((-n) / d + if 2 * ((-n) % d) >= d {
            1int
        } else {
            0int
        })
    }
}

/// Decimal digits of `n`, most significant first.
pub open spec fn dec_u(n: nat) -> Seq<u8>
    decreases n,
{
    if n < 10 {
        seq![(48 + n) as u8]
    } else {
        dec_u(n / 10).push((48 + n % 10) as u8)
    }
}

/// A count of tenths as a decimal string with exactly one decimal place.
pub open spec fn tenths_str(t: int) -> Seq<u8> {
    let m = if t < 0 {
        -t
    } else {
        t
    };
    let sign: Seq<u8> = if t < 0 {
        seq![45u8]
    } else {
        Seq::empty()
    };
    sign + dec_u((m / 10) as nat).push(46u8).push((48 + m % 10) as u8)
}

/// One report line: `key;min;mean;max\n`, numbers in tenths.
pub open spec fn line_str(k: Seq<u8>, g: GStats) -> Seq<u8> {
    k + seq![59u8] + tenths_str(rhz(g.lo, 10)) + seq![59u8] + tenths_str(rhz(g.sum, g.count * 10))
        + seq![59u8] + tenths_str(rhz(g.hi, 10)) + seq![10u8]
}

/// The whole report: one line per entry, in entry (key) order.
pub open spec fn report_of_entries(es: Seq<(Seq<u8>, GStats)>) -> Seq<u8>
    decreases es.len(),
{
    if es.len() == 0 {
        Seq::empty()
    } else {
        report_of_entries(es.drop_last()) + line_str(es.last().0, es.last().1)
    }
}

/// Divide and round half away from zero, exactly as `rhz` says.
fn div_round_half(n: i128, d: u128) -> (t: i128)
    requires
        1 <= d,
        i128::MIN < n,
        -(d as int) * 0x8000_0000_0000_0000 <= n as int <= (d as int) * 0x8000_0000_0000_0000,
    ensures
        t as int == rhz(n as int, d as int),
        -0x8000_0000_0000_0000 <= t as int <= 0x8000_0000_0000_0000,
{
    let neg = n < 0;
    let m: u128 = if neg {
        (-n) as u128
    } else {
        n as u128
    };
    proof {
        assert(m as int <= (d as int) * 0x8000_0000_0000_0000);
        vstd::arithmetic::div_mod::lemma_fundamental_div_mod(m as int, d as int);
        assert((m as int) / (d as int) <= 0x8000_0000_0000_0000) by (nonlinear_arith)
            requires
                m as int == (d as int) * ((m as int) / (d as int)) + (m as int) % (d as int),
                0 <= (m as int) % (d as int) < (d as int),
                1 <= d as int,
                m as int <= (d as int) * 0x8000_0000_0000_0000,
        ;
    }
    let q = m / d;
    let r = m % d;
    let up: u128 = if 2 * r >= d {
        1
    } else {
        0
    };
    proof {
        if up == 1 {
            assert(r >= 1);
            assert(q < 0x8000_0000_0000_0000) by (nonlinear_arith)
                requires
                    m as int == (d as int) * (q as int) + (r as int),
                    1 <= r as int,
                    (r as int) < (d as int),
                    1 <= d as int,
                    m as int <= (d as int) * 0x8000_0000_0000_0000,
            ;
        }
    }
    let mag = q + up;
    if neg {
        -(mag as i128)
    } else {
        mag as i128
    }
}

/// Append the decimal digits of `n`.
fn push_dec(out: &mut Vec<u8>, n: u64)
    ensures
        final(out)@ == old(out)@ + dec_u(n as nat),
    decreases n,
{
    if n < 10 {
        out.push(48 + n as u8);
        proof {
            assert(out@ =~= old(out)@ + dec_u(n as nat));
        }
    } else {
        push_dec(out, n / 10);
        out.push(48 + (n % 10) as u8);
        proof {
            assert(out@ =~= old(out)@ + dec_u(n as nat));
        }
    }
}

/// Append a count of tenths with one decimal place.
fn push_tenths(out: &mut Vec<u8>, t: i128)
    requires
        -0x8000_0000_0000_0000 <= t <= 0x8000_0000_0000_0000,
    ensures
        final(out)@ == old(out)@ + tenths_str(t as int),
{
    if t < 0 {
        out.push(45);
    }
    let m: u128 = if t < 0 {
        (-t) as u128
    } else {
        t as u128
    };
    let whole: u64 = (m / 10) as u64;
    let fr: u8 = 48 + (m % 10) as u8;
    push_dec(out, whole);
    out.push(46);
    out.push(fr);
    proof {
        assert(out@ =~= old(out)@ + tenths_str(t as int));
    }
}

/// Render the whole report for a well-formed aggregate: entries are already
/// in key order, so the output is sorted by key.
#[verifier::loop_isolation(false)]
pub fn render_report(a: &Aggregate) -> (r: Vec<u8>)
    requires
        a.wf(),
    ensures
        r@ == report_of_entries(a.ges()),
{
    let mut out: Vec<u8> = Vec::new();
    let n = a.entries.len();
    let mut i: usize = 0;
    proof {
        assert(a.ges().take(0) =~= Seq::<(Seq<u8>, GStats)>::empty());
        lemma_csum_bounds(a.ges());
    }
    while i < n
        invariant
            0 <= i <= n,
            out@ == report_of_entries(a.ges().take(i as int)),
        decreases n - i,
    {
        let ghost base = out@;
        let ghost e = a.ges()[i as int];
        proof {
            assert(gwf(e.1));
            assert(e.1.count <= csum(a.ges()));
        }
        let klen = a.entries[i].0.len();
        let mut kj: usize = 0;
        while kj < klen
            invariant
                0 <= kj <= klen == a.entries@[i as int].0@.len(),
                i < n,
                out@ == base + a.entries@[i as int].0@.subrange(0, kj as int),
            decreases klen - kj,
        {
            out.push(a.entries[i].0[kj]);
            kj = kj + 1;
            proof {
                assert(out@ =~= base + a.entries@[i as int].0@.subrange(0, kj as int));
            }
        }
        proof {
            assert(out@ =~= base + e.0);
        }
        out.push(59);
        let st = a.entries[i].1;
        let tmin = div_round_half(st.min as i128, 10);
        push_tenths(&mut out, tmin);
        out.push(59);
        let d: u128 = st.count as u128 * 10;
        proof {
            assert(st.sum as int <= (d as int) * 0x8000_0000_0000_0000) by (nonlinear_arith)
                requires
                    d as int == (st.count as int) * 10,
                    st.sum as int <= (st.count as int) * (i64::MAX as int),
                    1 <= st.count,
            ;
            assert(-((d as int) * 0x8000_0000_0000_0000) <= st.sum as int) by (nonlinear_arith)
                requires
                    d as int == (st.count as int) * 10,
                    (st.count as int) * (i64::MIN as int) <= st.sum as int,
                    1 <= st.count,
            ;
            assert(i128::MIN < st.sum as int) by (nonlinear_arith)
                requires
                    (st.count as int) * (i64::MIN as int) <= st.sum as int,
                    1 <= st.count <= u64::MAX,
            ;
        }
        let tmean = div_round_half(st.sum, d);
        push_tenths(&mut out, tmean);
        out.push(59);
        let tmax = div_round_half(st.max as i128, 10);
        push_tenths(&mut out, tmax);
        out.push(10);
        proof {
            assert(out@ =~= base + line_str(e.0, e.1));
            assert(a.ges().take(i + 1) =~= a.ges().take(i as int).push(e));
            assert(a.ges().take(i as int).push(e).drop_last() =~= a.ges().take(i as int));
        }
        i = i + 1;
    }
    proof {
        assert(a.ges().take(n as int) =~= a.ges());
    }
    out
}

} // verus!
