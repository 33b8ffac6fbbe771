//! Rendering the final map as output lines: one `KEY=MIN/AVG/MAX` line per
//! key, in ascending key order, each number with exactly one digit after
//! the decimal point.

use vstd::prelude::*;

verus! {

use crate::aggregate::AggregateMap;
use crate::stats::StatsModel;
use crate::stats::VALUE_LIMIT;
use crate::stats::avg_tenths;

/// Decimal digits of `n`, most significant first.
pub open spec fn dec_digits(n: nat) -> Seq<u8>
    decreases n,
    via dec_digits_decreases
{
    if n < 10 {
        seq![(48 + n) as u8]
    } else {
        dec_digits(n / 10).push((48 + n % 10) as u8)
    }
}

#[via_fn]
proof fn dec_digits_decreases(n: nat) {
    if n >= 10 {
        assert(n / 10 < n) by (nonlinear_arith)
            requires
                n >= 10,
        ;
    }
}

/// A value in tenths as text: an optional minus sign, the whole units, a
/// dot, and the tenths digit.
pub open spec fn tenths_str(v: int) -> Seq<u8> {
    let m = if v < 0 { -v } else { v };
    let digits = dec_digits((m / 10) as nat) + seq![46u8] + seq![(48 + m % 10) as u8];
    if v < 0 {
        seq![45u8] + digits
    } else {
        digits
    }
}

/// One output line: the key, `=`, then minimum, rounded mean and maximum
/// separated by `/`, and a newline.
pub open spec fn line_str(key: Seq<u8>, s: StatsModel) -> Seq<u8> {
    key + seq![61u8] + tenths_str(s.min) + seq![47u8] + tenths_str(
        avg_tenths(s.sum, s.count as int),
    ) + seq![47u8] + tenths_str(s.max) + seq![10u8]
}

/// The output for the first `t` keys of the map, in order.
pub open spec fn render_to(ks: Seq<Seq<u8>>, ss: Seq<StatsModel>, t: int) -> Seq<u8>
    decreases t,
{
    if t <= 0 {
        Seq::empty()
    } else {
        render_to(ks, ss, t - 1) + line_str(ks[t - 1], ss[t - 1])
    }
}

/// Append the decimal digits of `n`.
fn push_dec(out: &mut Vec<u8>, n: u64)
    ensures
        final(out)@ == old(out)@ + dec_digits(n as nat),
    decreases n,
{
    if n < 10 {
        out.push((48 + n) as u8);
        proof {
            assert(out@ =~= old(out)@ + dec_digits(n as nat));
        }
    } else {
        proof {
            assert(n / 10 < n) by (nonlinear_arith)
                requires
                    n >= 10,
            ;
        }
        push_dec(out, n / 10);
        out.push((48 + n % 10) as u8);
        proof {
            assert(out@ =~= old(out)@ + dec_digits(n as nat));
        }
    }
}

/// Append a value in tenths as text.
fn push_tenths(out: &mut Vec<u8>, v: i64)
    requires
        -VALUE_LIMIT <= v <= VALUE_LIMIT,
    ensures
        final(out)@ == old(out)@ + tenths_str(v as int),
{
    let m: u64 = if v < 0 {
        out.push(45u8);
        (-v) as u64
    } else {
        v as u64
    };
    push_dec(out, m / 10);
    out.push(46u8);
    out.push((48 + m % 10) as u8);
    proof {
        assert(out@ =~= old(out)@ + tenths_str(v as int));
    }
}

/// Render the whole map: one line per key, ascending, no key repeated.
pub fn render(m: &AggregateMap) -> (out: Vec<u8>)
    requires
        m.wf(),
    ensures
        out@ == render_to(m.key_seq(), m.stats_seq(), m.key_seq().len() as int),
{
    proof {
        m.lemma_view_keys();
        assert forall|u: int| 0 <= u < m.key_seq().len() implies crate::stats::stats_wf(
            #[trigger] m.stats_seq()[u],
        ) by {
            assert(m@.contains_key(m.key_seq()[u]));
            assert(m@[m.key_seq()[u]] == m.stats_seq()[u]);
        }
    }
    let mut out: Vec<u8> = Vec::new();
    let n = m.len();
    let mut t: usize = 0;
    proof {
        assert(out@ =~= render_to(m.key_seq(), m.stats_seq(), 0));
    }
    while t < n
        invariant
            m.wf(),
            n == m.key_seq().len(),
            forall|u: int| 0 <= u < n ==> crate::stats::stats_wf(#[trigger] m.stats_seq()[u]),
            0 <= t <= n,
            out@ == render_to(m.key_seq(), m.stats_seq(), t as int),
        decreases n - t,
    {
        let key = m.key_at(t);
        out.extend_from_slice(key.as_slice());
        out.push(61u8);
        let st = m.stats_at(t);
        push_tenths(&mut out, st.min);
        out.push(47u8);
        push_tenths(&mut out, st.avg());
        out.push(47u8);
        push_tenths(&mut out, st.max);
        out.push(10u8);
        t = t + 1;
        proof {
            assert(out@ =~= render_to(m.key_seq(), m.stats_seq(), t as int));
        }
    }
    out
}

} // verus!
