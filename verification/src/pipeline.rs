//! The sequential aggregation pipeline: split a buffer into lines, parse
//! each, and fold the records into one map.  Parallel callers aggregate
//! disjoint pieces with this driver (or record by record) and combine the
//! results with `AggregateMap::merge_from`.

use vstd::prelude::*;

verus! {

use crate::aggregate::AggregateMap;
use crate::aggregate::agg_step;
use crate::parse::parse_line;
use crate::parse::parse_line_spec;
use crate::partition::lemma_split_len;
use crate::partition::split_chunks;
use crate::partition::split_spec;
use crate::stats::StatsModel;

/// The mapping that a sequence of lines aggregates to: records fold in from
/// the first line to the last, malformed lines contribute nothing.
pub open spec fn agg_lines(lines: Seq<Seq<u8>>) -> Map<Seq<u8>, StatsModel>
    decreases lines.len(),
{
    if lines.len() == 0 {
        Map::empty()
    } else {
        let m = agg_lines(lines.drop_last());
        match parse_line_spec(lines.last()) {
            None => m,
            Some(kv) => agg_step(m, kv.0, kv.1),
        }
    }
}

/// The mapping that an input buffer aggregates to: its newline chunks,
/// aggregated in order.
pub open spec fn buf_model(buf: Seq<u8>) -> Map<Seq<u8>, StatsModel> {
    agg_lines(split_spec(buf, 10))
}

/// No key is observed more often than there are lines.
proof fn lemma_agg_lines_count(lines: Seq<Seq<u8>>)
    ensures
        forall|k: Seq<u8>| #[trigger] agg_lines(lines).contains_key(k) ==> agg_lines(lines)[k].count
            <= lines.len(),
    decreases lines.len(),
{
    if lines.len() > 0 {
        lemma_agg_lines_count(lines.drop_last());
        let m = agg_lines(lines.drop_last());
        match parse_line_spec(lines.last()) {
            None => {},
            Some(kv) => {
                assert forall|k: Seq<u8>| #[trigger] agg_lines(lines).contains_key(k) implies agg_lines(
                    lines,
                )[k].count <= lines.len() by {
                    if k == kv.0 {
                        if m.contains_key(k) {
                            assert(m[k].count <= lines.len() - 1);
                        }
                    } else {
                        assert(m.contains_key(k) && agg_lines(lines)[k] == m[k]);
                    }
                }
            },
        }
    }
}

/// Aggregate one buffer of newline-delimited `KEY;VALUE` records into a
/// map, in a single pass; malformed lines are dropped silently.
pub fn aggregate_slice(buf: &[u8]) -> (m: AggregateMap)
    requires
        buf@.len() < u64::MAX,
    ensures
        m.wf(),
        m@ == buf_model(buf@),
{
    let ranges = split_chunks(buf, 10u8);
    let ghost lines = split_spec(buf@, 10);
    proof {
        lemma_split_len(buf@, 10);
    }
    let mut m = AggregateMap::new();
    let nr = ranges.len();
    let mut t: usize = 0;
    proof {
        assert(lines.take(0) =~= Seq::<Seq<u8>>::empty());
    }
    while t < nr
        invariant
            buf@.len() < u64::MAX,
            nr == ranges@.len(),
            lines == split_spec(buf@, 10),
            nr == lines.len(),
            lines.len() <= buf@.len() + 1,
            ranges@.map_values(|p: (usize, usize)| buf@.subrange(p.0 as int, p.1 as int)) == lines,
            forall|u: int| 0 <= u < nr ==> (#[trigger] ranges@[u]).0 <= ranges@[u].1 <= buf@.len(),
            0 <= t <= nr,
            m.wf(),
            m@ == agg_lines(lines.take(t as int)),
        decreases nr - t,
    {
        let pr = ranges[t];
        let line = vstd::slice::slice_subrange(buf, pr.0, pr.1);
        proof {
            assert(line@ == lines[t as int]);
            assert(lines.take(t + 1).drop_last() =~= lines.take(t as int));
            assert(lines.take(t + 1).last() == lines[t as int]);
            lemma_agg_lines_count(lines.take(t as int));
        }
        match parse_line(line) {
            None => {},
            Some(rec) => {
                let ok = m.observe(rec.key, rec.value);
                proof {
                    assert(ok);
                }
            },
        }
        t = t + 1;
    }
    proof {
        assert(lines.take(nr as int) =~= lines);
    }
    m
}

} // verus!
