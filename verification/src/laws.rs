//! The algebra of aggregation, stated and proved once for all inputs:
//! merging is commutative and associative with the empty map as identity,
//! aggregating a concatenation equals merging the parts' aggregates, a
//! malformed line changes nothing, and each key's statistic is exactly the
//! count, sum, minimum and maximum of that key's readings.

use vstd::prelude::*;

verus! {

use crate::aggregate::agg_step;
use crate::aggregate::lemma_agg_step_is_merge_step;
use crate::aggregate::merge_model;
use crate::aggregate::merge_step;
use crate::parse::parse_line_spec;
use crate::pipeline::agg_lines;
use crate::stats::StatsModel;
use crate::stats::lemma_stats_merge_assoc;
use crate::stats::lemma_stats_merge_comm;
use crate::stats::stats_one;

/// Merging with the empty map changes nothing, either way round.
pub proof fn lemma_merge_empty(a: Map<Seq<u8>, StatsModel>)
    ensures
        merge_model(a, Map::<Seq<u8>, StatsModel>::empty()) == a,
        merge_model(Map::<Seq<u8>, StatsModel>::empty(), a) == a,
{
    assert(merge_model(a, Map::<Seq<u8>, StatsModel>::empty()) =~= a);
    assert(merge_model(Map::<Seq<u8>, StatsModel>::empty(), a) =~= a);
}

/// Merging maps is commutative, exactly.
pub proof fn lemma_merge_comm(a: Map<Seq<u8>, StatsModel>, b: Map<Seq<u8>, StatsModel>)
    ensures
        merge_model(a, b) == merge_model(b, a),
{
    assert forall|k: Seq<u8>| a.contains_key(k) && b.contains_key(k) implies #[trigger] merge_model(
        a,
        b,
    )[k] == merge_model(b, a)[k] by {
        lemma_stats_merge_comm(a[k], b[k]);
    }
    assert(merge_model(a, b) =~= merge_model(b, a));
}

/// Merging maps is associative, exactly.
pub proof fn lemma_merge_assoc(
    a: Map<Seq<u8>, StatsModel>,
    b: Map<Seq<u8>, StatsModel>,
    c: Map<Seq<u8>, StatsModel>,
)
    ensures
        merge_model(merge_model(a, b), c) == merge_model(a, merge_model(b, c)),
{
    let lhs = merge_model(merge_model(a, b), c);
    let rhs = merge_model(a, merge_model(b, c));
    assert forall|k: Seq<u8>| #[trigger] lhs.contains_key(k) implies lhs[k] == rhs[k] by {
        if a.contains_key(k) && b.contains_key(k) && c.contains_key(k) {
            lemma_stats_merge_assoc(a[k], b[k], c[k]);
        }
    }
    assert(lhs =~= rhs);
}

/// Absorbing a key's statistics commutes with merging another map in.
proof fn lemma_merge_model_step(
    a: Map<Seq<u8>, StatsModel>,
    b: Map<Seq<u8>, StatsModel>,
    k: Seq<u8>,
    s: StatsModel,
)
    ensures
        merge_model(a, merge_step(b, k, s)) == merge_step(merge_model(a, b), k, s),
{
    let lhs = merge_model(a, merge_step(b, k, s));
    let rhs = merge_step(merge_model(a, b), k, s);
    if a.contains_key(k) && b.contains_key(k) {
        lemma_stats_merge_assoc(a[k], b[k], s);
    }
    assert(lhs =~= rhs);
}

/// The records carried by a sequence of lines, in order, malformed lines
/// dropped.
pub open spec fn records_of(lines: Seq<Seq<u8>>) -> Seq<(Seq<u8>, int)>
    decreases lines.len(),
{
    if lines.len() == 0 {
        Seq::empty()
    } else {
        match parse_line_spec(lines.last()) {
            None => records_of(lines.drop_last()),
            Some(kv) => records_of(lines.drop_last()).push(kv),
        }
    }
}

/// The mapping that a sequence of records aggregates to.
pub open spec fn agg_records(rs: Seq<(Seq<u8>, int)>) -> Map<Seq<u8>, StatsModel>
    decreases rs.len(),
{
    if rs.len() == 0 {
        Map::empty()
    } else {
        agg_step(agg_records(rs.drop_last()), rs.last().0, rs.last().1)
    }
}

/// Aggregating lines is aggregating the records they carry.
pub proof fn lemma_agg_lines_records(lines: Seq<Seq<u8>>)
    ensures
        agg_lines(lines) == agg_records(records_of(lines)),
    decreases lines.len(),
{
    if lines.len() > 0 {
        lemma_agg_lines_records(lines.drop_last());
        match parse_line_spec(lines.last()) {
            None => {},
            Some(kv) => {
                assert(records_of(lines.drop_last()).push(kv).drop_last() =~= records_of(
                    lines.drop_last(),
                ));
            },
        }
    }
}

/// A malformed line contributes to no key and alters no statistic.
pub proof fn lemma_malformed_line_dropped(lines: Seq<Seq<u8>>, bad: Seq<u8>)
    requires
        parse_line_spec(bad) is None,
    ensures
        agg_lines(lines.push(bad)) == agg_lines(lines),
{
    assert(lines.push(bad).drop_last() =~= lines);
}

/// Aggregation is a homomorphism: the aggregate of concatenated record
/// sequences is the merge of their aggregates.  With commutativity and
/// associativity, any partitioning into groups and any merge order gives
/// the one mapping.
pub proof fn lemma_agg_records_append(rs1: Seq<(Seq<u8>, int)>, rs2: Seq<(Seq<u8>, int)>)
    ensures
        agg_records(rs1 + rs2) == merge_model(agg_records(rs1), agg_records(rs2)),
    decreases rs2.len(),
{
    if rs2.len() == 0 {
        assert(rs1 + rs2 =~= rs1);
        lemma_merge_empty(agg_records(rs1));
    } else {
        lemma_agg_records_append(rs1, rs2.drop_last());
        assert((rs1 + rs2).drop_last() =~= rs1 + rs2.drop_last());
        let k = rs2.last().0;
        let v = rs2.last().1;
        let m1 = agg_records(rs1);
        let m2 = agg_records(rs2.drop_last());
        lemma_agg_step_is_merge_step(merge_model(m1, m2), k, v);
        lemma_agg_step_is_merge_step(m2, k, v);
        lemma_merge_model_step(m1, m2, k, stats_one(v));
    }
}

/// The lines of two buffers in sequence carry the records of both.
proof fn lemma_records_append(l1: Seq<Seq<u8>>, l2: Seq<Seq<u8>>)
    ensures
        records_of(l1 + l2) == records_of(l1) + records_of(l2),
    decreases l2.len(),
{
    if l2.len() == 0 {
        assert(l1 + l2 =~= l1);
        assert(records_of(l1) + records_of(l2) =~= records_of(l1));
    } else {
        lemma_records_append(l1, l2.drop_last());
        assert((l1 + l2).drop_last() =~= l1 + l2.drop_last());
        match parse_line_spec(l2.last()) {
            None => {},
            Some(kv) => {
                assert((records_of(l1) + records_of(l2.drop_last())).push(kv) =~= records_of(l1)
                    + records_of(l2.drop_last()).push(kv));
            },
        }
    }
}

/// The line-level homomorphism: splitting the lines anywhere, aggregating
/// each part and merging equals aggregating the whole.
pub proof fn lemma_agg_lines_append(l1: Seq<Seq<u8>>, l2: Seq<Seq<u8>>)
    ensures
        agg_lines(l1 + l2) == merge_model(agg_lines(l1), agg_lines(l2)),
{
    lemma_records_append(l1, l2);
    lemma_agg_lines_records(l1 + l2);
    lemma_agg_lines_records(l1);
    lemma_agg_lines_records(l2);
    lemma_agg_records_append(records_of(l1), records_of(l2));
}

/// Aggregating the same records in any order yields the same mapping:
/// two record sequences with equal multisets aggregate to one result.
pub proof fn lemma_agg_records_perm(rs1: Seq<(Seq<u8>, int)>, rs2: Seq<(Seq<u8>, int)>)
    requires
        rs1.to_multiset() == rs2.to_multiset(),
    ensures
        agg_records(rs1) == agg_records(rs2),
    decreases rs1.len(),
{
    broadcast use vstd::seq_lib::group_to_multiset_ensures;
    broadcast use vstd::multiset::group_multiset_axioms;

    if rs1.len() == 0 {
        assert(rs1.to_multiset().len() == 0);
        assert(rs2.len() == 0);
        assert(rs1 =~= rs2);
    } else {
        let x = rs1.last();
        assert(rs1[rs1.len() - 1] == x);
        assert(rs1.contains(x));
        assert(rs2.to_multiset().count(x) > 0);
        assert(rs2.contains(x));
        let i = choose|i: int| 0 <= i < rs2.len() && rs2[i] == x;
        let a = rs2.take(i);
        let b = rs2.skip(i + 1);
        let am = agg_records(a);
        let xm = agg_records(seq![x]);
        let bm = agg_records(b);
        assert(rs2 =~= (a + seq![x]) + b);
        lemma_agg_records_append(a + seq![x], b);
        lemma_agg_records_append(a, seq![x]);
        lemma_merge_assoc(am, xm, bm);
        lemma_merge_comm(xm, bm);
        lemma_merge_assoc(am, bm, xm);
        lemma_agg_records_append(a, b);
        lemma_agg_records_append(a + b, seq![x]);
        assert(agg_records(rs2) == agg_records((a + b) + seq![x]));
        assert(((a + b) + seq![x]).drop_last() =~= a + b);
        assert(rs1.drop_last().push(x) =~= rs1);
        assert(rs1.drop_last().to_multiset().insert(x) == rs1.to_multiset());
        assert(rs2.remove(i) =~= a + b);
        assert((a + b).to_multiset() == rs2.to_multiset().remove(x));
        assert(rs1.drop_last().to_multiset() =~= rs1.drop_last().to_multiset().insert(x).remove(x));
        lemma_agg_records_perm(rs1.drop_last(), a + b);
    }
}

/// The byte-level homomorphism: cutting the raw buffer at any newline,
/// aggregating the two pieces independently and merging the maps equals
/// aggregating the whole buffer in one pass.
pub proof fn lemma_buf_model_concat(b1: Seq<u8>, b2: Seq<u8>)
    ensures
        crate::pipeline::buf_model(b1 + seq![10u8] + b2) == merge_model(
            crate::pipeline::buf_model(b1),
            crate::pipeline::buf_model(b2),
        ),
{
    crate::partition::lemma_split_concat(b1, b2, 10);
    lemma_agg_lines_append(
        crate::partition::split_spec(b1, 10),
        crate::partition::split_spec(b2, 10),
    );
}

/// The values recorded under one key, in order.
pub open spec fn values_of(rs: Seq<(Seq<u8>, int)>, k: Seq<u8>) -> Seq<int>
    decreases rs.len(),
{
    if rs.len() == 0 {
        Seq::empty()
    } else {
        let pre = values_of(rs.drop_last(), k);
        if rs.last().0 == k {
            pre.push(rs.last().1)
        } else {
            pre
        }
    }
}

/// Sum of a sequence of values.
pub open spec fn seq_sum(s: Seq<int>) -> int
    decreases s.len(),
{
    if s.len() == 0 {
        0
    } else {
        seq_sum(s.drop_last()) + s.last()
    }
}

/// Least element of a nonempty sequence.
pub open spec fn seq_min(s: Seq<int>) -> int
    recommends
        s.len() > 0,
    decreases s.len(),
{
    if s.len() <= 1 {
        s[0]
    } else {
        vstd::math::min(seq_min(s.drop_last()), s.last())
    }
}

/// Greatest element of a nonempty sequence.
pub open spec fn seq_max(s: Seq<int>) -> int
    recommends
        s.len() > 0,
    decreases s.len(),
{
    if s.len() <= 1 {
        s[0]
    } else {
        vstd::math::max(seq_max(s.drop_last()), s.last())
    }
}

/// Per-key exactness: a key is present exactly when some record bears it,
/// and then its statistic is exactly the count, the sum, the minimum and
/// the maximum of that key's values — so the average `sum / count` is the
/// exact arithmetic mean of the readings.
pub proof fn lemma_agg_records_exact(rs: Seq<(Seq<u8>, int)>, k: Seq<u8>)
    ensures
        agg_records(rs).contains_key(k) == (values_of(rs, k).len() > 0),
        agg_records(rs).contains_key(k) ==> agg_records(rs)[k].count == values_of(rs, k).len()
            && agg_records(rs)[k].sum == seq_sum(values_of(rs, k)) && agg_records(rs)[k].min
            == seq_min(values_of(rs, k)) && agg_records(rs)[k].max == seq_max(values_of(rs, k)),
    decreases rs.len(),
{
    if rs.len() > 0 {
        lemma_agg_records_exact(rs.drop_last(), k);
        let last = rs.last();
        let vs = values_of(rs, k);
        if last.0 == k {
            let pre = values_of(rs.drop_last(), k);
            assert(vs == pre.push(last.1));
            assert(vs.drop_last() =~= pre);
            assert(vs.last() == last.1);
            if pre.len() == 0 {
                assert(vs.len() == 1);
                assert(vs[0] == last.1);
                assert(seq_min(vs) == last.1);
                assert(seq_max(vs) == last.1);
                assert(seq_sum(pre) == 0);
                assert(seq_sum(vs) == last.1);
            } else {
                assert(vs.len() >= 2);
                assert(seq_min(vs) == vstd::math::min(seq_min(pre), last.1));
                assert(seq_max(vs) == vstd::math::max(seq_max(pre), last.1));
                assert(seq_sum(vs) == seq_sum(pre) + last.1);
            }
        }
    }
}

} // verus!
