//! The aggregation model: a mapping from key to statistic, the fold of a
//! record sequence into it, and the merge of two such mappings.  The merge
//! is associative and commutative, and folding a concatenation equals
//! merging the folds — so any partition of the input into chunks, merged in
//! any grouping, yields the same aggregate.

use vstd::prelude::*;
use crate::stats::{GStats, gsingle, gmerge, gwf, lemma_gmerge_associative};
use crate::records::GRec;
use crate::order::{lex_lt, lemma_lex_irrefl};

verus! {

/// Fold one observation for `k` into the mapping.
pub open spec fn gadd(m: Map<Seq<u8>, GStats>, k: Seq<u8>, g: GStats) -> Map<Seq<u8>, GStats> {
    if m.dom().contains(k) {
        m.insert(k, gmerge(m[k], g))
    } else {
        m.insert(k, g)
    }
}

/// Fold one record into the mapping.
pub open spec fn gobserve(m: Map<Seq<u8>, GStats>, r: GRec) -> Map<Seq<u8>, GStats> {
    gadd(m, r.key, gsingle(r.v))
}

/// The aggregate of a record sequence: fold every record in, in order.
pub open spec fn agg_of(rs: Seq<GRec>) -> Map<Seq<u8>, GStats>
    decreases rs.len(),
{
    if rs.len() == 0 {
        Map::empty()
    } else {
        gobserve(agg_of(rs.drop_last()), rs.last())
    }
}

/// Merge two aggregates: union over keys, `gmerge` where both have the key.
pub open spec fn gmerge_map(a: Map<Seq<u8>, GStats>, b: Map<Seq<u8>, GStats>) -> Map<
    Seq<u8>,
    GStats,
> {
    Map::new(
        |k: Seq<u8>| a.dom().contains(k) || b.dom().contains(k),
        |k: Seq<u8>|
            if a.dom().contains(k) && b.dom().contains(k) {
                gmerge(a[k], b[k])
            } else if a.dom().contains(k) {
                a[k]
            } else {
                b[k]
            },
    )
}

/// The empty aggregate is a unit for the merge.
pub proof fn lemma_gmerge_map_empty(a: Map<Seq<u8>, GStats>)
    ensures
        gmerge_map(a, Map::<Seq<u8>, GStats>::empty()) == a,
        gmerge_map(Map::<Seq<u8>, GStats>::empty(), a) == a,
{
    assert(gmerge_map(a, Map::<Seq<u8>, GStats>::empty()) =~= a);
    assert(gmerge_map(Map::<Seq<u8>, GStats>::empty(), a) =~= a);
}

/// Merging aggregates is commutative.
pub proof fn lemma_gmerge_map_commutative(a: Map<Seq<u8>, GStats>, b: Map<Seq<u8>, GStats>)
    ensures
        gmerge_map(a, b) == gmerge_map(b, a),
{
    assert(gmerge_map(a, b) =~= gmerge_map(b, a));
}

/// Merging aggregates is associative.
pub proof fn lemma_gmerge_map_associative(
    a: Map<Seq<u8>, GStats>,
    b: Map<Seq<u8>, GStats>,
    c: Map<Seq<u8>, GStats>,
)
    ensures
        gmerge_map(gmerge_map(a, b), c) == gmerge_map(a, gmerge_map(b, c)),
{
    assert(gmerge_map(gmerge_map(a, b), c) =~= gmerge_map(a, gmerge_map(b, c))) by {
        assert forall|k: Seq<u8>| gmerge_map(gmerge_map(a, b), c).dom().contains(k) implies
            gmerge_map(gmerge_map(a, b), c)[k] == gmerge_map(a, gmerge_map(b, c))[k] by {
            if a.dom().contains(k) && b.dom().contains(k) && c.dom().contains(k) {
                lemma_gmerge_associative(a[k], b[k], c[k]);
            }
        }
    }
}

/// Folding an observation into a merge is folding it into the right part.
pub proof fn lemma_gadd_gmerge_map(
    a: Map<Seq<u8>, GStats>,
    b: Map<Seq<u8>, GStats>,
    k: Seq<u8>,
    g: GStats,
)
    ensures
        gadd(gmerge_map(a, b), k, g) == gmerge_map(a, gadd(b, k, g)),
{
    assert(gadd(gmerge_map(a, b), k, g) =~= gmerge_map(a, gadd(b, k, g))) by {
        if a.dom().contains(k) && b.dom().contains(k) {
            lemma_gmerge_associative(a[k], b[k], g);
        }
    }
}

/// Aggregating a concatenation is merging the two aggregates: the merge rule
/// loses nothing, whatever the partition.
pub proof fn lemma_agg_concat(r1: Seq<GRec>, r2: Seq<GRec>)
    ensures
        agg_of(r1 + r2) == gmerge_map(agg_of(r1), agg_of(r2)),
    decreases r2.len(),
{
    if r2.len() == 0 {
        assert(r1 + r2 =~= r1);
        lemma_gmerge_map_empty(agg_of(r1));
    } else {
        let r = r2.last();
        assert((r1 + r2).drop_last() =~= r1 + r2.drop_last());
        assert((r1 + r2).len() > 0);
        assert((r1 + r2).last() == r);
        lemma_agg_concat(r1, r2.drop_last());
        lemma_gadd_gmerge_map(agg_of(r1), agg_of(r2.drop_last()), r.key, gsingle(r.v));
    }
}

/// Folding two records is the same in either order.
pub proof fn lemma_gobserve_swap(m: Map<Seq<u8>, GStats>, r1: GRec, r2: GRec)
    ensures
        gobserve(gobserve(m, r1), r2) == gobserve(gobserve(m, r2), r1),
{
    assert(gobserve(gobserve(m, r1), r2) =~= gobserve(gobserve(m, r2), r1)) by {
        if r1.key == r2.key {
            if m.dom().contains(r1.key) {
                lemma_gmerge_associative(m[r1.key], gsingle(r1.v), gsingle(r2.v));
                lemma_gmerge_associative(m[r1.key], gsingle(r2.v), gsingle(r1.v));
            }
        }
    }
}

/// A record may be folded in at its place or at the end: the result is the
/// same aggregate.
pub proof fn lemma_agg_move_last(x: Seq<GRec>, y: Seq<GRec>, r: GRec)
    ensures
        agg_of(x + seq![r] + y) == agg_of(x + y + seq![r]),
    decreases y.len(),
{
    if y.len() == 0 {
        assert(x + seq![r] + y =~= x + y + seq![r]);
    } else {
        let e = y.last();
        let yp = y.drop_last();
        assert((x + seq![r] + y).drop_last() =~= x + seq![r] + yp);
        assert((x + seq![r] + y).last() == e);
        lemma_agg_move_last(x, yp, r);
        assert((x + yp + seq![r]).drop_last() =~= x + yp);
        assert((x + yp + seq![r]).last() == r);
        assert((x + y).drop_last() =~= x + yp);
        assert((x + y).last() == e);
        assert((x + y + seq![r]).drop_last() =~= x + y);
        assert((x + y + seq![r]).last() == r);
        assert(agg_of(x + seq![r] + y) == gobserve(agg_of(x + seq![r] + yp), e));
        assert(agg_of(x + yp + seq![r]) == gobserve(agg_of(x + yp), r));
        assert(agg_of(x + y) == gobserve(agg_of(x + yp), e));
        assert(agg_of(x + y + seq![r]) == gobserve(agg_of(x + y), r));
        lemma_gobserve_swap(agg_of(x + yp), r, e);
        assert(agg_of(x + seq![r] + y) == gobserve(gobserve(agg_of(x + yp), r), e));
    }
}

/// Aggregation is order-independent: two record sequences with the same
/// records (as a multiset) fold to the same aggregate.  Any scheduling that
/// processes every line exactly once is therefore equivalent.
pub proof fn lemma_agg_permutation(rs1: Seq<GRec>, rs2: Seq<GRec>)
    requires
        rs1.to_multiset() == rs2.to_multiset(),
    ensures
        agg_of(rs1) == agg_of(rs2),
    decreases rs2.len(),
{
    broadcast use vstd::seq_lib::group_to_multiset_ensures;

    if rs2.len() == 0 {
        assert(rs1.len() == rs1.to_multiset().len());
        assert(rs2.len() == rs2.to_multiset().len());
        assert(rs1 =~= rs2);
    } else {
        let r = rs2.last();
        let rs2p = rs2.drop_last();
        assert(rs2 =~= rs2p.push(r));
        assert(rs2.to_multiset() =~= rs2p.to_multiset().insert(r));
        assert(rs2.to_multiset().count(r) > 0);
        assert(rs1.contains(r));
        let i = choose|i: int| 0 <= i < rs1.len() && rs1[i] == r;
        let x = rs1.take(i);
        let y = rs1.skip(i + 1);
        assert(rs1 =~= x + seq![r] + y);
        assert(rs1.remove(i) =~= x + y);
        assert(rs1.remove(i).to_multiset() =~= rs1.to_multiset().remove(r));
        assert((x + y).to_multiset() =~= rs2p.to_multiset()) by {
            assert(rs2p.to_multiset().insert(r).remove(r) =~= rs2p.to_multiset());
        }
        lemma_agg_permutation(x + y, rs2p);
        lemma_agg_move_last(x, y, r);
        assert((x + y + seq![r]).drop_last() =~= x + y);
        assert((x + y + seq![r]).last() == r);
        assert(agg_of(rs2) == gobserve(agg_of(rs2p), r));
    }
}

/// Every statistic a record sequence folds to is well-formed, provided each
/// record's value lies in the value range.
pub open spec fn recs_ok(rs: Seq<GRec>) -> bool {
    forall|i: int| 0 <= i < rs.len() ==> i64::MIN <= (#[trigger] rs[i]).v <= i64::MAX
}

/// The sorted entry list representing an aggregate: keys strictly increase.
pub open spec fn entries_sorted(es: Seq<(Seq<u8>, GStats)>) -> bool {
    forall|i: int, j: int| 0 <= i < j < es.len() ==> #[trigger] lex_lt(es[i].0, es[j].0)
}

/// All statistics of an entry list are well-formed.
pub open spec fn entries_stats_wf(es: Seq<(Seq<u8>, GStats)>) -> bool {
    forall|i: int| 0 <= i < es.len() ==> #[trigger] gwf(es[i].1)
}

/// The mapping an entry list stands for.
pub open spec fn map_of(es: Seq<(Seq<u8>, GStats)>) -> Map<Seq<u8>, GStats>
    decreases es.len(),
{
    if es.len() == 0 {
        Map::<Seq<u8>, GStats>::empty()
    } else {
        map_of(es.drop_last()).insert(es.last().0, es.last().1)
    }
}

/// The total observation count of an entry list.
pub open spec fn csum(es: Seq<(Seq<u8>, GStats)>) -> int
    decreases es.len(),
{
    if es.len() == 0 {
        0
    } else {
        csum(es.drop_last()) + es.last().1.count
    }
}

/// A key is in the mapping exactly when some entry carries it.
pub proof fn lemma_map_of_contains(es: Seq<(Seq<u8>, GStats)>, k: Seq<u8>)
    ensures
        map_of(es).dom().contains(k) <==> exists|i: int| 0 <= i < es.len() && (#[trigger] es[i]).0
            == k,
    decreases es.len(),
{
    if es.len() > 0 {
        lemma_map_of_contains(es.drop_last(), k);
        if map_of(es).dom().contains(k) {
            if es.last().0 == k {
                assert(es[es.len() - 1].0 == k);
            } else {
                let i = choose|i: int|
                    0 <= i < es.drop_last().len() && (#[trigger] es.drop_last()[i]).0 == k;
                assert(es[i].0 == k);
            }
        }
        if exists|i: int| 0 <= i < es.len() && (#[trigger] es[i]).0 == k {
            let i = choose|i: int| 0 <= i < es.len() && (#[trigger] es[i]).0 == k;
            if i < es.len() - 1 {
                assert(es.drop_last()[i].0 == k);
            }
        }
    }
}

/// Splicing an entry into a list inserts its key into the mapping, as long
/// as no later entry reuses the key.
pub proof fn lemma_map_of_splice(
    pre: Seq<(Seq<u8>, GStats)>,
    post: Seq<(Seq<u8>, GStats)>,
    e: (Seq<u8>, GStats),
)
    requires
        forall|i: int| 0 <= i < post.len() ==> (#[trigger] post[i]).0 != e.0,
    ensures
        map_of(pre + seq![e] + post) == map_of(pre + post).insert(e.0, e.1),
    decreases post.len(),
{
    if post.len() == 0 {
        assert(pre + seq![e] + post =~= pre.push(e));
        assert(pre + post =~= pre);
        assert(pre.push(e).drop_last() =~= pre);
        assert(map_of(pre.push(e)) == map_of(pre).insert(e.0, e.1));
    } else {
        let x = post.last();
        assert(forall|i: int|
            0 <= i < post.drop_last().len() ==> (#[trigger] post.drop_last()[i]).0 == post[i].0);
        lemma_map_of_splice(pre, post.drop_last(), e);
        assert((pre + seq![e] + post).drop_last() =~= pre + seq![e] + post.drop_last());
        assert((pre + seq![e] + post).last() == x);
        assert((pre + post).drop_last() =~= pre + post.drop_last());
        assert((pre + post).last() == x);
        assert(x.0 != e.0);
        assert(map_of(pre + post.drop_last()).insert(e.0, e.1).insert(x.0, x.1) =~= map_of(
            pre + post.drop_last()).insert(x.0, x.1).insert(e.0, e.1));
    }
}

/// The count total splits over concatenation.
pub proof fn lemma_csum_concat(x: Seq<(Seq<u8>, GStats)>, y: Seq<(Seq<u8>, GStats)>)
    ensures
        csum(x + y) == csum(x) + csum(y),
    decreases y.len(),
{
    if y.len() == 0 {
        assert(x + y =~= x);
    } else {
        lemma_csum_concat(x, y.drop_last());
        assert((x + y).drop_last() =~= x + y.drop_last());
        assert((x + y).last() == y.last());
    }
}

/// With well-formed statistics the count total dominates every entry's
/// count (and is at least the number of entries).
pub proof fn lemma_csum_bounds(es: Seq<(Seq<u8>, GStats)>)
    requires
        entries_stats_wf(es),
    ensures
        csum(es) >= es.len(),
        forall|i: int| 0 <= i < es.len() ==> (#[trigger] es[i]).1.count <= csum(es),
    decreases es.len(),
{
    if es.len() > 0 {
        let dl = es.drop_last();
        assert forall|i: int| 0 <= i < dl.len() implies #[trigger] gwf(dl[i].1) by {
            assert(dl[i] == es[i]);
            assert(gwf(es[i].1));
        }
        lemma_csum_bounds(dl);
        assert(gwf(es[es.len() - 1].1));
        assert forall|i: int| 0 <= i < es.len() implies (#[trigger] es[i]).1.count <= csum(es) by {
            if i < es.len() - 1 {
                assert(es[i] == dl[i]);
                assert(dl[i].1.count <= csum(dl));
            }
        }
    }
}

/// Two sorted entry lists for the same mapping are the same list: the
/// sorted representation is canonical, so any two runs that reach equal
/// aggregates render byte-identical reports.
pub proof fn lemma_entries_canonical(x: Seq<(Seq<u8>, GStats)>, y: Seq<(Seq<u8>, GStats)>)
    requires
        entries_sorted(x),
        entries_sorted(y),
        map_of(x) == map_of(y),
    ensures
        x == y,
    decreases x.len(),
{
    lemma_map_of_contains(x, if x.len() > 0 { x.last().0 } else { Seq::empty() });
    lemma_map_of_contains(y, if y.len() > 0 { y.last().0 } else { Seq::empty() });
    if x.len() == 0 {
        if y.len() > 0 {
            assert(map_of(y).dom().contains(y.last().0));
            assert(map_of(x).dom() =~= Set::<Seq<u8>>::empty());
        }
        assert(y.len() == 0);
        assert(x =~= y);
    } else {
        assert(map_of(x).dom().contains(x.last().0));
        assert(y.len() > 0) by {
            if y.len() == 0 {
                assert(map_of(y).dom() =~= Set::<Seq<u8>>::empty());
            }
        }
        let kx = x.last().0;
        let ky = y.last().0;
        // each last key is in the other's mapping, and both are maxima,
        // so they coincide
        lemma_map_of_contains(y, kx);
        lemma_map_of_contains(x, ky);
        assert(kx == ky) by {
            let i = choose|i: int| 0 <= i < y.len() && (#[trigger] y[i]).0 == kx;
            let j = choose|j: int| 0 <= j < x.len() && (#[trigger] x[j]).0 == ky;
            if kx != ky {
                assert(i < y.len() - 1);
                assert(lex_lt(y[i].0, y[y.len() - 1].0));
                assert(j < x.len() - 1);
                assert(lex_lt(x[j].0, x[x.len() - 1].0));
                crate::order::lemma_lex_asym(kx, ky);
            }
        }
        // the key does not recur earlier, so dropping the last entry
        // removes exactly it from the mapping
        assert forall|i: int| 0 <= i < x.len() - 1 implies (#[trigger] x[i]).0 != kx by {
            assert(lex_lt(x[i].0, x[x.len() - 1].0));
            lemma_lex_irrefl(kx);
        }
        assert forall|i: int| 0 <= i < y.len() - 1 implies (#[trigger] y[i]).0 != ky by {
            assert(lex_lt(y[i].0, y[y.len() - 1].0));
            lemma_lex_irrefl(ky);
        }
        lemma_map_of_contains(x.drop_last(), kx);
        lemma_map_of_contains(y.drop_last(), ky);
        assert(forall|i: int|
            0 <= i < x.drop_last().len() ==> (#[trigger] x.drop_last()[i]) == x[i]);
        assert(forall|i: int|
            0 <= i < y.drop_last().len() ==> (#[trigger] y.drop_last()[i]) == y[i]);
        assert(!map_of(x.drop_last()).dom().contains(kx));
        assert(!map_of(y.drop_last()).dom().contains(ky));
        assert(x.last().1 == map_of(x)[kx]);
        assert(y.last().1 == map_of(y)[ky]);
        assert(map_of(x.drop_last()) =~= map_of(x).remove(kx));
        assert(map_of(y.drop_last()) =~= map_of(y).remove(ky));
        let xd = x.drop_last();
        let yd = y.drop_last();
        assert forall|i: int, j: int| 0 <= i < j < xd.len() implies #[trigger] lex_lt(
            xd[i].0, xd[j].0) by {
            assert(xd[i] == x[i] && xd[j] == x[j]);
            assert(lex_lt(x[i].0, x[j].0));
        }
        assert forall|i: int, j: int| 0 <= i < j < yd.len() implies #[trigger] lex_lt(
            yd[i].0, yd[j].0) by {
            assert(yd[i] == y[i] && yd[j] == y[j]);
            assert(lex_lt(y[i].0, y[j].0));
        }
        lemma_entries_canonical(xd, yd);
        assert(x.len() == y.len());
        assert forall|i: int| 0 <= i < x.len() implies x[i] == y[i] by {
            if i < x.len() - 1 {
                assert(x[i] == xd[i]);
                assert(y[i] == yd[i]);
            } else {
                assert(x[i].0 == kx && y[i].0 == ky);
                assert(x[i].1 == map_of(x)[kx] && y[i].1 == map_of(y)[ky]);
            }
        }
        assert(x =~= y);
    }
}

} // verus!
