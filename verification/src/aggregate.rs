//! The executable aggregate: a vector of `(key, statistic)` entries kept
//! strictly sorted by key, with the total observation count alongside.  Its
//! model is the mapping of `model::map_of`; folding and merging follow the
//! `gadd` / `gmerge_map` rules exactly.

use vstd::prelude::*;
use crate::stats::{Stats, GStats, gwf, gmerge};
use crate::order::{lex_lt, lemma_lex_irrefl, lemma_lex_trans, KeyOrder, key_cmp};
use crate::model::{
    map_of, csum, entries_sorted, entries_stats_wf, gadd, gobserve, gmerge_map,
    lemma_map_of_contains, lemma_map_of_splice, lemma_csum_concat, lemma_csum_bounds,
    lemma_gadd_gmerge_map,
};
use crate::records::GRec;
use crate::parse::copy_range;

verus! {

/// The entry list seen at the model level.
pub open spec fn ges_of(s: Seq<(Vec<u8>, Stats)>) -> Seq<(Seq<u8>, GStats)> {
    s.map_values(|e: (Vec<u8>, Stats)| (e.0@, e.1@))
}

/// A per-key aggregate: entries sorted strictly by key, and the total
/// number of observations folded in.
pub struct Aggregate {
    pub entries: Vec<(Vec<u8>, Stats)>,
    pub total: u64,
}

impl View for Aggregate {
    type V = Map<Seq<u8>, GStats>;

    open spec fn view(&self) -> Map<Seq<u8>, GStats> {
        map_of(ges_of(self.entries@))
    }
}

/// Find where `key` sits (or belongs) in the entry list: the index of the
/// first entry not below `key`, and whether that entry carries `key`.
fn find_slot(entries: &Vec<(Vec<u8>, Stats)>, key: &Vec<u8>) -> (r: (usize, bool))
    ensures
        r.0 <= entries@.len(),
        forall|i: int| 0 <= i < r.0 ==> lex_lt(#[trigger] ges_of(entries@)[i].0, key@),
        r.1 ==> r.0 < entries@.len() && ges_of(entries@)[r.0 as int].0 == key@,
        !r.1 ==> r.0 == entries@.len() || lex_lt(key@, ges_of(entries@)[r.0 as int].0),
{
    let n = entries.len();
    let mut j: usize = 0;
    let mut eq = false;
    while j < n
        invariant_except_break
            n == entries@.len(),
            0 <= j <= n,
            eq == false,
            forall|i: int| 0 <= i < j ==> lex_lt(#[trigger] ges_of(entries@)[i].0, key@),
        ensures
            0 <= j <= n,
            n == entries@.len(),
            forall|i: int| 0 <= i < j ==> lex_lt(#[trigger] ges_of(entries@)[i].0, key@),
            eq ==> j < n && ges_of(entries@)[j as int].0 == key@,
            !eq ==> j == n || lex_lt(key@, ges_of(entries@)[j as int].0),
        decreases n - j,
    {
        match key_cmp(&entries[j].0, key) {
            KeyOrder::Less => {
                j = j + 1;
            },
            KeyOrder::Equal => {
                eq = true;
                break ;
            },
            KeyOrder::Greater => {
                break ;
            },
        }
    }
    (j, eq)
}

impl Aggregate {
    /// The entry list seen at the model level.
    pub open spec fn ges(self) -> Seq<(Seq<u8>, GStats)> {
        ges_of(self.entries@)
    }

    /// Entries sorted strictly by key, statistics well-formed, and the
    /// stored total equal to the sum of the entry counts.
    pub open spec fn wf(self) -> bool {
        &&& entries_sorted(self.ges())
        &&& entries_stats_wf(self.ges())
        &&& self.total as int == csum(self.ges())
    }

    /// The empty aggregate.
    pub fn new() -> (r: Aggregate)
        ensures
            r.wf(),
            r@ == Map::<Seq<u8>, GStats>::empty(),
            r.total == 0,
            r.ges() == Seq::<(Seq<u8>, GStats)>::empty(),
    {
        let r = Aggregate { entries: Vec::new(), total: 0 };
        proof {
            assert(r.ges() =~= Seq::<(Seq<u8>, GStats)>::empty());
        }
        r
    }

    /// Fold a whole statistic for `key` into the aggregate.
    pub fn merge_entry(&mut self, key: Vec<u8>, st: Stats)
        requires
            old(self).wf(),
            st.wf(),
            old(self).total + st.count <= u64::MAX,
        ensures
            final(self).wf(),
            final(self)@ == gadd(old(self)@, key@, st@),
            final(self).total == old(self).total + st.count,
    {
        let ghost es0 = self.ges();
        let (j, eq) = find_slot(&self.entries, &key);
        proof {
            lemma_csum_bounds(es0);
        }
        if eq {
            let ghost pre = es0.take(j as int);
            let ghost post = es0.skip(j as int + 1);
            let ghost e = es0[j as int];
            proof {
                assert(es0 =~= pre + seq![e] + post);
                assert forall|i: int| 0 <= i < post.len() implies (#[trigger] post[i]).0 != e.0 by {
                    assert(post[i] == es0[j + 1 + i]);
                    assert(lex_lt(es0[j as int].0, es0[j + 1 + i].0));
                    lemma_lex_irrefl(e.0);
                }
                lemma_map_of_splice(pre, post, e);
                lemma_csum_concat(pre + seq![e], post);
                lemma_csum_concat(pre, seq![e]);
                assert(seq![e].drop_last() =~= Seq::<(Seq<u8>, GStats)>::empty());
                assert(csum(Seq::<(Seq<u8>, GStats)>::empty()) == 0);
                assert(csum(seq![e]) == e.1.count);
                lemma_map_of_contains(es0, key@);
                assert(es0[j as int].0 == key@);
                assert(old(self)@.dom().contains(key@));
                assert(old(self)@[key@] == e.1);
            }
            let (k0, mut st0) = self.entries.remove(j);
            proof {
                assert(st0@ == e.1 && k0@ == e.0);
                assert(st0.count <= csum(es0));
            }
            st0.merge(&st);
            self.entries.insert(j, (k0, st0));
            self.total = self.total + st.count;
            proof {
                let es1 = self.ges();
                let e2 = (key@, gmerge(e.1, st@));
                assert forall|i: int| 0 <= i < es1.len() implies es1[i] == (pre + seq![e2]
                    + post)[i] by {
                    if i < j {
                        assert(es1[i] == es0[i]);
                    } else if i > j {
                        assert(es1[i] == es0[i]);
                    }
                }
                assert(es1 =~= pre + seq![e2] + post);
                assert forall|i: int| 0 <= i < post.len() implies (#[trigger] post[i]).0 != e2.0
                    by {
                    assert(post[i] == es0[j + 1 + i]);
                    assert(lex_lt(es0[j as int].0, es0[j + 1 + i].0));
                    lemma_lex_irrefl(e2.0);
                }
                lemma_map_of_splice(pre, post, e2);
                assert(self@ =~= gadd(old(self)@, key@, st@));
                // sortedness and statistic well-formedness carry over
                assert forall|x: int, y: int| 0 <= x < y < es1.len() implies #[trigger] lex_lt(
                    es1[x].0, es1[y].0) by {
                    assert(es1[x].0 == es0[x].0 && es1[y].0 == es0[y].0);
                    assert(lex_lt(es0[x].0, es0[y].0));
                }
                assert forall|i: int| 0 <= i < es1.len() implies #[trigger] gwf(es1[i].1) by {
                    if i == j {
                        assert(es1[i].1 == st0@);
                    } else {
                        assert(es1[i].1 == es0[i].1);
                        assert(gwf(es0[i].1));
                    }
                }
                lemma_csum_concat(pre + seq![e2], post);
                lemma_csum_concat(pre, seq![e2]);
                assert(seq![e2].drop_last() =~= Seq::<(Seq<u8>, GStats)>::empty());
                assert(csum(Seq::<(Seq<u8>, GStats)>::empty()) == 0);
                assert(csum(seq![e2]) == e2.1.count);
            }
        } else {
            let ghost pre = es0.take(j as int);
            let ghost post = es0.skip(j as int);
            proof {
                assert(es0 =~= pre + post);
                assert forall|i: int| 0 <= i < es0.len() implies (#[trigger] es0[i]).0 != key@ by {
                    if i < j {
                        assert(lex_lt(es0[i].0, key@));
                        lemma_lex_irrefl(key@);
                    } else {
                        assert(lex_lt(key@, es0[j as int].0));
                        if i > j {
                            assert(lex_lt(es0[j as int].0, es0[i].0));
                            lemma_lex_trans(key@, es0[j as int].0, es0[i].0);
                        }
                        lemma_lex_irrefl(key@);
                    }
                }
                lemma_map_of_contains(es0, key@);
                assert(!old(self)@.dom().contains(key@));
            }
            self.entries.insert(j, (key, st));
            self.total = self.total + st.count;
            proof {
                let es1 = self.ges();
                let ghost k = key@;
                let e2 = (k, st@);
                assert forall|i: int| 0 <= i < es1.len() implies es1[i] == (pre + seq![e2]
                    + post)[i] by {
                    if i < j {
                        assert(es1[i] == es0[i]);
                    } else if i > j {
                        assert(es1[i] == es0[i - 1]);
                    }
                }
                assert(es1 =~= pre + seq![e2] + post);
                assert forall|i: int| 0 <= i < post.len() implies (#[trigger] post[i]).0 != k by {
                    assert(post[i] == es0[j + i]);
                }
                lemma_map_of_splice(pre, post, e2);
                assert(map_of(pre + post) == old(self)@);
                assert(self@ =~= gadd(old(self)@, k, st@));
                assert forall|x: int, y: int| 0 <= x < y < es1.len() implies #[trigger] lex_lt(
                    es1[x].0, es1[y].0) by {
                    if y < j {
                        assert(es1[x] == es0[x] && es1[y] == es0[y]);
                        assert(lex_lt(es0[x].0, es0[y].0));
                    } else if y == j {
                        assert(es1[x] == es0[x]);
                        assert(lex_lt(es0[x].0, k));
                    } else if x > j {
                        assert(es1[x] == es0[x - 1] && es1[y] == es0[y - 1]);
                        assert(lex_lt(es0[x - 1].0, es0[y - 1].0));
                    } else if x == j {
                        assert(es1[y] == es0[y - 1]);
                        assert(y - 1 >= j);
                        assert(lex_lt(k, es0[j as int].0));
                        if y - 1 > j {
                            assert(lex_lt(es0[j as int].0, es0[y - 1].0));
                            lemma_lex_trans(k, es0[j as int].0, es0[y - 1].0);
                        }
                    } else {
                        // x < j < y
                        assert(es1[x] == es0[x] && es1[y] == es0[y - 1]);
                        assert(lex_lt(es0[x].0, k));
                        assert(lex_lt(k, es0[j as int].0));
                        if y - 1 == j {
                            lemma_lex_trans(es0[x].0, k, es0[y - 1].0);
                        } else {
                            assert(lex_lt(es0[j as int].0, es0[y - 1].0));
                            lemma_lex_trans(k, es0[j as int].0, es0[y - 1].0);
                            lemma_lex_trans(es0[x].0, k, es0[y - 1].0);
                        }
                    }
                }
                assert forall|i: int| 0 <= i < es1.len() implies #[trigger] gwf(es1[i].1) by {
                    if i < j {
                        assert(es1[i].1 == es0[i].1);
                        assert(gwf(es0[i].1));
                    } else if i > j {
                        assert(es1[i].1 == es0[i - 1].1);
                        assert(gwf(es0[i - 1].1));
                    }
                }
                lemma_csum_concat(pre + seq![e2], post);
                lemma_csum_concat(pre, seq![e2]);
                lemma_csum_concat(pre, post);
                assert(seq![e2].drop_last() =~= Seq::<(Seq<u8>, GStats)>::empty());
                assert(csum(Seq::<(Seq<u8>, GStats)>::empty()) == 0);
                assert(csum(seq![e2]) == e2.1.count);
            }
        }
    }

    /// Fold one observed value for `key` into the aggregate.
    pub fn observe(&mut self, key: Vec<u8>, v: i64)
        requires
            old(self).wf(),
            old(self).total < u64::MAX,
        ensures
            final(self).wf(),
            final(self)@ == gobserve(old(self)@, GRec { key: key@, v: v as int }),
            final(self).total == old(self).total + 1,
    {
        let st = Stats::new(v);
        self.merge_entry(key, st);
    }

    /// Fold another aggregate into this one.  The merge follows
    /// `gmerge_map`: a union over keys with per-key reduction, so the order
    /// in which aggregates arrive cannot matter.
    pub fn merge(&mut self, other: &Aggregate)
        requires
            old(self).wf(),
            other.wf(),
            old(self).total + other.total <= u64::MAX,
        ensures
            final(self).wf(),
            final(self)@ == gmerge_map(old(self)@, other@),
            final(self).total == old(self).total + other.total,
    {
        let ghost m0 = self@;
        let ghost t0 = self.total;
        let ghost oes = other.ges();
        proof {
            assert(oes.take(0) =~= Seq::<(Seq<u8>, GStats)>::empty());
            crate::model::lemma_gmerge_map_empty(m0);
        }
        let n = other.entries.len();
        let mut i: usize = 0;
        while i < n
            invariant
                self.wf(),
                other.wf(),
                0 <= i <= n,
                n == other.entries@.len(),
                oes == other.ges(),
                m0 == old(self)@,
                t0 == old(self).total,
                self@ == gmerge_map(m0, map_of(oes.take(i as int))),
                self.total as int == t0 + csum(oes.take(i as int)),
                t0 + other.total <= u64::MAX,
                other.total as int == csum(oes),
            decreases n - i,
        {
            let klen = other.entries[i].0.len();
            let key = copy_range(&other.entries[i].0, 0, klen);
            let st = other.entries[i].1;
            let ghost e = oes[i as int];
            proof {
                assert(key@ == e.0 && st@ == e.1);
                assert(gwf(e.1));
                assert(oes =~= oes.take(i as int) + seq![e] + oes.skip(i as int + 1));
                lemma_csum_concat(oes.take(i as int) + seq![e], oes.skip(i as int + 1));
                lemma_csum_concat(oes.take(i as int), seq![e]);
                assert(seq![e].drop_last() =~= Seq::<(Seq<u8>, GStats)>::empty());
                assert(csum(Seq::<(Seq<u8>, GStats)>::empty()) == 0);
                assert(csum(seq![e]) == e.1.count);
                let sk = oes.skip(i as int + 1);
                assert forall|x: int| 0 <= x < sk.len() implies #[trigger] gwf(sk[x].1) by {
                    assert(sk[x] == oes[i + 1 + x]);
                    assert(gwf(oes[i + 1 + x].1));
                }
                lemma_csum_bounds(sk);
                assert(csum(oes.take(i as int)) + st.count <= csum(oes));
            }
            self.merge_entry(key, st);
            proof {
                lemma_gadd_gmerge_map(m0, map_of(oes.take(i as int)), e.0, e.1);
                // the key is new to the processed prefix, so folding it in
                // extends the prefix mapping by one entry
                let pref = oes.take(i as int);
                assert forall|x: int| 0 <= x < pref.len() implies (#[trigger] pref[x]).0 != e.0 by {
                    assert(pref[x] == oes[x]);
                    assert(lex_lt(oes[x].0, oes[i as int].0));
                    lemma_lex_irrefl(e.0);
                }
                lemma_map_of_contains(pref, e.0);
                assert(oes.take(i as int + 1) =~= pref.push(e));
                assert(pref.push(e).drop_last() =~= pref);
                assert(map_of(oes.take(i as int + 1)) == map_of(pref).insert(e.0, e.1));
                assert(gadd(map_of(pref), e.0, e.1) == map_of(oes.take(i as int + 1)));
                lemma_csum_concat(pref, seq![e]);
                assert(pref + seq![e] =~= oes.take(i as int + 1));
            }
            i = i + 1;
        }
        proof {
            assert(oes.take(n as int) =~= oes);
        }
    }

    /// Look up the statistic recorded for `key`, if any.
    pub fn get(&self, key: &Vec<u8>) -> (r: Option<Stats>)
        requires
            self.wf(),
        ensures
            r is Some <==> self@.dom().contains(key@),
            r matches Some(st) ==> st@ == self@[key@] && st.wf(),
    {
        let (j, eq) = find_slot(&self.entries, key);
        let ghost es0 = self.ges();
        if eq {
            proof {
                let pre = es0.take(j as int);
                let post = es0.skip(j as int + 1);
                let e = es0[j as int];
                assert(es0 =~= pre + seq![e] + post);
                assert forall|i: int| 0 <= i < post.len() implies (#[trigger] post[i]).0 != e.0 by {
                    assert(post[i] == es0[j + 1 + i]);
                    assert(lex_lt(es0[j as int].0, es0[j + 1 + i].0));
                    lemma_lex_irrefl(e.0);
                }
                lemma_map_of_splice(pre, post, e);
                lemma_map_of_contains(es0, key@);
                assert(gwf(es0[j as int].1));
            }
            Some(self.entries[j].1)
        } else {
            proof {
                assert forall|i: int| 0 <= i < es0.len() implies (#[trigger] es0[i]).0 != key@ by {
                    if i < j {
                        assert(lex_lt(es0[i].0, key@));
                        lemma_lex_irrefl(key@);
                    } else {
                        assert(lex_lt(key@, es0[j as int].0));
                        if i > j {
                            assert(lex_lt(es0[j as int].0, es0[i].0));
                            lemma_lex_trans(key@, es0[j as int].0, es0[i].0);
                        }
                        lemma_lex_irrefl(key@);
                    }
                }
                lemma_map_of_contains(es0, key@);
            }
            None
        }
    }

    /// The number of observations folded in so far.
    pub fn total_count(&self) -> (r: u64)
        ensures
            r == self.total,
    {
        self.total
    }

    /// The number of distinct keys.
    pub fn len(&self) -> (r: usize)
        ensures
            r == self.ges().len(),
    {
        self.entries.len()
    }
}

} // verus!
