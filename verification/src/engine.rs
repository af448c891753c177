//! The engine: aggregate one chunk of whole lines, and run the whole
//! pipeline over an in-memory input with any chunk size.  The contract of
//! `summarize` does not mention the chunk size at all: wherever the chunk
//! boundaries fall, the report is the same.

use vstd::prelude::*;
use crate::aggregate::Aggregate;
use crate::chunk::chunk_step;
use crate::model::{agg_of, map_of, entries_sorted, lemma_agg_concat, lemma_entries_canonical};
use crate::parse::{copy_range, parse_line};
use crate::records::{
    GRec, lines_of, lines_valid, valid_input, records_of, recs_of_lines, first_bad_of, first_bad,
    lemma_nl_end_is, lemma_lines_single, lemma_recs_lines_concat, lemma_blank_last,
    lemma_records_concat, lemma_records_empty, lemma_records_le_len,
};
use crate::render::{render_report, report_of_entries};
use crate::stats::GStats;

verus! {

/// The failure of a run: a non-blank line that is not `key;value` with a
/// numeric value in range.  The offending line is carried along.
pub enum EngineError {
    Parse(Vec<u8>),
}

/// Aggregate one chunk of whole lines into a fresh per-key aggregate.
/// Succeeds exactly when every non-blank line is a valid record; fails with
/// the first line that is not.
#[verifier::loop_isolation(false)]
pub fn aggregate_chunk(chunk: &Vec<u8>) -> (r: Result<Aggregate, EngineError>)
    ensures
        r is Ok <==> valid_input(chunk@),
        r matches Ok(a) ==> a.wf() && a@ == agg_of(records_of(chunk@)) && a.total as int
            == records_of(chunk@).len(),
        r matches Err(e) ==> (e matches EngineError::Parse(line) && line@ == first_bad_of(chunk@)),
{
    let ghost s = chunk@;
    let n = chunk.len();
    let mut agg = Aggregate::new();
    let mut p: usize = 0;
    let ghost mut ldone: Seq<Seq<u8>> = Seq::<Seq<u8>>::empty();
    proof {
        assert(s.skip(0) =~= s);
        assert(ldone + lines_of(s) =~= lines_of(s));
        assert(recs_of_lines(ldone) == Seq::<GRec>::empty());
        assert(agg_of(Seq::<GRec>::empty()) == Map::<Seq<u8>, GStats>::empty());
        assert(lines_of(Seq::<u8>::empty()) =~= seq![Seq::<u8>::empty()]);
        assert(s.skip(n as int) =~= Seq::<u8>::empty());
    }
    let ghost mut closed: bool = false;
    while p < n
        invariant
            0 <= p <= n,
            closed ==> p == n && lines_of(s) == ldone,
            !closed ==> lines_of(s) == ldone + lines_of(s.skip(p as int)),
            lines_valid(ldone),
            agg.wf(),
            agg@ == agg_of(recs_of_lines(ldone)),
            agg.total as int == recs_of_lines(ldone).len(),
            !closed ==> 2 * recs_of_lines(ldone).len() <= p,
            closed ==> 2 * recs_of_lines(ldone).len() <= p + 1,
        decreases n - p,
    {
        let mut j: usize = p;
        while j < n && chunk[j] != 10
            invariant
                p <= j <= n,
                forall|i: int| p <= i < j ==> s[i] != 10,
            decreases n - j,
        {
            j = j + 1;
        }
        let line = copy_range(chunk, p, j);
        let ghost rem = s.skip(p as int);
        let ghost lrest: Seq<Seq<u8>> = if j < n {
            lines_of(s.skip(j as int + 1))
        } else {
            Seq::<Seq<u8>>::empty()
        };
        proof {
            assert forall|i: int| 0 <= i < j - p implies rem[i] != 10 by {
                assert(rem[i] == s[p + i]);
            }
            if j < n {
                assert(rem[j - p] == s[j as int]);
            }
            lemma_nl_end_is(rem, j - p);
            assert(line@ =~= rem.subrange(0, j - p));
            if j < n {
                assert(rem.subrange(j - p + 1, rem.len() as int) =~= s.skip(j as int + 1));
                assert(lines_of(rem) == seq![line@] + lrest);
            } else {
                assert(rem =~= line@);
                assert(seq![line@] + lrest =~= seq![line@]);
                assert(lines_of(rem) == seq![line@] + lrest);
            }
            lemma_lines_single(line@);
            lemma_recs_lines_concat(ldone, seq![line@] + lrest);
            lemma_recs_lines_concat(seq![line@], lrest);
            lemma_recs_lines_concat(ldone, seq![line@]);
        }
        if line.len() > 0 {
            match parse_line(&line) {
                Some((key, v)) => {
                    proof {
                        assert(agg.total < u64::MAX);
                        assert((recs_of_lines(ldone) + seq![
                            GRec { key: crate::parse::key_of(line@), v: crate::parse::val_of(
                                line@) },
                        ]).drop_last() =~= recs_of_lines(ldone));
                    }
                    agg.observe(key, v);
                },
                None => {
                    proof {
                        assert(!lines_valid(seq![line@]));
                        assert(!lines_valid(lines_of(s)));
                        assert(first_bad_of(s) == first_bad(seq![line@] + lrest));
                        assert(first_bad(seq![line@] + lrest) == line@);
                    }
                    return Err(EngineError::Parse(line));
                },
            }
        }
        proof {
            assert(ldone + (seq![line@] + lrest) =~= ldone.push(line@) + lrest);
            assert(ldone.push(line@) =~= ldone + seq![line@]);
            ldone = ldone.push(line@);
        }
        if j >= n {
            proof {
                assert(lrest =~= Seq::<Seq<u8>>::empty());
                assert(ldone + lrest =~= ldone);
                closed = true;
            }
            p = n;
        } else {
            p = j + 1;
        }
    }
    proof {
        if !closed {
            assert(lines_of(s) == ldone + seq![Seq::<u8>::empty()]);
            crate::records::lemma_lines_len(s);
            assert(lines_of(s).last().len() == 0);
            lemma_blank_last(lines_of(s));
            assert(lines_of(s).drop_last() =~= ldone);
        }
    }
    Ok(agg)
}

/// The one sorted entry list that represents a mapping.
pub open spec fn canonical_entries(m: Map<Seq<u8>, GStats>) -> Seq<(Seq<u8>, GStats)> {
    choose|es: Seq<(Seq<u8>, GStats)>| entries_sorted(es) && map_of(es) == m
}

/// The report owed for an input: aggregate every record, lay the result out
/// in key order, and render each entry.  No chunking or scheduling appears
/// here: any run that processes every line once must produce exactly this.
pub open spec fn report_for(s: Seq<u8>) -> Seq<u8> {
    report_of_entries(canonical_entries(agg_of(records_of(s))))
}

/// Run the whole engine over an in-memory input, reading it in chunks of at
/// most `chunk_size` bytes, splitting at line boundaries, aggregating each
/// chunk and merging.  The result does not depend on `chunk_size`.
#[verifier::loop_isolation(false)]
pub fn summarize(input: &Vec<u8>, chunk_size: usize) -> (r: Result<Vec<u8>, EngineError>)
    requires
        1 <= chunk_size,
    ensures
        r is Ok <==> valid_input(input@),
        r matches Ok(out) ==> out@ == report_for(input@),
        r matches Err(e) ==> (e matches EngineError::Parse(line) && line@ == first_bad_of(
        input@)),
{
    let ghost s = input@;
    let n = input.len();
    let mut global = Aggregate::new();
    let mut leftover: Vec<u8> = Vec::new();
    let mut pos: usize = 0;
    let ghost mut done: Seq<u8> = Seq::<u8>::empty();
    proof {
        lemma_records_empty();
        assert(done + leftover@ =~= s.subrange(0, 0));
        assert(agg_of(Seq::<GRec>::empty()) == Map::<Seq<u8>, GStats>::empty());
        assert(s.subrange(0, n as int) =~= s);
    }
    while pos < n
        invariant
            0 <= pos <= n == s.len(),
            done + leftover@ == s.subrange(0, pos as int),
            pos < n ==> (done.len() == 0 || done.last() == 10),
            pos == n ==> leftover@.len() == 0,
            valid_input(done),
            global.wf(),
            global@ == agg_of(records_of(done)),
            global.total as int == records_of(done).len(),
            pos == n ==> done == s,
        decreases n - pos,
    {
        let avail = n - pos;
        let take_n = if avail < chunk_size {
            avail
        } else {
            chunk_size
        };
        let data = copy_range(input, pos, pos + take_n);
        let at_eof = pos + take_n == n;
        let ghost lo = leftover@;
        let (piece, rest2) = chunk_step(leftover, &data, at_eof);
        leftover = rest2;
        let ghost done2 = done + piece@;
        let ghost tail = leftover@ + s.skip((pos + take_n) as int);
        proof {
            assert(done2 + leftover@ =~= done + (lo + data@));
            assert(done + (lo + data@) =~= s.subrange(0, (pos + take_n) as int));
            assert(s =~= s.subrange(0, (pos + take_n) as int) + s.skip((pos + take_n) as int));
            assert(s =~= done + (piece@ + tail));
            lemma_records_concat(done, piece@ + tail);
            if at_eof {
                assert(s.skip((pos + take_n) as int) =~= Seq::<u8>::empty());
                assert(tail =~= Seq::<u8>::empty());
                assert(piece@ + tail =~= piece@);
            } else {
                lemma_records_concat(piece@, tail);
            }
        }
        match aggregate_chunk(&piece) {
            Ok(a) => {
                proof {
                    lemma_records_concat(done, piece@);
                    lemma_records_le_len(done2);
                    assert(records_of(done2).len() <= done2.len());
                    assert(done2.len() <= pos + take_n);
                }
                global.merge(&a);
                proof {
                    lemma_agg_concat(records_of(done), records_of(piece@));
                    done = done2;
                }
            },
            Err(e) => {
                proof {
                    assert(!valid_input(piece@));
                    assert(!valid_input(s));
                    assert(first_bad_of(s) == first_bad_of(piece@ + tail));
                    if !at_eof {
                        assert(first_bad_of(piece@ + tail) == first_bad_of(piece@));
                    }
                }
                return Err(e);
            },
        }
        pos = pos + take_n;
    }
    proof {
        assert(done == s);
    }
    let out = render_report(&global);
    proof {
        let m = agg_of(records_of(s));
        assert(entries_sorted(global.ges()) && map_of(global.ges()) == m);
        assert(exists|es: Seq<(Seq<u8>, GStats)>| entries_sorted(es) && map_of(es) == m);
        let ce = canonical_entries(m);
        assert(entries_sorted(ce) && map_of(ce) == m);
        lemma_entries_canonical(global.ges(), ce);
    }
    Ok(out)
}

} // verus!
