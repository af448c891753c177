//! The laws the engine rests on, stated over whole inputs.  Together with
//! the commutativity, associativity and canonical-representation lemmas of
//! `model`, they say: however the input is cut into line-aligned chunks and
//! however the partial aggregates are merged, the report is the same.

use vstd::prelude::*;
use crate::model::{agg_of, gmerge_map, lemma_agg_concat};
use crate::records::{
    lines_of, valid_input, records_of, lemma_records_concat, lemma_records_empty,
    lemma_lines_push_nl, lemma_blank_last, lemma_lines_len,
};
use crate::engine::report_for;

verus! {

/// Splitting the input at a line boundary and merging the two partial
/// aggregates is the same as aggregating the whole input in one pass.
pub proof fn lemma_split_merge(a: Seq<u8>, b: Seq<u8>)
    requires
        a.len() == 0 || a.last() == 10,
    ensures
        records_of(a + b) == records_of(a) + records_of(b),
        agg_of(records_of(a + b)) == gmerge_map(agg_of(records_of(a)), agg_of(records_of(b))),
        valid_input(a + b) <==> valid_input(a) && valid_input(b),
{
    lemma_records_concat(a, b);
    lemma_agg_concat(records_of(a), records_of(b));
}

/// An input without a trailing newline is processed exactly as the same
/// input with one: appending the newline changes no record and no report.
pub proof fn lemma_trailing_newline(s: Seq<u8>)
    ensures
        records_of(s.push(10)) == records_of(s),
        valid_input(s.push(10)) <==> valid_input(s),
        report_for(s.push(10)) == report_for(s),
{
    lemma_lines_push_nl(s);
    lemma_lines_len(s);
    lemma_blank_last(lines_of(s.push(10)));
    assert(lines_of(s.push(10)).drop_last() =~= lines_of(s));
}

/// A newline alone carries no record and no validity demand.
pub proof fn lemma_newline_only()
    ensures
        records_of(seq![10u8]) == Seq::<crate::records::GRec>::empty(),
        valid_input(seq![10u8]),
{
    lemma_records_empty();
    assert(seq![10u8] =~= Seq::<u8>::empty().push(10));
    lemma_trailing_newline(Seq::<u8>::empty());
}

/// A blank line inserted between two line-aligned parts of the input leaves
/// records, validity and the report unchanged.
pub proof fn lemma_blank_line(a: Seq<u8>, b: Seq<u8>)
    ensures
        records_of(a + seq![10u8] + seq![10u8] + b) == records_of(a + seq![10u8] + b),
        valid_input(a + seq![10u8] + seq![10u8] + b) <==> valid_input(a + seq![10u8] + b),
        report_for(a + seq![10u8] + seq![10u8] + b) == report_for(a + seq![10u8] + b),
{
    let a1 = a + seq![10u8];
    assert(a1.last() == 10);
    assert(a + seq![10u8] + seq![10u8] + b =~= a1 + (seq![10u8] + b));
    assert(a + seq![10u8] + b =~= a1 + b);
    lemma_records_concat(a1, seq![10u8] + b);
    lemma_records_concat(a1, b);
    lemma_records_concat(seq![10u8], b);
    lemma_newline_only();
    assert(records_of(a1 + (seq![10u8] + b)) =~= records_of(a1 + b));
}

} // verus!
