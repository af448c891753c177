//! The input model: a byte sequence splits into `\n`-separated lines; blank
//! lines are skipped; every other line is a record.  The lemmas here show
//! that splitting the input at a newline splits its record sequence, which
//! is what makes line-aligned chunking safe.

use vstd::prelude::*;
use crate::parse::{line_ok, key_of, val_of};

verus! {

/// A record: a key and its scaled (hundredths) value.
pub ghost struct GRec {
    pub key: Seq<u8>,
    pub v: int,
}

/// Position of the first newline of `s` at or after `i` (or the end).
pub open spec fn nl_end(s: Seq<u8>, i: int) -> int
    decreases s.len() - i,
{
    if i < 0 || i >= s.len() {
        i
    } else if s[i] == 10 {
        i
    } else {
        nl_end(s, i + 1)
    }
}

/// `nl_end` lands between `i` and the end, everything before it (from `i`
/// on) is not a newline, and the byte it lands on (if any) is one.
pub proof fn lemma_nl_end(s: Seq<u8>, i: int)
    requires
        0 <= i <= s.len(),
    ensures
        i <= nl_end(s, i) <= s.len(),
        forall|j: int| i <= j < nl_end(s, i) ==> s[j] != 10,
        nl_end(s, i) == s.len() || s[nl_end(s, i)] == 10,
    decreases s.len() - i,
{
    if i < s.len() && s[i] != 10 {
        lemma_nl_end(s, i + 1);
    }
}

/// A position with no newline before it that sits on a newline (or the end)
/// is exactly `nl_end`.
pub proof fn lemma_nl_end_is(s: Seq<u8>, j: int)
    requires
        0 <= j <= s.len(),
        forall|i: int| 0 <= i < j ==> s[i] != 10,
        j == s.len() || s[j] == 10,
    ensures
        nl_end(s, 0) == j,
{
    lemma_nl_end(s, 0);
    let k = nl_end(s, 0);
    if k < j {
        assert(s[k] != 10);
    } else if j < k {
        assert(s[j] != 10);
    }
}

/// The lines of `s`: split on `\n`.  A trailing newline yields a final
/// blank line; the empty input is one blank line.
pub open spec fn lines_of(s: Seq<u8>) -> Seq<Seq<u8>>
    decreases s.len(),
{
    let k = nl_end(s, 0);
    if !(0 <= k < s.len()) {
        seq![s]
    } else {
        seq![s.subrange(0, k)] + lines_of(s.subrange(k + 1, s.len() as int))
    }
}

/// Every line sequence is non-empty.
pub proof fn lemma_lines_len(s: Seq<u8>)
    ensures
        lines_of(s).len() >= 1,
{
}

/// A sequence ending in a newline ends in a blank line.
pub proof fn lemma_lines_last_blank(s: Seq<u8>)
    requires
        s.len() == 0 || s.last() == 10,
    ensures
        lines_of(s).last().len() == 0,
    decreases s.len(),
{
    lemma_nl_end(s, 0);
    let k = nl_end(s, 0);
    if s.len() == 0 {
    } else if 0 <= k < s.len() {
        let rest = s.subrange(k + 1, s.len() as int);
        if rest.len() == 0 {
            assert(lines_of(rest) =~= seq![rest]);
            assert(lines_of(s).last() =~= rest);
        } else {
            assert(rest.last() == s.last());
            lemma_lines_last_blank(rest);
        }
    } else {
        assert(s.last() != 10);
    }
}

/// Splitting off a `\n`-terminated prefix splits the line sequence: the
/// prefix's lines (minus its trailing blank) come first, then the rest's.
pub proof fn lemma_lines_concat(a: Seq<u8>, b: Seq<u8>)
    requires
        a.len() > 0,
        a.last() == 10,
    ensures
        lines_of(a + b) == lines_of(a).drop_last() + lines_of(b),
    decreases a.len(),
{
    lemma_nl_end(a, 0);
    let k = nl_end(a, 0);
    assert(k < a.len());
    let ab = a + b;
    assert(forall|i: int| 0 <= i < k ==> ab[i] != 10);
    assert(ab[k] == 10);
    lemma_nl_end_is(ab, k);
    assert(ab.subrange(0, k) =~= a.subrange(0, k));
    let arest = a.subrange(k + 1, a.len() as int);
    assert(ab.subrange(k + 1, ab.len() as int) =~= arest + b);
    if k == a.len() - 1 {
        assert(arest.len() == 0);
        assert(arest + b =~= b);
        assert(lines_of(arest) =~= seq![arest]);
        assert(lines_of(a) =~= seq![a.subrange(0, k)] + seq![arest]);
        assert(lines_of(a).drop_last() =~= seq![a.subrange(0, k)]);
        assert(lines_of(a + b) =~= lines_of(a).drop_last() + lines_of(b));
    } else {
        assert(arest.len() > 0);
        assert(arest.last() == a.last());
        lemma_lines_concat(arest, b);
        assert(lines_of(a) == seq![a.subrange(0, k)] + lines_of(arest));
        assert(lines_of(a).drop_last() =~= seq![a.subrange(0, k)] + lines_of(arest).drop_last());
        assert(lines_of(a + b) =~= lines_of(a).drop_last() + lines_of(b));
    }
}

/// Appending a newline appends one blank line.
pub proof fn lemma_lines_push_nl(s: Seq<u8>)
    ensures
        lines_of(s.push(10)) == lines_of(s).push(Seq::<u8>::empty()),
    decreases s.len(),
{
    lemma_nl_end(s, 0);
    let k = nl_end(s, 0);
    let t = s.push(10);
    if !(0 <= k < s.len()) {
        assert(forall|i: int| 0 <= i < s.len() ==> t[i] != 10);
        assert(t[s.len() as int] == 10);
        lemma_nl_end_is(t, s.len() as int);
        assert(t.subrange(0, s.len() as int) =~= s);
        assert(t.subrange(s.len() as int + 1, t.len() as int) =~= Seq::<u8>::empty());
        assert(lines_of(Seq::<u8>::empty()) =~= seq![Seq::<u8>::empty()]);
        assert(lines_of(t) =~= lines_of(s).push(Seq::<u8>::empty()));
    } else {
        assert(forall|i: int| 0 <= i < k ==> t[i] != 10);
        assert(t[k] == 10);
        lemma_nl_end_is(t, k);
        assert(t.subrange(0, k) =~= s.subrange(0, k));
        let rest = s.subrange(k + 1, s.len() as int);
        assert(t.subrange(k + 1, t.len() as int) =~= rest.push(10));
        lemma_lines_push_nl(rest);
        assert(lines_of(t) =~= lines_of(s).push(Seq::<u8>::empty()));
    }
}

/// Every non-blank line of the line sequence `ls` is a valid record line.
pub open spec fn lines_valid(ls: Seq<Seq<u8>>) -> bool {
    forall|i: int| 0 <= i < ls.len() && #[trigger] ls[i].len() > 0 ==> line_ok(ls[i])
}

/// Every non-blank line of the input is a valid record line.
pub open spec fn valid_input(s: Seq<u8>) -> bool {
    lines_valid(lines_of(s))
}

/// The records of a line sequence: one per non-blank line, in order.
pub open spec fn recs_of_lines(ls: Seq<Seq<u8>>) -> Seq<GRec>
    decreases ls.len(),
{
    if ls.len() == 0 {
        Seq::empty()
    } else {
        let head: Seq<GRec> = if ls[0].len() > 0 {
            seq![GRec { key: key_of(ls[0]), v: val_of(ls[0]) }]
        } else {
            Seq::empty()
        };
        head + recs_of_lines(ls.drop_first())
    }
}

/// The records of the input, in input order.
pub open spec fn records_of(s: Seq<u8>) -> Seq<GRec> {
    recs_of_lines(lines_of(s))
}

/// The first non-blank line that is not a valid record (meaningful only
/// when one exists).
pub open spec fn first_bad(ls: Seq<Seq<u8>>) -> Seq<u8>
    decreases ls.len(),
{
    if ls.len() == 0 {
        Seq::empty()
    } else if ls[0].len() > 0 && !line_ok(ls[0]) {
        ls[0]
    } else {
        first_bad(ls.drop_first())
    }
}

/// The first invalid record line of the whole input.
pub open spec fn first_bad_of(s: Seq<u8>) -> Seq<u8> {
    first_bad(lines_of(s))
}

/// Records, validity and the first bad line all split over line-sequence
/// concatenation.
pub proof fn lemma_recs_lines_concat(la: Seq<Seq<u8>>, lb: Seq<Seq<u8>>)
    ensures
        recs_of_lines(la + lb) == recs_of_lines(la) + recs_of_lines(lb),
        lines_valid(la + lb) <==> lines_valid(la) && lines_valid(lb),
        lines_valid(la) ==> first_bad(la + lb) == first_bad(lb),
        !lines_valid(la) ==> first_bad(la + lb) == first_bad(la),
    decreases la.len(),
{
    if la.len() == 0 {
        assert(la + lb =~= lb);
        assert(recs_of_lines(la) + recs_of_lines(lb) =~= recs_of_lines(lb));
    } else {
        assert((la + lb).drop_first() =~= la.drop_first() + lb);
        lemma_recs_lines_concat(la.drop_first(), lb);
        assert((la + lb)[0] == la[0]);
        assert(recs_of_lines(la + lb) =~= recs_of_lines(la) + recs_of_lines(lb));
        let d = la.drop_first();
        if lines_valid(la) {
            assert forall|i: int| 0 <= i < d.len() && #[trigger] d[i].len() > 0 implies line_ok(
                d[i]) by {
                assert(d[i] == la[i + 1]);
            }
        }
        if lines_valid(d) && (la[0].len() == 0 || line_ok(la[0])) {
            assert forall|i: int| 0 <= i < la.len() && #[trigger] la[i].len() > 0 implies line_ok(
                la[i]) by {
                if i >= 1 {
                    assert(la[i] == d[i - 1]);
                }
            }
        }
        if lines_valid(la) && lines_valid(lb) {
            assert forall|i: int|
                0 <= i < (la + lb).len() && #[trigger] (la + lb)[i].len() > 0 implies line_ok(
                (la + lb)[i]) by {
                if i < la.len() {
                    assert((la + lb)[i] == la[i]);
                } else {
                    assert((la + lb)[i] == lb[i - la.len()]);
                }
            }
        }
        if lines_valid(la + lb) {
            assert forall|i: int| 0 <= i < la.len() && #[trigger] la[i].len() > 0 implies line_ok(
                la[i]) by {
                assert(la[i] == (la + lb)[i]);
            }
            assert forall|i: int| 0 <= i < lb.len() && #[trigger] lb[i].len() > 0 implies line_ok(
                lb[i]) by {
                assert(lb[i] == (la + lb)[i + la.len()]);
            }
        }
    }
}

/// A blank line at the end of a line sequence carries no record, no
/// validity demand and no bad line.
pub proof fn lemma_blank_last(ls: Seq<Seq<u8>>)
    requires
        ls.len() > 0,
        ls.last().len() == 0,
    ensures
        recs_of_lines(ls.drop_last()) == recs_of_lines(ls),
        lines_valid(ls.drop_last()) <==> lines_valid(ls),
        first_bad(ls.drop_last()) == first_bad(ls),
{
    let single = seq![ls.last()];
    assert(ls =~= ls.drop_last() + single);
    lemma_recs_lines_concat(ls.drop_last(), single);
    assert(single.drop_first() =~= Seq::<Seq<u8>>::empty());
    assert(recs_of_lines(Seq::<Seq<u8>>::empty()) == Seq::<GRec>::empty());
    assert(first_bad(Seq::<Seq<u8>>::empty()) == Seq::<u8>::empty());
    assert(recs_of_lines(single) =~= Seq::<GRec>::empty());
    assert(recs_of_lines(ls.drop_last()) + Seq::<GRec>::empty() =~= recs_of_lines(
        ls.drop_last()));
    assert(lines_valid(single));
    assert(first_bad(single) == Seq::<u8>::empty());
    if lines_valid(ls.drop_last()) {
        assert(first_bad(ls) == first_bad(single));
        lemma_recs_lines_concat(ls.drop_last(), Seq::<Seq<u8>>::empty());
        assert(ls.drop_last() + Seq::<Seq<u8>>::empty() =~= ls.drop_last());
        assert(first_bad(ls.drop_last()) == Seq::<u8>::empty());
    }
}

/// Splitting the input after a `\n`-terminated prefix splits its records,
/// its validity and its first bad line.
pub proof fn lemma_records_concat(a: Seq<u8>, b: Seq<u8>)
    requires
        a.len() == 0 || a.last() == 10,
    ensures
        records_of(a + b) == records_of(a) + records_of(b),
        valid_input(a + b) <==> valid_input(a) && valid_input(b),
        valid_input(a) ==> first_bad_of(a + b) == first_bad_of(b),
        !valid_input(a) ==> first_bad_of(a + b) == first_bad_of(a),
{
    if a.len() == 0 {
        assert(a + b =~= b);
        assert(a =~= Seq::<u8>::empty());
        let blank = seq![Seq::<u8>::empty()];
        assert(lines_of(a) =~= blank);
        assert(blank.drop_first() =~= Seq::<Seq<u8>>::empty());
        assert(recs_of_lines(Seq::<Seq<u8>>::empty()) == Seq::<GRec>::empty());
        assert(first_bad(Seq::<Seq<u8>>::empty()) == Seq::<u8>::empty());
        assert(records_of(a) =~= Seq::<GRec>::empty());
        assert(records_of(a) + records_of(b) =~= records_of(b));
        assert(valid_input(a));
        assert(first_bad_of(a) == Seq::<u8>::empty());
    } else {
        lemma_lines_concat(a, b);
        lemma_lines_last_blank(a);
        lemma_lines_len(a);
        lemma_blank_last(lines_of(a));
        lemma_recs_lines_concat(lines_of(a).drop_last(), lines_of(b));
    }
}

/// The records, validity and first bad line of a single line.
pub proof fn lemma_lines_single(l: Seq<u8>)
    ensures
        recs_of_lines(seq![l]) == (if l.len() > 0 {
            seq![GRec { key: key_of(l), v: val_of(l) }]
        } else {
            Seq::<GRec>::empty()
        }),
        lines_valid(seq![l]) <==> (l.len() == 0 || line_ok(l)),
        first_bad(seq![l]) == (if l.len() > 0 && !line_ok(l) {
            l
        } else {
            Seq::<u8>::empty()
        }),
{
    let single = seq![l];
    assert(single.drop_first() =~= Seq::<Seq<u8>>::empty());
    assert(recs_of_lines(Seq::<Seq<u8>>::empty()) == Seq::<GRec>::empty());
    assert(first_bad(Seq::<Seq<u8>>::empty()) == Seq::<u8>::empty());
    if l.len() > 0 {
        assert(recs_of_lines(single) =~= seq![GRec { key: key_of(l), v: val_of(l) }]);
    } else {
        assert(recs_of_lines(single) =~= Seq::<GRec>::empty());
    }
    if l.len() == 0 || line_ok(l) {
        assert(lines_valid(single));
    } else {
        assert(single[0].len() > 0 && !line_ok(single[0]));
        assert(!lines_valid(single));
    }
}

/// The empty input has no records, is valid, and has no bad line.
pub proof fn lemma_records_empty()
    ensures
        records_of(Seq::<u8>::empty()) == Seq::<GRec>::empty(),
        valid_input(Seq::<u8>::empty()),
        first_bad_of(Seq::<u8>::empty()) == Seq::<u8>::empty(),
{
    let a = Seq::<u8>::empty();
    let blank = seq![Seq::<u8>::empty()];
    assert(lines_of(a) =~= blank);
    assert(blank.drop_first() =~= Seq::<Seq<u8>>::empty());
    assert(recs_of_lines(Seq::<Seq<u8>>::empty()) == Seq::<GRec>::empty());
    assert(first_bad(Seq::<Seq<u8>>::empty()) == Seq::<u8>::empty());
    assert(records_of(a) =~= Seq::<GRec>::empty());
    assert(lines_valid(blank));
}

/// An input has no more records than bytes: every record takes at least
/// one byte of its own line.
pub proof fn lemma_records_le_len(s: Seq<u8>)
    ensures
        records_of(s).len() <= s.len(),
    decreases s.len(),
{
    lemma_nl_end(s, 0);
    let k = nl_end(s, 0);
    if !(0 <= k < s.len()) {
        lemma_lines_single(s);
        assert(lines_of(s) == seq![s]);
    } else {
        let first = s.subrange(0, k);
        let rest = s.subrange(k + 1, s.len() as int);
        lemma_records_le_len(rest);
        lemma_recs_lines_concat(seq![first], lines_of(rest));
        lemma_lines_single(first);
        assert(lines_of(s) == seq![first] + lines_of(rest));
    }
}

} // verus!
