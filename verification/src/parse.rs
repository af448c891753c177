//! Record parsing: a line is `key;value`, the key is everything before the
//! first `;`, and the value is a decimal numeral with an optional sign and
//! at most two fractional digits.  Values are scaled by 100 into integer
//! hundredths, so accumulation is exact and order-independent.

use vstd::prelude::*;

verus! {

/// ASCII decimal digit.
pub open spec fn is_digit(c: u8) -> bool {
    48 <= c && c <= 57
}

/// Every byte of `ds` is a decimal digit.
pub open spec fn all_digits(ds: Seq<u8>) -> bool {
    forall|i: int| 0 <= i < ds.len() ==> is_digit(#[trigger] ds[i])
}

/// Numeric value of a digit string read as a decimal numeral.
pub open spec fn dval(ds: Seq<u8>) -> int
    decreases ds.len(),
{
    if ds.len() == 0 {
        0
    } else {
        dval(ds.drop_last()) * 10 + (ds.last() - 48)
    }
}

/// A digit string's value is non-negative.
pub proof fn lemma_dval_nonneg(ds: Seq<u8>)
    requires
        all_digits(ds),
    ensures
        dval(ds) >= 0,
    decreases ds.len(),
{
    if ds.len() > 0 {
        assert(all_digits(ds.drop_last()));
        lemma_dval_nonneg(ds.drop_last());
    }
}

/// A prefix of a digit string has a value no larger than the whole.
pub proof fn lemma_dval_prefix_le(ds: Seq<u8>, m: int)
    requires
        all_digits(ds),
        0 <= m <= ds.len(),
    ensures
        dval(ds.take(m)) <= dval(ds),
    decreases ds.len(),
{
    if m == ds.len() {
        assert(ds.take(m) =~= ds);
    } else {
        assert(all_digits(ds.drop_last()));
        assert(ds.drop_last().take(m) =~= ds.take(m));
        lemma_dval_prefix_le(ds.drop_last(), m);
        lemma_dval_nonneg(ds.drop_last());
    }
}

/// Position of the first non-digit byte of `s` at or after `i` (or the end).
pub open spec fn digits_end(s: Seq<u8>, i: int) -> int
    decreases s.len() - i,
{
    if i < 0 || i >= s.len() {
        i
    } else if is_digit(s[i]) {
        digits_end(s, i + 1)
    } else {
        i
    }
}

/// `digits_end` lands between `i` and the end, everything before it (from
/// `i` on) is a digit, and the byte it lands on (if any) is not.
pub proof fn lemma_digits_end(s: Seq<u8>, i: int)
    requires
        0 <= i <= s.len(),
    ensures
        i <= digits_end(s, i) <= s.len(),
        forall|j: int| i <= j < digits_end(s, i) ==> is_digit(#[trigger] s[j]),
        digits_end(s, i) == s.len() || !is_digit(s[digits_end(s, i)]),
    decreases s.len() - i,
{
    if i < s.len() && is_digit(s[i]) {
        lemma_digits_end(s, i + 1);
    }
}

/// Position of the first `;` of `s` at or after `i` (or the end).
pub open spec fn semi_end(s: Seq<u8>, i: int) -> int
    decreases s.len() - i,
{
    if i < 0 || i >= s.len() {
        i
    } else if s[i] == 59 {
        i
    } else {
        semi_end(s, i + 1)
    }
}

/// The shape of a numeric field: an optional `-`, one or more digits, then
/// optionally a `.` followed by one or two digits.
pub open spec fn num_shape_ok(t: Seq<u8>) -> bool {
    let b: int = if t.len() > 0 && t[0] == 45 { 1 } else { 0 };
    let k = digits_end(t, b);
    &&& b < t.len()
    &&& k >= b + 1
    &&& (k == t.len() || (t[k] == 46 && 1 <= t.len() - k - 1 <= 2 && digits_end(t, k + 1)
        == t.len()))
}

/// Magnitude of a shaped numeric field, in hundredths.
pub open spec fn num_mag(t: Seq<u8>) -> int {
    let b: int = if t.len() > 0 && t[0] == 45 { 1 } else { 0 };
    let k = digits_end(t, b);
    dval(t.subrange(b, k)) * 100 + frac_val(t, k)
}

/// Value, in hundredths, of the fractional part that starts after the `.`
/// at position `k` (zero when there is none).
pub open spec fn frac_val(t: Seq<u8>, k: int) -> int {
    if k >= t.len() - 1 {
        0
    } else if t.len() - k - 1 == 1 {
        (t[k + 1] - 48) * 10
    } else {
        (t[k + 1] - 48) * 10 + (t[k + 2] - 48)
    }
}

/// Signed value of a numeric field, in hundredths.
pub open spec fn num_val(t: Seq<u8>) -> int {
    if t.len() > 0 && t[0] == 45 {
        -num_mag(t)
    } else {
        num_mag(t)
    }
}

/// A numeric field parses exactly when it has the right shape and its
/// scaled value fits the accumulator's value range.
pub open spec fn num_ok(t: Seq<u8>) -> bool {
    num_shape_ok(t) && i64::MIN <= num_val(t) <= i64::MAX
}

/// A record line parses exactly when it has a `;` and the field after the
/// first `;` is a valid numeric field.
pub open spec fn line_ok(l: Seq<u8>) -> bool {
    let k = semi_end(l, 0);
    k < l.len() && num_ok(l.subrange(k + 1, l.len() as int))
}

/// The key of a record line: everything before the first `;`.
pub open spec fn key_of(l: Seq<u8>) -> Seq<u8> {
    l.subrange(0, semi_end(l, 0))
}

/// The scaled value of a record line.
pub open spec fn val_of(l: Seq<u8>) -> int {
    num_val(l.subrange(semi_end(l, 0) + 1, l.len() as int))
}

/// Copy `v[from..to]` into a fresh vector.
pub fn copy_range(v: &Vec<u8>, from: usize, to: usize) -> (r: Vec<u8>)
    requires
        from <= to <= v@.len(),
    ensures
        r@ == v@.subrange(from as int, to as int),
{
    let mut r: Vec<u8> = Vec::new();
    let mut i: usize = from;
    while i < to
        invariant
            from <= i <= to <= v@.len(),
            r@ == v@.subrange(from as int, i as int),
        decreases to - i,
    {
        r.push(v[i]);
        i = i + 1;
        proof {
            assert(r@ =~= v@.subrange(from as int, i as int));
        }
    }
    r
}

/// Parse a numeric field into a scaled `i64` (hundredths).  Returns `None`
/// exactly when the field is malformed or its value does not fit.
pub fn parse_value(t: &Vec<u8>) -> (r: Option<i64>)
    ensures
        r is Some <==> num_ok(t@),
        r matches Some(v) ==> v as int == num_val(t@),
{
    let n = t.len();
    let ghost s = t@;
    let mut i: usize = 0;
    let neg = n > 0 && t[0] == 45;
    if neg {
        i = 1;
    }
    let ghost b: int = i as int;
    if i >= n {
        // empty field or a bare sign
        return None;
    }
    let start = i;
    let mut acc: u64 = 0;
    proof {
        lemma_digits_end(s, b);
        assert(s.subrange(b, b) =~= Seq::<u8>::empty());
    }
    let ghost k: int = digits_end(s, b);
    while i < n && t[i] >= 48 && t[i] <= 57
        invariant
            s == t@,
            0 <= b <= i <= n == s.len(),
            start == b,
            b == (if s.len() > 0 && s[0] == 45 { 1int } else { 0int }),
            i <= k == digits_end(s, b) <= n,
            digits_end(s, i as int) == k,
            acc == dval(s.subrange(b, i as int)),
            acc <= 92_233_720_368_547_758u64,
            forall|j: int| b <= j < k ==> is_digit(#[trigger] s[j]),
            k == s.len() || !is_digit(s[k]),
        decreases n - i,
    {
        let d = t[i] - 48;
        proof {
            assert(is_digit(s[i as int]));
            assert(digits_end(s, i as int) == digits_end(s, i + 1));
            lemma_digits_end(s, i + 1);
            assert(i < k);
            assert(s.subrange(b, i + 1).drop_last() =~= s.subrange(b, i as int));
            assert(s.subrange(b, i + 1).last() == s[i as int]);
        }
        acc = acc * 10 + d as u64;
        i = i + 1;
        if acc > 92_233_720_368_547_758u64 {
            // Any completion of this field is out of range: the digits seen
            // so far already push the scaled magnitude beyond the i64 range.
            proof {
                if num_shape_ok(s) {
                    let whole = s.subrange(b, k);
                    assert(all_digits(whole));
                    assert(whole.take(i - b) =~= s.subrange(b, i as int));
                    lemma_dval_prefix_le(whole, i - b);
                    if k < s.len() {
                        lemma_digits_end(s, k + 1);
                    }
                    assert(frac_val(s, k) >= 0);
                    assert(dval(whole) * 100 >= 92_233_720_368_547_759 * 100) by (nonlinear_arith)
                        requires
                            dval(whole) >= 92_233_720_368_547_759,
                    ;
                    assert(num_mag(s) >= 92_233_720_368_547_759 * 100);
                }
            }
            return None;
        }
    }
    if i == start {
        // no digits at all
        return None;
    }
    proof {
        assert(i == k);
    }
    // fractional part
    let mut frac: u64 = 0;
    if i < n {
        if t[i] != 46 {
            return None;
        }
        i = i + 1;
        let fstart = i;
        proof {
            lemma_digits_end(s, i as int);
        }
        let ghost fe: int = digits_end(s, fstart as int);
        let mut fd: usize = 0;
        while i < n && t[i] >= 48 && t[i] <= 57
            invariant
                s == t@,
                0 <= fstart <= i <= n == s.len(),
                fd == i - fstart,
                fstart as int + 1 == k + 2,
                i <= fe == digits_end(s, fstart as int) <= n,
                digits_end(s, i as int) == fe,
                fd == 1 ==> frac as int == (s[fstart as int] - 48) * 10,
                fd >= 2 ==> frac as int == (s[fstart as int] - 48) * 10 + (s[fstart as int + 1]
                    - 48),
                fd == 0 ==> frac == 0,
                frac <= 99,
            decreases n - i,
        {
            proof {
                assert(is_digit(s[i as int]));
                assert(digits_end(s, i as int) == digits_end(s, i + 1));
                lemma_digits_end(s, i + 1);
            }
            let d = t[i] - 48;
            if fd == 0 {
                frac = d as u64 * 10;
            } else if fd == 1 {
                frac = frac + d as u64;
            }
            fd = fd + 1;
            i = i + 1;
        }
        if i < n {
            // a non-digit inside the fractional part
            proof {
                assert(digits_end(s, k + 1) == fe);
                assert(fe < s.len());
            }
            return None;
        }
        if fd == 0 || fd > 2 {
            // `.` with no digit, or more than two digits
            return None;
        }
    }
    let mag: u64 = acc * 100 + frac;
    proof {
        assert(mag as int == num_mag(s));
    }
    if neg {
        if mag > 9_223_372_036_854_775_808u64 {
            return None;
        }
        let v: i64 = (-(mag as i128)) as i64;
        Some(v)
    } else {
        if mag > 9_223_372_036_854_775_807u64 {
            return None;
        }
        Some(mag as i64)
    }
}

/// Parse one record line into its key (copied out) and scaled value.
/// Returns `None` exactly when the line is not a valid record.
pub fn parse_line(l: &Vec<u8>) -> (r: Option<(Vec<u8>, i64)>)
    ensures
        r is Some <==> line_ok(l@),
        r matches Some(kv) ==> kv.0@ == key_of(l@) && kv.1 as int == val_of(l@),
{
    let n = l.len();
    let ghost s = l@;
    let mut i: usize = 0;
    while i < n && l[i] != 59
        invariant
            s == l@,
            0 <= i <= n == s.len(),
            semi_end(s, 0) == semi_end(s, i as int),
        decreases n - i,
    {
        i = i + 1;
    }
    if i == n {
        // no delimiter
        return None;
    }
    let key = copy_range(l, 0, i);
    let field = copy_range(l, i + 1, n);
    proof {
        assert(semi_end(s, 0) == i as int);
    }
    match parse_value(&field) {
        Some(v) => Some((key, v)),
        None => None,
    }
}

} // verus!
