//! The line-boundary chunker step: combine the leftover of the previous
//! read with the bytes just read, and split at the last newline.  No byte
//! is dropped, duplicated or reordered, and (except at end of input) the
//! emitted chunk ends on a line boundary while the new leftover holds no
//! newline at all.

use vstd::prelude::*;
use crate::parse::copy_range;

verus! {

/// One chunker step.  Returns the chunk to hand downstream and the new
/// leftover to prepend to the next read.  At end of input the chunk takes
/// everything, even without a trailing newline.
pub fn chunk_step(leftover: Vec<u8>, data: &Vec<u8>, at_eof: bool) -> (r: (Vec<u8>, Vec<u8>))
    ensures
        r.0@ + r.1@ == leftover@ + data@,
        at_eof ==> r.1@.len() == 0,
        !at_eof ==> r.0@.len() == 0 || r.0@.last() == 10,
        !at_eof ==> forall|i: int| 0 <= i < r.1@.len() ==> r.1@[i] != 10,
{
    let mut combined = leftover;
    let ghost l0 = combined@;
    let dn = data.len();
    let mut i: usize = 0;
    while i < dn
        invariant
            0 <= i <= dn == data@.len(),
            combined@ == l0 + data@.subrange(0, i as int),
        decreases dn - i,
    {
        combined.push(data[i]);
        i = i + 1;
        proof {
            assert(combined@ =~= l0 + data@.subrange(0, i as int));
        }
    }
    proof {
        assert(combined@ =~= l0 + data@);
    }
    if at_eof {
        let empty: Vec<u8> = Vec::new();
        proof {
            assert(combined@ + empty@ =~= l0 + data@);
        }
        return (combined, empty);
    }
    let n = combined.len();
    let mut j: usize = n;
    while j > 0
        invariant_except_break
            0 <= j <= n == combined@.len(),
            forall|i: int| j <= i < n ==> combined@[i] != 10,
        ensures
            0 <= j <= n == combined@.len(),
            forall|i: int| j <= i < n ==> combined@[i] != 10,
            j == 0 || combined@[j - 1] == 10,
        decreases j,
    {
        if combined[j - 1] == 10 {
            break ;
        }
        j = j - 1;
    }
    if j == 0 {
        let empty: Vec<u8> = Vec::new();
        proof {
            assert(empty@ + combined@ =~= l0 + data@);
        }
        (empty, combined)
    } else {
        let chunk = copy_range(&combined, 0, j);
        let rest = copy_range(&combined, j, n);
        proof {
            assert(chunk@ + rest@ =~= l0 + data@);
            assert(chunk@.last() == combined@[j - 1]);
        }
        (chunk, rest)
    }
}

} // verus!
