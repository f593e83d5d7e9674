//! ASCII detection over byte slices.

use vstd::prelude::*;
use vstd::slice::slice_subrange;
use crate::util::{lane, le_u64, lemma_pack8_lanes};

verus! {

/// Every byte of `s` is below `0x80`.
pub open spec fn spec_is_ascii(s: Seq<u8>) -> bool {
    forall|i: int| 0 <= i < s.len() ==> s[i] < 0x80
}

/// No byte of the word has its high bit set.
pub proof fn lemma_high_bits(w: u64)
    ensures
        (w & 0x8080_8080_8080_8080u64 == 0) <==> (lane(w, 0) < 0x80 && lane(w, 8) < 0x80 && lane(
            w,
            16,
        ) < 0x80 && lane(w, 24) < 0x80 && lane(w, 32) < 0x80 && lane(w, 40) < 0x80 && lane(w, 48)
            < 0x80 && lane(w, 56) < 0x80),
{
    assert((w & 0x8080_8080_8080_8080u64 == 0) <==> (lane(w, 0) < 0x80 && lane(w, 8) < 0x80
        && lane(w, 16) < 0x80 && lane(w, 24) < 0x80 && lane(w, 32) < 0x80 && lane(w, 40) < 0x80
        && lane(w, 48) < 0x80 && lane(w, 56) < 0x80)) by (bit_vector);
}

/// Whether `d` holds ASCII only.
pub fn is_ascii(d: &[u8]) -> (r: bool)
    ensures
        r == spec_is_ascii(d@),
{
    let n = d.len();
    let mut i: usize = 0;
    while n - i >= 8
        invariant
            i <= n,
            n == d@.len(),
            spec_is_ascii(d@.subrange(0, i as int)),
        decreases n - i,
    {
        let chunk = slice_subrange(d, i, i + 8);
        let w = le_u64(chunk);
        proof {
            lemma_high_bits(w);
            lemma_pack8_lanes(
                chunk@[0],
                chunk@[1],
                chunk@[2],
                chunk@[3],
                chunk@[4],
                chunk@[5],
                chunk@[6],
                chunk@[7],
            );
        }
        if w & 0x8080_8080_8080_8080u64 != 0 {
            assert(exists|k: int| 0 <= k < 8 && chunk@[k] >= 0x80);
            let ghost k = choose|k: int| 0 <= k < 8 && chunk@[k] >= 0x80;
            assert(d@[i + k] >= 0x80);
            return false;
        }
        let ghost next = d@.subrange(0, i + 8);
        assert forall|j: int| 0 <= j < next.len() implies next[j] < 0x80 by {
            if j < i {
                assert(d@.subrange(0, i as int)[j] < 0x80);
            } else {
                assert(d@[j] == chunk@[j - i]);
            }
        }
        i += 8;
    }
    while i < n
        invariant
            i <= n,
            n == d@.len(),
            spec_is_ascii(d@.subrange(0, i as int)),
        decreases n - i,
    {
        if d[i] >= 0x80 {
            return false;
        }
        let ghost next = d@.subrange(0, i + 1);
        assert forall|j: int| 0 <= j < next.len() implies next[j] < 0x80 by {
            if j < i {
                assert(d@.subrange(0, i as int)[j] < 0x80);
            }
        }
        i += 1;
    }
    assert(d@.subrange(0, n as int) == d@);
    true
}

} // verus!
