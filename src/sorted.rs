//! Strictly ascending sequences of ball values.

use vstd::prelude::*;
use vstd::set_lib::{lemma_int_range, lemma_len_subset, set_int_range};
use vstd::seq_lib::seq_to_set_is_finite;
use crate::newtypes::BallRange;

verus! {

/// Each value is smaller than the next: sorted, with no repeats.
pub open spec fn ascending(s: Seq<u8>) -> bool {
    forall|i: int, j: int| 0 <= i < j < s.len() ==> s[i] < s[j]
}

/// `balls` is a ticket of `pick` distinct balls of `range`, in ascending order.
pub open spec fn is_ticket(balls: Seq<u8>, range: BallRange, pick: nat) -> bool {
    &&& balls.len() == pick
    &&& ascending(balls)
    &&& forall|j: int| 0 <= j < balls.len() ==> range.holds(#[trigger] balls[j] as int)
}

/// `balls` holds `pick` distinct balls of `range`, in any order.
pub open spec fn is_distinct_draw(balls: Seq<u8>, range: BallRange, pick: nat) -> bool {
    &&& balls.len() == pick
    &&& balls.no_duplicates()
    &&& forall|j: int| 0 <= j < balls.len() ==> range.holds(#[trigger] balls[j] as int)
}

/// The values of `s` as integers.
pub open spec fn widen(s: Seq<u8>) -> Seq<int> {
    s.map_values(|x: u8| x as int)
}

/// A sequence that holds every value of `[lo, hi]` has at least
/// `hi - lo + 1` elements.
pub proof fn lemma_covering_len(s: Seq<u8>, lo: int, hi: int)
    requires
        0 <= lo <= hi <= 255,
        forall|x: int| lo <= x <= hi ==> s.contains(#[trigger] (x as u8)),
    ensures
        s.len() >= hi - lo + 1,
{
    let t = widen(s);
    lemma_int_range(lo, hi + 1);
    assert forall|x: int| #[trigger] set_int_range(lo, hi + 1).contains(x) implies t.to_set().contains(x) by {
        assert(s.contains(x as u8));
        let j = choose|j: int| 0 <= j < s.len() && s[j] == x as u8;
        assert(t[j] == x);
    }
    t.lemma_cardinality_of_set();
    seq_to_set_is_finite(t);
    lemma_len_subset(set_int_range(lo, hi + 1), t.to_set());
}

/// A sequence of distinct values within `[lo, hi]` has at most
/// `hi - lo + 1` elements.
pub proof fn lemma_within_len(s: Seq<u8>, lo: int, hi: int)
    requires
        0 <= lo <= hi <= 255,
        s.no_duplicates(),
        forall|j: int| 0 <= j < s.len() ==> lo <= #[trigger] s[j] <= hi,
    ensures
        s.len() <= hi - lo + 1,
{
    let t = widen(s);
    assert(t.no_duplicates()) by {
        assert forall|i: int, j: int| 0 <= i < t.len() && 0 <= j < t.len() && i != j implies t[i]
            != t[j] by {
            assert(s[i] != s[j]);
        }
    }
    t.unique_seq_to_set();
    lemma_int_range(lo, hi + 1);
    assert forall|x: int| #[trigger] t.to_set().contains(x) implies set_int_range(lo, hi + 1).contains(x) by {
        let j = choose|j: int| 0 <= j < t.len() && t[j] == x;
        assert(lo <= s[j] <= hi);
    }
    lemma_len_subset(t.to_set(), set_int_range(lo, hi + 1));
}

/// Two ascending sequences with the same members are equal.
pub proof fn lemma_ascending_unique(a: Seq<u8>, b: Seq<u8>)
    requires
        ascending(a),
        ascending(b),
        forall|x: u8| a.contains(x) <==> b.contains(x),
    ensures
        a == b,
    decreases a.len(),
{
    if a.len() == 0 {
        if b.len() > 0 {
            assert(b.contains(b[0]));
        }
        assert(a =~= b);
    } else {
        assert(a.contains(a[0]));
        assert(b.len() > 0);
        assert(b.contains(b[0]));
        let i = choose|i: int| 0 <= i < a.len() && a[i] == b[0];
        let j = choose|j: int| 0 <= j < b.len() && b[j] == a[0];
        assert(a[0] <= a[i]);
        assert(b[0] <= b[j]);
        assert(a[0] == b[0]);
        let ar = a.drop_first();
        let br = b.drop_first();
        assert forall|x: u8| ar.contains(x) implies br.contains(x) by {
            let p = choose|p: int| 0 <= p < ar.len() && ar[p] == x;
            assert(a[p + 1] == x);
            assert(x != a[0]);
            assert(a.contains(x));
            let q = choose|q: int| 0 <= q < b.len() && b[q] == x;
            assert(q != 0);
            assert(br[q - 1] == x);
        }
        assert forall|x: u8| br.contains(x) implies ar.contains(x) by {
            let p = choose|p: int| 0 <= p < br.len() && br[p] == x;
            assert(b[p + 1] == x);
            assert(x != b[0]);
            assert(b.contains(x));
            let q = choose|q: int| 0 <= q < a.len() && a[q] == x;
            assert(q != 0);
            assert(ar[q - 1] == x);
        }
        lemma_ascending_unique(ar, br);
        assert(a =~= b) by {
            assert forall|k: int| 0 <= k < a.len() implies a[k] == b[k] by {
                if k > 0 {
                    assert(a[k] == ar[k - 1]);
                    assert(b[k] == br[k - 1]);
                }
            }
        }
    }
}

} // verus!
