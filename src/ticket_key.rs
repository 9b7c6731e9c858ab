//! Compact bitmap representation of a ticket over a range's offsets.

use vstd::prelude::*;
use crate::newtypes::{BallNumber, BallRange, values};
use crate::sorted::{ascending, is_ticket, lemma_ascending_unique};
use crate::ticket_bitwise::{BitwiseStrategy, strategy_for, strategy_of_size};

verus! {

/// Bit `i` of a 64-bit word.
pub open spec fn bit64(w: u64, i: nat) -> bool {
    i < 64 && (w >> (i as u64)) & 1u64 == 1u64
}

/// Bit `i` of a 128-bit word.
pub open spec fn bit128(w: u128, i: nat) -> bool {
    i < 128 && (w >> (i as u128)) & 1u128 == 1u128
}

proof fn lemma_bit64_mask(w: u64, o: u64)
    requires
        o < 64,
    ensures
        ((w & (1u64 << o)) != 0) == ((w >> o) & 1u64 == 1u64),
{
    assert(((w & (1u64 << o)) != 0) == ((w >> o) & 1u64 == 1u64)) by (bit_vector)
        requires
            o < 64,
    ;
}

proof fn lemma_bit64_set(w: u64, o: u64, i: u64)
    requires
        o < 64,
        i < 64,
    ensures
        (((w | (1u64 << o)) >> i) & 1u64 == 1u64) == (i == o || (w >> i) & 1u64 == 1u64),
{
    assert((((w | (1u64 << o)) >> i) & 1u64 == 1u64) == (i == o || (w >> i) & 1u64 == 1u64))
        by (bit_vector)
        requires
            o < 64,
            i < 64,
    ;
}

proof fn lemma_bit64_zero(i: u64)
    ensures
        (0u64 >> i) & 1u64 == 0u64,
{
    assert((0u64 >> i) & 1u64 == 0u64) by (bit_vector);
}

proof fn lemma_bit128_mask(w: u128, o: u128)
    requires
        o < 128,
    ensures
        ((w & (1u128 << o)) != 0) == ((w >> o) & 1u128 == 1u128),
{
    assert(((w & (1u128 << o)) != 0) == ((w >> o) & 1u128 == 1u128)) by (bit_vector)
        requires
            o < 128,
    ;
}

proof fn lemma_bit128_set(w: u128, o: u128, i: u128)
    requires
        o < 128,
        i < 128,
    ensures
        (((w | (1u128 << o)) >> i) & 1u128 == 1u128) == (i == o || (w >> i) & 1u128 == 1u128),
{
    assert((((w | (1u128 << o)) >> i) & 1u128 == 1u128) == (i == o || (w >> i) & 1u128
        == 1u128)) by (bit_vector)
        requires
            o < 128,
            i < 128,
    ;
}

proof fn lemma_bit128_zero(i: u128)
    ensures
        (0u128 >> i) & 1u128 == 0u128,
{
    assert((0u128 >> i) & 1u128 == 0u128) by (bit_vector);
}

/// Bit `i` of a word array, counting from bit 0 of word 0.
pub open spec fn words_has(v: Seq<u64>, i: nat) -> bool {
    i < 64 * v.len() && bit64(v[(i / 64) as int], i % 64)
}

/// Compact bitmap of a ticket: bit `i` stands for ball `range.start + i`.
///
/// The width is chosen from the range size: one `u64` for up to 64 values,
/// one `u128` for up to 128, and one `u64` word per 64 values beyond that.
#[derive(Debug, Clone, Hash)]
pub enum TicketKey {
    /// Bitmap in a single `u64`.
    U64(u64),
    /// Bitmap in a single `u128`.
    U128(u128),
    /// Bitmap in a word array, bit `i` in word `i / 64`.
    VecU64(Vec<u64>),
}

impl TicketKey {
    /// Offset `i` is set.
    pub open spec fn has(&self, i: nat) -> bool {
        match self {
            TicketKey::U64(w) => bit64(*w, i),
            TicketKey::U128(w) => bit128(*w, i),
            TicketKey::VecU64(v) => words_has(v@, i),
        }
    }

    /// How many offsets the representation can hold.
    pub open spec fn width(&self) -> nat {
        match self {
            TicketKey::U64(_) => 64,
            TicketKey::U128(_) => 128,
            TicketKey::VecU64(v) => 64 * v@.len(),
        }
    }

    /// The representation's strategy.
    pub open spec fn kind(&self) -> BitwiseStrategy {
        match self {
            TicketKey::U64(_) => BitwiseStrategy::U64,
            TicketKey::U128(_) => BitwiseStrategy::U128,
            TicketKey::VecU64(_) => BitwiseStrategy::VecU64,
        }
    }

    /// No offset at or beyond `size` is set.
    pub open spec fn within(&self, size: nat) -> bool {
        forall|i: nat| #[trigger] self.has(i) ==> i < size
    }

    /// The number of set offsets below `n`.
    pub open spec fn count_below(&self, n: nat) -> nat
        decreases n,
    {
        if n == 0 {
            0
        } else {
            self.count_below((n - 1) as nat) + if self.has((n - 1) as nat) {
                1nat
            } else {
                0nat
            }
        }
    }

    /// The balls `lo + i` of the set offsets `i < n`, in ascending order.
    pub open spec fn ball_values(&self, lo: int, n: nat) -> Seq<u8>
        decreases n,
    {
        if n == 0 {
            Seq::empty()
        } else {
            self.ball_values(lo, (n - 1) as nat) + if self.has((n - 1) as nat) {
                seq![(lo + n - 1) as u8]
            } else {
                Seq::empty()
            }
        }
    }

    /// A word-array key holds one word per 64 offsets of a range of `size`.
    pub open spec fn sized_for(&self, size: int) -> bool {
        self is VecU64 ==> self.width() == 64 * ((size + 63) / 64)
    }

    /// The key is a draw of `pick` offsets of `range`.
    pub open spec fn is_draw(&self, range: BallRange, pick: nat) -> bool {
        &&& self.width() >= range.len()
        &&& self.sized_for(range.len())
        &&& self.within(range.len() as nat)
        &&& self.count_below(range.len() as nat) == pick
        &&& self.count_below(self.width()) == pick
    }

    /// `self` and `other` set the same offsets below `n`.
    pub open spec fn agrees(&self, other: TicketKey, n: nat) -> bool {
        forall|i: nat| i < n ==> #[trigger] self.has(i) == other.has(i)
    }

    /// Exactly the offsets of `balls` within `range` are set.
    pub open spec fn holds_exactly(&self, balls: Seq<u8>, range: BallRange) -> bool {
        &&& self.within(range.len() as nat)
        &&& forall|i: nat| i < range.len() ==> (#[trigger] self.has(i) <==> balls.contains(
            (range.lo() + i) as u8,
        ))
    }

    /// A key with no offset set, wide enough for `size` offsets.
    pub(crate) fn empty(kind: BitwiseStrategy, size: usize) -> (r: Self)
        requires
            1 <= size <= 256,
            kind == BitwiseStrategy::U64 ==> size <= 64,
            kind == BitwiseStrategy::U128 ==> size <= 128,
        ensures
            r.kind() == kind,
            r.width() >= size,
            r.width() <= 256,
            r.sized_for(size as int),
            forall|i: nat| !(#[trigger] r.has(i)),
    {
        match kind {
            BitwiseStrategy::U64 => {
                proof {
                    assert forall|i: nat| !(#[trigger] TicketKey::U64(0).has(i)) by {
                        if i < 64 {
                            lemma_bit64_zero(i as u64);
                        }
                    }
                }
                TicketKey::U64(0)
            },
            BitwiseStrategy::U128 => {
                proof {
                    assert forall|i: nat| !(#[trigger] TicketKey::U128(0).has(i)) by {
                        if i < 128 {
                            lemma_bit128_zero(i as u128);
                        }
                    }
                }
                TicketKey::U128(0)
            },
            BitwiseStrategy::VecU64 => {
                let words_needed: usize = (size + 63) / 64;
                let words: Vec<u64> = vec![0u64; words_needed];
                let r = TicketKey::VecU64(words);
                proof {
                    assert forall|i: nat| !(#[trigger] r.has(i)) by {
                        if i < 64 * words@.len() {
                            assert((i / 64) < words@.len()) by (nonlinear_arith)
                                requires
                                    i < 64 * words@.len(),
                            ;
                            lemma_bit64_zero((i % 64) as u64);
                        }
                    }
                }
                r
            },
        }
    }

    /// Set offsets lie below the width.
    proof fn lemma_has_below_width(&self, i: nat)
        ensures
            self.has(i) ==> i < self.width(),
    {
    }

    /// The width, computed.
    fn width_exec(&self) -> (r: usize)
        requires
            self.width() <= usize::MAX,
        ensures
            r == self.width(),
    {
        match self {
            TicketKey::U64(_) => 64,
            TicketKey::U128(_) => 128,
            TicketKey::VecU64(v) => 64 * v.len(),
        }
    }

    /// The smaller of the width and `cap`.
    fn width_up_to(&self, cap: usize) -> (r: usize)
        requires
            cap <= 256,
        ensures
            r == if self.width() < cap {
                self.width()
            } else {
                cap as nat
            },
    {
        match self {
            TicketKey::U64(_) => if cap < 64 {
                cap
            } else {
                64
            },
            TicketKey::U128(_) => if cap < 128 {
                cap
            } else {
                128
            },
            TicketKey::VecU64(v) => if v.len() >= 4 || cap <= 64 * v.len() {
                cap
            } else {
                64 * v.len()
            },
        }
    }

    /// The key of `balls` over `range`: bit `ball - range.start` for each ball,
    /// in the width that the range's size selects.
    pub fn from_balls(balls: &[BallNumber], range: &BallRange) -> (r: Self)
        requires
            range.valid(),
            forall|j: int| 0 <= j < balls@.len() ==> range.holds(#[trigger] balls@[j]@ as int),
        ensures
            r.kind() == strategy_for(range.len()),
            r.width() >= range.len(),
            r.sized_for(range.len()),
            r.holds_exactly(values(balls@), *range),
    {
        let size = range.size();
        let min = range.start().value();
        let kind = strategy_of_size(size);
        let mut key = TicketKey::empty(kind, size);
        let mut j: usize = 0;
        while j < balls.len()
            invariant
                size == range.len(),
                min == range.lo(),
                range.valid(),
                forall|t: int| 0 <= t < balls@.len() ==> range.holds(#[trigger] balls@[t]@ as int),
                key.kind() == kind,
                key.width() >= size,
                key.sized_for(size as int),
                key.within(size as nat),
                j <= balls@.len(),
                forall|i: nat|
                    i < size ==> (#[trigger] key.has(i) <==> exists|t: int|
                        0 <= t < j && balls@[t]@ == min + i),
            decreases balls@.len() - j,
        {
            let b = balls[j].value();
            let o = (b - min) as usize;
            let ghost before = key;
            key.set_offset(o);
            proof {
                assert forall|i: nat| i < size implies (#[trigger] key.has(i) <==> exists|t: int|
                    0 <= t < j + 1 && balls@[t]@ == min + i) by {
                    if key.has(i) && i != o {
                        assert(before.has(i));
                    }
                    if i == o {
                        assert(balls@[j as int]@ == min + i);
                    }
                    if exists|t: int| 0 <= t < j + 1 && balls@[t]@ == min + i {
                        let t = choose|t: int| 0 <= t < j + 1 && balls@[t]@ == min + i;
                        if t < j {
                            assert(before.has(i));
                        }
                    }
                }
            }
            j = j + 1;
        }
        proof {
            let vs = values(balls@);
            assert forall|i: nat| i < range.len() implies (#[trigger] key.has(i) <==> vs.contains(
                (range.lo() + i) as u8,
            )) by {
                if key.has(i) {
                    let t = choose|t: int| 0 <= t < j && balls@[t]@ == min + i;
                    assert(vs[t] == (range.lo() + i) as u8);
                }
                if vs.contains((range.lo() + i) as u8) {
                    let t = choose|t: int| 0 <= t < vs.len() && vs[t] == (range.lo() + i) as u8;
                    assert(balls@[t]@ == min + i);
                }
            }
        }
        key
    }

    /// The balls of the set offsets, `range.start + offset` in ascending order.
    pub fn to_balls(&self, range: &BallRange) -> (r: Vec<BallNumber>)
        requires
            range.valid(),
            self.within(range.len() as nat),
        ensures
            values(r@) == self.ball_values(range.lo() as int, range.len() as nat),
    {
        let size = range.size();
        let min = range.start().value();
        let limit = self.width_up_to(size);
        let mut balls: Vec<BallNumber> = Vec::new();
        let mut i: usize = 0;
        while i < limit
            invariant
                limit <= self.width(),
                limit <= size,
                size == range.len(),
                min == range.lo(),
                range.valid(),
                self.within(size as nat),
                i <= limit,
                values(balls@) == self.ball_values(min as int, i as nat),
            decreases limit - i,
        {
            if self.test_offset(i) {
                let ghost prev = balls@;
                balls.push(BallNumber::new((min as usize + i) as u8));
                proof {
                    assert(values(balls@) =~= values(prev).push((min + i) as u8));
                }
            } else {
                proof {
                    assert(self.ball_values(min as int, (i + 1) as nat) =~= self.ball_values(
                        min as int,
                        i as nat,
                    ));
                }
            }
            i = i + 1;
        }
        proof {
            assert forall|k: nat| limit <= k < size implies !#[trigger] self.has(k) by {
                self.lemma_has_below_width(k);
            }
            lemma_ball_values_stable(*self, min as int, limit as nat, size as nat);
        }
        balls
    }

    /// The number of set offsets.
    pub fn count_balls(&self) -> (r: usize)
        requires
            self.width() <= usize::MAX,
        ensures
            r == self.count_below(self.width()),
    {
        let w = self.width_exec();
        let mut count: usize = 0;
        let mut i: usize = 0;
        while i < w
            invariant
                w == self.width(),
                i <= w,
                count == self.count_below(i as nat),
                count <= i,
            decreases w - i,
        {
            if self.test_offset(i) {
                count = count + 1;
            }
            i = i + 1;
        }
        count
    }

    /// Whether `self` and `other` set the same offsets below `size`.
    pub fn same_offsets(&self, other: &TicketKey, size: usize) -> (r: bool)
        requires
            size <= self.width(),
            size <= other.width(),
        ensures
            r == self.agrees(*other, size as nat),
    {
        let mut i: usize = 0;
        while i < size
            invariant
                size <= self.width(),
                size <= other.width(),
                i <= size,
                forall|k: nat| k < i ==> #[trigger] self.has(k) == other.has(k),
            decreases size - i,
        {
            if self.test_offset(i) != other.test_offset(i) {
                return false;
            }
            i = i + 1;
        }
        true
    }

    /// Whether offset `o` is set.
    pub(crate) fn test_offset(&self, o: usize) -> (r: bool)
        requires
            o < self.width(),
        ensures
            r == self.has(o as nat),
    {
        match self {
            TicketKey::U64(w) => {
                proof {
                    lemma_bit64_mask(*w, o as u64);
                }
                *w & (1u64 << (o as u64)) != 0
            },
            TicketKey::U128(w) => {
                proof {
                    lemma_bit128_mask(*w, o as u128);
                }
                *w & (1u128 << (o as u128)) != 0
            },
            TicketKey::VecU64(v) => {
                let idx = o / 64;
                let bit = o % 64;
                proof {
                    lemma_bit64_mask(v@[idx as int], bit as u64);
                }
                v[idx] & (1u64 << (bit as u64)) != 0
            },
        }
    }

    /// Sets offset `o`.
    pub(crate) fn set_offset(&mut self, o: usize)
        requires
            o < old(self).width(),
        ensures
            final(self).kind() == old(self).kind(),
            final(self).width() == old(self).width(),
            forall|i: nat| #[trigger]
                final(self).has(i) == (i == o || old(self).has(i)),
    {
        match self {
            TicketKey::U64(w) => {
                let nw = *w | (1u64 << (o as u64));
                proof {
                    assert forall|i: nat| #[trigger]
                        TicketKey::U64(nw).has(i) == (i == o || TicketKey::U64(*w).has(i)) by {
                        if i < 64 {
                            lemma_bit64_set(*w, o as u64, i as u64);
                        }
                    }
                }
                *w = nw;
            },
            TicketKey::U128(w) => {
                let nw = *w | (1u128 << (o as u128));
                proof {
                    assert forall|i: nat| #[trigger]
                        TicketKey::U128(nw).has(i) == (i == o || TicketKey::U128(*w).has(i)) by {
                        if i < 128 {
                            lemma_bit128_set(*w, o as u128, i as u128);
                        }
                    }
                }
                *w = nw;
            },
            TicketKey::VecU64(v) => {
                let idx = o / 64;
                let bit = o % 64;
                let ghost old_v = v@;
                let nw = v[idx] | (1u64 << (bit as u64));
                v.set(idx, nw);
                proof {
                    assert forall|i: nat| #[trigger]
                        words_has(v@, i) == (i == o || words_has(old_v, i)) by {
                        if i < 64 * v@.len() {
                            if i / 64 == idx as nat {
                                lemma_bit64_set(old_v[idx as int], bit as u64, (i % 64) as u64);
                            } else {
                                assert(i != o);
                            }
                        }
                    }
                }
            },
        }
    }
}

/// Whether two word arrays are equal.
fn words_equal(a: &Vec<u64>, b: &Vec<u64>) -> (r: bool)
    ensures
        r == (a@ == b@),
{
    if a.len() != b.len() {
        return false;
    }
    let mut i: usize = 0;
    while i < a.len()
        invariant
            a@.len() == b@.len(),
            i <= a@.len(),
            forall|k: int| 0 <= k < i ==> a@[k] == b@[k],
        decreases a@.len() - i,
    {
        if a[i] != b[i] {
            return false;
        }
        i = i + 1;
    }
    proof {
        assert(a@ =~= b@);
    }
    true
}

/// Keys are equal when they have the same representation and the same words.
impl PartialEq for TicketKey {
    fn eq(&self, other: &TicketKey) -> (r: bool) {
        match (self, other) {
            (TicketKey::U64(a), TicketKey::U64(b)) => *a == *b,
            (TicketKey::U128(a), TicketKey::U128(b)) => *a == *b,
            (TicketKey::VecU64(a), TicketKey::VecU64(b)) => words_equal(a, b),
            _ => false,
        }
    }
}

impl vstd::std_specs::cmp::PartialEqSpecImpl for TicketKey {
    open spec fn obeys_eq_spec() -> bool {
        true
    }

    open spec fn eq_spec(&self, other: &TicketKey) -> bool {
        match (self, other) {
            (TicketKey::U64(a), TicketKey::U64(b)) => a == b,
            (TicketKey::U128(a), TicketKey::U128(b)) => a == b,
            (TicketKey::VecU64(a), TicketKey::VecU64(b)) => a@ == b@,
            _ => false,
        }
    }
}

impl Eq for TicketKey {

}

/// Setting one new offset `o` raises the count below `n` by one when `o < n`.
pub(crate) proof fn lemma_count_insert(a: TicketKey, b: TicketKey, o: nat, n: nat)
    requires
        !a.has(o),
        forall|i: nat| #[trigger] b.has(i) == (i == o || a.has(i)),
    ensures
        b.count_below(n) == a.count_below(n) + if o < n {
            1nat
        } else {
            0nat
        },
    decreases n,
{
    if n > 0 {
        lemma_count_insert(a, b, o, (n - 1) as nat);
        assert(b.has((n - 1) as nat) == ((n - 1) as nat == o || a.has((n - 1) as nat)));
    }
}

/// Offsets in `[m, n)` that are all clear leave the count unchanged.
pub(crate) proof fn lemma_count_stable(k: TicketKey, m: nat, n: nat)
    requires
        m <= n,
        forall|i: nat| m <= i < n ==> !#[trigger] k.has(i),
    ensures
        k.count_below(n) == k.count_below(m),
    decreases n,
{
    if n > m {
        assert(!k.has((n - 1) as nat));
        lemma_count_stable(k, m, (n - 1) as nat);
    }
}

/// When every offset below `n` is set, `n` of them are.
pub(crate) proof fn lemma_count_full(k: TicketKey, n: nat)
    requires
        forall|i: nat| i < n ==> #[trigger] k.has(i),
    ensures
        k.count_below(n) == n,
    decreases n,
{
    if n > 0 {
        assert(k.has((n - 1) as nat));
        lemma_count_full(k, (n - 1) as nat);
    }
}

/// Offsets in `[m, n)` that are all clear add no balls.
proof fn lemma_ball_values_stable(k: TicketKey, lo: int, m: nat, n: nat)
    requires
        m <= n,
        forall|i: nat| m <= i < n ==> !#[trigger] k.has(i),
    ensures
        k.ball_values(lo, n) == k.ball_values(lo, m),
    decreases n,
{
    if n > m {
        assert(!k.has((n - 1) as nat));
        lemma_ball_values_stable(k, lo, m, (n - 1) as nat);
        assert(k.ball_values(lo, n) =~= k.ball_values(lo, (n - 1) as nat));
    }
}

/// The balls of the offsets below `n` are ascending, one per set offset, and
/// are exactly `lo + i` for the set offsets `i`.
pub proof fn lemma_ball_values(k: TicketKey, lo: int, n: nat)
    requires
        0 <= lo,
        lo + n <= 256,
    ensures
        k.ball_values(lo, n).len() == k.count_below(n),
        ascending(k.ball_values(lo, n)),
        forall|j: int|
            0 <= j < k.ball_values(lo, n).len() ==> lo <= #[trigger] k.ball_values(lo, n)[j] < lo
                + n && k.has((k.ball_values(lo, n)[j] - lo) as nat),
        forall|i: nat| i < n && #[trigger] k.has(i) ==> k.ball_values(lo, n).contains((lo + i) as u8),
    decreases n,
{
    if n > 0 {
        let m = (n - 1) as nat;
        lemma_ball_values(k, lo, m);
        let prev = k.ball_values(lo, m);
        let cur = k.ball_values(lo, n);
        if k.has(m) {
            assert(cur == prev.push((lo + m) as u8));
            assert forall|i: nat| i < n && #[trigger] k.has(i) implies cur.contains(
                (lo + i) as u8,
            ) by {
                if i < m {
                    let j = choose|j: int| 0 <= j < prev.len() && prev[j] == (lo + i) as u8;
                    assert(cur[j] == (lo + i) as u8);
                } else {
                    assert(cur[prev.len() as int] == (lo + i) as u8);
                }
            }
        } else {
            assert(cur =~= prev);
        }
    }
}

/// Round trip: for balls in ascending order within `range`, every key that
/// holds exactly those balls gives back the same sequence.
pub proof fn lemma_round_trip(balls: Seq<u8>, range: BallRange)
    requires
        range.valid(),
        ascending(balls),
        forall|j: int| 0 <= j < balls.len() ==> range.holds(#[trigger] balls[j] as int),
    ensures
        forall|key: TicketKey| #[trigger]
            key.holds_exactly(balls, range) ==> key.ball_values(range.lo() as int, range.len() as nat)
                == balls,
{
    let lo = range.lo() as int;
    let n = range.len() as nat;
    assert forall|key: TicketKey| #[trigger] key.holds_exactly(balls, range) implies key.ball_values(
        lo,
        n,
    ) == balls by {
        lemma_ball_values(key, lo, n);
        let bv = key.ball_values(lo, n);
        assert forall|x: u8| bv.contains(x) <==> balls.contains(x) by {
            if bv.contains(x) {
                let j = choose|j: int| 0 <= j < bv.len() && bv[j] == x;
                let i = (bv[j] - lo) as nat;
                assert(key.has(i));
                assert((lo + i) as u8 == x);
            }
            if balls.contains(x) {
                let j = choose|j: int| 0 <= j < balls.len() && balls[j] == x;
                assert(range.holds(balls[j] as int));
                let i = (x - lo) as nat;
                assert((lo + i) as u8 == x);
                assert(key.has(i));
            }
        }
        lemma_ascending_unique(bv, balls);
    }
}

/// A well-formed draw of `pick` offsets below the range size yields `pick`
/// ascending balls, all within the range.
pub proof fn lemma_draw_balls(key: TicketKey, range: BallRange, pick: nat)
    requires
        range.valid(),
        key.is_draw(range, pick),
    ensures
        is_ticket(key.ball_values(range.lo() as int, range.len() as nat), range, pick),
{
    lemma_ball_values(key, range.lo() as int, range.len() as nat);
}

/// Keys within `range` that differ on some offset give different balls.
pub proof fn lemma_distinct_balls(a: TicketKey, b: TicketKey, range: BallRange)
    requires
        range.valid(),
        a.within(range.len() as nat),
        b.within(range.len() as nat),
        !a.agrees(b, range.len() as nat),
    ensures
        a.ball_values(range.lo() as int, range.len() as nat) != b.ball_values(
            range.lo() as int,
            range.len() as nat,
        ),
{
    let lo = range.lo() as int;
    let n = range.len() as nat;
    lemma_ball_values(a, lo, n);
    lemma_ball_values(b, lo, n);
    let i = choose|i: nat| i < n && a.has(i) != b.has(i);
    let av = a.ball_values(lo, n);
    let bv = b.ball_values(lo, n);
    if a.has(i) {
        if av == bv {
            let j = choose|j: int| 0 <= j < bv.len() && bv[j] == (lo + i) as u8;
            assert(b.has((bv[j] - lo) as nat));
        }
    } else {
        if av == bv {
            let j = choose|j: int| 0 <= j < av.len() && av[j] == (lo + i) as u8;
            assert(a.has((av[j] - lo) as nat));
        }
    }
}

/// The balls below `n` depend only on the offsets below `n`.
proof fn lemma_ball_values_agree(a: TicketKey, b: TicketKey, lo: int, n: nat)
    requires
        a.agrees(b, n),
    ensures
        a.ball_values(lo, n) == b.ball_values(lo, n),
    decreases n,
{
    if n > 0 {
        let m = (n - 1) as nat;
        assert(a.agrees(b, m));
        assert(a.has(m) == b.has(m));
        lemma_ball_values_agree(a, b, lo, m);
    }
}

/// Keys within `range` agree on its offsets exactly when they give the same balls.
pub proof fn lemma_agrees_balls(a: TicketKey, b: TicketKey, range: BallRange)
    requires
        range.valid(),
        a.within(range.len() as nat),
        b.within(range.len() as nat),
    ensures
        a.agrees(b, range.len() as nat) <==> a.ball_values(range.lo() as int, range.len() as nat)
            == b.ball_values(range.lo() as int, range.len() as nat),
{
    if a.agrees(b, range.len() as nat) {
        lemma_ball_values_agree(a, b, range.lo() as int, range.len() as nat);
    } else {
        lemma_distinct_balls(a, b, range);
    }
}

} // verus!
