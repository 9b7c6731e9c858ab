//! Choice of bitmap width, and ticket sampling through the bitmap.

use vstd::prelude::*;
use crate::error::LottoError;
use crate::newtypes::{BallNumber, BallRange, PickCount, values};
use crate::rng::RandomNumberGenerator;
use crate::sorted::is_distinct_draw;
use crate::ticket::to_ball_numbers;
use crate::ticket_key::{
    TicketKey, lemma_count_full, lemma_count_insert, lemma_count_stable,
};

verus! {

/// Which bitmap representation a range uses.
#[derive(Debug, Clone, Copy, PartialEq, Eq, Structural)]
pub enum BitwiseStrategy {
    /// One `u64`: ranges of at most 64 values.
    U64,
    /// One `u128`: ranges of 65 to 128 values.
    U128,
    /// A `u64` word array: ranges of more than 128 values.
    VecU64,
}

/// The strategy for a range of `size` values.
pub open spec fn strategy_for(size: int) -> BitwiseStrategy {
    if size <= 64 {
        BitwiseStrategy::U64
    } else if size <= 128 {
        BitwiseStrategy::U128
    } else {
        BitwiseStrategy::VecU64
    }
}

/// The strategy for a range of `size` values, computed.
pub(crate) fn strategy_of_size(size: usize) -> (r: BitwiseStrategy)
    ensures
        r == strategy_for(size as int),
{
    if size <= 64 {
        BitwiseStrategy::U64
    } else if size <= 128 {
        BitwiseStrategy::U128
    } else {
        BitwiseStrategy::VecU64
    }
}

/// The most random draws one ticket takes; past it, the lowest free offsets
/// complete the ticket. The bound makes every draw loop finite; a uniform
/// source completes a ticket of at most 256 balls long before it.
pub const MAX_DRAWS: u64 = 0xFFFF_FFFF_FFFF_FFFF;

impl BitwiseStrategy {
    /// The strategy for `range`, chosen by its size alone: at most 64 values
    /// use a `u64`, at most 128 a `u128`, more a word array.
    pub fn select(range: &BallRange) -> (r: Result<Self, LottoError>)
        requires
            range.valid(),
        ensures
            r == Ok::<Self, LottoError>(strategy_for(range.len())),
    {
        Ok(strategy_of_size(range.size()))
    }

    /// Draws a ticket key with this strategy's representation.
    ///
    /// Fails with `InvalidRange` when the range has more values than the
    /// representation has bits; the source is then not touched.
    pub fn generate<R: RandomNumberGenerator>(
        self,
        range: &BallRange,
        count: PickCount,
        rng: &mut R,
    ) -> (r: Result<TicketKey, LottoError>)
        requires
            range.valid(),
            1 <= count@ <= range.len(),
        ensures
            fits_strategy(self, range.len()) ==> r is Ok && r->Ok_0.kind() == self
                && r->Ok_0.is_draw(*range, count@ as nat),
            !fits_strategy(self, range.len()) ==> r == Err::<TicketKey, LottoError>(
                LottoError::InvalidRange { start: range.lo(), end: range.hi() },
            ) && *final(rng) == *old(rng),
    {
        match self {
            BitwiseStrategy::U64 => generate_ticketkey_u64_bitmap(range, count, rng),
            BitwiseStrategy::U128 => generate_ticketkey_u128_bitmap(range, count, rng),
            BitwiseStrategy::VecU64 => generate_ticketkey_vec_bitmap(range, count, rng),
        }
    }
}

/// A range of `size` values fits in the representation of `kind`.
pub open spec fn fits_strategy(kind: BitwiseStrategy, size: int) -> bool {
    match kind {
        BitwiseStrategy::U64 => size <= 64,
        BitwiseStrategy::U128 => size <= 128,
        BitwiseStrategy::VecU64 => true,
    }
}

/// `order` lists the balls of the offsets set in `key`, each once.
pub open spec fn records(order: Seq<u8>, key: TicketKey, range: BallRange) -> bool {
    &&& order.no_duplicates()
    &&& forall|j: int|
        0 <= j < order.len() ==> range.holds(#[trigger] order[j] as int) && key.has(
            (order[j] - range.lo()) as nat,
        )
    &&& forall|i: nat|
        i < range.len() && #[trigger] key.has(i) ==> order.contains((range.lo() + i) as u8)
}

/// Setting the offset of a new ball and appending the ball keeps the record.
proof fn lemma_records_push(order: Seq<u8>, before: TicketKey, after: TicketKey, range: BallRange, o: nat)
    requires
        range.valid(),
        o < range.len(),
        !before.has(o),
        before.within(range.len() as nat),
        forall|i: nat| #[trigger] after.has(i) == (i == o || before.has(i)),
        records(order, before, range),
    ensures
        records(order.push((range.lo() + o) as u8), after, range),
{
    let b = (range.lo() + o) as u8;
    let next = order.push(b);
    assert forall|i: int, j: int| 0 <= i < next.len() && 0 <= j < next.len() && i != j implies next[i]
        != next[j] by {
        if i < order.len() && j < order.len() {
            assert(order[i] != order[j]);
        } else if i < order.len() {
            assert(before.has((order[i] - range.lo()) as nat));
        } else {
            assert(before.has((order[j] - range.lo()) as nat));
        }
    }
    assert forall|j: int| 0 <= j < next.len() implies range.holds(#[trigger] next[j] as int)
        && after.has((next[j] - range.lo()) as nat) by {
        if j < order.len() {
            assert(next[j] == order[j]);
        }
    }
    assert forall|i: nat| i < range.len() && #[trigger] after.has(i) implies next.contains(
        (range.lo() + i) as u8,
    ) by {
        if i == o {
            assert(next[order.len() as int] == b);
        } else {
            assert(order.contains((range.lo() + i) as u8));
            let j = choose|j: int| 0 <= j < order.len() && order[j] == (range.lo() + i) as u8;
            assert(next[j] == order[j]);
        }
    }
}

/// Sets `pick` distinct offsets of an empty key, drawing balls from `rng`,
/// and returns the balls in the order they were set.
///
/// A draw outside the range or of a ball already set is discarded. Should
/// `MAX_DRAWS` draws pass without completing the ticket, the lowest free
/// offsets complete it.
fn fill_key<R: RandomNumberGenerator>(
    key: &mut TicketKey,
    range: &BallRange,
    pick: usize,
    rng: &mut R,
) -> (order: Vec<u8>)
    requires
        range.valid(),
        1 <= pick <= range.len(),
        old(key).width() >= range.len(),
        old(key).sized_for(range.len()),
        forall|i: nat| !(#[trigger] old(key).has(i)),
    ensures
        final(key).kind() == old(key).kind(),
        final(key).width() == old(key).width(),
        final(key).is_draw(*range, pick as nat),
        is_distinct_draw(order@, *range, pick as nat),
        records(order@, *final(key), *range),
{
    let size = range.size();
    let min = range.start().value();
    let max = range.end().value();
    let ghost kind = key.kind();
    let ghost width = key.width();
    proof {
        assert(key.count_below(size as nat) == 0) by {
            lemma_count_zero(*key, size as nat);
        }
    }
    let mut order: Vec<u8> = Vec::new();
    let mut picked: usize = 0;
    let mut draws: u64 = 0;
    while picked < pick && draws < MAX_DRAWS
        invariant
            size == range.len(),
            min == range.lo(),
            max == range.hi(),
            range.valid(),
            pick <= size,
            key.kind() == kind,
            key.width() == width,
            width >= size,
            key.within(size as nat),
            picked == key.count_below(size as nat),
            picked <= pick,
            order@.len() == picked,
            records(order@, *key, *range),
        decreases MAX_DRAWS - draws,
    {
        let ball = rng.gen_range_u8(min, max);
        draws = draws + 1;
        if ball >= min && ball <= max {
            let o = (ball - min) as usize;
            if !key.test_offset(o) {
                let ghost before = *key;
                key.set_offset(o);
                proof {
                    lemma_count_insert(before, *key, o as nat, size as nat);
                    lemma_records_push(order@, before, *key, *range, o as nat);
                }
                order.push(ball);
                picked = picked + 1;
            }
        }
    }
    let mut o: usize = 0;
    while o < size && picked < pick
        invariant
            size == range.len(),
            pick <= size,
            key.kind() == kind,
            key.width() == width,
            width >= size,
            key.within(size as nat),
            picked == key.count_below(size as nat),
            picked <= pick,
            o <= size,
            picked < pick ==> forall|i: nat| i < o ==> #[trigger] key.has(i),
            range.valid(),
            size == range.len(),
            min == range.lo(),
            order@.len() == picked,
            records(order@, *key, *range),
        decreases size - o,
    {
        if !key.test_offset(o) {
            let ghost before = *key;
            key.set_offset(o);
            proof {
                lemma_count_insert(before, *key, o as nat, size as nat);
                lemma_records_push(order@, before, *key, *range, o as nat);
            }
            order.push((min as usize + o) as u8);
            picked = picked + 1;
        }
        o = o + 1;
    }
    proof {
        if picked < pick {
            lemma_count_full(*key, size as nat);
        }
        lemma_count_stable(*key, size as nat, width);
    }
    order
}

/// No offset of an empty key is counted.
proof fn lemma_count_zero(key: TicketKey, n: nat)
    requires
        forall|i: nat| !(#[trigger] key.has(i)),
    ensures
        key.count_below(n) == 0,
    decreases n,
{
    if n > 0 {
        assert(!key.has((n - 1) as nat));
        lemma_count_zero(key, (n - 1) as nat);
    }
}

/// Draws a key in one `u64`; fails with `InvalidRange`, without drawing,
/// when the range holds more than 64 values.
pub fn generate_ticketkey_u64_bitmap<R: RandomNumberGenerator>(
    range: &BallRange,
    count: PickCount,
    rng: &mut R,
) -> (r: Result<TicketKey, LottoError>)
    requires
        range.valid(),
        1 <= count@ <= range.len(),
    ensures
        range.len() <= 64 ==> r is Ok && r->Ok_0.kind() == BitwiseStrategy::U64
            && r->Ok_0.is_draw(*range, count@ as nat),
        range.len() > 64 ==> r == Err::<TicketKey, LottoError>(
            LottoError::InvalidRange { start: range.lo(), end: range.hi() },
        ) && *final(rng) == *old(rng),
{
    generate_ticketkey_with(BitwiseStrategy::U64, range, count, rng)
}

/// Draws a key in one `u128`; fails with `InvalidRange`, without drawing,
/// when the range holds more than 128 values.
pub fn generate_ticketkey_u128_bitmap<R: RandomNumberGenerator>(
    range: &BallRange,
    count: PickCount,
    rng: &mut R,
) -> (r: Result<TicketKey, LottoError>)
    requires
        range.valid(),
        1 <= count@ <= range.len(),
    ensures
        range.len() <= 128 ==> r is Ok && r->Ok_0.kind() == BitwiseStrategy::U128
            && r->Ok_0.is_draw(*range, count@ as nat),
        range.len() > 128 ==> r == Err::<TicketKey, LottoError>(
            LottoError::InvalidRange { start: range.lo(), end: range.hi() },
        ) && *final(rng) == *old(rng),
{
    generate_ticketkey_with(BitwiseStrategy::U128, range, count, rng)
}

/// Draws a key in a word array of one `u64` per 64 values of the range.
pub fn generate_ticketkey_vec_bitmap<R: RandomNumberGenerator>(
    range: &BallRange,
    count: PickCount,
    rng: &mut R,
) -> (r: Result<TicketKey, LottoError>)
    requires
        range.valid(),
        1 <= count@ <= range.len(),
    ensures
        r is Ok && r->Ok_0.kind() == BitwiseStrategy::VecU64
            && r->Ok_0.is_draw(*range, count@ as nat),
{
    generate_ticketkey_with(BitwiseStrategy::VecU64, range, count, rng)
}

/// Checks that the range fits `kind`, then draws into an empty key of it.
fn generate_ticketkey_with<R: RandomNumberGenerator>(
    kind: BitwiseStrategy,
    range: &BallRange,
    count: PickCount,
    rng: &mut R,
) -> (r: Result<TicketKey, LottoError>)
    requires
        range.valid(),
        1 <= count@ <= range.len(),
    ensures
        fits_strategy(kind, range.len()) ==> r is Ok && r->Ok_0.kind() == kind
            && r->Ok_0.is_draw(*range, count@ as nat),
        !fits_strategy(kind, range.len()) ==> r == Err::<TicketKey, LottoError>(
            LottoError::InvalidRange { start: range.lo(), end: range.hi() },
        ) && *final(rng) == *old(rng),
{
    let (key, _) = draw_with(kind, range, count, rng)?;
    Ok(key)
}

/// Checks that the range fits `kind`, then draws into an empty key of it;
/// returns the key and its balls in the order they were drawn.
fn draw_with<R: RandomNumberGenerator>(
    kind: BitwiseStrategy,
    range: &BallRange,
    count: PickCount,
    rng: &mut R,
) -> (r: Result<(TicketKey, Vec<u8>), LottoError>)
    requires
        range.valid(),
        1 <= count@ <= range.len(),
    ensures
        fits_strategy(kind, range.len()) ==> r is Ok && r->Ok_0.0.kind() == kind
            && r->Ok_0.0.is_draw(*range, count@ as nat)
            && is_distinct_draw(r->Ok_0.1@, *range, count@ as nat)
            && records(r->Ok_0.1@, r->Ok_0.0, *range),
        !fits_strategy(kind, range.len()) ==> r == Err::<(TicketKey, Vec<u8>), LottoError>(
            LottoError::InvalidRange { start: range.lo(), end: range.hi() },
        ) && *final(rng) == *old(rng),
{
    let size = range.size();
    let too_wide = match kind {
        BitwiseStrategy::U64 => size > 64,
        BitwiseStrategy::U128 => size > 128,
        BitwiseStrategy::VecU64 => false,
    };
    if too_wide {
        return Err(LottoError::InvalidRange { start: range.start().value(), end: range.end().value() });
    }
    let mut key = TicketKey::empty(kind, size);
    let order = fill_key(&mut key, range, count.value(), rng);
    Ok((key, order))
}

/// The balls of a draw in the order they were drawn; fails like `draw_with`.
fn drawn_balls<R: RandomNumberGenerator>(
    kind: BitwiseStrategy,
    range: &BallRange,
    count: PickCount,
    rng: &mut R,
) -> (r: Result<Vec<BallNumber>, LottoError>)
    requires
        range.valid(),
        1 <= count@ <= range.len(),
    ensures
        fits_strategy(kind, range.len()) ==> r is Ok && is_distinct_draw(
            values(r->Ok_0@),
            *range,
            count@ as nat,
        ),
        !fits_strategy(kind, range.len()) ==> r == Err::<Vec<BallNumber>, LottoError>(
            LottoError::InvalidRange { start: range.lo(), end: range.hi() },
        ) && *final(rng) == *old(rng),
{
    let (_, order) = draw_with(kind, range, count, rng)?;
    Ok(to_ball_numbers(&order))
}

/// Draws a key with the strategy that the range's size selects.
pub fn generate_ticketkey_bitwise<R: RandomNumberGenerator>(
    range: &BallRange,
    count: PickCount,
    rng: &mut R,
) -> (r: Result<TicketKey, LottoError>)
    requires
        range.valid(),
        1 <= count@ <= range.len(),
    ensures
        r is Ok,
        r->Ok_0.kind() == strategy_for(range.len()),
        r->Ok_0.is_draw(*range, count@ as nat),
{
    let strategy = BitwiseStrategy::select(range)?;
    strategy.generate(range, count, rng)
}

/// Draws the balls of a ticket through a `u64` bitmap, in the order drawn;
/// fails with `InvalidRange`, without drawing, when the range holds more
/// than 64 values.
pub fn generate_ticket_u64_bitmap<R: RandomNumberGenerator>(
    range: &BallRange,
    count: PickCount,
    rng: &mut R,
) -> (r: Result<Vec<BallNumber>, LottoError>)
    requires
        range.valid(),
        1 <= count@ <= range.len(),
    ensures
        range.len() <= 64 ==> r is Ok && is_distinct_draw(values(r->Ok_0@), *range, count@ as nat),
        range.len() > 64 ==> r == Err::<Vec<BallNumber>, LottoError>(
            LottoError::InvalidRange { start: range.lo(), end: range.hi() },
        ) && *final(rng) == *old(rng),
{
    drawn_balls(BitwiseStrategy::U64, range, count, rng)
}

/// Draws the balls of a ticket through a `u128` bitmap, in the order drawn;
/// fails with `InvalidRange`, without drawing, when the range holds more
/// than 128 values.
pub fn generate_ticket_u128_bitmap<R: RandomNumberGenerator>(
    range: &BallRange,
    count: PickCount,
    rng: &mut R,
) -> (r: Result<Vec<BallNumber>, LottoError>)
    requires
        range.valid(),
        1 <= count@ <= range.len(),
    ensures
        range.len() <= 128 ==> r is Ok && is_distinct_draw(values(r->Ok_0@), *range, count@ as nat),
        range.len() > 128 ==> r == Err::<Vec<BallNumber>, LottoError>(
            LottoError::InvalidRange { start: range.lo(), end: range.hi() },
        ) && *final(rng) == *old(rng),
{
    drawn_balls(BitwiseStrategy::U128, range, count, rng)
}

/// Draws the balls of a ticket through a word-array bitmap, in the order drawn.
pub fn generate_ticket_vec_bitmap<R: RandomNumberGenerator>(
    range: &BallRange,
    count: PickCount,
    rng: &mut R,
) -> (r: Result<Vec<BallNumber>, LottoError>)
    requires
        range.valid(),
        1 <= count@ <= range.len(),
    ensures
        r is Ok && is_distinct_draw(values(r->Ok_0@), *range, count@ as nat),
{
    drawn_balls(BitwiseStrategy::VecU64, range, count, rng)
}

/// Draws the balls of a ticket with the strategy that the range's size
/// selects, in the order drawn.
pub fn generate_ticket_bitwise<R: RandomNumberGenerator>(
    range: &BallRange,
    count: PickCount,
    rng: &mut R,
) -> (r: Result<Vec<BallNumber>, LottoError>)
    requires
        range.valid(),
        1 <= count@ <= range.len(),
    ensures
        r is Ok && is_distinct_draw(values(r->Ok_0@), *range, count@ as nat),
{
    drawn_balls(strategy_of_size(range.size()), range, count, rng)
}

} // verus!
