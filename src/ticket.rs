//! Drawing single tickets and batches of distinct tickets.

use vstd::prelude::*;
use crate::error::LottoError;
use crate::newtypes::{BallNumber, BallRange, GameCount, PickCount, Ticket, values};
use crate::rng::RandomNumberGenerator;
use crate::sorted::{
    ascending, is_distinct_draw, is_ticket, lemma_covering_len, lemma_within_len,
};
use crate::probability::{binom, combination, combination_fits};
use crate::ticket_bitwise::{
    BitwiseStrategy, MAX_DRAWS, strategy_for, generate_ticketkey_bitwise, generate_ticketkey_u128_bitmap,
    generate_ticketkey_u64_bitmap, generate_ticketkey_vec_bitmap,
};
use crate::ticket_key::{TicketKey, lemma_agrees_balls, lemma_distinct_balls, lemma_draw_balls};

verus! {

/// Pushing a value keeps the earlier members and adds that value.
proof fn lemma_push_contains(s: Seq<u8>, y: u8)
    ensures
        forall|x: u8| #[trigger] s.push(y).contains(x) <==> (s.contains(x) || x == y),
{
    assert forall|x: u8| #[trigger] s.push(y).contains(x) <==> (s.contains(x) || x == y) by {
        if s.contains(x) {
            let j = choose|j: int| 0 <= j < s.len() && s[j] == x;
            assert(s.push(y)[j] == x);
        }
        if x == y {
            assert(s.push(y)[s.len() as int] == x);
        }
        if s.push(y).contains(x) {
            let j = choose|j: int| 0 <= j < s.len() + 1 && s.push(y)[j] == x;
            if j < s.len() {
                assert(s[j] == x);
            }
        }
    }
}

/// Whether `v` holds `x`.
fn holds_value(v: &Vec<u8>, x: u8) -> (r: bool)
    ensures
        r == v@.contains(x),
{
    let mut i: usize = 0;
    while i < v.len()
        invariant
            i <= v@.len(),
            forall|q: int| 0 <= q < i ==> v@[q] != x,
        decreases v@.len() - i,
    {
        if v[i] == x {
            return true;
        }
        i = i + 1;
    }
    false
}

/// The values as ball numbers, in the same order.
pub(crate) fn to_ball_numbers(v: &Vec<u8>) -> (r: Vec<BallNumber>)
    ensures
        values(r@) == v@,
{
    let mut out: Vec<BallNumber> = Vec::new();
    let mut i: usize = 0;
    while i < v.len()
        invariant
            i <= v@.len(),
            values(out@) == v@.subrange(0, i as int),
        decreases v@.len() - i,
    {
        out.push(BallNumber::new(v[i]));
        proof {
            assert(v@.subrange(0, i + 1) =~= v@.subrange(0, i as int).push(v@[i as int]));
            assert(values(out@) =~= v@.subrange(0, i + 1));
        }
        i = i + 1;
    }
    proof {
        assert(v@.subrange(0, i as int) =~= v@);
    }
    out
}

/// Draws `count` distinct values of `range`, discarding repeats and values
/// outside the range. Should `MAX_DRAWS` draws pass first, the lowest unused
/// values complete the draw.
pub(crate) fn draw_distinct<R: RandomNumberGenerator>(
    rng: &mut R,
    range: &BallRange,
    count: usize,
) -> (r: Vec<u8>)
    requires
        range.valid(),
        count <= range.len(),
    ensures
        is_distinct_draw(r@, *range, count as nat),
{
    let min = range.start().value();
    let max = range.end().value();
    let mut selected: Vec<u8> = Vec::new();
    let mut draws: u64 = 0;
    while selected.len() < count && draws < MAX_DRAWS
        invariant
            min == range.lo(),
            max == range.hi(),
            range.valid(),
            count <= range.len(),
            selected@.len() <= count,
            selected@.no_duplicates(),
            forall|j: int| 0 <= j < selected@.len() ==> range.holds(#[trigger] selected@[j] as int),
        decreases MAX_DRAWS - draws,
    {
        let value = rng.gen_range_u8(min, max);
        draws = draws + 1;
        if value >= min && value <= max && !holds_value(&selected, value) {
            let ghost prev = selected@;
            selected.push(value);
            proof {
                lemma_push_contains(prev, value);
                assert forall|i: int, j: int|
                    0 <= i < selected@.len() && 0 <= j < selected@.len() && i != j implies selected@[i]
                    != selected@[j] by {
                    if i < prev.len() && j < prev.len() {
                        assert(prev[i] != prev[j]);
                    } else if i < prev.len() {
                        assert(prev.contains(prev[i]));
                    } else if j < prev.len() {
                        assert(prev.contains(prev[j]));
                    }
                }
            }
        }
    }
    let mut v: usize = min as usize;
    while v <= max as usize && selected.len() < count
        invariant
            min == range.lo(),
            max == range.hi(),
            range.valid(),
            count <= range.len(),
            min <= v <= max + 1,
            selected@.len() <= count,
            selected@.no_duplicates(),
            forall|j: int| 0 <= j < selected@.len() ==> range.holds(#[trigger] selected@[j] as int),
            selected@.len() < count ==> forall|x: int|
                min <= x < v ==> selected@.contains(#[trigger] (x as u8)),
        decreases max + 1 - v,
    {
        let ghost prev = selected@;
        if !holds_value(&selected, v as u8) {
            selected.push(v as u8);
            proof {
                lemma_push_contains(prev, v as u8);
                assert forall|i: int, j: int|
                    0 <= i < selected@.len() && 0 <= j < selected@.len() && i != j implies selected@[i]
                    != selected@[j] by {
                    if i < prev.len() && j < prev.len() {
                        assert(prev[i] != prev[j]);
                    } else if i < prev.len() {
                        assert(prev.contains(prev[i]));
                    } else if j < prev.len() {
                        assert(prev.contains(prev[j]));
                    }
                }
            }
        }
        proof {
            lemma_push_contains(prev, v as u8);
        }
        v = v + 1;
    }
    proof {
        if selected@.len() < count {
            lemma_covering_len(selected@, min as int, max as int);
        }
    }
    selected
}

/// Whether drawing the balls to leave out beats drawing the balls to keep:
/// true when more than half of the range is picked.
pub fn should_use_exclusion_strategy(range_size: usize, pick_count: usize) -> (r: bool)
    ensures
        r == (pick_count > range_size / 2),
{
    pick_count > range_size / 2
}

/// Draws `pick_count` distinct balls one at a time, in draw order.
pub fn generate_by_insertion<R: RandomNumberGenerator>(
    rng: &mut R,
    range: &BallRange,
    pick_count: usize,
) -> (r: Vec<BallNumber>)
    requires
        range.valid(),
        pick_count <= range.len(),
    ensures
        is_distinct_draw(values(r@), *range, pick_count as nat),
{
    let selected = draw_distinct(rng, range, pick_count);
    to_ball_numbers(&selected)
}

/// Draws the `size - pick_count` balls to leave out, and returns the others
/// in ascending order.
pub fn generate_by_exclusion<R: RandomNumberGenerator>(
    rng: &mut R,
    range: &BallRange,
    pick_count: usize,
) -> (r: Vec<BallNumber>)
    requires
        range.valid(),
        pick_count <= range.len(),
    ensures
        is_ticket(values(r@), *range, pick_count as nat),
{
    let range_size = range.size();
    let exclude_count = range_size - pick_count;
    let excluded = draw_distinct(rng, range, exclude_count);
    let kept = collect_non_excluded_balls(range, &excluded);
    proof {
        let c = values(kept@);
        let e = excluded@;
        let lo = range.lo() as int;
        let hi = range.hi() as int;
        let both = c + e;
        assert forall|x: int| lo <= x <= hi implies both.contains(#[trigger] (x as u8)) by {
            if e.contains(x as u8) {
                let j = choose|j: int| 0 <= j < e.len() && e[j] == x as u8;
                assert(both[c.len() + j] == x as u8);
            } else {
                assert((x as u8) as int == x);
                assert(range.holds((x as u8) as int));
                assert(c.contains(x as u8));
                let j = choose|j: int| 0 <= j < c.len() && c[j] == x as u8;
                assert(both[j] == x as u8);
            }
        }
        lemma_covering_len(both, lo, hi);
        assert(both.no_duplicates()) by {
            assert forall|i: int, j: int|
                0 <= i < both.len() && 0 <= j < both.len() && i != j implies both[i] != both[j] by {
                if i < c.len() && j < c.len() {
                    assert(c[i] != c[j]);
                } else if i >= c.len() && j >= c.len() {
                    assert(e[i - c.len()] != e[j - c.len()]);
                } else if i < c.len() {
                    assert(c.contains(c[i]));
                    assert(e.contains(e[j - c.len()]));
                } else {
                    assert(c.contains(c[j]));
                    assert(e.contains(e[i - c.len()]));
                }
            }
        }
        assert forall|j: int| 0 <= j < both.len() implies lo <= #[trigger] both[j] <= hi by {
            if j < c.len() {
                assert(both[j] == c[j]);
                assert(c.contains(c[j]));
                assert(range.holds(c[j] as int));
            } else {
                assert(both[j] == e[j - c.len()]);
                assert(range.holds(e[j - c.len()] as int));
            }
        }
        lemma_within_len(both, lo, hi);
    }
    kept
}

/// The balls of `range` that `excluded` does not hold, in ascending order.
pub fn collect_non_excluded_balls(range: &BallRange, excluded: &Vec<u8>) -> (r: Vec<BallNumber>)
    requires
        range.valid(),
    ensures
        ascending(values(r@)),
        forall|x: u8|
            values(r@).contains(x) <==> (range.holds(x as int) && !excluded@.contains(x)),
{
    let min = range.start().value();
    let max = range.end().value();
    let mut kept: Vec<u8> = Vec::new();
    let mut v: usize = min as usize;
    while v <= max as usize
        invariant
            min == range.lo(),
            max == range.hi(),
            range.valid(),
            min <= v <= max + 1,
            ascending(kept@),
            forall|j: int| 0 <= j < kept@.len() ==> #[trigger] kept@[j] < v,
            forall|x: u8|
                kept@.contains(x) <==> (min <= x < v && !excluded@.contains(x)),
        decreases max + 1 - v,
    {
        let ghost prev = kept@;
        if !holds_value(excluded, v as u8) {
            kept.push(v as u8);
        }
        proof {
            lemma_push_contains(prev, v as u8);
        }
        v = v + 1;
    }
    to_ball_numbers(&kept)
}

/// Draws one ticket of `pick` distinct balls of `range`.
///
/// The bitmap of the range's strategy samples it; the set-based fallbacks
/// stand behind it.
pub fn generate_ticket<R: RandomNumberGenerator>(
    rng: &mut R,
    range: &BallRange,
    pick: &PickCount,
) -> (r: Ticket)
    requires
        range.valid(),
        1 <= pick@ <= range.len(),
    ensures
        is_ticket(r@, *range, pick@ as nat),
{
    if let Ok(key) = generate_ticketkey_bitwise(range, *pick, rng) {
        proof {
            lemma_draw_balls(key, *range, pick@ as nat);
        }
        return Ticket::from_sorted(key.to_balls(range));
    }
    let range_size = range.size();
    let pick_count = pick.value();
    let balls = if should_use_exclusion_strategy(range_size, pick_count) {
        generate_by_exclusion(rng, range, pick_count)
    } else {
        generate_by_insertion(rng, range, pick_count)
    };
    Ticket::new(balls)
}

/// Attempts allowed per requested ticket while fewer than half of all
/// distinct tickets are requested.
pub const LOW_RATIO_ATTEMPTS: usize = 100;

/// Attempts allowed per requested ticket while fewer than four fifths of
/// all distinct tickets are requested.
pub const MID_RATIO_ATTEMPTS: usize = 1000;

/// Attempts allowed per requested ticket beyond that.
pub const HIGH_RATIO_ATTEMPTS: usize = 10000;

/// The attempts per requested ticket for `requested` of `maximum` distinct tickets.
pub open spec fn attempt_multiplier(requested: nat, maximum: nat) -> nat {
    if 2 * requested < maximum {
        LOW_RATIO_ATTEMPTS as nat
    } else if 5 * requested < 4 * maximum {
        MID_RATIO_ATTEMPTS as nat
    } else {
        HIGH_RATIO_ATTEMPTS as nat
    }
}

/// The attempt budget: `requested` times its multiplier, capped at `usize::MAX`.
pub open spec fn attempt_limit(requested: nat, maximum: nat) -> nat {
    if requested * attempt_multiplier(requested, maximum) <= usize::MAX {
        requested * attempt_multiplier(requested, maximum)
    } else {
        usize::MAX as nat
    }
}

/// How many tickets a batch may draw before giving up, from the share of
/// all distinct tickets that is requested: below one half, 100 per ticket;
/// below four fifths, 1000; otherwise 10000.
pub fn attempt_budget(requested: usize, maximum: u128) -> (r: usize)
    ensures
        r == attempt_limit(requested as nat, maximum as nat),
{
    let wanted = requested as u128;
    let multiplier: usize = if wanted * 2 < maximum {
        LOW_RATIO_ATTEMPTS
    } else if wanted * 5 < maximum * 4 {
        MID_RATIO_ATTEMPTS
    } else {
        HIGH_RATIO_ATTEMPTS
    };
    match requested.checked_mul(multiplier) {
        Some(budget) => budget,
        None => usize::MAX,
    }
}

/// `tickets` are `count` pairwise different tickets of `pick` balls of `range`.
pub open spec fn is_batch(tickets: Seq<Ticket>, range: BallRange, pick: nat, count: nat) -> bool {
    &&& tickets.len() == count
    &&& forall|i: int| 0 <= i < tickets.len() ==> is_ticket(#[trigger] tickets[i]@, range, pick)
    &&& forall|i: int, j: int| 0 <= i < j < tickets.len() ==> tickets[i]@ != tickets[j]@
}

/// The distinct tickets of `draws`, in order of first appearance.
pub open spec fn first_occurrences(draws: Seq<Seq<u8>>) -> Seq<Seq<u8>>
    decreases draws.len(),
{
    if draws.len() == 0 {
        Seq::empty()
    } else {
        let earlier = first_occurrences(draws.drop_last());
        if earlier.contains(draws.last()) {
            earlier
        } else {
            earlier.push(draws.last())
        }
    }
}

/// Every draw is a ticket of `pick` balls of `range`.
pub open spec fn valid_draws(draws: Seq<Seq<u8>>, range: BallRange, pick: nat) -> bool {
    forall|i: int| 0 <= i < draws.len() ==> is_ticket(#[trigger] draws[i], range, pick)
}

/// The balls of each ticket.
pub open spec fn ticket_values(tickets: Seq<Ticket>) -> Seq<Seq<u8>> {
    tickets.map_values(|t: Ticket| t@)
}

/// What a batch request for `count` distinct tickets of `pick` balls of
/// `range` returns; `untouched` says that the random source was not used.
///
/// When C(size, pick) overflows: that `CalculationOverflow`, without drawing.
/// When fewer than `count` distinct tickets exist: `TooManyUniqueGames` with
/// both numbers, without drawing. Otherwise tickets are drawn one attempt at
/// a time: the result is the distinct tickets of at most `attempt_limit`
/// draws, in order of first appearance, once there are `count` of them; or
/// `UniqueGenerationFailed` after exactly `attempt_limit` draws, reporting
/// how many distinct tickets they held. A request for one ticket always
/// succeeds.
pub open spec fn batch_outcome(
    r: Result<Vec<Ticket>, LottoError>,
    range: BallRange,
    pick: nat,
    count: usize,
    untouched: bool,
) -> bool {
    let size = range.len() as nat;
    let budget = attempt_limit(count as nat, binom(size, pick));
    if !combination_fits(size, pick) {
        r is Err && r->Err_0 is CalculationOverflow && untouched
    } else if count > binom(size, pick) {
        r == Err::<Vec<Ticket>, LottoError>(
            LottoError::TooManyUniqueGames { requested: count, maximum: binom(size, pick) as u128 },
        ) && untouched
    } else {
        &&& count == 1 ==> r is Ok
        &&& match r {
            Ok(tickets) => {
                &&& is_batch(tickets@, range, pick, count as nat)
                &&& exists|draws: Seq<Seq<u8>>|
                    #[trigger] valid_draws(draws, range, pick) && draws.len() <= budget
                        && first_occurrences(draws) == ticket_values(tickets@)
            },
            Err(e) => match e {
                LottoError::UniqueGenerationFailed { requested, generated } => {
                    &&& requested == count
                    &&& generated < count
                    &&& count >= 1 ==> 1 <= generated
                    &&& exists|draws: Seq<Seq<u8>>|
                        #[trigger] valid_draws(draws, range, pick) && draws.len() == budget
                            && first_occurrences(draws).len() == generated
                },
                _ => false,
            },
        }
    }
}

/// The budget allows at least one attempt per requested ticket.
proof fn lemma_limit_covers(count: nat, maximum: nat)
    requires
        count <= usize::MAX,
    ensures
        attempt_limit(count, maximum) >= count,
{
    let m = attempt_multiplier(count, maximum);
    assert(count * m >= count) by (nonlinear_arith)
        requires
            m >= 1,
    ;
}

/// One more draw extends the first occurrences by it exactly when it is new.
proof fn lemma_first_occurrences_push(draws: Seq<Seq<u8>>, d: Seq<u8>)
    ensures
        first_occurrences(draws.push(d)) == if first_occurrences(draws).contains(d) {
            first_occurrences(draws)
        } else {
            first_occurrences(draws).push(d)
        },
{
    assert(draws.push(d).drop_last() =~= draws);
}

/// Whether `keys` holds a key that agrees with `key` below `size`.
fn holds_key(keys: &Vec<TicketKey>, key: &TicketKey, size: usize) -> (r: bool)
    requires
        key.width() >= size,
        forall|i: int| 0 <= i < keys@.len() ==> (#[trigger] keys@[i]).width() >= size,
    ensures
        r == exists|i: int| 0 <= i < keys@.len() && (#[trigger] keys@[i]).agrees(*key, size as nat),
{
    let mut i: usize = 0;
    while i < keys.len()
        invariant
            key.width() >= size,
            forall|k: int| 0 <= k < keys@.len() ==> (#[trigger] keys@[k]).width() >= size,
            i <= keys@.len(),
            forall|k: int| 0 <= k < i ==> !(#[trigger] keys@[k]).agrees(*key, size as nat),
        decreases keys@.len() - i,
    {
        if keys[i].same_offsets(key, size) {
            return true;
        }
        i = i + 1;
    }
    false
}

/// Generates `game_count` distinct tickets of `pick` balls of `range`.
///
/// First checks feasibility: when C(size, pick) overflows, that error is
/// returned; when fewer distinct tickets exist than requested, the result is
/// `TooManyUniqueGames`. Neither draws anything. Then tickets are drawn with
/// the range's bitmap strategy and kept when new, until enough are kept or
/// the attempt budget is spent (`UniqueGenerationFailed`).
pub fn generate_unique_tickets<R: RandomNumberGenerator>(
    rng: &mut R,
    range: &BallRange,
    pick: &PickCount,
    game_count: &GameCount,
) -> (r: Result<Vec<Ticket>, LottoError>)
    requires
        range.valid(),
        1 <= pick@ <= range.len(),
    ensures
        batch_outcome(r, *range, pick@ as nat, game_count@, *final(rng) == *old(rng)),
{
    let games = game_count.value();
    let size = range.size();
    let max_possible = combination(size, pick.value())?;
    if (games as u128) > max_possible {
        return Err(LottoError::TooManyUniqueGames { requested: games, maximum: max_possible });
    }
    let max_attempts = attempt_budget(games, max_possible);
    let strategy = BitwiseStrategy::select(range)?;
    let ghost lo = range.lo() as int;
    let ghost draws: Seq<Seq<u8>> = Seq::empty();
    proof {
        lemma_limit_covers(games as nat, max_possible as nat);
    }
    let mut keys: Vec<TicketKey> = Vec::new();
    let mut attempts: usize = 0;
    while keys.len() < games
        invariant
            size == range.len(),
            lo == range.lo(),
            range.valid(),
            1 <= pick@ <= size,
            games == game_count@,
            combination_fits(size as nat, pick@ as nat),
            strategy == strategy_for(size as int),
            games <= binom(size as nat, pick@ as nat),
            max_attempts == attempt_limit(games as nat, binom(size as nat, pick@ as nat)),
            max_attempts >= games,
            keys@.len() <= games,
            forall|i: int| 0 <= i < keys@.len() ==> (#[trigger] keys@[i]).is_draw(*range, pick@ as nat),
            forall|i: int, j: int|
                0 <= i < j < keys@.len() ==> !keys@[i].agrees(keys@[j], size as nat),
            draws.len() == attempts,
            attempts <= max_attempts,
            valid_draws(draws, *range, pick@ as nat),
            keys@.len() == first_occurrences(draws).len(),
            forall|i: int|
                0 <= i < keys@.len() ==> (#[trigger] keys@[i]).ball_values(lo, size as nat)
                    == first_occurrences(draws)[i],
            attempts > 0 ==> keys@.len() >= 1,
        decreases max_attempts - attempts,
    {
        if attempts >= max_attempts {
            proof {
                assert(valid_draws(draws, *range, pick@ as nat) && draws.len() == max_attempts
                    && first_occurrences(draws).len() == keys@.len());
            }
            return Err(LottoError::UniqueGenerationFailed { requested: games, generated: keys.len() });
        }
        let key = match strategy {
            BitwiseStrategy::U64 => generate_ticketkey_u64_bitmap(range, *pick, rng)?,
            BitwiseStrategy::U128 => generate_ticketkey_u128_bitmap(range, *pick, rng)?,
            BitwiseStrategy::VecU64 => generate_ticketkey_vec_bitmap(range, *pick, rng)?,
        };
        let ghost drawn = key.ball_values(lo, size as nat);
        let ghost earlier = first_occurrences(draws);
        proof {
            lemma_draw_balls(key, *range, pick@ as nat);
            lemma_first_occurrences_push(draws, drawn);
            assert((exists|i: int| 0 <= i < keys@.len() && (#[trigger] keys@[i]).agrees(key, size as nat))
                <==> earlier.contains(drawn)) by {
                if exists|i: int| 0 <= i < keys@.len() && (#[trigger] keys@[i]).agrees(key, size as nat) {
                    let i = choose|i: int| 0 <= i < keys@.len() && (#[trigger] keys@[i]).agrees(key, size as nat);
                    lemma_agrees_balls(keys@[i], key, *range);
                    assert(earlier[i] == drawn);
                }
                if earlier.contains(drawn) {
                    let i = choose|i: int| 0 <= i < earlier.len() && earlier[i] == drawn;
                    assert(keys@[i].ball_values(lo, size as nat) == drawn);
                    lemma_agrees_balls(keys@[i], key, *range);
                }
            }
            assert forall|i: int| 0 <= i < draws.len() + 1 implies is_ticket(
                #[trigger] draws.push(drawn)[i],
                *range,
                pick@ as nat,
            ) by {
                if i < draws.len() {
                    assert(draws.push(drawn)[i] == draws[i]);
                }
            }
        }
        if !holds_key(&keys, &key, size) {
            let ghost prev = keys@;
            keys.push(key);
            proof {
                assert forall|i: int, j: int|
                    0 <= i < j < keys@.len() implies !keys@[i].agrees(keys@[j], size as nat) by {
                    if j == prev.len() {
                        assert(!prev[i].agrees(key, size as nat));
                    } else {
                        assert(!prev[i].agrees(prev[j], size as nat));
                    }
                }
                assert forall|i: int| 0 <= i < keys@.len() implies (#[trigger] keys@[i]).ball_values(
                    lo,
                    size as nat,
                ) == first_occurrences(draws.push(drawn))[i] by {
                    if i < prev.len() {
                        assert(keys@[i] == prev[i]);
                    }
                }
            }
        }
        proof {
            draws = draws.push(drawn);
        }
        attempts = attempts + 1;
    }
    let mut tickets: Vec<Ticket> = Vec::new();
    let mut i: usize = 0;
    while i < keys.len()
        invariant
            size == range.len(),
            lo == range.lo(),
            range.valid(),
            i <= keys@.len(),
            keys@.len() == games,
            tickets@.len() == i,
            forall|k: int| 0 <= k < keys@.len() ==> (#[trigger] keys@[k]).is_draw(*range, pick@ as nat),
            forall|k: int|
                0 <= k < i ==> (#[trigger] tickets@[k])@ == keys@[k].ball_values(
                    range.lo() as int,
                    range.len() as nat,
                ) && is_ticket(tickets@[k]@, *range, pick@ as nat),
        decreases keys@.len() - i,
    {
        proof {
            lemma_draw_balls(keys@[i as int], *range, pick@ as nat);
        }
        let ticket = Ticket::from_sorted(keys[i].to_balls(range));
        tickets.push(ticket);
        i = i + 1;
    }
    proof {
        assert forall|a: int, b: int| 0 <= a < b < tickets@.len() implies tickets@[a]@
            != tickets@[b]@ by {
            assert(!keys@[a].agrees(keys@[b], size as nat));
            lemma_distinct_balls(keys@[a], keys@[b], *range);
        }
        assert(ticket_values(tickets@) =~= first_occurrences(draws));
        assert(valid_draws(draws, *range, pick@ as nat) && draws.len() <= max_attempts
            && first_occurrences(draws) == ticket_values(tickets@));
    }
    Ok(tickets)
}

/// Whether two tickets hold the same balls.
fn same_ticket(a: &Ticket, b: &Ticket) -> (r: bool)
    ensures
        r == (a@ == b@),
{
    let x = a.balls();
    let y = b.balls();
    proof {
        assert(a@.len() == x@.len());
        assert(b@.len() == y@.len());
    }
    if x.len() != y.len() {
        return false;
    }
    let mut i: usize = 0;
    while i < x.len()
        invariant
            values(x@) == a@,
            values(y@) == b@,
            x@.len() == y@.len(),
            i <= x@.len(),
            forall|k: int| 0 <= k < i ==> a@[k] == b@[k],
        decreases x@.len() - i,
    {
        if x[i].value() != y[i].value() {
            proof {
                assert(a@[i as int] != b@[i as int]);
            }
            return false;
        }
        i = i + 1;
    }
    proof {
        assert(a@ =~= b@);
    }
    true
}

/// Whether `tickets` holds a ticket with the balls of `ticket`.
fn holds_ticket(tickets: &Vec<Ticket>, ticket: &Ticket) -> (r: bool)
    ensures
        r == exists|i: int| 0 <= i < tickets@.len() && (#[trigger] tickets@[i])@ == ticket@,
{
    let mut i: usize = 0;
    while i < tickets.len()
        invariant
            i <= tickets@.len(),
            forall|k: int| 0 <= k < i ==> (#[trigger] tickets@[k])@ != ticket@,
        decreases tickets@.len() - i,
    {
        if same_ticket(&tickets[i], ticket) {
            return true;
        }
        i = i + 1;
    }
    false
}

/// Generates `game_count` distinct tickets like [`generate_unique_tickets`],
/// but draws whole tickets with [`generate_ticket`] and compares them ball by
/// ball instead of by bitmap.
pub fn generate_unique_tickets_with_ticket_hashset<R: RandomNumberGenerator>(
    rng: &mut R,
    range: &BallRange,
    pick: &PickCount,
    game_count: &GameCount,
) -> (r: Result<Vec<Ticket>, LottoError>)
    requires
        range.valid(),
        1 <= pick@ <= range.len(),
    ensures
        batch_outcome(r, *range, pick@ as nat, game_count@, *final(rng) == *old(rng)),
{
    let games = game_count.value();
    let max_possible = combination(range.size(), pick.value())?;
    if (games as u128) > max_possible {
        return Err(LottoError::TooManyUniqueGames { requested: games, maximum: max_possible });
    }
    let max_attempts = attempt_budget(games, max_possible);
    let ghost draws: Seq<Seq<u8>> = Seq::empty();
    proof {
        lemma_limit_covers(games as nat, max_possible as nat);
    }
    let mut tickets: Vec<Ticket> = Vec::new();
    let mut attempts: usize = 0;
    while tickets.len() < games
        invariant
            range.valid(),
            1 <= pick@ <= range.len(),
            games == game_count@,
            combination_fits(range.len() as nat, pick@ as nat),
            games <= binom(range.len() as nat, pick@ as nat),
            max_attempts == attempt_limit(games as nat, binom(range.len() as nat, pick@ as nat)),
            max_attempts >= games,
            tickets@.len() <= games,
            forall|i: int| 0 <= i < tickets@.len() ==> is_ticket(#[trigger] tickets@[i]@, *range, pick@ as nat),
            forall|i: int, j: int| 0 <= i < j < tickets@.len() ==> tickets@[i]@ != tickets@[j]@,
            draws.len() == attempts,
            attempts <= max_attempts,
            valid_draws(draws, *range, pick@ as nat),
            ticket_values(tickets@) == first_occurrences(draws),
            attempts > 0 ==> tickets@.len() >= 1,
        decreases max_attempts - attempts,
    {
        if attempts >= max_attempts {
            proof {
                assert(first_occurrences(draws).len() == tickets@.len());
                assert(valid_draws(draws, *range, pick@ as nat) && draws.len() == max_attempts
                    && first_occurrences(draws).len() == tickets@.len());
            }
            return Err(LottoError::UniqueGenerationFailed { requested: games, generated: tickets.len() });
        }
        let ticket = generate_ticket(rng, range, pick);
        let ghost drawn = ticket@;
        let ghost earlier = first_occurrences(draws);
        proof {
            lemma_first_occurrences_push(draws, drawn);
            assert((exists|i: int| 0 <= i < tickets@.len() && (#[trigger] tickets@[i])@ == drawn)
                <==> earlier.contains(drawn)) by {
                if exists|i: int| 0 <= i < tickets@.len() && (#[trigger] tickets@[i])@ == drawn {
                    let i = choose|i: int| 0 <= i < tickets@.len() && (#[trigger] tickets@[i])@ == drawn;
                    assert(earlier[i] == drawn);
                }
                if earlier.contains(drawn) {
                    let i = choose|i: int| 0 <= i < earlier.len() && earlier[i] == drawn;
                    assert(tickets@[i]@ == drawn);
                }
            }
            assert forall|i: int| 0 <= i < draws.len() + 1 implies is_ticket(
                #[trigger] draws.push(drawn)[i],
                *range,
                pick@ as nat,
            ) by {
                if i < draws.len() {
                    assert(draws.push(drawn)[i] == draws[i]);
                }
            }
        }
        if !holds_ticket(&tickets, &ticket) {
            let ghost prev = tickets@;
            tickets.push(ticket);
            proof {
                assert(ticket_values(tickets@) =~= ticket_values(prev).push(drawn));
            }
        }
        proof {
            draws = draws.push(drawn);
        }
        attempts = attempts + 1;
    }
    proof {
        assert(valid_draws(draws, *range, pick@ as nat) && draws.len() <= max_attempts
            && first_occurrences(draws) == ticket_values(tickets@));
    }
    Ok(tickets)
}

/// The values of `listed` that lie in `range`, in ascending order.
pub(crate) fn sorted_within(range: &BallRange, listed: &Vec<u8>) -> (r: Vec<u8>)
    requires
        range.valid(),
    ensures
        ascending(r@),
        forall|x: u8| r@.contains(x) <==> (range.holds(x as int) && listed@.contains(x)),
{
    let min = range.start().value();
    let max = range.end().value();
    let mut kept: Vec<u8> = Vec::new();
    let mut v: usize = min as usize;
    while v <= max as usize
        invariant
            min == range.lo(),
            max == range.hi(),
            range.valid(),
            min <= v <= max + 1,
            ascending(kept@),
            forall|j: int| 0 <= j < kept@.len() ==> #[trigger] kept@[j] < v,
            forall|x: u8| kept@.contains(x) <==> (min <= x < v && listed@.contains(x)),
        decreases max + 1 - v,
    {
        let ghost prev = kept@;
        if holds_value(listed, v as u8) {
            kept.push(v as u8);
        }
        proof {
            lemma_push_contains(prev, v as u8);
        }
        v = v + 1;
    }
    kept
}

/// Distinct sequences with the same members have the same length.
pub(crate) proof fn lemma_same_members_same_len(a: Seq<u8>, b: Seq<u8>)
    requires
        a.no_duplicates(),
        b.no_duplicates(),
        forall|x: u8| a.contains(x) <==> b.contains(x),
    ensures
        a.len() == b.len(),
{
    a.unique_seq_to_set();
    b.unique_seq_to_set();
    assert(a.to_set() =~= b.to_set());
}

} // verus!
