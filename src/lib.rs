//! Unique lottery ticket generation over bounded integer ranges, with exact
//! combinatorial statistics for such draws.

pub mod error;
pub mod newtypes;
pub mod probability;
pub mod rng;
pub mod sorted;
pub mod ticket;
pub mod ticket_bitwise;
pub mod ticket_key;

use vstd::prelude::*;
use crate::error::LottoError;
use crate::newtypes::{BallNumber, BallRange, GameCount, PickCount, Ticket};
use crate::rng::{RandomNumberGenerator, random_index, thread_source};
use crate::sorted::{ascending, is_ticket};
use crate::ticket::{
    batch_outcome, draw_distinct, generate_unique_tickets, lemma_same_members_same_len,
    sorted_within,
};

verus! {

/// A validated request: how many tickets, from which range, of how many balls.
#[derive(Debug, Clone, Copy)]
pub struct Parameters {
    games: GameCount,
    range: BallRange,
    pick: PickCount,
}

impl Parameters {
    /// The number of tickets requested.
    pub closed spec fn game_count(&self) -> GameCount {
        self.games
    }

    /// The range the balls come from.
    pub closed spec fn ball_range(&self) -> BallRange {
        self.range
    }

    /// The number of balls per ticket.
    pub closed spec fn pick_count(&self) -> PickCount {
        self.pick
    }

    /// The request is coherent: a valid range, a positive count of games,
    /// and between one and all of the range's balls per ticket.
    pub open spec fn valid(&self) -> bool {
        &&& self.ball_range().valid()
        &&& self.game_count()@ >= 1
        &&& 1 <= self.pick_count()@ <= self.ball_range().len()
    }

    /// Validates a request, ordering `start` and `end` first.
    ///
    /// Fails with the first broken rule: `InvalidRange` when the range holds
    /// a single value, `ZeroGames` when no game is requested,
    /// `PickExceedsRange` when `pick` is zero or exceeds the range's size.
    pub fn new(games: usize, start: u8, end: u8, pick: u8) -> (r: Result<Self, LottoError>)
        ensures
            ({
                let lo = if end < start { end } else { start };
                let hi = if end < start { start } else { end };
                let size = hi - lo + 1;
                if lo == hi {
                    r == Err::<Self, LottoError>(LottoError::InvalidRange { start: lo, end: hi })
                } else if games == 0 {
                    r == Err::<Self, LottoError>(LottoError::ZeroGames)
                } else if pick == 0 || pick > size {
                    r == Err::<Self, LottoError>(
                        LottoError::PickExceedsRange { pick: pick as usize, available: size as usize },
                    )
                } else {
                    &&& r is Ok
                    &&& r->Ok_0.valid()
                    &&& r->Ok_0.ball_range().lo() == lo
                    &&& r->Ok_0.ball_range().hi() == hi
                    &&& r->Ok_0.game_count()@ == games
                    &&& r->Ok_0.pick_count()@ == pick
                }
            }),
    {
        let (lo, hi) = if end < start {
            (end, start)
        } else {
            (start, end)
        };
        let range = BallRange::new(BallNumber::new(lo), BallNumber::new(hi))?;
        let games = GameCount::new(games)?;
        let pick = PickCount::new(pick as usize, &range)?;
        Ok(Parameters { games, range, pick })
    }

    /// Draws one ticket from the thread's generator, sorted ascending.
    ///
    /// When at least half of the range is picked, the balls left out are
    /// removed one by one from the full range at random positions; otherwise
    /// the balls kept are drawn one by one, repeats discarded.
    pub fn generate_ticket(&self) -> (r: Vec<u8>)
        requires
            self.valid(),
        ensures
            is_ticket(r@, self.ball_range(), self.pick_count()@ as nat),
    {
        let mut source = thread_source();
        let range = self.range;
        let pick = self.pick.value();
        let start = range.start().value();
        let end = range.end().value();
        let mut game: Vec<u8> = Vec::new();
        let mut v: usize = start as usize;
        while v <= end as usize
            invariant
                start == range.lo(),
                end == range.hi(),
                range.valid(),
                start <= v <= end + 1,
                game@.len() == v - start,
                forall|i: int| 0 <= i < game@.len() ==> #[trigger] game@[i] == start + i,
            decreases end + 1 - v,
        {
            game.push(v as u8);
            v = v + 1;
        }
        let not_pick = game.len() - pick;
        if pick >= not_pick {
            let mut count: usize = 0;
            while count < not_pick
                invariant
                    range.valid(),
                    game@.len() == range.len() - count,
                    count <= not_pick,
                    not_pick == range.len() - pick,
                    ascending(game@),
                    forall|i: int| 0 <= i < game@.len() ==> range.holds(#[trigger] game@[i] as int),
                decreases not_pick - count,
            {
                let ghost prev = game@;
                let index = random_index(&mut source, game.len());
                game.remove(index);
                proof {
                    assert forall|i: int, j: int| 0 <= i < j < game@.len() implies game@[i] < game@[j] by {
                        if j < index {
                        } else if i < index {
                            assert(game@[j] == prev[j + 1]);
                        } else {
                            assert(game@[i] == prev[i + 1]);
                            assert(game@[j] == prev[j + 1]);
                        }
                    }
                    assert forall|i: int| 0 <= i < game@.len() implies range.holds(#[trigger] game@[i] as int) by {
                        if i >= index {
                            assert(game@[i] == prev[i + 1]);
                        }
                    }
                }
                count = count + 1;
            }
            game
        } else {
            let drawn = draw_distinct(&mut source, &range, pick);
            let sorted = sorted_within(&range, &drawn);
            proof {
                assert forall|x: u8| sorted@.contains(x) <==> drawn@.contains(x) by {
                    assert(sorted@.contains(x) == (range.holds(x as int) && drawn@.contains(x)));
                    if drawn@.contains(x) {
                        let j = choose|j: int| 0 <= j < drawn@.len() && drawn@[j] == x;
                        assert(range.holds(drawn@[j] as int));
                    }
                }
                assert forall|j: int| 0 <= j < sorted@.len() implies range.holds(#[trigger] sorted@[j] as int) by {
                    assert(sorted@.contains(sorted@[j]));
                }
                lemma_same_members_same_len(sorted@, drawn@);
            }
            sorted
        }
    }

    /// The number of tickets requested.
    pub fn games(&self) -> (r: GameCount)
        ensures
            r == self.game_count(),
    {
        self.games
    }

    /// The range the balls come from.
    pub fn range(&self) -> (r: BallRange)
        ensures
            r == self.ball_range(),
    {
        self.range
    }

    /// The number of balls per ticket.
    pub fn pick(&self) -> (r: PickCount)
        ensures
            r == self.pick_count(),
    {
        self.pick
    }
}

/// Generates the distinct tickets that `config` requests.
pub fn generate_tickets<R: RandomNumberGenerator>(
    rng: &mut R,
    config: &Parameters,
) -> (r: Result<Vec<Ticket>, LottoError>)
    requires
        config.valid(),
    ensures
        batch_outcome(
            r,
            config.ball_range(),
            config.pick_count()@ as nat,
            config.game_count()@,
            *final(rng) == *old(rng),
        ),
{
    generate_unique_tickets(rng, &config.range, &config.pick, &config.games)
}

} // verus!
