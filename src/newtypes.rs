//! Validated value types of the lottery domain.

use vstd::prelude::*;
use crate::error::LottoError;
use crate::sorted::ascending;

verus! {

/// One ball of a lottery draw; any `u8` is a legal ball number.
#[derive(Debug, Clone, Copy, PartialEq, Eq, Structural, PartialOrd, Ord, Hash)]
pub struct BallNumber(u8);

impl View for BallNumber {
    type V = u8;

    closed spec fn view(&self) -> u8 {
        self.0
    }
}

/// The numeric values of a sequence of balls.
pub open spec fn values(balls: Seq<BallNumber>) -> Seq<u8> {
    balls.map_values(|b: BallNumber| b@)
}

impl BallNumber {
    /// Wraps a ball value.
    pub fn new(value: u8) -> (r: Self)
        ensures
            r@ == value,
    {
        Self(value)
    }

    /// The ball's value.
    pub fn value(&self) -> (r: u8)
        ensures
            r == self@,
    {
        self.0
    }
}

/// A ball converts to its value.
impl From<BallNumber> for u8 {
    fn from(ball: BallNumber) -> u8 {
        ball.0
    }
}

impl vstd::std_specs::convert::FromSpecImpl<BallNumber> for u8 {
    open spec fn obeys_from_spec() -> bool {
        true
    }

    open spec fn from_spec(ball: BallNumber) -> u8 {
        ball@
    }
}

/// Every `u8` is a ball number, 0 included.
impl TryFrom<u8> for BallNumber {
    type Error = LottoError;

    fn try_from(value: u8) -> (r: Result<BallNumber, LottoError>) {
        Ok(BallNumber::new(value))
    }
}

impl vstd::std_specs::convert::TryFromSpecImpl<u8> for BallNumber {
    open spec fn obeys_try_from_spec() -> bool {
        true
    }

    closed spec fn try_from_spec(value: u8) -> Result<BallNumber, LottoError> {
        Ok(BallNumber(value))
    }
}

/// An inclusive range of ball numbers holding at least two values.
#[derive(Debug, Clone, Copy, PartialEq, Eq, Structural)]
pub struct BallRange {
    start: BallNumber,
    end: BallNumber,
}

impl BallRange {
    /// The lowest ball of the range.
    pub closed spec fn lo(&self) -> u8 {
        self.start@
    }

    /// The highest ball of the range.
    pub closed spec fn hi(&self) -> u8 {
        self.end@
    }

    /// The range holds at least two values.
    pub open spec fn valid(&self) -> bool {
        self.lo() < self.hi()
    }

    /// How many ball numbers the range holds.
    pub open spec fn len(&self) -> int {
        self.hi() - self.lo() + 1
    }

    /// The range holds `value`.
    pub open spec fn holds(&self, value: int) -> bool {
        self.lo() <= value <= self.hi()
    }

    /// Creates the range `[start, end]`; fails unless `start < end`.
    pub fn new(start: BallNumber, end: BallNumber) -> (r: Result<Self, LottoError>)
        ensures
            start@ >= end@ ==> r == Err::<Self, LottoError>(
                LottoError::InvalidRange { start: start@, end: end@ },
            ),
            start@ < end@ ==> r is Ok && r->Ok_0.lo() == start@ && r->Ok_0.hi() == end@,
    {
        if start.value() >= end.value() {
            return Err(LottoError::InvalidRange { start: start.value(), end: end.value() });
        }
        Ok(Self { start, end })
    }

    /// The starting ball number.
    pub fn start(&self) -> (r: BallNumber)
        ensures
            r@ == self.lo(),
    {
        self.start
    }

    /// The ending ball number.
    pub fn end(&self) -> (r: BallNumber)
        ensures
            r@ == self.hi(),
    {
        self.end
    }

    /// The number of possible values, `end - start + 1`.
    pub fn size(&self) -> (r: usize)
        requires
            self.valid(),
        ensures
            r == self.len(),
            2 <= r <= 256,
    {
        (self.end.0 as usize) - (self.start.0 as usize) + 1
    }

    /// All ball numbers of the range, in ascending order.
    pub fn iter(&self) -> (r: Vec<BallNumber>)
        requires
            self.valid(),
        ensures
            r@.len() == self.len(),
            forall|i: int| 0 <= i < r@.len() ==> #[trigger] r@[i]@ == self.lo() + i,
    {
        let mut out: Vec<BallNumber> = Vec::new();
        let mut v: usize = self.start.0 as usize;
        while v <= self.end.0 as usize
            invariant
                self.lo() <= v <= self.hi() + 1,
                out@.len() == v - self.lo(),
                forall|i: int| 0 <= i < out@.len() ==> #[trigger] out@[i]@ == self.lo() + i,
            decreases self.hi() + 1 - v,
        {
            out.push(BallNumber(v as u8));
            v = v + 1;
        }
        out
    }

    /// Whether `ball` lies within the range.
    pub fn contains(&self, ball: BallNumber) -> (r: bool)
        ensures
            r == self.holds(ball@ as int),
    {
        ball.0 >= self.start.0 && ball.0 <= self.end.0
    }

    /// The Mega-Sena range, 1 to 60.
    pub fn mega_sena() -> (r: Self)
        ensures
            r.lo() == 1 && r.hi() == 60,
    {
        Self { start: BallNumber(1), end: BallNumber(60) }
    }

    /// The Lotomania range, 0 to 99.
    pub fn lotomania() -> (r: Self)
        ensures
            r.lo() == 0 && r.hi() == 99,
    {
        Self { start: BallNumber(0), end: BallNumber(99) }
    }

    /// The Powerball range, 1 to 69.
    pub fn powerball() -> (r: Self)
        ensures
            r.lo() == 1 && r.hi() == 69,
    {
        Self { start: BallNumber(1), end: BallNumber(69) }
    }
}

/// How many balls each ticket holds.
#[derive(Debug, Clone, Copy, PartialEq, Eq, Structural)]
pub struct PickCount(usize);

impl View for PickCount {
    type V = usize;

    closed spec fn view(&self) -> usize {
        self.0
    }
}

impl PickCount {
    /// Accepts `value` when `1 <= value <= range.size()`.
    pub fn new(value: usize, range: &BallRange) -> (r: Result<Self, LottoError>)
        requires
            range.valid(),
        ensures
            (value == 0 || value > range.len()) ==> r == Err::<Self, LottoError>(
                LottoError::PickExceedsRange { pick: value, available: range.len() as usize },
            ),
            (1 <= value <= range.len()) ==> r is Ok && r->Ok_0@ == value,
    {
        if value > range.size() {
            return Err(LottoError::PickExceedsRange { pick: value, available: range.size() });
        }
        if value == 0 {
            return Err(LottoError::PickExceedsRange { pick: 0, available: range.size() });
        }
        Ok(Self(value))
    }

    /// The number of balls to pick.
    pub fn value(&self) -> (r: usize)
        ensures
            r == self@,
    {
        self.0
    }
}

/// How many distinct tickets to generate; at least one.
#[derive(Debug, Clone, Copy, PartialEq, Eq, Structural)]
pub struct GameCount(usize);

impl View for GameCount {
    type V = usize;

    closed spec fn view(&self) -> usize {
        self.0
    }
}

impl GameCount {
    /// Accepts any positive count.
    pub fn new(value: usize) -> (r: Result<Self, LottoError>)
        ensures
            value == 0 ==> r == Err::<Self, LottoError>(LottoError::ZeroGames),
            value > 0 ==> r is Ok && r->Ok_0@ == value,
    {
        if value == 0 {
            return Err(LottoError::ZeroGames);
        }
        Ok(Self(value))
    }

    /// The number of games.
    pub fn value(&self) -> (r: usize)
        ensures
            r == self@,
    {
        self.0
    }
}

/// A lottery ticket: distinct ball numbers in ascending order.
#[derive(Debug, Clone, PartialEq, Eq, Hash)]
pub struct Ticket {
    balls: Vec<BallNumber>,
}

impl View for Ticket {
    type V = Seq<u8>;

    closed spec fn view(&self) -> Seq<u8> {
        values(self.balls@)
    }
}

impl Ticket {
    /// The ticket of the distinct values of `balls`, sorted ascending.
    pub fn new(balls: Vec<BallNumber>) -> (r: Self)
        ensures
            ascending(r@),
            forall|x: u8| r@.contains(x) <==> values(balls@).contains(x),
    {
        let mut out: Vec<BallNumber> = Vec::new();
        let mut j: usize = 0;
        while j < balls.len()
            invariant
                j <= balls@.len(),
                ascending(values(out@)),
                forall|x: u8|
                    values(out@).contains(x) <==> exists|t: int| 0 <= t < j && balls@[t]@ == x,
            decreases balls@.len() - j,
        {
            let b = balls[j];
            let mut p: usize = 0;
            while p < out.len() && out[p].value() < b.value()
                invariant
                    p <= out@.len(),
                    forall|q: int| 0 <= q < p ==> (#[trigger] out@[q])@ < b@,
                decreases out@.len() - p,
            {
                p = p + 1;
            }
            let ghost prev = values(out@);
            if p < out.len() && out[p].value() == b.value() {
                proof {
                    assert(prev[p as int] == b@);
                    assert forall|x: u8|
                        values(out@).contains(x) <==> exists|t: int|
                            0 <= t < j + 1 && balls@[t]@ == x by {
                        if exists|t: int| 0 <= t < j + 1 && balls@[t]@ == x {
                            let t = choose|t: int| 0 <= t < j + 1 && balls@[t]@ == x;
                            if t == j {
                                assert(prev.contains(x));
                            }
                        }
                    }
                }
            } else {
                out.insert(p, b);
                proof {
                    let cur = values(out@);
                    assert(cur =~= prev.insert(p as int, b@));
                    assert forall|q: int| p < q < cur.len() implies cur[q] > b@ by {
                        assert(cur[q] == prev[q - 1]);
                        assert(prev[p as int] >= b@);
                        assert(prev[p as int] != b@);
                    }
                    assert forall|q1: int, q2: int| 0 <= q1 < q2 < cur.len() implies cur[q1]
                        < cur[q2] by {
                        if q2 < p {
                            assert(cur[q1] == prev[q1]);
                        } else if q2 == p {
                            assert(cur[q1] == prev[q1]);
                            assert(out@[q1]@ < b@);
                        } else if q1 < p {
                            assert(cur[q1] == prev[q1]);
                            assert(cur[q1] < b@);
                        } else if q1 == p {
                        } else {
                            assert(cur[q1] == prev[q1 - 1]);
                            assert(cur[q2] == prev[q2 - 1]);
                        }
                    }
                    assert forall|x: u8|
                        cur.contains(x) <==> exists|t: int| 0 <= t < j + 1 && balls@[t]@ == x by {
                        if cur.contains(x) {
                            let q = choose|q: int| 0 <= q < cur.len() && cur[q] == x;
                            if q < p {
                                assert(prev[q] == x);
                                assert(prev.contains(x));
                            } else if q > p {
                                assert(prev[q - 1] == x);
                                assert(prev.contains(x));
                            } else {
                                assert(balls@[j as int]@ == x);
                            }
                        }
                        if exists|t: int| 0 <= t < j + 1 && balls@[t]@ == x {
                            let t = choose|t: int| 0 <= t < j + 1 && balls@[t]@ == x;
                            if t == j {
                                assert(cur[p as int] == x);
                            } else {
                                assert(prev.contains(x));
                                let q = choose|q: int| 0 <= q < prev.len() && prev[q] == x;
                                if q < p {
                                    assert(cur[q] == x);
                                } else {
                                    assert(cur[q + 1] == x);
                                }
                            }
                        }
                    }
                }
            }
            j = j + 1;
        }
        proof {
            assert forall|x: u8| values(out@).contains(x) <==> values(balls@).contains(x) by {
                if values(balls@).contains(x) {
                    let t = choose|t: int| 0 <= t < balls@.len() && values(balls@)[t] == x;
                    assert(balls@[t]@ == x);
                }
                if values(out@).contains(x) {
                    let t = choose|t: int| 0 <= t < j && balls@[t]@ == x;
                    assert(values(balls@)[t] == x);
                }
            }
        }
        Ticket { balls: out }
    }

    /// The ticket of balls that are already ascending.
    pub(crate) fn from_sorted(balls: Vec<BallNumber>) -> (r: Self)
        requires
            ascending(values(balls@)),
        ensures
            r@ == values(balls@),
    {
        Ticket { balls }
    }

    /// The ball numbers, ascending.
    pub fn balls(&self) -> (r: &[BallNumber])
        ensures
            values(r@) == self@,
    {
        self.balls.as_slice()
    }

    /// The number of balls.
    pub fn len(&self) -> (r: usize)
        ensures
            r == self@.len(),
    {
        self.balls.len()
    }

    /// Whether the ticket holds no ball.
    pub fn is_empty(&self) -> (r: bool)
        ensures
            r == (self@.len() == 0),
    {
        self.balls.len() == 0
    }

    /// Whether the ticket holds `ball`.
    pub fn contains(&self, ball: &BallNumber) -> (r: bool)
        ensures
            r == self@.contains(ball@),
    {
        let mut i: usize = 0;
        while i < self.balls.len()
            invariant
                i <= self.balls@.len(),
                forall|q: int| 0 <= q < i ==> (#[trigger] self.balls@[q])@ != ball@,
            decreases self.balls@.len() - i,
        {
            if self.balls[i].value() == ball.value() {
                proof {
                    assert(self@[i as int] == ball@);
                }
                return true;
            }
            i = i + 1;
        }
        proof {
            if self@.contains(ball@) {
                let q = choose|q: int| 0 <= q < self@.len() && self@[q] == ball@;
                assert(self.balls@[q]@ == ball@);
            }
        }
        false
    }
}

/// The ASCII code of decimal digit `d`.
pub open spec fn digit(d: u8) -> u8 {
    (48 + d) as u8
}

/// A ball in decimal, with at least two digits (`05`, `42`, `100`).
pub open spec fn ball_text(v: u8) -> Seq<u8> {
    if v >= 100 {
        seq![digit(v / 100), digit((v / 10) % 10), digit(v % 10)]
    } else {
        seq![digit(v / 10), digit(v % 10)]
    }
}

/// The balls' texts separated by single spaces.
pub open spec fn ticket_text(balls: Seq<u8>) -> Seq<u8>
    decreases balls.len(),
{
    if balls.len() == 0 {
        Seq::empty()
    } else if balls.len() == 1 {
        ball_text(balls[0])
    } else {
        ticket_text(balls.drop_last()) + seq![32u8] + ball_text(balls.last())
    }
}

/// The characters of ASCII bytes.
pub open spec fn ascii_chars(bytes: Seq<u8>) -> Seq<char> {
    bytes.map_values(|b: u8| b as char)
}

/// Relies on `String::from_utf8`: ASCII bytes are valid UTF-8 and decode to
/// one character each.
#[verifier::external_body]
fn ascii_string(bytes: Vec<u8>) -> (r: String)
    requires
        forall|i: int| 0 <= i < bytes@.len() ==> #[trigger] bytes@[i] < 128,
    ensures
        r@ == ascii_chars(bytes@),
{
    match String::from_utf8(bytes) {
        Ok(text) => text,
        Err(_) => String::new(),
    }
}

/// Appends the text of ball value `v`.
fn push_ball_text(out: &mut Vec<u8>, v: u8)
    ensures
        final(out)@ == old(out)@ + ball_text(v),
{
    if v >= 100 {
        out.push(48 + v / 100);
        out.push(48 + (v / 10) % 10);
    } else {
        out.push(48 + v / 10);
    }
    out.push(48 + v % 10);
    proof {
        assert(final(out)@ =~= old(out)@ + ball_text(v));
    }
}

/// Ball texts hold digits only; ticket texts digits and spaces.
proof fn lemma_ticket_text_ascii(balls: Seq<u8>)
    ensures
        forall|i: int| 0 <= i < ticket_text(balls).len() ==> #[trigger] ticket_text(balls)[i] < 128,
    decreases balls.len(),
{
    let t = ticket_text(balls);
    if balls.len() == 1 {
        assert forall|i: int| 0 <= i < t.len() implies #[trigger] t[i] < 128 by {
            lemma_ball_text_ascii(balls[0]);
        }
    } else if balls.len() > 1 {
        lemma_ticket_text_ascii(balls.drop_last());
        lemma_ball_text_ascii(balls.last());
        let p = ticket_text(balls.drop_last());
        let q = ball_text(balls.last());
        assert forall|i: int| 0 <= i < t.len() implies #[trigger] t[i] < 128 by {
            if i < p.len() {
                assert(t[i] == p[i]);
            } else if i == p.len() {
                assert(t[i] == 32u8);
            } else {
                assert(t[i] == q[i - p.len() - 1]);
            }
        }
    }
}

/// Ball texts hold digits only.
proof fn lemma_ball_text_ascii(v: u8)
    ensures
        forall|i: int| 0 <= i < ball_text(v).len() ==> #[trigger] ball_text(v)[i] < 128,
{
}

impl BallNumber {
    /// The ball in decimal with at least two digits: `05`, `42`.
    pub fn to_string(&self) -> (r: String)
        ensures
            r@ == ascii_chars(ball_text(self@)),
    {
        let mut out: Vec<u8> = Vec::new();
        push_ball_text(&mut out, self.0);
        proof {
            assert(out@ =~= ball_text(self@));
        }
        ascii_string(out)
    }
}

impl Ticket {
    /// The balls in decimal with at least two digits, separated by spaces:
    /// `05 10 15`.
    pub fn to_string(&self) -> (r: String)
        ensures
            r@ == ascii_chars(ticket_text(self@)),
    {
        let mut out: Vec<u8> = Vec::new();
        let mut i: usize = 0;
        while i < self.balls.len()
            invariant
                i <= self@.len(),
                self@.len() == self.balls@.len(),
                out@ == ticket_text(self@.subrange(0, i as int)),
            decreases self.balls@.len() - i,
        {
            let ghost prev = self@.subrange(0, i as int);
            let ghost next = self@.subrange(0, i + 1);
            proof {
                assert(next.drop_last() =~= prev);
                assert(next.last() == self.balls@[i as int]@);
            }
            if i > 0 {
                out.push(32u8);
            }
            push_ball_text(&mut out, self.balls[i].0);
            proof {
                if i == 0 {
                    assert(out@ =~= ticket_text(next));
                } else {
                    assert(out@ =~= ticket_text(next));
                }
            }
            i = i + 1;
        }
        proof {
            assert(self@.subrange(0, i as int) =~= self@);
            lemma_ticket_text_ascii(self@);
        }
        ascii_string(out)
    }
}

} // verus!
