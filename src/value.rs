//! The value domain of positions: distance-to-decision outcomes, their partial
//! order and the turn-advance transforms.
use std::cmp::Ordering;
use vstd::prelude::*;

verus! {

/// The four kinds of [`BoardValue`].
#[derive(Debug, Clone, Copy, PartialEq, Eq, Structural, Hash)]
pub enum BoardValueKind {
    Win,
    Lose,
    Unknown,
    Finished,
}

impl BoardValueKind {
    /// Rank used to order kinds: `Lose < Unknown < Win` (`Finished` is unranked).
    pub open spec fn rank(self) -> int {
        match self {
            BoardValueKind::Lose => 0,
            BoardValueKind::Unknown => 1,
            BoardValueKind::Win => 2,
            BoardValueKind::Finished => 3,
        }
    }

    pub open spec fn spec_partial_cmp(self, other: Self) -> Option<Ordering> {
        if self == BoardValueKind::Finished || other == BoardValueKind::Finished {
            if self == other { Some(Ordering::Equal) } else { None }
        } else {
            Some(cmp_int(self.rank(), other.rank()))
        }
    }
}

impl Default for BoardValueKind {
    fn default() -> (r: Self)
        ensures
            r == BoardValueKind::Unknown,
    {
        BoardValueKind::Unknown
    }
}

impl PartialOrd for BoardValueKind {
    fn partial_cmp(&self, other: &BoardValueKind) -> (r: Option<Ordering>) {
        let lfin = matches!(self, BoardValueKind::Finished);
        let rfin = matches!(other, BoardValueKind::Finished);
        if lfin || rfin {
            if lfin && rfin {
                return Some(Ordering::Equal);
            } else {
                return None;
            }
        }
        let lrank: usize = match self {
            BoardValueKind::Lose => 0,
            BoardValueKind::Unknown => 1,
            _ => 2,
        };
        let rrank: usize = match other {
            BoardValueKind::Lose => 0,
            BoardValueKind::Unknown => 1,
            _ => 2,
        };
        Some(cmp_usize(lrank, rrank))
    }
}

impl vstd::std_specs::cmp::PartialOrdSpecImpl for BoardValueKind {
    open spec fn obeys_partial_cmp_spec() -> bool {
        true
    }

    open spec fn partial_cmp_spec(&self, other: &BoardValueKind) -> Option<Ordering> {
        self.spec_partial_cmp(*other)
    }
}

/// Three-way comparison of two mathematical integers.
pub open spec fn cmp_int(a: int, b: int) -> Ordering {
    if a < b {
        Ordering::Less
    } else if a == b {
        Ordering::Equal
    } else {
        Ordering::Greater
    }
}

fn cmp_usize(a: usize, b: usize) -> (r: Ordering)
    ensures
        r == cmp_int(a as int, b as int),
{
    if a < b {
        Ordering::Less
    } else if a == b {
        Ordering::Equal
    } else {
        Ordering::Greater
    }
}

/// The value of a position from the mover's point of view.
///
/// `None` stands for `Unknown`, `Some(0)` for `Finished`, an odd number `n`
/// for `Win(n)` and an even positive number `n` for `Lose(n)`.
/// The order is `Lose(2) < Lose(4) < ... < Unknown < ... < Win(3) < Win(1)`;
/// `Finished` is comparable only to itself.
#[derive(Debug, Clone, Copy, PartialEq, Eq, Structural, Hash)]
pub struct BoardValue {
    pub value: Option<usize>,
}

impl BoardValue {
    /// `Win(1)`, the greatest value.
    pub fn max_value() -> (r: Self)
        ensures
            r.value == Some(1usize),
    {
        BoardValue { value: Some(1) }
    }

    /// `Lose(2)`, the least value.
    pub fn min_value() -> (r: Self)
        ensures
            r.value == Some(2usize),
    {
        BoardValue { value: Some(2) }
    }

    pub open spec fn spec_kind(self) -> BoardValueKind {
        match self.value {
            None => BoardValueKind::Unknown,
            Some(n) => if n == 0 {
                BoardValueKind::Finished
            } else if n % 2 == 0 {
                BoardValueKind::Lose
            } else {
                BoardValueKind::Win
            },
        }
    }

    /// The number of turns of a `Win` or `Lose` value (0 otherwise).
    pub open spec fn num(self) -> nat {
        match self.value {
            Some(n) => n as nat,
            None => 0,
        }
    }

    /// `Win(n)` or `Lose(n)`: a value that a search may be asked to confirm.
    pub open spec fn is_decisive(self) -> bool {
        self.value.is_some() && self.value.unwrap() >= 1
    }

    pub open spec fn spec_increment(self) -> BoardValue {
        match self.value {
            Some(n) => BoardValue { value: Some((n + 1) as usize) },
            None => self,
        }
    }

    pub open spec fn spec_decrement(self) -> Option<BoardValue> {
        match self.value {
            Some(n) => if n == 0 {
                None
            } else {
                Some(BoardValue { value: Some((n - 1) as usize) })
            },
            None => Some(self),
        }
    }

    /// Position of a non-`Finished` value on a line of integers that follows
    /// the order of values: `Lose(n)` below zero, `Unknown` at zero, `Win(n)` above.
    pub open spec fn score(self) -> int {
        match self.value {
            None => 0,
            Some(n) => if n % 2 == 0 {
                n - usize::MAX - 2
            } else {
                usize::MAX + 2 - n
            },
        }
    }

    pub open spec fn spec_partial_cmp(self, other: BoardValue) -> Option<Ordering> {
        let lk = self.spec_kind();
        let rk = other.spec_kind();
        if lk != rk || lk == BoardValueKind::Unknown || lk == BoardValueKind::Finished {
            lk.spec_partial_cmp(rk)
        } else if lk == BoardValueKind::Lose {
            Some(cmp_int(self.num() as int, other.num() as int))
        } else {
            Some(cmp_int(other.num() as int, self.num() as int))
        }
    }

    pub open spec fn spec_lt(self, other: BoardValue) -> bool {
        self.spec_partial_cmp(other) == Some(Ordering::Less)
    }

    pub open spec fn spec_le(self, other: BoardValue) -> bool {
        self.spec_partial_cmp(other) == Some(Ordering::Less) || self.spec_partial_cmp(other)
            == Some(Ordering::Equal)
    }

    pub fn kind(&self) -> (r: BoardValueKind)
        ensures
            r == self.spec_kind(),
    {
        match self.value {
            None => BoardValueKind::Unknown,
            Some(n) => if n == 0 {
                BoardValueKind::Finished
            } else if n % 2 == 0 {
                BoardValueKind::Lose
            } else {
                BoardValueKind::Win
            },
        }
    }

    /// `Win(num)`, for odd `num` only.
    pub fn win(num: usize) -> (r: Option<Self>)
        ensures
            r == (if num % 2 == 1 {
                Some(BoardValue { value: Some(num) })
            } else {
                None
            }),
    {
        if num % 2 == 1 {
            Some(BoardValue { value: Some(num) })
        } else {
            None
        }
    }

    /// `Lose(num)`, for even positive `num` only.
    pub fn lose(num: usize) -> (r: Option<Self>)
        ensures
            r == (if num != 0 && num % 2 == 0 {
                Some(BoardValue { value: Some(num) })
            } else {
                None
            }),
    {
        if num != 0 && num % 2 == 0 {
            Some(BoardValue { value: Some(num) })
        } else {
            None
        }
    }

    pub fn unknown() -> (r: Self)
        ensures
            r.value.is_none(),
            r.spec_kind() == BoardValueKind::Unknown,
    {
        BoardValue { value: None }
    }

    pub fn finished() -> (r: Self)
        ensures
            r.value == Some(0usize),
            r.spec_kind() == BoardValueKind::Finished,
    {
        BoardValue { value: Some(0) }
    }

    /// The number of turns of a `Win` or `Lose` value.
    pub fn try_unwrap(&self) -> (r: Option<usize>)
        ensures
            r == (if self.is_decisive() {
                self.value
            } else {
                None
            }),
    {
        match self.value {
            Some(num) => if num >= 1 {
                self.value
            } else {
                None
            },
            None => None,
        }
    }

    pub fn unwrap(&self) -> (r: usize)
        requires
            self.is_decisive(),
        ensures
            Some(r) == self.value,
    {
        match self.value {
            Some(num) => num,
            None => 0,
        }
    }

    pub fn is_win(&self) -> (r: bool)
        ensures
            r == (self.spec_kind() == BoardValueKind::Win),
    {
        matches!(self.kind(), BoardValueKind::Win)
    }

    pub fn is_lose(&self) -> (r: bool)
        ensures
            r == (self.spec_kind() == BoardValueKind::Lose),
    {
        matches!(self.kind(), BoardValueKind::Lose)
    }

    pub fn is_unknown(&self) -> (r: bool)
        ensures
            r == (self.spec_kind() == BoardValueKind::Unknown),
    {
        matches!(self.kind(), BoardValueKind::Unknown)
    }

    pub fn is_finished(&self) -> (r: bool)
        ensures
            r == (self.spec_kind() == BoardValueKind::Finished),
    {
        matches!(self.kind(), BoardValueKind::Finished)
    }

    /// The next value of `Finished -> Win(1) -> Lose(2) -> Win(3) -> ...`;
    /// `Unknown` stays `Unknown`.
    pub fn increment(&self) -> (r: Self)
        requires
            self.value != Some(usize::MAX),
        ensures
            r == self.spec_increment(),
    {
        match self.value {
            Some(n) => BoardValue { value: Some(n + 1) },
            None => *self,
        }
    }

    /// The previous value of `... -> Win(3) -> Lose(2) -> Win(1) -> Finished`;
    /// `Unknown` stays `Unknown` and `Finished` has none.
    pub fn try_decrement(&self) -> (r: Option<Self>)
        ensures
            r == self.spec_decrement(),
    {
        match self.value {
            Some(n) => if n == 0 {
                None
            } else {
                Some(BoardValue { value: Some(n - 1) })
            },
            None => Some(*self),
        }
    }

    /// Compares two values; `None` when exactly one of them is `Finished`.
    pub fn compare(&self, other: &BoardValue) -> (r: Option<Ordering>)
        ensures
            r == self.spec_partial_cmp(*other),
    {
        let lk = self.kind();
        let rk = other.kind();
        let lfin = matches!(lk, BoardValueKind::Finished);
        let rfin = matches!(rk, BoardValueKind::Finished);
        if lfin || rfin {
            if lfin && rfin {
                return Some(Ordering::Equal);
            } else {
                return None;
            }
        }
        let lrank: usize = match lk {
            BoardValueKind::Lose => 0,
            BoardValueKind::Unknown => 1,
            _ => 2,
        };
        let rrank: usize = match rk {
            BoardValueKind::Lose => 0,
            BoardValueKind::Unknown => 1,
            _ => 2,
        };
        if lrank != rrank || lrank == 1 {
            return Some(cmp_usize(lrank, rrank));
        }
        let ln = self.unwrap();
        let rn = other.unwrap();
        if lrank == 0 {
            Some(cmp_usize(ln, rn))
        } else {
            Some(cmp_usize(rn, ln))
        }
    }

    /// `self < other` in the order of values.
    pub fn less_than(&self, other: &BoardValue) -> (r: bool)
        ensures
            r == self.spec_lt(*other),
    {
        matches!(self.compare(other), Some(Ordering::Less))
    }

    /// `self <= other` in the order of values.
    pub fn less_or_equal(&self, other: &BoardValue) -> (r: bool)
        ensures
            r == self.spec_le(*other),
    {
        match self.compare(other) {
            Some(Ordering::Less) => true,
            Some(Ordering::Equal) => true,
            _ => false,
        }
    }
}

/// Away from `Finished`, the order of values is the order of their scores.
pub proof fn lemma_cmp_by_score(a: BoardValue, b: BoardValue)
    requires
        a.spec_kind() != BoardValueKind::Finished,
        b.spec_kind() != BoardValueKind::Finished,
    ensures
        a.spec_partial_cmp(b) == Some(cmp_int(a.score(), b.score())),
        a.score() == b.score() ==> a == b,
{
}

/// For every odd `n`, `Win(n)` is a win whose number of turns is `n`; for every
/// even positive `n`, `Lose(n)` is a loss whose number of turns is `n`.
pub proof fn lemma_constructor_round_trip(n: usize)
    requires
        n >= 1,
    ensures
        ({
            let v = BoardValue { value: Some(n) };
            &&& n % 2 == 1 ==> v.spec_kind() == BoardValueKind::Win
            &&& n % 2 == 0 ==> v.spec_kind() == BoardValueKind::Lose
            &&& v.is_decisive()
            &&& v.value == Some(n)
        }),
{
}

/// `decrement` undoes `increment` on every value, and `Finished` has no
/// decrement.
pub proof fn lemma_increment_decrement(v: BoardValue)
    requires
        v.value != Some(usize::MAX),
    ensures
        v.spec_increment().spec_decrement() == Some(v),
        (BoardValue { value: Some(0) }).spec_decrement().is_none(),
{
}

/// The order of values is a strict weak order (here even a total one) on every
/// value but `Finished`, which is equal to itself and incomparable to the rest.
pub proof fn lemma_strict_weak_order(a: BoardValue, b: BoardValue, c: BoardValue)
    ensures
        !a.spec_lt(a),
        a.spec_lt(b) ==> !b.spec_lt(a),
        a.spec_lt(b) && b.spec_lt(c) ==> a.spec_lt(c),
        a.spec_kind() != BoardValueKind::Finished && b.spec_kind() != BoardValueKind::Finished
            ==> (a.spec_lt(b) || a == b || b.spec_lt(a)),
        a.spec_kind() == BoardValueKind::Finished ==> (!a.spec_lt(b) && !b.spec_lt(a)),
        a.spec_kind() == BoardValueKind::Finished ==> (a.spec_partial_cmp(b) == Some(Ordering::Equal)
            <==> b.spec_kind() == BoardValueKind::Finished),
{
    if a.spec_kind() != BoardValueKind::Finished && b.spec_kind() != BoardValueKind::Finished {
        lemma_cmp_by_score(a, b);
        lemma_cmp_by_score(b, a);
        if c.spec_kind() != BoardValueKind::Finished {
            lemma_cmp_by_score(a, c);
            lemma_cmp_by_score(b, c);
        }
    }
    lemma_cmp_by_score_self(a);
}

proof fn lemma_cmp_by_score_self(a: BoardValue)
    ensures
        !a.spec_lt(a),
{
    if a.spec_kind() != BoardValueKind::Finished {
        lemma_cmp_by_score(a, a);
    }
}

/// `Unknown` lies strictly above every loss and strictly below every win.
pub proof fn lemma_unknown_between(l: BoardValue, w: BoardValue)
    requires
        l.spec_kind() == BoardValueKind::Lose,
        w.spec_kind() == BoardValueKind::Win,
    ensures
        l.spec_lt(BoardValue { value: None }),
        (BoardValue { value: None }).spec_lt(w),
        l.spec_lt(w),
{
}

impl From<Option<usize>> for BoardValue {
    fn from(value: Option<usize>) -> (r: Self)
        ensures
            r.value == value,
    {
        BoardValue { value }
    }
}

impl vstd::std_specs::convert::FromSpecImpl<Option<usize>> for BoardValue {
    open spec fn obeys_from_spec() -> bool {
        true
    }

    open spec fn from_spec(value: Option<usize>) -> BoardValue {
        BoardValue { value }
    }
}

impl From<BoardValue> for Option<usize> {
    fn from(board_value: BoardValue) -> (r: Option<usize>)
        ensures
            r == board_value.value,
    {
        board_value.value
    }
}

impl vstd::std_specs::convert::FromSpecImpl<BoardValue> for Option<usize> {
    open spec fn obeys_from_spec() -> bool {
        true
    }

    open spec fn from_spec(board_value: BoardValue) -> Option<usize> {
        board_value.value
    }
}

impl Default for BoardValue {
    fn default() -> (r: Self)
        ensures
            r.value.is_none(),
    {
        BoardValue { value: None }
    }
}

impl PartialOrd for BoardValue {
    fn partial_cmp(&self, other: &BoardValue) -> (r: Option<Ordering>) {
        self.compare(other)
    }
}

impl vstd::std_specs::cmp::PartialOrdSpecImpl for BoardValue {
    open spec fn obeys_partial_cmp_spec() -> bool {
        true
    }

    open spec fn partial_cmp_spec(&self, other: &BoardValue) -> Option<Ordering> {
        self.spec_partial_cmp(*other)
    }
}

} // verus!
