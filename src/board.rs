//! Boards, actions, and the move generator that the searches consult.
//!
//! A [`BoardGraph`] holds, for each board it knows, whose pieces are
//! surrounded there and which actions lead to which boards. A board is
//! identified by its packed 64-bit form.
use crate::pieces::{Color, Dove};
use vstd::prelude::*;

verus! {

/// Whose boss, if anyone's, is surrounded on a board.
#[derive(Debug, Clone, Copy, PartialEq, Eq, Structural, Hash)]
pub enum SurroundedStatus {
    /// Neither boss is surrounded: the game goes on.
    Neither,
    /// The boss of this player alone is surrounded.
    OneSide(Color),
    /// Both bosses are surrounded.
    Both,
}

/// An action of a player.
#[derive(Debug, Clone, Copy, PartialEq, Eq, Structural, Hash)]
pub enum Action {
    /// Put a dove from the hand onto a square (given as a bit).
    Put(Color, Dove, u64),
    /// Move a dove on the field in a direction (given as a bit).
    Move(Color, Dove, u64),
    /// Take a dove from the field back to the hand.
    Remove(Color, Dove),
}

impl Action {
    pub open spec fn spec_player(self) -> Color {
        match self {
            Action::Put(c, _, _) => c,
            Action::Move(c, _, _) => c,
            Action::Remove(c, _) => c,
        }
    }

    pub open spec fn spec_is_remove(self) -> bool {
        match self {
            Action::Remove(_, _) => true,
            _ => false,
        }
    }

    /// The player who performs the action.
    pub fn player(&self) -> (r: Color)
        ensures
            r == self.spec_player(),
    {
        match self {
            Action::Put(c, _, _) => *c,
            Action::Move(c, _, _) => *c,
            Action::Remove(c, _) => *c,
        }
    }

    pub fn is_remove(&self) -> (r: bool)
        ensures
            r == self.spec_is_remove(),
    {
        matches!(self, Action::Remove(_, _))
    }
}

/// A board, held in its packed 64-bit form.
#[derive(Debug, Clone, Copy, PartialEq, Eq, Structural, Hash)]
pub struct Board {
    pub raw: u64,
}

impl Board {
    /// The board that games start from.
    pub fn new() -> (r: Board)
        ensures
            r.raw == 0,
    {
        Board { raw: 0 }
    }

    pub fn to_u64(&self) -> (r: u64)
        ensures
            r == self.raw,
    {
        self.raw
    }

    pub fn from_u64(raw: u64) -> (r: Board)
        ensures
            r.raw == raw,
    {
        Board { raw }
    }
}

/// What a [`BoardGraph`] knows of one board.
#[derive(Debug, Clone)]
pub struct BoardEntry {
    pub status: SurroundedStatus,
    pub moves: Vec<(Action, Board)>,
}

/// The move generator: the boards of a game, with their surrounded status
/// and the actions available on each. A board `b` is known when
/// `b.raw < entries.len()`; an unknown board has no actions and nobody
/// surrounded.
#[derive(Debug, Clone)]
pub struct BoardGraph {
    pub entries: Vec<BoardEntry>,
}

/// An action that `player` may take under the removal rule.
pub open spec fn is_legal_for(action: Action, player: Color, allow_remove: bool) -> bool {
    action.spec_player() == player && (allow_remove || !action.spec_is_remove())
}

/// The legal actions among the first `k` moves, in order.
pub open spec fn legal_upto(
    moves: Seq<(Action, Board)>,
    player: Color,
    allow_remove: bool,
    k: int,
) -> Seq<Action>
    decreases k,
{
    if k <= 0 {
        seq![]
    } else {
        let prev = legal_upto(moves, player, allow_remove, k - 1);
        if is_legal_for(moves[k - 1].0, player, allow_remove) {
            prev.push(moves[k - 1].0)
        } else {
            prev
        }
    }
}

/// The board that the first move with `action` among the first `k` leads to.
pub open spec fn target_upto(moves: Seq<(Action, Board)>, action: Action, k: int) -> Option<Board>
    decreases k,
{
    if k <= 0 {
        None
    } else {
        let prev = target_upto(moves, action, k - 1);
        if prev.is_some() {
            prev
        } else if moves[k - 1].0 == action {
            Some(moves[k - 1].1)
        } else {
            None
        }
    }
}

impl BoardGraph {
    pub open spec fn knows(&self, board: Board) -> bool {
        board.raw < self.entries@.len()
    }

    pub open spec fn spec_status(&self, board: Board) -> SurroundedStatus {
        if self.knows(board) {
            self.entries@[board.raw as int].status
        } else {
            SurroundedStatus::Neither
        }
    }

    pub open spec fn spec_moves(&self, board: Board) -> Seq<(Action, Board)> {
        if self.knows(board) {
            self.entries@[board.raw as int].moves@
        } else {
            seq![]
        }
    }

    pub open spec fn spec_legal_actions(
        &self,
        board: Board,
        player: Color,
        allow_remove: bool,
    ) -> Seq<Action> {
        legal_upto(self.spec_moves(board), player, allow_remove, self.spec_moves(board).len() as int)
    }

    pub open spec fn spec_perform(&self, board: Board, action: Action) -> Option<Board> {
        target_upto(self.spec_moves(board), action, self.spec_moves(board).len() as int)
    }

    /// A graph that knows no board.
    pub fn new() -> (r: BoardGraph)
        ensures
            r.entries@.len() == 0,
    {
        BoardGraph { entries: Vec::new() }
    }

    /// Adds a board with the given status and no actions yet.
    pub fn add_board(&mut self, status: SurroundedStatus) -> (r: Board)
        requires
            old(self).entries@.len() < u64::MAX,
        ensures
            r.raw == old(self).entries@.len(),
            final(self).entries@.len() == old(self).entries@.len() + 1,
            forall|b: Board| #[trigger]
                old(self).knows(b) ==> final(self).spec_status(b) == old(self).spec_status(b)
                    && final(self).spec_moves(b) == old(self).spec_moves(b),
            final(self).spec_status(r) == status,
            final(self).spec_moves(r).len() == 0,
    {
        let raw = self.entries.len() as u64;
        self.entries.push(BoardEntry { status, moves: Vec::new() });
        Board { raw }
    }

    /// Adds `action` from `from` to `to`; returns `false`, changing nothing,
    /// when `from` is not known.
    pub fn add_action(&mut self, from: Board, action: Action, to: Board) -> (r: bool)
        ensures
            r == old(self).knows(from),
            final(self).entries@.len() == old(self).entries@.len(),
            forall|b: Board| #[trigger]
                final(self).spec_status(b) == old(self).spec_status(b),
            forall|b: Board|
                b != from ==> #[trigger] final(self).spec_moves(b) == old(self).spec_moves(b),
            r ==> final(self).spec_moves(from) == old(self).spec_moves(from).push((action, to)),
            !r ==> final(self).spec_moves(from) == old(self).spec_moves(from),
    {
        if from.raw >= self.entries.len() as u64 {
            return false;
        }
        let i = from.raw as usize;
        let mut entry = self.entries.remove(i);
        entry.moves.push((action, to));
        self.entries.insert(i, entry);
        proof {
            assert forall|b: Board| #[trigger]
                final(self).spec_status(b) == old(self).spec_status(b) by {
                if b.raw < self.entries@.len() && b.raw != i {
                    assert(self.entries@[b.raw as int] == old(self).entries@[b.raw as int]);
                }
            }
            assert forall|b: Board|
                b != from implies #[trigger] self.spec_moves(b) == old(self).spec_moves(b) by {
                if b.raw < self.entries@.len() {
                    assert(b.raw != from.raw);
                    assert(self.entries@[b.raw as int] == old(self).entries@[b.raw as int]);
                }
            }
        }
        true
    }

    /// Whose boss, if anyone's, is surrounded on `board`.
    pub fn surrounded_status(&self, board: Board) -> (r: SurroundedStatus)
        ensures
            r == self.spec_status(board),
    {
        if board.raw < self.entries.len() as u64 {
            self.entries[board.raw as usize].status
        } else {
            SurroundedStatus::Neither
        }
    }

    /// The actions that `player` may take on `board`, in the graph's order;
    /// `Remove` actions only where `allow_remove` holds.
    pub fn legal_actions(&self, board: Board, player: Color, allow_remove: bool) -> (r: Vec<
        Action,
    >)
        ensures
            r@ == self.spec_legal_actions(board, player, allow_remove),
    {
        let mut r: Vec<Action> = Vec::new();
        if board.raw >= self.entries.len() as u64 {
            return r;
        }
        let moves = &self.entries[board.raw as usize].moves;
        let mut i: usize = 0;
        while i < moves.len()
            invariant
                0 <= i <= moves@.len(),
                moves@ == self.spec_moves(board),
                r@ == legal_upto(moves@, player, allow_remove, i as int),
            decreases moves@.len() - i,
        {
            let action = moves[i].0;
            if action.player() == player && (allow_remove || !action.is_remove()) {
                r.push(action);
            }
            i += 1;
        }
        r
    }

    /// The board that `action` leads to from `board`; `None` when it is not
    /// one of the board's actions.
    pub fn perform(&self, board: Board, action: Action) -> (r: Option<Board>)
        ensures
            r == self.spec_perform(board, action),
    {
        let mut r: Option<Board> = None;
        if board.raw >= self.entries.len() as u64 {
            return r;
        }
        let moves = &self.entries[board.raw as usize].moves;
        let mut i: usize = 0;
        while i < moves.len()
            invariant
                0 <= i <= moves@.len(),
                moves@ == self.spec_moves(board),
                r == target_upto(moves@, action, i as int),
            decreases moves@.len() - i,
        {
            if r.is_none() && moves[i].0 == action {
                r = Some(moves[i].1);
            }
            i += 1;
        }
        r
    }
}

} // verus!
