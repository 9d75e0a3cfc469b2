//! Rules of a game and the state of a game in progress.
use crate::analysis::{evaluate_board, find_best_actions, spec_evaluate, spec_validate_board};
use crate::board::{Action, Board, BoardGraph, SurroundedStatus};
use crate::value::BoardValue;
use crate::pieces::Color;
use vstd::prelude::*;

verus! {

/// Who wins when both bosses are surrounded by one action.
#[derive(Debug, Clone, Copy, PartialEq, Eq, Structural, Hash)]
pub enum Judge {
    /// The player who just acted wins.
    LastWins,
    /// The player about to act wins.
    NextWins,
    /// Nobody wins.
    Draw,
}

/// The rules of a game.
#[derive(Debug, Clone, Copy, PartialEq, Eq, Structural)]
pub struct GameRule {
    /// Whether `Remove` actions are legal.
    pub is_remove_accepted: bool,
    /// The player who acts first.
    pub first_player: Color,
    /// Who wins when both bosses are surrounded at once.
    pub suicide_atk_judge: Judge,
    /// The board that games start from.
    pub initial_board: Board,
}

impl GameRule {
    /// Red moves first, the player about to act wins a double surround, and
    /// games start from `Board::new()`.
    pub fn new(is_remove_accepted: bool) -> (r: Self)
        ensures
            r.is_remove_accepted == is_remove_accepted,
            r.first_player == Color::Red,
            r.suicide_atk_judge == Judge::NextWins,
            r.initial_board.raw == 0,
    {
        GameRule {
            is_remove_accepted,
            first_player: Color::Red,
            suicide_atk_judge: Judge::NextWins,
            initial_board: Board::new(),
        }
    }

    pub fn is_remove_accepted(&self) -> (r: &bool)
        ensures
            *r == self.is_remove_accepted,
    {
        &self.is_remove_accepted
    }

    pub fn first_player(&self) -> (r: &Color)
        ensures
            *r == self.first_player,
    {
        &self.first_player
    }

    pub fn suicide_atk_judge(&self) -> (r: &Judge)
        ensures
            *r == self.suicide_atk_judge,
    {
        &self.suicide_atk_judge
    }

    pub fn initial_board(&self) -> (r: &Board)
        ensures
            *r == self.initial_board,
    {
        &self.initial_board
    }

    pub fn with_is_remove_accepted(self, is_remove_accepted: bool) -> (r: Self)
        ensures
            r == (GameRule { is_remove_accepted, ..self }),
    {
        GameRule { is_remove_accepted, ..self }
    }

    pub fn with_first_player(self, first_player: Color) -> (r: Self)
        ensures
            r == (GameRule { first_player, ..self }),
    {
        GameRule { first_player, ..self }
    }

    pub fn with_suicide_atk_judge(self, judge: Judge) -> (r: Self)
        ensures
            r == (GameRule { suicide_atk_judge: judge, ..self }),
    {
        GameRule { suicide_atk_judge: judge, ..self }
    }

    /// Sets the initial board; refused when the game on it is already over.
    pub fn with_initial_board(self, graph: &BoardGraph, initial_board: Board) -> (r: Result<
        Self,
        GameError,
    >)
        ensures
            graph.spec_status(initial_board) == SurroundedStatus::Neither ==> r == Ok::<
                GameRule,
                GameError,
            >(GameRule { initial_board, ..self }),
            graph.spec_status(initial_board) != SurroundedStatus::Neither ==> r == Err::<
                GameRule,
                GameError,
            >(GameError::InitialBoardError),
    {
        if !matches!(graph.surrounded_status(initial_board), SurroundedStatus::Neither) {
            return Err(GameError::InitialBoardError);
        }
        Ok(GameRule { initial_board, ..self })
    }
}

impl Default for GameRule {
    fn default() -> (r: Self)
        ensures
            r.is_remove_accepted,
            r.first_player == Color::Red,
            r.suicide_atk_judge == Judge::NextWins,
            r.initial_board.raw == 0,
    {
        Self::new(true)
    }
}

/// Errors of setting up or playing a game.
#[derive(Debug, Clone, Copy, PartialEq, Eq, Structural)]
pub enum GameError {
    /// The initial board is that of a finished game.
    InitialBoardError,
    /// The game is over.
    GameFinished(GameStatus),
    /// The action belongs to the player who is not to act.
    PlayerMismatch,
    /// The action is a `Remove`, which the rule refuses.
    ProhibitedRemove(Action),
    /// The action is not available on the board.
    IllegalAction(Action),
}

/// The state of a game.
#[derive(Debug, Clone, Copy, PartialEq, Eq, Structural, Hash)]
pub enum GameStatus {
    Ongoing,
    /// The game is over and this player won.
    Win(Color),
    /// The game is over and nobody won.
    Draw,
}

/// The status after an action of `player` left a board with `status`, and
/// whether the turn passes.
pub open spec fn status_after(status: SurroundedStatus, player: Color, judge: Judge) -> GameStatus {
    match status {
        SurroundedStatus::Both => match judge {
            Judge::LastWins => GameStatus::Win(player),
            Judge::NextWins => GameStatus::Win(player.spec_toggle()),
            Judge::Draw => GameStatus::Draw,
        },
        SurroundedStatus::OneSide(p) => GameStatus::Win(p.spec_toggle()),
        SurroundedStatus::Neither => GameStatus::Ongoing,
    }
}

/// A game in progress: the board, the player to act, the status and the rule.
#[derive(Debug, Clone, Copy, PartialEq, Eq, Structural)]
pub struct Game {
    pub board: Board,
    pub player: Color,
    pub status: GameStatus,
    pub rule: GameRule,
}

impl Game {
    pub open spec fn spec_check(self, graph: BoardGraph, action: Action) -> Option<GameError> {
        if self.player != action.spec_player() {
            Some(GameError::PlayerMismatch)
        } else if !self.rule.is_remove_accepted && action.spec_is_remove() {
            Some(GameError::ProhibitedRemove(action))
        } else if graph.spec_perform(self.board, action).is_none() {
            Some(GameError::IllegalAction(action))
        } else {
            None
        }
    }

    /// A game under the default rule, with `Remove` allowed or not.
    pub fn new(is_remove_accepted: bool) -> (r: Game)
        ensures
            r.rule.is_remove_accepted == is_remove_accepted,
            r.rule.first_player == Color::Red,
            r.rule.suicide_atk_judge == Judge::NextWins,
            r.rule.initial_board.raw == 0,
            r.board == r.rule.initial_board,
            r.player == Color::Red,
            r.status == GameStatus::Ongoing,
    {
        let rule = GameRule::new(is_remove_accepted);
        Self::new_with_rule(rule)
    }

    /// A game at the start under `rule`.
    pub fn new_with_rule(rule: GameRule) -> (r: Game)
        ensures
            r == (Game {
                board: rule.initial_board,
                player: rule.first_player,
                status: GameStatus::Ongoing,
                rule,
            }),
    {
        Game { board: rule.initial_board, player: rule.first_player, status: GameStatus::Ongoing, rule }
    }

    /// Starts the game again under the same rule.
    pub fn reset(&mut self)
        ensures
            *final(self) == (Game {
                board: old(self).rule.initial_board,
                player: old(self).rule.first_player,
                status: GameStatus::Ongoing,
                rule: old(self).rule,
            }),
    {
        *self = Self::new_with_rule(self.rule)
    }

    pub fn rule(&self) -> (r: &GameRule)
        ensures
            *r == self.rule,
    {
        &self.rule
    }

    pub fn board(&self) -> (r: &Board)
        ensures
            *r == self.board,
    {
        &self.board
    }

    pub fn next_player(&self) -> (r: &Color)
        ensures
            *r == self.player,
    {
        &self.player
    }

    pub fn status(&self) -> (r: &GameStatus)
        ensures
            *r == self.status,
    {
        &self.status
    }

    pub fn is_ongoing(&self) -> (r: bool)
        ensures
            r == (self.status == GameStatus::Ongoing),
    {
        matches!(self.status, GameStatus::Ongoing)
    }

    /// The winner, once there is one.
    pub fn winner(&self) -> (r: Option<Color>)
        ensures
            r == (match self.status {
                GameStatus::Win(p) => Some(p),
                _ => None,
            }),
    {
        match self.status {
            GameStatus::Win(player) => Some(player),
            _ => None,
        }
    }

    /// Checks that `action` may be performed now.
    pub fn check_action(&self, graph: &BoardGraph, action: Action) -> (r: Result<(), GameError>)
        ensures
            r.is_err() == self.spec_check(*graph, action).is_some(),
            r.is_err() ==> r->Err_0 == self.spec_check(*graph, action).unwrap(),
    {
        if self.player != action.player() {
            return Err(GameError::PlayerMismatch);
        }
        if !self.rule.is_remove_accepted && action.is_remove() {
            return Err(GameError::ProhibitedRemove(action));
        }
        if graph.perform(self.board, action).is_none() {
            return Err(GameError::IllegalAction(action));
        }
        Ok(())
    }

    /// The actions that the player to act may take.
    pub fn legal_actions(&self, graph: &BoardGraph) -> (r: Vec<Action>)
        ensures
            r@ == graph.spec_legal_actions(self.board, self.player, self.rule.is_remove_accepted),
    {
        graph.legal_actions(self.board, self.player, self.rule.is_remove_accepted)
    }

    /// Performs `action`, then judges the new board: the game ends when a
    /// boss is surrounded, else the turn passes. On an error the game is left
    /// as it was.
    pub fn perform(&mut self, graph: &BoardGraph, action: Action) -> (r: Result<(), GameError>)
        ensures
            old(self).status != GameStatus::Ongoing ==> r == Err::<(), GameError>(
                GameError::GameFinished(old(self).status),
            ) && *final(self) == *old(self),
            old(self).status == GameStatus::Ongoing && old(self).spec_check(*graph, action).is_some()
                ==> r == Err::<(), GameError>(old(self).spec_check(*graph, action).unwrap())
                && *final(self) == *old(self),
            old(self).status == GameStatus::Ongoing && old(self).spec_check(*graph, action).is_none()
                ==> r.is_ok() && ({
                let next = graph.spec_perform(old(self).board, action).unwrap();
                let status = status_after(
                    graph.spec_status(next),
                    old(self).player,
                    old(self).rule.suicide_atk_judge,
                );
                &&& final(self).board == next
                &&& final(self).rule == old(self).rule
                &&& final(self).status == status
                &&& final(self).player == (if status == GameStatus::Ongoing {
                    old(self).player.spec_toggle()
                } else {
                    old(self).player
                })
            }),
    {
        if !self.is_ongoing() {
            return Err(GameError::GameFinished(self.status));
        }
        if self.player != action.player() {
            return Err(GameError::PlayerMismatch);
        }
        if !self.rule.is_remove_accepted && action.is_remove() {
            return Err(GameError::ProhibitedRemove(action));
        }
        let next = match graph.perform(self.board, action) {
            Some(b) => b,
            None => {
                return Err(GameError::IllegalAction(action));
            },
        };
        self.board = next;
        match graph.surrounded_status(next) {
            SurroundedStatus::Both => match self.rule.suicide_atk_judge {
                Judge::LastWins => self.status = GameStatus::Win(self.player),
                Judge::NextWins => self.status = GameStatus::Win(self.player.toggle()),
                Judge::Draw => self.status = GameStatus::Draw,
            },
            SurroundedStatus::OneSide(p) => self.status = GameStatus::Win(p.toggle()),
            SurroundedStatus::Neither => self.player = self.player.toggle(),
        }
        Ok(())
    }
}

/// A player of games: given the game, it performs the next action.
pub trait Agent {
    fn play(&mut self, graph: &BoardGraph, game: &mut Game);
}

/// The next state of the agents' counter: `(33 * n + 31) mod 65536`.
pub open spec fn next_parameter(n: nat) -> nat {
    (33 * n + 31) % 65536
}

/// An agent that picks among the legal actions by a counter.
#[derive(Debug, Clone, Copy, Default)]
pub struct RandomAgent {
    pub n: usize,
}

impl RandomAgent {
    pub fn new() -> (r: Self)
        ensures
            r.n == 0,
    {
        RandomAgent { n: 0 }
    }

    fn update_parameter(&mut self)
        requires
            old(self).n < 65536,
        ensures
            final(self).n == next_parameter(old(self).n as nat),
            final(self).n < 65536,
    {
        self.n = (33 * self.n + 31) % 65536;
    }

    /// The action that the agent takes among `actions`: the one at its
    /// counter modulo their number.
    pub fn pick(&self, actions: &Vec<Action>) -> (r: Option<Action>)
        ensures
            actions@.len() == 0 ==> r.is_none(),
            actions@.len() > 0 ==> r == Some(actions@[(self.n as int) % (actions@.len() as int)]),
    {
        if actions.len() == 0 {
            None
        } else {
            Some(actions[self.n % actions.len()])
        }
    }
}

impl Agent for RandomAgent {
    fn play(&mut self, graph: &BoardGraph, game: &mut Game) {
        self.n = self.n % 65536;
        self.update_parameter();
        let actions = game.legal_actions(graph);
        if let Some(action) = self.pick(&actions) {
            let _ = game.perform(graph, action);
        }
    }
}

/// An agent that picks among the best actions that a search finds.
#[derive(Debug, Clone, Copy)]
pub struct AnalystAgent {
    pub depth: usize,
    pub n: usize,
    pub declare_about_to_end: bool,
}

impl AnalystAgent {
    pub fn new(depth: usize, declare_about_to_end: bool) -> (r: Self)
        ensures
            r.depth == depth,
            r.n == 0,
            r.declare_about_to_end == declare_about_to_end,
    {
        AnalystAgent { depth, n: 0, declare_about_to_end }
    }

    /// The exact value of the game's board, when the agent announces ends
    /// and its search finds one.
    pub fn about_to_end(&self, graph: &BoardGraph, game: &Game) -> (r: Option<BoardValue>)
        requires
            self.depth <= usize::MAX - 2,
        ensures
            !self.declare_about_to_end ==> r.is_none(),
            self.declare_about_to_end ==> r == (if spec_validate_board(*graph, game.board, game.rule).is_some() {
                None
            } else {
                spec_evaluate(*graph, game.board, game.player, self.depth as nat, game.rule).spec_single()
            }),
    {
        if !self.declare_about_to_end {
            return None;
        }
        match evaluate_board(graph, game.board, game.player, self.depth, game.rule) {
            Ok(iv) => iv.single(),
            Err(_) => None,
        }
    }
}

impl Agent for AnalystAgent {
    fn play(&mut self, graph: &BoardGraph, game: &mut Game) {
        self.n = (33 * (self.n % 65536) + 31) % 65536;
        if self.depth > usize::MAX - 2 {
            return;
        }
        let candidates = match find_best_actions(graph, game.board, game.player, self.depth, game.rule) {
            Ok(c) => c,
            Err(_) => {
                return;
            },
        };
        if candidates.len() > 0 {
            let action = candidates[self.n % candidates.len()];
            let _ = game.perform(graph, action);
        }
    }
}

/// Two agents playing one game.
#[derive(Debug, Clone)]
pub struct Arena<AR: Agent, AG: Agent> {
    pub agent_red: AR,
    pub agent_green: AG,
    pub game: Game,
}

impl<AR: Agent, AG: Agent> Arena<AR, AG> {
    pub fn new(agent_red: AR, agent_green: AG, game: Game) -> (r: Self)
        ensures
            r.agent_red == agent_red,
            r.agent_green == agent_green,
            r.game == game,
    {
        Arena { agent_red, agent_green, game }
    }

    /// Lets the agent of the player to act play one turn; returns whether
    /// the game goes on. Nothing happens once the game is over.
    pub fn play_turn(&mut self, graph: &BoardGraph) -> (r: bool)
        ensures
            old(self).game.status != GameStatus::Ongoing ==> !r && final(self).game == old(self).game,
            r == (final(self).game.status == GameStatus::Ongoing),
    {
        if !self.game.is_ongoing() {
            return false;
        }
        match self.game.player {
            Color::Red => self.agent_red.play(graph, &mut self.game),
            Color::Green => self.agent_green.play(graph, &mut self.game),
        }
        self.game.is_ongoing()
    }
}

} // verus!
