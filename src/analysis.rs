//! Exact searches over the positions of a [`BoardGraph`]: comparison of a
//! position with a claimed value, iterative evaluation, best actions, and
//! checkmate trees.
use crate::board::{is_legal_for, Action, Board, BoardGraph, SurroundedStatus};
use crate::game::{GameRule, Judge};
use crate::pieces::Color;

pub use crate::value::{BoardValue, BoardValueKind};
use std::cmp::Ordering;
use vstd::prelude::*;

verus! {

// ---------------------------------------------------------------------------
//  Outcome of one action
// ---------------------------------------------------------------------------
/// What a single action does for the player who takes it.
#[derive(Debug, Clone, Copy, PartialEq, Eq, Structural, Hash)]
pub enum NextBoardStatus {
    /// The game ends with the mover winning.
    Win,
    /// The game ends with the mover losing.
    Lose,
    /// The game goes on.
    Unknown,
}

/// One classified action: the action, the board it leads to, its outcome.
pub type Step = (Action, Board, NextBoardStatus);

/// Whether the mover wins when both bosses end up surrounded.
pub open spec fn wins_if_both(judge: Judge) -> bool {
    judge == Judge::LastWins
}

/// The outcome for `player`, who just acted, of a board with `status`.
pub open spec fn classify(status: SurroundedStatus, player: Color, last_wins: bool) -> NextBoardStatus {
    match status {
        SurroundedStatus::Both => if last_wins {
            NextBoardStatus::Win
        } else {
            NextBoardStatus::Lose
        },
        SurroundedStatus::OneSide(p) => if p != player {
            NextBoardStatus::Win
        } else {
            NextBoardStatus::Lose
        },
        SurroundedStatus::Neither => NextBoardStatus::Unknown,
    }
}

/// The classified legal actions among the first `k` moves, in order.
pub open spec fn steps_upto(
    graph: BoardGraph,
    moves: Seq<(Action, Board)>,
    player: Color,
    rule: GameRule,
    k: int,
) -> Seq<Step>
    decreases k,
{
    if k <= 0 {
        seq![]
    } else {
        let prev = steps_upto(graph, moves, player, rule, k - 1);
        let (action, next) = moves[k - 1];
        if is_legal_for(action, player, rule.is_remove_accepted) {
            prev.push(
                (
                    action,
                    next,
                    classify(graph.spec_status(next), player, wins_if_both(rule.suicide_atk_judge)),
                ),
            )
        } else {
            prev
        }
    }
}

/// The classified legal actions of `player` on `board`.
pub open spec fn spec_steps(graph: BoardGraph, board: Board, player: Color, rule: GameRule) -> Seq<
    Step,
> {
    steps_upto(graph, graph.spec_moves(board), player, rule, graph.spec_moves(board).len() as int)
}

/// The classified legal actions of `player` on `board`, in the graph's order.
pub fn next_boards(graph: &BoardGraph, board: Board, player: Color, rule: GameRule) -> (r: Vec<Step>)
    requires
        rule.suicide_atk_judge != Judge::Draw,
    ensures
        r@ == spec_steps(*graph, board, player, rule),
{
    let last_wins = match rule.suicide_atk_judge {
        Judge::LastWins => true,
        _ => false,
    };
    let mut r: Vec<Step> = Vec::new();
    if board.raw >= graph.entries.len() as u64 {
        return r;
    }
    let moves = &graph.entries[board.raw as usize].moves;
    let mut i: usize = 0;
    while i < moves.len()
        invariant
            0 <= i <= moves@.len(),
            moves@ == graph.spec_moves(board),
            last_wins == wins_if_both(rule.suicide_atk_judge),
            r@ == steps_upto(*graph, moves@, player, rule, i as int),
        decreases moves@.len() - i,
    {
        let (action, next) = moves[i];
        if action.player() == player && (rule.is_remove_accepted || !action.is_remove()) {
            let status = graph.surrounded_status(next);
            let outcome = match status {
                SurroundedStatus::Both => if last_wins {
                    NextBoardStatus::Win
                } else {
                    NextBoardStatus::Lose
                },
                SurroundedStatus::OneSide(p) => if p != player {
                    NextBoardStatus::Win
                } else {
                    NextBoardStatus::Lose
                },
                SurroundedStatus::Neither => NextBoardStatus::Unknown,
            };
            r.push((action, next, outcome));
        }
        i += 1;
    }
    r
}

// ---------------------------------------------------------------------------
//  Orderings
// ---------------------------------------------------------------------------
pub open spec fn ord_rank(o: Ordering) -> int {
    match o {
        Ordering::Less => 0,
        Ordering::Equal => 1,
        Ordering::Greater => 2,
    }
}

pub open spec fn ord_max(a: Ordering, b: Ordering) -> Ordering {
    if ord_rank(a) >= ord_rank(b) {
        a
    } else {
        b
    }
}

pub open spec fn ord_reverse(o: Ordering) -> Ordering {
    match o {
        Ordering::Less => Ordering::Greater,
        Ordering::Equal => Ordering::Equal,
        Ordering::Greater => Ordering::Less,
    }
}

fn ordering_max(a: Ordering, b: Ordering) -> (r: Ordering)
    ensures
        r == ord_max(a, b),
{
    let ra: u8 = match a {
        Ordering::Less => 0,
        Ordering::Equal => 1,
        Ordering::Greater => 2,
    };
    let rb: u8 = match b {
        Ordering::Less => 0,
        Ordering::Equal => 1,
        Ordering::Greater => 2,
    };
    if ra >= rb {
        a
    } else {
        b
    }
}

fn ordering_reverse(o: Ordering) -> (r: Ordering)
    ensures
        r == ord_reverse(o),
{
    match o {
        Ordering::Less => Ordering::Greater,
        Ordering::Equal => Ordering::Equal,
        Ordering::Greater => Ordering::Less,
    }
}

// ---------------------------------------------------------------------------
//  Comparison with a claimed value
// ---------------------------------------------------------------------------
/// How the value of `board` compares with the claim of `n` turns (`Win(n)`
/// for odd `n`, `Lose(n)` for even `n`), going on from the `i`-th step with
/// the verdict `acc` gathered so far.
///
/// An immediate win confirms only `Win(1)` and beats every other claim. With
/// a claim below `Win(1)`, each open step is checked against the claim one
/// turn shorter from the opponent's side: an opponent who does worse than
/// that claim makes this board better than claimed; otherwise the verdicts
/// of the steps, seen from this side, are combined by their maximum.
pub open spec fn compare_from(
    graph: BoardGraph,
    board: Board,
    n: nat,
    player: Color,
    rule: GameRule,
    i: nat,
    acc: Ordering,
) -> Ordering
    decreases n, spec_steps(graph, board, player, rule).len() - i,
{
    let s = spec_steps(graph, board, player, rule);
    if i >= s.len() {
        acc
    } else {
        let step = s[i as int];
        match step.2 {
            NextBoardStatus::Win => if n <= 1 {
                Ordering::Equal
            } else {
                Ordering::Greater
            },
            NextBoardStatus::Lose => compare_from(graph, board, n, player, rule, i + 1, acc),
            NextBoardStatus::Unknown => if n <= 1 {
                compare_from(graph, board, n, player, rule, i + 1, acc)
            } else {
                let c = compare_from(
                    graph,
                    step.1,
                    (n - 1) as nat,
                    player.spec_toggle(),
                    rule,
                    0,
                    Ordering::Less,
                );
                if c == Ordering::Less {
                    Ordering::Greater
                } else {
                    compare_from(graph, board, n, player, rule, i + 1, ord_max(acc, ord_reverse(c)))
                }
            },
        }
    }
}

/// How the value of `board`, with `player` to act, compares with `value`.
pub open spec fn spec_compare(
    graph: BoardGraph,
    board: Board,
    value: BoardValue,
    player: Color,
    rule: GameRule,
) -> Ordering {
    compare_from(graph, board, value.num(), player, rule, 0, Ordering::Less)
}

fn compare_board_value_unchecked(
    graph: &BoardGraph,
    board: Board,
    value: BoardValue,
    player: Color,
    rule: GameRule,
) -> (r: Ordering)
    requires
        value.is_decisive(),
        rule.suicide_atk_judge != Judge::Draw,
    ensures
        r == spec_compare(*graph, board, value, player, rule),
    decreases value.num(),
{
    let n = value.unwrap();
    let steps = next_boards(graph, board, player, rule);
    let mut cmp = Ordering::Less;
    let mut i: usize = 0;
    while i < steps.len()
        invariant
            0 <= i <= steps@.len(),
            steps@ == spec_steps(*graph, board, player, rule),
            value.value == Some(n),
            n >= 1,
            value.is_decisive(),
            rule.suicide_atk_judge != Judge::Draw,
            spec_compare(*graph, board, value, player, rule) == compare_from(
                *graph,
                board,
                n as nat,
                player,
                rule,
                i as nat,
                cmp,
            ),
        decreases steps@.len() - i,
    {
        let (_, next_board, status) = steps[i];
        match status {
            NextBoardStatus::Win => {
                if n == 1 {
                    return Ordering::Equal;
                } else {
                    return Ordering::Greater;
                }
            },
            NextBoardStatus::Lose => {},
            NextBoardStatus::Unknown => {
                if n != 1 {
                    let next_value = BoardValue { value: Some(n - 1) };
                    let next_cmp = compare_board_value_unchecked(
                        graph,
                        next_board,
                        next_value,
                        player.toggle(),
                        rule,
                    );
                    if matches!(next_cmp, Ordering::Less) {
                        return Ordering::Greater;
                    }
                    cmp = ordering_max(cmp, ordering_reverse(next_cmp));
                }
            },
        }
        i += 1;
    }
    cmp
}

// ---------------------------------------------------------------------------
//  Validation
// ---------------------------------------------------------------------------
/// Arguments that no search accepts.
#[derive(Debug, Clone, Copy, PartialEq, Eq, Structural)]
pub enum ArgsValidationError {
    /// The game on the board is already over.
    FinishedBoardError { board: Board },
    /// The value is `Unknown` or `Finished`.
    UnsupportedValueError { boad_value: BoardValue },
    /// The rule lets a double surround end in a draw.
    DrawJudgeError,
}

/// The error that validation reports, if any.
pub open spec fn spec_validate(
    graph: BoardGraph,
    board: Board,
    value: BoardValue,
    rule: GameRule,
) -> Option<ArgsValidationError> {
    if graph.spec_status(board) != SurroundedStatus::Neither {
        Some(ArgsValidationError::FinishedBoardError { board })
    } else if !value.is_decisive() {
        Some(ArgsValidationError::UnsupportedValueError { boad_value: value })
    } else if rule.suicide_atk_judge == Judge::Draw {
        Some(ArgsValidationError::DrawJudgeError)
    } else {
        None
    }
}

/// The error that validation reports, if any, for a search that takes no value.
pub open spec fn spec_validate_board(
    graph: BoardGraph,
    board: Board,
    rule: GameRule,
) -> Option<ArgsValidationError> {
    spec_validate(graph, board, BoardValue { value: Some(1) }, rule)
}

fn validate_args(graph: &BoardGraph, board: Board, value: BoardValue, rule: GameRule) -> (r: Result<
    (),
    ArgsValidationError,
>)
    ensures
        r.is_err() == spec_validate(*graph, board, value, rule).is_some(),
        r.is_err() ==> r->Err_0 == spec_validate(*graph, board, value, rule).unwrap(),
{
    if !matches!(graph.surrounded_status(board), SurroundedStatus::Neither) {
        return Err(ArgsValidationError::FinishedBoardError { board });
    }
    if value.is_finished() || value.is_unknown() {
        return Err(ArgsValidationError::UnsupportedValueError { boad_value: value });
    }
    if !matches!(rule.suicide_atk_judge, Judge::NextWins | Judge::LastWins) {
        return Err(ArgsValidationError::DrawJudgeError);
    }
    Ok(())
}

/// Compares the value of `board`, with `player` to act, with `value`:
/// `Greater` when the board is better for `player` than `value`, `Less` when
/// it is worse.
pub fn compare_board_value(
    graph: &BoardGraph,
    board: Board,
    value: BoardValue,
    player: Color,
    rule: GameRule,
) -> (r: Result<Ordering, ArgsValidationError>)
    ensures
        r.is_err() == spec_validate(*graph, board, value, rule).is_some(),
        r.is_err() ==> r->Err_0 == spec_validate(*graph, board, value, rule).unwrap(),
        r.is_ok() ==> r->Ok_0 == spec_compare(*graph, board, value, player, rule),
{
    match validate_args(graph, board, value, rule) {
        Err(e) => Err(e),
        Ok(()) => Ok(compare_board_value_unchecked(graph, board, value, player, rule)),
    }
}

// ---------------------------------------------------------------------------
//  Interval
// ---------------------------------------------------------------------------
/// The closed range of values from `left` to `right`.
#[derive(Debug, Clone, Copy, PartialEq, Eq, Structural)]
pub struct Interval {
    pub left: BoardValue,
    pub right: BoardValue,
}

impl Interval {
    pub fn new(left: BoardValue, right: BoardValue) -> (r: Self)
        ensures
            r.left == left,
            r.right == right,
    {
        Interval { left, right }
    }

    pub fn left(&self) -> (r: &BoardValue)
        ensures
            *r == self.left,
    {
        &self.left
    }

    pub fn right(&self) -> (r: &BoardValue)
        ensures
            *r == self.right,
    {
        &self.right
    }

    /// `left <= item <= right`.
    pub fn contains(&self, item: &BoardValue) -> (r: bool)
        ensures
            r == (self.left.spec_le(*item) && item.spec_le(self.right)),
    {
        self.left.less_or_equal(item) && item.less_or_equal(&self.right)
    }

    pub open spec fn spec_single(self) -> Option<BoardValue> {
        if self.left == self.right {
            Some(self.left)
        } else {
            None
        }
    }

    /// The value, when the interval holds exactly one.
    pub fn single(&self) -> (r: Option<BoardValue>)
        ensures
            r == self.spec_single(),
    {
        if self.left == self.right {
            Some(self.left)
        } else {
            None
        }
    }
}

// ---------------------------------------------------------------------------
//  Iterative evaluation
// ---------------------------------------------------------------------------
/// The interval that a search to `depth` turns leaves when no exact value
/// was found: one turn beyond the horizon on either side.
pub open spec fn loose_interval(depth: nat) -> Interval {
    if depth % 2 == 0 {
        Interval {
            left: BoardValue { value: Some((depth + 2) as usize) },
            right: BoardValue { value: Some((depth + 1) as usize) },
        }
    } else {
        Interval {
            left: BoardValue { value: Some((depth + 1) as usize) },
            right: BoardValue { value: Some((depth + 2) as usize) },
        }
    }
}

/// The evaluation of `board` that tries the values of `k`, `k + 1`, ...,
/// `depth` turns in turn and stops at the first one that the board has.
pub open spec fn evaluate_from(
    graph: BoardGraph,
    board: Board,
    player: Color,
    depth: nat,
    rule: GameRule,
    k: nat,
) -> Interval
    decreases depth + 1 - k,
{
    if k == 0 || k > depth {
        loose_interval(depth)
    } else {
        let v = BoardValue { value: Some(k as usize) };
        if spec_compare(graph, board, v, player, rule) == Ordering::Equal {
            Interval { left: v, right: v }
        } else {
            evaluate_from(graph, board, player, depth, rule, k + 1)
        }
    }
}

/// The interval that holds the value of `board` after a search to `depth` turns.
pub open spec fn spec_evaluate(
    graph: BoardGraph,
    board: Board,
    player: Color,
    depth: nat,
    rule: GameRule,
) -> Interval {
    evaluate_from(graph, board, player, depth, rule, 1)
}

fn evaluate_board_unchecked(
    graph: &BoardGraph,
    board: Board,
    player: Color,
    search_depth: usize,
    rule: GameRule,
) -> (r: Interval)
    requires
        search_depth <= usize::MAX - 2,
        rule.suicide_atk_judge != Judge::Draw,
    ensures
        r == spec_evaluate(*graph, board, player, search_depth as nat, rule),
{
    let mut depth: usize = 1;
    while depth <= search_depth
        invariant
            1 <= depth <= search_depth + 1,
            search_depth <= usize::MAX - 2,
            rule.suicide_atk_judge != Judge::Draw,
            spec_evaluate(*graph, board, player, search_depth as nat, rule) == evaluate_from(
                *graph,
                board,
                player,
                search_depth as nat,
                rule,
                depth as nat,
            ),
        decreases search_depth + 1 - depth,
    {
        let value = BoardValue::from(Some(depth));
        if matches!(
            compare_board_value_unchecked(graph, board, value, player, rule),
            Ordering::Equal
        ) {
            return Interval::new(value, value);
        }
        depth += 1;
    }
    let (left_num, right_num) = if search_depth % 2 == 0 {
        (search_depth + 2, search_depth + 1)
    } else {
        (search_depth + 1, search_depth + 2)
    };
    Interval::new(BoardValue::from(Some(left_num)), BoardValue::from(Some(right_num)))
}

/// Bounds the value of `board`, with `player` to act, by a search of
/// `search_depth` turns: the exact value as a one-value interval when it is
/// at most `search_depth` turns away, else the interval just beyond the
/// horizon.
pub fn evaluate_board(
    graph: &BoardGraph,
    board: Board,
    player: Color,
    search_depth: usize,
    rule: GameRule,
) -> (r: Result<Interval, ArgsValidationError>)
    requires
        search_depth <= usize::MAX - 2,
    ensures
        r.is_err() == spec_validate_board(*graph, board, rule).is_some(),
        r.is_err() ==> r->Err_0 == spec_validate_board(*graph, board, rule).unwrap(),
        r.is_ok() ==> r->Ok_0 == spec_evaluate(*graph, board, player, search_depth as nat, rule),
{
    match validate_args(graph, board, BoardValue::max_value(), rule) {
        Err(e) => Err(e),
        Ok(()) => Ok(evaluate_board_unchecked(graph, board, player, search_depth, rule)),
    }
}

proof fn lemma_evaluate_single(
    graph: BoardGraph,
    board: Board,
    player: Color,
    depth: nat,
    rule: GameRule,
    k: nat,
)
    requires
        depth <= usize::MAX - 2,
    ensures
        ({
            let iv = evaluate_from(graph, board, player, depth, rule, k);
            iv.left == iv.right ==> spec_compare(graph, board, iv.left, player, rule)
                == Ordering::Equal
        }),
    decreases depth + 1 - k,
{
    if k == 0 || k > depth {
    } else {
        let v = BoardValue { value: Some(k as usize) };
        if spec_compare(graph, board, v, player, rule) != Ordering::Equal {
            lemma_evaluate_single(graph, board, player, depth, rule, k + 1);
        }
    }
}

/// Evaluation and comparison agree: when the evaluation of a board is a
/// single value, comparing the board with that value gives `Equal`.
pub proof fn lemma_evaluate_agrees_with_compare(
    graph: BoardGraph,
    board: Board,
    player: Color,
    depth: nat,
    rule: GameRule,
)
    requires
        depth <= usize::MAX - 2,
    ensures
        ({
            let iv = spec_evaluate(graph, board, player, depth, rule);
            iv.spec_single().is_some() ==> spec_compare(
                graph,
                board,
                iv.spec_single().unwrap(),
                player,
                rule,
            ) == Ordering::Equal
        }),
{
    lemma_evaluate_single(graph, board, player, depth, rule, 1);
}

/// A search of no turns leaves the loosest interval, `[Lose(2), Win(1)]`.
pub proof fn lemma_evaluate_depth_zero(graph: BoardGraph, board: Board, player: Color, rule: GameRule)
    ensures
        spec_evaluate(graph, board, player, 0, rule) == (Interval {
            left: BoardValue { value: Some(2) },
            right: BoardValue { value: Some(1) },
        }),
{
}

proof fn lemma_evaluate_shape(
    graph: BoardGraph,
    board: Board,
    player: Color,
    depth: nat,
    rule: GameRule,
    k: nat,
)
    requires
        depth <= usize::MAX - 2,
    ensures
        ({
            let iv = evaluate_from(graph, board, player, depth, rule, k);
            iv == loose_interval(depth) || (iv.left == iv.right && iv.left.value.is_some() && 1
                <= iv.left.value.unwrap() <= depth)
        }),
    decreases depth + 1 - k,
{
    if k == 0 || k > depth {
    } else {
        let v = BoardValue { value: Some(k as usize) };
        if spec_compare(graph, board, v, player, rule) != Ordering::Equal {
            lemma_evaluate_shape(graph, board, player, depth, rule, k + 1);
        }
    }
}

// ---------------------------------------------------------------------------
//  Best actions
// ---------------------------------------------------------------------------
/// Whether `step` is a best action of `player`, given the interval `iv` that
/// a search found for the board.
///
/// With an exact value, an immediate win qualifies when the value is
/// `Win(1)`, and an open step when the board it leads to has, for the
/// opponent, the value one turn shorter. Without one, an open step qualifies
/// when that board is not better for the opponent than the lower end of the
/// interval, one turn shorter.
pub open spec fn qualifies(
    graph: BoardGraph,
    player: Color,
    rule: GameRule,
    iv: Interval,
    step: Step,
) -> bool {
    let value = match iv.spec_single() {
        Some(v) => v,
        None => BoardValue { value: None },
    };
    match step.2 {
        NextBoardStatus::Win => value.value == Some(1usize),
        NextBoardStatus::Lose => false,
        NextBoardStatus::Unknown => match value.value {
            None => spec_compare(
                graph,
                step.1,
                iv.left.spec_decrement().unwrap(),
                player.spec_toggle(),
                rule,
            ) != Ordering::Greater,
            Some(n) => n != 1 && spec_compare(
                graph,
                step.1,
                BoardValue { value: Some((n - 1) as usize) },
                player.spec_toggle(),
                rule,
            ) == Ordering::Equal,
        },
    }
}

/// The actions of the qualifying steps among the first `k`, in order.
pub open spec fn best_upto(
    graph: BoardGraph,
    steps: Seq<Step>,
    player: Color,
    rule: GameRule,
    iv: Interval,
    k: int,
) -> Seq<Action>
    decreases k,
{
    if k <= 0 {
        seq![]
    } else {
        let prev = best_upto(graph, steps, player, rule, iv, k - 1);
        if qualifies(graph, player, rule, iv, steps[k - 1]) {
            prev.push(steps[k - 1].0)
        } else {
            prev
        }
    }
}

/// The best actions of `player` on `board` by a search of `depth` turns;
/// with no search, every legal action.
pub open spec fn spec_best_actions(
    graph: BoardGraph,
    board: Board,
    player: Color,
    depth: nat,
    rule: GameRule,
) -> Seq<Action> {
    if depth == 0 {
        graph.spec_legal_actions(board, player, rule.is_remove_accepted)
    } else {
        let steps = spec_steps(graph, board, player, rule);
        best_upto(
            graph,
            steps,
            player,
            rule,
            spec_evaluate(graph, board, player, depth, rule),
            steps.len() as int,
        )
    }
}

fn find_best_actions_unchecked(
    graph: &BoardGraph,
    board: Board,
    player: Color,
    search_depth: usize,
    rule: GameRule,
) -> (r: Vec<Action>)
    requires
        search_depth <= usize::MAX - 2,
        rule.suicide_atk_judge != Judge::Draw,
    ensures
        r@ == spec_best_actions(*graph, board, player, search_depth as nat, rule),
{
    if search_depth == 0 {
        return graph.legal_actions(board, player, rule.is_remove_accepted);
    }
    let iv = evaluate_board_unchecked(graph, board, player, search_depth, rule);
    proof {
        lemma_evaluate_shape(*graph, board, player, search_depth as nat, rule, 1);
    }
    let value = match iv.single() {
        Some(v) => v,
        None => BoardValue::unknown(),
    };
    let steps = next_boards(graph, board, player, rule);
    let mut actions: Vec<Action> = Vec::new();
    let mut i: usize = 0;
    while i < steps.len()
        invariant
            0 <= i <= steps@.len(),
            1 <= search_depth <= usize::MAX - 2,
            rule.suicide_atk_judge != Judge::Draw,
            steps@ == spec_steps(*graph, board, player, rule),
            iv == spec_evaluate(*graph, board, player, search_depth as nat, rule),
            iv == loose_interval(search_depth as nat) || (iv.left == iv.right
                && iv.left.value.is_some() && 1 <= iv.left.value.unwrap() <= search_depth),
            value == (match iv.spec_single() {
                Some(v) => v,
                None => BoardValue { value: None },
            }),
            actions@ == best_upto(*graph, steps@, player, rule, iv, i as int),
        decreases steps@.len() - i,
    {
        let (action, next_board, status) = steps[i];
        match status {
            NextBoardStatus::Win => {
                if value.value == Some(1) {
                    actions.push(action);
                }
            },
            NextBoardStatus::Lose => {},
            NextBoardStatus::Unknown => {
                match value.value {
                    None => {
                        let left_num = iv.left.unwrap();
                        let target = BoardValue { value: Some(left_num - 1) };
                        if !matches!(
                            compare_board_value_unchecked(graph, next_board, target, player.toggle(), rule),
                            Ordering::Greater
                        ) {
                            actions.push(action);
                        }
                    },
                    Some(n) => {
                        if n != 1 {
                            let next_value = BoardValue { value: Some(n - 1) };
                            if matches!(
                                compare_board_value_unchecked(graph, next_board, next_value, player.toggle(), rule),
                                Ordering::Equal
                            ) {
                                actions.push(action);
                            }
                        }
                    },
                }
            },
        }
        i += 1;
    }
    actions
}

/// The actions of `player` on `board` that keep to the best play that a
/// search of `search_depth` turns can see.
pub fn find_best_actions(
    graph: &BoardGraph,
    board: Board,
    player: Color,
    search_depth: usize,
    rule: GameRule,
) -> (r: Result<Vec<Action>, ArgsValidationError>)
    requires
        search_depth <= usize::MAX - 2,
    ensures
        r.is_err() == spec_validate_board(*graph, board, rule).is_some(),
        r.is_err() ==> r->Err_0 == spec_validate_board(*graph, board, rule).unwrap(),
        r.is_ok() ==> r->Ok_0@ == spec_best_actions(*graph, board, player, search_depth as nat, rule),
{
    match validate_args(graph, board, BoardValue::max_value(), rule) {
        Err(e) => Err(e),
        Ok(()) => Ok(find_best_actions_unchecked(graph, board, player, search_depth, rule)),
    }
}

// ---------------------------------------------------------------------------
//  Checkmate trees
// ---------------------------------------------------------------------------
/// A tree of positions: each node holds a board (packed), the player to act
/// there and the board's value; each edge is an action.
#[derive(Debug)]
pub struct BoardValueTree {
    pub board_raw: u64,
    pub player: Color,
    pub value: BoardValue,
    pub children: Vec<(Action, BoardValueTree)>,
}

/// No two children share an action.
pub open spec fn keys_distinct(children: Seq<(Action, BoardValueTree)>) -> bool {
    forall|j: int, k: int|
        0 <= j < k < children.len() ==> #[trigger] children[j].0 != #[trigger] children[k].0
}

/// Whether a tree has exactly one line for `step` more turns.
pub open spec fn spec_good_for_puzzle(tree: BoardValueTree, step: nat) -> bool
    decreases step,
{
    if step == 0 {
        true
    } else {
        tree.children@.len() == 1 && spec_good_for_puzzle(tree.children@[0].1, (step - 1) as nat)
    }
}

impl BoardValueTree {
    /// A childless node of value `Unknown`.
    pub fn new(board: Board, player: Color) -> (r: Self)
        ensures
            r.board_raw == board.raw,
            r.player == player,
            r.value.value.is_none(),
            r.children@.len() == 0,
    {
        BoardValueTree {
            board_raw: board.to_u64(),
            player,
            value: BoardValue::unknown(),
            children: Vec::new(),
        }
    }

    pub fn board(&self) -> (r: Board)
        ensures
            r.raw == self.board_raw,
    {
        Board::from_u64(self.board_raw)
    }

    pub fn player(&self) -> (r: &Color)
        ensures
            *r == self.player,
    {
        &self.player
    }

    pub fn value(&self) -> (r: &BoardValue)
        ensures
            *r == self.value,
    {
        &self.value
    }

    /// The child reached by `action`, if any.
    pub fn child(&self, action: &Action) -> (r: Option<&BoardValueTree>)
        ensures
            r.is_none() ==> forall|j: int|
                0 <= j < self.children@.len() ==> #[trigger] self.children@[j].0 != *action,
            r.is_some() ==> exists|j: int|
                0 <= j < self.children@.len() && #[trigger] self.children@[j].0 == *action
                    && self.children@[j].1 == *r.unwrap(),
    {
        let mut j: usize = 0;
        while j < self.children.len()
            invariant
                0 <= j <= self.children@.len(),
                forall|k: int| 0 <= k < j ==> #[trigger] self.children@[k].0 != *action,
            decreases self.children@.len() - j,
        {
            if self.children[j].0 == *action {
                return Some(&self.children[j].1);
            }
            j += 1;
        }
        None
    }

    /// The actions of the children, in order.
    pub fn actions(&self) -> (r: Vec<Action>)
        ensures
            r@.len() == self.children@.len(),
            forall|j: int| 0 <= j < r@.len() ==> #[trigger] r@[j] == self.children@[j].0,
    {
        let mut r: Vec<Action> = Vec::new();
        let mut j: usize = 0;
        while j < self.children.len()
            invariant
                0 <= j <= self.children@.len(),
                r@.len() == j,
                forall|k: int| 0 <= k < j ==> #[trigger] r@[k] == self.children@[k].0,
            decreases self.children@.len() - j,
        {
            r.push(self.children[j].0);
            j += 1;
        }
        r
    }

    /// Whether the tree has exactly one line for `step` more turns: one child,
    /// whose tree again has one line for a turn less.
    pub fn is_good_for_puzzle(&self, step: usize) -> (r: bool)
        ensures
            r == spec_good_for_puzzle(*self, step as nat),
        decreases step,
    {
        if step == 0 {
            true
        } else {
            self.children.len() == 1 && self.children[0].1.is_good_for_puzzle(step - 1)
        }
    }
}

/// Some child is reached by `action`.
pub open spec fn has_child(children: Seq<(Action, BoardValueTree)>, action: Action) -> bool {
    exists|k: int| 0 <= k < children.len() && (#[trigger] children[k]).0 == action
}

/// Puts `child` under `action`, in place of a child with the same action.
fn insert_child(children: &mut Vec<(Action, BoardValueTree)>, action: Action, child: BoardValueTree)
    ensures
        forall|j: int|
            0 <= j < final(children)@.len() ==> (#[trigger] final(children)@[j] == (action, child)
                || old(children)@.contains(final(children)@[j])),
        keys_distinct(old(children)@) ==> keys_distinct(final(children)@),
        has_child(final(children)@, action),
        forall|a: Action| has_child(old(children)@, a) ==> #[trigger] has_child(final(children)@, a),
{
    let mut j: usize = 0;
    while j < children.len()
        invariant
            0 <= j <= children@.len(),
            children@ == old(children)@,
            forall|k: int| 0 <= k < j ==> #[trigger] children@[k].0 != action,
        decreases children@.len() - j,
    {
        if children[j].0 == action {
            children.set(j, (action, child));
            proof {
                assert(children@[j as int].0 == action);
                assert forall|a: Action| has_child(old(children)@, a) implies #[trigger] has_child(children@, a) by {
                    let k = choose|k: int| 0 <= k < old(children)@.len() && (#[trigger] old(children)@[k]).0 == a;
                    if k == j {
                        assert(children@[k].0 == a);
                    } else {
                        assert(children@[k] == old(children)@[k]);
                    }
                }
                assert forall|k: int| 0 <= k < children@.len() && k != j implies
                    old(children)@.contains(#[trigger] children@[k]) by {
                    assert(children@[k] == old(children)@[k]);
                }
            }
            return;
        }
        j += 1;
    }
    children.push((action, child));
    proof {
        assert(children@[children@.len() - 1].0 == action);
        assert forall|a: Action| has_child(old(children)@, a) implies #[trigger] has_child(children@, a) by {
            let k = choose|k: int| 0 <= k < old(children)@.len() && (#[trigger] old(children)@[k]).0 == a;
            assert(children@[k] == old(children)@[k]);
        }
        assert forall|k: int| 0 <= k < children@.len() - 1 implies old(children)@.contains(
            #[trigger] children@[k],
        ) by {
            assert(children@[k] == old(children)@[k]);
        }
    }
}

/// The value of `board` by a search of `d` turns, going on from the `i`-th
/// step with the best value `acc` found so far: an immediate win gives
/// `Win(1)`, an immediate loss is passed over, and an open step gives the
/// value of the board it leads to, for the opponent and `d - 1` turns,
/// advanced by one turn.
pub open spec fn tree_best_from(
    graph: BoardGraph,
    board: Board,
    player: Color,
    d: nat,
    rule: GameRule,
    i: nat,
    acc: BoardValue,
) -> BoardValue
    decreases d, spec_steps(graph, board, player, rule).len() - i,
{
    let s = spec_steps(graph, board, player, rule);
    if d == 0 || i >= s.len() {
        acc
    } else {
        let step = s[i as int];
        match step.2 {
            NextBoardStatus::Win => BoardValue { value: Some(1) },
            NextBoardStatus::Lose => tree_best_from(graph, board, player, d, rule, i + 1, acc),
            NextBoardStatus::Unknown => {
                let child = if d <= 1 {
                    BoardValue { value: None }
                } else {
                    tree_best_from(
                        graph,
                        step.1,
                        player.spec_toggle(),
                        (d - 1) as nat,
                        rule,
                        0,
                        BoardValue { value: Some(2) },
                    )
                };
                let c = child.spec_increment();
                tree_best_from(
                    graph,
                    board,
                    player,
                    d,
                    rule,
                    i + 1,
                    if acc.spec_lt(c) {
                        c
                    } else {
                        acc
                    },
                )
            },
        }
    }
}

/// The value of `board`, with `player` to act, by a search of `d` turns:
/// `Unknown` with no turn, else the best over its actions starting from
/// `Lose(2)`.
pub open spec fn spec_tree_value(
    graph: BoardGraph,
    board: Board,
    player: Color,
    d: nat,
    rule: GameRule,
) -> BoardValue {
    if d == 0 {
        BoardValue { value: None }
    } else {
        tree_best_from(graph, board, player, d, rule, 0, BoardValue { value: Some(2) })
    }
}

/// `Unknown`, or a number of turns in `lo..=hi`.
pub open spec fn value_within(v: BoardValue, lo: int, hi: int) -> bool {
    v.value.is_none() || (lo <= v.value.unwrap() <= hi)
}

proof fn lemma_tree_best_bound(
    graph: BoardGraph,
    board: Board,
    player: Color,
    d: nat,
    rule: GameRule,
    i: nat,
    acc: BoardValue,
)
    requires
        1 <= d < usize::MAX,
        value_within(acc, 2, (d + 1) as int),
    ensures
        value_within(tree_best_from(graph, board, player, d, rule, i, acc), 1, (d + 1) as int),
    decreases d, spec_steps(graph, board, player, rule).len() - i,
{
    let s = spec_steps(graph, board, player, rule);
    if i < s.len() {
        let step = s[i as int];
        match step.2 {
            NextBoardStatus::Win => {},
            NextBoardStatus::Lose => {
                lemma_tree_best_bound(graph, board, player, d, rule, i + 1, acc);
            },
            NextBoardStatus::Unknown => {
                let child = if d <= 1 {
                    BoardValue { value: None }
                } else {
                    tree_best_from(
                        graph,
                        step.1,
                        player.spec_toggle(),
                        (d - 1) as nat,
                        rule,
                        0,
                        BoardValue { value: Some(2) },
                    )
                };
                if d > 1 {
                    lemma_tree_best_bound(
                        graph,
                        step.1,
                        player.spec_toggle(),
                        (d - 1) as nat,
                        rule,
                        0,
                        BoardValue { value: Some(2) },
                    );
                }
                let c = child.spec_increment();
                let next = if acc.spec_lt(c) {
                    c
                } else {
                    acc
                };
                lemma_tree_best_bound(graph, board, player, d, rule, i + 1, next);
            },
        }
    }
}

proof fn lemma_tree_value_bound(graph: BoardGraph, board: Board, player: Color, d: nat, rule: GameRule)
    requires
        d < usize::MAX,
    ensures
        d == 0 ==> spec_tree_value(graph, board, player, d, rule).value.is_none(),
        value_within(spec_tree_value(graph, board, player, d, rule), 1, (d + 1) as int),
{
    if d > 0 {
        lemma_tree_best_bound(graph, board, player, d, rule, 0, BoardValue { value: Some(2) });
    }
}

/// A child kept by the depth-bounded search: the opponent's node, whose
/// value is that of its board for `d - 1` turns and, advanced by one turn,
/// the value of the parent.
pub open spec fn tree_child_fits(
    entry: (Action, BoardValueTree),
    graph: BoardGraph,
    board: Board,
    player: Color,
    d: nat,
    rule: GameRule,
    value: BoardValue,
) -> bool {
    let child_board = Board { raw: entry.1.board_raw };
    &&& spec_steps(graph, board, player, rule).contains(
        (entry.0, child_board, NextBoardStatus::Unknown),
    )
    &&& entry.1.player == player.spec_toggle()
    &&& d >= 1
    &&& entry.1.value == spec_tree_value(graph, child_board, player.spec_toggle(), (d - 1) as nat, rule)
    &&& entry.1.value.spec_increment() == value
}

/// The value, advanced by one turn, of the board that an open step leads
/// to, for the opponent and `d - 1` turns.
pub open spec fn step_value(step: Step, graph: BoardGraph, player: Color, d: nat, rule: GameRule) -> BoardValue {
    spec_tree_value(graph, step.1, player.spec_toggle(), (d - 1) as nat, rule).spec_increment()
}

/// An open step that the depth-bounded search keeps under a node of `value`.
pub open spec fn tree_step_kept(
    step: Step,
    graph: BoardGraph,
    player: Color,
    d: nat,
    rule: GameRule,
    value: BoardValue,
) -> bool {
    step.2 == NextBoardStatus::Unknown && d >= 1 && step_value(step, graph, player, d, rule) == value
}

fn create_checkmate_tree_unchecked(
    graph: &BoardGraph,
    board: Board,
    player: Color,
    max_depth: usize,
    rule: GameRule,
) -> (r: BoardValueTree)
    requires
        max_depth < usize::MAX,
        rule.suicide_atk_judge != Judge::Draw,
    ensures
        r.board_raw == board.raw,
        r.player == player,
        r.value == spec_tree_value(*graph, board, player, max_depth as nat, rule),
        value_within(r.value, 1, max_depth + 1),
        r.value.value == Some(1usize) ==> r.children@.len() == 0,
        keys_distinct(r.children@),
        forall|j: int|
            0 <= j < r.children@.len() ==> tree_child_fits(
                #[trigger] r.children@[j],
                *graph,
                board,
                player,
                max_depth as nat,
                rule,
                r.value,
            ),
        r.value.value != Some(1usize) ==> forall|j: int|
            0 <= j < spec_steps(*graph, board, player, rule).len() && tree_step_kept(
                #[trigger] spec_steps(*graph, board, player, rule)[j],
                *graph,
                player,
                max_depth as nat,
                rule,
                r.value,
            ) ==> has_child(r.children@, spec_steps(*graph, board, player, rule)[j].0),
    decreases max_depth,
{
    proof {
        lemma_tree_value_bound(*graph, board, player, max_depth as nat, rule);
    }
    let mut tree = BoardValueTree::new(board, player);
    if max_depth == 0 {
        return tree;
    }
    tree.value = BoardValue::min_value();
    let steps = next_boards(graph, board, player, rule);
    let mut i: usize = 0;
    while i < steps.len()
        invariant
            0 <= i <= steps@.len(),
            1 <= max_depth < usize::MAX,
            rule.suicide_atk_judge != Judge::Draw,
            steps@ == spec_steps(*graph, board, player, rule),
            tree.board_raw == board.raw,
            tree.player == player,
            value_within(tree.value, 2, max_depth + 1),
            spec_tree_value(*graph, board, player, max_depth as nat, rule) == tree_best_from(
                *graph,
                board,
                player,
                max_depth as nat,
                rule,
                i as nat,
                tree.value,
            ),
            keys_distinct(tree.children@),
            forall|j: int|
                0 <= j < tree.children@.len() ==> tree_child_fits(
                    #[trigger] tree.children@[j],
                    *graph,
                    board,
                    player,
                    max_depth as nat,
                    rule,
                    tree.value,
                ),
            forall|j: int|
                0 <= j < i && (#[trigger] steps@[j]).2 == NextBoardStatus::Unknown ==> !tree.value.spec_lt(
                    step_value(steps@[j], *graph, player, max_depth as nat, rule),
                ),
            forall|j: int|
                0 <= j < i && tree_step_kept(#[trigger] steps@[j], *graph, player, max_depth as nat, rule, tree.value)
                    ==> has_child(tree.children@, steps@[j].0),
        decreases steps@.len() - i,
    {
        let (action, next_board, status) = steps[i];
        match status {
            NextBoardStatus::Win => {
                tree.value = BoardValue::max_value();
                tree.children = Vec::new();
                return tree;
            },
            NextBoardStatus::Lose => {},
            NextBoardStatus::Unknown => {
                let child = create_checkmate_tree_unchecked(
                    graph,
                    next_board,
                    player.toggle(),
                    max_depth - 1,
                    rule,
                );
                let c = child.value.increment();
                proof {
                    crate::value::lemma_cmp_by_score(c, tree.value);
                    crate::value::lemma_cmp_by_score(tree.value, c);
                    assert(steps@[i as int] == (action, Board { raw: child.board_raw }, NextBoardStatus::Unknown));
                    assert(step_value(steps@[i as int], *graph, player, max_depth as nat, rule) == c);
                }
                let ghost old_value = tree.value;
                let ghost old_children = tree.children@;
                if !c.less_than(&tree.value) {
                    if tree.value.less_than(&c) {
                        tree.value = c;
                        tree.children = Vec::new();
                    }
                    let ghost prev = tree.children@;
                    insert_child(&mut tree.children, action, child);
                    proof {
                        assert forall|j: int| 0 <= j < tree.children@.len() implies tree_child_fits(
                            #[trigger] tree.children@[j],
                            *graph,
                            board,
                            player,
                            max_depth as nat,
                            rule,
                            tree.value,
                        ) by {
                            if tree.children@[j] != (action, child) {
                                let k = choose|k: int| 0 <= k < prev.len() && prev[k] == tree.children@[j];
                                assert(tree_child_fits(prev[k], *graph, board, player, max_depth as nat, rule, tree.value));
                            }
                        }
                    }
                }
                proof {
                    assert forall|j: int|
                        0 <= j < i + 1 && (#[trigger] steps@[j]).2 == NextBoardStatus::Unknown implies !tree.value.spec_lt(
                            step_value(steps@[j], *graph, player, max_depth as nat, rule),
                        ) by {
                        let v = step_value(steps@[j], *graph, player, max_depth as nat, rule);
                        lemma_tree_value_bound(*graph, steps@[j].1, player.spec_toggle(), (max_depth - 1) as nat, rule);
                        lemma_order_facts(tree.value, old_value, v);
                        lemma_order_facts(old_value, tree.value, v);
                        lemma_order_facts(v, c, tree.value);
                        lemma_order_facts(tree.value, c, v);
                    }
                    assert forall|j: int|
                        0 <= j < i + 1 && tree_step_kept(#[trigger] steps@[j], *graph, player, max_depth as nat, rule, tree.value)
                            implies has_child(tree.children@, steps@[j].0) by {
                        let v = step_value(steps@[j], *graph, player, max_depth as nat, rule);
                        lemma_tree_value_bound(*graph, steps@[j].1, player.spec_toggle(), (max_depth - 1) as nat, rule);
                        lemma_order_facts(old_value, v, c);
                        lemma_order_facts(v, old_value, c);
                        if j < i {
                            if tree.value == old_value {
                                assert(has_child(old_children, steps@[j].0));
                            } else {
                                assert(!old_value.spec_lt(v));
                            }
                        }
                    }
                }
            },
        }
        i += 1;
    }
    tree
}

/// Builds the tree of best lines from `board`, with `player` to act, by a
/// search of `max_depth` turns. The root holds the value of that search; each
/// kept child is an open action whose board, for the opponent and one turn
/// less, has a value that advanced by one turn is the root's, and every such
/// action is kept; a root of value `Win(1)` has no children.
pub fn create_checkmate_tree(
    graph: &BoardGraph,
    board: Board,
    player: Color,
    max_depth: usize,
    rule: GameRule,
) -> (r: Result<BoardValueTree, ArgsValidationError>)
    requires
        max_depth < usize::MAX,
    ensures
        r.is_err() == spec_validate_board(*graph, board, rule).is_some(),
        r.is_err() ==> r->Err_0 == spec_validate_board(*graph, board, rule).unwrap(),
        r.is_ok() ==> ({
            let t = r->Ok_0;
            &&& t.board_raw == board.raw
            &&& t.player == player
            &&& t.value == spec_tree_value(*graph, board, player, max_depth as nat, rule)
            &&& t.value.value == Some(1usize) ==> t.children@.len() == 0
            &&& keys_distinct(t.children@)
            &&& forall|j: int|
                0 <= j < t.children@.len() ==> tree_child_fits(
                    #[trigger] t.children@[j],
                    *graph,
                    board,
                    player,
                    max_depth as nat,
                    rule,
                    t.value,
                )
            &&& t.value.value != Some(1usize) ==> forall|j: int|
                0 <= j < spec_steps(*graph, board, player, rule).len() && tree_step_kept(
                    #[trigger] spec_steps(*graph, board, player, rule)[j],
                    *graph,
                    player,
                    max_depth as nat,
                    rule,
                    t.value,
                ) ==> has_child(t.children@, spec_steps(*graph, board, player, rule)[j].0)
        }),
{
    match validate_args(graph, board, BoardValue::max_value(), rule) {
        Err(e) => Err(e),
        Ok(()) => Ok(create_checkmate_tree_unchecked(graph, board, player, max_depth, rule)),
    }
}

/// A child kept by the value-guided search: the opponent's node, whose board
/// has, for the opponent, exactly the claimed value one turn shorter.
pub open spec fn guided_child_fits(
    entry: (Action, BoardValueTree),
    graph: BoardGraph,
    board: Board,
    player: Color,
    rule: GameRule,
    value: BoardValue,
) -> bool {
    let child_board = Board { raw: entry.1.board_raw };
    &&& spec_steps(graph, board, player, rule).contains(
        (entry.0, child_board, NextBoardStatus::Unknown),
    )
    &&& entry.1.player == player.spec_toggle()
    &&& Some(entry.1.value) == value.spec_decrement()
    &&& spec_compare(graph, child_board, entry.1.value, player.spec_toggle(), rule)
        == Ordering::Equal
}

/// An open step that the value-guided search keeps under a claim of
/// `value`: its board has, for the opponent, the claim one turn shorter.
pub open spec fn guided_step_kept(
    step: Step,
    graph: BoardGraph,
    player: Color,
    rule: GameRule,
    value: BoardValue,
) -> bool {
    &&& step.2 == NextBoardStatus::Unknown
    &&& value.num() >= 2
    &&& spec_compare(graph, step.1, claim((value.num() - 1) as nat), player.spec_toggle(), rule)
        == Ordering::Equal
}

fn create_checkmate_tree_with_value_unchecked(
    graph: &BoardGraph,
    board: Board,
    value: BoardValue,
    player: Color,
    rule: GameRule,
) -> (r: (BoardValueTree, Ordering))
    requires
        value.is_decisive(),
        rule.suicide_atk_judge != Judge::Draw,
    ensures
        r.1 == spec_compare(*graph, board, value, player, rule),
        r.0.board_raw == board.raw,
        r.0.player == player,
        r.1 == Ordering::Equal ==> r.0.value == value,
        r.1 != Ordering::Equal ==> r.0.value.value.is_none() && r.0.children@.len() == 0,
        value.value == Some(1usize) ==> r.0.children@.len() == 0,
        keys_distinct(r.0.children@),
        forall|j: int|
            0 <= j < r.0.children@.len() ==> guided_child_fits(
                #[trigger] r.0.children@[j],
                *graph,
                board,
                player,
                rule,
                value,
            ),
        r.1 == Ordering::Equal ==> forall|j: int|
            0 <= j < spec_steps(*graph, board, player, rule).len() && guided_step_kept(
                #[trigger] spec_steps(*graph, board, player, rule)[j],
                *graph,
                player,
                rule,
                value,
            ) ==> has_child(r.0.children@, spec_steps(*graph, board, player, rule)[j].0),
    decreases value.num(),
{
    let n = value.unwrap();
    let mut tree = BoardValueTree::new(board, player);
    tree.value = value;
    let mut cmp = Ordering::Less;
    let steps = next_boards(graph, board, player, rule);
    let mut i: usize = 0;
    while i < steps.len()
        invariant
            0 <= i <= steps@.len(),
            steps@ == spec_steps(*graph, board, player, rule),
            value.value == Some(n),
            n >= 1,
            value.is_decisive(),
            rule.suicide_atk_judge != Judge::Draw,
            spec_compare(*graph, board, value, player, rule) == compare_from(
                *graph,
                board,
                n as nat,
                player,
                rule,
                i as nat,
                cmp,
            ),
            tree.board_raw == board.raw,
            tree.player == player,
            tree.value == value,
            n == 1 ==> tree.children@.len() == 0,
            keys_distinct(tree.children@),
            forall|j: int|
                0 <= j < tree.children@.len() ==> guided_child_fits(
                    #[trigger] tree.children@[j],
                    *graph,
                    board,
                    player,
                    rule,
                    value,
                ),
            forall|j: int|
                0 <= j < i && guided_step_kept(#[trigger] steps@[j], *graph, player, rule, value)
                    ==> has_child(tree.children@, steps@[j].0),
        decreases steps@.len() - i,
    {
        let (action, next_board, status) = steps[i];
        match status {
            NextBoardStatus::Win => {
                if n == 1 {
                    cmp = Ordering::Equal;
                } else {
                    cmp = Ordering::Greater;
                    tree.value = BoardValue::unknown();
                }
                tree.children = Vec::new();
                return (tree, cmp);
            },
            NextBoardStatus::Lose => {},
            NextBoardStatus::Unknown => {
                if n != 1 {
                    let next_value = BoardValue { value: Some(n - 1) };
                    let (child, next_cmp) = create_checkmate_tree_with_value_unchecked(
                        graph,
                        next_board,
                        next_value,
                        player.toggle(),
                        rule,
                    );
                    if matches!(next_cmp, Ordering::Less) {
                        tree.value = BoardValue::unknown();
                        tree.children = Vec::new();
                        return (tree, Ordering::Greater);
                    }
                    let ghost old_children = tree.children@;
                    if matches!(next_cmp, Ordering::Equal) {
                        proof {
                            assert(steps@[i as int] == (action, Board { raw: child.board_raw }, NextBoardStatus::Unknown));
                        }
                        let ghost prev = tree.children@;
                        insert_child(&mut tree.children, action, child);
                        proof {
                            assert forall|j: int| 0 <= j < tree.children@.len() implies guided_child_fits(
                                #[trigger] tree.children@[j],
                                *graph,
                                board,
                                player,
                                rule,
                                value,
                            ) by {
                                if tree.children@[j] != (action, child) {
                                    let k = choose|k: int| 0 <= k < prev.len() && prev[k] == tree.children@[j];
                                    assert(guided_child_fits(prev[k], *graph, board, player, rule, value));
                                }
                            }
                        }
                    }
                    cmp = ordering_max(cmp, ordering_reverse(next_cmp));
                    proof {
                        assert(steps@[i as int].1 == next_board);
                        assert forall|j: int|
                            0 <= j < i + 1 && guided_step_kept(#[trigger] steps@[j], *graph, player, rule, value)
                                implies has_child(tree.children@, steps@[j].0) by {
                            if j < i {
                                assert(has_child(old_children, steps@[j].0));
                            }
                        }
                    }
                }
            },
        }
        i += 1;
    }
    if !matches!(cmp, Ordering::Equal) {
        tree.value = BoardValue::unknown();
        tree.children = Vec::new();
    }
    (tree, cmp)
}

/// Why the value-guided tree could not be built.
#[derive(Debug, Clone, Copy)]
pub enum CreateCheckmateTreeWithValueError {
    /// The arguments were refused.
    ArgsValidationError(ArgsValidationError),
    /// The board's value is not the claimed one: it is `Greater` or `Less`.
    ValueMismatchError(Ordering),
}

/// Builds the tree of best lines from `board`, with `player` to act, that
/// realise the claimed `value`. The kept children are exactly the open
/// actions whose board has, for the opponent, the claimed value one turn
/// shorter. When the board's
/// value differs from the claim, the error says in which direction.
pub fn create_checkmate_tree_with_value(
    graph: &BoardGraph,
    board: Board,
    value: BoardValue,
    player: Color,
    rule: GameRule,
) -> (r: Result<BoardValueTree, CreateCheckmateTreeWithValueError>)
    ensures
        spec_validate(*graph, board, value, rule).is_some() ==> r
            == Err::<BoardValueTree, CreateCheckmateTreeWithValueError>(
            CreateCheckmateTreeWithValueError::ArgsValidationError(
                spec_validate(*graph, board, value, rule).unwrap(),
            ),
        ),
        spec_validate(*graph, board, value, rule).is_none() && spec_compare(
            *graph,
            board,
            value,
            player,
            rule,
        ) != Ordering::Equal ==> r == Err::<BoardValueTree, CreateCheckmateTreeWithValueError>(
            CreateCheckmateTreeWithValueError::ValueMismatchError(
                spec_compare(*graph, board, value, player, rule),
            ),
        ),
        r.is_ok() <==> (spec_validate(*graph, board, value, rule).is_none() && spec_compare(
            *graph,
            board,
            value,
            player,
            rule,
        ) == Ordering::Equal),
        r.is_ok() ==> ({
            let t = r->Ok_0;
            &&& t.board_raw == board.raw
            &&& t.player == player
            &&& t.value == value
            &&& value.value == Some(1usize) ==> t.children@.len() == 0
            &&& keys_distinct(t.children@)
            &&& forall|j: int|
                0 <= j < t.children@.len() ==> guided_child_fits(
                    #[trigger] t.children@[j],
                    *graph,
                    board,
                    player,
                    rule,
                    value,
                )
            &&& forall|j: int|
                0 <= j < spec_steps(*graph, board, player, rule).len() && guided_step_kept(
                    #[trigger] spec_steps(*graph, board, player, rule)[j],
                    *graph,
                    player,
                    rule,
                    value,
                ) ==> has_child(t.children@, spec_steps(*graph, board, player, rule)[j].0)
        }),
{
    match validate_args(graph, board, value, rule) {
        Err(e) => Err(CreateCheckmateTreeWithValueError::ArgsValidationError(e)),
        Ok(()) => {
            let (tree, cmp) = create_checkmate_tree_with_value_unchecked(
                graph,
                board,
                value,
                player,
                rule,
            );
            if matches!(cmp, Ordering::Equal) {
                Ok(tree)
            } else {
                Err(CreateCheckmateTreeWithValueError::ValueMismatchError(cmp))
            }
        },
    }
}

// ---------------------------------------------------------------------------
//  Agreement of the depth-bounded and the value-guided searches
// ---------------------------------------------------------------------------
/// The claim of `n` turns: `Win(n)` for odd `n`, `Lose(n)` for even `n`.
pub open spec fn claim(n: nat) -> BoardValue {
    BoardValue { value: Some(n as usize) }
}

/// Every position that the search of `d` turns reaches through open steps
/// has an action that does not lose at once.
pub open spec fn is_live(graph: BoardGraph, board: Board, player: Color, d: nat, rule: GameRule) -> bool
    decreases d,
{
    let s = spec_steps(graph, board, player, rule);
    d == 0 || ((exists|i: int| 0 <= i < s.len() && #[trigger] s[i].2 != NextBoardStatus::Lose)
        && forall|i: int|
        0 <= i < s.len() && #[trigger] s[i].2 == NextBoardStatus::Unknown ==> is_live(
            graph,
            s[i].1,
            player.spec_toggle(),
            (d - 1) as nat,
            rule,
        ))
}

proof fn lemma_increment_reverses(u: BoardValue, w: BoardValue)
    requires
        u.spec_kind() != BoardValueKind::Finished,
        w.spec_kind() != BoardValueKind::Finished,
        u.value != Some(usize::MAX),
        w.value != Some(usize::MAX),
    ensures
        u.spec_increment().spec_kind() != BoardValueKind::Finished,
        u.spec_partial_cmp(w).is_some(),
        u.spec_increment().spec_partial_cmp(w.spec_increment()) == Some(
            ord_reverse(u.spec_partial_cmp(w).unwrap()),
        ),
{
    crate::value::lemma_cmp_by_score(u, w);
    crate::value::lemma_cmp_by_score(u.spec_increment(), w.spec_increment());
}

proof fn lemma_order_facts(a: BoardValue, b: BoardValue, c: BoardValue)
    requires
        a.spec_kind() != BoardValueKind::Finished,
        b.spec_kind() != BoardValueKind::Finished,
        c.spec_kind() != BoardValueKind::Finished,
    ensures
        a.spec_partial_cmp(b).is_some(),
        a.spec_partial_cmp(b) == Some(Ordering::Equal) <==> a == b,
        a.spec_lt(b) <==> b.spec_partial_cmp(a) == Some(Ordering::Greater),
        a.spec_lt(b) && b.spec_lt(c) ==> a.spec_lt(c),
        a.spec_lt(b) && b == c ==> a.spec_lt(c),
        !a.spec_lt(b) && !b.spec_lt(a) ==> a == b,
        a.spec_lt(b) ==> !b.spec_lt(a),
{
    crate::value::lemma_cmp_by_score(a, b);
    crate::value::lemma_cmp_by_score(b, a);
    crate::value::lemma_cmp_by_score(a, c);
    crate::value::lemma_cmp_by_score(b, c);
}

/// `Lose(2)` is the least value and `Win(1)` the greatest.
proof fn lemma_extremes(a: BoardValue)
    requires
        a.spec_kind() != BoardValueKind::Finished,
    ensures
        !a.spec_lt(claim(2)),
        !(claim(1)).spec_lt(a),
        a != claim(1) ==> a.spec_lt(claim(1)),
        a != claim(2) ==> (claim(2)).spec_lt(a),
{
    crate::value::lemma_cmp_by_score(a, claim(2));
    crate::value::lemma_cmp_by_score(a, claim(1));
}

/// The depth-bounded fold never goes below its starting value.
proof fn lemma_tree_fold_ge(
    graph: BoardGraph,
    board: Board,
    player: Color,
    d: nat,
    rule: GameRule,
    i: nat,
    acc: BoardValue,
)
    requires
        1 <= d < usize::MAX,
        value_within(acc, 2, (d + 1) as int),
    ensures
        !tree_best_from(graph, board, player, d, rule, i, acc).spec_lt(acc),
        value_within(tree_best_from(graph, board, player, d, rule, i, acc), 1, (d + 1) as int),
    decreases spec_steps(graph, board, player, rule).len() - i,
{
    lemma_tree_best_bound(graph, board, player, d, rule, i, acc);
    let s = spec_steps(graph, board, player, rule);
    let r = tree_best_from(graph, board, player, d, rule, i, acc);
    if i < s.len() {
        let step = s[i as int];
        match step.2 {
            NextBoardStatus::Win => {
                lemma_extremes(acc);
            },
            NextBoardStatus::Lose => {
                lemma_tree_fold_ge(graph, board, player, d, rule, i + 1, acc);
            },
            NextBoardStatus::Unknown => {
                let child = if d <= 1 {
                    BoardValue { value: None }
                } else {
                    tree_best_from(graph, step.1, player.spec_toggle(), (d - 1) as nat, rule, 0, claim(2))
                };
                if d > 1 {
                    lemma_tree_best_bound(graph, step.1, player.spec_toggle(), (d - 1) as nat, rule, 0, claim(2));
                }
                let c = child.spec_increment();
                let next = if acc.spec_lt(c) { c } else { acc };
                lemma_tree_fold_ge(graph, board, player, d, rule, i + 1, next);
                lemma_order_facts(r, next, acc);
                lemma_order_facts(next, acc, r);
                lemma_order_facts(acc, c, r);
            },
        }
    } else {
        lemma_order_facts(acc, acc, acc);
    }
}

/// Against the claim `Win(1)`, comparison and the depth-bounded value agree.
proof fn lemma_agree_win_one(
    graph: BoardGraph,
    board: Board,
    player: Color,
    d: nat,
    rule: GameRule,
    i: nat,
    acc: BoardValue,
)
    requires
        1 <= d < usize::MAX,
        value_within(acc, 2, (d + 1) as int),
    ensures
        Some(compare_from(graph, board, 1, player, rule, i, Ordering::Less)) == tree_best_from(
            graph,
            board,
            player,
            d,
            rule,
            i,
            acc,
        ).spec_partial_cmp(claim(1)),
    decreases spec_steps(graph, board, player, rule).len() - i,
{
    let s = spec_steps(graph, board, player, rule);
    if i < s.len() {
        let step = s[i as int];
        match step.2 {
            NextBoardStatus::Win => {},
            NextBoardStatus::Lose => {
                lemma_agree_win_one(graph, board, player, d, rule, i + 1, acc);
            },
            NextBoardStatus::Unknown => {
                let child = if d <= 1 {
                    BoardValue { value: None }
                } else {
                    tree_best_from(graph, step.1, player.spec_toggle(), (d - 1) as nat, rule, 0, claim(2))
                };
                if d > 1 {
                    lemma_tree_best_bound(graph, step.1, player.spec_toggle(), (d - 1) as nat, rule, 0, claim(2));
                }
                let c = child.spec_increment();
                let next = if acc.spec_lt(c) { c } else { acc };
                lemma_agree_win_one(graph, board, player, d, rule, i + 1, next);
            },
        }
    } else {
        lemma_extremes(acc);
    }
}

/// For a claim of `n >= 2` turns, the comparison from the `i`-th step with
/// verdict `cacc` and the depth-bounded fold from the `i`-th step with best
/// value `tacc` agree, when the two accumulators agree so far.
proof fn lemma_agree_fold(
    graph: BoardGraph,
    board: Board,
    player: Color,
    d: nat,
    rule: GameRule,
    n: nat,
    i: nat,
    tacc: BoardValue,
    cacc: Ordering,
    seen: bool,
)
    requires
        2 <= n <= d < usize::MAX - 1,
        is_live(graph, board, player, d, rule),
        value_within(tacc, 2, (d + 1) as int),
        cacc != Ordering::Greater,
        cacc == Ordering::Equal ==> tacc == claim(n),
        cacc == Ordering::Less && seen ==> tacc.spec_lt(claim(n)),
        cacc == Ordering::Less && !seen ==> tacc == claim(2),
        !seen ==> forall|j: int| 0 <= j < i ==> #[trigger] spec_steps(graph, board, player, rule)[j].2 == NextBoardStatus::Lose,
        i <= spec_steps(graph, board, player, rule).len(),
    ensures
        Some(compare_from(graph, board, n, player, rule, i, cacc)) == tree_best_from(
            graph,
            board,
            player,
            d,
            rule,
            i,
            tacc,
        ).spec_partial_cmp(claim(n)),
    decreases d, spec_steps(graph, board, player, rule).len() - i,
{
    let s = spec_steps(graph, board, player, rule);
    let cl = claim(n);
    if i < s.len() {
        let step = s[i as int];
        match step.2 {
            NextBoardStatus::Win => {
                lemma_extremes(cl);
            },
            NextBoardStatus::Lose => {
                lemma_agree_fold(graph, board, player, d, rule, n, i + 1, tacc, cacc, seen);
            },
            NextBoardStatus::Unknown => {
                let op = player.spec_toggle();
                let d1 = (d - 1) as nat;
                let two = claim(2);
                assert(is_live(graph, step.1, op, d1, rule));
                let child = tree_best_from(graph, step.1, op, d1, rule, 0, two);
                lemma_tree_best_bound(graph, step.1, op, d1, rule, 0, two);
                let cc = compare_from(graph, step.1, (n - 1) as nat, op, rule, 0, Ordering::Less);
                if n == 2 {
                    lemma_agree_win_one(graph, step.1, op, d1, rule, 0, two);
                } else {
                    lemma_agree_fold(graph, step.1, op, d1, rule, (n - 1) as nat, 0, two, Ordering::Less, false);
                }
                assert(Some(cc) == child.spec_partial_cmp(claim((n - 1) as nat)));
                lemma_increment_reverses(child, claim((n - 1) as nat));
                assert(claim((n - 1) as nat).spec_increment() == cl);
                let c = child.spec_increment();
                let e = ord_reverse(cc);
                assert(c.spec_partial_cmp(cl) == Some(e));
                let next = if tacc.spec_lt(c) { c } else { tacc };
                lemma_order_facts(c, cl, tacc);
                lemma_order_facts(tacc, cl, c);
                lemma_order_facts(tacc, c, cl);
                lemma_order_facts(cl, c, tacc);
                lemma_extremes(c);
                lemma_extremes(cl);
                if cc == Ordering::Less {
                    lemma_tree_fold_ge(graph, board, player, d, rule, i + 1, next);
                    let r = tree_best_from(graph, board, player, d, rule, i + 1, next);
                    lemma_order_facts(cl, c, next);
                    lemma_order_facts(cl, next, r);
                    lemma_order_facts(next, r, cl);
                    lemma_order_facts(c, next, r);
                    lemma_order_facts(cl, r, r);
                } else {
                    let cacc2 = ord_max(cacc, e);
                    lemma_agree_fold(graph, board, player, d, rule, n, i + 1, next, cacc2, true);
                }
            },
        }
    } else {
        lemma_order_facts(tacc, cl, cl);
        if cacc == Ordering::Less && !seen {
            let k = choose|k: int| 0 <= k < s.len() && #[trigger] s[k].2 != NextBoardStatus::Lose;
            assert(s[k].2 == NextBoardStatus::Lose);
        }
    }
}

/// The depth-bounded value of a live position is never more than `d` turns
/// away.
proof fn lemma_live_bound(
    graph: BoardGraph,
    board: Board,
    player: Color,
    d: nat,
    rule: GameRule,
    i: nat,
    acc: BoardValue,
    seen: bool,
)
    requires
        1 <= d < usize::MAX,
        is_live(graph, board, player, d, rule),
        value_within(acc, 2, (d + 1) as int),
        seen ==> value_within(acc, 1, d as int),
        !seen ==> acc == claim(2),
        !seen ==> forall|j: int| 0 <= j < i ==> #[trigger] spec_steps(graph, board, player, rule)[j].2 == NextBoardStatus::Lose,
        i <= spec_steps(graph, board, player, rule).len(),
    ensures
        value_within(tree_best_from(graph, board, player, d, rule, i, acc), 1, d as int),
    decreases d, spec_steps(graph, board, player, rule).len() - i,
{
    let s = spec_steps(graph, board, player, rule);
    if i < s.len() {
        let step = s[i as int];
        match step.2 {
            NextBoardStatus::Win => {},
            NextBoardStatus::Lose => {
                lemma_live_bound(graph, board, player, d, rule, i + 1, acc, seen);
            },
            NextBoardStatus::Unknown => {
                let op = player.spec_toggle();
                let two = claim(2);
                let child = if d <= 1 {
                    BoardValue { value: None }
                } else {
                    tree_best_from(graph, step.1, op, (d - 1) as nat, rule, 0, two)
                };
                if d > 1 {
                    assert(is_live(graph, step.1, op, (d - 1) as nat, rule));
                    lemma_live_bound(graph, step.1, op, (d - 1) as nat, rule, 0, two, false);
                    lemma_tree_best_bound(graph, step.1, op, (d - 1) as nat, rule, 0, two);
                }
                let c = child.spec_increment();
                lemma_extremes(c);
                lemma_order_facts(acc, c, c);
                let next = if acc.spec_lt(c) { c } else { acc };
                lemma_live_bound(graph, board, player, d, rule, i + 1, next, true);
            },
        }
    } else {
        if !seen {
            let k = choose|k: int| 0 <= k < s.len() && #[trigger] s[k].2 != NextBoardStatus::Lose;
            assert(s[k].2 == NextBoardStatus::Lose);
        }
    }
}

/// The two checkmate-tree searches agree on the root: on a position where
/// every position reached within `d` turns has an action that does not lose
/// at once, the decisive value that the search of `d` turns finds is exactly
/// the value that the value-guided search confirms (so that
/// `create_checkmate_tree_with_value` given it succeeds, with that value at
/// its root).
pub proof fn lemma_tree_value_confirmed(
    graph: BoardGraph,
    board: Board,
    player: Color,
    d: nat,
    rule: GameRule,
)
    requires
        d < usize::MAX - 1,
        is_live(graph, board, player, d, rule),
    ensures
        ({
            let v = spec_tree_value(graph, board, player, d, rule);
            v.is_decisive() ==> spec_compare(graph, board, v, player, rule) == Ordering::Equal
        }),
{
    let v = spec_tree_value(graph, board, player, d, rule);
    if d > 0 && v.is_decisive() {
        let two = claim(2);
        lemma_live_bound(graph, board, player, d, rule, 0, two, false);
        let n = v.num();
        assert(v == claim(n));
        if n == 1 {
            lemma_agree_win_one(graph, board, player, d, rule, 0, two);
        } else {
            lemma_agree_fold(graph, board, player, d, rule, n, 0, two, Ordering::Less, false);
        }
        lemma_order_facts(v, v, v);
    }
}

/// The two checkmate-tree searches keep the same lines: on a position where
/// every position reached within `d` turns has an action that does not lose
/// at once, and whose depth-bounded value `v` is decisive, an open action is
/// kept under `v` by the search of `d` turns exactly when the value-guided
/// search for `v` keeps it.
pub proof fn lemma_kept_steps_agree(graph: BoardGraph, board: Board, player: Color, d: nat, rule: GameRule)
    requires
        d < usize::MAX - 1,
        is_live(graph, board, player, d, rule),
    ensures
        ({
            let v = spec_tree_value(graph, board, player, d, rule);
            let s = spec_steps(graph, board, player, rule);
            v.is_decisive() ==> forall|j: int|
                0 <= j < s.len() ==> (tree_step_kept(#[trigger] s[j], graph, player, d, rule, v)
                    == guided_step_kept(s[j], graph, player, rule, v))
        }),
{
    let v = spec_tree_value(graph, board, player, d, rule);
    let s = spec_steps(graph, board, player, rule);
    if d > 0 && v.is_decisive() {
        lemma_live_bound(graph, board, player, d, rule, 0, claim(2), false);
        let n = v.num();
        assert(v == claim(n));
        assert forall|j: int| 0 <= j < s.len() implies (tree_step_kept(#[trigger] s[j], graph, player, d, rule, v)
            == guided_step_kept(s[j], graph, player, rule, v)) by {
            if s[j].2 == NextBoardStatus::Unknown {
                let op = player.spec_toggle();
                let d1 = (d - 1) as nat;
                assert(is_live(graph, s[j].1, op, d1, rule));
                let t = spec_tree_value(graph, s[j].1, op, d1, rule);
                lemma_tree_value_bound(graph, s[j].1, op, d1, rule);
                if n >= 2 {
                    if n == 2 {
                        lemma_agree_win_one(graph, s[j].1, op, d1, rule, 0, claim(2));
                    } else {
                        lemma_agree_fold(graph, s[j].1, op, d1, rule, (n - 1) as nat, 0, claim(2), Ordering::Less, false);
                    }
                    lemma_order_facts(t, claim((n - 1) as nat), t);
                    assert(claim((n - 1) as nat).spec_increment() == v);
                    if t.spec_increment() == v {
                        assert(t == claim((n - 1) as nat));
                    }
                }
            }
        }
    }
}

} // verus!
