use std::cmp::Ordering;
use tokyodoves::analysis::{
    compare_board_value, create_checkmate_tree, create_checkmate_tree_with_value, evaluate_board,
    find_best_actions, ArgsValidationError, BoardValue, CreateCheckmateTreeWithValueError,
    Interval,
};
use tokyodoves::board::{Action, Board, BoardGraph, SurroundedStatus};
use tokyodoves::game::{GameRule, Judge};
use tokyodoves::pieces::{Color, Dove};

fn red(bit: u64) -> Action {
    Action::Move(Color::Red, Dove::B, bit)
}

fn green(bit: u64) -> Action {
    Action::Move(Color::Green, Dove::B, bit)
}

fn rule() -> GameRule {
    GameRule::new(true).with_suicide_atk_judge(Judge::NextWins)
}

/// Red to move at the root; `a1` forces a win in three turns, `a2` lets
/// Green escape.
fn mate_in_three() -> (BoardGraph, Board, Action, Action) {
    let mut g = BoardGraph::new();
    let root = g.add_board(SurroundedStatus::Neither);
    let x = g.add_board(SurroundedStatus::Neither);
    let y = g.add_board(SurroundedStatus::Neither);
    let x1 = g.add_board(SurroundedStatus::Neither);
    let x2 = g.add_board(SurroundedStatus::Neither);
    let won = g.add_board(SurroundedStatus::OneSide(Color::Green));
    let y1 = g.add_board(SurroundedStatus::Neither);
    let y2 = g.add_board(SurroundedStatus::Neither);
    let a1 = red(1);
    let a2 = red(2);
    assert!(g.add_action(root, a1, x));
    assert!(g.add_action(root, a2, y));
    assert!(g.add_action(x, green(3), x1));
    assert!(g.add_action(x, green(4), x2));
    assert!(g.add_action(x1, red(5), won));
    assert!(g.add_action(x2, red(6), won));
    assert!(g.add_action(y, green(7), y1));
    assert!(g.add_action(y1, red(8), y2));
    (g, root, a1, a2)
}

/// Red to move; every move either loses at once or lets Green win at once.
fn lose_in_two() -> (BoardGraph, Board, Action, Action, Action) {
    let mut g = BoardGraph::new();
    let root = g.add_board(SurroundedStatus::Neither);
    let a = g.add_board(SurroundedStatus::Neither);
    let b = g.add_board(SurroundedStatus::Neither);
    let lost = g.add_board(SurroundedStatus::OneSide(Color::Red));
    let m1 = red(1);
    let m2 = red(2);
    let m3 = red(3);
    assert!(g.add_action(root, m1, a));
    assert!(g.add_action(root, m2, b));
    assert!(g.add_action(root, m3, lost));
    assert!(g.add_action(a, green(4), lost));
    assert!(g.add_action(b, green(5), lost));
    (g, root, m1, m2, m3)
}

#[test]
fn mate_in_three_evaluates_to_win_three() {
    let (g, root, _, _) = mate_in_three();
    for depth in 3..8 {
        let iv = evaluate_board(&g, root, Color::Red, depth, rule()).unwrap();
        assert_eq!(iv.single(), Some(BoardValue::win(3).unwrap()));
    }
}

#[test]
fn mate_in_three_best_actions() {
    let (g, root, a1, _) = mate_in_three();
    let best = find_best_actions(&g, root, Color::Red, 3, rule()).unwrap();
    assert_eq!(best, vec![a1]);
}

#[test]
fn mate_in_three_compare() {
    let (g, root, _, _) = mate_in_three();
    let cmp = |n: usize| {
        compare_board_value(&g, root, BoardValue::from(Some(n)), Color::Red, rule()).unwrap()
    };
    assert_eq!(cmp(3), Ordering::Equal);
    assert_eq!(cmp(1), Ordering::Less);
    assert_eq!(cmp(2), Ordering::Greater);
    assert_eq!(cmp(5), Ordering::Greater);
}

#[test]
fn mate_in_three_trees() {
    let (g, root, a1, a2) = mate_in_three();
    let tree = create_checkmate_tree(&g, root, Color::Red, 3, rule()).unwrap();
    assert_eq!(*tree.value(), BoardValue::win(3).unwrap());
    assert_eq!(tree.actions(), vec![a1]);
    assert!(tree.child(&a2).is_none());
    assert!(tree.is_good_for_puzzle(1));
    let child = tree.child(&a1).unwrap();
    assert_eq!(*child.player(), Color::Green);
    assert_eq!(*child.value(), BoardValue::lose(2).unwrap());
    assert_eq!(child.actions().len(), 2);

    let tree2 =
        create_checkmate_tree_with_value(&g, root, BoardValue::win(3).unwrap(), Color::Red, rule())
            .unwrap();
    assert_eq!(*tree2.value(), *tree.value());
    assert_eq!(tree2.actions(), vec![a1]);
    assert_eq!(tree2.board(), root);
}

#[test]
fn mismatched_claim_reports_direction() {
    let (g, root, _, _) = mate_in_three();
    let r = create_checkmate_tree_with_value(&g, root, BoardValue::win(5).unwrap(), Color::Red, rule());
    assert!(matches!(
        r,
        Err(CreateCheckmateTreeWithValueError::ValueMismatchError(Ordering::Greater))
    ));
    let r = create_checkmate_tree_with_value(&g, root, BoardValue::win(1).unwrap(), Color::Red, rule());
    assert!(matches!(
        r,
        Err(CreateCheckmateTreeWithValueError::ValueMismatchError(Ordering::Less))
    ));
}

#[test]
fn forced_loss_in_two() {
    let (g, root, m1, m2, m3) = lose_in_two();
    let iv = evaluate_board(&g, root, Color::Red, 4, rule()).unwrap();
    assert_eq!(iv.single(), Some(BoardValue::lose(2).unwrap()));
    let tree = create_checkmate_tree(&g, root, Color::Red, 2, rule()).unwrap();
    assert_eq!(*tree.value(), BoardValue::lose(2).unwrap());
    let actions = tree.actions();
    assert_eq!(actions.len(), 2);
    assert!(actions.contains(&m1));
    assert!(actions.contains(&m2));
    assert!(!actions.contains(&m3));
    assert_eq!(*tree.child(&m1).unwrap().value(), BoardValue::win(1).unwrap());
}

#[test]
fn depth_zero_gives_loosest_interval() {
    let (g, root, _, _) = mate_in_three();
    let iv = evaluate_board(&g, root, Color::Red, 0, rule()).unwrap();
    assert_eq!(iv, Interval::new(BoardValue::lose(2).unwrap(), BoardValue::win(1).unwrap()));
    assert_eq!(iv.single(), None);
    assert!(iv.contains(&BoardValue::unknown()));
    assert!(!iv.contains(&BoardValue::finished()));
}

#[test]
fn horizon_interval_by_parity() {
    let (g, root, _, _) = mate_in_three();
    let iv = evaluate_board(&g, root, Color::Red, 2, rule()).unwrap();
    assert_eq!(*iv.left(), BoardValue::lose(4).unwrap());
    assert_eq!(*iv.right(), BoardValue::win(3).unwrap());
    let iv = evaluate_board(&g, root, Color::Red, 1, rule()).unwrap();
    assert_eq!(*iv.left(), BoardValue::lose(2).unwrap());
    assert_eq!(*iv.right(), BoardValue::win(3).unwrap());
}

#[test]
fn depth_zero_best_actions_are_all_legal() {
    let (g, root, a1, a2) = mate_in_three();
    let best = find_best_actions(&g, root, Color::Red, 0, rule()).unwrap();
    assert_eq!(best, vec![a1, a2]);
}

#[test]
fn depth_zero_tree_is_unknown() {
    let (g, root, _, _) = mate_in_three();
    let tree = create_checkmate_tree(&g, root, Color::Red, 0, rule()).unwrap();
    assert!(tree.value().is_unknown());
    assert!(tree.actions().is_empty());
}

#[test]
fn immediate_win_is_win_one() {
    let mut g = BoardGraph::new();
    let root = g.add_board(SurroundedStatus::Neither);
    let open = g.add_board(SurroundedStatus::Neither);
    let both = g.add_board(SurroundedStatus::Both);
    assert!(g.add_action(root, red(1), open));
    assert!(g.add_action(root, red(2), both));
    let last_wins = rule().with_suicide_atk_judge(Judge::LastWins);
    let tree = create_checkmate_tree(&g, root, Color::Red, 3, last_wins).unwrap();
    assert_eq!(*tree.value(), BoardValue::win(1).unwrap());
    assert!(tree.actions().is_empty());
    assert_eq!(find_best_actions(&g, root, Color::Red, 2, last_wins).unwrap(), vec![red(2)]);
    // With the other judge the double surround loses.
    let iv = evaluate_board(&g, root, Color::Red, 1, rule()).unwrap();
    assert_eq!(iv.single(), None);
}

#[test]
fn validation_errors() {
    let (mut g, root, _, _) = mate_in_three();
    let done = g.add_board(SurroundedStatus::Both);
    assert_eq!(
        evaluate_board(&g, done, Color::Red, 3, rule()),
        Err(ArgsValidationError::FinishedBoardError { board: done })
    );
    assert_eq!(
        compare_board_value(&g, root, BoardValue::unknown(), Color::Red, rule()),
        Err(ArgsValidationError::UnsupportedValueError { boad_value: BoardValue::unknown() })
    );
    assert_eq!(
        compare_board_value(&g, root, BoardValue::finished(), Color::Red, rule()),
        Err(ArgsValidationError::UnsupportedValueError { boad_value: BoardValue::finished() })
    );
    let draw = rule().with_suicide_atk_judge(Judge::Draw);
    assert!(matches!(
        create_checkmate_tree(&g, root, Color::Red, 3, draw),
        Err(ArgsValidationError::DrawJudgeError)
    ));
    assert!(matches!(
        find_best_actions(&g, root, Color::Red, 3, draw),
        Err(ArgsValidationError::DrawJudgeError)
    ));
    assert!(matches!(
        create_checkmate_tree_with_value(&g, root, BoardValue::win(3).unwrap(), Color::Red, draw),
        Err(CreateCheckmateTreeWithValueError::ArgsValidationError(
            ArgsValidationError::DrawJudgeError
        ))
    ));
}

#[test]
fn calls_are_repeatable() {
    let (g, root, _, _) = mate_in_three();
    assert_eq!(
        evaluate_board(&g, root, Color::Red, 5, rule()),
        evaluate_board(&g, root, Color::Red, 5, rule())
    );
    assert_eq!(
        find_best_actions(&g, root, Color::Red, 5, rule()),
        find_best_actions(&g, root, Color::Red, 5, rule())
    );
    let v = BoardValue::win(3).unwrap();
    assert_eq!(
        compare_board_value(&g, root, v, Color::Red, rule()),
        compare_board_value(&g, root, v, Color::Red, rule())
    );
    let t1 = create_checkmate_tree(&g, root, Color::Red, 5, rule()).unwrap();
    let t2 = create_checkmate_tree(&g, root, Color::Red, 5, rule()).unwrap();
    assert_eq!(format!("{:?}", t1), format!("{:?}", t2));
    let w1 = create_checkmate_tree_with_value(&g, root, v, Color::Red, rule()).unwrap();
    let w2 = create_checkmate_tree_with_value(&g, root, v, Color::Red, rule()).unwrap();
    assert_eq!(format!("{:?}", w1), format!("{:?}", w2));
}

#[test]
fn evaluation_agrees_with_comparison() {
    let (g, root, _, _) = mate_in_three();
    let (g2, root2, _, _, _) = lose_in_two();
    for (graph, board) in [(&g, root), (&g2, root2)] {
        for depth in 1..6 {
            let iv = evaluate_board(graph, board, Color::Red, depth, rule()).unwrap();
            if let Some(v) = iv.single() {
                assert_eq!(
                    compare_board_value(graph, board, v, Color::Red, rule()),
                    Ok(Ordering::Equal)
                );
            }
        }
    }
}

#[test]
fn guided_tree_confirms_depth_tree_value() {
    let (g, root, _, _) = mate_in_three();
    let (g2, root2, _, _, _) = lose_in_two();
    for (graph, board, depth) in [(&g, root, 3), (&g, root, 6), (&g2, root2, 2), (&g2, root2, 5)] {
        let tree = create_checkmate_tree(graph, board, Color::Red, depth, rule()).unwrap();
        let v = *tree.value();
        let guided = create_checkmate_tree_with_value(graph, board, v, Color::Red, rule()).unwrap();
        assert_eq!(*guided.value(), v);
    }
}

#[test]
fn only_losing_moves_is_not_confirmed() {
    // Every action of Red loses at once: the depth-bounded search says
    // `Lose(2)`, while the comparison finds the board below that claim.
    let mut g = BoardGraph::new();
    let root = g.add_board(SurroundedStatus::Neither);
    let lost = g.add_board(SurroundedStatus::OneSide(Color::Red));
    assert!(g.add_action(root, red(1), lost));
    let tree = create_checkmate_tree(&g, root, Color::Red, 2, rule()).unwrap();
    assert_eq!(*tree.value(), BoardValue::lose(2).unwrap());
    assert_eq!(
        compare_board_value(&g, root, BoardValue::lose(2).unwrap(), Color::Red, rule()),
        Ok(Ordering::Less)
    );
}
