use tokyodoves::board::{Action, Board, BoardGraph, SurroundedStatus};
use tokyodoves::game::{
    Agent, AnalystAgent, Arena, Game, GameError, GameRule, GameStatus, Judge, RandomAgent,
};
use tokyodoves::loader::{Fragment, FragmentIter, LazyBoardLoader, LazyRawBoardLoader};
use tokyodoves::pieces::{color_dove_to_char, try_char_to_color_dove, Color, Dove};
use tokyodoves::position::{ColorDovePositions, DovePositions};

fn small_game() -> (BoardGraph, Board, Board, Board) {
    let mut g = BoardGraph::new();
    let start = g.add_board(SurroundedStatus::Neither);
    let mid = g.add_board(SurroundedStatus::Neither);
    let end = g.add_board(SurroundedStatus::OneSide(Color::Green));
    assert!(g.add_action(start, Action::Put(Color::Red, Dove::A, 2), mid));
    assert!(g.add_action(mid, Action::Move(Color::Green, Dove::B, 4), start));
    assert!(g.add_action(mid, Action::Remove(Color::Green, Dove::A), end));
    (g, start, mid, end)
}

#[test]
fn game_plays_until_a_boss_is_surrounded() {
    let (g, start, mid, end) = small_game();
    let mut game = Game::new(true);
    assert_eq!(*game.board(), start);
    assert_eq!(*game.next_player(), Color::Red);
    assert_eq!(game.legal_actions(&g), vec![Action::Put(Color::Red, Dove::A, 2)]);
    assert_eq!(
        game.perform(&g, Action::Move(Color::Green, Dove::B, 4)),
        Err(GameError::PlayerMismatch)
    );
    assert_eq!(
        game.perform(&g, Action::Put(Color::Red, Dove::B, 8)),
        Err(GameError::IllegalAction(Action::Put(Color::Red, Dove::B, 8)))
    );
    assert_eq!(game.perform(&g, Action::Put(Color::Red, Dove::A, 2)), Ok(()));
    assert_eq!(*game.board(), mid);
    assert_eq!(*game.next_player(), Color::Green);
    assert_eq!(game.perform(&g, Action::Remove(Color::Green, Dove::A)), Ok(()));
    assert_eq!(*game.board(), end);
    // Green surrounded its own boss: Red wins.
    assert_eq!(*game.status(), GameStatus::Win(Color::Red));
    assert_eq!(game.winner(), Some(Color::Red));
    assert!(!game.is_ongoing());
    assert_eq!(
        game.perform(&g, Action::Move(Color::Green, Dove::B, 4)),
        Err(GameError::GameFinished(GameStatus::Win(Color::Red)))
    );
    game.reset();
    assert_eq!(*game.board(), start);
    assert!(game.is_ongoing());
}

#[test]
fn removal_can_be_refused() {
    let (g, _, mid, _) = small_game();
    let rule = GameRule::new(false);
    let mut game = Game::new_with_rule(rule.with_first_player(Color::Green).with_initial_board(&g, mid).unwrap());
    assert_eq!(game.legal_actions(&g), vec![Action::Move(Color::Green, Dove::B, 4)]);
    assert_eq!(
        game.perform(&g, Action::Remove(Color::Green, Dove::A)),
        Err(GameError::ProhibitedRemove(Action::Remove(Color::Green, Dove::A)))
    );
}

#[test]
fn rule_builders() {
    let (g, _, _, end) = small_game();
    let rule = GameRule::default();
    assert!(*rule.is_remove_accepted());
    assert_eq!(*rule.first_player(), Color::Red);
    assert_eq!(*rule.suicide_atk_judge(), Judge::NextWins);
    assert_eq!(*rule.initial_board(), Board::new());
    let rule = rule.with_is_remove_accepted(false).with_suicide_atk_judge(Judge::Draw);
    assert!(!*rule.is_remove_accepted());
    assert_eq!(*rule.suicide_atk_judge(), Judge::Draw);
    assert_eq!(rule.with_initial_board(&g, end), Err(GameError::InitialBoardError));
}

#[test]
fn double_surround_follows_the_judge() {
    let mut g = BoardGraph::new();
    let start = g.add_board(SurroundedStatus::Neither);
    let both = g.add_board(SurroundedStatus::Both);
    let a = Action::Move(Color::Red, Dove::T, 1);
    assert!(g.add_action(start, a, both));
    for (judge, status) in [
        (Judge::LastWins, GameStatus::Win(Color::Red)),
        (Judge::NextWins, GameStatus::Win(Color::Green)),
        (Judge::Draw, GameStatus::Draw),
    ] {
        let mut game = Game::new_with_rule(GameRule::new(true).with_suicide_atk_judge(judge));
        assert_eq!(game.perform(&g, a), Ok(()));
        assert_eq!(*game.status(), status);
    }
}

#[test]
fn agents_play_in_an_arena() {
    let (g, _, _, _) = small_game();
    let mut random = RandomAgent::new();
    let actions = vec![Action::Put(Color::Red, Dove::A, 2), Action::Put(Color::Red, Dove::A, 4)];
    assert_eq!(random.pick(&actions), Some(actions[0]));
    assert_eq!(random.pick(&vec![]), None);
    let mut game = Game::new(true);
    random.play(&g, &mut game);
    assert_eq!(*game.next_player(), Color::Green);
    // The game can cycle, so no search finds an exact value here.
    let analyst = AnalystAgent::new(3, true);
    assert_eq!(analyst.about_to_end(&g, &game), None);
    assert_eq!(AnalystAgent::new(3, false).about_to_end(&g, &game), None);
    let mut analyst = AnalystAgent::new(3, false);
    let mut probe = game;
    analyst.play(&g, &mut probe);
    assert_eq!(*probe.board(), Board::new());
    let mut arena = Arena::new(RandomAgent::new(), RandomAgent::new(), Game::new(true));
    let mut turns = 0;
    while arena.play_turn(&g) {
        turns += 1;
        assert!(turns < 10);
    }
    assert_eq!(arena.game.winner(), Some(Color::Red));
}

#[test]
fn pieces_and_letters() {
    assert_eq!(color_dove_to_char(Color::Red, Dove::H), 'H');
    assert_eq!(color_dove_to_char(Color::Green, Dove::M), 'm');
    assert_eq!(try_char_to_color_dove('y'), Some((Color::Green, Dove::Y)));
    assert_eq!(try_char_to_color_dove('x'), None);
    assert_eq!(Color::Red.toggle(), Color::Green);
}

#[test]
fn dove_positions() {
    let red = DovePositions::new([1, 2, 0, 0, 16, 0]);
    let green = DovePositions::new([32, 0, 0, 64, 0, 0]);
    let mut p = ColorDovePositions::new([red, green]);
    assert_eq!(p.union(), 1 | 2 | 16 | 32 | 64);
    assert_eq!(p.union_in_color(Color::Green), 96);
    assert_eq!(p.union_except(Color::Red, Dove::T), 1 | 2 | 32 | 64);
    assert_eq!(*p.position_of(Color::Red, Dove::A), 2);
    assert_eq!(p.doves_in_hand(Color::Red).hash, 0b101100);
    assert_eq!(p.doves_on_field(Color::Red).hash, 0b010011);
    assert!(p.doves_on_field(Color::Green).contains(Dove::M));
    p.set_position(Color::Green, Dove::H, 128);
    assert_eq!(*p.position_of(Color::Green, Dove::H), 128);
    p.swap_color();
    assert_eq!(*p.position_of(Color::Red, Dove::H), 128);
    assert_eq!(p.dove_positions(Color::Green).positions, [1, 2, 0, 0, 16, 0]);
}

#[test]
fn loaders_read_words() {
    let bytes = vec![0, 0, 0, 1, 0, 0, 0, 2, 0, 0, 0, 3, 255, 255, 255, 255, 0, 0, 0, 7, 0, 0, 0, 9, 1];
    let mut it = FragmentIter::new(bytes.clone());
    assert_eq!(it.try_next(), Some(Fragment::Top(1)));
    assert_eq!(it.try_next(), Some(Fragment::Bottom(2)));
    assert_eq!(it.try_next(), Some(Fragment::Bottom(3)));
    assert_eq!(it.try_next(), Some(Fragment::Delimiter));
    assert_eq!(it.try_next(), Some(Fragment::Top(7)));
    assert_eq!(it.try_next(), Some(Fragment::Bottom(9)));
    assert_eq!(it.try_next(), None);
    let mut raw = LazyRawBoardLoader::new(bytes.clone());
    assert_eq!(raw.try_next(), Some(0x1_0000_0002));
    assert_eq!(raw.try_next(), Some(0x1_0000_0003));
    assert_eq!(raw.try_next(), Some(0x7_0000_0009));
    assert_eq!(raw.try_next(), None);
    let mut boards = LazyBoardLoader::new(bytes);
    assert_eq!(boards.try_next(), Some(Board::from_u64(0x1_0000_0002)));
    assert_eq!(boards.raw().top, 0x1_0000_0000);
    let _ = boards.into_raw();
}
