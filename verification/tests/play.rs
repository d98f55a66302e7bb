use ttfff::logic::{Board, Game, GameMove, Place, PlaceIdx, Player, Sym};
use ttfff::play::{
    choose_smart_move, detect_winning_lines, AiDifficulty, GameOutcome, GameStats, Score, Session,
    WinningLine,
};

fn lines() -> Vec<[usize; 3]> {
    vec![[0, 1, 2], [3, 4, 5], [6, 7, 8], [0, 3, 6], [1, 4, 7], [2, 5, 8], [0, 4, 8], [2, 4, 6]]
}

fn mv(who: Player, i: u8, s: Sym) -> GameMove {
    GameMove { who, place: PlaceIdx(i), drawn_symbol: s }
}

#[test]
fn new_session() {
    let s = Session::new(lines());
    assert_eq!(s.game(), Game::xs_starts());
    assert_eq!(s.history(), &[Game::xs_starts()]);
    assert_eq!(s.possible_moves().len(), 18);
    assert_eq!(s.move_count(), 0);
    assert_eq!(s.outcome(), None);
    assert_eq!(s.last_move(), None);
    assert_eq!(s.hovered_move(), None);
    assert_eq!(s.stats(), GameStats::default());
    assert!(s.winning_lines().is_empty());
    assert_eq!(s.ai_player(), None);
    assert!(!s.ai_thinking());
}

#[test]
fn click_and_undo() {
    let mut s = Session::new(lines());
    let m = mv(Player::XS, 4, Sym::X);
    s.handle_move_click(m, None);
    assert_eq!(s.game().board.places[4], Place::OnePlaced(Sym::X));
    assert_eq!(s.game().whos_next, Player::OT);
    assert_eq!(s.move_count(), 1);
    assert_eq!(s.history().len(), 2);
    assert_eq!(s.last_move(), Some(m));
    assert_eq!(s.possible_moves().len(), 17);
    assert_eq!(s.outcome(), None);
    // a refused move changes nothing
    s.handle_move_click(mv(Player::OT, 4, Sym::O), None);
    assert_eq!(s.move_count(), 1);
    // not the mover's turn, index out of range: nothing happens
    s.handle_move_click(mv(Player::XS, 200, Sym::X), None);
    assert_eq!(s.move_count(), 1);
    s.undo_move();
    assert_eq!(s.game(), Game::xs_starts());
    assert_eq!(s.move_count(), 0);
    assert_eq!(s.history().len(), 1);
    assert_eq!(s.last_move(), None);
    assert_eq!(s.possible_moves().len(), 18);
    // nothing to undo
    s.undo_move();
    assert_eq!(s.history().len(), 1);
}

fn fill_board(s: &mut Session, winner: Option<Player>) {
    for i in 0..9u8 {
        for k in 0..2 {
            let who = s.game().whos_next;
            s.handle_move_click(mv(who, i, who.symbols()[k]), winner);
        }
    }
}

#[test]
fn the_last_click_ends_the_game() {
    let mut s = Session::new(lines());
    // no end while moves remain
    s.check_for_game_end(Some(Player::XS));
    assert_eq!(s.outcome(), None);
    fill_board(&mut s, Some(Player::OT));
    assert!(s.possible_moves().is_empty());
    assert_eq!(s.move_count(), 18);
    assert_eq!(s.outcome(), Some(GameOutcome::Winner(Player::OT)));
    assert_eq!(s.stats().games_played, 1);
    assert_eq!(s.stats().ot_wins, 1);
    assert_eq!(s.stats().xs_wins, 0);
    // X and T everywhere: all eight lines, for each of the two symbols
    assert_eq!(s.winning_lines().len(), 16);
    assert_eq!(
        s.winning_lines()[0],
        WinningLine { indices: [0, 1, 2], symbol: Sym::X, player: Player::XS }
    );
    assert_eq!(
        s.winning_lines()[8],
        WinningLine { indices: [0, 1, 2], symbol: Sym::T, player: Player::OT }
    );
    // a finished game takes no more moves
    s.handle_move_click(mv(Player::XS, 0, Sym::X), None);
    assert_eq!(s.move_count(), 18);
    // undo reopens the game and clears its winning lines; the count stays
    s.undo_move();
    assert_eq!(s.outcome(), None);
    assert!(s.winning_lines().is_empty());
    assert_eq!(s.move_count(), 17);
    assert_eq!(s.stats().games_played, 1);
    s.new_game();
    assert_eq!(s.game(), Game::xs_starts());
    assert_eq!(s.outcome(), None);
    assert!(s.winning_lines().is_empty());
    assert_eq!(s.stats().games_played, 1);
    s.reset_stats();
    assert_eq!(s.stats(), GameStats::default());
}

#[test]
fn draw_is_counted() {
    let mut s = Session::new(lines());
    fill_board(&mut s, None);
    assert_eq!(s.outcome(), Some(GameOutcome::Draw));
    assert_eq!(s.stats().draws, 1);
}

#[test]
fn winning_lines_of_a_board() {
    let mut places = [Place::Empty; 9];
    places[0] = Place::TwoPlaced(Sym::O, Sym::S);
    places[4] = Place::OnePlaced(Sym::O);
    places[8] = Place::TwoPlaced(Sym::T, Sym::O);
    let g = Game { whos_next: Player::XS, board: Board { places } };
    assert!(places[8].contains(Sym::O));
    assert!(!places[8].contains(Sym::S));
    assert!(!Place::Empty.contains(Sym::X));
    assert_eq!(
        detect_winning_lines(&g, &lines()),
        vec![WinningLine { indices: [0, 4, 8], symbol: Sym::O, player: Player::OT }]
    );
    assert!(detect_winning_lines(&Game::xs_starts(), &lines()).is_empty());
}

#[test]
fn smart_choice() {
    let g = Game::xs_starts();
    let moves = vec![mv(Player::XS, 1, Sym::X), mv(Player::XS, 4, Sym::X), mv(Player::XS, 0, Sym::S)];
    // equal scores: the centre's bonus wins
    let even = vec![Score { xs: 0, ot: 0 }; 3];
    assert_eq!(choose_smart_move(&g, &moves, &even), moves[1]);
    // own points count 100, the opponent's 80
    let scores = vec![Score { xs: 1, ot: 0 }, Score { xs: 0, ot: 0 }, Score { xs: 1, ot: 1 }];
    assert_eq!(choose_smart_move(&g, &moves, &scores), moves[0]);
    // a tie goes to the first
    let tie = vec![Score { xs: 0, ot: 0 }, Score { xs: 0, ot: 0 }, Score { xs: 0, ot: 0 }];
    let corners = vec![mv(Player::XS, 0, Sym::X), mv(Player::XS, 2, Sym::X), mv(Player::XS, 1, Sym::X)];
    assert_eq!(choose_smart_move(&g, &corners, &tie), corners[0]);
    // for OT the roles are swapped
    let h = Game::ot_starts();
    let om = vec![mv(Player::OT, 1, Sym::O), mv(Player::OT, 3, Sym::T)];
    let os = vec![Score { xs: 0, ot: 1 }, Score { xs: 1, ot: 3 }];
    assert_eq!(choose_smart_move(&h, &om, &os), om[1]);
    // refused moves are passed over; with none accepted the first is returned
    let refused = vec![mv(Player::OT, 1, Sym::O), mv(Player::OT, 2, Sym::O)];
    assert_eq!(choose_smart_move(&g, &refused, &even[0..2]), refused[0]);
}

#[test]
fn computer_moves() {
    let mut s = Session::new(lines());
    let scores = vec![Score { xs: 0, ot: 0 }; 18];
    let winners = vec![None; 18];
    // no computer player: nothing happens
    s.try_ai_move(&scores, &winners);
    assert_eq!(s.move_count(), 0);
    s.set_ai_player(Some((Player::XS, AiDifficulty::Random)));
    s.try_ai_move(&scores, &winners);
    // move count 0: the first move on offer
    assert_eq!(s.last_move(), Some(mv(Player::XS, 0, Sym::X)));
    assert_eq!(s.move_count(), 1);
    // not the computer's turn
    let scores17 = vec![Score { xs: 0, ot: 0 }; 17];
    let winners17 = vec![None; 17];
    s.try_ai_move(&scores17, &winners17);
    assert_eq!(s.move_count(), 1);
    s.handle_move_click(mv(Player::OT, 1, Sym::O), None);
    // move count 2: index (2 * 7919) % 17 = 11
    let offered = s.possible_moves().to_vec();
    assert_eq!(offered.len(), 17);
    s.try_ai_move(&scores17, &winners17);
    assert_eq!(s.last_move(), Some(offered[11]));
    // the smart player takes the centre when scores are even
    s.new_game();
    assert_eq!(s.ai_player(), Some((Player::XS, AiDifficulty::Random)));
    s.set_ai_player(Some((Player::XS, AiDifficulty::Smart)));
    s.try_ai_move(&scores, &winners);
    assert_eq!(s.last_move(), Some(mv(Player::XS, 4, Sym::X)));
}
