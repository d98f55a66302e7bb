use ttfff::explore::{
    board_is_complete, enumerate, enumerate_from, possible_moves, terminal_states,
};
use ttfff::game_set::{game_key, GameSet};
use ttfff::logic::{Board, Game, GameMove, Place, PlaceIdx, Player, Sym};

fn board_with(prefix: &[Place]) -> Board {
    let mut places = [Place::Empty; 9];
    for (i, p) in prefix.iter().enumerate() {
        places[i] = *p;
    }
    Board { places }
}

fn full() -> Place {
    Place::TwoPlaced(Sym::X, Sym::T)
}

fn symbols(g: &Game) -> usize {
    g.board
        .places
        .iter()
        .map(|p| match p {
            Place::Empty => 0,
            Place::OnePlaced(_) => 1,
            Place::TwoPlaced(_, _) => 2,
        })
        .sum()
}

#[test]
fn possible_moves_at_start() {
    let start = Game::xs_starts();
    let mut acc = Vec::new();
    possible_moves(&start, &mut acc);
    assert_eq!(acc.len(), 18);
    assert_eq!(acc[0], GameMove { who: Player::XS, place: PlaceIdx(0), drawn_symbol: Sym::X });
    assert_eq!(acc[1], GameMove { who: Player::XS, place: PlaceIdx(0), drawn_symbol: Sym::S });
    assert_eq!(acc[17], GameMove { who: Player::XS, place: PlaceIdx(8), drawn_symbol: Sym::S });
}

#[test]
fn possible_moves_appends_in_order() {
    let mut prefix = vec![full(); 7];
    prefix.push(Place::OnePlaced(Sym::O));
    let g = Game { whos_next: Player::XS, board: board_with(&prefix) };
    let sentinel = GameMove { who: Player::OT, place: PlaceIdx(3), drawn_symbol: Sym::T };
    let mut acc = vec![sentinel];
    possible_moves(&g, &mut acc);
    assert_eq!(
        acc,
        vec![
            sentinel,
            GameMove { who: Player::XS, place: PlaceIdx(7), drawn_symbol: Sym::S },
            GameMove { who: Player::XS, place: PlaceIdx(8), drawn_symbol: Sym::X },
            GameMove { who: Player::XS, place: PlaceIdx(8), drawn_symbol: Sym::S },
        ]
    );
    for m in &acc[1..] {
        let h = g.try_move(*m).expect("offered moves are accepted");
        assert_eq!(symbols(&h), symbols(&g) + 1);
    }
}

#[test]
fn no_moves_on_a_full_board() {
    let g = Game { whos_next: Player::OT, board: board_with(&[full(); 9]) };
    let mut acc = Vec::new();
    possible_moves(&g, &mut acc);
    assert!(acc.is_empty());
    assert!(board_is_complete(&g.board));
}

#[test]
fn board_completeness() {
    assert!(!board_is_complete(&Board::default()));
    let mut prefix = vec![full(); 8];
    prefix.push(Place::OnePlaced(Sym::S));
    assert!(!board_is_complete(&board_with(&prefix)));
    assert!(board_is_complete(&board_with(&[Place::TwoPlaced(Sym::O, Sym::O); 9])));
}

#[test]
fn game_set_basics() {
    let mut s = GameSet::new();
    assert!(s.is_empty());
    let a = Game::xs_starts();
    let b = Game::ot_starts();
    assert!(s.insert(a));
    assert!(!s.insert(a));
    assert!(s.contains(&a));
    assert!(!s.contains(&b));
    assert!(s.insert(b));
    assert_eq!(s.len(), 2);
    assert_eq!(s.games(), &[a, b]);
}

#[test]
fn game_keys_tell_games_apart() {
    // the bit code does not tell these apart, the key does
    let g1 = Game { whos_next: Player::XS, board: board_with(&[Place::OnePlaced(Sym::X)]) };
    let g2 = Game { whos_next: Player::XS, board: board_with(&[Place::TwoPlaced(Sym::X, Sym::X)]) };
    assert_eq!(g1.to_bits(), g2.to_bits());
    assert_ne!(game_key(&g1), game_key(&g2));
    let mut s = GameSet::new();
    assert!(s.insert(g1));
    assert!(s.insert(g2));
    assert_eq!(game_key(&Game::xs_starts()), 0);
    assert_eq!(game_key(&Game::ot_starts()), 1u64 << 45);
}

#[test]
fn enumerate_near_the_end() {
    let mut prefix = vec![full(); 7];
    prefix.push(Place::OnePlaced(Sym::O));
    let g = Game { whos_next: Player::XS, board: board_with(&prefix) };
    let all = enumerate(g);
    assert_eq!(all.len(), 24);
    assert!(all.contains(&g));
    let terminal = terminal_states(&all);
    assert_eq!(terminal.len(), 12);
    for t in terminal.games() {
        assert_eq!(t.whos_next, Player::OT);
        assert!(all.contains(t));
        assert_eq!(symbols(t), 18);
    }
}

#[test]
fn enumerate_larger() {
    let g = Game { whos_next: Player::XS, board: board_with(&[full(); 6]) };
    let all = enumerate(g);
    assert_eq!(all.len(), 1401);
    let terminal = terminal_states(&all);
    assert_eq!(terminal.len(), 440);
    assert!(terminal.games().iter().all(|t| t.whos_next == Player::XS));
    let h = Game { whos_next: Player::OT, board: board_with(&[full(); 6]) };
    let mut stack = vec![g, h];
    let mut games = GameSet::new();
    let mut moves = vec![GameMove { who: Player::XS, place: PlaceIdx(0), drawn_symbol: Sym::X }];
    enumerate_from(&mut stack, &mut games, &mut moves);
    assert!(stack.is_empty());
    assert!(moves.is_empty());
    assert_eq!(games.len(), 2802);
    assert_eq!(terminal_states(&games).len(), 880);
}

#[test]
fn enumerate_from_skips_known_states() {
    let mut prefix = vec![full(); 8];
    prefix.push(Place::Empty);
    let g = Game { whos_next: Player::OT, board: board_with(&prefix) };
    let mut games = GameSet::new();
    // a known start is not explored again
    games.insert(g);
    let mut stack = vec![g];
    let mut moves = Vec::new();
    enumerate_from(&mut stack, &mut games, &mut moves);
    assert_eq!(games.len(), 1);
    // from scratch, the same start reaches 5 states, 2 of them terminal
    let all = enumerate(g);
    assert_eq!(all.len(), 5);
    assert_eq!(terminal_states(&all).len(), 2);
}

#[test]
fn terminal_exactly_when_full() {
    let mut prefix = vec![full(); 8];
    prefix.push(Place::OnePlaced(Sym::X));
    for who in [Player::XS, Player::OT] {
        // one symbol on a place always leaves room for one of the mover's
        let g = Game { whos_next: who, board: board_with(&prefix) };
        let mut acc = Vec::new();
        possible_moves(&g, &mut acc);
        assert_eq!(acc.len(), if who == Player::XS { 2 } else { 1 });
        assert!(!board_is_complete(&g.board));
    }
    let all = enumerate(Game { whos_next: Player::XS, board: board_with(&[full(); 6]) });
    for g in all.games() {
        let mut acc = Vec::new();
        possible_moves(g, &mut acc);
        assert_eq!(acc.is_empty(), board_is_complete(&g.board));
    }
}

#[test]
fn try_move_out_of_turn_with_any_index() {
    let g = Game::xs_starts();
    let m = GameMove { who: Player::OT, place: PlaceIdx(200), drawn_symbol: Sym::O };
    assert_eq!(g.try_move(m), None);
}
