use ttfff::logic::{Board, Game, GameMove, Place, PlaceIdx, Player, Sym};

const ALL_SYMS: [Sym; 4] = [Sym::X, Sym::O, Sym::T, Sym::S];

fn all_places() -> Vec<Place> {
    let mut v = vec![Place::Empty];
    for a in ALL_SYMS {
        v.push(Place::OnePlaced(a));
        for b in ALL_SYMS {
            v.push(Place::TwoPlaced(a, b));
        }
    }
    v
}

fn is_canonical(p: Place) -> bool {
    match p {
        Place::TwoPlaced(a, b) => {
            matches!(a, Sym::X | Sym::O) && matches!(b, Sym::T | Sym::S)
        }
        _ => true,
    }
}

#[test]
fn player_other_and_symbols() {
    assert_eq!(Player::XS.other(), Player::OT);
    assert_eq!(Player::OT.other(), Player::XS);
    assert_eq!(Player::XS.other().other(), Player::XS);
    assert_eq!(Player::XS.symbols(), &[Sym::X, Sym::S]);
    assert_eq!(Player::OT.symbols(), &[Sym::O, Sym::T]);
}

#[test]
fn sym_pairs() {
    assert_eq!(Sym::X.excludes(), Sym::O);
    assert_eq!(Sym::O.excludes(), Sym::X);
    assert_eq!(Sym::T.excludes(), Sym::S);
    assert_eq!(Sym::S.excludes(), Sym::T);
    assert_eq!(Sym::X.other(), Sym::T);
    assert_eq!(Sym::T.other(), Sym::X);
    assert_eq!(Sym::O.other(), Sym::S);
    assert_eq!(Sym::S.other(), Sym::O);
    assert_eq!(Sym::X.player(), Player::XS);
    assert_eq!(Sym::S.player(), Player::XS);
    assert_eq!(Sym::O.player(), Player::OT);
    assert_eq!(Sym::T.player(), Player::OT);
    for s in ALL_SYMS {
        assert_eq!(s.excludes().excludes(), s);
        assert_eq!(s.other().other(), s);
        assert_ne!(s.excludes().player(), s.player());
        assert!(s.player().symbols().contains(&s));
    }
}

#[test]
fn combine_rules() {
    assert_eq!(Place::Empty.combine(Sym::T), Some(Place::OnePlaced(Sym::T)));
    assert_eq!(Place::OnePlaced(Sym::X).combine(Sym::O), None);
    assert_eq!(Place::OnePlaced(Sym::X).combine(Sym::S), Some(Place::TwoPlaced(Sym::X, Sym::S)));
    assert_eq!(Place::OnePlaced(Sym::X).combine(Sym::X), Some(Place::TwoPlaced(Sym::X, Sym::X)));
    assert_eq!(Place::OnePlaced(Sym::S).combine(Sym::T), None);
    assert_eq!(Place::OnePlaced(Sym::T).combine(Sym::X), Some(Place::TwoPlaced(Sym::T, Sym::X)));
    assert_eq!(Place::TwoPlaced(Sym::X, Sym::T).combine(Sym::O), None);
    assert_eq!(Place::default(), Place::Empty);
}

#[test]
fn place_idx_conversion() {
    assert_eq!(PlaceIdx::try_from(0u8), Ok(PlaceIdx(0)));
    assert_eq!(PlaceIdx::try_from(8u8), Ok(PlaceIdx(8)));
    assert_eq!(PlaceIdx::try_from(9u8), Err(()));
    assert_eq!(PlaceIdx::try_from(255u8), Err(()));
    assert_eq!(PlaceIdx(7).index(), 7usize);
}

#[test]
fn try_move_accepts_and_refuses() {
    let start = Game::xs_starts();
    assert!(start.board.places.iter().all(|p| *p == Place::Empty));
    let m = GameMove { who: Player::XS, place: PlaceIdx(4), drawn_symbol: Sym::X };
    let g = start.try_move(m).expect("legal move");
    assert_eq!(g.whos_next, Player::OT);
    assert_eq!(g.board.places[4], Place::OnePlaced(Sym::X));
    for i in 0..9 {
        if i != 4 {
            assert_eq!(g.board.places[i], Place::Empty);
        }
    }
    // not the mover's turn
    assert!(g.try_move(m).is_none());
    // an excluded symbol
    let excluded = GameMove { who: Player::OT, place: PlaceIdx(4), drawn_symbol: Sym::O };
    assert!(g.try_move(excluded).is_none());
    // the other pair is fine
    let t = GameMove { who: Player::OT, place: PlaceIdx(4), drawn_symbol: Sym::T };
    let h = g.try_move(t).expect("legal move");
    assert_eq!(h.board.places[4], Place::TwoPlaced(Sym::X, Sym::T));
    assert_eq!(h.whos_next, Player::XS);
    // a full place takes nothing
    let s = GameMove { who: Player::XS, place: PlaceIdx(4), drawn_symbol: Sym::S };
    assert!(h.try_move(s).is_none());
    // the move's symbol is not checked against the mover
    let foreign = GameMove { who: Player::XS, place: PlaceIdx(0), drawn_symbol: Sym::O };
    assert_eq!(h.try_move(foreign).unwrap().board.places[0], Place::OnePlaced(Sym::O));
}

#[test]
fn place_bits_values() {
    assert_eq!(Place::Empty.to_bits(), 0);
    assert_eq!(Place::OnePlaced(Sym::X).to_bits(), 0b0001);
    assert_eq!(Place::OnePlaced(Sym::O).to_bits(), 0b0010);
    assert_eq!(Place::OnePlaced(Sym::T).to_bits(), 0b0100);
    assert_eq!(Place::OnePlaced(Sym::S).to_bits(), 0b1000);
    assert_eq!(Place::TwoPlaced(Sym::O, Sym::S).to_bits(), 0b1010);
    // order is lost, and the later of two symbols of a pair wins
    assert_eq!(Place::TwoPlaced(Sym::T, Sym::X).to_bits(), 0b0101);
    assert_eq!(Place::TwoPlaced(Sym::X, Sym::X).to_bits(), 0b0001);
    assert_eq!(Place::TwoPlaced(Sym::X, Sym::O).to_bits(), 0b0010);
    assert_eq!(Place::from_bits(0b1001), Place::TwoPlaced(Sym::X, Sym::S));
    assert_eq!(Place::from_bits(0b0110), Place::TwoPlaced(Sym::O, Sym::T));
    // bits above the low four are ignored
    assert_eq!(Place::from_bits(0b1111_0100), Place::OnePlaced(Sym::T));
}

#[test]
fn place_bits_roundtrip() {
    for p in all_places() {
        let b = p.to_bits();
        assert!(b < 16);
        if is_canonical(p) {
            assert_eq!(Place::from_bits(b), p);
        }
    }
    for b in 0u8..16 {
        if b & 3 != 3 && (b >> 2) & 3 != 3 {
            assert_eq!(Place::from_bits(b).to_bits(), b);
        }
    }
}

#[test]
fn move_bits_values_and_roundtrip() {
    let m = GameMove { who: Player::OT, place: PlaceIdx(4), drawn_symbol: Sym::T };
    assert_eq!(m.to_bits(), 0b10_1001);
    assert_eq!(GameMove::from_bits(0b10_1001), m);
    let x = GameMove { who: Player::XS, place: PlaceIdx(8), drawn_symbol: Sym::X };
    assert_eq!(x.to_bits(), 0b01_0000);
    // a foreign symbol is read back as the mover's symbol of the same bit
    let foreign = GameMove { who: Player::XS, place: PlaceIdx(2), drawn_symbol: Sym::T };
    assert_eq!(GameMove::from_bits(foreign.to_bits()).drawn_symbol, Sym::S);
    // only four bits of the index are kept
    let wide = GameMove { who: Player::XS, place: PlaceIdx(17), drawn_symbol: Sym::X };
    assert_eq!(GameMove::from_bits(wide.to_bits()).place, PlaceIdx(1));
    for who in [Player::XS, Player::OT] {
        for i in 0u8..16 {
            for s in who.symbols() {
                let m = GameMove { who, place: PlaceIdx(i), drawn_symbol: *s };
                assert_eq!(GameMove::from_bits(m.to_bits()), m);
            }
        }
    }
    for b in 0u8..64 {
        assert_eq!(GameMove::from_bits(b).to_bits(), b);
    }
}

#[test]
fn game_bits_values_and_roundtrip() {
    let start = Game::xs_starts();
    assert_eq!(start.to_bits(), 0);
    assert_eq!(Game::ot_starts().to_bits(), 1u64 << 63);
    let mut places = [Place::Empty; 9];
    places[0] = Place::OnePlaced(Sym::X);
    places[8] = Place::TwoPlaced(Sym::O, Sym::S);
    let g = Game { whos_next: Player::OT, board: Board { places } };
    let k = g.to_bits();
    assert_eq!(k, (1u64 << 63) | 1 | (0b1010u64 << 32));
    assert_eq!(Game::from_bits(k), g);
    let all = all_places();
    let canonical: Vec<Place> = all.into_iter().filter(|p| is_canonical(*p)).collect();
    for (n, p) in canonical.iter().enumerate() {
        let mut places = [Place::Empty; 9];
        for i in 0..9 {
            places[i] = canonical[(n + 2 * i) % canonical.len()];
        }
        places[n % 9] = *p;
        let g = Game { whos_next: if n % 2 == 0 { Player::XS } else { Player::OT }, board: Board { places } };
        assert_eq!(Game::from_bits(g.to_bits()), g);
    }
}

#[test]
fn board_default_is_empty() {
    let b = Board::default();
    assert!(b.places.iter().all(|p| *p == Place::Empty));
    assert_eq!(Game::ot_starts().whos_next, Player::OT);
    assert_eq!(Game::ot_starts().board, b);
}

#[test]
fn game_code_read_back_drops_unused_bits() {
    // place codes 1, 9 and 6 at places 0, 4 and 8, bits 36 to 62 set, OT to move
    let key: u64 = (1u64 << 63) | (0x7ff_fffu64 << 36) | 1 | (9u64 << 16) | (6u64 << 32);
    let g = Game::from_bits(key);
    assert_eq!(g.whos_next, Player::OT);
    assert_eq!(g.board.places[0], Place::OnePlaced(Sym::X));
    assert_eq!(g.board.places[4], Place::TwoPlaced(Sym::X, Sym::S));
    assert_eq!(g.board.places[8], Place::TwoPlaced(Sym::O, Sym::T));
    assert_eq!(g.to_bits(), key & ((1u64 << 63) | 0xf_ffff_ffff));
    let xs = Game::from_bits(0x10);
    assert_eq!(xs.whos_next, Player::XS);
    assert_eq!(xs.board.places[1], Place::OnePlaced(Sym::X));
    assert_eq!(xs.to_bits(), 0x10);
}
