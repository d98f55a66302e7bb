//! The rules of the game: players, symbols, places, boards and moves.
use vstd::prelude::*;

verus! {

/// The two players. `XS` draws `X` and `S`, `OT` draws `O` and `T`.
#[derive(Copy, Clone, PartialEq, Eq, Structural, PartialOrd, Ord, Hash, Debug)]
pub enum Player {
    XS,
    OT,
}

/// The four symbols that can be drawn on a place.
#[derive(Copy, Clone, PartialEq, Eq, Structural, PartialOrd, Ord, Hash, Debug)]
pub enum Sym {
    X,
    O,
    T,
    S,
}

impl Player {
    /// The player who moves after `self`.
    pub open spec fn opponent(self) -> Player {
        match self {
            Player::XS => Player::OT,
            Player::OT => Player::XS,
        }
    }

    /// The symbols that `self` may draw, in the order in which moves are offered.
    pub open spec fn own_symbols(self) -> Seq<Sym> {
        match self {
            Player::XS => seq![Sym::X, Sym::S],
            Player::OT => seq![Sym::O, Sym::T],
        }
    }

    pub fn other(&self) -> (r: Player)
        ensures
            r == self.opponent(),
    {
        match self {
            Player::XS => Player::OT,
            Player::OT => Player::XS,
        }
    }

    pub fn symbols(&self) -> (r: &[Sym])
        ensures
            r@ == self.own_symbols(),
    {
        match self {
            Player::XS => {
                let r: &[Sym] = &[Sym::X, Sym::S];
                assert(r@ =~= seq![Sym::X, Sym::S]);
                r
            },
            Player::OT => {
                let r: &[Sym] = &[Sym::O, Sym::T];
                assert(r@ =~= seq![Sym::O, Sym::T]);
                r
            },
        }
    }
}

impl Sym {
    /// The symbol that may not share a place with `self`.
    pub open spec fn excluded(self) -> Sym {
        match self {
            Sym::X => Sym::O,
            Sym::O => Sym::X,
            Sym::T => Sym::S,
            Sym::S => Sym::T,
        }
    }

    /// The partner of `self`, of the other pair.
    pub open spec fn partner(self) -> Sym {
        match self {
            Sym::X => Sym::T,
            Sym::T => Sym::X,
            Sym::O => Sym::S,
            Sym::S => Sym::O,
        }
    }

    /// The player who draws `self`.
    pub open spec fn owner(self) -> Player {
        match self {
            Sym::X | Sym::S => Player::XS,
            Sym::O | Sym::T => Player::OT,
        }
    }

    pub fn excludes(self) -> (r: Sym)
        ensures
            r == self.excluded(),
    {
        match self {
            Sym::X => Sym::O,
            Sym::O => Sym::X,
            Sym::T => Sym::S,
            Sym::S => Sym::T,
        }
    }

    pub fn other(self) -> (r: Sym)
        ensures
            r == self.partner(),
    {
        match self {
            Sym::X => Sym::T,
            Sym::T => Sym::X,
            Sym::O => Sym::S,
            Sym::S => Sym::O,
        }
    }

    pub fn player(self) -> (r: Player)
        ensures
            r == self.owner(),
    {
        match self {
            Sym::X | Sym::S => Player::XS,
            Sym::O | Sym::T => Player::OT,
        }
    }
}

/// What stands on one place of the board: nothing, one symbol, or two.
#[derive(Copy, Clone, PartialEq, Eq, Structural, PartialOrd, Ord, Hash, Debug)]
pub enum Place {
    Empty,
    OnePlaced(Sym),
    TwoPlaced(Sym, Sym),
}

impl Default for Place {
    fn default() -> (r: Place)
        ensures
            r == Place::Empty,
    {
        Place::Empty
    }
}

impl Place {
    /// Drawing `other` on `self`: an empty place takes any symbol; a place
    /// with one symbol takes a second one unless the first excludes it; a
    /// full place takes none.
    pub open spec fn combined(self, other: Sym) -> Option<Place> {
        match self {
            Place::Empty => Some(Place::OnePlaced(other)),
            Place::OnePlaced(this) => if other != this.excluded() {
                Some(Place::TwoPlaced(this, other))
            } else {
                None
            },
            Place::TwoPlaced(_, _) => None,
        }
    }

    /// Whether `s` stands on the place.
    pub open spec fn holds(self, s: Sym) -> bool {
        match self {
            Place::Empty => false,
            Place::OnePlaced(a) => a == s,
            Place::TwoPlaced(a, b) => a == s || b == s,
        }
    }

    pub fn contains(&self, s: Sym) -> (r: bool)
        ensures
            r == self.holds(s),
    {
        match self {
            Place::Empty => false,
            Place::OnePlaced(a) => *a == s,
            Place::TwoPlaced(a, b) => *a == s || *b == s,
        }
    }

    pub fn combine(self, other: Sym) -> (r: Option<Place>)
        ensures
            r == self.combined(other),
    {
        match self {
            Place::Empty => Some(Place::OnePlaced(other)),
            Place::OnePlaced(this) => {
                if other != this.excludes() {
                    Some(Place::TwoPlaced(this, other))
                } else {
                    None
                }
            },
            Place::TwoPlaced(_, _) => None,
        }
    }
}

/// The index of a place on the board, `0..9` row by row.
#[derive(Copy, Clone, PartialEq, Eq, Structural, PartialOrd, Ord, Hash, Debug)]
pub struct PlaceIdx(pub u8);

impl TryFrom<u8> for PlaceIdx {
    type Error = ();

    fn try_from(val: u8) -> (r: Result<PlaceIdx, ()>)
    {
        if val >= 9 {
            Err(())
        } else {
            Ok(PlaceIdx(val))
        }
    }
}

impl vstd::std_specs::convert::TryFromSpecImpl<u8> for PlaceIdx {
    open spec fn obeys_try_from_spec() -> bool {
        true
    }

    open spec fn try_from_spec(val: u8) -> Result<PlaceIdx, ()> {
        if val >= 9 {
            Err(())
        } else {
            Ok(PlaceIdx(val))
        }
    }
}

impl PlaceIdx {
    pub fn index(&self) -> (r: usize)
        ensures
            r == self.0,
    {
        self.0 as usize
    }
}

/// The nine places, row by row.
#[derive(Copy, Clone, PartialEq, Eq, Hash, Debug)]
pub struct Board {
    pub places: [Place; 9],
}

impl Default for Board {
    fn default() -> (r: Board)
        ensures
            forall|i: int| 0 <= i < 9 ==> r.places[i] == Place::Empty,
    {
        Board { places: [Place::Empty; 9] }
    }
}

/// A state of play: the board and whose turn it is.
#[derive(Copy, Clone, PartialEq, Eq, Hash, Debug)]
pub struct Game {
    pub whos_next: Player,
    pub board: Board,
}

/// One move: who draws which symbol on which place.
#[derive(Copy, Clone, PartialEq, Eq, Structural, Hash, Debug)]
pub struct GameMove {
    pub who: Player,
    pub place: PlaceIdx,
    pub drawn_symbol: Sym,
}

impl Game {
    /// The board of `self` with place `i` replaced by `p`, the other player to move.
    pub open spec fn after(self, i: int, p: Place) -> Game {
        Game {
            whos_next: self.whos_next.opponent(),
            board: Board { places: vstd::array::spec_array_update(self.board.places, i, p) },
        }
    }

    /// The state after `m`, or `None` where `m` is refused: it is not the
    /// mover's turn, or the symbol does not combine with the place.
    pub open spec fn moved(self, m: GameMove) -> Option<Game> {
        if m.who != self.whos_next {
            None
        } else {
            match self.board.places[m.place.0 as int].combined(m.drawn_symbol) {
                Some(p) => Some(self.after(m.place.0 as int, p)),
                None => None,
            }
        }
    }

    pub fn try_move(&self, m: GameMove) -> (r: Option<Game>)
        requires
            m.who != self.whos_next || m.place.0 < 9,
        ensures
            r == self.moved(m),
    {
        if m.who != self.whos_next {
            return None;
        }
        let mut nb = self.board;
        match nb.places[m.place.index()].combine(m.drawn_symbol) {
            Some(new_pl) => {
                nb.places[m.place.index()] = new_pl;
                let r = Game { whos_next: self.whos_next.other(), board: nb };
                assert(r.board.places =~= self.after(m.place.0 as int, new_pl).board.places);
                return Some(r);
            },
            None => return None,
        }
    }
}

/// Passing the turn twice gives it back; no player follows itself.
pub proof fn lemma_opponent_involution(p: Player)
    ensures
        p.opponent().opponent() == p,
        p.opponent() != p,
{
}

/// `excludes` and `other` pair the symbols off: each is its own inverse,
/// moves a symbol to one of the other player, and never fixes a symbol;
/// each player's own symbols are owned by that player.
pub proof fn lemma_symbol_pairs(s: Sym)
    ensures
        s.excluded().excluded() == s,
        s.partner().partner() == s,
        s.excluded() != s,
        s.partner() != s,
        s.excluded().owner() == s.owner().opponent(),
        s.partner().owner() == s.owner().opponent(),
        s.owner().own_symbols().contains(s),
{
    assert(s.owner().own_symbols()[0] == s || s.owner().own_symbols()[1] == s);
}

/// A player's two symbols are distinct and are that player's own.
pub proof fn lemma_own_symbols(p: Player)
    ensures
        p.own_symbols().len() == 2,
        p.own_symbols()[0] != p.own_symbols()[1],
        p.own_symbols()[0].owner() == p,
        p.own_symbols()[1].owner() == p,
{
}

} // verus!
