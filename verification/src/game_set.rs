//! A set of games, kept as a hash set of injective integer keys beside the
//! list of the games in the order they were added.
use vstd::prelude::*;
use rustc_hash::FxHashSet;
use crate::bits::{lemma_pow_le, pow_of};
use crate::fx_set::{fx_contains, fx_insert, fx_keys, fx_new};
use crate::logic::{Game, Place, Player, Sym};

verus! {

/// Every key of a game is below this bound (`2^46`).
pub const GAME_KEY_SPACE: u64 = 0x4000_0000_0000;

pub open spec fn sym_index(s: Sym) -> int {
    match s {
        Sym::X => 0,
        Sym::O => 1,
        Sym::T => 2,
        Sym::S => 3,
    }
}

impl Place {
    /// A number below 21 that tells every place apart, the order of two
    /// symbols included.
    pub open spec fn key(self) -> int {
        match self {
            Place::Empty => 0,
            Place::OnePlaced(a) => 1 + sym_index(a),
            Place::TwoPlaced(a, b) => 5 + 4 * sym_index(a) + sym_index(b),
        }
    }
}

/// The places' keys as base-32 digits, the first place lowest.
pub open spec fn board_key(places: Seq<Place>) -> int
    decreases places.len(),
{
    if places.len() == 0 {
        0
    } else {
        places[0].key() + 32 * board_key(places.drop_first())
    }
}

impl Game {
    /// The key of a game: its places' keys, and bit 45 for `OT` to move.
    pub open spec fn key(self) -> int {
        (if self.whos_next == Player::OT {
            0x2000_0000_0000int
        } else {
            0
        }) + board_key(self.board.places@)
    }
}

fn sym_key(s: Sym) -> (r: u8)
    ensures
        r == sym_index(s),
{
    match s {
        Sym::X => 0,
        Sym::O => 1,
        Sym::T => 2,
        Sym::S => 3,
    }
}

fn place_key(p: Place) -> (r: u8)
    ensures
        r == p.key(),
        r < 21,
{
    match p {
        Place::Empty => 0,
        Place::OnePlaced(a) => 1 + sym_key(a),
        Place::TwoPlaced(a, b) => 5 + 4 * sym_key(a) + sym_key(b),
    }
}

/// The key of `g`, below `GAME_KEY_SPACE`.
pub fn game_key(g: &Game) -> (r: u64)
    ensures
        r == g.key(),
        r < GAME_KEY_SPACE,
{
    let mut acc: u64 = 0;
    let mut i: usize = 9;
    proof {
        reveal_with_fuel(pow_of, 10);
    }
    while i > 0
        invariant
            i <= 9,
            acc == board_key(g.board.places@.subrange(i as int, 9)),
            0 <= acc < pow_of(32, (9 - i) as nat),
            pow_of(32, 9) == 0x2000_0000_0000,
        decreases i,
    {
        i -= 1;
        let k = place_key(g.board.places[i]) as u64;
        proof {
            let s = g.board.places@.subrange(i as int, 9);
            assert(s.drop_first() =~= g.board.places@.subrange(i + 1, 9));
            assert(s[0] == g.board.places@[i as int]);
            lemma_pow_le(32, (9 - i) as nat, 9);
            let b = pow_of(32, (8 - i) as nat);
            assert(pow_of(32, (9 - i) as nat) == 32 * b);
            assert(acc * 32 + k < 32 * b) by (nonlinear_arith)
                requires
                    acc < b,
                    k < 32,
            ;
        }
        acc = acc * 32 + k;
    }
    assert(g.board.places@.subrange(0, 9) =~= g.board.places@);
    match g.whos_next {
        Player::XS => acc,
        Player::OT => acc + 0x2000_0000_0000,
    }
}

proof fn lemma_board_key_bound(s: Seq<Place>)
    ensures
        0 <= board_key(s) < pow_of(32, s.len()),
    decreases s.len(),
{
    if s.len() > 0 {
        lemma_board_key_bound(s.drop_first());
        let c = s[0].key();
        let b = board_key(s.drop_first());
        let k = pow_of(32, s.drop_first().len());
        assert(c + 32 * b < 32 * k) by (nonlinear_arith)
            requires
                0 <= c < 32,
                0 <= b < k,
        ;
    }
}

proof fn lemma_place_key_injective(p: Place, q: Place)
    requires
        p.key() == q.key(),
    ensures
        p == q,
{
}

proof fn lemma_board_key_injective(s: Seq<Place>, t: Seq<Place>)
    requires
        s.len() == t.len(),
        board_key(s) == board_key(t),
    ensures
        s == t,
    decreases s.len(),
{
    if s.len() == 0 {
        assert(s =~= t);
    } else {
        lemma_board_key_bound(s.drop_first());
        lemma_board_key_bound(t.drop_first());
        let c = s[0].key();
        let d = t[0].key();
        let b = board_key(s.drop_first());
        let e = board_key(t.drop_first());
        assert(c == d && b == e) by (nonlinear_arith)
            requires
                0 <= c < 32,
                0 <= d < 32,
                0 <= b,
                0 <= e,
                c + 32 * b == d + 32 * e,
        ;
        lemma_place_key_injective(s[0], t[0]);
        lemma_board_key_injective(s.drop_first(), t.drop_first());
        assert(s =~= t) by {
            assert forall|i: int| 0 <= i < s.len() implies s[i] == t[i] by {
                if i > 0 {
                    assert(s[i] == s.drop_first()[i - 1]);
                    assert(t[i] == t.drop_first()[i - 1]);
                }
            }
        }
    }
}

/// Two games with the same key are the same game.
pub proof fn lemma_game_key_injective(g: Game, h: Game)
    requires
        g.key() == h.key(),
    ensures
        g == h,
{
    let s = g.board.places@;
    let t = h.board.places@;
    lemma_board_key_bound(s);
    lemma_board_key_bound(t);
    reveal_with_fuel(pow_of, 10);
    assert(g.whos_next == h.whos_next);
    lemma_board_key_injective(s, t);
    assert(g.board.places =~= h.board.places);
}

/// Every game key is below `GAME_KEY_SPACE`.
pub proof fn lemma_game_key_bound(g: Game)
    ensures
        0 <= g.key() < GAME_KEY_SPACE,
{
    lemma_board_key_bound(g.board.places@);
    reveal_with_fuel(pow_of, 10);
}

/// A finite set of `u64` below `n` has at most `n` elements.
proof fn lemma_bounded_key_set(s: Set<u64>, n: nat)
    requires
        n <= 0x1_0000_0000_0000_0000,
        forall|k: u64| s.contains(k) ==> k < n,
    ensures
        s.finite(),
        s.len() <= n,
    decreases n,
{
    if n == 0 {
        assert(s =~= Set::<u64>::empty());
    } else {
        let m = (n - 1) as u64;
        let t = s.remove(m);
        lemma_bounded_key_set(t, (n - 1) as nat);
        if s.contains(m) {
            assert(s =~= t.insert(m));
        } else {
            assert(s =~= t);
        }
    }
}

proof fn lemma_push_to_set(s: Seq<Game>, g: Game)
    ensures
        s.push(g).to_set() == s.to_set().insert(g),
{
    assert forall|x: Game| s.push(g).contains(x) <==> s.contains(x) || x == g by {
        if s.push(g).contains(x) && x != g {
            let i = choose|i: int| 0 <= i < s.push(g).len() && s.push(g)[i] == x;
            assert(s[i] == x);
        }
        if s.contains(x) {
            let i = choose|i: int| 0 <= i < s.len() && s[i] == x;
            assert(s.push(g)[i] == x);
        }
        if x == g {
            assert(s.push(g)[s.len() as int] == g);
        }
    }
    assert(s.push(g).to_set() =~= s.to_set().insert(g));
}

/// A set of games. Its keys live in an `FxHashSet`, which answers membership;
/// the games themselves are listed in the order they were added.
pub struct GameSet {
    keys: FxHashSet<u64>,
    games: Vec<Game>,
}

impl View for GameSet {
    type V = Set<Game>;

    closed spec fn view(&self) -> Set<Game> {
        self.games@.to_set()
    }
}

impl GameSet {
    /// The hash set holds exactly the keys of the listed games, which are distinct.
    pub closed spec fn wf(&self) -> bool {
        &&& fx_keys(self.keys).finite()
        &&& fx_keys(self.keys).len() == self.games.len()
        &&& forall|i: int|
            0 <= i < self.games.len() ==> fx_keys(self.keys).contains(
                (#[trigger] self.games[i]).key() as u64,
            )
        &&& forall|k: u64|
            #[trigger] fx_keys(self.keys).contains(k) ==> exists|i: int|
                0 <= i < self.games.len() && (#[trigger] self.games[i]).key() == k
        &&& self.games@.no_duplicates()
    }

    /// A well-formed set is finite and holds at most `GAME_KEY_SPACE` games.
    pub proof fn lemma_len_bound(&self)
        requires
            self.wf(),
        ensures
            self@.finite(),
            self@.len() <= GAME_KEY_SPACE,
    {
        self.lemma_view_len();
        assert forall|k: u64| fx_keys(self.keys).contains(k) implies k < GAME_KEY_SPACE by {
            let i = choose|i: int| 0 <= i < self.games.len() && (#[trigger] self.games[i]).key() == k;
            lemma_game_key_bound(self.games[i]);
        }
        lemma_bounded_key_set(fx_keys(self.keys), GAME_KEY_SPACE as nat);
    }

    proof fn lemma_view_len(&self)
        requires
            self.wf(),
        ensures
            self@.finite(),
            self@.len() == self.games.len(),
    {
        self.games@.unique_seq_to_set();
    }

    pub fn new() -> (r: GameSet)
        ensures
            r.wf(),
            r@ == Set::<Game>::empty(),
    {
        let r = GameSet { keys: fx_new(), games: Vec::new() };
        assert(r@ =~= Set::<Game>::empty());
        r
    }

    pub fn insert(&mut self, g: Game) -> (r: bool)
        requires
            old(self).wf(),
        ensures
            final(self).wf(),
            final(self)@ == old(self)@.insert(g),
            r == !old(self)@.contains(g),
    {
        let k = game_key(&g);
        let ghost old_games = self.games@;
        if fx_insert(&mut self.keys, k) {
            assert(!old_games.contains(g)) by {
                if old_games.contains(g) {
                    let i = choose|i: int| 0 <= i < old_games.len() && old_games[i] == g;
                    assert(fx_keys(old(self).keys).contains(old_games[i].key() as u64));
                }
            }
            self.games.push(g);
            assert forall|k2: u64| #[trigger] fx_keys(self.keys).contains(k2) implies exists|i: int|
                0 <= i < self.games.len() && (#[trigger] self.games[i]).key() == k2 by {
                if k2 == k {
                    assert(self.games[old_games.len() as int] == g);
                } else {
                    let i = choose|i: int|
                        0 <= i < old_games.len() && (#[trigger] old_games[i]).key() == k2;
                    assert(self.games[i] == old_games[i]);
                }
            }
            assert forall|i: int| 0 <= i < self.games.len() implies fx_keys(self.keys).contains(
                (#[trigger] self.games[i]).key() as u64,
            ) by {
                if i < old_games.len() {
                    assert(self.games[i] == old_games[i]);
                }
            }
            proof {
                lemma_push_to_set(old_games, g);
            }
            true
        } else {
            assert(old_games.contains(g)) by {
                let i = choose|i: int| 0 <= i < old_games.len() && (#[trigger] old_games[i]).key() == k;
                lemma_game_key_injective(old_games[i], g);
            }
            assert(self.games@.to_set() =~= old_games.to_set().insert(g));
            assert(fx_keys(self.keys) =~= fx_keys(old(self).keys));
            false
        }
    }

    pub fn contains(&self, g: &Game) -> (r: bool)
        requires
            self.wf(),
        ensures
            r == self@.contains(*g),
    {
        let k = game_key(g);
        let r = fx_contains(&self.keys, k);
        proof {
            if r {
                let i = choose|i: int| 0 <= i < self.games.len() && (#[trigger] self.games[i]).key() == k;
                lemma_game_key_injective(self.games[i], *g);
                assert(self.games@.contains(*g));
            } else if self.games@.contains(*g) {
                let i = choose|i: int| 0 <= i < self.games.len() && self.games[i] == *g;
                assert(fx_keys(self.keys).contains(self.games[i].key() as u64));
            }
        }
        r
    }

    pub fn len(&self) -> (r: usize)
        requires
            self.wf(),
        ensures
            r == self@.len(),
    {
        proof {
            self.lemma_view_len();
        }
        self.games.len()
    }

    pub fn is_empty(&self) -> (r: bool)
        requires
            self.wf(),
        ensures
            r == (self@.len() == 0),
    {
        proof {
            self.lemma_view_len();
        }
        self.games.len() == 0
    }

    /// The games of the set, each once, in the order they were added.
    pub fn games(&self) -> (r: &[Game])
        requires
            self.wf(),
        ensures
            r@.to_set() == self@,
            r@.no_duplicates(),
            r@.len() == self@.len(),
    {
        proof {
            self.lemma_view_len();
        }
        self.games.as_slice()
    }
}

} // verus!
