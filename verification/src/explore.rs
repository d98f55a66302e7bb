//! Exhaustive exploration of the states that play can reach.
use vstd::prelude::*;
use crate::game_set::{GameSet, GAME_KEY_SPACE};
use crate::logic::{Board, Game, GameMove, Place, PlaceIdx, Player};

verus! {

impl Game {
    /// The move of the player to move that draws the `k`-th of their symbols on place `i`.
    pub open spec fn move_at(self, i: int, k: int) -> GameMove {
        GameMove {
            who: self.whos_next,
            place: PlaceIdx(i as u8),
            drawn_symbol: self.whos_next.own_symbols()[k],
        }
    }

    /// The legal moves on place `i` with the first `k` of the mover's symbols, in that order.
    pub open spec fn moves_on(self, i: int, k: int) -> Seq<GameMove>
        decreases k,
    {
        if k <= 0 {
            Seq::empty()
        } else {
            self.moves_on(i, k - 1) + (if self.board.places[i].combined(
                self.whos_next.own_symbols()[k - 1],
            ) is Some {
                seq![self.move_at(i, k - 1)]
            } else {
                Seq::empty()
            })
        }
    }

    /// The legal moves on the first `n` places, place by place.
    pub open spec fn moves_below(self, n: int) -> Seq<GameMove>
        decreases n,
    {
        if n <= 0 {
            Seq::empty()
        } else {
            self.moves_below(n - 1) + self.moves_on(n - 1, 2)
        }
    }

    /// Every legal move of the player to move, place by place and, on one
    /// place, in the order of the mover's symbols.
    pub open spec fn legal_moves(self) -> Seq<GameMove> {
        self.moves_below(9)
    }

    /// The states that the legal moves lead to, in the same order.
    pub open spec fn successors(self) -> Seq<Game> {
        self.legal_moves().map_values(|m: GameMove| self.moved(m).unwrap())
    }

    /// A state in which the player to move has no legal move.
    pub open spec fn is_terminal(self) -> bool {
        self.legal_moves().len() == 0
    }

    /// The start of a game that `p` opens: an empty board, `p` to move.
    pub open spec fn opening(p: Player) -> Game {
        Game {
            whos_next: p,
            board: Board { places: vstd::array::spec_array_fill_for_copy_type(Place::Empty) },
        }
    }
}

/// `h` follows `g` by one legal move.
pub open spec fn is_successor(g: Game, h: Game) -> bool {
    g.successors().contains(h)
}

/// A nonempty sequence of states, each following the one before by a legal move.
pub open spec fn is_path(p: Seq<Game>) -> bool {
    &&& p.len() > 0
    &&& forall|j: int| 0 <= j < p.len() - 1 ==> #[trigger] is_successor(p[j], p[j + 1])
}

/// `h` is reached from one of `starts` by legal moves through states none of
/// which (`h` and the start included) is in `avoid`.
pub open spec fn reachable_avoiding(starts: Seq<Game>, avoid: Set<Game>, h: Game) -> bool {
    exists|p: Seq<Game>|
        #![trigger is_path(p), p.last()]
        is_path(p) && starts.contains(p[0]) && p.last() == h && forall|j: int|
            0 <= j < p.len() ==> !avoid.contains(#[trigger] p[j])
}

/// The states that play reaches from one of `starts`.
pub open spec fn reachable_from(starts: Seq<Game>) -> Set<Game> {
    Set::new(|h: Game| reachable_avoiding(starts, Set::empty(), h))
}

/// Every legal move is on a place of the board and is accepted.
pub proof fn lemma_legal_moves_accepted(g: Game, n: int)
    requires
        n <= 9,
    ensures
        forall|k: int|
            0 <= k < g.moves_below(n).len() ==> {
                let m = #[trigger] g.moves_below(n)[k];
                &&& m.place.0 < 9
                &&& g.moved(m) is Some
            },
    decreases n,
{
    if n > 0 {
        lemma_legal_moves_accepted(g, n - 1);
        let a = g.moves_below(n - 1);
        let b = g.moves_on(n - 1, 2);
        assert forall|k: int| 0 <= k < (a + b).len() implies {
            let m = #[trigger] (a + b)[k];
            &&& m.place.0 < 9
            &&& g.moved(m) is Some
        } by {
            if k >= a.len() {
                assert((a + b)[k] == b[k - a.len()]);
                lemma_moves_on_accepted(g, n - 1, 2);
                assert(b[k - a.len()].place.0 < 9 && g.moved(b[k - a.len()]) is Some);
            }
        }
    }
}

proof fn lemma_moves_on_accepted(g: Game, i: int, k: int)
    requires
        0 <= i < 9,
        k <= 2,
    ensures
        forall|j: int|
            0 <= j < g.moves_on(i, k).len() ==> {
                let m = #[trigger] g.moves_on(i, k)[j];
                &&& m.place.0 < 9
                &&& g.moved(m) is Some
            },
    decreases k,
{
    if k > 0 {
        lemma_moves_on_accepted(g, i, k - 1);
        let a = g.moves_on(i, k - 1);
        let b = g.moves_on(i, k);
        assert forall|j: int| 0 <= j < b.len() implies {
            let m = #[trigger] b[j];
            &&& m.place.0 < 9
            &&& g.moved(m) is Some
        } by {
            if j < a.len() {
                assert(b[j] == a[j]);
            } else {
                assert(b[j] == g.move_at(i, k - 1));
            }
        }
    }
}

proof fn lemma_concat_contains(a: Seq<GameMove>, b: Seq<GameMove>, m: GameMove)
    ensures
        (a + b).contains(m) <==> a.contains(m) || b.contains(m),
{
    if (a + b).contains(m) {
        let j = choose|j: int| 0 <= j < (a + b).len() && (a + b)[j] == m;
        if j < a.len() {
            assert(a[j] == m);
        } else {
            assert(b[j - a.len()] == m);
        }
    }
    if a.contains(m) {
        let j = choose|j: int| 0 <= j < a.len() && a[j] == m;
        assert((a + b)[j] == m);
    }
    if b.contains(m) {
        let j = choose|j: int| 0 <= j < b.len() && b[j] == m;
        assert((a + b)[a.len() + j] == m);
    }
}

proof fn lemma_moves_on_contains(g: Game, i: int, k: int, m: GameMove)
    requires
        0 <= i < 9,
        0 <= k <= 2,
    ensures
        g.moves_on(i, k).contains(m) <==> (m.place.0 == i && m.who == g.whos_next && (exists|j: int|
            0 <= j < k && g.whos_next.own_symbols()[j] == m.drawn_symbol)
            && g.board.places[i].combined(m.drawn_symbol) is Some),
    decreases k,
{
    if k > 0 {
        lemma_moves_on_contains(g, i, k - 1, m);
        let a = g.moves_on(i, k - 1);
        let sym = g.whos_next.own_symbols()[k - 1];
        let b = if g.board.places[i].combined(sym) is Some {
            seq![g.move_at(i, k - 1)]
        } else {
            Seq::empty()
        };
        lemma_concat_contains(a, b, m);
        if b.contains(m) {
            assert(b[0] == m);
        }
        if m.place.0 == i && m.who == g.whos_next && g.board.places[i].combined(m.drawn_symbol)
            is Some && sym == m.drawn_symbol {
            assert(g.move_at(i, k - 1) == m);
            assert(b[0] == m);
        }
    }
}

proof fn lemma_moves_below_contains(g: Game, n: int, m: GameMove)
    requires
        0 <= n <= 9,
    ensures
        g.moves_below(n).contains(m) <==> (m.place.0 < n && m.who == g.whos_next
            && g.whos_next.own_symbols().contains(m.drawn_symbol) && g.board.places[m.place.0 as int].combined(
            m.drawn_symbol,
        ) is Some),
    decreases n,
{
    if n > 0 {
        lemma_moves_below_contains(g, n - 1, m);
        lemma_moves_on_contains(g, n - 1, 2, m);
        let a = g.moves_below(n - 1);
        let b = g.moves_on(n - 1, 2);
        lemma_concat_contains(a, b, m);
        let own = g.whos_next.own_symbols();
        assert(own.contains(m.drawn_symbol) <==> exists|j: int| 0 <= j < 2 && own[j] == m.drawn_symbol);
    }
}

/// The legal moves are exactly the moves on a place of the board, of a
/// symbol of the mover's own, that the state accepts.
pub proof fn lemma_legal_moves_exact(g: Game, m: GameMove)
    ensures
        g.legal_moves().contains(m) <==> (m.place.0 < 9 && m.drawn_symbol.owner() == m.who
            && g.moved(m) is Some),
{
    lemma_moves_below_contains(g, 9, m);
    crate::logic::lemma_symbol_pairs(m.drawn_symbol);
    crate::logic::lemma_own_symbols(g.whos_next);
}

proof fn lemma_moves_on_distinct(g: Game, i: int, k: int)
    requires
        0 <= i < 9,
        0 <= k <= 2,
    ensures
        g.moves_on(i, k).no_duplicates(),
        forall|j: int| 0 <= j < g.moves_on(i, k).len() ==> (#[trigger] g.moves_on(i, k)[j]).place.0 == i,
        forall|j: int|
            0 <= j < g.moves_on(i, k).len() ==> exists|q: int|
                0 <= q < k && (#[trigger] g.moves_on(i, k)[j]).drawn_symbol == g.whos_next.own_symbols()[q],
    decreases k,
{
    crate::logic::lemma_own_symbols(g.whos_next);
    if k > 0 {
        lemma_moves_on_distinct(g, i, k - 1);
        let a = g.moves_on(i, k - 1);
        let c = g.moves_on(i, k);
        assert forall|j: int| 0 <= j < c.len() implies (#[trigger] c[j]).place.0 == i && exists|q: int|
            0 <= q < k && c[j].drawn_symbol == g.whos_next.own_symbols()[q] by {
            if j < a.len() {
                assert(c[j] == a[j]);
            } else {
                assert(c[j] == g.move_at(i, k - 1));
            }
        }
        assert forall|x: int, y: int| 0 <= x < c.len() && 0 <= y < c.len() && x != y implies c[x]
            != c[y] by {
            if x < a.len() && y < a.len() {
                assert(c[x] == a[x] && c[y] == a[y]);
            } else if x >= a.len() && y >= a.len() {
            } else {
                let (u, t) = if x < a.len() {
                    (x, y)
                } else {
                    (y, x)
                };
                assert(c[u] == a[u]);
                assert(c[t] == g.move_at(i, k - 1));
                let q = choose|q: int| 0 <= q < k - 1 && a[u].drawn_symbol == g.whos_next.own_symbols()[q];
                assert(q == 0 && k == 2);
            }
        }
    }
}

proof fn lemma_moves_below_distinct(g: Game, n: int)
    requires
        0 <= n <= 9,
    ensures
        g.moves_below(n).no_duplicates(),
        forall|j: int| 0 <= j < g.moves_below(n).len() ==> (#[trigger] g.moves_below(n)[j]).place.0 < n,
    decreases n,
{
    if n > 0 {
        lemma_moves_below_distinct(g, n - 1);
        lemma_moves_on_distinct(g, n - 1, 2);
        let a = g.moves_below(n - 1);
        let b = g.moves_on(n - 1, 2);
        let c = g.moves_below(n);
        assert(c == a + b);
        assert forall|j: int| 0 <= j < c.len() implies (#[trigger] c[j]).place.0 < n by {
            if j < a.len() {
                assert(c[j] == a[j]);
            } else {
                assert(c[j] == b[j - a.len()]);
            }
        }
        assert forall|x: int, y: int| 0 <= x < c.len() && 0 <= y < c.len() && x != y implies c[x]
            != c[y] by {
            if x < a.len() && y < a.len() {
                assert(c[x] == a[x] && c[y] == a[y]);
            } else if x >= a.len() && y >= a.len() {
                assert(c[x] == b[x - a.len()] && c[y] == b[y - a.len()]);
            } else {
                let (u, t) = if x < a.len() {
                    (x, y)
                } else {
                    (y, x)
                };
                assert(c[u] == a[u]);
                assert(c[t] == b[t - a.len()]);
            }
        }
    }
}

/// Each legal move is offered once: the legal moves have no duplicates, so
/// there are as many as there are places and own symbols that the places accept.
pub proof fn lemma_legal_moves_distinct(g: Game)
    ensures
        g.legal_moves().no_duplicates(),
{
    lemma_moves_below_distinct(g, 9);
}

/// A state is terminal exactly when every place holds two symbols: on a
/// place with fewer, one of the mover's two symbols always fits.
pub proof fn lemma_terminal_iff_full(g: Game)
    ensures
        g.is_terminal() <==> forall|i: int| 0 <= i < 9 ==> (#[trigger] g.board.places[i]) is TwoPlaced,
{
    crate::logic::lemma_own_symbols(g.whos_next);
    let own = g.whos_next.own_symbols();
    if g.is_terminal() {
        assert forall|i: int| 0 <= i < 9 implies (#[trigger] g.board.places[i]) is TwoPlaced by {
            if !(g.board.places[i] is TwoPlaced) {
                let k: int = if g.board.places[i].combined(own[0]) is Some {
                    0
                } else {
                    1
                };
                let m = g.move_at(i, k);
                lemma_legal_moves_exact(g, m);
                assert(g.legal_moves().contains(m));
            }
        }
    }
    if g.legal_moves().len() > 0 {
        let m = g.legal_moves()[0];
        lemma_legal_moves_exact(g, m);
        assert(g.legal_moves().contains(m));
        assert(!(g.board.places[m.place.0 as int] is TwoPlaced));
    }
}

/// How many symbols stand on a place.
pub open spec fn place_symbols(p: Place) -> nat {
    match p {
        Place::Empty => 0,
        Place::OnePlaced(_) => 1,
        Place::TwoPlaced(_, _) => 2,
    }
}

/// How many symbols stand on the places of `s`.
pub open spec fn symbols_on(s: Seq<Place>) -> nat
    decreases s.len(),
{
    if s.len() == 0 {
        0
    } else {
        place_symbols(s[0]) + symbols_on(s.drop_first())
    }
}

impl Game {
    /// How many symbols stand on the board.
    pub open spec fn symbol_count(self) -> nat {
        symbols_on(self.board.places@)
    }
}

proof fn lemma_symbols_on_update(s: Seq<Place>, i: int, q: Place)
    requires
        0 <= i < s.len(),
    ensures
        symbols_on(s.update(i, q)) + place_symbols(s[i]) == symbols_on(s) + place_symbols(q),
    decreases s.len(),
{
    if i > 0 {
        lemma_symbols_on_update(s.drop_first(), i - 1, q);
        assert(s.update(i, q).drop_first() =~= s.drop_first().update(i - 1, q));
    } else {
        assert(s.update(i, q).drop_first() =~= s.drop_first());
    }
}

proof fn lemma_symbols_on_bound(s: Seq<Place>)
    ensures
        symbols_on(s) <= 2 * s.len(),
    decreases s.len(),
{
    if s.len() > 0 {
        lemma_symbols_on_bound(s.drop_first());
    }
}

/// Every accepted move draws one more symbol, and at most 18 symbols fit on the board.
pub proof fn lemma_move_adds_symbol(g: Game, m: GameMove)
    requires
        m.place.0 < 9,
        g.moved(m) is Some,
    ensures
        g.moved(m).unwrap().symbol_count() == g.symbol_count() + 1,
        g.moved(m).unwrap().symbol_count() <= 18,
{
    let i = m.place.0 as int;
    let h = g.moved(m).unwrap();
    let q = g.board.places[i].combined(m.drawn_symbol).unwrap();
    assert(h.board.places@ == g.board.places@.update(i, q));
    lemma_symbols_on_update(g.board.places@, i, q);
    lemma_symbols_on_bound(h.board.places@);
}

/// A state that follows `g` has one symbol more than `g`.
pub proof fn lemma_successor_adds_symbol(g: Game, h: Game)
    requires
        is_successor(g, h),
    ensures
        h.symbol_count() == g.symbol_count() + 1,
        h.symbol_count() <= 18,
{
    let j = choose|j: int| 0 <= j < g.successors().len() && g.successors()[j] == h;
    lemma_legal_moves_accepted(g, 9);
    let m = g.legal_moves()[j];
    assert(g.successors()[j] == g.moved(m).unwrap());
    lemma_move_adds_symbol(g, m);
}

/// Play always ends: a path has at most 19 states, fewer by the symbols
/// already on the board where it starts.
pub proof fn lemma_play_ends(p: Seq<Game>)
    requires
        is_path(p),
    ensures
        p.len() + p[0].symbol_count() <= 19,
{
    assert forall|j: int| 0 <= j < p.len() implies #[trigger] p[j].symbol_count() == p[0].symbol_count() + j by {
        lemma_path_counts(p, j);
    }
    let n = p.len() - 1;
    if n > 0 {
        assert(is_successor(p[n - 1], p[n - 1 + 1]));
        lemma_successor_adds_symbol(p[n - 1], p[n]);
    } else {
        lemma_symbols_on_bound(p[0].board.places@);
    }
}

proof fn lemma_path_counts(p: Seq<Game>, j: int)
    requires
        is_path(p),
        0 <= j < p.len(),
    ensures
        p[j].symbol_count() == p[0].symbol_count() + j,
    decreases j,
{
    if j > 0 {
        lemma_path_counts(p, j - 1);
        assert(is_successor(p[j - 1], p[j - 1 + 1]));
        lemma_successor_adds_symbol(p[j - 1], p[j]);
    }
}

/// Appends to `acc` every legal move of the player to move in `game`.
pub fn possible_moves(game: &Game, acc: &mut Vec<GameMove>)
    ensures
        final(acc)@ == old(acc)@ + game.legal_moves(),
{
    acc.reserve(18);
    let syms = game.whos_next.symbols();
    let mut idx: usize = 0;
    while idx < 9
        invariant
            idx <= 9,
            syms@ == game.whos_next.own_symbols(),
            acc@ == old(acc)@ + game.moves_below(idx as int),
        decreases 9 - idx,
    {
        let place = game.board.places[idx];
        let mut k: usize = 0;
        while k < syms.len()
            invariant
                idx < 9,
                k <= syms@.len(),
                syms@ == game.whos_next.own_symbols(),
                place == game.board.places[idx as int],
                acc@ == old(acc)@ + game.moves_below(idx as int) + game.moves_on(idx as int, k as int),
            decreases syms@.len() - k,
        {
            let sym = syms[k];
            let ghost before = acc@;
            if let Some(_) = place.combine(sym) {
                acc.push(GameMove { who: game.whos_next, place: PlaceIdx(idx as u8), drawn_symbol: sym });
                assert(acc@ =~= old(acc)@ + game.moves_below(idx as int) + game.moves_on(
                    idx as int,
                    k + 1,
                ));
            } else {
                assert(acc@ =~= old(acc)@ + game.moves_below(idx as int) + game.moves_on(
                    idx as int,
                    k + 1,
                ));
            }
            k += 1;
        }
        assert(acc@ =~= old(acc)@ + game.moves_below(idx + 1));
        idx += 1;
    }
}

/// Whether every place of the board holds two symbols.
pub fn board_is_complete(board: &Board) -> (r: bool)
    ensures
        r == forall|i: int| 0 <= i < 9 ==> (#[trigger] board.places[i]) is TwoPlaced,
{
    let mut i: usize = 0;
    while i < 9
        invariant
            i <= 9,
            forall|j: int| 0 <= j < i ==> (#[trigger] board.places[j]) is TwoPlaced,
        decreases 9 - i,
    {
        if !matches!(board.places[i], Place::TwoPlaced(_, _)) {
            return false;
        }
        i += 1;
    }
    true
}

/// One more legal move, to a state outside `avoid`, stays reachable.
proof fn lemma_reach_step(starts: Seq<Game>, avoid: Set<Game>, g: Game, h: Game)
    requires
        reachable_avoiding(starts, avoid, g),
        is_successor(g, h),
        !avoid.contains(h),
    ensures
        reachable_avoiding(starts, avoid, h),
{
    let p = choose|p: Seq<Game>|
        #![trigger is_path(p), p.last()]
        is_path(p) && starts.contains(p[0]) && p.last() == g && forall|j: int|
            0 <= j < p.len() ==> !avoid.contains(#[trigger] p[j]);
    let q = p.push(h);
    assert forall|j: int| 0 <= j < q.len() - 1 implies #[trigger] is_successor(q[j], q[j + 1]) by {
        if j < p.len() - 1 {
            assert(q[j] == p[j] && q[j + 1] == p[j + 1]);
        } else {
            assert(q[j] == g && q[j + 1] == h);
        }
    }
    assert forall|j: int| 0 <= j < q.len() implies !avoid.contains(#[trigger] q[j]) by {
        if j < p.len() {
            assert(q[j] == p[j]);
        }
    }
    assert(is_path(q) && starts.contains(q[0]) && q.last() == h);
}

/// A start is reachable, unless it is to be avoided.
proof fn lemma_reach_start(starts: Seq<Game>, avoid: Set<Game>, i: int)
    requires
        0 <= i < starts.len(),
        !avoid.contains(starts[i]),
    ensures
        reachable_avoiding(starts, avoid, starts[i]),
{
    let p = seq![starts[i]];
    assert(p[0] == starts[i]);
    assert(is_path(p) && starts.contains(p[0]) && p.last() == starts[i]);
}

/// A set that holds the starts and, with each state outside `avoid`, the
/// states that follow it, holds every state of a path from a start that avoids `avoid`.
proof fn lemma_path_in_closed_set(v: Set<Game>, avoid: Set<Game>, starts: Seq<Game>, p: Seq<Game>, n: int)
    requires
        is_path(p),
        0 <= n < p.len(),
        starts.contains(p[0]),
        forall|i: int| 0 <= i < starts.len() ==> v.contains(#[trigger] starts[i]),
        forall|j: int| 0 <= j < p.len() ==> !avoid.contains(#[trigger] p[j]),
        forall|g: Game, h: Game|
            v.contains(g) && !avoid.contains(g) && #[trigger] is_successor(g, h) ==> v.contains(h),
    ensures
        v.contains(p[n]),
    decreases n,
{
    if n > 0 {
        lemma_path_in_closed_set(v, avoid, starts, p, n - 1);
        assert(is_successor(p[n - 1], p[n - 1 + 1]));
        assert(!avoid.contains(p[n - 1]));
    }
}

/// Explores depth first from the states on `stack`: every state that is
/// reached from one of them by legal moves, through states not yet in
/// `games`, is added to `games`. A state already in `games` is not explored
/// again. `moves` is scratch space and is left empty, and so is `stack`.
pub fn enumerate_from(stack: &mut Vec<Game>, games: &mut GameSet, moves: &mut Vec<GameMove>)
    requires
        old(games).wf(),
    ensures
        final(games).wf(),
        final(stack)@ == Seq::<Game>::empty(),
        final(moves)@ == Seq::<GameMove>::empty(),
        final(games)@ == old(games)@.union(
            Set::new(|h: Game| reachable_avoiding(old(stack)@, old(games)@, h)),
        ),
{
    let ghost s0 = stack@;
    let ghost v0 = games@;
    moves.clear();
    proof {
        games.lemma_len_bound();
        assert forall|i: int| 0 <= i < stack.len() implies v0.contains(#[trigger] stack@[i])
            || reachable_avoiding(s0, v0, stack@[i]) by {
            if !v0.contains(stack@[i]) {
                lemma_reach_start(s0, v0, i);
            }
        }
        assert forall|i: int| 0 <= i < s0.len() implies games@.contains(#[trigger] s0[i])
            || stack@.contains(s0[i]) by {
            assert(stack@[i] == s0[i]);
        }
    }
    while stack.len() > 0
        invariant
            games.wf(),
            games@.finite(),
            games@.len() <= GAME_KEY_SPACE,
            moves@ == Seq::<GameMove>::empty(),
            forall|h: Game| v0.contains(h) ==> games@.contains(h),
            forall|h: Game|
                #[trigger] games@.contains(h) ==> v0.contains(h) || reachable_avoiding(s0, v0, h),
            forall|i: int|
                0 <= i < stack.len() ==> v0.contains(#[trigger] stack@[i]) || reachable_avoiding(
                    s0,
                    v0,
                    stack@[i],
                ),
            forall|i: int|
                0 <= i < s0.len() ==> games@.contains(#[trigger] s0[i]) || stack@.contains(s0[i]),
            forall|g: Game, h: Game|
                games@.contains(g) && !v0.contains(g) && #[trigger] is_successor(g, h)
                    ==> games@.contains(h) || stack@.contains(h),
        decreases GAME_KEY_SPACE - games@.len(), stack.len(),
    {
        let ghost before = stack@;
        let ghost old_games = games@;
        let g = stack.pop().unwrap();
        let ghost popped = stack@;
        proof {
            assert(before =~= popped.push(g));
            assert forall|x: Game| before.contains(x) implies popped.contains(x) || x == g by {
                let j = choose|j: int| 0 <= j < before.len() && before[j] == x;
                if j < popped.len() {
                    assert(popped[j] == x);
                }
            }
            assert forall|x: Game| popped.contains(x) implies stack@.contains(x) by {}
        }
        if games.insert(g) {
            proof {
                games.lemma_len_bound();
                assert(before[before.len() - 1] == g);
                assert(!v0.contains(g));
            }
            possible_moves(&g, moves);
            proof {
                lemma_legal_moves_accepted(g, 9);
                assert(moves@ =~= g.legal_moves());
            }
            let mut k: usize = 0;
            while k < moves.len()
                invariant
                    k <= moves.len(),
                    moves@ == g.legal_moves(),
                    forall|j: int|
                        0 <= j < g.legal_moves().len() ==> {
                            let m = #[trigger] g.legal_moves()[j];
                            &&& m.place.0 < 9
                            &&& g.moved(m) is Some
                        },
                    stack@ == popped + g.successors().take(k as int),
                decreases moves.len() - k,
            {
                let m = moves[k];
                assert(m == g.legal_moves()[k as int]);
                match g.try_move(m) {
                    Some(ng) => {
                        stack.push(ng);
                        assert(stack@ =~= popped + g.successors().take(k + 1));
                    },
                    None => {},
                }
                k += 1;
            }
            moves.clear();
            proof {
                assert(g.successors().take(g.successors().len() as int) =~= g.successors());
                assert(stack@ == popped + g.successors());
                assert forall|x: Game| popped.contains(x) implies stack@.contains(x) by {
                    let j = choose|j: int| 0 <= j < popped.len() && popped[j] == x;
                    assert(stack@[j] == x);
                }
                assert forall|h: Game| is_successor(g, h) implies stack@.contains(h) by {
                    let j = choose|j: int| 0 <= j < g.successors().len() && g.successors()[j] == h;
                    assert(stack@[popped.len() + j] == h);
                }
                assert forall|i: int| 0 <= i < stack.len() implies v0.contains(#[trigger] stack@[i])
                    || reachable_avoiding(s0, v0, stack@[i]) by {
                    if i < popped.len() {
                        assert(stack@[i] == before[i]);
                    } else {
                        let h = stack@[i];
                        assert(h == g.successors()[i - popped.len()]);
                        assert(g.successors().contains(h));
                        if !v0.contains(h) {
                            lemma_reach_step(s0, v0, g, h);
                        }
                    }
                }
                assert forall|i: int| 0 <= i < s0.len() implies games@.contains(#[trigger] s0[i])
                    || stack@.contains(s0[i]) by {
                    if !old_games.contains(s0[i]) {
                        assert(before.contains(s0[i]));
                    }
                }
                assert forall|a: Game, h: Game|
                    games@.contains(a) && !v0.contains(a) && #[trigger] is_successor(a, h) implies games@.contains(h)
                    || stack@.contains(h) by {
                    if a != g {
                        assert(old_games.contains(a));
                        if !old_games.contains(h) {
                            assert(before.contains(h));
                        }
                    }
                }
            }
        } else {
            proof {
                assert(games@ == old_games);
                assert(stack@ == popped);
                assert forall|i: int| 0 <= i < stack.len() implies v0.contains(#[trigger] stack@[i])
                    || reachable_avoiding(s0, v0, stack@[i]) by {
                    assert(stack@[i] == before[i]);
                }
                assert forall|i: int| 0 <= i < s0.len() implies games@.contains(#[trigger] s0[i])
                    || stack@.contains(s0[i]) by {
                    if !old_games.contains(s0[i]) {
                        assert(before.contains(s0[i]));
                    }
                }
                assert forall|a: Game, h: Game|
                    games@.contains(a) && !v0.contains(a) && #[trigger] is_successor(a, h) implies games@.contains(h)
                    || stack@.contains(h) by {
                    if !old_games.contains(h) {
                        assert(before.contains(h));
                    }
                }
            }
        }
    }
    proof {
        let r = Set::new(|h: Game| reachable_avoiding(s0, v0, h));
        assert(stack@ =~= Seq::<Game>::empty());
        assert forall|h: Game| games@.contains(h) <==> v0.union(r).contains(h) by {
            if reachable_avoiding(s0, v0, h) {
                let p = choose|p: Seq<Game>|
                    #![trigger is_path(p), p.last()]
                    is_path(p) && s0.contains(p[0]) && p.last() == h && forall|j: int|
                        0 <= j < p.len() ==> !v0.contains(#[trigger] p[j]);
                assert forall|i: int| 0 <= i < s0.len() implies games@.contains(#[trigger] s0[i]) by {
                    assert(!stack@.contains(s0[i]));
                }
                assert forall|a: Game, b: Game|
                    games@.contains(a) && !v0.contains(a) && #[trigger] is_successor(a, b) implies games@.contains(b) by {
                    assert(!stack@.contains(b));
                }
                lemma_path_in_closed_set(games@, v0, s0, p, p.len() - 1);
            }
        }
        assert(games@ =~= v0.union(r));
    }
}

/// The terminal states among `s`.
pub open spec fn terminal_among(s: Set<Game>) -> Set<Game> {
    s.filter(|g: Game| g.is_terminal())
}

/// How many states of `s` have `p` to move.
pub open spec fn count_to_move(s: Set<Game>, p: Player) -> nat {
    s.filter(|g: Game| g.whos_next == p).len()
}

impl Game {
    /// The start of a game that `XS` opens: an empty board, `XS` to move.
    pub fn xs_starts() -> (r: Game)
        ensures
            r == Game::opening(Player::XS),
    {
        Game { whos_next: Player::XS, board: Board { places: [Place::Empty; 9] } }
    }

    /// The start of a game that `OT` opens: an empty board, `OT` to move.
    pub fn ot_starts() -> (r: Game)
        ensures
            r == Game::opening(Player::OT),
    {
        Game { whos_next: Player::OT, board: Board { places: [Place::Empty; 9] } }
    }
}

/// Every state that play reaches from `starts`, `starts` included.
fn enumerate_starts(starts: Vec<Game>, capacity: usize) -> (r: GameSet)
    ensures
        r.wf(),
        r@ == reachable_from(starts@),
{
    let mut initial_states = starts;
    let ghost s0 = initial_states@;
    let mut games = GameSet::new();
    let mut moves: Vec<GameMove> = Vec::with_capacity(capacity);
    enumerate_from(&mut initial_states, &mut games, &mut moves);
    assert(games@ =~= reachable_from(s0));
    games
}

/// Every state that play reaches from `game`, `game` included.
pub fn enumerate(game: Game) -> (r: GameSet)
    ensures
        r.wf(),
        r@ == reachable_from(seq![game]),
{
    let v = vec![game];
    assert(v@ =~= seq![game]);
    enumerate_starts(v, 18)
}

/// Every state of a game that `XS` opens.
pub fn enumerate_xs() -> (r: GameSet)
    ensures
        r.wf(),
        r@ == reachable_from(seq![Game::opening(Player::XS)]),
{
    enumerate(Game::xs_starts())
}

/// Every state of a game that `OT` opens.
pub fn enumerate_ot() -> (r: GameSet)
    ensures
        r.wf(),
        r@ == reachable_from(seq![Game::opening(Player::OT)]),
{
    enumerate(Game::ot_starts())
}

/// Every state of a game that either player opens.
pub fn enumerate_all() -> (r: GameSet)
    ensures
        r.wf(),
        r@ == reachable_from(seq![Game::opening(Player::XS), Game::opening(Player::OT)]),
{
    let v = vec![Game::xs_starts(), Game::ot_starts()];
    assert(v@ =~= seq![Game::opening(Player::XS), Game::opening(Player::OT)]);
    enumerate_starts(v, 36)
}

/// The states of `all_games` in which the player to move has no legal move.
pub fn terminal_states(all_games: &GameSet) -> (r: GameSet)
    requires
        all_games.wf(),
    ensures
        r.wf(),
        r@ == terminal_among(all_games@),
{
    let mut terminals = GameSet::new();
    let gs = all_games.games();
    let mut i: usize = 0;
    while i < gs.len()
        invariant
            i <= gs@.len(),
            terminals.wf(),
            forall|h: Game|
                #[trigger] terminals@.contains(h) <==> (h.is_terminal() && exists|j: int|
                    0 <= j < i && gs@[j] == h),
        decreases gs@.len() - i,
    {
        let g = gs[i];
        let mut moves: Vec<GameMove> = Vec::with_capacity(18);
        possible_moves(&g, &mut moves);
        if moves.len() == 0 {
            terminals.insert(g);
        }
        proof {
            assert forall|h: Game|
                #[trigger] terminals@.contains(h) <==> (h.is_terminal() && exists|j: int|
                    0 <= j < i + 1 && gs@[j] == h) by {
                if h == g {
                    assert(gs@[i as int] == h);
                }
                if h.is_terminal() && (exists|j: int| 0 <= j < i + 1 && gs@[j] == h) && h != g {
                    let j = choose|j: int| 0 <= j < i + 1 && gs@[j] == h;
                    assert(j < i);
                }
            }
        }
        i += 1;
    }
    proof {
        assert forall|h: Game| #[trigger] terminals@.contains(h) <==> terminal_among(all_games@).contains(h) by {
            if all_games@.contains(h) {
                assert(gs@.contains(h));
            }
        }
        assert(terminals@ =~= terminal_among(all_games@));
    }
    terminals
}

/// How many of `games` have `p` to move.
fn count_to_move_in(games: &[Game], p: Player) -> (r: usize)
    requires
        games@.no_duplicates(),
    ensures
        r == count_to_move(games@.to_set(), p),
{
    let mut count: usize = 0;
    let ghost mut counted: Set<Game> = Set::empty();
    let mut i: usize = 0;
    while i < games.len()
        invariant
            i <= games@.len(),
            games@.no_duplicates(),
            counted.finite(),
            count == counted.len(),
            count <= i,
            forall|h: Game|
                #[trigger] counted.contains(h) <==> (h.whos_next == p && exists|j: int|
                    0 <= j < i && games@[j] == h),
        decreases games@.len() - i,
    {
        let g = games[i];
        if g.whos_next == p {
            proof {
                assert(!counted.contains(g)) by {
                    if counted.contains(g) {
                        let j = choose|j: int| 0 <= j < i && games@[j] == g;
                        assert(games@[j] == games@[i as int]);
                    }
                }
                counted = counted.insert(g);
            }
            count += 1;
        }
        proof {
            assert forall|h: Game|
                #[trigger] counted.contains(h) <==> (h.whos_next == p && exists|j: int|
                    0 <= j < i + 1 && games@[j] == h) by {
                if h == g {
                    assert(games@[i as int] == h);
                }
                if h.whos_next == p && (exists|j: int| 0 <= j < i + 1 && games@[j] == h) && h != g {
                    let j = choose|j: int| 0 <= j < i + 1 && games@[j] == h;
                    assert(j < i);
                }
            }
        }
        i += 1;
    }
    proof {
        assert forall|h: Game| #[trigger] counted.contains(h) <==> games@.to_set().filter(
            |g: Game| g.whos_next == p,
        ).contains(h) by {
        }
        assert(counted =~= games@.to_set().filter(|g: Game| g.whos_next == p));
    }
    count
}

/// What the exploration of every game finds.
pub struct Report {
    /// Terminal states, over games that either player opens, that `XS` wins
    /// (`OT` is to move and cannot).
    pub all_xs_wins: usize,
    /// Terminal states, over games that either player opens, that `OT` wins.
    pub all_ot_wins: usize,
    /// Terminal states of games that `XS` opens and wins.
    pub xs_wins_starting: usize,
    /// Terminal states of games that `XS` opens and loses.
    pub xs_loses_starting: usize,
    /// Terminal states of games that `OT` opens and wins.
    pub ot_wins_starting: usize,
    /// Terminal states of games that `OT` opens and loses.
    pub ot_loses_starting: usize,
    /// The number of states of games that either player opens.
    pub states: usize,
    /// The number of their terminal states.
    pub terminal: usize,
    /// Their terminal states.
    pub incomplete: GameSet,
}

/// Explores every game and counts its states, its terminal states and the
/// wins and losses there.
pub fn report() -> (r: Report)
    ensures
        ({
            let all = reachable_from(seq![Game::opening(Player::XS), Game::opening(Player::OT)]);
            let t_all = terminal_among(all);
            let t_xs = terminal_among(reachable_from(seq![Game::opening(Player::XS)]));
            let t_ot = terminal_among(reachable_from(seq![Game::opening(Player::OT)]));
            &&& r.states == all.len()
            &&& r.terminal == t_all.len()
            &&& r.incomplete.wf()
            &&& r.incomplete@ == t_all
            &&& r.all_xs_wins == count_to_move(t_all, Player::OT)
            &&& r.all_ot_wins == count_to_move(t_all, Player::XS)
            &&& r.xs_wins_starting == count_to_move(t_xs, Player::OT)
            &&& r.xs_loses_starting == count_to_move(t_xs, Player::XS)
            &&& r.ot_wins_starting == count_to_move(t_ot, Player::XS)
            &&& r.ot_loses_starting == count_to_move(t_ot, Player::OT)
        }),
{
    let all_games = enumerate_all();
    let all_terminal = terminal_states(&all_games);

    let xs_wins = count_to_move_in(all_terminal.games(), Player::OT);
    let ot_wins = count_to_move_in(all_terminal.games(), Player::XS);

    let xs_starts = enumerate_xs();
    let xs_terminal = terminal_states(&xs_starts);
    let xs_wins_starting = count_to_move_in(xs_terminal.games(), Player::OT);
    let xs_loses_starting = count_to_move_in(xs_terminal.games(), Player::XS);

    let ot_starts = enumerate_ot();
    let ot_terminal = terminal_states(&ot_starts);
    let ot_wins_starting = count_to_move_in(ot_terminal.games(), Player::XS);
    let ot_loses_starting = count_to_move_in(ot_terminal.games(), Player::OT);

    Report {
        all_xs_wins: xs_wins,
        all_ot_wins: ot_wins,
        xs_wins_starting,
        xs_loses_starting,
        ot_wins_starting,
        ot_loses_starting,
        states: all_games.len(),
        terminal: all_terminal.len(),
        incomplete: all_terminal,
    }
}

/// The states reached from two starts are those reached from one or the other.
pub proof fn lemma_reachable_union(a: Game, b: Game)
    ensures
        reachable_from(seq![a, b]) == reachable_from(seq![a]).union(reachable_from(seq![b])),
{
    let none = Set::<Game>::empty();
    let both = reachable_from(seq![a, b]);
    let either = reachable_from(seq![a]).union(reachable_from(seq![b]));
    assert forall|h: Game| #[trigger] both.contains(h) <==> either.contains(h) by {
        if reachable_avoiding(seq![a, b], none, h) {
            let p = choose|p: Seq<Game>|
                #![trigger is_path(p), p.last()]
                is_path(p) && seq![a, b].contains(p[0]) && p.last() == h && forall|j: int|
                    0 <= j < p.len() ==> !none.contains(#[trigger] p[j]);
            let j = choose|j: int| 0 <= j < 2 && seq![a, b][j] == p[0];
            if p[0] == a {
                assert(seq![a][0] == a);
                assert(reachable_avoiding(seq![a], none, h));
            } else {
                assert(seq![b][0] == b);
                assert(reachable_avoiding(seq![b], none, h));
            }
        }
        if reachable_avoiding(seq![a], none, h) {
            let p = choose|p: Seq<Game>|
                #![trigger is_path(p), p.last()]
                is_path(p) && seq![a].contains(p[0]) && p.last() == h && forall|j: int|
                    0 <= j < p.len() ==> !none.contains(#[trigger] p[j]);
            let j = choose|j: int| 0 <= j < 1 && seq![a][j] == p[0];
            assert(seq![a, b][0] == a);
            assert(reachable_avoiding(seq![a, b], none, h));
        }
        if reachable_avoiding(seq![b], none, h) {
            let p = choose|p: Seq<Game>|
                #![trigger is_path(p), p.last()]
                is_path(p) && seq![b].contains(p[0]) && p.last() == h && forall|j: int|
                    0 <= j < p.len() ==> !none.contains(#[trigger] p[j]);
            let j = choose|j: int| 0 <= j < 1 && seq![b][j] == p[0];
            assert(seq![a, b][1] == b);
            assert(reachable_avoiding(seq![a, b], none, h));
        }
    }
    assert(reachable_from(seq![a, b]) =~= reachable_from(seq![a]).union(reachable_from(seq![b])));
}

/// The starts are reached, and whatever follows a reached state is reached.
pub proof fn lemma_reachable_closed(starts: Seq<Game>, g: Game, h: Game)
    ensures
        starts.contains(g) ==> reachable_from(starts).contains(g),
        reachable_from(starts).contains(g) && is_successor(g, h) ==> reachable_from(starts).contains(h),
{
    if starts.contains(g) {
        let i = choose|i: int| 0 <= i < starts.len() && starts[i] == g;
        lemma_reach_start(starts, Set::empty(), i);
    }
    if reachable_from(starts).contains(g) && is_successor(g, h) {
        lemma_reach_step(starts, Set::empty(), g, h);
    }
}

} // verus!
