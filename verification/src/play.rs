//! The state of an interactive session: the game in play, its history for
//! undoing moves, the moves on offer, an opponent played by the computer,
//! and statistics over finished games.
//!
//! The score of a state is not computed here: where a decision needs it,
//! the caller hands in the score, or the winner by the score, of the states
//! that the moves on offer lead to.
use vstd::prelude::*;
use crate::explore::possible_moves;
use crate::logic::{Game, GameMove, Player, Sym};

verus! {

/// How a finished game ended.
#[derive(Copy, Clone, PartialEq, Eq, Structural, Debug)]
pub enum GameOutcome {
    Winner(Player),
    Draw,
}

/// Counts over the finished games of a session.
#[derive(Copy, Clone, PartialEq, Eq, Structural, Debug)]
pub struct GameStats {
    pub xs_wins: usize,
    pub ot_wins: usize,
    pub draws: usize,
    pub games_played: usize,
}

/// A line of three places on which one symbol stands everywhere.
#[derive(Copy, Clone, PartialEq, Eq, Debug)]
pub struct WinningLine {
    pub indices: [usize; 3],
    pub symbol: Sym,
    pub player: Player,
}

/// How the computer chooses its moves.
#[derive(Copy, Clone, PartialEq, Eq, Structural, Debug)]
pub enum AiDifficulty {
    Random,
    Smart,
}

/// The score of a state: what each player has scored.
#[derive(Copy, Clone, PartialEq, Eq, Structural, Debug)]
pub struct Score {
    pub xs: i32,
    pub ot: i32,
}

impl GameStats {
    pub open spec fn zero() -> GameStats {
        GameStats { xs_wins: 0, ot_wins: 0, draws: 0, games_played: 0 }
    }

    /// The counts after one more game that ended with `o`.
    pub open spec fn counted(self, o: GameOutcome) -> GameStats {
        GameStats {
            games_played: (self.games_played + 1) as usize,
            xs_wins: (if o == GameOutcome::Winner(Player::XS) {
                self.xs_wins + 1
            } else {
                self.xs_wins as int
            }) as usize,
            ot_wins: (if o == GameOutcome::Winner(Player::OT) {
                self.ot_wins + 1
            } else {
                self.ot_wins as int
            }) as usize,
            draws: (if o == GameOutcome::Draw {
                self.draws + 1
            } else {
                self.draws as int
            }) as usize,
        }
    }

    /// Whether one more game can be counted without a count overflowing.
    pub open spec fn has_room(self) -> bool {
        self.games_played < usize::MAX && self.xs_wins < usize::MAX && self.ot_wins < usize::MAX
            && self.draws < usize::MAX
    }
}

impl Default for GameStats {
    fn default() -> (r: GameStats)
        ensures
            r == GameStats::zero(),
    {
        GameStats { xs_wins: 0, ot_wins: 0, draws: 0, games_played: 0 }
    }
}

/// The order in which winning lines are looked for, symbol by symbol.
pub open spec fn line_symbols() -> Seq<Sym> {
    seq![Sym::X, Sym::O, Sym::T, Sym::S]
}

/// `s` stands on every place of `line`.
pub open spec fn line_won(game: Game, line: [usize; 3], s: Sym) -> bool {
    forall|k: int| 0 <= k < 3 ==> game.board.places[line[k] as int].holds(s)
}

/// The first `n` of `lines` that `s` wins, in order.
pub open spec fn lines_won(game: Game, lines: Seq<[usize; 3]>, s: Sym, n: int) -> Seq<WinningLine>
    decreases n,
{
    if n <= 0 {
        Seq::empty()
    } else {
        lines_won(game, lines, s, n - 1) + (if line_won(game, lines[n - 1], s) {
            seq![WinningLine { indices: lines[n - 1], symbol: s, player: s.owner() }]
        } else {
            Seq::empty()
        })
    }
}

/// The lines won by the first `k` symbols of `line_symbols()`, symbol by symbol.
pub open spec fn lines_won_by_first(game: Game, lines: Seq<[usize; 3]>, k: int) -> Seq<WinningLine>
    decreases k,
{
    if k <= 0 {
        Seq::empty()
    } else {
        lines_won_by_first(game, lines, k - 1) + lines_won(
            game,
            lines,
            line_symbols()[k - 1],
            lines.len() as int,
        )
    }
}

/// Every winning line of `game` among `lines`: for each symbol in turn, the
/// lines on which it stands everywhere.
pub open spec fn winning_lines_of(game: Game, lines: Seq<[usize; 3]>) -> Seq<WinningLine> {
    lines_won_by_first(game, lines, 4)
}

/// The lines of the board are made of places of the board.
pub open spec fn lines_on_board(lines: Seq<[usize; 3]>) -> bool {
    forall|j: int, k: int| 0 <= j < lines.len() && 0 <= k < 3 ==> #[trigger] lines[j][k] < 9
}

/// The winning lines of `game` among `lines`.
pub fn detect_winning_lines(game: &Game, lines: &[[usize; 3]]) -> (r: Vec<WinningLine>)
    requires
        lines_on_board(lines@),
    ensures
        r@ == winning_lines_of(*game, lines@),
{
    let syms = [Sym::X, Sym::O, Sym::T, Sym::S];
    assert(syms@ =~= line_symbols());
    let mut found: Vec<WinningLine> = Vec::new();
    let mut k: usize = 0;
    while k < 4
        invariant
            k <= 4,
            syms@ == line_symbols(),
            lines_on_board(lines@),
            found@ == lines_won_by_first(*game, lines@, k as int),
        decreases 4 - k,
    {
        let sym = syms[k];
        let ghost before = found@;
        let mut j: usize = 0;
        while j < lines.len()
            invariant
                j <= lines@.len(),
                k < 4,
                sym == line_symbols()[k as int],
                lines_on_board(lines@),
                found@ == before + lines_won(*game, lines@, sym, j as int),
            decreases lines@.len() - j,
        {
            let line = lines[j];
            let mut all = true;
            let mut i: usize = 0;
            while i < 3
                invariant
                    i <= 3,
                    j < lines@.len(),
                    line == lines@[j as int],
                    lines_on_board(lines@),
                    all == forall|q: int| 0 <= q < i ==> game.board.places[line[q] as int].holds(sym),
                decreases 3 - i,
            {
                assert(line[i as int] < 9);
                if !game.board.places[line[i]].contains(sym) {
                    all = false;
                }
                i += 1;
            }
            if all {
                found.push(WinningLine { indices: line, symbol: sym, player: sym.player() });
            }
            assert(found@ =~= before + lines_won(*game, lines@, sym, j + 1));
            j += 1;
        }
        assert(found@ =~= lines_won_by_first(*game, lines@, k + 1));
        k += 1;
    }
    found
}

/// The score of the mover of `game` and of the opponent, out of `s`.
pub open spec fn own_and_other(game: Game, s: Score) -> (int, int) {
    match game.whos_next {
        Player::XS => (s.xs as int, s.ot as int),
        Player::OT => (s.ot as int, s.xs as int),
    }
}

pub open spec fn is_corner(i: u8) -> bool {
    i == 0 || i == 2 || i == 6 || i == 8
}

/// How good the move `m` in `game` is, `s` being the score after it: a
/// hundred per own point, less eighty per point of the opponent, and a
/// bonus of ten for the centre and five for a corner.
pub open spec fn move_value(game: Game, m: GameMove, s: Score) -> int {
    let (mine, theirs) = own_and_other(game, s);
    mine * 100 - theirs * 80 + (if m.place.0 == 4 {
        10int
    } else {
        0
    }) + (if is_corner(m.place.0) {
        5int
    } else {
        0
    })
}

pub open spec fn fits_i32(x: int) -> bool {
    i32::MIN <= x <= i32::MAX
}

/// Every step of working out `move_value` stays within `i32`.
pub open spec fn value_fits(game: Game, m: GameMove, s: Score) -> bool {
    let (mine, theirs) = own_and_other(game, s);
    let base = mine * 100 - theirs * 80;
    &&& fits_i32(mine * 100)
    &&& fits_i32(theirs * 80)
    &&& fits_i32(base)
    &&& fits_i32(base + (if m.place.0 == 4 {
        10int
    } else {
        0
    }))
    &&& fits_i32(move_value(game, m, s))
}

/// Among the first `n` moves, the index and value of the first accepted move
/// of greatest value above `i32::MIN`, or index 0 and `i32::MIN` if none.
pub open spec fn best_choice(game: Game, moves: Seq<GameMove>, scores: Seq<Score>, n: int) -> (
    int,
    int,
)
    decreases n,
{
    if n <= 0 {
        (0, i32::MIN as int)
    } else {
        let (bi, bv) = best_choice(game, moves, scores, n - 1);
        let v = move_value(game, moves[n - 1], scores[n - 1]);
        if game.moved(moves[n - 1]) is Some && v > bv {
            (n - 1, v)
        } else {
            (bi, bv)
        }
    }
}

/// The moves may be tried and valued in `game`.
pub open spec fn smart_inputs_ok(game: Game, moves: Seq<GameMove>, scores: Seq<Score>) -> bool {
    &&& moves.len() > 0
    &&& scores.len() == moves.len()
    &&& forall|i: int|
        0 <= i < moves.len() ==> (#[trigger] moves[i]).who != game.whos_next || moves[i].place.0 < 9
    &&& forall|i: int|
        0 <= i < moves.len() && game.moved(#[trigger] moves[i]) is Some ==> value_fits(
            game,
            moves[i],
            scores[i],
        )
}

/// Picks the first accepted move of greatest value, `scores[i]` being the
/// score after `moves[i]`; the first move where none is accepted.
pub fn choose_smart_move(game: &Game, moves: &[GameMove], scores: &[Score]) -> (r: GameMove)
    requires
        smart_inputs_ok(*game, moves@, scores@),
    ensures
        r == moves@[best_choice(*game, moves@, scores@, moves@.len() as int).0],
{
    moves[best_move_index(game, moves, scores)]
}

/// What a session is, as plain values.
pub struct SessionView {
    pub game: Game,
    pub outcome: Option<GameOutcome>,
    pub history: Seq<Game>,
    pub possible_moves: Seq<GameMove>,
    pub hovered_move: Option<GameMove>,
    pub last_move: Option<GameMove>,
    pub move_count: nat,
    pub stats: GameStats,
    pub winning_lines: Seq<WinningLine>,
    pub ai_player: Option<(Player, AiDifficulty)>,
    pub ai_thinking: bool,
    pub lines: Seq<[usize; 3]>,
}

/// An interactive session. `XS` opens every game of it.
pub struct Session {
    game: Game,
    outcome: Option<GameOutcome>,
    history: Vec<Game>,
    possible_moves: Vec<GameMove>,
    hovered_move: Option<GameMove>,
    last_move: Option<GameMove>,
    move_count: usize,
    stats: GameStats,
    winning_lines: Vec<WinningLine>,
    ai_player: Option<(Player, AiDifficulty)>,
    ai_thinking: bool,
    lines: Vec<[usize; 3]>,
}

impl View for Session {
    type V = SessionView;

    closed spec fn view(&self) -> SessionView {
        SessionView {
            game: self.game,
            outcome: self.outcome,
            history: self.history@,
            possible_moves: self.possible_moves@,
            hovered_move: self.hovered_move,
            last_move: self.last_move,
            move_count: self.move_count as nat,
            stats: self.stats,
            winning_lines: self.winning_lines@,
            ai_player: self.ai_player,
            ai_thinking: self.ai_thinking,
            lines: self.lines@,
        }
    }
}

impl SessionView {
    /// The game in play was reached from the opening by accepted moves, one
    /// per entry of the history; the moves on offer are its legal moves; a
    /// game has an outcome only once no move is left, and winning lines only
    /// once it has an outcome; the lines are on the board.
    pub open spec fn wf(self) -> bool {
        &&& self.history.len() == self.move_count + 1
        &&& self.history[0] == Game::opening(Player::XS)
        &&& self.history.last() == self.game
        &&& forall|j: int|
            0 <= j < self.history.len() ==> (#[trigger] self.history[j]).symbol_count() == j
        &&& self.possible_moves == self.game.legal_moves()
        &&& self.outcome is Some ==> self.possible_moves.len() == 0
        &&& self.outcome is None ==> self.winning_lines.len() == 0
        &&& lines_on_board(self.lines)
    }

    /// A fresh game that keeps the statistics, the computer's part and the lines.
    pub open spec fn fresh(
        stats: GameStats,
        ai_player: Option<(Player, AiDifficulty)>,
        lines: Seq<[usize; 3]>,
    ) -> SessionView {
        SessionView {
            game: Game::opening(Player::XS),
            outcome: None,
            history: seq![Game::opening(Player::XS)],
            possible_moves: Game::opening(Player::XS).legal_moves(),
            hovered_move: None,
            last_move: None,
            move_count: 0,
            stats,
            winning_lines: Seq::empty(),
            ai_player,
            ai_thinking: false,
            lines,
        }
    }

    /// The session once the game is seen to be over, `winner` being who won
    /// it by the score: with no move left, the outcome is fixed and counted,
    /// and the winning lines are found.
    pub open spec fn ended(self, winner: Option<Player>) -> SessionView {
        if self.possible_moves.len() == 0 {
            let o = match winner {
                Some(p) => GameOutcome::Winner(p),
                None => GameOutcome::Draw,
            };
            SessionView {
                outcome: Some(o),
                stats: self.stats.counted(o),
                winning_lines: winning_lines_of(self.game, self.lines),
                ..self
            }
        } else {
            self
        }
    }

    /// Whether a click on `m` plays it: the game is not over and accepts `m`.
    pub open spec fn plays(self, m: GameMove) -> bool {
        self.outcome is None && self.game.moved(m) is Some
    }

    /// The session after a click on `m`, `winner_after` being who wins by
    /// the score of the state that `m` leads to: an accepted move is played
    /// while the game is not over, and the game ends if no move is left;
    /// anything else changes nothing.
    pub open spec fn clicked(self, m: GameMove, winner_after: Option<Player>) -> SessionView {
        if self.plays(m) {
            let next = self.game.moved(m).unwrap();
            SessionView {
                game: next,
                history: self.history.push(next),
                possible_moves: next.legal_moves(),
                hovered_move: None,
                last_move: Some(m),
                move_count: self.move_count + 1,
                ..self
            }.ended(winner_after)
        } else {
            self
        }
    }

    /// A click on `m` can be handled: where the game is not over and it is
    /// the mover's turn, `m` names a place of the board; and where the click
    /// ends the game, the statistics have room to count it.
    pub open spec fn click_ok(self, m: GameMove) -> bool {
        &&& (self.outcome is Some || m.who != self.game.whos_next || m.place.0 < 9)
        &&& (self.plays(m) && self.game.moved(m).unwrap().is_terminal() ==> self.stats.has_room())
    }

    /// The session after undoing: with a move to undo, the game goes back one
    /// state, unfinished and with no winning line to show; otherwise nothing
    /// changes.
    pub open spec fn undone(self) -> SessionView {
        if self.history.len() > 1 {
            let h = self.history.drop_last();
            SessionView {
                game: h.last(),
                outcome: None,
                history: h,
                possible_moves: h.last().legal_moves(),
                hovered_move: None,
                last_move: None,
                move_count: (self.move_count - 1) as nat,
                winning_lines: Seq::empty(),
                ..self
            }
        } else {
            self
        }
    }

    /// Whether the computer moves now: the game is not over, the computer is
    /// not already moving, it plays the player to move, and a move is on offer.
    pub open spec fn ai_moves(self) -> bool {
        &&& self.outcome is None
        &&& !self.ai_thinking
        &&& self.ai_player is Some
        &&& self.game.whos_next == self.ai_player.unwrap().0
        &&& self.possible_moves.len() > 0
    }

    /// The index, among the moves on offer, of the computer's choice.
    pub open spec fn ai_choice(self, scores: Seq<Score>) -> int {
        match self.ai_player.unwrap().1 {
            AiDifficulty::Random => ((self.move_count * 7919) % self.possible_moves.len()) as int,
            AiDifficulty::Smart => best_choice(
                self.game,
                self.possible_moves,
                scores,
                self.possible_moves.len() as int,
            ).0,
        }
    }

    /// The session after the computer's turn, `scores[i]` and `winners[i]`
    /// being the score and the winner after the `i`-th move on offer.
    pub open spec fn ai_stepped(self, scores: Seq<Score>, winners: Seq<Option<Player>>) -> SessionView {
        if self.ai_moves() {
            let i = self.ai_choice(scores);
            self.clicked(self.possible_moves[i], winners[i])
        } else {
            self
        }
    }

    /// What the computer's turn needs: a score and a winner for each move on
    /// offer, scores whose values fit in `i32` where the computer plays
    /// `Smart`, and room to count the game if the chosen move ends it.
    pub open spec fn ai_inputs_ok(self, scores: Seq<Score>, winners: Seq<Option<Player>>) -> bool {
        &&& scores.len() == self.possible_moves.len()
        &&& winners.len() == self.possible_moves.len()
        &&& self.ai_moves() && self.ai_player.unwrap().1 == AiDifficulty::Smart ==> smart_inputs_ok(
            self.game,
            self.possible_moves,
            scores,
        )
        &&& self.ai_moves() ==> self.click_ok(self.possible_moves[self.ai_choice(scores)])
    }
}

proof fn lemma_opening_symbols()
    ensures
        Game::opening(Player::XS).symbol_count() == 0,
{
    let s = Game::opening(Player::XS).board.places@;
    assert forall|i: int| 0 <= i < 9 implies s[i] == crate::logic::Place::Empty by {}
    reveal_with_fuel(crate::explore::symbols_on, 10);
}

/// A copy of `v`.
fn copied<T: Copy>(v: &Vec<T>) -> (r: Vec<T>)
    ensures
        r@ == v@,
{
    let mut r: Vec<T> = Vec::new();
    let mut i: usize = 0;
    while i < v.len()
        invariant
            i <= v@.len(),
            r@ == v@.subrange(0, i as int),
        decreases v@.len() - i,
    {
        r.push(v[i]);
        i += 1;
        assert(r@ =~= v@.subrange(0, i as int));
    }
    assert(v@.subrange(0, v@.len() as int) =~= v@);
    r
}

impl Session {
    #[verifier::type_invariant]
    spec fn inv(self) -> bool {
        self@.wf()
    }

    /// A session with a fresh game, no finished game counted and no computer
    /// player; `lines` are the lines that win.
    pub fn new(lines: Vec<[usize; 3]>) -> (r: Session)
        requires
            lines_on_board(lines@),
        ensures
            r@ == SessionView::fresh(GameStats::zero(), None, lines@),
            r@.wf(),
    {
        let initial_game = Game::xs_starts();
        let mut moves = Vec::new();
        possible_moves(&initial_game, &mut moves);
        proof {
            lemma_opening_symbols();
            assert(moves@ =~= initial_game.legal_moves());
        }
        let history = vec![initial_game];
        assert(history@ =~= seq![Game::opening(Player::XS)]);
        let r = Session {
            game: initial_game,
            outcome: None,
            history,
            possible_moves: moves,
            hovered_move: None,
            last_move: None,
            move_count: 0,
            stats: GameStats::default(),
            winning_lines: Vec::new(),
            ai_player: None,
            ai_thinking: false,
            lines,
        };
        assert(r@.winning_lines =~= Seq::<WinningLine>::empty());
        r
    }

    pub fn game(&self) -> (r: Game)
        ensures
            r == self@.game,
    {
        self.game
    }

    pub fn outcome(&self) -> (r: Option<GameOutcome>)
        ensures
            r == self@.outcome,
    {
        self.outcome
    }

    pub fn history(&self) -> (r: &[Game])
        ensures
            r@ == self@.history,
    {
        self.history.as_slice()
    }

    pub fn possible_moves(&self) -> (r: &[GameMove])
        ensures
            r@ == self@.possible_moves,
    {
        self.possible_moves.as_slice()
    }

    pub fn hovered_move(&self) -> (r: Option<GameMove>)
        ensures
            r == self@.hovered_move,
    {
        self.hovered_move
    }

    pub fn last_move(&self) -> (r: Option<GameMove>)
        ensures
            r == self@.last_move,
    {
        self.last_move
    }

    pub fn move_count(&self) -> (r: usize)
        ensures
            r == self@.move_count,
    {
        self.move_count
    }

    pub fn stats(&self) -> (r: GameStats)
        ensures
            r == self@.stats,
    {
        self.stats
    }

    pub fn winning_lines(&self) -> (r: &[WinningLine])
        ensures
            r@ == self@.winning_lines,
    {
        self.winning_lines.as_slice()
    }

    pub fn ai_player(&self) -> (r: Option<(Player, AiDifficulty)>)
        ensures
            r == self@.ai_player,
    {
        self.ai_player
    }

    pub fn ai_thinking(&self) -> (r: bool)
        ensures
            r == self@.ai_thinking,
    {
        self.ai_thinking
    }

    /// Starts a fresh game; the statistics, the computer's part and the lines stay.
    pub fn new_game(&mut self)
        ensures
            final(self)@ == SessionView::fresh(old(self)@.stats, old(self)@.ai_player, old(self)@.lines),
            final(self)@.wf(),
    {
        proof {
            use_type_invariant(&*self);
        }
        let stats = self.stats;
        let ai_player = self.ai_player;
        let lines = copied(&self.lines);
        let fresh = Session::new(lines);
        *self = Session { stats, ai_player, ..fresh };
    }

    /// Lets the computer play `ai_player`, or nobody.
    pub fn set_ai_player(&mut self, ai_player: Option<(Player, AiDifficulty)>)
        ensures
            final(self)@ == (SessionView { ai_player, ..old(self)@ }),
            final(self)@.wf(),
    {
        proof {
            use_type_invariant(&*self);
        }
        self.ai_player = ai_player;
    }

    /// Forgets the statistics.
    pub fn reset_stats(&mut self)
        ensures
            final(self)@ == (SessionView { stats: GameStats::zero(), ..old(self)@ }),
            final(self)@.wf(),
    {
        proof {
            use_type_invariant(&*self);
        }
        self.stats = GameStats::default();
    }

    /// The winning lines of the game in play.
    pub fn detect_winning_lines(&self) -> (r: Vec<WinningLine>)
        ensures
            r@ == winning_lines_of(self@.game, self@.lines),
    {
        proof {
            use_type_invariant(self);
        }
        detect_winning_lines(&self.game, self.lines.as_slice())
    }

    /// Goes back one move, where there is one, and offers the moves of the
    /// state gone back to.
    pub fn undo_move(&mut self)
        ensures
            final(self)@ == old(self)@.undone(),
            final(self)@.wf(),
    {
        proof {
            use_type_invariant(&*self);
        }
        if self.history.len() > 1 {
            let mut history = copied(&self.history);
            history.pop();
            let game = history[history.len() - 1];
            let mut moves = Vec::new();
            possible_moves(&game, &mut moves);
            proof {
                assert(history@ == self.history@.drop_last());
                assert(moves@ =~= game.legal_moves());
                assert forall|j: int| 0 <= j < history@.len() implies (
                #[trigger] history@[j]).symbol_count() == j by {
                    assert(history@[j] == self.history@[j]);
                }
            }
            let s = Session {
                game,
                outcome: None,
                history,
                possible_moves: moves,
                hovered_move: None,
                last_move: None,
                move_count: self.move_count - 1,
                stats: self.stats,
                winning_lines: Vec::new(),
                ai_player: self.ai_player,
                ai_thinking: self.ai_thinking,
                lines: copied(&self.lines),
            };
            *self = s;
        }
    }

    /// Plays `game_move` if the game is not over and the game in play accepts
    /// it; if no move is then left, the game ends, `winner_after` being who
    /// wins by the score of the new state.
    pub fn handle_move_click(&mut self, game_move: GameMove, winner_after: Option<Player>)
        requires
            old(self)@.click_ok(game_move),
        ensures
            final(self)@ == old(self)@.clicked(game_move, winner_after),
            final(self)@.wf(),
    {
        proof {
            use_type_invariant(&*self);
        }
        if self.outcome.is_some() {
            return;
        }
        if let Some(next_game_state) = self.game.try_move(game_move) {
            proof {
                crate::explore::lemma_move_adds_symbol(self.game, game_move);
            }
            let mut history = copied(&self.history);
            history.push(next_game_state);
            let mut moves = Vec::new();
            possible_moves(&next_game_state, &mut moves);
            proof {
                assert(moves@ =~= next_game_state.legal_moves());
                assert forall|j: int| 0 <= j < history@.len() implies (
                #[trigger] history@[j]).symbol_count() == j by {
                    if j < self.history@.len() {
                        assert(history@[j] == self.history@[j]);
                    }
                }
            }
            let s = Session {
                game: next_game_state,
                outcome: None,
                history,
                possible_moves: moves,
                hovered_move: None,
                last_move: Some(game_move),
                move_count: self.move_count + 1,
                stats: self.stats,
                winning_lines: copied(&self.winning_lines),
                ai_player: self.ai_player,
                ai_thinking: self.ai_thinking,
                lines: copied(&self.lines),
            };
            *self = s;
            proof {
                crate::explore::lemma_terminal_iff_full(next_game_state);
            }
            self.check_for_game_end(winner_after);
        }
    }

    /// Once no move is left, fixes the outcome, `winner` being who won by
    /// the score, counts it and finds the winning lines.
    pub fn check_for_game_end(&mut self, winner: Option<Player>)
        requires
            old(self)@.possible_moves.len() == 0 ==> old(self)@.stats.has_room(),
        ensures
            final(self)@ == old(self)@.ended(winner),
            final(self)@.wf(),
    {
        proof {
            use_type_invariant(&*self);
        }
        if self.possible_moves.len() == 0 {
            let outcome = match winner {
                Some(player) => GameOutcome::Winner(player),
                None => GameOutcome::Draw,
            };
            let mut stats = self.stats;
            stats.games_played += 1;
            match outcome {
                GameOutcome::Winner(Player::XS) => stats.xs_wins += 1,
                GameOutcome::Winner(Player::OT) => stats.ot_wins += 1,
                GameOutcome::Draw => stats.draws += 1,
            }
            let winning_lines = self.detect_winning_lines();
            let s = Session {
                game: self.game,
                outcome: Some(outcome),
                history: copied(&self.history),
                possible_moves: Vec::new(),
                hovered_move: self.hovered_move,
                last_move: self.last_move,
                move_count: self.move_count,
                stats,
                winning_lines,
                ai_player: self.ai_player,
                ai_thinking: self.ai_thinking,
                lines: copied(&self.lines),
            };
            assert(s@.possible_moves =~= self.possible_moves@);
            *self = s;
        }
    }

    /// The computer's turn, where it plays the player to move: it picks a
    /// move on offer (by the move count, or by value) and plays it.
    /// `scores[i]` and `winners[i]` are the score and the winner by the score
    /// after the `i`-th move on offer.
    pub fn try_ai_move(&mut self, scores: &[Score], winners: &[Option<Player>])
        requires
            old(self)@.ai_inputs_ok(scores@, winners@),
        ensures
            final(self)@ == old(self)@.ai_stepped(scores@, winners@),
            final(self)@.wf(),
    {
        proof {
            use_type_invariant(&*self);
        }
        if self.outcome.is_some() || self.ai_thinking {
            return;
        }
        if let Some((ai_player, difficulty)) = self.ai_player {
            if self.game.whos_next == ai_player && self.possible_moves.len() > 0 {
                proof {
                    assert(self@.move_count <= 18) by {
                        crate::explore::lemma_legal_moves_accepted(self.game, 9);
                        crate::explore::lemma_move_adds_symbol(self.game, self.possible_moves@[0]);
                        assert(self.history@[self.history@.len() - 1].symbol_count() == self.move_count);
                    }
                }
                let idx = match difficulty {
                    AiDifficulty::Random => (self.move_count * 7919) % self.possible_moves.len(),
                    AiDifficulty::Smart => best_move_index(
                        &self.game,
                        self.possible_moves.as_slice(),
                        scores,
                    ),
                };
                let chosen_move = self.possible_moves[idx];
                self.handle_move_click(chosen_move, winners[idx]);
            }
        }
    }
}

/// The index of the first accepted move of greatest value, `scores[i]`
/// being the score after `moves[i]`; 0 where none is accepted.
fn best_move_index(game: &Game, moves: &[GameMove], scores: &[Score]) -> (r: usize)
    requires
        smart_inputs_ok(*game, moves@, scores@),
    ensures
        r < moves@.len(),
        r == best_choice(*game, moves@, scores@, moves@.len() as int).0,
{
    let mut best_index: usize = 0;
    let mut best_score: i32 = i32::MIN;
    let mut i: usize = 0;
    while i < moves.len()
        invariant
            i <= moves@.len(),
            smart_inputs_ok(*game, moves@, scores@),
            best_choice(*game, moves@, scores@, i as int) == (best_index as int, best_score as int),
            best_index < moves@.len(),
        decreases moves@.len() - i,
    {
        let game_move = moves[i];
        if let Some(_next_game) = game.try_move(game_move) {
            let game_score = scores[i];
            assert(value_fits(*game, game_move, game_score));
            let my_score: i32 = match game.whos_next {
                Player::XS => game_score.xs,
                Player::OT => game_score.ot,
            };
            let opp_score: i32 = match game.whos_next {
                Player::XS => game_score.ot,
                Player::OT => game_score.xs,
            };
            let mut score: i32 = my_score * 100 - opp_score * 80;
            if game_move.place.0 == 4 {
                score += 10;
            }
            let p = game_move.place.0;
            if p == 0 || p == 2 || p == 6 || p == 8 {
                score += 5;
            }
            assert(score == move_value(*game, game_move, game_score));
            if score > best_score {
                best_score = score;
                best_index = i;
            }
        }
        i += 1;
    }
    best_index
}

/// Undoing a move that a click played gives back the session as it was,
/// but for the last move, which is forgotten, and for the statistics of a
/// game that the move ended.
pub proof fn lemma_undo_reverts_click(v: SessionView, m: GameMove, w: Option<Player>)
    requires
        v.wf(),
        v.click_ok(m),
        v.plays(m),
    ensures
        v.clicked(m, w).undone() == (SessionView {
            last_move: None,
            hovered_move: None,
            stats: v.clicked(m, w).stats,
            ..v
        }),
        !v.game.moved(m).unwrap().is_terminal() ==> v.clicked(m, w).stats == v.stats,
{
    let c = v.clicked(m, w);
    assert(c.history.drop_last() =~= v.history);
    assert(v.winning_lines =~= Seq::<WinningLine>::empty());
}

/// A click that plays a move ends the game exactly when no move is left.
pub proof fn lemma_click_ends_when_stuck(v: SessionView, m: GameMove, w: Option<Player>)
    requires
        v.wf(),
        v.plays(m),
    ensures
        v.clicked(m, w).outcome is Some <==> v.clicked(m, w).possible_moves.len() == 0,
        v.clicked(m, w).outcome is Some <==> v.game.moved(m).unwrap().is_terminal(),
{
}

/// The session stays well formed whatever is clicked, undone or ended.
pub proof fn lemma_session_wf_kept(v: SessionView, m: GameMove, winner: Option<Player>)
    requires
        v.wf(),
        v.click_ok(m),
    ensures
        v.clicked(m, winner).wf(),
        v.undone().wf(),
        v.ended(winner).wf(),
{
    if v.plays(m) {
        crate::explore::lemma_move_adds_symbol(v.game, m);
        let next = v.game.moved(m).unwrap();
        let h = v.history.push(next);
        assert forall|j: int| 0 <= j < h.len() implies (#[trigger] h[j]).symbol_count() == j by {
            if j < v.history.len() {
                assert(h[j] == v.history[j]);
            }
        }
    }
    if v.history.len() > 1 {
        let u = v.undone();
        assert forall|j: int| 0 <= j < u.history.len() implies (#[trigger] u.history[j]).symbol_count() == j by {
            assert(u.history[j] == v.history[j]);
        }
    }
}

proof fn lemma_lines_won_exact(game: Game, lines: Seq<[usize; 3]>, s: Sym, n: int)
    requires
        0 <= n <= lines.len(),
    ensures
        forall|i: int|
            0 <= i < lines_won(game, lines, s, n).len() ==> {
                let w = #[trigger] lines_won(game, lines, s, n)[i];
                &&& w.symbol == s
                &&& w.player == s.owner()
                &&& exists|j: int| 0 <= j < n && lines[j] == w.indices
                &&& forall|k: int|
                    0 <= k < 3 ==> game.board.places[w.indices[k] as int].holds(w.symbol)
            },
        forall|j: int|
            0 <= j < n && (forall|k: int| 0 <= k < 3 ==> game.board.places[lines[j][k] as int].holds(s))
                ==> lines_won(game, lines, s, n).contains(
                WinningLine { indices: lines[j], symbol: s, player: s.owner() },
            ),
    decreases n,
{
    if n > 0 {
        lemma_lines_won_exact(game, lines, s, n - 1);
        let a = lines_won(game, lines, s, n - 1);
        let c = lines_won(game, lines, s, n);
        let w0 = WinningLine { indices: lines[n - 1], symbol: s, player: s.owner() };
        assert forall|i: int| 0 <= i < c.len() implies {
            let w = #[trigger] c[i];
            &&& w.symbol == s
            &&& w.player == s.owner()
            &&& exists|j: int| 0 <= j < n && lines[j] == w.indices
            &&& forall|k: int|
                0 <= k < 3 ==> game.board.places[w.indices[k] as int].holds(w.symbol)
        } by {
            if i < a.len() {
                assert(c[i] == a[i]);
                let j = choose|j: int| 0 <= j < n - 1 && lines[j] == a[i].indices;
            } else {
                assert(c[i] == w0);
                assert(lines[n - 1] == w0.indices);
            }
        }
        assert forall|j: int|
            0 <= j < n && (forall|k: int| 0 <= k < 3 ==> game.board.places[lines[j][k] as int].holds(s))
            implies c.contains(WinningLine { indices: lines[j], symbol: s, player: s.owner() }) by {
            if j < n - 1 {
                let w = WinningLine { indices: lines[j], symbol: s, player: s.owner() };
                let q = choose|q: int| 0 <= q < a.len() && a[q] == w;
                assert(c[q] == w);
            } else {
                assert(line_won(game, lines[n - 1], s));
                assert(c[a.len() as int] == w0);
            }
        }
    }
}

proof fn lemma_lines_won_by_first_sound(game: Game, lines: Seq<[usize; 3]>, q: int)
    requires
        0 <= q <= 4,
    ensures
        forall|i: int|
            0 <= i < lines_won_by_first(game, lines, q).len() ==> {
                let w = #[trigger] lines_won_by_first(game, lines, q)[i];
                &&& w.player == w.symbol.owner()
                &&& lines.contains(w.indices)
                &&& forall|k: int|
                    0 <= k < 3 ==> game.board.places[w.indices[k] as int].holds(w.symbol)
            },
    decreases q,
{
    if q > 0 {
        lemma_lines_won_by_first_sound(game, lines, q - 1);
        let s = line_symbols()[q - 1];
        lemma_lines_won_exact(game, lines, s, lines.len() as int);
        let a = lines_won_by_first(game, lines, q - 1);
        let b = lines_won(game, lines, s, lines.len() as int);
        let c = lines_won_by_first(game, lines, q);
        assert forall|i: int| 0 <= i < c.len() implies {
            let w = #[trigger] c[i];
            &&& w.player == w.symbol.owner()
            &&& lines.contains(w.indices)
            &&& forall|k: int|
                0 <= k < 3 ==> game.board.places[w.indices[k] as int].holds(w.symbol)
        } by {
            if i < a.len() {
                assert(c[i] == a[i]);
            } else {
                assert(c[i] == b[i - a.len()]);
                let j = choose|j: int| 0 <= j < lines.len() && lines[j] == b[i - a.len()].indices;
            }
        }
    }
}

proof fn lemma_lines_won_by_first_complete(game: Game, lines: Seq<[usize; 3]>, q: int, j: int, t: int)
    requires
        0 <= q <= 4,
        0 <= j < lines.len(),
        0 <= t < q,
        forall|k: int| 0 <= k < 3 ==> game.board.places[lines[j][k] as int].holds(line_symbols()[t]),
    ensures
        lines_won_by_first(game, lines, q).contains(
            WinningLine {
                indices: lines[j],
                symbol: line_symbols()[t],
                player: line_symbols()[t].owner(),
            },
        ),
    decreases q,
{
    let w = WinningLine {
        indices: lines[j],
        symbol: line_symbols()[t],
        player: line_symbols()[t].owner(),
    };
    let a = lines_won_by_first(game, lines, q - 1);
    let b = lines_won(game, lines, line_symbols()[q - 1], lines.len() as int);
    let c = lines_won_by_first(game, lines, q);
    if t < q - 1 {
        lemma_lines_won_by_first_complete(game, lines, q - 1, j, t);
        let x = choose|x: int| 0 <= x < a.len() && a[x] == w;
        assert(c[x] == w);
    } else {
        lemma_lines_won_exact(game, lines, line_symbols()[t], lines.len() as int);
        let x = choose|x: int| 0 <= x < b.len() && b[x] == w;
        assert(c[a.len() + x] == w);
    }
}

/// The winning lines are exactly the given lines on all three places of
/// which one symbol stands, each with that symbol and its owner: every line
/// returned has its symbol on all three of its places, and every such line
/// and symbol is returned.
pub proof fn lemma_winning_lines_exact(game: Game, lines: Seq<[usize; 3]>)
    ensures
        forall|i: int|
            0 <= i < winning_lines_of(game, lines).len() ==> {
                let w = #[trigger] winning_lines_of(game, lines)[i];
                &&& w.player == w.symbol.owner()
                &&& lines.contains(w.indices)
                &&& forall|k: int|
                    0 <= k < 3 ==> game.board.places[w.indices[k] as int].holds(w.symbol)
            },
        forall|j: int, s: Sym|
            0 <= j < lines.len() && (forall|k: int|
                0 <= k < 3 ==> game.board.places[lines[j][k] as int].holds(s)) ==> winning_lines_of(
                game,
                lines,
            ).contains(WinningLine { indices: lines[j], symbol: s, player: s.owner() }),
{
    lemma_lines_won_by_first_sound(game, lines, 4);
    assert forall|j: int, s: Sym|
        0 <= j < lines.len() && (forall|k: int|
            0 <= k < 3 ==> game.board.places[lines[j][k] as int].holds(s)) implies winning_lines_of(
        game,
        lines,
    ).contains(WinningLine { indices: lines[j], symbol: s, player: s.owner() }) by {
        let t: int = match s {
            Sym::X => 0,
            Sym::O => 1,
            Sym::T => 2,
            Sym::S => 3,
        };
        assert(line_symbols()[t] == s);
        lemma_lines_won_by_first_complete(game, lines, 4, j, t);
    }
}

/// Once no move is left, the game ends with the winner handed in: a winner
/// `p` makes the outcome a win for `p`, counted as one more win for `p` and
/// nothing else but one more game; no winner makes it a draw, counted as one
/// more draw. With a move left, nothing changes.
pub proof fn lemma_game_end_outcome(v: SessionView, winner: Option<Player>)
    requires
        v.stats.has_room(),
    ensures
        v.possible_moves.len() > 0 ==> v.ended(winner) == v,
        v.possible_moves.len() == 0 ==> {
            let e = v.ended(winner);
            &&& e.stats.games_played == v.stats.games_played + 1
            &&& match winner {
                Some(Player::XS) => {
                    &&& e.outcome == Some(GameOutcome::Winner(Player::XS))
                    &&& e.stats.xs_wins == v.stats.xs_wins + 1
                    &&& e.stats.ot_wins == v.stats.ot_wins
                    &&& e.stats.draws == v.stats.draws
                },
                Some(Player::OT) => {
                    &&& e.outcome == Some(GameOutcome::Winner(Player::OT))
                    &&& e.stats.ot_wins == v.stats.ot_wins + 1
                    &&& e.stats.xs_wins == v.stats.xs_wins
                    &&& e.stats.draws == v.stats.draws
                },
                None => {
                    &&& e.outcome == Some(GameOutcome::Draw)
                    &&& e.stats.draws == v.stats.draws + 1
                    &&& e.stats.xs_wins == v.stats.xs_wins
                    &&& e.stats.ot_wins == v.stats.ot_wins
                },
            }
        },
{
}

/// A click whose move leaves no legal move ends the game with the winner
/// handed in: a win for `p` where the winner is `p`, a draw where there is none.
pub proof fn lemma_click_outcome(v: SessionView, m: GameMove, w: Option<Player>)
    requires
        v.wf(),
        v.plays(m),
        v.game.moved(m).unwrap().is_terminal(),
    ensures
        v.clicked(m, w).outcome == Some(
            match w {
                Some(p) => GameOutcome::Winner(p),
                None => GameOutcome::Draw,
            },
        ),
        w is Some ==> v.clicked(m, w).outcome != Some(GameOutcome::Draw),
{
}

/// The bonus of a move depends on its place only: a corner (0, 2, 6 or 8)
/// is worth five more, and the centre ten more, than an edge (1, 3, 5 or 7);
/// all edges are worth the same; one more own point is worth a hundred,
/// one more point of the opponent eighty less.
pub proof fn lemma_move_value_bonus(g: Game, m: GameMove, e: GameMove, s: Score)
    requires
        e.place.0 == 1 || e.place.0 == 3 || e.place.0 == 5 || e.place.0 == 7,
    ensures
        m.place.0 == 0 || m.place.0 == 2 || m.place.0 == 6 || m.place.0 == 8 ==> move_value(g, m, s)
            == move_value(g, e, s) + 5,
        m.place.0 == 4 ==> move_value(g, m, s) == move_value(g, e, s) + 10,
        m.place.0 == 1 || m.place.0 == 3 || m.place.0 == 5 || m.place.0 == 7 ==> move_value(g, m, s)
            == move_value(g, e, s),
        s.xs < i32::MAX ==> move_value(g, m, Score { xs: (s.xs + 1) as i32, ..s }) == move_value(g, m, s)
            + (if g.whos_next == Player::XS {
            100int
        } else {
            -80int
        }),
        s.ot < i32::MAX ==> move_value(g, m, Score { ot: (s.ot + 1) as i32, ..s }) == move_value(g, m, s)
            + (if g.whos_next == Player::OT {
            100int
        } else {
            -80int
        }),
{
}

/// The smart choice is the first accepted move of greatest value: among the
/// first `n` moves, every accepted move is worth at most the chosen value;
/// where that value is above `i32::MIN`, the chosen move is accepted, has
/// that value, and every accepted move before it is worth less.
pub proof fn lemma_best_choice_first_best(
    g: Game,
    moves: Seq<GameMove>,
    scores: Seq<Score>,
    n: int,
)
    requires
        0 <= n <= moves.len(),
        moves.len() > 0,
    ensures
        ({
            let (i, v) = best_choice(g, moves, scores, n);
            &&& 0 <= i < moves.len()
            &&& i32::MIN <= v
            &&& forall|j: int|
                0 <= j < n && g.moved(moves[j]) is Some ==> #[trigger] move_value(g, moves[j], scores[j])
                    <= v
            &&& v > i32::MIN ==> {
                &&& i < n
                &&& g.moved(moves[i]) is Some
                &&& move_value(g, moves[i], scores[i]) == v
                &&& forall|j: int|
                    0 <= j < i && g.moved(moves[j]) is Some ==> #[trigger] move_value(
                        g,
                        moves[j],
                        scores[j],
                    ) < v
            }
        }),
    decreases n,
{
    if n > 0 {
        lemma_best_choice_first_best(g, moves, scores, n - 1);
    }
}

} // verus!
