//! A compact bit encoding of places, moves and games.
//!
//! A place takes four bits: the low two say which of `X` (1) and `O` (2)
//! stands on it, the high two which of `T` (1) and `S` (2). A move takes six
//! bits: the mover (bit 5), the place index (bits 1 to 4) and whether the
//! symbol is the mover's `S`/`T` (bit 0). A game takes place `i` at bits
//! `4 * i` to `4 * i + 3`, and bit 63 for `OT` to move.
use vstd::prelude::*;
use crate::logic::{Board, Game, GameMove, Place, PlaceIdx, Player, Sym};

verus! {

/// The two-bit field that `s` sets among `X`/`O`: 1 for `X`, 2 for `O`, else 0.
pub open spec fn xo_code(s: Sym) -> int {
    match s {
        Sym::X => 1,
        Sym::O => 2,
        _ => 0,
    }
}

/// The two-bit field that `s` sets among `T`/`S`: 1 for `T`, 2 for `S`, else 0.
pub open spec fn ts_code(s: Sym) -> int {
    match s {
        Sym::T => 1,
        Sym::S => 2,
        _ => 0,
    }
}

pub open spec fn is_xo(s: Sym) -> bool {
    s == Sym::X || s == Sym::O
}

/// Whether a four-bit place code can be read back: neither field is 3.
pub open spec fn place_code_valid(bits: int) -> bool {
    bits % 4 != 3 && (bits / 4) % 4 != 3
}

impl Place {
    /// The `X`/`O` field of the code: the last of the place's symbols that is `X` or `O`.
    pub open spec fn xo_field(self) -> int {
        match self {
            Place::Empty => 0,
            Place::OnePlaced(a) => xo_code(a),
            Place::TwoPlaced(a, b) => if is_xo(b) {
                xo_code(b)
            } else {
                xo_code(a)
            },
        }
    }

    /// The `T`/`S` field of the code: the last of the place's symbols that is `T` or `S`.
    pub open spec fn ts_field(self) -> int {
        match self {
            Place::Empty => 0,
            Place::OnePlaced(a) => ts_code(a),
            Place::TwoPlaced(a, b) => if !is_xo(b) {
                ts_code(b)
            } else {
                ts_code(a)
            },
        }
    }

    /// The four-bit code of a place.
    pub open spec fn code(self) -> int {
        4 * self.ts_field() + self.xo_field()
    }

    /// A place whose symbols the code tells apart: at most one of `X`/`O`,
    /// at most one of `T`/`S`, and where there are two, the `X`/`O` first.
    pub open spec fn is_canonical(self) -> bool {
        match self {
            Place::Empty => true,
            Place::OnePlaced(_) => true,
            Place::TwoPlaced(a, b) => is_xo(a) && !is_xo(b),
        }
    }

    /// The place that a valid code stands for: the `X`/`O` symbol first.
    pub open spec fn decoded(bits: int) -> Place {
        let xo = bits % 4;
        let ts = (bits / 4) % 4;
        let a = if xo == 1 {
            Sym::X
        } else {
            Sym::O
        };
        let b = if ts == 1 {
            Sym::T
        } else {
            Sym::S
        };
        if xo == 0 && ts == 0 {
            Place::Empty
        } else if ts == 0 {
            Place::OnePlaced(a)
        } else if xo == 0 {
            Place::OnePlaced(b)
        } else {
            Place::TwoPlaced(a, b)
        }
    }

    pub fn to_bits(self) -> (r: u8)
        ensures
            r == self.code(),
            r < 16,
    {
        let mut xo: u8 = 0;
        let mut ts: u8 = 0;
        match self {
            Place::Empty => {},
            Place::OnePlaced(a) => {
                set_field(a, &mut xo, &mut ts);
            },
            Place::TwoPlaced(a, b) => {
                set_field(a, &mut xo, &mut ts);
                set_field(b, &mut xo, &mut ts);
            },
        }
        assert((ts << 2) | xo == 4 * ts + xo) by (bit_vector)
            requires
                xo <= 2,
                ts <= 2,
        ;
        (ts << 2) | xo
    }

    pub fn from_bits(bits: u8) -> (r: Place)
        requires
            place_code_valid(bits as int),
        ensures
            r == Place::decoded(bits as int),
    {
        let xo = bits & 0b11;
        let ts = (bits >> 2) & 0b11;
        assert(xo == bits % 4 && ts == (bits / 4) % 4) by (bit_vector)
            requires
                xo == bits & 3,
                ts == (bits >> 2) & 3,
        ;
        match (xo, ts) {
            (0, 0) => Place::Empty,
            (1, 0) => Place::OnePlaced(Sym::X),
            (2, 0) => Place::OnePlaced(Sym::O),
            (0, 1) => Place::OnePlaced(Sym::T),
            (0, 2) => Place::OnePlaced(Sym::S),
            (1, 1) => Place::TwoPlaced(Sym::X, Sym::T),
            (1, 2) => Place::TwoPlaced(Sym::X, Sym::S),
            (2, 1) => Place::TwoPlaced(Sym::O, Sym::T),
            _ => Place::TwoPlaced(Sym::O, Sym::S),
        }
    }
}

/// Records `s` in the field of its pair, as drawing it on a place does.
fn set_field(s: Sym, xo: &mut u8, ts: &mut u8)
    requires
        *old(xo) <= 2,
        *old(ts) <= 2,
    ensures
        *final(xo) == (if is_xo(s) {
            xo_code(s)
        } else {
            *old(xo) as int
        }),
        *final(ts) == (if !is_xo(s) {
            ts_code(s)
        } else {
            *old(ts) as int
        }),
        *final(xo) <= 2,
        *final(ts) <= 2,
{
    match s {
        Sym::X => *xo = 1,
        Sym::O => *xo = 2,
        Sym::T => *ts = 1,
        Sym::S => *ts = 2,
    }
}

/// A canonical place is read back from its code.
pub proof fn lemma_place_code_roundtrip(p: Place)
    requires
        p.is_canonical(),
    ensures
        0 <= p.code() < 16,
        place_code_valid(p.code()),
        Place::decoded(p.code()) == p,
{
}

/// The code of a place records every symbol on it where no symbol of a pair
/// is overwritten by the other of the same pair: a symbol alone is read back
/// alone, and two symbols of different pairs are read back both, in either
/// order of drawing.
pub proof fn lemma_place_code_keeps_symbols(a: Sym, b: Sym)
    requires
        is_xo(a) != is_xo(b),
    ensures
        Place::decoded(Place::OnePlaced(a).code()) == Place::OnePlaced(a),
        Place::TwoPlaced(a, b).code() == Place::TwoPlaced(b, a).code(),
        place_code_valid(Place::TwoPlaced(a, b).code()),
        Place::decoded(Place::TwoPlaced(a, b).code()).holds(a),
        Place::decoded(Place::TwoPlaced(a, b).code()).holds(b),
{
}

/// Reading a place's code back never shows a symbol that the place does not hold.
pub proof fn lemma_place_code_invents_nothing(p: Place, s: Sym)
    ensures
        place_code_valid(p.code()),
        Place::decoded(p.code()).holds(s) ==> p.holds(s),
{
}

/// Every valid four-bit code is the code of the place that it is read as.
pub proof fn lemma_place_decode_roundtrip(bits: int)
    requires
        0 <= bits < 16,
        place_code_valid(bits),
    ensures
        Place::decoded(bits).is_canonical(),
        Place::decoded(bits).code() == bits,
{
}

/// Bit 5 of a move code: 0 for `XS`, 1 for `OT`.
pub open spec fn who_bit(p: Player) -> int {
    match p {
        Player::XS => 0,
        Player::OT => 1,
    }
}

/// Bit 0 of a move code: 1 for the mover's `T`/`S` symbol, 0 for `X`/`O`.
pub open spec fn sym_bit(s: Sym) -> int {
    if is_xo(s) {
        0
    } else {
        1
    }
}

impl GameMove {
    /// The six-bit code of a move; only the low four bits of the index are kept.
    pub open spec fn code(self) -> int {
        32 * who_bit(self.who) + 2 * (self.place.0 % 16) + sym_bit(self.drawn_symbol)
    }

    /// The move that a code stands for; bits above bit 5 are ignored.
    pub open spec fn decoded(bits: int) -> GameMove {
        let who = if (bits / 32) % 2 == 0 {
            Player::XS
        } else {
            Player::OT
        };
        let sym = if bits % 2 == 0 {
            who.own_symbols()[0]
        } else {
            who.own_symbols()[1]
        };
        GameMove { who, place: PlaceIdx(((bits / 2) % 16) as u8), drawn_symbol: sym }
    }

    pub fn to_bits(&self) -> (r: u8)
        ensures
            r == self.code(),
            r < 64,
    {
        let who_bit: u8 = match self.who {
            Player::XS => 0,
            Player::OT => 1,
        };
        let place_bits: u8 = self.place.0 & 0b1111;
        let sym_bit: u8 = match self.drawn_symbol {
            Sym::X => 0,
            Sym::S => 1,
            Sym::O => 0,
            Sym::T => 1,
        };
        let p: u8 = self.place.0;
        assert(place_bits == p % 16 && (who_bit << 5) | (place_bits << 1) | sym_bit == 32
            * who_bit + 2 * place_bits + sym_bit) by (bit_vector)
            requires
                place_bits == p & 15,
                who_bit <= 1,
                sym_bit <= 1,
        ;
        (who_bit << 5) | (place_bits << 1) | sym_bit
    }

    pub fn from_bits(bits: u8) -> (r: GameMove)
        ensures
            r == GameMove::decoded(bits as int),
    {
        assert(((bits & (1u8 << 5u8)) == 0) == ((bits / 32) % 2 == 0) && (bits >> 1u8) & 15u8 == (bits
            / 2) % 16 && ((bits & 1u8) == 0) == (bits % 2 == 0)) by (bit_vector);
        let who = if (bits & (1 << 5)) == 0 {
            Player::XS
        } else {
            Player::OT
        };
        let place = PlaceIdx((bits >> 1) & 0b1111);
        let drawn_symbol = match who {
            Player::XS => {
                if (bits & 0b1) == 0 {
                    Sym::X
                } else {
                    Sym::S
                }
            },
            Player::OT => {
                if (bits & 0b1) == 0 {
                    Sym::O
                } else {
                    Sym::T
                }
            },
        };
        GameMove { who, place, drawn_symbol }
    }
}

/// A move whose index fits in four bits and whose symbol is the mover's own
/// is read back from its code.
pub proof fn lemma_move_code_roundtrip(m: GameMove)
    requires
        m.place.0 < 16,
        m.drawn_symbol.owner() == m.who,
    ensures
        0 <= m.code() < 64,
        GameMove::decoded(m.code()) == m,
{
}

/// Every six-bit code is the code of the move that it is read as.
pub proof fn lemma_move_decode_roundtrip(bits: int)
    requires
        0 <= bits < 64,
    ensures
        GameMove::decoded(bits).code() == bits,
        GameMove::decoded(bits).drawn_symbol.owner() == GameMove::decoded(bits).who,
{
}

/// `b` to the power `n`.
pub open spec fn pow_of(b: nat, n: nat) -> nat
    decreases n,
{
    if n == 0 {
        1
    } else {
        b * pow_of(b, (n - 1) as nat)
    }
}

/// The places' codes as base-16 digits, the first place lowest.
pub open spec fn board_code(places: Seq<Place>) -> int
    decreases places.len(),
{
    if places.len() == 0 {
        0
    } else {
        places[0].code() + 16 * board_code(places.drop_first())
    }
}

/// Bit 63 of a game code: set when `OT` is to move.
pub open spec fn turn_bit(p: Player) -> int {
    match p {
        Player::XS => 0,
        Player::OT => 0x8000_0000_0000_0000,
    }
}

/// `k` shifted right by `4 * i` bits.
pub open spec fn shr4(k: int, i: nat) -> int
    decreases i,
{
    if i == 0 {
        k
    } else {
        shr4(k, (i - 1) as nat) / 16
    }
}

/// The four bits of a game code that stand for place `i` (for `i < 9`).
pub open spec fn nibble(key: int, i: nat) -> int {
    shr4(key % 0x10_0000_0000, i) % 16
}

/// Whether a game code can be read back: each of its nine place codes is valid.
pub open spec fn game_code_valid(key: int) -> bool {
    forall|i: nat| i < 9 ==> place_code_valid(#[trigger] nibble(key, i))
}

/// Whether `g` is the game that `key` is read as.
pub open spec fn decodes_to(key: int, g: Game) -> bool {
    &&& g.whos_next == (if key < 0x8000_0000_0000_0000 {
        Player::XS
    } else {
        Player::OT
    })
    &&& forall|i: int| 0 <= i < 9 ==> g.board.places[i] == Place::decoded(nibble(key, i as nat))
}

impl Game {
    /// The 64-bit code of a game.
    pub open spec fn code(self) -> int {
        turn_bit(self.whos_next) + board_code(self.board.places@)
    }

    /// A game whose places are all canonical.
    pub open spec fn is_canonical(self) -> bool {
        forall|i: int| 0 <= i < 9 ==> (#[trigger] self.board.places[i]).is_canonical()
    }

    pub fn to_bits(&self) -> (r: u64)
        ensures
            r == self.code(),
    {
        let mut acc: u64 = 0;
        let mut i: usize = 9;
        proof {
            reveal_with_fuel(pow_of, 10);
        }
        while i > 0
            invariant
                i <= 9,
                acc == board_code(self.board.places@.subrange(i as int, 9)),
                0 <= acc < pow_of(16, (9 - i) as nat),
                pow_of(16, 9) == 0x10_0000_0000,
            decreases i,
        {
            i -= 1;
            let bits = self.board.places[i].to_bits() as u64;
            proof {
                let s = self.board.places@.subrange(i as int, 9);
                assert(s.drop_first() =~= self.board.places@.subrange(i + 1, 9));
                assert(s[0] == self.board.places@[i as int]);
                lemma_pow_le(16, (9 - i) as nat, 9);
                let k = pow_of(16, (8 - i) as nat);
                assert(pow_of(16, (9 - i) as nat) == 16 * k);
                assert(acc * 16 + bits < 16 * k) by (nonlinear_arith)
                    requires
                        acc < k,
                        bits < 16,
                ;
            }
            acc = acc * 16 + bits;
        }
        assert(self.board.places@.subrange(0, 9) =~= self.board.places@);
        match self.whos_next {
            Player::XS => acc,
            Player::OT => acc + 0x8000_0000_0000_0000,
        }
    }

    pub fn from_bits(key: u64) -> (r: Game)
        requires
            game_code_valid(key as int),
        ensures
            decodes_to(key as int, r),
    {
        assert(((key & (1u64 << 63u64)) == 0) == (key < 0x8000_0000_0000_0000)) by (bit_vector);
        let whos_next = if (key & (1u64 << 63u64)) == 0 {
            Player::XS
        } else {
            Player::OT
        };
        let mut places = [Place::Empty; 9];
        let mut rest: u64 = key % 0x10_0000_0000;
        let mut i: usize = 0;
        while i < 9
            invariant
                i <= 9,
                game_code_valid(key as int),
                rest == shr4((key as int) % 0x10_0000_0000, i as nat),
                forall|j: int| 0 <= j < i ==> places[j] == Place::decoded(nibble(key as int, j as nat)),
            decreases 9 - i,
        {
            let bits = (rest % 16) as u8;
            assert(place_code_valid(nibble(key as int, i as nat)));
            places[i] = Place::from_bits(bits);
            rest = rest / 16;
            i += 1;
        }
        Game { whos_next, board: Board { places } }
    }
}

/// Powers of a positive base grow with the exponent.
pub proof fn lemma_pow_le(base: nat, a: nat, b: nat)
    requires
        1 <= base,
        a <= b,
    ensures
        1 <= pow_of(base, a) <= pow_of(base, b),
    decreases b,
{
    if b > 0 {
        if b > a {
            lemma_pow_le(base, a, (b - 1) as nat);
        } else {
            lemma_pow_le(base, (a - 1) as nat, (b - 1) as nat);
        }
        let p = pow_of(base, (b - 1) as nat);
        assert(p <= base * p) by (nonlinear_arith)
            requires
                1 <= base,
                1 <= p,
        ;
    }
}

proof fn lemma_board_code_bound(s: Seq<Place>)
    ensures
        0 <= board_code(s) < pow_of(16, s.len()),
    decreases s.len(),
{
    if s.len() > 0 {
        lemma_board_code_bound(s.drop_first());
        let c = s[0].code();
        let b = board_code(s.drop_first());
        let k = pow_of(16, s.drop_first().len());
        assert(c + 16 * b < 16 * k) by (nonlinear_arith)
            requires
                0 <= c < 16,
                0 <= b < k,
        ;
    }
}

/// Shifting a board code by `i` places leaves the code of the places from `i` on.
proof fn lemma_shr4_board_code(s: Seq<Place>, i: nat)
    requires
        i <= s.len(),
    ensures
        shr4(board_code(s), i) == board_code(s.skip(i as int)),
    decreases i,
{
    if i == 0 {
        assert(s.skip(0) =~= s);
    } else {
        lemma_shr4_board_code(s, (i - 1) as nat);
        let t = s.skip(i - 1);
        assert(t.drop_first() =~= s.skip(i as int));
        lemma_board_code_bound(t.drop_first());
        let c = t[0].code();
        let b = board_code(t.drop_first());
        assert((c + 16 * b) / 16 == b) by (nonlinear_arith)
            requires
                0 <= c < 16,
                0 <= b,
        ;
    }
}

/// A canonical game is read back from its code.
pub proof fn lemma_game_code_roundtrip(g: Game)
    requires
        g.is_canonical(),
    ensures
        0 <= g.code() < 0x1_0000_0000_0000_0000,
        game_code_valid(g.code()),
        decodes_to(g.code(), g),
{
    let s = g.board.places@;
    let bc = board_code(s);
    lemma_board_code_bound(s);
    reveal_with_fuel(pow_of, 10);
    let t = turn_bit(g.whos_next);
    assert((t + bc) % 0x10_0000_0000 == bc) by (nonlinear_arith)
        requires
            t == 0 || t == 0x8000_0000_0000_0000,
            0 <= bc < 0x10_0000_0000,
    ;
    assert forall|i: nat| i < 9 implies nibble(g.code(), i) == (#[trigger] s[i as int]).code() by {
        lemma_shr4_board_code(s, i);
        let u = s.skip(i as int);
        assert(u[0] == s[i as int]);
        assert(u.drop_first() =~= s.skip(i + 1 as int));
        lemma_board_code_bound(u.drop_first());
        let c = u[0].code();
        let b = board_code(u.drop_first());
        assert((c + 16 * b) % 16 == c) by (nonlinear_arith)
            requires
                0 <= c < 16,
                0 <= b,
        ;
    }
    assert forall|i: nat| i < 9 implies place_code_valid(#[trigger] nibble(g.code(), i)) by {
        assert(nibble(g.code(), i) == s[i as int].code());
        lemma_place_code_roundtrip(s[i as int]);
    }
    assert forall|i: int| 0 <= i < 9 implies g.board.places[i] == Place::decoded(
        nibble(g.code(), i as nat),
    ) by {
        assert(nibble(g.code(), i as nat) == s[i].code());
        lemma_place_code_roundtrip(s[i]);
    }
}

proof fn lemma_shr4_succ(x: int, i: nat)
    ensures
        shr4(x / 16, i) == shr4(x, i + 1),
    decreases i,
{
    if i > 0 {
        lemma_shr4_succ(x, (i - 1) as nat);
        assert(shr4(x / 16, i) == shr4(x / 16, (i - 1) as nat) / 16);
        assert(shr4(x, i + 1) == shr4(x, i) / 16);
    } else {
        assert(shr4(x, 1) == shr4(x, 0) / 16);
    }
}

/// A sequence of places whose codes are the base-16 digits of `x` has code `x`.
proof fn lemma_board_code_of_digits(s: Seq<Place>, x: int)
    requires
        0 <= x < pow_of(16, s.len()),
        forall|i: int| 0 <= i < s.len() ==> (#[trigger] s[i]).code() == shr4(x, i as nat) % 16,
    ensures
        board_code(s) == x,
    decreases s.len(),
{
    if s.len() > 0 {
        let t = s.drop_first();
        let k = pow_of(16, t.len());
        assert(x / 16 < k && x == x % 16 + 16 * (x / 16)) by (nonlinear_arith)
            requires
                0 <= x < 16 * k,
        ;
        assert forall|i: int| 0 <= i < t.len() implies (#[trigger] t[i]).code() == shr4(x / 16, i as nat) % 16 by {
            assert(t[i] == s[i + 1]);
            lemma_shr4_succ(x, i as nat);
        }
        lemma_board_code_of_digits(t, x / 16);
        assert(s[0].code() == shr4(x, 0) % 16);
    }
}

/// Every valid game code, less the bits that neither a place nor the turn
/// uses, is the code of the game that it is read as, and that game is canonical.
pub proof fn lemma_game_decode_roundtrip(key: int, g: Game)
    requires
        0 <= key < 0x1_0000_0000_0000_0000,
        game_code_valid(key),
        decodes_to(key, g),
    ensures
        g.is_canonical(),
        g.code() == key % 0x10_0000_0000 + (if key < 0x8000_0000_0000_0000 {
            0
        } else {
            0x8000_0000_0000_0000int
        }),
{
    let s = g.board.places@;
    let low = key % 0x10_0000_0000;
    assert forall|i: int| 0 <= i < 9 implies (#[trigger] s[i]).code() == shr4(low, i as nat) % 16
        && s[i].is_canonical() by {
        let n = nibble(key, i as nat);
        assert(place_code_valid(n));
        lemma_place_decode_roundtrip(n);
    }
    reveal_with_fuel(pow_of, 10);
    lemma_board_code_of_digits(s, low);
}

} // verus!
