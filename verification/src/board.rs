//! The game board: its state word, scores and turn, and the moves on it.
use vstd::prelude::*;
use crate::cascade::has_coin;
use crate::coin_drop::{bit_set, drop_coin, drop_result, lemma_drop_result};
use crate::constants::{
    round_target, round_target_spec, row_start, CURR_ROUND, GAME_OVER, RIGHT_PLAYER,
};
use crate::helper::{get_lever_string, get_new_board, lever_glyph};

verus! {

/// A game: the state word (round in bits 0-1, game over in bit 2, right
/// player to move in bit 3, two bits per lever from bit 4), the scores of
/// the current round, the totals of both players, whether the next move
/// closes the round, and the number of moves made.
#[derive(Copy, Clone, Debug)]
pub struct TDGame {
    pub state: u64,
    pub round_scores: [u16; 2],
    pub player_1_score: u16,
    pub player_2_score: u16,
    pub next_round: bool,
    pub turn: u8,
}

/// `seahash::hash` of a byte string: a function of the bytes alone.
pub uninterp spec fn seahash_of(bytes: Seq<u8>) -> u64;

/// `seahash::hash`: the hash of the 18 bytes, as `seahash_of` names it.
#[verifier::external_body]
fn sea_hash(bytes: &[u8; 18]) -> (h: u64)
    ensures
        h == seahash_of(bytes@),
{
    seahash::hash(bytes)
}

pub open spec fn game_is_over(state: u64) -> bool {
    state & 4 == 4
}

pub open spec fn left_to_move(state: u64) -> bool {
    state & 8 != 8
}

/// The parity test of the evaluation: folds the two low nibbles of the
/// state word and looks the result up in the table 0x6969.
pub open spec fn parity_spec(state: u64) -> bool {
    (0x6969u64 >> ((state ^ (state >> 4u64)) & 15)) & 1 == 1
}

/// The bytes a board is hashed from: the state word, the round scores and
/// the totals, big-endian, then whether the round closes, then a zero.
pub open spec fn board_bytes(g: TDGame) -> Seq<u8> {
    seq![
        (g.state >> 56u64) as u8,
        (g.state >> 48u64) as u8,
        (g.state >> 40u64) as u8,
        (g.state >> 32u64) as u8,
        (g.state >> 24u64) as u8,
        (g.state >> 16u64) as u8,
        (g.state >> 8u64) as u8,
        g.state as u8,
        (g.round_scores[0] >> 8u16) as u8,
        g.round_scores[0] as u8,
        (g.round_scores[1] >> 8u16) as u8,
        g.round_scores[1] as u8,
        (g.player_1_score >> 8u16) as u8,
        g.player_1_score as u8,
        (g.player_2_score >> 8u16) as u8,
        g.player_2_score as u8,
        if g.next_round {
            1u8
        } else {
            0u8
        },
        0u8,
    ]
}

/// The key under which a board is stored in the search table.
pub open spec fn board_key(g: TDGame) -> u64 {
    seahash_of(board_bytes(g))
}

/// Bit `j` of the board made from a lever picture: every character but a
/// backslash marks the lever at its place as holding a coin.
pub open spec fn avified_bit(s: Seq<char>, j: int) -> bool {
    &&& 5 <= j
    &&& (j - 5) % 2 == 0
    &&& (j - 5) / 2 < s.len()
    &&& s[(j - 5) / 2] != '\\'
}

/// The player to move (0 for the left one) and the points a drop into
/// `location` scores.
pub open spec fn mover(g: TDGame) -> int {
    if left_to_move(g.state) {
        0
    } else {
        1
    }
}

/// A move into `location` is allowed: on a game that is over any slot (the
/// move does nothing); otherwise a slot of the board, into which the move
/// overflows no counter.
pub open spec fn step_allowed(g: TDGame, location: int) -> bool {
    !game_is_over(g.state) ==> {
        let gain = drop_result(g.state, location).1;
        &&& 0 <= location < 60
        &&& g.turn < 255
        &&& g.round_scores[mover(g)] + gain <= 65535
        &&& (if mover(g) == 0 {
            g.player_1_score
        } else {
            g.player_2_score
        }) + gain <= 65535
    }
}

/// The game after the player to move drops a coin into `location`, and the
/// points that move scores (-1 once the game is over, leaving it as it was).
/// The coin's points go to the mover's round score and total.  If the move
/// closes the round, the round scores are reset and the round advances (past
/// the last round this sets the game-over bit); otherwise the round closes
/// with the next move once the mover reached the round's target.  Then the
/// other player is to move.
pub open spec fn step_spec(g: TDGame, location: int) -> (TDGame, int) {
    if game_is_over(g.state) {
        (g, -1)
    } else {
        let p = mover(g);
        let d = drop_result(g.state, location);
        let rs0 = g.round_scores[0] + (if p == 0 {
            d.1
        } else {
            0
        });
        let rs1 = g.round_scores[1] + (if p == 1 {
            d.1
        } else {
            0
        });
        let p1 = g.player_1_score + (if p == 0 {
            d.1
        } else {
            0
        });
        let p2 = g.player_2_score + (if p == 1 {
            d.1
        } else {
            0
        });
        let mine = if p == 0 {
            rs0
        } else {
            rs1
        };
        let g2 = if g.next_round {
            TDGame {
                state: ((d.0 + 1) as u64) ^ 8u64,
                round_scores: [0u16, 0u16],
                player_1_score: p1 as u16,
                player_2_score: p2 as u16,
                next_round: false,
                turn: (g.turn + 1) as u8,
            }
        } else {
            TDGame {
                state: d.0 ^ 8u64,
                round_scores: [rs0 as u16, rs1 as u16],
                player_1_score: p1 as u16,
                player_2_score: p2 as u16,
                next_round: mine >= round_target_spec((d.0 & 3) as int),
                turn: (g.turn + 1) as u8,
            }
        };
        (g2, d.1)
    }
}

proof fn lemma_parity_table(t: u64, x: i32, y: i32)
    by (bit_vector)
    requires
        t < 16,
        x == 26985i32 >> (t as u32),
        y == -x,
    ensures
        (y & 1 == 1) == ((0x6969u64 >> t) & 1 == 1),
{
}

proof fn lemma_mark_lever(x: u64, k: u64, j: u64)
    by (bit_vector)
    requires
        k < 64,
        j < 64,
    ensures
        (((x | (8u64 << k)) >> j) & 1 == 1) == (((x >> j) & 1 == 1) || j == k + 3),
        (0u64 >> j) & 1 == 0,
{
}

proof fn lemma_not_over_succ(s: u64)
    by (bit_vector)
    requires
        s & 4 != 4,
    ensures
        s < 0xffff_ffff_ffff_ffff,
{
}

proof fn lemma_low_nibble(x: u64, y: u64)
    by (bit_vector)
    requires
        x & 15 == y & 15,
    ensures
        x & 4 == y & 4,
        x & 3 == y & 3,
        x & 3 < 4,
        x & 8 == y & 8,
{
}

impl TDGame {
    /// A new game with a random board (see `get_new_board`).
    pub fn new(holed: bool) -> (g: Self)
        ensures
            g.round_scores@ == seq![0u16, 0u16],
            g.player_1_score == 0,
            g.player_2_score == 0,
            !g.next_round,
            g.turn == 0,
            g.state & 15 == 0,
            forall|k: u64| k < 30 ==> !#[trigger] has_coin(g.state, k),
    {
        get_new_board(holed)
    }

    /// The board word of a picture of levers, one character per lever: every
    /// character but a backslash puts a coin on its lever.  The 31st lever
    /// would lie past the word and leaves no mark.
    pub fn make_avified_board(inp: &str) -> (out: u64)
        requires
            inp@.len() <= 0x7fff_ffff,
            forall|i: int| 0 <= i < inp@.len() && inp@[i] != '\\' ==> i <= 30,
        ensures
            forall|j: int| 0 <= j < 64 ==> #[trigger] bit_set(out, j) == avified_bit(inp@, j),
    {
        let mut output: u64 = 0;
        let mut cntr: u64 = 0;
        let n = inp.unicode_len();
        proof {
            assert forall|j: int| 0 <= j < 64 implies #[trigger] bit_set(output, j) == (5 <= j && (
            j - 5) % 2 == 0 && (j - 5) / 2 < 0 && inp@[(j - 5) / 2] != '\\') by {
                lemma_mark_lever(0, 0, j as u64);
            }
        }
        while cntr < n as u64
            invariant
                n == inp@.len(),
                n <= 0x7fff_ffff,
                cntr <= n,
                forall|i: int| 0 <= i < inp@.len() && inp@[i] != '\\' ==> i <= 30,
                forall|j: int|
                    0 <= j < 64 ==> #[trigger] bit_set(output, j) == (5 <= j && (j - 5) % 2 == 0 && (j
                        - 5) / 2 < cntr && inp@[(j - 5) / 2] != '\\'),
            decreases n - cntr,
        {
            let pce = inp.get_char(cntr as usize);
            let ghost prev = output;
            if pce != '\\' {
                output |= RIGHT_PLAYER << (cntr * 2 + 2);
            }
            proof {
                assert forall|j: int| 0 <= j < 64 implies #[trigger] bit_set(output, j) == (5 <= j
                    && (j - 5) % 2 == 0 && (j - 5) / 2 < cntr + 1 && inp@[(j - 5) / 2] != '\\') by {
                    assert(bit_set(prev, j) == (5 <= j && (j - 5) % 2 == 0 && (j - 5) / 2 < cntr
                        && inp@[(j - 5) / 2] != '\\'));
                    if pce != '\\' {
                        lemma_mark_lever(prev, (cntr * 2 + 2) as u64, j as u64);
                        assert(output == prev | (8u64 << ((cntr * 2 + 2) as u64)));
                    }
                    if j == cntr * 2 + 5 {
                        assert((j - 5) / 2 == cntr && (j - 5) % 2 == 0);
                    } else if 5 <= j && (j - 5) % 2 == 0 {
                        assert((j - 5) / 2 != cntr);
                    }
                }
            }
            cntr += 1;
        }
        output
    }

    /// The parity test of the evaluation.
    pub fn has_parity(&self) -> (b: bool)
        ensures
            b == parity_spec(self.state),
    {
        let st = self.state;
        let mut testing = st;
        testing ^= testing >> 4;
        testing &= 0b1111;
        let table: i32 = 0b110100101101001;
        proof {
            assert(testing < 16 && testing == (st ^ (st >> 4u64)) & 15) by (bit_vector)
                requires
                    testing == (st ^ (st >> 4u64)) & 15,
            ;
        }
        let looked_up: i32 = table >> (testing as u32);
        proof {
            assert(0 <= looked_up && looked_up <= 26985) by (bit_vector)
                requires
                    looked_up == 26985i32 >> (testing as u32),
                    testing < 16,
            ;
        }
        let negated: i32 = -looked_up;
        proof {
            lemma_parity_table(testing, looked_up, negated);
        }
        (negated & 1) == 1
    }

    pub fn game_over(&self) -> (b: bool)
        ensures
            b == game_is_over(self.state),
    {
        (self.state & GAME_OVER) == 4
    }

    /// The bytes the board is hashed from.
    pub fn get_board_bytes(&self) -> (bytes: [u8; 18])
        ensures
            bytes@ == board_bytes(*self),
    {
        let mut bytes: [u8; 18] = [0; 18];
        let s = self.state;
        bytes[0] = (#[verifier::truncate] ((s >> 56) as u8));
        bytes[1] = (#[verifier::truncate] ((s >> 48) as u8));
        bytes[2] = (#[verifier::truncate] ((s >> 40) as u8));
        bytes[3] = (#[verifier::truncate] ((s >> 32) as u8));
        bytes[4] = (#[verifier::truncate] ((s >> 24) as u8));
        bytes[5] = (#[verifier::truncate] ((s >> 16) as u8));
        bytes[6] = (#[verifier::truncate] ((s >> 8) as u8));
        bytes[7] = (#[verifier::truncate] (s as u8));
        let r0 = self.round_scores[0];
        let r1 = self.round_scores[1];
        bytes[8] = (#[verifier::truncate] ((r0 >> 8) as u8));
        bytes[9] = (#[verifier::truncate] (r0 as u8));
        bytes[10] = (#[verifier::truncate] ((r1 >> 8) as u8));
        bytes[11] = (#[verifier::truncate] (r1 as u8));
        bytes[12] = (#[verifier::truncate] ((self.player_1_score >> 8) as u8));
        bytes[13] = (#[verifier::truncate] (self.player_1_score as u8));
        bytes[14] = (#[verifier::truncate] ((self.player_2_score >> 8) as u8));
        bytes[15] = (#[verifier::truncate] (self.player_2_score as u8));
        bytes[16] = self.next_round as u8;
        assert(bytes@ =~= board_bytes(*self));
        bytes
    }

    /// The board's hash.
    pub fn hash_me(&self) -> (h: u64)
        ensures
            h == board_key(*self),
    {
        let bytes = self.get_board_bytes();
        sea_hash(&bytes)
    }

    pub fn is_left_player(&self) -> (b: bool)
        ensures
            b == left_to_move(self.state),
    {
        self.state & RIGHT_PLAYER != 8
    }

    /// The player to move drops a coin into slot `location` (the moves of a
    /// game are 0 to 7, the slots of the top row).  Returns the points it
    /// scores, or -1 once the game is over.
    pub fn step(&mut self, location: u8) -> (score: i32)
        requires
            step_allowed(*old(self), location as int),
        ensures
            (*final(self), score as int) == step_spec(*old(self), location as int),
    {
        if self.game_over() {
            return -1;
        }
        let player_num: usize = if self.is_left_player() {
            0
        } else {
            1
        };
        let (new_state, gain) = drop_coin(self.state, location);
        proof {
            lemma_low_nibble(new_state, self.state);
        }
        self.state = new_state;
        let total: u16 = gain as u16;
        self.round_scores[player_num] = self.round_scores[player_num] + total;
        if player_num == 0 {
            self.player_1_score = self.player_1_score + total;
        } else {
            self.player_2_score = self.player_2_score + total;
        }
        let score: i32 = total as i32;
        if self.next_round {
            self.next_round = false;
            self.round_scores = [0, 0];
            proof {
                lemma_not_over_succ(self.state);
            }
            self.state = self.state + 1;
        } else if self.round_scores[player_num] >= round_target(self.state & 3) {
            self.next_round = true;
        }
        self.turn = self.turn + 1;
        self.state = self.state ^ RIGHT_PLAYER;
        proof {
            let g2 = step_spec(*old(self), location as int).0;
            assert(self.round_scores@ =~= g2.round_scores@);
            broadcast use vstd::array::group_array_axioms;
            assert(self.round_scores == g2.round_scores);
            assert(self.state == g2.state);
            assert(self.player_1_score == g2.player_1_score);
            assert(self.player_2_score == g2.player_2_score);
            assert(self.next_round == g2.next_round);
            assert(self.turn == g2.turn);
            assert(score == step_spec(*old(self), location as int).1);
            assert(*self == g2);
        }
        score
    }

    /// The move of `step` where it is allowed; otherwise, where `step` would
    /// overflow a counter, nothing happens and the result is `None`.
    pub fn try_step(&mut self, location: u8) -> (r: Option<i32>)
        ensures
            step_allowed(*old(self), location as int) ==> (r matches Some(s) && s
                == step_spec(*old(self), location as int).1 && *final(self) == step_spec(
                *old(self),
                location as int,
            ).0),
            !step_allowed(*old(self), location as int) ==> (r is None && *final(self) == *old(
                self,
            )),
    {
        if self.game_over() {
            return Some(self.step(location));
        }
        if location >= 60 {
            return None;
        }
        let (_, gain) = drop_coin(self.state, location);
        let player_num: usize = if self.is_left_player() {
            0
        } else {
            1
        };
        let total_before: u16 = if player_num == 0 {
            self.player_1_score
        } else {
            self.player_2_score
        };
        if self.turn == 255 || self.round_scores[player_num] as u32 + gain > 65535 || total_before
            as u32 + gain > 65535 {
            return None;
        }
        Some(self.step(location))
    }

    /// The line under the board: the round scores, the totals, the round
    /// (counted from 1) and the number of moves made.
    pub fn status_line(&self) -> (line: String)
        ensures
            line@ == status_text(*self),
    {
        let mut line = String::new();
        proof {
            reveal_strlit("Scores: ");
            reveal_strlit(",");
            reveal_strlit(" Player 1 total: ");
            reveal_strlit(" Player 2 total ");
            reveal_strlit(", Round ");
            reveal_strlit(", Turn ");
        }
        line.append("Scores: ");
        push_decimal(&mut line, self.round_scores[0] as u64);
        line.append(",");
        push_decimal(&mut line, self.round_scores[1] as u64);
        line.append(" Player 1 total: ");
        push_decimal(&mut line, self.player_1_score as u64);
        line.append(" Player 2 total ");
        push_decimal(&mut line, self.player_2_score as u64);
        line.append(", Round ");
        let st = self.state;
        let round = st & CURR_ROUND;
        proof {
            assert(round <= 3) by (bit_vector)
                requires
                    round == st & 3,
            ;
        }
        push_decimal(&mut line, 1 + round);
        line.append(", Turn ");
        push_decimal(&mut line, self.turn as u64);
        line
    }

    /// The five rows of levers as text, from the top row of four levers to
    /// the bottom row of eight.
    pub fn render(&self) -> (rows: Vec<String>)
        ensures
            rows@.len() == 5,
            forall|r: int| 0 <= r < 5 ==> #[trigger] rows@[r]@ == board_line(self.state, r),
    {
        let mut rows: Vec<String> = Vec::new();
        let mut ctr: u64 = 0;
        let mask: u64 = 0b11;
        let mut cntr: u64 = 0;
        proof {
            reveal_strlit(" ");
        }
        while cntr < 5
            invariant
                cntr <= 5,
                ctr == row_start(cntr as int),
                rows@.len() == cntr,
                mask == 3,
                forall|r: int| 0 <= r < cntr ==> #[trigger] rows@[r]@ == board_line(self.state, r),
            decreases 5 - cntr,
        {
            let mut print_str = String::new();
            let mut i: u64 = 0;
            while i < 2 * (4 - cntr)
                invariant
                    cntr < 5,
                    i <= 2 * (4 - cntr),
                    print_str@ == spaces(i as nat),
                decreases 2 * (4 - cntr) - i,
            {
                print_str.append(" ");
                proof {
                    reveal_strlit(" ");
                }
                assert(print_str@ =~= spaces((i + 1) as nat));
                i += 1;
            }
            let ghost start = ctr;
            let mut j: u64 = 0;
            while j < 4 + cntr
                invariant
                    cntr < 5,
                    j <= 4 + cntr,
                    ctr == start + j,
                    start == row_start(cntr as int),
                    mask == 3,
                    print_str@ == spaces((2 * (4 - cntr)) as nat) + glyphs(
                        self.state,
                        start as int,
                        j as nat,
                    ),
                decreases 4 + cntr - j,
            {
                let shift: u64 = 4 + 2 * ctr;
                let lever = (self.state & (mask << shift)) >> shift;
                proof {
                    lemma_lever_bits(self.state, shift);
                }
                let lever_str = get_lever_string(lever);
                print_str.append(lever_str);
                proof {
                    assert(glyphs(self.state, start as int, (j + 1) as nat) == glyphs(
                        self.state,
                        start as int,
                        j as nat,
                    ) + lever_glyph(lever_value(self.state, start + j)));
                    assert(print_str@ =~= spaces((2 * (4 - cntr)) as nat) + glyphs(
                        self.state,
                        start as int,
                        (j + 1) as nat,
                    ));
                }
                ctr += 1;
                j += 1;
            }
            rows.push(print_str);
            cntr += 1;
        }
        rows
    }
}

proof fn lemma_lever_bits(s: u64, shift: u64)
    by (bit_vector)
    requires
        shift < 64,
    ensures
        (s & (3u64 << shift)) >> shift == (s >> shift) & 3,
{
}

pub open spec fn spaces(n: nat) -> Seq<char> {
    Seq::new(n, |i: int| ' ')
}

/// The two bits of lever `k`.
pub open spec fn lever_value(state: u64, k: int) -> u64 {
    (state >> ((4 + 2 * k) as u64)) & 3
}

/// The glyphs of `n` levers from lever `from` on.
pub open spec fn glyphs(state: u64, from: int, n: nat) -> Seq<char>
    decreases n,
{
    if n == 0 {
        Seq::empty()
    } else {
        glyphs(state, from, (n - 1) as nat) + lever_glyph(lever_value(state, from + n - 1))
    }
}

/// Row `r` of the board as text: indented by two spaces for each lever it
/// lacks to the widest row, then its levers.
pub open spec fn board_line(state: u64, r: int) -> Seq<char> {
    spaces((2 * (4 - r)) as nat) + glyphs(state, row_start(r), (4 + r) as nat)
}

proof fn lemma_turn_bits(s: u64, d: u64)
    by (bit_vector)
    requires
        d & 15 == s & 15,
        s & 4 != 4,
    ensures
        ((d ^ 8) & 8 == 8) != (s & 8 == 8),
        (d ^ 8) & 4 != 4,
        (d ^ 8) & 3 == s & 3,
        d < 0xffff_ffff_ffff_ffff,
        s & 3 == 3 ==> ((((d + 1) as u64) ^ 8) & 4 == 4 && (((d + 1) as u64) ^ 8) & 3 == 0),
        s & 3 < 3 ==> ((((d + 1) as u64) ^ 8) & 4 == 0 && (((d + 1) as u64) ^ 8) & 3 == (s & 3)
            + 1),
        (((((d + 1) as u64) ^ 8) & 8 == 8) != (s & 8 == 8)),
{
}

/// A move on a game that is not over hands the turn to the other player and
/// counts one more move.  A move that closes the round resets the round
/// scores and starts the next round, or ends the game after the fourth;
/// any other move keeps the round, and the game goes on.  The mover's total
/// grows by the move's points and the other total stays.
pub proof fn lemma_step_progress(g: TDGame, location: int)
    requires
        step_allowed(g, location),
        !game_is_over(g.state),
    ensures
        ({
            let (g2, pts) = step_spec(g, location);
            &&& left_to_move(g2.state) != left_to_move(g.state)
            &&& g2.turn == g.turn + 1
            &&& 0 <= pts <= 1984
            &&& (g.next_round && g.state & 3 == 3) ==> game_is_over(g2.state) && g2.state & 3 == 0
            &&& (g.next_round && g.state & 3 < 3) ==> !game_is_over(g2.state) && g2.state & 3 == (
            g.state & 3) + 1
            &&& g.next_round ==> g2.round_scores@ == seq![0u16, 0u16] && !g2.next_round
            &&& !g.next_round ==> !game_is_over(g2.state) && g2.state & 3 == g.state & 3
            &&& mover(g) == 0 ==> g2.player_1_score == g.player_1_score + pts
                && g2.player_2_score == g.player_2_score
            &&& mover(g) == 1 ==> g2.player_2_score == g.player_2_score + pts
                && g2.player_1_score == g.player_1_score
        }),
{
    lemma_drop_result(g.state, location);
    let d = drop_result(g.state, location);
    lemma_turn_bits(g.state, d.0);
}

pub open spec fn digit_char(d: nat) -> char {
    if d == 0 {
        '0'
    } else if d == 1 {
        '1'
    } else if d == 2 {
        '2'
    } else if d == 3 {
        '3'
    } else if d == 4 {
        '4'
    } else if d == 5 {
        '5'
    } else if d == 6 {
        '6'
    } else if d == 7 {
        '7'
    } else if d == 8 {
        '8'
    } else {
        '9'
    }
}

/// The decimal digits of `n`, without leading zeros.
pub open spec fn decimal(n: nat) -> Seq<char>
    decreases n,
{
    if n < 10 {
        seq![digit_char(n)]
    } else {
        decimal(n / 10) + seq![digit_char(n % 10)]
    }
}

/// The text of `status_line`.
pub open spec fn status_text(g: TDGame) -> Seq<char> {
    "Scores: "@ + decimal(g.round_scores[0] as nat) + ","@ + decimal(g.round_scores[1] as nat)
        + " Player 1 total: "@ + decimal(g.player_1_score as nat) + " Player 2 total "@ + decimal(
        g.player_2_score as nat,
    ) + ", Round "@ + decimal((1 + (g.state & 3)) as nat) + ", Turn "@ + decimal(g.turn as nat)
}

fn digit_str(d: u64) -> (s: &'static str)
    requires
        d < 10,
    ensures
        s@ == seq![digit_char(d as nat)],
{
    proof {
        reveal_strlit("0");
        reveal_strlit("1");
        reveal_strlit("2");
        reveal_strlit("3");
        reveal_strlit("4");
        reveal_strlit("5");
        reveal_strlit("6");
        reveal_strlit("7");
        reveal_strlit("8");
        reveal_strlit("9");
    }
    let s = match d {
        0 => "0",
        1 => "1",
        2 => "2",
        3 => "3",
        4 => "4",
        5 => "5",
        6 => "6",
        7 => "7",
        8 => "8",
        _ => "9",
    };
    assert(s@ =~= seq![digit_char(d as nat)]);
    s
}

/// Appends the decimal digits of `n`.
fn push_decimal(s: &mut String, n: u64)
    ensures
        final(s)@ == old(s)@ + decimal(n as nat),
    decreases n,
{
    if n >= 10 {
        push_decimal(s, n / 10);
    }
    s.append(digit_str(n % 10));
    assert(s@ =~= old(s)@ + decimal(n as nat));
}

/// The number of moves made is not part of what is hashed: two games that
/// differ only in it share their key in the search table.
pub proof fn lemma_key_ignores_turn(g: TDGame, h: TDGame)
    requires
        g.state == h.state,
        g.round_scores == h.round_scores,
        g.player_1_score == h.player_1_score,
        g.player_2_score == h.player_2_score,
        g.next_round == h.next_round,
    ensures
        board_key(g) == board_key(h),
{
    assert(board_bytes(g) == board_bytes(h));
}

/// The number a string of decimal digits stands for.
pub open spec fn read_decimal(s: Seq<char>) -> int
    decreases s.len(),
{
    if s.len() == 0 {
        0
    } else {
        read_decimal(s.drop_last()) * 10 + (s.last() as int - '0' as int)
    }
}

/// The decimal text of a number is made of the digits '0' to '9' and reads
/// back as the number.
pub proof fn lemma_decimal_reads_back(n: nat)
    ensures
        read_decimal(decimal(n)) == n,
        decimal(n).len() >= 1,
        forall|i: int| 0 <= i < decimal(n).len() ==> '0' <= #[trigger] decimal(n)[i] <= '9',
    decreases n,
{
    if n >= 10 {
        lemma_decimal_reads_back(n / 10);
        let d = decimal(n);
        assert(d.drop_last() =~= decimal(n / 10));
        assert(d.last() == digit_char(n % 10));
        assert(digit_char(n % 10) as int - '0' as int == n % 10);
        assert(read_decimal(d) == read_decimal(decimal(n / 10)) * 10 + (n % 10));
        assert(n == (n / 10) * 10 + n % 10);
        assert forall|i: int| 0 <= i < d.len() implies '0' <= #[trigger] d[i] <= '9' by {
            if i < d.len() - 1 {
                assert(d[i] == decimal(n / 10)[i]);
            }
        }
    } else {
        assert(decimal(n).drop_last() =~= Seq::<char>::empty());
        assert(digit_char(n) as int - '0' as int == n);
        assert(read_decimal(Seq::<char>::empty()) == 0);
        assert(read_decimal(decimal(n)) == read_decimal(decimal(n).drop_last()) * 10 + (decimal(
            n,
        ).last() as int - '0' as int));
    }
}

/// A move that does not close the round credits its points to the mover's
/// round score only, keeps the round, and leaves the round to be closed by
/// the next move exactly when the mover's own round score has reached the
/// round's target; the other player's round score plays no part.
pub proof fn lemma_round_target(g: TDGame, location: int)
    requires
        step_allowed(g, location),
        !game_is_over(g.state),
        !g.next_round,
    ensures
        ({
            let (g2, pts) = step_spec(g, location);
            &&& g2.state & 3 == g.state & 3
            &&& g2.round_scores[mover(g)] == g.round_scores[mover(g)] + pts
            &&& g2.round_scores[1 - mover(g)] == g.round_scores[1 - mover(g)]
            &&& g2.next_round == (g2.round_scores[mover(g)] >= round_target_spec(
                (g2.state & 3) as int,
            ))
        }),
{
    lemma_step_progress(g, location);
    lemma_drop_result(g.state, location);
    let (g2, pts) = step_spec(g, location);
    let d = drop_result(g.state, location);
    lemma_low_nibble(d.0, g.state);
    assert(g2.round_scores@ == seq![
        (g.round_scores[0] + (if mover(g) == 0 {
            d.1
        } else {
            0
        })) as u16,
        (g.round_scores[1] + (if mover(g) == 1 {
            d.1
        } else {
            0
        })) as u16,
    ]);
    if mover(g) == 0 {
        assert(g2.round_scores[0] == g2.round_scores@[0]);
        assert(g2.round_scores[1] == g2.round_scores@[1]);
    } else {
        assert(g2.round_scores[0] == g2.round_scores@[0]);
        assert(g2.round_scores[1] == g2.round_scores@[1]);
    }
}

} // verus!
