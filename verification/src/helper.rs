use vstd::prelude::*;
use crate::board::TDGame;
use crate::cascade::has_coin;
use crate::constants::{CURR_ROUND, GAME_OVER, RIGHT_PLAYER};

verus! {

/// The glyph of a lever's two bits: the low bit says whether a coin rests
/// on it, the high bit which way it points.
pub open spec fn lever_glyph(lever: u64) -> Seq<char> {
    if lever == 0 {
        "(_ )"@
    } else if lever == 1 {
        "(0 )"@
    } else if lever == 2 {
        "( _)"@
    } else if lever == 3 {
        "( 0)"@
    } else {
        "Uh ob"@
    }
}

/// The bits that a new board clears: round, game over, player to move, and
/// the coin bit of every lever.
pub open spec fn cleared_bits() -> u64 {
    15u64 | 0x5555_5555_5555_5550u64
}

/// `fastrand::u64(..)`: a random word from the global generator.  Nothing
/// is stated of its value.
#[verifier::external_body]
fn random_u64() -> u64 {
    fastrand::u64(..)
}

/// The board made from the random word `seed`: its lever directions come
/// from the seed, no lever holds a coin, the first round begins, the left
/// player is to move and nothing is scored yet.
pub fn board_from_seed(seed: u64) -> (g: TDGame)
    ensures
        g.state == seed & !cleared_bits(),
        g.round_scores@ == seq![0u16, 0u16],
        g.player_1_score == 0,
        g.player_2_score == 0,
        !g.next_round,
        g.turn == 0,
{
    let mut board: u64 = seed;
    board &= !(GAME_OVER | CURR_ROUND | RIGHT_PLAYER
        | 0b0101_0101_0101_0101_0101_0101_0101_0101_0101_0101_0101_0101_0101_0101_0101_0000);
    let g = TDGame {
        state: board,
        round_scores: [0, 0],
        player_1_score: 0,
        player_2_score: 0,
        next_round: false,
        turn: 0,
    };
    assert(g.round_scores@ =~= seq![0u16, 0u16]);
    assert(board == seed & !cleared_bits()) by (bit_vector)
        requires
            board == seed & !(4u64 | 3u64 | 8u64 | 0x5555_5555_5555_5550u64),
    ;
    g
}

/// A new board with random lever directions (see `board_from_seed`).
pub fn get_new_board(_play_holes: bool) -> (g: TDGame)
    ensures
        g.round_scores@ == seq![0u16, 0u16],
        g.player_1_score == 0,
        g.player_2_score == 0,
        !g.next_round,
        g.turn == 0,
        g.state & 15 == 0,
        forall|k: u64| k < 30 ==> !#[trigger] has_coin(g.state, k),
{
    let seed = random_u64();
    let g = board_from_seed(seed);
    proof {
        lemma_fresh_board(seed);
    }
    g
}

/// A board made from any seed starts in round 0 with the left player to
/// move and no coin on any lever.
pub proof fn lemma_fresh_board(seed: u64)
    ensures
        (seed & !cleared_bits()) & 15 == 0,
        forall|k: u64| k < 30 ==> !#[trigger] has_coin(seed & !cleared_bits(), k),
{
    let s = seed & !cleared_bits();
    assert(s & 15 == 0) by (bit_vector)
        requires
            s == seed & !(15u64 | 0x5555_5555_5555_5550u64),
    ;
    assert forall|k: u64| k < 30 implies !#[trigger] has_coin(s, k) by {
        assert((s >> ((4 + 2 * k) as u64)) & 1 == 0) by (bit_vector)
            requires
                s == seed & !(15u64 | 0x5555_5555_5555_5550u64),
                k < 30,
        ;
    }
}

/// The glyph of a lever's two bits.
pub fn get_lever_string(lever: u64) -> (s: &'static str)
    ensures
        s@ == lever_glyph(lever),
{
    match lever {
        0b00 => "(_ )",
        0b01 => "(0 )",
        0b10 => "( _)",
        0b11 => "( 0)",
        _ => "Uh ob",
    }
}

} // verus!
