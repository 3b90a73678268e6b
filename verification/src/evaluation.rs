use vstd::prelude::*;
use crate::board::{parity_spec, TDGame};

verus! {

/// The value of a board for one player: the lead of that player's total
/// over the other's, less two when the parity test holds, plus two when it
/// does not.
pub open spec fn scoring(g: TDGame, left_player: bool) -> int {
    (if left_player {
        g.player_1_score - g.player_2_score
    } else {
        g.player_2_score - g.player_1_score
    }) + (if parity_spec(g.state) {
        -2int
    } else {
        2int
    })
}

pub fn get_scoring(board: &TDGame, left_player: bool) -> (s: i32)
    ensures
        s == scoring(*board, left_player),
        -65537 <= s <= 65537,
{
    let mut score_different = if left_player {
        board.player_1_score as i32 - board.player_2_score as i32
    } else {
        board.player_2_score as i32 - board.player_1_score as i32
    };
    if board.has_parity() {
        score_different -= 2;
    } else {
        score_different += 2;
    }
    score_different
}

/// The two players' values of a board sum to four, less eight when the
/// parity test holds: the leads cancel out.
pub proof fn lemma_scoring_sum(g: TDGame)
    ensures
        scoring(g, true) + scoring(g, false) == (if parity_spec(g.state) {
            -4int
        } else {
            4int
        }),
{
}

} // verus!
