use vstd::prelude::*;

verus! {

/// Bit of the state word that is set while the right-hand player is to move.
pub const RIGHT_PLAYER: u64 = 0b1000;

/// Bit of the state word that is set once the game has ended.
pub const GAME_OVER: u64 = 0b100;

/// The two low bits of the state word: the current round, from 0 to 3.
pub const CURR_ROUND: u64 = 0b11;

pub const ONE: u64 = 0b1;

/// The points that a coin leaving the board through exit `k` (counted from
/// either edge inwards) scores in `round`.
pub open spec fn round_weight_spec(round: int, k: int) -> int {
    if round == 0 {
        2
    } else if round == 1 {
        seq![34int, 21, 13, 8, 5, 3, 2, 1][k]
    } else if round == 2 {
        seq![9int, 8, 7, 6, 5, 4, 3, 2][k]
    } else {
        seq![64int, 49, 36, 25, 16, 9, 4, 1][k]
    }
}

/// The round score at which a round is decided.
pub open spec fn round_target_spec(round: int) -> int {
    seq![10int, 40, 20, 80][round]
}

/// The first lever of a board row; row 5 is the row of exits below the board.
pub open spec fn row_start(r: int) -> int {
    if r <= 0 {
        0
    } else if r == 1 {
        4
    } else if r == 2 {
        9
    } else if r == 3 {
        15
    } else if r == 4 {
        22
    } else {
        30
    }
}

pub fn round_weight(round: u64, k: usize) -> (w: u16)
    requires
        round < 4,
        k < 8,
    ensures
        w == round_weight_spec(round as int, k as int),
{
    let row: [u16; 8] = if round == 0 {
        [2, 2, 2, 2, 2, 2, 2, 2]
    } else if round == 1 {
        [34, 21, 13, 8, 5, 3, 2, 1]
    } else if round == 2 {
        [9, 8, 7, 6, 5, 4, 3, 2]
    } else {
        [64, 49, 36, 25, 16, 9, 4, 1]
    };
    assert(row@[k as int] == round_weight_spec(round as int, k as int));
    row[k]
}

pub fn round_target(round: u64) -> (t: u16)
    requires
        round < 4,
    ensures
        t == round_target_spec(round as int),
{
    let targets: [u16; 4] = [10, 40, 20, 80];
    targets[round as usize]
}

/// The lever at column `col` of board row `row` (row 5 holds the exits).
pub fn bit_shift(row: u8, col: u8) -> (k: u32)
    requires
        row <= 5,
        col < 4 + row,
    ensures
        k == row_start(row as int) + col,
{
    let start: u32 = match row {
        0 => 0,
        1 => 4,
        2 => 9,
        3 => 15,
        4 => 22,
        _ => 30,
    };
    start + col as u32
}

/// The shape of the exit weights: in every round an exit scores at least
/// one point and at least as much as any exit nearer the middle.  The first
/// round scores two everywhere; in the second the weights from the middle
/// outwards run 1, 2 and then each is the sum of the two inside it; in the
/// third they rise by one per exit from 2 in the middle; in the fourth an
/// exit `k` places from the edge scores the square of `8 - k`.
pub proof fn lemma_round_weights(round: int, k: int)
    requires
        0 <= round < 4,
        0 <= k < 8,
    ensures
        1 <= round_weight_spec(round, k) <= 64,
        k < 7 ==> round_weight_spec(round, k) >= round_weight_spec(round, k + 1),
        round == 0 ==> round_weight_spec(round, k) == 2,
        round == 1 && k < 6 ==> round_weight_spec(1, k) == round_weight_spec(1, k + 1)
            + round_weight_spec(1, k + 2),
        round == 1 ==> round_weight_spec(1, 7) == 1 && round_weight_spec(1, 6) == 2,
        round == 2 && k < 7 ==> round_weight_spec(2, k) == round_weight_spec(2, k + 1) + 1,
        round == 2 ==> round_weight_spec(2, 7) == 2,
        round == 3 ==> round_weight_spec(3, k) == (8 - k) * (8 - k),
{
    if round == 3 {
        if k == 0 {
            assert((8 - k) * (8 - k) == 64) by (nonlinear_arith)
                requires
                    k == 0,
            ;
        } else if k == 1 {
            assert((8 - k) * (8 - k) == 49) by (nonlinear_arith)
                requires
                    k == 1,
            ;
        } else if k == 2 {
            assert((8 - k) * (8 - k) == 36) by (nonlinear_arith)
                requires
                    k == 2,
            ;
        } else if k == 3 {
            assert((8 - k) * (8 - k) == 25) by (nonlinear_arith)
                requires
                    k == 3,
            ;
        } else if k == 4 {
            assert((8 - k) * (8 - k) == 16) by (nonlinear_arith)
                requires
                    k == 4,
            ;
        } else if k == 5 {
            assert((8 - k) * (8 - k) == 9) by (nonlinear_arith)
                requires
                    k == 5,
            ;
        } else if k == 6 {
            assert((8 - k) * (8 - k) == 4) by (nonlinear_arith)
                requires
                    k == 6,
            ;
        } else if k == 7 {
            assert((8 - k) * (8 - k) == 1) by (nonlinear_arith)
                requires
                    k == 7,
            ;
        }
    }
}

/// The targets of the rounds are positive, and the second and fourth rounds
/// ask for more than the first and third.
pub proof fn lemma_round_targets(round: int)
    requires
        0 <= round < 4,
    ensures
        round_target_spec(round) > 0,
        round_target_spec(1) > round_target_spec(0),
        round_target_spec(3) > round_target_spec(2),
{
}

} // verus!
