//! The mathematics of a coin drop: levers, slots, one sweep of the board
//! and the cascade of sweeps that ends when no coin is left on the board.
//!
//! The board has 30 levers in five rows of 4 to 8 levers; below them lies a
//! sixth row of 9 exits, numbered as levers 30 to 38.  Lever `k` owns the
//! slots `2k` and `2k + 1`, one on either side; a coin waiting at a lever sits
//! in one of its slots.  In the state word, bit `4 + 2k` says that a coin
//! rests on lever `k`, and bit `5 + 2k` which way the lever points.
use vstd::prelude::*;
use crate::constants::row_start;

verus! {

/// The board row of lever `k`; the exits form row 5.
pub open spec fn lever_row(k: int) -> int {
    if k < 4 {
        0
    } else if k < 9 {
        1
    } else if k < 15 {
        2
    } else if k < 22 {
        3
    } else if k < 30 {
        4
    } else {
        5
    }
}

pub open spec fn coin_pos(k: u64) -> u64 {
    (4 + 2 * k) as u64
}

pub open spec fn head_pos(k: u64) -> u64 {
    (5 + 2 * k) as u64
}

/// Whether a coin rests on lever `k`.
pub open spec fn has_coin(state: u64, k: u64) -> bool {
    (state >> coin_pos(k)) & 1 == 1
}

/// The side (0 or 1) that lever `k` points to.
pub open spec fn head_of(state: u64, k: u64) -> u64 {
    (state >> head_pos(k)) & 1
}

/// The state word with the two bits of lever `k` replaced.
pub open spec fn with_lever(state: u64, k: u64, coin: bool, head: u64) -> u64 {
    (state & !(3u64 << coin_pos(k))) | (if coin { 1u64 << coin_pos(k) } else { 0u64 }) | (head
        << head_pos(k))
}

/// The slot on the side lever `k` points to.
pub open spec fn head_slot(state: u64, k: int) -> int {
    2 * k + head_of(state, k as u64)
}

/// The slot on the other side of lever `k`.
pub open spec fn tail_slot(state: u64, k: int) -> int {
    2 * k + 1 - head_of(state, k as u64)
}

/// Where the coins that pass lever `k` land: on the lever of the next row
/// below its tail side, in the slot on the side the lever points to.
pub open spec fn target_slot(state: u64, k: int) -> int {
    let h = head_of(state, k as u64);
    let r = lever_row(k);
    2 * (row_start(r + 1) + (k - row_start(r)) + 1 - h) + h
}

/// How many of the `a` coins arriving on a lever's head side move over to its
/// tail side: all of them, but one that an empty lever takes up.
pub open spec fn carried(held: bool, a: nat) -> nat {
    if a == 0 {
        0
    } else if held {
        a
    } else {
        (a - 1) as nat
    }
}

/// What a lever does with `a` coins arriving on its head side and `b` on its
/// tail side, given whether it `held` a coin: whether it holds a coin after,
/// whether it turns over, whether it lets its held coin go (back onto its own
/// head side), and how many coins pass below.
pub open spec fn lever_outcome(held: bool, a: nat, b: nat) -> (bool, bool, bool, nat) {
    let captured = a > 0 && !held;
    let count = carried(held, a);
    let special = captured && count > 0 && b > 0;
    let total = b + count;
    let holding = held || captured;
    if total == 0 {
        (holding, false, false, 0)
    } else {
        let release = holding && (!special || b % 2 == 1);
        let flip = (!special && total % 2 == 1) || b % 2 == 1;
        (holding && !release, flip, release, total)
    }
}

/// Lever `k` handles the coins `coins` holds at its slots; the coins it sends
/// on are added to `next`.
pub open spec fn drop_on_lever(state: u64, next: Seq<nat>, coins: Seq<nat>, k: int) -> (
    u64,
    Seq<nat>,
) {
    let h = head_of(state, k as u64);
    let hs = head_slot(state, k);
    let o = lever_outcome(has_coin(state, k as u64), coins[hs], coins[tail_slot(state, k)]);
    let s2 = with_lever(state, k as u64, o.0, if o.1 { (1 - h) as u64 } else { h });
    let n1 = if o.2 {
        next.update(hs, next[hs] + 1)
    } else {
        next
    };
    let t = target_slot(state, k);
    let n2 = if o.3 > 0 {
        n1.update(t, n1[t] + o.3)
    } else {
        n1
    };
    (s2, n2)
}

pub open spec fn empty_slots() -> Seq<nat> {
    Seq::new(78, |i: int| 0nat)
}

/// Levers `0 .. n` handle, in order, the coins of `coins`.
pub open spec fn pass_upto(state: u64, coins: Seq<nat>, n: nat) -> (u64, Seq<nat>)
    decreases n,
{
    if n == 0 {
        (state, empty_slots())
    } else {
        let p = pass_upto(state, coins, (n - 1) as nat);
        drop_on_lever(p.0, p.1, coins, n - 1)
    }
}

/// One sweep of the board: every lever handles the coins at its slots.
pub open spec fn pass(state: u64, coins: Seq<nat>) -> (u64, Seq<nat>) {
    pass_upto(state, coins, 30)
}

/// Some coin is still on the board (in a slot of a lever, not an exit).
pub open spec fn has_live(coins: Seq<nat>) -> bool {
    exists|p: int| 0 <= p < 60 && coins[p] > 0
}

/// The coins at the two slots of lever `k`.
pub open spec fn pair(c: Seq<nat>, k: int) -> nat {
    c[2 * k] + c[2 * k + 1]
}

/// Weighted sum over levers `0 .. n` of the coins at their slots.
pub open spec fn lsum(c: Seq<nat>, w: spec_fn(int) -> int, n: int) -> int
    decreases n,
{
    if n <= 0 {
        0
    } else {
        lsum(c, w, n - 1) + pair(c, n - 1) * w(n - 1)
    }
}

/// Weighted count over levers `0 .. n` of the levers that hold a coin.
pub open spec fn stsum(state: u64, w: spec_fn(int) -> int, n: int) -> int
    decreases n,
{
    if n <= 0 {
        0
    } else {
        stsum(state, w, n - 1) + (if has_coin(state, (n - 1) as u64) {
            w(n - 1)
        } else {
            0
        })
    }
}

/// Number of levers among `0 .. n` with a coin at one of their slots.
pub open spec fn live_levers(c: Seq<nat>, n: int) -> int
    decreases n,
{
    if n <= 0 {
        0
    } else {
        live_levers(c, n - 1) + (if pair(c, n - 1) > 0 {
            1int
        } else {
            0
        })
    }
}

pub open spec fn unit_weight() -> spec_fn(int) -> int {
    |k: int| 1int
}

/// The energy of a coin waiting at a lever of row `r`.
pub open spec fn slot_energy() -> spec_fn(int) -> int {
    |k: int| 12 - 2 * lever_row(k)
}

/// The energy of a coin resting on a lever of row `r`.
pub open spec fn rest_energy() -> spec_fn(int) -> int {
    |k: int| 11 - 2 * lever_row(k)
}

/// A measure that every sweep of a board with a coin on it lowers.
pub open spec fn potential(state: u64, coins: Seq<nat>) -> int {
    lsum(coins, slot_energy(), 30) + stsum(state, rest_energy(), 30)
}

/// The number of coins in play: those waiting at levers and those resting on them.
pub open spec fn coins_in_play(state: u64, coins: Seq<nat>) -> int {
    lsum(coins, unit_weight(), 30) + stsum(state, unit_weight(), 30)
}

} // verus!
