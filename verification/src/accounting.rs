//! Conservation of coins and the decrease of the board's potential over a sweep.
use vstd::prelude::*;
use crate::bits::lemma_with_lever;
use crate::cascade::{
    drop_on_lever, empty_slots, has_coin, has_live, head_of, head_slot, lever_outcome, lever_row,
    live_levers, lsum, pair, pass, pass_upto, potential, rest_energy, slot_energy, stsum,
    tail_slot, target_slot, unit_weight, with_lever,
};
use crate::constants::row_start;

verus! {

/// Adding `d` coins at slot `t` adds `d` times the weight of its lever.
pub proof fn lemma_lsum_add(c: Seq<nat>, w: spec_fn(int) -> int, n: int, t: int, d: nat)
    requires
        0 <= t < c.len(),
        2 * n <= c.len(),
    ensures
        lsum(c.update(t, c[t] + d), w, n) == lsum(c, w, n) + (if t / 2 < n {
            d * w(t / 2)
        } else {
            0
        }),
    decreases n,
{
    let c2 = c.update(t, c[t] + d);
    if n > 0 {
        lemma_lsum_add(c, w, n - 1, t, d);
        let k = n - 1;
        let p = pair(c, k);
        let wk = w(k);
        if t / 2 == k {
            assert(pair(c2, k) == p + d);
            assert((p + d) * wk == p * wk + d * wk) by (nonlinear_arith);
        } else {
            assert(pair(c2, k) == p);
        }
    }
}

pub proof fn lemma_lsum_nonneg(c: Seq<nat>, w: spec_fn(int) -> int, n: int)
    requires
        forall|k: int| 0 <= k < n ==> #[trigger] w(k) >= 0,
    ensures
        lsum(c, w, n) >= 0,
    decreases n,
{
    if n > 0 {
        lemma_lsum_nonneg(c, w, n - 1);
        let p = pair(c, n - 1);
        let wk = w(n - 1);
        assert(p * wk >= 0) by (nonlinear_arith)
            requires
                p >= 0,
                wk >= 0,
        ;
    }
}

pub proof fn lemma_stsum_nonneg(s: u64, w: spec_fn(int) -> int, n: int)
    requires
        forall|k: int| 0 <= k < n ==> #[trigger] w(k) >= 0,
    ensures
        stsum(s, w, n) >= 0,
    decreases n,
{
    if n > 0 {
        lemma_stsum_nonneg(s, w, n - 1);
    }
}

/// At most one coin rests on each lever.
pub proof fn lemma_stsum_unit_bound(s: u64, n: int)
    requires
        0 <= n,
    ensures
        stsum(s, unit_weight(), n) <= n,
    decreases n,
{
    if n > 0 {
        lemma_stsum_unit_bound(s, n - 1);
    }
}

/// When two states agree on every lever but `k`, their weighted counts of
/// resting coins differ only by lever `k`'s part.
pub proof fn lemma_stsum_change(s1: u64, s2: u64, w: spec_fn(int) -> int, n: int, k: int)
    requires
        0 <= k,
        forall|j: int| 0 <= j < n && j != k ==> #[trigger] has_coin(s1, j as u64) == has_coin(s2, j as u64),
    ensures
        stsum(s2, w, n) == stsum(s1, w, n) + (if k < n {
            (if has_coin(s2, k as u64) {
                w(k)
            } else {
                0
            }) - (if has_coin(s1, k as u64) {
                w(k)
            } else {
                0
            })
        } else {
            0
        }),
    decreases n,
{
    if n > 0 {
        lemma_stsum_change(s1, s2, w, n - 1, k);
    }
}

/// A slot's coins are part of the unit-weighted sum that covers it.
pub proof fn lemma_slot_le_lsum(c: Seq<nat>, n: int, t: int)
    requires
        0 <= t,
        t / 2 < n,
        2 * n <= c.len(),
    ensures
        c[t] <= lsum(c, unit_weight(), n),
    decreases n,
{
    lemma_lsum_nonneg(c, unit_weight(), n - 1);
    assert(unit_weight()(n - 1) == 1);
    assert(pair(c, n - 1) * unit_weight()(n - 1) == pair(c, n - 1));
    if t / 2 < n - 1 {
        lemma_slot_le_lsum(c, n - 1, t);
    }
}

/// Unit-weighted sums grow with the number of levers they cover.
pub proof fn lemma_lsum_unit_mono(c: Seq<nat>, m: int, n: int)
    requires
        0 <= m <= n,
    ensures
        lsum(c, unit_weight(), m) <= lsum(c, unit_weight(), n),
    decreases n,
{
    if m < n {
        lemma_lsum_unit_mono(c, m, n - 1);
    }
}

/// The coins a lever leaves in play: those it sends on, the one it lets go,
/// the one it keeps, are those it held and received.  The second clause is
/// what makes the potential drop.
pub proof fn lemma_outcome(held: bool, a: nat, b: nat)
    ensures
        ({
            let o = lever_outcome(held, a, b);
            &&& a + b + (if held {
                1int
            } else {
                0
            }) == o.3 + (if o.2 {
                1int
            } else {
                0
            }) + (if o.0 {
                1int
            } else {
                0
            })
            &&& 2 * o.3 + (if o.0 {
                1int
            } else {
                0
            }) >= (if held {
                1int
            } else {
                0
            }) + (if a + b > 0 {
                1int
            } else {
                0
            })
            &&& (o.2 ==> o.3 > 0)
        }),
{
}

/// Where a lever of rows 0 to 4 sends its coins: a slot of the next row, or an exit.
pub proof fn lemma_target(s: u64, k: int)
    requires
        0 <= k < 30,
    ensures
        60 <= target_slot(s, k) < 78 <==> lever_row(k) == 4,
        0 <= target_slot(s, k) < 78,
        lever_row(target_slot(s, k) / 2) == lever_row(k) + 1,
        head_of(s, k as u64) <= 1,
        head_slot(s, k) / 2 == k,
        tail_slot(s, k) / 2 == k,
        pair_slots(s, k),
{
    let kk = k as u64;
    let h = head_of(s, kk);
    assert(h <= 1) by (bit_vector)
        requires
            h == (s >> ((5 + 2 * kk) as u64)) & 1,
    ;
}

pub open spec fn pair_slots(s: u64, k: int) -> bool {
    (head_slot(s, k) == 2 * k && tail_slot(s, k) == 2 * k + 1) || (head_slot(s, k) == 2 * k + 1
        && tail_slot(s, k) == 2 * k)
}


/// The account of one lever: every coin it handles stays in play or leaves
/// through an exit, and the potential drops by at least one if it had coins.
pub proof fn lemma_drop_accounting(state: u64, next: Seq<nat>, coins: Seq<nat>, k: int)
    requires
        0 <= k < 30,
        coins.len() == 78,
        next.len() == 78,
    ensures
        drop_on_lever(state, next, coins, k).1.len() == 78,
        lsum(drop_on_lever(state, next, coins, k).1, unit_weight(), 39) + stsum(
            drop_on_lever(state, next, coins, k).0,
            unit_weight(),
            30,
        ) == lsum(next, unit_weight(), 39) + stsum(state, unit_weight(), 30) + pair(coins, k),
        lsum(drop_on_lever(state, next, coins, k).1, slot_energy(), 30) + stsum(
            drop_on_lever(state, next, coins, k).0,
            rest_energy(),
            30,
        ) + (if pair(coins, k) > 0 {
            1int
        } else {
            0
        }) <= lsum(next, slot_energy(), 30) + stsum(state, rest_energy(), 30) + pair(coins, k) * (
        12 - 2 * lever_row(k)),
        drop_on_lever(state, next, coins, k).0 & 15 == state & 15,
{
    let kk = k as u64;
    let h = head_of(state, kk);
    let hs = head_slot(state, k);
    let ts = tail_slot(state, k);
    let held = has_coin(state, kk);
    lemma_target(state, k);
    let a = coins[hs];
    let b = coins[ts];
    let o = lever_outcome(held, a, b);
    lemma_outcome(held, a, b);
    let newh: u64 = if o.1 {
        (1 - h) as u64
    } else {
        h
    };
    let s2 = with_lever(state, kk, o.0, newh);
    let n1 = if o.2 {
        next.update(hs, next[hs] + 1)
    } else {
        next
    };
    let t = target_slot(state, k);
    let n2 = if o.3 > 0 {
        n1.update(t, n1[t] + o.3)
    } else {
        n1
    };
    assert(drop_on_lever(state, next, coins, k) == (s2, n2));
    assert(a + b == pair(coins, k));
    lemma_with_lever(state, kk, kk, o.0, newh);
    assert forall|j: int| 0 <= j < 30 && j != k implies #[trigger] has_coin(state, j as u64)
        == has_coin(s2, j as u64) by {
        lemma_with_lever(state, kk, j as u64, o.0, newh);
    }
    let R: int = if o.2 {
        1
    } else {
        0
    };
    let E: int = o.3 as int;
    let F: int = if o.0 {
        1
    } else {
        0
    };
    let C: int = if held {
        1
    } else {
        0
    };
    let A: int = (a + b) as int;
    lemma_stsum_change(state, s2, unit_weight(), 30, k);
    lemma_stsum_change(state, s2, rest_energy(), 30, k);
    let W: int = 12 - 2 * lever_row(k);
    let T: int = if lever_row(k) == 4 {
        0
    } else {
        W - 2
    };
    assert(hs / 2 == k && 0 <= hs < 78);
    if o.2 {
        lemma_lsum_add(next, unit_weight(), 39, hs, 1);
        lemma_lsum_add(next, slot_energy(), 30, hs, 1);
        assert(unit_weight()(k) == 1);
        assert(slot_energy()(k) == W);
        assert(lsum(n1, unit_weight(), 39) == lsum(next, unit_weight(), 39) + 1);
        assert(lsum(n1, slot_energy(), 30) == lsum(next, slot_energy(), 30) + W);
    }
    assert(lsum(n1, unit_weight(), 39) == lsum(next, unit_weight(), 39) + R);
    assert(lsum(n1, slot_energy(), 30) == lsum(next, slot_energy(), 30) + R * W);
    if o.3 > 0 {
        lemma_lsum_add(n1, unit_weight(), 39, t, o.3);
        lemma_lsum_add(n1, slot_energy(), 30, t, o.3);
        assert(unit_weight()(t / 2) == 1);
        assert(o.3 * unit_weight()(t / 2) == E);
        if lever_row(k) < 4 {
            assert(t / 2 < 30);
            assert(slot_energy()(t / 2) == T);
        } else {
            assert(t / 2 >= 30);
        }
        assert(lsum(n2, slot_energy(), 30) == lsum(n1, slot_energy(), 30) + E * T);
    } else {
        assert(E * T == 0) by (nonlinear_arith)
            requires
                E == 0,
        ;
    }
    assert(lsum(n2, unit_weight(), 39) == lsum(next, unit_weight(), 39) + R + E);
    assert(lsum(n2, slot_energy(), 30) == lsum(next, slot_energy(), 30) + R * W + E * T);
    assert(stsum(s2, rest_energy(), 30) == stsum(state, rest_energy(), 30) + F * (W - 1) - C * (W
        - 1));
    let P: int = if A > 0 {
        1
    } else {
        0
    };
    assert(has_coin(s2, kk) == o.0);
    assert(rest_energy()(k) == W - 1);
    assert(unit_weight()(k) == 1);
    assert(stsum(s2, unit_weight(), 30) == stsum(state, unit_weight(), 30) + F - C);
    assert(s2 & 15 == state & 15);
    assert(R * W + E * T + F * (W - 1) - C * (W - 1) + P <= A * W) by (nonlinear_arith)
        requires
            A + C == E + R + F,
            2 * E + F >= C + P,
            W >= 4,
            0 <= T <= W - 2,
            E >= 0,
            A >= 0,
            0 <= R <= 1,
            0 <= F <= 1,
            0 <= C <= 1,
    ;
}

pub proof fn lemma_lsum_empty(w: spec_fn(int) -> int, n: int)
    requires
        2 * n <= 78,
    ensures
        lsum(empty_slots(), w, n) == 0,
    decreases n,
{
    if n > 0 {
        lemma_lsum_empty(w, n - 1);
        assert(pair(empty_slots(), n - 1) == 0);
    }
}

/// A lever with no coin at its slots leaves everything as it was.
pub proof fn lemma_drop_idle(state: u64, next: Seq<nat>, coins: Seq<nat>, k: int)
    requires
        0 <= k < 30,
        coins.len() == 78,
        pair(coins, k) == 0,
    ensures
        drop_on_lever(state, next, coins, k) == (state, next),
{
    let kk = k as u64;
    let h = head_of(state, kk);
    lemma_target(state, k);
    let held = has_coin(state, kk);
    let o = lever_outcome(held, 0, 0);
    assert(o == (held, false, false, 0nat));
    assert(with_lever(state, kk, held, h) == state) by (bit_vector)
        requires
            kk < 30,
            held == ((state >> ((4 + 2 * kk) as u64)) & 1 == 1),
            h == (state >> ((5 + 2 * kk) as u64)) & 1,
    ;
}

/// Levers with no coin at their slots can be skipped in a sweep.
pub proof fn lemma_pass_skip(state: u64, coins: Seq<nat>, m: nat, n: nat)
    requires
        m <= n <= 30,
        coins.len() == 78,
        forall|k: int| m <= k < n ==> #[trigger] pair(coins, k) == 0,
    ensures
        pass_upto(state, coins, n) == pass_upto(state, coins, m),
    decreases n,
{
    if m < n {
        lemma_pass_skip(state, coins, m, (n - 1) as nat);
        let p = pass_upto(state, coins, (n - 1) as nat);
        lemma_drop_idle(p.0, p.1, coins, n - 1);
    }
}

/// The account of a sweep over levers `0 .. n`.
pub proof fn lemma_pass_accounting(state: u64, coins: Seq<nat>, n: nat)
    requires
        coins.len() == 78,
        n <= 30,
    ensures
        pass_upto(state, coins, n).1.len() == 78,
        lsum(pass_upto(state, coins, n).1, unit_weight(), 39) + stsum(
            pass_upto(state, coins, n).0,
            unit_weight(),
            30,
        ) == lsum(coins, unit_weight(), n as int) + stsum(state, unit_weight(), 30),
        lsum(pass_upto(state, coins, n).1, slot_energy(), 30) + stsum(
            pass_upto(state, coins, n).0,
            rest_energy(),
            30,
        ) + live_levers(coins, n as int) <= lsum(coins, slot_energy(), n as int) + stsum(
            state,
            rest_energy(),
            30,
        ),
        pass_upto(state, coins, n).0 & 15 == state & 15,
    decreases n,
{
    if n == 0 {
        lemma_lsum_empty(unit_weight(), 39);
        lemma_lsum_empty(slot_energy(), 30);
    } else {
        lemma_pass_accounting(state, coins, (n - 1) as nat);
        let p = pass_upto(state, coins, (n - 1) as nat);
        lemma_drop_accounting(p.0, p.1, coins, n - 1);
        assert(unit_weight()(n - 1) == 1);
        assert(slot_energy()(n - 1) == 12 - 2 * lever_row(n - 1));
        assert(pair(coins, n - 1) * unit_weight()(n - 1) == pair(coins, n - 1));
    }
}

/// A sweep of a board with a coin on it lowers the potential, which stays
/// non-negative.
pub proof fn lemma_pass_decreases(state: u64, coins: Seq<nat>)
    requires
        coins.len() == 78,
        has_live(coins),
    ensures
        0 <= potential(pass(state, coins).0, pass(state, coins).1) < potential(state, coins),
{
    lemma_pass_accounting(state, coins, 30);
    let p = choose|p: int| 0 <= p < 60 && coins[p] > 0;
    lemma_live_positive(coins, 30, p / 2);
    let q = pass(state, coins);
    assert forall|k: int| 0 <= k < 30 implies #[trigger] slot_energy()(k) >= 0 by {}
    assert forall|k: int| 0 <= k < 30 implies #[trigger] rest_energy()(k) >= 0 by {}
    lemma_lsum_nonneg(q.1, slot_energy(), 30);
    lemma_stsum_nonneg(q.0, rest_energy(), 30);
}

pub proof fn lemma_live_positive(c: Seq<nat>, n: int, k: int)
    requires
        0 <= k < n,
        pair(c, k) > 0,
    ensures
        live_levers(c, n) >= 1,
    decreases n,
{
    if k < n - 1 {
        lemma_live_positive(c, n - 1, k);
    }
    lemma_live_nonneg(c, n - 1);
}

pub proof fn lemma_live_nonneg(c: Seq<nat>, n: int)
    ensures
        live_levers(c, n) >= 0,
    decreases n,
{
    if n > 0 {
        lemma_live_nonneg(c, n - 1);
    }
}

} // verus!
