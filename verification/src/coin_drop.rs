//! Dropping a coin: the sweeps of the board, their points, and the code
//! that carries them out on the state word and two arrays of coin counts.
use vstd::prelude::*;
use crate::accounting::{
    lemma_lsum_add, lemma_lsum_empty, lemma_lsum_nonneg, lemma_lsum_unit_mono,
    lemma_pass_accounting, lemma_pass_decreases, lemma_pass_skip, lemma_slot_le_lsum,
    lemma_stsum_nonneg, lemma_stsum_unit_bound, lemma_target,
};
use crate::coin_list::{
    coin_list_get, coin_list_is_empty, coin_list_items, coin_list_len, coin_list_new,
    coin_list_push, CoinList,
};
use crate::bits::lemma_lever_ops;
use crate::cascade::{
    carried, coins_in_play, drop_on_lever, empty_slots, has_coin, has_live, head_of, head_slot, lever_outcome,
    lever_row, lsum, pair, pass, pass_upto, potential, stsum, tail_slot, target_slot, unit_weight,
};
use crate::constants::{
    bit_shift, round_weight, round_weight_spec, row_start, CURR_ROUND, ONE, RIGHT_PLAYER,
};

verus! {

/// The points scored by the coins that reached the exits in one sweep; the
/// two outermost exits score nothing.
pub open spec fn exit_points(next: Seq<nat>, round: int, n: int) -> int
    decreases n,
{
    if n <= 0 {
        0
    } else {
        exit_points(next, round, n - 1) + (next[76 - (n - 1)] + next[61 + (n - 1)])
            * round_weight_spec(round, n - 1)
    }
}

/// The board after sweeps repeat until no coin is left on it, and the
/// points scored on the way.
pub open spec fn cascade(state: u64, coins: Seq<nat>, round: int) -> (u64, int)
    decreases potential(state, coins),
{
    if coins.len() != 78 || !has_live(coins) {
        (state, 0)
    } else {
        proof {
            lemma_pass_decreases(state, coins);
        }
        let p = pass(state, coins);
        let rest = cascade(p.0, p.1, round);
        (rest.0, exit_points(p.1, round, 8) + rest.1)
    }
}

/// A single coin put into slot `location`.
pub open spec fn drop_start(location: int) -> Seq<nat> {
    empty_slots().update(location, 1)
}

/// The state word after a coin is dropped into slot `location`, and the
/// points it scores in the current round.
pub open spec fn drop_result(state: u64, location: int) -> (u64, int) {
    cascade(state, drop_start(location), (state & 3) as int)
}

/// The coin counts of an array, as numbers.
pub open spec fn counts(a: [u8; 78]) -> Seq<nat> {
    a@.map_values(|v: u8| v as nat)
}

pub open spec fn fits_bytes(s: Seq<nat>) -> bool {
    forall|i: int| 0 <= i < s.len() ==> #[trigger] s[i] <= 255
}

/// The lever at a (row, column) position.
pub open spec fn lever_of(p: (u8, u8)) -> int {
    row_start(p.0 as int) + p.1
}

/// A (row, column) position of a lever on the board.
pub open spec fn on_board(p: (u8, u8)) -> bool {
    p.0 <= 4 && p.1 < 4 + p.0
}

/// The bit that marks a lever as handled during a sweep.
pub open spec fn mark_bit(k: int) -> int {
    k + row_start(lever_row(k))
}

/// The row of slot `pos` and its place in the row (slots past the board
/// count as row 6).
fn get_row_c(pos: usize) -> (rc: (u8, usize))
    ensures
        pos < 60 ==> rc.0 == lever_row(pos as int / 2) && rc.1 == pos - 2 * row_start(rc.0 as int),
        pos >= 60 ==> rc.0 == 6 && rc.1 == pos - 59,
{
    if pos < 8 {
        return (0, pos);
    }
    if pos < 18 {
        let pos = pos - 8;
        return (1, pos);
    }
    if pos < 30 {
        let pos = pos - 18;
        return (2, pos);
    }
    if pos < 44 {
        let pos = pos - 30;
        return (3, pos);
    }
    if pos < 60 {
        let pos = pos - 44;
        return (4, pos);
    }
    let pos = pos - 60;
    return (6, pos + 1);
}

/// The (row, column) position of the lever that owns slot `pos` (slots past
/// the board count as row 6).
fn get_u8_pos(pos: usize) -> (p: (u8, u8))
    ensures
        pos < 60 ==> on_board(p) && lever_of(p) == pos / 2,
        pos >= 60 ==> p.0 == 6 && p.1 == ((pos - 59) / 2) as u8,
{
    let computed = get_row_c(pos);
    (computed.0, (#[verifier::truncate] ((computed.1 / 2) as u8)))
}

/// The bit that marks a (row, column) position as handled during a sweep:
/// the row's first slot plus the column (plus one past the board).
pub open spec fn mark_of(pos: (u8, u8)) -> int {
    (if pos.0 == 0 {
        0int
    } else if pos.0 == 1 {
        8
    } else if pos.0 == 2 {
        18
    } else if pos.0 == 3 {
        30
    } else if pos.0 == 4 {
        44
    } else {
        60
    }) + (if pos.0 > 4 {
        pos.1 + 1
    } else {
        pos.1 as int
    })
}

/// The bit that marks the lever at `pos` as handled during a sweep.
fn col_to_pos(pos: (u8, u8)) -> (b: u8)
    requires
        mark_of(pos) <= 255,
    ensures
        b == mark_of(pos),
        on_board(pos) ==> b == mark_bit(lever_of(pos)) && b < 64,
{
    let row = pos.0;
    let col = pos.1;
    let mut end: u8 = match row {
        0 => 0,
        1 => 8,
        2 => 18,
        3 => 30,
        4 => 44,
        _ => 60,
    };
    end += if row > 4 {
        col + 1
    } else {
        col
    };
    end
}

/// Slot `pos` of the board lies at place `i` of row `r`: the two slots of
/// the row's levers are numbered from the row's first slot, each lever's pair
/// in turn, so the slot is side `i % 2` of the row's lever `i / 2`.
pub proof fn lemma_slot_layout(pos: int)
    requires
        0 <= pos < 60,
    ensures
        ({
            let r = lever_row(pos / 2);
            let i = pos - 2 * row_start(r);
            &&& 0 <= r <= 4
            &&& 0 <= i < 2 * (r + 4)
            &&& 2 * (row_start(r) + i / 2) + i % 2 == pos
        }),
{
}

/// Each lever of the board has its own mark bit, below bit 52.
pub proof fn lemma_marks_distinct(p1: (u8, u8), p2: (u8, u8))
    requires
        on_board(p1),
        on_board(p2),
    ensures
        mark_of(p1) == mark_bit(lever_of(p1)),
        0 <= mark_of(p1) < 52,
        mark_of(p1) == mark_of(p2) ==> p1 == p2,
{
}

proof fn lemma_u8_odd(x: u8)
    by (bit_vector)
    ensures
        (x & 1 == 1) == (x % 2 == 1),
{
}

/// Lever `(r, c)` handles the coins at its slots: it may take up a coin,
/// pass coins on to the next row or an exit, let its coin go and turn over.
fn handle_lever_drop(
    state: &mut u64,
    r: u8,
    c: u8,
    coins: &mut [u8; 78],
    next_coins: &mut [u8; 78],
)
    requires
        r <= 4,
        c < 4 + r,
        pair(counts(*old(coins)), row_start(r as int) + c) <= 255,
        fits_bytes(
            drop_on_lever(
                *old(state),
                counts(*old(next_coins)),
                counts(*old(coins)),
                row_start(r as int) + c,
            ).1,
        ),
    ensures
        (*final(state), counts(*final(next_coins))) == drop_on_lever(
            *old(state),
            counts(*old(next_coins)),
            counts(*old(coins)),
            row_start(r as int) + c,
        ),
        forall|s: int|
            0 <= s < 78 && s / 2 != row_start(r as int) + c ==> #[trigger] final(coins)@[s] == old(
                coins,
            )@[s],
        final(coins)@[head_slot(*old(state), row_start(r as int) + c)] == old(coins)@[head_slot(
            *old(state),
            row_start(r as int) + c,
        )],
        final(coins)@[tail_slot(*old(state), row_start(r as int) + c)] == old(coins)@[tail_slot(
            *old(state),
            row_start(r as int) + c,
        )] + carried(
            has_coin(*old(state), (row_start(r as int) + c) as u64),
            old(coins)@[head_slot(*old(state), row_start(r as int) + c)] as nat,
        ),
{
    let ghost k: int = row_start(r as int) + c;
    let ghost s0: u64 = *state;
    let ghost nx0: Seq<nat> = counts(*next_coins);
    let ghost cs0: Seq<nat> = counts(*coins);
    let shift: u32 = bit_shift(r, c);
    let sh: u64 = shift as u64;
    proof {
        lemma_target(s0, k);
        assert(lever_row(k) == r);
    }
    let mut coin: u32 = (#[verifier::truncate] (((*state >> (4 + 2 * sh)) & ONE) as u32));
    let head: u32 = (#[verifier::truncate] (((*state >> (5 + 2 * sh)) & ONE) as u32));
    proof {
        assert(coin <= 1 && (coin == 1) == has_coin(s0, sh)) by (bit_vector)
            requires
                coin == ((s0 >> ((4 + 2 * sh) as u64)) & 1) as u32,
                sh < 30,
        ;
        assert(head as u64 == head_of(s0, sh)) by (bit_vector)
            requires
                head == ((s0 >> ((5 + 2 * sh) as u64)) & 1) as u32,
                sh < 30,
        ;
    }
    let tail: u32 = head ^ 1;
    proof {
        assert(tail == 1 - head) by (bit_vector)
            requires
                tail == head ^ 1,
                head <= 1,
        ;
    }
    let head_location = (2 * shift + head) as usize;
    let tail_location = (2 * shift + tail) as usize;
    let head_coin = coins[head_location];
    let tail_coin = coins[tail_location];
    let ghost a: nat = head_coin as nat;
    let ghost b: nat = tail_coin as nat;
    let ghost o = lever_outcome(has_coin(s0, sh), a, b);
    let ghost out = drop_on_lever(s0, nx0, cs0, k);
    let ghost t = target_slot(s0, k);
    assert(t != head_slot(s0, k) && 0 <= t < 78);
    assert(head_location == head_slot(s0, k) && tail_location == tail_slot(s0, k));
    assert(cs0[head_location as int] == a && cs0[tail_location as int] == b);
    let mut special_case = false;
    let mut count: u8 = 0;
    let ghost cap: bool = false;
    if head_coin > 0 {
        count = head_coin;
        if coin == 0 {
            coin = 1;
            *state = *state | (RIGHT_PLAYER << (1 + 2 * sh));
            proof {
                cap = true;
            }
            count -= 1;
            if count > 0 && tail_coin > 0 {
                special_case = true;
            }
        }
        coins[tail_location] = coins[tail_location] + count;
    }
    let tail_coin = coins[tail_location];
    assert(tail_coin == b + count);
    let ghost rel: bool = false;
    let ghost fl: bool = false;
    let ghost n1: Seq<nat> = nx0;
    if tail_coin > 0 {
        let count_2: u8 = tail_coin;
        proof {
            lemma_u8_odd((count_2 - count) as u8);
            lemma_u8_odd(count_2);
            assert(count_2 - count == b);
        }
        if coin == 1 && (!special_case || ((count_2 - count) & 1) == 1) {
            *state = *state & !(RIGHT_PLAYER << (1 + 2 * sh));
            proof {
                rel = true;
                assert(o.2);
                assert(next_coins@[head_location as int] as nat == nx0[head_location as int]);
                assert(out.1[head_location as int] == nx0[head_location as int] + 1);
                assert(out.1[head_location as int] <= 255);
            }
            next_coins[head_location] = next_coins[head_location] + 1;
            proof {
                n1 = nx0.update(head_location as int, nx0[head_location as int] + 1);
                assert(counts(*next_coins) =~= n1);
            }
        }
        if !special_case && (count_2 & 1) == 1 {
            *state = *state ^ (RIGHT_PLAYER << (2 + 2 * sh));
            proof {
                fl = true;
            }
        } else if ((count_2 - count) & 1) == 1 {
            *state = *state ^ (RIGHT_PLAYER << (2 + 2 * sh));
            proof {
                fl = true;
            }
        }
        let target = (2 * bit_shift(r + 1, c + tail as u8) + head) as usize;
        proof {
            assert(target == target_slot(s0, k));
            assert(target as int != head_location as int);
            assert(out.1[t] == n1[t] + count_2);
            assert(out.1[t] <= 255);
            assert(next_coins@[t] as nat == n1[t]);
        }
        next_coins[target] = next_coins[target] + count_2;
        proof {
            assert(counts(*next_coins) =~= n1.update(target as int, n1[target as int] + count_2 as nat));
        }
    }
    proof {
        lemma_lever_ops(s0, sh, cap, rel, fl);
    }
}


/// A list of the levers that have coins waiting at them: each once or more,
/// none other, in the order of the levers.
pub open spec fn good_list(l: Seq<(u8, u8)>, c: Seq<nat>) -> bool {
    &&& l.len() <= 60
    &&& forall|m: int|
        0 <= m < l.len() ==> on_board(#[trigger] l[m]) && pair(c, lever_of(l[m])) > 0
    &&& forall|m1: int, m2: int|
        0 <= m1 < m2 < l.len() ==> lever_of(#[trigger] l[m1]) <= lever_of(#[trigger] l[m2])
    &&& forall|k: int|
        0 <= k < 30 && #[trigger] pair(c, k) > 0 ==> exists|m: int|
            0 <= m < l.len() && lever_of(l[m]) == k
}

pub open spec fn bit_set(x: u64, b: int) -> bool {
    (x >> (b as u64)) & 1 == 1
}

proof fn lemma_mark_bits(x: u64, a: u64, b: u64)
    by (bit_vector)
    requires
        a < 64,
        b < 64,
    ensures
        ((x & (1u64 << a)) > 0) == ((x >> a) & 1 == 1),
        (((x | (1u64 << a)) >> b) & 1 == 1) == (((x >> b) & 1 == 1) || a == b),
        (0u64 >> b) & 1 == 0,
{
}

proof fn lemma_mark_bit_injective(k1: int, k2: int)
    requires
        0 <= k1 < 30,
        0 <= k2 < 30,
    ensures
        0 <= mark_bit(k1) < 64,
        mark_bit(k1) == mark_bit(k2) ==> k1 == k2,
{
}

/// The levers that have coins waiting at them in `coins`, in order.
fn live_lever_list(coins: &[u8; 78]) -> (list: CoinList)
    ensures
        good_list(coin_list_items(list), counts(*coins)),
{
    let ghost c = counts(*coins);
    let mut list = coin_list_new();
    let mut pos: usize = 0;
    while pos < 60
        invariant
            0 <= pos <= 60,
            c == counts(*coins),
            coin_list_items(list).len() <= pos,
            forall|m: int|
                0 <= m < coin_list_items(list).len() ==> on_board(
                    #[trigger] coin_list_items(list)[m],
                ) && pair(c, lever_of(coin_list_items(list)[m])) > 0 && 2 * lever_of(
                    coin_list_items(list)[m],
                ) < pos,
            forall|m1: int, m2: int|
                0 <= m1 < m2 < coin_list_items(list).len() ==> lever_of(
                    #[trigger] coin_list_items(list)[m1],
                ) <= lever_of(#[trigger] coin_list_items(list)[m2]),
            forall|p: int|
                0 <= p < pos && #[trigger] c[p] > 0 ==> exists|m: int|
                    0 <= m < coin_list_items(list).len() && lever_of(coin_list_items(list)[m]) == p
                        / 2,
        decreases 60 - pos,
    {
        if coins[pos] > 0 {
            let p = get_u8_pos(pos);
            let ghost old_items = coin_list_items(list);
            coin_list_push(&mut list, p);
            proof {
                let items = coin_list_items(list);
                assert(items[old_items.len() as int] == p);
                assert forall|m: int| 0 <= m < old_items.len() implies #[trigger] items[m]
                    == old_items[m] by {}
                assert forall|q: int| 0 <= q < pos + 1 && #[trigger] c[q] > 0 implies exists|m: int|
                    0 <= m < items.len() && lever_of(items[m]) == q / 2 by {
                    if q == pos {
                        assert(lever_of(items[old_items.len() as int]) == q / 2);
                    } else {
                        let m = choose|m: int|
                            0 <= m < old_items.len() && lever_of(old_items[m]) == q / 2;
                        assert(items[m] == old_items[m]);
                    }
                }
            }
        }
        pos += 1;
    }
    let ghost l = coin_list_items(list);
    assert forall|k: int| 0 <= k < 30 && #[trigger] pair(c, k) > 0 implies exists|m: int|
        0 <= m < l.len() && lever_of(l[m]) == k by {
        if c[2 * k] > 0 {
            assert(c[2 * k] > 0);
        } else {
            assert(c[2 * k + 1] > 0);
        }
    }
    list
}

/// The lever handled last before item `i` of the list, plus one.
pub open spec fn handled_upto(l: Seq<(u8, u8)>, i: int) -> int {
    if i == 0 {
        0
    } else {
        lever_of(l[i - 1]) + 1
    }
}

/// Item `i` names a lever already handled exactly when it repeats the lever
/// of item `i - 1`; otherwise no lever between the two has coins.
proof fn lemma_list_step(l: Seq<(u8, u8)>, c: Seq<nat>, i: int)
    requires
        good_list(l, c),
        0 <= i < l.len(),
    ensures
        (exists|m: int| 0 <= m < i && lever_of(l[m]) == lever_of(l[i])) <==> (i > 0
            && lever_of(l[i]) == handled_upto(l, i) - 1),
        (exists|m: int| 0 <= m < i && lever_of(l[m]) == lever_of(l[i])) || lever_of(l[i])
            >= handled_upto(l, i),
        forall|j: int| handled_upto(l, i) <= j < lever_of(l[i]) ==> #[trigger] pair(c, j) == 0,
        0 <= lever_of(l[i]) < 30,
{
    let lev = lever_of(l[i]);
    assert(on_board(l[i]));
    if i > 0 {
        assert(lever_of(l[i - 1]) <= lev);
        if exists|m: int| 0 <= m < i && lever_of(l[m]) == lev {
            let m = choose|m: int| 0 <= m < i && lever_of(l[m]) == lev;
            if m < i - 1 {
                assert(lever_of(l[m]) <= lever_of(l[i - 1]));
            }
        }
        if lev == handled_upto(l, i) - 1 {
            assert(lever_of(l[i - 1]) == lev);
        }
    }
    assert forall|j: int| handled_upto(l, i) <= j < lev implies #[trigger] pair(c, j) == 0 by {
        if pair(c, j) > 0 {
            let m = choose|m: int| 0 <= m < l.len() && lever_of(l[m]) == j;
            if m < i {
                if m < i - 1 {
                    assert(lever_of(l[m]) <= lever_of(l[i - 1]));
                }
            } else if m > i {
                assert(lever_of(l[i]) <= lever_of(l[m]));
            }
        }
    }
}

/// No lever after the last one of the list has coins.
proof fn lemma_list_end(l: Seq<(u8, u8)>, c: Seq<nat>)
    requires
        good_list(l, c),
    ensures
        forall|j: int| handled_upto(l, l.len() as int) <= j < 30 ==> #[trigger] pair(c, j) == 0,
{
    let n = l.len() as int;
    assert forall|j: int| handled_upto(l, n) <= j < 30 implies #[trigger] pair(c, j) == 0 by {
        if pair(c, j) > 0 {
            let m = choose|m: int| 0 <= m < l.len() && lever_of(l[m]) == j;
            if m < n - 1 {
                assert(lever_of(l[m]) <= lever_of(l[n - 1]));
            }
        }
    }
}

/// The marks after lever `lev` (item `i`) is marked.
proof fn lemma_marks_after(prev: u64, l: Seq<(u8, u8)>, i: int, lev: int)
    requires
        0 <= i < l.len(),
        lev == lever_of(l[i]),
        0 <= lev < 30,
        forall|k: int|
            0 <= k < 30 ==> (#[trigger] bit_set(prev, mark_bit(k))) == (exists|m: int|
                0 <= m < i && lever_of(l[m]) == k),
    ensures
        forall|k: int|
            0 <= k < 30 ==> (#[trigger] bit_set(prev | (1u64 << (mark_bit(lev) as u64)), mark_bit(k)))
                == (exists|m: int| 0 <= m < i + 1 && lever_of(l[m]) == k),
{
    assert forall|k: int| 0 <= k < 30 implies (#[trigger] bit_set(
        prev | (1u64 << (mark_bit(lev) as u64)),
        mark_bit(k),
    )) == (exists|m: int| 0 <= m < i + 1 && lever_of(l[m]) == k) by {
        lemma_mark_bit_injective(k, lev);
        lemma_mark_bit_injective(lev, k);
        lemma_mark_bits(prev, mark_bit(lev) as u64, mark_bit(k) as u64);
        assert(bit_set(prev, mark_bit(k)) == (exists|m: int| 0 <= m < i && lever_of(l[m]) == k));
        if k == lev {
            assert(lever_of(l[i]) == k);
        }
        if exists|m: int| 0 <= m < i + 1 && lever_of(l[m]) == k {
            let m = choose|m: int| 0 <= m < i + 1 && lever_of(l[m]) == k;
        }
    }
}

/// While a sweep handles lever `lev`, every count stays within a byte.
proof fn lemma_sweep_fits(st0: u64, c0: Seq<nat>, lev: int)
    requires
        0 <= lev < 30,
        c0.len() == 78,
        coins_in_play(st0, c0) <= 31,
    ensures
        pair(c0, lev) <= 62,
        fits_bytes(pass_upto(st0, c0, (lev + 1) as nat).1),
{
    lemma_stsum_nonneg(st0, unit_weight(), 30);
    lemma_pass_accounting(st0, c0, (lev + 1) as nat);
    lemma_lsum_unit_mono(c0, lev + 1, 30);
    let q1 = pass_upto(st0, c0, (lev + 1) as nat);
    lemma_stsum_nonneg(q1.0, unit_weight(), 30);
    assert forall|s: int| 0 <= s < q1.1.len() implies #[trigger] q1.1[s] <= 255 by {
        lemma_slot_le_lsum(q1.1, 39, s);
    }
    lemma_slot_le_lsum(c0, 30, 2 * lev);
    lemma_slot_le_lsum(c0, 30, 2 * lev + 1);
}

/// A lever reads the coins at its own two slots only.
proof fn lemma_drop_reads_own_slots(st: u64, nx: Seq<nat>, c1: Seq<nat>, c2: Seq<nat>, k: int)
    requires
        0 <= k < 30,
        c1.len() == 78,
        c2.len() == 78,
        c1[2 * k] == c2[2 * k],
        c1[2 * k + 1] == c2[2 * k + 1],
    ensures
        drop_on_lever(st, nx, c1, k) == drop_on_lever(st, nx, c2, k),
{
    lemma_target(st, k);
}

/// One sweep of the board: each lever of the list handles, once, the coins
/// waiting at its slots; the coins it sends on are gathered in the result.
fn sweep(state: &mut u64, coins: &mut [u8; 78], list: &CoinList) -> (next: [u8; 78])
    requires
        good_list(coin_list_items(*list), counts(*old(coins))),
        coins_in_play(*old(state), counts(*old(coins))) <= 31,
    ensures
        (*final(state), counts(next)) == pass(*old(state), counts(*old(coins))),
{
    let ghost st0: u64 = *state;
    let ghost c0: Seq<nat> = counts(*coins);
    let ghost l = coin_list_items(*list);
    let mut next_coins: [u8; 78] = [0; 78];
    let mut searched_map: u64 = 0;
    let n = coin_list_len(list);
    let mut i: usize = 0;
    proof {
        assert(counts(next_coins) =~= empty_slots());
        assert forall|k: int| 0 <= k < 30 implies (#[trigger] bit_set(searched_map, mark_bit(k)))
            == (exists|m: int| 0 <= m < 0 && lever_of(l[m]) == k) by {
            lemma_mark_bit_injective(k, k);
            lemma_mark_bits(0, 0, mark_bit(k) as u64);
        }
    }
    while i < n
        invariant
            n == l.len(),
            0 <= i <= n,
            l == coin_list_items(*list),
            good_list(l, c0),
            c0.len() == 78,
            coins_in_play(st0, c0) <= 31,
            0 <= handled_upto(l, i as int) <= 30,
            (*state, counts(next_coins)) == pass_upto(st0, c0, handled_upto(l, i as int) as nat),
            forall|s: int|
                0 <= s < 78 && s / 2 >= handled_upto(l, i as int) ==> #[trigger] coins@[s] as nat
                    == c0[s],
            forall|k: int|
                0 <= k < 30 ==> (#[trigger] bit_set(searched_map, mark_bit(k))) == (exists|m: int|
                    0 <= m < i && lever_of(l[m]) == k),
        decreases n - i,
    {
        let position = coin_list_get(list, i);
        let ghost lev = lever_of(position);
        let ghost done = handled_upto(l, i as int);
        proof {
            lemma_list_step(l, c0, i as int);
        }
        let b = col_to_pos(position);
        let pos: u64 = 1u64 << (b as u64);
        proof {
            lemma_mark_bits(searched_map, b as u64, b as u64);
            assert(bit_set(searched_map, mark_bit(lev)) == ((searched_map & pos) > 0));
        }
        if (searched_map & pos) > 0 {
            proof {
                assert(handled_upto(l, i + 1) == done);
                assert forall|k: int| 0 <= k < 30 implies (#[trigger] bit_set(
                    searched_map,
                    mark_bit(k),
                )) == (exists|m: int| 0 <= m < i + 1 && lever_of(l[m]) == k) by {
                    if exists|m: int| 0 <= m < i + 1 && lever_of(l[m]) == k {
                        let m = choose|m: int| 0 <= m < i + 1 && lever_of(l[m]) == k;
                        if m == i {
                            assert(lever_of(l[i - 1]) == k);
                        }
                    }
                }
            }
            i += 1;
            continue;
        }
        proof {
            lemma_pass_skip(st0, c0, done as nat, lev as nat);
            lemma_sweep_fits(st0, c0, lev);
            let q = pass_upto(st0, c0, lev as nat);
            lemma_drop_reads_own_slots(q.0, q.1, counts(*coins), c0, lev);
        }
        handle_lever_drop(state, position.0, position.1, coins, &mut next_coins);
        let ghost prev = searched_map;
        searched_map |= pos;
        proof {
            lemma_marks_after(prev, l, i as int, lev);
            assert(handled_upto(l, i + 1) == lev + 1);
        }
        i += 1;
    }
    proof {
        lemma_list_end(l, c0);
        lemma_pass_skip(st0, c0, handled_upto(l, n as int) as nat, 30);
    }
    next_coins
}


proof fn lemma_points_term(x: int, y: int, w: int)
    requires
        0 <= x,
        0 <= y,
        0 <= w <= 64,
    ensures
        0 <= (x + y) * w <= 64 * (x + y),
{
    assert(0 <= (x + y) * w <= 64 * (x + y)) by (nonlinear_arith)
        requires
            0 <= x,
            0 <= y,
            0 <= w <= 64,
    ;
}

/// Unit-weighted sums gain the slots of each further lever.
proof fn lemma_lsum_unit_step(c: Seq<nat>, n: int)
    requires
        0 < n,
    ensures
        lsum(c, unit_weight(), n) == lsum(c, unit_weight(), n - 1) + c[2 * n - 2] + c[2 * n - 1],
{
    assert(unit_weight()(n - 1) == 1);
    assert(pair(c, n - 1) * unit_weight()(n - 1) == pair(c, n - 1));
}

/// The coins at slots `lo .. hi`.
pub open spec fn slot_sum(c: Seq<nat>, lo: int, hi: int) -> int
    decreases hi - lo,
{
    if hi <= lo {
        0
    } else {
        slot_sum(c, lo, hi - 1) + c[hi - 1]
    }
}

proof fn lemma_exits_sum(c: Seq<nat>, n: int)
    requires
        30 <= n <= 39,
    ensures
        lsum(c, unit_weight(), n) - lsum(c, unit_weight(), 30) == slot_sum(c, 60, 2 * n),
    decreases n,
{
    if n > 30 {
        lemma_exits_sum(c, n - 1);
        lemma_lsum_unit_step(c, n);
        assert(slot_sum(c, 60, 2 * n) == slot_sum(c, 60, 2 * n - 1) + c[2 * n - 1]);
        assert(slot_sum(c, 60, 2 * n - 1) == slot_sum(c, 60, 2 * n - 2) + c[2 * n - 2]);
    }
}

/// The points of a sweep are at most 64 for each coin that reached an exit.
pub proof fn lemma_exit_points_bound(nx: Seq<nat>, round: int)
    requires
        nx.len() == 78,
        0 <= round < 4,
    ensures
        0 <= exit_points(nx, round, 8) <= 64 * (lsum(nx, unit_weight(), 39) - lsum(
            nx,
            unit_weight(),
            30,
        )),
{
    lemma_exits_sum(nx, 39);
    reveal_with_fuel(exit_points, 9);
    reveal_with_fuel(slot_sum, 19);
    assert forall|k: int| 0 <= k < 8 implies 0 <= #[trigger] round_weight_spec(round, k) <= 64 by {}
    lemma_points_term(nx[76] as int, nx[61] as int, round_weight_spec(round, 0));
    lemma_points_term(nx[75] as int, nx[62] as int, round_weight_spec(round, 1));
    lemma_points_term(nx[74] as int, nx[63] as int, round_weight_spec(round, 2));
    lemma_points_term(nx[73] as int, nx[64] as int, round_weight_spec(round, 3));
    lemma_points_term(nx[72] as int, nx[65] as int, round_weight_spec(round, 4));
    lemma_points_term(nx[71] as int, nx[66] as int, round_weight_spec(round, 5));
    lemma_points_term(nx[70] as int, nx[67] as int, round_weight_spec(round, 6));
    lemma_points_term(nx[69] as int, nx[68] as int, round_weight_spec(round, 7));
}

proof fn lemma_low_bits(x: u64, y: u64)
    by (bit_vector)
    requires
        x & 15 == y & 15,
    ensures
        x & 3 == y & 3,
{
}

/// A board whose list names no lever has no coin left on it.
proof fn lemma_list_live(l: Seq<(u8, u8)>, c: Seq<nat>)
    requires
        good_list(l, c),
        c.len() == 78,
    ensures
        has_live(c) <==> l.len() > 0,
{
    if l.len() > 0 {
        let k = lever_of(l[0]);
        assert(pair(c, k) > 0);
        if c[2 * k] > 0 {
            assert(0 <= 2 * k < 60 && c[2 * k] > 0);
        } else {
            assert(0 <= 2 * k + 1 < 60 && c[2 * k + 1] > 0);
        }
    }
    if has_live(c) {
        let p = choose|p: int| 0 <= p < 60 && c[p] > 0;
        assert(pair(c, p / 2) > 0);
    }
}

/// The coins in play when a single coin is dropped onto the board.
proof fn lemma_start(state: u64, location: int)
    requires
        0 <= location < 60,
    ensures
        drop_start(location).len() == 78,
        coins_in_play(state, drop_start(location)) <= 31,
        coins_in_play(state, drop_start(location)) >= 1,
        coins_in_play(state, drop_start(location)) == 1 + stsum(state, unit_weight(), 30),
{
    lemma_lsum_empty(unit_weight(), 30);
    assert(empty_slots().update(location, empty_slots()[location] + 1) =~= drop_start(location));
    lemma_lsum_add(empty_slots(), unit_weight(), 30, location, 1);
    lemma_stsum_unit_bound(state, 30);
    lemma_stsum_nonneg(state, unit_weight(), 30);
}

/// Drops a coin into slot `location` and lets it, and every coin it sets
/// free, run through the board until none is left on it.  Returns the state
/// word afterwards and the points scored.
pub fn drop_coin(state: u64, location: u8) -> (out: (u64, u32))
    requires
        location < 60,
    ensures
        out.0 == drop_result(state, location as int).0,
        out.1 == drop_result(state, location as int).1,
        out.1 <= 64 * coins_in_play(state, drop_start(location as int)),
        out.1 <= 1984,
        out.0 & 15 == state & 15,
{
    let ghost fin = drop_result(state, location as int);
    let ghost cip0 = coins_in_play(state, drop_start(location as int));
    let mut st: u64 = state;
    let mut coins: [u8; 78] = [0; 78];
    coins[location as usize] = 1;
    let round: u64 = state & CURR_ROUND;
    let mut list = coin_list_new();
    coin_list_push(&mut list, get_u8_pos(location as usize));
    let mut gain: u32 = 0;
    proof {
        assert(counts(coins) =~= drop_start(location as int));
        lemma_start(state, location as int);
        let l = coin_list_items(list);
        let c = counts(coins);
        assert(lever_of(l[0]) == location / 2);
        assert forall|k: int| 0 <= k < 30 && #[trigger] pair(c, k) > 0 implies exists|m: int|
            0 <= m < l.len() && lever_of(l[m]) == k by {
            assert(lever_of(l[0]) == k);
        }
        assert(round < 4) by (bit_vector)
            requires
                round == state & 3,
        ;
    }
    while !coin_list_is_empty(&list)
        invariant
            good_list(coin_list_items(list), counts(coins)),
            coins_in_play(st, counts(coins)) <= 31,
            gain + 64 * coins_in_play(st, counts(coins)) <= 64 * cip0,
            cip0 <= 31,
            st & 15 == state & 15,
            round == state & 3,
            round < 4,
            cascade(st, counts(coins), round as int) == (fin.0, fin.1 - gain),
            fin == drop_result(state, location as int),
        decreases potential(st, counts(coins)),
    {
        let ghost c = counts(coins);
        let ghost st_before = st;
        proof {
            lemma_list_live(coin_list_items(list), c);
            lemma_pass_decreases(st, c);
            lemma_pass_accounting(st, c, 30);
            lemma_low_bits(st, state);
        }
        let next_coins = sweep(&mut st, &mut coins, &list);
        let ghost nx = counts(next_coins);
        proof {
            lemma_exit_points_bound(nx, round as int);
            lemma_lsum_unit_mono(nx, 30, 39);
            lemma_stsum_nonneg(st, unit_weight(), 30);
            lemma_lsum_nonneg(nx, unit_weight(), 30);
            assert forall|s: int| 0 <= s < 78 implies #[trigger] nx[s] <= 31 by {
                lemma_slot_le_lsum(nx, 39, s);
            }
        }
        let mut pass_gain: u32 = 0;
        let mut k: usize = 0;
        while k < 8
            invariant
                0 <= k <= 8,
                round < 4,
                nx == counts(next_coins),
                forall|s: int| 0 <= s < 78 ==> #[trigger] nx[s] <= 31,
                pass_gain == exit_points(nx, round as int, k as int),
                pass_gain <= 3968 * k,
            decreases 8 - k,
        {
            let weight: u16 = round_weight(round, k);
            proof {
                assert(0 <= weight <= 64);
                let x = next_coins@[76 - k] as int;
                let y = next_coins@[61 + k] as int;
                assert(nx[76 - k] == x && nx[61 + k] == y);
                assert(x <= 31 && y <= 31);
                assert(x * weight <= 1984 && y * weight <= 1984) by (nonlinear_arith)
                    requires
                        0 <= x <= 31,
                        0 <= y <= 31,
                        0 <= weight <= 64,
                ;
                assert((x + y) * weight == x * weight + y * weight) by (nonlinear_arith);
            }
            let scored_2: u16 = next_coins[76 - k] as u16 * weight;
            let scored: u16 = next_coins[61 + k] as u16 * weight;
            let total = scored + scored_2;
            pass_gain += total as u32;
            k += 1;
        }
        gain += pass_gain;
        coins = next_coins;
        list = live_lever_list(&coins);
    }
    proof {
        lemma_low_bits(st, state);
        lemma_list_live(coin_list_items(list), counts(coins));
        lemma_lsum_nonneg(counts(coins), unit_weight(), 30);
        lemma_stsum_nonneg(st, unit_weight(), 30);
    }
    (st, gain)
}

/// A sweep keeps every coin in play (waiting at a lever or resting on one)
/// except those that reach the exits.
pub proof fn lemma_sweep_conserves_coins(state: u64, coins: Seq<nat>)
    requires
        coins.len() == 78,
    ensures
        coins_in_play(pass(state, coins).0, pass(state, coins).1) + slot_sum(
            pass(state, coins).1,
            60,
            78,
        ) == coins_in_play(state, coins),
{
    lemma_pass_accounting(state, coins, 30);
    lemma_exits_sum(pass(state, coins).1, 39);
}

/// Dropping a coin never changes the round, the game-over bit or the
/// player to move, and scores at most 64 points for each coin in play.
pub proof fn lemma_cascade(state: u64, coins: Seq<nat>, round: int)
    requires
        coins.len() == 78,
        0 <= round < 4,
    ensures
        cascade(state, coins, round).0 & 15 == state & 15,
        0 <= cascade(state, coins, round).1 <= 64 * coins_in_play(state, coins),
    decreases potential(state, coins),
{
    lemma_lsum_nonneg(coins, unit_weight(), 30);
    lemma_stsum_nonneg(state, unit_weight(), 30);
    if has_live(coins) {
        lemma_pass_decreases(state, coins);
        lemma_pass_accounting(state, coins, 30);
        let p = pass(state, coins);
        lemma_cascade(p.0, p.1, round);
        lemma_exit_points_bound(p.1, round);
    }
}

/// The points of a drop, and what it leaves of the state word's low bits.
pub proof fn lemma_drop_result(state: u64, location: int)
    requires
        0 <= location < 60,
    ensures
        drop_result(state, location).0 & 15 == state & 15,
        0 <= drop_result(state, location).1 <= 1984,
{
    lemma_start(state, location);
    assert((state & 3) < 4) by (bit_vector);
    lemma_cascade(state, drop_start(location), (state & 3) as int);
}

/// The coins that reach the exits over all the sweeps of a cascade.
pub open spec fn cascade_exits(state: u64, coins: Seq<nat>) -> int
    decreases potential(state, coins),
{
    if coins.len() != 78 || !has_live(coins) {
        0
    } else {
        proof {
            lemma_pass_decreases(state, coins);
        }
        let p = pass(state, coins);
        slot_sum(p.1, 60, 78) + cascade_exits(p.0, p.1)
    }
}

/// The coins resting on levers.
pub open spec fn held_coins(state: u64) -> int {
    stsum(state, unit_weight(), 30)
}

proof fn lemma_lsum_idle(c: Seq<nat>, n: int)
    requires
        c.len() == 78,
        0 <= n <= 30,
        !has_live(c),
    ensures
        lsum(c, unit_weight(), n) == 0,
    decreases n,
{
    if n > 0 {
        lemma_lsum_idle(c, n - 1);
        assert(c[2 * (n - 1)] == 0 && c[2 * (n - 1) + 1] == 0);
        assert(pair(c, n - 1) == 0);
    }
}

/// No lever sends coins to the two outermost exits.
proof fn lemma_pass_edges(state: u64, coins: Seq<nat>, n: nat)
    requires
        coins.len() == 78,
        n <= 30,
    ensures
        pass_upto(state, coins, n).1[60] == 0,
        pass_upto(state, coins, n).1[77] == 0,
        pass_upto(state, coins, n).1.len() == 78,
    decreases n,
{
    if n > 0 {
        lemma_pass_edges(state, coins, (n - 1) as nat);
        let p = pass_upto(state, coins, (n - 1) as nat);
        lemma_target(p.0, n - 1);
        let t = target_slot(p.0, n - 1);
        assert(t != 60 && t != 77);
    }
}

/// The points of a sweep: at least one for each coin reaching a scoring
/// exit, and two for each in the first round.
proof fn lemma_exit_points_exact(nx: Seq<nat>, round: int)
    requires
        nx.len() == 78,
        nx[60] == 0,
        nx[77] == 0,
        0 <= round < 4,
    ensures
        slot_sum(nx, 60, 78) <= exit_points(nx, round, 8),
        round == 0 ==> exit_points(nx, round, 8) == 2 * slot_sum(nx, 60, 78),
{
    reveal_with_fuel(exit_points, 9);
    reveal_with_fuel(slot_sum, 19);
    assert forall|k: int| 0 <= k < 8 implies 1 <= #[trigger] round_weight_spec(round, k) <= 64 by {}
    lemma_points_term_low(nx[76] as int, nx[61] as int, round_weight_spec(round, 0));
    lemma_points_term_low(nx[75] as int, nx[62] as int, round_weight_spec(round, 1));
    lemma_points_term_low(nx[74] as int, nx[63] as int, round_weight_spec(round, 2));
    lemma_points_term_low(nx[73] as int, nx[64] as int, round_weight_spec(round, 3));
    lemma_points_term_low(nx[72] as int, nx[65] as int, round_weight_spec(round, 4));
    lemma_points_term_low(nx[71] as int, nx[66] as int, round_weight_spec(round, 5));
    lemma_points_term_low(nx[70] as int, nx[67] as int, round_weight_spec(round, 6));
    lemma_points_term_low(nx[69] as int, nx[68] as int, round_weight_spec(round, 7));
}

proof fn lemma_points_term_low(x: int, y: int, w: int)
    requires
        0 <= x,
        0 <= y,
        1 <= w,
    ensures
        x + y <= (x + y) * w,
        w == 2 ==> (x + y) * w == 2 * (x + y),
{
    assert(x + y <= (x + y) * w) by (nonlinear_arith)
        requires
            0 <= x,
            0 <= y,
            1 <= w,
    ;
}

/// Over a whole cascade, the coins in play at the start are those resting on
/// levers at the end plus those that reached the exits; the points are at
/// least one and at most 64 for each exited coin, and exactly two in the
/// first round.
pub proof fn lemma_cascade_conserves_coins(state: u64, coins: Seq<nat>, round: int)
    requires
        coins.len() == 78,
        0 <= round < 4,
    ensures
        coins_in_play(state, coins) == held_coins(cascade(state, coins, round).0) + cascade_exits(
            state,
            coins,
        ),
        cascade_exits(state, coins) <= cascade(state, coins, round).1 <= 64 * cascade_exits(
            state,
            coins,
        ),
        round == 0 ==> cascade(state, coins, round).1 == 2 * cascade_exits(state, coins),
    decreases potential(state, coins),
{
    if !has_live(coins) {
        lemma_lsum_idle(coins, 30);
    } else {
        lemma_pass_decreases(state, coins);
        let p = pass(state, coins);
        lemma_sweep_conserves_coins(state, coins);
        lemma_pass_accounting(state, coins, 30);
        lemma_pass_edges(state, coins, 30);
        lemma_exit_points_bound(p.1, round);
        lemma_exits_sum(p.1, 39);
        lemma_exit_points_exact(p.1, round);
        lemma_cascade_conserves_coins(p.0, p.1, round);
    }
}

/// The coins that reach the exits when a coin is dropped into `location`.
pub open spec fn drop_exits(state: u64, location: int) -> int {
    cascade_exits(state, drop_start(location))
}

/// A drop keeps every coin: the coins resting on levers before, plus the
/// dropped one, are those resting on levers after plus those that left the
/// board.  The move scores nothing exactly when no coin leaves, and two
/// points for each coin that leaves in the first round.
pub proof fn lemma_drop_conserves_coins(state: u64, location: int)
    requires
        0 <= location < 60,
    ensures
        held_coins(drop_result(state, location).0) + drop_exits(state, location) == held_coins(
            state,
        ) + 1,
        drop_exits(state, location) <= drop_result(state, location).1 <= 64 * drop_exits(
            state,
            location,
        ),
        (drop_result(state, location).1 == 0) == (drop_exits(state, location) == 0),
        state & 3 == 0 ==> drop_result(state, location).1 == 2 * drop_exits(state, location),
{
    lemma_start(state, location);
    assert((state & 3) < 4) by (bit_vector);
    lemma_cascade_conserves_coins(state, drop_start(location), (state & 3) as int);
}

} // verus!
