//! The search for the best move: negamax with alpha-beta cut-offs and a
//! table of searched positions.
use vstd::prelude::*;
use atomic_counter::{AtomicCounter, RelaxedCounter};
use crate::board::{board_key, left_to_move, step_allowed, step_spec, TDGame};
use crate::evaluation::{get_scoring, scoring};
use crate::hash_table::{
    new_table, table_entries, table_get, table_insert, HashTable, TBEntry, EXACT_FLAG, LOWER_FLAG,
    UPPER_FLAG,
};

verus! {

#[verifier::external_type_specification]
#[verifier::external_body]
pub struct ExRelaxedCounter(RelaxedCounter);

/// The count a counter holds.
pub uninterp spec fn counter_value(c: RelaxedCounter) -> usize;

/// `n` events counted onto a count of `c`: the count wraps at `usize::MAX`,
/// as an atomic `fetch_add` does.
pub open spec fn bump(c: usize, n: nat) -> usize {
    ((c + n) % (usize::MAX as int + 1)) as usize
}

/// `RelaxedCounter::new(0)`: a counter at zero.
#[verifier::external_body]
pub(crate) fn new_counter() -> (c: RelaxedCounter)
    ensures
        counter_value(c) == 0,
{
    RelaxedCounter::new(0)
}

/// `AtomicCounter::inc` on a `RelaxedCounter`: one more event (a wrapping
/// `fetch_add` of one).  The counter is held by a unique reference, so no
/// other thread counts meanwhile.
#[verifier::external_body]
fn count_one(c: &mut RelaxedCounter)
    ensures
        counter_value(*final(c)) == bump(counter_value(*old(c)), 1),
{
    c.inc();
}

/// Counting `a` events and then `b` counts `a + b`.
pub proof fn lemma_bump(c: usize, a: nat, b: nat)
    ensures
        bump(bump(c, a), b) == bump(c, a + b),
        bump(c, 0) == c,
{
    let m = usize::MAX as int + 1;
    vstd::arithmetic::div_mod::lemma_add_mod_noop_right(b as int, c + a, m);
    vstd::arithmetic::div_mod::lemma_small_mod(c as nat, m as nat);
    assert(bump(c, a) as int == (c + a) % m);
    assert((bump(c, a) + b) % m == ((c + a) + b) % m);
}

/// The order in which the moves are tried: from the edges inwards.
pub open spec fn move_at(i: int) -> u8 {
    seq![0u8, 7, 1, 6, 2, 5, 3, 4][i]
}

fn possible_move(i: usize) -> (m: u8)
    requires
        i < 8,
    ensures
        m == move_at(i as int),
{
    let moves: [u8; 8] = [0, 7, 1, 6, 2, 5, 3, 4];
    moves[i]
}

/// The bound on every score the search stores or returns.
pub open spec fn score_bound() -> int {
    1_000_000
}

pub open spec fn table_ok(tab: Map<u64, TBEntry>) -> bool {
    forall|k: u64|
        #[trigger] tab.contains_key(k) ==> -score_bound() <= tab[k].score <= score_bound()
}

/// What the search stores for a position searched to `depth` with the
/// score `score`.
pub open spec fn stored_entry(depth: nat, score: int) -> TBEntry {
    TBEntry { flag: 0, depth: depth as u8, score: score as i32 }
}

/// The outcome of a search from the outcome `r` of its moves, where `leaves`
/// positions and `hits` table answers were counted before them: on success
/// the score is stored under `key`.
pub open spec fn settle(
    r: (int, Map<u64, TBEntry>, bool, nat, nat),
    key: u64,
    depth: nat,
    leaves: nat,
    hits: nat,
) -> (int, Map<u64, TBEntry>, bool, nat, nat) {
    if r.2 {
        (r.0, r.1.insert(key, stored_entry(depth, r.0)), true, r.3 + leaves, r.4 + hits)
    } else {
        (r.0, r.1, false, r.3 + leaves, r.4 + hits)
    }
}

/// The negamax value of `g` searched to `depth` within the window
/// (`alpha`, `beta`), the table afterwards, whether every move the search
/// made was allowed (see `step_allowed`), the number of positions evaluated
/// (at depth 0) and the number of table entries deep enough to be used.  A
/// stored entry at least as deep answers at once when it is exact or the
/// window is closed.  Otherwise the moves are tried in turn, each child
/// searched with the negated window, the window narrowing as better moves
/// are found and moves past a closed window skipped; the result is stored.
pub open spec fn search(g: TDGame, depth: nat, alpha: int, beta: int, tab: Map<u64, TBEntry>) -> (
    int,
    Map<u64, TBEntry>,
    bool,
    nat,
    nat,
)
    decreases depth, 9nat,
{
    if depth == 0 {
        (scoring(g, left_to_move(g.state)), tab, true, 1, 0)
    } else {
        let key = board_key(g);
        let hit = tab.contains_key(key) && tab[key].depth >= depth;
        if hit && (tab[key].flag == 0 || alpha >= beta) {
            (tab[key].score as int, tab, true, 0, 1)
        } else {
            settle(
                search_moves(g, depth, 0, alpha, beta, -9999, tab),
                key,
                depth,
                0,
                if hit {
                    1
                } else {
                    0
                },
            )
        }
    }
}

/// Moves `i ..` of the search of `g`, with the window's lower end `alpha`
/// and the best score `best` so far.
pub open spec fn search_moves(
    g: TDGame,
    depth: nat,
    i: nat,
    alpha: int,
    beta: int,
    best: int,
    tab: Map<u64, TBEntry>,
) -> (int, Map<u64, TBEntry>, bool, nat, nat)
    decreases depth, (8 - i) as nat,
{
    if i >= 8 || depth == 0 {
        (best, tab, true, 0, 0)
    } else if beta < alpha {
        search_moves(g, depth, i + 1, alpha, beta, best, tab)
    } else {
        let m = move_at(i as int);
        if !step_allowed(g, m as int) {
            (best, tab, false, 0, 0)
        } else {
            let child = step_spec(g, m as int).0;
            let r = search(child, (depth - 1) as nat, -beta, -alpha, tab);
            if !r.2 {
                (best, r.1, false, r.3, r.4)
            } else {
                let score = -r.0;
                let rest = search_moves(
                    g,
                    depth,
                    i + 1,
                    if score > alpha {
                        score
                    } else {
                        alpha
                    },
                    beta,
                    if score > best {
                        score
                    } else {
                        best
                    },
                    r.1,
                );
                (rest.0, rest.1, rest.2, r.3 + rest.3, r.4 + rest.4)
            }
        }
    }
}

/// Moves `i ..` of the search at the root: each move's child is searched
/// with the window (-999999, -alpha); a strictly better score becomes the
/// best move and raises `alpha`.  Returns the best move, its score, the
/// table, whether every move made was allowed, and the positions evaluated
/// and table answers counted.
pub open spec fn root_search(
    g: TDGame,
    depth: nat,
    i: nat,
    alpha: int,
    best_move: u8,
    best_score: int,
    tab: Map<u64, TBEntry>,
) -> (u8, int, Map<u64, TBEntry>, bool, nat, nat)
    decreases (8 - i) as nat,
{
    if i >= 8 {
        (best_move, best_score, tab, true, 0, 0)
    } else {
        let m = move_at(i as int);
        if !step_allowed(g, m as int) {
            (best_move, best_score, tab, false, 0, 0)
        } else {
            let child = step_spec(g, m as int).0;
            let r = search(child, (depth - 1) as nat, -999999, -alpha, tab);
            if !r.2 {
                (best_move, best_score, r.1, false, r.3, r.4)
            } else {
                let rest = if -r.0 > best_score {
                    root_search(g, depth, i + 1, -r.0, m, -r.0, r.1)
                } else {
                    root_search(g, depth, i + 1, alpha, best_move, best_score, r.1)
                };
                (rest.0, rest.1, rest.2, rest.3, r.3 + rest.4, r.4 + rest.5)
            }
        }
    }
}

/// The negamax search of `board` to `depth` within (`alpha`, `beta`).
/// Returns `None` where a move of the search would overflow a counter.
/// `cntr` counts the positions evaluated, `hash_hits` the table entries
/// deep enough to be used.
fn nega_max(
    board: &TDGame,
    depth: u8,
    alpha: i32,
    beta: i32,
    cntr: &mut RelaxedCounter,
    hash_hits: &mut RelaxedCounter,
    hash_table: &mut HashTable,
) -> (r: Option<i32>)
    requires
        alpha > i32::MIN,
        beta > i32::MIN,
        table_ok(table_entries(*old(hash_table))),
    ensures
        ({
            let s = search(
                *board,
                depth as nat,
                alpha as int,
                beta as int,
                table_entries(*old(hash_table)),
            );
            &&& table_entries(*final(hash_table)) == s.1
            &&& s.2 ==> (r matches Some(v) && v == s.0)
            &&& !s.2 ==> r is None
            &&& table_ok(s.1)
            &&& -score_bound() <= s.0 <= score_bound()
            &&& counter_value(*final(cntr)) == bump(counter_value(*old(cntr)), s.3)
            &&& counter_value(*final(hash_hits)) == bump(counter_value(*old(hash_hits)), s.4)
        }),
    decreases depth,
{
    let ghost tab0 = table_entries(*hash_table);
    let ghost c0 = counter_value(*cntr);
    let ghost h0 = counter_value(*hash_hits);
    if depth == 0 {
        count_one(cntr);
        let is_left = board.is_left_player();
        proof {
            lemma_bump(h0, 0, 0);
        }
        return Some(get_scoring(board, is_left));
    }
    let alpha_orig = alpha;
    let mut new_alpha = alpha;
    let mut window_top = beta;
    let hash = board.hash_me();
    let ghost mut hit_count: nat = 0;
    if let Some(found) = table_get(hash_table, hash) {
        if found.depth >= depth {
            count_one(hash_hits);
            proof {
                hit_count = 1;
                lemma_bump(c0, 0, 0);
            }
            if found.flag == EXACT_FLAG {
                return Some(found.score);
            } else if found.flag == LOWER_FLAG {
                if found.score > new_alpha {
                    new_alpha = found.score;
                }
            } else if found.flag == UPPER_FLAG {
                if found.score < window_top {
                    window_top = found.score;
                }
            }
            if new_alpha >= window_top {
                return Some(found.score);
            }
        }
    }
    proof {
        lemma_bump(c0, 0, 0);
        lemma_bump(h0, 0, 0);
    }
    let mut window_bottom: i32 = new_alpha;
    let mut best_move: i32 = -9999;
    let mut i: usize = 0;
    let ghost mut done_leaves: nat = 0;
    let ghost mut done_hits: nat = hit_count;
    while i < 8
        invariant
            0 <= i <= 8,
            depth > 0,
            alpha_orig > i32::MIN,
            window_bottom >= alpha_orig,
            alpha_orig == alpha,
            tab0 == table_entries(*old(hash_table)),
            c0 == counter_value(*old(cntr)),
            h0 == counter_value(*old(hash_hits)),
            window_top > i32::MIN,
            window_top == beta,
            hash == board_key(*board),
            -score_bound() <= best_move <= score_bound(),
            table_ok(table_entries(*hash_table)),
            counter_value(*cntr) == bump(c0, done_leaves),
            counter_value(*hash_hits) == bump(h0, done_hits),
            search(*board, depth as nat, alpha as int, beta as int, tab0) == settle(
                search_moves(
                    *board,
                    depth as nat,
                    i as nat,
                    window_bottom as int,
                    window_top as int,
                    best_move as int,
                    table_entries(*hash_table),
                ),
                hash,
                depth as nat,
                done_leaves,
                done_hits,
            ),
        decreases 8 - i,
    {
        let moving = possible_move(i);
        if window_top < window_bottom {
            i += 1;
            continue;
        }
        let mut new_board = *board;
        let stepped = new_board.try_step(moving);
        if stepped.is_none() {
            return None;
        }
        let ghost cl = counter_value(*cntr);
        let ghost ch = counter_value(*hash_hits);
        let ghost tab_i = table_entries(*hash_table);
        let child = nega_max(
            &new_board,
            depth - 1,
            -window_top,
            -window_bottom,
            cntr,
            hash_hits,
            hash_table,
        );
        let ghost cs = search(
            new_board,
            (depth - 1) as nat,
            -window_top as int,
            -window_bottom as int,
            tab_i,
        );
        proof {
            lemma_bump(c0, done_leaves, cs.3);
            lemma_bump(h0, done_hits, cs.4);
            done_leaves = done_leaves + cs.3;
            done_hits = done_hits + cs.4;
        }
        let score = match child {
            None => {
                return None;
            },
            Some(v) => -v,
        };
        if score > best_move {
            best_move = score;
        }
        if score > window_bottom {
            window_bottom = score;
        }
        i += 1;
    }
    let final_score = best_move;
    let entry = TBEntry {
        depth,
        score: final_score,
        flag: if final_score <= alpha_orig {
            UPPER_FLAG
        } else if final_score >= window_top {
            LOWER_FLAG
        } else {
            EXACT_FLAG
        },
    };
    table_insert(hash_table, hash, entry);
    Some(final_score)
}

/// The root of the search: each move is made on a copy of `board` and its
/// child searched to `depth - 1`; the best move and its score are returned,
/// or `None` where a move would overflow a counter.  `cntr` counts the
/// positions evaluated, `hash_hits` the table entries deep enough to be used.
pub fn search_root(
    board: &TDGame,
    depth: u8,
    cntr: &mut RelaxedCounter,
    hash_hits: &mut RelaxedCounter,
    hash_table: &mut HashTable,
) -> (r: Option<(u8, i32)>)
    requires
        depth >= 1,
        table_ok(table_entries(*old(hash_table))),
    ensures
        ({
            let s = root_search(
                *board,
                depth as nat,
                0,
                -999999,
                0,
                i32::MIN as int,
                table_entries(*old(hash_table)),
            );
            &&& table_entries(*final(hash_table)) == s.2
            &&& s.3 ==> (r matches Some(v) && v.0 == s.0 && v.1 == s.1)
            &&& !s.3 ==> r is None
            &&& counter_value(*final(cntr)) == bump(counter_value(*old(cntr)), s.4)
            &&& counter_value(*final(hash_hits)) == bump(counter_value(*old(hash_hits)), s.5)
        }),
{
    let ghost total = root_search(
        *board,
        depth as nat,
        0,
        -999999,
        0,
        i32::MIN as int,
        table_entries(*hash_table),
    );
    let ghost c0 = counter_value(*cntr);
    let ghost h0 = counter_value(*hash_hits);
    let mut best_score = i32::MIN;
    let mut best_move: u8 = 0;
    let mut alpha: i32 = -999999;
    let beta: i32 = 999999;
    let mut i: usize = 0;
    let ghost mut done_leaves: nat = 0;
    let ghost mut done_hits: nat = 0;
    proof {
        lemma_bump(c0, 0, 0);
        lemma_bump(h0, 0, 0);
    }
    while i < 8
        invariant
            0 <= i <= 8,
            depth >= 1,
            beta == 999999,
            -score_bound() <= alpha <= score_bound(),
            table_ok(table_entries(*hash_table)),
            c0 == counter_value(*old(cntr)),
            h0 == counter_value(*old(hash_hits)),
            counter_value(*cntr) == bump(c0, done_leaves),
            counter_value(*hash_hits) == bump(h0, done_hits),
            total == root_search(
                *board,
                depth as nat,
                0,
                -999999,
                0,
                i32::MIN as int,
                table_entries(*old(hash_table)),
            ),
            ({
                let rem = root_search(
                    *board,
                    depth as nat,
                    i as nat,
                    alpha as int,
                    best_move,
                    best_score as int,
                    table_entries(*hash_table),
                );
                &&& total.0 == rem.0
                &&& total.1 == rem.1
                &&& total.2 == rem.2
                &&& total.3 == rem.3
                &&& total.4 == done_leaves + rem.4
                &&& total.5 == done_hits + rem.5
            }),
        decreases 8 - i,
    {
        let moves = possible_move(i);
        let mut brd_copy = *board;
        let stepped = brd_copy.try_step(moves);
        if stepped.is_none() {
            return None;
        }
        let ghost tab_i = table_entries(*hash_table);
        let child = nega_max(
            &brd_copy,
            depth - 1,
            beta * -1,
            alpha * -1,
            cntr,
            hash_hits,
            hash_table,
        );
        let ghost cs = search(brd_copy, (depth - 1) as nat, -999999, -alpha as int, tab_i);
        proof {
            lemma_bump(c0, done_leaves, cs.3);
            lemma_bump(h0, done_hits, cs.4);
            done_leaves = done_leaves + cs.3;
            done_hits = done_hits + cs.4;
        }
        let score = match child {
            None => {
                return None;
            },
            Some(v) => -v,
        };
        if score > best_score {
            best_score = score;
            best_move = moves;
            alpha = score;
        }
        i += 1;
    }
    Some((best_move, best_score))
}

/// The best move for the player to move on `board`, searched to `depth`,
/// and its score; the search uses a fresh table.
pub fn compute(board: &TDGame, depth: u8) -> (r: (u8, i32))
    requires
        depth >= 1,
        root_search(*board, depth as nat, 0, -999999, 0, i32::MIN as int, Map::empty()).3,
    ensures
        ({
            let s = root_search(
                *board,
                depth as nat,
                0,
                -999999,
                0,
                i32::MIN as int,
                Map::empty(),
            );
            r.0 == s.0 && r.1 == s.1
        }),
{
    match try_compute(board, depth) {
        Some(r) => r,
        None => (0, i32::MIN),
    }
}

/// `compute` where it is defined: `None` when `depth` is 0 or a move of the
/// search would overflow a counter.
pub fn try_compute(board: &TDGame, depth: u8) -> (r: Option<(u8, i32)>)
    ensures
        ({
            let s = root_search(
                *board,
                depth as nat,
                0,
                -999999,
                0,
                i32::MIN as int,
                Map::empty(),
            );
            &&& (depth >= 1 && s.3) ==> (r matches Some(v) && v.0 == s.0 && v.1 == s.1)
            &&& !(depth >= 1 && s.3) ==> r is None
        }),
{
    if depth == 0 {
        return None;
    }
    let mut hash_table = new_table(40_000_000);
    let mut cntr = new_counter();
    let mut hash_hits = new_counter();
    proof {
        assert(table_entries(hash_table) =~= Map::empty());
    }
    search_root(board, depth, &mut cntr, &mut hash_hits, &mut hash_table)
}

/// The search keeps every score within the bound: its answer, and the
/// entries of the table it leaves.
pub proof fn lemma_search_bounded(g: TDGame, depth: nat, alpha: int, beta: int, tab: Map<u64, TBEntry>)
    requires
        table_ok(tab),
    ensures
        -score_bound() <= search(g, depth, alpha, beta, tab).0 <= score_bound(),
        table_ok(search(g, depth, alpha, beta, tab).1),
    decreases depth, 9nat,
{
    if depth > 0 {
        let key = board_key(g);
        if !(tab.contains_key(key) && tab[key].depth >= depth && (tab[key].flag == 0 || alpha
            >= beta)) {
            lemma_moves_bounded(g, depth, 0, alpha, beta, -9999, tab);
            let r = search_moves(g, depth, 0, alpha, beta, -9999, tab);
            if r.2 {
                let t2 = r.1.insert(key, stored_entry(depth, r.0));
                assert forall|k: u64| #[trigger] t2.contains_key(k) implies -score_bound()
                    <= t2[k].score <= score_bound() by {
                    if k != key {
                        assert(r.1.contains_key(k));
                    }
                }
            }
        } else {
            assert(tab.contains_key(key));
        }
    }
}

/// The moves `i ..` of a search keep every score within the bound.
pub proof fn lemma_moves_bounded(
    g: TDGame,
    depth: nat,
    i: nat,
    alpha: int,
    beta: int,
    best: int,
    tab: Map<u64, TBEntry>,
)
    requires
        table_ok(tab),
        -score_bound() <= best <= score_bound(),
    ensures
        -score_bound() <= search_moves(g, depth, i, alpha, beta, best, tab).0 <= score_bound(),
        table_ok(search_moves(g, depth, i, alpha, beta, best, tab).1),
    decreases depth, (8 - i) as nat,
{
    if i < 8 && depth > 0 {
        if beta < alpha {
            lemma_moves_bounded(g, depth, i + 1, alpha, beta, best, tab);
        } else {
            let m = move_at(i as int);
            if step_allowed(g, m as int) {
                let child = step_spec(g, m as int).0;
                lemma_search_bounded(child, (depth - 1) as nat, -beta, -alpha, tab);
                let r = search(child, (depth - 1) as nat, -beta, -alpha, tab);
                if r.2 {
                    let score = -r.0;
                    lemma_moves_bounded(
                        g,
                        depth,
                        i + 1,
                        if score > alpha {
                            score
                        } else {
                            alpha
                        },
                        beta,
                        if score > best {
                            score
                        } else {
                            best
                        },
                        r.1,
                    );
                }
            }
        }
    }
}

/// A search that completes leaves under the position's key an entry at
/// least as deep as the search, holding exactly the score it returns: the
/// table never answers for a position with another value than its search
/// gave.
pub proof fn lemma_search_stores_its_answer(
    g: TDGame,
    depth: nat,
    alpha: int,
    beta: int,
    tab: Map<u64, TBEntry>,
)
    requires
        0 < depth <= 255,
        table_ok(tab),
        search(g, depth, alpha, beta, tab).2,
    ensures
        search(g, depth, alpha, beta, tab).1.contains_key(board_key(g)),
        search(g, depth, alpha, beta, tab).1[board_key(g)].score == search(
            g,
            depth,
            alpha,
            beta,
            tab,
        ).0,
        search(g, depth, alpha, beta, tab).1[board_key(g)].depth >= depth,
{
    let key = board_key(g);
    if !(tab.contains_key(key) && tab[key].depth >= depth && (tab[key].flag == 0 || alpha
        >= beta)) {
        lemma_moves_bounded(g, depth, 0, alpha, beta, -9999, tab);
    }
}

/// The best of the replies `i ..` at depth one: the highest of `best` and
/// minus the evaluation of each position a move leads to (for the player to
/// move there).
pub open spec fn best_reply(g: TDGame, i: nat, best: int) -> int
    decreases (8 - i) as nat,
{
    if i >= 8 {
        best
    } else {
        let child = step_spec(g, move_at(i as int) as int).0;
        let score = -scoring(child, left_to_move(child.state));
        best_reply(
            g,
            i + 1,
            if score > best {
                score
            } else {
                best
            },
        )
    }
}

proof fn lemma_moves_depth_one(
    g: TDGame,
    i: nat,
    alpha: int,
    beta: int,
    best: int,
    tab: Map<u64, TBEntry>,
)
    requires
        search_moves(g, 1, i, alpha, beta, best, tab).2,
        alpha <= beta,
        beta >= 65537,
    ensures
        search_moves(g, 1, i, alpha, beta, best, tab).0 == best_reply(g, i, best),
    decreases (8 - i) as nat,
{
    if i < 8 {
        let m = move_at(i as int);
        let child = step_spec(g, m as int).0;
        let r = search(child, 0, -beta, -alpha, tab);
        let score = -r.0;
        assert(-65537 <= scoring(child, left_to_move(child.state)) <= 65537);
        lemma_moves_depth_one(
            g,
            i + 1,
            if score > alpha {
                score
            } else {
                alpha
            },
            beta,
            if score > best {
                score
            } else {
                best
            },
            r.1,
        );
    }
}

/// A search one move deep of a position the table does not know, with a
/// window that stays open, returns the best of the moves: the highest of
/// minus the evaluation of each position a move leads to (or -9999).
pub proof fn lemma_depth_one_search(
    g: TDGame,
    alpha: int,
    beta: int,
    tab: Map<u64, TBEntry>,
)
    requires
        !tab.contains_key(board_key(g)),
        search(g, 1, alpha, beta, tab).2,
        alpha <= beta,
        beta >= 65537,
    ensures
        search(g, 1, alpha, beta, tab).0 == best_reply(g, 0, -9999),
{
    lemma_moves_depth_one(g, 0, alpha, beta, -9999, tab);
}

} // verus!
