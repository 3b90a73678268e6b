use atomic_counter::{AtomicCounter, RelaxedCounter};
use tdgame::board::TDGame;
use tdgame::hash_table::HashTable;
use tdgame::solver::{search_root, try_compute};

fn game(state: u64) -> TDGame {
    TDGame {
        state,
        round_scores: [0, 0],
        player_1_score: 0,
        player_2_score: 0,
        next_round: false,
        turn: 0,
    }
}

fn root(state: u64, depth: u8) -> (Option<(u8, i32)>, usize, usize, usize) {
    let table: HashTable = dashmap::DashMap::with_capacity(1000);
    let mut table = table;
    let mut cntr = RelaxedCounter::new(0);
    let mut hits = RelaxedCounter::new(0);
    let r = search_root(&game(state), depth, &mut cntr, &mut hits, &mut table);
    (r, table.len(), cntr.get(), hits.get())
}

#[test]
fn depth_one_search_on_empty_board() {
    let (r, len, leaves, hits) = root(0, 1);
    assert_eq!(r, Some((7, 2)));
    assert_eq!(len, 0);
    assert_eq!(leaves, 8);
    assert_eq!(hits, 0);
}

#[test]
fn deeper_searches() {
    assert_eq!(root(0, 2).0, Some((0, -2)));
    assert_eq!(root(0, 2).1, 8);
    assert_eq!(root(0, 3).0, Some((0, 2)));
    assert_eq!(root(0, 3).1, 40);
    assert_eq!(root(0xaaaaaaaaaaaaaaa0, 1).0, Some((0, 2)));
    assert_eq!(root(0xaaaaaaaaaaaaaaa0, 2).0, Some((0, -2)));
    assert_eq!(root(0xaaaaaaaaaaaaaaa0, 3).0, Some((0, 2)));
    assert_eq!(root(0x123456789abcdef0, 1).0, Some((0, 16)));
    assert_eq!(root(0x123456789abcdef0, 2).0, Some((0, 6)));
    assert_eq!(root(0x123456789abcdef0, 2).1, 5);
    assert_eq!(root(0x123456789abcdef0, 3).0, Some((0, 6)));
    assert_eq!(root(0x123456789abcdef0, 3).1, 15);
}

#[test]
fn search_refuses_overflowing_moves() {
    let mut g = game(0x5555555555555550 | 3);
    g.round_scores = [65500, 0];
    let table: HashTable = dashmap::DashMap::with_capacity(10);
    let mut table = table;
    let mut cntr = RelaxedCounter::new(0);
    let mut hits = RelaxedCounter::new(0);
    assert_eq!(search_root(&g, 1, &mut cntr, &mut hits, &mut table), None);
}

#[test]
fn no_search_without_depth() {
    assert_eq!(try_compute(&game(0), 0), None);
}

#[test]
fn search_counts_positions_and_table_answers() {
    assert_eq!(root(0, 2).2, 64);
    assert_eq!(root(0, 2).3, 0);
    assert_eq!(root(0, 3).2, 256);
    assert_eq!(root(0, 3).3, 32);
    assert_eq!(root(0x123456789abcdef0, 2).2, 12);
    assert_eq!(root(0x123456789abcdef0, 2).3, 3);
    assert_eq!(root(0x123456789abcdef0, 3).2, 52);
    assert_eq!(root(0x123456789abcdef0, 3).3, 5);
}

#[test]
fn counters_keep_counting() {
    let table: HashTable = dashmap::DashMap::with_capacity(1000);
    let mut table = table;
    let mut cntr = RelaxedCounter::new(100);
    let mut hits = RelaxedCounter::new(7);
    let mut g = game(0);
    g.round_scores = [6, 0];
    g.player_1_score = 6;
    assert_eq!(search_root(&g, 2, &mut cntr, &mut hits, &mut table), Some((0, 4)));
    assert_eq!(cntr.get(), 164);
    assert_eq!(hits.get(), 7);
    assert_eq!(table.len(), 8);
}
