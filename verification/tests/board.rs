use tdgame::board::TDGame;
use tdgame::evaluation::get_scoring;
use tdgame::helper::{board_from_seed, get_new_board};

fn game(state: u64) -> TDGame {
    TDGame {
        state,
        round_scores: [0, 0],
        player_1_score: 0,
        player_2_score: 0,
        next_round: false,
        turn: 0,
    }
}

fn fields(g: &TDGame) -> (u64, [u16; 2], u16, u16, bool, u8) {
    (g.state, g.round_scores, g.player_1_score, g.player_2_score, g.next_round, g.turn)
}

#[test]
fn first_move_on_empty_board() {
    let mut g = game(0);
    assert_eq!(g.step(0), 0);
    assert_eq!(fields(&g), (24, [0, 0], 0, 0, false, 1));
    assert!(!g.is_left_player());
}

#[test]
fn move_through_lever() {
    let mut g = game(0);
    assert_eq!(g.step(1), 0);
    assert_eq!(fields(&g), (16424, [0, 0], 0, 0, false, 1));
}

#[test]
fn points_go_to_the_mover() {
    let mut g = game(1u64 << 48);
    assert_eq!(g.step(44), 4);
    assert_eq!(fields(&g), (8, [4, 0], 4, 0, false, 1));
    // right player's move now
    let mut h = game((1u64 << 48) | 8);
    assert_eq!(h.step(44), 4);
    assert_eq!(fields(&h), (0, [0, 4], 0, 4, false, 1));
}

#[test]
fn reaching_the_target_closes_the_round() {
    let mut g = game((1u64 << 48) | 3);
    assert_eq!(g.step(44), 113);
    assert_eq!(fields(&g), (11, [113, 0], 113, 0, true, 1));
    let mut h = game(1u64 << 48);
    h.round_scores = [9, 0];
    assert_eq!(h.step(44), 4);
    assert!(h.next_round);
    assert_eq!(h.round_scores, [13, 0]);
}

#[test]
fn closing_move_starts_next_round() {
    let mut g = game(1);
    g.next_round = true;
    g.round_scores = [30, 12];
    assert_eq!(g.step(0), 0);
    assert_eq!(fields(&g), ((1 | 16) + 1 ^ 8, [0, 0], 0, 0, false, 1));
    assert_eq!(g.state & 3, 2);
    assert!(!g.game_over());
}

#[test]
fn closing_the_last_round_ends_the_game() {
    let mut g = game(3);
    g.next_round = true;
    assert_eq!(g.step(0), 0);
    assert_eq!(g.state, 28);
    assert!(g.game_over());
    let before = fields(&g);
    assert_eq!(g.step(3), -1);
    assert_eq!(fields(&g), before);
    assert_eq!(g.step(200), -1);
    assert_eq!(fields(&g), before);
    assert_eq!(g.try_step(77), Some(-1));
    assert_eq!(fields(&g), before);
}

#[test]
fn try_step_refuses_overflowing_moves() {
    let mut g = game(1u64 << 48);
    g.round_scores = [65534, 0];
    let before = fields(&g);
    assert_eq!(g.try_step(44), None);
    assert_eq!(fields(&g), before);
    let mut h = game(0);
    h.turn = 255;
    assert_eq!(h.try_step(0), None);
    let mut k = game(1u64 << 48);
    k.player_1_score = 65532;
    assert_eq!(k.try_step(44), None);
    let mut ok = game(1u64 << 48);
    ok.round_scores = [65531, 0];
    ok.player_1_score = 65531;
    assert_eq!(ok.try_step(44), Some(4));
    assert_eq!(ok.round_scores, [65535, 0]);
    assert_eq!(game(0).try_step(60), None);
}

#[test]
fn parity_table() {
    let expected = [(0u64, true), (1, false), (2, false), (3, true), (4, false), (5, true), (0x10, false)];
    for (state, p) in expected {
        assert_eq!(game(state).has_parity(), p, "state {}", state);
    }
}

#[test]
fn scoring_is_the_lead_adjusted_by_parity() {
    let mut g = game(0);
    g.player_1_score = 10;
    g.player_2_score = 3;
    assert_eq!(get_scoring(&g, true), 5);
    assert_eq!(get_scoring(&g, false), -9);
    let mut h = game(1);
    h.player_1_score = 10;
    h.player_2_score = 3;
    assert_eq!(get_scoring(&h, true), 9);
    assert_eq!(get_scoring(&h, false), -5);
}

#[test]
fn board_bytes_are_big_endian() {
    let g = TDGame {
        state: 0x0102030405060708,
        round_scores: [0x0a0b, 0x0c0d],
        player_1_score: 0x0e0f,
        player_2_score: 0x1011,
        next_round: true,
        turn: 77,
    };
    assert_eq!(
        g.get_board_bytes(),
        [1, 2, 3, 4, 5, 6, 7, 8, 0x0a, 0x0b, 0x0c, 0x0d, 0x0e, 0x0f, 0x10, 0x11, 1, 0]
    );
}

#[test]
fn hash_is_seahash_of_the_bytes() {
    let g = TDGame {
        state: 0x0102030405060708,
        round_scores: [0x0a0b, 0x0c0d],
        player_1_score: 0x0e0f,
        player_2_score: 0x1011,
        next_round: false,
        turn: 3,
    };
    let bytes = g.get_board_bytes();
    assert_eq!(g.hash_me(), seahash::hash(&bytes));
    let mut h = g;
    h.turn = 200;
    assert_eq!(h.hash_me(), g.hash_me());
    h.player_2_score = 0;
    assert_ne!(h.hash_me(), g.hash_me());
}

#[test]
fn avified_boards() {
    assert_eq!(TDGame::make_avified_board(""), 0);
    assert_eq!(TDGame::make_avified_board("a\\b"), 544);
    assert_eq!(TDGame::make_avified_board("\\\\\\"), 0);
    let full: String = std::iter::repeat('x').take(31).collect();
    assert_eq!(TDGame::make_avified_board(&full), 0xaaaaaaaaaaaaaaa0);
    let long: String = std::iter::repeat('\\').take(100).collect();
    assert_eq!(TDGame::make_avified_board(&long), 0);
}

#[test]
fn game_over_bit() {
    assert!(game(4).game_over());
    assert!(game(0xffff_ffff_ffff_ffff).game_over());
    assert!(!game(3).game_over());
}

#[test]
fn render_rows() {
    let rows = game(0).render();
    assert_eq!(rows.len(), 5);
    assert_eq!(rows[0], "        (_ )(_ )(_ )(_ )");
    assert_eq!(rows[1], "      (_ )(_ )(_ )(_ )(_ )");
    assert_eq!(rows[4], "(_ )(_ )(_ )(_ )(_ )(_ )(_ )(_ )");
    let rows = game(0b0111_0010_0000 | (3u64 << 62)).render();
    assert_eq!(rows[0], "        ( _)(_ )( 0)(0 )");
    assert_eq!(rows[4], "(_ )(_ )(_ )(_ )(_ )(_ )(_ )( 0)");
}

#[test]
fn boards_from_seeds() {
    let g = board_from_seed(u64::MAX);
    assert_eq!(fields(&g), (0xaaaaaaaaaaaaaaa0, [0, 0], 0, 0, false, 0));
    let h = board_from_seed(0x5555555555555555);
    assert_eq!(h.state, 0);
}

#[test]
fn new_boards_hold_no_coins() {
    for _ in 0..20 {
        let g = get_new_board(true);
        assert_eq!(g.state & 0x555555555555555f, 0);
        assert_eq!((g.round_scores, g.player_1_score, g.player_2_score, g.next_round, g.turn), ([0, 0], 0, 0, false, 0));
        let h = TDGame::new(false);
        assert_eq!(h.state & 0x555555555555555f, 0);
    }
}

#[test]
fn moves_alternate_players_and_count_turns() {
    let mut g = game(0x54d751b97b951ff0);
    for i in 0..20u8 {
        let left = g.is_left_player();
        let turn = g.turn;
        let r = g.try_step(i % 8);
        if g.game_over() {
            break;
        }
        assert!(r.is_some());
        assert_ne!(g.is_left_player(), left);
        assert_eq!(g.turn, turn + 1);
    }
}

#[test]
fn status_line_text() {
    let g = TDGame {
        state: 2,
        round_scores: [12, 0],
        player_1_score: 65535,
        player_2_score: 407,
        next_round: false,
        turn: 9,
    };
    assert_eq!(
        g.status_line(),
        "Scores: 12,0 Player 1 total: 65535 Player 2 total 407, Round 3, Turn 9"
    );
}
