use tdgame::coin_drop::drop_coin;

#[test]
fn coin_caught_by_empty_lever() {
    // The coin lands on the side lever 0 points to and stays on it.
    assert_eq!(drop_coin(0, 0), (0b1_0000, 0));
}

#[test]
fn coin_passes_lever_and_turns_it() {
    // Lever 0 turns over and the coin rests on lever 5 of the second row.
    assert_eq!(drop_coin(0, 1), (16416, 0));
}

#[test]
fn released_coin_leaves_through_two_exits() {
    // Lever 22 (bottom row) lets its coin go: two coins reach exits 62 and 61.
    assert_eq!(drop_coin(1u64 << 48, 44), (0, 4));
}

#[test]
fn exits_score_by_round() {
    assert_eq!(drop_coin((1u64 << 48) | 3, 44), (3, 113));
}

#[test]
fn random_boards_drop_like_the_game() {
    let cases: [(u64, u8, u64, u32); 12] = [
        (0xf2a74de452e6b438, 2, 0xf2a74de452e6b478, 0),
        (0xa6a3a4506513270a, 0, 0xa6a3a4506513271a, 0),
        (0xd23f0824128b2f33, 1, 0xd23f0824128b7f23, 0),
        (0x9531985d5d9dc9f8, 0, 0x9539990d5a9da9e8, 12),
        (0x81e74ef5e8e25d90, 3, 0x81e74ef5e8e25dd0, 0),
        (0x1600a35a099950d8, 6, 0x1600a35a099954d8, 0),
        (0x11e20b8f6b0d549b, 15, 0x11e21f8f3b09549b, 0),
        (0x8d116ece1738f7d9, 27, 0x89114ece9738f7d9, 8),
        (0xd3ac94af0f21ddb2, 36, 0xd3ac95af0f21ddb2, 0),
        (0xf28c105d1fb17c23, 14, 0xf28c105d1fb57c23, 0),
        (0xa09f76b5a170b338, 37, 0xa09f77b5a170b338, 0),
        (0x0fd630f1f29d0da9, 36, 0x0fd631f1f29d0da9, 0),
    ];
    for (state, location, after, points) in cases {
        assert_eq!(drop_coin(state, location), (after, points), "state {:#x} location {}", state, location);
    }
}

#[test]
fn long_cascades() {
    let cases: [(u64, u8, u64, u32); 5] = [
        (0x54d751b97b951ffb, 6, 0x089700b8ab811bfb, 302),
        (0xab5dc37476c4f3d3, 0, 0xaa88c2a07284a3c3, 281),
        (0x46c9d4f956965ed3, 6, 0x2ac982f886825ad3, 277),
        (0x01751567cfe0d613, 0, 0x00081403c8a08603, 277),
        (0xd6e6c379f131fedb, 6, 0x8ae6ab783129fadb, 276),
    ];
    for (state, location, after, points) in cases {
        assert_eq!(drop_coin(state, location), (after, points), "state {:#x} location {}", state, location);
    }
}

#[test]
fn full_board_drops() {
    let state: u64 = 0x5555555555555550 | 3;
    let expected: [(u64, u32); 8] = [
        (0x5400540150150543, 255),
        (0x5400540150150543, 255),
        (0x5001500540541513, 144),
        (0x5001500540541513, 144),
        (0x4005401501505453, 178),
        (0x4005401501505453, 178),
        (0x0015005405415153, 353),
        (0x0015005405415153, 353),
    ];
    for location in 0..8u8 {
        assert_eq!(drop_coin(state, location), expected[location as usize]);
    }
}

#[test]
fn drops_keep_the_low_bits_and_bound_the_points() {
    let mut state: u64 = 0x9e3779b97f4a7c15;
    for i in 0..200u64 {
        state = state.wrapping_mul(6364136223846793005).wrapping_add(1442695040888963407);
        let s = state & !4;
        let location = (i % 60) as u8;
        let (after, points) = drop_coin(s, location);
        assert_eq!(after & 15, s & 15);
        assert!(points <= 1984);
    }
}

#[test]
fn drops_keep_every_coin() {
    let coin_bits: u64 = 0x5555_5555_5555_5550;
    let mut state: u64 = 0x2545f4914f6cdd1d;
    for i in 0..300u64 {
        state = state.wrapping_mul(6364136223846793005).wrapping_add(1442695040888963407);
        let s = state & !7;
        let location = (i % 8) as u8;
        let (after, points) = drop_coin(s, location);
        let before_held = (s & coin_bits).count_ones();
        let after_held = (after & coin_bits).count_ones();
        // first round: two points for each coin that left the board
        assert_eq!(points % 2, 0);
        assert_eq!(after_held + points / 2, before_held + 1);
        assert_eq!(points == 0, after_held == before_held + 1);
    }
}
