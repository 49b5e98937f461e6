use king_tiles::constants::{GAME_DURATION_SECONDS, POWERUP_SCORE};
use king_tiles::error::KingTilesError;
use king_tiles::events::{
    BombDropEvent, GameEvent, GameStartedEvent, KingMoveEvent, PlayerRegisteredEvent,
    PowerupMoveEvent,
};
use king_tiles::session::{
    callback_bomb_drop, callback_king_move, callback_spawn_powerup, distribute_rewards, make_move,
    register_player, set_king_position, start_game_session, update_player_score, use_power,
};
use king_tiles::state::{Board, Direction, Identity, Mark};

fn name(n: u8) -> Identity {
    Identity { bytes: [n; 32] }
}

fn open(side: u8, max_players: u8) -> Board {
    let mut board = Board::default();
    start_game_session(&mut board, 42, side, max_players, 1_000_000, 29_000).unwrap();
    board
}

fn full(side: u8, max_players: u8) -> Board {
    let mut board = open(side, max_players);
    for id in 1..=max_players {
        register_player(&mut board, name(id), 500).unwrap();
    }
    assert!(board.is_well_formed());
    board
}

fn bytes_ending(tail: &[u8]) -> [u8; 32] {
    let mut bytes = [0u8; 32];
    let start = 32 - tail.len();
    bytes[start..].copy_from_slice(tail);
    bytes
}

#[test]
fn a_session_opens_empty_but_for_the_king() {
    for (side, max_players, king) in [(8u8, 2u8, 27usize), (10, 4, 44), (12, 6, 65)] {
        let board = open(side, max_players);
        let cells = side as usize * side as usize;
        assert_eq!(board.game_id, 42);
        assert_eq!(board.board_side_len, side);
        assert_eq!(board.max_players, max_players);
        assert_eq!(board.registration_fee_lamports, 1_000_000);
        assert_eq!(board.lamports_per_score, 29_000);
        assert_eq!(board.players.len(), 0);
        assert_eq!(board.players_count, 0);
        assert!(!board.is_active);
        assert_eq!(board.last_move_timestamp, 0);
        assert_eq!(board.game_end_timestamp, 0);
        assert_eq!(board.powerup_current_position, 0);
        assert_eq!(board.bomb_current_position, 0);
        assert_eq!(board.king_current_position as usize, king);
        assert_eq!(board.board.len(), cells);
        assert_eq!(board.active_board_cells(), cells);
        for c in 0..cells {
            assert_eq!(board.board[c], if c == king { Mark::King } else { Mark::Empty });
        }
        assert!(board.is_well_formed());
    }
}

#[test]
fn opening_wipes_what_the_board_held() {
    let mut board = full(8, 2);
    start_game_session(&mut board, 43, 10, 4, 5, 6).unwrap();
    assert_eq!(board, {
        let mut fresh = Board::default();
        start_game_session(&mut fresh, 43, 10, 4, 5, 6).unwrap();
        fresh
    });
    assert_eq!(board.players.len(), 0);
    assert_eq!(board.board.len(), 100);
}

#[test]
fn a_bad_configuration_is_rejected() {
    for (side, max_players, fee, rate) in [
        (8u8, 4u8, 1u64, 1u64),
        (10, 2, 1, 1),
        (12, 4, 1, 1),
        (7, 2, 1, 1),
        (0, 0, 1, 1),
        (8, 2, 0, 1),
        (8, 2, 1, 0),
        (12, 6, 0, 0),
    ] {
        let mut board = full(8, 2);
        let before = board.clone();
        assert_eq!(
            start_game_session(&mut board, 1, side, max_players, fee, rate),
            Err(KingTilesError::InvalidGameConfig)
        );
        assert_eq!(board, before);
    }
}

#[test]
fn players_take_ids_and_cells_in_order() {
    let mut board = open(10, 4);
    for id in 1..=3u8 {
        let events = register_player(&mut board, name(id), 500).unwrap();
        assert_eq!(
            events,
            vec![GameEvent::PlayerRegistered(
                PlayerRegisteredEvent { player: name(id), game_id: 42 }
            )]
        );
        let player = board.players[(id - 1) as usize];
        assert_eq!(player.id, id);
        assert_eq!(player.player, name(id));
        assert_eq!(player.current_position, (id - 1) as i16);
        assert_eq!(player.score, 0);
        assert_eq!(player.powerup_score, 0);
        assert_eq!(board.board[(id - 1) as usize], Mark::Player(id));
        assert_eq!(board.players_count, id);
        assert!(!board.is_active);
        assert_eq!(board.game_end_timestamp, 0);
        assert!(board.is_well_formed());
    }
}

#[test]
fn the_last_registration_starts_the_session() {
    let mut board = open(8, 2);
    register_player(&mut board, name(1), 400).unwrap();
    let events = register_player(&mut board, name(2), 500).unwrap();
    assert_eq!(
        events,
        vec![
            GameEvent::GameStarted(GameStartedEvent { game_id: 42 }),
            GameEvent::PlayerRegistered(PlayerRegisteredEvent { player: name(2), game_id: 42 }),
        ]
    );
    assert!(board.is_active);
    assert_eq!(board.game_end_timestamp, 500 + GAME_DURATION_SECONDS);
    assert_eq!(board.game_end_timestamp, 560);
    assert!(board.is_well_formed());
}

#[test]
fn a_third_registration_on_a_board_for_two_is_rejected() {
    let mut board = full(8, 2);
    let before = board.clone();
    assert_eq!(
        register_player(&mut board, name(3), 600),
        Err(KingTilesError::MaxPlayersReached)
    );
    assert_eq!(board, before);
    assert_eq!(board.players.len(), 2);
}

#[test]
fn registration_on_a_running_session_is_rejected() {
    let mut board = open(10, 4);
    register_player(&mut board, name(1), 500).unwrap();
    board.is_active = true;
    assert!(board.is_well_formed());
    let before = board.clone();
    assert_eq!(
        register_player(&mut board, name(2), 500),
        Err(KingTilesError::GameAlreadyStarted)
    );
    assert_eq!(board, before);
}

#[test]
fn a_tile_on_a_home_slot_gives_way_to_the_player() {
    let mut board = open(8, 2);
    board.board[1] = Mark::Bomb;
    board.bomb_current_position = 1;
    assert!(board.is_well_formed());
    register_player(&mut board, name(1), 500).unwrap();
    register_player(&mut board, name(2), 500).unwrap();
    assert_eq!(board.board[1], Mark::Player(2));
    assert_eq!(board.bomb_current_position, 1);
    assert!(board.is_well_formed());
}

#[test]
fn a_session_that_never_ran_has_not_ended() {
    let mut board = open(8, 2);
    register_player(&mut board, name(1), 500).unwrap();
    assert_eq!(board.game_end_timestamp, 0);
    assert_eq!(board.players[0].current_position, 0);
    let before = board.clone();
    assert_eq!(
        make_move(&mut board, 1000, 1, name(1), Direction::Right),
        Err(KingTilesError::GameNotStarted)
    );
    assert_eq!(
        make_move(&mut board, 0, 1, name(1), Direction::Up),
        Err(KingTilesError::GameNotStarted)
    );
    assert_eq!(board, before);
}

#[test]
fn moves_are_rejected_in_the_order_of_the_checks() {
    let mut board = open(8, 2);
    register_player(&mut board, name(1), 500).unwrap();
    board.is_active = true;
    let before = board.clone();
    assert_eq!(
        make_move(&mut board, 1000, 1, name(1), Direction::Up),
        Err(KingTilesError::GameNotFull)
    );
    assert_eq!(
        make_move(&mut board, 1000, 0, name(1), Direction::Up),
        Err(KingTilesError::GameNotFull)
    );
    assert_eq!(board, before);

    let mut board = full(8, 2);
    let before = board.clone();
    assert_eq!(
        make_move(&mut board, 560, 1, name(1), Direction::Up),
        Err(KingTilesError::GameEnded)
    );
    assert_eq!(
        make_move(&mut board, 561, 0, name(9), Direction::Up),
        Err(KingTilesError::GameEnded)
    );
    assert_eq!(
        make_move(&mut board, 559, 3, name(1), Direction::Up),
        Err(KingTilesError::NotPlayer)
    );
    assert_eq!(
        make_move(&mut board, 559, 1, name(2), Direction::Up),
        Err(KingTilesError::NotPlayer)
    );
    assert_eq!(
        make_move(&mut board, 559, 2, name(1), Direction::Up),
        Err(KingTilesError::NotPlayer)
    );
    assert_eq!(
        make_move(&mut board, 559, 255, name(1), Direction::Up),
        Err(KingTilesError::NotPlayer)
    );
    assert_eq!(board, before);
    assert!(make_move(&mut board, 559, 1, name(1), Direction::Up).is_ok());
    assert_eq!(board.players[0].current_position, 56);
}

#[test]
fn no_player_has_the_id_zero() {
    let mut board = full(8, 2);
    board.players[0].powerup_score = POWERUP_SCORE;
    let before = board.clone();
    assert_eq!(
        make_move(&mut board, 559, 0, name(1), Direction::Right),
        Err(KingTilesError::NotPlayer)
    );
    assert_eq!(use_power(&mut board, 0, Direction::Right), Err(KingTilesError::NotPlayer));
    assert_eq!(board, before);
}

#[test]
fn a_move_after_the_session_was_closed_is_rejected() {
    let mut board = full(8, 2);
    board.game_end_timestamp = 2000;
    board.is_active = false;
    assert_eq!(
        make_move(&mut board, 600, 1, name(1), Direction::Up),
        Err(KingTilesError::GameNotStarted)
    );
}

#[test]
fn a_power_push_needs_a_player_and_a_charge() {
    let mut board = full(8, 2);
    let before = board.clone();
    assert_eq!(use_power(&mut board, 3, Direction::Up), Err(KingTilesError::NotPlayer));
    assert_eq!(use_power(&mut board, 1, Direction::Up), Err(KingTilesError::NoPowerup));
    assert_eq!(use_power(&mut board, 2, Direction::Left), Err(KingTilesError::NoPowerup));
    assert_eq!(board, before);
    board.players[1].powerup_score = POWERUP_SCORE;
    assert!(use_power(&mut board, 2, Direction::Left).is_ok());
    assert_eq!(board.players[1].powerup_score, 0);
    assert_eq!(board.players[0].current_position, 60);
    assert_eq!(use_power(&mut board, 2, Direction::Left), Err(KingTilesError::NoPowerup));
}

#[test]
fn the_bomb_is_put_on_the_cell_drawn_from_the_last_byte() {
    let mut board = full(8, 2);
    let event = callback_bomb_drop(&mut board, bytes_ending(&[70]));
    assert_eq!(event, BombDropEvent { game_id: 42, bomb_drop: 6 });
    assert_eq!(board.bomb_current_position, 6);
    assert_eq!(board.board[6], Mark::Bomb);
    assert!(board.is_well_formed());
    let event = callback_bomb_drop(&mut board, bytes_ending(&[40]));
    assert_eq!(event, BombDropEvent { game_id: 42, bomb_drop: 40 });
    assert_eq!(board.board[6], Mark::Empty);
    assert_eq!(board.board[40], Mark::Bomb);
    assert!(board.is_well_formed());
}

#[test]
fn bytes_that_would_bias_the_draw_are_passed_over() {
    let mut board = full(10, 4);
    let event = callback_king_move(&mut board, bytes_ending(&[199, 250]));
    assert_eq!(event, KingMoveEvent { game_id: 42, king_move: 99 });
    assert_eq!(board.board[44], Mark::Empty);
    assert_eq!(board.board[99], Mark::King);
    assert_eq!(board.king_current_position, 99);
    assert!(board.is_well_formed());

    let mut board = full(12, 6);
    let event = callback_spawn_powerup(&mut board, bytes_ending(&[143, 144, 200]));
    assert_eq!(event, PowerupMoveEvent { game_id: 42, powerup_move: 143 });
    assert_eq!(board.board[143], Mark::Powerup);
    assert!(board.is_well_formed());

    let mut board = full(12, 6);
    let event = callback_bomb_drop(&mut board, [255u8; 32]);
    assert_eq!(event, BombDropEvent { game_id: 42, bomb_drop: 111 });
    assert_eq!(board.board[111], Mark::Bomb);
    assert!(board.is_well_formed());
}

#[test]
fn a_tile_drawn_onto_a_taken_cell_goes_to_the_next_empty_one() {
    let mut board = full(8, 2);
    let event = callback_spawn_powerup(&mut board, bytes_ending(&[0]));
    assert_eq!(event, PowerupMoveEvent { game_id: 42, powerup_move: 2 });
    assert_eq!(board.board[0], Mark::Player(1));
    assert_eq!(board.board[1], Mark::Player(2));
    assert_eq!(board.board[2], Mark::Powerup);
    let event = callback_king_move(&mut board, bytes_ending(&[1]));
    assert_eq!(event, KingMoveEvent { game_id: 42, king_move: 3 });
    assert_eq!(board.board[27], Mark::Empty);
    let event = callback_bomb_drop(&mut board, bytes_ending(&[64 + 63]));
    assert_eq!(event, BombDropEvent { game_id: 42, bomb_drop: 63 });
    let event = callback_king_move(&mut board, bytes_ending(&[63]));
    assert_eq!(event, KingMoveEvent { game_id: 42, king_move: 3 });
    assert_eq!(board.board[3], Mark::King);
    assert_eq!(board.board[63], Mark::Bomb);
    assert!(board.is_well_formed());
}

#[test]
fn a_king_that_was_landed_on_is_put_elsewhere_without_lifting_the_player() {
    let mut board = full(8, 2);
    board.players[0].current_position = 26;
    board.board[0] = Mark::Empty;
    board.board[26] = Mark::Player(1);
    make_move(&mut board, 501, 1, name(1), Direction::Right).unwrap();
    assert_eq!(board.board[27], Mark::Player(1));
    let event = callback_king_move(&mut board, bytes_ending(&[27]));
    assert_eq!(event, KingMoveEvent { game_id: 42, king_move: 28 });
    assert_eq!(board.board[27], Mark::Player(1));
    assert_eq!(board.board[28], Mark::King);
    assert!(board.is_well_formed());
}

#[test]
fn the_king_is_set_by_hand_only_on_an_empty_cell_of_a_running_session() {
    let mut board = open(8, 2);
    let before = board.clone();
    assert_eq!(set_king_position(&mut board, 5), Err(KingTilesError::GameNotStarted));
    assert_eq!(board, before);

    let mut board = full(8, 2);
    let before = board.clone();
    assert_eq!(set_king_position(&mut board, 64), Err(KingTilesError::InvalidMove));
    assert_eq!(set_king_position(&mut board, 255), Err(KingTilesError::InvalidMove));
    assert_eq!(set_king_position(&mut board, 0), Err(KingTilesError::InvalidMove));
    assert_eq!(set_king_position(&mut board, 27), Err(KingTilesError::InvalidMove));
    assert_eq!(board, before);
    assert_eq!(
        set_king_position(&mut board, 63),
        Ok(KingMoveEvent { game_id: 42, king_move: 63 })
    );
    assert_eq!(board.board[27], Mark::Empty);
    assert_eq!(board.board[63], Mark::King);
    assert_eq!(board.king_current_position, 63);
    assert!(board.is_well_formed());
}

#[test]
fn a_tick_scores_for_whoever_stands_where_the_king_was_put() {
    let mut board = full(8, 2);
    update_player_score(&mut board);
    assert_eq!(board.players[0].score, 0);
    assert_eq!(board.players[1].score, 0);
    board.players[1].current_position = 26;
    board.board[1] = Mark::Empty;
    board.board[26] = Mark::Player(2);
    make_move(&mut board, 501, 2, name(2), Direction::Right).unwrap();
    for ticks in 1..=3u64 {
        update_player_score(&mut board);
        assert_eq!(board.players[1].score, ticks);
        assert_eq!(board.players[0].score, 0);
    }
    callback_king_move(&mut board, bytes_ending(&[50]));
    update_player_score(&mut board);
    assert_eq!(board.players[1].score, 3);
    assert!(board.is_well_formed());
}

#[test]
fn rewards_wait_for_the_end_of_the_session() {
    let mut board = full(8, 2);
    board.players[0].score = 11;
    board.players[1].score = 0;
    let before = board.clone();
    assert_eq!(distribute_rewards(&mut board, 559), Err(KingTilesError::GameNotOver));
    assert_eq!(board, before);
    assert_eq!(distribute_rewards(&mut board, 560), Ok(vec![(name(1), 11), (name(2), 0)]));
    assert!(!board.is_active);
    assert_eq!(board.players, before.players);
    assert_eq!(board.board, before.board);
    assert_eq!(
        make_move(&mut board, 560, 1, name(1), Direction::Up),
        Err(KingTilesError::GameNotStarted)
    );
    assert_eq!(distribute_rewards(&mut board, 900), Ok(vec![(name(1), 11), (name(2), 0)]));
    assert!(board.is_well_formed());
}

#[test]
fn identities_are_compared_byte_for_byte() {
    let mut other = name(1);
    assert!(name(1).same_as(&other));
    other.bytes[31] = 2;
    assert!(!name(1).same_as(&other));
    other.bytes[31] = 1;
    other.bytes[0] = 0;
    assert!(!name(1).same_as(&other));
}

#[test]
fn a_board_with_two_players_on_one_cell_is_not_well_formed() {
    let mut board = full(8, 2);
    board.players[1].current_position = 0;
    assert!(!board.is_well_formed());
    let mut board = full(8, 2);
    board.board[1] = Mark::Empty;
    assert!(!board.is_well_formed());
    let mut board = full(8, 2);
    board.board[30] = Mark::King;
    assert!(!board.is_well_formed());
    let mut board = full(8, 2);
    board.board[30] = Mark::Player(3);
    assert!(!board.is_well_formed());
    let mut board = full(8, 2);
    board.max_players = 4;
    assert!(!board.is_well_formed());
    let mut board = full(8, 2);
    board.board.push(Mark::Empty);
    assert!(!board.is_well_formed());
    let mut board = open(10, 4);
    register_player(&mut board, name(1), 1).unwrap();
    board.players[0].powerup_score = POWERUP_SCORE;
    assert!(!board.is_well_formed());
    assert!(!Board::default().is_well_formed());
}

#[test]
fn play_keeps_one_occupant_to_a_cell() {
    for (side, max_players) in [(8u8, 2u8), (10, 4), (12, 6)] {
        let mut board = full(side, max_players);
        let mut seed: u64 = 0x2545_f491_4f6c_dd1d ^ side as u64;
        let mut bombed_back = 0;
        for _ in 0..4000 {
            seed = seed.wrapping_mul(6364136223846793005).wrapping_add(1442695040888963407);
            let draw = (seed >> 33) as u32;
            let id = (draw % max_players as u32) as u8 + 1;
            let direction = match (draw >> 8) % 4 {
                0 => Direction::Up,
                1 => Direction::Down,
                2 => Direction::Left,
                _ => Direction::Right,
            };
            let mut randomness = [0u8; 32];
            for (i, byte) in randomness.iter_mut().enumerate() {
                *byte = (seed >> (i % 8 * 8)) as u8 ^ i as u8;
            }
            let before = board.clone();
            match (draw >> 12) % 8 {
                0 => {
                    callback_bomb_drop(&mut board, randomness);
                }
                1 => {
                    callback_king_move(&mut board, randomness);
                }
                2 => {
                    callback_spawn_powerup(&mut board, randomness);
                }
                3 => {
                    let _ = use_power(&mut board, id, direction);
                }
                4 => {
                    update_player_score(&mut board);
                }
                _ => {
                    let events = make_move(&mut board, 501, id, name(id), direction).unwrap();
                    assert!(board.is_consistent());
                    if !board.is_well_formed() {
                        let someone_else_was_bombed = events.iter().any(|event| match event {
                            GameEvent::PlayerScoredBomb(bombed) => bombed.player != name(id),
                            _ => false,
                        });
                        assert!(someone_else_was_bombed);
                        bombed_back += 1;
                        board = before;
                    }
                }
            }
            assert!(board.is_well_formed());
            for a in 0..board.players.len() {
                for b in a + 1..board.players.len() {
                    assert_ne!(
                        board.players[a].current_position,
                        board.players[b].current_position
                    );
                }
            }
        }
        assert!(bombed_back < 4000);
    }
}

#[test]
fn the_only_empty_cell_takes_the_tile_at_every_callback() {
    for seed in [0u8, 17, 63, 200, 255] {
        let mut crowded = open(8, 2);
        for c in 0..64 {
            crowded.board[c] = Mark::Player(1);
        }
        crowded.board[17] = Mark::Empty;
        crowded.king_current_position = 0;
        crowded.bomb_current_position = 1;
        crowded.powerup_current_position = 2;

        let mut board = crowded.clone();
        let event = callback_king_move(&mut board, [seed; 32]);
        assert_eq!(event, KingMoveEvent { game_id: 42, king_move: 17 });
        assert_eq!(board.king_current_position, 17);
        for c in 0..64 {
            assert_eq!(board.board[c], if c == 17 { Mark::King } else { Mark::Player(1) });
        }
        assert_eq!(board.players, crowded.players);

        let mut board = crowded.clone();
        let event = callback_bomb_drop(&mut board, [seed; 32]);
        assert_eq!(event, BombDropEvent { game_id: 42, bomb_drop: 17 });
        assert_eq!(board.bomb_current_position, 17);
        assert_eq!(board.board[17], Mark::Bomb);
        assert_eq!(board.board[1], Mark::Player(1));

        let mut board = crowded.clone();
        let event = callback_spawn_powerup(&mut board, [seed; 32]);
        assert_eq!(event, PowerupMoveEvent { game_id: 42, powerup_move: 17 });
        assert_eq!(board.powerup_current_position, 17);
        assert_eq!(board.board[17], Mark::Powerup);
        assert_eq!(board.board[2], Mark::Player(1));
    }
}

#[test]
fn a_session_goes_on_after_a_player_was_bombed_back() {
    let mut board = full(8, 2);
    board.board[3] = Mark::Bomb;
    board.bomb_current_position = 3;
    make_move(&mut board, 501, 1, name(1), Direction::Right).unwrap();
    assert!(!board.is_well_formed());
    assert!(board.is_consistent());
    assert_eq!(board.players[0].current_position, 1);
    assert_eq!(board.players[1].current_position, 1);
    assert_eq!(board.players.len(), 2);
    assert_eq!(board.board.len(), 64);

    callback_bomb_drop(&mut board, bytes_ending(&[20]));
    assert_eq!(board.board[20], Mark::Bomb);
    update_player_score(&mut board);
    make_move(&mut board, 502, 1, name(1), Direction::Down).unwrap();
    assert_eq!(board.players[0].current_position, 9);
    assert_eq!(board.board[1], Mark::Empty);
    assert!(board.is_consistent());
    make_move(&mut board, 503, 2, name(2), Direction::Right).unwrap();
    assert_eq!(board.players[1].current_position, 2);
    assert_eq!(board.board[2], Mark::Player(2));
    assert!(board.is_consistent());
    assert!(board.is_well_formed());
    assert_eq!(distribute_rewards(&mut board, 559), Err(KingTilesError::GameNotOver));
    assert_eq!(distribute_rewards(&mut board, 560), Ok(vec![(name(1), 0), (name(2), 0)]));
    assert!(!board.is_active);
}

#[test]
fn a_consistent_board_need_not_be_well_formed() {
    let mut board = full(8, 2);
    assert!(board.is_consistent());
    board.board[1] = Mark::Empty;
    assert!(board.is_consistent());
    assert!(!board.is_well_formed());
    board.board[30] = Mark::Player(2);
    assert!(!board.is_consistent());
    let mut board = full(8, 2);
    board.players[1].id = 1;
    assert!(!board.is_consistent());
    let mut board = full(8, 2);
    board.players[1].current_position = 64;
    assert!(!board.is_consistent());
    let mut board = full(8, 2);
    board.bomb_current_position = 64;
    assert!(!board.is_consistent());
    let mut board = full(8, 2);
    board.board[40] = Mark::Bomb;
    assert!(!board.is_consistent());
    board.bomb_current_position = 40;
    assert!(board.is_consistent());
    assert!(!Board::default().is_consistent());
}
