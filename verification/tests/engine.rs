use king_tiles::constants::POWERUP_SCORE;
use king_tiles::events::{
    GameEvent, MoveMadeEvent, PlayerScoredBombEvent, PlayerScoredEvent, PlayerScoredPowerupEvent,
    PowerUsedEvent,
};
use king_tiles::movement::{
    check_board_for_new_position, check_if_player_exists, land, new_position_is_bomb,
    new_position_is_empty, new_position_is_king, new_position_is_occupied_by_player,
    new_position_is_powerup, player_id_to_index, use_power_with_direction,
};
use king_tiles::session::{make_move, register_player, start_game_session, use_power};
use king_tiles::state::{Board, Direction, Identity, Mark};

fn who(n: u8) -> Identity {
    Identity { bytes: [n; 32] }
}

/// A running session of the given mode, opened at time 1000, with player
/// `i` known as `who(i)` and standing on cell `i - 1`.
fn running(side: u8, max_players: u8) -> Board {
    let mut board = Board::default();
    start_game_session(&mut board, 7, side, max_players, 1_000_000, 29_000).unwrap();
    for id in 1..=max_players {
        register_player(&mut board, who(id), 1000).unwrap();
    }
    assert!(board.is_well_formed());
    board
}

/// Puts player `id` on `cell`, taking it off the cell it stood on.
fn stand(board: &mut Board, id: u8, cell: usize) {
    let index = (id - 1) as usize;
    let from = board.players[index].current_position as usize;
    board.board[from] = Mark::Empty;
    board.board[cell] = Mark::Player(id);
    board.players[index].current_position = cell as i16;
}

/// Puts the players on the given cells, player 1 on the first of them.
fn arrange(board: &mut Board, cells: &[usize]) {
    for player in board.players.iter() {
        board.board[player.current_position as usize] = Mark::Empty;
    }
    for (index, cell) in cells.iter().enumerate() {
        board.board[*cell] = Mark::Player(index as u8 + 1);
        board.players[index].current_position = *cell as i16;
    }
}

fn put_bomb(board: &mut Board, cell: usize) {
    board.board[cell] = Mark::Bomb;
    board.bomb_current_position = cell as u8;
}

fn put_powerup(board: &mut Board, cell: usize) {
    board.board[cell] = Mark::Powerup;
    board.powerup_current_position = cell as u8;
}

fn position(board: &Board, id: u8) -> i16 {
    board.players[(id - 1) as usize].current_position
}

fn move_made(id: u8) -> GameEvent {
    GameEvent::MoveMade(MoveMadeEvent { player: who(id), game_id: 7 })
}

#[test]
fn player_ids_count_from_one() {
    assert_eq!(player_id_to_index(1), 0);
    assert_eq!(player_id_to_index(6), 5);
    assert_eq!(player_id_to_index(255), 254);
}

#[test]
fn a_step_onto_an_empty_cell_moves_the_player() {
    let mut board = running(8, 2);
    let events = make_move(&mut board, 1001, 1, who(1), Direction::Down).unwrap();
    assert_eq!(events, vec![move_made(1)]);
    assert_eq!(position(&board, 1), 8);
    assert_eq!(board.board[0], Mark::Empty);
    assert_eq!(board.board[8], Mark::Player(1));
    assert_eq!(position(&board, 2), 1);
    assert!(board.is_well_formed());
}

#[test]
fn a_step_off_the_edge_wraps_round() {
    let mut board = running(8, 2);
    make_move(&mut board, 1001, 1, who(1), Direction::Left).unwrap();
    assert_eq!(position(&board, 1), 63);
    make_move(&mut board, 1001, 1, who(1), Direction::Down).unwrap();
    assert_eq!(position(&board, 1), 7);
    make_move(&mut board, 1001, 2, who(2), Direction::Up).unwrap();
    assert_eq!(position(&board, 2), 57);
    assert!(board.is_well_formed());
}

#[test]
fn a_basic_step_throws_the_neighbour_two_cells_on() {
    let mut board = running(8, 2);
    let events = make_move(&mut board, 1001, 1, who(1), Direction::Right).unwrap();
    assert_eq!(events, vec![move_made(1)]);
    assert_eq!(board.board[0], Mark::Empty);
    assert_eq!(board.board[1], Mark::Player(1));
    assert_eq!(board.board[3], Mark::Player(2));
    assert_eq!(position(&board, 1), 1);
    assert_eq!(position(&board, 2), 3);
    assert!(board.is_well_formed());
}

#[test]
fn a_basic_push_never_leaves_both_cells_as_they_were() {
    for side in [8u8, 10, 12] {
        let max_players = match side {
            8 => 2,
            10 => 4,
            _ => 6,
        };
        let cells = side as usize * side as usize;
        for origin in [0usize, 9, cells / 2, cells - 1] {
            for direction in [Direction::Up, Direction::Down, Direction::Left, Direction::Right] {
                let mut board = running(side, max_players);
                let offset = direction.offset(side) as i64;
                let dest = (origin as i64 + offset).rem_euclid(cells as i64) as usize;
                let thrown = (origin as i64 + 3 * offset).rem_euclid(cells as i64) as usize;
                let mut places = vec![origin, dest];
                let mut spare = 0;
                while places.len() < max_players as usize {
                    if spare != origin && spare != dest && spare != thrown {
                        places.push(spare);
                    }
                    spare += 1;
                }
                let king = board.king_current_position as usize;
                board.board[king] = Mark::Empty;
                arrange(&mut board, &places);
                assert!(board.is_well_formed());
                let before = board.clone();
                make_move(&mut board, 1001, 1, who(1), direction).unwrap();
                assert_eq!(position(&board, 1) as usize, dest);
                assert_eq!(board.board[dest], Mark::Player(1));
                assert_eq!(board.board[origin], Mark::Empty);
                assert_ne!(board.board[dest], before.board[dest]);
                assert_ne!(board.board[origin], before.board[origin]);
                assert!(board.is_well_formed());
            }
        }
    }
}

#[test]
fn a_row_of_players_is_thrown_on_one_after_the_other() {
    let mut board = running(10, 4);
    stand(&mut board, 1, 20);
    stand(&mut board, 2, 21);
    stand(&mut board, 3, 23);
    stand(&mut board, 4, 25);
    assert!(board.is_well_formed());
    let events = make_move(&mut board, 1001, 1, who(1), Direction::Right).unwrap();
    assert_eq!(events, vec![move_made(1)]);
    assert_eq!(position(&board, 1), 21);
    assert_eq!(position(&board, 2), 23);
    assert_eq!(position(&board, 3), 25);
    assert_eq!(position(&board, 4), 27);
    assert_eq!(board.board[20], Mark::Empty);
    assert_eq!(board.board[21], Mark::Player(1));
    assert_eq!(board.board[23], Mark::Player(2));
    assert_eq!(board.board[25], Mark::Player(3));
    assert_eq!(board.board[27], Mark::Player(4));
    assert!(board.is_well_formed());
}

#[test]
fn the_longest_row_on_the_largest_board_comes_to_an_end() {
    let mut board = running(12, 6);
    let king = board.king_current_position as usize;
    board.board[king] = Mark::Empty;
    arrange(&mut board, &[5 + 11 * 12, 5, 5 + 2 * 12, 5 + 4 * 12, 5 + 6 * 12, 5 + 8 * 12]);
    assert!(board.is_well_formed());
    make_move(&mut board, 1001, 1, who(1), Direction::Down).unwrap();
    assert_eq!(position(&board, 1), 5);
    assert_eq!(position(&board, 2), 5 + 2 * 12);
    assert_eq!(position(&board, 3), 5 + 4 * 12);
    assert_eq!(position(&board, 4), 5 + 6 * 12);
    assert_eq!(position(&board, 5), 5 + 8 * 12);
    assert_eq!(position(&board, 6), 5 + 10 * 12);
    assert!(board.is_well_formed());
}

#[test]
fn a_thrown_player_that_lands_on_the_king_scores() {
    let mut board = running(8, 2);
    stand(&mut board, 1, 24);
    stand(&mut board, 2, 25);
    assert_eq!(board.board[27], Mark::King);
    let events = make_move(&mut board, 1001, 1, who(1), Direction::Right).unwrap();
    assert_eq!(
        events,
        vec![
            GameEvent::PlayerScored(PlayerScoredEvent { player: who(2), game_id: 7 }),
            move_made(1),
        ]
    );
    assert_eq!(position(&board, 2), 27);
    assert_eq!(board.board[27], Mark::Player(2));
    assert_eq!(board.king_current_position, 27);
    assert_eq!(board.players[1].score, 0);
    assert!(board.is_well_formed());
}

#[test]
fn landing_on_the_king_is_reported_and_not_scored() {
    let mut board = running(8, 2);
    stand(&mut board, 1, 26);
    let events = make_move(&mut board, 1001, 1, who(1), Direction::Right).unwrap();
    assert_eq!(
        events,
        vec![
            GameEvent::PlayerScored(PlayerScoredEvent { player: who(1), game_id: 7 }),
            move_made(1),
        ]
    );
    assert_eq!(position(&board, 1), 27);
    assert_eq!(board.board[26], Mark::Empty);
    assert_eq!(board.board[27], Mark::Player(1));
    assert_eq!(board.players[0].score, 0);
    assert!(board.is_well_formed());
}

#[test]
fn landing_on_the_powerup_gives_a_charge() {
    let mut board = running(8, 2);
    put_powerup(&mut board, 8);
    let events = make_move(&mut board, 1001, 1, who(1), Direction::Down).unwrap();
    assert_eq!(
        events,
        vec![
            GameEvent::PlayerScoredPowerup(
                PlayerScoredPowerupEvent { player: who(1), game_id: 7 }
            ),
            move_made(1),
        ]
    );
    assert_eq!(position(&board, 1), 8);
    assert_eq!(board.board[8], Mark::Player(1));
    assert_eq!(board.players[0].powerup_score, POWERUP_SCORE);
    assert_eq!(board.players[1].powerup_score, 0);
    assert!(board.is_well_formed());
}

#[test]
fn a_bombed_player_goes_to_its_home_slot() {
    let mut board = running(8, 2);
    stand(&mut board, 2, 39);
    put_bomb(&mut board, 40);
    assert!(board.is_well_formed());
    let events = make_move(&mut board, 1001, 2, who(2), Direction::Right).unwrap();
    assert_eq!(
        events,
        vec![
            GameEvent::PlayerScoredBomb(PlayerScoredBombEvent { player: who(2), game_id: 7 }),
            move_made(2),
        ]
    );
    assert_eq!(board.board[40], Mark::Empty);
    assert_eq!(board.board[39], Mark::Empty);
    assert_eq!(position(&board, 2), 1);
    assert_eq!(board.board[1], Mark::Player(2));
    assert!(board.is_well_formed());
}

#[test]
fn a_bombed_player_whose_home_slot_is_taken_goes_to_the_next_empty_cell() {
    let mut board = running(8, 2);
    stand(&mut board, 2, 39);
    stand(&mut board, 1, 1);
    put_powerup(&mut board, 2);
    put_bomb(&mut board, 40);
    assert!(board.is_well_formed());
    make_move(&mut board, 1001, 2, who(2), Direction::Right).unwrap();
    assert_eq!(board.board[40], Mark::Empty);
    assert_eq!(position(&board, 2), 3);
    assert_eq!(board.board[3], Mark::Player(2));
    assert_eq!(board.board[1], Mark::Player(1));
    assert_eq!(board.board[2], Mark::Powerup);
    assert!(board.is_well_formed());
}

#[test]
fn a_bombed_player_can_come_down_where_the_bomb_lay() {
    let mut board = running(8, 2);
    stand(&mut board, 1, 5);
    stand(&mut board, 2, 0);
    put_bomb(&mut board, 1);
    assert!(board.is_well_formed());
    make_move(&mut board, 1001, 2, who(2), Direction::Right).unwrap();
    assert_eq!(position(&board, 2), 1);
    assert_eq!(board.board[0], Mark::Empty);
    assert_eq!(board.board[1], Mark::Player(2));
    assert!(board.is_well_formed());
}

#[test]
fn a_player_bombed_back_onto_the_cell_it_was_thrown_from_is_overwritten() {
    let mut board = running(8, 2);
    put_bomb(&mut board, 3);
    assert!(board.is_well_formed());
    let events = make_move(&mut board, 1001, 1, who(1), Direction::Right).unwrap();
    assert_eq!(
        events,
        vec![
            GameEvent::PlayerScoredBomb(PlayerScoredBombEvent { player: who(2), game_id: 7 }),
            move_made(1),
        ]
    );
    assert_eq!(position(&board, 1), 1);
    assert_eq!(position(&board, 2), 1);
    assert_eq!(board.board[1], Mark::Player(1));
    assert_eq!(board.board[0], Mark::Empty);
    assert_eq!(board.board[3], Mark::Empty);
    assert!(!board.is_well_formed());
}

#[test]
fn the_helpers_move_one_player_each() {
    let mut board = running(8, 2);
    new_position_is_empty(&mut board, 0, 10);
    assert_eq!(position(&board, 1), 10);
    assert_eq!(board.board[10], Mark::Player(1));
    assert_eq!(board.board[0], Mark::Empty);
    new_position_is_king(&mut board, 0, 27);
    assert_eq!(position(&board, 1), 27);
    assert_eq!(board.board[27], Mark::Player(1));
    assert_eq!(board.board[10], Mark::Empty);
    put_powerup(&mut board, 30);
    let event = new_position_is_powerup(&mut board, 1, 30);
    assert_eq!(event, PlayerScoredPowerupEvent { player: who(2), game_id: 7 });
    assert_eq!(position(&board, 2), 30);
    assert_eq!(board.players[1].powerup_score, POWERUP_SCORE);
    assert_eq!(board.board[1], Mark::Empty);
    put_bomb(&mut board, 31);
    let event = new_position_is_bomb(&mut board, 1, 31);
    assert_eq!(event, PlayerScoredBombEvent { player: who(2), game_id: 7 });
    assert_eq!(position(&board, 2), 1);
    assert_eq!(board.board[30], Mark::Empty);
    assert_eq!(board.board[31], Mark::Empty);
    assert_eq!(board.board[1], Mark::Player(2));
    assert!(board.is_well_formed());
}

#[test]
fn landing_reports_what_was_landed_on() {
    let mut board = running(8, 2);
    assert_eq!(land(who(9), &mut board, 0, 16), vec![]);
    assert_eq!(position(&board, 1), 16);
    assert_eq!(
        land(who(9), &mut board, 0, 27),
        vec![GameEvent::PlayerScored(PlayerScoredEvent { player: who(9), game_id: 7 })]
    );
    assert_eq!(position(&board, 1), 27);
    put_bomb(&mut board, 50);
    assert_eq!(
        land(who(9), &mut board, 0, 50),
        vec![GameEvent::PlayerScoredBomb(PlayerScoredBombEvent { player: who(1), game_id: 7 })]
    );
    assert_eq!(position(&board, 1), 0);
    assert!(board.is_well_formed());
}

#[test]
fn a_cell_with_a_tile_holds_no_player() {
    let mut board = running(8, 2);
    put_bomb(&mut board, 9);
    put_powerup(&mut board, 10);
    assert!(check_if_player_exists(0, &mut board));
    assert!(check_if_player_exists(1, &mut board));
    assert!(!check_if_player_exists(2, &mut board));
    assert!(!check_if_player_exists(9, &mut board));
    assert!(!check_if_player_exists(10, &mut board));
    assert!(!check_if_player_exists(27, &mut board));
}

#[test]
fn a_collision_can_be_resolved_on_its_own() {
    let mut board = running(8, 2);
    let events = new_position_is_occupied_by_player(&mut board, 0, 1, 1);
    assert_eq!(events, vec![]);
    assert_eq!(position(&board, 1), 1);
    assert_eq!(position(&board, 2), 3);
    let mut board = running(8, 2);
    let events = check_board_for_new_position(who(1), &mut board, 0, 1, 1);
    assert_eq!(events, vec![]);
    assert_eq!(position(&board, 1), 1);
    assert_eq!(position(&board, 2), 3);
    assert!(board.is_well_formed());
}

#[test]
fn a_power_push_throws_the_first_player_in_the_way_four_cells() {
    let mut board = running(8, 2);
    stand(&mut board, 1, 16);
    stand(&mut board, 2, 19);
    board.players[0].powerup_score = POWERUP_SCORE;
    assert!(board.is_well_formed());
    let events = use_power(&mut board, 1, Direction::Right).unwrap();
    assert_eq!(events, vec![GameEvent::PowerUsed(PowerUsedEvent { player: 1, game_id: 7 })]);
    assert_eq!(position(&board, 1), 16);
    assert_eq!(position(&board, 2), 23);
    assert_eq!(board.board[19], Mark::Empty);
    assert_eq!(board.board[23], Mark::Player(2));
    assert_eq!(board.players[0].powerup_score, 0);
    assert!(board.is_well_formed());
}

#[test]
fn a_power_push_lands_its_target_round_the_edge() {
    let mut board = running(8, 2);
    stand(&mut board, 1, 16);
    stand(&mut board, 2, 22);
    board.players[0].powerup_score = POWERUP_SCORE;
    use_power(&mut board, 1, Direction::Right).unwrap();
    assert_eq!(position(&board, 2), 26);
    let mut board = running(8, 2);
    stand(&mut board, 1, 8);
    stand(&mut board, 2, 48);
    board.players[0].powerup_score = POWERUP_SCORE;
    use_power(&mut board, 1, Direction::Down).unwrap();
    assert_eq!(position(&board, 2), 16);
    assert_eq!(board.board[48], Mark::Empty);
    assert_eq!(board.board[16], Mark::Player(2));
    assert!(board.is_well_formed());
}

#[test]
fn a_power_push_along_a_row_stops_at_the_end_of_the_row() {
    let mut board = running(8, 2);
    stand(&mut board, 1, 22);
    stand(&mut board, 2, 24);
    board.players[0].powerup_score = POWERUP_SCORE;
    assert!(board.is_well_formed());
    let before = board.clone();
    let events = use_power(&mut board, 1, Direction::Right).unwrap();
    assert_eq!(events, vec![GameEvent::PowerUsed(PowerUsedEvent { player: 1, game_id: 7 })]);
    assert_eq!(board.board, before.board);
    assert_eq!(position(&board, 2), 24);
    assert_eq!(board.players[0].powerup_score, 0);
    let mut board = running(8, 2);
    stand(&mut board, 1, 24);
    stand(&mut board, 2, 23);
    board.players[0].powerup_score = POWERUP_SCORE;
    use_power(&mut board, 1, Direction::Left).unwrap();
    assert_eq!(position(&board, 2), 23);
    assert_eq!(board.players[0].powerup_score, 0);
    assert!(board.is_well_formed());
}

#[test]
fn a_power_push_along_a_column_stops_at_the_edge_of_the_board() {
    let mut board = running(8, 2);
    stand(&mut board, 1, 50);
    stand(&mut board, 2, 2);
    board.players[0].powerup_score = POWERUP_SCORE;
    let before = board.clone();
    use_power(&mut board, 1, Direction::Down).unwrap();
    assert_eq!(board.board, before.board);
    assert_eq!(board.players[0].powerup_score, 0);
    let mut board = running(8, 2);
    stand(&mut board, 1, 10);
    stand(&mut board, 2, 58);
    board.players[0].powerup_score = POWERUP_SCORE;
    use_power(&mut board, 1, Direction::Up).unwrap();
    assert_eq!(position(&board, 2), 58);
    assert_eq!(board.players[0].powerup_score, 0);
    assert!(board.is_well_formed());
}

#[test]
fn a_power_push_passes_over_tiles_to_the_first_player() {
    let mut board = running(10, 4);
    stand(&mut board, 1, 30);
    stand(&mut board, 2, 34);
    stand(&mut board, 3, 36);
    put_bomb(&mut board, 31);
    put_powerup(&mut board, 32);
    board.players[0].powerup_score = POWERUP_SCORE;
    assert!(board.is_well_formed());
    use_power(&mut board, 1, Direction::Right).unwrap();
    assert_eq!(position(&board, 2), 38);
    assert_eq!(position(&board, 3), 36);
    assert_eq!(board.board[31], Mark::Bomb);
    assert_eq!(board.board[32], Mark::Powerup);
    assert!(board.is_well_formed());
}

#[test]
fn a_power_push_nudges_aside_whoever_stands_where_the_target_lands() {
    let mut board = running(10, 4);
    stand(&mut board, 1, 30);
    stand(&mut board, 2, 31);
    stand(&mut board, 3, 35);
    board.players[0].powerup_score = POWERUP_SCORE;
    assert!(board.is_well_formed());
    let events = use_power(&mut board, 1, Direction::Right).unwrap();
    assert_eq!(events, vec![GameEvent::PowerUsed(PowerUsedEvent { player: 1, game_id: 7 })]);
    assert_eq!(position(&board, 2), 35);
    assert_eq!(position(&board, 3), 36);
    assert_eq!(board.board[31], Mark::Empty);
    assert_eq!(board.board[35], Mark::Player(2));
    assert_eq!(board.board[36], Mark::Player(3));
    assert_eq!(board.players[0].powerup_score, 0);
    assert!(board.is_well_formed());
}

#[test]
fn a_power_push_is_blocked_where_the_way_aside_is_taken() {
    for blocker in [Mark::Player(4), Mark::King, Mark::Bomb, Mark::Powerup] {
        let mut board = running(10, 4);
        let king = board.king_current_position as usize;
        board.board[king] = Mark::Empty;
        stand(&mut board, 1, 30);
        stand(&mut board, 2, 31);
        stand(&mut board, 3, 35);
        match blocker {
            Mark::Player(id) => stand(&mut board, id, 36),
            Mark::King => {
                board.board[36] = Mark::King;
                board.king_current_position = 36;
            }
            Mark::Bomb => put_bomb(&mut board, 36),
            _ => put_powerup(&mut board, 36),
        }
        board.players[0].powerup_score = POWERUP_SCORE;
        assert!(board.is_well_formed());
        let before = board.clone();
        let events = use_power(&mut board, 1, Direction::Right).unwrap();
        assert_eq!(events, vec![GameEvent::PowerUsed(PowerUsedEvent { player: 1, game_id: 7 })]);
        assert_eq!(board.board, before.board);
        assert_eq!(position(&board, 2), 31);
        assert_eq!(position(&board, 3), 35);
        assert_eq!(board.players[0].powerup_score, 0);
        assert!(board.is_well_formed());
    }
}

#[test]
fn a_power_push_can_send_its_target_onto_a_tile() {
    let mut board = running(8, 2);
    stand(&mut board, 1, 24);
    stand(&mut board, 2, 25);
    put_bomb(&mut board, 29);
    board.players[0].powerup_score = POWERUP_SCORE;
    assert!(board.is_well_formed());
    let events = use_power(&mut board, 1, Direction::Right).unwrap();
    assert_eq!(
        events,
        vec![
            GameEvent::PlayerScoredBomb(PlayerScoredBombEvent { player: who(2), game_id: 7 }),
            GameEvent::PowerUsed(PowerUsedEvent { player: 1, game_id: 7 }),
        ]
    );
    assert_eq!(position(&board, 2), 1);
    assert_eq!(board.board[25], Mark::Empty);
    assert_eq!(board.board[29], Mark::Empty);
    assert!(board.is_well_formed());
}

#[test]
fn a_power_push_from_four_rows_away_nudges_the_pusher() {
    let mut board = running(8, 2);
    stand(&mut board, 1, 2);
    stand(&mut board, 2, 34);
    board.players[0].powerup_score = POWERUP_SCORE;
    assert!(board.is_well_formed());
    use_power(&mut board, 1, Direction::Down).unwrap();
    assert_eq!(position(&board, 1), 10);
    assert_eq!(position(&board, 2), 2);
    assert_eq!(board.board[34], Mark::Empty);
    assert!(board.is_well_formed());
}

#[test]
fn the_push_by_offset_spends_the_charge_too() {
    let mut board = running(8, 2);
    stand(&mut board, 1, 16);
    stand(&mut board, 2, 17);
    board.players[0].powerup_score = POWERUP_SCORE;
    let events = use_power_with_direction(&mut board, 0, 1);
    assert_eq!(events, vec![]);
    assert_eq!(position(&board, 2), 21);
    assert_eq!(board.players[0].powerup_score, 0);
    assert!(board.is_well_formed());
}

#[test]
fn a_push_into_a_cell_far_from_the_pusher_resolves_too() {
    let mut board = running(10, 4);
    arrange(&mut board, &[50, 23, 25, 70]);
    assert!(board.is_well_formed());
    let events = check_board_for_new_position(who(1), &mut board, 0, 23, 1);
    assert_eq!(events, vec![]);
    assert_eq!(position(&board, 1), 23);
    assert_eq!(position(&board, 2), 25);
    assert_eq!(position(&board, 3), 27);
    assert_eq!(position(&board, 4), 70);
    assert_eq!(board.board[50], Mark::Empty);
    assert_eq!(board.board[23], Mark::Player(1));
    assert_eq!(board.board[25], Mark::Player(2));
    assert_eq!(board.board[27], Mark::Player(3));
    assert!(board.is_well_formed());
}

#[test]
fn five_players_in_a_column_are_all_thrown_on() {
    let mut board = running(12, 6);
    let king = board.king_current_position as usize;
    board.board[king] = Mark::Empty;
    arrange(&mut board, &[100, 5, 5 + 2 * 12, 5 + 4 * 12, 5 + 6 * 12, 5 + 8 * 12]);
    assert!(board.is_well_formed());
    check_board_for_new_position(who(1), &mut board, 0, 5, 12);
    assert_eq!(position(&board, 1), 5);
    assert_eq!(position(&board, 2), 5 + 2 * 12);
    assert_eq!(position(&board, 6), 5 + 10 * 12);
    assert_eq!(board.board[100], Mark::Empty);
    assert!(board.is_well_formed());
}
