use monopoly_server::action::{Action, Payload, PlayerAction};
use monopoly_server::board::standard_board;
use monopoly_server::game::{Game, Phase, Player};
use monopoly_server::registry::{
    identify_name, new_player, player_ids, start_game_with, start_new_game, ActiveGames,
    WaitingRoom, MATCH_SIZE,
};

fn player(id: u128, name: &str) -> Player {
    Player::new(id, name.to_owned())
}

fn two_player_game(id: u128, a: u128, b: u128) -> Game {
    Game {
        id,
        players: vec![player(a, "A"), player(b, "B")],
        board: standard_board(),
        current_turn: 0,
        player_turn: 0,
        phase: Phase::AwaitingRoll,
    }
}

#[test]
fn test_server_state_creation() {
    let waiting_room = WaitingRoom::new();
    assert!(waiting_room.players.is_empty());
    let active_games = ActiveGames::new();
    assert!(active_games.games.is_empty());
}

#[test]
fn test_start_new_game() {
    let mut room = WaitingRoom::new();
    assert!(!room.add_to_waiting_room(player(1, "WaitingPlayer1")));
    assert!(room.add_to_waiting_room(player(2, "WaitingPlayer2")));
    let mut games = ActiveGames::new();
    let mut out = Vec::new();
    let id = start_new_game(&mut room, &mut games, &mut out);
    assert!(id.is_some());
    assert!(room.players.is_empty());
    assert_eq!(games.len(), 1);
    assert_eq!(games.games[0].id, id.unwrap());
    assert_eq!(out.len(), 2);
    assert_eq!(out[0].message.action, Action::GameStart);
    assert_eq!(out[0].recipients, vec![1, 2]);
    assert_eq!(out[1].message.action, Action::PlayerTurn);
}

#[test]
fn start_game_with_announces_roster_and_first_player() {
    let mut room = WaitingRoom::new();
    room.add_to_waiting_room(player(1, "Ann"));
    room.add_to_waiting_room(player(2, "Bob"));
    room.add_to_waiting_room(player(3, "Cat"));
    let mut games = ActiveGames::new();
    let mut out = Vec::new();
    assert!(start_game_with(&mut room, &mut games, 77, 5, &mut out));
    assert_eq!(room.players.len(), 1);
    assert_eq!(room.players[0].id, 3);
    let g = &games.games[0];
    assert_eq!(g.id, 77);
    assert_eq!(g.player_turn, 5 % MATCH_SIZE);
    assert_eq!(g.board.len(), 40);
    match &out[0].message.payload {
        Payload::Roster(v) => {
            assert_eq!(v.len(), 2);
            assert_eq!((v[0].id, v[0].name.as_str()), (1, "Ann"));
            assert_eq!((v[1].id, v[1].name.as_str()), (2, "Bob"));
        }
        _ => panic!("expected a roster"),
    }
    assert!(matches!(out[1].message.payload, Payload::PlayerId(2)));
    // a second match under the same id is refused
    room.add_to_waiting_room(player(4, "Dan"));
    assert!(!start_game_with(&mut room, &mut games, 77, 0, &mut out));
    assert_eq!(games.len(), 1);
    assert_eq!(room.players.len(), 2);
}

#[test]
fn matchmaking_triggers_when_the_room_reaches_match_size() {
    let mut room = WaitingRoom::new();
    assert!(!room.add_to_waiting_room(player(1, "A")));
    assert!(room.add_to_waiting_room(player(2, "B")));
    assert!(!room.add_to_waiting_room(player(3, "C")));
    assert_eq!(room.players.len(), 3);
}

#[test]
fn matchmaking_needs_enough_players() {
    let mut room = WaitingRoom::new();
    room.add_to_waiting_room(player(1, "Alone"));
    let mut games = ActiveGames::new();
    let mut out = Vec::new();
    assert_eq!(start_new_game(&mut room, &mut games, &mut out), None);
    assert_eq!(room.players.len(), 1);
    assert!(out.is_empty());
}

#[test]
fn waiting_room_refuses_duplicates_and_removes_by_id() {
    let mut room = WaitingRoom::new();
    room.add_to_waiting_room(player(1, "A"));
    assert!(!room.add_to_waiting_room(player(1, "A again")));
    assert_eq!(room.players.len(), 1);
    assert!(room.contains(1));
    room.remove_from_waiting(1);
    room.remove_from_waiting(1);
    assert!(!room.contains(1));
    assert!(room.players.is_empty());
}

#[test]
fn handle_message_in_game_roll_action() {
    let mut games = ActiveGames::new();
    let mut game = two_player_game(5, 1, 2);
    game.players.truncate(1);
    games.games.push(game);
    let mut out = Vec::new();
    let routed = games.handle_message_in_game(1, Action::Roll, &mut out);
    let (k, d1, d2, departed) = routed.unwrap();
    assert!(!departed);
    assert_eq!(k, 0);
    assert!(games.contains_game(5));
    assert_eq!(games.games[0].players[0].position, (d1 + d2) as usize);
    assert_eq!(out[0].action, Action::Roll);
}

#[test]
fn messages_from_players_without_the_turn_go_nowhere() {
    let mut games = ActiveGames::new();
    games.games.push(two_player_game(5, 1, 2));
    let mut out = Vec::new();
    assert!(games.handle_message_in_game_with(2, Action::Roll, 3, 4, &mut out).is_none());
    assert!(games.handle_message_in_game_with(9, Action::Roll, 3, 4, &mut out).is_none());
    assert!(out.is_empty());
    assert_eq!(games.games[0].players[1].position, 0);
}

#[test]
fn disconnect_of_turn_holder_passes_the_turn() {
    let mut games = ActiveGames::new();
    let mut three = two_player_game(5, 1, 2);
    three.players.push(player(3, "C"));
    games.games.push(three);
    games.games.push(two_player_game(6, 4, 5));
    let mut out = Vec::new();
    games.remove_player_from_matches(1, &mut out);
    assert_eq!(games.len(), 2);
    let g = &games.games[0];
    assert_eq!(player_ids(&g.players), vec![2, 3]);
    assert_eq!(g.player_turn, 0);
    assert_eq!(out.len(), 1);
    assert_eq!(out[0].recipients, vec![2, 3]);
    assert!(matches!(out[0].message.payload, Payload::PlayerId(2)));
}

#[test]
fn disconnect_leaving_one_player_ends_and_drops_the_match() {
    let mut games = ActiveGames::new();
    games.games.push(two_player_game(5, 1, 2));
    let mut out = Vec::new();
    games.remove_player_from_matches(1, &mut out);
    assert_eq!(games.len(), 0);
    assert_eq!(out.len(), 1);
    assert_eq!(out[0].message.action, Action::GameOver);
    assert_eq!(out[0].recipients, vec![2]);
}

#[test]
fn disconnect_of_other_player_keeps_turn_holder() {
    let mut games = ActiveGames::new();
    let mut g = two_player_game(5, 1, 2);
    g.players.push(player(3, "C"));
    g.player_turn = 2;
    games.games.push(g);
    let mut out = Vec::new();
    games.remove_player_from_matches(2, &mut out);
    assert_eq!(games.games[0].player_turn, 1);
    assert_eq!(games.games[0].players[1].id, 3);
    assert!(out.is_empty());
}

#[test]
fn identify_takes_the_name_of_an_identify_message() {
    let first = PlayerAction { action_type: Action::Identify, data: Some("Ann".to_owned()) };
    assert_eq!(identify_name(&first), Some("Ann".to_owned()));
    let wrong = PlayerAction { action_type: Action::Roll, data: Some("Ann".to_owned()) };
    assert_eq!(identify_name(&wrong), None);
    let empty = PlayerAction { action_type: Action::Identify, data: None };
    assert_eq!(identify_name(&empty), None);
}

#[test]
fn new_players_get_distinct_ids() {
    let a = new_player("A".to_owned());
    let b = new_player("B".to_owned());
    assert_ne!(a.id, b.id);
    assert_eq!(a.money, 1500);
    assert_eq!(a.name, "A");
}
