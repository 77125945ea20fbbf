use dual::lobby::{Lobby, LobbyManager, LobbySettings, LobbyState, Queue};

#[test]
fn test_lobby_lifecycle() {
    let mut manager = LobbyManager::new();

    let lobby_id = manager.create_lobby(1, LobbySettings::default(), 0);
    assert!(manager.join_lobby(lobby_id, 2, None).is_ok());
    assert!(manager.join_lobby(lobby_id, 1, None).is_err());

    let lobby = manager.get(lobby_id).unwrap();
    assert_eq!(lobby.players.len(), 2);

    manager.leave_lobby(1);
    let lobby = manager.get(lobby_id).unwrap();
    assert_eq!(lobby.host, 2);
}

#[test]
fn test_queue() {
    let mut queue = Queue::new(4);

    queue.enqueue(1, 0);
    queue.enqueue(2, 0);
    queue.enqueue(3, 0);

    assert_eq!(queue.position(2), Some(2));
    assert!(queue.pop_match().is_none());

    queue.enqueue(4, 0);
    let match_players = queue.pop_match().unwrap();
    assert_eq!(match_players, vec![1, 2, 3, 4]);
    assert!(queue.is_empty());
}

#[test]
fn test_lobby_password() {
    let mut manager = LobbyManager::new();

    let settings = LobbySettings {
        password: Some("secret".to_string()),
        ..Default::default()
    };

    let lobby_id = manager.create_lobby(1, settings, 0);

    assert!(manager.join_lobby(lobby_id, 2, None).is_err());
    assert!(manager.join_lobby(lobby_id, 2, Some("wrong")).is_err());
    assert!(manager.join_lobby(lobby_id, 2, Some("secret")).is_ok());
}

#[test]
fn default_settings_values() {
    let s = LobbySettings::default();
    assert_eq!(s.name, "Game Lobby");
    assert_eq!(s.max_players, 16);
    assert!(s.password.is_none());
    assert_eq!(s.map_name, "default");
    assert_eq!(s.game_mode, "deathmatch");
    assert_eq!(s.countdown_secs, 10);
    assert!(s.public);
}

#[test]
fn join_errors_name_their_cause() {
    let mut manager = LobbyManager::new();
    let settings = LobbySettings { max_players: 2, password: Some("pw".to_string()), ..Default::default() };
    let id = manager.create_lobby(1, settings, 0);

    assert_eq!(manager.join_lobby(id + 100, 2, None), Err("Lobby not found"));
    assert_eq!(manager.join_lobby(id, 2, Some("nope")), Err("Invalid password"));
    assert_eq!(manager.join_lobby(id, 1, Some("pw")), Err("Already in a lobby"));
    assert_eq!(manager.join_lobby(id, 2, Some("pw")), Ok(()));
    assert_eq!(manager.join_lobby(id, 3, Some("pw")), Err("Lobby is full"));
    assert_eq!(manager.player_lobby(2), Some(id));
    assert_eq!(manager.player_lobby(3), None);
}

#[test]
fn leaving_last_player_removes_lobby() {
    let mut manager = LobbyManager::new();
    let id = manager.create_lobby(7, LobbySettings::default(), 0);
    assert_eq!(manager.lobby_count(), 1);
    assert_eq!(manager.leave_lobby(7), Some(id));
    assert_eq!(manager.lobby_count(), 0);
    assert!(manager.get(id).is_none());
    assert_eq!(manager.leave_lobby(7), None);
}

#[test]
fn second_lobby_gets_next_id_and_creator_membership() {
    let mut manager = LobbyManager::new();
    let a = manager.create_lobby(1, LobbySettings::default(), 0);
    let b = manager.create_lobby(2, LobbySettings::default(), 0);
    assert_eq!(b, a + 1);
    assert_eq!(manager.player_lobby(1), Some(a));
    assert_eq!(manager.player_lobby(2), Some(b));
}

#[test]
fn list_public_hides_private_lobbies() {
    let mut manager = LobbyManager::new();
    let open = manager.create_lobby(1, LobbySettings::default(), 0);
    let hidden = LobbySettings { public: false, ..Default::default() };
    manager.create_lobby(2, hidden, 0);
    let listed = manager.list_public();
    assert_eq!(listed.len(), 1);
    assert_eq!(listed[0].id, open);
    assert_eq!(listed[0].player_count, 1);
    assert_eq!(listed[0].max_players, 16);
    assert!(!listed[0].has_password);
    assert_eq!(listed[0].name, "Game Lobby");
}

#[test]
fn lobby_players_and_host_handover() {
    let mut lobby = Lobby::new(5, 10, LobbySettings { max_players: 3, ..Default::default() }, 0);
    assert_eq!(lobby.player_count(), 1);
    assert!(!lobby.is_empty());
    assert!(!lobby.has_password());
    assert!(lobby.add_player(11));
    assert!(!lobby.add_player(11));
    assert!(lobby.add_player(12));
    assert!(lobby.is_full());
    assert!(!lobby.add_player(13));
    assert!(lobby.remove_player(10));
    assert_eq!(lobby.host, 11);
    assert!(!lobby.remove_player(10));
    assert!(lobby.remove_player(11));
    assert!(lobby.remove_player(12));
    assert!(lobby.is_empty());
}

#[test]
fn countdown_runs_down_in_whole_seconds() {
    let mut lobby = Lobby::new(1, 1, LobbySettings::default(), 0);
    assert_eq!(lobby.countdown_remaining(500), None);
    lobby.start_countdown(1_000);
    assert_eq!(lobby.state, LobbyState::Countdown);
    assert_eq!(lobby.countdown_remaining(1_000), Some(10));
    assert_eq!(lobby.countdown_remaining(4_500), Some(7));
    assert_eq!(lobby.countdown_remaining(11_000), Some(0));
    assert_eq!(lobby.countdown_remaining(60_000), Some(0));
    lobby.cancel_countdown();
    assert_eq!(lobby.state, LobbyState::Waiting);
    assert_eq!(lobby.countdown_remaining(2_000), None);
}

#[test]
fn countdown_only_starts_while_waiting() {
    let mut lobby = Lobby::new(1, 1, LobbySettings::default(), 0);
    lobby.state = LobbyState::InGame;
    lobby.start_countdown(0);
    assert_eq!(lobby.state, LobbyState::InGame);
    assert_eq!(lobby.countdown_remaining(0), None);
}

#[test]
fn to_info_mirrors_lobby() {
    let settings = LobbySettings { password: Some("x".to_string()), map_name: "dust".to_string(), ..Default::default() };
    let lobby = Lobby::new(42, 3, settings, 0);
    let info = lobby.to_info();
    assert_eq!(info.id, 42);
    assert_eq!(info.player_count, 1);
    assert!(info.has_password);
    assert_eq!(info.map_name, "dust");
    assert_eq!(info.game_mode, "deathmatch");
}

#[test]
fn queue_rejects_duplicates_and_dequeues() {
    let mut queue = Queue::new(2);
    assert!(queue.enqueue(1, 0));
    assert!(!queue.enqueue(1, 5));
    assert!(queue.enqueue(2, 10));
    assert_eq!(queue.len(), 2);
    assert_eq!(queue.position(1), Some(1));
    assert_eq!(queue.position(9), None);
    assert!(queue.dequeue(1));
    assert!(!queue.dequeue(1));
    assert_eq!(queue.position(2), Some(1));
    assert_eq!(queue.len(), 1);
}

#[test]
fn queue_wait_estimate_grows_with_position() {
    let mut queue = Queue::new(4);
    for p in 1..=9u32 {
        queue.enqueue(p, 0);
    }
    assert_eq!(queue.estimated_wait_secs(1), Some(0));
    assert_eq!(queue.estimated_wait_secs(3), Some(0));
    assert_eq!(queue.estimated_wait_secs(4), Some(60));
    assert_eq!(queue.estimated_wait_secs(8), Some(120));
    assert_eq!(queue.estimated_wait_secs(9), Some(120));
    assert_eq!(queue.estimated_wait_secs(99), None);
}

#[test]
fn dequeued_player_is_gone_and_others_move_up() {
    let mut queue = Queue::new(8);
    queue.enqueue(1, 0);
    queue.enqueue(2, 0);
    queue.enqueue(3, 0);
    assert!(queue.dequeue(2));
    assert_eq!(queue.position(2), None);
    assert_eq!(queue.position(1), Some(1));
    assert_eq!(queue.position(3), Some(2));
}

#[test]
fn created_lobbies_are_found_by_their_ids() {
    let mut manager = LobbyManager::new();
    let a = manager.create_lobby(1, LobbySettings::default(), 0);
    let b = manager.create_lobby(2, LobbySettings::default(), 0);
    assert_eq!((a, b), (0, 1));
    let lb = manager.get(b).unwrap();
    assert_eq!(lb.host, 2);
    assert_eq!(lb.players, vec![2]);
    assert_eq!(lb.state, LobbyState::Waiting);
    assert_eq!(manager.get(a).unwrap().host, 1);
    assert_eq!(manager.lobby_count(), 2);
}
