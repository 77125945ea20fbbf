use dual::event::{EventQueue, GameEvent, PendingEvent, ReliabilityMode};

#[test]
fn event_expiration() {
    let event = PendingEvent {
        tick: 0,
        timestamp_ms: 1000,
        event: GameEvent::PlayerKill {
            killer_id: 1,
            victim_id: 2,
            weapon_id: 0,
        },
        sequence: 0,
        acked: false,
    };

    assert!(!event.is_expired(5000));
    assert!(event.is_expired(15000));
}

#[test]
fn reliable_never_expires() {
    let event = PendingEvent {
        tick: 0,
        timestamp_ms: 0,
        event: GameEvent::ChatMessage {
            sender_id: 1,
            channel: 0,
            message: "test".to_string(),
        },
        sequence: 0,
        acked: false,
    };

    assert!(!event.is_expired(1_000_000));
}

#[test]
fn queue_ack_cleanup() {
    let mut queue = EventQueue::new(64);

    queue.push(0, 0, GameEvent::PlayerDeath { player_id: 1 });
    queue.push(
        0,
        0,
        GameEvent::ChatMessage {
            sender_id: 1,
            channel: 0,
            message: "test".to_string(),
        },
    );

    assert_eq!(queue.len(), 2);

    queue.ack(0);
    queue.cleanup(0);

    assert_eq!(queue.len(), 1);
}

#[test]
fn reliability_modes() {
    assert!(ReliabilityMode::Reliable.is_reliable());
    assert!(!ReliabilityMode::Unreliable.is_reliable());
    assert_eq!(ReliabilityMode::UnreliableExpiring { ttl_ms: 7 }.ttl_ms(), Some(7));
    assert_eq!(ReliabilityMode::Reliable.ttl_ms(), None);
    assert_eq!(ReliabilityMode::Unreliable.ttl_ms(), None);
    assert_eq!(
        GameEvent::PlayerKill { killer_id: 1, victim_id: 2, weapon_id: 0 }.reliability(),
        ReliabilityMode::UnreliableExpiring { ttl_ms: 10_000 }
    );
    assert_eq!(GameEvent::RoundStart { round_number: 1 }.reliability(), ReliabilityMode::Reliable);
    assert_eq!(GameEvent::VoiceData { sender_id: 1, data: vec![1] }.reliability(), ReliabilityMode::Unreliable);
    assert!(GameEvent::DamageDealt { attacker_id: 1, target_id: 2, damage: 5, hitbox: 0 }.is_transient());
    assert!(!GameEvent::PlayerDeath { player_id: 1 }.is_transient());
}

#[test]
fn plain_unreliable_event_is_always_expired() {
    let event = PendingEvent {
        tick: 0,
        timestamp_ms: 100,
        event: GameEvent::ProjectileFired { owner_id: 1, projectile_id: 2, weapon_id: 3 },
        sequence: 0,
        acked: false,
    };
    assert!(event.is_expired(100));
}

#[test]
fn expiry_boundary_is_strict() {
    let event = PendingEvent {
        tick: 0,
        timestamp_ms: 1000,
        event: GameEvent::PlayerDeath { player_id: 1 },
        sequence: 0,
        acked: false,
    };
    assert!(!event.is_expired(6000));
    assert!(event.is_expired(6001));
    assert!(!event.is_expired(500));
}

#[test]
fn push_numbers_events_in_order() {
    let mut queue = EventQueue::new(8);
    assert!(queue.is_empty());
    assert_eq!(queue.push(1, 0, GameEvent::PlayerDeath { player_id: 1 }), 0);
    assert_eq!(queue.push(1, 0, GameEvent::PlayerDeath { player_id: 2 }), 1);
    assert_eq!(queue.push(2, 0, GameEvent::PlayerDeath { player_id: 3 }), 2);
    assert_eq!(queue.len(), 3);
    let pending = queue.pending_for_send();
    assert_eq!(pending.len(), 3);
    assert_eq!(pending[2].sequence, 2);
}

#[test]
fn ack_up_to_acknowledges_everything_older() {
    let mut queue = EventQueue::new(8);
    for i in 0..4u32 {
        queue.push(0, 0, GameEvent::ChatMessage { sender_id: i, channel: 0, message: String::new() });
    }
    queue.ack_up_to(2);
    assert_eq!(queue.pending_for_send().len(), 1);
    assert_eq!(queue.reliable_pending().len(), 1);
    queue.cleanup(0);
    assert_eq!(queue.len(), 1);
}

#[test]
fn drain_events_for_tick_takes_only_that_tick() {
    let mut queue = EventQueue::new(8);
    queue.push(1, 0, GameEvent::PlayerDeath { player_id: 1 });
    queue.push(2, 0, GameEvent::PlayerDeath { player_id: 2 });
    queue.push(1, 0, GameEvent::PlayerDeath { player_id: 3 });
    let drained = queue.drain_events_for_tick(1);
    assert_eq!(drained.len(), 2);
    assert!(matches!(drained[0], GameEvent::PlayerDeath { player_id: 1 }));
    assert!(matches!(drained[1], GameEvent::PlayerDeath { player_id: 3 }));
    assert_eq!(queue.len(), 1);
    queue.clear();
    assert!(queue.is_empty());
}

#[test]
fn full_queue_evicts_oldest_unreliable() {
    let mut queue = EventQueue::new(2);
    queue.push(0, 0, GameEvent::ChatMessage { sender_id: 1, channel: 0, message: String::new() });
    queue.push(0, 0, GameEvent::PlayerDeath { player_id: 1 });
    queue.push(0, 0, GameEvent::PlayerDeath { player_id: 2 });
    assert_eq!(queue.len(), 2);
    let pending = queue.pending_for_send();
    assert_eq!(pending[0].sequence, 0);
    assert_eq!(pending[1].sequence, 2);
}
