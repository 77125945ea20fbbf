use dual::protocol::ClientCommand;
use dual::simulation::{CommandBuffer, FixedTimestep, MAX_ACCUMULATE_US};

#[test]
fn fixed_timestep_integer_accumulation() {
    let mut ts = FixedTimestep::new(128);
    // 128 tick = 7812.5us per tick, but integer division gives 7812
    assert_eq!(ts.tick_interval_us(), 7812);

    // Accumulate ~16ms (one 60fps frame) = 16000us
    ts.accumulate_us(16000);
    // Should get 2 ticks: 16000 / 7812 = 2.048
    assert!(ts.consume_tick());
    assert!(ts.consume_tick());
    assert!(!ts.consume_tick());
}

#[test]
fn fixed_timestep_no_drift() {
    let mut ts = FixedTimestep::new(128);
    // Simulate 0.25 second of frames at 60fps (within 250ms cap)
    let mut total_ticks = 0;
    for _ in 0..15 {
        ts.accumulate_us(16667); // ~16.667ms per frame
        while ts.consume_tick() {
            total_ticks += 1;
        }
    }
    // 15 * 16667 = 250_005us, / 7812 = ~32 ticks
    assert!(total_ticks >= 31 && total_ticks <= 33, "got {} ticks", total_ticks);
}

#[test]
fn accumulator_is_capped_at_quarter_second() {
    let mut ts = FixedTimestep::new(128);
    ts.accumulate_us(1_000_000);
    let mut count = 0;
    while ts.consume_tick() {
        count += 1;
    }
    // 250_000 / 7812 = 32 ticks, never more
    assert_eq!(count, MAX_ACCUMULATE_US / 7812);
    assert_eq!(count, 32);
}

#[test]
fn drained_ticks_equal_time_over_interval() {
    let mut ts = FixedTimestep::new(60);
    assert_eq!(ts.tick_rate(), 60);
    assert_eq!(ts.tick_interval_us(), 16_666);
    ts.accumulate_us(50_000);
    let mut count = 0u64;
    while ts.consume_tick() {
        count += 1;
    }
    assert_eq!(count, 50_000 / 16_666);
    assert!(!ts.should_tick());
    ts.accumulate_us(16_000);
    // 50_000 - 3 * 16_666 = 2, plus 16_000 => 16_002 < 16_666
    assert!(!ts.should_tick());
    ts.accumulate_us(664);
    assert!(ts.should_tick());
    ts.reset();
    assert!(!ts.should_tick());
}

#[test]
fn command_buffer_ordering() {
    let mut buffer = CommandBuffer::new(64);

    let cmd1 = ClientCommand::new(5, 1);
    let cmd2 = ClientCommand::new(3, 2);
    let cmd3 = ClientCommand::new(10, 3);

    buffer.push(1, cmd2);
    buffer.push(1, cmd1);
    buffer.push(1, cmd3);

    let drained = buffer.drain_for_tick(5);
    assert_eq!(drained.len(), 2);
    assert_eq!(drained[0].command.tick, 3);
    assert_eq!(drained[1].command.tick, 5);

    assert_eq!(buffer.len(), 1);
}

#[test]
fn command_buffer_stops_at_first_future_command() {
    let mut buffer = CommandBuffer::new(8);
    buffer.push(1, ClientCommand::new(9, 1));
    buffer.push(2, ClientCommand::new(2, 2));
    assert!(buffer.drain_for_tick(5).is_empty());
    assert_eq!(buffer.len(), 2);
    let all = buffer.drain_for_tick(9);
    assert_eq!(all.len(), 2);
    assert_eq!(all[0].entity_id, 1);
    assert_eq!(all[1].entity_id, 2);
    assert!(buffer.is_empty());
}

#[test]
fn command_buffer_drops_oldest_when_full() {
    let mut buffer = CommandBuffer::new(2);
    buffer.push(1, ClientCommand::new(1, 1));
    buffer.push(2, ClientCommand::new(2, 2));
    buffer.push(3, ClientCommand::new(3, 3));
    assert_eq!(buffer.len(), 2);
    let all = buffer.drain_for_tick(10);
    assert_eq!(all[0].entity_id, 2);
    assert_eq!(all[1].entity_id, 3);
    buffer.push(4, ClientCommand::new(4, 4));
    buffer.clear();
    assert!(buffer.is_empty());
}
