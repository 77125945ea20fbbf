use dual::protocol::{
    sequence_greater_than, sequence_greater_than_u16, ClientCommand, Packet, PacketHeader, PacketType,
    CHANNEL_RELIABLE, CHANNEL_UNRELIABLE, PROTOCOL_MAGIC, PROTOCOL_VERSION,
};

#[test]
fn test_sequence_comparison() {
    assert!(sequence_greater_than(2, 1));
    assert!(!sequence_greater_than(1, 2));
    assert!(sequence_greater_than(0, u32::MAX));
    assert!(!sequence_greater_than(u32::MAX, 0));
}

#[test]
fn sequence_comparison_at_half_range() {
    assert!(sequence_greater_than(0x8000_0000, 1));
    assert!(!sequence_greater_than(0x8000_0001, 1));
    assert!(sequence_greater_than(1, 0x8000_0002));
    assert!(!sequence_greater_than(5, 5));
}

#[test]
fn u16_sequence_comparison_wraps() {
    assert!(sequence_greater_than_u16(0, u16::MAX));
    assert!(!sequence_greater_than_u16(u16::MAX, 0));
    assert!(sequence_greater_than_u16(10, 3));
    assert!(!sequence_greater_than_u16(7, 7));
}

#[test]
fn header_carries_magic_and_version() {
    let header = PacketHeader::new(1, 2, 3, PacketHeader::CHANNEL_RELIABLE, 9);
    assert_eq!(header.magic, PROTOCOL_MAGIC);
    assert_eq!(header.version, PROTOCOL_VERSION);
    assert_eq!(header.sequence, 1);
    assert_eq!(header.ack, 2);
    assert_eq!(header.ack_bitfield, 3);
    assert_eq!(header.channel, CHANNEL_RELIABLE);
    assert_eq!(header.channel_seq, 9);
    assert!(header.is_valid());
}

#[test]
fn header_with_foreign_magic_or_version_is_invalid() {
    let mut header = PacketHeader::new(1, 0, 0, CHANNEL_UNRELIABLE, 0);
    header.magic = 0x1234_5678;
    assert!(!header.is_valid());
    let mut header = PacketHeader::new(1, 0, 0, CHANNEL_UNRELIABLE, 0);
    header.version = PROTOCOL_VERSION + 1;
    assert!(!header.is_valid());
}

#[test]
fn client_command_starts_neutral() {
    let cmd = ClientCommand::new(42, 7);
    assert_eq!(cmd.tick, 42);
    assert_eq!(cmd.command_sequence, 7);
    assert_eq!(cmd.move_direction, [0, 0, 0]);
    assert_eq!(cmd.view_angles, [0, 0]);
    assert_eq!(cmd.input_flags, 0);
}

#[test]
fn set_flag_reads_back_and_leaves_others() {
    let mut cmd = ClientCommand::new(0, 0);
    cmd.set_flag(ClientCommand::FLAG_JUMP, true);
    cmd.set_flag(ClientCommand::FLAG_FIRE1, true);
    assert!(cmd.has_flag(ClientCommand::FLAG_JUMP));
    assert!(cmd.has_flag(ClientCommand::FLAG_FIRE1));
    assert!(!cmd.has_flag(ClientCommand::FLAG_CROUCH));
    assert_eq!(cmd.input_flags, ClientCommand::FLAG_JUMP | ClientCommand::FLAG_FIRE1);
    cmd.set_flag(ClientCommand::FLAG_JUMP, false);
    assert!(!cmd.has_flag(ClientCommand::FLAG_JUMP));
    assert!(cmd.has_flag(ClientCommand::FLAG_FIRE1));
    assert_eq!(cmd.input_flags, ClientCommand::FLAG_FIRE1);
}

#[test]
fn packet_clone_keeps_header_and_payload() {
    let header = PacketHeader::new(1, 0, 0, PacketHeader::CHANNEL_UNRELIABLE, 0);
    let packet = Packet::new(header, PacketType::Ping { timestamp: 12345 });
    let copy = packet.clone();
    assert_eq!(copy.header, header);
    assert!(matches!(copy.payload, PacketType::Ping { timestamp: 12345 }));
}
