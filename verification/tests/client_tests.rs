use polargraph::client::{
    calculate_draw_time, chunk_message, evaluate_greeting, finish_message, greeting_message,
    move_session_step, pause_message, read_header, stop_message, ClientError, ClientState,
    ListenAction, MachineConfiguration, MoveAction,
};
use polargraph::instruction::{InstructionError, InstructionSet};

/// A greeting response buffer reporting the given configuration.
fn greeting_buffer(
    protocol_version: u16,
    instruction_buffer_size: u32,
    max_motor_speed: u32,
    min_pulse_width: u32,
) -> Vec<u8> {
    let mut buf = vec![0u8; 255];
    buf[0] = 0x01;
    buf[1..3].copy_from_slice(&protocol_version.to_be_bytes());
    buf[7..11].copy_from_slice(&instruction_buffer_size.to_be_bytes());
    buf[11..15].copy_from_slice(&max_motor_speed.to_be_bytes());
    buf[15..19].copy_from_slice(&min_pulse_width.to_be_bytes());
    buf
}

#[test]
fn read_header_extracts_the_fields() {
    let buf = greeting_buffer(2, 4096, 1500, 2500);
    assert_eq!(read_header(&buf), (2, 4096, 1500, 2500));
}

#[test]
fn read_header_short_buffer_reads_zero() {
    assert_eq!(read_header(&[0x01, 0x00]), (0, 0, 0, 0));
}

#[test]
fn greeting_busy_machine_is_refused() {
    let mut buf = vec![0u8; 255];
    buf[0] = 0x00;
    assert_eq!(evaluate_greeting(&buf), Err(ClientError::MachineInUse));
}

#[test]
fn greeting_small_buffer_is_refused() {
    let buf = greeting_buffer(1, 512, 1500, 2500);
    assert_eq!(
        evaluate_greeting(&buf),
        Err(ClientError::InsBufferSmall { size: 512 })
    );
}

#[test]
fn greeting_acceptance_yields_the_configuration() {
    let buf = greeting_buffer(1, 4096, 1500, 2500);
    assert_eq!(
        evaluate_greeting(&buf),
        Ok(MachineConfiguration {
            protocol_version: 1,
            instruction_buffer_size: 4096,
            max_motor_speed: 1500,
            min_pulse_width: 2500,
        })
    );
}

#[test]
fn greeting_unknown_opcode_is_refused() {
    let mut buf = vec![0u8; 255];
    buf[0] = 0x07;
    assert!(matches!(
        evaluate_greeting(&buf),
        Err(ClientError::InvalidBytes { .. })
    ));
}

#[test]
fn control_messages_are_bit_exact() {
    assert_eq!(greeting_message(), vec![0x00, 0x01]);
    assert_eq!(pause_message(true), vec![0x04, 0x01]);
    assert_eq!(pause_message(false), vec![0x04, 0x00]);
    assert_eq!(stop_message(), vec![0x05]);
    assert_eq!(finish_message(), vec![0x02]);
}

#[test]
fn chunk_message_frames_the_chunk() {
    let binary = vec![0x0A, 0x0B, 0x2A, 0x3A, 0x0C, 0x00, 0x00, 0x00, 0x00, 0x0C];
    assert_eq!(
        chunk_message(&binary, 0, 4),
        vec![0x01, 0x0A, 0x0B, 0x2A, 0x3A, 0x0C]
    );
    assert_eq!(
        chunk_message(&binary, 5, 9),
        vec![0x01, 0x00, 0x00, 0x00, 0x00, 0x0C]
    );
}

fn three_chunk_session() -> ClientState {
    // three 5-byte instructions; a buffer of 8 bytes holds one each
    let is = InstructionSet::new(
        "\x0A\x0B\x2A\x3A\x0C\x0A\x0B\x2A\x3A\x0C\x0A\x0B\x2A\x3A\x0C".to_owned().into_bytes(),
        0,
        0,
    )
    .unwrap();
    let config = MachineConfiguration {
        protocol_version: 1,
        instruction_buffer_size: 8,
        max_motor_speed: 2000,
        min_pulse_width: 2500,
    };
    ClientState::new(&is, &config).unwrap()
}

#[test]
fn pull_driven_loop_hands_out_every_chunk_once() {
    let mut session = three_chunk_session();
    assert_eq!(
        session.handle_incoming(0x03),
        ListenAction::SendChunk { start: 0, end: 4, index: 0, total: 3 }
    );
    assert_eq!(
        session.handle_incoming(0x03),
        ListenAction::SendChunk { start: 5, end: 9, index: 1, total: 3 }
    );
    assert_eq!(
        session.handle_incoming(0x03),
        ListenAction::SendChunk { start: 10, end: 14, index: 2, total: 3 }
    );
    assert_eq!(session.handle_incoming(0x03), ListenAction::Finish);
}

#[test]
fn listener_ignores_unknown_bytes_and_stops_on_abort() {
    let mut session = three_chunk_session();
    assert_eq!(session.handle_incoming(0x02), ListenAction::Ignore);
    assert_eq!(session.handle_incoming(0x7F), ListenAction::Ignore);
    assert_eq!(session.handle_incoming(0x05), ListenAction::Stop);
    // nothing above consumed a chunk
    assert_eq!(
        session.handle_incoming(0x03),
        ListenAction::SendChunk { start: 0, end: 4, index: 0, total: 3 }
    );
}

#[test]
fn pause_between_requests_does_not_disturb_the_chunks() {
    let mut session = three_chunk_session();
    assert_eq!(
        session.handle_incoming(0x03),
        ListenAction::SendChunk { start: 0, end: 4, index: 0, total: 3 }
    );
    // a pause is injected between two requests, as its own whole message
    assert_eq!(pause_message(true), vec![0x04, 0x01]);
    assert_eq!(
        session.handle_incoming(0x03),
        ListenAction::SendChunk { start: 5, end: 9, index: 1, total: 3 }
    );
    assert_eq!(pause_message(false), vec![0x04, 0x00]);
    assert_eq!(
        session.handle_incoming(0x03),
        ListenAction::SendChunk { start: 10, end: 14, index: 2, total: 3 }
    );
    assert_eq!(session.handle_incoming(0x03), ListenAction::Finish);
}

#[test]
fn session_refuses_a_buffer_below_one_instruction() {
    let is = InstructionSet::new(vec![0, 0, 0, 0, 0x0C], 0, 0).unwrap();
    let config = MachineConfiguration {
        protocol_version: 1,
        instruction_buffer_size: 6,
        max_motor_speed: 2000,
        min_pulse_width: 2500,
    };
    assert_eq!(
        ClientState::new(&is, &config).err(),
        Some(InstructionError::BufferTooSmall(6))
    );
}

#[test]
fn move_session_sends_then_finishes() {
    let buf = [0u8; 255];
    assert_eq!(
        move_session_step(0x03, &buf, 5, false),
        MoveAction::SendInstructions
    );
    assert_eq!(move_session_step(0x03, &buf, 5, true), MoveAction::SendFinish);
    assert_eq!(
        move_session_step(0x00, &buf, 5, false),
        MoveAction::Fail(ClientError::MachineInUse)
    );
    assert_eq!(move_session_step(0x42, &buf, 5, false), MoveAction::KeepWaiting);
}

#[test]
fn move_session_checks_the_reported_buffer() {
    let small = greeting_buffer(1, 4, 1500, 2500);
    assert_eq!(
        move_session_step(0x01, &small, 5, false),
        MoveAction::Fail(ClientError::InsBufferSmall { size: 4 })
    );
    let big = greeting_buffer(1, 4096, 1500, 2500);
    assert_eq!(move_session_step(0x01, &big, 5, false), MoveAction::KeepWaiting);
}

#[test]
fn draw_time_charges_the_larger_magnitude() {
    // one instruction, 105 steps left and 3 steps right, at 10 steps/s:
    // 10.5 seconds round half-up to 11
    let bytes = vec![0x00, 0x69, 0x00, 0x03, 0x0C];
    assert_eq!(calculate_draw_time(&bytes, 10, 2500), 11);
}

#[test]
fn draw_time_sums_instructions() {
    // three instructions of max(2571, 10810) steps each at 2000 steps/s:
    // 32430 / 2000 = 16.215, rounded to 16
    let bytes = "\x0A\x0B\x2A\x3A\x0C\x0A\x0B\x2A\x3A\x0C\x0A\x0B\x2A\x3A\x0C"
        .to_owned()
        .into_bytes();
    assert_eq!(calculate_draw_time(&bytes, 2000, 2500), 16);
}

#[test]
fn draw_time_walks_pen_op_instructions() {
    // 10 steps left, 20 steps right with a pen op, at 10 steps/s: 2 seconds
    let bytes = vec![0x00, 0x0A, 0x00, 0x14, 0x0A, 0x0C];
    assert_eq!(calculate_draw_time(&bytes, 10, 2500), 2);
}

#[test]
fn draw_time_is_zero_on_broken_streams() {
    assert_eq!(calculate_draw_time(&[0, 0, 0, 0, 0x07], 2000, 2500), 0);
    assert_eq!(calculate_draw_time(&[0x0C, 0x0C], 2000, 2500), 0);
    assert_eq!(calculate_draw_time(&[], 2000, 2500), 0);
    // a zero motor speed yields no estimate rather than an error
    assert_eq!(calculate_draw_time(&[0, 0, 0, 0, 0x0C], 0, 2500), 0);
}
