use polargraph::instruction::{
    get_next_instruction_bounds, is_stream_valid, InstructionError, InstructionSet,
    NextInstructionError,
};

#[test]
#[should_panic]
fn too_small_chunk_size() {
    InstructionSet::new(
        "\x0A\x0B\x2A\x3A\x0C\x0A\x0B\x2A\x3A\x0C\x0A\x0B\x2A\x3A\x0C".to_owned().into_bytes(),
        0,
        0,
    )
    .unwrap()
    .get_buffer_bounds(6)
    .unwrap();
}

#[test]
fn valid_instruction_stream() {
    let is = InstructionSet::new(
        "\x0A\x0B\x2A\x3A\x0C\x0A\x0B\x2A\x3A\x0C\x0A\x0B\x2A\x3A\x0C".to_owned().into_bytes(),
        0,
        0,
    )
    .unwrap();
    let bb = is.get_buffer_bounds(11).unwrap();
    assert_eq!(bb, [(0, 9), (10, 14)]);
}

#[test]
fn invalid_instruction_stream_0xc() {
    assert!(InstructionSet::new(
        "\x0A\x0B\x2A\x3A\x0C\x0B\x2A\x3A\x0C\x0A\x0B\x2A\x3A".to_owned().into_bytes(),
        0,
        0,
    )
    .is_err());
}

#[test]
fn invalid_instruction_stream_indexed_0xc() {
    assert!(InstructionSet::new_from_idx(
        "\x0A\x0B\x2A\x3A\x0C\x0B\x2A\x3A\x0C\x0A\x0B\x2A\x3A".to_owned().into_bytes(),
        0,
        0,
        2,
    )
    .is_err());
}

#[test]
fn empty_instruction_stream() {
    assert!(InstructionSet::new("".to_owned().into_bytes(), 0, 0).is_err());
}

#[test]
fn empty_instruction_stream_indexed() {
    assert!(InstructionSet::new_from_idx("".to_owned().into_bytes(), 0, 0, 4).is_err());
}

#[test]
fn invalid_instruction_stream_indexed() {
    assert!(InstructionSet::new_from_idx("".to_owned().into_bytes(), 0, 0, 4).is_err());
}

#[test]
fn invalid_instruction_stream_indexed_oub() {
    assert!(InstructionSet::new_from_idx(
        "\x0A\x0B\x2A\x3A\x0A\x0A\x0B\x2A\x3A\x0C\x0A\x0B\x2A\x3A\x0C".to_owned().into_bytes(),
        0,
        0,
        20,
    )
    .is_err());
}

#[test]
fn valid_instruction_stream_indexed() {
    let is = InstructionSet::new_from_idx(
        "\x0A\x0B\x2A\x3A\x0C\x0A\x0B\x2A\x3A\x0C\x0A\x0B\x2A\x3A\x0C".to_owned().into_bytes(),
        0,
        0,
        5,
    )
    .unwrap();
    let bb = is.get_buffer_bounds(64).unwrap();
    assert_eq!(bb, [(0, 9)]);
}

#[test]
fn validate_valid_stream() {
    assert!(is_stream_valid(
        InstructionSet::new(
            "\x0A\x0B\x2A\x3A\x0C\x0A\x0B\x2A\x3A\x0C\x0A\x0B\x2A\x3A\x0C"
                .to_owned()
                .into_bytes(),
            0,
            0,
        )
        .unwrap()
        .get_binary(),
    )
    .is_none());
}

#[test]
fn validate_invalid_stream() {
    assert!(InstructionSet::new(
        "\x0A\x0B\x2A\x0C\x0C\x0B\x2A\x3A\x0C\x0A\x0B\x2A\x3A\x0C".to_owned().into_bytes(),
        0,
        0,
    )
    .is_err());
}

#[test]
fn validate_pen_up_down_stream() {
    assert!(is_stream_valid(
        InstructionSet::new(
            "\x0A\x0B\x2A\x0C\x0A\x0C\x2A\x3A\x0C\x0A\x0B\x0C".to_owned().into_bytes(),
            0,
            0,
        )
        .unwrap()
        .get_binary(),
    )
    .is_none());
}

#[test]
fn validate_pen_up_down_stream_2() {
    assert!(is_stream_valid(
        InstructionSet::new(
            "\x0A\x0B\x2A\x0C\x0A\x0C\x2A\x3A\x0C\x0A\x0C".to_owned().into_bytes(),
            0,
            0,
        )
        .unwrap()
        .get_binary(),
    )
    .is_none());
}

#[test]
fn validate_not_pen_up_down_stream() {
    assert!(InstructionSet::new(
        "\x0A\x0B\x2A\x0C\x0D\x0C\x2A\x3A\x0C\x0A\x0C".to_owned().into_bytes(),
        0,
        0,
    )
    .is_err());
}

#[test]
fn buffer_too_small_boundary() {
    let is = InstructionSet::new(
        "\x0A\x0B\x2A\x3A\x0C\x0A\x0B\x2A\x3A\x0C\x0A\x0B\x2A\x3A\x0C".to_owned().into_bytes(),
        0,
        0,
    )
    .unwrap();
    assert_eq!(
        is.get_buffer_bounds(7),
        Err(InstructionError::BufferTooSmall(7))
    );
    assert!(is.get_buffer_bounds(8).is_ok());
}

#[test]
fn trailing_partial_instruction() {
    let r = InstructionSet::new(
        "\x0A\x0B\x2A\x3A\x0C\x01\x02".to_owned().into_bytes(),
        0,
        0,
    );
    assert_eq!(r.err(), Some(InstructionError::IncompleteInstructions(0x02)));
}

#[test]
fn empty_stream_error_value() {
    let r = InstructionSet::new(Vec::new(), 0, 0);
    assert_eq!(r.err(), Some(InstructionError::EmptyInstructionSet));
}

#[test]
fn start_out_of_bounds_error_value() {
    let r = InstructionSet::new_from_idx(vec![0, 0, 0, 0, 0x0C], 0, 0, 9);
    assert_eq!(
        r.err(),
        Some(InstructionError::StartOutOfBounds { start_idx: 9, upper_bound: 5 })
    );
}

#[test]
fn parse_latches_pen_state() {
    let is = InstructionSet::new(
        "\x0A\x0B\x2A\x3A\x0A\x0C\x0A\x0B\x2A\x3A\x0B\x0C".to_owned().into_bytes(),
        0,
        0,
    )
    .unwrap();
    let steps = is.parse_to_numerical_steps().unwrap();
    assert_eq!(steps, [(0x0A0B, 0x2A3A, true), (0x0A0B, 0x2A3A, false)]);
}

#[test]
fn parse_pen_state_carries_across_plain_instructions() {
    // lower the pen once; the following plain instruction keeps it down
    let is = InstructionSet::new(
        "\x00\x01\x00\x02\x0B\x0C\x00\x03\x00\x04\x0C".to_owned().into_bytes(),
        0,
        0,
    )
    .unwrap();
    let steps = is.parse_to_numerical_steps().unwrap();
    assert_eq!(steps, [(1, 2, false), (3, 4, false)]);
}

#[test]
fn parse_negative_steps() {
    let is = InstructionSet::new(vec![0xFF, 0xFF, 0x80, 0x00, 0x0C], 0, 0).unwrap();
    let steps = is.parse_to_numerical_steps().unwrap();
    assert_eq!(steps, [(-1, -32768, true)]);
}

#[test]
fn next_instruction_bounds_cases() {
    let bytes = "\x0A\x0B\x2A\x3A\x0C\x00\x00\x00\x00\x0A\x0C".to_owned().into_bytes();
    assert_eq!(get_next_instruction_bounds(&bytes, 0), Ok((0, 4)));
    assert_eq!(get_next_instruction_bounds(&bytes, 5), Ok((5, 10)));
    assert_eq!(
        get_next_instruction_bounds(&bytes, 11),
        Err(NextInstructionError::EndOfStream)
    );
    let broken = vec![0, 0, 0, 0, 0x07, 0, 0, 0, 0, 0x0C];
    assert_eq!(
        get_next_instruction_bounds(&broken, 0),
        Err(NextInstructionError::InvalidInstruction(0))
    );
}

#[test]
fn concatenated_valid_streams_stay_valid() {
    let a = "\x0A\x0B\x2A\x3A\x0C".to_owned().into_bytes();
    let b = "\x00\x01\x00\x02\x0B\x0C".to_owned().into_bytes();
    assert!(is_stream_valid(&a).is_none());
    assert!(is_stream_valid(&b).is_none());
    let mut joined = a.clone();
    joined.extend_from_slice(&b);
    assert!(is_stream_valid(&joined).is_none());
}

#[test]
fn initial_position_is_kept() {
    let is = InstructionSet::new(vec![0, 0, 0, 0, 0x0C], 12_500, -3_000).unwrap();
    assert_eq!(is.get_init(), (12_500, -3_000));
}

#[test]
fn chunks_partition_contiguously() {
    // mixed 5- and 6-byte instructions; every chunk must end on 0x0C and
    // chain on from its predecessor
    let bytes = "\x00\x01\x00\x02\x0C\x00\x03\x00\x04\x0A\x0C\x00\x05\x00\x06\x0C\x00\x07\x00\x08\x0B\x0C"
        .to_owned()
        .into_bytes();
    let is = InstructionSet::new(bytes.clone(), 0, 0).unwrap();
    let bb = is.get_buffer_bounds(11).unwrap();
    assert_eq!(bb.first().unwrap().0, 0);
    assert_eq!(bb.last().unwrap().1, bytes.len() - 1);
    for k in 0..bb.len() {
        let (s, e) = bb[k];
        assert!(e + 1 - s <= 11);
        assert_eq!(bytes[e], 0x0C);
        if k + 1 < bb.len() {
            assert_eq!(bb[k + 1].0, e + 1);
        }
    }
}
