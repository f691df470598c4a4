use polargraph::instruction::{is_stream_valid, InstructionSet};
use polargraph::surface::{StepSurface, SurfaceError};

#[test]
fn sample_encodes_big_endian_instruction() {
    let mut surface = StepSurface::new();
    surface.sample_steps(0x0A0B, 0x2A3A).unwrap();
    assert_eq!(surface.current_ins(), &vec![0x0A, 0x0B, 0x2A, 0x3A, 0x0C]);
}

#[test]
fn sample_encodes_negative_steps() {
    let mut surface = StepSurface::new();
    surface.sample_steps(-1, -2).unwrap();
    assert_eq!(surface.current_ins(), &vec![0xFF, 0xFF, 0xFF, 0xFE, 0x0C]);
}

#[test]
fn sample_step_overflow_leaves_surface_unchanged() {
    let mut surface = StepSurface::new();
    surface.sample_steps(7, 8).unwrap();
    let before = surface.current_ins().clone();

    assert_eq!(surface.sample_steps(32768, 0), Err(SurfaceError::StepOverflow));
    assert_eq!(surface.sample_steps(0, -32768), Err(SurfaceError::StepOverflow));
    assert_eq!(surface.current_ins(), &before);

    // the extreme in-range magnitudes still encode
    surface.sample_steps(32767, -32767).unwrap();
    assert_eq!(surface.current_ins().len(), 10);
}

#[test]
fn raise_pen_extends_last_instruction() {
    let mut surface = StepSurface::new();
    surface.sample_steps(1, 2).unwrap();
    surface.raise_pen(true);
    assert_eq!(surface.current_ins(), &vec![0x00, 0x01, 0x00, 0x02, 0x0A, 0x0C]);

    // a second call overwrites the pen op instead of growing the instruction
    surface.raise_pen(false);
    assert_eq!(surface.current_ins(), &vec![0x00, 0x01, 0x00, 0x02, 0x0B, 0x0C]);
}

#[test]
fn raise_pen_without_instructions_is_a_noop() {
    let mut surface = StepSurface::new();
    surface.raise_pen(true);
    assert!(surface.current_ins().is_empty());
}

#[test]
fn pop_sample_undoes_the_last_sample() {
    let mut surface = StepSurface::new();
    surface.sample_steps(5, -3).unwrap();
    let before = surface.current_ins().clone();

    surface.sample_steps(100, 200).unwrap();
    assert_eq!(surface.pop_sample(), Ok((100, 200)));
    assert_eq!(surface.current_ins(), &before);

    assert_eq!(surface.pop_sample(), Ok((5, -3)));
    assert!(surface.current_ins().is_empty());
    assert_eq!(surface.pop_sample(), Err(SurfaceError::Empty));
}

#[test]
fn pop_sample_removes_a_pen_op_instruction_whole() {
    let mut surface = StepSurface::new();
    surface.sample_steps(1, 1).unwrap();
    surface.sample_steps(9, -9).unwrap();
    surface.raise_pen(false);
    assert_eq!(surface.pop_sample(), Ok((9, -9)));
    assert_eq!(surface.current_ins(), &vec![0x00, 0x01, 0x00, 0x01, 0x0C]);
}

#[test]
fn surface_stream_validates_and_decodes() {
    let mut surface = StepSurface::new();
    surface.sample_steps(10, 20).unwrap();
    surface.raise_pen(false);
    surface.sample_steps(-30, 40).unwrap();
    surface.sample_steps(0, 0).unwrap();

    let bytes = surface.into_bytes();
    assert!(is_stream_valid(&bytes).is_none());

    let is = InstructionSet::new(bytes, 0, 0).unwrap();
    let steps = is.parse_to_numerical_steps().unwrap();
    // the lowered pen latches across the following plain instructions
    assert_eq!(steps, [(10, 20, false), (-30, 40, false), (0, 0, false)]);
}
