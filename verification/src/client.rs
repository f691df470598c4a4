//! The session protocol: greeting evaluation, the pull-driven chunk
//! transfer state machine, the control messages, and the drawing-time
//! estimate.
//!
//! Every message on the wire is one opcode byte, optionally followed by a
//! payload. The functions here decide each protocol step and build each
//! outgoing message; the I/O around them lives with the caller.

use crate::instruction::{
    bounds_as_ints, chunks_from, i16_be, ins_len_at, instructions_cover, read_i16_be,
    InstructionError, InstructionSet, MIN_CHUNK_SIZE, PEN_DOWN, PEN_UP, TERMINATOR,
};
use vstd::prelude::*;

verus! {

/// Host greeting opcode; from the firmware it means "machine in use".
pub const OP_BUSY: u8 = 0x00;

/// Greeting acceptance from the firmware; from the host, a chunk follows.
pub const OP_ACCEPT: u8 = 0x01;

/// Host to firmware: end of instructions, shut down cleanly.
pub const OP_FINISH: u8 = 0x02;

/// Firmware to host: send the next chunk.
pub const OP_REQUEST: u8 = 0x03;

/// Host to firmware: pause or resume; one flag byte follows.
pub const OP_PAUSE: u8 = 0x04;

/// Host to firmware: abort the drawing.
pub const OP_ABORT: u8 = 0x05;

/// Smallest instruction buffer a machine may report in its greeting.
pub const MIN_MACHINE_BUFFER: u32 = 1024;

/// Longest byte stream the drawing-time estimate accepts; far beyond any
/// real drawing, and small enough that the step total fits a `u64`.
pub const MAX_ETA_STREAM_LEN: u64 = 0x1000_0000_0000;

/// Errors of the session protocol.
#[derive(Debug, Clone, PartialEq, Eq)]
pub enum ClientError {
    /// The machine refused the greeting: it is already drawing.
    MachineInUse,
    /// No machine answered at the address.
    MachineNotFound { addr: String, port: u16 },
    /// The greeting got no response.
    GreetingTimedOut,
    /// The machine sent bytes the protocol does not know.
    InvalidBytes { reason: String },
    /// The machine's instruction buffer is too small to draw with.
    InsBufferSmall { size: u32 },
}

/// The machine configuration reported in the greeting response.
#[derive(Debug, Clone, Copy, PartialEq, Eq)]
pub struct MachineConfiguration {
    pub protocol_version: u16,
    pub instruction_buffer_size: u32,
    pub max_motor_speed: u32,
    pub min_pulse_width: u32,
}

/// The big-endian 16-bit value standing at offset `i`.
pub open spec fn be_u16_at(b: Seq<u8>, i: int) -> int {
    (b[i] as int) * 0x100 + (b[i + 1] as int)
}

/// The big-endian 32-bit value standing at offset `i`.
pub open spec fn be_u32_at(b: Seq<u8>, i: int) -> int {
    (b[i] as int) * 0x1000000 + (b[i + 1] as int) * 0x10000 + (b[i + 2] as int) * 0x100 + (b[i
        + 3] as int)
}

/// Reads a big-endian `u16`; out-of-range offsets read as zero.
fn bytes_to_u16(array: &[u8], index: usize) -> (r: u16)
    ensures
        r as int == if index + 2 <= array@.len() {
            be_u16_at(array@, index as int)
        } else {
            0
        },
{
    let n = array.len();
    if n < 2 || index > n - 2 {
        return 0;
    }
    (array[index] as u16) * 0x100 + (array[index + 1] as u16)
}

/// Reads a big-endian `u32`; out-of-range offsets read as zero.
fn bytes_to_u32(array: &[u8], index: usize) -> (r: u32)
    ensures
        r as int == if index + 4 <= array@.len() {
            be_u32_at(array@, index as int)
        } else {
            0
        },
{
    let n = array.len();
    if n < 4 || index > n - 4 {
        return 0;
    }
    (array[index] as u32) * 0x1000000 + (array[index + 1] as u32) * 0x10000 + (array[index
        + 2] as u32) * 0x100 + (array[index + 3] as u32)
}

/// Extracts `(protocol_version, instruction_buffer_size, max_motor_speed,
/// min_pulse_width)` from a greeting response buffer. The opcode byte at
/// offset 0 is skipped; fields the buffer is too short for read as zero.
pub fn read_header(header: &[u8]) -> (r: (u16, u32, u32, u32))
    ensures
        r.0 as int == if 3 <= header@.len() {
            be_u16_at(header@, 1)
        } else {
            0
        },
        r.1 as int == if 11 <= header@.len() {
            be_u32_at(header@, 7)
        } else {
            0
        },
        r.2 as int == if 15 <= header@.len() {
            be_u32_at(header@, 11)
        } else {
            0
        },
        r.3 as int == if 19 <= header@.len() {
            be_u32_at(header@, 15)
        } else {
            0
        },
{
    (
        bytes_to_u16(header, 1),
        bytes_to_u32(header, 7),
        bytes_to_u32(header, 11),
        bytes_to_u32(header, 15),
    )
}

/// The instruction buffer size a greeting buffer reports, as its header
/// field reads.
pub open spec fn reported_buffer_size(buf: Seq<u8>) -> int {
    if 11 <= buf.len() {
        be_u32_at(buf, 7)
    } else {
        0
    }
}

/// Judges the response to the host's greeting: `OP_ACCEPT` with a large
/// enough instruction buffer yields the machine configuration; `OP_BUSY`
/// means the machine is in use; an undersized buffer or anything else is
/// refused.
pub fn evaluate_greeting(buf: &[u8]) -> (r: Result<MachineConfiguration, ClientError>)
    ensures
        buf@.len() == 0 ==> (r matches Err(e) && e matches ClientError::InvalidBytes { .. }),
        buf@.len() > 0 && buf@[0] == OP_BUSY ==> r == Err::<MachineConfiguration, _>(
            ClientError::MachineInUse,
        ),
        buf@.len() > 0 && buf@[0] == OP_ACCEPT && reported_buffer_size(buf@) < MIN_MACHINE_BUFFER
            ==> r == Err::<MachineConfiguration, _>(
            ClientError::InsBufferSmall { size: reported_buffer_size(buf@) as u32 },
        ),
        buf@.len() > 0 && buf@[0] == OP_ACCEPT && reported_buffer_size(buf@) >= MIN_MACHINE_BUFFER
            ==> (r matches Ok(c) && {
            &&& c.protocol_version as int == if 3 <= buf@.len() {
                be_u16_at(buf@, 1)
            } else {
                0
            }
            &&& c.instruction_buffer_size as int == reported_buffer_size(buf@)
            &&& c.max_motor_speed as int == if 15 <= buf@.len() {
                be_u32_at(buf@, 11)
            } else {
                0
            }
            &&& c.min_pulse_width as int == if 19 <= buf@.len() {
                be_u32_at(buf@, 15)
            } else {
                0
            }
        }),
        buf@.len() > 0 && buf@[0] != OP_BUSY && buf@[0] != OP_ACCEPT ==> (r matches Err(e)
            && e matches ClientError::InvalidBytes { .. }),
{
    if buf.len() == 0 {
        return Err(
            ClientError::InvalidBytes {
                reason: "The machine's greeting response held no bytes".to_owned(),
            },
        );
    }

    let first = buf[0];
    if first == OP_ACCEPT {
        let (protocol_version, instruction_buffer_size, max_motor_speed, min_pulse_width) =
            read_header(buf);
        if instruction_buffer_size < MIN_MACHINE_BUFFER {
            return Err(ClientError::InsBufferSmall { size: instruction_buffer_size });
        }
        Ok(
            MachineConfiguration {
                protocol_version,
                instruction_buffer_size,
                max_motor_speed,
                min_pulse_width,
            },
        )
    } else if first == OP_BUSY {
        Err(ClientError::MachineInUse)
    } else {
        Err(
            ClientError::InvalidBytes {
                reason: "Sent a greeting but the response header was not the acceptance opcode".to_owned(),
            },
        )
    }
}

/// The greeting the host opens every session with.
pub fn greeting_message() -> (r: Vec<u8>)
    ensures
        r@ == seq![OP_BUSY, OP_ACCEPT],
{
    let mut msg: Vec<u8> = Vec::new();
    msg.push(OP_BUSY);
    msg.push(OP_ACCEPT);
    proof {
        assert(msg@ =~= seq![OP_BUSY, OP_ACCEPT]);
    }
    msg
}

/// The pause/resume control message: the opcode and one flag byte.
pub fn pause_message(should_pause: bool) -> (r: Vec<u8>)
    ensures
        r@ == seq![
            OP_PAUSE,
            if should_pause {
                1u8
            } else {
                0u8
            },
        ],
{
    let mut msg: Vec<u8> = Vec::new();
    msg.push(OP_PAUSE);
    if should_pause {
        msg.push(1);
    } else {
        msg.push(0);
    }
    proof {
        assert(msg@ =~= seq![
            OP_PAUSE,
            if should_pause {
                1u8
            } else {
                0u8
            },
        ]);
    }
    msg
}

/// The abort message that force-ends a drawing.
pub fn stop_message() -> (r: Vec<u8>)
    ensures
        r@ == seq![OP_ABORT],
{
    let mut msg: Vec<u8> = Vec::new();
    msg.push(OP_ABORT);
    proof {
        assert(msg@ =~= seq![OP_ABORT]);
    }
    msg
}

/// The clean end-of-instructions message.
pub fn finish_message() -> (r: Vec<u8>)
    ensures
        r@ == seq![OP_FINISH],
{
    let mut msg: Vec<u8> = Vec::new();
    msg.push(OP_FINISH);
    proof {
        assert(msg@ =~= seq![OP_FINISH]);
    }
    msg
}

/// One chunk transfer: the acceptance opcode, then exactly the chunk's
/// bytes, to go out as a single write.
pub fn chunk_message(binary: &Vec<u8>, start: usize, end: usize) -> (r: Vec<u8>)
    requires
        start <= end < binary@.len(),
    ensures
        r@ == seq![OP_ACCEPT] + binary@.subrange(start as int, end as int + 1),
{
    let n = binary.len();
    let stop = end + 1;
    let mut msg: Vec<u8> = Vec::new();
    msg.push(OP_ACCEPT);
    let mut j = start;
    while j < stop
        invariant
            start <= j <= stop,
            stop == end + 1,
            end < n,
            n == binary@.len(),
            msg@ == seq![OP_ACCEPT] + binary@.subrange(start as int, j as int),
        decreases stop - j,
    {
        msg.push(binary[j]);
        proof {
            assert(msg@ =~= seq![OP_ACCEPT] + binary@.subrange(start as int, j as int + 1));
        }
        j = j + 1;
    }
    msg
}

/// What the listener should do with an incoming first byte.
#[derive(Debug, Clone, Copy, PartialEq, Eq)]
pub enum ListenAction {
    /// Nothing to do; keep listening.
    Ignore,
    /// Send the chunk `[start, end]` (chunk `index` of `total`) with
    /// `chunk_message`, then keep listening.
    SendChunk { start: usize, end: usize, index: usize, total: usize },
    /// Every chunk is out: send `finish_message`, close the write side,
    /// report the drawing finished, and stop listening.
    Finish,
    /// The abort opcode came back: stop listening.
    Stop,
}

/// The chunk-transfer state of one drawing session: the chunk bounds of
/// the instruction stream, and how many chunks have been handed out.
pub struct ClientState {
    chunk_bounds: Vec<(usize, usize)>,
    next_buf_idx: usize,
}

impl ClientState {
    /// The chunk bounds this session serves.
    pub closed spec fn bounds(&self) -> Seq<(usize, usize)> {
        self.chunk_bounds@
    }

    /// How many chunks have been handed out so far.
    pub closed spec fn position(&self) -> int {
        self.next_buf_idx as int
    }

    /// The position never runs past the chunk list.
    pub closed spec fn wf(&self) -> bool {
        self.next_buf_idx <= self.chunk_bounds@.len()
    }

    /// Opens the chunk-transfer state for one validated instruction set,
    /// chunked to the machine's reported buffer size. A buffer too small
    /// to hold one instruction is refused.
    pub fn new(ins_set: &InstructionSet, machine_config: &MachineConfiguration) -> (r: Result<
        ClientState,
        InstructionError,
    >)
        ensures
            machine_config.instruction_buffer_size < MIN_CHUNK_SIZE as u32 ==> r == Err::<
                ClientState,
                _,
            >(InstructionError::BufferTooSmall(machine_config.instruction_buffer_size as usize)),
            machine_config.instruction_buffer_size >= MIN_CHUNK_SIZE as u32 ==> (r matches Ok(cs)
                && {
                &&& cs.wf()
                &&& bounds_as_ints(cs.bounds()) == chunks_from(
                    ins_set@,
                    0,
                    machine_config.instruction_buffer_size as int,
                )
                &&& cs.position() == 0
            }),
    {
        let chunk_bounds = match ins_set.get_buffer_bounds(
            machine_config.instruction_buffer_size as usize,
        ) {
            Ok(bounds) => bounds,
            Err(err) => {
                return Err(err);
            },
        };
        Ok(ClientState { chunk_bounds, next_buf_idx: 0 })
    }

    /// Decides one listener step from the first byte the firmware sent: a
    /// chunk request hands out the next chunk, or ends the stream once
    /// every chunk is out; the abort opcode stops the listener; anything
    /// else is ignored.
    pub fn handle_incoming(&mut self, first_byte: u8) -> (a: ListenAction)
        requires
            old(self).wf(),
        ensures
            final(self).wf(),
            final(self).bounds() == old(self).bounds(),
            first_byte == OP_REQUEST && old(self).position() < old(self).bounds().len() ==> {
                let k = old(self).position();
                &&& a == ListenAction::SendChunk {
                    start: old(self).bounds()[k].0,
                    end: old(self).bounds()[k].1,
                    index: k as usize,
                    total: old(self).bounds().len() as usize,
                }
                &&& final(self).position() == k + 1
            },
            first_byte == OP_REQUEST && old(self).position() == old(self).bounds().len() ==> a
                == ListenAction::Finish && *final(self) == *old(self),
            first_byte == OP_ABORT ==> a == ListenAction::Stop && *final(self) == *old(self),
            first_byte != OP_REQUEST && first_byte != OP_ABORT ==> a == ListenAction::Ignore
                && *final(self) == *old(self),
    {
        if first_byte == OP_REQUEST {
            let total = self.chunk_bounds.len();
            if self.next_buf_idx == total {
                return ListenAction::Finish;
            }
            let (start, end) = self.chunk_bounds[self.next_buf_idx];
            let index = self.next_buf_idx;
            self.next_buf_idx = self.next_buf_idx + 1;
            ListenAction::SendChunk { start, end, index, total }
        } else if first_byte == OP_ABORT {
            ListenAction::Stop
        } else {
            ListenAction::Ignore
        }
    }
}

/// What the pen-positioning helper should do with an incoming first byte.
#[derive(Debug, Clone, PartialEq, Eq)]
pub enum MoveAction {
    /// Send the whole positioning stream as one chunk.
    SendInstructions,
    /// The stream is already out: send `finish_message` and stop.
    SendFinish,
    /// Give up with this error.
    Fail(ClientError),
    /// Nothing to act on; keep waiting.
    KeepWaiting,
}

/// Decides one step of the blocking pen-positioning exchange, from the
/// first byte received, the buffer it came in, the length of the
/// positioning stream, and whether that stream already went out. A chunk
/// request sends the stream, then ends it; the busy opcode fails the move;
/// an acceptance whose reported buffer cannot hold the stream fails it
/// too.
pub fn move_session_step(first_byte: u8, buf: &[u8], ins_len: usize, sent: bool) -> (a: MoveAction)
    ensures
        first_byte == OP_REQUEST && !sent ==> a == MoveAction::SendInstructions,
        first_byte == OP_REQUEST && sent ==> a == MoveAction::SendFinish,
        first_byte == OP_BUSY ==> a == MoveAction::Fail(ClientError::MachineInUse),
        first_byte == OP_ACCEPT && reported_buffer_size(buf@) < ins_len ==> a == MoveAction::Fail(
            ClientError::InsBufferSmall { size: reported_buffer_size(buf@) as u32 },
        ),
        first_byte == OP_ACCEPT && reported_buffer_size(buf@) >= ins_len ==> a
            == MoveAction::KeepWaiting,
        first_byte != OP_REQUEST && first_byte != OP_BUSY && first_byte != OP_ACCEPT ==> a
            == MoveAction::KeepWaiting,
{
    if first_byte == OP_REQUEST {
        if !sent {
            MoveAction::SendInstructions
        } else {
            MoveAction::SendFinish
        }
    } else if first_byte == OP_BUSY {
        MoveAction::Fail(ClientError::MachineInUse)
    } else if first_byte == OP_ACCEPT {
        let (_, instruction_buffer_size, _, _) = read_header(buf);
        if (instruction_buffer_size as usize) < ins_len {
            MoveAction::Fail(ClientError::InsBufferSmall { size: instruction_buffer_size })
        } else {
            MoveAction::KeepWaiting
        }
    } else {
        MoveAction::KeepWaiting
    }
}

/// A step count's magnitude.
pub open spec fn abs_steps(v: i16) -> int {
    if v >= 0 {
        v as int
    } else {
        -(v as int)
    }
}

/// The steps the slower-bounded motor of the instruction at `i` performs:
/// the larger of the two magnitudes.
pub open spec fn ins_max_steps(b: Seq<u8>, i: int) -> int {
    let left = abs_steps(i16_be(b[i], b[i + 1]));
    let right = abs_steps(i16_be(b[i + 2], b[i + 3]));
    if left >= right {
        left
    } else {
        right
    }
}

/// The summed per-instruction step maxima of the stream from `i` on.
pub open spec fn total_steps_from(b: Seq<u8>, i: int) -> int
    decreases b.len() - i,
{
    match ins_len_at(b, i) {
        Some(l) => ins_max_steps(b, i) + total_steps_from(b, i + l),
        None => 0,
    }
}

/// The drawing time of a stream in whole seconds, rounded half-up: the
/// summed step maxima over the motor speed. A stream that breaks the
/// grammar, or a zero speed, estimates as zero.
pub open spec fn draw_secs(b: Seq<u8>, max_motor_speed: u32) -> int {
    if max_motor_speed == 0 || !instructions_cover(b, 0, b.len() as int) {
        0
    } else {
        (2 * total_steps_from(b, 0) + max_motor_speed) / (2 * (max_motor_speed as int))
    }
}

/// Estimates in seconds how long the machine takes to draw `ins_bytes`,
/// walking the stream by the grammar and charging each instruction its
/// larger step magnitude at `max_motor_speed` steps per second. The pulse
/// width is accepted for forward compatibility and does not enter the
/// estimate. Failure is silent: a broken stream estimates as zero.
pub fn calculate_draw_time(ins_bytes: &[u8], max_motor_speed: u32, _min_pulse_width: u32) -> (r:
    u64)
    requires
        ins_bytes@.len() <= MAX_ETA_STREAM_LEN,
    ensures
        r as int == draw_secs(ins_bytes@, max_motor_speed),
{
    let ghost b = ins_bytes@;
    if max_motor_speed == 0 {
        return 0;
    }
    let n = ins_bytes.len();
    let mut total: u64 = 0;
    let mut i: usize = 0;

    while i < n
        invariant
            i <= n,
            n == b.len(),
            b == ins_bytes@,
            n as u64 <= MAX_ETA_STREAM_LEN,
            instructions_cover(b, 0, n as int) == instructions_cover(b, i as int, n as int),
            total as int + total_steps_from(b, i as int) == total_steps_from(b, 0),
            5 * total as int <= i as int * 0x8000,
        decreases n - i,
    {
        if n - i < 5 {
            proof {
                assert(ins_len_at(b, i as int) is None);
            }
            return 0;
        }
        let tail = ins_bytes[i + 4];
        let l: usize;
        if tail == TERMINATOR {
            l = 5;
        } else if tail == PEN_UP || tail == PEN_DOWN {
            if n - i >= 6 && ins_bytes[i + 5] == TERMINATOR {
                l = 6;
            } else {
                proof {
                    assert(ins_len_at(b, i as int) is None);
                }
                return 0;
            }
        } else {
            proof {
                assert(ins_len_at(b, i as int) is None);
            }
            return 0;
        }
        proof {
            assert(ins_len_at(b, i as int) == Some(l as int));
        }

        let left = read_i16_be(ins_bytes, i);
        let right = read_i16_be(ins_bytes, i + 2);
        let left_abs: u32 = if left >= 0 {
            left as u32
        } else {
            (-(left as i32)) as u32
        };
        let right_abs: u32 = if right >= 0 {
            right as u32
        } else {
            (-(right as i32)) as u32
        };
        let most: u32 = if left_abs >= right_abs {
            left_abs
        } else {
            right_abs
        };
        proof {
            assert(most as int == ins_max_steps(b, i as int));
        }
        total = total + most as u64;
        i = i + l;
    }

    let speed = max_motor_speed as u64;
    let secs = (2 * total + speed) / (2 * speed);
    proof {
        assert(instructions_cover(b, n as int, n as int));
        assert(secs as int == draw_secs(b, max_motor_speed));
    }
    secs
}

} // verus!
