//! Supervisor trap decoding and the program-counter and timer arithmetic
//! that the trap handler performs.
use vstd::prelude::*;

verus! {

/// The registers saved on the stack by the trap entry code.
pub struct TrapContext {
    pub ra: usize,
    pub sp: usize,
    pub gp: usize,
    pub tp: usize,
    pub regs: [usize; 27],
}

/// Timer ticks between two timer interrupts (one second at 10 MHz).
pub const TIMER_INTERVAL: u64 = 10_000_000;

/// What the trap handler does for a given `scause`.
#[derive(Copy, Clone, PartialEq, Eq, Structural)]
pub enum TrapKind {
    /// Supervisor timer interrupt (code 5): count a tick, set the next deadline.
    Timer,
    /// Any other interrupt: nothing to do.
    OtherInterrupt,
    /// Environment call from supervisor mode (code 9): resume after the call.
    SupervisorEcall,
    /// Breakpoint (code 3): resume after the breakpoint instruction.
    Breakpoint,
    /// Any other exception: the handler stops there.
    Fatal,
}

/// Bit 63 of `scause`: the trap is an interrupt.
pub open spec fn is_interrupt(scause: u64) -> bool {
    scause / 0x8000_0000_0000_0000 == 1
}

/// The low 12 bits of `scause`: the cause code.
pub open spec fn cause_code(scause: u64) -> u64 {
    scause % 4096
}

/// The kind of trap `scause` describes.
pub open spec fn trap_kind(scause: u64) -> TrapKind {
    if is_interrupt(scause) {
        if cause_code(scause) == 5 {
            TrapKind::Timer
        } else {
            TrapKind::OtherInterrupt
        }
    } else if cause_code(scause) == 9 {
        TrapKind::SupervisorEcall
    } else if cause_code(scause) == 3 {
        TrapKind::Breakpoint
    } else {
        TrapKind::Fatal
    }
}

/// The interrupt bit (63) and the cause code (bits 0 to 11) of `scause`.
pub fn split_scause(scause: u64) -> (r: (bool, u64))
    ensures
        r.0 == is_interrupt(scause),
        r.1 == cause_code(scause),
{
    let interrupt: bool = (scause >> 63) & 1 == 1;
    let code: u64 = scause & 0xfff;
    assert(((scause >> 63u64) & 1u64 == 1u64) == (scause / 0x8000_0000_0000_0000 == 1)) by (bit_vector);
    assert((scause & 0xfffu64) == scause % 4096) by (bit_vector);
    (interrupt, code)
}

/// Decodes `scause`: the interrupt bit and the cause code select what the
/// handler does.
pub fn decode_trap(scause: u64) -> (k: TrapKind)
    ensures
        k == trap_kind(scause),
{
    let (interrupt, code) = split_scause(scause);
    if interrupt {
        if code == 5 {
            TrapKind::Timer
        } else {
            TrapKind::OtherInterrupt
        }
    } else {
        if code == 9 {
            TrapKind::SupervisorEcall
        } else if code == 3 {
            TrapKind::Breakpoint
        } else {
            TrapKind::Fatal
        }
    }
}

/// How the handler treats a trap, by the raw `scause`: an exception (bit 63
/// clear) is resumed after only for cause code 9 (an environment call from
/// supervisor mode) and 3 (a breakpoint), and every other exception code
/// stops the handler; an interrupt (bit 63 set) is a timer tick exactly
/// when its code is 5, and is never fatal.
pub proof fn law_trap_kind_by_cause(scause: u64)
    ensures
        scause < 0x8000_0000_0000_0000 ==> {
            &&& (trap_kind(scause) == TrapKind::SupervisorEcall) == (scause % 4096 == 9)
            &&& (trap_kind(scause) == TrapKind::Breakpoint) == (scause % 4096 == 3)
            &&& (trap_kind(scause) == TrapKind::Fatal) == (scause % 4096 != 9 && scause % 4096 != 3)
        },
        scause >= 0x8000_0000_0000_0000 ==> {
            &&& (trap_kind(scause) == TrapKind::Timer) == (scause % 4096 == 5)
            &&& trap_kind(scause) != TrapKind::Fatal
            &&& trap_kind(scause) != TrapKind::SupervisorEcall
            &&& trap_kind(scause) != TrapKind::Breakpoint
        },
{
}

/// The next timer deadline after a timer interrupt read the time `now`.
pub fn timer_deadline(now: u64) -> (next: u64)
    requires
        now + TIMER_INTERVAL <= u64::MAX,
    ensures
        next == now + TIMER_INTERVAL,
{
    now + TIMER_INTERVAL
}

/// Where to resume after an environment call at `sepc` (the `ecall`
/// instruction is 4 bytes long).
pub fn ecall_return(sepc: u64) -> (pc: u64)
    requires
        sepc + 4 <= u64::MAX,
    ensures
        pc == sepc + 4,
{
    sepc + 4
}

/// The length of the instruction whose first 16 bits are `instruction`: 2 for
/// a compressed instruction (low two bits not both set), otherwise 4.
pub open spec fn instruction_length(instruction: u16) -> u64 {
    if instruction % 4 != 3 {
        2
    } else {
        4
    }
}

/// The length of the instruction whose first 16 bits are `instruction` (see
/// `instruction_length`).
pub fn instruction_size(instruction: u16) -> (n: u64)
    ensures
        n == instruction_length(instruction),
{
    assert(((instruction & 3u16) != 3u16) == (instruction % 4 != 3)) by (bit_vector);
    if (instruction & 0b11) != 0b11 {
        2
    } else {
        4
    }
}

/// The program counter after skipping the instruction at `sepc`, whose first
/// 16 bits are `instruction`.
pub fn advance_sepc(sepc: u64, instruction: u16) -> (pc: u64)
    requires
        sepc + instruction_length(instruction) <= u64::MAX,
    ensures
        pc == sepc + instruction_length(instruction),
{
    let step: u64 = instruction_size(instruction);
    sepc + step
}

} // verus!
